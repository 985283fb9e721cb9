use webscraper::catalog::menu_links_in;
use webscraper::html::{HtmlDoc, HtmlNode, Query};
use webscraper::page::{last_page_in, product_urls_in};
use webscraper::product::{count_from_match, review_line_of, stars_of, Product};

fn node(name: Option<&str>, attrs: &[(&str, &str)], parent: Option<usize>, text: &str) -> HtmlNode {
    HtmlNode {
        name: name.map(|s| s.to_string()),
        attrs: attrs.iter().map(|(a, b)| (a.to_string(), b.to_string())).collect(),
        parent,
        text: text.to_string(),
        html: String::new(),
    }
}

fn ratings() -> HtmlDoc {
    HtmlDoc::from_nodes(vec![
        node(Some("div"), &[("class", "ratings")], None, "12 reviews"),
        node(Some("p"), &[], Some(0), "12 reviews"),
        node(None, &[], Some(1), "12 reviews"),
        node(Some("p"), &[], Some(0), ""),
        node(Some("span"), &[("class", "glyphicon glyphicon-star")], Some(3), ""),
        node(Some("span"), &[("class", "glyphicon glyphicon-star")], Some(3), ""),
    ])
    .unwrap()
}

#[test]
fn from_nodes_needs_parents_first() {
    assert!(HtmlDoc::from_nodes(vec![node(Some("a"), &[], Some(0), "")]).is_none());
    assert!(HtmlDoc::from_nodes(vec![node(Some("a"), &[], None, ""), node(None, &[], Some(0), "x")]).is_some());
}

#[test]
fn ratings_from_a_node_table() {
    let doc = ratings();
    assert_eq!(review_line_of(&doc), "12 reviews");
    assert_eq!(stars_of(&doc), 2);
    assert_eq!(doc.find(&Query::name("p")), vec![1, 3]);
    assert_eq!(doc.find_below(3, &Query::class("glyphicon-star")), vec![4, 5]);
    assert!(doc.find_below(1, &Query::name("span")).is_empty());
}

#[test]
fn review_count_from_the_match() {
    assert_eq!(count_from_match(Some("14".to_string()), 3), 14);
    assert_eq!(count_from_match(Some("99999999999".to_string()), 3), 0);
    assert_eq!(count_from_match(None, 3), 3);
}

#[test]
fn options_and_caption_from_tables() {
    let frame = HtmlDoc::from_nodes(vec![
        node(Some("select"), &[("aria-label", "color")], None, ""),
        node(Some("option"), &[("value", "")], Some(0), "pick"),
        node(Some("option"), &[("value", "Red")], Some(0), "Red"),
        node(Some("div"), &[("class", "swatches")], None, ""),
        node(Some("button"), &[("value", "S")], Some(3), ""),
        node(Some("button"), &[("value", "M"), ("disabled", "")], Some(3), ""),
    ])
    .unwrap();
    let mut p = Product::default();
    p.read_options(&frame);
    assert_eq!(p.colors, vec!["Red".to_string()]);
    assert_eq!(p.sizes, vec!["S".to_string()]);
    let caption = HtmlDoc::from_nodes(vec![
        node(Some("h4"), &[("class", "price")], None, "$3.50"),
        node(Some("h4"), &[], None, "Cup"),
        node(Some("p"), &[("class", "description")], None, "A cup"),
    ])
    .unwrap();
    p.read_caption(&caption);
    assert_eq!((p.name.as_str(), p.price.as_str(), p.description.as_str()), ("Cup", "3.50", "A cup"));
}

#[test]
fn pages_and_menus_from_tables() {
    let doc = HtmlDoc::from_nodes(vec![
        node(Some("ul"), &[("class", "pagination")], None, ""),
        node(Some("a"), &[], Some(0), "1"),
        node(Some("a"), &[], Some(0), "7"),
        node(Some("a"), &[], Some(0), "next"),
        node(Some("div"), &[("id", "side-menu")], None, ""),
        node(Some("a"), &[("href", "/x")], Some(4), " X "),
    ])
    .unwrap();
    assert_eq!(last_page_in(&doc), Some(7));
    assert!(product_urls_in(&doc).is_empty());
    assert_eq!(menu_links_in(&doc, &Query::name("a")), Some(vec![("X".to_string(), "/x".to_string())]));
}
