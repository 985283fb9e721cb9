use webscraper::catalog::{add_links, category_links, link_map, subcategory_links, Categories, KeyedMap, Links};
use webscraper::command::{command_of, Command};

const HOME: &str = r#"<html><body><div id="side-menu" class="sidebar">
<ul><li><a href="/test-sites/e-commerce/static">Home</a></li>
<li><a href="/test-sites/e-commerce/static/computers"> Computers </a></li>
<li><a>no link</a></li></ul></div></body></html>"#;

const CATEGORY: &str = r#"<html><body><div id="side-menu">
<a href="/c">Computers</a>
<ul><li><a class="subcategory-link" href="/c/laptops">
  Laptops</a></li><li><a class="subcategory-link" href="/c/tablets">Tablets</a></li></ul>
</div></body></html>"#;

fn pair(a: &str, b: &str) -> (String, String) {
    (a.to_string(), b.to_string())
}

#[test]
fn home_menu_links() {
    let links = category_links(&HOME.to_string()).unwrap();
    assert_eq!(links, vec![pair("Home", "/test-sites/e-commerce/static"), pair("Computers", "/test-sites/e-commerce/static/computers")]);
    assert_eq!(category_links(&"<p>nothing</p>".to_string()), None);
}

#[test]
fn category_menu_sub_links() {
    let links = subcategory_links(&CATEGORY.to_string()).unwrap();
    assert_eq!(links, vec![pair("Laptops", "/c/laptops"), pair("Tablets", "/c/tablets")]);
    assert_eq!(subcategory_links(&"<div></div>".to_string()), None);
}

#[test]
fn later_link_wins() {
    let m = link_map(vec![pair("a", "1"), pair("b", "2"), pair("a", "3")]);
    assert_eq!(m.len(), 2);
    assert_eq!(m.get("a").map(|s| s.as_str()), Some("3"));
    assert_eq!(m.get("b").map(|s| s.as_str()), Some("2"));
    assert_eq!(m.get("c"), None);
}

#[test]
fn keyed_map_read_after_write() {
    let mut m: Links = KeyedMap::new();
    m.insert("k".to_string(), "v".to_string());
    m.insert("j".to_string(), "w".to_string());
    m.insert("k".to_string(), "z".to_string());
    assert_eq!(m.get("k").map(|s| s.as_str()), Some("z"));
    assert_eq!(m.entries().len(), 2);
    assert_eq!(m.remove("k"), Some("z".to_string()));
    assert_eq!(m.get("k"), None);
    assert_eq!(m.len(), 1);
}

#[test]
fn categories_gather_links() {
    let mut c: Categories = KeyedMap::new();
    add_links(&mut c, &"Computers".to_string(), vec![pair("Laptops", "/l")]);
    add_links(&mut c, &"Phones".to_string(), Vec::new());
    add_links(&mut c, &"Computers".to_string(), vec![pair("Tablets", "/t"), pair("Laptops", "/l2")]);
    assert_eq!(c.len(), 1);
    let inner = c.get("Computers").unwrap();
    assert_eq!(inner.len(), 2);
    assert_eq!(inner.get("Laptops").map(|s| s.as_str()), Some("/l2"));
    assert_eq!(inner.get("Tablets").map(|s| s.as_str()), Some("/t"));
    assert!(c.get("Phones").is_none());
}

#[test]
fn commands() {
    assert_eq!(command_of("init"), Command::Init);
    assert_eq!(command_of("scrape"), Command::Scrape);
    assert_eq!(command_of("Scrape"), Command::Invalid);
}

#[test]
fn category_page_without_menu_empties_the_catalog() {
    let mut c: Categories = KeyedMap::new();
    assert!(webscraper::catalog::add_category_page(&mut c, &"Computers".to_string(), &CATEGORY.to_string()));
    assert_eq!(c.get("Computers").unwrap().len(), 2);
    assert!(!webscraper::catalog::add_category_page(&mut c, &"Phones".to_string(), &"<p>no menu</p>".to_string()));
    assert_eq!(c.len(), 0);
}
