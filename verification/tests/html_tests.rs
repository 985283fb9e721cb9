use webscraper::html::{HtmlDoc, Query};

const PAGE: &str = r#"<html><body>
<div class="row"><div class="col thumbnail"><a href="/p/1">One</a><span>x</span></div></div>
<ul class="pagination"><li><a href="?page=1">1</a></li><li><a>next</a></li></ul>
<p id="side-menu"><a class="x" href="/c">  Cat </a></p>
</body></html>"#;

#[test]
fn parse_reads_nodes_from_markup() {
    let doc = HtmlDoc::parse(PAGE);
    assert!(doc.len() > 10);
    let anchors = doc.find(&Query::name("a"));
    assert_eq!(anchors.len(), 4);
    let first = doc.node(anchors[0]);
    assert_eq!(first.name.as_deref(), Some("a"));
    assert_eq!(first.text, "One");
    assert_eq!(first.html, r#"<a href="/p/1">One</a>"#);
    assert_eq!(doc.attr(anchors[0], "href").as_deref(), Some("/p/1"));
    assert!(first.parent.is_some());
}

#[test]
fn queries_select_nodes() {
    let doc = HtmlDoc::parse(PAGE);
    let q = Query::name("div").and(Query::class("row")).descendant(Query::class("thumbnail")).descendant(Query::name("a"));
    let found = doc.find(&q);
    assert_eq!(found.len(), 1);
    assert_eq!(doc.node(found[0]).text, "One");
    let plain = doc.find(&Query::name("a").and(Query::has_attr("href").not()));
    assert_eq!(plain.len(), 1);
    assert_eq!(doc.node(plain[0]).text, "next");
    let menus = doc.find(&Query::attr("id", "side-menu"));
    assert_eq!(menus.len(), 1);
    let inside = doc.find_below(menus[0], &Query::name("a"));
    assert_eq!(inside.len(), 1);
    assert_eq!(doc.node(inside[0]).text, "  Cat ");
    assert!(doc.matches(inside[0], &Query::class("x")));
}
