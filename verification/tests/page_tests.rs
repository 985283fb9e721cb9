use std::rc::Rc;
use webscraper::page::{total_product_urls, ProductPage, BASE_URI};

fn listing(pages: &[u32], products: &[&str]) -> String {
    let mut s = String::from("<html><body><div class='row'>");
    for p in products {
        s.push_str(&format!("<div class='col thumbnail'><a href='{}'>x</a></div>", p));
    }
    s.push_str("</div><ul class='pagination'>");
    for p in pages {
        s.push_str(&format!("<li><a href='?page={}'>{}</a></li>", p, p));
    }
    s.push_str("<li><a href='?page=2'>»</a></li></ul></body></html>");
    s
}

fn new_page() -> ProductPage {
    ProductPage::new(Rc::new("Phones".to_string()), "Touch".to_string(), "/test-sites/e-commerce/static/phones/touch".to_string())
}

#[test]
fn new_page_starts_at_one() {
    let p = new_page();
    assert_eq!(p.category, "Phones");
    assert_eq!(p.sub_category, "Touch");
    assert_eq!((p.index, p.iter_index, p.process), (1, 1, 1));
    assert_eq!(p.last_page, None);
    assert!(p.products_uri.is_empty());
}

#[test]
fn index_url_has_the_page_number() {
    let mut p = new_page();
    assert_eq!(p.get_index_url(), format!("{}/test-sites/e-commerce/static/phones/touch?page=1", BASE_URI));
    p.index = 12045;
    assert_eq!(p.get_index_url(), "https://www.webscraper.io/test-sites/e-commerce/static/phones/touch?page=12045");
}

#[test]
fn last_page_is_last_numbered_link() {
    let p = new_page();
    assert_eq!(p.get_last_page(&listing(&[1, 2, 3], &[])), Some(3));
    assert_eq!(p.get_last_page(&listing(&[], &[])), None);
    assert_eq!(p.get_last_page(&listing(&[1, 70000], &[])), Some(70000u32 as u16));
}

#[test]
fn product_urls_in_order() {
    let p = new_page();
    let urls = p.get_product_urls(&listing(&[1], &["/p/1", "/p/2"]));
    assert_eq!(urls, vec!["/p/1".to_string(), "/p/2".to_string()]);
}

#[test]
fn parse_next_page_advances() {
    let mut p = new_page();
    p.parse_next_page(&listing(&[1, 2, 3], &["/p/1"]));
    assert_eq!(p.last_page, Some(3));
    assert_eq!((p.index, p.iter_index, p.process), (2, 2, 1));
    p.parse_next_page(&listing(&[1, 2, 3], &["/p/2"]));
    p.parse_next_page(&listing(&[1, 2, 3], &["/p/3"]));
    assert_eq!((p.index, p.process), (4, 0));
    assert_eq!(p.products_uri, vec!["/p/1".to_string(), "/p/2".to_string(), "/p/3".to_string()]);
}

#[test]
fn iteration_yields_remaining_pages_then_restarts() {
    let mut p = new_page();
    p.parse_next_page(&listing(&[1, 2, 3, 4], &[]));
    assert_eq!(p.next(), Some(3));
    assert_eq!(p.next(), Some(4));
    assert_eq!(p.next(), None);
    assert_eq!(p.iter_index, p.index);
    assert_eq!(p.next(), Some(3));
}

#[test]
fn no_last_page_means_nothing_left() {
    let mut p = new_page();
    assert_eq!(p.next(), None);
    assert_eq!(p.page_indexes(), vec![0]);
}

#[test]
fn one_entry_per_remaining_page() {
    let mut p = new_page();
    p.parse_next_page(&listing(&[1, 2, 3, 4, 5], &[]));
    let idx = p.page_indexes();
    assert_eq!(idx, vec![3, 4, 5, 0]);
    assert_eq!(idx.len() as u16, 5 - p.index + 1);
    assert_eq!(p.iter_index, p.index);
    for _ in 0..idx.len() {
        p.parse_next_page(&listing(&[1, 2, 3, 4, 5], &[]));
    }
    assert_eq!((p.index, p.process), (6, 0));
}

#[test]
fn counts_all_product_urls() {
    let mut a = new_page();
    a.products_uri = vec!["x".to_string(); 3];
    let mut b = new_page();
    b.products_uri = vec!["y".to_string(); 2];
    assert_eq!(total_product_urls(&vec![a, b]), 5);
    assert_eq!(total_product_urls(&Vec::new()), 0);
}

#[test]
fn stop_flag_only_falls_and_products_accumulate() {
    let mut p = new_page();
    let mut flags = vec![p.process];
    let mut seen: Vec<String> = Vec::new();
    for k in 0..4 {
        let body = listing(&[1, 2, 3], &[&format!("/p/{}", k)]);
        p.parse_next_page(&body);
        let _ = p.next();
        assert!(p.products_uri.starts_with(&seen));
        seen = p.products_uri.clone();
        flags.push(p.process);
        assert_eq!(p.index, 2 + k as u16);
    }
    assert_eq!(flags, vec![1, 1, 1, 0, 0]);
    assert_eq!(p.category, "Phones");
}

#[test]
fn iteration_runs_yield_the_same_pages() {
    let mut p = new_page();
    p.parse_next_page(&listing(&[1, 2, 3, 4, 5], &[]));
    let mut runs = Vec::new();
    for _ in 0..2 {
        let mut run = Vec::new();
        while let Some(n) = p.next() {
            run.push(n);
        }
        assert_eq!(p.iter_index, p.index);
        runs.push(run);
    }
    assert_eq!(runs[0], vec![3, 4, 5]);
    assert_eq!(runs[0], runs[1]);
}
