use webscraper::product::{get_product, ParseError, Product};

const PRODUCT_PAGE: &str = r#"<html><body><div class="container">
<div class="row"><div class="col-md-9"><div class="thumbnail">
  <div class="caption">
    <h4 class="pull-right price">$1178.99</h4>
    <h4>Asus ROG Strix</h4>
    <p class="description">Gaming laptop, 15.6"</p>
    <div class="dropdown"><select aria-label="color">
      <option value="">Select color</option>
      <option value="Gold">Gold</option>
      <option value="Black">Black</option>
    </select></div>
    <div class="swatches">
      <button class="btn" value="128">128</button>
      <button class="btn" value="256" disabled>256</button>
      <button class="btn" value="512">512</button>
    </div>
  </div>
  <div class="ratings">
    <p class="pull-right">14 reviews</p>
    <p><span class="glyphicon glyphicon-star"></span><span class="glyphicon glyphicon-star"></span><span class="glyphicon glyphicon-star"></span></p>
  </div>
</div></div></div></div></body></html>"#;

fn strings(v: &[&str]) -> Vec<String> {
    v.iter().map(|s| s.to_string()).collect()
}

#[test]
fn default_product_is_empty() {
    let p = Product::default();
    assert_eq!(p.uid, "");
    assert_eq!(p.price, "");
    assert!(p.colors.is_empty() && p.sizes.is_empty());
    assert_eq!((p.review_count, p.review_stars), (0, 0));
}

#[test]
fn reads_a_product_page() {
    let mut p = Product::default();
    assert_eq!(p.parse_html(&PRODUCT_PAGE.to_string()), Ok(()));
    assert_eq!(p.name, "Asus ROG Strix");
    assert_eq!(p.price, "1178.99");
    assert_eq!(p.description, "Gaming laptop, 15.6\"");
    assert_eq!(p.colors, strings(&["Gold", "Black"]));
    assert_eq!(p.sizes, strings(&["128", "512"]));
    assert_eq!(p.review_count, 14);
    assert_eq!(p.review_stars, 3);
}

#[test]
fn missing_caption_changes_nothing() {
    let mut p = Product::default();
    p.name = "kept".to_string();
    let r = p.parse_html(&"<div class='row'><div class='thumbnail'></div></div>".to_string());
    assert_eq!(r, Err(ParseError::CaptionNotFound));
    assert_eq!(p.name, "kept");
    assert_eq!(r.unwrap_err().message(), "Div caption not found");
}

#[test]
fn missing_thumbnail_keeps_caption_fields() {
    let mut p = Product::default();
    p.review_count = 9;
    let page = "<div class='caption'><h4 class='price'>$5</h4><h4>Pen</h4></div>".to_string();
    assert_eq!(p.parse_html(&page), Err(ParseError::ThumbnailNotFound));
    assert_eq!(p.name, "Pen");
    assert_eq!(p.price, "5");
    assert_eq!(p.review_count, 9);
    assert_eq!(ParseError::ThumbnailNotFound.message(), "Div thumbnail not found");
}

#[test]
fn review_count_kept_without_digits_and_zero_on_overflow() {
    let page = |line: &str| {
        format!(
            "<div class='caption'></div><div class='row'><div class='thumbnail'><div class='ratings'><p>{}</p></div></div></div>",
            line
        )
    };
    let mut p = Product::default();
    p.review_count = 4;
    assert_eq!(p.parse_html(&page("no reviews")), Ok(()));
    assert_eq!(p.review_count, 4);
    assert_eq!(p.review_stars, 0);
    assert_eq!(p.parse_html(&page("99999999999 reviews")), Ok(()));
    assert_eq!(p.review_count, 0);
    assert_eq!(p.parse_html(&page("about 3 or 4")), Ok(()));
    assert_eq!(p.review_count, 3);
}

#[test]
fn get_product_sets_origin_and_reads() {
    let p = get_product(
        &"/test-sites/e-commerce/static/product/31".to_string(),
        &"Computers".to_string(),
        &"Laptops".to_string(),
        &PRODUCT_PAGE.to_string(),
    )
    .unwrap();
    assert_eq!(p.origin, "/test-sites/e-commerce/static/product/31");
    assert_eq!(p.category, "Computers");
    assert_eq!(p.sub_category, "Laptops");
    assert_eq!(p.name, "Asus ROG Strix");
    let e = get_product(&"/x".to_string(), &"a".to_string(), &"b".to_string(), &"<p></p>".to_string());
    assert_eq!(e.err(), Some(ParseError::CaptionNotFound));
}

fn sample(colors: &[&str], sizes: &[&str]) -> Product {
    let mut p = Product::default();
    p.origin = "/static/product/31".to_string();
    p.name = "Phone".to_string();
    p.price = "10".to_string();
    p.colors = strings(colors);
    p.sizes = strings(sizes);
    p
}

#[test]
fn variants_are_all_color_size_pairs() {
    let v = Product::generate_variants(sample(&["Red", "Blue"], &["S", "M", "L"]));
    assert_eq!(v.len(), 6);
    for (k, p) in v.iter().enumerate() {
        assert_eq!(p.colors, strings(&[["Red", "Blue"][k / 3]]));
        assert_eq!(p.sizes, strings(&[["S", "M", "L"][k % 3]]));
        assert_eq!(p.name, "Phone");
        assert_eq!(p.price, "10");
    }
}

#[test]
fn variants_of_colors_only_or_sizes_only() {
    let v = Product::generate_variants(sample(&["Red", "Blue"], &[]));
    assert_eq!(v.len(), 2);
    assert_eq!(v[1].colors, strings(&["Blue"]));
    assert!(v[1].sizes.is_empty());
    let v = Product::generate_variants(sample(&[], &["S"]));
    assert_eq!(v.len(), 1);
    assert_eq!(v[0].sizes, strings(&["S"]));
}

#[test]
fn uid_from_path_color_and_size() {
    let mut p = sample(&["Red", "Blue"], &["S", "M"]);
    p.build_uid();
    assert_eq!(p.uid, "31-Red-S");
    let mut p = sample(&["Red"], &[]);
    p.build_uid();
    assert_eq!(p.uid, "31-Red");
    let mut p = sample(&[], &["M"]);
    p.build_uid();
    assert_eq!(p.uid, "31-M");
}

#[test]
fn each_variant_gets_its_own_uid() {
    let mut uids = Vec::new();
    for mut v in Product::generate_variants(sample(&["Red", "Blue"], &["S", "M"])) {
        v.build_uid();
        uids.push(v.uid.clone());
    }
    assert_eq!(uids, strings(&["31-Red-S", "31-Red-M", "31-Blue-S", "31-Blue-M"]));
}

#[test]
fn row_joins_options() {
    let mut p = sample(&["Red", "Blue"], &["S"]);
    p.uid = "u".to_string();
    p.review_stars = 2;
    let r = p.row();
    assert_eq!(r.color, "Red Blue");
    assert_eq!(r.size, "S");
    assert_eq!(r.uid, "u");
    assert_eq!(r.review_stars, 2);
    assert_eq!(r.name, "Phone");
}

#[test]
fn duplicate_is_equal() {
    let p = sample(&["Red"], &["S"]);
    let q = p.duplicate();
    assert_eq!(q.colors, p.colors);
    assert_eq!(q.origin, p.origin);
}

#[test]
fn variant_uids_are_distinct() {
    let mut uids = Vec::new();
    for mut v in Product::generate_variants(sample(&["Red", "Blue", "Gold"], &["S", "M"])) {
        v.build_uid();
        uids.push(v.uid.clone());
    }
    let mut sorted = uids.clone();
    sorted.sort();
    sorted.dedup();
    assert_eq!(sorted.len(), uids.len());
}
