use webscraper::text::{
    contains_token, join_with, last_piece, parse_i32, parse_u32, remove_char, trimmed,
    white_space,
};

#[test]
fn trims_unicode_white_space() {
    assert_eq!(trimmed("  Laptops \n"), "Laptops");
    assert_eq!(trimmed("\u{a0}\u{3000}Tablets\u{2009}"), "Tablets");
    assert_eq!(trimmed("   "), "");
    assert_eq!(trimmed("a b"), "a b");
}

#[test]
fn white_space_matches_std() {
    for c in ['\t', ' ', '\u{85}', '\u{a0}', '\u{1680}', '\u{200a}', '\u{3000}', 'a', '0', '\u{200b}'] {
        assert_eq!(white_space(c), c.is_whitespace());
    }
}

#[test]
fn tokens_are_whole_words() {
    assert!(contains_token("row thumbnail", "thumbnail"));
    assert!(contains_token("  caption\tpull-right ", "caption"));
    assert!(!contains_token("captions", "caption"));
    assert!(!contains_token("glyphicon glyphicon-star", "glyphicon-st"));
    assert!(!contains_token("a b", "a b"));
    assert!(!contains_token("", ""));
}

#[test]
fn removes_dollar_signs() {
    assert_eq!(remove_char("$1,299.99", '$'), "1,299.99");
    assert_eq!(remove_char("$$", '$'), "");
}

#[test]
fn parses_like_std() {
    for s in ["12", "+7", "-3", "", "+", "-", "007", "4294967295", "4294967296", "12a", " 1"] {
        assert_eq!(parse_u32(s), s.parse::<u32>().ok(), "u32 {:?}", s);
    }
    for s in ["12", "+7", "-3", "-2147483648", "2147483647", "2147483648", "-2147483649", "-", "+", "x"] {
        assert_eq!(parse_i32(s), s.parse::<i32>().ok(), "i32 {:?}", s);
    }
}

#[test]
fn joins_with_spaces() {
    let v = vec!["Red".to_string(), "Green".to_string()];
    assert_eq!(join_with(&v, " "), "Red Green");
    assert_eq!(join_with(&vec!["only".to_string()], " "), "only");
    assert_eq!(join_with(&Vec::new(), " "), "");
}

#[test]
fn last_piece_of_path() {
    assert_eq!(last_piece("/test-sites/e-commerce/static/product/31", '/'), "31");
    assert_eq!(last_piece("noslash", '/'), "noslash");
    assert_eq!(last_piece("ends/", '/'), "");
}
