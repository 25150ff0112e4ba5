use quill_delta_pdf::text::{chars_of, decimal_string, join_path_string, str_contains};

#[test]
fn contains_finds_pieces() {
    assert!(str_contains("2. Item B", "2. "));
    assert!(str_contains("abc", ""));
    assert!(str_contains("abc", "abc"));
    assert!(!str_contains("1. x", "0. "));
    assert!(!str_contains("ab", "abc"));
    assert!(str_contains("x11. y", "11. "));
    assert!(!str_contains("", "a"));
}

#[test]
fn decimal_numerals() {
    assert_eq!(decimal_string(0), "0");
    assert_eq!(decimal_string(7), "7");
    assert_eq!(decimal_string(10), "10");
    assert_eq!(decimal_string(1234), "1234");
    assert_eq!(decimal_string(u64::MAX), u64::MAX.to_string());
}

#[test]
fn paths_join_with_one_separator() {
    assert_eq!(join_path_string("./images", "pic.png"), "./images/pic.png");
    assert_eq!(join_path_string("./images/", "pic.png"), "./images/pic.png");
    assert_eq!(join_path_string("", "pic.png"), "pic.png");
}

#[test]
fn chars_of_unicode_text() {
    assert_eq!(chars_of("a\u{2022}\n"), vec!['a', '\u{2022}', '\n']);
    assert!(chars_of("").is_empty());
}
