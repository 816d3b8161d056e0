use serde_env::text::{
    compare_text, parse_bool, parse_char, parse_integer, split_text, strip_prefix_text,
    text_eq_ignore_ascii_case, trim_text,
};

#[test]
fn splitting_keeps_empty_pieces() {
    assert_eq!(split_text("a,,b,", ','), vec!["a", "", "b", ""]);
    assert_eq!(split_text("", ','), vec![""]);
}

#[test]
fn trimming_removes_unicode_white_space() {
    assert_eq!(trim_text(" \t\u{3000}x y\n "), "x y");
    assert_eq!(trim_text("   "), "");
}

#[test]
fn ordering_is_by_code_point() {
    assert!(compare_text("a", "b") < 0);
    assert!(compare_text("a0", "a_") < 0);
    assert!(compare_text("ab", "a") > 0);
    assert_eq!(compare_text("é", "é"), 0);
}

#[test]
fn ascii_case_is_ignored_only_for_ascii() {
    assert!(text_eq_ignore_ascii_case("Option1", "OPTION1"));
    assert!(!text_eq_ignore_ascii_case("É", "é"));
    assert!(!text_eq_ignore_ascii_case("a", "ab"));
}

#[test]
fn scalar_parsers() {
    assert_eq!(parse_bool("true"), Some(true));
    assert_eq!(parse_bool("yes"), None);
    assert_eq!(parse_char("x"), Some('x'));
    assert_eq!(parse_char(""), None);
    assert_eq!(parse_integer("-5", true, -128, 127), Some(-5));
    assert_eq!(parse_integer("-5", false, 0, 255), None);
    assert_eq!(parse_integer("1_0", false, 0, 255), None);
}

#[test]
fn prefix_stripping() {
    assert_eq!(strip_prefix_text("abc", "ab"), Some("c".to_string()));
    assert_eq!(strip_prefix_text("abc", "b"), None);
    assert_eq!(strip_prefix_text("ab", "abc"), None);
}
