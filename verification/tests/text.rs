use toricelli::text::{contains_char, split_char, trim_matches_char, trim_string};

#[test]
fn trim_matches_strips_both_ends() {
    assert_eq!(trim_matches_char("\"\"ab\"c\"", '"'), "ab\"c");
    assert_eq!(trim_matches_char("\"\"\"", '"'), "");
    assert_eq!(trim_matches_char("plain", '"'), "plain");
}

#[test]
fn split_keeps_empty_pieces() {
    assert_eq!(split_char("a,,b,", ','), vec!["a", "", "b", ""]);
    assert_eq!(split_char("", ','), vec![""]);
    assert_eq!(split_char("abc", ','), vec!["abc"]);
}

#[test]
fn contains_and_trim() {
    assert!(contains_char("a,b", ','));
    assert!(!contains_char("ab", ','));
    assert_eq!(trim_string(" \t x y \n"), "x y");
    assert_eq!(trim_string("\u{3000}z\u{a0}"), "z");
}
