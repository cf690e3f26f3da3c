use tonic_flatbuffers_build::text::{
    ends_with, find_char, find_str, is_whitespace, join, lines, replace_char, rfind_char, rfind_str,
    rsplit_once, split, split_once, starts_with, str_eq, strip_prefix, trim,
};

#[test]
fn trim_removes_unicode_whitespace_at_both_ends() {
    assert_eq!(trim(" \t\u{3000}a b\n\u{A0}"), "a b");
    assert_eq!(trim("   "), "");
    assert!(is_whitespace('\u{2029}'));
    assert!(!is_whitespace('x'));
}

#[test]
fn finds_count_characters_not_bytes() {
    assert_eq!(find_char("éa;b;", ';'), Some(2));
    assert_eq!(rfind_char("éa;b;", ';'), Some(4));
    assert_eq!(find_char("abc", ';'), None);
    assert_eq!(find_str("xxpub use", "pub use"), Some(2));
    assert_eq!(rfind_str("ab ab ab", "ab"), Some(6));
    assert_eq!(find_str("abc", ""), Some(0));
    assert_eq!(rfind_str("a", "abc"), None);
}

#[test]
fn prefixes_and_suffixes() {
    assert!(starts_with("namespace a;", "namespace "));
    assert!(!starts_with("name", "namespace"));
    assert!(ends_with("file.proto", ".proto"));
    assert_eq!(strip_prefix("OwnedFoo", "Owned"), Some("Foo"));
    assert_eq!(strip_prefix("Foo", "Owned"), None);
}

#[test]
fn split_and_join_round_trip() {
    let parts = split("a..b.", '.');
    assert_eq!(parts, vec!["a", "", "b", ""]);
    assert_eq!(join(&parts, "."), "a..b.");
    assert_eq!(split("", '.'), vec![""]);
    assert_eq!(join(&Vec::new(), ","), "");
}

#[test]
fn split_once_at_first_and_last() {
    assert_eq!(split_once("a:b:c", ':'), Some(("a", "b:c")));
    assert_eq!(rsplit_once("a.b.C", '.'), Some(("a.b", "C")));
    assert_eq!(rsplit_once("C", '.'), None);
}

#[test]
fn lines_drop_line_ends() {
    assert_eq!(lines("a\r\nb\n\nc"), vec!["a", "b", "", "c"]);
    assert_eq!(lines("x\n"), vec!["x"]);
    assert!(lines("").is_empty());
}

#[test]
fn replace_and_compare() {
    assert_eq!(replace_char("foo.bar.baz", '.', '_'), "foo_bar_baz");
    assert!(str_eq("é", "é"));
    assert!(!str_eq("a", "ab"));
}
