use yflow::text::{
    append, clip, contains, decimal_text, join, parse_u64, same_text, split, starts_with, trim,
    trim_end_slashes,
};

#[test]
fn split_on_dots() {
    assert_eq!(split("a.b.c", '.'), vec!["a", "b", "c"]);
    assert_eq!(split("", '.'), vec![""]);
    assert_eq!(split("a..b", '.'), vec!["a", "", "b"]);
    assert_eq!(split(".a.", '.'), vec!["", "a", ""]);
    assert_eq!(split("plain", '.'), vec!["plain"]);
}

#[test]
fn join_with_separator() {
    assert_eq!(join(&vec!["a".to_string(), "b".to_string()], ", "), "a, b");
    assert_eq!(join(&vec!["a".to_string()], ", "), "a");
    assert_eq!(join(&vec![], ", "), "");
}

#[test]
fn decimal_numerals() {
    assert_eq!(decimal_text(0), "0");
    assert_eq!(decimal_text(7), "7");
    assert_eq!(decimal_text(10), "10");
    assert_eq!(decimal_text(1234567890), "1234567890");
    assert_eq!(decimal_text(u64::MAX), "18446744073709551615");
}

#[test]
fn parse_numerals() {
    assert_eq!(parse_u64("0"), Some(0));
    assert_eq!(parse_u64("42"), Some(42));
    assert_eq!(parse_u64("+42"), Some(42));
    assert_eq!(parse_u64("007"), Some(7));
    assert_eq!(parse_u64("18446744073709551615"), Some(u64::MAX));
    assert_eq!(parse_u64("18446744073709551616"), None);
    assert_eq!(parse_u64(""), None);
    assert_eq!(parse_u64("+"), None);
    assert_eq!(parse_u64("-1"), None);
    assert_eq!(parse_u64("12a"), None);
    assert_eq!(parse_u64(" 1"), None);
}

#[test]
fn trim_blanks_and_slashes() {
    assert_eq!(trim("  a b \t\n"), "a b");
    assert_eq!(trim("\u{3000}x\u{a0}"), "x");
    assert_eq!(trim("   "), "");
    assert_eq!(trim(""), "");
    assert_eq!(trim_end_slashes("http://x/api///"), "http://x/api");
    assert_eq!(trim_end_slashes("///"), "");
    assert_eq!(trim_end_slashes("/a"), "/a");
}

#[test]
fn search_and_compare() {
    assert!(contains("hello world", "lo w"));
    assert!(contains("hello", ""));
    assert!(!contains("hello", "world"));
    assert!(!contains("", "a"));
    assert!(starts_with("http://x", "http://"));
    assert!(!starts_with("ftp://x", "http://"));
    assert!(!starts_with("ht", "http://"));
    assert!(same_text("a", "a"));
    assert!(!same_text("a", "b"));
}

#[test]
fn clip_and_concat() {
    assert_eq!(clip("hello", 3), "hel");
    assert_eq!(clip("hello", 5), "hello");
    assert_eq!(clip("hello", 10), "hello");
    assert_eq!(clip("你好世界", 2), "你好");
    assert_eq!(append("ab", "cd"), "abcd");
}
