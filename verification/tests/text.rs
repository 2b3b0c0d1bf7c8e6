use ssher::glob::glob_match;
use ssher::text::{decimal_string, trim_str};

#[test]
fn glob_patterns() {
    assert!(glob_match("*", ""));
    assert!(glob_match("*", "anything"));
    assert!(glob_match("web-*", "web-1"));
    assert!(!glob_match("web-*", "db-1"));
    assert!(glob_match("db?", "db1"));
    assert!(!glob_match("db?", "db"));
    assert!(!glob_match("db?", "db12"));
    assert!(glob_match("*.example.*", "a.example.com"));
    assert!(glob_match("a*b*c", "aXXbYYc"));
    assert!(!glob_match("a*b*c", "aXXbYY"));
    assert!(glob_match("exact", "exact"));
    assert!(!glob_match("exact", "exacT"));
    assert!(glob_match("", ""));
    assert!(!glob_match("", "x"));
}

#[test]
fn decimal_formatting() {
    assert_eq!(decimal_string(0), "0");
    assert_eq!(decimal_string(7), "7");
    assert_eq!(decimal_string(8080), "8080");
    assert_eq!(decimal_string(u64::MAX), u64::MAX.to_string());
}

#[test]
fn trimming_unicode_whitespace() {
    assert_eq!(trim_str(" \t a b \u{3000}\n"), "a b");
    assert_eq!(trim_str("   "), "");
}

#[test]
fn star_extends_a_match() {
    assert!(!glob_match("we?b", "web1b"));
    assert!(glob_match("we?", "web"));
    assert!(glob_match("we?*", "web-01.example"));
    assert!(glob_match("*we?", "prod-web"));
    assert!(glob_match("ab", "ab"));
    assert!(!glob_match("ab", "abc"));
    assert!(glob_match("a*b", "ab"));
    assert!(!glob_match("a?b", "ab"));
}
