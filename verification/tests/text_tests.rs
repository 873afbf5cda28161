use sway_layout::text::{contains_str, decimal_string, join_strings, parse_u32, str_eq, str_le};

#[test]
fn decimal_strings() {
    assert_eq!(decimal_string(0), "0");
    assert_eq!(decimal_string(7), "7");
    assert_eq!(decimal_string(10), "10");
    assert_eq!(decimal_string(u64::MAX), u64::MAX.to_string());
}

#[test]
fn parse_u32_like_std() {
    for s in ["0", "1", "42", "+7", "007", "4294967295", "4294967296", "", "+", "-1", "1a", " 1", "99999999999"] {
        assert_eq!(parse_u32(s), s.parse::<u32>().ok(), "input {s:?}");
    }
}

#[test]
fn decimal_parses_back() {
    for n in [0u32, 1, 9, 10, 123, u32::MAX] {
        assert_eq!(parse_u32(&decimal_string(n as u64)), Some(n));
    }
}

#[test]
fn substring_search() {
    assert!(contains_str("/usr/bin/sway-layout", "sway-layout"));
    assert!(contains_str("abc", ""));
    assert!(!contains_str("sway-lay", "sway-layout"));
    assert!(contains_str("aab", "ab"));
}

#[test]
fn string_order_and_equality() {
    assert!(str_eq("spawn", "spawn"));
    assert!(!str_eq("spawn", "spawn "));
    assert!(str_le("a", "b"));
    assert!(str_le("ab", "ab"));
    assert!(str_le("ab", "abc"));
    assert!(!str_le("b", "ab"));
    assert!(str_le("Z", "a"));
    assert!(str_le("z", "\u{e9}"));
}

#[test]
fn joining() {
    let parts = vec!["foot".to_string(), "-e".to_string(), "htop".to_string()];
    assert_eq!(join_strings(&parts, " "), "foot -e htop");
    assert_eq!(join_strings(&[], " "), "");
    assert_eq!(join_strings(&parts[..1], ", "), "foot");
}
