use rgathing::text::{
    ceil_char_boundary, decimal_string, floor_char_boundary, is_whitespace, parse_u64, trim, trim_start,
};

#[test]
fn trims_unicode_white_space() {
    assert_eq!(trim("  a b \t\n"), "a b");
    assert_eq!(trim("\u{3000}x\u{a0}"), "x");
    assert_eq!(trim("   "), "");
    assert_eq!(trim_start("  a "), "a ");
    assert!(is_whitespace('\u{2028}'));
    assert!(!is_whitespace('\u{200b}'));
}

#[test]
fn decimal_strings() {
    assert_eq!(decimal_string(0), "0");
    assert_eq!(decimal_string(10), "10");
    assert_eq!(decimal_string(u64::MAX), "18446744073709551615");
}

#[test]
fn parses_unsigned() {
    assert_eq!(parse_u64("42"), Some(42));
    assert_eq!(parse_u64("+42"), Some(42));
    assert_eq!(parse_u64("007"), Some(7));
    assert_eq!(parse_u64("+"), None);
    assert_eq!(parse_u64(""), None);
    assert_eq!(parse_u64("-1"), None);
    assert_eq!(parse_u64("1a"), None);
    assert_eq!(parse_u64("18446744073709551615"), Some(u64::MAX));
    assert_eq!(parse_u64("18446744073709551616"), None);
}

#[test]
fn char_boundaries() {
    let s = "aé€b";
    assert_eq!(floor_char_boundary(s, 2), 1);
    assert_eq!(ceil_char_boundary(s, 2), 3);
    assert_eq!(floor_char_boundary(s, 4), 3);
    assert_eq!(ceil_char_boundary(s, 4), 6);
    assert_eq!(floor_char_boundary(s, 100), 7);
    assert_eq!(ceil_char_boundary(s, 100), 7);
}
