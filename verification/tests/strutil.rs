// String utilities: comparison, splitting, and number parsing.

use std::cmp::Ordering;

use mfekufo::strutil::{lines, parse_hex_u32, parse_i32, split_str, str_cmp, str_eq};

#[test]
fn comparison_is_lexicographic() {
    assert_eq!(str_cmp("abc", "abd"), Ordering::Less);
    assert_eq!(str_cmp("b", "ab"), Ordering::Greater);
    assert_eq!(str_cmp("abc", "abc"), Ordering::Equal);
    assert_eq!(str_cmp("", "a"), Ordering::Less);
    assert!(str_eq("same", "same"));
    assert!(!str_eq("same", "Same"));
}

#[test]
fn splitting_keeps_empty_pieces() {
    let p = split_str("a\tb\t\tc", '\t');
    assert_eq!(p, vec!["a", "b", "", "c"]);
    assert_eq!(split_str("", ','), vec![""]);
    assert_eq!(split_str(",", ','), vec!["", ""]);
}

#[test]
fn lines_drop_the_final_newline_and_carriage_returns() {
    assert_eq!(lines("a\nb\n"), vec!["a", "b"]);
    assert_eq!(lines("a\r\nb"), vec!["a", "b"]);
    assert_eq!(lines(""), Vec::<String>::new());
    assert_eq!(lines("\n"), vec![""]);
    assert_eq!(lines("a\n\nb"), vec!["a", "", "b"]);
}

#[test]
fn integers_parse_with_sign_and_bounds() {
    assert_eq!(parse_i32("0"), Some(0));
    assert_eq!(parse_i32("-200"), Some(-200));
    assert_eq!(parse_i32("+750"), Some(750));
    assert_eq!(parse_i32("2147483647"), Some(2147483647));
    assert_eq!(parse_i32("-2147483648"), Some(-2147483648));
    assert_eq!(parse_i32("2147483648"), None);
    assert_eq!(parse_i32("-2147483649"), None);
    assert_eq!(parse_i32(""), None);
    assert_eq!(parse_i32("-"), None);
    assert_eq!(parse_i32("12a"), None);
    assert_eq!(parse_i32(" 1"), None);
}

#[test]
fn hex_parses_unsigned_32_bit_values() {
    assert_eq!(parse_hex_u32("0"), Some(0));
    assert_eq!(parse_hex_u32("41"), Some(0x41));
    assert_eq!(parse_hex_u32("3b1"), Some(0x3B1));
    assert_eq!(parse_hex_u32("FFFFFFFF"), Some(0xFFFF_FFFF));
    assert_eq!(parse_hex_u32("100000000"), None);
    assert_eq!(parse_hex_u32("+10"), Some(0x10));
    assert_eq!(parse_hex_u32("-1"), None);
    assert_eq!(parse_hex_u32(""), None);
    assert_eq!(parse_hex_u32("g"), None);
}
