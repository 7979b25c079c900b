use mushroom_bot::protocol::{
    append_int, contains, format_move, is_whitespace, parse_i64, parse_i8, parse_u64,
    split_whitespace, starts_with, trim,
};

#[test]
fn text_split_whitespace_words() {
    assert_eq!(split_whitespace("  OPP 1  2\t3\n"), vec!["OPP", "1", "2", "3"]);
    assert!(split_whitespace("   ").is_empty());
    assert!(split_whitespace("").is_empty());
    assert_eq!(split_whitespace("one"), vec!["one"]);
    assert_eq!(split_whitespace("a\u{3000}b"), vec!["a", "b"]);
}

#[test]
fn text_whitespace_classes() {
    assert!(is_whitespace(' '));
    assert!(is_whitespace('\t'));
    assert!(is_whitespace('\u{a0}'));
    assert!(!is_whitespace('x'));
    assert!(!is_whitespace('0'));
}

#[test]
fn text_parse_u64_cases() {
    assert_eq!(parse_u64("0"), Some(0));
    assert_eq!(parse_u64("+17"), Some(17));
    assert_eq!(parse_u64("18446744073709551615"), Some(u64::MAX));
    assert_eq!(parse_u64("18446744073709551616"), None);
    assert_eq!(parse_u64("-1"), None);
    assert_eq!(parse_u64(""), None);
    assert_eq!(parse_u64("+"), None);
    assert_eq!(parse_u64("12a"), None);
}

#[test]
fn text_parse_i64_cases() {
    assert_eq!(parse_i64("-9223372036854775808"), Some(i64::MIN));
    assert_eq!(parse_i64("9223372036854775807"), Some(i64::MAX));
    assert_eq!(parse_i64("9223372036854775808"), None);
    assert_eq!(parse_i64("-42"), Some(-42));
    assert_eq!(parse_i64("+42"), Some(42));
    assert_eq!(parse_i64("-"), None);
    assert_eq!(parse_i64("4 2"), None);
}

#[test]
fn text_parse_i8_cases() {
    assert_eq!(parse_i8("-1"), Some(-1));
    assert_eq!(parse_i8("127"), Some(127));
    assert_eq!(parse_i8("-128"), Some(-128));
    assert_eq!(parse_i8("128"), None);
    assert_eq!(parse_i8("x"), None);
}

#[test]
fn text_format_move_and_numbers() {
    assert_eq!(format_move((-1, -1, -1, -1)), "-1 -1 -1 -1");
    assert_eq!(format_move((0, 12, 9, 16)), "0 12 9 16");
    let mut s = String::new();
    append_int(&mut s, i32::MIN);
    assert_eq!(s, "-2147483648");
    let mut t = String::from("x");
    append_int(&mut t, 1050);
    assert_eq!(t, "x1050");
}

#[test]
fn text_trim_prefix_contains() {
    assert_eq!(trim("  READY FIRST \n"), "READY FIRST");
    assert_eq!(trim(""), "");
    assert!(starts_with("READY FIRST", "READY"));
    assert!(!starts_with("REA", "READY"));
    assert!(contains("READY FIRST", "FIRST"));
    assert!(!contains("READY SECOND", "FIRST"));
    assert!(contains("abc", ""));
}
