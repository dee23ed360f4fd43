use life_expectancy::text::{parse_i32, push_decimal, split_on_commas, trim, white_space};

#[test]
fn trim_removes_white_space_at_both_ends() {
    assert_eq!(trim("  a b \n"), "a b");
    assert_eq!(trim("\u{3000}x\u{85}"), "x");
    assert_eq!(trim(" \t\r\n"), "");
    assert_eq!(trim(""), "");
    assert_eq!(trim("abc"), "abc");
}

#[test]
fn white_space_follows_the_unicode_property() {
    assert!(white_space(' '));
    assert!(white_space('\u{2009}'));
    assert!(!white_space('a'));
    assert!(!white_space('\u{200B}'));
}

#[test]
fn split_on_commas_keeps_empty_pieces() {
    assert_eq!(split_on_commas("a,,b"), vec!["a", "", "b"]);
    assert_eq!(split_on_commas(""), vec![""]);
    assert_eq!(split_on_commas("a,"), vec!["a", ""]);
    assert_eq!(split_on_commas("france"), vec!["france"]);
}

#[test]
fn parse_i32_reads_signed_decimals() {
    assert_eq!(parse_i32("42"), Some(42));
    assert_eq!(parse_i32("+7"), Some(7));
    assert_eq!(parse_i32("-2147483648"), Some(i32::MIN));
    assert_eq!(parse_i32("2147483647"), Some(i32::MAX));
    assert_eq!(parse_i32("2147483648"), None);
    assert_eq!(parse_i32("99999999999999999999"), None);
    assert_eq!(parse_i32("-"), None);
    assert_eq!(parse_i32(""), None);
    assert_eq!(parse_i32("1a"), None);
    assert_eq!(parse_i32(" 5"), None);
    assert_eq!(parse_i32("007"), Some(7));
}

#[test]
fn parse_i32_agrees_with_std() {
    for text in ["0", "-0", "+0", "12", "-12", "+", "--1", "2147483647", "-2147483649", "1_0"] {
        assert_eq!(parse_i32(text), text.parse::<i32>().ok(), "{}", text);
    }
}

#[test]
fn push_decimal_writes_the_number() {
    let mut s = String::from("y=");
    push_decimal(&mut s, -1950);
    assert_eq!(s, "y=-1950");
    let mut t = String::new();
    push_decimal(&mut t, i32::MIN);
    assert_eq!(t, i32::MIN.to_string());
    let mut u = String::new();
    push_decimal(&mut u, 0);
    assert_eq!(u, "0");
}
