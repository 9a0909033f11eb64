use ripquerier::decimal::{decimal_string, parse_decimal};
use ripquerier::text::str_equals;

#[test]
fn decimal_parsing_as_str_parse() {
    assert_eq!(Some(12), parse_decimal("12", 255));
    assert_eq!(Some(12), parse_decimal("+12", 255));
    assert_eq!(Some(7), parse_decimal("007", 255));
    assert_eq!(Some(255), parse_decimal("255", 255));
    assert_eq!(None, parse_decimal("256", 255));
    assert_eq!(None, parse_decimal("-1", 255));
    assert_eq!(None, parse_decimal("", 255));
    assert_eq!(None, parse_decimal("+", 255));
    assert_eq!(None, parse_decimal("1 2", 255));
    assert_eq!(Some(u64::MAX), parse_decimal("18446744073709551615", u64::MAX));
    assert_eq!(None, parse_decimal("18446744073709551616", u64::MAX));
    assert_eq!(Some(4294967295), parse_decimal("4294967295", 0xffff_ffff));
    assert_eq!(None, parse_decimal("4294967296", 0xffff_ffff));
    for s in ["0", "+5", "99999", "x1", "1x"] {
        assert_eq!(s.parse::<u32>().ok().map(|v| v as u64), parse_decimal(s, 0xffff_ffff));
    }
}

#[test]
fn decimal_text() {
    assert_eq!("0", decimal_string(0));
    assert_eq!("9", decimal_string(9));
    assert_eq!("10", decimal_string(10));
    assert_eq!("18446744073709551615", decimal_string(u64::MAX));
}

#[test]
fn text_equality() {
    assert!(str_equals("abc", "abc"));
    assert!(!str_equals("abc", "abd"));
    assert!(!str_equals("abc", "ab"));
    assert!(str_equals("", ""));
    assert!(str_equals("héllo", "héllo"));
}
