use interhlx::numtext::{format_fixed4, parse_i32};

#[test]
fn parse_plain_number() {
    assert_eq!(parse_i32("10"), Some(10));
    assert_eq!(parse_i32("0"), Some(0));
    assert_eq!(parse_i32("0000000123"), Some(123));
}

#[test]
fn parse_signed_numbers() {
    assert_eq!(parse_i32("+7"), Some(7));
    assert_eq!(parse_i32("-42"), Some(-42));
    assert_eq!(parse_i32("-0"), Some(0));
}

#[test]
fn parse_rejects_non_numbers() {
    assert_eq!(parse_i32(""), None);
    assert_eq!(parse_i32("-"), None);
    assert_eq!(parse_i32("+"), None);
    assert_eq!(parse_i32("12a"), None);
    assert_eq!(parse_i32(" 10"), None);
    assert_eq!(parse_i32("10 "), None);
    assert_eq!(parse_i32("1.5"), None);
}

#[test]
fn parse_respects_i32_range() {
    assert_eq!(parse_i32("2147483647"), Some(i32::MAX));
    assert_eq!(parse_i32("2147483648"), None);
    assert_eq!(parse_i32("-2147483648"), Some(i32::MIN));
    assert_eq!(parse_i32("-2147483649"), None);
    assert_eq!(parse_i32("99999999999999999999"), None);
}

#[test]
fn format_pads_to_four_columns() {
    assert_eq!(format_fixed4(7), "   7");
    assert_eq!(format_fixed4(10), "  10");
    assert_eq!(format_fixed4(123), " 123");
    assert_eq!(format_fixed4(1234), "1234");
    assert_eq!(format_fixed4(0), "   0");
}

#[test]
fn format_handles_signs_and_width_overflow() {
    assert_eq!(format_fixed4(-5), "  -5");
    assert_eq!(format_fixed4(-123), "-123");
    assert_eq!(format_fixed4(-1234), "-1234");
    assert_eq!(format_fixed4(12345), "12345");
    assert_eq!(format_fixed4(i32::MIN), "-2147483648");
}
