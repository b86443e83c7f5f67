use fcos_cincinnati::settings::{loglevel, LogLevel};
use fcos_cincinnati::text::{
    format_fraction, format_i64, format_u64, parse_fraction, parse_i64, parse_u64, same_text,
    starts_with,
};

#[test]
fn decimal_rendering() {
    assert_eq!(format_u64(0), "0");
    assert_eq!(format_u64(1234567890), "1234567890");
    assert_eq!(format_u64(u64::MAX), u64::MAX.to_string());
    assert_eq!(format_i64(-42), "-42");
    assert_eq!(format_i64(i64::MIN), i64::MIN.to_string());
    assert_eq!(format_i64(7), "7");
}

#[test]
fn integer_parsing() {
    assert_eq!(parse_u64("+17"), Some(17));
    assert_eq!(parse_u64("18446744073709551615"), Some(u64::MAX));
    assert_eq!(parse_u64("18446744073709551616"), None);
    assert_eq!(parse_u64("-1"), None);
    assert_eq!(parse_u64(""), None);
    assert_eq!(parse_u64("1x"), None);
    assert_eq!(parse_i64("-9223372036854775808"), Some(i64::MIN));
    assert_eq!(parse_i64("9223372036854775808"), None);
    assert_eq!(parse_i64("-"), None);
    assert_eq!(parse_i64("123"), Some(123));
}

#[test]
fn fraction_parsing_and_rendering() {
    assert_eq!(parse_fraction("0.5"), Some(500_000));
    assert_eq!(parse_fraction("1"), Some(1_000_000));
    assert_eq!(parse_fraction("1.5"), Some(1_000_000));
    assert_eq!(parse_fraction("0"), Some(0));
    assert_eq!(parse_fraction("0."), Some(0));
    assert_eq!(parse_fraction("-0.3"), Some(0));
    assert_eq!(parse_fraction("0.0000019"), Some(1));
    assert_eq!(parse_fraction(".5"), Some(500_000));
    assert_eq!(parse_fraction("0.5x"), None);
    assert_eq!(parse_fraction("abc"), None);
    assert_eq!(format_fraction(500_000), "0.500000");
    assert_eq!(format_fraction(1), "0.000001");
    assert_eq!(format_fraction(1_000_000), "1");
    assert_eq!(format_fraction(7_000_000), "1");
    assert_eq!(parse_fraction(&format_fraction(123_456)), Some(123_456));
}

#[test]
fn fraction_parsing_follows_float_syntax() {
    assert_eq!(parse_fraction("5e-1"), Some(500_000));
    assert_eq!(parse_fraction("1E0"), Some(1_000_000));
    assert_eq!(parse_fraction("25E-3"), Some(25_000));
    assert_eq!(parse_fraction("0.000003e+2"), Some(300));
    assert_eq!(parse_fraction("1."), Some(1_000_000));
    assert_eq!(parse_fraction("inf"), Some(1_000_000));
    assert_eq!(parse_fraction("+Infinity"), Some(1_000_000));
    assert_eq!(parse_fraction("-inf"), Some(0));
    assert_eq!(parse_fraction("NaN"), Some(0));
    assert_eq!(parse_fraction("1e400"), Some(1_000_000));
    assert_eq!(parse_fraction("9e-400"), Some(0));
    assert_eq!(parse_fraction("0e99999999999999999999999999"), Some(0));
    assert_eq!(parse_fraction("1e99999999999999999999999999"), Some(1_000_000));
    assert_eq!(parse_fraction("."), None);
    assert_eq!(parse_fraction("e5"), None);
    assert_eq!(parse_fraction("1e"), None);
    assert_eq!(parse_fraction("1e+"), None);
    assert_eq!(parse_fraction("infinit"), None);
    assert_eq!(parse_fraction(""), None);
}

#[test]
fn string_helpers() {
    assert!(starts_with("abcdef", "abc"));
    assert!(!starts_with("ab", "abc"));
    assert!(same_text("x", "x"));
    assert!(!same_text("x", "xy"));
}

#[test]
fn verbosity_levels() {
    assert_eq!(loglevel(0), LogLevel::Warn);
    assert_eq!(loglevel(1), LogLevel::Info);
    assert_eq!(loglevel(2), LogLevel::Debug);
    assert_eq!(loglevel(3), LogLevel::Trace);
    assert_eq!(loglevel(200), LogLevel::Trace);
}
