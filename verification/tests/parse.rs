use station_stats::number::{parse_field, parse_num, VALUE_LIMIT};

#[test]
fn test_parse_num() {
    assert_eq!(parse_num("123"), 123);
    assert_eq!(parse_num("-123"), -123);
    assert_eq!(parse_num("0"), 0);
    assert_eq!(parse_num("1.23"), 123);
    assert_eq!(parse_num("-1.23"), -123);
}

#[test]
fn parse_num_without_digits_is_zero() {
    assert_eq!(parse_num(""), 0);
    assert_eq!(parse_num("-"), 0);
    assert_eq!(parse_num("."), 0);
}

#[test]
fn parse_num_each_minus_flips_the_sign() {
    assert_eq!(parse_num("--5"), 5);
    assert_eq!(parse_num("5-"), -5);
    assert_eq!(parse_num("-1-2-"), -12);
}

#[test]
fn parse_num_passes_over_other_characters() {
    assert_eq!(parse_num("1a2b3"), 123);
    assert_eq!(parse_num(" 4.5\r"), 45);
    assert_eq!(parse_num("+7"), 7);
    assert_eq!(parse_num("é9"), 9);
}

#[test]
fn parse_num_reaches_the_largest_value() {
    assert_eq!(parse_num("9223372036854775807"), i64::MAX);
    assert_eq!(parse_num("-9223372036854775807"), -i64::MAX);
    assert_eq!(parse_num("000000000000000000000012"), 12);
}

#[test]
fn parse_field_agrees_with_parse_num() {
    assert_eq!(parse_field(b"123"), Some(123));
    assert_eq!(parse_field(b"-123"), Some(-123));
    assert_eq!(parse_field(b"0"), Some(0));
    assert_eq!(parse_field(b"1.23"), Some(123));
    assert_eq!(parse_field(b"-1.23"), Some(-123));
    assert_eq!(parse_field(b"-0.0"), Some(0));
}

#[test]
fn parse_field_wants_a_digit() {
    assert_eq!(parse_field(b""), None);
    assert_eq!(parse_field(b"-"), None);
    assert_eq!(parse_field(b"abc"), None);
    assert_eq!(parse_field(b"."), None);
}

#[test]
fn parse_field_keeps_to_the_limit() {
    assert_eq!(VALUE_LIMIT, 999_999_999);
    assert_eq!(parse_field(b"99999999.9"), Some(999_999_999));
    assert_eq!(parse_field(b"-99999999.9"), Some(-999_999_999));
    assert_eq!(parse_field(b"100000000.0"), None);
    assert_eq!(parse_field(b"0000000001"), Some(1));
    assert_eq!(parse_field(b"99999999999999999999999999"), None);
}
