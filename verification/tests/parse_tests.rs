use depthbook::num::parse_fixed8;

#[test]
fn parses_integer_and_fraction() {
    assert_eq!(parse_fixed8("10.0"), Some(1_000_000_000));
    assert_eq!(parse_fixed8("123"), Some(12_300_000_000));
    assert_eq!(parse_fixed8("0.00000001"), Some(1));
    assert_eq!(parse_fixed8("123.45"), Some(12_345_000_000));
    assert_eq!(parse_fixed8("0"), Some(0));
    assert_eq!(parse_fixed8("0.0"), Some(0));
}

#[test]
fn parses_bare_point_forms() {
    assert_eq!(parse_fixed8(".5"), Some(50_000_000));
    assert_eq!(parse_fixed8("5."), Some(500_000_000));
    assert_eq!(parse_fixed8("007"), Some(700_000_000));
}

#[test]
fn rejects_malformed_strings() {
    assert_eq!(parse_fixed8(""), None);
    assert_eq!(parse_fixed8("."), None);
    assert_eq!(parse_fixed8("1.2.3"), None);
    assert_eq!(parse_fixed8("12a"), None);
    assert_eq!(parse_fixed8("-1"), None);
    assert_eq!(parse_fixed8("+1"), None);
    assert_eq!(parse_fixed8("1e5"), None);
    assert_eq!(parse_fixed8(" 1"), None);
    assert_eq!(parse_fixed8("NaN"), None);
}

#[test]
fn rejects_more_than_eight_fraction_digits() {
    assert_eq!(parse_fixed8("0.000000001"), None);
    assert_eq!(parse_fixed8("1.123456789"), None);
    assert_eq!(parse_fixed8("1.12345678"), Some(112_345_678));
}

#[test]
fn handles_the_largest_representable_value() {
    assert_eq!(parse_fixed8("184467440737.09551615"), Some(u64::MAX));
    assert_eq!(parse_fixed8("184467440737.09551616"), None);
    assert_eq!(parse_fixed8("999999999999999999999"), None);
}
