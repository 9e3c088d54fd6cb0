use license_audit::timestamp::parse_instant;

#[test]
fn reads_plain_decimal_text() {
    assert_eq!(parse_instant("200"), Some(200));
    assert_eq!(parse_instant("0"), Some(0));
    assert_eq!(parse_instant("007"), Some(7));
}

#[test]
fn reads_negative_decimal_text() {
    assert_eq!(parse_instant("-15"), Some(-15));
    assert_eq!(parse_instant("-0"), Some(0));
}

#[test]
fn reads_the_ends_of_the_range() {
    assert_eq!(parse_instant("9223372036854775807"), Some(i64::MAX));
    assert_eq!(parse_instant("-9223372036854775808"), Some(i64::MIN));
    assert_eq!(parse_instant("9223372036854775808"), None);
    assert_eq!(parse_instant("-9223372036854775809"), None);
    assert_eq!(parse_instant("99999999999999999999999"), None);
}

#[test]
fn refuses_text_that_is_no_decimal_integer() {
    assert_eq!(parse_instant(""), None);
    assert_eq!(parse_instant("-"), None);
    assert_eq!(parse_instant("+5"), None);
    assert_eq!(parse_instant("12a"), None);
    assert_eq!(parse_instant(" 12"), None);
    assert_eq!(parse_instant("1.5"), None);
    assert_eq!(parse_instant("١٢"), None);
}
