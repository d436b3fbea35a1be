use mical::json::{normalize_integer, try_normalize_integer};

#[test]
fn decimal() {
    assert_eq!(normalize_integer("42"), 42);
    assert_eq!(normalize_integer("0"), 0);
}

#[test]
fn signed() {
    assert_eq!(normalize_integer("+7"), 7);
    assert_eq!(normalize_integer("-10"), -10);
    assert_eq!(normalize_integer("+0"), 0);
}

#[test]
fn hex() {
    assert_eq!(normalize_integer("0xFF"), 255);
    assert_eq!(normalize_integer("0XFF"), 255);
    assert_eq!(normalize_integer("0x0"), 0);
}

#[test]
fn signed_hex() {
    assert_eq!(normalize_integer("-0xFF"), -255);
    assert_eq!(normalize_integer("-0XA"), -10);
}

#[test]
fn out_of_range_is_rejected() {
    assert_eq!(try_normalize_integer("99999999999999999999"), None);
    assert_eq!(try_normalize_integer("9223372036854775807"), Some(i64::MAX));
    assert_eq!(try_normalize_integer("9223372036854775808"), None);
    assert_eq!(try_normalize_integer("-9223372036854775808"), Some(i64::MIN));
    assert_eq!(try_normalize_integer("-9223372036854775809"), None);
    assert_eq!(try_normalize_integer("0x7FFFFFFFFFFFFFFF"), Some(i64::MAX));
    assert_eq!(try_normalize_integer("0x8000000000000000"), None);
}

#[test]
fn malformed_is_rejected() {
    assert_eq!(try_normalize_integer(""), None);
    assert_eq!(try_normalize_integer("abc"), None);
    assert_eq!(try_normalize_integer("12a"), None);
    assert_eq!(try_normalize_integer("0x"), None);
    assert_eq!(try_normalize_integer("-"), None);
    assert_eq!(try_normalize_integer("1_000"), None);
}
