use rsi_screener::price::{parse_price, PRICE_SCALE};

#[test]
fn reads_a_decimal_price() {
    assert_eq!(parse_price("46.28"), Some(4628000000));
    assert_eq!(parse_price("46"), Some(46 * PRICE_SCALE));
    assert_eq!(parse_price("0.00000001"), Some(1));
    assert_eq!(parse_price(".5"), Some(50000000));
    assert_eq!(parse_price("7."), Some(700000000));
}

#[test]
fn drops_digits_past_the_eighth() {
    assert_eq!(parse_price("1.123456789"), Some(112345678));
}

#[test]
fn refuses_what_is_no_price() {
    assert_eq!(parse_price(""), None);
    assert_eq!(parse_price("."), None);
    assert_eq!(parse_price("1.2.3"), None);
    assert_eq!(parse_price("-1"), None);
    assert_eq!(parse_price("abc"), None);
    assert_eq!(parse_price("1e5"), None);
    assert_eq!(parse_price(" 1"), None);
}

#[test]
fn refuses_a_value_too_large() {
    assert_eq!(parse_price("184467440737.09551615"), Some(u64::MAX));
    assert_eq!(parse_price("184467440737.09551616"), None);
    assert_eq!(parse_price("99999999999999999999999"), None);
}
