use rs_1brc::decimal::{parse_tenths, round_half_div};

#[test]
fn parse_simple_positive() {
    assert_eq!(parse_tenths(b"5.0"), Some(50));
    assert_eq!(parse_tenths(b"7.2"), Some(72));
    assert_eq!(parse_tenths(b"0.3"), Some(3));
    assert_eq!(parse_tenths(b"123.4"), Some(1234));
}

#[test]
fn parse_simple_negative() {
    assert_eq!(parse_tenths(b"-2.7"), Some(-27));
    assert_eq!(parse_tenths(b"-0.0"), Some(0));
    assert_eq!(parse_tenths(b"-99.9"), Some(-999));
}

#[test]
fn parse_rejects_bad_grammar() {
    assert_eq!(parse_tenths(b""), None);
    assert_eq!(parse_tenths(b"abc"), None);
    assert_eq!(parse_tenths(b"5"), None);
    assert_eq!(parse_tenths(b"5."), None);
    assert_eq!(parse_tenths(b".5"), None);
    assert_eq!(parse_tenths(b"5.00"), None);
    assert_eq!(parse_tenths(b"5.12"), None);
    assert_eq!(parse_tenths(b"+5.0"), None);
    assert_eq!(parse_tenths(b" 5.0"), None);
    assert_eq!(parse_tenths(b"5.0 "), None);
    assert_eq!(parse_tenths(b"5,0"), None);
    assert_eq!(parse_tenths(b"1e1.0"), None);
    assert_eq!(parse_tenths(b"-"), None);
    assert_eq!(parse_tenths(b"-.5"), None);
    assert_eq!(parse_tenths(b"--5.0"), None);
}

#[test]
fn parse_rejects_out_of_range() {
    // Far beyond any i64 number of tenths.
    assert_eq!(parse_tenths(b"99999999999999999999999.9"), None);
    assert_eq!(parse_tenths(b"-99999999999999999999999.9"), None);
}

#[test]
fn parse_extremes() {
    // i64::MAX == 9223372036854775807 tenths, i64::MIN one more in magnitude.
    assert_eq!(parse_tenths(b"922337203685477580.7"), Some(i64::MAX));
    assert_eq!(parse_tenths(b"922337203685477580.8"), None);
    assert_eq!(parse_tenths(b"-922337203685477580.8"), Some(i64::MIN));
    assert_eq!(parse_tenths(b"-922337203685477580.9"), None);
}

#[test]
fn rounding_midpoints_away_from_zero() {
    // 2.25 -> 2.3: the mean of 2.2 and 2.3, in tenths: 45 / 2 = 22.5 -> 23.
    assert_eq!(round_half_div(45, 2), 23);
    // -2.25 -> -2.3.
    assert_eq!(round_half_div(-45, 2), -23);
    // 2.15 -> 2.2.
    assert_eq!(round_half_div(43, 2), 22);
    // -2.15 -> -2.2.
    assert_eq!(round_half_div(-43, 2), -22);
}

#[test]
fn rounding_plain_quotients() {
    assert_eq!(round_half_div(61, 1), 61);
    assert_eq!(round_half_div(0, 7), 0);
    assert_eq!(round_half_div(122, 2), 61);
    // 122 / 3 = 40.66... rounds to 41 (not a midpoint: nearest wins).
    assert_eq!(round_half_div(122, 3), 41);
    assert_eq!(round_half_div(-122, 3), -41);
    // Just below and above a midpoint.
    assert_eq!(round_half_div(7, 2), 4);
    assert_eq!(round_half_div(-7, 2), -4);
    assert_eq!(round_half_div(5, 4), 1);
    assert_eq!(round_half_div(7, 4), 2);
}
