use std::cmp::Ordering;
use trellis::numeric::{Numeric, NumericParseError};

fn n(text: &str) -> Numeric {
    Numeric::parse(text).unwrap()
}

#[test]
fn round_trips_plain_integers() {
    assert_eq!(n("123").to_string(), "123");
    assert_eq!(n("0").to_string(), "0");
}

#[test]
fn round_trips_decimals_with_leading_zero_integer_part() {
    assert_eq!(n("0.5").to_string(), "0.5");
    assert_eq!(n(".5").to_string(), "0.5");
    assert_eq!(n("0.001").to_string(), "0.001");
}

#[test]
fn strips_redundant_leading_zeros() {
    assert_eq!(n("007.50").to_string(), "7.50");
    assert_eq!(n("00").to_string(), "0");
}

#[test]
fn preserves_trailing_fractional_zeros() {
    assert_eq!(n("1.50").to_string(), "1.50");
    assert_eq!(n("1.500").to_string(), "1.500");
}

#[test]
fn negative_values_round_trip() {
    assert_eq!(n("-5.25").to_string(), "-5.25");
}

#[test]
fn negative_zero_normalizes_to_positive() {
    assert_eq!(n("-0").to_string(), "0");
    assert_eq!(n("-0.00").to_string(), "0.00");
}

#[test]
fn rejects_invalid_text() {
    assert!(Numeric::parse("").is_err());
    assert!(Numeric::parse(".").is_err());
    assert!(Numeric::parse("-").is_err());
    assert!(Numeric::parse("1.2.3").is_err());
    assert!(Numeric::parse("abc").is_err());
    assert!(Numeric::parse("1a").is_err());
}

#[test]
fn add_matches_common_scale_rule() {
    assert_eq!(n("1.5").add(&n("2.25")).to_string(), "3.75");
    assert_eq!(n("10").add(&n("0.001")).to_string(), "10.001");
    assert_eq!(n("1.50").add(&n("1.5")).to_string(), "3.00");
}

#[test]
fn add_handles_signs() {
    assert_eq!(n("-1.5").add(&n("2.25")).to_string(), "0.75");
    assert_eq!(n("1.5").add(&n("-2.25")).to_string(), "-0.75");
    assert_eq!(n("-1.5").add(&n("-2.25")).to_string(), "-3.75");
    assert_eq!(n("1.5").add(&n("-1.5")).to_string(), "0.0");
}

#[test]
fn add_handles_large_values() {
    let big = "9".repeat(50);
    let a = Numeric::parse(&big).unwrap();
    let sum = a.add(&n("1")).to_string();
    assert_eq!(sum, format!("1{}", "0".repeat(50)));
}

#[test]
fn compare_handles_different_scales() {
    assert_eq!(n("1.50").compare(&n("1.5")), Ordering::Equal);
    assert_eq!(n("2").compare(&n("1.999")), Ordering::Greater);
    assert_eq!(n("1.999").compare(&n("2")), Ordering::Less);
}

#[test]
fn compare_handles_signs() {
    assert_eq!(n("-1").compare(&n("1")), Ordering::Less);
    assert_eq!(n("1").compare(&n("-1")), Ordering::Greater);
    assert_eq!(n("-5").compare(&n("-1")), Ordering::Less);
    assert_eq!(n("-1").compare(&n("-5")), Ordering::Greater);
    assert_eq!(n("0").compare(&n("-0")), Ordering::Equal);
}

#[test]
fn add_is_deterministic() {
    let a = n("123.456");
    let b = n("789.1");
    assert_eq!(a.add(&b), a.add(&b));
}

#[test]
fn div_matches_postgres_scale_selection() {
    assert_eq!(n("1").div(&n("3")).to_string(), "0.33333333333333333333");
    assert_eq!(n("100").div(&n("3")).to_string(), "33.3333333333333333");
    assert_eq!(n("3").div(&n("3")).to_string(), "1.00000000000000000000");
    assert_eq!(n("4").div(&n("3")).to_string(), "1.3333333333333333");
    assert_eq!(
        n("100000000000").div(&n("3")).to_string(),
        "33333333333.33333333"
    );
    assert_eq!(
        n("1").div(&n("300000000000")).to_string(),
        "0.0000000000033333333333333333"
    );
}

#[test]
fn div_clamps_to_at_least_the_operands_own_scale() {
    assert_eq!(
        n("1.23456789012345").div(&n("3")).to_string(),
        "0.41152263004115000000"
    );
}

#[test]
fn div_handles_signs() {
    assert_eq!(n("-5").div(&n("3")).to_string(), "-1.6666666666666667");
    assert_eq!(n("5").div(&n("-3")).to_string(), "-1.6666666666666667");
    assert_eq!(n("-5").div(&n("-3")).to_string(), "1.6666666666666667");
}

#[test]
fn div_of_zero_numerator_is_zero_at_full_scale() {
    assert_eq!(n("0").div(&n("3")).to_string(), "0.00000000000000000000");
}

#[test]
fn div_terminating_cases_are_exact() {
    assert_eq!(n("10").div(&n("4")).to_string(), "2.5000000000000000");
    assert_eq!(n("1").div(&n("8")).to_string(), "0.12500000000000000000");
}

#[test]
fn div_takes_values_below_one() {
    assert_eq!(n("0.5").div(&n("3")).to_string(), "0.16666666666666666667");
    assert_eq!(n("1").div(&n("0.5")).to_string(), "2.0000000000000000");
    assert_eq!(n("0.0001").div(&n("0.0002")).to_string(), "0.50000000000000000000");
}

#[test]
fn div_rounds_half_away_from_zero() {
    assert_eq!(
        n("1.0000000000000000000000001").div(&n("2")).to_string(),
        "0.5000000000000000000000001"
    );
    assert_eq!(
        n("1.0000000000000000000000001").div(&n("-2")).to_string(),
        "-0.5000000000000000000000001"
    );
    assert_eq!(n("2").div(&n("3")).to_string(), "0.66666666666666666667");
    assert_eq!(n("-2").div(&n("3")).to_string(), "-0.66666666666666666667");
}

#[test]
fn parse_trims_white_space_and_takes_a_plus_sign() {
    assert_eq!(n("  +12.30\t\n").to_string(), "12.30");
    assert_eq!(n("\u{3000}7\u{a0}").to_string(), "7");
    assert_eq!(n("5.").to_string(), "5");
    assert!(Numeric::parse("1 2").is_err());
    assert!(Numeric::parse("+-1").is_err());
    assert!(Numeric::parse("1e3").is_err());
}

#[test]
fn parse_error_names_the_text_as_given() {
    let err = Numeric::parse(" x ").unwrap_err();
    assert_eq!(err, NumericParseError::Invalid { text: " x ".to_string() });
    assert_eq!(err.to_string(), "' x ' is not a valid decimal number");
}

#[test]
fn reading_a_value_s_text_gives_the_value_back() {
    for text in ["0", "0.00", "-7.5", "123456789.000", "-0.001", "1000000000000000000000"] {
        let value = n(text);
        assert_eq!(value.to_string(), text);
        assert_eq!(n(&value.to_string()), value);
        assert_eq!(value.clone(), value);
    }
}

#[test]
fn addition_commutes_and_associates() {
    let (a, b, c) = (n("1.5"), n("-2.25"), n("10"));
    assert_eq!(a.add(&b), b.add(&a));
    assert_eq!(a.add(&b).add(&c), a.add(&b.add(&c)));
    assert_eq!(a.add(&n("0")), a);
    assert_eq!(a.add(&c).compare(&b.add(&c)), a.compare(&b));
}

#[test]
fn equal_values_of_different_scale_are_not_the_same_value() {
    assert_ne!(n("1.5"), n("1.50"));
    assert_eq!(n("1.5").compare(&n("1.50")), Ordering::Equal);
}

#[test]
fn a_quotient_has_at_least_sixteen_significant_digits() {
    for (a, b) in [("1", "9999"), ("9999", "1"), ("0.0001", "7"), ("123456789", "0.003"), ("1", "10000")] {
        let text = n(a).div(&n(b)).to_string();
        let digits: String = text.chars().filter(|c| c.is_ascii_digit()).collect();
        assert!(digits.trim_start_matches('0').len() >= 16, "{a} / {b} = {text}");
    }
}
