use vtl_orderbook::error::Error;
use vtl_orderbook::rational::Rational;
use std::cmp::Ordering;

fn r(n: i64, d: i64) -> Rational {
    Rational::new(n, d).unwrap()
}

#[test]
fn new_reduces_to_lowest_terms() {
    let q = r(6, 4);
    assert_eq!(q.numer(), 3);
    assert_eq!(q.denom(), 2);
}

#[test]
fn new_moves_sign_to_numerator() {
    let q = r(3, -6);
    assert_eq!((q.numer(), q.denom()), (-1, 2));
    let p = r(-2, -4);
    assert_eq!((p.numer(), p.denom()), (1, 2));
}

#[test]
fn new_zero_numerator() {
    let q = r(0, -7);
    assert_eq!((q.numer(), q.denom()), (0, 1));
}

#[test]
fn new_rejects_zero_denominator() {
    assert_eq!(Rational::new(1, 0), Err(Error::InvalidDenominator));
}

#[test]
fn new_reports_unrepresentable_result() {
    assert_eq!(Rational::new(i64::MIN, -1), Err(Error::Overflow));
    assert_eq!(Rational::new(1, i64::MIN), Err(Error::Overflow));
    let q = r(i64::MIN, 1);
    assert_eq!(q.numer(), i64::MIN);
}

#[test]
fn new_is_scale_invariant() {
    assert_eq!(r(3, 7), r(9, 21));
    assert_eq!(r(3, 7), r(-30, -70));
    assert_eq!(r(-5, 10), r(5, -10));
}

#[test]
fn decimal_round_trip() {
    assert_eq!(Rational::from_decimal_str("12.34"), Rational::new(1234, 100));
    let q = Rational::from_decimal_str("12.34").unwrap();
    assert_eq!((q.numer(), q.denom()), (617, 50));
    assert_eq!(Rational::from_decimal_str("-3"), Rational::new(-3, 1));
    assert_eq!(Rational::from_decimal_str("0.1"), Rational::new(1, 10));
}

#[test]
fn decimal_ignores_surrounding_whitespace() {
    assert_eq!(Rational::from_decimal_str("  2.5 \n"), Rational::new(5, 2));
}

#[test]
fn decimal_negative_fraction_keeps_sign() {
    assert_eq!(Rational::from_decimal_str("-0.5"), Rational::new(-1, 2));
    assert_eq!(Rational::from_decimal_str("-1.25"), Rational::new(-5, 4));
}

#[test]
fn decimal_errors() {
    assert_eq!(Rational::from_decimal_str("abc"), Err(Error::InvalidInteger));
    assert_eq!(Rational::from_decimal_str(""), Err(Error::InvalidInteger));
    assert_eq!(Rational::from_decimal_str("x.5"), Err(Error::InvalidIntegerPart));
    assert_eq!(Rational::from_decimal_str(".5"), Err(Error::InvalidIntegerPart));
    assert_eq!(Rational::from_decimal_str("1.x"), Err(Error::InvalidFractionalPart));
    assert_eq!(Rational::from_decimal_str("1."), Err(Error::InvalidFractionalPart));
    assert_eq!(Rational::from_decimal_str("1.2.3"), Err(Error::InvalidFractionalPart));
}

#[test]
fn decimal_overflow() {
    assert_eq!(
        Rational::from_decimal_str("1.0000000000000000001"),
        Err(Error::Overflow)
    );
    assert_eq!(
        Rational::from_decimal_str("10000000000.000000001"),
        Err(Error::Overflow)
    );
    assert_eq!(
        Rational::from_decimal_str("99999999999999999999"),
        Err(Error::InvalidInteger)
    );
}

#[test]
fn decimal_from_trimmed_is_exact() {
    assert_eq!(Rational::from_trimmed_decimal("+7"), Rational::new(7, 1));
    assert_eq!(Rational::from_trimmed_decimal(" 7"), Err(Error::InvalidInteger));
    assert_eq!(Rational::from_trimmed_decimal("0.050"), Rational::new(1, 20));
}

#[test]
fn checked_sub_exact() {
    assert_eq!(r(1, 2).checked_sub(&r(1, 3)), Rational::new(1, 6));
    assert_eq!(r(1, 3).checked_sub(&r(1, 2)), Rational::new(-1, 6));
    assert_eq!(r(5, 4).checked_sub(&r(5, 4)), Rational::new(0, 1));
}

#[test]
fn checked_sub_overflow() {
    let big = r(1, i64::MAX);
    assert_eq!(big.checked_sub(&r(1, 2)), Err(Error::Overflow));
    assert_eq!(r(i64::MIN, 1).checked_sub(&r(1, 1)), Err(Error::Overflow));
}

#[test]
fn ordering_is_total_on_comparable_values() {
    let a = r(1, 3);
    let b = r(1, 2);
    assert_eq!(a.try_cmp(&b), Ok(Ordering::Less));
    assert_eq!(b.try_cmp(&a), Ok(Ordering::Greater));
    assert_eq!(a.try_cmp(&r(2, 6)), Ok(Ordering::Equal));
}

#[test]
fn ordering_detects_overflow() {
    let a = r(i64::MAX, 1);
    let b = r(1, i64::MAX);
    assert_eq!(a.try_cmp(&b), Err(Error::Overflow));
}

#[test]
fn parses_through_from_str() {
    let q: Rational = "0.25".parse().unwrap();
    assert_eq!(q, Rational::new(1, 4).unwrap());
    assert_eq!("z".parse::<Rational>(), Err(Error::InvalidInteger));
}

#[test]
fn decimal_tenth_is_one_over_ten() {
    let q = Rational::from_decimal_str("0.1").unwrap();
    assert_eq!((q.numer(), q.denom()), (1, 10));
    assert_eq!(q.numer() as f64 / q.denom() as f64, 0.1);
}
