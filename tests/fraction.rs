use num_bigint::BigInt;
use shamir_recover::error::SecretError;
use shamir_recover::fraction::Fraction;
use shamir_recover::gcd::gcd_big;

fn frac(n: i64, d: i64) -> Fraction {
    Fraction::new(BigInt::from(n), BigInt::from(d)).unwrap()
}

#[test]
fn test_fraction_add() {
    let a = frac(1, 2);
    let b = frac(1, 3);
    let result = a.add(b);
    assert_eq!(result.num, BigInt::from(5));
    assert_eq!(result.den, BigInt::from(6));
}

#[test]
fn test_fraction_mul() {
    let a = frac(2, 3);
    let b = frac(3, 4);
    let result = a.mul(b);
    assert_eq!(result.num, BigInt::from(1));
    assert_eq!(result.den, BigInt::from(2));
}

#[test]
fn new_reduces_by_gcd() {
    let f = frac(12, 18);
    assert_eq!(f.num, BigInt::from(2));
    assert_eq!(f.den, BigInt::from(3));
}

#[test]
fn new_moves_sign_to_numerator() {
    let f = frac(3, -4);
    assert_eq!(f.num, BigInt::from(-3));
    assert_eq!(f.den, BigInt::from(4));
    let g = frac(-6, -4);
    assert_eq!(g.num, BigInt::from(3));
    assert_eq!(g.den, BigInt::from(2));
    let h = frac(-6, 4);
    assert_eq!(h.num, BigInt::from(-3));
    assert_eq!(h.den, BigInt::from(2));
}

#[test]
fn new_zero_numerator_is_zero_over_one() {
    let f = frac(0, -7);
    assert_eq!(f.num, BigInt::from(0));
    assert_eq!(f.den, BigInt::from(1));
}

#[test]
fn new_zero_denominator_fails() {
    let r = Fraction::new(BigInt::from(5), BigInt::from(0));
    assert_eq!(r.unwrap_err(), SecretError::DivisionByZero);
    let r = Fraction::new(BigInt::from(0), BigInt::from(0));
    assert_eq!(r.unwrap_err(), SecretError::DivisionByZero);
}

#[test]
fn new_keeps_large_values_exact() {
    let big = BigInt::parse_bytes(b"123456789012345678901234567891", 10).unwrap();
    let f = Fraction::new(big.clone() * BigInt::from(6), BigInt::from(4)).unwrap();
    assert_eq!(f.num, big * BigInt::from(3));
    assert_eq!(f.den, BigInt::from(2));
}

#[test]
fn add_zero_gives_fraction_back() {
    let r = frac(0, 1).add(frac(-5, 7));
    assert_eq!(r.num, BigInt::from(-5));
    assert_eq!(r.den, BigInt::from(7));
}

#[test]
fn add_commutes_on_values() {
    let a = frac(3, 10).add(frac(-7, 15));
    let b = frac(-7, 15).add(frac(3, 10));
    assert_eq!(a.num, b.num);
    assert_eq!(a.den, b.den);
    assert_eq!(a.num, BigInt::from(-1));
    assert_eq!(a.den, BigInt::from(6));
}

#[test]
fn add_to_zero_gives_zero_over_one() {
    let r = frac(1, 3).add(frac(-1, 3));
    assert_eq!(r.num, BigInt::from(0));
    assert_eq!(r.den, BigInt::from(1));
}

#[test]
fn mul_with_negative_reduces() {
    let r = frac(-4, 9).mul(frac(3, 8));
    assert_eq!(r.num, BigInt::from(-1));
    assert_eq!(r.den, BigInt::from(6));
}

#[test]
fn reduce_matches_new() {
    let r = Fraction::reduce(BigInt::from(10), BigInt::from(-25));
    assert_eq!(r.num, BigInt::from(-2));
    assert_eq!(r.den, BigInt::from(5));
}

#[test]
fn add_associates_on_values() {
    let left = frac(1, 6).add(frac(-3, 10)).add(frac(5, 14));
    let right = frac(1, 6).add(frac(-3, 10).add(frac(5, 14)));
    assert_eq!(left.num, right.num);
    assert_eq!(left.den, right.den);
    assert_eq!(left.num, BigInt::from(47));
    assert_eq!(left.den, BigInt::from(210));
}

#[test]
fn gcd_of_signed_values() {
    assert_eq!(gcd_big(&BigInt::from(12), &BigInt::from(-18)), BigInt::from(6));
    assert_eq!(gcd_big(&BigInt::from(-2), &BigInt::from(4)), BigInt::from(2));
    assert_eq!(gcd_big(&BigInt::from(4), &BigInt::from(-2)), BigInt::from(2));
    assert_eq!(gcd_big(&BigInt::from(-12), &BigInt::from(-18)), BigInt::from(6));
    assert_eq!(gcd_big(&BigInt::from(0), &BigInt::from(7)), BigInt::from(7));
    assert_eq!(gcd_big(&BigInt::from(7), &BigInt::from(0)), BigInt::from(7));
    assert_eq!(gcd_big(&BigInt::from(0), &BigInt::from(-7)), BigInt::from(7));
}
