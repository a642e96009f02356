//! Arbitrary-precision integers, seen by the proofs through their value.
use num_bigint::BigInt;
use num_bigint::ParseBigIntError;
use num_traits::Num;
use num_traits::Signed;
use num_traits::Zero;
use vstd::prelude::*;

verus! {

#[verifier::external_type_specification]
#[verifier::external_body]
pub struct ExBigInt(BigInt);

#[verifier::external_type_specification]
#[verifier::external_body]
pub struct ExParseBigIntError(ParseBigIntError);

/// The mathematical integer that a `BigInt` holds.
pub uninterp spec fn int_of(b: BigInt) -> int;

pub open spec fn abs(a: int) -> int {
    if a < 0 { -a } else { a }
}

/// Quotient rounded toward zero, as Rust's `/` on integers.
pub open spec fn trunc_div(a: int, b: int) -> int {
    let q = abs(a) / abs(b);
    if (a < 0) == (b < 0) { q } else { -q }
}

/// Remainder that takes the sign of the dividend, as Rust's `%` on integers.
pub open spec fn trunc_rem(a: int, b: int) -> int {
    let r = abs(a) % abs(b);
    if a < 0 { -r } else { r }
}

/// Value of a digit character in bases up to 36: `0-9`, then `a-z` or `A-Z`
/// from ten on; 255 for any other character.
pub open spec fn digit_value(c: char) -> int {
    if '0' <= c && c <= '9' {
        (c as int) - ('0' as int)
    } else if 'a' <= c && c <= 'z' {
        (c as int) - ('a' as int) + 10
    } else if 'A' <= c && c <= 'Z' {
        (c as int) - ('A' as int) + 10
    } else {
        255
    }
}

/// Every character of `s` is a digit of base `radix`.
pub open spec fn all_digits(s: Seq<char>, radix: u32) -> bool {
    forall|i: int| 0 <= i < s.len() ==> digit_value(#[trigger] s[i]) < radix
}

/// The value of the digit string `s` in base `radix`, most significant first.
pub open spec fn digits_value(s: Seq<char>, radix: u32) -> int
    decreases s.len(),
{
    if s.len() == 0 {
        0
    } else {
        digits_value(s.drop_last(), radix) * radix + digit_value(s.last())
    }
}

/// Relies on `From<i64> for BigInt`: the same value.
#[verifier::external_body]
pub(crate) fn big_from_i64(v: i64) -> (r: BigInt)
    ensures
        int_of(r) == v,
{
    BigInt::from(v)
}

/// Relies on `Clone for BigInt`: the copy holds the same value.
pub assume_specification[ <BigInt as Clone>::clone ](b: &BigInt) -> (r: BigInt)
    ensures
        int_of(r) == int_of(*b),
;

/// Relies on `Zero::is_zero` for `BigInt`.
#[verifier::external_body]
pub(crate) fn big_is_zero(a: &BigInt) -> (r: bool)
    ensures
        r == (int_of(*a) == 0),
{
    a.is_zero()
}

/// Relies on `Signed::is_negative` for `BigInt`.
#[verifier::external_body]
pub(crate) fn big_is_negative(a: &BigInt) -> (r: bool)
    ensures
        r == (int_of(*a) < 0),
{
    a.is_negative()
}

/// Relies on `Neg for BigInt`: the sign flips.
#[verifier::external_body]
pub(crate) fn big_neg(a: BigInt) -> (r: BigInt)
    ensures
        int_of(r) == -int_of(a),
{
    -a
}

/// Relies on `Add for &BigInt`: the exact sum.
#[verifier::external_body]
pub(crate) fn big_add(a: &BigInt, b: &BigInt) -> (r: BigInt)
    ensures
        int_of(r) == int_of(*a) + int_of(*b),
{
    a + b
}

/// Relies on `Sub for &BigInt`: the exact difference.
#[verifier::external_body]
pub(crate) fn big_sub(a: &BigInt, b: &BigInt) -> (r: BigInt)
    ensures
        int_of(r) == int_of(*a) - int_of(*b),
{
    a - b
}

/// Relies on `Mul for &BigInt`: the exact product.
#[verifier::external_body]
pub(crate) fn big_mul(a: &BigInt, b: &BigInt) -> (r: BigInt)
    ensures
        int_of(r) == int_of(*a) * int_of(*b),
{
    a * b
}

/// Relies on `Div for &BigInt`, which rounds toward zero and panics on a zero divisor.
#[verifier::external_body]
pub(crate) fn big_div(a: &BigInt, b: &BigInt) -> (r: BigInt)
    requires
        int_of(*b) != 0,
    ensures
        int_of(r) == trunc_div(int_of(*a), int_of(*b)),
{
    a / b
}

/// Relies on `Rem for &BigInt`, whose result has the dividend's sign; it panics on a zero divisor.
#[verifier::external_body]
pub(crate) fn big_rem(a: &BigInt, b: &BigInt) -> (r: BigInt)
    requires
        int_of(*b) != 0,
    ensures
        int_of(r) == trunc_rem(int_of(*a), int_of(*b)),
{
    a % b
}

/// Relies on `Num::from_str_radix` for `BigInt`, which panics on a radix outside
/// 2 to 36. A non-empty string of digits of the radix is read most significant
/// digit first; a character that is neither such a digit nor one of `_`, `+`, `-`
/// is an error, and so is the empty string.
#[verifier::external_body]
pub(crate) fn big_from_str_radix(s: &str, radix: u32) -> (r: Result<BigInt, ParseBigIntError>)
    requires
        2 <= radix <= 36,
    ensures
        s@.len() > 0 && all_digits(s@, radix) ==> r is Ok && int_of(r->Ok_0) == digits_value(s@, radix),
        s@.len() == 0 ==> r is Err,
        (exists|i: int| 0 <= i < s@.len() && digit_value(#[trigger] s@[i]) >= radix
            && s@[i] != '_' && s@[i] != '+' && s@[i] != '-') ==> r is Err,
{
    BigInt::from_str_radix(s, radix)
}

} // verus!
