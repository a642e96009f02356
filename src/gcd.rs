//! Greatest common divisors: the Euclidean algorithm and the facts reduction needs.
use crate::big::{abs, big_is_negative, big_is_zero, big_neg, big_rem, int_of};
use num_bigint::BigInt;
use vstd::arithmetic::div_mod::{lemma_fundamental_div_mod, lemma_fundamental_div_mod_converse};
use vstd::prelude::*;

verus! {

/// `c` divides `x`.
pub open spec fn divides(c: int, x: int) -> bool {
    exists|k: int| #[trigger] (k * c) == x
}

/// Greatest common divisor of two naturals, by Euclid; `gcd(a, 0) == a`.
pub open spec fn gcd(a: nat, b: nat) -> nat
    decreases b,
{
    if b == 0 {
        a
    } else {
        gcd(b, a % b)
    }
}

/// The gcd divides both of its arguments.
pub proof fn lemma_gcd_divides(a: nat, b: nat)
    ensures
        divides(gcd(a, b) as int, a as int),
        divides(gcd(a, b) as int, b as int),
    decreases b,
{
    if b == 0 {
        assert(1 * (a as int) == a);
        assert(0 * (a as int) == 0);
    } else {
        let g = gcd(a, b) as int;
        lemma_gcd_divides(b, a % b);
        let k1 = choose|k: int| #[trigger] (k * g) == b as int;
        let k2 = choose|k: int| #[trigger] (k * g) == (a % b) as int;
        lemma_fundamental_div_mod(a as int, b as int);
        let q = (a as int) / (b as int);
        assert(((q * k1 + k2) * g) == a as int) by (nonlinear_arith)
            requires
                k1 * g == b as int,
                k2 * g == (a % b) as int,
                a as int == b as int * q + (a % b) as int,
        ;
    }
}

/// Every common divisor of `a` and `b` divides their gcd.
pub proof fn lemma_gcd_greatest(a: nat, b: nat, c: int)
    requires
        divides(c, a as int),
        divides(c, b as int),
    ensures
        divides(c, gcd(a, b) as int),
    decreases b,
{
    if b != 0 {
        let k1 = choose|k: int| #[trigger] (k * c) == a as int;
        let k2 = choose|k: int| #[trigger] (k * c) == b as int;
        lemma_fundamental_div_mod(a as int, b as int);
        let q = (a as int) / (b as int);
        assert(((k1 - q * k2) * c) == (a % b) as int) by (nonlinear_arith)
            requires
                k1 * c == a as int,
                k2 * c == b as int,
                a as int == b as int * q + (a % b) as int,
        ;
        lemma_gcd_greatest(b, a % b, c);
    }
}

/// The gcd is zero only when both arguments are.
pub proof fn lemma_gcd_positive(a: nat, b: nat)
    requires
        a != 0 || b != 0,
    ensures
        gcd(a, b) > 0,
    decreases b,
{
    if b != 0 {
        lemma_gcd_positive(b, a % b);
    }
}

/// A positive multiple of `c` is at least `c`, for positive `c`.
pub proof fn lemma_divides_le(c: int, x: int)
    requires
        c > 0,
        x > 0,
        divides(c, x),
    ensures
        c <= x,
{
    let k = choose|k: int| #[trigger] (k * c) == x;
    assert(c <= x) by (nonlinear_arith)
        requires
            k * c == x,
            c > 0,
            x > 0,
    ;
}

/// Scaling both arguments scales the gcd.
pub proof fn lemma_gcd_mul(a: nat, b: nat, c: nat)
    ensures
        gcd(a * c, b * c) == gcd(a, b) * c,
    decreases b,
{
    if b == 0 {
        assert(b * c == 0);
    } else if c == 0 {
        assert(a * c == 0 && b * c == 0);
        assert(gcd(0, 0) == 0);
    } else {
        lemma_fundamental_div_mod(a as int, b as int);
        let q = (a as int) / (b as int);
        let r = (a % b) as int;
        assert((a * c) as int == q * ((b * c) as int) + r * c && 0 <= r * c < (b * c) as int)
            by (nonlinear_arith)
            requires
                a as int == b as int * q + r,
                0 <= r < b,
                c > 0,
        ;
        lemma_fundamental_div_mod_converse((a * c) as int, (b * c) as int, q, r * c);
        assert((a * c) % (b * c) == (a % b) * c);
        lemma_gcd_mul(b, a % b, c);
    }
}

/// A divisor of `b * c` that shares no factor with `b` divides `c`.
pub proof fn lemma_coprime_divides(a: nat, b: nat, c: nat)
    requires
        gcd(b, a) == 1,
        divides(a as int, (b * c) as int),
    ensures
        divides(a as int, c as int),
{
    lemma_gcd_mul(b, a, c);
    assert(divides(a as int, (a * c) as int)) by {
        assert((c as int) * (a as int) == (a * c) as int) by (nonlinear_arith);
    }
    lemma_gcd_greatest(b * c, a * c, a as int);
    assert(gcd(b, a) * c == c);
}

/// The gcd does not depend on the order of its arguments.
pub proof fn lemma_gcd_symmetric(a: nat, b: nat)
    ensures
        gcd(a, b) == gcd(b, a),
{
    if a != 0 || b != 0 {
        lemma_gcd_positive(a, b);
        lemma_gcd_positive(b, a);
        lemma_gcd_divides(a, b);
        lemma_gcd_divides(b, a);
        lemma_gcd_greatest(b, a, gcd(a, b) as int);
        lemma_gcd_greatest(a, b, gcd(b, a) as int);
        lemma_divides_le(gcd(a, b) as int, gcd(b, a) as int);
        lemma_divides_le(gcd(b, a) as int, gcd(a, b) as int);
    } else {
        assert(gcd(0, 0) == 0);
    }
}

/// The gcd of zero and `x` is `x`, in either order.
pub proof fn lemma_gcd_zero(x: nat)
    ensures
        gcd(0, x) == x,
        gcd(x, 0) == x,
{
    if x != 0 {
        assert(0nat % x == 0);
        assert(gcd(x, 0) == x);
    }
}

/// Greatest common divisor of the absolute values of `a` and `b`; never negative.
pub fn gcd_big(a: &BigInt, b: &BigInt) -> (g: BigInt)
    ensures
        int_of(g) == gcd(abs(int_of(*a)) as nat, abs(int_of(*b)) as nat),
{
    let mut x = a.clone();
    let mut y = b.clone();
    while !big_is_zero(&y)
        invariant
            gcd(abs(int_of(x)) as nat, abs(int_of(y)) as nat) == gcd(
                abs(int_of(*a)) as nat,
                abs(int_of(*b)) as nat,
            ),
        decreases abs(int_of(y)),
    {
        let t = y.clone();
        y = big_rem(&x, &t);
        x = t;
    }
    if big_is_negative(&x) {
        big_neg(x)
    } else {
        x
    }
}

} // verus!
