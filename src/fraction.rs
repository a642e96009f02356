//! Reduced fractions of arbitrary-precision integers.
use crate::big::{
    abs, big_add, big_div, big_is_negative, big_is_zero, big_mul, big_neg, int_of, trunc_div,
};
use crate::error::SecretError;
use crate::gcd::{
    divides, gcd, gcd_big, lemma_coprime_divides, lemma_divides_le, lemma_gcd_divides,
    lemma_gcd_greatest, lemma_gcd_positive,
};
use num_bigint::BigInt;
use vstd::arithmetic::div_mod::lemma_fundamental_div_mod_converse;
use vstd::arithmetic::mul::lemma_mul_is_distributive_add_other_way;
use vstd::prelude::*;

verus! {

/// `n / d` with `d > 0` and no common factor but 1.
pub open spec fn is_reduced(p: (int, int)) -> bool {
    p.1 > 0 && gcd(abs(p.0) as nat, p.1 as nat) == 1
}

/// The two pairs stand for the same rational number.
pub open spec fn same_ratio(p: (int, int), q: (int, int)) -> bool {
    p.0 * q.1 == q.0 * p.1
}

/// The reduced form of `p.0 / p.1`: both divided by their gcd, the sign moved
/// to the numerator.
pub open spec fn normalize(p: (int, int)) -> (int, int) {
    let g = gcd(abs(p.0) as nat, abs(p.1) as nat) as int;
    if p.1 < 0 {
        (-p.0 / g, -p.1 / g)
    } else {
        (p.0 / g, p.1 / g)
    }
}

/// `a + b` before reduction.
pub open spec fn add_pair(a: (int, int), b: (int, int)) -> (int, int) {
    (a.0 * b.1 + b.0 * a.1, a.1 * b.1)
}

/// `a * b` before reduction.
pub open spec fn mul_pair(a: (int, int), b: (int, int)) -> (int, int) {
    (a.0 * b.0, a.1 * b.1)
}

/// A rational number as a numerator and a denominator.
#[derive(Debug, Clone)]
pub struct Fraction {
    pub num: BigInt,
    pub den: BigInt,
}

impl View for Fraction {
    type V = (int, int);

    open spec fn view(&self) -> (int, int) {
        (int_of(self.num), int_of(self.den))
    }
}

impl Fraction {
    /// Reduced, with a positive denominator.
    pub open spec fn wf(&self) -> bool {
        is_reduced(self@)
    }

    /// The fraction `n / d` in reduced form; a zero `d` is an error.
    pub fn new(n: BigInt, d: BigInt) -> (r: Result<Fraction, SecretError>)
        ensures
            int_of(d) == 0 <==> r is Err,
            r is Err ==> r->Err_0 == SecretError::DivisionByZero,
            r is Ok ==> r->Ok_0@ == normalize((int_of(n), int_of(d))),
            r is Ok ==> r->Ok_0.wf(),
            r is Ok ==> same_ratio(r->Ok_0@, (int_of(n), int_of(d))),
    {
        if big_is_zero(&d) {
            return Err(SecretError::DivisionByZero);
        }
        proof {
            lemma_normalize(int_of(n), int_of(d));
        }
        Ok(Fraction::reduce(n, d))
    }

    /// The reduced form of `n / d`, for a non-zero `d`: both divided by their
    /// gcd, then the signs flipped if the denominator is negative.
    pub fn reduce(n: BigInt, d: BigInt) -> (r: Fraction)
        requires
            int_of(d) != 0,
        ensures
            r@ == normalize((int_of(n), int_of(d))),
            r.wf(),
    {
        let g = gcd_big(&n, &d);
        proof {
            lemma_gcd_positive(abs(int_of(n)) as nat, abs(int_of(d)) as nat);
        }
        let num = big_div(&n, &g);
        let den = big_div(&d, &g);
        proof {
            lemma_reduce_step(int_of(n), int_of(d), int_of(g));
            lemma_normalize(int_of(n), int_of(d));
        }
        if big_is_negative(&den) {
            Fraction { num: big_neg(num), den: big_neg(den) }
        } else {
            Fraction { num, den }
        }
    }

    /// The reduced sum of two fractions.
    pub fn add(self, other: Fraction) -> (r: Fraction)
        requires
            self@.1 != 0,
            other@.1 != 0,
        ensures
            r@ == normalize(add_pair(self@, other@)),
            r.wf(),
    {
        let a = big_mul(&self.num, &other.den);
        let b = big_mul(&self.den, &other.num);
        let n = big_add(&a, &b);
        let d = big_mul(&self.den, &other.den);
        proof {
            assert(int_of(d) != 0) by (nonlinear_arith)
                requires
                    int_of(d) == self@.1 * other@.1,
                    self@.1 != 0,
                    other@.1 != 0,
            ;
            assert(int_of(b) == other@.0 * self@.1) by (nonlinear_arith)
                requires
                    int_of(b) == self@.1 * other@.0,
            ;
        }
        Fraction::reduce(n, d)
    }

    /// The reduced product of two fractions.
    pub fn mul(self, other: Fraction) -> (r: Fraction)
        requires
            self@.1 != 0,
            other@.1 != 0,
        ensures
            r@ == normalize(mul_pair(self@, other@)),
            r.wf(),
    {
        let n = big_mul(&self.num, &other.num);
        let d = big_mul(&self.den, &other.den);
        proof {
            assert(int_of(d) != 0) by (nonlinear_arith)
                requires
                    int_of(d) == self@.1 * other@.1,
                    self@.1 != 0,
                    other@.1 != 0,
            ;
        }
        Fraction::reduce(n, d)
    }
}

/// Exact division by `g`, whose absolute value divides `a`.
proof fn lemma_trunc_div_exact(a: int, g: int, k: int)
    requires
        g != 0,
        k * abs(g) == a,
    ensures
        a / abs(g) == k,
        trunc_div(a, g) == if g > 0 { k } else { -k },
{
    lemma_fundamental_div_mod_converse(a, abs(g), k, 0);
    let ak = abs(k);
    assert(ak * abs(g) == abs(a)) by (nonlinear_arith)
        requires
            k * abs(g) == a,
            ak == abs(k),
            abs(g) > 0,
    ;
    lemma_fundamental_div_mod_converse(abs(a), abs(g), ak, 0);
    assert((a < 0) == (k < 0)) by (nonlinear_arith)
        requires
            k * abs(g) == a,
            abs(g) > 0,
    ;
}

/// Dividing `n` and `d` by their gcd, of either sign, then moving the sign
/// to the numerator, gives the reduced form.
proof fn lemma_reduce_step(n: int, d: int, g: int)
    requires
        d != 0,
        abs(g) == gcd(abs(n) as nat, abs(d) as nat),
    ensures
        g != 0,
        ({
            let a = trunc_div(n, g);
            let b = trunc_div(d, g);
            (if b < 0 { (-a, -b) } else { (a, b) }) == normalize((n, d))
        }),
{
    let gg = gcd(abs(n) as nat, abs(d) as nat) as int;
    lemma_gcd_positive(abs(n) as nat, abs(d) as nat);
    lemma_gcd_divides(abs(n) as nat, abs(d) as nat);
    let kn = choose|k: int| #[trigger] (k * gg) == abs(n);
    let kd = choose|k: int| #[trigger] (k * gg) == abs(d);
    let qn = if n < 0 { -kn } else { kn };
    let qd = if d < 0 { -kd } else { kd };
    assert(qn * abs(g) == n && -qn * abs(g) == -n) by (nonlinear_arith)
        requires
            kn * gg == abs(n),
            qn == if n < 0 { -kn } else { kn },
            abs(g) == gg,
    ;
    assert(qd * abs(g) == d && -qd * abs(g) == -d && (qd < 0) == (d < 0)) by (nonlinear_arith)
        requires
            kd * gg == abs(d),
            qd == if d < 0 { -kd } else { kd },
            abs(g) == gg,
            gg > 0,
            d != 0,
    ;
    lemma_trunc_div_exact(n, g, qn);
    lemma_trunc_div_exact(d, g, qd);
    lemma_trunc_div_exact(-n, g, -qn);
    lemma_trunc_div_exact(-d, g, -qd);
}

/// The reduced form is reduced, has a positive denominator, stands for the
/// same number, and leaves a reduced pair as it is.
pub proof fn lemma_normalize(n: int, d: int)
    requires
        d != 0,
    ensures
        is_reduced(normalize((n, d))),
        same_ratio(normalize((n, d)), (n, d)),
        is_reduced((n, d)) ==> normalize((n, d)) == (n, d),
{
    let g = gcd(abs(n) as nat, abs(d) as nat) as int;
    lemma_gcd_positive(abs(n) as nat, abs(d) as nat);
    lemma_gcd_divides(abs(n) as nat, abs(d) as nat);
    let kn = choose|k: int| #[trigger] (k * g) == abs(n);
    let kd = choose|k: int| #[trigger] (k * g) == abs(d);
    let qn = if n < 0 { -kn } else { kn };
    let qd = if d < 0 { -kd } else { kd };
    assert(qn * g == n && -qn * g == -n && kd > 0) by (nonlinear_arith)
        requires
            kn * g == abs(n),
            kd * g == abs(d),
            qn == if n < 0 { -kn } else { kn },
            g > 0,
            d != 0,
    ;
    assert(qd * g == d && -qd * g == -d) by (nonlinear_arith)
        requires
            kd * g == abs(d),
            qd == if d < 0 { -kd } else { kd },
    ;
    lemma_trunc_div_exact(n, g, qn);
    lemma_trunc_div_exact(d, g, qd);
    lemma_trunc_div_exact(-n, g, -qn);
    lemma_trunc_div_exact(-d, g, -qd);
    let p = normalize((n, d));
    assert(p.1 == kd);
    assert(abs(p.0) == kn);
    // no common factor is left
    let h = gcd(kn as nat, kd as nat) as int;
    lemma_gcd_positive(kn as nat, kd as nat);
    lemma_gcd_divides(kn as nat, kd as nat);
    let hn = choose|k: int| #[trigger] (k * h) == kn;
    let hd = choose|k: int| #[trigger] (k * h) == kd;
    assert((hn * (h * g)) == abs(n) && (hd * (h * g)) == abs(d)) by (nonlinear_arith)
        requires
            hn * h == kn,
            hd * h == kd,
            kn * g == abs(n),
            kd * g == abs(d),
    ;
    lemma_gcd_greatest(abs(n) as nat, abs(d) as nat, h * g);
    assert(h * g > 0) by (nonlinear_arith)
        requires
            h > 0,
            g > 0,
    ;
    lemma_divides_le(h * g, g);
    assert(h <= 1) by (nonlinear_arith)
        requires
            h * g <= g,
            g > 0,
    ;
    // the same number
    if d < 0 {
        assert(same_ratio(p, (n, d))) by (nonlinear_arith)
            requires
                p.0 == -qn,
                p.1 == -qd,
                qn * g == n,
                qd * g == d,
        ;
    } else {
        assert(same_ratio(p, (n, d))) by (nonlinear_arith)
            requires
                p.0 == qn,
                p.1 == qd,
                qn * g == n,
                qd * g == d,
        ;
    }
    if is_reduced((n, d)) {
        assert(g == 1);
    }
}

/// Adding the fraction built from `0 / 1` to a reduced fraction gives it back.
pub proof fn lemma_zero_add(f: (int, int))
    requires
        is_reduced(f),
    ensures
        normalize(add_pair(normalize((0, 1)), f)) == f,
{
    assert(gcd(1, 0) == 1);
    assert(gcd(0, 1) == 1);
    lemma_normalize(0, 1);
    assert(add_pair((0, 1), f) == f);
    lemma_normalize(f.0, f.1);
}

/// Addition of fractions does not depend on the order of its operands.
pub proof fn lemma_add_commutes(a: (int, int), b: (int, int))
    ensures
        normalize(add_pair(a, b)) == normalize(add_pair(b, a)),
{
    assert(add_pair(a, b) == add_pair(b, a)) by (nonlinear_arith);
}

/// Two reduced fractions that stand for the same number are equal.
pub proof fn lemma_reduced_unique(p: (int, int), q: (int, int))
    requires
        is_reduced(p),
        is_reduced(q),
        same_ratio(p, q),
    ensures
        p == q,
{
    assert(abs(p.0) * q.1 == abs(q.0) * p.1 && abs(q.0) * p.1 == abs(p.0) * q.1) by (nonlinear_arith)
        requires
            p.0 * q.1 == q.0 * p.1,
            p.1 > 0,
            q.1 > 0,
    ;
    assert(divides(p.1, (abs(p.0) as nat * q.1 as nat) as int));
    assert(divides(q.1, (abs(q.0) as nat * p.1 as nat) as int));
    lemma_coprime_divides(p.1 as nat, abs(p.0) as nat, q.1 as nat);
    lemma_coprime_divides(q.1 as nat, abs(q.0) as nat, p.1 as nat);
    lemma_divides_le(p.1, q.1);
    lemma_divides_le(q.1, p.1);
    assert(p.0 == q.0) by (nonlinear_arith)
        requires
            p.0 * q.1 == q.0 * p.1,
            p.1 == q.1,
            p.1 > 0,
    ;
}

/// Standing for the same number is transitive, through a non-zero denominator.
pub proof fn lemma_same_ratio_trans(p: (int, int), q: (int, int), r: (int, int))
    requires
        q.1 != 0,
        same_ratio(p, q),
        same_ratio(q, r),
    ensures
        same_ratio(p, r),
{
    assert((p.0 * r.1 - r.0 * p.1) * q.1 == 0) by (nonlinear_arith)
        requires
            p.0 * q.1 == q.0 * p.1,
            q.0 * r.1 == r.0 * q.1,
    ;
    assert(p.0 * r.1 - r.0 * p.1 == 0) by (nonlinear_arith)
        requires
            (p.0 * r.1 - r.0 * p.1) * q.1 == 0,
            q.1 != 0,
    ;
}

/// `(a * b) * (c * d) == (a * c) * (b * d)`.
proof fn lemma_four_factors(a: int, b: int, c: int, d: int)
    ensures
        (a * b) * (c * d) == (a * c) * (b * d),
{
    assert((a * b) * (c * d) == (a * c) * (b * d)) by (nonlinear_arith);
}

/// Pairs that stand for the same number have the same reduced form.
pub proof fn lemma_normalize_congruent(p: (int, int), q: (int, int))
    requires
        p.1 != 0,
        q.1 != 0,
        same_ratio(p, q),
    ensures
        normalize(p) == normalize(q),
{
    lemma_normalize(p.0, p.1);
    lemma_normalize(q.0, q.1);
    let np = normalize(p);
    let nq = normalize(q);
    lemma_same_ratio_trans(np, p, q);
    assert(same_ratio(q, nq)) by (nonlinear_arith)
        requires
            same_ratio(nq, q),
    ;
    lemma_same_ratio_trans(np, q, nq);
    lemma_reduced_unique(np, nq);
}

/// The sum of pairs respects standing for the same number.
pub proof fn lemma_add_pair_congruent(p: (int, int), p2: (int, int), q: (int, int), q2: (int, int))
    requires
        same_ratio(p, p2),
        same_ratio(q, q2),
    ensures
        same_ratio(add_pair(p, q), add_pair(p2, q2)),
{
    let (a, b, c, d) = (p.0, p.1, q.0, q.1);
    let (a2, b2, c2, d2) = (p2.0, p2.1, q2.0, q2.1);
    lemma_mul_is_distributive_add_other_way(b2 * d2, a * d, c * b);
    lemma_mul_is_distributive_add_other_way(b * d, a2 * d2, c2 * b2);
    lemma_four_factors(a, d, b2, d2);
    lemma_four_factors(c, b, b2, d2);
    lemma_four_factors(a2, d2, b, d);
    lemma_four_factors(c2, b2, b, d);
    assert((a * b2) * (d * d2) == (a2 * b) * (d * d2));
    assert((c * d2) * (b * b2) == (c2 * d) * (b * b2));
    assert((a * d) * (b2 * d2) == (a * b2) * (d * d2));
    assert((c * b) * (b2 * d2) == (c * d2) * (b * b2)) by (nonlinear_arith);
    assert((a2 * d2) * (b * d) == (a2 * b) * (d * d2)) by (nonlinear_arith);
    assert((c2 * b2) * (b * d) == (c2 * d) * (b * b2)) by (nonlinear_arith);
}

/// The product of pairs respects standing for the same number.
pub proof fn lemma_mul_pair_congruent(p: (int, int), p2: (int, int), q: (int, int), q2: (int, int))
    requires
        same_ratio(p, p2),
        same_ratio(q, q2),
    ensures
        same_ratio(mul_pair(p, q), mul_pair(p2, q2)),
{
    let (a, b, c, d) = (p.0, p.1, q.0, q.1);
    let (a2, b2, c2, d2) = (p2.0, p2.1, q2.0, q2.1);
    assert((a * c) * (b2 * d2) == (a * b2) * (c * d2)) by (nonlinear_arith);
    assert((a2 * c2) * (b * d) == (a2 * b) * (c2 * d)) by (nonlinear_arith);
}

/// Addition of fractions is associative: grouping does not change the
/// reduced sum.
pub proof fn lemma_add_associates(a: (int, int), b: (int, int), c: (int, int))
    requires
        a.1 != 0,
        b.1 != 0,
        c.1 != 0,
    ensures
        normalize(add_pair(normalize(add_pair(a, b)), c)) == normalize(
            add_pair(a, normalize(add_pair(b, c))),
        ),
{
    assert(a.1 * b.1 != 0 && b.1 * c.1 != 0 && a.1 * b.1 * c.1 != 0) by (nonlinear_arith)
        requires
            a.1 != 0,
            b.1 != 0,
            c.1 != 0,
    ;
    lemma_normalize(a.0 * b.1 + b.0 * a.1, a.1 * b.1);
    lemma_normalize(b.0 * c.1 + c.0 * b.1, b.1 * c.1);
    let ab = normalize(add_pair(a, b));
    let bc = normalize(add_pair(b, c));
    lemma_add_pair_congruent(ab, add_pair(a, b), c, c);
    lemma_add_pair_congruent(a, a, bc, add_pair(b, c));
    let (x, y, z, u, v, w) = (a.0, a.1, b.0, b.1, c.0, c.1);
    lemma_mul_is_distributive_add_other_way(w, x * u, z * y);
    lemma_mul_is_distributive_add_other_way(y, z * w, v * u);
    assert((x * u) * w == x * (u * w)) by (nonlinear_arith);
    assert((z * y) * w == (z * w) * y) by (nonlinear_arith);
    assert(v * (y * u) == (v * u) * y) by (nonlinear_arith);
    assert((y * u) * w == y * (u * w)) by (nonlinear_arith);
    assert(add_pair(add_pair(a, b), c) == add_pair(a, add_pair(b, c)));
    assert(add_pair(ab, c).1 != 0 && add_pair(a, bc).1 != 0) by (nonlinear_arith)
        requires
            ab.1 > 0,
            bc.1 > 0,
            a.1 != 0,
            c.1 != 0,
    ;
    lemma_normalize_congruent(add_pair(ab, c), add_pair(add_pair(a, b), c));
    lemma_normalize_congruent(add_pair(a, bc), add_pair(a, add_pair(b, c)));
}

/// Reducing the operands first does not change the reduced sum.
pub proof fn lemma_add_of_normalized(a: (int, int), b: (int, int))
    requires
        a.1 != 0,
        b.1 != 0,
    ensures
        add_pair(a, b).1 != 0,
        normalize(add_pair(normalize(a), normalize(b))) == normalize(add_pair(a, b)),
{
    lemma_normalize(a.0, a.1);
    lemma_normalize(b.0, b.1);
    lemma_add_pair_congruent(normalize(a), a, normalize(b), b);
    assert(a.1 * b.1 != 0 && normalize(a).1 * normalize(b).1 != 0) by (nonlinear_arith)
        requires
            a.1 != 0,
            b.1 != 0,
            normalize(a).1 > 0,
            normalize(b).1 > 0,
    ;
    lemma_normalize_congruent(add_pair(normalize(a), normalize(b)), add_pair(a, b));
}

/// Reducing the operands first does not change the reduced product.
pub proof fn lemma_mul_of_normalized(a: (int, int), b: (int, int))
    requires
        a.1 != 0,
        b.1 != 0,
    ensures
        mul_pair(a, b).1 != 0,
        normalize(mul_pair(normalize(a), normalize(b))) == normalize(mul_pair(a, b)),
{
    lemma_normalize(a.0, a.1);
    lemma_normalize(b.0, b.1);
    lemma_mul_pair_congruent(normalize(a), a, normalize(b), b);
    assert(a.1 * b.1 != 0 && normalize(a).1 * normalize(b).1 != 0) by (nonlinear_arith)
        requires
            a.1 != 0,
            b.1 != 0,
            normalize(a).1 > 0,
            normalize(b).1 > 0,
    ;
    lemma_normalize_congruent(mul_pair(normalize(a), normalize(b)), mul_pair(a, b));
}

} // verus!
