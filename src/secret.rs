//! Recovering the secret: Lagrange interpolation at zero over reduced fractions.
use crate::big::{
    all_digits, big_add, big_from_i64, big_from_str_radix, big_is_zero, big_neg, big_sub,
    digit_value, digits_value, int_of,
};
use crate::error::SecretError;
use crate::fraction::{
    add_pair, lemma_add_of_normalized, lemma_mul_of_normalized, mul_pair, normalize, Fraction,
};
use crate::fold::{fold, is_commutative_monoid, is_permutation, lemma_fold_permute, permute};
use num_bigint::BigInt;
use vstd::arithmetic::mul::lemma_mul_is_distributive_add_other_way;
use vstd::prelude::*;
use vstd::string::{is_ascii, is_ascii_spec_bytes};

verus! {

/// The values of a sequence of big integers.
pub open spec fn ints(s: Seq<BigInt>) -> Seq<int> {
    s.map_values(|b: BigInt| int_of(b))
}

/// Two of the first `m` indices are equal.
pub open spec fn has_duplicate(xs: Seq<int>, m: int) -> bool {
    exists|i: int, j: int| 0 <= i < m && 0 <= j < m && i != j && #[trigger] xs[i] == #[trigger] xs[j]
}

/// `y_i` times the factors `-x_j / (x_i - x_j)` for `j < k`, `j != i`,
/// numerators and denominators multiplied out.
pub open spec fn basis_term(xs: Seq<int>, ys: Seq<int>, i: int, k: int) -> (int, int)
    decreases k,
{
    if k <= 0 {
        (ys[i], 1)
    } else if k - 1 == i {
        basis_term(xs, ys, i, k - 1)
    } else {
        mul_pair(basis_term(xs, ys, i, k - 1), (-xs[k - 1], xs[i] - xs[k - 1]))
    }
}

/// The sum of the basis terms of the shares `0..k`, each over all `m` shares,
/// numerators and denominators multiplied out.
pub open spec fn lagrange_sum(xs: Seq<int>, ys: Seq<int>, m: int, k: int) -> (int, int)
    decreases k,
{
    if k <= 0 {
        (0, 1)
    } else {
        add_pair(lagrange_sum(xs, ys, m, k - 1), basis_term(xs, ys, k - 1, m))
    }
}

/// The value at zero of the polynomial of degree below `m` through the first
/// `m` points `(xs[i], ys[i])`: the sum over `i` of
/// `ys[i] * prod_{j != i} (-xs[j]) / (xs[i] - xs[j])`, in reduced form.
pub open spec fn lagrange_at_zero(xs: Seq<int>, ys: Seq<int>, m: int) -> (int, int) {
    normalize(lagrange_sum(xs, ys, m, m))
}

/// The sum of unreduced fractions, as an operation.
pub open spec fn add_op() -> spec_fn((int, int), (int, int)) -> (int, int) {
    |a: (int, int), b: (int, int)| add_pair(a, b)
}

/// The product of unreduced fractions, as an operation.
pub open spec fn mul_op() -> spec_fn((int, int), (int, int)) -> (int, int) {
    |a: (int, int), b: (int, int)| mul_pair(a, b)
}

/// The basis terms of the first `m` shares.
pub open spec fn basis_terms(xs: Seq<int>, ys: Seq<int>, m: int) -> Seq<(int, int)> {
    Seq::new(m as nat, |i: int| basis_term(xs, ys, i, m))
}

/// The factors `-x_j / (x_i - x_j)` for `j < k`, with `1 / 1` at `j == i`.
pub open spec fn basis_factors(xs: Seq<int>, i: int, k: int) -> Seq<(int, int)> {
    Seq::new(k as nat, |j: int| if j == i { (1int, 1int) } else { (-xs[j], xs[i] - xs[j]) })
}

/// Unreduced sums form a commutative monoid with `0 / 1`.
proof fn lemma_add_op_monoid()
    ensures
        is_commutative_monoid(add_op(), (0, 1)),
{
    assert forall|a: (int, int), b: (int, int)| #[trigger] add_op()(a, b) == add_op()(b, a) by {
        assert(a.0 * b.1 + b.0 * a.1 == b.0 * a.1 + a.0 * b.1 && a.1 * b.1 == b.1 * a.1)
            by (nonlinear_arith);
    }
    assert forall|a: (int, int), b: (int, int), c: (int, int)|
        #[trigger] add_op()(add_op()(a, b), c) == add_op()(a, add_op()(b, c)) by {
        let (x, y, z, u, v, w) = (a.0, a.1, b.0, b.1, c.0, c.1);
        lemma_mul_is_distributive_add_other_way(w, x * u, z * y);
        lemma_mul_is_distributive_add_other_way(y, z * w, v * u);
        assert((x * u) * w == x * (u * w)) by (nonlinear_arith);
        assert((z * y) * w == (z * w) * y) by (nonlinear_arith);
        assert(v * (y * u) == (v * u) * y) by (nonlinear_arith);
        assert((y * u) * w == y * (u * w)) by (nonlinear_arith);
    }
    assert forall|a: (int, int)| #[trigger] add_op()((0, 1), a) == a by {
        assert(0 * a.1 + a.0 * 1 == a.0 && 1 * a.1 == a.1) by (nonlinear_arith);
    }
}

/// Unreduced products form a commutative monoid with `1 / 1`.
proof fn lemma_mul_op_monoid()
    ensures
        is_commutative_monoid(mul_op(), (1, 1)),
{
    assert forall|a: (int, int), b: (int, int)| #[trigger] mul_op()(a, b) == mul_op()(b, a) by {
        assert(a.0 * b.0 == b.0 * a.0 && a.1 * b.1 == b.1 * a.1) by (nonlinear_arith);
    }
    assert forall|a: (int, int), b: (int, int), c: (int, int)|
        #[trigger] mul_op()(mul_op()(a, b), c) == mul_op()(a, mul_op()(b, c)) by {
        assert((a.0 * b.0) * c.0 == a.0 * (b.0 * c.0)) by (nonlinear_arith);
        assert((a.1 * b.1) * c.1 == a.1 * (b.1 * c.1)) by (nonlinear_arith);
    }
    assert forall|a: (int, int)| #[trigger] mul_op()((1, 1), a) == a by {
        assert(1 * a.0 == a.0 && 1 * a.1 == a.1) by (nonlinear_arith);
    }
}

/// The partial Lagrange sum is a fold of the basis terms.
proof fn lemma_sum_is_fold(xs: Seq<int>, ys: Seq<int>, m: int, k: int)
    requires
        0 <= k <= m,
    ensures
        lagrange_sum(xs, ys, m, k) == fold(add_op(), (0, 1), basis_terms(xs, ys, m).take(k)),
    decreases k,
{
    if k > 0 {
        lemma_sum_is_fold(xs, ys, m, k - 1);
        assert(basis_terms(xs, ys, m).take(k).drop_last() =~= basis_terms(xs, ys, m).take(k - 1));
    }
}

/// A basis term is `y_i` times a fold of its factors.
proof fn lemma_basis_is_fold(xs: Seq<int>, ys: Seq<int>, i: int, k: int)
    requires
        k >= 0,
    ensures
        basis_term(xs, ys, i, k) == mul_pair((ys[i], 1), fold(mul_op(), (1, 1), basis_factors(xs, i, k))),
    decreases k,
{
    if k > 0 {
        lemma_basis_is_fold(xs, ys, i, k - 1);
        lemma_mul_op_monoid();
        assert(basis_factors(xs, i, k).drop_last() =~= basis_factors(xs, i, k - 1));
        let f = fold(mul_op(), (1, 1), basis_factors(xs, i, k - 1));
        assert(mul_op()(mul_op()((ys[i], 1), f), basis_factors(xs, i, k).last()) == mul_op()(
            (ys[i], 1),
            mul_op()(f, basis_factors(xs, i, k).last()),
        ));
        if k - 1 == i {
            assert(mul_op()(f, (1, 1)) == mul_op()((1, 1), f));
        }
    }
}

/// Reordering the shares does not change the interpolated value at zero:
/// for a permutation `p` of `0..m`, interpolating `(xs[p[k]], ys[p[k]])`
/// gives what interpolating `(xs[k], ys[k])` gives.
pub proof fn lemma_interpolation_order_free(xs: Seq<int>, ys: Seq<int>, m: int, p: Seq<int>)
    requires
        0 <= m <= xs.len(),
        m <= ys.len(),
        p.len() == m,
        is_permutation(p),
    ensures
        lagrange_at_zero(
            Seq::new(m as nat, |k: int| xs[p[k]]),
            Seq::new(m as nat, |k: int| ys[p[k]]),
            m,
        ) == lagrange_at_zero(xs, ys, m),
{
    let xs2 = Seq::new(m as nat, |k: int| xs[p[k]]);
    let ys2 = Seq::new(m as nat, |k: int| ys[p[k]]);
    lemma_add_op_monoid();
    lemma_mul_op_monoid();
    assert forall|k: int| 0 <= k < m implies #[trigger] basis_terms(xs2, ys2, m)[k] == permute(
        basis_terms(xs, ys, m),
        p,
    )[k] by {
        lemma_basis_is_fold(xs2, ys2, k, m);
        lemma_basis_is_fold(xs, ys, p[k], m);
        assert forall|j: int| 0 <= j < m implies #[trigger] basis_factors(xs2, k, m)[j] == permute(
            basis_factors(xs, p[k], m),
            p,
        )[j] by {
            if j != k {
                assert(p[j] != p[k]);
            }
        }
        assert(basis_factors(xs2, k, m) =~= permute(basis_factors(xs, p[k], m), p));
        lemma_fold_permute(mul_op(), (1, 1), basis_factors(xs, p[k], m), p);
    }
    assert(basis_terms(xs2, ys2, m) =~= permute(basis_terms(xs, ys, m), p));
    lemma_fold_permute(add_op(), (0, 1), basis_terms(xs, ys, m), p);
    lemma_sum_is_fold(xs, ys, m, m);
    lemma_sum_is_fold(xs2, ys2, m, m);
    assert(basis_terms(xs, ys, m).take(m) =~= basis_terms(xs, ys, m));
    assert(basis_terms(xs2, ys2, m).take(m) =~= basis_terms(xs2, ys2, m));
}

/// The interpolating polynomial of the first `m` shares, evaluated at zero,
/// as a reduced fraction; two equal indices are an error.
pub fn interpolate_at_zero(x: &[BigInt], y: &[BigInt], m: usize) -> (r: Result<Fraction, SecretError>)
    requires
        m <= x@.len(),
        m <= y@.len(),
    ensures
        has_duplicate(ints(x@), m as int) <==> r is Err,
        r is Err ==> r->Err_0 == SecretError::DuplicateIndex,
        r is Ok ==> r->Ok_0@ == lagrange_at_zero(ints(x@), ints(y@), m as int),
        r is Ok ==> r->Ok_0.wf(),
{
    let ghost xs = ints(x@);
    let ghost ys = ints(y@);
    let mut ans = Fraction::reduce(big_from_i64(0), big_from_i64(1));
    let mut i: usize = 0;
    while i < m
        invariant
            i <= m,
            m <= x@.len(),
            m <= y@.len(),
            xs == ints(x@),
            ys == ints(y@),
            ans@ == normalize(lagrange_sum(xs, ys, m as int, i as int)),
            lagrange_sum(xs, ys, m as int, i as int).1 != 0,
            ans.wf(),
            forall|a: int, b: int| 0 <= a < i && 0 <= b < m && a != b ==> #[trigger] xs[a] != #[trigger] xs[b],
        decreases m - i,
    {
        let mut l = Fraction::reduce(y[i].clone(), big_from_i64(1));
        let mut j: usize = 0;
        while j < m
            invariant
                i < m,
                j <= m,
                m <= x@.len(),
                m <= y@.len(),
                xs == ints(x@),
                ys == ints(y@),
                l@ == normalize(basis_term(xs, ys, i as int, j as int)),
                basis_term(xs, ys, i as int, j as int).1 != 0,
                l.wf(),
                forall|b: int| 0 <= b < j && b != i ==> xs[i as int] != #[trigger] xs[b],
            decreases m - j,
        {
            if i != j {
                let diff = big_sub(&x[i], &x[j]);
                if big_is_zero(&diff) {
                    assert(xs[i as int] == xs[j as int]);
                    return Err(SecretError::DuplicateIndex);
                }
                let f = Fraction::reduce(big_neg(x[j].clone()), diff);
                proof {
                    lemma_mul_of_normalized(
                        basis_term(xs, ys, i as int, j as int),
                        (-xs[j as int], xs[i as int] - xs[j as int]),
                    );
                }
                l = l.mul(f);
            }
            j = j + 1;
        }
        proof {
            lemma_add_of_normalized(
                lagrange_sum(xs, ys, m as int, i as int),
                basis_term(xs, ys, i as int, m as int),
            );
        }
        ans = ans.add(l);
        i = i + 1;
    }
    Ok(ans)
}

/// The secret: the numerator of the interpolated value at zero of the first
/// `m` shares; two equal indices are an error.
pub fn generate_secret(x: &[BigInt], y: &[BigInt], m: usize) -> (r: Result<BigInt, SecretError>)
    requires
        m <= x@.len(),
        m <= y@.len(),
    ensures
        has_duplicate(ints(x@), m as int) <==> r is Err,
        r is Err ==> r->Err_0 == SecretError::DuplicateIndex,
        r is Ok ==> int_of(r->Ok_0) == lagrange_at_zero(ints(x@), ints(y@), m as int).0,
{
    match interpolate_at_zero(x, y, m) {
        Ok(f) => Ok(f.num),
        Err(e) => Err(e),
    }
}

/// One share as it arrives: its value written as digits of `base`.
pub struct EncodedShare {
    pub base: u32,
    pub value: String,
}

/// The share's value is a non-empty string of digits of a base from 2 to 36.
pub open spec fn is_plain(s: EncodedShare) -> bool {
    2 <= s.base <= 36 && s.value@.len() > 0 && all_digits(s.value@, s.base)
}

/// The value of an ASCII digit byte in bases up to 36; 255 for any other byte.
fn byte_digit(b: u8) -> (r: u32)
    ensures
        b < 128 ==> r == digit_value(b as char),
{
    // ASCII codes: '0' is 48, 'a' is 97, 'A' is 65.
    if 48 <= b && b <= 57 {
        (b - 48) as u32
    } else if 97 <= b && b <= 122 {
        (b - 97 + 10) as u32
    } else if 65 <= b && b <= 90 {
        (b - 65 + 10) as u32
    } else {
        255
    }
}

/// Whether `value` is a non-empty string of digits of `base`.
pub fn is_digit_string(value: &str, base: u32) -> (r: bool)
    requires
        base <= 36,
    ensures
        r == (value@.len() > 0 && all_digits(value@, base)),
{
    if !value.is_ascii() {
        proof {
            assert(!vstd::utf8::is_ascii_chars(value@));
            let i = choose|i: int| 0 <= i < value@.len() && !('\0' <= #[trigger] value@[i] <= '\u{7f}');
            assert(digit_value(value@[i]) == 255);
        }
        return false;
    }
    let bytes = value.as_bytes();
    proof {
        is_ascii_spec_bytes(value);
    }
    if bytes.len() == 0 {
        return false;
    }
    let mut i: usize = 0;
    while i < bytes.len()
        invariant
            is_ascii(value),
            bytes@ == Seq::new(value@.len(), |j: int| value@[j] as u8),
            i <= bytes@.len(),
            forall|j: int| 0 <= j < i ==> digit_value(#[trigger] value@[j]) < base,
        decreases bytes@.len() - i,
    {
        let d = byte_digit(bytes[i]);
        proof {
            let c = value@[i as int];
            assert('\0' <= c <= '\u{7f}');
            assert((c as u8) as char == c);
        }
        if d >= base {
            return false;
        }
        i = i + 1;
    }
    true
}

/// Reads `value` as an integer in `base`: a non-empty string of digits of the
/// base, most significant first.
pub fn parse_value(base: u32, value: &str) -> (r: Result<BigInt, SecretError>)
    ensures
        !(2 <= base <= 36) ==> r == Err::<BigInt, SecretError>(SecretError::InvalidBase),
        2 <= base <= 36 && value@.len() > 0 && all_digits(value@, base) ==> r is Ok && int_of(
            r->Ok_0,
        ) == digits_value(value@, base),
        2 <= base <= 36 && !(value@.len() > 0 && all_digits(value@, base)) ==> r == Err::<
            BigInt,
            SecretError,
        >(SecretError::InvalidDigitForBase),
{
    if base < 2 || base > 36 {
        return Err(SecretError::InvalidBase);
    }
    if !is_digit_string(value, base) {
        return Err(SecretError::InvalidDigitForBase);
    }
    match big_from_str_radix(value, base) {
        Ok(v) => Ok(v),
        Err(_) => Err(SecretError::InvalidDigitForBase),
    }
}

/// The indices `1, 2, ..., n`.
pub open spec fn one_based(n: int) -> Seq<int> {
    Seq::new(n as nat, |i: int| i + 1)
}

/// The values of plain shares.
pub open spec fn plain_values(shares: Seq<EncodedShare>) -> Seq<int> {
    Seq::new(shares.len(), |i: int| digits_value(shares[i].value@, shares[i].base))
}

/// The error that decoding a share that is not plain gives.
pub open spec fn share_error(s: EncodedShare) -> SecretError {
    if 2 <= s.base <= 36 {
        SecretError::InvalidDigitForBase
    } else {
        SecretError::InvalidBase
    }
}

/// The secret from the encoded shares, numbered from 1 in order, of which the
/// first `k` are interpolated. All shares are decoded, in order; fewer than
/// `k` shares are an error, and so is the first share that is not plain.
pub fn recover_secret(k: usize, shares: &Vec<EncodedShare>) -> (r: Result<BigInt, SecretError>)
    ensures
        shares@.len() < k ==> r == Err::<BigInt, SecretError>(SecretError::InsufficientShares),
        k <= shares@.len() ==> (r is Ok <==> forall|i: int|
            0 <= i < shares@.len() ==> is_plain(#[trigger] shares@[i])),
        k <= shares@.len() && (forall|i: int| 0 <= i < shares@.len() ==> is_plain(#[trigger] shares@[i]))
            ==> r is Ok && int_of(r->Ok_0) == lagrange_at_zero(
            one_based(shares@.len() as int),
            plain_values(shares@),
            k as int,
        ).0,
        forall|i: int|
            k <= shares@.len() && 0 <= i < shares@.len() && !is_plain(#[trigger] shares@[i]) && (forall|a: int|
                0 <= a < i ==> is_plain(shares@[a])) ==> r == Err::<BigInt, SecretError>(
                share_error(shares@[i]),
            ),
        k <= shares@.len() && (forall|i: int| 0 <= i < shares@.len() ==> 2 <= #[trigger] shares@[i].base <= 36)
            && (exists|i: int| 0 <= i < shares@.len() && !is_plain(#[trigger] shares@[i])) ==> r
            == Err::<BigInt, SecretError>(SecretError::InvalidDigitForBase),
{
    let n = shares.len();
    if n < k {
        return Err(SecretError::InsufficientShares);
    }
    let mut x: Vec<BigInt> = Vec::new();
    let mut y: Vec<BigInt> = Vec::new();
    let one = big_from_i64(1);
    let mut index = big_from_i64(1);
    let mut i: usize = 0;
    while i < n
        invariant
            n == shares@.len(),
            k <= n,
            i <= n,
            x@.len() == i,
            y@.len() == i,
            int_of(one) == 1,
            int_of(index) == i + 1,
            forall|a: int| 0 <= a < i ==> int_of(#[trigger] x@[a]) == a + 1,
            forall|a: int| 0 <= a < i ==> is_plain(#[trigger] shares@[a]),
            forall|a: int| 0 <= a < i ==> int_of(#[trigger] y@[a])
                == digits_value(shares@[a].value@, shares@[a].base),
        decreases n - i,
    {
        let share = &shares[i];
        let v = match parse_value(share.base, share.value.as_str()) {
            Ok(v) => v,
            Err(e) => {
                return Err(e);
            },
        };
        x.push(index.clone());
        y.push(v);
        index = big_add(&index, &one);
        i = i + 1;
    }
    proof {
        assert(ints(x@) =~= one_based(n as int));
        assert(!has_duplicate(ints(x@), k as int));
        assert(ints(y@) =~= plain_values(shares@));
    }
    generate_secret(x.as_slice(), y.as_slice(), k)
}

} // verus!
