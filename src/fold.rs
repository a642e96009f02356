//! Folds of an operation on pairs of integers, and why order does not matter
//! to a commutative, associative one.
use vstd::prelude::*;

verus! {

/// `op` is commutative and associative, with `e` as identity.
pub open spec fn is_commutative_monoid(
    op: spec_fn((int, int), (int, int)) -> (int, int),
    e: (int, int),
) -> bool {
    &&& forall|a: (int, int), b: (int, int)| #[trigger] op(a, b) == op(b, a)
    &&& forall|a: (int, int), b: (int, int), c: (int, int)|
        #[trigger] op(op(a, b), c) == op(a, op(b, c))
    &&& forall|a: (int, int)| #[trigger] op(e, a) == a
}

/// `e op s[0] op s[1] op ...`, from the left.
pub open spec fn fold(
    op: spec_fn((int, int), (int, int)) -> (int, int),
    e: (int, int),
    s: Seq<(int, int)>,
) -> (int, int)
    decreases s.len(),
{
    if s.len() == 0 {
        e
    } else {
        op(fold(op, e, s.drop_last()), s.last())
    }
}

/// `p` lists each of `0..p.len()` once.
pub open spec fn is_permutation(p: Seq<int>) -> bool {
    &&& forall|k: int| 0 <= k < p.len() ==> 0 <= #[trigger] p[k] < p.len()
    &&& forall|k: int, l: int|
        0 <= k < p.len() && 0 <= l < p.len() && k != l ==> #[trigger] p[k] != #[trigger] p[l]
}

/// `s` reordered by `p`: its `k`-th element is `s[p[k]]`.
pub open spec fn permute(s: Seq<(int, int)>, p: Seq<int>) -> Seq<(int, int)> {
    Seq::new(p.len(), |k: int| s[p[k]])
}

/// Taking one element out of a fold and applying it last.
proof fn lemma_fold_remove(
    op: spec_fn((int, int), (int, int)) -> (int, int),
    e: (int, int),
    s: Seq<(int, int)>,
    q: int,
)
    requires
        is_commutative_monoid(op, e),
        0 <= q < s.len(),
    ensures
        fold(op, e, s) == op(fold(op, e, s.remove(q)), s[q]),
    decreases s.len(),
{
    if q == s.len() - 1 {
        assert(s.remove(q) =~= s.drop_last());
    } else {
        let d = s.drop_last();
        lemma_fold_remove(op, e, d, q);
        let r = fold(op, e, d.remove(q));
        assert(s.remove(q).drop_last() =~= d.remove(q));
        assert(s.remove(q).last() == s.last());
        assert(op(op(r, s[q]), s.last()) == op(r, op(s[q], s.last())));
        assert(op(s[q], s.last()) == op(s.last(), s[q]));
        assert(op(op(r, s.last()), s[q]) == op(r, op(s.last(), s[q])));
    }
}

/// A fold of a commutative, associative operation does not depend on the
/// order of the elements.
pub proof fn lemma_fold_permute(
    op: spec_fn((int, int), (int, int)) -> (int, int),
    e: (int, int),
    s: Seq<(int, int)>,
    p: Seq<int>,
)
    requires
        is_commutative_monoid(op, e),
        is_permutation(p),
        p.len() == s.len(),
    ensures
        fold(op, e, permute(s, p)) == fold(op, e, s),
    decreases s.len(),
{
    let n = s.len();
    if n > 0 {
        let q = p[n - 1];
        let s2 = s.remove(q);
        let p2 = Seq::new((n - 1) as nat, |k: int| if p[k] < q { p[k] } else { p[k] - 1 });
        assert forall|k: int| 0 <= k < p2.len() implies 0 <= #[trigger] p2[k] < p2.len() by {
            assert(p[k] != p[n - 1]);
        }
        assert forall|k: int, l: int|
            0 <= k < p2.len() && 0 <= l < p2.len() && k != l implies #[trigger] p2[k]
            != #[trigger] p2[l] by {
            assert(p[k] != p[n - 1]);
            assert(p[l] != p[n - 1]);
            assert(p[k] != p[l]);
        }
        lemma_fold_permute(op, e, s2, p2);
        assert forall|k: int| 0 <= k < n - 1 implies #[trigger] permute(s, p).drop_last()[k]
            == permute(s2, p2)[k] by {
            assert(p[k] != p[n - 1]);
        }
        assert(permute(s, p).drop_last() =~= permute(s2, p2));
        lemma_fold_remove(op, e, s, q);
    }
}

} // verus!
