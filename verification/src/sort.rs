//! Construction: the ordering surrogate and the in-place recursive
//! median-selection that arranges a point collection as an implicit tree.

use crate::{
    is_kd_range, lemma_kd_range_shift, lemma_kd_range_stable, next_ax, next_axis, pat, scalar_sle,
    sle, KdPoint, Scalar,
};
use core::cmp::Ordering;
use vstd::pervasive::VecAdditionalExecFns;
use vstd::prelude::*;
use vstd::seq_lib::group_to_multiset_ensures;
use vstd::seq_lib::lemma_multiset_commutative;

verus! {

/// What [`OrdHelper::cmp`] decides: ordinary values compare as integers,
/// every `Incomparable` goes after all of them, and two `Incomparable`s tie.
pub open spec fn surrogate_cmp(a: Scalar, b: Scalar) -> Ordering {
    match (a, b) {
        (Scalar::Value(x), Scalar::Value(y)) => if x < y {
            Ordering::Less
        } else if x == y {
            Ordering::Equal
        } else {
            Ordering::Greater
        },
        (Scalar::Value(_), Scalar::Incomparable) => Ordering::Less,
        (Scalar::Incomparable, Scalar::Value(_)) => Ordering::Greater,
        (Scalar::Incomparable, Scalar::Incomparable) => Ordering::Equal,
    }
}

/// A wrapper imposing the total ordering surrogate on partially ordered
/// coordinates: any incomparable value goes to the end, two incomparable
/// values are treated as equal.
pub struct OrdHelper(pub Scalar);

impl OrdHelper {
    /// The surrogate's total comparison.
    pub fn cmp(&self, other: &OrdHelper) -> (r: Ordering)
        ensures
            r == surrogate_cmp(self.0, other.0),
    {
        match (self.0, other.0) {
            (Scalar::Value(x), Scalar::Value(y)) => if x < y {
                Ordering::Less
            } else if x == y {
                Ordering::Equal
            } else {
                Ordering::Greater
            },
            (Scalar::Value(_), Scalar::Incomparable) => Ordering::Less,
            (Scalar::Incomparable, Scalar::Value(_)) => Ordering::Greater,
            (Scalar::Incomparable, Scalar::Incomparable) => Ordering::Equal,
        }
    }

    /// The surrogate comparison, as an always-`Some` partial comparison.
    pub fn partial_cmp(&self, other: &OrdHelper) -> (r: Option<Ordering>)
        ensures
            r == Some(surrogate_cmp(self.0, other.0)),
    {
        Some(self.cmp(other))
    }

    /// Equality under the surrogate: equal values, or two incomparables.
    pub fn eq(&self, other: &OrdHelper) -> (r: bool)
        ensures
            r == (surrogate_cmp(self.0, other.0) is Equal),
    {
        matches!(self.cmp(other), Ordering::Equal)
    }
}

/// The surrogate "less or equal" is exactly "compares `Less` or `Equal`",
/// and it is a total order: total, transitive, and antisymmetric up to
/// surrogate equality.
pub proof fn lemma_surrogate_total_order()
    ensures
        forall|a: Scalar, b: Scalar|
            #[trigger] sle(a, b) <==> !(surrogate_cmp(a, b) is Greater),
        forall|a: Scalar, b: Scalar| #[trigger] sle(a, b) || #[trigger] sle(b, a),
        forall|a: Scalar, b: Scalar, c: Scalar|
            #[trigger] sle(a, b) && #[trigger] sle(b, c) ==> sle(a, c),
        forall|a: Scalar, b: Scalar|
            #[trigger] sle(a, b) && #[trigger] sle(b, a) ==> surrogate_cmp(a, b) is Equal,
{
}

fn vswap<const D: usize>(v: &mut Vec<KdPoint<D>>, a: usize, b: usize)
    requires
        a < old(v)@.len(),
        b < old(v)@.len(),
    ensures
        final(v)@ == old(v)@.update(a as int, old(v)@[b as int]).update(
            b as int,
            old(v)@[a as int],
        ),
{
    let pa = v[a];
    let pb = v[b];
    v.set(a, pb);
    v.set(b, pa);
}

proof fn lemma_swap_multiset<A>(t: Seq<A>, i: int, j: int)
    requires
        0 <= i < t.len(),
        0 <= j < t.len(),
    ensures
        t.update(i, t[j]).update(j, t[i]).to_multiset() == t.to_multiset(),
{
    broadcast use group_to_multiset_ensures;
    broadcast use vstd::multiset::group_multiset_axioms;

    if i == j {
        assert(t.update(i, t[j]).update(j, t[i]) =~= t);
    } else {
        let t1 = t.update(i, t[j]);
        assert(t.to_multiset().count(t[i]) > 0) by {
            assert(t.contains(t[i]));
        }
        assert(t1[j] == t[j]);
        assert(t1.update(j, t[i]).to_multiset() =~= t.to_multiset());
    }
}

proof fn lemma_swap_subrange_multiset<A>(s: Seq<A>, lo: int, hi: int, a: int, b: int)
    requires
        0 <= lo <= a < hi <= s.len(),
        lo <= b < hi,
    ensures
        s.update(a, s[b]).update(b, s[a]).subrange(lo, hi).to_multiset() == s.subrange(
            lo,
            hi,
        ).to_multiset(),
{
    let t = s.subrange(lo, hi);
    let s2 = s.update(a, s[b]).update(b, s[a]);
    assert(s2.subrange(lo, hi) =~= t.update(a - lo, t[b - lo]).update(b - lo, t[a - lo]));
    lemma_swap_multiset(t, a - lo, b - lo);
}

/// Two collections equal as multisets over a sub-range share every
/// per-element property over that sub-range.
proof fn lemma_perm_preserves_prop<const D: usize>(
    s1: Seq<KdPoint<D>>,
    s2: Seq<KdPoint<D>>,
    lo: int,
    hi: int,
    phi: spec_fn(KdPoint<D>) -> bool,
)
    requires
        0 <= lo <= hi <= s1.len(),
        hi <= s2.len(),
        s1.subrange(lo, hi).to_multiset() == s2.subrange(lo, hi).to_multiset(),
        forall|i: int| lo <= i < hi ==> phi(#[trigger] s1[i]),
    ensures
        forall|i: int| lo <= i < hi ==> phi(#[trigger] s2[i]),
{
    broadcast use group_to_multiset_ensures;

    let t1 = s1.subrange(lo, hi);
    let t2 = s2.subrange(lo, hi);
    assert forall|i: int| lo <= i < hi implies phi(s2[i]) by {
        assert(t2[i - lo] == s2[i]);
        assert(t2.contains(s2[i]));
        assert(t1.to_multiset().count(s2[i]) > 0);
        assert(t1.contains(s2[i]));
        let j = choose|j: int| 0 <= j < t1.len() && t1[j] == s2[i];
        assert(phi(s1[lo + j]));
    }
}

proof fn lemma_subrange_multiset_compose<A>(s1: Seq<A>, s2: Seq<A>, lo: int, mid: int, hi: int)
    requires
        0 <= lo <= mid <= hi <= s1.len(),
        hi <= s2.len(),
        s1.subrange(lo, mid).to_multiset() == s2.subrange(lo, mid).to_multiset(),
        s1.subrange(mid, hi).to_multiset() == s2.subrange(mid, hi).to_multiset(),
    ensures
        s1.subrange(lo, hi).to_multiset() == s2.subrange(lo, hi).to_multiset(),
{
    assert(s1.subrange(lo, hi) =~= s1.subrange(lo, mid) + s1.subrange(mid, hi));
    assert(s2.subrange(lo, hi) =~= s2.subrange(lo, mid) + s2.subrange(mid, hi));
    lemma_multiset_commutative(s1.subrange(lo, mid), s1.subrange(mid, hi));
    lemma_multiset_commutative(s2.subrange(lo, mid), s2.subrange(mid, hi));
}

proof fn lemma_frame_subrange_multiset<A>(s1: Seq<A>, s2: Seq<A>, lo: int, hi: int)
    requires
        0 <= lo <= hi <= s1.len(),
        hi <= s2.len(),
        forall|i: int| lo <= i < hi ==> s1[i] == #[trigger] s2[i],
    ensures
        s1.subrange(lo, hi).to_multiset() == s2.subrange(lo, hi).to_multiset(),
{
    assert(s1.subrange(lo, hi) =~= s2.subrange(lo, hi));
}

/// Two collections equal as multisets share every per-element property.
pub proof fn lemma_perm_kept_prop<const D: usize>(
    s1: Seq<KdPoint<D>>,
    s2: Seq<KdPoint<D>>,
    phi: spec_fn(KdPoint<D>) -> bool,
)
    requires
        s1.to_multiset() == s2.to_multiset(),
        s1.len() == s2.len(),
        forall|i: int| 0 <= i < s1.len() ==> phi(#[trigger] s1[i]),
    ensures
        forall|i: int| 0 <= i < s2.len() ==> phi(#[trigger] s2[i]),
{
    assert(s1.subrange(0, s1.len() as int) =~= s1);
    assert(s2.subrange(0, s2.len() as int) =~= s2);
    lemma_perm_preserves_prop(s1, s2, 0, s1.len() as int, phi);
}

/// One partition step of the selection: rearranges `[lo, hi)` so that some
/// pivot lands at the returned position, everything before it at most the
/// pivot and everything after it at least the pivot, on axis `axis`, under
/// the ordering surrogate.
fn partition<const D: usize>(v: &mut Vec<KdPoint<D>>, lo: usize, hi: usize, axis: usize) -> (p:
    usize)
    requires
        lo < hi,
        hi <= old(v)@.len(),
        axis < D,
    ensures
        lo <= p < hi,
        final(v)@.len() == old(v)@.len(),
        forall|i: int|
            0 <= i < final(v)@.len() && !(lo <= i < hi) ==> #[trigger] final(v)@[i] == old(v)@[i],
        final(v)@.subrange(lo as int, hi as int).to_multiset() == old(v)@.subrange(
            lo as int,
            hi as int,
        ).to_multiset(),
        forall|i: int|
            lo <= i < p ==> sle(
                pat(#[trigger] final(v)@[i], axis as int),
                pat(final(v)@[p as int], axis as int),
            ),
        forall|i: int|
            p < i < hi ==> sle(
                pat(final(v)@[p as int], axis as int),
                pat(#[trigger] final(v)@[i], axis as int),
            ),
{
    let ghost orig = v@;
    let pivot = v[hi - 1];
    let mut i: usize = lo;
    let mut j: usize = lo;
    while j < hi - 1
        invariant
            lo <= i <= j <= hi - 1,
            lo < hi <= v@.len(),
            v@.len() == orig.len(),
            axis < D,
            v@[hi - 1] == pivot,
            forall|t: int|
                0 <= t < v@.len() && !(lo <= t < hi) ==> #[trigger] v@[t] == orig[t],
            v@.subrange(lo as int, hi as int).to_multiset() == orig.subrange(
                lo as int,
                hi as int,
            ).to_multiset(),
            forall|t: int|
                lo <= t < i ==> sle(pat(#[trigger] v@[t], axis as int), pat(pivot, axis as int)),
            forall|t: int|
                i <= t < j ==> !sle(pat(#[trigger] v@[t], axis as int), pat(pivot, axis as int)),
        decreases hi - 1 - j,
    {
        let pj = v[j];
        if scalar_sle(pj.at(axis), pivot.at(axis)) {
            proof {
                lemma_swap_subrange_multiset(v@, lo as int, hi as int, i as int, j as int);
            }
            vswap(v, i, j);
            i = i + 1;
        }
        j = j + 1;
    }
    proof {
        lemma_swap_subrange_multiset(v@, lo as int, hi as int, i as int, (hi - 1) as int);
    }
    vswap(v, i, hi - 1);
    i
}

/// Partition-based selection: rearranges `[lo, hi)` so that the point
/// ranked `target` under the ordering surrogate on `axis` lands exactly at
/// position `target`, everything before it at most it and everything after
/// it at least it.  Ties may land on either side.
fn select_nth<const D: usize>(
    v: &mut Vec<KdPoint<D>>,
    lo: usize,
    hi: usize,
    target: usize,
    axis: usize,
)
    requires
        lo <= target < hi,
        hi <= old(v)@.len(),
        axis < D,
    ensures
        final(v)@.len() == old(v)@.len(),
        forall|i: int|
            0 <= i < final(v)@.len() && !(lo <= i < hi) ==> #[trigger] final(v)@[i] == old(v)@[i],
        final(v)@.subrange(lo as int, hi as int).to_multiset() == old(v)@.subrange(
            lo as int,
            hi as int,
        ).to_multiset(),
        forall|i: int|
            lo <= i < target ==> sle(
                pat(#[trigger] final(v)@[i], axis as int),
                pat(final(v)@[target as int], axis as int),
            ),
        forall|i: int|
            target < i < hi ==> sle(
                pat(final(v)@[target as int], axis as int),
                pat(#[trigger] final(v)@[i], axis as int),
            ),
    decreases hi - lo,
{
    let p = partition(v, lo, hi, axis);
    let ghost v1 = v@;
    if target < p {
        select_nth(v, lo, p, target, axis);
        proof {
            lemma_frame_subrange_multiset(v1, v@, p as int, hi as int);
            lemma_subrange_multiset_compose(v1, v@, lo as int, p as int, hi as int);
            lemma_perm_preserves_prop(
                v1,
                v@,
                lo as int,
                p as int,
                |x: KdPoint<D>| sle(pat(x, axis as int), pat(v1[p as int], axis as int)),
            );
        }
    } else if target > p {
        select_nth(v, p + 1, hi, target, axis);
        proof {
            lemma_frame_subrange_multiset(v1, v@, lo as int, (p + 1) as int);
            lemma_subrange_multiset_compose(v1, v@, lo as int, (p + 1) as int, hi as int);
            lemma_perm_preserves_prop(
                v1,
                v@,
                (p + 1) as int,
                hi as int,
                |x: KdPoint<D>| sle(pat(v1[p as int], axis as int), pat(x, axis as int)),
            );
        }
    }
}

/// Arranges `[lo, hi)` as an implicit k-d sub-tree rooted at `axis`:
/// median selection at the midpoint, then each half again along the next
/// axis.  Sub-ranges of length 0 or 1 need no action.
fn build_range<const D: usize>(v: &mut Vec<KdPoint<D>>, lo: usize, hi: usize, axis: usize)
    requires
        lo <= hi,
        hi <= old(v)@.len(),
        axis < D,
    ensures
        final(v)@.len() == old(v)@.len(),
        forall|i: int|
            0 <= i < final(v)@.len() && !(lo <= i < hi) ==> #[trigger] final(v)@[i] == old(v)@[i],
        final(v)@.subrange(lo as int, hi as int).to_multiset() == old(v)@.subrange(
            lo as int,
            hi as int,
        ).to_multiset(),
        is_kd_range(final(v)@, lo as int, hi as int, axis as int),
    decreases hi - lo,
{
    if hi - lo >= 2 {
        let mid = lo + (hi - lo) / 2;
        select_nth(v, lo, hi, mid, axis);
        let ghost v1 = v@;
        let next = next_axis::<D>(axis);
        build_range(v, lo, mid, next);
        let ghost v2 = v@;
        build_range(v, mid + 1, hi, next);
        let ghost v3 = v@;
        proof {
            lemma_kd_range_stable(v2, v3, lo as int, mid as int, next as int);
            lemma_perm_preserves_prop(
                v1,
                v2,
                lo as int,
                mid as int,
                |x: KdPoint<D>| sle(pat(x, axis as int), pat(v1[mid as int], axis as int)),
            );
            lemma_perm_preserves_prop(
                v2,
                v3,
                (mid + 1) as int,
                hi as int,
                |x: KdPoint<D>| sle(pat(v1[mid as int], axis as int), pat(x, axis as int)),
            );
            lemma_frame_subrange_multiset(v1, v2, mid as int, hi as int);
            lemma_subrange_multiset_compose(v1, v2, lo as int, mid as int, hi as int);
            lemma_frame_subrange_multiset(v2, v3, lo as int, (mid + 1) as int);
            lemma_subrange_multiset_compose(v2, v3, lo as int, (mid + 1) as int, hi as int);
            assert(v3[mid as int] == v1[mid as int]);
            assert(forall|i: int|
                lo <= i < mid ==> sle(
                    pat(#[trigger] v3[i], axis as int),
                    pat(v3[mid as int], axis as int),
                ));
            assert(forall|i: int|
                mid < i < hi ==> sle(
                    pat(v3[mid as int], axis as int),
                    pat(#[trigger] v3[i], axis as int),
                ));
            assert(is_kd_range(v3, lo as int, hi as int, axis as int));
        }
    }
}

/// Below this sub-range size the construction recurses sequentially
/// rather than spawning concurrent tasks.
pub const PAR_CUTOFF: usize = 1024;

/// Relies on rayon::join: runs both closures to completion and returns the
/// pair of their results.  Each closure arranges its half with
/// [`par_build`], whose contract the result pair therefore satisfies.
#[verifier::external_body]
fn join_build<const D: usize>(
    left: Vec<KdPoint<D>>,
    right: Vec<KdPoint<D>>,
    axis: usize,
) -> (r: (Vec<KdPoint<D>>, Vec<KdPoint<D>>))
    requires
        axis < D,
    ensures
        r.0@.len() == left@.len(),
        r.0@.to_multiset() == left@.to_multiset(),
        is_kd_range(r.0@, 0, r.0@.len() as int, axis as int),
        r.1@.len() == right@.len(),
        r.1@.to_multiset() == right@.to_multiset(),
        is_kd_range(r.1@, 0, r.1@.len() as int, axis as int),
{
    rayon::join(move || par_build(left, axis), move || par_build(right, axis))
}

/// Arranges the whole collection as an implicit k-d tree rooted at `axis`.
/// The two halves around the median are independent, so above a size
/// cutoff they are handed to concurrent tasks; below it the recursion runs
/// sequentially in place.
#[verifier::rlimit(50)]
pub fn par_build<const D: usize>(v: Vec<KdPoint<D>>, axis: usize) -> (r: Vec<KdPoint<D>>)
    requires
        axis < D,
    ensures
        r@.len() == v@.len(),
        r@.to_multiset() == v@.to_multiset(),
        is_kd_range(r@, 0, r@.len() as int, axis as int),
{
    let ghost orig = v@;
    let mut v = v;
    let n = v.len();
    if n < PAR_CUTOFF {
        build_range(&mut v, 0, n, axis);
        proof {
            assert(orig.subrange(0, n as int) =~= orig);
            assert(v@.subrange(0, n as int) =~= v@);
        }
        return v;
    }
    let mid = n / 2;
    select_nth(&mut v, 0, n, mid, axis);
    let ghost v1 = v@;
    proof {
        assert(orig.subrange(0, n as int) =~= orig);
        assert(v1.subrange(0, n as int) =~= v1);
    }
    let mut right = v.split_off(mid + 1);
    let midpt = v.pop().unwrap();
    let left = v;
    let next = next_axis::<D>(axis);
    let ghost lseq = left@;
    let ghost rseq = right@;
    proof {
        assert(lseq =~= v1.subrange(0, mid as int));
        assert(rseq == v1.subrange(mid as int + 1, n as int));
        assert(midpt == v1[mid as int]);
    }
    let (mut left2, mut right2) = join_build(left, right, next);
    let ghost l2 = left2@;
    let ghost r2 = right2@;
    left2.push(midpt);
    left2.append(&mut right2);
    let out = left2;
    proof {
        assert(out@ =~= l2 + seq![midpt] + r2);
        assert(out@.len() == n);
        // the midpoint is in place
        assert(out@[mid as int] == midpt);
        // the halves keep their sub-tree arrangement at their new offsets
        assert(forall|i: int| 0 <= i < mid ==> #[trigger] out@[i] == l2[i]);
        lemma_kd_range_stable(l2, out@, 0, mid as int, next as int);
        assert(forall|i: int| 0 <= i < r2.len() ==> #[trigger] r2[i] == out@[mid as int + 1 + i]);
        lemma_kd_range_shift(r2, out@, mid as int + 1, 0, r2.len() as int, next as int);
        // each half still sits on the right side of the median
        assert(forall|i: int|
            0 <= i < mid ==> sle(pat(#[trigger] v1[i], axis as int), pat(midpt, axis as int)));
        assert(forall|i: int|
            mid < i < n ==> sle(pat(midpt, axis as int), pat(#[trigger] v1[i], axis as int)));
        assert(out@.subrange(0, mid as int) =~= l2);
        assert(out@.subrange(mid as int + 1, n as int) =~= r2);
        lemma_perm_preserves_prop(
            v1,
            out@,
            0,
            mid as int,
            |x: KdPoint<D>| sle(pat(x, axis as int), pat(midpt, axis as int)),
        );
        assert(v1.subrange(mid as int + 1, n as int).to_multiset() == out@.subrange(
            mid as int + 1,
            n as int,
        ).to_multiset());
        lemma_perm_preserves_prop(
            v1,
            out@,
            mid as int + 1,
            n as int,
            |x: KdPoint<D>| sle(pat(midpt, axis as int), pat(x, axis as int)),
        );
        assert(is_kd_range(out@, 0, n as int, axis as int));
        // the result is a permutation of the input
        assert(v1 =~= lseq + seq![midpt] + rseq);
        lemma_multiset_commutative(lseq + seq![midpt], rseq);
        lemma_multiset_commutative(lseq, seq![midpt]);
        lemma_multiset_commutative(l2 + seq![midpt], r2);
        lemma_multiset_commutative(l2, seq![midpt]);
        assert(out@.to_multiset() == orig.to_multiset());
    }
    out
}

/// Reorders the whole collection into an implicit k-d tree rooted at
/// axis 0.  The result is a permutation of the input.  Construction may
/// run the two halves of every large enough sub-range as concurrent
/// tasks: they touch disjoint points, so no order of execution changes the
/// result's arrangement.
pub fn kd_sort_by<const D: usize>(items: Vec<KdPoint<D>>) -> (r: Vec<KdPoint<D>>)
    requires
        1 <= D,
    ensures
        r@.len() == items@.len(),
        r@.to_multiset() == items@.to_multiset(),
        is_kd_range(r@, 0, r@.len() as int, 0),
{
    par_build(items, 0)
}

} // verus!
