//! A k-dimensional tree over integer-coordinate points.
//!
//! The tree is implicit: `build` reorders the point collection in place so
//! that every sub-range is rooted at its midpoint, where the midpoint point
//! is a median of the sub-range along the splitting axis.  Queries walk the
//! sub-ranges and prune halves that provably cannot contain a result.
//!
//! Coordinates are `Scalar` values: either a bounded signed integer or an
//! `Incomparable` marker that behaves like a floating-point NaN.  A total
//! ordering surrogate places every `Incomparable` after all ordinary values,
//! so construction and search stay total and terminating whatever the input.

use vstd::prelude::*;

pub mod nearests;
pub mod sort;
pub mod within;

pub use nearests::{
    kd_nearests, AllowAll, CandidateBuffer, CoordBelow, PointFilter, VecLike,
};
pub use sort::{kd_sort_by, par_build, OrdHelper};
pub use within::{kd_within_by_cmp, BallRange, BoxRange, RangeQuery};

verus! {

/// A coordinate: a signed value, or a marker that compares with nothing,
/// in the way a floating-point NaN compares with nothing.
#[derive(Clone, Copy, Debug, PartialEq, Eq, Structural)]
pub enum Scalar {
    Value(i64),
    Incomparable,
}

/// Largest coordinate magnitude the distance arithmetic accepts.
/// With `|coordinate| <= COORD_LIMIT` and `D <= DIM_LIMIT`, every squared
/// distance fits in an `i64`.
pub const COORD_LIMIT: i64 = 16777216;

/// Largest dimension count the distance arithmetic accepts.
pub const DIM_LIMIT: usize = 4096;

/// Largest value a single squared per-axis difference can take:
/// `(2 * COORD_LIMIT) * (2 * COORD_LIMIT)`.
pub const SQUARE_LIMIT: i64 = 1125899906842624;

pub open spec fn is_val(s: Scalar) -> bool {
    s is Value
}

pub open spec fn sval(s: Scalar) -> int {
    s->Value_0 as int
}

/// The ordering surrogate, as a total "less or equal": ordinary values
/// compare as integers, and every `Incomparable` sits above all of them
/// (two `Incomparable`s tie).
pub open spec fn sle(a: Scalar, b: Scalar) -> bool {
    match (a, b) {
        (Scalar::Value(x), Scalar::Value(y)) => x <= y,
        (Scalar::Value(_), Scalar::Incomparable) => true,
        (Scalar::Incomparable, Scalar::Value(_)) => false,
        (Scalar::Incomparable, Scalar::Incomparable) => true,
    }
}

/// The raw partial order's strict "less than": false whenever either side
/// is `Incomparable`.
pub open spec fn plt(a: Scalar, b: Scalar) -> bool {
    a is Value && b is Value && a->Value_0 < b->Value_0
}

/// A coordinate the distance arithmetic accepts.
pub open spec fn scalar_ok(s: Scalar) -> bool {
    s is Value ==> -COORD_LIMIT <= s->Value_0 <= COORD_LIMIT
}

/// The raw partial order's strict "less than", executably.
pub fn scalar_lt(a: Scalar, b: Scalar) -> (r: bool)
    ensures
        r == plt(a, b),
{
    match (a, b) {
        (Scalar::Value(x), Scalar::Value(y)) => x < y,
        _ => false,
    }
}

/// The ordering surrogate's "less or equal", executably.
pub fn scalar_sle(a: Scalar, b: Scalar) -> (r: bool)
    ensures
        r == sle(a, b),
{
    match (a, b) {
        (Scalar::Value(x), Scalar::Value(y)) => x <= y,
        (Scalar::Value(_), Scalar::Incomparable) => true,
        (Scalar::Incomparable, Scalar::Value(_)) => false,
        (Scalar::Incomparable, Scalar::Incomparable) => true,
    }
}

/// A point with `D` coordinates.
#[derive(Clone, Copy, Debug, PartialEq, Eq)]
pub struct KdPoint<const D: usize> {
    pub coords: [Scalar; D],
}

/// Coordinate `i` of `p`, at the specification level.
pub open spec fn pat<const D: usize>(p: KdPoint<D>, i: int) -> Scalar {
    p.coords@[i]
}

/// Every coordinate of `p` is an ordinary value.
pub open spec fn pt_cmp<const D: usize>(p: KdPoint<D>) -> bool {
    forall|i: int| 0 <= i < D ==> is_val(#[trigger] pat(p, i))
}

/// Every coordinate of `p` is within the magnitude the arithmetic accepts.
pub open spec fn pt_ok<const D: usize>(p: KdPoint<D>) -> bool {
    forall|i: int| 0 <= i < D ==> scalar_ok(#[trigger] pat(p, i))
}

pub open spec fn pts_cmp<const D: usize>(s: Seq<KdPoint<D>>) -> bool {
    forall|j: int| 0 <= j < s.len() ==> pt_cmp(#[trigger] s[j])
}

pub open spec fn pts_ok<const D: usize>(s: Seq<KdPoint<D>>) -> bool {
    forall|j: int| 0 <= j < s.len() ==> pt_ok(#[trigger] s[j])
}

/// A dimension count the distance arithmetic accepts.
pub open spec fn dim_ok<const D: usize>() -> bool {
    1 <= D <= DIM_LIMIT
}

pub open spec fn sqr(x: int) -> int {
    x * x
}

/// Sum of the squared differences over the first `n` axes, as unbounded
/// integers; meaningful where those axes are pairwise comparable.
pub open spec fn dist_upto<const D: usize>(p: KdPoint<D>, q: KdPoint<D>, n: int) -> int
    decreases n,
{
    if n <= 0 {
        0
    } else {
        dist_upto(p, q, n - 1) + sqr(sval(pat(p, n - 1)) - sval(pat(q, n - 1)))
    }
}

/// The exact distance metric between `p` and `q`: the sum of squared
/// per-axis differences.
pub open spec fn dist<const D: usize>(p: KdPoint<D>, q: KdPoint<D>) -> int {
    dist_upto(p, q, D as int)
}

/// The distance metric is an ordinary value exactly when every coordinate
/// of both points is.
pub open spec fn md<const D: usize>(p: KdPoint<D>, q: KdPoint<D>) -> bool {
    forall|i: int| 0 <= i < D ==> is_val(#[trigger] pat(p, i)) && is_val(#[trigger] pat(q, i))
}

/// The distance metric as a `Scalar`: `Incomparable` spreads from any
/// incomparable coordinate, as a NaN spreads through float arithmetic.
pub open spec fn metric_sp<const D: usize>(p: KdPoint<D>, q: KdPoint<D>) -> Scalar {
    if md(p, q) {
        Scalar::Value(dist(p, q) as i64)
    } else {
        Scalar::Incomparable
    }
}

/// Scalar subtraction: `Incomparable` spreads, as NaN does.
pub open spec fn s_sub(a: Scalar, b: Scalar) -> Scalar {
    if a is Value && b is Value {
        Scalar::Value((sval(a) - sval(b)) as i64)
    } else {
        Scalar::Incomparable
    }
}

/// Scalar addition: `Incomparable` spreads, as NaN does.
pub open spec fn s_add(a: Scalar, b: Scalar) -> Scalar {
    if a is Value && b is Value {
        Scalar::Value((sval(a) + sval(b)) as i64)
    } else {
        Scalar::Incomparable
    }
}

/// A value the squaring arithmetic accepts: a per-axis difference of two
/// accepted coordinates.
pub open spec fn diff_ok(s: Scalar) -> bool {
    s is Value ==> -2 * COORD_LIMIT <= s->Value_0 <= 2 * COORD_LIMIT
}

/// The metric of a single per-axis difference: its square.
pub open spec fn diff_metric_sp(d: Scalar) -> Scalar {
    if d is Value {
        Scalar::Value(sqr(sval(d)) as i64)
    } else {
        Scalar::Incomparable
    }
}

proof fn lemma_sqr_nonneg(x: int)
    ensures
        sqr(x) >= 0,
{
    assert(x * x >= 0) by (nonlinear_arith);
}

/// The partial distance sums only grow with the axis count.
pub proof fn lemma_dist_upto_mono<const D: usize>(p: KdPoint<D>, q: KdPoint<D>, m: int, n: int)
    requires
        0 <= m <= n,
    ensures
        dist_upto(p, q, m) <= dist_upto(p, q, n),
    decreases n,
{
    if m < n {
        lemma_dist_upto_mono(p, q, m, n - 1);
        lemma_sqr_nonneg(sval(pat(p, n - 1)) - sval(pat(q, n - 1)));
    }
}

/// No single squared per-axis difference exceeds the whole metric.
pub proof fn lemma_axis_sq_le_dist<const D: usize>(p: KdPoint<D>, q: KdPoint<D>, ax: int)
    requires
        0 <= ax < D,
    ensures
        sqr(sval(pat(p, ax)) - sval(pat(q, ax))) <= dist(p, q),
{
    lemma_dist_upto_mono(p, q, 0, ax);
    lemma_dist_upto_mono(p, q, ax + 1, D as int);
}

proof fn lemma_sqr_bound(x: int, m: int)
    requires
        -m <= x <= m,
        0 <= m,
    ensures
        0 <= sqr(x) <= m * m,
{
    assert(0 <= x * x <= m * m) by (nonlinear_arith)
        requires
            -m <= x <= m,
            0 <= m,
    ;
}

/// Within the coordinate bounds, the partial distance sums stay small
/// enough for an `i64`.
pub proof fn lemma_dist_upto_bound<const D: usize>(p: KdPoint<D>, q: KdPoint<D>, n: int)
    requires
        pt_ok(p),
        pt_ok(q),
        0 <= n <= D,
        forall|i: int| 0 <= i < n ==> is_val(#[trigger] pat(p, i)) && is_val(pat(q, i)),
    ensures
        0 <= dist_upto(p, q, n) <= n * SQUARE_LIMIT,
    decreases n,
{
    if n > 0 {
        lemma_dist_upto_bound(p, q, n - 1);
        let d = sval(pat(p, n - 1)) - sval(pat(q, n - 1));
        assert(scalar_ok(pat(p, n - 1)));
        assert(scalar_ok(pat(q, n - 1)));
        lemma_sqr_bound(d, 2 * COORD_LIMIT);
    }
}

impl<const D: usize> KdPoint<D> {
    /// The dimension count carried by the point type.
    pub fn dim() -> (r: usize)
        ensures
            r == D,
    {
        D
    }

    /// Coordinate `i`.
    pub fn at(&self, i: usize) -> (r: Scalar)
        requires
            i < D,
        ensures
            r == pat(*self, i as int),
    {
        self.coords[i]
    }

    /// Conversion from a raw per-axis difference to the metric space:
    /// squaring, so that per-axis pruning bounds compare against whole-point
    /// metrics.
    pub fn from_distance_to_metric(distance: Scalar) -> (r: Scalar)
        requires
            diff_ok(distance),
        ensures
            r == diff_metric_sp(distance),
    {
        match distance {
            Scalar::Value(x) => {
                proof {
                    lemma_sqr_bound(x as int, 2 * COORD_LIMIT as int);
                }
                Scalar::Value(x * x)
            },
            Scalar::Incomparable => Scalar::Incomparable,
        }
    }

    /// The distance metric between two points: the sum of squared per-axis
    /// differences, `Incomparable` as soon as any coordinate is.
    pub fn distance_metric(&self, other: &KdPoint<D>) -> (r: Scalar)
        requires
            dim_ok::<D>(),
            pt_ok(*self),
            pt_ok(*other),
        ensures
            r == metric_sp(*self, *other),
    {
        let mut acc: i64 = 0;
        let mut i: usize = 0;
        while i < D
            invariant
                dim_ok::<D>(),
                pt_ok(*self),
                pt_ok(*other),
                i <= D,
                forall|j: int|
                    0 <= j < i ==> is_val(#[trigger] pat(*self, j)) && is_val(pat(*other, j)),
                acc == dist_upto(*self, *other, i as int),
                0 <= acc <= i * SQUARE_LIMIT,
            decreases D - i,
        {
            let a = self.coords[i];
            let b = other.coords[i];
            match (a, b) {
                (Scalar::Value(x), Scalar::Value(y)) => {
                    proof {
                        assert(scalar_ok(pat(*self, i as int)));
                        assert(scalar_ok(pat(*other, i as int)));
                        lemma_sqr_bound(x - y, 2 * COORD_LIMIT as int);
                    }
                    let d = x - y;
                    let dd = d * d;
                    acc = acc + dd;
                },
                _ => {
                    assert(!md(*self, *other));
                    return Scalar::Incomparable;
                },
            }
            i = i + 1;
        }
        assert(md(*self, *other));
        proof {
            lemma_dist_upto_bound(*self, *other, D as int);
        }
        Scalar::Value(acc)
    }
}

/// Scalar subtraction, executably.
pub fn scalar_sub(a: Scalar, b: Scalar) -> (r: Scalar)
    requires
        scalar_ok(a),
        scalar_ok(b),
    ensures
        r == s_sub(a, b),
        diff_ok(r),
{
    match (a, b) {
        (Scalar::Value(x), Scalar::Value(y)) => Scalar::Value(x - y),
        _ => Scalar::Incomparable,
    }
}

/// Whether a scalar is an ordinary negative value.  An `Incomparable` is
/// not negative, as a NaN is not.
pub fn scalar_is_negative(s: Scalar) -> (r: bool)
    ensures
        r == (s is Value && sval(s) < 0),
{
    match s {
        Scalar::Value(x) => x < 0,
        Scalar::Incomparable => false,
    }
}

/// An item paired with its distance metric from a query point.
#[derive(Clone, Copy, Debug, PartialEq, Eq)]
pub struct ItemAndDistance<const D: usize> {
    pub item: KdPoint<D>,
    pub distance_metric: Scalar,
}

/// The splitting axis one level further down the tree.
pub open spec fn next_ax<const D: usize>(axis: int) -> int {
    (axis + 1) % (D as int)
}

pub fn next_axis<const D: usize>(axis: usize) -> (r: usize)
    requires
        1 <= D,
        axis < D,
    ensures
        r == next_ax::<D>(axis as int),
        r < D,
{
    (axis + 1) % D
}

/// The implicit-tree ordering invariant of the sub-range `[lo, hi)` of `s`,
/// rooted at splitting axis `axis`: the midpoint point is a median of the
/// sub-range along that axis, under the ordering surrogate, and both halves
/// are themselves so arranged along the next axis.
pub open spec fn is_kd_range<const D: usize>(
    s: Seq<KdPoint<D>>,
    lo: int,
    hi: int,
    axis: int,
) -> bool
    decreases hi - lo,
{
    hi - lo >= 2 ==> {
        let mid = lo + (hi - lo) / 2;
        &&& forall|i: int| lo <= i < mid ==> sle(pat(#[trigger] s[i], axis), pat(s[mid], axis))
        &&& forall|i: int| mid < i < hi ==> sle(pat(s[mid], axis), pat(#[trigger] s[i], axis))
        &&& is_kd_range(s, lo, mid, next_ax::<D>(axis))
        &&& is_kd_range(s, mid + 1, hi, next_ax::<D>(axis))
    }
}

/// The ordering invariant of a sub-range only reads that sub-range.
pub proof fn lemma_kd_range_stable<const D: usize>(
    s1: Seq<KdPoint<D>>,
    s2: Seq<KdPoint<D>>,
    lo: int,
    hi: int,
    axis: int,
)
    requires
        is_kd_range(s1, lo, hi, axis),
        0 <= lo,
        hi <= s1.len(),
        forall|i: int| lo <= i < hi ==> s1[i] == #[trigger] s2[i],
    ensures
        is_kd_range(s2, lo, hi, axis),
    decreases hi - lo,
{
    if hi - lo >= 2 {
        let mid = lo + (hi - lo) / 2;
        lemma_kd_range_stable(s1, s2, lo, mid, next_ax::<D>(axis));
        lemma_kd_range_stable(s1, s2, mid + 1, hi, next_ax::<D>(axis));
    }
}

/// The ordering invariant of a sub-range moves with the sub-range: holding
/// of `[lo, hi)` in `s`, it holds of the same points shifted by `off` in
/// `t`.
pub proof fn lemma_kd_range_shift<const D: usize>(
    s: Seq<KdPoint<D>>,
    t: Seq<KdPoint<D>>,
    off: int,
    lo: int,
    hi: int,
    axis: int,
)
    requires
        is_kd_range(s, lo, hi, axis),
        0 <= lo,
        hi <= s.len(),
        forall|i: int| lo <= i < hi ==> #[trigger] s[i] == t[off + i],
    ensures
        is_kd_range(t, off + lo, off + hi, axis),
    decreases hi - lo,
{
    if hi - lo >= 2 {
        let mid = lo + (hi - lo) / 2;
        lemma_kd_range_shift(s, t, off, lo, mid, next_ax::<D>(axis));
        lemma_kd_range_shift(s, t, off, mid + 1, hi, next_ax::<D>(axis));
        let tlo = off + lo;
        let thi = off + hi;
        let tmid = tlo + (thi - tlo) / 2;
        assert(tmid == off + mid);
        assert(s[mid] == t[off + mid]);
        assert forall|i: int| tlo <= i < tmid implies sle(
            pat(#[trigger] t[i], axis),
            pat(t[tmid], axis),
        ) by {
            assert(s[i - off] == t[off + (i - off)]);
            assert(sle(pat(s[i - off], axis), pat(s[mid], axis)));
        }
        assert forall|i: int| tmid < i < thi implies sle(
            pat(t[tmid], axis),
            pat(#[trigger] t[i], axis),
        ) by {
            assert(s[i - off] == t[off + (i - off)]);
            assert(sle(pat(s[mid], axis), pat(s[i - off], axis)));
        }
        assert(is_kd_range(t, tlo, thi, axis));
    }
}

/// A point collection arranged as an implicit k-d tree.  Built once by
/// [`KdTree::build`]; every query is a read.
#[derive(Clone, Debug, PartialEq, Eq)]
pub struct KdTree<const D: usize> {
    points: Vec<KdPoint<D>>,
}

impl<const D: usize> View for KdTree<D> {
    type V = Seq<KdPoint<D>>;

    closed spec fn view(&self) -> Seq<KdPoint<D>> {
        self.points@
    }
}

impl<const D: usize> KdTree<D> {
    /// The whole collection satisfies the implicit-tree ordering invariant,
    /// rooted at axis 0.
    pub open spec fn wf(self) -> bool {
        is_kd_range(self@, 0, self@.len() as int, 0)
    }

    /// Builds a tree from a point collection by reordering it in place
    /// into implicit-tree order.  The tree holds a permutation of the
    /// input; empty and singleton collections are trivially built.
    pub fn build(points: Vec<KdPoint<D>>) -> (r: KdTree<D>)
        requires
            1 <= D,
        ensures
            r@.len() == points@.len(),
            r@.to_multiset() == points@.to_multiset(),
            r.wf(),
            pts_ok(points@) ==> pts_ok(r@),
            pts_cmp(points@) ==> pts_cmp(r@),
    {
        let ghost orig = points@;
        let r = KdTree { points: crate::sort::kd_sort_by(points) };
        proof {
            assert(orig.subrange(0, orig.len() as int) =~= orig);
            assert(r@.subrange(0, r@.len() as int) =~= r@);
            if pts_ok(orig) {
                crate::sort::lemma_perm_kept_prop(orig, r@, |p: KdPoint<D>| pt_ok(p));
            }
            if pts_cmp(orig) {
                crate::sort::lemma_perm_kept_prop(orig, r@, |p: KdPoint<D>| pt_cmp(p));
            }
        }
        r
    }

    /// Gives the reordered point collection back.
    pub fn into_inner(self) -> (r: Vec<KdPoint<D>>)
        ensures
            r@ == self@,
    {
        self.points
    }

    /// Borrows the reordered point collection.
    pub fn items(&self) -> (r: &Vec<KdPoint<D>>)
        ensures
            r@ == self@,
    {
        &self.points
    }
}

} // verus!
