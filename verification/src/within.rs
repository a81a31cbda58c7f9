//! Range search: a pruning traversal shared by axis-aligned box queries and
//! radius (open-ball) queries.

use crate::{
    diff_metric_sp, dim_ok, dist, is_kd_range, lemma_axis_sq_le_dist, lemma_dist_upto_bound, md,
    metric_sp, next_axis, pat, plt, pt_cmp, pt_ok, pts_cmp, pts_ok, s_add, s_sub, scalar_lt,
    scalar_ok, sqr, sval, KdPoint, KdTree, Scalar, COORD_LIMIT,
};
use core::cmp::Ordering;
use vstd::prelude::*;
use vstd::seq_lib::group_to_multiset_ensures;
use vstd::seq_lib::lemma_multiset_commutative;

verus! {

/// `v` lies in the closed interval `[lo, hi]`, read as the complement of
/// the raw partial order's strict comparisons: not below `lo` and not above
/// `hi`.  On ordinary values this is exactly `lo <= v <= hi`.
pub open spec fn in_iv(lo: Scalar, hi: Scalar, v: Scalar) -> bool {
    !plt(v, lo) && !plt(hi, v)
}

/// How a coordinate stands to an axis interval: `Less` below it, `Greater`
/// above it, `Equal` within it.
pub open spec fn classify_sp(lo: Scalar, hi: Scalar, v: Scalar) -> Ordering {
    if plt(v, lo) {
        Ordering::Less
    } else if plt(hi, v) {
        Ordering::Greater
    } else {
        Ordering::Equal
    }
}

/// A range query: an axis interval per axis for pruning, and a final
/// per-point check that confirms a hit.
pub trait RangeQuery<const D: usize>: Sized {
    /// What the query asks of itself.
    spec fn inv(&self) -> bool;

    /// Lower end of the axis interval on `ax`.
    spec fn lo_at(&self, ax: int) -> Scalar;

    /// Upper end of the axis interval on `ax`.
    spec fn hi_at(&self, ax: int) -> Scalar;

    /// What the final check asks of a point it is handed.
    spec fn pre(&self, p: KdPoint<D>) -> bool;

    /// What the final check decides.
    spec fn accept_sp(&self, p: KdPoint<D>) -> bool;

    /// Compares a coordinate against the axis interval on `ax`.
    fn classify(&self, v: Scalar, ax: usize) -> (c: Ordering)
        requires
            self.inv(),
            ax < D,
        ensures
            c == classify_sp(self.lo_at(ax as int), self.hi_at(ax as int), v),
    ;

    /// The final check.
    fn accepts(&self, p: &KdPoint<D>) -> (b: bool)
        requires
            self.inv(),
            self.pre(*p),
        ensures
            b == self.accept_sp(*p),
    ;
}

/// A point answers the query: within the axis interval on every axis, and
/// past the final check.
pub open spec fn range_hit<const D: usize, R: RangeQuery<D>>(q: R, p: KdPoint<D>) -> bool {
    (forall|ax: int| 0 <= ax < D ==> in_iv(q.lo_at(ax), q.hi_at(ax), pat(p, ax)))
        && q.accept_sp(p)
}

/// [`range_hit`] of a fixed query, as a predicate on points.
pub open spec fn hit_fn<const D: usize, R: RangeQuery<D>>(q: R) -> spec_fn(KdPoint<D>) -> bool {
    |p: KdPoint<D>| range_hit(q, p)
}

pub proof fn lemma_filter_none<A>(s: Seq<A>, pred: spec_fn(A) -> bool)
    requires
        forall|i: int| 0 <= i < s.len() ==> !pred(#[trigger] s[i]),
    ensures
        s.filter(pred) == Seq::<A>::empty(),
    decreases s.len(),
{
    reveal(Seq::filter);
    if s.len() > 0 {
        assert(forall|i: int|
            0 <= i < s.drop_last().len() ==> !pred(#[trigger] s.drop_last()[i]));
        lemma_filter_none(s.drop_last(), pred);
    }
}

pub proof fn lemma_filter_singleton<A>(x: A, pred: spec_fn(A) -> bool)
    ensures
        seq![x].filter(pred) == if pred(x) {
            seq![x]
        } else {
            Seq::<A>::empty()
        },
{
    let s = seq![x];
    assert(Seq::<A>::empty().filter(pred) == Seq::<A>::empty()) by {
        reveal(Seq::filter);
    }
    assert(s.drop_last() =~= Seq::<A>::empty());
    assert(s.last() == x);
    assert(s.filter(pred) == if pred(x) {
        seq![x]
    } else {
        Seq::<A>::empty()
    }) by {
        reveal(Seq::filter);
    }
}

pub proof fn lemma_filter_all<A>(s: Seq<A>, pred: spec_fn(A) -> bool)
    requires
        forall|i: int| 0 <= i < s.len() ==> pred(#[trigger] s[i]),
    ensures
        s.filter(pred) == s,
    decreases s.len(),
{
    reveal(Seq::filter);
    if s.len() > 0 {
        assert(forall|i: int|
            0 <= i < s.drop_last().len() ==> pred(#[trigger] s.drop_last()[i]));
        lemma_filter_all(s.drop_last(), pred);
        assert(s.filter(pred) =~= s);
    } else {
        assert(s.filter(pred) =~= s);
    }
}

pub proof fn lemma_filter_congruence<A>(s: Seq<A>, p1: spec_fn(A) -> bool, p2: spec_fn(A) -> bool)
    requires
        forall|i: int| 0 <= i < s.len() ==> (p1(#[trigger] s[i]) <==> p2(s[i])),
    ensures
        s.filter(p1) == s.filter(p2),
    decreases s.len(),
{
    reveal(Seq::filter);
    if s.len() > 0 {
        assert(forall|i: int|
            0 <= i < s.drop_last().len() ==> (p1(#[trigger] s.drop_last()[i]) <==> p2(
                s.drop_last()[i],
            )));
        lemma_filter_congruence(s.drop_last(), p1, p2);
    }
}

/// Whether `item` lies within the query's axis interval on every axis.
fn hits_every_axis<const D: usize, R: RangeQuery<D>>(query: &R, item: &KdPoint<D>) -> (b: bool)
    requires
        query.inv(),
        dim_ok::<D>(),
    ensures
        b == (forall|ax: int|
            0 <= ax < D ==> in_iv(query.lo_at(ax), query.hi_at(ax), pat(*item, ax))),
{
    let mut k: usize = 0;
    while k < D
        invariant
            query.inv(),
            dim_ok::<D>(),
            k <= D,
            forall|ax: int| 0 <= ax < k ==> in_iv(query.lo_at(ax), query.hi_at(ax), pat(*item, ax)),
        decreases D - k,
    {
        let c = query.classify(item.at(k), k);
        if !matches!(c, Ordering::Equal) {
            return false;
        }
        k = k + 1;
    }
    true
}

#[verifier::rlimit(50)]
fn within_recurse<const D: usize, R: RangeQuery<D>>(
    results: &mut Vec<KdPoint<D>>,
    points: &Vec<KdPoint<D>>,
    lo: usize,
    hi: usize,
    axis: usize,
    query: &R,
)
    requires
        query.inv(),
        dim_ok::<D>(),
        lo <= hi,
        hi <= points@.len(),
        axis < D,
        is_kd_range(points@, lo as int, hi as int, axis as int),
        forall|j: int| lo <= j < hi ==> query.pre(#[trigger] points@[j]),
    ensures
        final(results)@.len() >= old(results)@.len(),
        forall|i: int|
            0 <= i < old(results)@.len() ==> #[trigger] final(results)@[i] == old(results)@[i],
        forall|k: int|
            old(results)@.len() <= k < final(results)@.len() ==> points@.contains(
                #[trigger] final(results)@[k],
            ) && range_hit(*query, final(results)@[k]),
        (forall|j: int| lo <= j < hi ==> pt_cmp(#[trigger] points@[j]))
            ==> final(results)@.subrange(
            old(results)@.len() as int,
            final(results)@.len() as int,
        ).to_multiset() == points@.subrange(lo as int, hi as int).filter(
            hit_fn(*query),
        ).to_multiset(),
    decreases hi - lo,
{
    broadcast use group_to_multiset_ensures;

    let ghost hitf = hit_fn(*query);
    if lo == hi {
        proof {
            assert(points@.subrange(lo as int, hi as int) =~= Seq::<KdPoint<D>>::empty());
            lemma_filter_none(points@.subrange(lo as int, hi as int), hitf);
            assert(final(results)@.subrange(
                old(results)@.len() as int,
                final(results)@.len() as int,
            ) =~= Seq::<KdPoint<D>>::empty());
        }
        return ;
    }
    let mid = lo + (hi - lo) / 2;
    let item = points[mid];
    let next = next_axis::<D>(axis);
    let ghost n0 = results@.len() as int;
    let ghost sub = points@.subrange(lo as int, hi as int);
    let ghost sub_l = points@.subrange(lo as int, mid as int);
    let ghost sub_m = points@.subrange(mid as int, mid as int + 1);
    let ghost sub_r = points@.subrange(mid as int + 1, hi as int);
    proof {
        assert(sub =~= sub_l + sub_m + sub_r);
        assert(sub_m =~= seq![item]);
        lemma_filter_singleton(item, hitf);
        Seq::filter_distributes_over_add(sub_l + sub_m, sub_r, hitf);
        Seq::filter_distributes_over_add(sub_l, sub_m, hitf);
        lemma_multiset_commutative(sub_l.filter(hitf) + sub_m.filter(hitf), sub_r.filter(hitf));
        lemma_multiset_commutative(sub_l.filter(hitf), sub_m.filter(hitf));
    }
    let c = query.classify(item.at(axis), axis);
    match c {
        Ordering::Equal => {
            if hits_every_axis(query, &item) && query.accepts(&item) {
                results.push(item);
                proof {
                    assert(points@[mid as int] == item);
                    assert(points@.contains(item));
                }
            }
            let ghost r1 = results@;
            let ghost n1 = results@.len() as int;
            within_recurse(results, points, lo, mid, next, query);
            let ghost r2 = results@;
            let ghost n2 = results@.len() as int;
            within_recurse(results, points, mid + 1, hi, next, query);
            let ghost n3 = results@.len() as int;
            proof {
                if forall|j: int| lo <= j < hi ==> pt_cmp(#[trigger] points@[j]) {
                    assert(forall|j: int| lo <= j < mid ==> pt_cmp(#[trigger] points@[j]));
                    assert(forall|j: int| mid + 1 <= j < hi ==> pt_cmp(#[trigger] points@[j]));
                    let delta = results@.subrange(n0, n3);
                    let d0 = results@.subrange(n0, n1);
                    let d1 = results@.subrange(n1, n2);
                    let d2 = results@.subrange(n2, n3);
                    assert(delta =~= d0 + d1 + d2);
                    lemma_multiset_commutative(d0 + d1, d2);
                    lemma_multiset_commutative(d0, d1);
                    assert(d1 =~= r2.subrange(n1, n2));
                    assert(d0 =~= r1.subrange(n0, n1));
                    assert(d0.to_multiset() == sub_m.filter(hitf).to_multiset()) by {
                        if range_hit(*query, item) {
                            assert(d0 =~= seq![item]);
                        } else {
                            assert(d0 =~= Seq::<KdPoint<D>>::empty());
                        }
                    }
                }
            }
        },
        Ordering::Less => {
            within_recurse(results, points, mid + 1, hi, next, query);
            proof {
                let m = pat(item, axis as int);
                assert(plt(m, query.lo_at(axis as int)));
                assert forall|j: int| lo <= j < mid implies !hitf(points@[j]) by {
                    let a = pat(points@[j], axis as int);
                    assert(crate::sle(a, m));
                    assert(plt(a, query.lo_at(axis as int)));
                    assert(!in_iv(query.lo_at(axis as int), query.hi_at(axis as int), a));
                }
                assert(!hitf(item)) by {
                    assert(!in_iv(query.lo_at(axis as int), query.hi_at(axis as int), m));
                }
                assert(forall|i: int| 0 <= i < sub_l.len() ==> !hitf(#[trigger] sub_l[i]));
                lemma_filter_none(sub_l, hitf);
            }
        },
        Ordering::Greater => {
            within_recurse(results, points, lo, mid, next, query);
            proof {
                if forall|j: int| lo <= j < hi ==> pt_cmp(#[trigger] points@[j]) {
                    let m = pat(item, axis as int);
                    assert(plt(query.hi_at(axis as int), m));
                    assert forall|j: int| mid < j < hi implies !hitf(points@[j]) by {
                        let a = pat(points@[j], axis as int);
                        assert(crate::sle(m, a));
                        assert(pt_cmp(points@[j]));
                        assert(a is Value);
                        assert(plt(query.hi_at(axis as int), a));
                        assert(!in_iv(query.lo_at(axis as int), query.hi_at(axis as int), a));
                    }
                    assert(!hitf(item)) by {
                        assert(!in_iv(query.lo_at(axis as int), query.hi_at(axis as int), m));
                    }
                    assert(forall|i: int| 0 <= i < sub_r.len() ==> !hitf(#[trigger] sub_r[i]));
                    lemma_filter_none(sub_r, hitf);
                }
            }
        },
    }
}

/// The pruning traversal: collects every point whose coordinates lie in the
/// query's axis intervals and which passes the query's final check.  The
/// order of the collected points is an implementation detail.
pub fn kd_within_by_cmp<const D: usize, R: RangeQuery<D>>(kdtree: &KdTree<D>, query: &R) -> (r:
    Vec<KdPoint<D>>)
    requires
        kdtree.wf(),
        dim_ok::<D>(),
        query.inv(),
        forall|j: int| 0 <= j < kdtree@.len() ==> query.pre(#[trigger] kdtree@[j]),
    ensures
        forall|k: int|
            0 <= k < r@.len() ==> kdtree@.contains(#[trigger] r@[k]) && range_hit(*query, r@[k]),
        pts_cmp(kdtree@) ==> r@.to_multiset() == kdtree@.filter(hit_fn(*query)).to_multiset(),
{
    let mut results: Vec<KdPoint<D>> = Vec::new();
    let pts = kdtree.items();
    let n = pts.len();
    within_recurse(&mut results, pts, 0, n, 0, query);
    proof {
        assert(results@.subrange(0, results@.len() as int) =~= results@);
        assert(pts@.subrange(0, n as int) =~= pts@);
    }
    results
}

/// `p` lies in the axis-aligned box `[lo, hi]`: on every axis, not below
/// the low corner and not above the high corner under the raw partial
/// order.  On ordinary values this is interval membership; with reversed
/// corners no ordinary point qualifies.
pub open spec fn in_box<const D: usize>(lo: KdPoint<D>, hi: KdPoint<D>, p: KdPoint<D>) -> bool {
    forall|ax: int| 0 <= ax < D ==> in_iv(pat(lo, ax), pat(hi, ax), pat(p, ax))
}

/// [`in_box`] of a fixed box, as a predicate on points.
pub open spec fn box_fn<const D: usize>(lo: KdPoint<D>, hi: KdPoint<D>) -> spec_fn(
    KdPoint<D>,
) -> bool {
    |p: KdPoint<D>| in_box(lo, hi, p)
}

/// `p` lies strictly inside the ball around `q` of metric `rm`.
pub open spec fn ball_fn<const D: usize>(q: KdPoint<D>, rm: Scalar) -> spec_fn(
    KdPoint<D>,
) -> bool {
    |p: KdPoint<D>| plt(metric_sp(p, q), rm)
}

/// An axis-aligned box query: corner `lo` componentwise at most corner `hi`.
pub struct BoxRange<const D: usize> {
    pub lo: KdPoint<D>,
    pub hi: KdPoint<D>,
}

impl<const D: usize> RangeQuery<D> for BoxRange<D> {
    open spec fn inv(&self) -> bool {
        true
    }

    open spec fn lo_at(&self, ax: int) -> Scalar {
        pat(self.lo, ax)
    }

    open spec fn hi_at(&self, ax: int) -> Scalar {
        pat(self.hi, ax)
    }

    open spec fn pre(&self, p: KdPoint<D>) -> bool {
        true
    }

    open spec fn accept_sp(&self, p: KdPoint<D>) -> bool {
        true
    }

    fn classify(&self, v: Scalar, ax: usize) -> (c: Ordering) {
        if scalar_lt(v, self.lo.at(ax)) {
            Ordering::Less
        } else if scalar_lt(self.hi.at(ax), v) {
            Ordering::Greater
        } else {
            Ordering::Equal
        }
    }

    fn accepts(&self, p: &KdPoint<D>) -> (b: bool) {
        true
    }
}

/// A radius query: the box `[center - radius, center + radius]` for coarse
/// pruning, then the exact open-ball check `metric < radius_metric`.
pub struct BallRange<const D: usize> {
    pub center: KdPoint<D>,
    pub radius: Scalar,
    pub radius_metric: Scalar,
}

impl<const D: usize> BallRange<D> {
    pub open spec fn wf_ball(&self) -> bool {
        &&& dim_ok::<D>()
        &&& pt_ok(self.center)
        &&& scalar_ok(self.radius)
        &&& self.radius_metric == diff_metric_sp(self.radius)
    }
}

impl<const D: usize> RangeQuery<D> for BallRange<D> {
    open spec fn inv(&self) -> bool {
        self.wf_ball()
    }

    open spec fn lo_at(&self, ax: int) -> Scalar {
        s_sub(pat(self.center, ax), self.radius)
    }

    open spec fn hi_at(&self, ax: int) -> Scalar {
        s_add(pat(self.center, ax), self.radius)
    }

    open spec fn pre(&self, p: KdPoint<D>) -> bool {
        pt_ok(p)
    }

    open spec fn accept_sp(&self, p: KdPoint<D>) -> bool {
        plt(metric_sp(p, self.center), self.radius_metric)
    }

    fn classify(&self, v: Scalar, ax: usize) -> (c: Ordering) {
        let q = self.center.at(ax);
        proof {
            assert(scalar_ok(pat(self.center, ax as int)));
        }
        match (v, q, self.radius) {
            (Scalar::Value(x), Scalar::Value(qv), Scalar::Value(rv)) => {
                if x < qv - rv {
                    Ordering::Less
                } else if x > qv + rv {
                    Ordering::Greater
                } else {
                    Ordering::Equal
                }
            },
            _ => Ordering::Equal,
        }
    }

    fn accepts(&self, p: &KdPoint<D>) -> (b: bool) {
        scalar_lt(p.distance_metric(&self.center), self.radius_metric)
    }
}

/// Every point of the open ball lies in the pruning box: if the whole
/// squared distance is under the squared radius, each per-axis difference
/// is within the radius.
proof fn lemma_ball_hit_in_box<const D: usize>(q: BallRange<D>, p: KdPoint<D>)
    requires
        q.wf_ball(),
        pt_ok(p),
        pt_cmp(p),
        q.radius is Value ==> sval(q.radius) >= 0,
        q.accept_sp(p),
    ensures
        range_hit(q, p),
{
    let c = q.center;
    assert(md(p, c));
    assert(q.radius is Value);
    let r = sval(q.radius);
    lemma_dist_upto_bound(p, c, D as int);
    assert(0 <= sqr(r) <= COORD_LIMIT * COORD_LIMIT) by (nonlinear_arith)
        requires
            -COORD_LIMIT <= r <= COORD_LIMIT,
    ;
    assert(dist(p, c) < sqr(r));
    assert forall|ax: int| 0 <= ax < D implies in_iv(q.lo_at(ax), q.hi_at(ax), pat(p, ax)) by {
        lemma_axis_sq_le_dist(p, c, ax);
        let d = sval(pat(p, ax)) - sval(pat(c, ax));
        assert(sqr(d) < sqr(r));
        assert(-r < d && d < r) by (nonlinear_arith)
            requires
                d * d < r * r,
                r >= 0,
        ;
        assert(scalar_ok(pat(p, ax)));
        assert(scalar_ok(pat(c, ax)));
    }
}

impl<const D: usize> KdTree<D> {
    /// Searches the points within the axis-aligned box spanned by the two
    /// corner points `low` (componentwise minimum) and `high` (componentwise
    /// maximum).  With the corners reversed on some axis the result is
    /// empty of ordinary points rather than an error.  On a collection free
    /// of incomparable coordinates the result is exactly the brute-force
    /// filter, in some traversal order.
    pub fn within(&self, low: &KdPoint<D>, high: &KdPoint<D>) -> (r: Vec<KdPoint<D>>)
        requires
            self.wf(),
            dim_ok::<D>(),
        ensures
            forall|k: int|
                0 <= k < r@.len() ==> self@.contains(#[trigger] r@[k]) && in_box(
                    *low,
                    *high,
                    r@[k],
                ),
            pts_cmp(self@) ==> r@.to_multiset() == self@.filter(box_fn(*low, *high)).to_multiset(),
    {
        let b = BoxRange { lo: *low, hi: *high };
        let res = kd_within_by_cmp(self, &b);
        proof {
            assert forall|k: int| 0 <= k < res@.len() implies self@.contains(#[trigger] res@[k])
                && in_box(*low, *high, res@[k]) by {
                assert(range_hit(b, res@[k]));
            }
            if pts_cmp(self@) {
                assert forall|i: int| 0 <= i < self@.len() implies (hit_fn(b)(#[trigger] self@[i])
                    <==> box_fn(*low, *high)(self@[i])) by {}
                lemma_filter_congruence(self@, hit_fn(b), box_fn(*low, *high));
            }
        }
        res
    }

    /// Searches the points within the open ball around `query`: those whose
    /// distance metric is strictly below the metric of `radius`.  Points
    /// exactly on the boundary are excluded.  On a collection free of
    /// incomparable coordinates, and a non-negative radius, the result is
    /// exactly the brute-force filter, in some traversal order.
    pub fn within_radius(&self, query: &KdPoint<D>, radius: Scalar) -> (r: Vec<KdPoint<D>>)
        requires
            self.wf(),
            dim_ok::<D>(),
            pts_ok(self@),
            pt_ok(*query),
            scalar_ok(radius),
        ensures
            forall|k: int|
                0 <= k < r@.len() ==> self@.contains(#[trigger] r@[k]) && plt(
                    metric_sp(r@[k], *query),
                    diff_metric_sp(radius),
                ),
            (pts_cmp(self@) && (radius is Value ==> sval(radius) >= 0)) ==> r@.to_multiset()
                == self@.filter(ball_fn(*query, diff_metric_sp(radius))).to_multiset(),
    {
        let radius_metric = KdPoint::<D>::from_distance_to_metric(radius);
        let ball = BallRange { center: *query, radius, radius_metric };
        let res = kd_within_by_cmp(self, &ball);
        proof {
            assert forall|k: int| 0 <= k < res@.len() implies self@.contains(#[trigger] res@[k])
                && plt(metric_sp(res@[k], *query), diff_metric_sp(radius)) by {
                assert(range_hit(ball, res@[k]));
            }
            if pts_cmp(self@) && (radius is Value ==> sval(radius) >= 0) {
                assert forall|i: int| 0 <= i < self@.len() implies (hit_fn(ball)(
                    #[trigger] self@[i],
                ) <==> ball_fn(*query, diff_metric_sp(radius))(self@[i])) by {
                    if ball_fn(*query, diff_metric_sp(radius))(self@[i]) {
                        assert(pt_cmp(self@[i]));
                        assert(pt_ok(self@[i]));
                        lemma_ball_hit_in_box(ball, self@[i]);
                    }
                }
                lemma_filter_congruence(self@, hit_fn(ball), ball_fn(*query, diff_metric_sp(radius)));
            }
        }
        res
    }
}

} // verus!
