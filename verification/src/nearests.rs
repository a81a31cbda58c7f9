//! K-nearest search: a branch-and-bound traversal over the implicit tree,
//! keeping the best candidates so far in a bounded, distance-sorted buffer,
//! optionally restricted by a point filter.

use crate::within::{lemma_filter_none, lemma_filter_singleton};
use crate::{
    diff_metric_sp, dim_ok, is_kd_range, lemma_axis_sq_le_dist, lemma_dist_upto_bound, md,
    metric_sp, next_axis, pat, plt, pt_cmp, pt_ok, pts_cmp, pts_ok, scalar_is_negative, scalar_lt,
    scalar_ok, scalar_sub, sle, sqr, sval, ItemAndDistance, KdPoint, KdTree, Scalar,
};
use vstd::math::min;
use vstd::prelude::*;

verus! {

/// A restriction on which items may enter a k-nearest result.
pub trait PointFilter<const D: usize>: Sized {
    /// What the filter asks of itself.
    spec fn inv(&self) -> bool;

    /// What the filter decides.
    spec fn pass_sp(&self, p: KdPoint<D>) -> bool;

    /// The decision, executably.
    fn pass(&self, p: &KdPoint<D>) -> (b: bool)
        requires
            self.inv(),
        ensures
            b == self.pass_sp(*p),
    ;
}

/// The trivial filter: every item may enter.
pub struct AllowAll;

impl<const D: usize> PointFilter<D> for AllowAll {
    open spec fn inv(&self) -> bool {
        true
    }

    open spec fn pass_sp(&self, p: KdPoint<D>) -> bool {
        true
    }

    fn pass(&self, p: &KdPoint<D>) -> (b: bool) {
        true
    }
}

/// A filter passing the points whose coordinate on `axis` is strictly
/// below `limit` under the raw partial order.
pub struct CoordBelow {
    pub axis: usize,
    pub limit: Scalar,
}

impl<const D: usize> PointFilter<D> for CoordBelow {
    open spec fn inv(&self) -> bool {
        self.axis < D
    }

    open spec fn pass_sp(&self, p: KdPoint<D>) -> bool {
        plt(pat(p, self.axis as int), self.limit)
    }

    fn pass(&self, p: &KdPoint<D>) -> (b: bool) {
        scalar_lt(p.at(self.axis), self.limit)
    }
}

/// [`PointFilter::pass_sp`] of a fixed filter, as a predicate on points.
pub open spec fn pass_fn<const D: usize, F: PointFilter<D>>(f: F) -> spec_fn(KdPoint<D>) -> bool {
    |p: KdPoint<D>| f.pass_sp(p)
}

/// The entries are sorted ascending by distance metric, under the ordering
/// surrogate.
pub open spec fn sorted_by_metric<const D: usize>(e: Seq<ItemAndDistance<D>>) -> bool {
    forall|i: int, j: int|
        0 <= i <= j < e.len() ==> sle(
            #[trigger] e[i].distance_metric,
            #[trigger] e[j].distance_metric,
        )
}

/// The candidate entry for the point at index `i`: the point itself and
/// its distance metric from `q`.
pub open spec fn entry_of<const D: usize>(
    pts: Seq<KdPoint<D>>,
    q: KdPoint<D>,
    i: int,
) -> ItemAndDistance<D> {
    ItemAndDistance { item: pts[i], distance_metric: metric_sp(pts[i], q) }
}

/// The entries `e` are the candidate entries of the distinct source
/// indices `ids`, each passing the filter.
pub open spec fn sel_valid<const D: usize, F: PointFilter<D>>(
    e: Seq<ItemAndDistance<D>>,
    ids: Seq<int>,
    pts: Seq<KdPoint<D>>,
    q: KdPoint<D>,
    f: F,
) -> bool {
    &&& ids.len() == e.len()
    &&& forall|j: int, k: int| 0 <= j < k < ids.len() ==> #[trigger] ids[j] != #[trigger] ids[k]
    &&& forall|j: int|
        0 <= j < ids.len() ==> 0 <= #[trigger] ids[j] < pts.len() && e[j] == entry_of(
            pts,
            q,
            ids[j],
        ) && f.pass_sp(pts[ids[j]])
}

/// A bounded, distance-sorted candidate buffer with an explicit capacity.
pub struct CandidateBuffer<const D: usize> {
    entries: Vec<ItemAndDistance<D>>,
    cap: usize,
}

impl<const D: usize> View for CandidateBuffer<D> {
    type V = Seq<ItemAndDistance<D>>;

    closed spec fn view(&self) -> Seq<ItemAndDistance<D>> {
        self.entries@
    }
}

/// A bounded collection: random access, rank-position insertion, removal
/// from the end, and a fixed capacity.
pub trait VecLike<T>: View<V = Seq<T>> + Sized {
    /// The fixed capacity.
    spec fn cap_sp(&self) -> nat;

    /// Inserts `value` at `index`, shifting what follows.
    fn insert(&mut self, index: usize, value: T)
        requires
            index <= old(self)@.len(),
            old(self)@.len() < old(self).cap_sp(),
        ensures
            final(self)@ == old(self)@.insert(index as int, value),
            final(self).cap_sp() == old(self).cap_sp(),
    ;

    /// Appends `value` at the end.
    fn push(&mut self, value: T)
        requires
            old(self)@.len() < old(self).cap_sp(),
        ensures
            final(self)@ == old(self)@.push(value),
            final(self).cap_sp() == old(self).cap_sp(),
    ;

    /// Removes and returns the last element, if any.
    fn pop(&mut self) -> (r: Option<T>)
        ensures
            final(self).cap_sp() == old(self).cap_sp(),
            old(self)@.len() == 0 ==> r is None && final(self)@ == old(self)@,
            old(self)@.len() > 0 ==> r == Some(old(self)@.last()) && final(self)@ == old(
                self,
            )@.drop_last(),
    ;

    /// The fixed capacity, executably.
    fn capacity(&self) -> (r: usize)
        ensures
            r == self.cap_sp(),
    ;

    /// Keeps only the first `new_size` elements.
    fn truncate(&mut self, new_size: usize)
        ensures
            final(self).cap_sp() == old(self).cap_sp(),
            new_size <= old(self)@.len() ==> final(self)@ == old(self)@.take(new_size as int),
            new_size > old(self)@.len() ==> final(self)@ == old(self)@,
    ;
}

impl<const D: usize> VecLike<ItemAndDistance<D>> for CandidateBuffer<D> {
    closed spec fn cap_sp(&self) -> nat {
        self.cap as nat
    }

    fn insert(&mut self, index: usize, value: ItemAndDistance<D>) {
        self.entries.insert(index, value);
    }

    fn push(&mut self, value: ItemAndDistance<D>) {
        self.entries.push(value);
    }

    fn pop(&mut self) -> (r: Option<ItemAndDistance<D>>) {
        self.entries.pop()
    }

    fn capacity(&self) -> (r: usize) {
        self.cap
    }

    fn truncate(&mut self, new_size: usize) {
        self.entries.truncate(new_size);
    }
}

impl<const D: usize> CandidateBuffer<D> {
    /// An empty buffer of capacity `num`.
    pub fn new(num: usize) -> (r: CandidateBuffer<D>)
        ensures
            r@ == Seq::<ItemAndDistance<D>>::empty(),
            r.cap_sp() == num,
    {
        CandidateBuffer { entries: Vec::new(), cap: num }
    }

    /// How many candidates are held.
    pub fn len(&self) -> (r: usize)
        ensures
            r == self@.len(),
    {
        self.entries.len()
    }

    /// The candidate at position `i`.
    pub fn get(&self, i: usize) -> (r: ItemAndDistance<D>)
        requires
            i < self@.len(),
        ensures
            r == self@[i as int],
    {
        self.entries[i]
    }

    /// Gives the sorted candidates up, best first.
    pub fn into_vec(self) -> (r: Vec<ItemAndDistance<D>>)
        ensures
            r@ == self@,
    {
        self.entries
    }

    /// A position where a candidate of metric `m` keeps the buffer sorted:
    /// after every entry at most `m`, before every entry at least `m`.
    fn rank_of(&self, m: Scalar) -> (pos: usize)
        requires
            sorted_by_metric(self@),
        ensures
            pos <= self@.len(),
            forall|j: int| 0 <= j < pos ==> sle(#[trigger] self@[j].distance_metric, m),
            forall|j: int| pos <= j < self@.len() ==> sle(m, #[trigger] self@[j].distance_metric),
    {
        let n = self.entries.len();
        let mut pos: usize = 0;
        while pos < n
            invariant
                pos <= n == self@.len(),
                sorted_by_metric(self@),
                forall|j: int| 0 <= j < pos ==> sle(#[trigger] self@[j].distance_metric, m),
            decreases n - pos,
        {
            if !crate::scalar_sle(self.entries[pos].distance_metric, m) {
                proof {
                    assert forall|j: int| pos <= j < self@.len() implies sle(
                        m,
                        #[trigger] self@[j].distance_metric,
                    ) by {
                        assert(sle(self@[pos as int].distance_metric, self@[j].distance_metric));
                    }
                }
                return pos;
            }
            pos = pos + 1;
        }
        pos
    }
}

/// How many points of `[lo, hi)` pass the filter.
pub open spec fn pass_count<const D: usize, F: PointFilter<D>>(
    pts: Seq<KdPoint<D>>,
    lo: int,
    hi: int,
    f: F,
) -> int {
    pts.subrange(lo, hi).filter(pass_fn(f)).len() as int
}

/// The buffer is full and its worst kept distance is at most the distance
/// of the point at index `i`: excluding that point was sound.
pub open spec fn worst_bound<const D: usize>(
    e: Seq<ItemAndDistance<D>>,
    cap: nat,
    pts: Seq<KdPoint<D>>,
    q: KdPoint<D>,
    i: int,
) -> bool {
    e.len() == cap && sle(e.last().distance_metric, metric_sp(pts[i], q))
}

proof fn lemma_sorted_insert<const D: usize>(
    e: Seq<ItemAndDistance<D>>,
    pos: int,
    v: ItemAndDistance<D>,
)
    requires
        sorted_by_metric(e),
        0 <= pos <= e.len(),
        forall|j: int| 0 <= j < pos ==> sle(#[trigger] e[j].distance_metric, v.distance_metric),
        forall|j: int| pos <= j < e.len() ==> sle(v.distance_metric, #[trigger] e[j].distance_metric),
    ensures
        sorted_by_metric(e.insert(pos, v)),
{
    let e2 = e.insert(pos, v);
    assert(forall|i: int| 0 <= i < pos ==> e2[i] == #[trigger] e[i]);
    assert(e2[pos] == v);
    assert(forall|i: int| pos < i < e2.len() ==> e2[i] == #[trigger] e[i - 1]);
    assert forall|i: int, j: int| 0 <= i <= j < e2.len() implies sle(
        #[trigger] e2[i].distance_metric,
        #[trigger] e2[j].distance_metric,
    ) by {
        if i < pos && j == pos {
        } else if i == pos && j > pos {
        } else if i < pos && j > pos {
            assert(sle(e[i].distance_metric, v.distance_metric));
            assert(sle(v.distance_metric, e[j - 1].distance_metric));
        }
    }
}

/// The decomposition of a pass count at the midpoint.
proof fn lemma_pass_count_split<const D: usize, F: PointFilter<D>>(
    pts: Seq<KdPoint<D>>,
    lo: int,
    mid: int,
    hi: int,
    f: F,
)
    requires
        0 <= lo <= mid < hi <= pts.len(),
    ensures
        pass_count(pts, lo, hi, f) == pass_count(pts, lo, mid, f) + (if f.pass_sp(pts[mid]) {
            1int
        } else {
            0int
        }) + pass_count(pts, mid + 1, hi, f),
{
    let passf = pass_fn(f);
    let sub = pts.subrange(lo, hi);
    let sub_l = pts.subrange(lo, mid);
    let sub_m = pts.subrange(mid, mid + 1);
    let sub_r = pts.subrange(mid + 1, hi);
    assert(sub =~= sub_l + sub_m + sub_r);
    assert(sub_m =~= seq![pts[mid]]);
    lemma_filter_singleton(pts[mid], passf);
    Seq::filter_distributes_over_add(sub_l + sub_m, sub_r, passf);
    Seq::filter_distributes_over_add(sub_l, sub_m, passf);
}

/// In the far half of a sub-range, no point is nearer to the query than
/// the perpendicular distance from the query to the splitting value.
proof fn lemma_far_branch_bound<const D: usize>(
    pts: Seq<KdPoint<D>>,
    q: KdPoint<D>,
    mid: int,
    i: int,
    axis: int,
)
    requires
        0 <= mid < pts.len(),
        0 <= i < pts.len(),
        0 <= axis < D,
        dim_ok::<D>(),
        pts_ok(pts),
        pt_ok(q),
        pt_cmp(pts[mid]),
        pt_cmp(pts[i]),
        pt_cmp(q),
        ({
            let dv = sval(pat(q, axis)) - sval(pat(pts[mid], axis));
            (dv < 0 && sle(pat(pts[mid], axis), pat(pts[i], axis))) || (dv >= 0 && sle(
                pat(pts[i], axis),
                pat(pts[mid], axis),
            ))
        }),
    ensures
        metric_sp(pts[i], q) is Value,
        sval(metric_sp(pts[i], q)) >= sqr(sval(pat(q, axis)) - sval(pat(pts[mid], axis))),
{
    let p = pts[i];
    let m = pts[mid];
    let dv = sval(pat(q, axis)) - sval(pat(m, axis));
    let di = sval(pat(q, axis)) - sval(pat(p, axis));
    assert(md(p, q));
    lemma_dist_upto_bound(p, q, D as int);
    lemma_axis_sq_le_dist(p, q, axis);
    let x = sval(pat(p, axis)) - sval(pat(q, axis));
    assert(x == -di);
    assert(sqr(x) == sqr(di)) by {
        assert((-di) * (-di) == di * di) by (nonlinear_arith);
    }
    if dv < 0 {
        assert(di <= dv);
        assert(sqr(di) >= sqr(dv)) by {
            assert(di * di >= dv * dv) by (nonlinear_arith)
                requires
                    di <= dv < 0,
            ;
        }
    } else {
        assert(di >= dv);
        assert(sqr(di) >= sqr(dv)) by {
            assert(di * di >= dv * dv) by (nonlinear_arith)
                requires
                    di >= dv >= 0,
            ;
        }
    }
}

/// Every entry of a valid sorted buffer has an ordinary distance metric
/// when the collection and the query are free of incomparable coordinates.
proof fn lemma_entries_comparable<const D: usize, F: PointFilter<D>>(
    e: Seq<ItemAndDistance<D>>,
    ids: Seq<int>,
    pts: Seq<KdPoint<D>>,
    q: KdPoint<D>,
    f: F,
)
    requires
        sel_valid(e, ids, pts, q, f),
        pts_cmp(pts),
        pt_cmp(q),
    ensures
        forall|j: int| 0 <= j < e.len() ==> (#[trigger] e[j].distance_metric) is Value,
{
    assert forall|j: int| 0 <= j < e.len() implies (#[trigger] e[j].distance_metric) is Value by {
        let i = ids[j];
        assert(pt_cmp(pts[i]));
        assert(md(pts[i], q));
    }
}

/// Offers the point at index `mididx` to the buffer: where the buffer is
/// not yet full, or the candidate beats the current worst entry, and the
/// candidate passes the filter, the worst entry is dropped if room must be
/// made and the candidate is placed at its rank.  Eviction happens only
/// once insertion is confirmed, so a candidate that fails the filter never
/// shrinks the buffer.
#[verifier::rlimit(100)]
fn offer_candidate<const D: usize, F: PointFilter<D>>(
    nearests: &mut CandidateBuffer<D>,
    item: KdPoint<D>,
    m: Scalar,
    Ghost(pts): Ghost<Seq<KdPoint<D>>>,
    Ghost(q): Ghost<KdPoint<D>>,
    Ghost(mididx): Ghost<int>,
    filter: &F,
    ids_in: Ghost<Seq<int>>,
) -> (ids_out: Ghost<Seq<int>>)
    requires
        filter.inv(),
        old(nearests).cap_sp() >= 1,
        old(nearests)@.len() <= old(nearests).cap_sp(),
        sorted_by_metric(old(nearests)@),
        sel_valid(old(nearests)@, ids_in@, pts, q, *filter),
        0 <= mididx < pts.len(),
        item == pts[mididx],
        m == metric_sp(pts[mididx], q),
        forall|j: int| 0 <= j < ids_in@.len() ==> #[trigger] ids_in@[j] != mididx,
    ensures
        final(nearests).cap_sp() == old(nearests).cap_sp(),
        old(nearests)@.len() <= final(nearests)@.len() <= final(nearests).cap_sp(),
        sorted_by_metric(final(nearests)@),
        sel_valid(final(nearests)@, ids_out@, pts, q, *filter),
        final(nearests)@.len() == min(
            old(nearests).cap_sp() as int,
            old(nearests)@.len() + (if filter.pass_sp(pts[mididx]) {
                1int
            } else {
                0int
            }),
        ),
        forall|j: int|
            0 <= j < ids_out@.len() ==> ids_in@.contains(#[trigger] ids_out@[j]) || ids_out@[j]
                == mididx,
        forall|j: int|
            0 <= j < ids_in@.len() && !ids_out@.contains(#[trigger] ids_in@[j]) ==> worst_bound(
                final(nearests)@,
                old(nearests).cap_sp(),
                pts,
                q,
                ids_in@[j],
            ),
        old(nearests)@.len() == old(nearests).cap_sp() ==> sle(
            final(nearests)@.last().distance_metric,
            old(nearests)@.last().distance_metric,
        ),
        (pts_cmp(pts) && pt_cmp(q) && filter.pass_sp(pts[mididx]) && !ids_out@.contains(mididx))
            ==> worst_bound(final(nearests)@, old(nearests).cap_sp(), pts, q, mididx),
{
    let ghost e0 = nearests@;
    let ghost ids0 = ids_in@;
    let ghost cap = nearests.cap_sp();
    let len0 = nearests.len();
    let capacity = nearests.capacity();
    let want = if len0 < capacity {
        true
    } else {
        scalar_lt(m, nearests.get(len0 - 1).distance_metric)
    };
    if !want {
        proof {
            assert(e0.len() == cap);
            if pts_cmp(pts) && pt_cmp(q) && filter.pass_sp(pts[mididx]) {
                lemma_entries_comparable(e0, ids0, pts, q, *filter);
                assert(md(pts[mididx], q));
                assert(sle(e0.last().distance_metric, m));
            }
        }
        return ids_in;
    }
    if !filter.pass(&item) {
        return ids_in;
    }
    let ghost mut ids: Seq<int> = ids_in@;
    if len0 == capacity {
        let _ = nearests.pop();
        proof {
            ids = ids.drop_last();
        }
    }
    let ghost e0d = nearests@;
    let ghost ids0d = ids;
    let pos = nearests.rank_of(m);
    let entry = ItemAndDistance { item, distance_metric: m };
    proof {
        lemma_sorted_insert(nearests@, pos as int, entry);
        e0d.insert_ensures(pos as int, entry);
        ids0d.insert_ensures(pos as int, mididx);
    }
    nearests.insert(pos, entry);
    proof {
        ids = ids.insert(pos as int, mididx);
        let e1 = nearests@;
        let ids1 = ids;
        // the new selection is valid
        assert(sel_valid(e1, ids1, pts, q, *filter)) by {
            assert(forall|j: int| 0 <= j < ids0d.len() ==> #[trigger] ids0d[j] != mididx);
            assert forall|j: int, k: int| 0 <= j < k < ids1.len() implies #[trigger] ids1[j]
                != #[trigger] ids1[k] by {}
            assert forall|j: int| 0 <= j < ids1.len() implies 0 <= #[trigger] ids1[j] < pts.len()
                && e1[j] == entry_of(pts, q, ids1[j]) && filter.pass_sp(pts[ids1[j]]) by {
                if j < pos {
                    assert(ids1[j] == ids0d[j]);
                    assert(e1[j] == e0d[j]);
                } else if j == pos {
                    assert(ids1[j] == mididx);
                    assert(e1[j] == entry);
                } else {
                    assert(ids1[j] == ids0d[j - 1]);
                    assert(e1[j] == e0d[j - 1]);
                }
            }
        }
        // everything kept or added is accounted for
        assert forall|j: int| 0 <= j < ids1.len() implies ids0.contains(#[trigger] ids1[j])
            || ids1[j] == mididx by {
            if j < pos {
                assert(ids1[j] == ids0d[j] && ids0d[j] == ids0[j]);
            } else if j > pos {
                assert(ids1[j] == ids0d[j - 1] && ids0d[j - 1] == ids0[j - 1]);
            }
        }
        // only the evicted worst can be gone, and the worst only improves
        assert forall|j: int|
            0 <= j < ids0.len() && !ids1.contains(#[trigger] ids0[j]) implies worst_bound(
            e1,
            cap,
            pts,
            q,
            ids0[j],
        ) by {
            if j < ids0d.len() {
                if j < pos {
                    assert(ids1[j] == ids0[j]);
                } else {
                    assert(ids1[j + 1] == ids0[j]);
                }
                assert(ids1.contains(ids0[j]));
            } else {
                // the evicted worst: its entry was the old last
                assert(len0 == cap && j == len0 - 1);
                assert(e0[j] == entry_of(pts, q, ids0[j]));
                assert(e1.len() == cap);
                assert(sle(e1.last().distance_metric, e0.last().distance_metric)) by {
                    if pos as int == e0d.len() {
                        assert(e1.last() == entry);
                        assert(plt(m, e0.last().distance_metric));
                    } else {
                        assert(e1.last() == e0d[e0d.len() - 1]);
                        assert(e0d[e0d.len() - 1] == e0[e0.len() - 2]);
                        assert(sle(
                            e0[e0.len() - 2].distance_metric,
                            e0[e0.len() - 1].distance_metric,
                        ));
                    }
                }
            }
        }
        // the worst only improves when the buffer was full
        if e0.len() == cap {
            assert(sle(e1.last().distance_metric, e0.last().distance_metric)) by {
                if pos as int == e0d.len() {
                    assert(e1.last() == entry);
                    assert(plt(m, e0.last().distance_metric));
                } else {
                    assert(e1.last() == e0d[e0d.len() - 1]);
                    assert(e0d[e0d.len() - 1] == e0[e0.len() - 2]);
                    assert(sle(
                        e0[e0.len() - 2].distance_metric,
                        e0[e0.len() - 1].distance_metric,
                    ));
                }
            }
        }
        // the candidate itself went in
        assert(ids1[pos as int] == mididx);
        assert(ids1.contains(mididx));
    }
    Ghost(ids)
}


/// The branch-and-bound traversal over the sub-range `[lo, hi)` rooted at
/// `axis`: the midpoint point is offered to the buffer, the half on the
/// query's side of the splitting value is searched first, and the far half
/// only where the buffer is not yet full or the perpendicular distance to
/// the splitting value, taken into metric space, still beats the buffer's
/// worst kept distance.
#[verifier::rlimit(100)]
fn recurse<const D: usize, F: PointFilter<D>>(
    nearests: &mut CandidateBuffer<D>,
    points: &Vec<KdPoint<D>>,
    query: &KdPoint<D>,
    lo: usize,
    hi: usize,
    axis: usize,
    filter: &F,
    ids_in: Ghost<Seq<int>>,
) -> (ids_out: Ghost<Seq<int>>)
    requires
        dim_ok::<D>(),
        lo <= hi,
        hi <= points@.len(),
        axis < D,
        is_kd_range(points@, lo as int, hi as int, axis as int),
        pts_ok(points@),
        pt_ok(*query),
        filter.inv(),
        old(nearests).cap_sp() >= 1,
        old(nearests)@.len() <= old(nearests).cap_sp(),
        sorted_by_metric(old(nearests)@),
        sel_valid(old(nearests)@, ids_in@, points@, *query, *filter),
        forall|j: int| 0 <= j < ids_in@.len() ==> !(lo <= #[trigger] ids_in@[j] < hi),
    ensures
        final(nearests).cap_sp() == old(nearests).cap_sp(),
        old(nearests)@.len() <= final(nearests)@.len() <= final(nearests).cap_sp(),
        sorted_by_metric(final(nearests)@),
        sel_valid(final(nearests)@, ids_out@, points@, *query, *filter),
        final(nearests)@.len() == min(
            old(nearests).cap_sp() as int,
            old(nearests)@.len() + pass_count(points@, lo as int, hi as int, *filter),
        ),
        forall|j: int|
            0 <= j < ids_out@.len() ==> ids_in@.contains(#[trigger] ids_out@[j]) || lo
                <= ids_out@[j] < hi,
        forall|j: int|
            0 <= j < ids_in@.len() && !ids_out@.contains(#[trigger] ids_in@[j]) ==> worst_bound(
                final(nearests)@,
                old(nearests).cap_sp(),
                points@,
                *query,
                ids_in@[j],
            ),
        old(nearests)@.len() == old(nearests).cap_sp() ==> sle(
            final(nearests)@.last().distance_metric,
            old(nearests)@.last().distance_metric,
        ),
        (pts_cmp(points@) && pt_cmp(*query)) ==> forall|i: int|
            lo <= i < hi && filter.pass_sp(#[trigger] points@[i]) && !ids_out@.contains(i)
                ==> worst_bound(final(nearests)@, old(nearests).cap_sp(), points@, *query, i),
    decreases hi - lo,
{
    let ghost passf = pass_fn(*filter);
    let ghost cap = nearests.cap_sp();
    let ghost pts = points@;
    let ghost q = *query;
    let ghost e0 = nearests@;
    let ghost ids0 = ids_in@;
    if lo == hi {
        proof {
            assert(pts.subrange(lo as int, hi as int) =~= Seq::<KdPoint<D>>::empty());
            lemma_filter_none(pts.subrange(lo as int, hi as int), passf);
        }
        return ids_in;
    }
    let mid = lo + (hi - lo) / 2;
    let item = points[mid];
    proof {
        assert(pt_ok(pts[mid as int]));
    }
    let m = item.distance_metric(query);
    let ids1g = offer_candidate(
        nearests,
        item,
        m,
        Ghost(pts),
        Ghost(q),
        Ghost(mid as int),
        filter,
        ids_in,
    );
    let ghost e1 = nearests@;
    let ghost ids1 = ids1g@;
    proof {
        lemma_pass_count_split(pts, lo as int, mid as int, hi as int, *filter);
    }
    let diff = scalar_sub(query.at(axis), item.at(axis));
    let dd = KdPoint::<D>::from_distance_to_metric(diff);
    let next = next_axis::<D>(axis);
    let neg = scalar_is_negative(diff);
    let b1lo = if neg { lo } else { mid + 1 };
    let b1hi = if neg { mid } else { hi };
    let b2lo = if neg { mid + 1 } else { lo };
    let b2hi = if neg { hi } else { mid };
    proof {
        assert(is_kd_range(pts, b1lo as int, b1hi as int, next as int));
        assert(is_kd_range(pts, b2lo as int, b2hi as int, next as int));
        assert forall|j: int| 0 <= j < ids1.len() implies !(b1lo <= #[trigger] ids1[j] < b1hi)
            && !(b2lo <= ids1[j] < b2hi) by {
            if ids0.contains(ids1[j]) {
                let k = choose|k: int| 0 <= k < ids0.len() && ids0[k] == ids1[j];
                assert(!(lo <= ids0[k] < hi));
            } else {
                assert(ids1[j] == mid as int);
            }
        }
    }
    let ids2g = recurse(nearests, points, query, b1lo, b1hi, next, filter, ids1g);
    let ghost e2 = nearests@;
    let ghost ids2 = ids2g@;
    proof {
        assert forall|j: int| 0 <= j < ids2.len() implies !(b2lo <= #[trigger] ids2[j]
            < b2hi) by {
            if ids1.contains(ids2[j]) {
                let k = choose|k: int| 0 <= k < ids1.len() && ids1[k] == ids2[j];
                assert(!(b2lo <= ids1[k] < b2hi));
            } else {
                assert(b1lo <= ids2[j] < b1hi);
            }
        }
    }
    let len2 = nearests.len();
    let capacity = nearests.capacity();
    let explore = if b2lo >= b2hi {
        false
    } else if len2 < capacity {
        true
    } else {
        scalar_lt(dd, nearests.get(len2 - 1).distance_metric)
    };
    let ids3g = if explore {
        recurse(nearests, points, query, b2lo, b2hi, next, filter, ids2g)
    } else {
        ids2g
    };
    let ghost e3 = nearests@;
    let ghost ids3 = ids3g@;
    proof {
        let pc2 = pass_count(pts, b2lo as int, b2hi as int, *filter);
        if !explore {
            if b2lo >= b2hi {
                assert(pts.subrange(b2lo as int, b2hi as int) =~= Seq::<KdPoint<D>>::empty());
                lemma_filter_none(pts.subrange(b2lo as int, b2hi as int), passf);
                assert(pc2 == 0);
            } else {
                assert(e2.len() == cap);
                assert(pc2 >= 0);
            }
        }
        // the count of kept candidates
        assert(e3.len() == min(cap as int, e0.len() + pass_count(pts, lo as int, hi as int, *filter)));
        // where each kept candidate came from
        assert forall|j: int| 0 <= j < ids3.len() implies ids0.contains(#[trigger] ids3[j]) || lo
            <= ids3[j] < hi by {
            if ids2.contains(ids3[j]) {
                let k = choose|k: int| 0 <= k < ids2.len() && ids2[k] == ids3[j];
                if ids1.contains(ids2[k]) {
                    let k2 = choose|k2: int| 0 <= k2 < ids1.len() && ids1[k2] == ids2[k];
                    if !ids0.contains(ids1[k2]) {
                        assert(ids1[k2] == mid as int);
                    }
                } else {
                    assert(b1lo <= ids2[k] < b1hi);
                }
            } else {
                assert(b2lo <= ids3[j] < b2hi);
            }
        }
        // an entry leaves the buffer only for a closer one
        assert forall|j: int|
            0 <= j < ids0.len() && !ids3.contains(#[trigger] ids0[j]) implies worst_bound(
            e3,
            cap,
            pts,
            q,
            ids0[j],
        ) by {
            let x = ids0[j];
            if !ids1.contains(x) {
                assert(worst_bound(e1, cap, pts, q, x));
                assert(e2.len() == cap);
                assert(sle(e2.last().distance_metric, e1.last().distance_metric));
                assert(e3.len() == cap);
                assert(sle(e3.last().distance_metric, e2.last().distance_metric));
            } else if !ids2.contains(x) {
                let k = choose|k: int| 0 <= k < ids1.len() && ids1[k] == x;
                assert(worst_bound(e2, cap, pts, q, ids1[k]));
                assert(e3.len() == cap);
                assert(sle(e3.last().distance_metric, e2.last().distance_metric));
            } else {
                let k = choose|k: int| 0 <= k < ids2.len() && ids2[k] == x;
                assert(worst_bound(e3, cap, pts, q, ids2[k]));
            }
        }
        // once full, the worst kept distance only improves
        if e0.len() == cap {
            assert(e1.len() == cap);
            assert(sle(e1.last().distance_metric, e0.last().distance_metric));
            assert(e2.len() == cap);
            assert(sle(e2.last().distance_metric, e1.last().distance_metric));
            assert(sle(e3.last().distance_metric, e2.last().distance_metric));
        }
        // with comparable coordinates, nothing nearer than the worst kept
        // distance was passed over
        if pts_cmp(pts) && pt_cmp(q) {
            assert forall|i: int|
                lo <= i < hi && filter.pass_sp(#[trigger] pts[i]) && !ids3.contains(i)
                implies worst_bound(e3, cap, pts, q, i) by {
                if i == mid as int {
                    if !ids1.contains(i) {
                        assert(worst_bound(e1, cap, pts, q, i));
                        assert(e2.len() == cap);
                        assert(sle(e2.last().distance_metric, e1.last().distance_metric));
                        assert(e3.len() == cap);
                        assert(sle(e3.last().distance_metric, e2.last().distance_metric));
                    } else if !ids2.contains(i) {
                        let k = choose|k: int| 0 <= k < ids1.len() && ids1[k] == i;
                        assert(worst_bound(e2, cap, pts, q, ids1[k]));
                        assert(e3.len() == cap);
                        assert(sle(e3.last().distance_metric, e2.last().distance_metric));
                    } else {
                        let k = choose|k: int| 0 <= k < ids2.len() && ids2[k] == i;
                        assert(worst_bound(e3, cap, pts, q, ids2[k]));
                    }
                } else if b1lo <= i < b1hi {
                    if !ids2.contains(i) {
                        assert(worst_bound(e2, cap, pts, q, i));
                        assert(e3.len() == cap);
                        assert(sle(e3.last().distance_metric, e2.last().distance_metric));
                    } else {
                        let k = choose|k: int| 0 <= k < ids2.len() && ids2[k] == i;
                        assert(worst_bound(e3, cap, pts, q, ids2[k]));
                    }
                } else {
                    assert(b2lo <= i < b2hi);
                    if explore {
                        assert(worst_bound(e3, cap, pts, q, i));
                    } else {
                        // pruned: every point of the far half is at least as
                        // far as the perpendicular distance, which already
                        // fails to beat the worst kept distance
                        assert(e2.len() == cap);
                        let dv = sval(pat(q, axis as int)) - sval(pat(pts[mid as int], axis as int));
                        assert(scalar_ok(pat(q, axis as int)));
                        assert(scalar_ok(pat(pts[mid as int], axis as int)));
                        assert(diff == Scalar::Value((dv) as i64));
                        assert(sval(diff) == dv);
                        assert(neg == (dv < 0));
                        if neg {
                            assert(sle(pat(pts[mid as int], axis as int), pat(pts[i], axis as int)));
                        } else {
                            assert(sle(pat(pts[i], axis as int), pat(pts[mid as int], axis as int)));
                        }
                        lemma_far_branch_bound(pts, q, mid as int, i, axis as int);
                        lemma_sqr_bound_pub(dv);
                        assert(sval(dd) == sqr(dv));
                        lemma_entries_comparable(e2, ids2, pts, q, *filter);
                        assert((e2.last().distance_metric) is Value);
                        assert(!plt(dd, e2.last().distance_metric));
                        assert(sval(e2.last().distance_metric) <= sval(dd));
                        assert(sle(e3.last().distance_metric, metric_sp(pts[i], q)));
                    }
                }
            }
        }
    }
    ids3g
}

/// Squares of per-axis differences stay within an `i64`.
proof fn lemma_sqr_bound_pub(x: int)
    requires
        -2 * (crate::COORD_LIMIT as int) <= x <= 2 * (crate::COORD_LIMIT as int),
    ensures
        0 <= sqr(x) <= crate::SQUARE_LIMIT,
{
    assert(0 <= x * x <= 1125899906842624) by (nonlinear_arith)
        requires
            -33554432 <= x <= 33554432,
    ;
}


/// Fills the buffer with the nearest filter-passing items, up to its
/// capacity, sorted ascending by distance metric.  On a collection and
/// query free of incomparable coordinates the kept items are exactly the
/// nearest passing ones: every passing item left out is at least as far as
/// the worst item kept.
pub fn kd_nearests<const D: usize, F: PointFilter<D>>(
    nearests: &mut CandidateBuffer<D>,
    kdtree: &KdTree<D>,
    query: &KdPoint<D>,
    filter: &F,
)
    requires
        kdtree.wf(),
        dim_ok::<D>(),
        pts_ok(kdtree@),
        pt_ok(*query),
        filter.inv(),
        old(nearests).cap_sp() >= 1,
        old(nearests)@.len() == 0,
    ensures
        final(nearests).cap_sp() == old(nearests).cap_sp(),
        sorted_by_metric(final(nearests)@),
        final(nearests)@.len() == min(
            old(nearests).cap_sp() as int,
            pass_count(kdtree@, 0, kdtree@.len() as int, *filter),
        ),
        exists|ids: Seq<int>|
            sel_valid(final(nearests)@, ids, kdtree@, *query, *filter) && ((pts_cmp(kdtree@)
                && pt_cmp(*query)) ==> sel_complete(
                final(nearests)@,
                ids,
                kdtree@,
                *query,
                *filter,
                old(nearests).cap_sp(),
            )),
{
    let pts = kdtree.items();
    let n = pts.len();
    let ids = recurse(nearests, pts, query, 0, n, 0, filter, Ghost(Seq::empty()));
    proof {
        let w = ids@;
        assert(sel_valid(nearests@, w, kdtree@, *query, *filter));
    }
}

impl<const D: usize> KdTree<D> {
    /// The `num` nearest items to `query` among those passing `cond`,
    /// ascending by distance metric; fewer where fewer pass.  An item is
    /// never dropped for a nearer candidate that then fails the filter:
    /// eviction happens only once insertion is confirmed.
    pub fn nearests_with_cond<F: PointFilter<D>>(
        &self,
        query: &KdPoint<D>,
        num: usize,
        cond: &F,
    ) -> (r: Vec<ItemAndDistance<D>>)
        requires
            self.wf(),
            dim_ok::<D>(),
            pts_ok(self@),
            pt_ok(*query),
            num >= 1,
            cond.inv(),
        ensures
            sorted_by_metric(r@),
            r@.len() == min(num as int, pass_count(self@, 0, self@.len() as int, *cond)),
            exists|ids: Seq<int>|
                sel_valid(r@, ids, self@, *query, *cond) && ((pts_cmp(self@) && pt_cmp(*query))
                    ==> sel_complete(r@, ids, self@, *query, *cond, num as nat)),
    {
        let mut buf = CandidateBuffer::new(num);
        kd_nearests(&mut buf, self, query, cond);
        buf.into_vec()
    }

    /// The `num` nearest items to `query`, ascending by distance metric;
    /// all of them where the collection holds fewer than `num`.
    pub fn nearests(&self, query: &KdPoint<D>, num: usize) -> (r: Vec<ItemAndDistance<D>>)
        requires
            self.wf(),
            dim_ok::<D>(),
            pts_ok(self@),
            pt_ok(*query),
            num >= 1,
        ensures
            sorted_by_metric(r@),
            r@.len() == min(num as int, self@.len() as int),
            exists|ids: Seq<int>|
                sel_valid(r@, ids, self@, *query, AllowAll) && ((pts_cmp(self@) && pt_cmp(*query))
                    ==> sel_complete(r@, ids, self@, *query, AllowAll, num as nat)),
    {
        let r = self.nearests_with_cond(query, num, &AllowAll);
        proof {
            let sub = self@.subrange(0, self@.len() as int);
            assert(forall|i: int| 0 <= i < sub.len() ==> pass_fn(AllowAll)(#[trigger] sub[i]));
            crate::within::lemma_filter_all(sub, pass_fn(AllowAll));
            assert(sub =~= self@);
        }
        r
    }

    /// The nearest item to `query`, or `None` on an empty collection.  On
    /// a collection and query free of incomparable coordinates the result
    /// has the least distance metric of the whole collection; when several
    /// items tie, any one of them may come back.
    pub fn nearest(&self, query: &KdPoint<D>) -> (r: Option<ItemAndDistance<D>>)
        requires
            self.wf(),
            dim_ok::<D>(),
            pts_ok(self@),
            pt_ok(*query),
        ensures
            r is Some <==> self@.len() > 0,
            r is Some ==> exists|i: int|
                0 <= i < self@.len() && r->Some_0 == entry_of(self@, *query, i),
            (pts_cmp(self@) && pt_cmp(*query) && r is Some) ==> forall|i: int|
                0 <= i < self@.len() ==> sle(
                    r->Some_0.distance_metric,
                    metric_sp(#[trigger] self@[i], *query),
                ),
    {
        if self.items().len() == 0 {
            return None;
        }
        let mut v = self.nearests(query, 1);
        let ghost vv = v@;
        let r = v.pop();
        proof {
            assert(vv.len() == 1);
            assert(r == Some(vv[0]));
            let ids = choose|ids: Seq<int>|
                sel_valid(vv, ids, self@, *query, AllowAll) && ((pts_cmp(self@) && pt_cmp(*query))
                    ==> forall|i: int|
                    0 <= i < self@.len() && !ids.contains(i) ==> worst_bound(
                        vv,
                        1nat,
                        self@,
                        *query,
                        i,
                    ));
            assert(vv[0] == entry_of(self@, *query, ids[0]));
            if pts_cmp(self@) && pt_cmp(*query) {
                assert forall|i: int| 0 <= i < self@.len() implies sle(
                    vv[0].distance_metric,
                    metric_sp(#[trigger] self@[i], *query),
                ) by {
                    if ids.contains(i) {
                        assert(ids[0] == i);
                        assert(vv[0].distance_metric == metric_sp(self@[i], *query));
                    } else {
                        assert(worst_bound(vv, 1nat, self@, *query, i));
                        assert(vv.last() == vv[0]);
                    }
                }
            }
        }
        r
    }
}


/// The completeness half of a k-nearest result: every passing index left
/// unselected is at least as far as the worst selected entry.
pub open spec fn sel_complete<const D: usize, F: PointFilter<D>>(
    e: Seq<ItemAndDistance<D>>,
    ids: Seq<int>,
    pts: Seq<KdPoint<D>>,
    q: KdPoint<D>,
    f: F,
    cap: nat,
) -> bool {
    forall|i: int|
        0 <= i < pts.len() && f.pass_sp(#[trigger] pts[i]) && !ids.contains(i) ==> worst_bound(
            e,
            cap,
            pts,
            q,
            i,
        )
}

proof fn lemma_nearests_det_one_side<const D: usize, F: PointFilter<D>>(
    e1: Seq<ItemAndDistance<D>>,
    ids1: Seq<int>,
    e2: Seq<ItemAndDistance<D>>,
    ids2: Seq<int>,
    pts: Seq<KdPoint<D>>,
    q: KdPoint<D>,
    f: F,
    cap: nat,
    j: int,
)
    requires
        sorted_by_metric(e1),
        sel_valid(e1, ids1, pts, q, f),
        sel_complete(e1, ids1, pts, q, f, cap),
        sorted_by_metric(e2),
        sel_valid(e2, ids2, pts, q, f),
        e1.len() == e2.len(),
        0 <= j < e1.len(),
    ensures
        sle(e1[j].distance_metric, e2[j].distance_metric),
{
    broadcast use vstd::set::group_set_axioms;
    broadcast use vstd::seq_lib::seq_to_set_is_finite;

    if !sle(e1[j].distance_metric, e2[j].distance_metric) {
        // each of the first j+1 indices of the second selection is nearer
        // than e1[j], so it must sit among the first j of the first
        // selection: one index too many
        let pre2 = ids2.subrange(0, j + 1);
        let pre1 = ids1.subrange(0, j);
        assert(pre2.no_duplicates()) by {
            assert(forall|k: int, l: int|
                0 <= k < l < pre2.len() ==> #[trigger] pre2[k] != #[trigger] pre2[l]);
        }
        pre2.unique_seq_to_set();
        assert forall|x: int| pre2.to_set().contains(x) implies pre1.to_set().contains(x) by {
            assert(pre2.contains(x));
            let k = choose|k: int| 0 <= k < pre2.len() && pre2[k] == x;
            assert(x == ids2[k]);
            assert(e2[k] == entry_of(pts, q, x));
            assert(sle(e2[k].distance_metric, e2[j].distance_metric));
            assert(sle(metric_sp(pts[x], q), e2[j].distance_metric));
            if !ids1.contains(x) {
                assert(worst_bound(e1, cap, pts, q, x));
                assert(sle(e1[j].distance_metric, e1.last().distance_metric));
                assert(sle(e1.last().distance_metric, metric_sp(pts[x], q)));
                assert(sle(e1[j].distance_metric, e2[j].distance_metric));
            }
            let k1 = choose|k1: int| 0 <= k1 < ids1.len() && ids1[k1] == x;
            assert(e1[k1] == entry_of(pts, q, x));
            if k1 >= j {
                assert(sle(e1[j].distance_metric, e1[k1].distance_metric));
                assert(sle(e1[j].distance_metric, e2[j].distance_metric));
            }
            assert(pre1[k1] == x);
            assert(pre1.contains(x));
        }
        vstd::set_lib::lemma_len_subset(pre2.to_set(), pre1.to_set());
        pre1.lemma_cardinality_of_set();
        assert(false);
    }
}

/// Determinism up to tie ambiguity: two sorted, valid and complete
/// k-nearest selections of the same length, drawn from one collection,
/// query, filter and capacity -- as two runs over a rebuilt tree produce --
/// carry surrogate-equal distance metrics position by position.  Rebuilding
/// and re-running can pick different tied items, never different distances.
pub proof fn lemma_nearests_deterministic<const D: usize, F: PointFilter<D>>(
    e1: Seq<ItemAndDistance<D>>,
    ids1: Seq<int>,
    e2: Seq<ItemAndDistance<D>>,
    ids2: Seq<int>,
    pts: Seq<KdPoint<D>>,
    q: KdPoint<D>,
    f: F,
    cap: nat,
)
    requires
        sorted_by_metric(e1),
        sel_valid(e1, ids1, pts, q, f),
        sel_complete(e1, ids1, pts, q, f, cap),
        sorted_by_metric(e2),
        sel_valid(e2, ids2, pts, q, f),
        sel_complete(e2, ids2, pts, q, f, cap),
        e1.len() == e2.len(),
    ensures
        forall|j: int|
            0 <= j < e1.len() ==> sle(#[trigger] e1[j].distance_metric, e2[j].distance_metric)
                && sle(e2[j].distance_metric, e1[j].distance_metric),
{
    assert forall|j: int|
        0 <= j < e1.len() implies sle(#[trigger] e1[j].distance_metric, e2[j].distance_metric)
        && sle(e2[j].distance_metric, e1[j].distance_metric) by {
        lemma_nearests_det_one_side(e1, ids1, e2, ids2, pts, q, f, cap, j);
        lemma_nearests_det_one_side(e2, ids2, e1, ids1, pts, q, f, cap, j);
    }
}

} // verus!
