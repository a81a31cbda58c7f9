use kd_tree::{CoordBelow, KdPoint, KdTree, OrdHelper, Scalar};
use std::cmp::Ordering;

fn sv(x: i64) -> Scalar {
    Scalar::Value(x)
}

fn p3(x: i64, y: i64, z: i64) -> KdPoint<3> {
    KdPoint { coords: [sv(x), sv(y), sv(z)] }
}

fn p1(x: i64) -> KdPoint<1> {
    KdPoint { coords: [sv(x)] }
}

fn val(s: Scalar) -> i64 {
    match s {
        Scalar::Value(x) => x,
        Scalar::Incomparable => panic!("incomparable scalar"),
    }
}

// The three fixed points of the scenarios, with every coordinate scaled by
// ten so that the queries' tenths stay exact in integer coordinates.
fn scenario_tree() -> KdTree<3> {
    KdTree::build(vec![p3(10, 20, 30), p3(30, 10, 20), p3(20, 30, 10)])
}

#[test]
fn scenario_nearest() {
    let kdtree = scenario_tree();
    let found = kdtree.nearest(&p3(31, 9, 21)).unwrap();
    assert_eq!(found.item, p3(30, 10, 20));
    assert_eq!(val(found.distance_metric), 3);
}

#[test]
fn scenario_nearest_k() {
    let kdtree = scenario_tree();
    let found = kdtree.nearests(&p3(15, 25, 18), 2);
    assert_eq!(found.len(), 2);
    assert_eq!(found[0].item, p3(20, 30, 10));
    assert_eq!(found[1].item, p3(10, 20, 30));
}

#[test]
fn scenario_within_radius() {
    let kdtree = scenario_tree();
    let found = kdtree.within_radius(&p3(20, 15, 25), sv(15));
    assert_eq!(found.len(), 2);
    assert!(found.iter().any(|p| *p == p3(10, 20, 30)));
    assert!(found.iter().any(|p| *p == p3(30, 10, 20)));
}

#[test]
fn scenario_within_box() {
    let kdtree = scenario_tree();
    let found = kdtree.within(&p3(10, 10, 10), &p3(25, 30, 30));
    assert_eq!(found.len(), 2);
    assert!(found.iter().any(|p| *p == p3(10, 20, 30)));
    assert!(found.iter().any(|p| *p == p3(20, 30, 10)));
}

#[test]
fn scenario_box_reversed_corners() {
    let kdtree = scenario_tree();
    let found = kdtree.within(&p3(25, 30, 30), &p3(10, 10, 10));
    assert_eq!(found.len(), 0);
}

// A filtered search may never return more than the requested count, and
// returns exactly the passing count where that is smaller.  A candidate
// nearer than the worst kept entry but failing the filter must not shrink
// the buffer: eviction happens only once insertion is confirmed.
#[test]
fn scenario_filter_eviction() {
    let points: Vec<KdPoint<1>> = (0..10).map(p1).collect();
    let kdtree = KdTree::build(points);
    let query = p1(9);
    // passing items: 0, 1, 2 -- all far from the query; the nearer items
    // 3..=9 fail the filter and tempt the buffer into early eviction
    let cond = CoordBelow { axis: 0, limit: sv(3) };
    let found = kdtree.nearests_with_cond(&query, 2, &cond);
    assert_eq!(found.len(), 2);
    assert_eq!(found[0].item, p1(2));
    assert_eq!(found[1].item, p1(1));
    let found = kdtree.nearests_with_cond(&query, 5, &cond);
    assert_eq!(found.len(), 3);
    for k in 2..=9 {
        let found = kdtree.nearests_with_cond(&query, k, &CoordBelow { axis: 0, limit: sv(8) });
        assert_eq!(found.len(), k.min(8));
        assert!(found.len() <= k);
    }
}

// Rebuilding from an identical copy of the same input and re-running any
// query yields identical results.
#[test]
fn scenario_determinism() {
    let input: Vec<KdPoint<3>> = (0..500)
        .map(|i: i64| p3((i * 37) % 101 - 50, (i * 59) % 103 - 51, (i * 83) % 107 - 53))
        .collect();
    let t1 = KdTree::build(input.clone());
    let t2 = KdTree::build(input);
    assert_eq!(t1.items(), t2.items());
    let query = p3(1, -2, 3);
    assert_eq!(t1.nearest(&query), t2.nearest(&query));
    assert_eq!(t1.nearests(&query, 7), t2.nearests(&query, 7));
    assert_eq!(t1.within(&p3(-10, -10, -10), &p3(10, 10, 10)), t2.within(
        &p3(-10, -10, -10),
        &p3(10, 10, 10),
    ));
    assert_eq!(t1.within_radius(&query, sv(20)), t2.within_radius(&query, sv(20)));
}

// Incomparable coordinates never crash construction or any query path.
#[test]
fn scenario_incomparable_coordinates() {
    let nan = Scalar::Incomparable;
    let mut points = vec![
        KdPoint { coords: [nan, sv(2), sv(3)] },
        p3(3, 1, 2),
        KdPoint { coords: [sv(2), nan, nan] },
        p3(1, 2, 3),
        KdPoint { coords: [nan, nan, nan] },
    ];
    for i in 0..50 {
        points.push(p3(i, 50 - i, i * 2));
    }
    let kdtree = KdTree::build(points);
    let query = p3(2, 2, 2);
    let found = kdtree.nearest(&query);
    assert!(found.is_some());
    let found = kdtree.nearests(&query, 10);
    assert_eq!(found.len(), 10);
    let nan_query = KdPoint { coords: [nan, nan, nan] };
    let found = kdtree.nearest(&nan_query);
    assert!(found.is_some());
    let _ = kdtree.nearests(&nan_query, 3);
    let _ = kdtree.within(&p3(0, 0, 0), &p3(10, 10, 10));
    let _ = kdtree.within(&nan_query, &p3(10, 10, 10));
    let _ = kdtree.within_radius(&query, sv(5));
    let _ = kdtree.within_radius(&nan_query, sv(5));
    let _ = kdtree.within_radius(&query, nan);
}

#[test]
fn nearest_on_empty_tree() {
    let kdtree = KdTree::<3>::build(Vec::new());
    assert!(kdtree.nearest(&p3(1, 2, 3)).is_none());
    assert_eq!(kdtree.within_radius(&p3(1, 2, 3), sv(10)).len(), 0);
}

#[test]
fn into_inner_returns_permutation() {
    let input = vec![p3(5, 5, 5), p3(1, 1, 1), p3(3, 3, 3)];
    let kdtree = KdTree::build(input.clone());
    let mut inner = kdtree.into_inner();
    let mut orig = input;
    let key = |p: &KdPoint<3>| (val(p.coords[0]), val(p.coords[1]), val(p.coords[2]));
    inner.sort_by_key(key);
    orig.sort_by_key(key);
    assert_eq!(inner, orig);
}

#[test]
fn ord_helper_orders_incomparables_last() {
    let a = OrdHelper(sv(1));
    let b = OrdHelper(sv(2));
    let n = OrdHelper(Scalar::Incomparable);
    assert_eq!(a.cmp(&b), Ordering::Less);
    assert_eq!(b.cmp(&a), Ordering::Greater);
    assert_eq!(a.cmp(&a), Ordering::Equal);
    assert_eq!(a.cmp(&n), Ordering::Less);
    assert_eq!(n.cmp(&a), Ordering::Greater);
    assert_eq!(n.cmp(&n), Ordering::Equal);
    assert_eq!(a.partial_cmp(&n), Some(Ordering::Less));
    assert!(n.eq(&n));
    assert!(!a.eq(&n));
}

#[test]
fn distance_metric_and_transform() {
    let p = p3(1, 2, 3);
    let q = p3(4, 6, 3);
    assert_eq!(val(p.distance_metric(&q)), 9 + 16);
    assert_eq!(val(KdPoint::<3>::from_distance_to_metric(sv(-5))), 25);
    assert_eq!(
        KdPoint::<3>::from_distance_to_metric(Scalar::Incomparable),
        Scalar::Incomparable
    );
    assert_eq!(p.distance_metric(&KdPoint { coords: [sv(1), Scalar::Incomparable, sv(3)] }),
        Scalar::Incomparable);
    assert_eq!(KdPoint::<3>::dim(), 3);
    assert_eq!(p.at(1), sv(2));
}
