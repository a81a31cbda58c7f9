use kd_tree::{CoordBelow, ItemAndDistance, KdPoint, KdTree, Scalar};
use rand::Rng;

const LIMIT: i64 = 16777216;

fn sv(x: i64) -> Scalar {
    Scalar::Value(x)
}

fn val(s: Scalar) -> i64 {
    match s {
        Scalar::Value(x) => x,
        Scalar::Incomparable => panic!("incomparable scalar"),
    }
}

fn squared_distance(p1: &KdPoint<3>, p2: &KdPoint<3>) -> i64 {
    let mut sum: i64 = 0;
    for k in 0..3 {
        let d = val(p1.coords[k]) - val(p2.coords[k]);
        sum += d * d;
    }
    sum
}

fn random3d_generator() -> impl FnMut() -> KdPoint<3> {
    let mut rng = rand::thread_rng();
    move || KdPoint {
        coords: [
            sv(rng.gen_range(-LIMIT..=LIMIT)),
            sv(rng.gen_range(-LIMIT..=LIMIT)),
            sv(rng.gen_range(-LIMIT..=LIMIT)),
        ],
    }
}

fn vec<T>(count: usize, mut f: impl FnMut(usize) -> T) -> Vec<T> {
    let mut items = Vec::with_capacity(count);
    for i in 0..count {
        items.push(f(i));
    }
    items
}

#[test]
fn test_nearest() {
    let mut gen3d = random3d_generator();
    let kdtree = KdTree::build(vec(10000, |_| gen3d()));
    for _ in 0..100 {
        let query = gen3d();
        let found = kdtree.nearest(&query).unwrap().item;
        let expected = kdtree
            .items()
            .iter()
            .map(|p| squared_distance(p, &query))
            .min()
            .unwrap();
        assert_eq!(squared_distance(&found, &query), expected);
    }
}

#[test]
fn test_nearests() {
    let mut gen3d = random3d_generator();
    let kdtree = KdTree::build(vec(10000, |_| gen3d()));
    const NUM: usize = 5;
    for _ in 0..100 {
        let query = gen3d();
        let found = kdtree.nearests(&query, NUM);
        assert_eq!(found.len(), NUM);
        for i in 1..found.len() {
            assert!(val(found[i - 1].distance_metric) <= val(found[i].distance_metric));
        }
        let count = kdtree
            .items()
            .iter()
            .filter(|p| squared_distance(p, &query) <= val(found[NUM - 1].distance_metric))
            .count();
        assert_eq!(count, NUM);
    }
}

#[test]
fn test_nearests_with_cond() {
    let mut gen3d = random3d_generator();
    let kdtree = KdTree::build(vec(10000, |_| gen3d()));
    const NUM: usize = 50;
    let limit: i64 = -13000000;
    let cond = CoordBelow { axis: 0, limit: sv(limit) };
    for _ in 0..100 {
        let query = gen3d();
        let found = kdtree.nearests_with_cond(&query, NUM, &cond);
        for point in &found {
            assert!(val(point.item.coords[0]) < limit);
        }
        for i in 1..found.len() {
            assert!(val(found[i - 1].distance_metric) <= val(found[i].distance_metric));
        }
        let mut all = kdtree
            .items()
            .iter()
            .map(|item| ItemAndDistance {
                item: *item,
                distance_metric: sv(squared_distance(item, &query)),
            })
            .filter(|i_d| {
                val(i_d.item.coords[0]) < limit
                    && val(i_d.distance_metric)
                        <= val(found.last().unwrap().distance_metric)
            })
            .collect::<Vec<_>>();
        all.sort_by_key(|i_d| val(i_d.distance_metric));
        assert_eq!(found.len(), all.len().min(NUM));
    }
}

#[test]
fn test_within() {
    let mut gen3d = random3d_generator();
    let kdtree = KdTree::build(vec(10000, |_| gen3d()));
    for _ in 0..100 {
        let mut p1 = gen3d();
        let mut p2 = gen3d();
        for k in 0..3 {
            if val(p1.coords[k]) > val(p2.coords[k]) {
                let tmp = p1.coords[k];
                p1.coords[k] = p2.coords[k];
                p2.coords[k] = tmp;
            }
        }
        let found = kdtree.within(&p1, &p2);
        let count = kdtree
            .items()
            .iter()
            .filter(|p| {
                (0..3).all(|k| {
                    val(p1.coords[k]) <= val(p.coords[k]) && val(p.coords[k]) <= val(p2.coords[k])
                })
            })
            .count();
        assert_eq!(found.len(), count);
    }
}

#[test]
fn test_within_radius() {
    let mut gen3d = random3d_generator();
    let kdtree = KdTree::build(vec(10000, |_| gen3d()));
    const RADIUS: i64 = 1000000;
    for _ in 0..100 {
        let query = gen3d();
        let found = kdtree.within_radius(&query, sv(RADIUS));
        let count = kdtree
            .items()
            .iter()
            .filter(|p| squared_distance(p, &query) < RADIUS * RADIUS)
            .count();
        assert_eq!(found.len(), count);
    }
}
