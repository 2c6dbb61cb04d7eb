use one_weekend_raytracer::bvh::{sort_range_along, BvhTree};
use one_weekend_raytracer::order_key::total_order_key;

fn keys_from_x(xs: &[f32]) -> Vec<[u32; 3]> {
    xs.iter().map(|x| [x.to_bits(), 0f32.to_bits(), 0f32.to_bits()]).collect()
}

fn members(tree: &BvhTree) -> Vec<usize> {
    match tree {
        BvhTree::Object(i) => vec![*i],
        BvhTree::Node { left, right, .. } => match (left.as_ref(), right.as_ref()) {
            (BvhTree::Object(a), BvhTree::Object(b)) if a == b => vec![*a],
            _ => {
                let mut m = members(left);
                m.extend(members(right));
                m
            }
        },
    }
}

fn key_x(keys: &[[u32; 3]], obj: usize) -> u32 {
    total_order_key(keys[obj][0])
}

fn check_splits(tree: &BvhTree, keys: &[[u32; 3]]) {
    if let BvhTree::Node { axis, left, right } = tree {
        let (l, r) = (members(left), members(right));
        if l.len() + r.len() >= 3 {
            assert_eq!(l.len(), (l.len() + r.len()) / 2);
            for &a in &l {
                for &b in &r {
                    assert!(total_order_key(keys[a][*axis]) <= total_order_key(keys[b][*axis]));
                }
            }
        }
        check_splits(left, keys);
        check_splits(right, keys);
    }
}

#[test]
fn single_object_is_both_children() {
    let keys = keys_from_x(&[3.0]);
    let tree = BvhTree::build(&keys, &|_ids: &Vec<usize>| 0);
    match tree {
        BvhTree::Node { left, right, .. } => {
            assert!(matches!(*left, BvhTree::Object(0)));
            assert!(matches!(*right, BvhTree::Object(0)));
        }
        BvhTree::Object(_) => panic!("the root is a node"),
    }
}

#[test]
fn two_objects_keep_their_order() {
    let keys = keys_from_x(&[5.0, -5.0]);
    let tree = BvhTree::build(&keys, &|_ids: &Vec<usize>| 0);
    match tree {
        BvhTree::Node { left, right, .. } => {
            assert!(matches!(*left, BvhTree::Object(0)));
            assert!(matches!(*right, BvhTree::Object(1)));
        }
        BvhTree::Object(_) => panic!("the root is a node"),
    }
}

#[test]
fn every_object_is_a_leaf_exactly_once() {
    let xs: Vec<f32> = vec![4.0, -1.5, 9.25, 0.0, -7.0, 3.5, 3.5, 12.0, -0.25, 6.0, 1.0];
    let keys = keys_from_x(&xs);
    let tree = BvhTree::build(&keys, &|_ids: &Vec<usize>| 0);
    let mut m = members(&tree);
    assert_eq!(m.len(), xs.len());
    m.sort();
    assert_eq!(m, (0..xs.len()).collect::<Vec<_>>());
}

#[test]
fn leaves_come_out_sorted_along_the_chosen_axis() {
    let xs: Vec<f32> = vec![4.0, -1.5, 9.25, 0.0, -7.0, 3.5, 12.0, -0.25];
    let keys = keys_from_x(&xs);
    let tree = BvhTree::build(&keys, &|_ids: &Vec<usize>| 0);
    let m = members(&tree);
    for w in m.windows(2) {
        assert!(xs[w[0]] <= xs[w[1]]);
    }
    assert_eq!(m, vec![4, 1, 7, 3, 5, 0, 2, 6]);
    check_splits(&tree, &keys);
}

#[test]
fn nodes_record_the_oracle_axis() {
    let keys: Vec<[u32; 3]> = (0..6)
        .map(|i| [(i as f32).to_bits(), (-(i as f32)).to_bits(), 1f32.to_bits()])
        .collect();
    let tree = BvhTree::build(&keys, &|_ids: &Vec<usize>| 1);
    match &tree {
        BvhTree::Node { axis, .. } => assert_eq!(*axis, 1),
        BvhTree::Object(_) => panic!("the root is a node"),
    }
    // sorted along y, which runs the other way
    assert_eq!(members(&tree), vec![5, 4, 3, 2, 1, 0]);
    check_splits(&tree, &keys);
}

#[test]
fn oracle_sees_each_node_objects() {
    let keys = keys_from_x(&[2.0, 1.0, 0.0, 3.0, 5.0]);
    let tree = BvhTree::build(&keys, &|ids: &Vec<usize>| {
        assert!(!ids.is_empty() && ids.len() <= 5);
        0
    });
    assert_eq!(members(&tree), vec![2, 1, 0, 3, 4]);
}

#[test]
fn equal_keys_keep_their_order() {
    let mut order: Vec<usize> = vec![0, 1, 2, 3, 4];
    let keys = keys_from_x(&[1.0, 0.0, 1.0, 0.0, 1.0]);
    sort_range_along(&mut order, 0, 5, &keys, 0);
    assert_eq!(order, vec![1, 3, 0, 2, 4]);
}

#[test]
fn sort_leaves_the_rest_alone() {
    let mut order: Vec<usize> = vec![4, 3, 2, 1, 0];
    let keys = keys_from_x(&[0.0, 1.0, 2.0, 3.0, 4.0]);
    sort_range_along(&mut order, 1, 4, &keys, 0);
    assert_eq!(order, vec![4, 1, 2, 3, 0]);
    for w in order[1..4].windows(2) {
        assert!(key_x(&keys, w[0]) <= key_x(&keys, w[1]));
    }
}

#[test]
fn negative_minima_sort_before_positive() {
    let mut order: Vec<usize> = vec![0, 1, 2, 3];
    let keys = keys_from_x(&[1.0, -2.0, -0.5, f32::NEG_INFINITY]);
    sort_range_along(&mut order, 0, 4, &keys, 0);
    assert_eq!(order, vec![3, 1, 2, 0]);
}

/// Nearest distance in `[lo, hi]` among an object's hit distances.
fn object_hit(ds: &[i64], lo: i64, hi: i64) -> Option<i64> {
    ds.iter().copied().filter(|&d| lo <= d && d <= hi).min()
}

fn tree_hit(tree: &BvhTree, hits: &[Vec<i64>], lo: i64, hi: i64) -> Option<i64> {
    match tree {
        BvhTree::Object(i) => object_hit(&hits[*i], lo, hi),
        BvhTree::Node { left, right, .. } => {
            let l = tree_hit(left, hits, lo, hi);
            let r = tree_hit(right, hits, lo, l.unwrap_or(hi));
            r.or(l)
        }
    }
}

fn scan_hit(hits: &[Vec<i64>], lo: i64, hi: i64) -> Option<i64> {
    let mut best = None;
    let mut closest = hi;
    for ds in hits {
        if let Some(t) = object_hit(ds, lo, closest) {
            closest = t;
            best = Some(t);
        }
    }
    best
}

#[test]
fn hierarchy_and_scan_find_the_same_nearest_hit() {
    // objects along x, each met by the ray at a few distances
    let xs: Vec<f32> = vec![3.0, -2.0, 8.0, 0.5, 5.0, -6.0, 1.0];
    let hits: Vec<Vec<i64>> = vec![vec![30, 34], vec![12], vec![], vec![7, 9], vec![50, 41], vec![7], vec![100]];
    let keys = keys_from_x(&xs);
    let tree = BvhTree::build(&keys, &|_ids: &Vec<usize>| 0);
    for (lo, hi) in [(0, 1000), (8, 1000), (10, 40), (0, 6), (42, 99), (7, 7), (31, 33)] {
        assert_eq!(tree_hit(&tree, &hits, lo, hi), scan_hit(&hits, lo, hi), "[{lo}, {hi}]");
    }
    assert_eq!(tree_hit(&tree, &hits, 0, 1000), Some(7));
    assert_eq!(tree_hit(&tree, &hits, 31, 33), None);
}

#[test]
fn large_build_holds_every_object() {
    let n = 20_000;
    let xs: Vec<f32> = (0..n).map(|i| ((i * 7919) % 1000) as f32 - 500.0).collect();
    let keys = keys_from_x(&xs);
    let tree = BvhTree::build(&keys, &|_ids: &Vec<usize>| 0);
    let m = members(&tree);
    assert_eq!(m.len(), n);
    for w in m.windows(2) {
        assert!(xs[w[0]] <= xs[w[1]]);
        if xs[w[0]] == xs[w[1]] {
            assert!(w[0] < w[1], "equal keys keep their input order");
        }
    }
    check_splits(&tree, &keys);
}

#[test]
fn three_objects_split_one_and_two() {
    let keys = keys_from_x(&[2.0, 0.0, 1.0]);
    let tree = BvhTree::build(&keys, &|_ids: &Vec<usize>| 0);
    match tree {
        BvhTree::Node { left, right, .. } => {
            match *left {
                BvhTree::Node { left: ref a, right: ref b, .. } => {
                    assert!(matches!(**a, BvhTree::Object(1)));
                    assert!(matches!(**b, BvhTree::Object(1)));
                }
                BvhTree::Object(_) => panic!("left is a node"),
            }
            match *right {
                BvhTree::Node { left: ref a, right: ref b, .. } => {
                    assert!(matches!(**a, BvhTree::Object(2)));
                    assert!(matches!(**b, BvhTree::Object(0)));
                }
                BvhTree::Object(_) => panic!("right is a node"),
            }
        }
        BvhTree::Object(_) => panic!("the root is a node"),
    }
}
