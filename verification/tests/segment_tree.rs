use lib::segment_tree::SegmentTree;

fn sum_tree(vals: &[i64]) -> SegmentTree<i64, fn(i64, i64) -> i64> {
    let add: fn(i64, i64) -> i64 = |a, b| a + b;
    let mut t = SegmentTree::new(vals.len(), add, 0);
    for (i, v) in vals.iter().enumerate() {
        t.set(i, *v);
    }
    t
}

#[test]
fn new_fills_leaves_with_initial_value() {
    let t = SegmentTree::new(5, |a: i64, b: i64| a.min(b), 7);
    for i in 0..8 {
        assert_eq!(t.get(i), 7);
    }
    assert_eq!(t.query(0, 4), 7);
}

#[test]
fn set_and_get_leaves() {
    let mut t = SegmentTree::new(4, |a: i64, b: i64| a + b, 0);
    t.set(2, 9);
    assert_eq!(t.get(2), 9);
    assert_eq!(t.get(1), 0);
    t.set(2, -3);
    assert_eq!(t.get(2), -3);
}

#[test]
fn sum_queries_over_closed_ranges() {
    let t = sum_tree(&[5, 3, 7, 9, 6, 4, 1, 2]);
    assert_eq!(t.query(0, 7), 37);
    assert_eq!(t.query(0, 0), 5);
    assert_eq!(t.query(1, 3), 19);
    assert_eq!(t.query(2, 5), 26);
    assert_eq!(t.query(7, 7), 2);
    assert_eq!(t.query(3, 6), 20);
}

#[test]
fn query_clips_to_the_leaves() {
    let t = sum_tree(&[1, 2, 3, 4, 5]);
    // five values over eight leaves, the rest holding the initial 0
    assert_eq!(t.query(0, 100), 15);
    assert_eq!(t.query(3, 7), 9);
    assert_eq!(t.query(5, 7), 0);
}

#[test]
fn min_queries_after_updates() {
    let mut t = SegmentTree::new(6, |a: i64, b: i64| a.min(b), i64::MAX);
    let vals = [8, 3, 9, 1, 7, 5];
    for (i, v) in vals.iter().enumerate() {
        t.set(i, *v);
    }
    assert_eq!(t.query(0, 5), 1);
    assert_eq!(t.query(0, 2), 3);
    assert_eq!(t.query(4, 5), 5);
    t.set(3, 10);
    assert_eq!(t.query(0, 5), 3);
    assert_eq!(t.query(2, 4), 7);
}

#[test]
fn query_sub_on_half_open_range() {
    let t = sum_tree(&[1, 2, 3, 4]);
    assert_eq!(t.query_sub(1, 3, 0, 0, 4), 5);
    assert_eq!(t.query_sub(0, 4, 0, 0, 4), 10);
    // the right child of the root covers leaves 2..4
    assert_eq!(t.query_sub(2, 3, 2, 2, 4), 3);
}

#[test]
fn non_commutative_operation_keeps_order() {
    // appending digits: (value, 10^digits), associative but not commutative
    let cat = |a: (i64, i64), b: (i64, i64)| (a.0 * b.1 + b.0, a.1 * b.1);
    let mut t = SegmentTree::new(4, cat, (0, 1));
    for i in 0..4 {
        t.set(i, ((i + 1) as i64, 10));
    }
    assert_eq!(t.query(0, 3), (1234, 10_000));
    assert_eq!(t.query(1, 2), (23, 100));
    assert_eq!(t.query(2, 2), (3, 10));
}

#[test]
fn single_leaf_tree() {
    let mut t = SegmentTree::new(1, |a: i64, b: i64| a + b, 0);
    t.set(0, 42);
    assert_eq!(t.get(0), 42);
    assert_eq!(t.query(0, 0), 42);
}

#[test]
fn segment_tree_clone_is_independent() {
    let t = sum_tree(&[1, 2, 3, 4]);
    let mut u = t.clone();
    u.set(0, 10);
    assert_eq!(t.query(0, 3), 10);
    assert_eq!(u.query(0, 3), 19);
}

#[test]
fn segment_tree_leaf_num() {
    let t = SegmentTree::new(5, |a: i64, b: i64| a + b, 0);
    assert_eq!(t.leaf_num(), 8);
}
