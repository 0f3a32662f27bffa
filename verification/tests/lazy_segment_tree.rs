use lib::lazy_segment_tree::LazySegmentTree;

type Pair = (i64, i64);

fn pair_sum(a: Pair, b: Pair) -> Pair {
    (a.0 + b.0, a.1 + b.1)
}

fn add_to_all(x: Pair, m: i64) -> Pair {
    (x.0 + m * x.1, x.1)
}

fn add_up(m1: i64, m2: i64) -> i64 {
    m1 + m2
}

#[test]
fn range_add_range_min() {
    let mut t = LazySegmentTree::new(5, |a: i64, b: i64| a.min(b), |x: i64, m: i64| x + m, |p: i64, q: i64| p + q, 0);
    assert_eq!(t.query(0, 4), 0);
    t.reserve(1, 3, 5);
    assert_eq!(t.query(0, 4), 0);
    assert_eq!(t.query(1, 3), 5);
    assert_eq!(t.query(2, 2), 5);
    t.reserve(0, 1, -2);
    assert_eq!(t.query(0, 0), -2);
    assert_eq!(t.query(1, 2), 3);
    assert_eq!(t.query(3, 4), 0);
    assert_eq!(t.query(3, 3), 5);
}

#[test]
fn range_add_range_sum_from_values() {
    let init: Vec<Pair> = vec![(1, 1), (2, 1), (3, 1), (4, 1)];
    let mut t = LazySegmentTree::new_from(4, pair_sum, add_to_all, add_up, &init);
    assert_eq!(t.query(0, 3), (10, 4));
    t.reserve(1, 2, 10);
    assert_eq!(t.query(0, 3), (30, 4));
    assert_eq!(t.query(1, 1), (12, 1));
    assert_eq!(t.query(2, 3), (17, 2));
    t.reserve(0, 3, -1);
    assert_eq!(t.query(0, 3), (26, 4));
    assert_eq!(t.query(0, 0), (0, 1));
}

#[test]
fn new_from_pads_with_first_value() {
    // five values over eight leaves: the last three hold the first value
    let init: Vec<Pair> = vec![(7, 1), (1, 1), (2, 1), (3, 1), (4, 1)];
    let mut t = LazySegmentTree::new_from(5, pair_sum, add_to_all, add_up, &init);
    assert_eq!(t.query(0, 4), (17, 5));
    assert_eq!(t.query(0, 7), (38, 8));
    assert_eq!(t.query(5, 100), (21, 3));
}

#[test]
fn overlapping_updates_compose() {
    let init: Vec<Pair> = vec![(0, 1); 8];
    let mut t = LazySegmentTree::new_from(8, pair_sum, add_to_all, add_up, &init);
    t.reserve(0, 7, 1);
    t.reserve(2, 5, 2);
    t.reserve(4, 4, 3);
    t.reserve(5, 7, -1);
    let expect = [1, 1, 3, 3, 6, 2, 0, 0];
    for (i, e) in expect.iter().enumerate() {
        assert_eq!(t.query(i, i), (*e, 1));
    }
    assert_eq!(t.query(0, 7), (16, 8));
    assert_eq!(t.query(3, 5), (11, 3));
}

#[test]
fn reserve_with_empty_range_changes_nothing() {
    let init: Vec<Pair> = vec![(1, 1), (2, 1), (3, 1), (4, 1)];
    let mut t = LazySegmentTree::new_from(4, pair_sum, add_to_all, add_up, &init);
    t.reserve(3, 1, 100);
    assert_eq!(t.query(0, 3), (10, 4));
    t.reserve(6, 9, 100);
    assert_eq!(t.query(0, 3), (10, 4));
}

#[test]
fn set_then_build_rebuilds_inner_nodes() {
    let mut t = LazySegmentTree::new(4, pair_sum, add_to_all, add_up, (0, 1));
    t.set(0, (5, 1));
    t.set(3, (7, 1));
    t.build();
    assert_eq!(t.query(0, 3), (12, 4));
    assert_eq!(t.query(1, 2), (0, 2));
}

#[test]
fn init_all_resets_leaves() {
    let init: Vec<Pair> = vec![(1, 1), (2, 1), (3, 1), (4, 1)];
    let mut t = LazySegmentTree::new_from(4, pair_sum, add_to_all, add_up, &init);
    t.init_all((9, 1));
    assert_eq!(t.query(0, 3), (36, 4));
    assert_eq!(t.query(2, 2), (9, 1));
}

#[test]
fn lazy_eval_pushes_pending_update() {
    let init: Vec<Pair> = vec![(1, 1), (2, 1), (3, 1), (4, 1)];
    let mut t = LazySegmentTree::new_from(4, pair_sum, add_to_all, add_up, &init);
    t.reserve(0, 3, 5);
    // evaluating the nodes changes none of the values
    for node in 0..7 {
        t.lazy_eval(node);
    }
    assert_eq!(t.query(0, 3), (30, 4));
    assert_eq!(t.query(1, 2), (15, 2));
}

#[test]
fn sub_calls_on_half_open_ranges() {
    let init: Vec<Pair> = vec![(1, 1), (2, 1), (3, 1), (4, 1)];
    let mut t = LazySegmentTree::new_from(4, pair_sum, add_to_all, add_up, &init);
    t.reserve_sub(1, 3, 100, 0, 0, 4);
    assert_eq!(t.query_sub(0, 4, 0, 0, 4), (210, 4));
    assert_eq!(t.query_sub(1, 2, 0, 0, 4), (102, 1));
    // the left child of the root covers leaves 0..2
    assert_eq!(t.query_sub(0, 2, 1, 0, 2), (103, 2));
}

#[test]
fn lazy_eval_on_padding_node_changes_no_value() {
    let init: Vec<Pair> = vec![(1, 1), (2, 1), (3, 1), (4, 1)];
    let mut t = LazySegmentTree::new_from(4, pair_sum, add_to_all, add_up, &init);
    t.reserve(0, 1, 3);
    // nodes 7..16 lie past the tree of four leaves
    for node in 7..16 {
        t.lazy_eval(node);
    }
    assert_eq!(t.query(0, 3), (16, 4));
    assert_eq!(t.query(1, 1), (5, 1));
}

#[test]
fn query_without_pending_needs_only_associativity() {
    // appending digits is associative; the update (replace by the digit
    // count) does not distribute, but no update is ever queued
    let cat = |a: (i64, i64), b: (i64, i64)| (a.0 * b.1 + b.0, a.1 * b.1);
    let upd = |x: (i64, i64), _m: i64| (x.1, x.1);
    let init: Vec<(i64, i64)> = vec![(1, 10), (2, 10), (3, 10), (4, 10)];
    let mut t = LazySegmentTree::new_from(4, cat, upd, |p: i64, q: i64| p + q, &init);
    assert_eq!(t.query(0, 3), (1234, 10_000));
    assert_eq!(t.query(1, 2), (23, 100));
    assert_eq!(t.query(2, 3), (34, 100));
}

#[test]
fn reserve_outside_the_range_keeps_values() {
    let init: Vec<Pair> = vec![(1, 1), (2, 1), (3, 1), (4, 1)];
    let mut t = LazySegmentTree::new_from(4, pair_sum, add_to_all, add_up, &init);
    t.reserve_sub(2, 2, 50, 0, 0, 4);
    t.reserve_sub(0, 2, 7, 2, 2, 4);
    assert_eq!(t.query(0, 3), (10, 4));
}

#[test]
fn leaf_num_is_the_power_of_two() {
    let t = LazySegmentTree::new(5, pair_sum, add_to_all, add_up, (0, 1));
    assert_eq!(t.leaf_num(), 8);
    let u = LazySegmentTree::new(4, pair_sum, add_to_all, add_up, (0, 1));
    assert_eq!(u.leaf_num(), 4);
}

#[test]
fn query_follows_the_algorithm_without_the_laws() {
    // multiplying updates concatenated by addition: the updates do not
    // compose, and the answers are what the propagation computes
    let init: Vec<i64> = vec![1, 2, 3, 4];
    let mut t = LazySegmentTree::new_from(4, |a: i64, b: i64| a + b, |x: i64, m: i64| x * m, |p: i64, q: i64| p + q, &init);
    t.reserve(0, 3, 2);
    assert_eq!(t.query(0, 1), 6);
    t.reserve(0, 1, 3);
    assert_eq!(t.query(0, 3), 32);
    assert_eq!(t.query(0, 0), 5);
}
