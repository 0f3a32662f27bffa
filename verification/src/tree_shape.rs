//! The shape shared by the segment trees: a complete binary tree stored in
//! an array, node `k` with children `2k + 1` and `2k + 2`, over `n2` leaves
//! (a power of two) stored from index `n2 - 1`.
use vstd::prelude::*;
use vstd::arithmetic::div_mod::*;
use vstd::arithmetic::mul::*;

verus! {

/// `w` is a power of two.
pub open spec fn is_pow2(w: int) -> bool
    decreases w,
{
    if w <= 0 {
        false
    } else if w == 1 {
        true
    } else {
        w % 2 == 0 && is_pow2(w / 2)
    }
}

/// Node `k` of the tree over `n2` leaves covers the leaves `l..r`.
pub open spec fn tree_node(n2: int, k: int, l: int, r: int) -> bool {
    let w = r - l;
    &&& is_pow2(w)
    &&& 0 <= l
    &&& r <= n2
    &&& l % w == 0
    &&& (k + 1) * w == n2 + l
}

/// The parent of node `x`.
pub open spec fn parent(x: int) -> int {
    (x - 1) / 2
}

/// Node `k` lies on the path from node `x` up to the root (`x` included).
pub open spec fn on_path(k: int, x: int) -> bool
    decreases x,
{
    if x < 0 {
        false
    } else if k == x {
        true
    } else if x == 0 {
        false
    } else {
        on_path(k, parent(x))
    }
}

/// The array index of leaf `i`.
pub open spec fn leaf_index(n2: int, i: int) -> int {
    n2 - 1 + i
}

/// The leaves of the tree stored in `nodes`.
pub open spec fn leaves<T>(nodes: Seq<T>, n2: int) -> Seq<T> {
    nodes.subrange(n2 - 1, 2 * n2 - 1)
}

/// Fold a non-empty sequence from the left with `op`.
pub open spec fn fold1<T>(op: spec_fn(T, T) -> T, s: Seq<T>) -> T
    decreases s.len(),
{
    if s.len() <= 1 {
        s[0]
    } else {
        op(fold1(op, s.drop_last()), s.last())
    }
}

/// `op` is associative.
pub open spec fn associative<T>(op: spec_fn(T, T) -> T) -> bool {
    forall|a: T, b: T, c: T| #[trigger] op(op(a, b), c) == op(a, op(b, c))
}

/// Internal node `k` holds the combination of its children.
pub open spec fn combined<T>(op: spec_fn(T, T) -> T, nodes: Seq<T>, k: int) -> bool {
    nodes[k] == op(nodes[2 * k + 1], nodes[2 * k + 2])
}

/// Every internal node holds the combination of its children.
pub open spec fn all_combined<T>(op: spec_fn(T, T) -> T, nodes: Seq<T>, n2: int) -> bool {
    forall|k: int| 0 <= k < n2 - 1 ==> #[trigger] combined(op, nodes, k)
}

/// Folding a concatenation folds the parts and combines them.
pub proof fn lemma_fold1_concat<T>(op: spec_fn(T, T) -> T, s1: Seq<T>, s2: Seq<T>)
    requires
        associative(op),
        s1.len() >= 1,
        s2.len() >= 1,
    ensures
        fold1(op, s1 + s2) == op(fold1(op, s1), fold1(op, s2)),
    decreases s2.len(),
{
    let s = s1 + s2;
    if s2.len() == 1 {
        assert(s.drop_last() =~= s1);
    } else {
        assert(s.drop_last() =~= s1 + s2.drop_last());
        lemma_fold1_concat(op, s1, s2.drop_last());
        assert(op(op(fold1(op, s1), fold1(op, s2.drop_last())), s2.last()) == op(
            fold1(op, s1),
            op(fold1(op, s2.drop_last()), s2.last()),
        ));
    }
}

/// Halving a power of two at least two gives a power of two.
pub proof fn lemma_pow2_half(w: int)
    requires
        is_pow2(w),
        w >= 2,
    ensures
        w % 2 == 0,
        is_pow2(w / 2),
        w / 2 >= 1,
{
}

/// The children of an internal node cover the two halves of its leaves; a
/// node covering a single leaf is that leaf.
pub proof fn lemma_tree_node(n2: int, k: int, l: int, r: int)
    requires
        tree_node(n2, k, l, r),
    ensures
        0 <= k < 2 * n2 - 1,
        r - l == 1 ==> k == n2 - 1 + l,
        r - l >= 2 ==> ({
            let m = (l + r) / 2;
            &&& k < n2 - 1
            &&& l < m < r
            &&& m - l == r - m
            &&& tree_node(n2, 2 * k + 1, l, m)
            &&& tree_node(n2, 2 * k + 2, m, r)
        }),
{
    let w = r - l;
    assert(w >= 1);
    assert(k >= 0) by (nonlinear_arith)
        requires (k + 1) * w == n2 + l, w >= 1, l >= 0, n2 >= r, r > l;
    assert(k < 2 * n2 - 1) by (nonlinear_arith)
        requires (k + 1) * w == n2 + l, w >= 1, l < n2, n2 >= 1;
    if w >= 2 {
        lemma_pow2_half(w);
        let h = w / 2;
        let m = (l + r) / 2;
        assert(w == 2 * h);
        assert(m == l + h);
        assert((k + 2) * w <= 2 * n2) by (nonlinear_arith)
            requires (k + 1) * w == n2 + l, l + w <= n2;
        assert(k < n2 - 1) by (nonlinear_arith)
            requires (k + 2) * w <= 2 * n2, w >= 2, k >= 0;
        assert(l % h == 0) by {
            lemma_fundamental_div_mod(l, w);
            let q = l / w;
            assert(l == h * (2 * q)) by (nonlinear_arith) requires l == w * q + 0, w == 2 * h;
            lemma_mod_multiples_basic(2 * q, h);
            lemma_mul_is_commutative(h, 2 * q);
        }
        assert((2 * k + 2) * h == n2 + l) by (nonlinear_arith)
            requires (k + 1) * w == n2 + l, w == 2 * h;
        assert((2 * k + 3) * h == n2 + m) by (nonlinear_arith)
            requires (k + 1) * w == n2 + l, w == 2 * h, m == l + h;
        assert(m % h == 0) by {
            lemma_mod_add_multiples_vanish(l, h);
        }
    } else {
        assert(w == 1);
        assert(k + 1 == n2 + l) by (nonlinear_arith) requires (k + 1) * w == n2 + l, w == 1;
    }
}

/// The root covers all `n2` leaves.
pub proof fn lemma_root(n2: int)
    requires
        is_pow2(n2),
    ensures
        tree_node(n2, 0, 0, n2),
{
    lemma_small_mod(0, n2 as nat);
}

/// In a tree whose internal nodes all combine their children, a node holds
/// the fold of the leaves it covers.
pub proof fn lemma_node_fold<T>(op: spec_fn(T, T) -> T, nodes: Seq<T>, n2: int, k: int, l: int, r: int)
    requires
        associative(op),
        nodes.len() == 2 * n2 - 1,
        all_combined(op, nodes, n2),
        tree_node(n2, k, l, r),
    ensures
        nodes[k] == fold1(op, leaves(nodes, n2).subrange(l, r)),
    decreases r - l,
{
    lemma_tree_node(n2, k, l, r);
    let lv = leaves(nodes, n2);
    if r - l == 1 {
        assert(lv.subrange(l, r).len() == 1);
        assert(lv.subrange(l, r)[0] == nodes[n2 - 1 + l]);
    } else {
        let m = (l + r) / 2;
        lemma_node_fold(op, nodes, n2, 2 * k + 1, l, m);
        lemma_node_fold(op, nodes, n2, 2 * k + 2, m, r);
        assert(combined(op, nodes, k));
        assert(lv.subrange(l, r) =~= lv.subrange(l, m) + lv.subrange(m, r));
        lemma_fold1_concat(op, lv.subrange(l, m), lv.subrange(m, r));
    }
}

/// A node on the path from `x` to the root is at most `x`.
pub proof fn lemma_on_path_le(k: int, x: int)
    requires
        on_path(k, x),
    ensures
        0 <= k <= x,
    decreases x,
{
    if k != x && x > 0 {
        lemma_on_path_le(k, parent(x));
    }
}

/// The path from `x` is closed under taking parents.
pub proof fn lemma_on_path_parent(c: int, x: int)
    requires
        on_path(c, x),
        c > 0,
    ensures
        on_path(parent(c), x),
    decreases x,
{
    if c != x {
        lemma_on_path_parent(c, parent(x));
    } else {
        assert(on_path(parent(c), parent(c)));
    }
}

/// Below `c` on the path from `x`, the next node up is `parent(c)`.
pub proof fn lemma_on_path_above(k: int, c: int, x: int)
    requires
        on_path(c, x),
        on_path(k, x),
        k < c,
    ensures
        on_path(k, parent(c)),
    decreases x,
{
    lemma_on_path_le(c, x);
    if c != x {
        assert(k != x);
        lemma_on_path_above(k, c, parent(x));
    }
}

/// A child lies on a path only if its parent does.
pub proof fn lemma_child_on_path(k: int, x: int)
    requires
        k >= 0,
        on_path(2 * k + 1, x) || on_path(2 * k + 2, x),
    ensures
        on_path(k, x),
{
    if on_path(2 * k + 1, x) {
        lemma_on_path_parent(2 * k + 1, x);
        assert(parent(2 * k + 1) == k);
    } else {
        lemma_on_path_parent(2 * k + 2, x);
        assert(parent(2 * k + 2) == k);
    }
}

/// The subtrees of two siblings share no node, and neither holds their
/// parent.
pub proof fn lemma_siblings_disjoint(k: int, y: int)
    requires
        k >= 0,
    ensures
        !(on_path(2 * k + 1, y) && on_path(2 * k + 2, y)),
        !on_path(2 * k + 1, k),
        !on_path(2 * k + 2, k),
        on_path(k, 2 * k + 1),
        on_path(k, 2 * k + 2),
{
    if on_path(2 * k + 1, y) && on_path(2 * k + 2, y) {
        lemma_on_path_above(2 * k + 1, 2 * k + 2, y);
        assert(parent(2 * k + 2) == k);
        lemma_on_path_le(2 * k + 1, k);
    }
    if on_path(2 * k + 1, k) {
        lemma_on_path_le(2 * k + 1, k);
    }
    if on_path(2 * k + 2, k) {
        lemma_on_path_le(2 * k + 2, k);
    }
    assert(parent(2 * k + 1) == k);
    assert(parent(2 * k + 2) == k);
    assert(on_path(k, k));
}

/// Of two distinct powers of two, the larger is at least twice the smaller.
pub proof fn lemma_pow2_gap(a: int, b: int)
    requires
        is_pow2(a),
        is_pow2(b),
        a < b,
    ensures
        2 * a <= b,
    decreases a + b,
{
    assert(b >= 2);
    lemma_pow2_half(b);
    let h = b / 2;
    if a < h {
        lemma_pow2_gap(a, h);
    } else if a > h {
        lemma_pow2_gap(h, a);
    }
}

/// A node covers one run of leaves only.
pub proof fn lemma_tree_node_unique(n2: int, k: int, l: int, r: int, l2: int, r2: int)
    requires
        tree_node(n2, k, l, r),
        tree_node(n2, k, l2, r2),
    ensures
        l == l2,
        r == r2,
{
    let w = r - l;
    let w2 = r2 - l2;
    lemma_tree_node(n2, k, l, r);
    if w < w2 {
        lemma_pow2_gap(w, w2);
        assert((k + 1) * w2 >= 2 * ((k + 1) * w)) by (nonlinear_arith)
            requires 2 * w <= w2, k >= 0;
    } else if w2 < w {
        lemma_pow2_gap(w2, w);
        assert((k + 1) * w >= 2 * ((k + 1) * w2)) by (nonlinear_arith)
            requires 2 * w2 <= w, k >= 0;
    } else {
        assert((k + 1) * w == (k + 1) * w2);
    }
}

/// The root lies on the path from every node.
pub proof fn lemma_root_on_path(x: int)
    requires
        x >= 0,
    ensures
        on_path(0, x),
    decreases x,
{
    if x > 0 {
        lemma_root_on_path(parent(x));
    }
}

/// Lying on the path to the root is transitive: a node on the path from `b`,
/// which lies on the path from `c`, lies on the path from `c`.
pub proof fn lemma_on_path_trans(a: int, b: int, c: int)
    requires
        on_path(a, b),
        on_path(b, c),
    ensures
        on_path(a, c),
    decreases c,
{
    if b != c && c > 0 {
        lemma_on_path_trans(a, b, parent(c));
        lemma_on_path_le(a, parent(c));
    }
}

/// Below a proper ancestor `k` of `x`, the path from `x` passes through a
/// child of `k`.
pub proof fn lemma_path_child(k: int, x: int)
    requires
        k >= 0,
        on_path(k, x),
        k != x,
    ensures
        on_path(2 * k + 1, x) || on_path(2 * k + 2, x),
    decreases x,
{
    let p = parent(x);
    if p == k {
        assert(x == 2 * k + 1 || x == 2 * k + 2);
        assert(on_path(x, x));
    } else {
        lemma_path_child(k, p);
        lemma_on_path_le(k, p);
        if on_path(2 * k + 1, p) {
            lemma_on_path_le(2 * k + 1, p);
        } else {
            lemma_on_path_le(2 * k + 2, p);
        }
    }
}

/// Every node of the tree over `n2` leaves covers some run of leaves.
pub proof fn lemma_node_range(n2: int, node: int) -> (lr: (int, int))
    requires
        is_pow2(n2),
        0 <= node < 2 * n2 - 1,
    ensures
        tree_node(n2, node, lr.0, lr.1),
    decreases node,
{
    if node == 0 {
        lemma_root(n2);
        (0, n2)
    } else {
        let p = parent(node);
        let (lp, rp) = lemma_node_range(n2, p);
        lemma_tree_node(n2, p, lp, rp);
        if rp - lp == 1 {
            assert(node >= 2 * p + 1);
            assert(false);
        }
        let m = (lp + rp) / 2;
        if node == 2 * p + 1 {
            (lp, m)
        } else {
            (m, rp)
        }
    }
}

/// The value that the range query for `a..b` computes at node `k`
/// covering `l..r`: the node itself when covered, else the combination of
/// the children that meet `a..b`.
pub open spec fn query_value<T>(
    op: spec_fn(T, T) -> T,
    nodes: Seq<T>,
    a: int,
    b: int,
    k: int,
    l: int,
    r: int,
) -> T
    decreases r - l,
{
    if r - l <= 1 || (a <= l && r <= b) {
        nodes[k]
    } else {
        let m = (l + r) / 2;
        if a < m {
            if m < b {
                op(
                    query_value(op, nodes, a, b, 2 * k + 1, l, m),
                    query_value(op, nodes, a, b, 2 * k + 2, m, r),
                )
            } else {
                query_value(op, nodes, a, b, 2 * k + 1, l, m)
            }
        } else {
            query_value(op, nodes, a, b, 2 * k + 2, m, r)
        }
    }
}

/// In a fully combined tree over an associative operation, the range query
/// folds the leaves of `a..b` that the node covers.
pub proof fn lemma_query_fold<T>(
    op: spec_fn(T, T) -> T,
    nodes: Seq<T>,
    n2: int,
    a: int,
    b: int,
    k: int,
    l: int,
    r: int,
)
    requires
        associative(op),
        nodes.len() == 2 * n2 - 1,
        all_combined(op, nodes, n2),
        tree_node(n2, k, l, r),
        a < r,
        l < b,
        a < b,
    ensures
        query_value(op, nodes, a, b, k, l, r) == fold1(
            op,
            leaves(nodes, n2).subrange(
                if a < l { l } else { a },
                if b < r { b } else { r },
            ),
        ),
    decreases r - l,
{
    lemma_tree_node(n2, k, l, r);
    let lv = leaves(nodes, n2);
    let lo = if a < l { l } else { a };
    let hi = if b < r { b } else { r };
    if r - l <= 1 || (a <= l && r <= b) {
        lemma_node_fold(op, nodes, n2, k, l, r);
    } else {
        let m = (l + r) / 2;
        if a < m {
            lemma_query_fold(op, nodes, n2, a, b, 2 * k + 1, l, m);
            if m < b {
                lemma_query_fold(op, nodes, n2, a, b, 2 * k + 2, m, r);
                assert(lv.subrange(lo, hi) =~= lv.subrange(lo, m) + lv.subrange(m, hi));
                lemma_fold1_concat(op, lv.subrange(lo, m), lv.subrange(m, hi));
            }
        } else {
            lemma_query_fold(op, nodes, n2, a, b, 2 * k + 2, m, r);
        }
    }
}

} // verus!
