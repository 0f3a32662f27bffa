//! Segment tree with lazy propagation: range updates and range queries.
use vstd::prelude::*;
use crate::segment_tree::{apply2, op_of, is_function2, ceil_pow2, lemma_ceil_pow2};
use crate::tree_shape::{
    associative, combined, fold1, is_pow2, lemma_child_on_path, lemma_fold1_concat, lemma_on_path_le,
    lemma_on_path_parent, lemma_root, lemma_siblings_disjoint, lemma_tree_node, on_path, parent, tree_node,
    lemma_node_range, lemma_on_path_trans, lemma_path_child, lemma_root_on_path, lemma_tree_node_unique,
};

verus! {

/// `x` after the pending update `l`, if any.
pub open spec fn apply_lazy<X, M>(upd: spec_fn(X, M) -> X, x: X, l: Option<M>) -> X {
    match l {
        Some(m) => upd(x, m),
        None => x,
    }
}

/// The pending update `m` queued after the pending update `l`.
pub open spec fn queue_after<M>(cat: spec_fn(M, M) -> M, l: Option<M>, m: M) -> Option<M> {
    match l {
        Some(lv) => Some(cat(lv, m)),
        None => Some(m),
    }
}

/// An update distributes over the combining operation.
pub open spec fn distributes<X, M>(op: spec_fn(X, X) -> X, upd: spec_fn(X, M) -> X) -> bool {
    forall|x: X, y: X, m: M| #[trigger] upd(op(x, y), m) == op(upd(x, m), upd(y, m))
}

/// Applying two updates in turn is applying their concatenation.
pub open spec fn composes<X, M>(upd: spec_fn(X, M) -> X, cat: spec_fn(M, M) -> M) -> bool {
    forall|x: X, m1: M, m2: M| #[trigger] upd(upd(x, m1), m2) == upd(x, cat(m1, m2))
}

/// The value of node `k` with its own pending update applied.
pub open spec fn actual<X, M>(upd: spec_fn(X, M) -> X, dat: Seq<X>, lazy: Seq<Option<M>>, k: int) -> X {
    apply_lazy(upd, dat[k], lazy[k])
}

/// Internal node `k` combines the values of its children with their
/// pending updates applied.
pub open spec fn lazy_combined<X, M>(
    op: spec_fn(X, X) -> X,
    upd: spec_fn(X, M) -> X,
    dat: Seq<X>,
    lazy: Seq<Option<M>>,
    k: int,
) -> bool {
    dat[k] == op(actual(upd, dat, lazy, 2 * k + 1), actual(upd, dat, lazy, 2 * k + 2))
}

/// The values of the leaves `l..r` under node `k`, with every pending
/// update in the subtree of `k` (its own included) applied.
#[verifier::opaque]
pub open spec fn sub_view<X, M>(
    upd: spec_fn(X, M) -> X,
    dat: Seq<X>,
    lazy: Seq<Option<M>>,
    k: int,
    l: int,
    r: int,
) -> Seq<X>
    decreases r - l,
{
    if r - l <= 1 {
        seq![actual(upd, dat, lazy, k)]
    } else {
        let m = (l + r) / 2;
        (sub_view(upd, dat, lazy, 2 * k + 1, l, m) + sub_view(upd, dat, lazy, 2 * k + 2, m, r)).map_values(
            |x: X| apply_lazy(upd, x, lazy[k]),
        )
    }
}

/// `s` with `m` applied to the positions whose index (counted from `off`)
/// lies in `a..b`.
pub open spec fn range_update<X, M>(upd: spec_fn(X, M) -> X, s: Seq<X>, off: int, a: int, b: int, m: M) -> Seq<X> {
    Seq::new(s.len(), |i: int| if a <= off + i < b { upd(s[i], m) } else { s[i] })
}

/// Applying an update to a fold applies it to every folded value.
pub proof fn lemma_fold_update<X, M>(op: spec_fn(X, X) -> X, upd: spec_fn(X, M) -> X, s: Seq<X>, l: Option<M>)
    requires
        distributes(op, upd) || l is None,
        s.len() >= 1,
    ensures
        apply_lazy(upd, fold1(op, s), l) == fold1(op, s.map_values(|x: X| apply_lazy(upd, x, l))),
    decreases s.len(),
{
    let f = |x: X| apply_lazy(upd, x, l);
    let t = s.map_values(f);
    if l is None {
        assert(t =~= s);
    } else if s.len() > 1 {
        lemma_fold_update(op, upd, s.drop_last(), l);
        assert(t.drop_last() =~= s.drop_last().map_values(f));
    }
}

/// The sub-view of a node covering `l..r` has `r - l` values.
pub proof fn lemma_sub_view_len<X, M>(upd: spec_fn(X, M) -> X, dat: Seq<X>, lazy: Seq<Option<M>>, n2: int, k: int, l: int, r: int)
    requires
        tree_node(n2, k, l, r),
    ensures
        sub_view(upd, dat, lazy, k, l, r).len() == r - l,
    decreases r - l,
{
    reveal(sub_view);
    lemma_tree_node(n2, k, l, r);
    if r - l > 1 {
        let m = (l + r) / 2;
        lemma_sub_view_len(upd, dat, lazy, n2, 2 * k + 1, l, m);
        lemma_sub_view_len(upd, dat, lazy, n2, 2 * k + 2, m, r);
    }
}

/// The sub-view of node `k` depends only on the nodes of its subtree.
pub proof fn lemma_sub_view_frame<X, M>(
    upd: spec_fn(X, M) -> X,
    dat1: Seq<X>,
    lazy1: Seq<Option<M>>,
    dat2: Seq<X>,
    lazy2: Seq<Option<M>>,
    n2: int,
    k: int,
    l: int,
    r: int,
)
    requires
        tree_node(n2, k, l, r),
        forall|y: int| 0 <= y < 2 * n2 - 1 && on_path(k, y) ==> #[trigger] dat1[y] == dat2[y] && lazy1[y] == lazy2[y],
    ensures
        sub_view(upd, dat1, lazy1, k, l, r) == sub_view(upd, dat2, lazy2, k, l, r),
    decreases r - l,
{
    reveal(sub_view);
    lemma_tree_node(n2, k, l, r);
    assert(on_path(k, k));
    assert(dat1[k] == dat2[k] && lazy1[k] == lazy2[k]);
    if r - l > 1 {
        let m = (l + r) / 2;
        let c1 = 2 * k + 1;
        let c2 = 2 * k + 2;
        assert(parent(c1) == k);
        assert(parent(c2) == k);
        assert forall|y: int| 0 <= y < 2 * n2 - 1 && on_path(c1, y) implies #[trigger] dat1[y] == dat2[y] && lazy1[y] == lazy2[y] by {
            lemma_on_path_parent(c1, y);
        }
        assert forall|y: int| 0 <= y < 2 * n2 - 1 && on_path(c2, y) implies #[trigger] dat1[y] == dat2[y] && lazy1[y] == lazy2[y] by {
            lemma_on_path_parent(c2, y);
        }
        lemma_sub_view_frame(upd, dat1, lazy1, dat2, lazy2, n2, c1, l, m);
        lemma_sub_view_frame(upd, dat1, lazy1, dat2, lazy2, n2, c2, m, r);
        assert(sub_view(upd, dat1, lazy1, k, l, r) =~= sub_view(upd, dat2, lazy2, k, l, r));
    }
}

/// In a tree whose internal nodes combine their children's values, a
/// node's value is the fold of its sub-view, when updates distribute over
/// the operation or no update is pending.
pub proof fn lemma_sub_view_fold<X, M>(
    op: spec_fn(X, X) -> X,
    upd: spec_fn(X, M) -> X,
    dat: Seq<X>,
    lazy: Seq<Option<M>>,
    n2: int,
    k: int,
    l: int,
    r: int,
)
    requires
        associative(op),
        distributes(op, upd) || no_pending(lazy, n2),
        tree_node(n2, k, l, r),
        forall|j: int| 0 <= j < n2 - 1 ==> #[trigger] lazy_combined(op, upd, dat, lazy, j),
    ensures
        actual(upd, dat, lazy, k) == fold1(op, sub_view(upd, dat, lazy, k, l, r)),
    decreases r - l,
{
    reveal(sub_view);
    lemma_tree_node(n2, k, l, r);
    if r - l > 1 {
        let m = (l + r) / 2;
        lemma_sub_view_fold(op, upd, dat, lazy, n2, 2 * k + 1, l, m);
        lemma_sub_view_fold(op, upd, dat, lazy, n2, 2 * k + 2, m, r);
        lemma_sub_view_len(upd, dat, lazy, n2, 2 * k + 1, l, m);
        lemma_sub_view_len(upd, dat, lazy, n2, 2 * k + 2, m, r);
        let s1 = sub_view(upd, dat, lazy, 2 * k + 1, l, m);
        let s2 = sub_view(upd, dat, lazy, 2 * k + 2, m, r);
        assert(lazy_combined(op, upd, dat, lazy, k));
        lemma_fold1_concat(op, s1, s2);
        if !distributes(op, upd) {
            assert(lazy[k] is None);
        }
        lemma_fold_update(op, upd, s1 + s2, lazy[k]);
    }
}

/// `(dat2, lazy2)` is `(dat, lazy)` after evaluating the pending update of
/// `node`: it is applied to the node and queued on its children.
pub open spec fn evaluated<X, M>(
    upd: spec_fn(X, M) -> X,
    cat: spec_fn(M, M) -> M,
    n2: int,
    dat: Seq<X>,
    lazy: Seq<Option<M>>,
    dat2: Seq<X>,
    lazy2: Seq<Option<M>>,
    node: int,
) -> bool {
    match lazy[node] {
        None => dat2 == dat && lazy2 == lazy,
        Some(m) => {
            &&& dat2 == dat.update(node, upd(dat[node], m))
            &&& if node < n2 - 1 {
                lazy2 == lazy.update(node, None).update(2 * node + 1, queue_after(cat, lazy[2 * node + 1], m)).update(
                    2 * node + 2,
                    queue_after(cat, lazy[2 * node + 2], m),
                )
            } else {
                lazy2 == lazy.update(node, None)
            }
        },
    }
}

/// The node values and pending updates after evaluating the pending update
/// of `node`: it is applied to the node and queued on its children.
pub open spec fn eval_at<X, M>(
    upd: spec_fn(X, M) -> X,
    cat: spec_fn(M, M) -> M,
    n2: int,
    dat: Seq<X>,
    lazy: Seq<Option<M>>,
    node: int,
) -> (Seq<X>, Seq<Option<M>>) {
    match lazy[node] {
        None => (dat, lazy),
        Some(m) => (
            dat.update(node, upd(dat[node], m)),
            if node < n2 - 1 {
                lazy.update(node, None).update(2 * node + 1, queue_after(cat, lazy[2 * node + 1], m)).update(
                    2 * node + 2,
                    queue_after(cat, lazy[2 * node + 2], m),
                )
            } else {
                lazy.update(node, None)
            },
        ),
    }
}

/// What `query_sub(a, b, node, l, r)` returns, with the node values and
/// pending updates it leaves: evaluate `node`, then return its value if it
/// lies inside `a..b`, else combine the answers of the children that meet
/// `a..b`, left first.
pub open spec fn query_run<X, M>(
    op: spec_fn(X, X) -> X,
    upd: spec_fn(X, M) -> X,
    cat: spec_fn(M, M) -> M,
    n2: int,
    dat: Seq<X>,
    lazy: Seq<Option<M>>,
    a: int,
    b: int,
    node: int,
    l: int,
    r: int,
) -> (X, Seq<X>, Seq<Option<M>>)
    decreases r - l,
{
    let e = eval_at(upd, cat, n2, dat, lazy, node);
    if (a <= l && r <= b) || r - l <= 1 {
        (e.0[node], e.0, e.1)
    } else {
        let m = (l + r) / 2;
        if a < m {
            let q0 = query_run(op, upd, cat, n2, e.0, e.1, a, b, 2 * node + 1, l, m);
            if m < b {
                let q1 = query_run(op, upd, cat, n2, q0.1, q0.2, a, b, 2 * node + 2, m, r);
                (op(q0.0, q1.0), q1.1, q1.2)
            } else {
                q0
            }
        } else {
            query_run(op, upd, cat, n2, e.0, e.1, a, b, 2 * node + 2, m, r)
        }
    }
}

/// The node values and pending updates that `reserve_sub(a, b, m, node, l,
/// r)` leaves: evaluate `node`; if it lies inside `a..b`, queue `m` on it and
/// evaluate it again; if it meets `a..b`, do both children, left first, and
/// recombine `node` from their values.
pub open spec fn reserve_run<X, M>(
    op: spec_fn(X, X) -> X,
    upd: spec_fn(X, M) -> X,
    cat: spec_fn(M, M) -> M,
    n2: int,
    dat: Seq<X>,
    lazy: Seq<Option<M>>,
    a: int,
    b: int,
    m: M,
    node: int,
    l: int,
    r: int,
) -> (Seq<X>, Seq<Option<M>>)
    decreases r - l,
{
    let e = eval_at(upd, cat, n2, dat, lazy, node);
    if a <= l && r <= b {
        eval_at(upd, cat, n2, e.0, e.1.update(node, queue_after(cat, e.1[node], m)), node)
    } else if a < r && l < b && r - l >= 2 {
        let mid = (l + r) / 2;
        let q0 = reserve_run(op, upd, cat, n2, e.0, e.1, a, b, m, 2 * node + 1, l, mid);
        let q1 = reserve_run(op, upd, cat, n2, q0.0, q0.1, a, b, m, 2 * node + 2, mid, r);
        (q1.0.update(node, op(q1.0[2 * node + 1], q1.0[2 * node + 2])), q1.1)
    } else {
        e
    }
}

/// Evaluating the pending update of a node keeps its value and, when
/// updates compose, its sub-view; when updates also distribute over the
/// operation and the node combined its children, every internal node that
/// combined its children still does.
pub proof fn lemma_eval_effect<X, M>(
    op: spec_fn(X, X) -> X,
    upd: spec_fn(X, M) -> X,
    cat: spec_fn(M, M) -> M,
    n2: int,
    dat: Seq<X>,
    lazy: Seq<Option<M>>,
    dat2: Seq<X>,
    lazy2: Seq<Option<M>>,
    node: int,
    l: int,
    r: int,
)
    requires
        composes(upd, cat),
        tree_node(n2, node, l, r),
        dat.len() >= 2 * n2 - 1,
        lazy.len() == dat.len(),
        evaluated(upd, cat, n2, dat, lazy, dat2, lazy2, node),
    ensures
        actual(upd, dat2, lazy2, node) == actual(upd, dat, lazy, node),
        sub_view(upd, dat2, lazy2, node, l, r) == sub_view(upd, dat, lazy, node, l, r),
        distributes(op, upd) && (node < n2 - 1 ==> lazy_combined(op, upd, dat, lazy, node)) ==> forall|j: int|
            0 <= j < n2 - 1 && #[trigger] lazy_combined(op, upd, dat, lazy, j) ==> lazy_combined(op, upd, dat2, lazy2, j),
{
    reveal(sub_view);
    lemma_tree_node(n2, node, l, r);
    if let Some(m) = lazy[node] {
        let u = |x: X| upd(x, m);
        if r - l > 1 {
            let mid = (l + r) / 2;
            let c1 = 2 * node + 1;
            let c2 = 2 * node + 2;
            // each child's view gains the update m
            assert forall|c: int, lc: int, rc: int| (c == c1 && lc == l && rc == mid) || (c == c2 && lc == mid && rc == r) implies
                #[trigger] sub_view(upd, dat2, lazy2, c, lc, rc) == sub_view(upd, dat, lazy, c, lc, rc).map_values(u) by {
                lemma_tree_node(n2, c, lc, rc);
                if rc - lc > 1 {
                    let cm = (lc + rc) / 2;
                    let g1 = 2 * c + 1;
                    let g2 = 2 * c + 2;
                    lemma_tree_node(n2, g1, lc, cm);
                    lemma_tree_node(n2, g2, cm, rc);
                    assert forall|y: int| 0 <= y < 2 * n2 - 1 && on_path(g1, y) implies #[trigger] dat[y] == dat2[y] && lazy[y] == lazy2[y] by {
                        lemma_on_path_le(g1, y);
                    }
                    assert forall|y: int| 0 <= y < 2 * n2 - 1 && on_path(g2, y) implies #[trigger] dat[y] == dat2[y] && lazy[y] == lazy2[y] by {
                        lemma_on_path_le(g2, y);
                    }
                    lemma_sub_view_frame(upd, dat, lazy, dat2, lazy2, n2, g1, lc, cm);
                    lemma_sub_view_frame(upd, dat, lazy, dat2, lazy2, n2, g2, cm, rc);
                    assert(sub_view(upd, dat2, lazy2, c, lc, rc) =~= sub_view(upd, dat, lazy, c, lc, rc).map_values(u));
                } else {
                    assert(sub_view(upd, dat2, lazy2, c, lc, rc) =~= sub_view(upd, dat, lazy, c, lc, rc).map_values(u));
                }
            }
            let s1 = sub_view(upd, dat, lazy, c1, l, mid);
            let s2 = sub_view(upd, dat, lazy, c2, mid, r);
            assert(sub_view(upd, dat2, lazy2, c1, l, mid) == s1.map_values(u));
            assert(sub_view(upd, dat2, lazy2, c2, mid, r) == s2.map_values(u));
            assert(sub_view(upd, dat2, lazy2, node, l, r) =~= sub_view(upd, dat, lazy, node, l, r));
            // the node still combines its children
            assert(actual(upd, dat2, lazy2, c1) == upd(actual(upd, dat, lazy, c1), m));
            assert(actual(upd, dat2, lazy2, c2) == upd(actual(upd, dat, lazy, c2), m));
        } else {
            assert(sub_view(upd, dat2, lazy2, node, l, r) =~= sub_view(upd, dat, lazy, node, l, r));
        }
        if distributes(op, upd) && (node < n2 - 1 ==> lazy_combined(op, upd, dat, lazy, node)) {
            assert forall|j: int| 0 <= j < n2 - 1 && #[trigger] lazy_combined(op, upd, dat, lazy, j) implies lazy_combined(op, upd, dat2, lazy2, j) by {
                if j != node {
                    if node < n2 - 1 && (j == 2 * node + 1 || j == 2 * node + 2) {
                        assert(2 * j + 1 > 2 * node + 2);
                    }
                }
            }
        }
    }
}

/// Queuing the update `m` on a node without a pending update applies `m`
/// to its sub-view; only its parent can stop combining its children.
pub proof fn lemma_queue_effect<X, M>(
    op: spec_fn(X, X) -> X,
    upd: spec_fn(X, M) -> X,
    n2: int,
    dat: Seq<X>,
    lazy: Seq<Option<M>>,
    node: int,
    l: int,
    r: int,
    m: M,
)
    requires
        tree_node(n2, node, l, r),
        dat.len() >= 2 * n2 - 1,
        lazy.len() == dat.len(),
        lazy[node] is None,
    ensures
        sub_view(upd, dat, lazy.update(node, Some(m)), node, l, r) == sub_view(upd, dat, lazy, node, l, r).map_values(|x: X| upd(x, m)),
        actual(upd, dat, lazy.update(node, Some(m)), node) == upd(actual(upd, dat, lazy, node), m),
        forall|j: int|
            0 <= j < n2 - 1 && 2 * j + 1 != node && 2 * j + 2 != node && #[trigger] lazy_combined(op, upd, dat, lazy, j)
                ==> lazy_combined(op, upd, dat, lazy.update(node, Some(m)), j),
{
    reveal(sub_view);
    lemma_tree_node(n2, node, l, r);
    let lazy2 = lazy.update(node, Some(m));
    if r - l > 1 {
        let mid = (l + r) / 2;
        let c1 = 2 * node + 1;
        let c2 = 2 * node + 2;
        lemma_tree_node(n2, c1, l, mid);
        lemma_tree_node(n2, c2, mid, r);
        assert forall|y: int| 0 <= y < 2 * n2 - 1 && on_path(c1, y) implies lazy[y] == #[trigger] lazy2[y] by {
            lemma_on_path_le(c1, y);
        }
        assert forall|y: int| 0 <= y < 2 * n2 - 1 && on_path(c2, y) implies lazy[y] == #[trigger] lazy2[y] by {
            lemma_on_path_le(c2, y);
        }
        lemma_sub_view_frame(upd, dat, lazy, dat, lazy2, n2, c1, l, mid);
        lemma_sub_view_frame(upd, dat, lazy, dat, lazy2, n2, c2, mid, r);
    }
    assert(sub_view(upd, dat, lazy2, node, l, r) =~= sub_view(upd, dat, lazy, node, l, r).map_values(|x: X| upd(x, m)));
}

/// `(dat2, lazy2)` agrees with `(dat1, lazy1)` on every node outside the
/// subtree of `node`.
pub open spec fn same_outside<X, M>(dat1: Seq<X>, lazy1: Seq<Option<M>>, dat2: Seq<X>, lazy2: Seq<Option<M>>, node: int) -> bool {
    &&& dat2.len() == dat1.len()
    &&& lazy2.len() == lazy1.len()
    &&& forall|y: int| 0 <= y < dat1.len() && !on_path(node, y) ==> #[trigger] dat2[y] == dat1[y]
    &&& forall|y: int| 0 <= y < lazy1.len() && !on_path(node, y) ==> #[trigger] lazy2[y] == lazy1[y]
}

/// An internal node without a pending update views the concatenation of
/// its children's views.
pub proof fn lemma_sub_view_split<X, M>(upd: spec_fn(X, M) -> X, dat: Seq<X>, lazy: Seq<Option<M>>, n2: int, k: int, l: int, r: int)
    requires
        tree_node(n2, k, l, r),
        r - l >= 2,
        lazy[k] is None,
    ensures
        sub_view(upd, dat, lazy, k, l, r) == sub_view(upd, dat, lazy, 2 * k + 1, l, (l + r) / 2) + sub_view(
            upd,
            dat,
            lazy,
            2 * k + 2,
            (l + r) / 2,
            r,
        ),
{
    reveal(sub_view);
    let m = (l + r) / 2;
    let s = sub_view(upd, dat, lazy, 2 * k + 1, l, m) + sub_view(upd, dat, lazy, 2 * k + 2, m, r);
    assert(s.map_values(|x: X| apply_lazy(upd, x, lazy[k])) =~= s);
}

/// A change confined to the subtree of one child leaves the view of the
/// other child as it was.
#[verifier::spinoff_prover]
pub proof fn lemma_sibling_untouched<X, M>(
    upd: spec_fn(X, M) -> X,
    dat1: Seq<X>,
    lazy1: Seq<Option<M>>,
    dat2: Seq<X>,
    lazy2: Seq<Option<M>>,
    n2: int,
    p: int,
    changed: int,
    kept: int,
    l: int,
    r: int,
)
    requires
        p >= 0,
        (changed == 2 * p + 1 && kept == 2 * p + 2) || (changed == 2 * p + 2 && kept == 2 * p + 1),
        tree_node(n2, kept, l, r),
        dat1.len() >= 2 * n2 - 1,
        lazy1.len() == dat1.len(),
        same_outside(dat1, lazy1, dat2, lazy2, changed),
    ensures
        sub_view(upd, dat2, lazy2, kept, l, r) == sub_view(upd, dat1, lazy1, kept, l, r),
{
    assert forall|y: int| 0 <= y < 2 * n2 - 1 && on_path(kept, y) implies #[trigger] dat1[y] == dat2[y] && lazy1[y] == lazy2[y] by {
        lemma_siblings_disjoint(p, y);
        assert(!on_path(changed, y));
        assert(dat2[y] == dat1[y]);
        assert(lazy2[y] == lazy1[y]);
    }
    lemma_sub_view_frame(upd, dat1, lazy1, dat2, lazy2, n2, kept, l, r);
}

/// A change confined to the subtree of `node` that keeps the view of
/// `node` keeps the view of every node above it.
pub proof fn lemma_sub_view_subst<X, M>(
    upd: spec_fn(X, M) -> X,
    dat1: Seq<X>,
    lazy1: Seq<Option<M>>,
    dat2: Seq<X>,
    lazy2: Seq<Option<M>>,
    n2: int,
    k: int,
    l: int,
    r: int,
    node: int,
    nl: int,
    nr: int,
)
    requires
        tree_node(n2, k, l, r),
        tree_node(n2, node, nl, nr),
        on_path(k, node),
        dat1.len() >= 2 * n2 - 1,
        lazy1.len() == dat1.len(),
        same_outside(dat1, lazy1, dat2, lazy2, node),
        sub_view(upd, dat2, lazy2, node, nl, nr) == sub_view(upd, dat1, lazy1, node, nl, nr),
    ensures
        sub_view(upd, dat2, lazy2, k, l, r) == sub_view(upd, dat1, lazy1, k, l, r),
    decreases r - l,
{
    reveal(sub_view);
    lemma_tree_node(n2, k, l, r);
    lemma_tree_node(n2, node, nl, nr);
    if k == node {
        lemma_tree_node_unique(n2, k, l, r, nl, nr);
    } else {
        lemma_on_path_le(k, node);
        lemma_path_child(k, node);
        let c1 = 2 * k + 1;
        let c2 = 2 * k + 2;
        if on_path(c1, node) {
            lemma_on_path_le(c1, node);
        } else {
            lemma_on_path_le(c2, node);
        }
        let m = (l + r) / 2;
        assert(r - l >= 2);
        if on_path(node, k) {
            lemma_on_path_le(node, k);
        }
        assert(dat2[k] == dat1[k] && lazy2[k] == lazy1[k]);
        if on_path(c1, node) {
            lemma_sub_view_subst(upd, dat1, lazy1, dat2, lazy2, n2, c1, l, m, node, nl, nr);
            assert forall|y: int| 0 <= y < 2 * n2 - 1 && on_path(c2, y) implies #[trigger] dat1[y] == dat2[y] && lazy1[y] == lazy2[y] by {
                if on_path(node, y) {
                    lemma_on_path_trans(c1, node, y);
                    lemma_siblings_disjoint(k, y);
                }
            }
            lemma_sub_view_frame(upd, dat1, lazy1, dat2, lazy2, n2, c2, m, r);
        } else {
            lemma_sub_view_subst(upd, dat1, lazy1, dat2, lazy2, n2, c2, m, r, node, nl, nr);
            assert forall|y: int| 0 <= y < 2 * n2 - 1 && on_path(c1, y) implies #[trigger] dat1[y] == dat2[y] && lazy1[y] == lazy2[y] by {
                if on_path(node, y) {
                    lemma_on_path_trans(c2, node, y);
                    lemma_siblings_disjoint(k, y);
                }
            }
            lemma_sub_view_frame(upd, dat1, lazy1, dat2, lazy2, n2, c1, l, m);
        }
        assert(sub_view(upd, dat2, lazy2, k, l, r) =~= sub_view(upd, dat1, lazy1, k, l, r));
    }
}

/// The part of `v`, the view of a node covering `l..r`, that lies in `a..b`.
pub open spec fn clipped<X>(v: Seq<X>, a: int, b: int, l: int, r: int) -> Seq<X> {
    v.subrange((if a < l { l } else { a }) - l, (if b < r { b } else { r }) - l)
}

/// No node has a pending update.
pub open spec fn no_pending<M>(lazy: Seq<Option<M>>, n2: int) -> bool {
    forall|k: int| 0 <= k < 2 * n2 - 1 ==> #[trigger] lazy[k] is None
}

/// Without pending updates, a node's sub-view is the run of leaves it covers.
pub proof fn lemma_sub_view_plain<X, M>(upd: spec_fn(X, M) -> X, dat: Seq<X>, lazy: Seq<Option<M>>, n2: int, k: int, l: int, r: int)
    requires
        tree_node(n2, k, l, r),
        no_pending(lazy, n2),
        dat.len() >= 2 * n2 - 1,
    ensures
        sub_view(upd, dat, lazy, k, l, r) == dat.subrange(n2 - 1 + l, n2 - 1 + r),
    decreases r - l,
{
    reveal(sub_view);
    lemma_tree_node(n2, k, l, r);
    if r - l > 1 {
        let m = (l + r) / 2;
        lemma_sub_view_plain(upd, dat, lazy, n2, 2 * k + 1, l, m);
        lemma_sub_view_plain(upd, dat, lazy, n2, 2 * k + 2, m, r);
    }
    assert(sub_view(upd, dat, lazy, k, l, r) =~= dat.subrange(n2 - 1 + l, n2 - 1 + r));
}

/// A segment tree whose nodes hold values `X` and pending updates `M`.
#[verifier::reject_recursive_types(X)]
#[verifier::reject_recursive_types(M)]
pub struct LazySegmentTree<X, M, F: Fn(X, X) -> X, U: Fn(X, M) -> X, C: Fn(M, M) -> M> {
    n2: usize,
    pair_op: F,
    update_op: U,
    update_concat: C,
    dat: Vec<X>,
    lazy_ops: Vec<Option<M>>,
}

impl<X: Copy, M: Copy, F: Fn(X, X) -> X, U: Fn(X, M) -> X, C: Fn(M, M) -> M> LazySegmentTree<X, M, F, U, C> {
    /// The number of leaves (a power of two).
    pub closed spec fn size(self) -> int {
        self.n2 as int
    }

    /// The node values, root first; the leaves start at `size - 1`.
    pub closed spec fn nodes(self) -> Seq<X> {
        self.dat@
    }

    /// The pending update of each node.
    pub closed spec fn lazies(self) -> Seq<Option<M>> {
        self.lazy_ops@
    }

    /// The closure combining two values.
    pub closed spec fn pair_fn(self) -> F {
        self.pair_op
    }

    /// The closure applying an update to a value.
    pub closed spec fn update_fn(self) -> U {
        self.update_op
    }

    /// The closure concatenating two updates.
    pub closed spec fn concat_fn(self) -> C {
        self.update_concat
    }

    /// Combining two values, as a function.
    pub open spec fn op(self) -> spec_fn(X, X) -> X {
        op_of(self.pair_fn())
    }

    /// Applying an update to a value, as a function.
    pub open spec fn upd(self) -> spec_fn(X, M) -> X {
        op_of(self.update_fn())
    }

    /// Concatenating two updates, as a function.
    pub open spec fn cat(self) -> spec_fn(M, M) -> M {
        op_of(self.concat_fn())
    }

    /// The values of the leaves `l..r` under `node`, with every pending
    /// update in its subtree applied.
    pub open spec fn view_of(self, node: int, l: int, r: int) -> Seq<X> {
        sub_view(self.upd(), self.nodes(), self.lazies(), node, l, r)
    }

    /// The leaf values with every pending update applied.
    pub open spec fn values(self) -> Seq<X> {
        self.view_of(0, 0, self.size())
    }

    /// The laws under which lazy propagation is sound: the operation is
    /// associative, updates distribute over it, and two updates in turn are
    /// their concatenation.
    pub open spec fn laws(self) -> bool {
        &&& associative(self.op())
        &&& distributes(self.op(), self.upd())
        &&& composes(self.upd(), self.cat())
    }

    /// The tree answers range queries by folding its values: the operation
    /// is associative, every internal node combines its children, and
    /// either updates distribute and compose or no update is pending.
    pub open spec fn answers_by_fold(self) -> bool {
        &&& associative(self.op())
        &&& self.consistent()
        &&& ((distributes(self.op(), self.upd()) && composes(self.upd(), self.cat())) || no_pending(
            self.lazies(),
            self.size(),
        ))
    }

    /// Every internal node combines its children's values.
    pub open spec fn consistent(self) -> bool {
        forall|j: int|
            0 <= j < self.size() - 1 ==> #[trigger] lazy_combined(self.op(), self.upd(), self.nodes(), self.lazies(), j)
    }

    /// Every internal node that is not a proper ancestor of `node` combines
    /// its children's values.
    pub open spec fn consistent_off_path(self, node: int) -> bool {
        forall|j: int|
            0 <= j < self.size() - 1 && !(on_path(j, node) && j != node) ==> #[trigger] lazy_combined(
                self.op(),
                self.upd(),
                self.nodes(),
                self.lazies(),
                j,
            )
    }

    /// The shape: at least two leaves, a power of two of them, node arrays
    /// large enough, and function-like closures.
    pub closed spec fn wf(self) -> bool {
        &&& is_pow2(self.n2 as int)
        &&& self.n2 >= 2
        &&& 2 * self.n2 <= usize::MAX
        &&& self.dat@.len() >= 2 * self.n2 - 1
        &&& self.lazy_ops@.len() == self.dat@.len()
        &&& is_function2(self.pair_op)
        &&& is_function2(self.update_op)
        &&& is_function2(self.update_concat)
    }

    /// The parts that a structural operation leaves alone.
    pub open spec fn same_shape(self, other: Self) -> bool {
        &&& self.size() == other.size()
        &&& self.pair_fn() == other.pair_fn()
        &&& self.update_fn() == other.update_fn()
        &&& self.concat_fn() == other.concat_fn()
        &&& self.nodes().len() == other.nodes().len()
        &&& self.lazies().len() == other.lazies().len()
    }

    /// The shape: at least two leaves, a power of two of them, and node
    /// arrays of one length covering the whole tree.
    pub proof fn lemma_shape(self)
        requires
            self.wf(),
        ensures
            is_pow2(self.size()),
            self.size() >= 2,
            2 * self.size() <= usize::MAX,
            self.nodes().len() >= 2 * self.size() - 1,
            self.lazies().len() == self.nodes().len(),
    {
    }

    /// The number of leaves.
    pub fn leaf_num(&self) -> (r: usize)
        ensures
            r == self.size(),
    {
        self.n2
    }

    fn combine(&self, a: X, b: X) -> (r: X)
        requires
            is_function2(self.pair_op),
        ensures
            r == (self.op())(a, b),
    {
        (self.pair_op)(a, b)
    }

    fn apply_update(&self, x: X, m: M) -> (r: X)
        requires
            is_function2(self.update_op),
        ensures
            r == (self.upd())(x, m),
    {
        (self.update_op)(x, m)
    }

    fn concat(&self, m1: M, m2: M) -> (r: M)
        requires
            is_function2(self.update_concat),
        ensures
            r == (self.cat())(m1, m2),
    {
        (self.update_concat)(m1, m2)
    }

    /// The smallest power of two at least `n`, with `n2 < 2 * n`.
    fn leaf_count(n: usize) -> (n2: usize)
        requires
            n >= 1,
            2 * n <= usize::MAX,
        ensures
            n2 == ceil_pow2(n as int, 1),
            is_pow2(n2 as int),
            n <= n2 < 2 * n,
    {
        let ghost c = ceil_pow2(n as int, 1);
        proof { lemma_ceil_pow2(n as int, 1); }
        let mut n2: usize = 1;
        while n > n2
            invariant
                n2 >= 1,
                n2 < 2 * n,
                2 * n <= usize::MAX,
                is_pow2(n2 as int),
                ceil_pow2(n as int, n2 as int) == c,
                n2 <= c,
            decreases c - n2,
        {
            proof {
                lemma_ceil_pow2(n as int, 2 * n2);
                assert((2 * n2) / 2 == n2 as int);
            }
            n2 = n2 * 2;
        }
        n2
    }

    /// `len` copies of `x`, and `len` empty pending updates.
    fn filled(x: X, len: usize) -> (r: (Vec<X>, Vec<Option<M>>))
        ensures
            r.0@ == Seq::new(len as nat, |i: int| x),
            r.1@ == Seq::new(len as nat, |i: int| None::<M>),
    {
        let mut dat: Vec<X> = Vec::new();
        let mut lazy: Vec<Option<M>> = Vec::new();
        let mut i: usize = 0;
        while i < len
            invariant
                i <= len,
                dat@ == Seq::new(i as nat, |j: int| x),
                lazy@ == Seq::new(i as nat, |j: int| None::<M>),
            decreases len - i,
        {
            dat.push(x);
            lazy.push(None);
            i = i + 1;
            proof {
                assert(dat@ =~= Seq::new(i as nat, |j: int| x));
                assert(lazy@ =~= Seq::new(i as nat, |j: int| None::<M>));
            }
        }
        (dat, lazy)
    }

    /// A tree whose inner nodes combine their children (as after `build`)
    /// and with no pending updates is consistent, and its values are its
    /// leaves.
    pub proof fn lemma_plain(self)
        requires
            self.wf(),
            no_pending(self.lazies(), self.size()),
            forall|k: int| 0 <= k < self.size() - 1 ==> #[trigger] combined(self.op(), self.nodes(), k),
        ensures
            self.consistent(),
            self.values() == self.nodes().subrange(self.size() - 1, 2 * self.size() - 1),
    {
        lemma_root(self.size());
        lemma_sub_view_plain(self.upd(), self.nodes(), self.lazies(), self.size(), 0, 0, self.size());
        assert forall|j: int| 0 <= j < self.size() - 1 implies #[trigger] lazy_combined(self.op(), self.upd(), self.nodes(), self.lazies(), j) by {
            assert(combined(self.op(), self.nodes(), j));
            assert(self.lazies()[2 * j + 1] is None);
            assert(self.lazies()[2 * j + 2] is None);
        }
    }

    /// After `build`, a tree without pending updates whose leaves read
    /// `vals` (padded with `vals[0]`) is consistent with those values.
    proof fn lemma_loaded(self, s1: Seq<X>, vals: Seq<X>)
        requires
            self.wf(),
            vals.len() >= 1,
            no_pending(self.lazies(), self.size()),
            forall|k: int| 0 <= k < self.size() - 1 ==> #[trigger] combined(self.op(), self.nodes(), k),
            s1.len() == self.nodes().len(),
            forall|k: int| self.size() - 1 <= k < self.nodes().len() ==> #[trigger] self.nodes()[k] == s1[k],
            forall|k: int|
                0 <= k < self.size() ==> #[trigger] s1[self.size() - 1 + k] == (if k < vals.len() {
                    vals[k]
                } else {
                    vals[0]
                }),
        ensures
            self.consistent(),
            self.values() == Seq::new(self.size() as nat, |i: int| if i < vals.len() { vals[i] } else { vals[0] }),
    {
        self.lemma_plain();
        let want = Seq::new(self.size() as nat, |i: int| if i < vals.len() { vals[i] } else { vals[0] });
        assert forall|k: int| 0 <= k < self.size() implies #[trigger] self.values()[k] == want[k] by {
            assert(self.values()[k] == self.nodes()[self.size() - 1 + k]);
            assert(self.nodes()[self.size() - 1 + k] == s1[self.size() - 1 + k]);
        }
        assert(self.values() =~= want);
    }

    /// A tree over at least `n` leaves, all holding `ini_val`.
    pub fn new(n: usize, pair_op: F, update_op: U, update_concat: C, ini_val: X) -> (t: Self)
        requires
            n >= 2,
            4 * n <= usize::MAX,
            is_function2(pair_op),
            is_function2(update_op),
            is_function2(update_concat),
        ensures
            t.wf(),
            t.consistent(),
            t.size() == ceil_pow2(n as int, 1),
            t.pair_fn() == pair_op,
            t.update_fn() == update_op,
            t.concat_fn() == update_concat,
            no_pending(t.lazies(), t.size()),
            t.values() == Seq::new(t.size() as nat, |i: int| ini_val),
    {
        let n2 = Self::leaf_count(n);
        let (dat, lazy_ops) = Self::filled(ini_val, n * 4);
        let mut ret = LazySegmentTree { n2, pair_op, update_op, update_concat, dat, lazy_ops };
        ret.init_all(ini_val);
        proof {
            ret.lemma_plain();
            assert forall|i: int| 0 <= i < ret.size() implies #[trigger] ret.values()[i] == ini_val by {
                assert(ret.nodes()[ret.size() - 1 + i] == ini_val);
            }
            assert(ret.values() =~= Seq::new(ret.size() as nat, |i: int| ini_val));
        }
        ret
    }

    /// Write `init_vals` into the leaves from the left.
    fn load(&mut self, init_vals: &[X])
        requires
            old(self).wf(),
            init_vals@.len() + old(self).size() - 1 <= old(self).nodes().len(),
        ensures
            final(self).wf(),
            final(self).same_shape(*old(self)),
            final(self).lazies() == old(self).lazies(),
            forall|j: int|
                0 <= j < init_vals@.len() ==> #[trigger] final(self).nodes()[old(self).size() - 1 + j] == init_vals@[j],
            forall|j: int|
                0 <= j < old(self).nodes().len() && !(old(self).size() - 1 <= j < old(self).size() - 1 + init_vals@.len())
                    ==> #[trigger] final(self).nodes()[j] == old(self).nodes()[j],
    {
        let ghost s0 = *self;
        let ghost off = self.n2 - 1;
        let ghost len = init_vals@.len();
        let mut i: usize = 0;
        while i < init_vals.len()
            invariant
                self.wf(),
                self.same_shape(s0),
                self.lazies() == s0.lazies(),
                self.n2 == s0.n2,
                off == s0.size() - 1,
                len == init_vals@.len(),
                len + off <= s0.nodes().len(),
                i <= len,
                forall|j: int| 0 <= j < i ==> #[trigger] self.dat@[off + j] == init_vals@[j],
                forall|j: int|
                    0 <= j < s0.nodes().len() && !(off <= j < off + i) ==> #[trigger] self.dat@[j] == s0.dat@[j],
            decreases len - i,
        {
            self.set(i, init_vals[i]);
            i = i + 1;
        }
    }

    /// A tree over at least `n` leaves holding `init_vals` from the left,
    /// the rest holding `init_vals[0]`.
    pub fn new_from(n: usize, pair_op: F, update_op: U, update_concat: C, init_vals: &[X]) -> (t: Self)
        requires
            n >= 2,
            4 * n <= usize::MAX,
            init_vals@.len() >= 1,
            init_vals@.len() + ceil_pow2(n as int, 1) - 1 <= 4 * n,
            is_function2(pair_op),
            is_function2(update_op),
            is_function2(update_concat),
        ensures
            t.wf(),
            t.consistent(),
            t.size() == ceil_pow2(n as int, 1),
            t.pair_fn() == pair_op,
            t.update_fn() == update_op,
            t.concat_fn() == update_concat,
            no_pending(t.lazies(), t.size()),
            t.values() == Seq::new(
                t.size() as nat,
                |i: int| if i < init_vals@.len() { init_vals@[i] } else { init_vals@[0] },
            ),
    {
        let n2 = Self::leaf_count(n);
        let (dat, lazy_ops) = Self::filled(init_vals[0], n * 4);
        let ghost x0 = init_vals@[0];
        let mut ret = LazySegmentTree { n2, pair_op, update_op, update_concat, dat, lazy_ops };
        proof {
            assert(ret.nodes().len() == 4 * n);
            assert forall|j: int| 0 <= j < 4 * n implies #[trigger] ret.nodes()[j] == x0 by {}
        }
        ret.load(init_vals);
        let ghost s1 = ret.dat@;
        proof {
            assert forall|k: int| 0 <= k < n2 implies #[trigger] s1[n2 - 1 + k] == (if k < init_vals@.len() {
                init_vals@[k]
            } else {
                x0
            }) by {
                if k >= init_vals@.len() {
                    assert(!(n2 - 1 <= n2 - 1 + k < n2 - 1 + init_vals@.len()));
                }
            }
        }
        ret.build();
        proof {
            assert(no_pending(ret.lazies(), ret.size()));
            ret.lemma_loaded(s1, init_vals@);
        }
        ret
    }

    /// Evaluating the pending update of any node keeps every leaf value when
    /// updates compose, and keeps a consistent tree obeying the laws
    /// consistent.
    pub proof fn lemma_eval_keeps(s0: Self, s1: Self, node: int)
        requires
            s0.wf(),
            s1.same_shape(s0),
            0 <= node < s0.lazies().len(),
            evaluated(s0.upd(), s0.cat(), s0.size(), s0.nodes(), s0.lazies(), s1.nodes(), s1.lazies(), node),
            same_outside(s0.nodes(), s0.lazies(), s1.nodes(), s1.lazies(), node),
        ensures
            composes(s0.upd(), s0.cat()) ==> s1.values() == s0.values(),
            s0.laws() && s0.consistent() ==> s1.consistent(),
    {
        let n2 = s0.size();
        lemma_root(n2);
        if node < 2 * n2 - 1 {
            let (l, r) = lemma_node_range(n2, node);
            if composes(s0.upd(), s0.cat()) {
                lemma_eval_effect(s0.op(), s0.upd(), s0.cat(), n2, s0.nodes(), s0.lazies(), s1.nodes(), s1.lazies(), node, l, r);
                lemma_root_on_path(node);
                lemma_sub_view_subst(s0.upd(), s0.nodes(), s0.lazies(), s1.nodes(), s1.lazies(), n2, 0, 0, n2, node, l, r);
            }
            if s0.laws() && s0.consistent() {
                assert(s0.consistent_off_path(node));
                Self::lemma_evaluated(s0, s1, node, l, r);
            }
        } else {
            assert forall|y: int| 0 <= y < 2 * n2 - 1 && on_path(0, y) implies #[trigger] s0.nodes()[y] == s1.nodes()[y]
                && s0.lazies()[y] == s1.lazies()[y] by {
                if on_path(node, y) {
                    lemma_on_path_le(node, y);
                }
            }
            if composes(s0.upd(), s0.cat()) {
                lemma_sub_view_frame(s0.upd(), s0.nodes(), s0.lazies(), s1.nodes(), s1.lazies(), n2, 0, 0, n2);
            }
            if s0.laws() && s0.consistent() {
                assert forall|j: int| 0 <= j < n2 - 1 implies #[trigger] lazy_combined(s1.op(), s1.upd(), s1.nodes(), s1.lazies(), j) by {
                    assert(lazy_combined(s0.op(), s0.upd(), s0.nodes(), s0.lazies(), j));
                    lemma_root_on_path(j);
                    lemma_root_on_path(2 * j + 1);
                    lemma_root_on_path(2 * j + 2);
                    assert(s0.nodes()[j] == s1.nodes()[j]);
                    assert(s0.nodes()[2 * j + 1] == s1.nodes()[2 * j + 1]);
                    assert(s0.nodes()[2 * j + 2] == s1.nodes()[2 * j + 2]);
                }
            }
        }
    }

    /// Evaluating the pending update of `node` keeps its view when updates
    /// compose.
    proof fn lemma_eval_view(s0: Self, s1: Self, node: int, l: int, r: int)
        requires
            s0.wf(),
            s1.same_shape(s0),
            tree_node(s0.size(), node, l, r),
            evaluated(s0.upd(), s0.cat(), s0.size(), s0.nodes(), s0.lazies(), s1.nodes(), s1.lazies(), node),
            composes(s0.upd(), s0.cat()),
        ensures
            s1.view_of(node, l, r) == s0.view_of(node, l, r),
    {
        lemma_eval_effect(s0.op(), s0.upd(), s0.cat(), s0.size(), s0.nodes(), s0.lazies(), s1.nodes(), s1.lazies(), node, l, r);
    }

    /// Evaluating the pending update of `node` in a tree obeying the laws
    /// keeps every internal node that combined its children doing so, and
    /// keeps the view of `node`.
    proof fn lemma_evaluated(s0: Self, s1: Self, node: int, l: int, r: int)
        requires
            s0.wf(),
            s1.same_shape(s0),
            tree_node(s0.size(), node, l, r),
            evaluated(s0.upd(), s0.cat(), s0.size(), s0.nodes(), s0.lazies(), s1.nodes(), s1.lazies(), node),
            s0.laws(),
            s0.consistent_off_path(node),
        ensures
            s1.laws(),
            s1.consistent_off_path(node),
            s0.consistent() ==> s1.consistent(),
            s1.view_of(node, l, r) == s0.view_of(node, l, r),
    {
        lemma_tree_node(s0.size(), node, l, r);
        if node < s0.size() - 1 {
            assert(lazy_combined(s0.op(), s0.upd(), s0.nodes(), s0.lazies(), node));
        }
        lemma_eval_effect(s0.op(), s0.upd(), s0.cat(), s0.size(), s0.nodes(), s0.lazies(), s1.nodes(), s1.lazies(), node, l, r);
        assert forall|j: int|
            0 <= j < s1.size() - 1 && !(on_path(j, node) && j != node) implies #[trigger] lazy_combined(
            s1.op(),
            s1.upd(),
            s1.nodes(),
            s1.lazies(),
            j,
        ) by {
            assert(lazy_combined(s0.op(), s0.upd(), s0.nodes(), s0.lazies(), j));
        }
        if s0.consistent() {
            assert forall|j: int| 0 <= j < s1.size() - 1 implies #[trigger] lazy_combined(s1.op(), s1.upd(), s1.nodes(), s1.lazies(), j) by {
                assert(lazy_combined(s0.op(), s0.upd(), s0.nodes(), s0.lazies(), j));
            }
        }
    }

    /// Work done inside the subtree of a child `c` of `node` keeps the rest
    /// of the tree, `node` included, as it was.
    proof fn lemma_after_child(s0: Self, sa: Self, sb: Self, node: int, c: int, l: int, r: int)
        requires
            s0.wf(),
            sa.same_shape(s0),
            sb.same_shape(sa),
            tree_node(s0.size(), node, l, r),
            node >= 0,
            c == 2 * node + 1 || c == 2 * node + 2,
            same_outside(s0.nodes(), s0.lazies(), sa.nodes(), sa.lazies(), node),
            same_outside(sa.nodes(), sa.lazies(), sb.nodes(), sb.lazies(), c),
            sa.lazies()[node] is None,
        ensures
            sb.same_shape(s0),
            same_outside(s0.nodes(), s0.lazies(), sb.nodes(), sb.lazies(), node),
            sb.lazies()[node] is None,
    {
        lemma_tree_node(s0.size(), node, l, r);
        lemma_siblings_disjoint(node, node);
        assert forall|y: int| !on_path(node, y) implies !on_path(c, y) by {
            if on_path(c, y) {
                lemma_child_on_path(node, y);
            }
        }
        assert(sb.lazies()[node] == sa.lazies()[node]);
    }

    /// When only the child `c` (covering `lc..rc`) of `node` meets `a..b`,
    /// the part of the view of `node` in `a..b` is that of `c`; work inside
    /// the subtree of `c` that keeps its view keeps the view of `node`.
    proof fn lemma_query_one(s0: Self, s1: Self, s2: Self, a: int, b: int, node: int, c: int, l: int, r: int)
        requires
            s0.wf(),
            s1.same_shape(s0),
            s2.same_shape(s1),
            tree_node(s0.size(), node, l, r),
            r - l >= 2,
            a < b,
            (c == 2 * node + 1 && a < (l + r) / 2 && b <= (l + r) / 2) || (c == 2 * node + 2 && (l + r) / 2 <= a && a < r),
            l < b,
            s1.lazies()[node] is None,
            s1.view_of(node, l, r) == s0.view_of(node, l, r),
            same_outside(s1.nodes(), s1.lazies(), s2.nodes(), s2.lazies(), c),
            c == 2 * node + 1 ==> s2.view_of(c, l, (l + r) / 2) == s1.view_of(c, l, (l + r) / 2),
            c == 2 * node + 2 ==> s2.view_of(c, (l + r) / 2, r) == s1.view_of(c, (l + r) / 2, r),
        ensures
            s2.view_of(node, l, r) == s0.view_of(node, l, r),
            c == 2 * node + 1 ==> clipped(s1.view_of(c, l, (l + r) / 2), a, b, l, (l + r) / 2) == clipped(
                s0.view_of(node, l, r),
                a,
                b,
                l,
                r,
            ),
            c == 2 * node + 2 ==> clipped(s1.view_of(c, (l + r) / 2, r), a, b, (l + r) / 2, r) == clipped(
                s0.view_of(node, l, r),
                a,
                b,
                l,
                r,
            ),
    {
        let n2 = s0.size();
        let m = (l + r) / 2;
        let c1 = 2 * node + 1;
        let c2 = 2 * node + 2;
        lemma_tree_node(n2, node, l, r);
        lemma_siblings_disjoint(node, node);
        assert(s2.lazies()[node] == s1.lazies()[node]);
        if c == c1 {
            lemma_sibling_untouched(s1.upd(), s1.nodes(), s1.lazies(), s2.nodes(), s2.lazies(), n2, node, c1, c2, m, r);
        } else {
            lemma_sibling_untouched(s1.upd(), s1.nodes(), s1.lazies(), s2.nodes(), s2.lazies(), n2, node, c2, c1, l, m);
        }
        lemma_sub_view_split(s1.upd(), s1.nodes(), s1.lazies(), n2, node, l, r);
        lemma_sub_view_split(s2.upd(), s2.nodes(), s2.lazies(), n2, node, l, r);
        lemma_sub_view_len(s1.upd(), s1.nodes(), s1.lazies(), n2, c1, l, m);
        lemma_sub_view_len(s1.upd(), s1.nodes(), s1.lazies(), n2, c2, m, r);
        let v1 = s1.view_of(c1, l, m);
        let v2 = s1.view_of(c2, m, r);
        if c == c1 {
            assert(clipped(v1, a, b, l, m) =~= clipped(v1 + v2, a, b, l, r));
        } else {
            assert(clipped(v2, a, b, m, r) =~= clipped(v1 + v2, a, b, l, r));
        }
    }

    /// When both children of `node` meet `a..b`, combining the folds of
    /// their parts gives the fold of the part of the view of `node`; work
    /// inside each child's subtree that keeps its view keeps the view of
    /// `node`.
    proof fn lemma_query_both(s0: Self, s1: Self, s2: Self, s3: Self, a: int, b: int, node: int, l: int, r: int)
        requires
            s0.wf(),
            s1.same_shape(s0),
            s2.same_shape(s1),
            s3.same_shape(s2),
            tree_node(s0.size(), node, l, r),
            r - l >= 2,
            a < (l + r) / 2 < b,
            s1.lazies()[node] is None,
            s1.view_of(node, l, r) == s0.view_of(node, l, r),
            same_outside(s1.nodes(), s1.lazies(), s2.nodes(), s2.lazies(), 2 * node + 1),
            s2.view_of(2 * node + 1, l, (l + r) / 2) == s1.view_of(2 * node + 1, l, (l + r) / 2),
            same_outside(s2.nodes(), s2.lazies(), s3.nodes(), s3.lazies(), 2 * node + 2),
            s3.view_of(2 * node + 2, (l + r) / 2, r) == s2.view_of(2 * node + 2, (l + r) / 2, r),
        ensures
            s3.view_of(node, l, r) == s0.view_of(node, l, r),
            associative(s0.op()) ==> (s0.op())(
                fold1(s0.op(), clipped(s1.view_of(2 * node + 1, l, (l + r) / 2), a, b, l, (l + r) / 2)),
                fold1(s0.op(), clipped(s2.view_of(2 * node + 2, (l + r) / 2, r), a, b, (l + r) / 2, r)),
            ) == fold1(s0.op(), clipped(s0.view_of(node, l, r), a, b, l, r)),
    {
        let n2 = s0.size();
        let m = (l + r) / 2;
        let c1 = 2 * node + 1;
        let c2 = 2 * node + 2;
        lemma_tree_node(n2, node, l, r);
        lemma_siblings_disjoint(node, node);
        assert(s3.lazies()[node] == s1.lazies()[node]);
        lemma_sibling_untouched(s1.upd(), s1.nodes(), s1.lazies(), s2.nodes(), s2.lazies(), n2, node, c1, c2, m, r);
        lemma_sibling_untouched(s2.upd(), s2.nodes(), s2.lazies(), s3.nodes(), s3.lazies(), n2, node, c2, c1, l, m);
        lemma_sub_view_split(s1.upd(), s1.nodes(), s1.lazies(), n2, node, l, r);
        lemma_sub_view_split(s3.upd(), s3.nodes(), s3.lazies(), n2, node, l, r);
        lemma_sub_view_len(s1.upd(), s1.nodes(), s1.lazies(), n2, c1, l, m);
        lemma_sub_view_len(s1.upd(), s1.nodes(), s1.lazies(), n2, c2, m, r);
        let v1 = s1.view_of(c1, l, m);
        let v2 = s1.view_of(c2, m, r);
        let p1 = clipped(v1, a, b, l, m);
        let p2 = clipped(v2, a, b, m, r);
        assert(clipped(v1 + v2, a, b, l, r) =~= p1 + p2);
        if associative(s0.op()) {
            lemma_fold1_concat(s0.op(), p1, p2);
        }
    }

    /// The combination of the values of `a..b` below `node` (which covers
    /// `node_l..node_r` and meets `a..b`), evaluating the pending updates on
    /// the way down.
    pub fn query_sub(&mut self, a: usize, b: usize, node: usize, node_l: usize, node_r: usize) -> (x: X)
        requires
            old(self).wf(),
            tree_node(old(self).size(), node as int, node_l as int, node_r as int),
            a < b,
            a < node_r,
            node_l < b,
        ensures
            final(self).wf(),
            final(self).same_shape(*old(self)),
            same_outside(old(self).nodes(), old(self).lazies(), final(self).nodes(), final(self).lazies(), node as int),
            final(self).lazies()[node as int] is None,
            no_pending(old(self).lazies(), old(self).size()) ==> final(self).nodes() == old(self).nodes()
                && final(self).lazies() == old(self).lazies(),
            composes(old(self).upd(), old(self).cat()) ==> final(self).view_of(node as int, node_l as int, node_r as int)
                == old(self).view_of(node as int, node_l as int, node_r as int),
            old(self).laws() && old(self).consistent() ==> final(self).consistent(),
            old(self).answers_by_fold() ==> x == fold1(
                old(self).op(),
                clipped(old(self).view_of(node as int, node_l as int, node_r as int), a as int, b as int, node_l as int, node_r as int),
            ),
            (x, final(self).nodes(), final(self).lazies()) == query_run(
                old(self).op(),
                old(self).upd(),
                old(self).cat(),
                old(self).size(),
                old(self).nodes(),
                old(self).lazies(),
                a as int,
                b as int,
                node as int,
                node_l as int,
                node_r as int,
            ),
        decreases node_r - node_l,
    {
        let ghost s0 = *self;
        proof {
            lemma_tree_node(self.size(), node as int, node_l as int, node_r as int);
        }
        self.lazy_eval(node);
        let ghost s1 = *self;
        proof {
            if s0.laws() && s0.consistent() {
                assert(s0.consistent_off_path(node as int));
                Self::lemma_evaluated(s0, s1, node as int, node_l as int, node_r as int);
            }
            if composes(s0.upd(), s0.cat()) {
                Self::lemma_eval_view(s0, s1, node as int, node_l as int, node_r as int);
            }
            if no_pending(s0.lazies(), s0.size()) {
                assert(s0.lazies()[node as int] is None);
                assert(s1.nodes() == s0.nodes() && s1.lazies() == s0.lazies());
            }
            assert(s0.answers_by_fold() ==> s1.answers_by_fold());
            assert(s0.answers_by_fold() ==> s1.view_of(node as int, node_l as int, node_r as int) == s0.view_of(
                node as int,
                node_l as int,
                node_r as int,
            ));
        }
        if a <= node_l && node_r <= b {
            let x = self.dat[node];
            proof {
                if s0.answers_by_fold() {
                    lemma_sub_view_fold(s1.op(), s1.upd(), s1.nodes(), s1.lazies(), s1.size(), node as int, node_l as int, node_r as int);
                    lemma_sub_view_len(s1.upd(), s1.nodes(), s1.lazies(), s1.size(), node as int, node_l as int, node_r as int);
                    let v = s0.view_of(node as int, node_l as int, node_r as int);
                    assert(clipped(v, a as int, b as int, node_l as int, node_r as int) =~= v);
                }
            }
            x
        } else {
            let m = (node_l + node_r) / 2;
            let n0 = node * 2 + 1;
            let n1 = node * 2 + 2;
            proof {
                assert(node_r - node_l >= 2);
                assert(m == (node_l + node_r) / 2);
            }
            if a < m {
                let x0 = self.query_sub(a, b, n0, node_l, m);
                let ghost s2 = *self;
                proof {
                    Self::lemma_after_child(s0, s1, s2, node as int, n0 as int, node_l as int, node_r as int);
                }
                if m < b {
                    let x1 = self.query_sub(a, b, n1, m, node_r);
                    let ghost s3 = *self;
                    proof {
                        Self::lemma_after_child(s0, s2, s3, node as int, n1 as int, node_l as int, node_r as int);
                        if composes(s0.upd(), s0.cat()) || no_pending(s0.lazies(), s0.size()) {
                            Self::lemma_query_both(s0, s1, s2, s3, a as int, b as int, node as int, node_l as int, node_r as int);
                        }
                    }
                    self.combine(x0, x1)
                } else {
                    proof {
                        if composes(s0.upd(), s0.cat()) || no_pending(s0.lazies(), s0.size()) {
                            Self::lemma_query_one(s0, s1, s2, a as int, b as int, node as int, n0 as int, node_l as int, node_r as int);
                        }
                    }
                    x0
                }
            } else {
                let x1 = self.query_sub(a, b, n1, m, node_r);
                let ghost s2 = *self;
                proof {
                    Self::lemma_after_child(s0, s1, s2, node as int, n1 as int, node_l as int, node_r as int);
                    if composes(s0.upd(), s0.cat()) || no_pending(s0.lazies(), s0.size()) {
                        Self::lemma_query_one(s0, s1, s2, a as int, b as int, node as int, n1 as int, node_l as int, node_r as int);
                    }
                }
                x1
            }
        }
    }

    /// The combination of the values of the leaves `a..=b` (those of them
    /// that exist).
    pub fn query(&mut self, a: usize, b: usize) -> (x: X)
        requires
            old(self).wf(),
            a <= b,
            a < old(self).size(),
            b < usize::MAX,
        ensures
            final(self).wf(),
            final(self).same_shape(*old(self)),
            no_pending(old(self).lazies(), old(self).size()) ==> final(self).nodes() == old(self).nodes()
                && final(self).lazies() == old(self).lazies(),
            composes(old(self).upd(), old(self).cat()) ==> final(self).values() == old(self).values(),
            old(self).laws() && old(self).consistent() ==> final(self).consistent(),
            old(self).answers_by_fold() ==> x == fold1(
                old(self).op(),
                old(self).values().subrange(a as int, if b + 1 < old(self).size() { b + 1 } else { old(self).size() }),
            ),
            (x, final(self).nodes(), final(self).lazies()) == query_run(
                old(self).op(),
                old(self).upd(),
                old(self).cat(),
                old(self).size(),
                old(self).nodes(),
                old(self).lazies(),
                a as int,
                b + 1,
                0,
                0,
                old(self).size(),
            ),
    {
        proof {
            lemma_root(self.size());
        }
        self.query_sub(a, b + 1, 0, 0, self.n2)
    }

    /// Queue the update `m` on the leaves `a..=b` (those of them that
    /// exist).
    pub fn reserve(&mut self, a: usize, b: usize, m: M)
        requires
            old(self).wf(),
            b < usize::MAX,
        ensures
            final(self).wf(),
            final(self).same_shape(*old(self)),
            composes(old(self).upd(), old(self).cat()) ==> final(self).values() == range_update(
                old(self).upd(),
                old(self).values(),
                0,
                a as int,
                b + 1,
                m,
            ),
            old(self).laws() && old(self).consistent() ==> final(self).consistent(),
            (final(self).nodes(), final(self).lazies()) == reserve_run(
                old(self).op(),
                old(self).upd(),
                old(self).cat(),
                old(self).size(),
                old(self).nodes(),
                old(self).lazies(),
                a as int,
                b + 1,
                m,
                0,
                0,
                old(self).size(),
            ),
    {
        proof {
            lemma_root(self.size());
            if self.consistent() {
                assert(self.consistent_off_path(0));
            }
        }
        self.reserve_sub(a, b + 1, m, 0, 0, self.n2);
        proof {
            if self.consistent_off_path(0) {
                assert forall|j: int| 0 <= j < self.size() - 1 implies #[trigger] lazy_combined(
                    self.op(),
                    self.upd(),
                    self.nodes(),
                    self.lazies(),
                    j,
                ) by {
                    if on_path(j, 0) && j != 0 {
                        assert(false);
                    }
                }
            }
        }
    }

    /// Queuing `m` on `node` (evaluated, so with no pending update of its
    /// own) and evaluating it again applies `m` to the whole view of `node`
    /// when updates compose; under the laws it keeps the internal nodes off
    /// the path above `node` combining their children.
    proof fn lemma_reserve_inside(s1: Self, s2: Self, s3: Self, node: int, l: int, r: int, m: M)
        requires
            s1.wf(),
            composes(s1.upd(), s1.cat()),
            s2.same_shape(s1),
            s3.same_shape(s2),
            tree_node(s1.size(), node, l, r),
            s1.lazies()[node] is None,
            s2.nodes() == s1.nodes(),
            s2.lazies() == s1.lazies().update(node, Some(m)),
            evaluated(s2.upd(), s2.cat(), s2.size(), s2.nodes(), s2.lazies(), s3.nodes(), s3.lazies(), node),
        ensures
            s1.laws() && s1.consistent_off_path(node) ==> s3.consistent_off_path(node),
            s3.view_of(node, l, r) == s1.view_of(node, l, r).map_values(|x: X| (s1.upd())(x, m)),
    {
        let n2 = s1.size();
        lemma_tree_node(n2, node, l, r);
        lemma_queue_effect(s1.op(), s1.upd(), n2, s1.nodes(), s1.lazies(), node, l, r, m);
        Self::lemma_eval_view(s2, s3, node, l, r);
        if s1.laws() && s1.consistent_off_path(node) {
            assert forall|j: int|
                0 <= j < s2.size() - 1 && !(on_path(j, node) && j != node) implies #[trigger] lazy_combined(
                s2.op(),
                s2.upd(),
                s2.nodes(),
                s2.lazies(),
                j,
            ) by {
                assert(lazy_combined(s1.op(), s1.upd(), s1.nodes(), s1.lazies(), j));
                if 2 * j + 1 == node || 2 * j + 2 == node {
                    assert(parent(node) == j);
                    assert(on_path(j, j));
                    assert(on_path(j, node));
                }
            }
            Self::lemma_evaluated(s2, s3, node, l, r);
        }
    }

    /// After both children of `node` took the update on `a..b` and `node`
    /// recombined them, the view of `node` took the update and `node`
    /// combines its children again.
    proof fn lemma_reserve_split(s0: Self, s1: Self, s2: Self, s3: Self, s4: Self, a: int, b: int, m: M, node: int, l: int, r: int)
        requires
            s0.wf(),
            s1.same_shape(s0),
            s2.same_shape(s1),
            s3.same_shape(s2),
            s4.same_shape(s3),
            tree_node(s0.size(), node, l, r),
            r - l >= 2,
            s1.lazies()[node] is None,
            s1.view_of(node, l, r) == s0.view_of(node, l, r),
            same_outside(s1.nodes(), s1.lazies(), s2.nodes(), s2.lazies(), 2 * node + 1),
            s2.view_of(2 * node + 1, l, (l + r) / 2) == range_update(
                s0.upd(),
                s1.view_of(2 * node + 1, l, (l + r) / 2),
                l,
                a,
                b,
                m,
            ),
            same_outside(s2.nodes(), s2.lazies(), s3.nodes(), s3.lazies(), 2 * node + 2),
            s3.view_of(2 * node + 2, (l + r) / 2, r) == range_update(
                s0.upd(),
                s2.view_of(2 * node + 2, (l + r) / 2, r),
                (l + r) / 2,
                a,
                b,
                m,
            ),
            s3.lazies()[2 * node + 1] is None,
            s3.lazies()[2 * node + 2] is None,
            s4.lazies() == s3.lazies(),
            s4.nodes() == s3.nodes().update(node, (s3.op())(s3.nodes()[2 * node + 1], s3.nodes()[2 * node + 2])),
        ensures
            s3.consistent_off_path(2 * node + 2) ==> s4.consistent_off_path(node),
            s4.view_of(node, l, r) == range_update(s0.upd(), s0.view_of(node, l, r), l, a, b, m),
    {
        let n2 = s0.size();
        let mid = (l + r) / 2;
        let c1 = 2 * node + 1;
        let c2 = 2 * node + 2;
        let upd = s0.upd();
        lemma_tree_node(n2, node, l, r);
        lemma_siblings_disjoint(node, node);
        lemma_sibling_untouched(upd, s1.nodes(), s1.lazies(), s2.nodes(), s2.lazies(), n2, node, c1, c2, mid, r);
        lemma_sibling_untouched(upd, s2.nodes(), s2.lazies(), s3.nodes(), s3.lazies(), n2, node, c2, c1, l, mid);
        assert(s3.lazies()[node] == s1.lazies()[node]);
        // the views of the children are those of s3
        assert forall|y: int| 0 <= y < 2 * n2 - 1 && on_path(c1, y) implies #[trigger] s3.nodes()[y] == s4.nodes()[y] && s3.lazies()[y] == s4.lazies()[y] by {
            if y == node {
                assert(!on_path(c1, node));
            }
        }
        assert forall|y: int| 0 <= y < 2 * n2 - 1 && on_path(c2, y) implies #[trigger] s3.nodes()[y] == s4.nodes()[y] && s3.lazies()[y] == s4.lazies()[y] by {
            if y == node {
                assert(!on_path(c2, node));
            }
        }
        lemma_sub_view_frame(upd, s3.nodes(), s3.lazies(), s4.nodes(), s4.lazies(), n2, c1, l, mid);
        lemma_sub_view_frame(upd, s3.nodes(), s3.lazies(), s4.nodes(), s4.lazies(), n2, c2, mid, r);
        lemma_sub_view_split(upd, s1.nodes(), s1.lazies(), n2, node, l, r);
        lemma_sub_view_split(upd, s4.nodes(), s4.lazies(), n2, node, l, r);
        lemma_sub_view_len(upd, s1.nodes(), s1.lazies(), n2, c1, l, mid);
        lemma_sub_view_len(upd, s1.nodes(), s1.lazies(), n2, c2, mid, r);
        let v1 = s1.view_of(c1, l, mid);
        let v2 = s1.view_of(c2, mid, r);
        assert(range_update(upd, v1 + v2, l, a, b, m) =~= range_update(upd, v1, l, a, b, m) + range_update(upd, v2, mid, a, b, m));
        // consistency: node combines again, and only its ancestors may not
        if s3.consistent_off_path(c2) {
            assert forall|j: int|
                0 <= j < n2 - 1 && !(on_path(j, node) && j != node) implies #[trigger] lazy_combined(
                s4.op(),
                s4.upd(),
                s4.nodes(),
                s4.lazies(),
                j,
            ) by {
                if j != node {
                    assert(!(on_path(j, c2) && j != c2)) by {
                        if on_path(j, c2) && j != c2 {
                            assert(parent(c2) == node);
                        }
                    }
                    assert(lazy_combined(s3.op(), s3.upd(), s3.nodes(), s3.lazies(), j));
                    if 2 * j + 1 == node || 2 * j + 2 == node {
                        assert(parent(node) == j);
                        assert(on_path(j, j));
                        assert(on_path(j, node));
                    }
                }
            }
        }
    }

    /// Queue the update `m` on the leaves of `a..b` below `node` (which
    /// covers `node_l..node_r`), evaluating pending updates on the way down
    /// and recombining the nodes above the updated ones.
    pub fn reserve_sub(&mut self, a: usize, b: usize, m: M, node: usize, node_l: usize, node_r: usize)
        requires
            old(self).wf(),
            tree_node(old(self).size(), node as int, node_l as int, node_r as int),
        ensures
            final(self).wf(),
            final(self).same_shape(*old(self)),
            same_outside(old(self).nodes(), old(self).lazies(), final(self).nodes(), final(self).lazies(), node as int),
            final(self).lazies()[node as int] is None,
            composes(old(self).upd(), old(self).cat()) ==> final(self).view_of(node as int, node_l as int, node_r as int)
                == range_update(
                old(self).upd(),
                old(self).view_of(node as int, node_l as int, node_r as int),
                node_l as int,
                a as int,
                b as int,
                m,
            ),
            old(self).laws() && old(self).consistent_off_path(node as int) ==> final(self).consistent_off_path(node as int),
            (final(self).nodes(), final(self).lazies()) == reserve_run(
                old(self).op(),
                old(self).upd(),
                old(self).cat(),
                old(self).size(),
                old(self).nodes(),
                old(self).lazies(),
                a as int,
                b as int,
                m,
                node as int,
                node_l as int,
                node_r as int,
            ),
        decreases node_r - node_l,
    {
        let ghost s0 = *self;
        proof {
            lemma_tree_node(self.size(), node as int, node_l as int, node_r as int);
        }
        self.lazy_eval(node);
        let ghost s1 = *self;
        proof {
            if s0.laws() && s0.consistent_off_path(node as int) {
                Self::lemma_evaluated(s0, s1, node as int, node_l as int, node_r as int);
            }
            if composes(s0.upd(), s0.cat()) {
                Self::lemma_eval_view(s0, s1, node as int, node_l as int, node_r as int);
            }
        }
        if a <= node_l && node_r <= b {
            if let Some(lazy_val) = self.lazy_ops[node] {
                let c = self.concat(lazy_val, m);
                self.lazy_ops[node] = Some(c);
            } else {
                self.lazy_ops[node] = Some(m);
            }
            let ghost s2 = *self;
            self.lazy_eval(node);
            let ghost s3 = *self;
            proof {
                if composes(s0.upd(), s0.cat()) {
                    Self::lemma_reserve_inside(s1, s2, s3, node as int, node_l as int, node_r as int, m);
                    lemma_sub_view_len(s0.upd(), s0.nodes(), s0.lazies(), s0.size(), node as int, node_l as int, node_r as int);
                    assert(s3.view_of(node as int, node_l as int, node_r as int) =~= range_update(
                        s0.upd(),
                        s0.view_of(node as int, node_l as int, node_r as int),
                        node_l as int,
                        a as int,
                        b as int,
                        m,
                    ));
                }
            }
        } else if a < node_r && node_l < b {
            let mid = (node_l + node_r) / 2;
            let n0 = node * 2 + 1;
            let n1 = node * 2 + 2;
            proof {
                assert(node_r - node_l >= 2);
                if s0.laws() && s0.consistent_off_path(node as int) {
                    assert forall|j: int|
                        0 <= j < s1.size() - 1 && !(on_path(j, n0 as int) && j != n0) implies #[trigger] lazy_combined(
                        s1.op(),
                        s1.upd(),
                        s1.nodes(),
                        s1.lazies(),
                        j,
                    ) by {
                        if on_path(j, node as int) && j != node {
                            assert(parent(n0 as int) == node);
                            lemma_on_path_le(j, node as int);
                            assert(on_path(j, n0 as int));
                        } else {
                            assert(lazy_combined(s1.op(), s1.upd(), s1.nodes(), s1.lazies(), j));
                        }
                    }
                }
            }
            self.reserve_sub(a, b, m, n0, node_l, mid);
            let ghost s2 = *self;
            proof {
                Self::lemma_after_child(s0, s1, s2, node as int, n0 as int, node_l as int, node_r as int);
                if s0.laws() && s0.consistent_off_path(node as int) {
                    assert forall|j: int|
                        0 <= j < s2.size() - 1 && !(on_path(j, n1 as int) && j != n1) implies #[trigger] lazy_combined(
                        s2.op(),
                        s2.upd(),
                        s2.nodes(),
                        s2.lazies(),
                        j,
                    ) by {
                        if on_path(j, n0 as int) && j != n0 {
                            assert(parent(n0 as int) == node);
                            assert(parent(n1 as int) == node);
                            assert(on_path(j, node as int));
                            lemma_on_path_le(j, node as int);
                            assert(on_path(j, n1 as int));
                        } else {
                            assert(lazy_combined(s2.op(), s2.upd(), s2.nodes(), s2.lazies(), j));
                        }
                    }
                }
            }
            self.reserve_sub(a, b, m, n1, mid, node_r);
            let ghost s3 = *self;
            proof {
                Self::lemma_after_child(s0, s2, s3, node as int, n1 as int, node_l as int, node_r as int);
                lemma_siblings_disjoint(node as int, node as int);
                assert(s3.lazies()[n0 as int] == s2.lazies()[n0 as int]);
            }
            let v = self.combine(self.dat[n0], self.dat[n1]);
            self.dat[node] = v;
            proof {
                let s4 = *self;
                assert(s4.nodes() == s3.nodes().update(node as int, (s3.op())(s3.nodes()[n0 as int], s3.nodes()[n1 as int])));
                if composes(s0.upd(), s0.cat()) {
                    Self::lemma_reserve_split(s0, s1, s2, s3, s4, a as int, b as int, m, node as int, node_l as int, node_r as int);
                }
                assert(on_path(node as int, node as int));
            }
        } else {
            proof {
                if composes(s0.upd(), s0.cat()) {
                    lemma_sub_view_len(s0.upd(), s0.nodes(), s0.lazies(), s0.size(), node as int, node_l as int, node_r as int);
                    assert(s1.view_of(node as int, node_l as int, node_r as int) =~= range_update(
                        s0.upd(),
                        s0.view_of(node as int, node_l as int, node_r as int),
                        node_l as int,
                        a as int,
                        b as int,
                        m,
                    ));
                }
            }
        }
    }

    /// Store `val` at leaf `i` as it is (pending updates and inner nodes
    /// are left alone; `build` recomputes the inner nodes).
    pub fn set(&mut self, i: usize, val: X)
        requires
            old(self).wf(),
            i + old(self).size() - 1 < old(self).nodes().len(),
        ensures
            final(self).wf(),
            final(self).same_shape(*old(self)),
            final(self).nodes() == old(self).nodes().update(i + old(self).size() - 1, val),
            final(self).lazies() == old(self).lazies(),
    {
        proof {
            assert(self.dat@.len() == self.dat.len());
        }
        let x = i + (self.n2 - 1);
        self.dat[x] = val;
    }

    /// Apply the pending update of `node` to it and queue it on its
    /// children (if it has any).
    pub fn lazy_eval(&mut self, node: usize)
        requires
            old(self).wf(),
            node < old(self).lazies().len(),
        ensures
            final(self).wf(),
            final(self).same_shape(*old(self)),
            evaluated(
                old(self).upd(),
                old(self).cat(),
                old(self).size(),
                old(self).nodes(),
                old(self).lazies(),
                final(self).nodes(),
                final(self).lazies(),
                node as int,
            ),
            same_outside(old(self).nodes(), old(self).lazies(), final(self).nodes(), final(self).lazies(), node as int),
            final(self).lazies()[node as int] is None,
            (final(self).nodes(), final(self).lazies()) == eval_at(
                old(self).upd(),
                old(self).cat(),
                old(self).size(),
                old(self).nodes(),
                old(self).lazies(),
                node as int,
            ),
            composes(old(self).upd(), old(self).cat()) ==> final(self).values() == old(self).values(),
            old(self).laws() && old(self).consistent() ==> final(self).consistent(),
    {
        let ghost s0 = *self;
        proof {
            assert(on_path(node as int, node as int));
            if node < self.size() - 1 {
                lemma_siblings_disjoint(node as int, node as int);
            }
        }
        if let Some(lazy_val) = self.lazy_ops[node] {
            let ghost l0 = self.lazy_ops@;
            let ghost dat0 = self.dat@;
            let ghost pf = self.pair_op;
            let ghost uf = self.update_op;
            let ghost cf = self.update_concat;
            let ghost n2 = self.n2;
            let ghost c1 = 2 * node + 1;
            let ghost c2 = 2 * node + 2;
            let ghost q1 = queue_after(self.cat(), l0[c1], lazy_val);
            let ghost q2 = queue_after(self.cat(), l0[c2], lazy_val);
            if node < self.n2 - 1 {
                let mut d: usize = 1;
                while d <= 2
                    invariant
                        1 <= d <= 3,
                        node < n2 - 1,
                        self.n2 == n2,
                        is_pow2(n2 as int),
                        n2 >= 2,
                        2 * n2 <= usize::MAX,
                        self.dat@ == dat0,
                        dat0.len() >= 2 * n2 - 1,
                        l0.len() == dat0.len(),
                        self.pair_op == pf,
                        self.update_op == uf,
                        self.update_concat == cf,
                        is_function2(self.pair_op),
                        is_function2(self.update_op),
                        is_function2(self.update_concat),
                        c1 == 2 * node + 1,
                        c2 == 2 * node + 2,
                        q1 == queue_after(self.cat(), l0[c1], lazy_val),
                        q2 == queue_after(self.cat(), l0[c2], lazy_val),
                        self.lazy_ops@ == (if d == 1 {
                            l0
                        } else if d == 2 {
                            l0.update(c1, q1)
                        } else {
                            l0.update(c1, q1).update(c2, q2)
                        }),
                    decreases 3 - d,
                {
                    let nc = node * 2 + d;
                    if let Some(nc_lazy_val) = self.lazy_ops[nc] {
                        let c = self.concat(nc_lazy_val, lazy_val);
                        self.lazy_ops[nc] = Some(c);
                    } else {
                        self.lazy_ops[nc] = Some(lazy_val);
                    }
                    d = d + 1;
                }
            }
            let v = self.apply_update(self.dat[node], lazy_val);
            self.dat[node] = v;
            self.lazy_ops[node] = None;
            proof {
                if node < n2 - 1 {
                    assert(self.lazy_ops@ =~= l0.update(node as int, None).update(c1, q1).update(c2, q2));
                } else {
                    assert(self.lazy_ops@ =~= l0.update(node as int, None));
                }
            }
        }
        proof {
            Self::lemma_eval_keeps(s0, *self, node as int);
        }
    }

    /// Set every leaf to `ini_val` and rebuild the inner nodes.
    pub fn init_all(&mut self, ini_val: X)
        requires
            old(self).wf(),
        ensures
            final(self).wf(),
            final(self).same_shape(*old(self)),
            final(self).lazies() == old(self).lazies(),
            forall|i: int| 0 <= i < old(self).size() ==> #[trigger] final(self).nodes()[old(self).size() - 1 + i] == ini_val,
            forall|k: int|
                2 * old(self).size() - 1 <= k < old(self).nodes().len() ==> #[trigger] final(self).nodes()[k]
                    == old(self).nodes()[k],
            forall|k: int| 0 <= k < old(self).size() - 1 ==> #[trigger] combined(final(self).op(), final(self).nodes(), k),
            no_pending(old(self).lazies(), old(self).size()) ==> final(self).consistent() && final(self).values()
                == Seq::new(old(self).size() as nat, |i: int| ini_val),
    {
        let ghost s0 = *self;
        let mut i: usize = 0;
        while i < self.n2
            invariant
                self.wf(),
                self.same_shape(s0),
                self.lazies() == s0.lazies(),
                i <= self.n2,
                forall|j: int| 0 <= j < i ==> #[trigger] self.dat@[self.n2 - 1 + j] == ini_val,
                forall|k: int| 2 * self.n2 - 1 <= k < self.dat@.len() ==> #[trigger] self.dat@[k] == s0.nodes()[k],
            decreases self.n2 - i,
        {
            self.set(i, ini_val);
            i = i + 1;
        }
        self.build();
        proof {
            if no_pending(s0.lazies(), s0.size()) {
                self.lemma_plain();
                assert forall|i: int| 0 <= i < self.size() implies #[trigger] self.values()[i] == ini_val by {
                    assert(self.nodes()[self.size() - 1 + i] == ini_val);
                }
                assert(self.values() =~= Seq::new(self.size() as nat, |i: int| ini_val));
            }
        }
    }

    /// Recompute every inner node from its children, bottom up.
    pub fn build(&mut self)
        requires
            old(self).wf(),
        ensures
            final(self).wf(),
            final(self).same_shape(*old(self)),
            final(self).lazies() == old(self).lazies(),
            forall|k: int|
                old(self).size() - 1 <= k < old(self).nodes().len() ==> #[trigger] final(self).nodes()[k]
                    == old(self).nodes()[k],
            forall|k: int| 0 <= k < old(self).size() - 1 ==> #[trigger] combined(final(self).op(), final(self).nodes(), k),
            no_pending(old(self).lazies(), old(self).size()) ==> final(self).consistent() && final(self).values()
                == old(self).nodes().subrange(old(self).size() - 1, 2 * old(self).size() - 1),
    {
        let ghost old_dat = self.dat@;
        let ghost len = self.dat@.len();
        let ghost pf = self.pair_op;
        let ghost uf = self.update_op;
        let ghost cf = self.update_concat;
        let ghost lz = self.lazy_ops@;
        let ghost n2 = self.n2;
        let mut k = self.n2 - 1;
        while k > 0
            invariant
                self.n2 == n2,
                k <= self.n2 - 1,
                is_pow2(self.n2 as int),
                self.n2 >= 2,
                2 * self.n2 <= usize::MAX,
                self.dat@.len() == len,
                len >= 2 * self.n2 - 1,
                self.lazy_ops@ == lz,
                lz.len() == len,
                self.pair_op == pf,
                self.update_op == uf,
                self.update_concat == cf,
                is_function2(self.pair_op),
                is_function2(self.update_op),
                is_function2(self.update_concat),
                forall|j: int| self.n2 - 1 <= j < len ==> #[trigger] self.dat@[j] == old_dat[j],
                forall|j: int| k <= j < self.n2 - 1 ==> #[trigger] combined(self.op(), self.dat@, j),
            decreases k,
        {
            k = k - 1;
            let ghost prev = self.dat@;
            let v = self.combine(self.dat[2 * k + 1], self.dat[2 * k + 2]);
            self.dat[k] = v;
            proof {
                assert forall|j: int| k <= j < self.n2 - 1 implies #[trigger] combined(self.op(), self.dat@, j) by {
                    if j > k {
                        assert(combined(self.op(), prev, j));
                    }
                }
            }
        }
        proof {
            if no_pending(lz, n2 as int) {
                self.lemma_plain();
                assert(self.nodes().subrange(n2 - 1, 2 * n2 - 1) =~= old_dat.subrange(n2 - 1, 2 * n2 - 1));
            }
        }
    }
}

} // verus!
