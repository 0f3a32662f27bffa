//! Segment tree over a binary operation: point updates and range queries.
use vstd::prelude::*;
use crate::tree_shape::{
    all_combined, combined, is_pow2, leaf_index, leaves, on_path, lemma_child_on_path,
    lemma_on_path_above, lemma_on_path_le, lemma_on_path_parent, parent, query_value,
    tree_node, lemma_tree_node, lemma_root, lemma_query_fold, associative, fold1,
};

verus! {

/// The value that the closure `f` returns for `(a, b)`.
pub open spec fn apply2<A, B, R, F: Fn(A, B) -> R>(f: F, a: A, b: B) -> R {
    choose|r: R| call_ensures(f, (a, b), r)
}

/// The closure `f` as a function on values.
pub open spec fn op_of<A, B, R, F: Fn(A, B) -> R>(f: F) -> spec_fn(A, B) -> R {
    |a: A, b: B| apply2(f, a, b)
}

/// `f` can be called on every pair and always returns the same value for it.
///
/// A closure with a `requires` (such as `|x: i64, y: i64| x + y`, which
/// must rule out overflow) does not qualify: write it total, for example
/// with wrapping or saturating arithmetic.
pub open spec fn is_function2<A, B, R, F: Fn(A, B) -> R>(f: F) -> bool {
    &&& forall|a: A, b: B| call_requires(f, (a, b))
    &&& forall|a: A, b: B, r1: R, r2: R|
        call_ensures(f, (a, b), r1) && call_ensures(f, (a, b), r2) ==> r1 == r2
}

/// The smallest `p * 2^j` (for `p >= 1`) that is at least `n`.
pub open spec fn ceil_pow2(n: int, p: int) -> int
    decreases (if p >= n { 0 } else { n - p }),
    when p >= 1
{
    if p >= n {
        p
    } else {
        ceil_pow2(n, 2 * p)
    }
}

/// `ceil_pow2` is at least its start and at least `n`, and a power of two
/// when started from one.
pub proof fn lemma_ceil_pow2(n: int, p: int)
    requires
        p >= 1,
    ensures
        ceil_pow2(n, p) >= p,
        ceil_pow2(n, p) >= n,
        is_pow2(p) ==> is_pow2(ceil_pow2(n, p)),
    decreases (if p >= n { 0 } else { n - p }),
{
    if p < n {
        lemma_ceil_pow2(n, 2 * p);
        assert((2 * p) / 2 == p);
    }
}

/// Internal node `k` combines its children, or it and its children still
/// hold the initial value.
pub open spec fn combined_or_fresh<T>(op: spec_fn(T, T) -> T, nodes: Seq<T>, ini: T, k: int) -> bool {
    combined(op, nodes, k) || (nodes[k] == ini && nodes[2 * k + 1] == ini && nodes[2 * k + 2] == ini)
}

/// Some leaf below `n` lies under node `k`.
pub open spec fn touched(n2: int, n: int, k: int) -> bool {
    exists|i: int| 0 <= i < n && #[trigger] on_path(k, leaf_index(n2, i))
}

/// A segment tree over the operation `pair_op`, with leaves `0..n2`.
#[derive(Clone)]
#[verifier::reject_recursive_types(T)]
pub struct SegmentTree<T, F: Fn(T, T) -> T> {
    n2: usize,
    neff: usize,
    dat: Vec<T>,
    pair_op: F,
    ini: Ghost<T>,
}

impl<T: Copy, F: Fn(T, T) -> T> SegmentTree<T, F> {
    /// The number of leaves (a power of two).
    pub closed spec fn size(self) -> int {
        self.n2 as int
    }

    /// The number of leaves the tree was built for.
    pub closed spec fn len(self) -> int {
        self.neff as int
    }

    /// All nodes, root first; leaf `i` is at `leaf_index(size, i)`.
    pub closed spec fn nodes(self) -> Seq<T> {
        self.dat@
    }

    /// The combining closure.
    pub closed spec fn function(self) -> F {
        self.pair_op
    }

    /// The value every node started with.
    pub closed spec fn ini(self) -> T {
        self.ini@
    }

    /// The combining operation on values.
    pub open spec fn op(self) -> spec_fn(T, T) -> T {
        op_of(self.function())
    }

    /// The leaf values.
    pub open spec fn leaf_values(self) -> Seq<T> {
        leaves(self.nodes(), self.size())
    }

    /// The shape invariant: a power-of-two number of leaves, a function-like
    /// operation, and every internal node either combining its children or
    /// still holding the initial value over children that do.
    pub closed spec fn wf(self) -> bool {
        let n2 = self.n2 as int;
        &&& is_pow2(n2)
        &&& 2 * n2 <= usize::MAX
        &&& self.dat@.len() == 2 * n2 - 1
        &&& self.neff <= self.n2
        &&& is_function2(self.pair_op)
        &&& forall|k: int|
            0 <= k < n2 - 1 ==> #[trigger] combined_or_fresh(self.op(), self.dat@, self.ini@, k)
    }

    /// The shape: a power of two of leaves, at least as many as the tree was
    /// built for, and `2 * size - 1` nodes.
    pub proof fn lemma_shape(self)
        requires
            self.wf(),
        ensures
            is_pow2(self.size()),
            self.size() >= 1,
            2 * self.size() <= usize::MAX,
            self.nodes().len() == 2 * self.size() - 1,
            self.len() <= self.size(),
    {
    }

    /// The number of leaves.
    pub fn leaf_num(&self) -> (r: usize)
        ensures
            r == self.size(),
    {
        self.n2
    }

    /// With an initial value that the operation keeps (`op(ini, ini) == ini`)
    /// every internal node combines its children.
    pub proof fn lemma_all_combined(self)
        requires
            self.wf(),
            (self.op())(self.ini(), self.ini()) == self.ini(),
        ensures
            all_combined(self.op(), self.nodes(), self.size()),
            self.nodes().len() == 2 * self.size() - 1,
            is_pow2(self.size()),
    {
        assert forall|k: int| 0 <= k < self.size() - 1 implies #[trigger] combined(self.op(), self.nodes(), k) by {
            assert(combined_or_fresh(self.op(), self.dat@, self.ini@, k));
        }
    }

    /// A tree with at least `n` leaves, all holding `ini_val`; the nodes
    /// above the first `n` leaves combine their children, the others hold
    /// `ini_val`.
    pub fn new(n: usize, pair_op: F, ini_val: T) -> (s: Self)
        requires
            is_function2(pair_op),
            2 * ceil_pow2(n as int, 1) <= usize::MAX,
        ensures
            s.wf(),
            s.size() == ceil_pow2(n as int, 1),
            s.len() == n,
            s.function() == pair_op,
            s.ini() == ini_val,
            forall|i: int| 0 <= i < s.size() ==> #[trigger] s.leaf_values()[i] == ini_val,
            forall|k: int|
                0 <= k < s.size() - 1 ==> (if touched(s.size(), n as int, k) {
                    combined(s.op(), s.nodes(), k)
                } else {
                    s.nodes()[k] == ini_val
                }),
    {
        let ghost c = ceil_pow2(n as int, 1);
        proof {
            lemma_ceil_pow2(n as int, 1);
        }
        let mut n2: usize = 1;
        while n > n2
            invariant
                n2 >= 1,
                is_pow2(n2 as int),
                ceil_pow2(n as int, n2 as int) == c,
                n2 <= c,
                2 * c <= usize::MAX,
            decreases c - n2,
        {
            proof {
                lemma_ceil_pow2(n as int, 2 * n2);
                assert((2 * n2) / 2 == n2 as int);
            }
            n2 = n2 * 2;
        }
        let mut dat: Vec<T> = Vec::new();
        let len = 2 * n2 - 1;
        while dat.len() < len
            invariant
                len == 2 * n2 - 1,
                dat@.len() <= len,
                forall|k: int| 0 <= k < dat@.len() ==> #[trigger] dat@[k] == ini_val,
            decreases len - dat@.len(),
        {
            dat.push(ini_val);
        }
        let mut s = SegmentTree { n2, neff: n, dat, pair_op, ini: Ghost(ini_val) };
        proof {
            assert forall|k: int| 0 <= k < n2 - 1 implies #[trigger] combined_or_fresh(s.op(), s.dat@, s.ini@, k) by {}
        }
        let mut i: usize = 0;
        while i < n
            invariant
                s.wf(),
                s.n2 == n2,
                s.neff == n,
                s.pair_op == pair_op,
                s.ini@ == ini_val,
                n <= n2,
                i <= n,
                forall|j: int| 0 <= j < n2 ==> #[trigger] s.dat@[leaf_index(n2 as int, j)] == ini_val,
                forall|k: int|
                    0 <= k < n2 - 1 ==> (if touched(n2 as int, i as int, k) {
                        combined(s.op(), s.dat@, k)
                    } else {
                        s.dat@[k] == ini_val
                    }),
            decreases n - i,
        {
            let ghost prev = s.dat@;
            s.set(i, ini_val);
            proof {
                let xi = leaf_index(n2 as int, i as int);
                assert forall|j: int| 0 <= j < n2 implies #[trigger] s.dat@[leaf_index(n2 as int, j)] == ini_val by {
                    assert(s.dat@[leaf_index(n2 as int, j)] == s.leaf_values()[j]);
                    assert(prev[leaf_index(n2 as int, j)] == leaves(prev, n2 as int)[j]);
                }
                assert forall|k: int| 0 <= k < n2 - 1 implies (if touched(n2 as int, i + 1, k) {
                    combined(s.op(), s.dat@, k)
                } else {
                    s.dat@[k] == ini_val
                }) by {
                    if on_path(k, xi) {
                        assert(touched(n2 as int, i + 1, k));
                    } else {
                        assert(s.dat@[k] == prev[k]);
                        if touched(n2 as int, i + 1, k) {
                            let j = choose|j: int| 0 <= j < i + 1 && #[trigger] on_path(k, leaf_index(n2 as int, j));
                            assert(j != i);
                            assert(touched(n2 as int, i as int, k));
                            if on_path(2 * k + 1, xi) || on_path(2 * k + 2, xi) {
                                lemma_child_on_path(k, xi);
                            }
                        } else {
                            if touched(n2 as int, i as int, k) {
                                let j = choose|j: int| 0 <= j < i && #[trigger] on_path(k, leaf_index(n2 as int, j));
                                assert(touched(n2 as int, i + 1, k));
                            }
                        }
                    }
                }
            }
            i = i + 1;
        }
        proof {
            assert forall|i: int| 0 <= i < s.size() implies #[trigger] s.leaf_values()[i] == ini_val by {
                assert(s.leaf_values()[i] == s.dat@[leaf_index(n2 as int, i)]);
            }
        }
        s
    }

    /// Store `val` at leaf `pos` and recompute the nodes above it.
    pub fn set(&mut self, pos: usize, val: T)
        requires
            old(self).wf(),
            pos < old(self).size(),
        ensures
            final(self).wf(),
            final(self).size() == old(self).size(),
            final(self).len() == old(self).len(),
            final(self).function() == old(self).function(),
            final(self).ini() == old(self).ini(),
            final(self).nodes().len() == old(self).nodes().len(),
            final(self).nodes()[leaf_index(old(self).size(), pos as int)] == val,
            final(self).leaf_values() == old(self).leaf_values().update(pos as int, val),
            forall|k: int|
                0 <= k < old(self).nodes().len() && !on_path(k, leaf_index(old(self).size(), pos as int))
                    ==> #[trigger] final(self).nodes()[k] == old(self).nodes()[k],
            forall|k: int|
                0 <= k < old(self).size() - 1 && on_path(k, leaf_index(old(self).size(), pos as int))
                    ==> #[trigger] combined(final(self).op(), final(self).nodes(), k),
    {
        let ghost old_dat = self.dat@;
        let ghost n2 = self.n2 as int;
        let ghost op = self.op();
        let ghost ini = self.ini@;
        let ghost neff0 = self.neff;
        let ghost f0 = self.pair_op;
        assert(forall|k: int| 0 <= k < n2 - 1 ==> #[trigger] combined_or_fresh(op, old_dat, ini, k));
        let x = pos + self.n2 - 1;
        let ghost xi = x as int;
        self.dat[x] = val;
        let mut p = x;
        proof {
            assert forall|y: int| on_path(y, xi) && y != xi implies y < n2 - 1 by {
                lemma_on_path_le(y, xi);
                lemma_on_path_above(y, xi, xi);
                lemma_on_path_le(y, parent(xi));
            }
            assert forall|k: int| 0 <= k < n2 - 1 && !(on_path(k, xi) && k < p) implies #[trigger] combined_or_fresh(self.op(), self.dat@, self.ini@, k) by {
                if !on_path(k, xi) {
                    assert(combined_or_fresh(op, old_dat, ini, k));
                    if on_path(2 * k + 1, xi) || on_path(2 * k + 2, xi) {
                        lemma_child_on_path(k, xi);
                    }
                } else {
                    lemma_on_path_le(k, xi);
                }
            }
            assert forall|k: int| 0 <= k < n2 - 1 && on_path(k, xi) && k >= p && k != xi implies #[trigger] combined(self.op(), self.dat@, k) by {
                lemma_on_path_le(k, xi);
            }
        }
        while p > 0
            invariant
                is_pow2(n2),
                n2 == self.n2,
                2 * n2 <= usize::MAX,
                self.dat@.len() == 2 * n2 - 1,
                self.neff <= self.n2,
                is_function2(self.pair_op),
                self.pair_op == f0,
                self.neff == neff0,
                self.ini@ == ini,
                op == self.op(),
                xi == leaf_index(n2, pos as int),
                0 <= pos < n2,
                x == xi,
                0 <= p <= x,
                on_path(p as int, xi),
                self.dat@[xi] == val,
                forall|y: int| on_path(y, xi) && y != xi ==> y < n2 - 1,
                forall|k: int| 0 <= k < 2 * n2 - 1 && !on_path(k, xi) ==> #[trigger] self.dat@[k] == old_dat[k],
                forall|k: int| 0 <= k < 2 * n2 - 1 && on_path(k, xi) && k < p ==> #[trigger] self.dat@[k] == old_dat[k],
                forall|k: int| 0 <= k < n2 - 1 && on_path(k, xi) && k >= p && k != xi ==> #[trigger] combined(self.op(), self.dat@, k),
                forall|k: int| 0 <= k < n2 - 1 && !(on_path(k, xi) && k < p) ==> #[trigger] combined_or_fresh(self.op(), self.dat@, self.ini@, k),
            decreases p,
        {
            let ghost prev = self.dat@;
            let ghost pc = p as int;
            p = (p - 1) / 2;
            proof {
                lemma_on_path_parent(pc, xi);
                assert(p as int == parent(pc));
                assert(p < n2 - 1) by {
                    // the leaf x is at index n2 - 1 + pos, its ancestors below n2 - 1
                    assert(pc <= xi);
                    assert(2 * p + 1 <= pc);
                    assert(pc < 2 * n2 - 1);
                }
            }
            let v = self.combine(self.dat[p * 2 + 1], self.dat[p * 2 + 2]);
            self.dat[p] = v;
            proof {
                let pi = p as int;
                assert forall|k: int| 0 <= k < n2 - 1 && on_path(k, xi) && k >= pi && k != xi implies #[trigger] combined(self.op(), self.dat@, k) by {
                    if k != pi {
                        if k < pc {
                            lemma_on_path_above(k, pc, xi);
                            lemma_on_path_le(k, pi);
                        }
                        assert(combined(self.op(), prev, k));
                    }
                }
                assert forall|k: int| 0 <= k < n2 - 1 && !(on_path(k, xi) && k < pi) implies #[trigger] combined_or_fresh(self.op(), self.dat@, self.ini@, k) by {
                    if k != pi {
                        if on_path(k, xi) && k < pc {
                            lemma_on_path_above(k, pc, xi);
                            lemma_on_path_le(k, pi);
                        }
                        if on_path(k, xi) && k >= pc {
                            lemma_on_path_le(xi, xi);
                            assert(combined(op, prev, k));
                        }
                        assert(combined_or_fresh(op, prev, ini, k));
                        if !on_path(k, xi) {
                            if 2 * k + 1 == pi || 2 * k + 2 == pi {
                                lemma_child_on_path(k, xi);
                            }
                        } else {
                            if k < pc {
                                lemma_on_path_above(k, pc, xi);
                                lemma_on_path_le(k, pi);
                            }
                        }
                    }
                }
            }
        }
        proof {
            assert(self.leaf_values() =~= leaves(old_dat, n2).update(pos as int, val)) by {
                assert forall|j: int| 0 <= j < n2 implies #[trigger] self.leaf_values()[j] == leaves(old_dat, n2).update(pos as int, val)[j] by {
                    let y = leaf_index(n2, j);
                    assert(self.leaf_values()[j] == self.dat@[y]);
                    if j != pos {
                        assert(!on_path(y, xi));
                    }
                }
            }
        }
    }

    /// The value at leaf `pos`.
    pub fn get(&self, pos: usize) -> (r: T)
        requires
            self.wf(),
            pos < self.size(),
        ensures
            r == self.nodes()[leaf_index(self.size(), pos as int)],
            r == self.leaf_values()[pos as int],
    {
        self.dat[pos + self.n2 - 1]
    }

    /// The range query for `a..b` at node `node` covering `node_l..node_r`.
    pub fn query_sub(&self, a: usize, b: usize, node: usize, node_l: usize, node_r: usize) -> (r: T)
        requires
            self.wf(),
            tree_node(self.size(), node as int, node_l as int, node_r as int),
            a < node_r,
            node_l < b,
            a < b,
        ensures
            r == query_value(self.op(), self.nodes(), a as int, b as int, node as int, node_l as int, node_r as int),
            associative(self.op()) && (self.op())(self.ini(), self.ini()) == self.ini() ==> r == fold1(
                self.op(),
                self.leaf_values().subrange(
                    if a < node_l { node_l as int } else { a as int },
                    if b < node_r { b as int } else { node_r as int },
                ),
            ),
        decreases node_r - node_l,
    {
        proof {
            lemma_tree_node(self.size(), node as int, node_l as int, node_r as int);
            if associative(self.op()) && (self.op())(self.ini(), self.ini()) == self.ini() {
                self.lemma_all_combined();
                lemma_query_fold(self.op(), self.nodes(), self.size(), a as int, b as int, node as int, node_l as int, node_r as int);
            }
        }
        if a <= node_l && node_r <= b {
            self.dat[node]
        } else {
            let m = (node_l + node_r) / 2;
            if a < m {
                let vl = self.query_sub(a, b, node * 2 + 1, node_l, m);
                if m < b {
                    let vr = self.query_sub(a, b, node * 2 + 2, m, node_r);
                    self.combine(vl, vr)
                } else {
                    vl
                }
            } else {
                self.query_sub(a, b, node * 2 + 2, m, node_r)
            }
        }
    }

    /// The query over the closed range `a..=b`.
    pub fn query(&self, a: usize, b: usize) -> (r: T)
        requires
            self.wf(),
            a <= b,
            a < self.size(),
            b < usize::MAX,
        ensures
            r == query_value(self.op(), self.nodes(), a as int, b + 1, 0, 0, self.size()),
            associative(self.op()) && (self.op())(self.ini(), self.ini()) == self.ini() ==> r == fold1(
                self.op(),
                self.leaf_values().subrange(a as int, if b + 1 < self.size() { b + 1 } else { self.size() }),
            ),
    {
        proof {
            lemma_root(self.size());
            if associative(self.op()) && (self.op())(self.ini(), self.ini()) == self.ini() {
                self.lemma_query_is_fold(a as int, b as int);
            }
        }
        self.query_sub(a, b + 1, 0, 0, self.n2)
    }

    /// With an associative operation and an initial value that it keeps
    /// (`op(ini, ini) == ini`), the query over `a..=b` folds the leaves
    /// `a..=b` (clipped to the tree) from the left.
    pub proof fn lemma_query_is_fold(self, a: int, b: int)
        requires
            self.wf(),
            associative(self.op()),
            (self.op())(self.ini(), self.ini()) == self.ini(),
            0 <= a <= b,
            a < self.size(),
        ensures
            query_value(self.op(), self.nodes(), a, b + 1, 0, 0, self.size()) == fold1(
                self.op(),
                self.leaf_values().subrange(a, if b + 1 < self.size() { b + 1 } else { self.size() }),
            ),
    {
        self.lemma_all_combined();
        lemma_root(self.size());
        lemma_query_fold(self.op(), self.nodes(), self.size(), a, b + 1, 0, 0, self.size());
    }

    fn combine(&self, a: T, b: T) -> (r: T)
        requires
            is_function2(self.pair_op),
        ensures
            r == (self.op())(a, b),
    {
        (self.pair_op)(a, b)
    }
}

} // verus!
