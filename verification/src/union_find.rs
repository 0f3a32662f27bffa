//! Disjoint-set union with path compression, group sizes and an adjacency
//! record of every union made.
use vstd::prelude::*;

verus! {

/// The number of indices `i < j` with `s[i] == r`.
pub open spec fn count_rep_upto(s: Seq<nat>, r: nat, j: nat) -> nat
    decreases j,
{
    if j == 0 {
        0
    } else {
        count_rep_upto(s, r, (j - 1) as nat) + (if s[j - 1] == r { 1nat } else { 0nat })
    }
}

/// The number of elements of `s` equal to `r`: the size of the group whose
/// representative is `r`.
pub open spec fn count_rep(s: Seq<nat>, r: nat) -> nat {
    count_rep_upto(s, r, s.len())
}

/// The number of indices `i < j` with `s[i] == i`.
pub open spec fn count_fixed_upto(s: Seq<nat>, j: nat) -> nat
    decreases j,
{
    if j == 0 {
        0
    } else {
        count_fixed_upto(s, (j - 1) as nat) + (if s[j - 1] == (j - 1) as nat { 1nat } else { 0nat })
    }
}

/// The number of indices that are their own representative: the number of
/// groups.
pub open spec fn count_fixed(s: Seq<nat>) -> nat {
    count_fixed_upto(s, s.len())
}

/// Representatives after merging the group of `from` into the group of `into`.
pub open spec fn merged(s: Seq<nat>, into: nat, from: nat) -> Seq<nat> {
    Seq::new(s.len(), |i: int| if s[i] == from { into } else { s[i] })
}

/// The adjacency lists as sequences.
pub open spec fn lists_view(g: Seq<Vec<usize>>) -> Seq<Seq<usize>> {
    Seq::new(g.len(), |i: int| g[i]@)
}

/// Merging the group `b` into the group `a` adds its members to `a`,
/// empties `b` and leaves every other group alone.
pub proof fn lemma_merged_counts(s: Seq<nat>, a: nat, b: nat, r: nat, j: nat)
    requires
        a != b,
        j <= s.len(),
    ensures
        count_rep_upto(merged(s, a, b), a, j) == count_rep_upto(s, a, j) + count_rep_upto(s, b, j),
        count_rep_upto(merged(s, a, b), b, j) == 0,
        r != a && r != b ==> count_rep_upto(merged(s, a, b), r, j) == count_rep_upto(s, r, j),
    decreases j,
{
    if j > 0 {
        lemma_merged_counts(s, a, b, r, (j - 1) as nat);
    }
}

/// Two different groups together have at most `j` members below `j`.
pub proof fn lemma_two_counts_bound(s: Seq<nat>, a: nat, b: nat, j: nat)
    requires
        a != b,
        j <= s.len(),
    ensures
        count_rep_upto(s, a, j) + count_rep_upto(s, b, j) <= j,
    decreases j,
{
    if j > 0 {
        lemma_two_counts_bound(s, a, b, (j - 1) as nat);
    }
}

/// Merging the group of the representative `b` into that of `a` leaves one
/// representative fewer.
pub proof fn lemma_merged_fixed(s: Seq<nat>, a: nat, b: nat, j: nat)
    requires
        a != b,
        a < s.len(),
        b < s.len(),
        s[a as int] == a,
        s[b as int] == b,
        j <= s.len(),
    ensures
        count_fixed_upto(merged(s, a, b), j) + (if b < j { 1nat } else { 0nat })
            == count_fixed_upto(s, j),
        count_fixed_upto(s, j) >= (if a < j { 1nat } else { 0nat }) + (if b < j { 1nat } else { 0nat }),
    decreases j,
{
    if j > 0 {
        lemma_merged_fixed(s, a, b, (j - 1) as nat);
    }
}

/// In the identity assignment every index is alone in its group.
pub proof fn lemma_identity_counts(n: nat, r: nat, j: nat)
    requires
        j <= n,
    ensures
        count_rep_upto(Seq::new(n, |i: int| i as nat), r, j) == (if r < j { 1nat } else { 0nat }),
        count_fixed_upto(Seq::new(n, |i: int| i as nat), j) == j,
    decreases j,
{
    if j > 0 {
        lemma_identity_counts(n, r, (j - 1) as nat);
    }
}

/// Each index names a representative that represents itself.
pub open spec fn is_root_assignment(s: Seq<nat>) -> bool {
    forall|i: int| 0 <= i < s.len() ==> #[trigger] s[i] < s.len() && s[s[i] as int] == s[i]
}

/// The representatives after `unite(a, b)`.
pub open spec fn united(s: Seq<nat>, a: int, b: int) -> Seq<nat> {
    if s[a] == s[b] {
        s
    } else {
        merged(s, s[a], s[b])
    }
}

/// After `unite(a, b)`, `a` and `b` share a group; two elements share a group
/// exactly when they did before or each was in the group of `a` or of `b`;
/// the result is again a valid assignment of representatives.
pub proof fn lemma_unite_groups(s: Seq<nat>, a: int, b: int, x: int, y: int)
    requires
        is_root_assignment(s),
        0 <= a < s.len(),
        0 <= b < s.len(),
        0 <= x < s.len(),
        0 <= y < s.len(),
    ensures
        united(s, a, b)[a] == united(s, a, b)[b],
        (united(s, a, b)[x] == united(s, a, b)[y]) <==> (s[x] == s[y] || ((s[x] == s[a] || s[x]
            == s[b]) && (s[y] == s[a] || s[y] == s[b]))),
        is_root_assignment(united(s, a, b)),
{
    let t = united(s, a, b);
    assert forall|i: int| 0 <= i < t.len() implies #[trigger] t[i] < t.len() && t[t[i] as int] == t[i] by {
        assert(s[i] < s.len());
        assert(s[s[i] as int] == s[i]);
        assert(s[s[a] as int] == s[a]);
    }
}

/// `unite(a, b)` lowers the number of groups by one when `a` and `b` were
/// apart, and the merged group has the two sizes added.
pub proof fn lemma_unite_counts(s: Seq<nat>, a: int, b: int)
    requires
        is_root_assignment(s),
        0 <= a < s.len(),
        0 <= b < s.len(),
    ensures
        count_fixed(united(s, a, b)) + (if s[a] != s[b] { 1nat } else { 0nat }) == count_fixed(s),
        s[a] != s[b] ==> count_rep(united(s, a, b), united(s, a, b)[a]) == count_rep(s, s[a])
            + count_rep(s, s[b]),
{
    if s[a] != s[b] {
        assert(s[s[a] as int] == s[a]);
        assert(s[s[b] as int] == s[b]);
        lemma_merged_fixed(s, s[a], s[b], s.len());
        lemma_merged_counts(s, s[a], s[b], 0, s.len());
    }
}

/// The indices below `j` that are their own representative.
pub open spec fn fixed_below(s: Seq<nat>, j: nat) -> Set<nat> {
    Set::new(|r: nat| r < j && s[r as int] == r)
}

/// The representatives that some index of `s` names: the groups.
pub open spec fn named_roots(s: Seq<nat>) -> Set<nat> {
    Set::new(|r: nat| exists|i: int| 0 <= i < s.len() && s[i] == r)
}

/// The number of indices `i < j` whose representative is below `k`.
pub open spec fn below_count(s: Seq<nat>, k: nat, j: nat) -> nat
    decreases j,
{
    if j == 0 {
        0
    } else {
        below_count(s, k, (j - 1) as nat) + (if s[j - 1] < k { 1nat } else { 0nat })
    }
}

/// The sizes of the groups whose representative is below `k`, added up.
pub open spec fn group_size_sum(s: Seq<nat>, k: nat) -> nat
    decreases k,
{
    if k == 0 {
        0
    } else {
        group_size_sum(s, (k - 1) as nat) + (if s[k - 1] == (k - 1) as nat {
            count_rep(s, (k - 1) as nat)
        } else {
            0nat
        })
    }
}

/// `count_fixed_upto` counts the set of fixed indices below `j`.
proof fn lemma_fixed_below(s: Seq<nat>, j: nat)
    requires
        j <= s.len(),
    ensures
        fixed_below(s, j).finite(),
        fixed_below(s, j).len() == count_fixed_upto(s, j),
    decreases j,
{
    if j == 0 {
        assert(fixed_below(s, 0) =~= Set::empty());
    } else {
        let k = (j - 1) as nat;
        lemma_fixed_below(s, k);
        if s[k as int] == k {
            assert(fixed_below(s, j) =~= fixed_below(s, k).insert(k));
        } else {
            assert(fixed_below(s, j) =~= fixed_below(s, k));
        }
    }
}

/// A representative that is not its own names no index.
proof fn lemma_no_members(s: Seq<nat>, r: nat, j: nat)
    requires
        is_root_assignment(s),
        r < s.len(),
        s[r as int] != r,
        j <= s.len(),
    ensures
        count_rep_upto(s, r, j) == 0,
    decreases j,
{
    if j > 0 {
        lemma_no_members(s, r, (j - 1) as nat);
        assert(s[s[j - 1] as int] == s[j - 1]);
    }
}

/// Counting the indices with representative below `k + 1` adds those with
/// representative `k`.
proof fn lemma_below_step(s: Seq<nat>, k: nat, j: nat)
    requires
        j <= s.len(),
    ensures
        below_count(s, k + 1, j) == below_count(s, k, j) + count_rep_upto(s, k, j),
    decreases j,
{
    if j > 0 {
        lemma_below_step(s, k, (j - 1) as nat);
    }
}

/// The groups with representative below `k` hold the indices whose
/// representative is below `k`.
proof fn lemma_group_size_sum(s: Seq<nat>, k: nat)
    requires
        is_root_assignment(s),
        k <= s.len(),
    ensures
        group_size_sum(s, k) == below_count(s, k, s.len()),
    decreases k,
{
    if k == 0 {
        lemma_below_zero(s, s.len());
    } else {
        let r = (k - 1) as nat;
        lemma_group_size_sum(s, r);
        lemma_below_step(s, r, s.len());
        if s[r as int] != r {
            lemma_no_members(s, r, s.len());
        }
    }
}

/// No representative is below zero.
proof fn lemma_below_zero(s: Seq<nat>, j: nat)
    ensures
        below_count(s, 0, j) == 0,
    decreases j,
{
    if j > 0 {
        lemma_below_zero(s, (j - 1) as nat);
    }
}

/// Every representative of a valid assignment is below its length.
proof fn lemma_below_all(s: Seq<nat>, j: nat)
    requires
        is_root_assignment(s),
        j <= s.len(),
    ensures
        below_count(s, s.len(), j) == j,
    decreases j,
{
    if j > 0 {
        lemma_below_all(s, (j - 1) as nat);
        assert(s[j - 1] < s.len());
    }
}

/// For a valid assignment of representatives, the number of indices that
/// are their own representative is the number of distinct representatives
/// named, and the sizes of the groups add up to the number of elements.
pub proof fn lemma_group_count(s: Seq<nat>)
    requires
        is_root_assignment(s),
    ensures
        named_roots(s).finite(),
        count_fixed(s) == named_roots(s).len(),
        group_size_sum(s, s.len()) == s.len(),
{
    assert forall|r: nat| named_roots(s).contains(r) <==> fixed_below(s, s.len()).contains(r) by {
        if named_roots(s).contains(r) {
            let i = choose|i: int| 0 <= i < s.len() && s[i] == r;
            assert(s[s[i] as int] == s[i]);
        }
        if fixed_below(s, s.len()).contains(r) {
            assert(0 <= r < s.len() && s[r as int] == r);
        }
    }
    assert(named_roots(s) =~= fixed_below(s, s.len()));
    lemma_fixed_below(s, s.len());
    lemma_group_size_sum(s, s.len());
    lemma_below_all(s, s.len());
}

/// Disjoint-set union over `0..n`.
#[derive(Clone)]
pub struct UnionFind {
    /// Every pair passed to `unite`, recorded in both directions.
    pub graph: Vec<Vec<usize>>,
    parents: Vec<usize>,
    grp_sz: Vec<usize>,
    grp_num: usize,
    rep: Ghost<Seq<nat>>,
    rank: Ghost<Seq<nat>>,
    max_rank: Ghost<nat>,
}

impl UnionFind {
    /// The number of elements.
    pub closed spec fn len(self) -> nat {
        self.parents@.len()
    }

    /// The adjacency lists in `graph`.
    pub closed spec fn lists(self) -> Seq<Seq<usize>> {
        lists_view(self.graph@)
    }

    /// The representative (root) of each element's group.
    pub closed spec fn roots(self) -> Seq<nat> {
        self.rep@
    }

    /// The internal invariant: parents lead, through strictly increasing
    /// ranks, to the roots recorded in `roots`, and the group sizes and the
    /// group count agree with `roots`.
    pub closed spec fn wf(self) -> bool {
        let n = self.parents@.len();
        let p = self.parents@;
        let rep = self.rep@;
        let rank = self.rank@;
        &&& self.grp_sz@.len() == n
        &&& self.graph@.len() == n
        &&& rep.len() == n
        &&& rank.len() == n
        &&& forall|v: int| 0 <= v < n ==> #[trigger] p[v] < n
        &&& forall|v: int| 0 <= v < n ==> #[trigger] rep[v] < n
        &&& forall|v: int| 0 <= v < n ==> p[rep[v] as int] == #[trigger] rep[v]
        &&& forall|v: int| 0 <= v < n ==> #[trigger] rep[p[v] as int] == rep[v]
        &&& forall|v: int| 0 <= v < n && #[trigger] p[v] == v ==> rep[v] == v
        &&& forall|v: int|
            0 <= v < n && #[trigger] p[v] != v ==> rank[v] < rank[p[v] as int]
        &&& forall|v: int| 0 <= v < n ==> #[trigger] rank[v] <= self.max_rank@
        &&& forall|v: int| 0 <= v < n ==> rank[v] <= #[trigger] rank[rep[v] as int]
        &&& forall|r: int|
            0 <= r < n ==> #[trigger] self.grp_sz@[r] == (if rep[r] == r {
                count_rep(rep, r as nat)
            } else {
                0
            })
        &&& self.grp_num == count_fixed(rep)
    }

    /// The representatives of a well-formed structure form a valid
    /// assignment: `group_num` counts the distinct groups and the group
    /// sizes add up to the number of elements; there is one adjacency list
    /// per element.
    pub proof fn lemma_roots_valid(self)
        requires
            self.wf(),
        ensures
            is_root_assignment(self.roots()),
            self.roots().len() == self.len(),
            self.lists().len() == self.len(),
            count_fixed(self.roots()) == named_roots(self.roots()).len(),
            group_size_sum(self.roots(), self.len()) == self.len(),
    {
        assert forall|i: int| 0 <= i < self.rep@.len() implies #[trigger] self.rep@[i] < self.rep@.len()
            && self.rep@[self.rep@[i] as int] == self.rep@[i] by {
            assert(self.parents@[self.rep@[i] as int] == self.rep@[i]);
        }
        lemma_group_count(self.roots());
    }

    /// `sz` singleton groups `{0}, {1}, ..., {sz - 1}`, with no unions recorded.
    pub fn new(sz: usize) -> (uf: Self)
        ensures
            uf.wf(),
            uf.len() == sz,
            uf.roots() == Seq::new(sz as nat, |i: int| i as nat),
            uf.lists() == Seq::new(sz as nat, |i: int| Seq::<usize>::empty()),
    {
        let mut graph: Vec<Vec<usize>> = Vec::new();
        let mut parents: Vec<usize> = Vec::new();
        let mut grp_sz: Vec<usize> = Vec::new();
        let mut i: usize = 0;
        while i < sz
            invariant
                i <= sz,
                graph@.len() == i,
                parents@.len() == i,
                grp_sz@.len() == i,
                forall|j: int| 0 <= j < i ==> #[trigger] graph@[j]@ == Seq::<usize>::empty(),
                forall|j: int| 0 <= j < i ==> #[trigger] parents@[j] == j,
                forall|j: int| 0 <= j < i ==> #[trigger] grp_sz@[j] == 1,
            decreases sz - i,
        {
            graph.push(Vec::new());
            parents.push(i);
            grp_sz.push(1);
            i = i + 1;
        }
        let ghost rep = Seq::new(sz as nat, |i: int| i as nat);
        let uf = UnionFind {
            graph,
            parents,
            grp_sz,
            grp_num: sz,
            rep: Ghost(rep),
            rank: Ghost(Seq::new(sz as nat, |i: int| 0nat)),
            max_rank: Ghost(0),
        };
        proof {
            assert forall|r: int| 0 <= r < sz implies #[trigger] uf.grp_sz@[r] == (if rep[r] == r {
                count_rep(rep, r as nat)
            } else {
                0
            }) by {
                lemma_identity_counts(sz as nat, r as nat, sz as nat);
            }
            lemma_identity_counts(sz as nat, 0, sz as nat);
            assert(lists_view(uf.graph@) =~= Seq::new(sz as nat, |i: int| Seq::<usize>::empty()));
        }
        uf
    }

    /// The root of `v`'s group (compressing the path to it).
    pub fn root(&mut self, v: usize) -> (r: usize)
        requires
            old(self).wf(),
            v < old(self).len(),
        ensures
            final(self).wf(),
            r == old(self).roots()[v as int],
            final(self).roots() == old(self).roots(),
            final(self).lists() == old(self).lists(),
            final(self).len() == old(self).len(),
    {
        self.find(v)
    }

    /// Whether `a` and `b` are in the same group.
    pub fn same(&mut self, a: usize, b: usize) -> (r: bool)
        requires
            old(self).wf(),
            a < old(self).len(),
            b < old(self).len(),
        ensures
            final(self).wf(),
            r == (old(self).roots()[a as int] == old(self).roots()[b as int]),
            final(self).roots() == old(self).roots(),
            final(self).lists() == old(self).lists(),
            final(self).len() == old(self).len(),
    {
        let ra = self.find(a);
        let rb = self.find(b);
        ra == rb
    }

    /// The number of groups.
    pub fn group_num(&self) -> (r: usize)
        requires
            self.wf(),
        ensures
            r == count_fixed(self.roots()),
            r == named_roots(self.roots()).len(),
    {
        proof {
            self.lemma_roots_valid();
        }
        self.grp_num
    }

    /// The number of elements in `a`'s group.
    pub fn group_size(&mut self, a: usize) -> (r: usize)
        requires
            old(self).wf(),
            a < old(self).len(),
        ensures
            final(self).wf(),
            r == count_rep(old(self).roots(), old(self).roots()[a as int]),
            final(self).roots() == old(self).roots(),
            final(self).lists() == old(self).lists(),
            final(self).len() == old(self).len(),
    {
        let ra = self.find(a);
        proof {
            assert(self.parents@[self.rep@[a as int] as int] == self.rep@[a as int]);
            assert(self.rep@[ra as int] == ra);
        }
        self.grp_sz[ra]
    }

    /// Record the edge `into`–`from` and merge the group of `from` into the
    /// group of `into`.
    pub fn unite(&mut self, into: usize, from: usize)
        requires
            old(self).wf(),
            into < old(self).len(),
            from < old(self).len(),
        ensures
            final(self).wf(),
            final(self).len() == old(self).len(),
            final(self).roots() == united(old(self).roots(), into as int, from as int),
            final(self).lists() == ({
                let g1 = old(self).lists().update(into as int, old(self).lists()[into as int].push(from));
                g1.update(from as int, g1[from as int].push(into))
            }),
    {
        let ghost g0 = self.lists();
        self.graph[into].push(from);
        let ghost g1 = g0.update(into as int, g0[into as int].push(from));
        proof { assert(self.lists() =~= g1); }
        self.graph[from].push(into);
        proof {
            assert(self.lists() =~= g1.update(from as int, g1[from as int].push(into)));
        }
        let ghost lists_after = self.lists();
        let r_into = self.find(into);
        let r_from = self.find(from);
        if r_into != r_from {
            let ghost s = *self;
            let ghost rep = self.rep@;
            let ghost n = self.parents@.len();
            proof {
                assert(s.parents@[rep[into as int] as int] == rep[into as int]);
                assert(s.parents@[rep[from as int] as int] == rep[from as int]);
                assert(rep[r_into as int] == r_into);
                assert(rep[r_from as int] == r_from);
                lemma_two_counts_bound(rep, r_into as nat, r_from as nat, n);
                lemma_merged_fixed(rep, r_into as nat, r_from as nat, n);
            }
            self.parents[r_from] = r_into;
            proof {
                assert(s.grp_sz@[r_into as int] == count_rep(rep, r_into as nat));
                assert(s.grp_sz@[r_from as int] == count_rep(rep, r_from as nat));
                assert(s.parents.len() == n);
            }
            let sum = self.grp_sz[r_into] + self.grp_sz[r_from];
            self.grp_sz[r_into] = sum;
            self.grp_sz[r_from] = 0;
            self.grp_num = self.grp_num - 1;
            proof {
                let ri = r_into as nat;
                let rf = r_from as nat;
                let new_rank = if s.rank@[ri as int] > s.rank@[rf as int] { s.rank@[ri as int] } else { s.rank@[rf as int] + 1 };
                self.rep = Ghost(merged(rep, ri, rf));
                self.rank = Ghost(s.rank@.update(ri as int, new_rank));
                self.max_rank = Ghost(if new_rank > s.max_rank@ { new_rank } else { s.max_rank@ });
                let pp = self.parents@;
                let rep2 = self.rep@;
                let rank = s.rank@;
                let rank2 = self.rank@;
                assert forall|v: int| 0 <= v < n implies #[trigger] rep2[pp[v] as int] == rep2[v] by {
                    if v != rf {
                        assert(rep[s.parents@[v] as int] == rep[v]);
                    }
                }
                assert forall|v: int| 0 <= v < n implies pp[rep2[v] as int] == #[trigger] rep2[v] by {
                    assert(s.parents@[rep[v] as int] == rep[v]);
                }
                assert forall|v: int| 0 <= v < n && #[trigger] pp[v] == v implies rep2[v] == v by {
                    if v != rf {
                        assert(s.parents@[v] == v);
                    }
                }
                assert forall|v: int| 0 <= v < n && #[trigger] pp[v] != v implies rank2[v] < rank2[pp[v] as int] by {
                    if v != rf {
                        assert(s.parents@[v] != v);
                        assert(rank[v] < rank[s.parents@[v] as int]);
                    }
                }
                assert forall|v: int| 0 <= v < n implies #[trigger] rank2[v] <= self.max_rank@ by {
                    assert(rank[v] <= s.max_rank@);
                }
                assert forall|v: int| 0 <= v < n implies rank2[v] <= #[trigger] rank2[rep2[v] as int] by {
                    assert(rank[v] <= rank[rep[v] as int]);
                    assert(rank[rf as int] <= rank[rep[rf as int] as int]);
                }
                assert forall|r: int| 0 <= r < n implies #[trigger] self.grp_sz@[r] == (if rep2[r] == r {
                    count_rep(rep2, r as nat)
                } else {
                    0
                }) by {
                    lemma_merged_counts(rep, ri, rf, r as nat, n);
                    assert(s.grp_sz@[r] == (if rep[r] == r { count_rep(rep, r as nat) } else { 0 }));
                    assert(s.grp_sz@[ri as int] == count_rep(rep, ri));
                    assert(s.grp_sz@[rf as int] == count_rep(rep, rf));
                }
                assert(rep2.len() == n);
            }
        }
        proof {
            assert(self.lists() == lists_after);
        }
    }

    /// The root of `v`, compressing the path from `v` to it.
    fn find(&mut self, v: usize) -> (r: usize)
        requires
            old(self).wf(),
            v < old(self).len(),
        ensures
            final(self).wf(),
            r == old(self).rep@[v as int],
            final(self).rep == old(self).rep,
            final(self).rank == old(self).rank,
            final(self).max_rank == old(self).max_rank,
            final(self).graph == old(self).graph,
            final(self).grp_sz == old(self).grp_sz,
            final(self).grp_num == old(self).grp_num,
            final(self).parents@.len() == old(self).parents@.len(),
        decreases old(self).max_rank@ - old(self).rank@[v as int],
    {
        let p = self.parents[v];
        if v == p {
            return v;
        }
        proof {
            assert(self.rank@[v as int] < self.rank@[p as int]);
            assert(self.rank@[p as int] <= self.max_rank@);
        }
        let ghost old_self = *self;
        let r = self.find(p);
        proof {
            assert(old_self.rep@[p as int] == old_self.rep@[v as int]);
            assert(old_self.rank@[p as int] <= old_self.rank@[old_self.rep@[p as int] as int]);
        }
        self.parents[v] = r;
        proof {
            let n = self.parents@.len();
            let pp = self.parents@;
            let rep = self.rep@;
            let rank = self.rank@;
            assert(old_self.parents@[rep[v as int] as int] == rep[v as int]);
            assert(rep[v as int] != v);
            assert forall|u: int| 0 <= u < n implies #[trigger] rep[pp[u] as int] == rep[u] by {
                if u != v {
                    assert(rep[pp[u] as int] == rep[u]);
                }
            }
            assert forall|u: int| 0 <= u < n && #[trigger] pp[u] != u implies rank[u] < rank[pp[u] as int] by {
                if u != v {
                    assert(rank[u] < rank[pp[u] as int]);
                }
            }
            assert forall|u: int| 0 <= u < n implies pp[rep[u] as int] == #[trigger] rep[u] by {
                assert(rep[u] < n);
                if rep[u] as int == v as int {
                    assert(old_self.parents@[rep[u] as int] == rep[u]);
                }
            }
            assert forall|u: int| 0 <= u < n && #[trigger] pp[u] == u implies rep[u] == u by {
                if u != v {
                }
            }
        }
        r
    }
}

} // verus!
