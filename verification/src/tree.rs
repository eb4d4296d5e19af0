//! Minimum-spanning-tree construction over a dense distance matrix, and the
//! threshold-based graph-cut clustering derived from the tree's edges.
//!
//! Distances are fixed-point integers (millionths of a unit). The builder is
//! Prim's dense variant rooted at node zero, with ties broken toward the
//! smallest node index by an ascending scan.

use vstd::prelude::*;
use vstd::relations::sorted_by;
use crate::error::PcaTreeError;
use crate::stats::le_order;
use crate::stats::lemma_le_order_total;
use crate::stats::lemma_multiset_range;
use crate::stats::median_spec;
use crate::stats::median_sorted;
use crate::stats::sorted_copy;
use crate::LEN_LIMIT;
use crate::K_LIMIT;

verus! {

/// An edge of the tree: parent node, child node, length of the connection.
pub type Edge = (usize, usize, i64);

/// How many entries of a boolean sequence are true.
pub open spec fn count_true(s: Seq<bool>) -> nat
    decreases s.len(),
{
    if s.len() == 0 {
        0
    } else {
        count_true(s.drop_last()) + (if s.last() {
            1nat
        } else {
            0nat
        })
    }
}

pub(crate) proof fn lemma_count_true_le(s: Seq<bool>)
    ensures
        count_true(s) <= s.len(),
    decreases s.len(),
{
    if s.len() > 0 {
        lemma_count_true_le(s.drop_last());
    }
}

pub(crate) proof fn lemma_count_true_of_all(s: Seq<bool>)
    requires
        forall|i: int| 0 <= i < s.len() ==> s[i],
    ensures
        count_true(s) == s.len(),
    decreases s.len(),
{
    if s.len() > 0 {
        lemma_count_true_of_all(s.drop_last());
    }
}

pub(crate) proof fn lemma_count_true_some_false(s: Seq<bool>)
    requires
        count_true(s) < s.len(),
    ensures
        exists|i: int| 0 <= i < s.len() && !s[i],
{
    if forall|i: int| 0 <= i < s.len() ==> s[i] {
        lemma_count_true_of_all(s);
        assert(false);
    }
}

pub(crate) proof fn lemma_count_true_update(s: Seq<bool>, i: int, b: bool)
    requires
        0 <= i < s.len(),
    ensures
        count_true(s.update(i, b)) == count_true(s) - (if s[i] {
            1int
        } else {
            0int
        }) + (if b {
            1int
        } else {
            0int
        }),
    decreases s.len(),
{
    let t = s.update(i, b);
    if i == s.len() - 1 {
        assert(t.drop_last() =~= s.drop_last());
    } else {
        assert(t.drop_last() =~= s.drop_last().update(i, b));
        lemma_count_true_update(s.drop_last(), i, b);
    }
}

/// `rank` orders the `n` nodes with node zero first and each edge's parent
/// strictly below its child.
pub open spec fn rank_respects(edges: Seq<Edge>, n: nat, rank: Seq<int>) -> bool {
    &&& rank.len() == n
    &&& (n > 0 ==> rank[0] == 0)
    &&& forall|x: int| 0 <= x < n ==> 0 <= #[trigger] rank[x] < 2 * n
    &&& forall|j: int|
        0 <= j < edges.len() ==> #[trigger] rank[edges[j].0 as int] < rank[edges[j].1 as int]
}

/// The edges form a forest whose parent links all lead toward node zero:
/// some ranking of the `n` nodes puts node zero at rank zero and each edge's
/// parent strictly below its child.
pub open spec fn rooted_at_zero(edges: Seq<Edge>, n: nat) -> bool {
    exists|rank: Seq<int>| #[trigger] rank_respects(edges, n, rank)
}

/// Every node named by an edge lies below `n`.
pub open spec fn edge_nodes_below(edges: Seq<Edge>, n: int) -> bool {
    forall|j: int| 0 <= j < edges.len() ==> (#[trigger] edges[j]).0 < n && edges[j].1 < n
}

/// Every edge length is non-negative.
pub open spec fn lens_nonneg(edges: Seq<Edge>) -> bool {
    forall|j: int| 0 <= j < edges.len() ==> (#[trigger] edges[j]).2 >= 0
}

/// The sum of the edge lengths.
pub open spec fn total_len_spec(edges: Seq<Edge>) -> int
    decreases edges.len(),
{
    if edges.len() == 0 {
        0
    } else {
        total_len_spec(edges.drop_last()) + edges.last().2
    }
}


/// The lengths of the edges, in edge order.
pub open spec fn lens_of(edges: Seq<Edge>) -> Seq<i64> {
    edges.map_values(|e: Edge| e.2)
}

/// The lengths of the edges, sorted ascending.
pub open spec fn sorted_lens(edges: Seq<Edge>) -> Seq<i64> {
    lens_of(edges).sort_by(le_order())
}

/// Every edge length stays within the threshold arithmetic's bound.
pub open spec fn lens_bounded(edges: Seq<Edge>) -> bool {
    forall|j: int| 0 <= j < edges.len() ==> (#[trigger] edges[j]).2 <= LEN_LIMIT
}

/// The gap between two consecutive sorted lengths.
pub open spec fn gap_at(s: Seq<i64>, i: int) -> int {
    s[i + 1] - s[i]
}

/// `i` carries the widest gap of the sorted lengths `s`, and is the first
/// index to do so; with all gaps equal it is index zero.
pub open spec fn is_elbow_index(s: Seq<i64>, i: int) -> bool {
    &&& 0 <= i < s.len() - 1
    &&& forall|j: int| 0 <= j < s.len() - 1 ==> #[trigger] gap_at(s, j) <= gap_at(s, i)
    &&& forall|j: int| 0 <= j < i ==> #[trigger] gap_at(s, j) < gap_at(s, i)
}

/// Absolute deviations of the sorted lengths from their median.
pub open spec fn dev_seq(s: Seq<i64>, med: int) -> Seq<i64> {
    s.map_values(|x: i64| (if x >= med { x - med } else { med - x }) as i64)
}

/// The median absolute deviation of the edge lengths: the median of the
/// sorted absolute deviations from the median length.
pub open spec fn mad_of(edges: Seq<Edge>) -> int {
    let s = sorted_lens(edges);
    median_spec(dev_seq(s, median_spec(s)).sort_by(le_order()))
}

/// The robust threshold: median length plus `k_num / k_den` times the median
/// absolute deviation, in floored fixed-point arithmetic.
pub open spec fn robust_spec(edges: Seq<Edge>, k_num: i64, k_den: i64) -> int {
    median_spec(sorted_lens(edges)) + (k_num * mad_of(edges)) / (k_den as int)
}

/// The median absolute deviation floored to one millionth of a unit, the
/// smallest positive length, so that normalized scores stay defined.
pub open spec fn mad_floored(edges: Seq<Edge>) -> int {
    let m = mad_of(edges);
    if m < 1 {
        1
    } else {
        m
    }
}

/// Sorted length `i` lies past the midpoint and its normalized score
/// `(s[i] - med) / mad` exceeds seven halves, stated without division.
pub open spec fn auto_qualifies(s: Seq<i64>, med: int, mad: int, i: int) -> bool {
    &&& i > s.len() as int / 2
    &&& 2 * (s[i] - med) > 7 * mad
}

/// `i` is the first qualifying index of the automatic robust scan.
pub open spec fn is_first_qualifying(s: Seq<i64>, med: int, mad: int, i: int) -> bool {
    &&& 0 <= i < s.len()
    &&& auto_qualifies(s, med, mad, i)
    &&& forall|j: int| 0 <= j < i ==> !#[trigger] auto_qualifies(s, med, mad, j)
}

/// Where the automatic scan falls back: the eighty-fifth percentile index,
/// clamped to the last valid index.
pub open spec fn fallback_index(len: int) -> int {
    if 85 * len / 100 < len - 1 {
        85 * len / 100
    } else {
        len - 1
    }
}

/// `c` is the elbow threshold of the edges: the lower endpoint of the first
/// widest gap of the sorted lengths.
pub open spec fn is_elbow_value(edges: Seq<Edge>, c: i64) -> bool {
    let s = sorted_lens(edges);
    exists|i: int| #[trigger] is_elbow_index(s, i) && c == s[i]
}

/// `c` is the automatic robust threshold of the edges: the first sorted
/// length past the midpoint whose normalized deviation score exceeds the
/// outlier cutoff, or the eighty-fifth percentile length if none does.
pub open spec fn is_auto_value(edges: Seq<Edge>, c: i64) -> bool {
    let s = sorted_lens(edges);
    let med = median_spec(s);
    let mad = mad_floored(edges);
    if exists|i: int| #[trigger] is_first_qualifying(s, med, mad, i) {
        exists|i: int| #[trigger] is_first_qualifying(s, med, mad, i) && c == s[i]
    } else {
        c as int == s[fallback_index(s.len() as int)]
    }
}

/// Both endpoints of every edge no longer than `c` share a group.
pub open spec fn clustered_under(edges: Seq<Edge>, c: i64, groups: Seq<Seq<usize>>) -> bool {
    forall|j: int|
        0 <= j < edges.len() && (#[trigger] edges[j]).2 <= c ==> same_group(
            groups,
            edges[j].0 as int,
            edges[j].1 as int,
        )
}

/// The edges at most `max_len` long, as parent-child pairs in edge order.
pub open spec fn cut_pairs(edges: Seq<Edge>, max_len: i64) -> Seq<(usize, usize)>
    decreases edges.len(),
{
    if edges.len() == 0 {
        Seq::empty()
    } else {
        let p = cut_pairs(edges.drop_last(), max_len);
        let e = edges.last();
        if e.2 <= max_len {
            p.push((e.0, e.1))
        } else {
            p
        }
    }
}


/// How often node `v` occurs in one group.
pub open spec fn occ_in_group(g: Seq<usize>, v: int) -> nat
    decreases g.len(),
{
    if g.len() == 0 {
        0
    } else {
        occ_in_group(g.drop_last(), v) + (if g.last() as int == v {
            1nat
        } else {
            0nat
        })
    }
}

/// How often node `v` occurs across all groups.
pub open spec fn occ_total(groups: Seq<Seq<usize>>, v: int) -> nat
    decreases groups.len(),
{
    if groups.len() == 0 {
        0
    } else {
        occ_total(groups.drop_last(), v) + occ_in_group(groups.last(), v)
    }
}

/// The groups partition the nodes `0 .. n`: every such node occurs exactly
/// once over all groups, and nothing else occurs at all.
pub open spec fn exact_partition(groups: Seq<Seq<usize>>, n: int) -> bool {
    &&& forall|v: int| 0 <= v < n ==> occ_total(groups, v) == 1
    &&& forall|v: int| !(0 <= v < n) ==> occ_total(groups, v) == 0
}

proof fn lemma_occ_push(g: Seq<usize>, x: usize, v: int)
    ensures
        occ_in_group(g.push(x), v) == occ_in_group(g, v) + (if x as int == v {
            1nat
        } else {
            0nat
        }),
{
    assert(g.push(x).drop_last() =~= g);
}

proof fn lemma_occ_drop_first(s: Seq<usize>, v: int)
    requires
        s.len() >= 1,
    ensures
        occ_in_group(s, v) == occ_in_group(s.drop_first(), v) + (if s[0] as int == v {
            1nat
        } else {
            0nat
        }),
    decreases s.len(),
{
    if s.len() == 1 {
        assert(s.drop_last() =~= Seq::<usize>::empty());
        assert(s.drop_first() =~= Seq::<usize>::empty());
    } else {
        let t = s.drop_last();
        lemma_occ_drop_first(t, v);
        assert(t.drop_first() =~= s.drop_first().drop_last());
        assert(s.drop_first().last() == s.last());
    }
}

proof fn lemma_occ_absent(g: Seq<usize>, v: int)
    requires
        forall|t: int| 0 <= t < g.len() ==> (#[trigger] g[t] as int) != v,
    ensures
        occ_in_group(g, v) == 0,
    decreases g.len(),
{
    if g.len() > 0 {
        lemma_occ_absent(g.drop_last(), v);
    }
}

/// Both endpoints of every kept edge lie in a group together or in none.
pub open spec fn groups_edge_closed(
    edges: Seq<Edge>,
    max_len: i64,
    groups: Seq<Seq<usize>>,
) -> bool {
    forall|j: int, g: int|
        0 <= j < edges.len() && (#[trigger] edges[j]).2 <= max_len && 0 <= g < groups.len() ==> (
        occ_in_group(#[trigger] groups[g], edges[j].0 as int) > 0 <==> occ_in_group(
            groups[g],
            edges[j].1 as int,
        ) > 0)
}

/// The kept-edge partner of every node of the current component is visited.
pub open spec fn comp_edge_closed(
    edges: Seq<Edge>,
    max_len: i64,
    comp: Seq<usize>,
    visited: Seq<bool>,
) -> bool {
    forall|j: int|
        0 <= j < edges.len() && (#[trigger] edges[j]).2 <= max_len ==> (occ_in_group(
            comp,
            edges[j].0 as int,
        ) > 0 ==> visited[edges[j].1 as int]) && (occ_in_group(comp, edges[j].1 as int) > 0
            ==> visited[edges[j].0 as int])
}

/// Kept edges have both their adjacency entries.
pub open spec fn adj_has_edges(edges: Seq<Edge>, max_len: i64, adj: Seq<Vec<usize>>) -> bool {
    forall|j: int|
        0 <= j < edges.len() && (#[trigger] edges[j]).2 <= max_len ==> adj[edges[j].0 as int]@.contains(
            edges[j].1,
        ) && adj[edges[j].1 as int]@.contains(edges[j].0)
}

proof fn lemma_occ_group_le_total(groups: Seq<Seq<usize>>, g: int, v: int)
    requires
        0 <= g < groups.len(),
    ensures
        occ_in_group(groups[g], v) <= occ_total(groups, v),
    decreases groups.len(),
{
    if g < groups.len() - 1 {
        lemma_occ_group_le_total(groups.drop_last(), g, v);
        assert(groups.drop_last()[g] == groups[g]);
    }
}


proof fn lemma_occ_elem(g: Seq<usize>, t: int)
    requires
        0 <= t < g.len(),
    ensures
        occ_in_group(g, g[t] as int) > 0,
    decreases g.len(),
{
    if t < g.len() - 1 {
        lemma_occ_elem(g.drop_last(), t);
    }
}

proof fn lemma_groups_disjoint(groups: Seq<Seq<usize>>, g1: int, g2: int, v: int)
    requires
        0 <= g1 < groups.len(),
        0 <= g2 < groups.len(),
        g1 != g2,
        occ_in_group(groups[g1], v) > 0,
        occ_in_group(groups[g2], v) > 0,
    ensures
        occ_total(groups, v) >= 2,
    decreases groups.len(),
{
    let last = groups.len() - 1;
    if g2 == last {
        lemma_occ_group_le_total(groups.drop_last(), g1, v);
        assert(groups.drop_last()[g1] == groups[g1]);
    } else if g1 == last {
        lemma_occ_group_le_total(groups.drop_last(), g2, v);
        assert(groups.drop_last()[g2] == groups[g2]);
    } else {
        lemma_groups_disjoint(groups.drop_last(), g1, g2, v);
    }
}

proof fn lemma_same_group_trans(groups: Seq<Seq<usize>>, n: int, a: int, b: int, c: int)
    requires
        exact_partition(groups, n),
        0 <= b < n,
        same_group(groups, a, b),
        same_group(groups, b, c),
    ensures
        same_group(groups, a, c),
{
    let g1 = choose|g: int| #[trigger] in_group(groups, g, a) && in_group(groups, g, b);
    let g2 = choose|g: int| #[trigger] in_group(groups, g, b) && in_group(groups, g, c);
    if g1 != g2 {
        lemma_groups_disjoint(groups, g1, g2, b);
    }
    assert(in_group(groups, g1, a) && in_group(groups, g1, c));
}

proof fn lemma_connected_to_root(
    edges: Seq<Edge>,
    n: int,
    cut: i64,
    groups: Seq<Seq<usize>>,
    rank: Seq<int>,
    v: int,
)
    requires
        0 <= v < n,
        n - 1 == edges.len(),
        forall|j: int| 0 <= j < n - 1 ==> (#[trigger] edges[j]).1 == j + 1,
        forall|j: int| 0 <= j < n - 1 ==> (#[trigger] edges[j]).0 < n && edges[j].0 != j + 1,
        forall|j: int| 0 <= j < edges.len() ==> (#[trigger] edges[j]).2 <= cut,
        rank_respects(edges, n as nat, rank),
        exact_partition(groups, n),
        clustered_under(edges, cut, groups),
    ensures
        same_group(groups, 0, v),
    decreases rank[v],
{
    if v == 0 {
        assert(occ_total(groups, 0) == 1);
        lemma_occ_total_pos(groups, 0);
        let g = choose|g: int| 0 <= g < groups.len() && occ_in_group(#[trigger] groups[g], 0) > 0;
        assert(in_group(groups, g, 0) && in_group(groups, g, 0));
    } else {
        let p = edges[v - 1].0 as int;
        assert(edges[v - 1].1 == v);
        assert(same_group(groups, p, edges[v - 1].1 as int));
        assert(rank[p] < rank[v]);
        lemma_connected_to_root(edges, n, cut, groups, rank, p);
        lemma_same_group_trans(groups, n, 0, p, v);
    }
}

/// A built tree is connected: cut at or above every edge length, the cluster
/// extraction returns a single group spanning all the nodes.
pub proof fn lemma_full_cut_single_group(
    dm: Seq<Seq<i64>>,
    edges: Seq<Edge>,
    cut: i64,
    groups: Seq<Seq<usize>>,
)
    requires
        valid_build(dm, edges),
        forall|j: int| 0 <= j < edges.len() ==> (#[trigger] edges[j]).2 <= cut,
        exact_partition(groups, dm.len() as int),
        clustered_under(edges, cut, groups),
        forall|g: int| 0 <= g < groups.len() ==> (#[trigger] groups[g]).len() > 0,
    ensures
        groups.len() == 1,
{
    let n = dm.len() as int;
    let rank = choose|rank: Seq<int>| #[trigger] rank_respects(edges, n as nat, rank);
    assert(occ_total(groups, 0) == 1);
    lemma_occ_total_pos(groups, 0);
    let g0 = choose|g: int| 0 <= g < groups.len() && occ_in_group(#[trigger] groups[g], 0) > 0;
    assert forall|g: int| 0 <= g < groups.len() implies #[trigger] groups[g] == groups[g0] && g == g0 by {
        let x = groups[g][0] as int;
        lemma_occ_elem(groups[g], 0);
        lemma_occ_group_le_total(groups, g, x);
        assert(occ_total(groups, x) > 0);
        assert(0 <= x < n);
        lemma_connected_to_root(edges, n, cut, groups, rank, x);
        let gc = choose|gc: int| #[trigger] in_group(groups, gc, 0) && in_group(groups, gc, x);
        if gc != g0 {
            lemma_groups_disjoint(groups, gc, g0, 0);
        }
        if gc != g {
            lemma_groups_disjoint(groups, gc, g, x);
        }
    }
    assert(groups.len() >= 1) by {
        lemma_occ_total_pos(groups, 0);
    }
    if groups.len() >= 2 {
        assert(groups[0] == groups[g0]);
        assert(groups[1] == groups[g0]);
        assert(false);
    }
}

/// Node `v` lies in group `g`.
pub open spec fn in_group(groups: Seq<Seq<usize>>, g: int, v: int) -> bool {
    0 <= g < groups.len() && occ_in_group(groups[g], v) > 0
}

/// Some group holds both `a` and `b`.
pub open spec fn same_group(groups: Seq<Seq<usize>>, a: int, b: int) -> bool {
    exists|g: int| #[trigger] in_group(groups, g, a) && in_group(groups, g, b)
}

proof fn lemma_occ_total_pos(groups: Seq<Seq<usize>>, v: int)
    requires
        occ_total(groups, v) > 0,
    ensures
        exists|g: int| 0 <= g < groups.len() && occ_in_group(#[trigger] groups[g], v) > 0,
    decreases groups.len(),
{
    if occ_in_group(groups.last(), v) > 0 {
        assert(0 <= groups.len() - 1 < groups.len() && occ_in_group(
            groups[groups.len() - 1],
            v,
        ) > 0);
    } else {
        lemma_occ_total_pos(groups.drop_last(), v);
        let g = choose|g: int|
            0 <= g < groups.drop_last().len() && occ_in_group(
                #[trigger] groups.drop_last()[g],
                v,
            ) > 0;
        assert(groups[g] == groups.drop_last()[g]);
    }
}

proof fn lemma_occ_total_push(groups: Seq<Seq<usize>>, g: Seq<usize>, v: int)
    ensures
        occ_total(groups.push(g), v) == occ_total(groups, v) + occ_in_group(g, v),
{
    assert(groups.push(g).drop_last() =~= groups);
}

/// What the builder guarantees of its edges over the distance matrix `dm`
/// it was given: one edge per child node in order, parents in range and
/// distinct from their child, each length the matrix entry from parent to
/// child, node zero the parent of some edge, and all parent links leading
/// toward node zero.
pub open spec fn valid_build(dm: Seq<Seq<i64>>, edges: Seq<Edge>) -> bool {
    let n = dm.len() as int;
    &&& n >= 1
    &&& edges.len() == n - 1
    &&& forall|j: int| 0 <= j < n - 1 ==> (#[trigger] edges[j]).1 == j + 1
    &&& forall|j: int| 0 <= j < n - 1 ==> (#[trigger] edges[j]).0 < n && edges[j].0 != j + 1
    &&& forall|j: int|
        0 <= j < n - 1 ==> (#[trigger] edges[j]).2 == dm[edges[j].0 as int][j + 1]
    &&& (n >= 2 ==> exists|j: int| 0 <= j < n - 1 && (#[trigger] edges[j]).0 == 0)
    &&& rooted_at_zero(edges, n as nat)
}


/// Node `v` is the parent or the child of some edge.
pub open spec fn node_touched(edges: Seq<Edge>, v: int) -> bool {
    exists|j: int| 0 <= j < edges.len() && ((#[trigger] edges[j]).0 == v || edges[j].1 == v)
}

/// Every node of a built tree is touched by at least one edge: node zero as
/// a parent, every other node as the child of its own edge.
pub proof fn lemma_build_covers_nodes(dm: Seq<Seq<i64>>, edges: Seq<Edge>)
    requires
        valid_build(dm, edges),
        dm.len() >= 2,
    ensures
        forall|v: int| 0 <= v < dm.len() ==> #[trigger] node_touched(edges, v),
{
    let n = dm.len() as int;
    assert forall|v: int| 0 <= v < n implies #[trigger] node_touched(edges, v) by {
        if v == 0 {
            let j = choose|j: int| 0 <= j < n - 1 && (#[trigger] edges[j]).0 == 0;
            assert(0 <= j < edges.len() && (edges[j].0 == v || edges[j].1 == v));
        } else {
            assert(edges[v - 1].1 == v);
            assert(0 <= v - 1 < edges.len() && (edges[v - 1].0 == v || edges[v - 1].1 == v));
        }
    }
}

/// A spanning tree as an ordered sequence of parent-child edges, rooted at
/// node zero by construction.
pub struct MstTree {
    pub edges: Vec<Edge>,
}

impl MstTree {
    /// The number of edges.
    pub fn len(&self) -> (r: usize)
        ensures
            r == self.edges@.len(),
    {
        self.edges.len()
    }

    /// The total length of the tree, exact in a wide integer.
    pub fn total_length(&self) -> (r: i128)
        ensures
            r as int == total_len_spec(self.edges@),
    {
        let n = self.edges.len();
        let mut sum: i128 = 0;
        let mut i: usize = 0;
        while i < n
            invariant
                0 <= i <= n,
                n == self.edges@.len(),
                sum as int == total_len_spec(self.edges@.subrange(0, i as int)),
                -(i as int) * 0x8000_0000_0000_0000 <= sum as int,
                sum as int <= (i as int) * 0x7fff_ffff_ffff_ffff,
            decreases n - i,
        {
            let ghost pre = self.edges@.subrange(0, i as int);
            let ghost cur = self.edges@.subrange(0, i as int + 1);
            assert(cur.drop_last() =~= pre);
            assert(cur.last() == self.edges@[i as int]);
            sum = sum + self.edges[i].2 as i128;
            i += 1;
        }
        assert(self.edges@.subrange(0, n as int) =~= self.edges@);
        sum
    }

    /// Prim's algorithm, dense variant, over the complete graph whose
    /// distance from node `i` to node `j` is `dist[i][j]`, rooted at node
    /// zero. Edges come out in child order `1..n`; each edge's length is the
    /// matrix entry from its parent to its child; the parent links form a
    /// tree rooted at node zero. An empty matrix is rejected.
    #[verifier::rlimit(60)]
    pub fn build(dist: &Vec<Vec<i64>>) -> (r: Result<MstTree, PcaTreeError>)
        requires
            forall|i: int|
                0 <= i < dist@.len() ==> (#[trigger] dist.deep_view()[i]).len() == dist@.len(),
            forall|i: int, j: int|
                0 <= i < dist@.len() && 0 <= j < dist@.len() ==> 0 <= #[trigger] dist.deep_view()[i][j]
                    < i64::MAX,
        ensures
            match r {
                Ok(t) => valid_build(dist.deep_view(), t.edges@),
                Err(PcaTreeError::Dimension) => dist@.len() == 0,
                _ => false,
            },
    {
        let ghost dm = dist.deep_view();
        let n = dist.len();
        if n == 0 {
            return Err(PcaTreeError::Dimension);
        }
        let mut in_tree: Vec<bool> = Vec::new();
        let mut d: Vec<i64> = Vec::new();
        let mut parent: Vec<usize> = Vec::new();

        let mut i: usize = 0;
        while i < n
            invariant
                0 <= i <= n,
                n == dm.len(),
                dm == dist.deep_view(),
                n == dist@.len(),
                forall|a: int| 0 <= a < n ==> (#[trigger] dm[a]).len() == n,
                in_tree@.len() == i,
                d@.len() == i,
                parent@.len() == i,
                forall|a: int| 0 <= a < i ==> in_tree@[a] == (a == 0),
                forall|a: int| 0 <= a < i ==> parent@[a] == 0,
                forall|a: int| 0 <= a < i ==> d@[a] == dm[0][a],
            decreases n - i,
        {
            in_tree.push(i == 0);
            assert(dist@[0]@.len() == dm[0].len());
            d.push(dist[0][i]);
            parent.push(0);
            i += 1;
        }

        let ghost mut rank: Seq<int> = Seq::new(n as nat, |x: int| 0);
        proof {
            lemma_count_all_but_zero_false(in_tree@);
        }

        let mut step: usize = 1;
        while step < n - 1
            invariant
                1 <= step,
                step <= n,
                n == dm.len(),
                dm == dist.deep_view(),
                n == dist@.len(),
                forall|a: int| 0 <= a < n ==> (#[trigger] dm[a]).len() == n,
                forall|a: int, b: int|
                    0 <= a < n && 0 <= b < n ==> 0 <= #[trigger] dm[a][b] < i64::MAX,
                prim_inv(dm, in_tree@, d@, parent@, rank, step as int),
            decreases n - step,
        {
            // Select the not-yet-in-tree node with the smallest pending
            // distance; an ascending scan keeps the first minimum.
            let mut best: usize = 0;
            let mut best_d: i64 = i64::MAX;
            let mut found = false;
            let mut u: usize = 0;
            while u < n
                invariant
                    0 <= u <= n,
                    n == in_tree@.len(),
                    n == d@.len(),
                    forall|a: int| 0 <= a < n ==> 0 <= #[trigger] d@[a] < i64::MAX || in_tree@[a],
                    !found ==> best_d == i64::MAX,
                    found ==> best < n && !in_tree@[best as int] && d@[best as int] == best_d,
                    (exists|a: int| 0 <= a < u && !in_tree@[a]) ==> found,
                decreases n - u,
            {
                if !in_tree[u] && d[u] < best_d {
                    best = u;
                    best_d = d[u];
                    found = true;
                }
                u += 1;
            }
            proof {
                lemma_count_true_some_false(in_tree@);
            }
            assert(found);
            let v = best;

            let ghost pre_tree = in_tree@;
            in_tree[v] = true;
            proof {
                lemma_count_true_update(pre_tree, v as int, true);
                rank = rank.update(v as int, step as int);
                assert(exists|w: int| 1 <= w < n && in_tree@[w] && parent@[w] == 0) by {
                    if parent@[v as int] == 0 {
                        assert(1 <= v as int && (v as int) < n && in_tree@[v as int]
                            && parent@[v as int] == 0);
                    } else {
                        let w0 = choose|w: int|
                            1 <= w < n && pre_tree[w] && parent@[w] == 0;
                        assert(1 <= w0 < n && in_tree@[w0] && parent@[w0] == 0);
                    }
                }
            }

            let mut u: usize = 0;
            while u < n
                invariant
                    0 <= u <= n,
                    0 < v < n,
                    n == dm.len(),
                    dm == dist.deep_view(),
                    n == dist@.len(),
                    forall|a: int| 0 <= a < n ==> (#[trigger] dm[a]).len() == n,
                    forall|a: int, b: int|
                        0 <= a < n && 0 <= b < n ==> 0 <= #[trigger] dm[a][b] < i64::MAX,
                    in_tree@[v as int],
                    prim_inv(dm, in_tree@, d@, parent@, rank, step as int + 1),
                decreases n - u,
            {
                if !in_tree[u] {
                    assert(dm[v as int].len() == n);
                    assert(dist@[v as int]@.len() == dm[v as int].len());
                    let dd = dist[v][u];
                    if dd < d[u] {
                        d[u] = dd;
                        parent[u] = v;
                    }
                }
                u += 1;
            }
            step += 1;
        }

        let mut edges: Vec<Edge> = Vec::new();
        let mut c: usize = 1;
        while c < n
            invariant
                1 <= c <= n,
                n == dm.len(),
                n == d@.len(),
                n == parent@.len(),
                edges@.len() == c - 1,
                forall|j: int|
                    0 <= j < c - 1 ==> #[trigger] edges@[j] == (parent@[j + 1], (j + 1) as usize, d@[j
                        + 1]),
            decreases n - c,
        {
            edges.push((parent[c], c, d[c]));
            c += 1;
        }

        proof {
            let full_rank = Seq::new(n as nat, |x: int|
                if in_tree@[x] {
                    rank[x]
                } else {
                    n + x
                });
            assert(count_true(in_tree@) <= n) by {
                lemma_count_true_le(in_tree@);
            }
            assert forall|j: int| 0 <= j < edges@.len() implies #[trigger] full_rank[edges@[j].0 as int]
                < full_rank[edges@[j].1 as int] by {
                let p = edges@[j].0 as int;
                let ch = j + 1;
                assert(in_tree@[p]);
                if in_tree@[ch] {
                    assert(rank[p] < rank[ch]);
                } else {
                    assert(rank[p] < n);
                }
            }
            assert(rank_respects(edges@, n as nat, full_rank));
            assert(rooted_at_zero(edges@, n as nat));
            if n >= 2 {
                if exists|w: int| 1 <= w < n && in_tree@[w] && parent@[w] == 0 {
                    let w = choose|w: int| 1 <= w < n && in_tree@[w] && parent@[w] == 0;
                    assert(edges@[w - 1].0 == 0);
                } else {
                    assert(parent@[1] == 0);
                    assert(edges@[0].0 == 0);
                }
            }
            assert(valid_build(dm, edges@));
        }

        Ok(MstTree { edges })
    }

    /// The edge lengths, in edge order.
    fn edge_lens(&self) -> (r: Vec<i64>)
        ensures
            r@ == lens_of(self.edges@),
    {
        let n = self.edges.len();
        let mut r: Vec<i64> = Vec::new();
        let mut i: usize = 0;
        while i < n
            invariant
                0 <= i <= n,
                n == self.edges@.len(),
                r@ == lens_of(self.edges@.subrange(0, i as int)),
            decreases n - i,
        {
            r.push(self.edges[i].2);
            assert(r@ =~= lens_of(self.edges@.subrange(0, i as int + 1)));
            i += 1;
        }
        assert(self.edges@.subrange(0, n as int) =~= self.edges@);
        r
    }

    /// The edge lengths sorted ascending.
    fn sorted_edge_lens(&self) -> (r: Vec<i64>)
        ensures
            r@ == sorted_lens(self.edges@),
            r@.len() == self.edges@.len(),
            sorted_by(r@, le_order()),
            r@.to_multiset() == lens_of(self.edges@).to_multiset(),
    {
        let lens = self.edge_lens();
        let r = sorted_copy(&lens);
        proof {
            lemma_le_order_total();
            lens_of(self.edges@).lemma_sort_by_ensures(le_order());
            vstd::seq_lib::lemma_sorted_unique(r@, sorted_lens(self.edges@), le_order());
        }
        r
    }

    /// The elbow threshold: the lower endpoint of the widest gap between
    /// consecutive sorted edge lengths, the earliest such gap if several tie,
    /// the smallest length when all gaps are equal. Undefined below two
    /// edges; always within the range of the edge lengths.
    pub fn elbow_threshold(&self) -> (r: Option<i64>)
        requires
            lens_nonneg(self.edges@),
        ensures
            match r {
                None => self.edges@.len() < 2,
                Some(v) => {
                    let s = sorted_lens(self.edges@);
                    &&& self.edges@.len() >= 2
                    &&& is_elbow_value(self.edges@, v)
                    &&& s[0] <= v <= s[s.len() - 1]
                },
            },
    {
        let n = self.edges.len();
        if n < 2 {
            return None;
        }
        let s = self.sorted_edge_lens();
        proof {
            assert(forall|j: int|
                0 <= j < lens_of(self.edges@).len() ==> 0 <= #[trigger] lens_of(self.edges@)[j]
                    <= i64::MAX);
            lemma_multiset_range(lens_of(self.edges@), s@, 0, i64::MAX);
        }
        let mut best_i: usize = 0;
        let mut best_gap: i64 = 0;
        let mut i: usize = 0;
        while i < n - 1
            invariant
                0 <= i <= n - 1,
                2 <= n,
                n == s@.len(),
                sorted_by(s@, le_order()),
                forall|j: int| 0 <= j < n ==> 0 <= #[trigger] s@[j] <= i64::MAX,
                best_i < n - 1,
                best_i <= i,
                best_gap >= 0,
                forall|j: int| 0 <= j < i ==> #[trigger] gap_at(s@, j) <= best_gap,
                forall|j: int| 0 <= j < best_i ==> #[trigger] gap_at(s@, j) < best_gap,
                (best_i == 0 && best_gap == 0) || gap_at(s@, best_i as int) == best_gap,
            decreases n - 1 - i,
        {
            let gap = s[i + 1] - s[i];
            if gap > best_gap {
                best_gap = gap;
                best_i = i;
            }
            i += 1;
        }
        proof {
            assert(le_order()(s@[0], s@[1]));
            assert(gap_at(s@, 0) >= 0);
            assert(gap_at(s@, best_i as int) == best_gap);
            assert(is_elbow_index(s@, best_i as int));
            assert(le_order()(s@[0], s@[best_i as int]) || best_i == 0);
            assert(le_order()(s@[best_i as int], s@[s@.len() - 1]) || best_i as int == s@.len()
                - 1);
        }
        Some(s[best_i])
    }

    /// The robust threshold: median edge length plus `k_num / k_den` times
    /// the median absolute deviation. Undefined below two edges.
    pub fn robust_threshold(&self, k_num: i64, k_den: i64) -> (r: Option<i64>)
        requires
            lens_nonneg(self.edges@),
            lens_bounded(self.edges@),
            0 <= k_num <= K_LIMIT,
            1 <= k_den,
        ensures
            match r {
                None => self.edges@.len() < 2,
                Some(v) => self.edges@.len() >= 2 && v as int == robust_spec(
                    self.edges@,
                    k_num,
                    k_den,
                ),
            },
    {
        let n = self.edges.len();
        if n < 2 {
            return None;
        }
        let (med, mad) = self.median_and_mad();
        assert(0 <= k_num * mad <= K_LIMIT * LEN_LIMIT) by (nonlinear_arith)
            requires
                0 <= k_num <= K_LIMIT,
                0 <= mad <= LEN_LIMIT,
        ;
        let prod = k_num * mad;
        assert(0 <= prod / k_den <= prod) by (nonlinear_arith)
            requires
                0 <= prod,
                1 <= k_den,
        ;
        Some(med + prod / k_den)
    }

    /// The median edge length and the median absolute deviation, both over
    /// the sorted lengths.
    fn median_and_mad(&self) -> (r: (i64, i64))
        requires
            lens_nonneg(self.edges@),
            lens_bounded(self.edges@),
            self.edges@.len() >= 1,
        ensures
            r.0 as int == median_spec(sorted_lens(self.edges@)),
            r.1 as int == mad_of(self.edges@),
            0 <= r.0 <= LEN_LIMIT,
            0 <= r.1 <= LEN_LIMIT,
    {
        let s = self.sorted_edge_lens();
        proof {
            assert(forall|j: int|
                0 <= j < lens_of(self.edges@).len() ==> 0 <= #[trigger] lens_of(self.edges@)[j]
                    <= LEN_LIMIT);
            lemma_multiset_range(lens_of(self.edges@), s@, 0, LEN_LIMIT);
        }
        let med = median_sorted(&s);
        let ghost dspec = dev_seq(s@, med as int);
        let mut dev: Vec<i64> = Vec::new();
        let mut i: usize = 0;
        while i < s.len()
            invariant
                0 <= i <= s@.len(),
                dspec == dev_seq(s@, med as int),
                forall|j: int| 0 <= j < s@.len() ==> 0 <= #[trigger] s@[j] <= LEN_LIMIT,
                0 <= med <= LEN_LIMIT,
                dev@.len() == i,
                forall|j: int| 0 <= j < i ==> #[trigger] dev@[j] == dspec[j],
                forall|j: int| 0 <= j < i ==> 0 <= #[trigger] dev@[j] <= LEN_LIMIT,
            decreases s@.len() - i,
        {
            let x = s[i];
            let e: i64 = if x >= med {
                x - med
            } else {
                med - x
            };
            dev.push(e);
            i += 1;
        }
        assert(dev@ =~= dspec);
        let sdev = sorted_copy(&dev);
        proof {
            lemma_le_order_total();
            dspec.lemma_sort_by_ensures(le_order());
            vstd::seq_lib::lemma_sorted_unique(sdev@, dspec.sort_by(le_order()), le_order());
            lemma_multiset_range(dev@, sdev@, 0, LEN_LIMIT);
        }
        let mad = median_sorted(&sdev);
        (med, mad)
    }

    /// The automatic robust threshold: the first sorted length past the
    /// midpoint whose normalized deviation score exceeds the outlier cutoff,
    /// or the eighty-fifth percentile length if none does. Undefined below
    /// four edges; always within the range of the edge lengths.
    pub fn robust_threshold_auto(&self) -> (r: Option<i64>)
        requires
            lens_nonneg(self.edges@),
            lens_bounded(self.edges@),
        ensures
            match r {
                None => self.edges@.len() < 4,
                Some(v) => {
                    let s = sorted_lens(self.edges@);
                    &&& self.edges@.len() >= 4
                    &&& is_auto_value(self.edges@, v)
                    &&& s[0] <= v <= s[s.len() - 1]
                },
            },
    {
        let n = self.edges.len();
        if n < 4 {
            return None;
        }
        let (med, mad0) = self.median_and_mad();
        let mad = if mad0 < 1 {
            1
        } else {
            mad0
        };
        let s = self.sorted_edge_lens();
        proof {
            assert(forall|j: int|
                0 <= j < lens_of(self.edges@).len() ==> 0 <= #[trigger] lens_of(self.edges@)[j]
                    <= LEN_LIMIT);
            lemma_multiset_range(lens_of(self.edges@), s@, 0, LEN_LIMIT);
        }
        let mut i: usize = 0;
        while i < n
            invariant
                0 <= i <= n,
                4 <= n,
                n == s@.len(),
                n == self.edges@.len(),
                s@ == sorted_lens(self.edges@),
                sorted_by(s@, le_order()),
                forall|j: int| 0 <= j < n ==> 0 <= #[trigger] s@[j] <= LEN_LIMIT,
                0 <= med <= LEN_LIMIT,
                1 <= mad <= LEN_LIMIT,
                med as int == median_spec(sorted_lens(self.edges@)),
                mad as int == mad_floored(self.edges@),
                forall|j: int| 0 <= j < i ==> !#[trigger] auto_qualifies(s@, med as int, mad as int, j),
            decreases n - i,
        {
            if i > n / 2 && 2 * (s[i] - med) > 7 * mad {
                proof {
                    assert(auto_qualifies(s@, med as int, mad as int, i as int));
                    assert(is_first_qualifying(s@, med as int, mad as int, i as int));
                    assert(le_order()(s@[0], s@[i as int]) || i == 0);
                    assert(le_order()(s@[i as int], s@[s@.len() - 1]) || i as int == s@.len() - 1);
                }
                return Some(s[i]);
            }
            i += 1;
        }
        let idx128: u128 = (n as u128) * 85 / 100;
        let last = n - 1;
        let idx: usize = if idx128 < last as u128 {
            idx128 as usize
        } else {
            last
        };
        proof {
            assert(idx as int == fallback_index(s@.len() as int));
            assert(le_order()(s@[0], s@[idx as int]) || idx == 0);
            assert(le_order()(s@[idx as int], s@[s@.len() - 1]) || idx as int == s@.len() - 1);
        }
        Some(s[idx])
    }


    /// Clusters under an explicit cut: keep the edges no longer than
    /// `max_len`, and return the connected components of the remaining graph
    /// over the nodes `0 .. n_nodes`, found breadth-first from each unvisited
    /// node in ascending order. Every node lands in exactly one group; a node
    /// with no kept edge forms a singleton group.
    pub fn clusters_with_cut(&self, n_nodes: usize, max_len: i64) -> (out: Vec<Vec<usize>>)
        requires
            edge_nodes_below(self.edges@, n_nodes as int),
        ensures
            exact_partition(out.deep_view(), n_nodes as int),
            forall|g: int| 0 <= g < out@.len() ==> (#[trigger] out@[g])@.len() > 0,
            forall|j: int|
                0 <= j < self.edges@.len() && (#[trigger] self.edges@[j]).2 <= max_len
                    ==> same_group(
                    out.deep_view(),
                    self.edges@[j].0 as int,
                    self.edges@[j].1 as int,
                ),
    {
        let n = n_nodes;
        let m = self.edges.len();

        // Adjacency lists of the kept edges: for each node, the counterpart
        // of every kept edge that touches it, in edge order.
        let mut adj: Vec<Vec<usize>> = Vec::new();
        let mut a: usize = 0;
        while a < n
            invariant
                0 <= a <= n,
                m == self.edges@.len(),
                edge_nodes_below(self.edges@, n as int),
                adj@.len() == a,
                forall|x: int, t: int|
                    0 <= x < a && 0 <= t < adj@[x]@.len() ==> (#[trigger] adj@[x]@[t] as int) < n,
                forall|j: int|
                    0 <= j < m && (#[trigger] self.edges@[j]).2 <= max_len ==> ((
                    self.edges@[j].0 as int) < a ==> adj@[self.edges@[j].0 as int]@.contains(
                        self.edges@[j].1,
                    )) && ((self.edges@[j].1 as int) < a
                        ==> adj@[self.edges@[j].1 as int]@.contains(self.edges@[j].0)),
            decreases n - a,
        {
            let mut row: Vec<usize> = Vec::new();
            let mut e: usize = 0;
            while e < m
                invariant
                    0 <= e <= m,
                    m == self.edges@.len(),
                    a < n,
                    edge_nodes_below(self.edges@, n as int),
                    forall|t: int| 0 <= t < row@.len() ==> (#[trigger] row@[t] as int) < n,
                    forall|j: int|
                        0 <= j < e && (#[trigger] self.edges@[j]).2 <= max_len ==> ((
                        self.edges@[j].0 as int) == a ==> row@.contains(self.edges@[j].1)) && ((
                        self.edges@[j].1 as int) == a ==> row@.contains(self.edges@[j].0)),
                decreases m - e,
            {
                let ghost pre_row = row@;
                let ed = self.edges[e];
                if ed.2 <= max_len {
                    if ed.0 == a {
                        row.push(ed.1);
                    }
                    if ed.1 == a {
                        row.push(ed.0);
                    }
                }
                proof {
                    assert forall|x: usize| pre_row.contains(x) implies row@.contains(x) by {
                        let t = choose|t: int| 0 <= t < pre_row.len() && pre_row[t] == x;
                        assert(row@[t] == x);
                    }
                    if ed.2 <= max_len {
                        if ed.0 == a {
                            assert(row@[pre_row.len() as int] == ed.1);
                            assert(row@.contains(ed.1));
                        }
                        if ed.1 == a {
                            assert(row@.last() == ed.0);
                            assert(row@.contains(ed.0));
                        }
                    }
                }
                e += 1;
            }
            adj.push(row);
            a += 1;
        }

        let mut visited: Vec<bool> = Vec::new();
        let mut i: usize = 0;
        while i < n
            invariant
                0 <= i <= n,
                visited@.len() == i,
                forall|v: int| 0 <= v < i ==> !visited@[v],
            decreases n - i,
        {
            visited.push(false);
            i += 1;
        }

        let mut out: Vec<Vec<usize>> = Vec::new();
        proof {
            assert forall|v: int| occ_total(out.deep_view(), v) == 0 by {
                assert(out.deep_view() =~~= Seq::<Seq<usize>>::empty());
            }
        }
        let mut i: usize = 0;
        while i < n
            invariant
                0 <= i <= n,
                n == n_nodes,
                visited@.len() == n,
                adj@.len() == n,
                forall|x: int, t: int|
                    0 <= x < n && 0 <= t < adj@[x]@.len() ==> (#[trigger] adj@[x]@[t] as int) < n,
                forall|v: int| 0 <= v < i ==> visited@[v],
                forall|v: int|
                    0 <= v < n ==> occ_total(out.deep_view(), v) == (if visited@[v] {
                        1nat
                    } else {
                        0nat
                    }),
                forall|v: int| !(0 <= v < n) ==> occ_total(out.deep_view(), v) == 0,
                forall|g: int| 0 <= g < out@.len() ==> (#[trigger] out@[g])@.len() > 0,
                m == self.edges@.len(),
                edge_nodes_below(self.edges@, n as int),
                adj_has_edges(self.edges@, max_len, adj@),
                groups_edge_closed(self.edges@, max_len, out.deep_view()),
            decreases n - i,
        {
            if !visited[i] {
                let ghost pre_vis = visited@;
                let ghost pre_odv = out.deep_view();
                let mut queue: Vec<usize> = Vec::new();
                let mut head: usize = 0;
                let mut comp: Vec<usize> = Vec::new();
                visited[i] = true;
                queue.push(i);
                proof {
                    lemma_count_true_update(pre_vis, i as int, true);
                    lemma_count_true_le(visited@);
                    assert forall|v: int| 0 <= v < n implies occ_total(out.deep_view(), v)
                        + occ_in_group(comp@, v) + occ_in_group(
                        queue@.subrange(head as int, queue@.len() as int),
                        v,
                    ) == (if visited@[v] {
                        1nat
                    } else {
                        0nat
                    }) by {
                        lemma_occ_push(Seq::<usize>::empty(), i, v);
                        assert(queue@.subrange(0, 1) =~= Seq::<usize>::empty().push(i));
                    }
                    assert(forall|v: int| occ_in_group(Seq::<usize>::empty(), v) == 0);
                    assert(comp@ =~= Seq::<usize>::empty());
                }
                while head < queue.len()
                    invariant
                        n == n_nodes,
                        visited@.len() == n,
                        adj@.len() == n,
                        forall|x: int, t: int|
                            0 <= x < n && 0 <= t < adj@[x]@.len() ==> (#[trigger] adj@[x]@[t] as int)
                                < n,
                        head <= queue@.len(),
                        count_true(visited@) <= n,
                        forall|t: int| 0 <= t < queue@.len() ==> (#[trigger] queue@[t] as int) < n,
                        forall|t: int| 0 <= t < comp@.len() ==> (#[trigger] comp@[t] as int) < n,
                        forall|v: int|
                            0 <= v < n ==> occ_total(out.deep_view(), v) + occ_in_group(comp@, v)
                                + occ_in_group(
                                queue@.subrange(head as int, queue@.len() as int),
                                v,
                            ) == (if visited@[v] {
                                1nat
                            } else {
                                0nat
                            }),
                        forall|v: int| !(0 <= v < n) ==> occ_total(out.deep_view(), v) == 0,
                        (i as int) < n,
                        forall|v: int| 0 <= v < i ==> visited@[v],
                        visited@[i as int],
                        comp@.len() + queue@.len() - head > 0,
                        m == self.edges@.len(),
                        edge_nodes_below(self.edges@, n as int),
                        adj_has_edges(self.edges@, max_len, adj@),
                        groups_edge_closed(self.edges@, max_len, out.deep_view()),
                        comp_edge_closed(self.edges@, max_len, comp@, visited@),
                    decreases (n - count_true(visited@)) + (queue@.len() - head),
                {
                    let ghost pre_rem = queue@.subrange(head as int, queue@.len() as int);
                    let u = queue[head];
                    head += 1;
                    let ghost pre_comp = comp@;
                    comp.push(u);
                    proof {
                        assert forall|v: int| 0 <= v < n implies occ_total(out.deep_view(), v)
                            + occ_in_group(comp@, v) + occ_in_group(
                            queue@.subrange(head as int, queue@.len() as int),
                            v,
                        ) == (if visited@[v] {
                            1nat
                        } else {
                            0nat
                        }) by {
                            lemma_occ_push(pre_comp, u, v);
                            lemma_occ_drop_first(pre_rem, v);
                            assert(pre_rem.drop_first() =~= queue@.subrange(
                                head as int,
                                queue@.len() as int,
                            ));
                            assert(pre_rem[0] == u);
                        }
                    }
                    let ghost meas0: int = (n - count_true(visited@)) + (queue@.len() - head);
                    let deg = adj[u].len();
                    let mut t: usize = 0;
                    while t < deg
                        invariant
                            n == n_nodes,
                            visited@.len() == n,
                            adj@.len() == n,
                            forall|x: int, tt: int|
                                0 <= x < n && 0 <= tt < adj@[x]@.len() ==> (#[trigger] adj@[x]@[tt] as int)
                                    < n,
                            (u as int) < n,
                            deg == adj@[u as int]@.len(),
                            0 <= t <= deg,
                            head <= queue@.len(),
                            count_true(visited@) <= n,
                            forall|tt: int|
                                0 <= tt < queue@.len() ==> (#[trigger] queue@[tt] as int) < n,
                            forall|tt: int|
                                0 <= tt < comp@.len() ==> (#[trigger] comp@[tt] as int) < n,
                            forall|v: int|
                                0 <= v < n ==> occ_total(out.deep_view(), v) + occ_in_group(
                                    comp@,
                                    v,
                                ) + occ_in_group(
                                    queue@.subrange(head as int, queue@.len() as int),
                                    v,
                                ) == (if visited@[v] {
                                    1nat
                                } else {
                                    0nat
                                }),
                            forall|v: int| !(0 <= v < n) ==> occ_total(out.deep_view(), v) == 0,
                            (i as int) < n,
                            forall|v: int| 0 <= v < i ==> visited@[v],
                            visited@[i as int],
                            comp@.len() + queue@.len() - head > 0,
                            (n - count_true(visited@)) + (queue@.len() - head) <= meas0,
                            m == self.edges@.len(),
                            edge_nodes_below(self.edges@, n as int),
                            adj_has_edges(self.edges@, max_len, adj@),
                            groups_edge_closed(self.edges@, max_len, out.deep_view()),
                            comp@ == pre_comp.push(u),
                            comp_edge_closed(self.edges@, max_len, pre_comp, visited@),
                            forall|tt: int|
                                0 <= tt < t ==> visited@[(#[trigger] adj@[u as int]@[tt]) as int],
                        decreases deg - t,
                    {
                        let w = adj[u][t];
                        if !visited[w] {
                            let ghost pre_vis2 = visited@;
                            let ghost pre_queue = queue@;
                            visited[w] = true;
                            queue.push(w);
                            proof {
                                lemma_count_true_update(pre_vis2, w as int, true);
                                lemma_count_true_le(visited@);
                                assert forall|v: int| 0 <= v < n implies occ_total(
                                    out.deep_view(),
                                    v,
                                ) + occ_in_group(comp@, v) + occ_in_group(
                                    queue@.subrange(head as int, queue@.len() as int),
                                    v,
                                ) == (if visited@[v] {
                                    1nat
                                } else {
                                    0nat
                                }) by {
                                    let pre_rem2 = pre_queue.subrange(
                                        head as int,
                                        pre_queue.len() as int,
                                    );
                                    lemma_occ_push(pre_rem2, w, v);
                                    assert(queue@.subrange(head as int, queue@.len() as int)
                                        =~= pre_rem2.push(w));
                                }
                            }
                        }
                        t += 1;
                    }
                    proof {
                        assert forall|j: int|
                            0 <= j < m && (#[trigger] self.edges@[j]).2 <= max_len implies (
                        occ_in_group(comp@, self.edges@[j].0 as int) > 0
                            ==> visited@[self.edges@[j].1 as int]) && (occ_in_group(
                            comp@,
                            self.edges@[j].1 as int,
                        ) > 0 ==> visited@[self.edges@[j].0 as int]) by {
                            let ea = self.edges@[j].0;
                            let eb = self.edges@[j].1;
                            lemma_occ_push(pre_comp, u, ea as int);
                            lemma_occ_push(pre_comp, u, eb as int);
                            if ea == u {
                                let tt = choose|tt: int|
                                    0 <= tt < adj@[u as int]@.len() && adj@[u as int]@[tt] == eb;
                                assert(visited@[eb as int]);
                            }
                            if eb == u {
                                let tt = choose|tt: int|
                                    0 <= tt < adj@[u as int]@.len() && adj@[u as int]@[tt] == ea;
                                assert(visited@[ea as int]);
                            }
                        }
                        assert(comp_edge_closed(self.edges@, max_len, comp@, visited@));
                    }
                }
                let ghost pre_out = out.deep_view();
                out.push(comp);
                proof {
                    assert(out.deep_view() =~~= pre_out.push(comp.deep_view()));
                    assert(comp.deep_view() =~= comp@);
                    assert forall|v: int| occ_total(out.deep_view(), v) == occ_total(pre_out, v)
                        + occ_in_group(comp@, v) by {
                        lemma_occ_total_push(pre_out, comp@, v);
                    }
                    assert forall|v: int| 0 <= v < n implies occ_total(out.deep_view(), v) == (
                    if visited@[v] {
                        1nat
                    } else {
                        0nat
                    }) by {
                        assert(queue@.subrange(head as int, queue@.len() as int)
                            =~= Seq::<usize>::empty());
                        assert(occ_in_group(Seq::<usize>::empty(), v) == 0);
                    }
                    assert forall|v: int| !(0 <= v < n) implies occ_total(out.deep_view(), v)
                        == 0 by {
                        lemma_occ_absent(comp@, v);
                    }
                    let dv2 = out.deep_view();
                    assert forall|j: int, g: int|
                        0 <= j < self.edges@.len() && (#[trigger] self.edges@[j]).2 <= max_len
                            && 0 <= g < dv2.len() implies (occ_in_group(
                        #[trigger] dv2[g],
                        self.edges@[j].0 as int,
                    ) > 0 <==> occ_in_group(dv2[g], self.edges@[j].1 as int) > 0) by {
                        let ea = self.edges@[j].0 as int;
                        let eb = self.edges@[j].1 as int;
                        if g < pre_out.len() {
                            assert(dv2[g] == pre_out[g]);
                        } else {
                            assert(dv2[g] == comp@);
                            assert(queue@.subrange(head as int, queue@.len() as int)
                                =~= Seq::<usize>::empty());
                            if occ_in_group(comp@, ea) > 0 {
                                assert(visited@[eb]);
                                if occ_total(pre_out, eb) > 0 {
                                    lemma_occ_total_pos(pre_out, eb);
                                    let g2 = choose|g2: int|
                                        0 <= g2 < pre_out.len() && occ_in_group(
                                            #[trigger] pre_out[g2],
                                            eb,
                                        ) > 0;
                                    assert(occ_in_group(pre_out[g2], ea) > 0);
                                    lemma_occ_group_le_total(pre_out, g2, ea);
                                    assert(false);
                                }
                                assert(occ_in_group(comp@, eb) > 0);
                            }
                            if occ_in_group(comp@, eb) > 0 {
                                assert(visited@[ea]);
                                if occ_total(pre_out, ea) > 0 {
                                    lemma_occ_total_pos(pre_out, ea);
                                    let g2 = choose|g2: int|
                                        0 <= g2 < pre_out.len() && occ_in_group(
                                            #[trigger] pre_out[g2],
                                            ea,
                                        ) > 0;
                                    assert(occ_in_group(pre_out[g2], eb) > 0);
                                    lemma_occ_group_le_total(pre_out, g2, eb);
                                    assert(false);
                                }
                                assert(occ_in_group(comp@, ea) > 0);
                            }
                        }
                    }
                    assert(groups_edge_closed(self.edges@, max_len, dv2));
                }
            }
            i += 1;
        }
        proof {
            let dv = out.deep_view();
            assert forall|j: int|
                0 <= j < self.edges@.len() && (#[trigger] self.edges@[j]).2 <= max_len implies same_group(
                dv,
                self.edges@[j].0 as int,
                self.edges@[j].1 as int,
            ) by {
                let ea = self.edges@[j].0 as int;
                let eb = self.edges@[j].1 as int;
                assert(occ_total(dv, ea) == 1);
                lemma_occ_total_pos(dv, ea);
                let g = choose|g: int|
                    0 <= g < dv.len() && occ_in_group(#[trigger] dv[g], ea) > 0;
                assert(occ_in_group(dv[g], eb) > 0);
                assert(in_group(dv, g, ea) && in_group(dv, g, eb));
            }
        }
        out
    }

    /// Clusters under the elbow threshold; the empty list when the threshold
    /// is undefined, which callers must read as an insufficient-data signal.
    pub fn clusters_elbow(&self, n_nodes: usize) -> (out: Vec<Vec<usize>>)
        requires
            edge_nodes_below(self.edges@, n_nodes as int),
            lens_nonneg(self.edges@),
        ensures
            self.edges@.len() < 2 ==> out@.len() == 0,
            self.edges@.len() >= 2 ==> exact_partition(out.deep_view(), n_nodes as int)
                && exists|c: i64|
                #[trigger] is_elbow_value(self.edges@, c) && clustered_under(
                    self.edges@,
                    c,
                    out.deep_view(),
                ),
    {
        match self.elbow_threshold() {
            None => Vec::new(),
            Some(t) => {
                let r = self.clusters_with_cut(n_nodes, t);
                assert(is_elbow_value(self.edges@, t) && clustered_under(
                    self.edges@,
                    t,
                    r.deep_view(),
                ));
                r
            },
        }
    }

    /// Clusters under the automatic robust threshold; the empty list when the
    /// threshold is undefined, which callers must read as an
    /// insufficient-data signal.
    pub fn clusters_robust(&self, n_nodes: usize) -> (out: Vec<Vec<usize>>)
        requires
            edge_nodes_below(self.edges@, n_nodes as int),
            lens_nonneg(self.edges@),
            lens_bounded(self.edges@),
        ensures
            self.edges@.len() < 4 ==> out@.len() == 0,
            self.edges@.len() >= 4 ==> exact_partition(out.deep_view(), n_nodes as int)
                && exists|c: i64|
                #[trigger] is_auto_value(self.edges@, c) && clustered_under(
                    self.edges@,
                    c,
                    out.deep_view(),
                ),
    {
        match self.robust_threshold_auto() {
            None => Vec::new(),
            Some(t) => {
                let r = self.clusters_with_cut(n_nodes, t);
                assert(is_auto_value(self.edges@, t) && clustered_under(
                    self.edges@,
                    t,
                    r.deep_view(),
                ));
                r
            },
        }
    }

    /// The parent-child pairs of the edges no longer than `max_len`, in edge
    /// order.
    pub fn cut(&self, max_len: i64) -> (r: Vec<(usize, usize)>)
        ensures
            r@ == cut_pairs(self.edges@, max_len),
    {
        let n = self.edges.len();
        let mut r: Vec<(usize, usize)> = Vec::new();
        let mut i: usize = 0;
        while i < n
            invariant
                0 <= i <= n,
                n == self.edges@.len(),
                r@ == cut_pairs(self.edges@.subrange(0, i as int), max_len),
            decreases n - i,
        {
            let ghost pre = self.edges@.subrange(0, i as int);
            let ghost cur = self.edges@.subrange(0, i as int + 1);
            assert(cur.drop_last() =~= pre);
            assert(cur.last() == self.edges@[i as int]);
            let e = self.edges[i];
            if e.2 <= max_len {
                r.push((e.0, e.1));
            }
            i += 1;
        }
        assert(self.edges@.subrange(0, n as int) =~= self.edges@);
        r
    }

}

/// The state of the Prim loop after `steps` nodes have entered the tree:
/// sizes agree, node zero is in the tree at rank zero, every non-root node's
/// parent link is in the tree with the matching matrix entry as its pending
/// distance, in-tree ranks are below `steps` and increase from parent to
/// child, and some in-tree node keeps node zero as its parent unless no
/// parent link has been rewritten yet.
pub open spec fn prim_inv(
    dm: Seq<Seq<i64>>,
    in_tree: Seq<bool>,
    d: Seq<i64>,
    parent: Seq<usize>,
    rank: Seq<int>,
    steps: int,
) -> bool {
    let n = dm.len() as int;
    &&& in_tree.len() == n
    &&& d.len() == n
    &&& parent.len() == n
    &&& rank.len() == n
    &&& n > 0
    &&& in_tree[0]
    &&& rank[0] == 0
    &&& forall|u: int| 0 <= u < n ==> (#[trigger] parent[u]) < n
    &&& forall|u: int| 1 <= u < n ==> (#[trigger] parent[u]) != u
    &&& forall|u: int| 1 <= u < n ==> in_tree[#[trigger] parent[u] as int]
    &&& forall|u: int| 1 <= u < n ==> (#[trigger] d[u]) == dm[parent[u] as int][u]
    &&& forall|u: int| 0 <= u < n && #[trigger] in_tree[u] ==> 0 <= rank[u] < steps
    &&& forall|u: int|
        1 <= u < n && #[trigger] in_tree[u] ==> rank[parent[u] as int] < rank[u]
    &&& count_true(in_tree) == steps
    &&& ((exists|w: int| 1 <= w < n && #[trigger] in_tree[w] && parent[w] == 0) || (forall|u: int|
        1 <= u < n ==> (#[trigger] parent[u]) == 0))
}

/// A boolean sequence that is true exactly at index zero has one true entry.
proof fn lemma_count_all_but_zero_false(s: Seq<bool>)
    requires
        s.len() >= 1,
        forall|a: int| 0 <= a < s.len() ==> s[a] == (a == 0),
    ensures
        count_true(s) == 1,
    decreases s.len(),
{
    if s.len() == 1 {
        assert(s[0]);
        assert(s.drop_last() =~= Seq::<bool>::empty());
        assert(count_true(s.drop_last()) == 0);
        assert(count_true(s) == 1);
    } else {
        let t = s.drop_last();
        assert(forall|a: int| 0 <= a < t.len() ==> t[a] == (a == 0));
        lemma_count_all_but_zero_false(t);
        assert(!s.last());
        assert(count_true(s) == count_true(t));
    }
}

} // verus!
