//! Directed graphs as successor lists, and the notions the rest of the crate
//! is stated in: edges, paths, reachability, cycles, strongly connected
//! components and topological orders.
//!
//! A graph on the nodes `0..n` is a `Seq<Seq<usize>>` of length `n`; row `u`
//! lists the successors of `u` in the order in which the graph enumerates them.

use vstd::prelude::*;
use vstd::seq_lib::to_multiset_remove;

verus! {

/// Every successor that a row names is a node of the graph.
pub open spec fn closed_rows(succ: Seq<Seq<usize>>) -> bool {
    forall|u: int, k: int|
        0 <= u < succ.len() && 0 <= k < succ[u].len() ==> (#[trigger] succ[u][k]) < succ.len()
}

/// There is an edge from `u` to `v`.
pub open spec fn has_edge(succ: Seq<Seq<usize>>, u: usize, v: usize) -> bool {
    u < succ.len() && succ[u as int].contains(v)
}

/// `p` is a walk along edges: at least one node, all of them nodes of the
/// graph, each one a successor of the one before it.
pub open spec fn is_path(succ: Seq<Seq<usize>>, p: Seq<usize>) -> bool {
    &&& p.len() > 0
    &&& forall|i: int| 0 <= i < p.len() ==> (#[trigger] p[i]) < succ.len()
    &&& forall|i: int| 0 <= i < p.len() - 1 ==> has_edge(succ, #[trigger] p[i], p[i + 1])
}

/// `v` can be reached from `u` along edges. Every node reaches itself.
pub open spec fn reachable(succ: Seq<Seq<usize>>, u: usize, v: usize) -> bool {
    exists|p: Seq<usize>| is_path(succ, p) && p.first() == u && p.last() == v
}

/// `u` and `v` reach each other.
pub open spec fn strongly_connected(succ: Seq<Seq<usize>>, u: usize, v: usize) -> bool {
    reachable(succ, u, v) && reachable(succ, v, u)
}

/// `v` lies on a cycle: one of its successors leads back to it. A self-loop
/// is the shortest such cycle.
pub open spec fn on_cycle(succ: Seq<Seq<usize>>, v: usize) -> bool {
    exists|w: usize| has_edge(succ, v, w) && reachable(succ, w, v)
}

/// No node lies on a cycle.
pub open spec fn acyclic(succ: Seq<Seq<usize>>) -> bool {
    forall|v: usize| !on_cycle(succ, v)
}

/// No node is its own successor.
pub open spec fn no_self_loops(succ: Seq<Seq<usize>>) -> bool {
    forall|u: usize| !has_edge(succ, u, u)
}

/// No two different nodes reach each other: every strongly connected component
/// is a single node.
pub open spec fn components_trivial(succ: Seq<Seq<usize>>) -> bool {
    forall|u: usize, v: usize| u != v ==> !strongly_connected(succ, u, v)
}

/// Some component holds the node `v`.
pub open spec fn holds_node(comps: Seq<Seq<usize>>, v: usize) -> bool {
    exists|i: int, a: int|
        0 <= i < comps.len() && 0 <= a < comps[i].len() && #[trigger] comps[i][a] == v
}

/// `comps` is the decomposition of the graph into its strongly connected
/// components: every node stands in exactly one place, two nodes share a
/// component exactly if they reach each other, and no edge leads from a
/// component to a later one (a sink component comes first).
pub open spec fn is_scc_decomposition(succ: Seq<Seq<usize>>, comps: Seq<Seq<usize>>) -> bool {
    &&& forall|i: int| 0 <= i < comps.len() ==> (#[trigger] comps[i]).len() > 0
    &&& forall|i: int, a: int|
        0 <= i < comps.len() && 0 <= a < comps[i].len() ==> (#[trigger] comps[i][a]) < succ.len()
    &&& forall|v: usize| v < succ.len() ==> #[trigger] holds_node(comps, v)
    &&& forall|i: int, a: int, j: int, b: int|
        0 <= i < comps.len() && 0 <= a < comps[i].len() && 0 <= j < comps.len() && 0 <= b
            < comps[j].len() && #[trigger] comps[i][a] == #[trigger] comps[j][b] ==> i == j && a
            == b
    &&& forall|i: int, a: int, j: int, b: int|
        0 <= i < comps.len() && 0 <= a < comps[i].len() && 0 <= j < comps.len() && 0 <= b
            < comps[j].len() ==> (i == j <==> strongly_connected(
            succ,
            #[trigger] comps[i][a],
            #[trigger] comps[j][b],
        ))
    &&& forall|i: int, a: int, j: int, b: int|
        0 <= i < j < comps.len() && 0 <= a < comps[i].len() && 0 <= b < comps[j].len()
            ==> !has_edge(succ, #[trigger] comps[i][a], #[trigger] comps[j][b])
}

/// `order` lists every node of the graph once, each before its successors.
pub open spec fn is_topological_order(succ: Seq<Seq<usize>>, order: Seq<usize>) -> bool {
    &&& is_node_permutation(succ.len(), order)
    &&& forall|i: int, j: int|
        0 <= i < order.len() && 0 <= j < order.len() && has_edge(
            succ,
            #[trigger] order[i],
            #[trigger] order[j],
        ) ==> i < j
}

/// `order` lists every node of the graph once, each after its successors.
pub open spec fn is_reverse_topological_order(succ: Seq<Seq<usize>>, order: Seq<usize>) -> bool {
    &&& is_node_permutation(succ.len(), order)
    &&& forall|i: int, j: int|
        0 <= i < order.len() && 0 <= j < order.len() && has_edge(
            succ,
            #[trigger] order[i],
            #[trigger] order[j],
        ) ==> i > j
}

/// `order` holds each of the nodes `0..n` exactly once.
pub open spec fn is_node_permutation(n: nat, order: Seq<usize>) -> bool {
    &&& order.len() == n
    &&& order.no_duplicates()
    &&& forall|i: int| 0 <= i < order.len() ==> (#[trigger] order[i]) < n
    &&& forall|v: usize| v < n ==> order.contains(v)
}

/// The place of the first `v` in `row`; the length of `row` if it holds none.
pub open spec fn position(row: Seq<usize>, v: usize) -> int
    decreases row.len(),
{
    if row.len() == 0 || row[0] == v {
        0
    } else {
        1 + position(row.drop_first(), v)
    }
}

/// The graph without the first edge from `u` to `v`.
pub open spec fn without_edge(succ: Seq<Seq<usize>>, u: usize, v: usize) -> Seq<Seq<usize>> {
    succ.update(u as int, succ[u as int].remove(position(succ[u as int], v)))
}

/// `position` finds the first occurrence, and finds one if there is any.
pub proof fn lemma_position(row: Seq<usize>, v: usize)
    ensures
        0 <= position(row, v) <= row.len(),
        position(row, v) < row.len() ==> row[position(row, v)] == v,
        forall|j: int| 0 <= j < position(row, v) ==> row[j] != v,
        row.contains(v) <==> position(row, v) < row.len(),
    decreases row.len(),
{
    if row.len() == 0 || row[0] == v {
    } else {
        let rest = row.drop_first();
        lemma_position(rest, v);
        let p = position(rest, v);
        assert forall|j: int| 0 <= j < 1 + p implies row[j] != v by {
            if j > 0 {
                assert(row[j] == rest[j - 1]);
            }
        }
        if p < rest.len() {
            assert(row[1 + p] == rest[p]);
        }
        if row.contains(v) {
            let k = choose|k: int| 0 <= k < row.len() && row[k] == v;
            assert(rest[k - 1] == v);
            assert(rest.contains(v));
        }
    }
}

/// The number of entries of all rows together; for successor lists, the
/// number of edges.
pub open spec fn total_entries(rows: Seq<Seq<usize>>) -> nat
    decreases rows.len(),
{
    if rows.len() == 0 {
        0
    } else {
        rows.last().len() + total_entries(rows.drop_last())
    }
}

/// The successor lists of the graph on `n` nodes to which `edges` were added
/// in their order: every new edge comes first in the row of its source.
pub open spec fn with_edges(n: nat, edges: Seq<(usize, usize)>) -> Seq<Seq<usize>>
    decreases edges.len(),
{
    if edges.len() == 0 {
        Seq::new(n, |u: int| Seq::<usize>::empty())
    } else {
        let before = with_edges(n, edges.drop_last());
        let edge = edges.last();
        before.update(edge.0 as int, seq![edge.1].add(before[edge.0 as int]))
    }
}

/// `thin` has the nodes of `full` and no edge that `full` has not: every row
/// of `thin` holds each successor at most as often as the same row of `full`.
pub open spec fn thinner(thin: Seq<Seq<usize>>, full: Seq<Seq<usize>>) -> bool {
    &&& thin.len() == full.len()
    &&& forall|u: int|
        0 <= u < thin.len() ==> (#[trigger] thin[u]).to_multiset().subset_of(
            full[u].to_multiset(),
        )
}

/// `row` without the entries equal to `u`.
pub open spec fn strip(row: Seq<usize>, u: usize) -> Seq<usize>
    decreases row.len(),
{
    if row.len() == 0 {
        row
    } else if row[0] == u {
        strip(row.drop_first(), u)
    } else {
        seq![row[0]].add(strip(row.drop_first(), u))
    }
}

/// The graph without its self-loops.
pub open spec fn without_self_loops(succ: Seq<Seq<usize>>) -> Seq<Seq<usize>> {
    Seq::new(succ.len(), |u: int| strip(succ[u], u as usize))
}

/// Taking one entry out of one row lowers the number of entries by one.
pub proof fn lemma_total_after_remove(rows: Seq<Seq<usize>>, u: int, k: int)
    requires
        0 <= u < rows.len(),
        0 <= k < rows[u].len(),
    ensures
        total_entries(rows.update(u, rows[u].remove(k))) == total_entries(rows) - 1,
    decreases rows.len(),
{
    let after = rows.update(u, rows[u].remove(k));
    if u == rows.len() - 1 {
        assert(after.drop_last() =~= rows.drop_last());
    } else {
        assert(after.drop_last() =~= rows.drop_last().update(u, rows.drop_last()[u].remove(k)));
        lemma_total_after_remove(rows.drop_last(), u, k);
    }
}

/// A graph is no richer than itself.
pub proof fn lemma_thinner_refl(succ: Seq<Seq<usize>>)
    ensures
        thinner(succ, succ),
{
}

/// Thinning twice is thinning.
pub proof fn lemma_thinner_trans(a: Seq<Seq<usize>>, b: Seq<Seq<usize>>, c: Seq<Seq<usize>>)
    requires
        thinner(a, b),
        thinner(b, c),
    ensures
        thinner(a, c),
{
    assert forall|u: int| 0 <= u < a.len() implies (#[trigger] a[u]).to_multiset().subset_of(
        c[u].to_multiset(),
    ) by {
        assert(a[u].to_multiset().subset_of(b[u].to_multiset()));
        assert(b[u].to_multiset().subset_of(c[u].to_multiset()));
    }
}

/// Taking one entry out of one row thins the graph.
pub proof fn lemma_thinner_remove(succ: Seq<Seq<usize>>, u: int, k: int)
    requires
        0 <= u < succ.len(),
        0 <= k < succ[u].len(),
    ensures
        thinner(succ.update(u, succ[u].remove(k)), succ),
{
    let after = succ.update(u, succ[u].remove(k));
    assert forall|x: int| 0 <= x < after.len() implies (#[trigger] after[x]).to_multiset().subset_of(
        succ[x].to_multiset(),
    ) by {
        if x == u {
            to_multiset_remove(succ[u], k);
        }
    }
}

/// An edge of the thinner graph is an edge of the fuller one.
pub proof fn lemma_thinner_edge(thin: Seq<Seq<usize>>, full: Seq<Seq<usize>>, u: usize, v: usize)
    requires
        thinner(thin, full),
        has_edge(thin, u, v),
    ensures
        has_edge(full, u, v),
{
    broadcast use vstd::seq_lib::to_multiset_contains;

    assert(thin[u as int].to_multiset().subset_of(full[u as int].to_multiset()));
    assert(thin[u as int].to_multiset().count(v) > 0);
    assert(full[u as int].to_multiset().count(v) > 0);
}

/// Thinning adds no self-loop.
pub proof fn lemma_thinner_no_self_loops(thin: Seq<Seq<usize>>, full: Seq<Seq<usize>>)
    requires
        thinner(thin, full),
        no_self_loops(full),
    ensures
        no_self_loops(thin),
{
    assert forall|u: usize| !has_edge(thin, u, u) by {
        if has_edge(thin, u, u) {
            lemma_thinner_edge(thin, full, u, u);
        }
    }
}

/// A row that does not hold `u` is left as it is.
pub proof fn lemma_strip_absent(row: Seq<usize>, u: usize)
    requires
        !row.contains(u),
    ensures
        strip(row, u) == row,
    decreases row.len(),
{
    if row.len() > 0 {
        let rest = row.drop_first();
        assert(row[0] != u) by {
            assert(row.contains(row[0]));
        }
        assert forall|k: int| 0 <= k < rest.len() implies rest[k] != u by {
            assert(row[k + 1] == rest[k]);
        }
        lemma_strip_absent(rest, u);
        assert(seq![row[0]].add(rest) =~= row);
    }
}

/// Taking out the first `u` changes nothing of what is left without `u`.
pub proof fn lemma_strip_remove(row: Seq<usize>, u: usize)
    requires
        row.contains(u),
    ensures
        strip(row.remove(position(row, u)), u) == strip(row, u),
    decreases row.len(),
{
    lemma_position(row, u);
    let rest = row.drop_first();
    if row[0] == u {
        assert(row.remove(0) =~= rest);
    } else {
        let p = position(rest, u);
        let k = choose|k: int| 0 <= k < row.len() && row[k] == u;
        assert(rest[k - 1] == u);
        lemma_position(rest, u);
        lemma_strip_remove(rest, u);
        let cut = row.remove(1 + p);
        assert(cut.drop_first() =~= rest.remove(p));
        assert(cut[0] == row[0]);
    }
}

/// What is left without `u` does not hold `u` and holds nothing new.
pub proof fn lemma_strip_holds(row: Seq<usize>, u: usize)
    ensures
        !strip(row, u).contains(u),
        strip(row, u).to_multiset().subset_of(row.to_multiset()),
    decreases row.len(),
{
    broadcast use vstd::seq_lib::to_multiset_build;

    if row.len() > 0 {
        let rest = row.drop_first();
        lemma_strip_holds(rest, u);
        assert(row =~= seq![row[0]].add(rest));
        vstd::seq_lib::lemma_multiset_commutative(seq![row[0]], rest);
        if row[0] != u {
            let out = seq![row[0]].add(strip(rest, u));
            vstd::seq_lib::lemma_multiset_commutative(seq![row[0]], strip(rest, u));
            if out.contains(u) {
                let k = choose|k: int| 0 <= k < out.len() && out[k] == u;
                assert(strip(rest, u)[k - 1] == u);
            }
        }
    }
}

/// A graph without a cycle has no self-loop.
pub proof fn lemma_acyclic_no_self_loops(succ: Seq<Seq<usize>>)
    requires
        acyclic(succ),
    ensures
        no_self_loops(succ),
{
    assert forall|u: usize| !has_edge(succ, u, u) by {
        if has_edge(succ, u, u) {
            let p = seq![u];
            assert(is_path(succ, p));
            assert(p.first() == u && p.last() == u);
            assert(on_cycle(succ, u));
        }
    }
}

/// A graph without self-loops is what is left of it without self-loops.
pub proof fn lemma_without_self_loops_same(succ: Seq<Seq<usize>>)
    requires
        succ.len() <= usize::MAX,
        no_self_loops(succ),
    ensures
        without_self_loops(succ) == succ,
{
    let bare = without_self_loops(succ);
    assert forall|u: int| 0 <= u < succ.len() implies bare[u] == succ[u] by {
        assert(!has_edge(succ, u as usize, u as usize));
        lemma_strip_absent(succ[u], u as usize);
    }
    assert(bare =~= succ);
}

/// An edge is a path of two nodes.
pub proof fn lemma_reach_edge(succ: Seq<Seq<usize>>, u: usize, v: usize)
    requires
        closed_rows(succ),
        has_edge(succ, u, v),
    ensures
        reachable(succ, u, v),
{
    let p = seq![u, v];
    let k = choose|k: int| 0 <= k < succ[u as int].len() && succ[u as int][k] == v;
    assert(succ[u as int][k] < succ.len());
    assert(is_path(succ, p));
    assert(p.first() == u && p.last() == v);
}

/// Paths that meet can be joined.
pub proof fn lemma_reach_trans(succ: Seq<Seq<usize>>, u: usize, v: usize, w: usize)
    requires
        reachable(succ, u, v),
        reachable(succ, v, w),
    ensures
        reachable(succ, u, w),
{
    let p = choose|p: Seq<usize>| is_path(succ, p) && p.first() == u && p.last() == v;
    let q = choose|q: Seq<usize>| is_path(succ, q) && q.first() == v && q.last() == w;
    let r = p.add(q.drop_first());
    assert forall|i: int| 0 <= i < r.len() - 1 implies has_edge(succ, #[trigger] r[i], r[i + 1]) by {
        if i < p.len() - 1 {
            assert(r[i] == p[i] && r[i + 1] == p[i + 1]);
        } else if i == p.len() - 1 {
            assert(r[i] == p.last());
            assert(r[i + 1] == q[1]);
            assert(has_edge(succ, q[0int], q[0int + 1]));
        } else {
            let j = i - p.len() + 1;
            assert(r[i] == q[j] && r[i + 1] == q[j + 1]);
        }
    }
    assert forall|i: int| 0 <= i < r.len() implies (#[trigger] r[i]) < succ.len() by {
        if i < p.len() {
            assert(r[i] == p[i]);
        } else {
            assert(r[i] == q[i - p.len() + 1]);
        }
    }
    assert(is_path(succ, r));
    assert(r.first() == u);
    if q.len() == 1 {
        assert(r =~= p);
    } else {
        assert(r.last() == q.last());
    }
}

} // verus!
