//! What follows from a decomposition into strongly connected components: how
//! many nodes the components hold, when all of them are single nodes, and that
//! every larger one keeps each of its nodes a successor inside.

use crate::adjacency::{
    acyclic, closed_rows, components_trivial, has_edge, holds_node, is_path, is_scc_decomposition,
    lemma_reach_edge, lemma_reach_trans, no_self_loops, on_cycle, reachable, strongly_connected,
    total_entries,
};
use crate::chain::{first_member, lemma_distinct_bounded, lemma_first_fresh, stays_inside};
use vstd::prelude::*;

verus! {

/// The rows one after the other.
pub open spec fn concat_rows(rows: Seq<Seq<usize>>) -> Seq<usize>
    decreases rows.len(),
{
    if rows.len() == 0 {
        Seq::empty()
    } else {
        concat_rows(rows.drop_last()).add(rows.last())
    }
}

/// No number stands in two places of the rows.
pub open spec fn entries_distinct(rows: Seq<Seq<usize>>) -> bool {
    forall|i: int, a: int, j: int, b: int|
        0 <= i < rows.len() && 0 <= a < rows[i].len() && 0 <= j < rows.len() && 0 <= b
            < rows[j].len() && #[trigger] rows[i][a] == #[trigger] rows[j][b] ==> i == j && a == b
}

/// The rows of a vector of vectors, seen as sequences.
pub proof fn lemma_deep_rows(v: Vec<Vec<usize>>)
    ensures
        v.deep_view().len() == v@.len(),
        forall|i: int| 0 <= i < v@.len() ==> #[trigger] v.deep_view()[i] == v@[i]@,
{
    assert forall|i: int| 0 <= i < v@.len() implies #[trigger] v.deep_view()[i] == v@[i]@ by {
        assert(v.deep_view()[i] =~= v@[i]@);
    }
}

/// Laid end to end, the rows have as many entries as all rows together.
pub proof fn lemma_concat_len(rows: Seq<Seq<usize>>)
    ensures
        concat_rows(rows).len() == total_entries(rows),
    decreases rows.len(),
{
    if rows.len() > 0 {
        lemma_concat_len(rows.drop_last());
    }
}

/// Laid end to end, the rows hold what some row holds.
pub proof fn lemma_concat_holds(rows: Seq<Seq<usize>>, v: usize)
    ensures
        concat_rows(rows).contains(v) <==> holds_node(rows, v),
    decreases rows.len(),
{
    if rows.len() > 0 {
        let front = rows.drop_last();
        let n = front.len() as int;
        lemma_concat_holds(front, v);
        let head = concat_rows(front);
        let flat = concat_rows(rows);
        if flat.contains(v) {
            let x = choose|x: int| 0 <= x < flat.len() && flat[x] == v;
            if x < head.len() {
                assert(head[x] == v);
                assert(head.contains(v));
                let (i, a) = choose|i: int, a: int|
                    0 <= i < front.len() && 0 <= a < front[i].len() && #[trigger] front[i][a] == v;
                assert(rows[i][a] == v);
            } else {
                assert(rows[n][x - head.len()] == v);
            }
        }
        if holds_node(rows, v) {
            let (i, a) = choose|i: int, a: int|
                0 <= i < rows.len() && 0 <= a < rows[i].len() && #[trigger] rows[i][a] == v;
            if i < n {
                assert(front[i][a] == v);
                assert(holds_node(front, v));
                let x = choose|x: int| 0 <= x < head.len() && head[x] == v;
                assert(flat[x] == v);
            } else {
                assert(flat[head.len() + a] == v);
            }
        }
    }
}

/// Laid end to end, rows without a repeated number give a sequence without
/// one.
pub proof fn lemma_concat_distinct(rows: Seq<Seq<usize>>)
    requires
        entries_distinct(rows),
    ensures
        concat_rows(rows).no_duplicates(),
    decreases rows.len(),
{
    if rows.len() > 0 {
        let front = rows.drop_last();
        let n = front.len() as int;
        assert forall|i: int, a: int, j: int, b: int|
            0 <= i < front.len() && 0 <= a < front[i].len() && 0 <= j < front.len() && 0 <= b
                < front[j].len() && #[trigger] front[i][a] == #[trigger] front[j][b] implies i == j
            && a == b by {
            assert(rows[i][a] == rows[j][b]);
        }
        lemma_concat_distinct(front);
        let head = concat_rows(front);
        let flat = concat_rows(rows);
        assert forall|x: int, y: int| 0 <= x < y < flat.len() implies flat[x] != flat[y] by {
            if y < head.len() {
                assert(flat[x] == head[x] && flat[y] == head[y]);
            } else if x >= head.len() {
                assert(flat[x] == rows[n][x - head.len()]);
                assert(flat[y] == rows[n][y - head.len()]);
            } else {
                assert(flat[x] == head[x]);
                assert(head.contains(head[x]));
                lemma_concat_holds(front, head[x]);
                let (i, a) = choose|i: int, a: int|
                    0 <= i < front.len() && 0 <= a < front[i].len() && #[trigger] front[i][a]
                        == head[x];
                assert(rows[i][a] == head[x]);
                assert(flat[y] == rows[n][y - head.len()]);
            }
        }
    }
}

/// A sequence that holds every number below `n` has at least `n` entries.
pub proof fn lemma_covering(s: Seq<usize>, n: nat)
    requires
        n <= usize::MAX,
        forall|v: usize| v < n ==> s.contains(v),
    ensures
        s.len() >= n,
    decreases n,
{
    if n > 0 {
        let top = (n - 1) as usize;
        assert(s.contains(top));
        let k = choose|k: int| 0 <= k < s.len() && s[k] == top;
        let t = s.remove(k);
        assert forall|v: usize| v < (n - 1) as nat implies t.contains(v) by {
            assert(s.contains(v));
            let j = choose|j: int| 0 <= j < s.len() && s[j] == v;
            assert(j != k);
            if j < k {
                assert(t[j] == v);
            } else {
                assert(t[j - 1] == v);
            }
        }
        lemma_covering(t, (n - 1) as nat);
    }
}

/// The components hold as many nodes as the graph has.
pub proof fn lemma_components_total(succ: Seq<Seq<usize>>, comps: Seq<Seq<usize>>)
    requires
        succ.len() <= usize::MAX,
        is_scc_decomposition(succ, comps),
    ensures
        total_entries(comps) == succ.len(),
{
    lemma_concat_len(comps);
    lemma_concat_distinct(comps);
    let flat = concat_rows(comps);
    assert forall|x: int| 0 <= x < flat.len() implies (#[trigger] flat[x]) < succ.len() by {
        assert(flat.contains(flat[x]));
        lemma_concat_holds(comps, flat[x]);
        let (i, a) = choose|i: int, a: int|
            0 <= i < comps.len() && 0 <= a < comps[i].len() && #[trigger] comps[i][a] == flat[x];
    }
    lemma_distinct_bounded(flat, succ.len());
    assert forall|v: usize| v < succ.len() implies flat.contains(v) by {
        assert(holds_node(comps, v));
        lemma_concat_holds(comps, v);
    }
    lemma_covering(flat, succ.len());
}

/// Rows that are not empty have at least as many entries as there are rows,
/// and exactly as many only if every row has one.
pub proof fn lemma_rows_total(rows: Seq<Seq<usize>>)
    requires
        forall|i: int| 0 <= i < rows.len() ==> (#[trigger] rows[i]).len() > 0,
    ensures
        total_entries(rows) >= rows.len(),
        total_entries(rows) == rows.len() <==> forall|i: int|
            0 <= i < rows.len() ==> (#[trigger] rows[i]).len() == 1,
    decreases rows.len(),
{
    if rows.len() > 0 {
        let front = rows.drop_last();
        assert forall|i: int| 0 <= i < front.len() implies (#[trigger] front[i]).len() > 0 by {
            assert(front[i] == rows[i]);
        }
        lemma_rows_total(front);
        assert(rows.last() == rows[rows.len() - 1]);
        if total_entries(rows) == rows.len() {
            assert forall|i: int| 0 <= i < rows.len() implies (#[trigger] rows[i]).len() == 1 by {
                if i < front.len() {
                    assert(front[i] == rows[i]);
                }
            }
        }
        if forall|i: int| 0 <= i < rows.len() ==> (#[trigger] rows[i]).len() == 1 {
            assert forall|i: int| 0 <= i < front.len() implies (#[trigger] front[i]).len() == 1 by {
                assert(front[i] == rows[i]);
            }
        }
    }
}

/// A decomposition into as many components as there are nodes has only single
/// nodes as components; one into fewer has a component of two or more.
pub proof fn lemma_component_sizes(succ: Seq<Seq<usize>>, comps: Seq<Seq<usize>>)
    requires
        succ.len() <= usize::MAX,
        is_scc_decomposition(succ, comps),
    ensures
        comps.len() <= succ.len(),
        comps.len() == succ.len() ==> forall|i: int|
            0 <= i < comps.len() ==> (#[trigger] comps[i]).len() == 1,
        comps.len() != succ.len() ==> exists|i: int|
            0 <= i < comps.len() && (#[trigger] comps[i]).len() >= 2,
{
    lemma_components_total(succ, comps);
    lemma_rows_total(comps);
}

/// Where every component is a single node, no two nodes reach each other.
pub proof fn lemma_trivial_components(succ: Seq<Seq<usize>>, comps: Seq<Seq<usize>>)
    requires
        succ.len() <= usize::MAX,
        is_scc_decomposition(succ, comps),
        comps.len() == succ.len(),
    ensures
        components_trivial(succ),
{
    lemma_component_sizes(succ, comps);
    assert forall|u: usize, v: usize| u != v implies !strongly_connected(succ, u, v) by {
        if strongly_connected(succ, u, v) {
            let p = choose|p: Seq<usize>| is_path(succ, p) && p.first() == u && p.last() == v;
            assert(p[0] < succ.len());
            assert(p[p.len() - 1] < succ.len());
            assert(holds_node(comps, u));
            assert(holds_node(comps, v));
            let (i, a) = choose|i: int, a: int|
                0 <= i < comps.len() && 0 <= a < comps[i].len() && #[trigger] comps[i][a] == u;
            let (j, b) = choose|j: int, b: int|
                0 <= j < comps.len() && 0 <= b < comps[j].len() && #[trigger] comps[j][b] == v;
            assert(strongly_connected(succ, comps[i][a], comps[j][b]));
            assert(i == j);
            assert(comps[i].len() == 1);
        }
    }
}

/// A graph without a cycle has as many components as nodes.
pub proof fn lemma_acyclic_components(succ: Seq<Seq<usize>>, comps: Seq<Seq<usize>>)
    requires
        succ.len() <= usize::MAX,
        closed_rows(succ),
        is_scc_decomposition(succ, comps),
        acyclic(succ),
    ensures
        comps.len() == succ.len(),
{
    lemma_component_sizes(succ, comps);
    if comps.len() != succ.len() {
        let i = choose|i: int| 0 <= i < comps.len() && (#[trigger] comps[i]).len() >= 2;
        let u = comps[i][0];
        let w = comps[i][1];
        assert(u != w);
        assert(strongly_connected(succ, comps[i][0], comps[i][1]));
        let p = choose|p: Seq<usize>| is_path(succ, p) && p.first() == u && p.last() == w;
        assert(p.len() >= 2);
        let x = p[1];
        assert(has_edge(succ, p[0int], p[0int + 1]));
        let q = p.skip(1);
        assert forall|t: int| 0 <= t < q.len() - 1 implies has_edge(succ, #[trigger] q[t], q[t + 1]) by {
            assert(q[t] == p[t + 1] && q[t + 1] == p[t + 1 + 1]);
            assert(has_edge(succ, p[t + 1], p[t + 1 + 1]));
        }
        assert forall|t: int| 0 <= t < q.len() implies (#[trigger] q[t]) < succ.len() by {
            assert(q[t] == p[t + 1]);
        }
        assert(is_path(succ, q));
        assert(q.first() == x && q.last() == w);
        assert(reachable(succ, x, w));
        lemma_reach_trans(succ, x, w, u);
        assert(on_cycle(succ, u));
    }
}

/// A graph without self-loops in which no two nodes reach each other has no
/// cycle.
pub proof fn lemma_trivial_acyclic(succ: Seq<Seq<usize>>)
    requires
        closed_rows(succ),
        components_trivial(succ),
        no_self_loops(succ),
    ensures
        acyclic(succ),
{
    assert forall|v: usize| !on_cycle(succ, v) by {
        if on_cycle(succ, v) {
            let w = choose|w: usize| has_edge(succ, v, w) && reachable(succ, w, v);
            lemma_reach_edge(succ, v, w);
            assert(strongly_connected(succ, v, w));
        }
    }
}

/// In a component of two or more nodes every node has a successor inside.
pub proof fn lemma_component_stays_inside(succ: Seq<Seq<usize>>, comps: Seq<Seq<usize>>, i: int)
    requires
        closed_rows(succ),
        is_scc_decomposition(succ, comps),
        0 <= i < comps.len(),
        comps[i].len() >= 2,
    ensures
        stays_inside(succ, comps[i]),
{
    let members = comps[i];
    assert forall|a: int| 0 <= a < members.len() implies (#[trigger] members[a]) < succ.len()
        && first_member(succ[members[a] as int], members) is Some by {
        let u = members[a];
        assert(comps[i][a] < succ.len());
        let b = if a == 0 {
            1int
        } else {
            0int
        };
        let w = members[b];
        assert(comps[i][a] != comps[i][b]);
        assert(strongly_connected(succ, comps[i][a], comps[i][b]));
        let p = choose|p: Seq<usize>| is_path(succ, p) && p.first() == u && p.last() == w;
        assert(p.len() >= 2);
        let x = p[1];
        assert(has_edge(succ, p[0int], p[0int + 1]));
        let q = p.skip(1);
        assert forall|t: int| 0 <= t < q.len() - 1 implies has_edge(succ, #[trigger] q[t], q[t + 1]) by {
            assert(q[t] == p[t + 1] && q[t + 1] == p[t + 1 + 1]);
            assert(has_edge(succ, p[t + 1], p[t + 1 + 1]));
        }
        assert forall|t: int| 0 <= t < q.len() implies (#[trigger] q[t]) < succ.len() by {
            assert(q[t] == p[t + 1]);
        }
        assert(is_path(succ, q));
        assert(q.first() == x && q.last() == w);
        assert(reachable(succ, x, w));
        lemma_reach_trans(succ, x, w, u);
        lemma_reach_edge(succ, u, x);
        assert(strongly_connected(succ, u, x));
        assert(x < succ.len()) by {
            assert(p[1] < succ.len());
        }
        assert(holds_node(comps, x));
        let (j, c) = choose|j: int, c: int|
            0 <= j < comps.len() && 0 <= c < comps[j].len() && #[trigger] comps[j][c] == x;
        assert(strongly_connected(succ, comps[i][a], comps[j][c]));
        assert(i == j);
        assert(members.contains(x));
        let row = succ[u as int];
        lemma_first_fresh(row, members, Seq::empty());
        if first_member(row, members) is None {
            let k = choose|k: int| 0 <= k < row.len() && row[k] == x;
            assert(members.contains(row[k]));
            assert(false);
        }
    }
}

} // verus!
