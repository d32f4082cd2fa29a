//! The outline of a graph: every node once, in the order of a depth-first walk
//! that starts at node 0 and takes up the next node not yet listed whenever a
//! walk is done, each node with the depth at which the walk met it.

use crate::adjacency::closed_rows;
use crate::chain::lemma_distinct_bounded;
use crate::graph::LinkGraph;
use crate::link_model::lemma_wf_closed_rows;
use vstd::prelude::*;

verus! {

/// Node `u` is listed in `out`.
pub open spec fn listed(out: Seq<(usize, usize)>, u: usize) -> bool {
    exists|i: int| 0 <= i < out.len() && (#[trigger] out[i]).0 == u
}

/// The outline after the walk from `u`, met at depth `depth`: a node that is
/// listed already adds nothing; another is listed, and the walk goes on to its
/// successors, one level deeper. `fuel` bounds the depth of the walk and makes
/// the definition well-founded; as many levels as the graph has nodes are
/// never used up.
pub open spec fn outline_from(
    succ: Seq<Seq<usize>>,
    u: usize,
    depth: usize,
    out: Seq<(usize, usize)>,
    fuel: nat,
) -> Seq<(usize, usize)>
    decreases fuel, 0nat,
{
    if fuel == 0 || listed(out, u) {
        out
    } else {
        outline_row(
            succ,
            succ[u as int],
            (depth + 1) as usize,
            out.push((u, depth)),
            (fuel - 1) as nat,
        )
    }
}

/// The outline after the walks from the nodes of `row`, one after the other,
/// each met at depth `depth`.
pub open spec fn outline_row(
    succ: Seq<Seq<usize>>,
    row: Seq<usize>,
    depth: usize,
    out: Seq<(usize, usize)>,
    fuel: nat,
) -> Seq<(usize, usize)>
    decreases fuel, 1 + row.len(),
{
    if row.len() == 0 {
        out
    } else {
        outline_row(
            succ,
            row.drop_first(),
            depth,
            outline_from(succ, row[0], depth, out, fuel),
            fuel,
        )
    }
}

/// The outline after the walks from the first `upto` of `roots`, each started
/// at depth 0.
pub open spec fn outline_over(succ: Seq<Seq<usize>>, roots: Seq<usize>, upto: int) -> Seq<
    (usize, usize),
>
    decreases upto,
{
    if upto <= 0 {
        Seq::empty()
    } else {
        outline_from(succ, roots[upto - 1], 0, outline_over(succ, roots, upto - 1), succ.len())
    }
}

/// The nodes `0..n`, ascending.
pub open spec fn all_nodes(n: nat) -> Seq<usize> {
    Seq::new(n, |i: int| i as usize)
}

/// The outline of the whole graph: the walks start at the nodes in the order
/// of their ids.
pub open spec fn outline_of(succ: Seq<Seq<usize>>) -> Seq<(usize, usize)> {
    outline_over(succ, all_nodes(succ.len()), succ.len() as int)
}

/// `out` lists nodes of the graph, none of them twice, and `visited` marks
/// those that are listed.
pub open spec fn outline_wf(n: nat, out: Seq<(usize, usize)>, visited: Seq<bool>) -> bool {
    &&& visited.len() == n
    &&& forall|i: int| 0 <= i < out.len() ==> (#[trigger] out[i]).0 < n
    &&& forall|i: int, j: int|
        0 <= i < out.len() && 0 <= j < out.len() && i != j ==> (#[trigger] out[i]).0 != (
        #[trigger] out[j]).0
    &&& forall|v: usize| v < n ==> visited[v as int] == listed(out, v)
}

/// An outline that lists no node twice lists at most as many as there are.
pub proof fn lemma_outline_bounded(n: nat, out: Seq<(usize, usize)>, visited: Seq<bool>)
    requires
        outline_wf(n, out, visited),
    ensures
        out.len() <= n,
{
    let nodes = Seq::new(out.len(), |i: int| out[i].0);
    assert forall|i: int| 0 <= i < nodes.len() implies (#[trigger] nodes[i]) < n by {
        assert(out[i].0 < n);
    }
    assert forall|i: int, j: int| 0 <= i < nodes.len() && 0 <= j < nodes.len() && i != j implies nodes[i]
        != nodes[j] by {
        assert(out[i].0 != out[j].0);
    }
    lemma_distinct_bounded(nodes, n);
}

/// Listing a node that was not listed keeps the outline in order.
pub proof fn lemma_outline_push(
    n: nat,
    out: Seq<(usize, usize)>,
    visited: Seq<bool>,
    u: usize,
    depth: usize,
)
    requires
        outline_wf(n, out, visited),
        u < n,
        !listed(out, u),
    ensures
        outline_wf(n, out.push((u, depth)), visited.update(u as int, true)),
        out.len() < n,
        forall|v: usize| listed(out, v) ==> listed(out.push((u, depth)), v),
        listed(out.push((u, depth)), u),
{
    let more = out.push((u, depth));
    let marks = visited.update(u as int, true);
    assert forall|i: int, j: int|
        0 <= i < more.len() && 0 <= j < more.len() && i != j implies (#[trigger] more[i]).0 != (
    #[trigger] more[j]).0 by {
        if i < out.len() && j < out.len() {
            assert(more[i] == out[i] && more[j] == out[j]);
        } else if i < out.len() {
            assert(more[i] == out[i]);
        } else {
            assert(more[j] == out[j]);
        }
    }
    assert forall|i: int| 0 <= i < more.len() implies (#[trigger] more[i]).0 < n by {
        if i < out.len() {
            assert(more[i] == out[i]);
        }
    }
    assert(more[out.len() as int].0 == u);
    assert forall|v: usize| listed(out, v) implies listed(more, v) by {
        let i = choose|i: int| 0 <= i < out.len() && (#[trigger] out[i]).0 == v;
        assert(more[i].0 == v);
    }
    assert forall|v: usize| v < n implies marks[v as int] == listed(more, v) by {
        if v != u {
            if listed(more, v) {
                let i = choose|i: int| 0 <= i < more.len() && (#[trigger] more[i]).0 == v;
                assert(out[i].0 == v);
            }
        }
    }
    lemma_outline_bounded(n, more, marks);
}

/// The walk from `u`, met at depth `depth`.
fn list_from<N, E>(
    graph: &LinkGraph<N, E>,
    u: usize,
    depth: usize,
    visited: &mut Vec<bool>,
    out: &mut Vec<(usize, usize)>,
    Ghost(fuel): Ghost<nat>,
)
    requires
        graph.wf(),
        u < graph.succ().len(),
        outline_wf(graph.succ().len(), old(out)@, old(visited)@),
        depth <= old(out)@.len(),
        fuel + old(out)@.len() >= graph.succ().len(),
    ensures
        final(out)@ == outline_from(graph.succ(), u, depth, old(out)@, fuel),
        outline_wf(graph.succ().len(), final(out)@, final(visited)@),
        final(out)@.len() >= old(out)@.len(),
        forall|v: usize| listed(old(out)@, v) ==> listed(final(out)@, v),
        listed(final(out)@, u),
    decreases fuel, 0nat,
{
    if visited[u] {
        return ;
    }
    proof {
        lemma_outline_push(graph.succ().len(), out@, visited@, u, depth);
    }
    out.push((u, depth));
    visited.set(u, true);
    let row = graph.successors(u);
    let ghost listed_now = out@;
    proof {
        lemma_wf_closed_rows(graph.ends(), graph.order());
        assert(row@.skip(0) =~= row@);
    }
    list_row(graph, &row, 0, depth + 1, visited, out, Ghost((fuel - 1) as nat));
    proof {
        assert(listed(listed_now, u));
    }
}

/// The walks from the nodes of `row` from place `k` on, each met at depth
/// `depth`.
fn list_row<N, E>(
    graph: &LinkGraph<N, E>,
    row: &Vec<usize>,
    k: usize,
    depth: usize,
    visited: &mut Vec<bool>,
    out: &mut Vec<(usize, usize)>,
    Ghost(fuel): Ghost<nat>,
)
    requires
        graph.wf(),
        k <= row@.len(),
        forall|i: int| 0 <= i < row@.len() ==> (#[trigger] row@[i]) < graph.succ().len(),
        outline_wf(graph.succ().len(), old(out)@, old(visited)@),
        depth <= old(out)@.len(),
        fuel + old(out)@.len() >= graph.succ().len(),
    ensures
        final(out)@ == outline_row(graph.succ(), row@.skip(k as int), depth, old(out)@, fuel),
        outline_wf(graph.succ().len(), final(out)@, final(visited)@),
        final(out)@.len() >= old(out)@.len(),
        forall|v: usize| listed(old(out)@, v) ==> listed(final(out)@, v),
    decreases fuel, 1 + row@.len() - k,
{
    if k < row.len() {
        proof {
            assert(row@.skip(k as int)[0] == row@[k as int]);
            assert(row@.skip(k as int).drop_first() =~= row@.skip(k + 1));
        }
        list_from(graph, row[k], depth, visited, out, Ghost(fuel));
        list_row(graph, row, k + 1, depth, visited, out, Ghost(fuel));
    } else {
        proof {
            assert(row@.skip(k as int).len() == 0);
        }
    }
}

/// The outline of what can be reached from `roots`: pairs of a node and the
/// depth at which the walk met it, the walks started at the roots in their
/// order. No node is listed twice, and every root is listed.
pub fn tree_outline<N, E>(graph: &LinkGraph<N, E>, roots: &Vec<usize>) -> (out: Vec<(usize, usize)>)
    requires
        graph.wf(),
        forall|i: int| 0 <= i < roots@.len() ==> (#[trigger] roots@[i]) < graph.succ().len(),
    ensures
        out@ == outline_over(graph.succ(), roots@, roots@.len() as int),
        out@.len() <= graph.succ().len(),
        forall|i: int| 0 <= i < out@.len() ==> (#[trigger] out@[i]).0 < graph.succ().len(),
        forall|i: int| 0 <= i < roots@.len() ==> listed(out@, #[trigger] roots@[i]),
        forall|i: int, j: int|
            0 <= i < out@.len() && 0 <= j < out@.len() && i != j ==> (#[trigger] out@[i]).0 != (
            #[trigger] out@[j]).0,
{
    let ghost succ = graph.succ();
    let n = graph.node_count();
    let mut visited: Vec<bool> = Vec::new();
    let mut i: usize = 0;
    while i < n
        invariant
            i <= n,
            visited@.len() == i,
            forall|v: int| 0 <= v < i ==> !(#[trigger] visited@[v]),
        decreases n - i,
    {
        visited.push(false);
        i += 1;
    }
    let mut out: Vec<(usize, usize)> = Vec::new();
    let mut r: usize = 0;
    while r < roots.len()
        invariant
            graph.wf(),
            succ == graph.succ(),
            n == succ.len(),
            r <= roots@.len(),
            forall|i: int| 0 <= i < roots@.len() ==> (#[trigger] roots@[i]) < n,
            outline_wf(n as nat, out@, visited@),
            out@ == outline_over(succ, roots@, r as int),
            forall|i: int| 0 <= i < r ==> listed(out@, #[trigger] roots@[i]),
        decreases roots@.len() - r,
    {
        list_from(graph, roots[r], 0, &mut visited, &mut out, Ghost(n as nat));
        r += 1;
    }
    proof {
        lemma_outline_bounded(n as nat, out@, visited@);
    }
    out
}

/// The outline of `graph`: the walks start at the nodes in the order of their
/// ids, and every node is listed once.
pub fn summary_outline<N, E>(graph: &LinkGraph<N, E>) -> (out: Vec<(usize, usize)>)
    requires
        graph.wf(),
    ensures
        out@ == outline_of(graph.succ()),
        out@.len() == graph.succ().len(),
        forall|v: usize| v < graph.succ().len() ==> listed(out@, v),
        forall|i: int, j: int|
            0 <= i < out@.len() && 0 <= j < out@.len() && i != j ==> (#[trigger] out@[i]).0 != (
            #[trigger] out@[j]).0,
{
    let n = graph.node_count();
    let mut roots: Vec<usize> = Vec::new();
    let mut u: usize = 0;
    while u < n
        invariant
            u <= n,
            roots@ == all_nodes(u as nat),
        decreases n - u,
    {
        roots.push(u);
        proof {
            assert(roots@ =~= all_nodes((u + 1) as nat));
        }
        u += 1;
    }
    let out = tree_outline(graph, &roots);
    proof {
        let nodes = Seq::new(out@.len(), |i: int| out@[i].0);
        assert forall|v: usize| v < n implies listed(out@, v) by {
            assert(roots@[v as int] == v);
            assert(listed(out@, roots@[v as int]));
        }
        assert forall|v: usize| v < n implies nodes.contains(v) by {
            assert(listed(out@, v));
            let i = choose|i: int| 0 <= i < out@.len() && (#[trigger] out@[i]).0 == v;
            assert(nodes[i] == v);
        }
        crate::components::lemma_covering(nodes, n as nat);
    }
    out
}

} // verus!
