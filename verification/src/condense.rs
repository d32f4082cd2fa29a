//! The condensation of a graph: one node for every strongly connected
//! component, carrying the payloads of the component, and the edges of the
//! graph, with their payloads, drawn between the components.

use crate::adjacency::{has_edge, holds_node, is_scc_decomposition, with_edges};
use crate::components::{lemma_component_sizes, lemma_deep_rows};
use crate::graph::{clones_in_order, LinkGraph};
use vstd::pervasive::cloned;
use vstd::prelude::*;

verus! {

/// The place in `comps` of the component that holds node `u`.
pub open spec fn component_of(comps: Seq<Seq<usize>>, u: usize) -> int {
    choose|c: int| 0 <= c < comps.len() && (#[trigger] comps[c]).contains(u)
}

/// For each of the nodes `0..n` the place of its component.
pub open spec fn component_map(comps: Seq<Seq<usize>>, n: nat) -> Seq<usize> {
    Seq::new(n, |u: int| component_of(comps, u as usize) as usize)
}

/// The nodes below `upto` that `map` sends to `c`, ascending.
pub open spec fn members_below(map: Seq<usize>, c: usize, upto: int) -> Seq<usize>
    decreases upto,
{
    if upto <= 0 {
        Seq::empty()
    } else {
        let front = members_below(map, c, upto - 1);
        if map[upto - 1] == c {
            front.push((upto - 1) as usize)
        } else {
            front
        }
    }
}

/// The edges `ends`, in their order, drawn between the components that `map`
/// names. With `make_acyclic`, an edge inside a component is left out, and so
/// is an edge between two components that are joined by an earlier edge in the
/// same direction.
pub open spec fn condensed_edges(ends: Seq<(usize, usize)>, map: Seq<usize>, make_acyclic: bool) -> Seq<
    (usize, usize),
>
    decreases ends.len(),
{
    if ends.len() == 0 {
        Seq::empty()
    } else {
        let front = condensed_edges(ends.drop_last(), map, make_acyclic);
        let edge = (map[ends.last().0 as int], map[ends.last().1 as int]);
        if make_acyclic && (edge.0 == edge.1 || front.contains(edge)) {
            front
        } else {
            front.push(edge)
        }
    }
}

/// For each of the edges that `condensed_edges` draws, the id of the edge of
/// the graph whose payload it carries: the edge that it was drawn for, or, with
/// `make_acyclic`, the last edge between the same two components in the same
/// direction.
pub open spec fn condensed_sources(ends: Seq<(usize, usize)>, map: Seq<usize>, make_acyclic: bool) -> Seq<
    usize,
>
    decreases ends.len(),
{
    if ends.len() == 0 {
        Seq::empty()
    } else {
        let front = condensed_sources(ends.drop_last(), map, make_acyclic);
        let drawn = condensed_edges(ends.drop_last(), map, make_acyclic);
        let edge = (map[ends.last().0 as int], map[ends.last().1 as int]);
        let id = (ends.len() - 1) as usize;
        if make_acyclic && edge.0 == edge.1 {
            front
        } else if make_acyclic && drawn.contains(edge) {
            front.update(drawn.index_of(edge), id)
        } else {
            front.push(id)
        }
    }
}

/// `out` is the condensation of a graph with the edges `ends`, the payloads
/// `payloads` and the edge payloads `edge_payloads` along the components
/// `comps`.
pub open spec fn is_condensation<N: Clone, E: Clone>(
    ends: Seq<(usize, usize)>,
    payloads: Seq<N>,
    edge_payloads: Seq<E>,
    comps: Seq<Seq<usize>>,
    make_acyclic: bool,
    out: LinkGraph<Vec<N>, E>,
) -> bool {
    let map = component_map(comps, payloads.len());
    &&& out.wf()
    &&& out.succ().len() == comps.len()
    &&& out.ends() == condensed_edges(ends, map, make_acyclic)
    &&& out.succ() == with_edges(comps.len(), out.ends())
    &&& forall|c: int|
        0 <= c < comps.len() ==> clones_in_order(
            payloads,
            members_below(map, c as usize, payloads.len() as int),
            (#[trigger] out.payloads()[c])@,
        )
    &&& clones_in_order(
        edge_payloads,
        condensed_sources(ends, map, make_acyclic),
        out.edge_payloads(),
    )
}

/// In a graph built from edges, the edges are what the successor lists show.
pub proof fn lemma_with_edges_has(n: nat, edges: Seq<(usize, usize)>, s: usize, t: usize)
    requires
        forall|e: int| 0 <= e < edges.len() ==> (#[trigger] edges[e]).0 < n,
    ensures
        with_edges(n, edges).len() == n,
        has_edge(with_edges(n, edges), s, t) <==> edges.contains((s, t)),
    decreases edges.len(),
{
    if edges.len() == 0 {
    } else {
        let front = edges.drop_last();
        assert forall|e: int| 0 <= e < front.len() implies (#[trigger] front[e]).0 < n by {
            assert(front[e] == edges[e]);
        }
        lemma_with_edges_has(n, front, s, t);
        let before = with_edges(n, front);
        let last = edges.last();
        assert(last == edges[edges.len() - 1]);
        let row = seq![last.1].add(before[last.0 as int]);
        let after = with_edges(n, edges);
        if edges.contains((s, t)) {
            let k = choose|k: int| 0 <= k < edges.len() && edges[k] == (s, t);
            if k < front.len() {
                assert(front[k] == (s, t));
                assert(front.contains((s, t)));
                let j = choose|j: int| 0 <= j < before[s as int].len() && before[s as int][j] == t;
                if s == last.0 {
                    assert(row[j + 1] == t);
                }
            } else {
                assert(row[0] == t);
            }
            assert(has_edge(after, s, t));
        }
        if has_edge(after, s, t) {
            let j = choose|j: int| 0 <= j < after[s as int].len() && after[s as int][j] == t;
            if s == last.0 {
                if j == 0 {
                    assert(edges[edges.len() - 1] == (s, t));
                } else {
                    assert(before[s as int][j - 1] == t);
                    assert(has_edge(before, s, t));
                    let k = choose|k: int| 0 <= k < front.len() && front[k] == (s, t);
                    assert(edges[k] == (s, t));
                }
            } else {
                assert(has_edge(before, s, t));
                let k = choose|k: int| 0 <= k < front.len() && front[k] == (s, t);
                assert(edges[k] == (s, t));
            }
        }
    }
}

/// The edges between components are no more than the edges, and they lie
/// between the places that `map` names.
pub proof fn lemma_condensed_edges(
    ends: Seq<(usize, usize)>,
    map: Seq<usize>,
    make_acyclic: bool,
    k: nat,
)
    requires
        forall|e: int|
            0 <= e < ends.len() ==> (#[trigger] ends[e]).0 < map.len() && ends[e].1 < map.len(),
        forall|u: int| 0 <= u < map.len() ==> (#[trigger] map[u]) < k,
    ensures
        condensed_edges(ends, map, make_acyclic).len() <= ends.len(),
        forall|e: int|
            0 <= e < condensed_edges(ends, map, make_acyclic).len() ==> (#[trigger] condensed_edges(
                ends,
                map,
                make_acyclic,
            )[e]).0 < k && condensed_edges(ends, map, make_acyclic)[e].1 < k,
    decreases ends.len(),
{
    if ends.len() > 0 {
        let front = ends.drop_last();
        assert forall|e: int| 0 <= e < front.len() implies (#[trigger] front[e]).0 < map.len()
            && front[e].1 < map.len() by {
            assert(front[e] == ends[e]);
        }
        lemma_condensed_edges(front, map, make_acyclic, k);
        let head = condensed_edges(front, map, make_acyclic);
        let all = condensed_edges(ends, map, make_acyclic);
        assert(ends.last() == ends[ends.len() - 1]);
        assert forall|e: int| 0 <= e < all.len() implies (#[trigger] all[e]).0 < k && all[e].1
            < k by {
            if e < head.len() {
                assert(all[e] == head[e]);
            }
        }
    }
}

/// Every edge that is drawn has an edge of the graph to take its payload
/// from, and with `make_acyclic` no edge is drawn twice.
pub proof fn lemma_condensed_sources(ends: Seq<(usize, usize)>, map: Seq<usize>, make_acyclic: bool)
    requires
        ends.len() <= usize::MAX,
    ensures
        condensed_sources(ends, map, make_acyclic).len() == condensed_edges(
            ends,
            map,
            make_acyclic,
        ).len(),
        forall|i: int|
            0 <= i < condensed_sources(ends, map, make_acyclic).len() ==> (
            #[trigger] condensed_sources(ends, map, make_acyclic)[i]) < ends.len(),
        make_acyclic ==> condensed_edges(ends, map, make_acyclic).no_duplicates(),
    decreases ends.len(),
{
    if ends.len() > 0 {
        let front = ends.drop_last();
        lemma_condensed_sources(front, map, make_acyclic);
        let drawn = condensed_edges(front, map, make_acyclic);
        let from = condensed_sources(front, map, make_acyclic);
        let all = condensed_edges(ends, map, make_acyclic);
        let all_from = condensed_sources(ends, map, make_acyclic);
        let edge = (map[ends.last().0 as int], map[ends.last().1 as int]);
        assert forall|i: int| 0 <= i < all_from.len() implies (#[trigger] all_from[i]) < ends.len() by {
            if i < from.len() {
                assert(from[i] < front.len());
            }
        }
        if make_acyclic {
            assert forall|i: int, j: int| 0 <= i < all.len() && 0 <= j < all.len() && i != j implies all[i]
                != all[j] by {
                if i < drawn.len() && j < drawn.len() {
                    assert(all[i] == drawn[i] && all[j] == drawn[j]);
                } else if i < drawn.len() {
                    assert(all[i] == drawn[i]);
                    assert(drawn.contains(drawn[i]));
                } else if j < drawn.len() {
                    assert(all[j] == drawn[j]);
                    assert(drawn.contains(drawn[j]));
                }
            }
        }
    }
}

/// For every node the place of its component in `comps`.
fn map_components(n: usize, comps: &Vec<Vec<usize>>, Ghost(succ): Ghost<Seq<Seq<usize>>>) -> (map:
    Vec<usize>)
    requires
        n == succ.len(),
        is_scc_decomposition(succ, comps.deep_view()),
    ensures
        map@ == component_map(comps.deep_view(), n as nat),
        forall|u: int| 0 <= u < n ==> (#[trigger] map@[u]) < comps@.len(),
{
    let ghost rows = comps.deep_view();
    proof {
        lemma_deep_rows(*comps);
    }
    let mut map: Vec<usize> = Vec::new();
    let mut u: usize = 0;
    while u < n
        invariant
            u <= n,
            map@.len() == u,
        decreases n - u,
    {
        map.push(0);
        u += 1;
    }
    let mut c: usize = 0;
    while c < comps.len()
        invariant
            c <= comps@.len(),
            n == succ.len(),
            map@.len() == n,
            rows == comps.deep_view(),
            rows.len() == comps@.len(),
            forall|j: int| 0 <= j < comps@.len() ==> #[trigger] rows[j] == comps@[j]@,
            is_scc_decomposition(succ, rows),
            forall|i: int, a: int|
                0 <= i < c && 0 <= a < rows[i].len() ==> map@[#[trigger] rows[i][a] as int] == i,
        decreases comps@.len() - c,
    {
        let comp = &comps[c];
        let mut a: usize = 0;
        while a < comp.len()
            invariant
                c < comps@.len(),
                rows.len() == comps@.len(),
                a <= comp@.len(),
                comp@ == rows[c as int],
                n == succ.len(),
                map@.len() == n,
                is_scc_decomposition(succ, rows),
                forall|i: int, b: int|
                    0 <= i < c && 0 <= b < rows[i].len() ==> map@[#[trigger] rows[i][b] as int] == i,
                forall|b: int| 0 <= b < a ==> map@[#[trigger] rows[c as int][b] as int] == c,
            decreases comp@.len() - a,
        {
            let node = comp[a];
            proof {
                assert(rows[c as int][a as int] < succ.len());
                assert forall|i: int, b: int| 0 <= i < c && 0 <= b < rows[i].len() implies (
                #[trigger] rows[i][b]) != node by {
                    assert(rows[c as int][a as int] == node);
                }
                assert forall|b: int| 0 <= b < a implies (#[trigger] rows[c as int][b]) != node by {
                    assert(rows[c as int][a as int] == node);
                }
            }
            map.set(node, c);
            a += 1;
        }
        c += 1;
    }
    proof {
        let want = component_map(rows, n as nat);
        assert forall|v: int| 0 <= v < n implies map@[v] == want[v] && (#[trigger] map@[v])
            < comps@.len() by {
            assert(holds_node(rows, v as usize));
            let (i, a) = choose|i: int, a: int|
                0 <= i < rows.len() && 0 <= a < rows[i].len() && #[trigger] rows[i][a]
                    == v as usize;
            assert(map@[rows[i][a] as int] == i);
            assert(rows[i].contains(v as usize));
            let j = component_of(rows, v as usize);
            assert(0 <= j < rows.len() && rows[j].contains(v as usize));
            let b = choose|b: int| 0 <= b < rows[j].len() && rows[j][b] == v as usize;
            assert(rows[i][a] == rows[j][b]);
        }
        assert(map@ =~= want);
    }
    map
}

/// The condensation of `graph` along the decomposition `comps`: node `c` of the
/// result carries clones of the payloads of the nodes of `comps[c]`, ascending
/// by node, and every edge of `graph`, taken by its id, is drawn between the
/// components of its endpoints, with a clone of its payload. With
/// `make_acyclic` an edge inside a component is left out, and of the edges
/// between the same two components in the same direction only the first is
/// drawn, which takes over the payload of each later one; without it every
/// edge is drawn.
pub fn condense<N: Clone, E: Clone>(
    graph: &LinkGraph<N, E>,
    comps: &Vec<Vec<usize>>,
    make_acyclic: bool,
) -> (out: LinkGraph<Vec<N>, E>)
    requires
        graph.wf(),
        is_scc_decomposition(graph.succ(), comps.deep_view()),
    ensures
        is_condensation(
            graph.ends(),
            graph.payloads(),
            graph.edge_payloads(),
            comps.deep_view(),
            make_acyclic,
            out,
        ),
{
    let ghost succ = graph.succ();
    let ghost rows = comps.deep_view();
    let n = graph.node_count();
    let k = comps.len();
    let map = map_components(n, comps, Ghost(succ));
    proof {
        lemma_deep_rows(*comps);
        lemma_component_sizes(succ, rows);
    }
    let mut out: LinkGraph<Vec<N>, E> = LinkGraph::new();
    let mut c: usize = 0;
    while c < k
        invariant
            c <= k,
            k <= n,
            n <= u32::MAX,
            out.wf(),
            out.succ() == Seq::new(c as nat, |u: int| Seq::<usize>::empty()),
            out.ends() == Seq::<(usize, usize)>::empty(),
            out.edge_payloads() == Seq::<E>::empty(),
            out.payloads().len() == c,
            forall|i: int| 0 <= i < c ==> (#[trigger] out.payloads()[i])@ == Seq::<N>::empty(),
        decreases k - c,
    {
        out.add_node(Vec::new());
        proof {
            assert(out.succ() =~= Seq::new((c + 1) as nat, |u: int| Seq::<usize>::empty()));
        }
        c += 1;
    }
    let mut u: usize = 0;
    while u < n
        invariant
            u <= n,
            n == graph.succ().len(),
            graph.wf(),
            map@.len() == n,
            forall|v: int| 0 <= v < n ==> (#[trigger] map@[v]) < k,
            out.wf(),
            out.succ() == Seq::new(k as nat, |u: int| Seq::<usize>::empty()),
            out.ends() == Seq::<(usize, usize)>::empty(),
            out.edge_payloads() == Seq::<E>::empty(),
            out.payloads().len() == k,
            forall|i: int|
                0 <= i < k ==> clones_in_order(
                    graph.payloads(),
                    members_below(map@, i as usize, u as int),
                    (#[trigger] out.payloads()[i])@,
                ),
        decreases n - u,
    {
        let at = map[u];
        let item = graph.payload(u).clone();
        let ghost before = out.payloads();
        let group = out.payload_mut(at);
        group.push(item);
        proof {
            assert(out.succ() =~= Seq::new(k as nat, |u: int| Seq::<usize>::empty()));
            assert forall|i: int| 0 <= i < k implies clones_in_order(
                graph.payloads(),
                members_below(map@, i as usize, u + 1),
                (#[trigger] out.payloads()[i])@,
            ) by {
                let nodes = members_below(map@, i as usize, u + 1);
                let old_nodes = members_below(map@, i as usize, u as int);
                assert(clones_in_order(graph.payloads(), old_nodes, before[i]@));
                if i == at {
                    assert(out.payloads()[i]@ == before[i]@.push(item));
                    assert forall|j: int| 0 <= j < nodes.len() implies cloned(
                        graph.payloads()[nodes[j] as int],
                        #[trigger] out.payloads()[i]@[j],
                    ) by {
                        if j < old_nodes.len() {
                            assert(out.payloads()[i]@[j] == before[i]@[j]);
                        }
                    }
                } else {
                    assert(out.payloads()[i] == before[i]);
                }
            }
        }
        u += 1;
    }
    let m = graph.edge_count();
    let mut e: usize = 0;
    proof {
        assert(graph.ends().take(0) =~= Seq::<(usize, usize)>::empty());
    }
    while e < m
        invariant
            e <= m,
            m == graph.ends().len(),
            m <= u32::MAX,
            n == graph.succ().len(),
            graph.wf(),
            map@.len() == n,
            forall|v: int| 0 <= v < n ==> (#[trigger] map@[v]) < k,
            out.wf(),
            out.succ().len() == k,
            out.payloads().len() == k,
            forall|i: int|
                0 <= i < k ==> clones_in_order(
                    graph.payloads(),
                    members_below(map@, i as usize, n as int),
                    (#[trigger] out.payloads()[i])@,
                ),
            out.ends() == condensed_edges(graph.ends().take(e as int), map@, make_acyclic),
            out.succ() == with_edges(k as nat, out.ends()),
            clones_in_order(
                graph.edge_payloads(),
                condensed_sources(graph.ends().take(e as int), map@, make_acyclic),
                out.edge_payloads(),
            ),
        decreases m - e,
    {
        let ghost done = graph.ends().take(e as int);
        let ghost drawn = out.ends();
        let ghost from = condensed_sources(done, map@, make_acyclic);
        let ghost carried = out.edge_payloads();
        let ends = graph.edge_endpoints(e).unwrap();
        let source = map[ends.0];
        let target = map[ends.1];
        let item = graph.edge_payload(e).clone();
        proof {
            assert(graph.ends().take(e + 1).drop_last() =~= done);
            assert(graph.ends().take(e + 1).last() == graph.ends()[e as int]);
            assert forall|j: int| 0 <= j < done.len() implies (#[trigger] done[j]).0 < map@.len()
                && done[j].1 < map@.len() by {
                assert(done[j] == graph.ends()[j]);
            }
            lemma_condensed_edges(done, map@, make_acyclic, k as nat);
            lemma_condensed_sources(done, map@, make_acyclic);
            lemma_with_edges_has(k as nat, drawn, source, target);
        }
        if make_acyclic {
            if source != target {
                let id = out.update_edge(source, target, item);
                proof {
                    if !drawn.contains((source, target)) {
                        assert(drawn.push((source, target)).drop_last() =~= drawn);
                    } else {
                        assert(drawn[id as int] == (source, target));
                        assert(drawn.index_of((source, target)) == id);
                    }
                }
            }
        } else {
            out.add_edge(source, target, item);
            proof {
                assert(drawn.push((source, target)).drop_last() =~= drawn);
            }
        }
        proof {
            let now_from = condensed_sources(graph.ends().take(e + 1), map@, make_acyclic);
            assert forall|i: int| 0 <= i < now_from.len() implies cloned(
                graph.edge_payloads()[now_from[i] as int],
                #[trigger] out.edge_payloads()[i],
            ) by {
                if i < from.len() && now_from[i] == from[i] {
                    assert(cloned(graph.edge_payloads()[from[i] as int], carried[i]));
                }
            }
        }
        e += 1;
    }
    proof {
        assert(graph.ends().take(m as int) =~= graph.ends());
        assert(graph.payloads().len() == n);
    }
    out
}

/// The condensation of `graph` along its strongly connected components as
/// Kosaraju's algorithm finds them: the result is `condense` of `graph` and
/// one decomposition into strongly connected components, a sink component
/// first.
pub fn condensation<N: Clone, E: Clone>(graph: &LinkGraph<N, E>, make_acyclic: bool) -> (out: LinkGraph<
    Vec<N>,
    E,
>)
    requires
        graph.wf(),
    ensures
        exists|comps: Seq<Seq<usize>>|
            is_scc_decomposition(graph.succ(), comps) && #[trigger] is_condensation(
                graph.ends(),
                graph.payloads(),
                graph.edge_payloads(),
                comps,
                make_acyclic,
                out,
            ),
{
    let comps = graph.kosaraju_components();
    let out = condense(graph, &comps, make_acyclic);
    proof {
        assert(is_condensation(
            graph.ends(),
            graph.payloads(),
            graph.edge_payloads(),
            comps.deep_view(),
            make_acyclic,
            out,
        ));
    }
    out
}

} // verus!
