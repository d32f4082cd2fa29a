//! The boundary to `petgraph`: the graph type that holds the link structure,
//! the names under which its contents are spoken of, and one thin function per
//! `petgraph` call. Nothing in this file is proved; every contract here restates
//! what `petgraph` 0.6 does, and the rest of the crate is proved against them.
//!
//! A `petgraph` graph numbers its nodes `0..n` and its edges `0..m`. Each node
//! heads a linked list of its outgoing edges, newest first. `link_ends` and
//! `link_order` expose exactly that: the endpoints of every edge, by edge number,
//! and for every node the edge numbers in the order in which its outgoing list is
//! walked. `tarjan_order` and `toposort_order` stand for what two algorithms of
//! `petgraph` return.

use crate::adjacency::{acyclic, is_scc_decomposition, is_topological_order, on_cycle};
use crate::link_model::{
    chains_after, ends_without, first_edge_to, keeps, kept_edges, links_wf, marked_below,
    order_without, successor_lists, targets,
};
use petgraph::algo::kosaraju_scc;
use petgraph::algo::tarjan_scc;
use petgraph::algo::toposort;
use petgraph::graph::EdgeIndex;
use petgraph::graph::Graph;
use petgraph::graph::NodeIndex;
use petgraph::Directed;
use petgraph::Direction;
use vstd::prelude::*;

verus! {

/// `petgraph::Directed`, the marker of graphs whose edges have a direction.
#[verifier::external_type_specification]
#[verifier::external_body]
pub struct ExDirected(Directed);

/// `petgraph::graph::Graph`, opaque to the verifier.
#[verifier::external_type_specification]
#[verifier::external_body]
#[verifier::reject_recursive_types(N)]
#[verifier::reject_recursive_types(E)]
#[verifier::reject_recursive_types(Ty)]
#[verifier::reject_recursive_types(Ix)]
pub struct ExGraph<N, E, Ty, Ix>(Graph<N, E, Ty, Ix>);

/// The endpoints `(source, target)` of every edge of `g`, by edge number.
pub uninterp spec fn link_ends(g: Graph<(), (), Directed, u32>) -> Seq<(usize, usize)>;

/// For every node of `g`, the numbers of its outgoing edges in the order in
/// which `petgraph` walks them. Its length is the number of nodes.
pub uninterp spec fn link_order(g: Graph<(), (), Directed, u32>) -> Seq<Seq<usize>>;

/// The components that `petgraph::algo::tarjan_scc` returns for a graph whose
/// successor lists are `succ`. The algorithm reads nothing of a graph but its
/// node numbers and, node by node, its successors in walking order.
pub uninterp spec fn tarjan_order(succ: Seq<Seq<usize>>) -> Seq<Seq<usize>>;

/// The order that `petgraph::algo::toposort` returns for an acyclic graph whose
/// successor lists are `succ`. On such a graph the algorithm reads nothing but
/// the node numbers and, node by node, the successors in walking order.
pub uninterp spec fn toposort_order(succ: Seq<Seq<usize>>) -> Seq<usize>;

/// The successor lists of `g`: for every node the targets of its outgoing
/// edges, in walking order.
pub open spec fn link_succ(g: Graph<(), (), Directed, u32>) -> Seq<Seq<usize>> {
    successor_lists(link_ends(g), link_order(g))
}

/// `Graph::new`: a graph without nodes and edges.
#[verifier::external_body]
pub(crate) fn links_new() -> (g: Graph<(), (), Directed, u32>)
    ensures
        link_ends(g) == Seq::<(usize, usize)>::empty(),
        link_order(g) == Seq::<Seq<usize>>::empty(),
{
    Graph::new()
}

/// `Graph::node_count`.
#[verifier::external_body]
pub(crate) fn links_node_count(g: &Graph<(), (), Directed, u32>) -> (n: usize)
    ensures
        n == link_order(*g).len(),
{
    g.node_count()
}

/// `Graph::edge_count`.
#[verifier::external_body]
pub(crate) fn links_edge_count(g: &Graph<(), (), Directed, u32>) -> (m: usize)
    ensures
        m == link_ends(*g).len(),
{
    g.edge_count()
}

/// `Graph::add_node`: the new node gets the next number and no edges. The call
/// panics once the node numbers of the index type are used up, which the
/// precondition excludes.
#[verifier::external_body]
pub(crate) fn links_add_node(g: &mut Graph<(), (), Directed, u32>) -> (id: usize)
    requires
        link_order(*old(g)).len() < u32::MAX,
    ensures
        id == link_order(*old(g)).len(),
        link_order(*final(g)) == link_order(*old(g)).push(Seq::empty()),
        link_ends(*final(g)) == link_ends(*old(g)),
{
    g.add_node(()).index()
}

/// `Graph::add_edge`: the new edge gets the next number and is put at the head
/// of the outgoing list of `a`. The call panics on a node that does not exist
/// and once the edge numbers are used up; the precondition excludes both.
#[verifier::external_body]
pub(crate) fn links_add_edge(g: &mut Graph<(), (), Directed, u32>, a: usize, b: usize) -> (id:
    usize)
    requires
        a < link_order(*old(g)).len(),
        b < link_order(*old(g)).len(),
        link_ends(*old(g)).len() < u32::MAX,
    ensures
        id == link_ends(*old(g)).len(),
        link_ends(*final(g)) == link_ends(*old(g)).push((a, b)),
        link_order(*final(g)) == link_order(*old(g)).update(
            a as int,
            seq![id].add(link_order(*old(g))[a as int]),
        ),
{
    g.add_edge(NodeIndex::new(a), NodeIndex::new(b), ()).index()
}

/// `Graph::neighbors_directed` with `Outgoing`: the targets of the outgoing
/// edges of `a`, in walking order.
#[verifier::external_body]
pub(crate) fn links_successors(g: &Graph<(), (), Directed, u32>, a: usize) -> (out: Vec<usize>)
    requires
        a < link_order(*g).len(),
    ensures
        out@ == targets(link_ends(*g), link_order(*g)[a as int]),
{
    g.neighbors_directed(NodeIndex::new(a), Direction::Outgoing).map(|v| v.index()).collect()
}

/// `Graph::find_edge` on a directed graph: the first edge in the outgoing list
/// of `a` whose target is `b`, if there is one.
#[verifier::external_body]
pub(crate) fn links_find_edge(g: &Graph<(), (), Directed, u32>, a: usize, b: usize) -> (found:
    Option<usize>)
    requires
        a < link_order(*g).len(),
        b < link_order(*g).len(),
    ensures
        found == first_edge_to(link_ends(*g), link_order(*g)[a as int], b),
{
    g.find_edge(NodeIndex::new(a), NodeIndex::new(b)).map(|e| e.index())
}

/// `Graph::remove_edge` for an edge that exists: the edge leaves the outgoing
/// list of its source, the other edges of that list keep their order, and the
/// edge with the highest number takes over the number `e`.
#[verifier::external_body]
pub(crate) fn links_remove_edge(g: &mut Graph<(), (), Directed, u32>, e: usize)
    requires
        links_wf(link_ends(*old(g)), link_order(*old(g))),
        e < link_ends(*old(g)).len(),
    ensures
        link_ends(*final(g)) == ends_without(link_ends(*old(g)), e),
        link_order(*final(g)) == order_without(link_ends(*old(g)), link_order(*old(g)), e),
{
    g.remove_edge(EdgeIndex::new(e));
}

/// `Graph::edge_endpoints` for an edge that exists: its source and target.
#[verifier::external_body]
pub(crate) fn links_edge_endpoints(g: &Graph<(), (), Directed, u32>, e: usize) -> (ends: (
    usize,
    usize,
))
    requires
        e < link_ends(*g).len(),
    ensures
        ends == link_ends(*g)[e as int],
{
    let (a, b) = g.edge_endpoints(EdgeIndex::new(e)).unwrap();
    (a.index(), b.index())
}

/// `Graph::update_edge` without edge weights: where `find_edge` finds an edge
/// from `a` to `b` the graph stays as it is and that edge is returned;
/// otherwise the call is `add_edge`.
#[verifier::external_body]
pub(crate) fn links_update_edge(g: &mut Graph<(), (), Directed, u32>, a: usize, b: usize) -> (id:
    usize)
    requires
        a < link_order(*old(g)).len(),
        b < link_order(*old(g)).len(),
        link_ends(*old(g)).len() < u32::MAX,
    ensures
        match first_edge_to(link_ends(*old(g)), link_order(*old(g))[a as int], b) {
            Some(e) => {
                &&& id == e
                &&& link_ends(*final(g)) == link_ends(*old(g))
                &&& link_order(*final(g)) == link_order(*old(g))
            },
            None => {
                &&& id == link_ends(*old(g)).len()
                &&& link_ends(*final(g)) == link_ends(*old(g)).push((a, b))
                &&& link_order(*final(g)) == link_order(*old(g)).update(
                    a as int,
                    seq![id].add(link_order(*old(g))[a as int]),
                )
            },
        },
{
    g.update_edge(NodeIndex::new(a), NodeIndex::new(b), ()).index()
}

/// `Graph::filter_map` with a choice of nodes and all edges: the result is
/// built anew, first the marked nodes in their order, then, in the order of
/// their numbers, the edges whose two endpoints are marked.
#[verifier::external_body]
pub(crate) fn links_filter(g: &Graph<(), (), Directed, u32>, keep: &Vec<bool>) -> (sub: Graph<
    (),
    (),
    Directed,
    u32,
>)
    requires
        links_wf(link_ends(*g), link_order(*g)),
        keep@.len() == link_order(*g).len(),
    ensures
        link_ends(sub) == kept_edges(link_ends(*g), keep@),
        link_order(sub) == chains_after(
            marked_below(keep@, keep@.len() as int),
            kept_edges(link_ends(*g), keep@),
        ),
{
    g.filter_map(|n, _| keeps(keep, n.index()), |_, _| Some(()))
}

/// `petgraph::algo::tarjan_scc`: the strongly connected components of `g`,
/// a sink component first. The function recurses once per node on a path, so
/// its stack use grows with the longest path of the graph.
#[verifier::external_body]
pub(crate) fn links_tarjan(g: &Graph<(), (), Directed, u32>) -> (comps: Vec<Vec<usize>>)
    ensures
        comps.deep_view() == tarjan_order(link_succ(*g)),
        is_scc_decomposition(link_succ(*g), comps.deep_view()),
{
    tarjan_scc(g).into_iter().map(|c| c.into_iter().map(|v| v.index()).collect()).collect()
}

/// `petgraph::algo::kosaraju_scc`: the strongly connected components of `g`,
/// a sink component first. In which order the nodes of a component come depends
/// on the incoming lists too, so the result is no function of the successor
/// lists.
#[verifier::external_body]
pub(crate) fn links_kosaraju(g: &Graph<(), (), Directed, u32>) -> (comps: Vec<Vec<usize>>)
    ensures
        is_scc_decomposition(link_succ(*g), comps.deep_view()),
{
    kosaraju_scc(g).into_iter().map(|c| c.into_iter().map(|v| v.index()).collect()).collect()
}

/// `petgraph::algo::toposort`: on an acyclic graph every node once, each before
/// its successors; otherwise a node that lies on a cycle. A self-loop counts as
/// a cycle.
#[verifier::external_body]
pub(crate) fn links_toposort(g: &Graph<(), (), Directed, u32>) -> (sorted: Result<
    Vec<usize>,
    usize,
>)
    ensures
        match sorted {
            Ok(order) => {
                &&& order@ == toposort_order(link_succ(*g))
                &&& acyclic(link_succ(*g))
                &&& is_topological_order(link_succ(*g), order@)
            },
            Err(node) => on_cycle(link_succ(*g), node),
        },
{
    match toposort(g, None) {
        Ok(order) => Ok(order.into_iter().map(|v| v.index()).collect()),
        Err(cycle) => Err(cycle.node_id().index()),
    }
}

} // verus!
