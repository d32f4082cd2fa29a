//! The graph that the library works on: nodes with a payload each, numbered from
//! zero in the order in which they were added, and directed edges between them,
//! each with a payload of its own. The link structure is kept by `petgraph`; the
//! payloads stand beside it.

use crate::adjacency::{
    acyclic, has_edge, is_scc_decomposition, is_topological_order, on_cycle, position,
    with_edges,
};
use crate::link_model::{
    chains_after, first_edge_to, kept_edge_ids, kept_edges, lemma_add_edge, lemma_add_node,
    lemma_chains_after, lemma_first_edge_to, lemma_kept_edges, lemma_marked_bound,
    lemma_remove_edge, links_wf, marked_below, order_without, successor_lists,
};
use crate::links::{
    link_ends, link_order, links_add_edge, links_add_node, links_edge_count,
    links_edge_endpoints, links_filter, links_find_edge, links_kosaraju, links_new,
    links_node_count, links_remove_edge, links_successors, links_tarjan, links_toposort,
    links_update_edge, tarjan_order, toposort_order,
};
use petgraph::graph::Graph;
use petgraph::Directed;
use vstd::multiset::Multiset;
use vstd::pervasive::cloned;
use vstd::prelude::*;

verus! {

/// `out` holds a clone of the payload of every node of `order`, in that order.
pub open spec fn clones_in_order<N: Clone>(payloads: Seq<N>, order: Seq<usize>, out: Seq<N>) -> bool {
    &&& out.len() == order.len()
    &&& forall|i: int| 0 <= i < order.len() ==> cloned(payloads[order[i] as int], #[trigger] out[i])
}

/// The numbers below `upto` that `keep` marks, ascending.
pub open spec fn marked_nodes(keep: Seq<bool>, upto: int) -> Seq<usize>
    decreases upto,
{
    if upto <= 0 {
        Seq::empty()
    } else {
        let front = marked_nodes(keep, upto - 1);
        if keep[upto - 1] {
            front.push((upto - 1) as usize)
        } else {
            front
        }
    }
}

/// There are as many marked numbers as `marked_below` counts; each is marked
/// and below `upto`, they ascend, and every marked number below `upto` is
/// among them.
pub proof fn lemma_marked_nodes(keep: Seq<bool>, upto: int)
    requires
        0 <= upto <= keep.len(),
        upto <= usize::MAX,
    ensures
        marked_nodes(keep, upto).len() == marked_below(keep, upto),
        forall|i: int|
            0 <= i < marked_nodes(keep, upto).len() ==> (#[trigger] marked_nodes(keep, upto)[i])
                < upto && keep[marked_nodes(keep, upto)[i] as int],
        forall|i: int, j: int|
            0 <= i < j < marked_nodes(keep, upto).len() ==> (#[trigger] marked_nodes(keep, upto)[i])
                < (#[trigger] marked_nodes(keep, upto)[j]),
        forall|v: usize| v < upto && keep[v as int] ==> marked_nodes(keep, upto).contains(v),
    decreases upto,
{
    if upto > 0 {
        lemma_marked_nodes(keep, upto - 1);
        let front = marked_nodes(keep, upto - 1);
        let all = marked_nodes(keep, upto);
        assert forall|i: int| 0 <= i < all.len() implies (#[trigger] all[i]) < upto
            && keep[all[i] as int] by {
            if i < front.len() {
                assert(all[i] == front[i]);
            }
        }
        assert forall|i: int, j: int| 0 <= i < j < all.len() implies (#[trigger] all[i]) < (
        #[trigger] all[j]) by {
            assert(all[i] == front[i]);
            if j < front.len() {
                assert(all[j] == front[j]);
            }
        }
        assert forall|v: usize| v < upto && keep[v as int] implies all.contains(v) by {
            if v < upto - 1 {
                assert(front.contains(v));
                let i = choose|i: int| 0 <= i < front.len() && front[i] == v;
                assert(all[i] == v);
            } else {
                assert(all[all.len() - 1] == v);
            }
        }
    }
}

/// The edges `ends` with their payloads, by edge id.
pub open spec fn weighted<E>(ends: Seq<(usize, usize)>, payloads: Seq<E>) -> Seq<
    ((usize, usize), E),
> {
    Seq::new(ends.len(), |e: int| (ends[e], payloads[e]))
}

/// Taking out edge `e`, with the last edge moved to its place, takes one
/// edge with its payload out of the edges and leaves the others as they were.
pub proof fn lemma_weighted_without<E>(ends: Seq<(usize, usize)>, payloads: Seq<E>, e: int)
    requires
        0 <= e < ends.len(),
        payloads.len() == ends.len(),
    ensures
        weighted(
            ends.update(e, ends.last()).drop_last(),
            payloads.update(e, payloads.last()).drop_last(),
        ).to_multiset() == weighted(ends, payloads).to_multiset().remove(
            (ends[e], payloads[e]),
        ),
        weighted(
            ends.update(e, ends.last()).drop_last(),
            payloads.update(e, payloads.last()).drop_last(),
        ).to_multiset().subset_of(weighted(ends, payloads).to_multiset()),
{
    broadcast use vstd::seq_lib::to_multiset_update, vstd::seq_lib::to_multiset_remove;

    let all = weighted(ends, payloads);
    let last = all.len() - 1;
    let moved = all.update(e, all.last());
    let rest = weighted(
        ends.update(e, ends.last()).drop_last(),
        payloads.update(e, payloads.last()).drop_last(),
    );
    assert(rest =~= moved.remove(last));
    assert(moved[last] == all.last());
    assert(moved.to_multiset() =~= all.to_multiset().insert(all.last()).remove(all[e]));
    assert(moved.remove(last).to_multiset() =~= moved.to_multiset().remove(all.last()));
    assert(all.to_multiset().count(all[e]) > 0) by {
        assert(all.contains(all[e]));
        vstd::seq_lib::to_multiset_contains(all, all[e]);
    }
    assert(rest.to_multiset() =~= all.to_multiset().remove(all[e]));
}

/// What is part of a part is part of the whole.
pub proof fn lemma_subset_trans<T>(a: Multiset<T>, b: Multiset<T>, c: Multiset<T>)
    requires
        a.subset_of(b),
        b.subset_of(c),
    ensures
        a.subset_of(c),
{
    assert forall|x: T| a.count(x) <= c.count(x) by {
        assert(a.count(x) <= b.count(x));
        assert(b.count(x) <= c.count(x));
    }
}

/// A directed graph whose node `i` carries the payload `payloads()[i]` and
/// whose edge `e` carries the payload `edge_payloads()[e]`.
#[derive(Debug)]
pub struct LinkGraph<N, E> {
    links: Graph<(), (), Directed, u32>,
    payloads: Vec<N>,
    edge_payloads: Vec<E>,
}

impl<N, E> LinkGraph<N, E> {
    /// The endpoints `(source, target)` of every edge, by edge id.
    pub closed spec fn ends(&self) -> Seq<(usize, usize)> {
        link_ends(self.links)
    }

    /// For every node the ids of its outgoing edges, in the order in which the
    /// successors of the node are enumerated.
    pub closed spec fn order(&self) -> Seq<Seq<usize>> {
        link_order(self.links)
    }

    /// The successor lists: row `u` holds the successors of node `u` in the
    /// order in which `successors(u)` enumerates them.
    pub open spec fn succ(&self) -> Seq<Seq<usize>> {
        successor_lists(self.ends(), self.order())
    }

    /// The payloads, by node.
    pub closed spec fn payloads(&self) -> Seq<N> {
        self.payloads@
    }

    /// The payloads of the edges, by edge id.
    pub closed spec fn edge_payloads(&self) -> Seq<E> {
        self.edge_payloads@
    }

    /// The edges with their payloads, without regard to their ids.
    pub open spec fn weighted_edges(&self) -> Multiset<((usize, usize), E)> {
        weighted(self.ends(), self.edge_payloads()).to_multiset()
    }

    /// Edges and outgoing lists fit together, and every node and every edge
    /// has a payload.
    pub open spec fn wf(&self) -> bool {
        &&& links_wf(self.ends(), self.order())
        &&& self.payloads().len() == self.order().len()
        &&& self.edge_payloads().len() == self.ends().len()
    }

    /// A graph without nodes.
    pub fn new() -> (g: Self)
        ensures
            g.wf(),
            g.succ() == Seq::<Seq<usize>>::empty(),
            g.ends() == Seq::<(usize, usize)>::empty(),
            g.payloads() == Seq::<N>::empty(),
            g.edge_payloads() == Seq::<E>::empty(),
    {
        let g = LinkGraph { links: links_new(), payloads: Vec::new(), edge_payloads: Vec::new() };
        assert(g.succ() =~= Seq::<Seq<usize>>::empty());
        g
    }

    /// The number of nodes.
    pub fn node_count(&self) -> (n: usize)
        ensures
            n == self.succ().len(),
    {
        links_node_count(&self.links)
    }

    /// The number of edges.
    pub fn edge_count(&self) -> (m: usize)
        ensures
            m == self.ends().len(),
    {
        links_edge_count(&self.links)
    }

    /// Adds a node with the given payload and returns its id, the number of
    /// nodes before the call.
    pub fn add_node(&mut self, payload: N) -> (id: usize)
        requires
            old(self).wf(),
            old(self).succ().len() < u32::MAX,
        ensures
            final(self).wf(),
            id == old(self).succ().len(),
            final(self).succ() == old(self).succ().push(Seq::empty()),
            final(self).ends() == old(self).ends(),
            final(self).order() == old(self).order().push(Seq::empty()),
            final(self).payloads() == old(self).payloads().push(payload),
            final(self).edge_payloads() == old(self).edge_payloads(),
    {
        proof {
            lemma_add_node(self.ends(), self.order());
        }
        let id = links_add_node(&mut self.links);
        self.payloads.push(payload);
        id
    }

    /// Adds an edge from `u` to `v` with the given payload and returns its id,
    /// the number of edges before the call. The new edge comes first among the
    /// edges that leave `u`. A self-loop and a second edge between the same
    /// nodes are allowed.
    pub fn add_edge(&mut self, u: usize, v: usize, payload: E) -> (id: usize)
        requires
            old(self).wf(),
            u < old(self).succ().len(),
            v < old(self).succ().len(),
            old(self).ends().len() < u32::MAX,
        ensures
            final(self).wf(),
            id == old(self).ends().len(),
            final(self).ends() == old(self).ends().push((u, v)),
            final(self).order() == old(self).order().update(
                u as int,
                seq![id].add(old(self).order()[u as int]),
            ),
            final(self).succ() == old(self).succ().update(
                u as int,
                seq![v].add(old(self).succ()[u as int]),
            ),
            final(self).payloads() == old(self).payloads(),
            final(self).edge_payloads() == old(self).edge_payloads().push(payload),
    {
        proof {
            lemma_add_edge(self.ends(), self.order(), u, v);
        }
        self.edge_payloads.push(payload);
        links_add_edge(&mut self.links, u, v)
    }

    /// The successors of `u`, in enumeration order.
    pub fn successors(&self, u: usize) -> (out: Vec<usize>)
        requires
            self.wf(),
            u < self.succ().len(),
        ensures
            out@ == self.succ()[u as int],
    {
        links_successors(&self.links, u)
    }

    /// The number of edges that leave `u`.
    pub fn out_degree(&self, u: usize) -> (d: usize)
        requires
            self.wf(),
            u < self.succ().len(),
        ensures
            d == self.succ()[u as int].len(),
    {
        links_successors(&self.links, u).len()
    }

    /// The first edge from `u` to `v` in the enumeration order of `u`, if there
    /// is an edge from `u` to `v`. Ids that name no node have no edges.
    pub fn find_edge(&self, u: usize, v: usize) -> (found: Option<usize>)
        requires
            self.wf(),
        ensures
            found is Some <==> has_edge(self.succ(), u, v),
            found matches Some(e) ==> {
                &&& e < self.ends().len()
                &&& self.ends()[e as int] == (u, v)
                &&& 0 <= position(self.succ()[u as int], v) < self.order()[u as int].len()
                &&& self.order()[u as int][position(self.succ()[u as int], v)] == e
            },
    {
        let n = links_node_count(&self.links);
        if u >= n || v >= n {
            proof {
                if has_edge(self.succ(), u, v) {
                    let k = choose|k: int|
                        0 <= k < self.succ()[u as int].len() && self.succ()[u as int][k] == v;
                    assert(self.order()[u as int][k] < self.ends().len());
                }
            }
            return None;
        }
        proof {
            lemma_first_edge_to(self.ends(), self.order()[u as int], v);
        }
        let found = links_find_edge(&self.links, u, v);
        proof {
            if let Some(e) = found {
                let k = position(self.succ()[u as int], v);
                assert(self.order()[u as int][k] == e);
                assert(self.succ()[u as int][k] == v);
            }
        }
        found
    }

    /// Whether there is an edge from `u` to `v`.
    pub fn contains_edge(&self, u: usize, v: usize) -> (found: bool)
        requires
            self.wf(),
        ensures
            found == has_edge(self.succ(), u, v),
    {
        self.find_edge(u, v).is_some()
    }

    /// Removes the edge with id `e` and returns its payload, if there is such
    /// an edge. The edge leaves the successors of its source at the place where
    /// it stood; the other successors keep their order. The edge with the
    /// highest id is known by the id `e` afterwards.
    pub fn remove_edge(&mut self, e: usize) -> (removed: Option<E>)
        requires
            old(self).wf(),
        ensures
            final(self).wf(),
            removed is Some <==> e < old(self).ends().len(),
            final(self).payloads() == old(self).payloads(),
            removed is None ==> {
                &&& final(self).succ() == old(self).succ()
                &&& final(self).ends() == old(self).ends()
                &&& final(self).order() == old(self).order()
                &&& final(self).edge_payloads() == old(self).edge_payloads()
            },
            removed matches Some(payload) ==> {
                let src = old(self).ends()[e as int].0 as int;
                let at = old(self).order()[src].index_of(e);
                &&& payload == old(self).edge_payloads()[e as int]
                &&& 0 <= src < old(self).succ().len()
                &&& 0 <= at < old(self).succ()[src].len()
                &&& old(self).order()[src][at] == e
                &&& final(self).succ() == old(self).succ().update(
                    src,
                    old(self).succ()[src].remove(at),
                )
                &&& final(self).ends() == old(self).ends().update(
                    e as int,
                    old(self).ends().last(),
                ).drop_last()
                &&& final(self).order() == order_without(old(self).ends(), old(self).order(), e)
                &&& final(self).edge_payloads() == old(self).edge_payloads().update(
                    e as int,
                    old(self).edge_payloads().last(),
                ).drop_last()
                &&& final(self).weighted_edges() == old(self).weighted_edges().remove(
                    (old(self).ends()[e as int], payload),
                )
            },
            final(self).weighted_edges().subset_of(old(self).weighted_edges()),
    {
        if e >= links_edge_count(&self.links) {
            return None;
        }
        proof {
            lemma_remove_edge(self.ends(), self.order(), e);
            lemma_weighted_without(self.ends(), self.edge_payloads(), e as int);
        }
        links_remove_edge(&mut self.links, e);
        Some(self.edge_payloads.swap_remove(e))
    }

    /// The payload of edge `e`.
    pub fn edge_payload(&self, e: usize) -> (p: &E)
        requires
            self.wf(),
            e < self.ends().len(),
        ensures
            *p == self.edge_payloads()[e as int],
    {
        &self.edge_payloads[e]
    }

    /// The source and the target of edge `e`, if there is such an edge.
    pub fn edge_endpoints(&self, e: usize) -> (ends: Option<(usize, usize)>)
        requires
            self.wf(),
        ensures
            ends == if e < self.ends().len() {
                Some(self.ends()[e as int])
            } else {
                None
            },
            ends matches Some(pair) ==> pair.0 < self.succ().len() && pair.1 < self.succ().len(),
    {
        if e < links_edge_count(&self.links) {
            Some(links_edge_endpoints(&self.links, e))
        } else {
            None
        }
    }

    /// Gives the edge from `u` to `v` the payload `payload`: the first such
    /// edge in the enumeration order of `u` if there is one, a new edge
    /// otherwise. Returns the id of that edge.
    pub fn update_edge(&mut self, u: usize, v: usize, payload: E) -> (id: usize)
        requires
            old(self).wf(),
            u < old(self).succ().len(),
            v < old(self).succ().len(),
            old(self).ends().len() < u32::MAX,
        ensures
            final(self).wf(),
            final(self).payloads() == old(self).payloads(),
            has_edge(old(self).succ(), u, v) ==> {
                &&& final(self).succ() == old(self).succ()
                &&& final(self).ends() == old(self).ends()
                &&& final(self).order() == old(self).order()
                &&& id < old(self).ends().len()
                &&& old(self).ends()[id as int] == (u, v)
                &&& id == old(self).order()[u as int][position(old(self).succ()[u as int], v)]
                &&& final(self).edge_payloads() == old(self).edge_payloads().update(
                    id as int,
                    payload,
                )
            },
            !has_edge(old(self).succ(), u, v) ==> {
                &&& id == old(self).ends().len()
                &&& final(self).ends() == old(self).ends().push((u, v))
                &&& final(self).order() == old(self).order().update(
                    u as int,
                    seq![id].add(old(self).order()[u as int]),
                )
                &&& final(self).succ() == old(self).succ().update(
                    u as int,
                    seq![v].add(old(self).succ()[u as int]),
                )
                &&& final(self).edge_payloads() == old(self).edge_payloads().push(payload)
            },
    {
        proof {
            lemma_first_edge_to(self.ends(), self.order()[u as int], v);
            lemma_add_edge(self.ends(), self.order(), u, v);
            if first_edge_to(self.ends(), self.order()[u as int], v) is Some {
                let k = position(self.succ()[u as int], v);
                assert(self.succ()[u as int][k] == v);
                assert(self.order()[u as int][k] < self.ends().len());
            }
        }
        let m = links_edge_count(&self.links);
        let id = links_update_edge(&mut self.links, u, v);
        if id < m {
            self.edge_payloads.set(id, payload);
        } else {
            self.edge_payloads.push(payload);
        }
        id
    }

    /// The payload of node `u`, to be changed in place.
    pub fn payload_mut(&mut self, u: usize) -> (p: &mut N)
        requires
            old(self).wf(),
            u < old(self).succ().len(),
        ensures
            *p == old(self).payloads()[u as int],
            final(self).payloads() == old(self).payloads().update(u as int, *final(p)),
            final(self).ends() == old(self).ends(),
            final(self).order() == old(self).order(),
            final(self).edge_payloads() == old(self).edge_payloads(),
    {
        proof {
            assert(self.succ().len() == self.order().len());
        }
        &mut self.payloads[u]
    }

    /// The subgraph on the nodes that `keep` marks: the marked nodes in their
    /// order and the edges between them in the order of their ids, each node
    /// and each edge carrying the id that it has in this graph.
    pub fn induced_subgraph(&self, keep: &Vec<bool>) -> (sub: LinkGraph<usize, usize>)
        requires
            self.wf(),
            keep@.len() == self.succ().len(),
        ensures
            sub.wf(),
            sub.ends() == kept_edges(self.ends(), keep@),
            sub.order() == chains_after(
                marked_below(keep@, keep@.len() as int),
                kept_edges(self.ends(), keep@),
            ),
            sub.succ() == with_edges(
                marked_below(keep@, keep@.len() as int),
                kept_edges(self.ends(), keep@),
            ),
            sub.payloads() == marked_nodes(keep@, keep@.len() as int),
            sub.edge_payloads() == kept_edge_ids(self.ends(), keep@),
    {
        let n = self.payloads.len();
        proof {
            assert(self.succ().len() == self.order().len());
            lemma_kept_edges(self.ends(), self.order(), keep@);
            lemma_marked_bound(keep@, n as int);
            lemma_chains_after(
                marked_below(keep@, n as int),
                kept_edges(self.ends(), keep@),
            );
        }
        let links = links_filter(&self.links, keep);
        let mut payloads: Vec<usize> = Vec::new();
        let mut u: usize = 0;
        while u < n
            invariant
                u <= n,
                n == keep@.len(),
                payloads@ == marked_nodes(keep@, u as int),
            decreases n - u,
        {
            if keep[u] {
                payloads.push(u);
            }
            u += 1;
        }
        proof {
            lemma_marked_nodes(keep@, n as int);
            assert(self.ends().take(0) =~= Seq::<(usize, usize)>::empty());
        }
        let m = links_edge_count(&self.links);
        let mut edge_payloads: Vec<usize> = Vec::new();
        let mut e: usize = 0;
        while e < m
            invariant
                e <= m,
                m == self.ends().len(),
                n == keep@.len(),
                n == self.order().len(),
                links_wf(self.ends(), self.order()),
                link_ends(self.links) == self.ends(),
                edge_payloads@ == kept_edge_ids(self.ends().take(e as int), keep@),
                edge_payloads@.len() == kept_edges(self.ends().take(e as int), keep@).len(),
            decreases m - e,
        {
            let ends = links_edge_endpoints(&self.links, e);
            proof {
                assert(self.ends().take(e + 1).drop_last() =~= self.ends().take(e as int));
                assert(self.ends().take(e + 1).last() == self.ends()[e as int]);
            }
            if keep[ends.0] && keep[ends.1] {
                edge_payloads.push(e);
            }
            e += 1;
        }
        proof {
            assert(self.ends().take(m as int) =~= self.ends());
        }
        LinkGraph { links, payloads, edge_payloads }
    }

    /// The strongly connected components, computed by Tarjan's algorithm: a
    /// sink component first, and the nodes of a component in the order in which
    /// the algorithm leaves them.
    pub fn tarjan_components(&self) -> (comps: Vec<Vec<usize>>)
        requires
            self.wf(),
        ensures
            comps.deep_view() == tarjan_order(self.succ()),
            is_scc_decomposition(self.succ(), comps.deep_view()),
    {
        links_tarjan(&self.links)
    }

    /// The strongly connected components, computed by Kosaraju's algorithm: a
    /// sink component first. The order of the nodes inside a component is not
    /// determined by the successor lists alone.
    pub fn kosaraju_components(&self) -> (comps: Vec<Vec<usize>>)
        requires
            self.wf(),
        ensures
            is_scc_decomposition(self.succ(), comps.deep_view()),
    {
        links_kosaraju(&self.links)
    }

    /// A topological order of the nodes, each before its successors, if the
    /// graph has no cycle; otherwise a node that lies on a cycle.
    pub fn topological_order(&self) -> (sorted: Result<Vec<usize>, usize>)
        requires
            self.wf(),
        ensures
            sorted is Ok <==> acyclic(self.succ()),
            sorted matches Ok(order) ==> order@ == toposort_order(self.succ())
                && is_topological_order(self.succ(), order@),
            sorted matches Err(node) ==> on_cycle(self.succ(), node),
    {
        let sorted = links_toposort(&self.links);
        proof {
            if let Err(node) = sorted {
                assert(!acyclic(self.succ()));
            }
        }
        sorted
    }

    /// The payload of node `u`.
    pub fn payload(&self, u: usize) -> (p: &N)
        requires
            self.wf(),
            u < self.succ().len(),
        ensures
            *p == self.payloads()[u as int],
    {
        proof {
            assert(self.succ().len() == self.order().len());
        }
        &self.payloads[u]
    }
}

} // verus!
