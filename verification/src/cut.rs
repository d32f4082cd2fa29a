//! The choice of the edge that breaks a cycle: the edge of the cycle that leads
//! into its hub, the node with the most outgoing edges in the whole graph.

use crate::adjacency::{
    has_edge, lemma_position, lemma_thinner_remove, lemma_total_after_remove, position, thinner,
    total_entries, without_edge,
};
use crate::chain::{cycle_chain, get_cycle_chain, is_cycle_chain, stays_inside};
use crate::graph::LinkGraph;
use crate::link_model::order_without;
use vstd::prelude::*;

verus! {

/// The place in `chain` of the first node that has the most successors.
pub open spec fn hub_index(succ: Seq<Seq<usize>>, chain: Seq<usize>) -> int
    decreases chain.len(),
{
    if chain.len() <= 1 {
        0
    } else {
        let best = hub_index(succ, chain.drop_last());
        if succ[chain.last() as int].len() > succ[chain[best] as int].len() {
            chain.len() - 1
        } else {
            best
        }
    }
}

/// The place before `h` on a cycle of `k` nodes.
pub open spec fn place_before(h: int, k: int) -> int {
    (h + k - 1) % k
}

/// The edge of the cycle `chain` that is cut: from the node before the hub to
/// the hub.
pub open spec fn cut_edge(succ: Seq<Seq<usize>>, chain: Seq<usize>) -> (usize, usize) {
    let h = hub_index(succ, chain);
    (chain[place_before(h, chain.len() as int)], chain[h])
}

/// The node that loses an edge when the cycle chain of `members` is broken.
pub open spec fn cut_source(succ: Seq<Seq<usize>>, members: Seq<usize>) -> usize {
    cut_edge(succ, cycle_chain(succ, members)).0
}

/// The id of the edge that is removed when the cycle chain of `members` is
/// broken: the first edge from the node before the hub to the hub.
pub open spec fn cut_id<N, E>(graph: LinkGraph<N, E>, members: Seq<usize>) -> usize {
    let cut = cut_edge(graph.succ(), cycle_chain(graph.succ(), members));
    graph.order()[cut.0 as int][position(graph.succ()[cut.0 as int], cut.1)]
}

/// The graph after the cycle chain of `members` has been broken.
pub open spec fn unlinked(succ: Seq<Seq<usize>>, members: Seq<usize>) -> Seq<Seq<usize>> {
    let cut = cut_edge(succ, cycle_chain(succ, members));
    without_edge(succ, cut.0, cut.1)
}

/// `hub_index` names a node of the chain that has at least as many successors
/// as every other, and more than every node before it.
pub proof fn lemma_hub_index(succ: Seq<Seq<usize>>, chain: Seq<usize>)
    requires
        chain.len() > 0,
    ensures
        0 <= hub_index(succ, chain) < chain.len(),
        forall|i: int|
            0 <= i < chain.len() ==> succ[#[trigger] chain[i] as int].len() <= succ[chain[hub_index(
                succ,
                chain,
            )] as int].len(),
        forall|i: int|
            0 <= i < hub_index(succ, chain) ==> succ[#[trigger] chain[i] as int].len()
                < succ[chain[hub_index(succ, chain)] as int].len(),
    decreases chain.len(),
{
    if chain.len() > 1 {
        let front = chain.drop_last();
        lemma_hub_index(succ, front);
        let best = hub_index(succ, front);
        assert(front[best] == chain[best]);
        let h = hub_index(succ, chain);
        assert forall|i: int| 0 <= i < chain.len() implies succ[#[trigger] chain[i] as int].len()
            <= succ[chain[h] as int].len() by {
            if i < front.len() {
                assert(front[i] == chain[i]);
            }
        }
        assert forall|i: int| 0 <= i < h implies succ[#[trigger] chain[i] as int].len()
            < succ[chain[h] as int].len() by {
            assert(front[i] == chain[i]);
        }
    }
}

/// The place before the first is the last; before any other, the one below.
pub proof fn lemma_place_before(h: int, k: int)
    requires
        0 <= h < k,
    ensures
        place_before(h, k) == if h == 0 {
            k - 1
        } else {
            h - 1
        },
{
    if h == 0 {
        vstd::arithmetic::div_mod::lemma_small_mod((k - 1) as nat, k as nat);
    } else {
        vstd::arithmetic::div_mod::lemma_mod_add_multiples_vanish(h - 1, k);
        vstd::arithmetic::div_mod::lemma_small_mod((h - 1) as nat, k as nat);
    }
}

/// The edge that is cut is an edge of the graph, and it leaves a node of the
/// chain.
pub proof fn lemma_cut_is_edge(succ: Seq<Seq<usize>>, members: Seq<usize>, chain: Seq<usize>)
    requires
        is_cycle_chain(succ, members, chain),
    ensures
        has_edge(succ, cut_edge(succ, chain).0, cut_edge(succ, chain).1),
        chain.contains(cut_edge(succ, chain).0),
        members.contains(cut_edge(succ, chain).0),
{
    lemma_hub_index(succ, chain);
    let h = hub_index(succ, chain);
    let k = chain.len() as int;
    lemma_place_before(h, k);
    let p = place_before(h, k);
    if h == 0 {
        assert(chain[p] == chain.last());
        assert(chain[h] == chain.first());
    } else {
        assert(has_edge(succ, chain[p], chain[p + 1]));
    }
    assert(chain[p] == cut_edge(succ, chain).0);
}

/// The place in `chain` of its hub.
fn find_hub<N, E>(graph: &LinkGraph<N, E>, chain: &Vec<usize>) -> (best: usize)
    requires
        graph.wf(),
        chain@.len() > 0,
        forall|j: int| 0 <= j < chain@.len() ==> (#[trigger] chain@[j]) < graph.succ().len(),
    ensures
        best == hub_index(graph.succ(), chain@),
        best < chain@.len(),
{
    let ghost succ = graph.succ();
    let k = chain.len();
    let mut best: usize = 0;
    let mut best_degree: usize = graph.out_degree(chain[0]);
    let mut i: usize = 1;
    proof {
        assert(chain@.take(1).len() == 1);
    }
    while i < k
        invariant
            graph.wf(),
            succ == graph.succ(),
            k == chain@.len(),
            1 <= i <= k,
            forall|j: int| 0 <= j < chain@.len() ==> (#[trigger] chain@[j]) < succ.len(),
            best == hub_index(succ, chain@.take(i as int)),
            0 <= best < i,
            best_degree == succ[chain@[best as int] as int].len(),
        decreases k - i,
    {
        let degree = graph.out_degree(chain[i]);
        proof {
            let longer = chain@.take(i + 1);
            assert(longer.drop_last() =~= chain@.take(i as int));
            assert(longer.last() == chain@[i as int]);
            assert(longer[best as int] == chain@[best as int]);
        }
        if degree > best_degree {
            best = i;
            best_degree = degree;
        }
        i += 1;
    }
    proof {
        assert(chain@.take(k as int) =~= chain@);
    }
    best
}

/// The nodes of a cycle chain are nodes of the graph.
pub proof fn lemma_chain_nodes(succ: Seq<Seq<usize>>, members: Seq<usize>, chain: Seq<usize>)
    requires
        is_cycle_chain(succ, members, chain),
    ensures
        forall|i: int| 0 <= i < chain.len() ==> (#[trigger] chain[i]) < succ.len(),
{
    assert forall|i: int| 0 <= i < chain.len() implies (#[trigger] chain[i]) < succ.len() by {
        if i < chain.len() - 1 {
            assert(has_edge(succ, chain[i], chain[i + 1]));
        } else {
            assert(has_edge(succ, chain.last(), chain.first()));
        }
    }
}

/// Breaks the cycle chain of `cycle_node_set`: of the nodes of the chain the
/// first with the most outgoing edges is the hub, and the edge of the chain
/// that leads into the hub is removed. Nothing else changes.
pub fn unlink_cycle<N, E>(graph: &mut LinkGraph<N, E>, cycle_node_set: &Vec<usize>)
    requires
        old(graph).wf(),
        cycle_node_set@.len() > 0,
        stays_inside(old(graph).succ(), cycle_node_set@),
    ensures
        final(graph).wf(),
        final(graph).succ() == unlinked(old(graph).succ(), cycle_node_set@),
        final(graph).payloads() == old(graph).payloads(),
        final(graph).ends().len() == old(graph).ends().len() - 1,
        cut_id(*old(graph), cycle_node_set@) < old(graph).ends().len(),
        final(graph).ends() == old(graph).ends().update(
            cut_id(*old(graph), cycle_node_set@) as int,
            old(graph).ends().last(),
        ).drop_last(),
        final(graph).order() == order_without(
            old(graph).ends(),
            old(graph).order(),
            cut_id(*old(graph), cycle_node_set@),
        ),
        final(graph).edge_payloads() == old(graph).edge_payloads().update(
            cut_id(*old(graph), cycle_node_set@) as int,
            old(graph).edge_payloads().last(),
        ).drop_last(),
        final(graph).weighted_edges().subset_of(old(graph).weighted_edges()),
        thinner(final(graph).succ(), old(graph).succ()),
        total_entries(final(graph).succ()) == total_entries(old(graph).succ()) - 1,
        cycle_node_set@.contains(cut_source(old(graph).succ(), cycle_node_set@)),
        forall|u: int|
            0 <= u < old(graph).succ().len() && u != cut_source(
                old(graph).succ(),
                cycle_node_set@,
            ) ==> final(graph).succ()[u] == old(graph).succ()[u],
{
    let ghost succ = graph.succ();
    let chain = get_cycle_chain(graph, cycle_node_set);
    proof {
        lemma_chain_nodes(succ, cycle_node_set@, chain@);
    }
    let best = find_hub(graph, &chain);
    let k = chain.len();
    proof {
        lemma_place_before(best as int, k as int);
        lemma_cut_is_edge(succ, cycle_node_set@, chain@);
    }
    let before = if best == 0 {
        k - 1
    } else {
        best - 1
    };
    let parent = chain[before];
    let hub = chain[best];
    assert(parent == cut_edge(succ, chain@).0 && hub == cut_edge(succ, chain@).1);
    let found = graph.find_edge(parent, hub);
    let e = found.unwrap();
    proof {
        let at = position(succ[parent as int], hub);
        lemma_position(succ[parent as int], hub);
        let row = graph.order()[parent as int];
        assert(row.no_duplicates());
        assert(row[at] == e);
        assert(row.index_of(e) == at);
        lemma_thinner_remove(succ, parent as int, at);
        lemma_total_after_remove(succ, parent as int, at);
    }
    graph.remove_edge(e);
}

} // verus!
