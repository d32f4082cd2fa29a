//! Serialization: the cycles of a graph are eliminated, the nodes of what is
//! left are sorted topologically, and the payloads are handed out with every
//! node after the nodes it links to.

use crate::adjacency::{
    acyclic, has_edge, is_node_permutation, is_reverse_topological_order, is_topological_order,
    on_cycle, thinner,
};
use crate::eliminate::{eliminate_cycles, eliminated, CycleEliminator};
use crate::graph::{clones_in_order, LinkGraph};
use crate::links::toposort_order;
use vstd::pervasive::cloned;
use vstd::prelude::*;

verus! {

/// Why a graph could not be serialized.
#[derive(Debug, Clone, Copy, PartialEq, Eq)]
pub enum SerializeError {
    /// The graph still had a cycle after elimination, which happens only where
    /// a limit cut the elimination short; `node` lies on such a cycle.
    CycleRemaining { node: usize },
}

/// The order in which an acyclic graph is serialized: the reverse of the
/// topological order of its nodes.
pub open spec fn serial_order_of(succ: Seq<Seq<usize>>) -> Seq<usize> {
    toposort_order(succ).reverse()
}

/// A topological order read backwards has every node after its successors.
pub proof fn lemma_reverse_order(succ: Seq<Seq<usize>>, order: Seq<usize>)
    requires
        is_topological_order(succ, order),
    ensures
        is_reverse_topological_order(succ, order.reverse()),
{
    let back = order.reverse();
    let n = order.len() as int;
    assert forall|i: int, j: int| 0 <= i < n && 0 <= j < n && i != j implies back[i] != back[j] by {
        assert(back[i] == order[n - 1 - i] && back[j] == order[n - 1 - j]);
    }
    assert forall|v: usize| v < succ.len() implies back.contains(v) by {
        assert(order.contains(v));
        let k = choose|k: int| 0 <= k < n && order[k] == v;
        assert(back[n - 1 - k] == v);
    }
    assert forall|i: int, j: int|
        0 <= i < n && 0 <= j < n && has_edge(succ, #[trigger] back[i], #[trigger] back[j]) implies i
        > j by {
        assert(back[i] == order[n - 1 - i] && back[j] == order[n - 1 - j]);
    }
    assert forall|i: int| 0 <= i < n implies (#[trigger] back[i]) < succ.len() by {
        assert(back[i] == order[n - 1 - i]);
    }
}

/// The nodes of `graph` with every node after its successors, if the graph has
/// no cycle; otherwise the error names a node on a cycle.
pub fn serial_order<N, E>(graph: &LinkGraph<N, E>) -> (out: Result<Vec<usize>, SerializeError>)
    requires
        graph.wf(),
    ensures
        out is Ok <==> acyclic(graph.succ()),
        out matches Ok(order) ==> order@ == serial_order_of(graph.succ())
            && is_reverse_topological_order(graph.succ(), order@),
        out matches Err(SerializeError::CycleRemaining { node }) ==> on_cycle(graph.succ(), node),
{
    match graph.topological_order() {
        Err(node) => Err(SerializeError::CycleRemaining { node }),
        Ok(order) => {
            let n = order.len();
            let mut back: Vec<usize> = Vec::new();
            let mut i: usize = n;
            while i > 0
                invariant
                    n == order@.len(),
                    0 <= i <= n,
                    back@.len() == n - i,
                    forall|k: int| 0 <= k < back@.len() ==> back@[k] == order@[n - 1 - k],
                decreases i,
            {
                i -= 1;
                back.push(order[i]);
            }
            proof {
                assert(back@ =~= order@.reverse());
                lemma_reverse_order(graph.succ(), order@);
            }
            Ok(back)
        },
    }
}

/// Clones of the payloads of the nodes `order`, in that order.
pub fn payloads_of<N: Clone, E>(graph: &LinkGraph<N, E>, order: &Vec<usize>) -> (out: Vec<N>)
    requires
        graph.wf(),
        forall|i: int| 0 <= i < order@.len() ==> (#[trigger] order@[i]) < graph.succ().len(),
    ensures
        clones_in_order(graph.payloads(), order@, out@),
{
    let mut out: Vec<N> = Vec::new();
    let mut i: usize = 0;
    while i < order.len()
        invariant
            graph.wf(),
            i <= order@.len(),
            forall|k: int| 0 <= k < order@.len() ==> (#[trigger] order@[k]) < graph.succ().len(),
            out@.len() == i,
            forall|k: int|
                0 <= k < i ==> cloned(graph.payloads()[order@[k] as int], #[trigger] out@[k]),
        decreases order@.len() - i,
    {
        let item = graph.payload(order[i]).clone();
        out.push(item);
        i += 1;
    }
    out
}

/// Serializes `graph`: `cycle_eliminator` removes edges, and the payloads come
/// out in the reverse of the topological order of what is left, every node
/// after the nodes it has an edge to. Where a cycle is left the call fails and
/// names a node on it; the edges that the eliminator removed stay removed.
pub fn serialize<N: Clone, E>(
    graph: &mut LinkGraph<N, E>,
    cycle_eliminator: &dyn CycleEliminator<N, E>,
) -> (out: Result<Vec<N>, SerializeError>)
    requires
        old(graph).wf(),
    ensures
        final(graph).wf(),
        final(graph).payloads() == old(graph).payloads(),
        final(graph).succ().len() == old(graph).succ().len(),
        final(graph).weighted_edges().subset_of(old(graph).weighted_edges()),
        thinner(final(graph).succ(), old(graph).succ()),
        out is Ok <==> acyclic(final(graph).succ()),
        cycle_eliminator.leaves_no_cycle() ==> out is Ok,
        cycle_eliminator.is_determined() ==> final(graph).succ() == cycle_eliminator.leaves(
            old(graph).succ(),
        ),
        out matches Ok(items) ==> is_reverse_topological_order(
            final(graph).succ(),
            serial_order_of(final(graph).succ()),
        ) && clones_in_order(
            final(graph).payloads(),
            serial_order_of(final(graph).succ()),
            items@,
        ),
        out matches Err(SerializeError::CycleRemaining { node }) ==> on_cycle(
            final(graph).succ(),
            node,
        ),
{
    cycle_eliminator.eliminate_cycles(graph);
    match serial_order(graph) {
        Err(e) => Err(e),
        Ok(order) => Ok(payloads_of(graph, &order)),
    }
}

/// What every serializer of this crate does: it may remove edges of the
/// graph, and where it succeeds it hands out a clone of the payload of every
/// node, each node once.
pub trait GraphSerializer<N: Clone, E> {
    /// Serializes `graph`.
    fn serialize(&self, graph: &mut LinkGraph<N, E>) -> (out: Result<Vec<N>, SerializeError>)
        requires
            old(graph).wf(),
        ensures
            final(graph).wf(),
            final(graph).payloads() == old(graph).payloads(),
            final(graph).succ().len() == old(graph).succ().len(),
            final(graph).weighted_edges().subset_of(old(graph).weighted_edges()),
            thinner(final(graph).succ(), old(graph).succ()),
            out matches Ok(items) ==> exists|order: Seq<usize>|
                is_node_permutation(old(graph).succ().len(), order) && #[trigger] clones_in_order(
                    old(graph).payloads(),
                    order,
                    items@,
                ),
    ;
}

/// The serializer that eliminates cycles by cutting the edge into the hub of
/// each, and then sorts topologically.
#[derive(Debug)]
pub struct ToposortSerializer {
    /// The limit on the rounds of the elimination; `None` for no limit.
    pub limit: Option<usize>,
}

impl Default for ToposortSerializer {
    fn default() -> (out: Self)
        ensures
            out.limit is None,
    {
        ToposortSerializer { limit: None }
    }
}

impl<N: Clone, E> GraphSerializer<N, E> for ToposortSerializer {
    /// Eliminates the cycles of `graph` within the limit and hands out the
    /// payloads, every node after the nodes it has an edge to. Without a limit
    /// the call succeeds on every graph.
    fn serialize(&self, graph: &mut LinkGraph<N, E>) -> (out: Result<Vec<N>, SerializeError>)
        ensures
            final(graph).succ() == eliminated(old(graph).succ(), self.limit),
            acyclic(old(graph).succ()) ==> final(graph).succ() == old(graph).succ(),
            out is Ok <==> acyclic(final(graph).succ()),
            self.limit is None ==> out is Ok,
            out matches Ok(items) ==> is_reverse_topological_order(
                final(graph).succ(),
                serial_order_of(final(graph).succ()),
            ) && clones_in_order(
                final(graph).payloads(),
                serial_order_of(final(graph).succ()),
                items@,
            ),
            out matches Err(SerializeError::CycleRemaining { node }) ==> on_cycle(
                final(graph).succ(),
                node,
            ),
    {
        let ghost pay0 = graph.payloads();
        let ghost n0 = graph.succ().len();
        eliminate_cycles(graph, self.limit);
        let out = match serial_order(graph) {
            Err(e) => Err(e),
            Ok(order) => {
                let items = payloads_of(graph, &order);
                proof {
                    assert(is_node_permutation(n0, order@));
                    assert(clones_in_order(pay0, order@, items@));
                }
                Ok(items)
            },
        };
        proof {
            if out is Ok {
                let items = out->Ok_0;
                assert(exists|o: Seq<usize>|
                    is_node_permutation(n0, o) && #[trigger] clones_in_order(pay0, o, items@));
            }
        }
        out
    }
}

} // verus!
