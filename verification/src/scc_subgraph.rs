//! Serialization component by component: the strongly connected components are
//! taken in their order, a sink component first, and each is serialized on its
//! own, as the subgraph that its nodes induce.

use crate::adjacency::{
    acyclic, has_edge, holds_node, is_node_permutation, is_scc_decomposition,
    lemma_thinner_refl, strongly_connected, thinner, with_edges,
};
use crate::chain::{lemma_distinct_bounded, member_table};
use crate::components::{lemma_covering, lemma_deep_rows};
use crate::eliminate::{eliminated, CycleEliminator, OutGoingCycleEliminator};
use crate::link_model::{kept_edges, marked_below};
use crate::graph::{clones_in_order, lemma_marked_nodes, marked_nodes, LinkGraph};
use crate::serialize::{
    payloads_of, serial_order, serial_order_of, GraphSerializer, SerializeError,
};
use vstd::prelude::*;

verus! {

/// In `order`, an edge between two nodes that do not reach each other leads
/// backwards: what a component links to comes before the component.
pub open spec fn components_in_order(succ: Seq<Seq<usize>>, order: Seq<usize>) -> bool {
    forall|i: int, j: int|
        0 <= i < order.len() && 0 <= j < order.len() && has_edge(
            succ,
            #[trigger] order[i],
            #[trigger] order[j],
        ) && !strongly_connected(succ, order[i], order[j]) ==> i > j
}

/// The first `len` places of `order` are taken by the nodes of the first `c`
/// components, component after component, each node once.
pub open spec fn blocks_placed(
    rows: Seq<Seq<usize>>,
    c: int,
    order: Seq<usize>,
    block: Seq<int>,
) -> bool {
    &&& order.len() == block.len()
    &&& order.no_duplicates()
    &&& forall|i: int|
        0 <= i < order.len() ==> 0 <= #[trigger] block[i] < c && rows[block[i]].contains(order[i])
    &&& forall|i: int, j: int| 0 <= i < j < order.len() ==> #[trigger] block[i] <= #[trigger] block[j]
    &&& forall|ci: int, a: int|
        0 <= ci < c && 0 <= a < rows[ci].len() ==> order.contains(#[trigger] rows[ci][a])
}

/// With the nodes of component `c` put behind those of the components before
/// it, the first `c + 1` components are placed.
pub proof fn lemma_block_added(
    succ: Seq<Seq<usize>>,
    rows: Seq<Seq<usize>>,
    c: int,
    before: Seq<usize>,
    block: Seq<int>,
    keep: Seq<bool>,
    inner: Seq<usize>,
    after: Seq<usize>,
)
    requires
        is_scc_decomposition(succ, rows),
        succ.len() <= usize::MAX,
        0 <= c < rows.len(),
        blocks_placed(rows, c, before, block),
        keep.len() == succ.len(),
        forall|v: usize| v < succ.len() ==> keep[v as int] == rows[c].contains(v),
        is_node_permutation(marked_nodes(keep, keep.len() as int).len(), inner),
        after.len() == before.len() + inner.len(),
        forall|i: int| 0 <= i < before.len() ==> after[i] == before[i],
        forall|y: int|
            0 <= y < inner.len() ==> after[before.len() + y] == marked_nodes(
                keep,
                keep.len() as int,
            )[inner[y] as int],
    ensures
        blocks_placed(rows, c + 1, after, block.add(Seq::new(inner.len(), |y: int| c))),
{
    let marked = marked_nodes(keep, keep.len() as int);
    let grown = block.add(Seq::new(inner.len(), |y: int| c));
    let len0 = before.len() as int;
    lemma_marked_nodes(keep, keep.len() as int);
    assert forall|i: int| 0 <= i < after.len() implies 0 <= #[trigger] grown[i] < c + 1
        && rows[grown[i]].contains(after[i]) by {
        if i < len0 {
            assert(grown[i] == block[i]);
        } else {
            let y = i - len0;
            assert(after[len0 + y] == marked[inner[y] as int]);
            assert(inner[y] < marked.len());
            assert(keep[marked[inner[y] as int] as int]);
        }
    }
    assert forall|i: int, j: int| 0 <= i < j < after.len() implies #[trigger] grown[i]
        <= #[trigger] grown[j] by {
        if j < len0 {
            assert(grown[i] == block[i] && grown[j] == block[j]);
        } else if i < len0 {
            assert(grown[i] == block[i]);
        }
    }
    assert forall|i: int, j: int| 0 <= i < after.len() && 0 <= j < after.len() && i != j implies after[i]
        != after[j] by {
        if i < len0 && j < len0 {
        } else if i >= len0 && j >= len0 {
            let y = i - len0;
            let z = j - len0;
            assert(after[len0 + y] == marked[inner[y] as int]);
            assert(after[len0 + z] == marked[inner[z] as int]);
            assert(inner[y] != inner[z]);
            assert(inner[y] < marked.len() && inner[z] < marked.len());
            if inner[y] < inner[z] {
                assert(marked[inner[y] as int] < marked[inner[z] as int]);
            } else {
                assert(marked[inner[z] as int] < marked[inner[y] as int]);
            }
        } else {
            let (lo, hi) = if i < j {
                (i, j)
            } else {
                (j, i)
            };
            assert(grown[lo] == block[lo]);
            assert(rows[block[lo]].contains(before[lo]));
            assert(rows[grown[hi]].contains(after[hi]));
            let a = choose|a: int| 0 <= a < rows[block[lo]].len() && rows[block[lo]][a] == before[lo];
            let b = choose|b: int| 0 <= b < rows[c].len() && rows[c][b] == after[hi];
            if after[lo] == after[hi] {
                assert(rows[block[lo]][a] == rows[c][b]);
            }
        }
    }
    assert forall|ci: int, a: int| 0 <= ci < c + 1 && 0 <= a < rows[ci].len() implies after.contains(
        #[trigger] rows[ci][a],
    ) by {
        let v = rows[ci][a];
        if ci < c {
            assert(before.contains(v));
            let i = choose|i: int| 0 <= i < before.len() && before[i] == v;
            assert(after[i] == v);
        } else {
            assert(rows[c].contains(v));
            assert(v < succ.len());
            assert(keep[v as int]);
            assert(marked.contains(v));
            let t = choose|t: int| 0 <= t < marked.len() && marked[t] == v;
            crate::link_model::lemma_marked_bound(keep, keep.len() as int);
            assert(t as usize as int == t);
            assert(inner.contains(t as usize));
            let y = choose|y: int| 0 <= y < inner.len() && inner[y] == t as usize;
            assert(after[len0 + y] == marked[inner[y] as int]);
            assert(after[len0 + y] == v);
        }
    }
}

/// Once every component is placed, the order holds every node once, and what
/// a component links to comes before it.
pub proof fn lemma_blocks_complete(
    succ: Seq<Seq<usize>>,
    rows: Seq<Seq<usize>>,
    order: Seq<usize>,
    block: Seq<int>,
)
    requires
        is_scc_decomposition(succ, rows),
        succ.len() <= usize::MAX,
        blocks_placed(rows, rows.len() as int, order, block),
    ensures
        is_node_permutation(succ.len(), order),
        components_in_order(succ, order),
{
    assert forall|i: int| 0 <= i < order.len() implies (#[trigger] order[i]) < succ.len() by {
        assert(rows[block[i]].contains(order[i]));
        let a = choose|a: int| 0 <= a < rows[block[i]].len() && rows[block[i]][a] == order[i];
        assert(rows[block[i]][a] < succ.len());
    }
    lemma_distinct_bounded(order, succ.len());
    assert forall|v: usize| v < succ.len() implies order.contains(v) by {
        assert(holds_node(rows, v));
        let (ci, a) = choose|ci: int, a: int|
            0 <= ci < rows.len() && 0 <= a < rows[ci].len() && #[trigger] rows[ci][a] == v;
        assert(order.contains(rows[ci][a]));
    }
    lemma_covering(order, succ.len());
    assert forall|i: int, j: int|
        0 <= i < order.len() && 0 <= j < order.len() && has_edge(
            succ,
            #[trigger] order[i],
            #[trigger] order[j],
        ) && !strongly_connected(succ, order[i], order[j]) implies i > j by {
        let a = choose|a: int| 0 <= a < rows[block[i]].len() && rows[block[i]][a] == order[i];
        let b = choose|b: int| 0 <= b < rows[block[j]].len() && rows[block[j]][b] == order[j];
        assert(rows[block[i]].contains(order[i]));
        assert(rows[block[j]].contains(order[j]));
        assert(block[i] == block[j] <==> strongly_connected(
            succ,
            rows[block[i]][a],
            rows[block[j]][b],
        ));
        if block[i] < block[j] {
            assert(!has_edge(succ, rows[block[i]][a], rows[block[j]][b]));
        }
        if i < j {
            assert(block[i] <= block[j]);
        }
    }
}

/// The successor lists of the subgraph on the nodes that `keep` marks, as
/// `induced_subgraph` builds it.
pub open spec fn induced_succ(ends: Seq<(usize, usize)>, keep: Seq<bool>) -> Seq<Seq<usize>> {
    with_edges(marked_below(keep, keep.len() as int), kept_edges(ends, keep))
}

/// The marks of the nodes `0..n` that are among `members`.
pub open spec fn marks_of(n: nat, members: Seq<usize>) -> Seq<bool> {
    Seq::new(n, |v: int| members.contains(v as usize))
}

/// The nodes that `keep` marks, in the order in which `left`, what is left of
/// the subgraph on them, is serialized.
pub open spec fn block_of(keep: Seq<bool>, left: Seq<Seq<usize>>) -> Seq<usize> {
    Seq::new(
        serial_order_of(left).len(),
        |y: int| marked_nodes(keep, keep.len() as int)[serial_order_of(left)[y] as int],
    )
}

/// The blocks of the first `upto` components, one after the other; `lefts`
/// holds what is left of the subgraph of each component.
pub open spec fn blocks_joined(
    n: nat,
    comps: Seq<Seq<usize>>,
    lefts: Seq<Seq<Seq<usize>>>,
    upto: int,
) -> Seq<usize>
    decreases upto,
{
    if upto <= 0 {
        Seq::empty()
    } else {
        blocks_joined(n, comps, lefts, upto - 1).add(
            block_of(marks_of(n, comps[upto - 1]), lefts[upto - 1]),
        )
    }
}

/// `order` is made of the blocks of the components `comps`, and `lefts` holds
/// for each component what is left of its subgraph: edges of the subgraph that
/// form no cycle.
pub open spec fn is_blockwise(
    ends: Seq<(usize, usize)>,
    n: nat,
    comps: Seq<Seq<usize>>,
    lefts: Seq<Seq<Seq<usize>>>,
    order: Seq<usize>,
) -> bool {
    &&& lefts.len() == comps.len()
    &&& forall|c: int|
        0 <= c < comps.len() ==> thinner(
            #[trigger] lefts[c],
            induced_succ(ends, marks_of(n, comps[c])),
        ) && acyclic(lefts[c])
    &&& order == blocks_joined(n, comps, lefts, comps.len() as int)
}

/// The order in which `graph` is serialized component by component. The
/// components are taken a sink component first; each is copied out as the
/// subgraph that its nodes induce, `cycle_eliminator` removes edges of the
/// copy, and the nodes of the copy follow in the reverse of its topological
/// order. Where the eliminator leaves a cycle in a copy, the call fails and
/// names a node of that component.
pub fn component_order<N, E, C: CycleEliminator<usize, usize> + ?Sized>(
    graph: &LinkGraph<N, E>,
    cycle_eliminator: &C,
) -> (out: Result<Vec<usize>, SerializeError>)
    requires
        graph.wf(),
    ensures
        cycle_eliminator.leaves_no_cycle() ==> out is Ok,
        out matches Ok(order) ==> {
            &&& is_node_permutation(graph.succ().len(), order@)
            &&& components_in_order(graph.succ(), order@)
            &&& exists|comps: Seq<Seq<usize>>, lefts: Seq<Seq<Seq<usize>>>|
                {
                    &&& is_scc_decomposition(graph.succ(), comps)
                    &&& #[trigger] is_blockwise(
                        graph.ends(),
                        graph.succ().len(),
                        comps,
                        lefts,
                        order@,
                    )
                    &&& cycle_eliminator.is_determined() ==> forall|c: int|
                        0 <= c < comps.len() ==> #[trigger] lefts[c] == cycle_eliminator.leaves(
                            induced_succ(graph.ends(), marks_of(graph.succ().len(), comps[c])),
                        )
                }
        },
        out matches Err(SerializeError::CycleRemaining { node }) ==> node < graph.succ().len(),
{
    let ghost succ = graph.succ();
    let n = graph.node_count();
    let comps = graph.kosaraju_components();
    let ghost rows = comps.deep_view();
    proof {
        lemma_deep_rows(comps);
    }
    let mut order: Vec<usize> = Vec::new();
    let ghost mut block: Seq<int> = Seq::empty();
    let ghost mut lefts: Seq<Seq<Seq<usize>>> = Seq::empty();
    let mut c: usize = 0;
    while c < comps.len()
        invariant
            graph.wf(),
            succ == graph.succ(),
            n == succ.len(),
            c <= comps@.len(),
            rows == comps.deep_view(),
            rows.len() == comps@.len(),
            forall|j: int| 0 <= j < comps@.len() ==> #[trigger] rows[j] == comps@[j]@,
            is_scc_decomposition(succ, rows),
            blocks_placed(rows, c as int, order@, block),
            lefts.len() == c,
            forall|j: int|
                0 <= j < c ==> thinner(
                    #[trigger] lefts[j],
                    induced_succ(graph.ends(), marks_of(n as nat, rows[j])),
                ) && acyclic(lefts[j]),
            cycle_eliminator.is_determined() ==> forall|j: int|
                0 <= j < c ==> #[trigger] lefts[j] == cycle_eliminator.leaves(
                    induced_succ(graph.ends(), marks_of(n as nat, rows[j])),
                ),
            order@ == blocks_joined(n as nat, rows, lefts, c as int),
        decreases comps@.len() - c,
    {
        let comp = &comps[c];
        proof {
            assert forall|a: int| 0 <= a < comp@.len() implies (#[trigger] comp@[a]) < n by {
                assert(rows[c as int][a] < succ.len());
            }
        }
        let keep = member_table(n, comp);
        proof {
            assert(keep@ =~= marks_of(n as nat, rows[c as int]));
        }
        let mut sub = graph.induced_subgraph(&keep);
        let ghost marked = marked_nodes(keep@, n as int);
        cycle_eliminator.eliminate_cycles(&mut sub);
        match serial_order(&sub) {
            Err(SerializeError::CycleRemaining { node }) => {
                proof {
                    lemma_marked_nodes(keep@, n as int);
                    let w = choose|w: usize| has_edge(sub.succ(), node, w);
                    assert(node < sub.succ().len());
                }
                return Err(SerializeError::CycleRemaining { node: *sub.payload(node) });
            },
            Ok(inner) => {
                let ghost before = order@;
                let ghost left = sub.succ();
                let mut x: usize = 0;
                while x < inner.len()
                    invariant
                        sub.wf(),
                        sub.payloads() == marked,
                        is_node_permutation(marked.len(), inner@),
                        sub.succ().len() == marked.len(),
                        x <= inner@.len(),
                        order@.len() == before.len() + x,
                        forall|i: int| 0 <= i < before.len() ==> order@[i] == before[i],
                        forall|y: int|
                            0 <= y < x ==> order@[before.len() + y] == marked[inner@[y] as int],
                    decreases inner@.len() - x,
                {
                    let id = *sub.payload(inner[x]);
                    order.push(id);
                    x += 1;
                }
                proof {
                    lemma_block_added(succ, rows, c as int, before, block, keep@, inner@, order@);
                    block = block.add(Seq::new(inner@.len(), |y: int| c as int));
                    let old_lefts = lefts;
                    lefts = lefts.push(left);
                    assert(order@ =~= before.add(block_of(keep@, left)));
                    assert forall|j: int| 0 <= j < c implies lefts[j] == old_lefts[j] by {}
                    lemma_blocks_joined_same(n as nat, rows, old_lefts, lefts, c as int);
                }
            },
        }
        c += 1;
    }
    proof {
        lemma_blocks_complete(succ, rows, order@, block);
        assert(is_blockwise(graph.ends(), succ.len(), rows, lefts, order@));
    }
    Ok(order)
}

/// The blocks of the first components do not depend on what is left of the
/// later ones.
pub proof fn lemma_blocks_joined_same(
    n: nat,
    comps: Seq<Seq<usize>>,
    one: Seq<Seq<Seq<usize>>>,
    other: Seq<Seq<Seq<usize>>>,
    upto: int,
)
    requires
        forall|j: int| 0 <= j < upto ==> one[j] == other[j],
    ensures
        blocks_joined(n, comps, one, upto) == blocks_joined(n, comps, other, upto),
    decreases upto,
{
    if upto > 0 {
        lemma_blocks_joined_same(n, comps, one, other, upto - 1);
    }
}

/// Serializes `graph` component by component: the payloads come out in the
/// order that `component_order` gives. `graph` itself keeps all its edges.
pub fn serialize2<N: Clone, E>(
    graph: &mut LinkGraph<N, E>,
    cycle_eliminator: &dyn CycleEliminator<usize, usize>,
) -> (out: Result<Vec<N>, SerializeError>)
    requires
        old(graph).wf(),
    ensures
        final(graph).wf(),
        final(graph).succ() == old(graph).succ(),
        final(graph).ends() == old(graph).ends(),
        final(graph).payloads() == old(graph).payloads(),
        final(graph).edge_payloads() == old(graph).edge_payloads(),
        cycle_eliminator.leaves_no_cycle() ==> out is Ok,
        out matches Ok(items) ==> exists|order: Seq<usize>|
            is_component_order(old(graph).succ(), old(graph).ends(), order)
                && #[trigger] clones_in_order(old(graph).payloads(), order, items@),
        out matches Err(SerializeError::CycleRemaining { node }) ==> node < old(
            graph,
        ).succ().len(),
{
    let ghost succ = graph.succ();
    let ghost ends = graph.ends();
    let ghost pay0 = graph.payloads();
    let order = match component_order(graph, cycle_eliminator) {
        Err(e) => {
            return Err(e);
        },
        Ok(order) => order,
    };
    let out = Ok(payloads_of(graph, &order));
    proof {
        let items = out->Ok_0;
        assert(is_component_order(succ, ends, order@) && clones_in_order(pay0, order@, items@));
    }
    out
}

/// `order` holds every node once, component after component, what a
/// component links to before the component, and the nodes of each component in
/// the reverse of a topological order of edges of the component that form no
/// cycle.
pub open spec fn is_component_order(
    succ: Seq<Seq<usize>>,
    ends: Seq<(usize, usize)>,
    order: Seq<usize>,
) -> bool {
    &&& is_node_permutation(succ.len(), order)
    &&& components_in_order(succ, order)
    &&& exists|comps: Seq<Seq<usize>>, lefts: Seq<Seq<Seq<usize>>>|
        is_scc_decomposition(succ, comps) && #[trigger] is_blockwise(
            ends,
            succ.len(),
            comps,
            lefts,
            order,
        )
}

/// The serializer that works component by component and cuts, in every cycle
/// of a component, the edge into the hub.
#[derive(Debug)]
pub struct SccSubgraphSerializer;

impl SccSubgraphSerializer {
    /// The order in which the nodes of `graph` are serialized: that of
    /// `component_order` with the eliminator that cuts the edge into the hub of
    /// each cycle, without a limit.
    pub fn order<N, E>(&self, graph: &LinkGraph<N, E>) -> (order: Vec<usize>)
        requires
            graph.wf(),
        ensures
            is_node_permutation(graph.succ().len(), order@),
            components_in_order(graph.succ(), order@),
            exists|comps: Seq<Seq<usize>>, lefts: Seq<Seq<Seq<usize>>>|
                {
                    &&& is_scc_decomposition(graph.succ(), comps)
                    &&& #[trigger] is_blockwise(
                        graph.ends(),
                        graph.succ().len(),
                        comps,
                        lefts,
                        order@,
                    )
                    &&& forall|c: int|
                        0 <= c < comps.len() ==> #[trigger] lefts[c] == eliminated(
                            induced_succ(graph.ends(), marks_of(graph.succ().len(), comps[c])),
                            None,
                        )
                },
    {
        let eliminator = OutGoingCycleEliminator::default();
        let found = component_order(graph, &eliminator);
        found.unwrap()
    }
}

impl<N: Clone, E> GraphSerializer<N, E> for SccSubgraphSerializer {
    /// Serializes `graph` component by component, in the order that `order`
    /// gives. The call succeeds on every graph, and `graph` keeps all its
    /// edges.
    fn serialize(&self, graph: &mut LinkGraph<N, E>) -> (out: Result<Vec<N>, SerializeError>)
        ensures
            out is Ok,
            final(graph).succ() == old(graph).succ(),
            final(graph).edge_payloads() == old(graph).edge_payloads(),
            out matches Ok(items) ==> exists|order: Seq<usize>|
                is_component_order(old(graph).succ(), old(graph).ends(), order)
                    && #[trigger] clones_in_order(old(graph).payloads(), order, items@),
    {
        let ghost succ = graph.succ();
        let ghost ends = graph.ends();
        let ghost pay0 = graph.payloads();
        proof {
            lemma_thinner_refl(graph.succ());
        }
        let order = self.order(graph);
        let out = Ok(payloads_of(graph, &order));
        proof {
            let items = out->Ok_0;
            assert(is_component_order(succ, ends, order@) && clones_in_order(pay0, order@, items@));
            assert(is_node_permutation(succ.len(), order@));
        }
        out
    }
}

} // verus!
