//! The cycle eliminator: self-loops are removed first; then, round after round,
//! the strongly connected components are computed and in every component of two
//! or more nodes one cycle is broken, until every component is a single node or
//! the limit on the number of rounds is passed.

use crate::adjacency::{
    acyclic, closed_rows, components_trivial, has_edge, is_scc_decomposition,
    lemma_acyclic_no_self_loops, lemma_strip_absent, lemma_without_self_loops_same,
    lemma_strip_holds, lemma_strip_remove, lemma_thinner_no_self_loops, lemma_thinner_refl,
    lemma_thinner_trans, no_self_loops, position, strip, thinner, total_entries,
    without_self_loops,
};
use crate::chain::{
    cycle_chain, first_member, get_cycle_chain, is_cycle_chain, lemma_first_fresh, stays_inside,
};
use crate::components::{
    lemma_acyclic_components, lemma_component_sizes, lemma_component_stays_inside,
    lemma_deep_rows, lemma_trivial_acyclic,
    lemma_trivial_components,
};
use crate::cut::{cut_source, unlink_cycle, unlinked};
use crate::graph::{lemma_subset_trans, LinkGraph};
use crate::link_model::lemma_wf_closed_rows;
use crate::links::tarjan_order;
use vstd::prelude::*;

verus! {

/// The graph after one round over the components `comps`: in each of two or
/// more nodes, taken in turn, the cycle chain is broken.
pub open spec fn sweep(succ: Seq<Seq<usize>>, comps: Seq<Seq<usize>>) -> Seq<Seq<usize>>
    decreases comps.len(),
{
    if comps.len() == 0 {
        succ
    } else {
        let next = if comps[0].len() >= 2 {
            unlinked(succ, comps[0])
        } else {
            succ
        };
        sweep(next, comps.drop_first())
    }
}

/// The limit is set and `count` is above it.
pub open spec fn limit_passed(limit: Option<usize>, count: nat) -> bool {
    limit matches Some(most) && most < count
}

/// The graph after the rounds that follow `count` finished ones. A round that
/// finds as many components as nodes ends the work; so does one after which the
/// limit is passed. The last test makes the definition well-founded: a round
/// over a decomposition with a component of two or more nodes always removes
/// an edge.
pub open spec fn rounds(succ: Seq<Seq<usize>>, limit: Option<usize>, count: nat) -> Seq<Seq<usize>>
    decreases total_entries(succ),
{
    let comps = tarjan_order(succ);
    if comps.len() == succ.len() {
        succ
    } else {
        let swept = sweep(succ, comps);
        if limit_passed(limit, count + 1) || total_entries(swept) >= total_entries(succ) {
            swept
        } else {
            rounds(swept, limit, count + 1)
        }
    }
}

/// The graph that the eliminator leaves of `succ`.
pub open spec fn eliminated(succ: Seq<Seq<usize>>, limit: Option<usize>) -> Seq<Seq<usize>> {
    rounds(without_self_loops(succ), limit, 0)
}

/// A component of two or more nodes, or a single node with a self-loop.
pub open spec fn is_cyclic_component(succ: Seq<Seq<usize>>, comp: Seq<usize>) -> bool {
    comp.len() > 1 || (comp.len() == 1 && has_edge(succ, comp[0], comp[0]))
}

/// Those of `comps` that hold a cycle, in the order of `comps`.
pub open spec fn cyclic_components(succ: Seq<Seq<usize>>, comps: Seq<Seq<usize>>) -> Seq<Seq<usize>>
    decreases comps.len(),
{
    if comps.len() == 0 {
        comps
    } else {
        let front = cyclic_components(succ, comps.drop_last());
        if is_cyclic_component(succ, comps.last()) {
            front.push(comps.last())
        } else {
            front
        }
    }
}

/// Whether every node of `members` has a successor among them depends on the
/// rows of the members alone.
pub proof fn lemma_stays_inside_rows(
    before: Seq<Seq<usize>>,
    after: Seq<Seq<usize>>,
    members: Seq<usize>,
)
    requires
        before.len() == after.len(),
        stays_inside(before, members),
        forall|a: int|
            0 <= a < members.len() ==> after[#[trigger] members[a] as int]
                == before[members[a] as int],
    ensures
        stays_inside(after, members),
{
    assert forall|a: int| 0 <= a < members.len() implies (#[trigger] members[a]) < after.len()
        && first_member(after[members[a] as int], members) is Some by {
        assert(first_member(before[members[a] as int], members) is Some);
    }
}

/// A node with a self-loop has, alone, a successor inside.
pub proof fn lemma_self_loop_stays_inside(succ: Seq<Seq<usize>>, comp: Seq<usize>)
    requires
        comp.len() == 1,
        has_edge(succ, comp[0], comp[0]),
    ensures
        stays_inside(succ, comp),
{
    let u = comp[0];
    let row = succ[u as int];
    lemma_first_fresh(row, comp, Seq::empty());
    if first_member(row, comp) is None {
        let k = choose|k: int| 0 <= k < row.len() && row[k] == u;
        assert(comp.contains(row[k]));
    }
    assert forall|a: int| 0 <= a < comp.len() implies (#[trigger] comp[a]) < succ.len()
        && first_member(succ[comp[a] as int], comp) is Some by {
        assert(comp[a] == u);
    }
}

/// A copy of `v`.
fn copy_of(v: &Vec<usize>) -> (out: Vec<usize>)
    ensures
        out@ == v@,
{
    let mut out: Vec<usize> = Vec::new();
    let mut i: usize = 0;
    while i < v.len()
        invariant
            i <= v@.len(),
            out@ == v@.take(i as int),
        decreases v@.len() - i,
    {
        out.push(v[i]);
        proof {
            assert(out@ =~= v@.take(i + 1));
        }
        i += 1;
    }
    proof {
        assert(v@.take(v@.len() as int) =~= v@);
    }
    out
}

/// The strongly connected components that hold a cycle: those of two or more
/// nodes, and the single nodes with a self-loop. Each is a set of nodes in which
/// every node has a successor.
pub fn get_cycles<N, E>(graph: &LinkGraph<N, E>) -> (cycles: Vec<Vec<usize>>)
    requires
        graph.wf(),
    ensures
        cycles.deep_view() == cyclic_components(graph.succ(), tarjan_order(graph.succ())),
        forall|i: int|
            0 <= i < cycles@.len() ==> (#[trigger] cycles@[i])@.len() > 0 && stays_inside(
                graph.succ(),
                cycles@[i]@,
            ),
{
    let ghost succ = graph.succ();
    let comps = graph.tarjan_components();
    let ghost rows = comps.deep_view();
    proof {
        lemma_deep_rows(comps);
        lemma_wf_closed_rows(graph.ends(), graph.order());
    }
    let mut cycles: Vec<Vec<usize>> = Vec::new();
    let mut i: usize = 0;
    while i < comps.len()
        invariant
            graph.wf(),
            succ == graph.succ(),
            closed_rows(succ),
            rows == comps.deep_view(),
            rows.len() == comps@.len(),
            forall|j: int| 0 <= j < comps@.len() ==> #[trigger] rows[j] == comps@[j]@,
            is_scc_decomposition(succ, rows),
            i <= comps@.len(),
            cycles.deep_view() == cyclic_components(succ, rows.take(i as int)),
            forall|j: int|
                0 <= j < cycles@.len() ==> (#[trigger] cycles@[j])@.len() > 0 && stays_inside(
                    succ,
                    cycles@[j]@,
                ),
        decreases comps@.len() - i,
    {
        let comp = &comps[i];
        let ghost before = cycles;
        proof {
            assert(rows.take(i + 1).drop_last() =~= rows.take(i as int));
            assert(rows.take(i + 1).last() == rows[i as int]);
            assert(rows[i as int].len() > 0);
            assert(rows[i as int][0] < succ.len());
            lemma_deep_rows(cycles);
        }
        let cyclic = comp.len() > 1 || graph.contains_edge(comp[0], comp[0]);
        if cyclic {
            proof {
                if comp@.len() > 1 {
                    lemma_component_stays_inside(succ, rows, i as int);
                } else {
                    lemma_self_loop_stays_inside(succ, comp@);
                }
            }
            cycles.push(copy_of(comp));
            proof {
                lemma_deep_rows(cycles);
                assert(cycles.deep_view() =~= before.deep_view().push(rows[i as int]));
                assert forall|j: int| 0 <= j < cycles@.len() implies (#[trigger] cycles@[j])@.len()
                    > 0 && stays_inside(succ, cycles@[j]@) by {
                    if j < before@.len() {
                        assert(cycles@[j] == before@[j]);
                    }
                }
            }
        }
        i += 1;
    }
    proof {
        assert(rows.take(comps@.len() as int) =~= rows);
    }
    cycles
}

/// Removes every self-loop. The other edges stay, in their order.
pub fn unlink_selfloops<N, E>(graph: &mut LinkGraph<N, E>)
    requires
        old(graph).wf(),
    ensures
        final(graph).wf(),
        final(graph).succ() == without_self_loops(old(graph).succ()),
        final(graph).payloads() == old(graph).payloads(),
        final(graph).ends().len() <= old(graph).ends().len(),
        final(graph).weighted_edges().subset_of(old(graph).weighted_edges()),
        thinner(final(graph).succ(), old(graph).succ()),
        no_self_loops(final(graph).succ()),
        no_self_loops(old(graph).succ()) ==> final(graph).ends() == old(graph).ends()
            && final(graph).edge_payloads() == old(graph).edge_payloads(),
{
    let ghost succ0 = graph.succ();
    let ghost pay0 = graph.payloads();
    let ghost m0 = graph.ends().len();
    let ghost edges0 = graph.weighted_edges();
    let ghost ends0 = graph.ends();
    let ghost carried0 = graph.edge_payloads();
    let n = graph.node_count();
    let mut u: usize = 0;
    while u < n
        invariant
            graph.wf(),
            u <= n,
            n == succ0.len(),
            graph.succ().len() == n,
            graph.payloads() == pay0,
            graph.ends().len() <= m0,
            graph.weighted_edges().subset_of(edges0),
            no_self_loops(succ0) ==> graph.ends() == ends0 && graph.edge_payloads() == carried0,
            forall|x: int| 0 <= x < u ==> #[trigger] graph.succ()[x] == strip(succ0[x], x as usize),
            forall|x: int| u <= x < n ==> #[trigger] graph.succ()[x] == succ0[x],
        decreases n - u,
    {
        let mut found = graph.find_edge(u, u);
        while found.is_some()
            invariant
                graph.wf(),
                u < n,
                n == succ0.len(),
                graph.succ().len() == n,
                graph.payloads() == pay0,
                graph.ends().len() <= m0,
                graph.weighted_edges().subset_of(edges0),
                no_self_loops(succ0) ==> graph.ends() == ends0 && graph.edge_payloads()
                    == carried0,
                graph.succ()[u as int].to_multiset().subset_of(succ0[u as int].to_multiset()),
                found is Some <==> has_edge(graph.succ(), u, u),
                found matches Some(e) ==> {
                    &&& e < graph.ends().len()
                    &&& graph.ends()[e as int] == (u, u)
                    &&& 0 <= position(graph.succ()[u as int], u) < graph.order()[u as int].len()
                    &&& graph.order()[u as int][position(graph.succ()[u as int], u)] == e
                },
                forall|x: int|
                    0 <= x < u ==> #[trigger] graph.succ()[x] == strip(succ0[x], x as usize),
                forall|x: int| u < x < n ==> #[trigger] graph.succ()[x] == succ0[x],
                strip(graph.succ()[u as int], u) == strip(succ0[u as int], u),
            decreases graph.ends().len(),
        {
            let e = found.unwrap();
            proof {
                let row = graph.order()[u as int];
                let at = position(graph.succ()[u as int], u);
                assert(row.no_duplicates());
                assert(row.index_of(e) == at);
                lemma_strip_remove(graph.succ()[u as int], u);
            }
            let ghost before = graph.weighted_edges();
            let ghost row = graph.succ()[u as int];
            proof {
                broadcast use vstd::seq_lib::to_multiset_contains;

                assert(row.to_multiset().count(u) > 0);
                assert(has_edge(succ0, u, u));
                vstd::seq_lib::to_multiset_remove(row, position(row, u));
            }
            graph.remove_edge(e);
            proof {
                lemma_subset_trans(graph.weighted_edges(), before, edges0);
            }
            found = graph.find_edge(u, u);
        }
        proof {
            lemma_strip_absent(graph.succ()[u as int], u);
        }
        u += 1;
    }
    proof {
        let last = graph.succ();
        let want = without_self_loops(succ0);
        assert forall|x: int| 0 <= x < n implies last[x] == want[x] by {
            assert(graph.succ()[x] == strip(succ0[x], x as usize));
        }
        assert(last =~= want);
        assert forall|x: int| 0 <= x < last.len() implies (#[trigger] last[x]).to_multiset().subset_of(
            succ0[x].to_multiset(),
        ) by {
            lemma_strip_holds(succ0[x], x as usize);
        }
        assert forall|v: usize| !has_edge(last, v, v) by {
            if v < n {
                lemma_strip_holds(succ0[v as int], v);
            }
        }
    }
}

/// One round: in every component of two or more nodes the cycle chain is
/// broken.
pub fn unlink_components<N, E>(graph: &mut LinkGraph<N, E>, comps: &Vec<Vec<usize>>)
    requires
        old(graph).wf(),
        is_scc_decomposition(old(graph).succ(), comps.deep_view()),
    ensures
        final(graph).wf(),
        final(graph).succ() == sweep(old(graph).succ(), comps.deep_view()),
        final(graph).payloads() == old(graph).payloads(),
        thinner(final(graph).succ(), old(graph).succ()),
        final(graph).ends().len() <= old(graph).ends().len(),
        final(graph).weighted_edges().subset_of(old(graph).weighted_edges()),
        total_entries(final(graph).succ()) <= total_entries(old(graph).succ()),
        comps@.len() != old(graph).succ().len() ==> {
            &&& final(graph).ends().len() < old(graph).ends().len()
            &&& total_entries(final(graph).succ()) < total_entries(old(graph).succ())
        },
{
    let ghost succ0 = graph.succ();
    let ghost pay0 = graph.payloads();
    let ghost m0 = graph.ends().len();
    let ghost edges0 = graph.weighted_edges();
    let ghost rows = comps.deep_view();
    proof {
        lemma_deep_rows(*comps);
        lemma_wf_closed_rows(graph.ends(), graph.order());
        lemma_thinner_refl(succ0);
        lemma_component_sizes(succ0, rows);
        assert(rows.skip(0) =~= rows);
    }
    let mut i: usize = 0;
    while i < comps.len()
        invariant
            graph.wf(),
            i <= comps@.len(),
            rows == comps.deep_view(),
            rows.len() == comps@.len(),
            forall|j: int| 0 <= j < comps@.len() ==> #[trigger] rows[j] == comps@[j]@,
            is_scc_decomposition(succ0, rows),
            closed_rows(succ0),
            graph.succ().len() == succ0.len(),
            graph.payloads() == pay0,
            graph.weighted_edges().subset_of(edges0),
            thinner(graph.succ(), succ0),
            sweep(succ0, rows) == sweep(graph.succ(), rows.skip(i as int)),
            forall|j: int, b: int|
                i <= j < rows.len() && 0 <= b < rows[j].len() ==> graph.succ()[#[trigger] rows[j][b] as int]
                    == succ0[rows[j][b] as int],
            graph.ends().len() <= m0,
            total_entries(graph.succ()) <= total_entries(succ0),
            (exists|j: int| 0 <= j < i && (#[trigger] rows[j]).len() >= 2) ==> graph.ends().len()
                < m0 && total_entries(graph.succ()) < total_entries(succ0),
        decreases comps@.len() - i,
    {
        let comp = &comps[i];
        let ghost now = graph.succ();
        proof {
            assert(rows.skip(i as int)[0] == rows[i as int]);
            assert(rows.skip(i as int).drop_first() =~= rows.skip(i + 1));
        }
        if comp.len() >= 2 {
            proof {
                lemma_component_stays_inside(succ0, rows, i as int);
                let members = rows[i as int];
                assert forall|a: int| 0 <= a < members.len() implies now[#[trigger] members[a] as int]
                    == succ0[members[a] as int] by {
                    assert(now[rows[i as int][a] as int] == succ0[rows[i as int][a] as int]);
                }
                lemma_stays_inside_rows(succ0, now, rows[i as int]);
            }
            let ghost before = graph.weighted_edges();
            unlink_cycle(graph, comp);
            proof {
                lemma_subset_trans(graph.weighted_edges(), before, edges0);
                lemma_thinner_trans(graph.succ(), now, succ0);
                let cut = cut_source(now, comp@);
                let a = choose|a: int| 0 <= a < comp@.len() && comp@[a] == cut;
                assert(rows[i as int][a] == cut);
                let cut_rows = graph.succ();
                assert forall|j: int, b: int|
                    i + 1 <= j < rows.len() && 0 <= b < rows[j].len() implies cut_rows[#[trigger] rows[j][b] as int]
                    == succ0[rows[j][b] as int] by {
                    assert(rows[j][b] != rows[i as int][a]);
                    assert(rows[j][b] < succ0.len());
                    assert(now[rows[j][b] as int] == succ0[rows[j][b] as int]);
                }
                assert(rows[i as int].len() >= 2);
            }
        } else {
            proof {
                if exists|j: int| 0 <= j < i + 1 && (#[trigger] rows[j]).len() >= 2 {
                    let j = choose|j: int| 0 <= j < i + 1 && (#[trigger] rows[j]).len() >= 2;
                    assert(j < i);
                }
            }
        }
        i += 1;
    }
    proof {
        assert(rows.skip(comps@.len() as int).len() == 0);
    }
}

/// What a cycle eliminator does to a graph: it removes edges, and nothing
/// else.
pub trait CycleEliminator<N, E> {
    /// Whether this eliminator is set up so that it leaves no cycle in any
    /// graph.
    spec fn leaves_no_cycle(&self) -> bool;

    /// Whether what this eliminator leaves of a graph depends on nothing but
    /// the successor lists of the graph.
    spec fn is_determined(&self) -> bool;

    /// What this eliminator leaves of a graph with the successor lists `succ`,
    /// where that is determined.
    spec fn leaves(&self, succ: Seq<Seq<usize>>) -> Seq<Seq<usize>>;

    /// Removes edges of `graph`. Nodes and payloads stay as they are, no edge
    /// is added, and every edge that stays keeps its payload.
    fn eliminate_cycles(&self, graph: &mut LinkGraph<N, E>)
        requires
            old(graph).wf(),
        ensures
            final(graph).wf(),
            final(graph).payloads() == old(graph).payloads(),
            final(graph).succ().len() == old(graph).succ().len(),
            final(graph).ends().len() <= old(graph).ends().len(),
            final(graph).weighted_edges().subset_of(old(graph).weighted_edges()),
            thinner(final(graph).succ(), old(graph).succ()),
            self.leaves_no_cycle() ==> acyclic(final(graph).succ()),
            self.is_determined() ==> final(graph).succ() == self.leaves(old(graph).succ()),
    ;
}

/// The eliminator that cuts, in every cycle it walks, the edge into the node
/// with the most outgoing edges.
pub struct OutGoingCycleEliminator {
    /// The number of rounds after which the work ends even if cycles are
    /// left; `None` for no limit.
    pub limit: Option<usize>,
}

impl Default for OutGoingCycleEliminator {
    fn default() -> (out: Self)
        ensures
            out.limit is None,
    {
        OutGoingCycleEliminator { limit: None }
    }
}

/// Removes the self-loops of `graph` and breaks cycles round by round, as
/// `eliminated` says, until no cycle is left or `limit` is passed. A graph
/// without a cycle is left as it is.
pub fn eliminate_cycles<N, E>(graph: &mut LinkGraph<N, E>, limit: Option<usize>)
    requires
        old(graph).wf(),
    ensures
        final(graph).wf(),
        final(graph).succ() == eliminated(old(graph).succ(), limit),
        final(graph).payloads() == old(graph).payloads(),
        final(graph).succ().len() == old(graph).succ().len(),
        final(graph).ends().len() <= old(graph).ends().len(),
        final(graph).weighted_edges().subset_of(old(graph).weighted_edges()),
        thinner(final(graph).succ(), old(graph).succ()),
        no_self_loops(final(graph).succ()),
        limit is None ==> components_trivial(final(graph).succ()) && acyclic(final(graph).succ()),
        acyclic(old(graph).succ()) ==> {
            &&& final(graph).succ() == old(graph).succ()
            &&& final(graph).ends() == old(graph).ends()
            &&& final(graph).edge_payloads() == old(graph).edge_payloads()
        },
{
    let ghost succ0 = graph.succ();
    let ghost pay0 = graph.payloads();
    let ghost m0 = graph.ends().len();
    let ghost edges0 = graph.weighted_edges();
    let ghost ends0 = graph.ends();
    let ghost carried0 = graph.edge_payloads();
    proof {
        if acyclic(succ0) {
            lemma_acyclic_no_self_loops(succ0);
            lemma_without_self_loops_same(succ0);
        }
    }
    unlink_selfloops(graph);
    let ghost bare = graph.succ();
    let mut count: usize = 0;
    loop
        invariant_except_break
            eliminated(succ0, limit) == rounds(graph.succ(), limit, count as nat),
        invariant
            graph.wf(),
            graph.payloads() == pay0,
            graph.succ().len() == succ0.len(),
            graph.weighted_edges().subset_of(edges0),
            thinner(graph.succ(), succ0),
            no_self_loops(graph.succ()),
            acyclic(succ0) ==> graph.succ() == succ0 && graph.ends() == ends0
                && graph.edge_payloads() == carried0,
            count + graph.ends().len() <= m0,
            m0 <= u32::MAX,
        ensures
            graph.succ() == eliminated(succ0, limit),
            limit is None ==> components_trivial(graph.succ()) && acyclic(graph.succ()),
        decreases total_entries(graph.succ()),
    {
        let ghost now = graph.succ();
        let comps = graph.tarjan_components();
        proof {
            lemma_deep_rows(comps);
            lemma_wf_closed_rows(graph.ends(), graph.order());
        }
        if comps.len() == graph.node_count() {
            proof {
                lemma_trivial_components(now, comps.deep_view());
                lemma_trivial_acyclic(now);
            }
            break;
        }
        proof {
            if acyclic(succ0) {
                lemma_acyclic_components(now, comps.deep_view());
            }
        }
        let ghost before = graph.weighted_edges();
        unlink_components(graph, &comps);
        proof {
            lemma_subset_trans(graph.weighted_edges(), before, edges0);
            lemma_thinner_trans(graph.succ(), now, succ0);
            lemma_thinner_no_self_loops(graph.succ(), now);
        }
        count += 1;
        if let Some(most) = limit {
            if most < count {
                break;
            }
        }
    }
}

impl<N, E> CycleEliminator<N, E> for OutGoingCycleEliminator {
    /// Without a limit the work goes on until no cycle is left.
    open spec fn leaves_no_cycle(&self) -> bool {
        self.limit is None
    }

    /// Which edges are cut depends on the successor lists alone.
    open spec fn is_determined(&self) -> bool {
        true
    }

    /// What is left is what `eliminated` says.
    open spec fn leaves(&self, succ: Seq<Seq<usize>>) -> Seq<Seq<usize>> {
        eliminated(succ, self.limit)
    }

    /// Removes the self-loops of `graph` and breaks cycles round by round until
    /// none is left or the limit is passed. Without a limit the graph is
    /// acyclic afterwards.
    fn eliminate_cycles(&self, graph: &mut LinkGraph<N, E>)
        ensures
            final(graph).succ() == eliminated(old(graph).succ(), self.limit),
            no_self_loops(final(graph).succ()),
            self.limit is None ==> components_trivial(final(graph).succ()) && acyclic(
                final(graph).succ(),
            ),
            acyclic(old(graph).succ()) ==> {
            &&& final(graph).succ() == old(graph).succ()
            &&& final(graph).ends() == old(graph).ends()
            &&& final(graph).edge_payloads() == old(graph).edge_payloads()
        },
    {
        eliminate_cycles(graph, self.limit)
    }
}

/// The same eliminator under the name it has as an acyclifier.
pub struct OutGoingAcyclifier {
    /// The number of rounds after which the work ends even if cycles are
    /// left; `None` for no limit.
    pub limit: Option<usize>,
}

impl Default for OutGoingAcyclifier {
    fn default() -> (out: Self)
        ensures
            out.limit is None,
    {
        OutGoingAcyclifier { limit: None }
    }
}

impl OutGoingAcyclifier {
    /// Removes the self-loops of `graph` and breaks cycles round by round until
    /// none is left or the limit is passed.
    pub fn acyclify<N, E>(&self, graph: &mut LinkGraph<N, E>)
        requires
            old(graph).wf(),
        ensures
            final(graph).wf(),
            final(graph).succ() == eliminated(old(graph).succ(), self.limit),
            final(graph).payloads() == old(graph).payloads(),
            final(graph).ends().len() <= old(graph).ends().len(),
            final(graph).weighted_edges().subset_of(old(graph).weighted_edges()),
            thinner(final(graph).succ(), old(graph).succ()),
            no_self_loops(final(graph).succ()),
            self.limit is None ==> components_trivial(final(graph).succ()) && acyclic(
                final(graph).succ(),
            ),
    {
        eliminate_cycles(graph, self.limit)
    }
}

/// The eliminator with a fixed budget of rounds.
pub struct ByOutGoingEdgeCountSorter {
    /// The number of rounds that may be run.
    pub limit: usize,
}

impl Default for ByOutGoingEdgeCountSorter {
    fn default() -> (out: Self)
        ensures
            out.limit == 100,
    {
        ByOutGoingEdgeCountSorter { limit: 100 }
    }
}

impl ByOutGoingEdgeCountSorter {
    /// The cycle chain of `group` in `graph`.
    pub fn sorted<N, E>(&self, graph: &LinkGraph<N, E>, group: &Vec<usize>) -> (chain: Vec<usize>)
        requires
            graph.wf(),
            group@.len() > 0,
            stays_inside(graph.succ(), group@),
        ensures
            chain@ == cycle_chain(graph.succ(), group@),
            is_cycle_chain(graph.succ(), group@, chain@),
    {
        get_cycle_chain(graph, group)
    }

    /// Breaks the cycle chain of `cycle_node_set` by removing the edge into
    /// its hub.
    pub fn unlink_cycle<N, E>(&self, graph: &mut LinkGraph<N, E>, cycle_node_set: &Vec<usize>)
        requires
            old(graph).wf(),
            cycle_node_set@.len() > 0,
            stays_inside(old(graph).succ(), cycle_node_set@),
        ensures
            final(graph).wf(),
            final(graph).succ() == unlinked(old(graph).succ(), cycle_node_set@),
            final(graph).payloads() == old(graph).payloads(),
            final(graph).ends().len() == old(graph).ends().len() - 1,
            final(graph).weighted_edges().subset_of(old(graph).weighted_edges()),
            thinner(final(graph).succ(), old(graph).succ()),
    {
        unlink_cycle(graph, cycle_node_set)
    }

    /// Runs at most `limit` rounds of the elimination; with a budget of zero
    /// the graph is left as it is.
    pub fn decompose_cycle<N, E>(&self, graph: &mut LinkGraph<N, E>)
        requires
            old(graph).wf(),
        ensures
            final(graph).wf(),
            final(graph).succ() == if self.limit == 0 {
                old(graph).succ()
            } else {
                eliminated(old(graph).succ(), Some((self.limit - 1) as usize))
            },
            final(graph).payloads() == old(graph).payloads(),
            final(graph).ends().len() <= old(graph).ends().len(),
            final(graph).weighted_edges().subset_of(old(graph).weighted_edges()),
            thinner(final(graph).succ(), old(graph).succ()),
    {
        if self.limit > 0 {
            eliminate_cycles(graph, Some(self.limit - 1));
        } else {
            proof {
                lemma_thinner_refl(graph.succ());
            }
        }
    }
}

} // verus!
