//! Serialization by a sweep over the graph: the nodes are taken as roots, the
//! one with the most outgoing edges first, and from every root the nodes that
//! can be reached are handed out level by level, each node once.

use crate::adjacency::{closed_rows, is_node_permutation, thinner};
use crate::chain::lemma_distinct_bounded;
use crate::components::lemma_covering;
use crate::graph::{clones_in_order, LinkGraph};
use crate::link_model::lemma_wf_closed_rows;
use crate::serialize::{payloads_of, GraphSerializer, SerializeError};
use std::collections::VecDeque;
use vstd::prelude::*;

verus! {

/// `u` is a root before `v`: it has more outgoing edges, or as many and the
/// higher id.
pub open spec fn goes_before(succ: Seq<Seq<usize>>, u: usize, v: usize) -> bool {
    succ[u as int].len() > succ[v as int].len() || (succ[u as int].len() == succ[v as int].len()
        && u > v)
}

/// `roots` holds every node once, ordered by `goes_before`.
pub open spec fn is_degree_order(succ: Seq<Seq<usize>>, roots: Seq<usize>) -> bool {
    &&& is_node_permutation(succ.len(), roots)
    &&& forall|i: int, j: int|
        0 <= i < j < roots.len() ==> goes_before(succ, #[trigger] roots[i], #[trigger] roots[j])
}

/// What has been handed out once the queue is worked off: the first node of
/// the queue is handed out unless it was before, and then its successors join
/// the end of the queue. The bound on what is handed out makes the definition
/// well-founded; nodes that are handed out once each never reach it.
pub open spec fn drain(succ: Seq<Seq<usize>>, queue: Seq<usize>, out: Seq<usize>) -> Seq<usize>
    decreases succ.len() - out.len(), queue.len(),
{
    if queue.len() == 0 {
        out
    } else if out.contains(queue[0]) || out.len() >= succ.len() {
        drain(succ, queue.drop_first(), out)
    } else {
        drain(succ, queue.drop_first().add(succ[queue[0] as int]), out.push(queue[0]))
    }
}

/// What has been handed out after the sweeps from `roots`, one after the
/// other.
pub open spec fn visit_all(succ: Seq<Seq<usize>>, roots: Seq<usize>, out: Seq<usize>) -> Seq<usize>
    decreases roots.len(),
{
    if roots.len() == 0 {
        out
    } else {
        visit_all(succ, roots.drop_first(), drain(succ, seq![roots[0]], out))
    }
}

/// The order in which the sweep hands out the nodes, for the roots `roots`.
pub open spec fn sweep_order(succ: Seq<Seq<usize>>, roots: Seq<usize>) -> Seq<usize> {
    visit_all(succ, roots, Seq::empty())
}

/// The nodes of `graph`, the one with the most outgoing edges first; among
/// nodes with the same number of outgoing edges the higher id comes first.
pub fn nodes_by_out_degree<N, E>(graph: &LinkGraph<N, E>) -> (roots: Vec<usize>)
    requires
        graph.wf(),
    ensures
        is_degree_order(graph.succ(), roots@),
{
    let ghost succ = graph.succ();
    let n = graph.node_count();
    let mut roots: Vec<usize> = Vec::new();
    let mut u: usize = n;
    while u > 0
        invariant
            graph.wf(),
            succ == graph.succ(),
            n == succ.len(),
            u <= n,
            roots@.len() == n - u,
            forall|i: int| 0 <= i < roots@.len() ==> u <= #[trigger] roots@[i] < n,
            forall|v: usize| u <= v < n ==> roots@.contains(v),
            forall|i: int, j: int|
                0 <= i < j < roots@.len() ==> goes_before(
                    succ,
                    #[trigger] roots@[i],
                    #[trigger] roots@[j],
                ),
        decreases u,
    {
        u -= 1;
        let degree = graph.out_degree(u);
        let mut at: usize = 0;
        while at < roots.len() && graph.out_degree(roots[at]) >= degree
            invariant
                graph.wf(),
                succ == graph.succ(),
                n == succ.len(),
                u < n,
                degree == succ[u as int].len(),
                at <= roots@.len(),
                forall|i: int| 0 <= i < roots@.len() ==> u < #[trigger] roots@[i] < n,
                forall|i: int| 0 <= i < at ==> succ[#[trigger] roots@[i] as int].len() >= degree,
            decreases roots@.len() - at,
        {
            at += 1;
        }
        let ghost before = roots@;
        roots.insert(at, u);
        proof {
            let after = roots@;
            assert forall|i: int| 0 <= i < after.len() implies u <= #[trigger] after[i] < n by {
                if i < at {
                    assert(after[i] == before[i]);
                } else if i > at {
                    assert(after[i] == before[i - 1]);
                }
            }
            assert forall|v: usize| u <= v < n implies after.contains(v) by {
                if v == u {
                    assert(after[at as int] == u);
                } else {
                    assert(before.contains(v));
                    let k = choose|k: int| 0 <= k < before.len() && before[k] == v;
                    if k < at {
                        assert(after[k] == v);
                    } else {
                        assert(after[k + 1] == v);
                    }
                }
            }
            assert forall|i: int, j: int| 0 <= i < j < after.len() implies goes_before(
                succ,
                #[trigger] after[i],
                #[trigger] after[j],
            ) by {
                if j < at {
                    assert(after[i] == before[i] && after[j] == before[j]);
                } else if j == at {
                    assert(after[i] == before[i]);
                } else if i < at {
                    assert(after[i] == before[i] && after[j] == before[j - 1]);
                } else if i == at {
                    assert(after[j] == before[j - 1]);
                    if j - 1 > at {
                        assert(goes_before(succ, before[at as int], before[j - 1]));
                    }
                } else {
                    assert(after[i] == before[i - 1] && after[j] == before[j - 1]);
                }
            }
        }
    }
    proof {
        assert forall|i: int, j: int|
            0 <= i < roots@.len() && 0 <= j < roots@.len() && i != j implies roots@[i]
            != roots@[j] by {
            if i < j {
                assert(goes_before(succ, roots@[i], roots@[j]));
            } else {
                assert(goes_before(succ, roots@[j], roots@[i]));
            }
        }
    }
    roots
}

/// The sweep from `root`: `out` grows by the nodes that are reached for the
/// first time, in the order in which they leave the queue.
pub fn visit_from<N, E>(
    graph: &LinkGraph<N, E>,
    root: usize,
    visited: &mut Vec<bool>,
    out: &mut Vec<usize>,
)
    requires
        graph.wf(),
        root < graph.succ().len(),
        old(visited)@.len() == graph.succ().len(),
        forall|v: usize|
            v < graph.succ().len() ==> old(visited)@[v as int] == old(out)@.contains(v),
        old(out)@.no_duplicates(),
        forall|i: int| 0 <= i < old(out)@.len() ==> (#[trigger] old(out)@[i]) < graph.succ().len(),
    ensures
        final(out)@ == drain(graph.succ(), seq![root], old(out)@),
        final(visited)@.len() == graph.succ().len(),
        forall|v: usize|
            v < graph.succ().len() ==> final(visited)@[v as int] == final(out)@.contains(v),
        final(out)@.no_duplicates(),
        forall|i: int|
            0 <= i < final(out)@.len() ==> (#[trigger] final(out)@[i]) < graph.succ().len(),
        final(out)@.contains(root),
        forall|v: usize| old(out)@.contains(v) ==> final(out)@.contains(v),
{
    let ghost succ = graph.succ();
    let ghost out0 = out@;
    let n = graph.node_count();
    proof {
        lemma_wf_closed_rows(graph.ends(), graph.order());
    }
    let mut queue: VecDeque<usize> = VecDeque::new();
    queue.push_back(root);
    proof {
        assert(queue@ =~= seq![root]);
    }
    while queue.len() > 0
        invariant
            graph.wf(),
            succ == graph.succ(),
            closed_rows(succ),
            n == succ.len(),
            root < n,
            visited@.len() == n,
            forall|v: usize| v < n ==> visited@[v as int] == out@.contains(v),
            out@.no_duplicates(),
            forall|i: int| 0 <= i < out@.len() ==> (#[trigger] out@[i]) < n,
            forall|i: int| 0 <= i < queue@.len() ==> (#[trigger] queue@[i]) < n,
            drain(succ, seq![root], out0) == drain(succ, queue@, out@),
            out@.contains(root) || (queue@.len() > 0 && queue@[0] == root),
            forall|v: usize| out0.contains(v) ==> out@.contains(v),
        decreases n - out@.len(), queue@.len(),
    {
        let ghost waiting = queue@;
        let ghost done = out@;
        let u = queue.pop_front().unwrap();
        proof {
            assert(queue@ =~= waiting.drop_first());
        }
        if !visited[u] {
            proof {
                let longer = done.push(u);
                assert forall|i: int, j: int|
                    0 <= i < longer.len() && 0 <= j < longer.len() && i != j implies longer[i]
                    != longer[j] by {
                    if i < done.len() {
                        assert(longer[i] == done[i]);
                    }
                    if j < done.len() {
                        assert(longer[j] == done[j]);
                    }
                }
                lemma_distinct_bounded(longer, n as nat);
            }
            let row = graph.successors(u);
            let ghost rest = queue@;
            let mut k: usize = 0;
            while k < row.len()
                invariant
                    k <= row@.len(),
                    row@ == succ[u as int],
                    u < n,
                    n == succ.len(),
                    closed_rows(succ),
                    queue@ == rest.add(row@.take(k as int)),
                    forall|i: int| 0 <= i < rest.len() ==> (#[trigger] rest[i]) < n,
                decreases row@.len() - k,
            {
                queue.push_back(row[k]);
                proof {
                    assert(row@.take(k + 1) =~= row@.take(k as int).push(row@[k as int]));
                    assert(queue@ =~= rest.add(row@.take(k + 1)));
                }
                k += 1;
            }
            proof {
                assert(row@.take(row@.len() as int) =~= row@);
                assert forall|i: int| 0 <= i < queue@.len() implies (#[trigger] queue@[i]) < n by {
                    if i < rest.len() {
                        assert(queue@[i] == rest[i]);
                    } else {
                        assert(queue@[i] == succ[u as int][i - rest.len()]);
                    }
                }
            }
            out.push(u);
            visited.set(u, true);
            proof {
                assert forall|v: usize| v < n implies visited@[v as int] == out@.contains(v) by {
                    if v == u {
                        assert(out@[done.len() as int] == u);
                    } else {
                        if done.contains(v) {
                            let i = choose|i: int| 0 <= i < done.len() && done[i] == v;
                            assert(out@[i] == v);
                        }
                        if out@.contains(v) {
                            let i = choose|i: int| 0 <= i < out@.len() && out@[i] == v;
                            assert(done[i] == v);
                        }
                    }
                }
                assert forall|i: int| 0 <= i < out@.len() implies (#[trigger] out@[i]) < n by {
                    if i < done.len() {
                        assert(out@[i] == done[i]);
                    }
                }
                assert forall|v: usize| out0.contains(v) implies out@.contains(v) by {
                    assert(done.contains(v));
                    let i = choose|i: int| 0 <= i < done.len() && done[i] == v;
                    assert(out@[i] == v);
                }
                if !done.contains(root) {
                    assert(u == root);
                }
                if done.contains(root) {
                    let i = choose|i: int| 0 <= i < done.len() && done[i] == root;
                    assert(out@[i] == root);
                } else {
                    assert(out@[done.len() as int] == root);
                }
            }
        } else {
            proof {
                if !done.contains(root) {
                    assert(u == root);
                }
            }
        }
    }
}

/// The serializer that sweeps the graph from the nodes with the most outgoing
/// edges. It removes no edge and pays no regard to cycles.
#[derive(Debug, Default)]
pub struct DfsSerializer;

impl DfsSerializer {
    /// The order in which the sweep hands out the nodes of `graph`: every node
    /// once.
    pub fn order<N, E>(&self, graph: &LinkGraph<N, E>) -> (order: Vec<usize>)
        requires
            graph.wf(),
        ensures
            is_node_permutation(graph.succ().len(), order@),
            exists|roots: Seq<usize>|
                #[trigger] is_degree_order(graph.succ(), roots) && order@ == sweep_order(
                    graph.succ(),
                    roots,
                ),
    {
        let ghost succ = graph.succ();
        let n = graph.node_count();
        let roots = nodes_by_out_degree(graph);
        let mut visited: Vec<bool> = Vec::new();
        let mut i: usize = 0;
        while i < n
            invariant
                i <= n,
                visited@.len() == i,
                forall|v: int| 0 <= v < i ==> !(#[trigger] visited@[v]),
            decreases n - i,
        {
            visited.push(false);
            i += 1;
        }
        let mut out: Vec<usize> = Vec::new();
        let mut r: usize = 0;
        proof {
            assert(roots@.skip(0) =~= roots@);
        }
        while r < roots.len()
            invariant
                graph.wf(),
                succ == graph.succ(),
                n == succ.len(),
                is_degree_order(succ, roots@),
                r <= roots@.len(),
                visited@.len() == n,
                forall|v: usize| v < n ==> visited@[v as int] == out@.contains(v),
                out@.no_duplicates(),
                forall|i: int| 0 <= i < out@.len() ==> (#[trigger] out@[i]) < n,
                forall|i: int| 0 <= i < r ==> out@.contains(#[trigger] roots@[i]),
                sweep_order(succ, roots@) == visit_all(succ, roots@.skip(r as int), out@),
            decreases roots@.len() - r,
        {
            proof {
                assert(roots@.skip(r as int)[0] == roots@[r as int]);
                assert(roots@.skip(r as int).drop_first() =~= roots@.skip(r + 1));
            }
            visit_from(graph, roots[r], &mut visited, &mut out);
            r += 1;
        }
        proof {
            assert(roots@.skip(roots@.len() as int).len() == 0);
            lemma_distinct_bounded(out@, n as nat);
            assert forall|v: usize| v < n implies out@.contains(v) by {
                assert(roots@.contains(v));
                let i = choose|i: int| 0 <= i < roots@.len() && roots@[i] == v;
                assert(out@.contains(roots@[i]));
            }
            lemma_covering(out@, n as nat);
            assert(is_degree_order(succ, roots@) && out@ == sweep_order(succ, roots@));
        }
        out
    }
}

impl<N: Clone, E> GraphSerializer<N, E> for DfsSerializer {
    /// Hands out the payloads in the order of the sweep. The graph stays as
    /// it is, and the call succeeds on every graph.
    fn serialize(&self, graph: &mut LinkGraph<N, E>) -> (out: Result<Vec<N>, SerializeError>)
        ensures
            out is Ok,
            final(graph).succ() == old(graph).succ(),
            final(graph).edge_payloads() == old(graph).edge_payloads(),
            out matches Ok(items) ==> exists|roots: Seq<usize>|
                #[trigger] is_degree_order(old(graph).succ(), roots) && clones_in_order(
                    old(graph).payloads(),
                    sweep_order(old(graph).succ(), roots),
                    items@,
                ),
    {
        let ghost succ = graph.succ();
        let ghost pay0 = graph.payloads();
        let order = self.order(graph);
        let out = Ok(payloads_of(graph, &order));
        proof {
            crate::adjacency::lemma_thinner_refl(succ);
            let items = out->Ok_0;
            assert(is_node_permutation(succ.len(), order@) && clones_in_order(
                pay0,
                order@,
                items@,
            ));
            let roots = choose|roots: Seq<usize>|
                #[trigger] is_degree_order(succ, roots) && order@ == sweep_order(succ, roots);
            assert(is_degree_order(succ, roots) && clones_in_order(
                pay0,
                sweep_order(succ, roots),
                items@,
            ));
        }
        out
    }
}

} // verus!
