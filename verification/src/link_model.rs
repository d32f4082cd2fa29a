//! How successor lists are read off the numbered edges of the underlying graph,
//! and what adding and removing an edge does to them.

use crate::adjacency::{closed_rows, lemma_position, position, with_edges};
use vstd::prelude::*;

verus! {

/// The targets of the edges `chain`, in the order of `chain`.
pub open spec fn targets(ends: Seq<(usize, usize)>, chain: Seq<usize>) -> Seq<usize> {
    Seq::new(chain.len(), |k: int| ends[chain[k] as int].1)
}

/// The successor lists of a graph with the edges `ends` and the outgoing
/// lists `order`.
pub open spec fn successor_lists(ends: Seq<(usize, usize)>, order: Seq<Seq<usize>>) -> Seq<
    Seq<usize>,
> {
    Seq::new(order.len(), |x: int| targets(ends, order[x]))
}

/// The first edge of `chain` that leads to `b`.
pub open spec fn first_edge_to(ends: Seq<(usize, usize)>, chain: Seq<usize>, b: usize) -> Option<
    usize,
>
    decreases chain.len(),
{
    if chain.len() == 0 {
        None
    } else if ends[chain[0] as int].1 == b {
        Some(chain[0])
    } else {
        first_edge_to(ends, chain.drop_first(), b)
    }
}

/// The edges after edge `e` has left: the last edge takes its number.
pub open spec fn ends_without(ends: Seq<(usize, usize)>, e: usize) -> Seq<(usize, usize)> {
    ends.update(e as int, ends.last()).drop_last()
}

/// `chain` with the edge number `last` replaced by `e`.
pub open spec fn renumbered(chain: Seq<usize>, e: usize, last: usize) -> Seq<usize> {
    Seq::new(
        chain.len(),
        |k: int|
            if chain[k] == last {
                e
            } else {
                chain[k]
            },
    )
}

/// The outgoing lists after edge `e` has left: it is taken out of the list of
/// its source, and the last edge is known by the number `e` from then on.
pub open spec fn order_without(ends: Seq<(usize, usize)>, order: Seq<Seq<usize>>, e: usize) -> Seq<
    Seq<usize>,
> {
    let last = (ends.len() - 1) as usize;
    Seq::new(
        order.len(),
        |x: int|
            renumbered(
                if x == ends[e as int].0 {
                    order[x].remove(order[x].index_of(e))
                } else {
                    order[x]
                },
                e,
                last,
            ),
    )
}

/// The outgoing lists of a graph on `n` nodes to which the edges `ends` were
/// added in the order of their numbers: every new edge comes first in the list
/// of its source.
pub open spec fn chains_after(n: nat, ends: Seq<(usize, usize)>) -> Seq<Seq<usize>>
    decreases ends.len(),
{
    if ends.len() == 0 {
        Seq::new(n, |x: int| Seq::<usize>::empty())
    } else {
        let before = chains_after(n, ends.drop_last());
        let id = (ends.len() - 1) as usize;
        before.update(ends.last().0 as int, seq![id].add(before[ends.last().0 as int]))
    }
}

/// How many of the first `upto` entries of `keep` are set.
pub open spec fn marked_below(keep: Seq<bool>, upto: int) -> nat
    decreases upto,
{
    if upto <= 0 {
        0
    } else {
        marked_below(keep, upto - 1) + if keep[upto - 1] {
            1nat
        } else {
            0nat
        }
    }
}

/// The edges between the nodes that `keep` marks, in the order of their
/// numbers, with every node renumbered to its place among the marked nodes.
pub open spec fn kept_edges(ends: Seq<(usize, usize)>, keep: Seq<bool>) -> Seq<(usize, usize)>
    decreases ends.len(),
{
    if ends.len() == 0 {
        Seq::empty()
    } else {
        let front = kept_edges(ends.drop_last(), keep);
        let edge = ends.last();
        if keep[edge.0 as int] && keep[edge.1 as int] {
            front.push(
                (
                    marked_below(keep, edge.0 as int) as usize,
                    marked_below(keep, edge.1 as int) as usize,
                ),
            )
        } else {
            front
        }
    }
}

/// Whether `keep` marks node `i`: `Some` if it does.
pub fn keeps(keep: &Vec<bool>, i: usize) -> (kept: Option<()>)
    ensures
        kept is Some <==> i < keep@.len() && keep@[i as int],
{
    if i < keep.len() && keep[i] {
        Some(())
    } else {
        None
    }
}

/// The ids of the edges between the nodes that `keep` marks, ascending.
pub open spec fn kept_edge_ids(ends: Seq<(usize, usize)>, keep: Seq<bool>) -> Seq<usize>
    decreases ends.len(),
{
    if ends.len() == 0 {
        Seq::empty()
    } else {
        let front = kept_edge_ids(ends.drop_last(), keep);
        let edge = ends.last();
        if keep[edge.0 as int] && keep[edge.1 as int] {
            front.push((ends.len() - 1) as usize)
        } else {
            front
        }
    }
}

/// The edges and outgoing lists fit together: endpoints are nodes, every edge
/// stands once in the list of its source and in no other, and both counts fit
/// the 32-bit numbering of the underlying graph.
pub open spec fn links_wf(ends: Seq<(usize, usize)>, order: Seq<Seq<usize>>) -> bool {
    &&& order.len() <= u32::MAX
    &&& ends.len() <= u32::MAX
    &&& forall|e: int|
        0 <= e < ends.len() ==> (#[trigger] ends[e]).0 < order.len() && ends[e].1 < order.len()
    &&& forall|x: int, k: int|
        0 <= x < order.len() && 0 <= k < order[x].len() ==> (#[trigger] order[x][k]) < ends.len()
            && ends[order[x][k] as int].0 == x
    &&& forall|x: int| 0 <= x < order.len() ==> (#[trigger] order[x]).no_duplicates()
    &&& forall|e: int| 0 <= e < ends.len() ==> order[(#[trigger] ends[e]).0 as int].contains(e as usize)
}

/// In a well-formed graph every successor is a node.
pub proof fn lemma_wf_closed_rows(ends: Seq<(usize, usize)>, order: Seq<Seq<usize>>)
    requires
        links_wf(ends, order),
    ensures
        closed_rows(successor_lists(ends, order)),
        successor_lists(ends, order).len() == order.len(),
{
    let succ = successor_lists(ends, order);
    assert forall|u: int, k: int| 0 <= u < succ.len() && 0 <= k < succ[u].len() implies (
    #[trigger] succ[u][k]) < succ.len() by {
        assert(order[u][k] < ends.len());
        assert(ends[order[u][k] as int].1 < order.len());
    }
}

/// A new node has no edges and leaves the others as they were.
pub proof fn lemma_add_node(ends: Seq<(usize, usize)>, order: Seq<Seq<usize>>)
    requires
        links_wf(ends, order),
        order.len() < u32::MAX,
    ensures
        links_wf(ends, order.push(Seq::empty())),
        successor_lists(ends, order.push(Seq::empty())) == successor_lists(ends, order).push(
            Seq::empty(),
        ),
{
    let order2 = order.push(Seq::empty());
    assert forall|x: int| 0 <= x < order2.len() implies (#[trigger] order2[x]).no_duplicates() by {
        if x < order.len() {
            assert(order2[x] == order[x]);
        }
    }
    assert forall|e: int| 0 <= e < ends.len() implies order2[(#[trigger] ends[e]).0 as int].contains(
        e as usize,
    ) by {
        assert(order2[ends[e].0 as int] == order[ends[e].0 as int]);
    }
    assert forall|x: int, k: int| 0 <= x < order2.len() && 0 <= k < order2[x].len() implies (
    #[trigger] order2[x][k]) < ends.len() && ends[order2[x][k] as int].0 == x by {
        assert(order2[x] == order[x]);
    }
    let got = successor_lists(ends, order2);
    let want = successor_lists(ends, order).push(Seq::empty());
    assert forall|x: int| 0 <= x < got.len() implies got[x] =~= want[x] by {
        if x < order.len() {
            assert(order2[x] == order[x]);
        }
    }
    assert(got =~= want);
}

/// A new edge from `a` to `b` puts `b` at the head of the successors of `a`.
pub proof fn lemma_add_edge(ends: Seq<(usize, usize)>, order: Seq<Seq<usize>>, a: usize, b: usize)
    requires
        links_wf(ends, order),
        a < order.len(),
        b < order.len(),
        ends.len() < u32::MAX,
    ensures
        links_wf(
            ends.push((a, b)),
            order.update(a as int, seq![ends.len() as usize].add(order[a as int])),
        ),
        successor_lists(
            ends.push((a, b)),
            order.update(a as int, seq![ends.len() as usize].add(order[a as int])),
        ) == successor_lists(ends, order).update(
            a as int,
            seq![b].add(successor_lists(ends, order)[a as int]),
        ),
{
    let id = ends.len() as usize;
    let ends2 = ends.push((a, b));
    let row2 = seq![id].add(order[a as int]);
    let order2 = order.update(a as int, row2);
    assert forall|x: int, k: int| 0 <= x < order2.len() && 0 <= k < order2[x].len() implies (
    #[trigger] order2[x][k]) < ends2.len() && ends2[order2[x][k] as int].0 == x by {
        if x == a {
            if k > 0 {
                assert(order2[x][k] == order[x][k - 1]);
            }
        } else {
            assert(order2[x][k] == order[x][k]);
        }
    }
    assert forall|x: int| 0 <= x < order2.len() implies (#[trigger] order2[x]).no_duplicates() by {
        if x == a {
            assert forall|i: int, j: int|
                0 <= i < row2.len() && 0 <= j < row2.len() && i != j implies row2[i] != row2[j] by {
                if i > 0 {
                    assert(row2[i] == order[x][i - 1]);
                }
                if j > 0 {
                    assert(row2[j] == order[x][j - 1]);
                }
            }
        } else {
            assert(order2[x] == order[x]);
        }
    }
    assert forall|e: int| 0 <= e < ends2.len() implies order2[(#[trigger] ends2[e]).0 as int].contains(
        e as usize,
    ) by {
        if e == ends.len() {
            assert(row2[0] == id);
        } else {
            let x = ends[e].0 as int;
            assert(order[x].contains(e as usize));
            let k = choose|k: int| 0 <= k < order[x].len() && order[x][k] == e as usize;
            if x == a {
                assert(row2[k + 1] == e as usize);
            } else {
                assert(order2[x][k] == e as usize);
            }
        }
    }
    let got = successor_lists(ends2, order2);
    let was = successor_lists(ends, order);
    let want = was.update(a as int, seq![b].add(was[a as int]));
    assert forall|x: int| 0 <= x < got.len() implies got[x] =~= want[x] by {
        assert forall|k: int| 0 <= k < got[x].len() implies got[x][k] == want[x][k] by {
            if x == a {
                if k > 0 {
                    assert(order2[x][k] == order[x][k - 1]);
                    assert(order[x][k - 1] < ends.len());
                }
            } else {
                assert(order2[x][k] == order[x][k]);
                assert(order[x][k] < ends.len());
            }
        }
    }
    assert(got =~= want);
}

/// Taking out edge `e` takes one successor out of the row of its source, at
/// the place where `e` stands in the outgoing list, and changes nothing else.
pub proof fn lemma_remove_edge(ends: Seq<(usize, usize)>, order: Seq<Seq<usize>>, e: usize)
    requires
        links_wf(ends, order),
        e < ends.len(),
    ensures
        links_wf(ends_without(ends, e), order_without(ends, order, e)),
        0 <= order[ends[e as int].0 as int].index_of(e) < order[ends[e as int].0 as int].len(),
        order[ends[e as int].0 as int][order[ends[e as int].0 as int].index_of(e)] == e,
        successor_lists(ends_without(ends, e), order_without(ends, order, e)) == successor_lists(
            ends,
            order,
        ).update(
            ends[e as int].0 as int,
            successor_lists(ends, order)[ends[e as int].0 as int].remove(
                order[ends[e as int].0 as int].index_of(e),
            ),
        ),
{
    let src = ends[e as int].0 as int;
    let last = (ends.len() - 1) as usize;
    let ends2 = ends_without(ends, e);
    let order2 = order_without(ends, order, e);
    assert(order[src].contains(e));
    let pos = order[src].index_of(e);
    assert(0 <= pos < order[src].len() && order[src][pos] == e);
    // the rows before the renumbering
    let cut = |x: int|
        if x == src {
            order[x].remove(pos)
        } else {
            order[x]
        };
    assert forall|x: int, k: int| 0 <= x < order.len() && 0 <= k < cut(x).len() implies (
    #[trigger] cut(x)[k]) != e && cut(x)[k] < ends.len() && ends[cut(x)[k] as int].0 == x by {
        if x == src {
            let k0 = if k < pos {
                k
            } else {
                k + 1
            };
            assert(cut(x)[k] == order[x][k0]);
            assert(order[x][k0] < ends.len());
        } else {
            assert(cut(x)[k] == order[x][k]);
            assert(order[x][k] < ends.len());
            assert(ends[order[x][k] as int].0 == x);
        }
    }
    assert forall|x: int, k: int| 0 <= x < order2.len() && 0 <= k < order2[x].len() implies (
    #[trigger] order2[x][k]) < ends2.len() && ends2[order2[x][k] as int].0 == x by {
        assert(order2[x] == renumbered(cut(x), e, last));
        assert(cut(x)[k] != e);
    }
    assert forall|x: int| 0 <= x < order2.len() implies (#[trigger] order2[x]).no_duplicates() by {
        assert(order2[x] == renumbered(cut(x), e, last));
        assert forall|i: int, j: int|
            0 <= i < order2[x].len() && 0 <= j < order2[x].len() && i != j implies order2[x][i]
            != order2[x][j] by {
            assert(cut(x)[i] != e && cut(x)[j] != e);
            if x == src {
                let i0 = if i < pos {
                    i
                } else {
                    i + 1
                };
                let j0 = if j < pos {
                    j
                } else {
                    j + 1
                };
                assert(cut(x)[i] == order[x][i0] && cut(x)[j] == order[x][j0]);
            } else {
                assert(cut(x)[i] == order[x][i] && cut(x)[j] == order[x][j]);
            }
        }
    }
    assert forall|f: int| 0 <= f < ends2.len() implies order2[(#[trigger] ends2[f]).0 as int].contains(
        f as usize,
    ) by {
        let f0 = if f == e {
            last as int
        } else {
            f
        };
        assert(ends2[f] == ends[f0]);
        let x = ends[f0].0 as int;
        assert(order[x].contains(f0 as usize));
        let k = choose|k: int| 0 <= k < order[x].len() && order[x][k] == f0 as usize;
        assert(order2[x] == renumbered(cut(x), e, last));
        if x == src {
            assert(k != pos);
            let k2 = if k < pos {
                k
            } else {
                k - 1
            };
            assert(cut(x)[k2] == order[x][k]);
            assert(order2[x][k2] == f as usize);
        } else {
            assert(cut(x)[k] == order[x][k]);
            assert(order2[x][k] == f as usize);
        }
    }
    let was = successor_lists(ends, order);
    let got = successor_lists(ends2, order2);
    let want = was.update(src, was[src].remove(pos));
    assert forall|x: int| 0 <= x < got.len() implies got[x] =~= want[x] by {
        assert(order2[x] == renumbered(cut(x), e, last));
        assert forall|k: int| 0 <= k < got[x].len() implies got[x][k] == want[x][k] by {
            assert(cut(x)[k] != e);
            if x == src {
                let k0 = if k < pos {
                    k
                } else {
                    k + 1
                };
                assert(cut(x)[k] == order[x][k0]);
                assert(want[x][k] == was[x][k0]);
            } else {
                assert(cut(x)[k] == order[x][k]);
            }
        }
    }
    assert(got =~= want);
}

/// The first edge to `b` in an outgoing list stands where the first `b` stands
/// among the successors; there is none exactly if `b` is no successor.
pub proof fn lemma_first_edge_to(ends: Seq<(usize, usize)>, chain: Seq<usize>, b: usize)
    ensures
        match first_edge_to(ends, chain, b) {
            Some(e) => {
                &&& 0 <= position(targets(ends, chain), b) < chain.len()
                &&& chain[position(targets(ends, chain), b)] == e
                &&& ends[e as int].1 == b
            },
            None => !targets(ends, chain).contains(b),
        },
    decreases chain.len(),
{
    let row = targets(ends, chain);
    lemma_position(row, b);
    if chain.len() == 0 {
    } else if ends[chain[0] as int].1 == b {
        assert(row[0] == b);
    } else {
        let rest = chain.drop_first();
        lemma_first_edge_to(ends, rest, b);
        assert(targets(ends, rest) =~= row.drop_first());
        lemma_position(row.drop_first(), b);
        if row.contains(b) {
            let k = choose|k: int| 0 <= k < row.len() && row[k] == b;
            assert(row.drop_first()[k - 1] == b);
        }
        if row.drop_first().contains(b) {
            let k = choose|k: int| 0 <= k < row.drop_first().len() && row.drop_first()[k] == b;
            assert(row[k + 1] == b);
        }
    }
}

/// A graph that was built by adding edges is well formed, and its successor
/// lists are those that adding the edges gives.
pub proof fn lemma_chains_after(n: nat, ends: Seq<(usize, usize)>)
    requires
        n <= u32::MAX,
        ends.len() <= u32::MAX,
        forall|e: int| 0 <= e < ends.len() ==> (#[trigger] ends[e]).0 < n && ends[e].1 < n,
    ensures
        chains_after(n, ends).len() == n,
        links_wf(ends, chains_after(n, ends)),
        successor_lists(ends, chains_after(n, ends)) == with_edges(n, ends),
    decreases ends.len(),
{
    if ends.len() == 0 {
        let order = chains_after(n, ends);
        assert(successor_lists(ends, order) =~= with_edges(n, ends)) by {
            assert forall|x: int| 0 <= x < n implies successor_lists(ends, order)[x] =~= with_edges(
                n,
                ends,
            )[x] by {}
        }
    } else {
        let front = ends.drop_last();
        assert forall|e: int| 0 <= e < front.len() implies (#[trigger] front[e]).0 < n && front[e].1
            < n by {
            assert(front[e] == ends[e]);
        }
        lemma_chains_after(n, front);
        let last = ends.last();
        assert(last == ends[ends.len() - 1]);
        lemma_add_edge(front, chains_after(n, front), last.0, last.1);
        assert(front.push((last.0, last.1)) =~= ends);
    }
}

/// A marked node has a place among the marked nodes, below their number.
pub proof fn lemma_marked_below(keep: Seq<bool>, u: int, upto: int)
    requires
        0 <= u < upto <= keep.len(),
        keep[u],
    ensures
        marked_below(keep, u) < marked_below(keep, upto),
        marked_below(keep, upto) <= upto,
    decreases upto - u,
{
    lemma_marked_bound(keep, u);
    if u + 1 < upto {
        lemma_marked_below(keep, u, upto - 1);
    }
}

/// There are no more marked entries than entries.
pub proof fn lemma_marked_bound(keep: Seq<bool>, upto: int)
    requires
        0 <= upto,
    ensures
        marked_below(keep, upto) <= upto,
    decreases upto,
{
    if upto > 0 {
        lemma_marked_bound(keep, upto - 1);
    }
}

/// The kept edges are no more than the edges, and they lie between the
/// renumbered nodes.
pub proof fn lemma_kept_edges(ends: Seq<(usize, usize)>, order: Seq<Seq<usize>>, keep: Seq<bool>)
    requires
        links_wf(ends, order),
        keep.len() == order.len(),
    ensures
        kept_edges(ends, keep).len() <= ends.len(),
        forall|e: int|
            0 <= e < kept_edges(ends, keep).len() ==> (#[trigger] kept_edges(ends, keep)[e]).0
                < marked_below(keep, keep.len() as int) && kept_edges(ends, keep)[e].1
                < marked_below(keep, keep.len() as int),
    decreases ends.len(),
{
    lemma_kept_edges_range(ends, keep, order.len());
}

/// The same for any edges whose endpoints are below `n`.
pub proof fn lemma_kept_edges_range(ends: Seq<(usize, usize)>, keep: Seq<bool>, n: nat)
    requires
        keep.len() == n,
        n <= u32::MAX,
        forall|e: int| 0 <= e < ends.len() ==> (#[trigger] ends[e]).0 < n && ends[e].1 < n,
    ensures
        kept_edges(ends, keep).len() <= ends.len(),
        forall|e: int|
            0 <= e < kept_edges(ends, keep).len() ==> (#[trigger] kept_edges(ends, keep)[e]).0
                < marked_below(keep, n as int) && kept_edges(ends, keep)[e].1 < marked_below(
                keep,
                n as int,
            ),
    decreases ends.len(),
{
    if ends.len() > 0 {
        let front = ends.drop_last();
        assert forall|e: int| 0 <= e < front.len() implies (#[trigger] front[e]).0 < n && front[e].1
            < n by {
            assert(front[e] == ends[e]);
        }
        lemma_kept_edges_range(front, keep, n);
        let edge = ends.last();
        assert(edge == ends[ends.len() - 1]);
        if keep[edge.0 as int] && keep[edge.1 as int] {
            lemma_marked_below(keep, edge.0 as int, n as int);
            lemma_marked_below(keep, edge.1 as int, n as int);
            let all = kept_edges(ends, keep);
            let head = kept_edges(front, keep);
            assert forall|e: int| 0 <= e < all.len() implies (#[trigger] all[e]).0 < marked_below(
                keep,
                n as int,
            ) && all[e].1 < marked_below(keep, n as int) by {
                if e < head.len() {
                    assert(all[e] == head[e]);
                }
            }
        }
    }
}

} // verus!
