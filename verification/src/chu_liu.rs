//! The cost of the cheapest branching of a weighted graph, by contraction: every
//! node but the root picks its cheapest incoming edge; where the picked edges
//! close a cycle, the cycle is drawn together into one node, the weights of the
//! edges into it are lowered by what the cycle pays for the node they enter, and
//! the same is done on the smaller graph.
//!
//! The numbering of the nodes of the smaller graph follows the order in which
//! the picked edges are walked, so everything here is defined by walking them.

use crate::chain::lemma_distinct_bounded;
use vstd::prelude::*;

verus! {

/// The cheapest of the first `upto` edges into `t`, as its weight and its
/// source; the greatest weight and no source if there is none. Of several
/// cheapest edges the first counts.
pub open spec fn cheapest(edges: Seq<(usize, usize, i32)>, t: usize, upto: int) -> (
    i32,
    Option<usize>,
)
    decreases upto,
{
    if upto <= 0 {
        (i32::MAX, None)
    } else {
        let before = cheapest(edges, t, upto - 1);
        let edge = edges[upto - 1];
        if edge.1 == t && edge.2 < before.0 {
            (edge.2, Some(edge.0))
        } else {
            before
        }
    }
}

/// For every node the edge it picks: the cheapest edge into it. The root picks
/// none and counts for -1.
pub open spec fn picks(n: nat, edges: Seq<(usize, usize, i32)>, root: usize) -> Seq<
    (i32, Option<usize>),
> {
    Seq::new(
        n,
        |t: int|
            if t == root {
                (-1i32, None::<usize>)
            } else {
                cheapest(edges, t as usize, edges.len() as int)
            },
    )
}

/// The walk along picked edges from `cur`, after `chain`: the nodes that are
/// walked, the node at which the walk stops, and the marks of the nodes that
/// were walked at some time. The walk stops at a node that picks no edge, or
/// short of a node that was walked before, which is then the node it stops at.
/// The bound on the length makes the definition well-founded; a walk over nodes
/// that were not walked before never reaches it.
pub open spec fn walk(
    table: Seq<(i32, Option<usize>)>,
    used: Seq<bool>,
    cur: usize,
    chain: Seq<usize>,
) -> (Seq<usize>, usize, Seq<bool>)
    decreases table.len() - chain.len(),
{
    let chain2 = chain.push(cur);
    let used2 = used.update(cur as int, true);
    match table[cur as int].1 {
        None => (chain2, cur, used2),
        Some(next) => if used2[next as int] || chain2.len() >= table.len() {
            (chain2, next, used2)
        } else {
            walk(table, used2, next, chain2)
        },
    }
}

/// The groups after the nodes of `chain` from place `k` on are numbered: a
/// node before the one at which the walk stopped gets a group of its own; that
/// node and those behind it share one group, which is marked.
pub open spec fn label(
    chain: Seq<usize>,
    stop: usize,
    k: int,
    group: Seq<usize>,
    comp: Seq<bool>,
    cnt: usize,
    cycle: bool,
) -> (Seq<usize>, Seq<bool>, usize)
    decreases chain.len() - k,
{
    if k < 0 || k >= chain.len() {
        (
            group,
            comp,
            if cycle {
                (cnt + 1) as usize
            } else {
                cnt
            },
        )
    } else {
        let node = chain[k];
        let hit = node == stop;
        let comp2 = if hit {
            comp.update(cnt as int, true)
        } else {
            comp
        };
        let cnt2 = if cycle || hit {
            cnt
        } else {
            (cnt + 1) as usize
        };
        label(chain, stop, k + 1, group.update(node as int, cnt), comp2, cnt2, cycle || hit)
    }
}

/// The groups after walks from the nodes below `upto` that no earlier walk
/// passed: the group of every node, the marks of the groups, the number of
/// groups, and the marks of the nodes that were walked.
pub open spec fn grouped(table: Seq<(i32, Option<usize>)>, upto: int) -> (
    Seq<usize>,
    Seq<bool>,
    usize,
    Seq<bool>,
)
    decreases upto,
{
    if upto <= 0 {
        (
            Seq::new(table.len(), |v: int| 0usize),
            Seq::new(table.len(), |v: int| false),
            0usize,
            Seq::new(table.len(), |v: int| false),
        )
    } else {
        let before = grouped(table, upto - 1);
        if before.3[upto - 1] {
            before
        } else {
            let walked = walk(table, before.3, (upto - 1) as usize, Seq::empty());
            let named = label(walked.0, walked.1, 0, before.0, before.1, before.2, false);
            (named.0, named.1, named.2, walked.2)
        }
    }
}

/// What the first `upto` nodes count for together.
pub open spec fn picked_total(table: Seq<(i32, Option<usize>)>, upto: int) -> int
    decreases upto,
{
    if upto <= 0 {
        0
    } else {
        picked_total(table, upto - 1) + table[upto - 1].0
    }
}

/// What those of the first `upto` nodes count for together that lie in a
/// marked group and are not the root.
pub open spec fn marked_total(
    table: Seq<(i32, Option<usize>)>,
    group: Seq<usize>,
    comp: Seq<bool>,
    root: usize,
    upto: int,
) -> int
    decreases upto,
{
    if upto <= 0 {
        0
    } else {
        marked_total(table, group, comp, root, upto - 1) + if upto - 1 != root && comp[group[upto
            - 1] as int] {
            table[upto - 1].0 as int
        } else {
            0
        }
    }
}

/// The weight that an edge of weight `w` into node `t` has between the
/// groups.
pub open spec fn new_weight(
    table: Seq<(i32, Option<usize>)>,
    group: Seq<usize>,
    comp: Seq<bool>,
    t: usize,
    w: i32,
) -> int {
    if comp[group[t as int] as int] {
        w - table[t as int].0
    } else {
        w as int
    }
}

/// The first `upto` edges drawn between the groups, without those inside a
/// group.
pub open spec fn contracted(
    edges: Seq<(usize, usize, i32)>,
    table: Seq<(i32, Option<usize>)>,
    group: Seq<usize>,
    comp: Seq<bool>,
    upto: int,
) -> Seq<(usize, usize, i32)>
    decreases upto,
{
    if upto <= 0 {
        Seq::empty()
    } else {
        let front = contracted(edges, table, group, comp, upto - 1);
        let edge = edges[upto - 1];
        if group[edge.0 as int] == group[edge.1 as int] {
            front
        } else {
            front.push(
                (
                    group[edge.0 as int],
                    group[edge.1 as int],
                    new_weight(table, group, comp, edge.1, edge.2) as i32,
                ),
            )
        }
    }
}

/// A number that an `i32` can hold.
pub open spec fn fits_i32(x: int) -> bool {
    i32::MIN <= x <= i32::MAX
}

/// The edges lie between the nodes `0..n`, of which `root` is one, and the
/// nodes can be counted in an `i32`.
pub open spec fn chu_liu_input(n: nat, edges: Seq<(usize, usize, i32)>, root: usize) -> bool {
    &&& root < n
    &&& n <= i32::MAX
    &&& forall|e: int| 0 <= e < edges.len() ==> (#[trigger] edges[e]).0 < n && edges[e].1 < n
}

/// The cost that the contraction arrives at. Where every node is a group of
/// its own the picked edges are the branching, and its cost is what they
/// count for, the root left out. Otherwise the marked groups pay for their
/// nodes, and the rest is the cost on the graph of the groups.
pub open spec fn chu_liu_cost(n: nat, edges: Seq<(usize, usize, i32)>, root: usize) -> int
    decreases n,
{
    let table = picks(n, edges, root);
    let groups = grouped(table, n as int);
    if groups.2 >= n {
        picked_total(table, n as int) + 1
    } else {
        marked_total(table, groups.0, groups.1, root, n as int) + chu_liu_cost(
            groups.2 as nat,
            contracted(edges, table, groups.0, groups.1, edges.len() as int),
            groups.0[root as int],
        )
    }
}

/// Every sum and every difference on the way to `chu_liu_cost` can be held in
/// an `i32`.
pub open spec fn chu_liu_fits(n: nat, edges: Seq<(usize, usize, i32)>, root: usize) -> bool
    decreases n,
{
    let table = picks(n, edges, root);
    let groups = grouped(table, n as int);
    if groups.2 >= n {
        &&& forall|k: int| 0 <= k <= n ==> fits_i32(#[trigger] picked_total(table, k))
        &&& fits_i32(picked_total(table, n as int) + 1)
    } else {
        let rest = contracted(edges, table, groups.0, groups.1, edges.len() as int);
        &&& forall|k: int|
            0 <= k <= n ==> fits_i32(#[trigger] marked_total(table, groups.0, groups.1, root, k))
        &&& forall|e: int|
            0 <= e < edges.len() && groups.0[edges[e].0 as int] != groups.0[edges[e].1 as int]
                ==> fits_i32(
                #[trigger] new_weight(table, groups.0, groups.1, edges[e].1, edges[e].2),
            )
        &&& chu_liu_fits(groups.2 as nat, rest, groups.0[root as int])
        &&& fits_i32(
            marked_total(table, groups.0, groups.1, root, n as int) + chu_liu_cost(
                groups.2 as nat,
                rest,
                groups.0[root as int],
            ),
        )
    }
}

/// The edge that every node picks.
pub fn pick_edges(n: usize, edges: &Vec<(usize, usize, i32)>, root: usize) -> (table: Vec<
    (i32, Option<usize>),
>)
    requires
        chu_liu_input(n as nat, edges@, root),
    ensures
        table@ == picks(n as nat, edges@, root),
        forall|t: int| 0 <= t < n ==> ((#[trigger] table@[t]).1 matches Some(f) ==> f < n),
{
    let mut table: Vec<(i32, Option<usize>)> = Vec::new();
    let mut t: usize = 0;
    while t < n
        invariant
            t <= n,
            table@.len() == t,
            forall|x: int| 0 <= x < t ==> #[trigger] table@[x] == (i32::MAX, None::<usize>),
        decreases n - t,
    {
        table.push((i32::MAX, None));
        t += 1;
    }
    let mut i: usize = 0;
    while i < edges.len()
        invariant
            i <= edges@.len(),
            table@.len() == n,
            chu_liu_input(n as nat, edges@, root),
            forall|x: int|
                0 <= x < n ==> #[trigger] table@[x] == cheapest(edges@, x as usize, i as int),
            forall|x: int| 0 <= x < n ==> ((#[trigger] table@[x]).1 matches Some(f) ==> f < n),
        decreases edges@.len() - i,
    {
        let edge = edges[i];
        if edge.2 < table[edge.1].0 {
            table.set(edge.1, (edge.2, Some(edge.0)));
        }
        i += 1;
    }
    table.set(root, (-1, None));
    proof {
        assert(table@ =~= picks(n as nat, edges@, root));
    }
    table
}

/// Every node of `chain` is marked in `used`, and `used` marks nothing else
/// that `before` does not mark.
pub open spec fn marks_chain(before: Seq<bool>, chain: Seq<usize>, used: Seq<bool>) -> bool {
    &&& used.len() == before.len()
    &&& chain.no_duplicates()
    &&& forall|i: int|
        0 <= i < chain.len() ==> (#[trigger] chain[i]) < before.len() && !before[chain[i] as int]
    &&& forall|x: int|
        0 <= x < used.len() ==> (#[trigger] used[x]) == (before[x] || chain.contains(x as usize))
}

/// A walk that has reached every node can go nowhere new.
pub proof fn lemma_full_chain(chain: Seq<usize>, n: nat, next: usize)
    requires
        chain.no_duplicates(),
        forall|i: int| 0 <= i < chain.len() ==> (#[trigger] chain[i]) < n,
        chain.len() >= n,
        next < n,
    ensures
        chain.contains(next),
{
    if !chain.contains(next) {
        let longer = chain.push(next);
        assert forall|i: int, j: int|
            0 <= i < longer.len() && 0 <= j < longer.len() && i != j implies longer[i]
            != longer[j] by {
            if i < chain.len() && j < chain.len() {
                assert(longer[i] == chain[i] && longer[j] == chain[j]);
            } else if i < chain.len() {
                assert(longer[i] == chain[i]);
                assert(chain.contains(chain[i]));
            } else {
                assert(longer[j] == chain[j]);
                assert(chain.contains(chain[j]));
            }
        }
        assert forall|i: int| 0 <= i < longer.len() implies (#[trigger] longer[i]) < n by {
            if i < chain.len() {
                assert(longer[i] == chain[i]);
            }
        }
        lemma_distinct_bounded(longer, n);
    }
}

/// The walk along picked edges from `start`, a node that was not walked
/// before.
pub fn walk_chain(table: &Vec<(i32, Option<usize>)>, used: &mut Vec<bool>, start: usize) -> (out: (
    Vec<usize>,
    usize,
))
    requires
        start < table@.len(),
        old(used)@.len() == table@.len(),
        !old(used)@[start as int],
        forall|t: int|
            0 <= t < table@.len() ==> ((#[trigger] table@[t]).1 matches Some(f) ==> f
                < table@.len()),
    ensures
        (out.0@, out.1, final(used)@) == walk(table@, old(used)@, start, Seq::empty()),
        out.1 < table@.len(),
        out.0@.len() > 0,
        out.0@[0] == start,
        marks_chain(old(used)@, out.0@, final(used)@),
{
    let ghost before = used@;
    let n = table.len();
    let mut chain: Vec<usize> = Vec::new();
    let mut cur: usize = start;
    loop
        invariant
            n == table@.len(),
            before == old(used)@,
            before.len() == n,
            used@.len() == n,
            cur < n,
            !used@[cur as int],
            !before[cur as int],
            forall|t: int| 0 <= t < n ==> ((#[trigger] table@[t]).1 matches Some(f) ==> f < n),
            marks_chain(before, chain@, used@),
            chain@.len() == 0 ==> cur == start,
            chain@.len() > 0 ==> chain@[0] == start,
            walk(table@, before, start, Seq::empty()) == walk(table@, used@, cur, chain@),
        decreases n - chain@.len(),
    {
        let ghost walked = chain@;
        let ghost marks = used@;
        chain.push(cur);
        used.set(cur, true);
        proof {
            assert forall|i: int, j: int|
                0 <= i < chain@.len() && 0 <= j < chain@.len() && i != j implies chain@[i]
                != chain@[j] by {
                if i < walked.len() && j < walked.len() {
                    assert(chain@[i] == walked[i] && chain@[j] == walked[j]);
                } else if i < walked.len() {
                    assert(chain@[i] == walked[i]);
                    assert(walked.contains(walked[i]));
                } else {
                    assert(chain@[j] == walked[j]);
                    assert(walked.contains(walked[j]));
                }
            }
            assert forall|i: int| 0 <= i < chain@.len() implies (#[trigger] chain@[i]) < n
                && !before[chain@[i] as int] by {
                if i < walked.len() {
                    assert(chain@[i] == walked[i]);
                }
            }
            assert forall|x: int| 0 <= x < n implies (#[trigger] used@[x]) == (before[x]
                || chain@.contains(x as usize)) by {
                if x == cur {
                    assert(chain@[walked.len() as int] == cur);
                } else {
                    if walked.contains(x as usize) {
                        let i = choose|i: int| 0 <= i < walked.len() && walked[i] == x as usize;
                        assert(chain@[i] == x as usize);
                    }
                    if chain@.contains(x as usize) {
                        let i = choose|i: int| 0 <= i < chain@.len() && chain@[i] == x as usize;
                        assert(walked[i] == x as usize);
                    }
                }
            }
            lemma_distinct_bounded(chain@, n as nat);
        }
        match table[cur].1 {
            None => {
                return (chain, cur);
            },
            Some(next) => {
                if used[next] {
                    return (chain, next);
                }
                proof {
                    if chain@.len() >= n {
                        lemma_full_chain(chain@, n as nat, next);
                    }
                }
                cur = next;
            },
        }
    }
}

/// Numbers the nodes of `chain`, a walk that stopped at `stop`, from group
/// `cnt` on, and returns the number of groups afterwards.
pub fn label_chain(
    chain: &Vec<usize>,
    stop: usize,
    group: &mut Vec<usize>,
    comp: &mut Vec<bool>,
    cnt: usize,
) -> (after: usize)
    requires
        old(group)@.len() == old(comp)@.len(),
        forall|i: int| 0 <= i < chain@.len() ==> (#[trigger] chain@[i]) < old(group)@.len(),
        cnt + chain@.len() <= old(group)@.len(),
    ensures
        (final(group)@, final(comp)@, after) == label(
            chain@,
            stop,
            0,
            old(group)@,
            old(comp)@,
            cnt,
            false,
        ),
        final(group)@.len() == old(group)@.len(),
        final(comp)@.len() == old(comp)@.len(),
        cnt <= after <= cnt + chain@.len(),
        chain@.len() > 0 ==> after > cnt,
        forall|i: int| 0 <= i < chain@.len() ==> final(group)@[#[trigger] chain@[i] as int] < after,
        forall|x: int|
            0 <= x < old(group)@.len() && !chain@.contains(x as usize) ==> #[trigger] final(
                group
            )@[x] == old(group)@[x],
{
    let ghost group0 = group@;
    let ghost comp0 = comp@;
    let n = group.len();
    let mut now: usize = cnt;
    let mut cycle = false;
    let mut k: usize = 0;
    while k < chain.len()
        invariant
            k <= chain@.len(),
            n == group@.len(),
            n == comp@.len(),
            n == group0.len(),
            forall|i: int| 0 <= i < chain@.len() ==> (#[trigger] chain@[i]) < n,
            cnt + chain@.len() <= n,
            cnt <= now,
            now + (chain@.len() - k) + (if cycle {
                1int
            } else {
                0int
            }) <= cnt + chain@.len(),
            k > 0 ==> now + (if cycle {
                1int
            } else {
                0int
            }) > cnt,
            label(chain@, stop, 0, group0, comp0, cnt, false) == label(
                chain@,
                stop,
                k as int,
                group@,
                comp@,
                now,
                cycle,
            ),
            forall|i: int| 0 <= i < k ==> group@[#[trigger] chain@[i] as int] < now + (if cycle {
                1int
            } else {
                0int
            }),
            forall|x: int|
                0 <= x < n && !chain@.take(k as int).contains(x as usize) ==> #[trigger] group@[x]
                    == group0[x],
        decreases chain@.len() - k,
    {
        let node = chain[k];
        let ghost was = group@;
        group.set(node, now);
        if node == stop {
            cycle = true;
            comp.set(now, true);
        }
        let ghost named = now;
        if !cycle {
            now += 1;
        }
        proof {
            let bound = now + (if cycle {
                1int
            } else {
                0int
            });
            assert forall|i: int| 0 <= i < k + 1 implies group@[#[trigger] chain@[i] as int]
                < bound by {
                if chain@[i] != node {
                    assert(group@[chain@[i] as int] == was[chain@[i] as int]);
                }
            }
            assert forall|x: int|
                0 <= x < n && !chain@.take(k + 1).contains(x as usize) implies #[trigger] group@[x]
                == group0[x] by {
                assert(chain@.take(k + 1)[k as int] == node);
                if chain@.take(k as int).contains(x as usize) {
                    let i = choose|i: int|
                        0 <= i < k && chain@.take(k as int)[i] == x as usize;
                    assert(chain@.take(k + 1)[i] == x as usize);
                }
            }
        }
        k += 1;
    }
    proof {
        assert(chain@.take(chain@.len() as int) =~= chain@);
    }
    if cycle {
        now += 1;
    }
    now
}

/// The groups of the nodes as `grouped` gives them are in order: every node
/// that was walked has a group below the number of groups, and there are no
/// more groups than nodes that were walked.
pub open spec fn groups_wf(
    n: nat,
    group: Seq<usize>,
    comp: Seq<bool>,
    cnt: usize,
    used: Seq<bool>,
    walked: Seq<usize>,
) -> bool {
    &&& group.len() == n
    &&& comp.len() == n
    &&& used.len() == n
    &&& walked.no_duplicates()
    &&& forall|i: int| 0 <= i < walked.len() ==> (#[trigger] walked[i]) < n
    &&& forall|x: int| 0 <= x < n ==> (#[trigger] used[x]) == walked.contains(x as usize)
    &&& cnt <= walked.len()
    &&& forall|x: int| 0 <= x < n && used[x] ==> (#[trigger] group[x]) < cnt
}

/// The groups of all nodes: for every node its group, for every group
/// whether it is marked, and the number of groups.
pub fn group_nodes(table: &Vec<(i32, Option<usize>)>) -> (out: (Vec<usize>, Vec<bool>, usize))
    requires
        forall|t: int|
            0 <= t < table@.len() ==> ((#[trigger] table@[t]).1 matches Some(f) ==> f
                < table@.len()),
    ensures
        out.0@ == grouped(table@, table@.len() as int).0,
        out.1@ == grouped(table@, table@.len() as int).1,
        out.2 == grouped(table@, table@.len() as int).2,
        out.0@.len() == table@.len(),
        out.1@.len() == table@.len(),
        out.2 <= table@.len(),
        forall|x: int| 0 <= x < table@.len() ==> (#[trigger] out.0@[x]) < out.2,
{
    let n = table.len();
    let mut group: Vec<usize> = Vec::new();
    let mut comp: Vec<bool> = Vec::new();
    let mut used: Vec<bool> = Vec::new();
    let mut i: usize = 0;
    while i < n
        invariant
            i <= n,
            group@ == Seq::new(i as nat, |v: int| 0usize),
            comp@ == Seq::new(i as nat, |v: int| false),
            used@ == Seq::new(i as nat, |v: int| false),
        decreases n - i,
    {
        group.push(0);
        comp.push(false);
        used.push(false);
        proof {
            assert(group@ =~= Seq::new((i + 1) as nat, |v: int| 0usize));
            assert(comp@ =~= Seq::new((i + 1) as nat, |v: int| false));
            assert(used@ =~= Seq::new((i + 1) as nat, |v: int| false));
        }
        i += 1;
    }
    let mut cnt: usize = 0;
    let ghost mut walked: Seq<usize> = Seq::empty();
    let mut v: usize = 0;
    while v < n
        invariant
            v <= n,
            n == table@.len(),
            forall|t: int| 0 <= t < n ==> ((#[trigger] table@[t]).1 matches Some(f) ==> f < n),
            groups_wf(n as nat, group@, comp@, cnt, used@, walked),
            forall|x: int| 0 <= x < v ==> #[trigger] used@[x],
            (group@, comp@, cnt, used@) == grouped(table@, v as int),
        decreases n - v,
    {
        if !used[v] {
            let ghost before = used@;
            let ghost seen = walked;
            let (chain, stop) = walk_chain(table, &mut used, v);
            proof {
                walked = seen.add(chain@);
                assert forall|i: int, j: int|
                    0 <= i < walked.len() && 0 <= j < walked.len() && i != j implies walked[i]
                    != walked[j] by {
                    if i < seen.len() && j < seen.len() {
                        assert(walked[i] == seen[i] && walked[j] == seen[j]);
                    } else if i >= seen.len() && j >= seen.len() {
                        assert(walked[i] == chain@[i - seen.len()]);
                        assert(walked[j] == chain@[j - seen.len()]);
                    } else {
                        let (lo, hi) = if i < j {
                            (i, j)
                        } else {
                            (j, i)
                        };
                        assert(walked[lo] == seen[lo]);
                        assert(seen.contains(seen[lo]));
                        assert(before[seen[lo] as int]);
                        assert(walked[hi] == chain@[hi - seen.len()]);
                        assert(!before[chain@[hi - seen.len()] as int]);
                    }
                }
                assert forall|i: int| 0 <= i < walked.len() implies (#[trigger] walked[i]) < n by {
                    if i < seen.len() {
                        assert(walked[i] == seen[i]);
                    } else {
                        assert(walked[i] == chain@[i - seen.len()]);
                    }
                }
                assert forall|x: int| 0 <= x < n implies (#[trigger] used@[x]) == walked.contains(
                    x as usize,
                ) by {
                    if seen.contains(x as usize) {
                        let i = choose|i: int| 0 <= i < seen.len() && seen[i] == x as usize;
                        assert(walked[i] == x as usize);
                    }
                    if chain@.contains(x as usize) {
                        let i = choose|i: int| 0 <= i < chain@.len() && chain@[i] == x as usize;
                        assert(walked[seen.len() + i] == x as usize);
                    }
                    if walked.contains(x as usize) {
                        let i = choose|i: int| 0 <= i < walked.len() && walked[i] == x as usize;
                        if i < seen.len() {
                            assert(seen[i] == x as usize);
                        } else {
                            assert(chain@[i - seen.len()] == x as usize);
                        }
                    }
                }
                lemma_distinct_bounded(walked, n as nat);
            }
            let ghost labels = group@;
            cnt = label_chain(&chain, stop, &mut group, &mut comp, cnt);
            proof {
                assert forall|x: int| 0 <= x < n && used@[x] implies (#[trigger] group@[x])
                    < cnt by {
                    if chain@.contains(x as usize) {
                        let i = choose|i: int| 0 <= i < chain@.len() && chain@[i] == x as usize;
                        assert(group@[chain@[i] as int] < cnt);
                    } else {
                        assert(group@[x] == labels[x]);
                        assert(before[x]);
                    }
                }
                assert(chain@.contains(chain@[0]));
            }
        }
        v += 1;
    }
    proof {
        lemma_distinct_bounded(walked, n as nat);
    }
    (group, comp, cnt)
}

/// Whether `edges` lie between the nodes `0..n`, of which `root` is one, and
/// the nodes can be counted in an `i32`.
pub fn is_chu_liu_input(n: usize, edges: &Vec<(usize, usize, i32)>, root: usize) -> (ok: bool)
    ensures
        ok == chu_liu_input(n as nat, edges@, root),
{
    if root >= n || n > i32::MAX as usize {
        return false;
    }
    let mut i: usize = 0;
    while i < edges.len()
        invariant
            i <= edges@.len(),
            forall|e: int| 0 <= e < i ==> (#[trigger] edges@[e]).0 < n && edges@[e].1 < n,
        decreases edges@.len() - i,
    {
        if edges[i].0 >= n || edges[i].1 >= n {
            return false;
        }
        i += 1;
    }
    true
}

/// The cost of the cheapest branching, where it can be computed in `i32`:
/// `None` if a sum or a difference on the way does not fit.
fn contract_cost(n: usize, edges: Vec<(usize, usize, i32)>, root: usize) -> (cost: Option<i32>)
    requires
        chu_liu_input(n as nat, edges@, root),
    ensures
        cost is Some <==> chu_liu_fits(n as nat, edges@, root),
        cost matches Some(c) ==> c == chu_liu_cost(n as nat, edges@, root),
    decreases n,
{
    let table = pick_edges(n, &edges, root);
    let (group, comp, cnt) = group_nodes(&table);
    if cnt == n {
        let mut total: i64 = 0;
        let mut v: usize = 0;
        while v < n
            invariant
                v <= n,
                n == table@.len(),
                cnt == n,
                table@ == picks(n as nat, edges@, root),
                group@ == grouped(table@, n as int).0,
                comp@ == grouped(table@, n as int).1,
                cnt == grouped(table@, n as int).2,
                total == picked_total(table@, v as int),
                forall|k: int| 0 <= k <= v ==> fits_i32(#[trigger] picked_total(table@, k)),
            decreases n - v,
        {
            total = total + table[v].0 as i64;
            if total < i32::MIN as i64 || total > i32::MAX as i64 {
                proof {
                    assert(!fits_i32(picked_total(table@, v + 1)));
                }
                return None;
            }
            v += 1;
        }
        if total + 1 > i32::MAX as i64 {
            return None;
        }
        return Some((total + 1) as i32);
    }
    let mut inside: i64 = 0;
    let mut v: usize = 0;
    while v < n
        invariant
            v <= n,
            n == table@.len(),
            n == group@.len(),
            n == comp@.len(),
            cnt != n,
            table@ == picks(n as nat, edges@, root),
            group@ == grouped(table@, n as int).0,
            comp@ == grouped(table@, n as int).1,
            cnt == grouped(table@, n as int).2,
            forall|x: int| 0 <= x < n ==> (#[trigger] group@[x]) < cnt,
            cnt <= n,
            inside == marked_total(table@, group@, comp@, root, v as int),
            forall|k: int|
                0 <= k <= v ==> fits_i32(
                    #[trigger] marked_total(table@, group@, comp@, root, k),
                ),
        decreases n - v,
    {
        if v != root && comp[group[v]] {
            inside = inside + table[v].0 as i64;
        }
        if inside < i32::MIN as i64 || inside > i32::MAX as i64 {
            proof {
                assert(!fits_i32(marked_total(table@, group@, comp@, root, v + 1)));
            }
            return None;
        }
        v += 1;
    }
    let mut rest: Vec<(usize, usize, i32)> = Vec::new();
    let mut i: usize = 0;
    while i < edges.len()
        invariant
            i <= edges@.len(),
            n == table@.len(),
            n == group@.len(),
            n == comp@.len(),
            cnt != n,
            table@ == picks(n as nat, edges@, root),
            group@ == grouped(table@, n as int).0,
            comp@ == grouped(table@, n as int).1,
            cnt == grouped(table@, n as int).2,
            cnt <= n,
            forall|x: int| 0 <= x < n ==> (#[trigger] group@[x]) < cnt,
            chu_liu_input(n as nat, edges@, root),
            forall|e: int|
                0 <= e < i && group@[edges@[e].0 as int] != group@[edges@[e].1 as int]
                    ==> fits_i32(
                    #[trigger] new_weight(table@, group@, comp@, edges@[e].1, edges@[e].2),
                ),
            rest@ == contracted(edges@, table@, group@, comp@, i as int),
            forall|e: int|
                0 <= e < rest@.len() ==> (#[trigger] rest@[e]).0 < cnt && rest@[e].1 < cnt,
        decreases edges@.len() - i,
    {
        let edge = edges[i];
        let from = group[edge.0];
        let to = group[edge.1];
        if from != to {
            let weight: i64 = if comp[to] {
                edge.2 as i64 - table[edge.1].0 as i64
            } else {
                edge.2 as i64
            };
            if weight < i32::MIN as i64 || weight > i32::MAX as i64 {
                proof {
                    assert(!fits_i32(
                        new_weight(table@, group@, comp@, edges@[i as int].1, edges@[i as int].2),
                    ));
                }
                return None;
            }
            let ghost before = rest@;
            rest.push((from, to, weight as i32));
            proof {
                assert forall|e: int| 0 <= e < rest@.len() implies (#[trigger] rest@[e]).0 < cnt
                    && rest@[e].1 < cnt by {
                    if e < before.len() {
                        assert(rest@[e] == before[e]);
                    }
                }
            }
        }
        i += 1;
    }
    match contract_cost(cnt, rest, group[root]) {
        None => None,
        Some(below) => {
            let sum = inside + below as i64;
            if sum < i32::MIN as i64 || sum > i32::MAX as i64 {
                None
            } else {
                Some(sum as i32)
            }
        },
    }
}

/// The cost of the cheapest branching of the graph on the nodes `0..n` with
/// the weighted edges `edges`, as the contraction from `root` arrives at it;
/// `None` where the edges do not lie between the nodes, `root` is no node, or
/// a sum or a difference on the way cannot be held in an `i32`.
pub fn try_chu_liu_edmond(n: usize, edges: Vec<(usize, usize, i32)>, root: usize) -> (cost: Option<
    i32,
>)
    ensures
        cost is Some <==> chu_liu_input(n as nat, edges@, root) && chu_liu_fits(
            n as nat,
            edges@,
            root,
        ),
        cost matches Some(c) ==> c == chu_liu_cost(n as nat, edges@, root),
{
    if is_chu_liu_input(n, &edges, root) {
        contract_cost(n, edges, root)
    } else {
        None
    }
}

/// The cost of the cheapest branching of the graph on the nodes `0..n` with
/// the weighted edges `edges`, as the contraction from `root` arrives at it.
pub fn chu_liu_edmond(n: usize, edges: Vec<(usize, usize, i32)>, root: usize) -> (cost: i32)
    requires
        chu_liu_input(n as nat, edges@, root),
        chu_liu_fits(n as nat, edges@, root),
    ensures
        cost == chu_liu_cost(n as nat, edges@, root),
{
    contract_cost(n, edges, root).unwrap()
}

} // verus!
