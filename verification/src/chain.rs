//! Extraction of one simple cycle from a set of nodes in which every node has a
//! successor: walk from the first node of the set, always to the first successor
//! that belongs to the set and was not walked yet; where there is none, the
//! first successor in the set closes the cycle, and what was walked before that
//! successor is cut off.

use crate::adjacency::{closed_rows, has_edge, lemma_position, position};
use crate::graph::LinkGraph;
use crate::link_model::lemma_wf_closed_rows;
use vstd::prelude::*;

verus! {

/// The first entry of `row` that is among `members` and not among `walked`.
pub open spec fn first_fresh(row: Seq<usize>, members: Seq<usize>, walked: Seq<usize>) -> Option<
    usize,
>
    decreases row.len(),
{
    if row.len() == 0 {
        None
    } else if members.contains(row[0]) && !walked.contains(row[0]) {
        Some(row[0])
    } else {
        first_fresh(row.drop_first(), members, walked)
    }
}

/// The first entry of `row` that is among `members`.
pub open spec fn first_member(row: Seq<usize>, members: Seq<usize>) -> Option<usize> {
    first_fresh(row, members, Seq::empty())
}

/// Every one of `members` is a node and has a successor among `members`.
pub open spec fn stays_inside(succ: Seq<Seq<usize>>, members: Seq<usize>) -> bool {
    forall|a: int|
        0 <= a < members.len() ==> (#[trigger] members[a]) < succ.len() && first_member(
            succ[members[a] as int],
            members,
        ) is Some
}

/// The walk that has passed `walked` and stands at `curr`, carried on to its
/// end, and the cycle cut out of it. The bound on the length of the walk makes
/// the definition well-founded; on a graph whose successors are nodes a walk
/// without repetition never reaches it.
pub open spec fn grow_chain(
    succ: Seq<Seq<usize>>,
    members: Seq<usize>,
    walked: Seq<usize>,
    curr: usize,
) -> Seq<usize>
    decreases succ.len() - walked.len(),
{
    let trail = walked.push(curr);
    let next = first_fresh(succ[curr as int], members, trail);
    if next is Some && trail.len() < succ.len() {
        grow_chain(succ, members, trail, next->0)
    } else {
        match first_member(succ[curr as int], members) {
            Some(start) => trail.skip(position(trail, start)),
            None => trail,
        }
    }
}

/// The cycle chain of `members`: the walk starts at the first of them.
pub open spec fn cycle_chain(succ: Seq<Seq<usize>>, members: Seq<usize>) -> Seq<usize> {
    grow_chain(succ, members, Seq::empty(), members[0])
}

/// `chain` is a simple cycle among `members`: its nodes are different members,
/// each is followed by one of its successors, and the first node is a successor
/// of the last.
pub open spec fn is_cycle_chain(succ: Seq<Seq<usize>>, members: Seq<usize>, chain: Seq<usize>) -> bool {
    &&& chain.len() > 0
    &&& chain.no_duplicates()
    &&& forall|i: int| 0 <= i < chain.len() ==> members.contains(#[trigger] chain[i])
    &&& forall|i: int| 0 <= i < chain.len() - 1 ==> has_edge(succ, #[trigger] chain[i], chain[i + 1])
    &&& has_edge(succ, chain.last(), chain.first())
}

/// What `first_fresh` finds is a fresh member of the row, and it finds one if
/// the row has any.
pub proof fn lemma_first_fresh(row: Seq<usize>, members: Seq<usize>, walked: Seq<usize>)
    ensures
        match first_fresh(row, members, walked) {
            Some(v) => row.contains(v) && members.contains(v) && !walked.contains(v),
            None => forall|k: int|
                0 <= k < row.len() ==> !(members.contains(#[trigger] row[k]) && !walked.contains(
                    row[k],
                )),
        },
    decreases row.len(),
{
    if row.len() == 0 {
    } else if members.contains(row[0]) && !walked.contains(row[0]) {
    } else {
        let rest = row.drop_first();
        lemma_first_fresh(rest, members, walked);
        match first_fresh(rest, members, walked) {
            Some(v) => {
                let k = choose|k: int| 0 <= k < rest.len() && rest[k] == v;
                assert(row[k + 1] == v);
            },
            None => {
                assert forall|k: int| 0 <= k < row.len() implies !(members.contains(
                    #[trigger] row[k],
                ) && !walked.contains(row[k])) by {
                    if k > 0 {
                        assert(row[k] == rest[k - 1]);
                    }
                }
            },
        }
    }
}

/// Different numbers below `n` are at most `n` many.
pub proof fn lemma_distinct_bounded(s: Seq<usize>, n: nat)
    requires
        s.no_duplicates(),
        forall|i: int| 0 <= i < s.len() ==> (#[trigger] s[i]) < n,
    ensures
        s.len() <= n,
    decreases n,
{
    if n == 0 {
        if s.len() > 0 {
            assert(s[0] < n);
        }
    } else {
        let top = (n - 1) as usize;
        if s.contains(top) {
            let k = choose|k: int| 0 <= k < s.len() && s[k] == top;
            let t = s.remove(k);
            assert forall|i: int| 0 <= i < t.len() implies (#[trigger] t[i]) < (n - 1) as nat by {
                let i0 = if i < k {
                    i
                } else {
                    i + 1
                };
                assert(t[i] == s[i0]);
                assert(s[i0] < n);
            }
            assert forall|i: int, j: int| 0 <= i < t.len() && 0 <= j < t.len() && i != j implies t[i]
                != t[j] by {
                let i0 = if i < k {
                    i
                } else {
                    i + 1
                };
                let j0 = if j < k {
                    j
                } else {
                    j + 1
                };
                assert(t[i] == s[i0] && t[j] == s[j0]);
            }
            lemma_distinct_bounded(t, (n - 1) as nat);
        } else {
            assert forall|i: int| 0 <= i < s.len() implies (#[trigger] s[i]) < (n - 1) as nat by {
                assert(s[i] < n);
                assert(s.contains(s[i]));
            }
            lemma_distinct_bounded(s, (n - 1) as nat);
        }
    }
}

/// A table over the nodes `0..n` that marks those among `members`.
pub fn member_table(n: usize, members: &Vec<usize>) -> (table: Vec<bool>)
    requires
        forall|a: int| 0 <= a < members@.len() ==> (#[trigger] members@[a]) < n,
    ensures
        table@.len() == n,
        forall|v: usize| v < n ==> table@[v as int] == members@.contains(v),
{
    let mut table: Vec<bool> = Vec::new();
    let mut i: usize = 0;
    while i < n
        invariant
            i <= n,
            table@.len() == i,
            forall|v: int| 0 <= v < i ==> !(#[trigger] table@[v]),
        decreases n - i,
    {
        table.push(false);
        i += 1;
    }
    let mut a: usize = 0;
    while a < members.len()
        invariant
            a <= members@.len(),
            table@.len() == n,
            forall|b: int| 0 <= b < members@.len() ==> (#[trigger] members@[b]) < n,
            forall|v: usize|
                v < n ==> (#[trigger] table@[v as int]) == members@.take(a as int).contains(v),
        decreases members@.len() - a,
    {
        let m = members[a];
        table.set(m, true);
        proof {
            let before = members@.take(a as int);
            let after = members@.take(a + 1);
            assert(after =~= before.push(m));
            assert forall|v: usize| v < n implies (#[trigger] table@[v as int]) == after.contains(
                v,
            ) by {
                if v == m {
                    assert(after[a as int] == m);
                } else {
                    if before.contains(v) {
                        let k = choose|k: int| 0 <= k < before.len() && before[k] == v;
                        assert(after[k] == v);
                    }
                    if after.contains(v) {
                        let k = choose|k: int| 0 <= k < after.len() && after[k] == v;
                        assert(before[k] == v);
                    }
                }
            }
        }
        a += 1;
    }
    proof {
        assert(members@.take(members@.len() as int) =~= members@);
    }
    table
}

/// The first entry of `row` that `wanted` marks and `barred` does not.
fn scan_row(
    row: &Vec<usize>,
    wanted: &Vec<bool>,
    barred: &Vec<bool>,
    Ghost(members): Ghost<Seq<usize>>,
    Ghost(walked): Ghost<Seq<usize>>,
) -> (found: Option<usize>)
    requires
        wanted@.len() == barred@.len(),
        forall|k: int| 0 <= k < row@.len() ==> (#[trigger] row@[k]) < wanted@.len(),
        forall|v: usize| v < wanted@.len() ==> wanted@[v as int] == members.contains(v),
        forall|v: usize| v < barred@.len() ==> barred@[v as int] == walked.contains(v),
    ensures
        found == first_fresh(row@, members, walked),
{
    let mut k: usize = 0;
    proof {
        assert(row@.skip(0) =~= row@);
    }
    while k < row.len()
        invariant
            k <= row@.len(),
            wanted@.len() == barred@.len(),
            forall|j: int| 0 <= j < row@.len() ==> (#[trigger] row@[j]) < wanted@.len(),
            forall|v: usize| v < wanted@.len() ==> wanted@[v as int] == members.contains(v),
            forall|v: usize| v < barred@.len() ==> barred@[v as int] == walked.contains(v),
            first_fresh(row@, members, walked) == first_fresh(
                row@.skip(k as int),
                members,
                walked,
            ),
        decreases row@.len() - k,
    {
        let v = row[k];
        proof {
            assert(row@.skip(k as int)[0] == v);
            assert(row@.skip(k as int).drop_first() =~= row@.skip(k + 1));
        }
        if wanted[v] && !barred[v] {
            return Some(v);
        }
        k += 1;
    }
    proof {
        assert(row@.skip(k as int).len() == 0);
    }
    None
}

/// Whether `set` can be handed to `get_cycle_chain`: it is not empty, and each
/// of its nodes is a node of `graph` with a successor in `set`.
pub fn has_successors_inside<N, E>(graph: &LinkGraph<N, E>, set: &Vec<usize>) -> (ok: bool)
    requires
        graph.wf(),
    ensures
        ok == (set@.len() > 0 && stays_inside(graph.succ(), set@)),
{
    let ghost succ = graph.succ();
    let n = graph.node_count();
    if set.len() == 0 {
        return false;
    }
    let mut a: usize = 0;
    while a < set.len()
        invariant
            a <= set@.len(),
            succ == graph.succ(),
            n == succ.len(),
            forall|b: int| 0 <= b < a ==> (#[trigger] set@[b]) < n,
        decreases set@.len() - a,
    {
        if set[a] >= n {
            proof {
                assert(set@[a as int] >= succ.len());
            }
            return false;
        }
        a += 1;
    }
    proof {
        lemma_wf_closed_rows(graph.ends(), graph.order());
    }
    let in_set = member_table(n, set);
    let none: Vec<usize> = Vec::new();
    let no_one = member_table(n, &none);
    proof {
        assert(none@ =~= Seq::<usize>::empty());
    }
    let mut a: usize = 0;
    while a < set.len()
        invariant
            graph.wf(),
            succ == graph.succ(),
            closed_rows(succ),
            a <= set@.len(),
            n == succ.len(),
            forall|b: int| 0 <= b < set@.len() ==> (#[trigger] set@[b]) < n,
            in_set@.len() == n,
            forall|v: usize| v < n ==> in_set@[v as int] == set@.contains(v),
            no_one@.len() == n,
            forall|v: usize| v < n ==> no_one@[v as int] == Seq::<usize>::empty().contains(v),
            forall|b: int|
                0 <= b < a ==> first_member(succ[#[trigger] set@[b] as int], set@) is Some,
        decreases set@.len() - a,
    {
        let row = graph.successors(set[a]);
        let found = scan_row(&row, &in_set, &no_one, Ghost(set@), Ghost(Seq::empty()));
        if found.is_none() {
            proof {
                assert(first_member(succ[set@[a as int] as int], set@) is None);
            }
            return false;
        }
        a += 1;
    }
    true
}

/// `trail` is a walk among `members` that passes no node twice.
pub open spec fn is_trail(succ: Seq<Seq<usize>>, members: Seq<usize>, trail: Seq<usize>) -> bool {
    &&& trail.no_duplicates()
    &&& forall|i: int| 0 <= i < trail.len() ==> (#[trigger] trail[i]) < succ.len()
    &&& forall|i: int| 0 <= i < trail.len() ==> members.contains(#[trigger] trail[i])
    &&& forall|i: int| 0 <= i < trail.len() - 1 ==> has_edge(succ, #[trigger] trail[i], trail[i + 1])
}

/// A walk stays one when it moves on to a new member that follows its last node.
pub proof fn lemma_trail_push(
    succ: Seq<Seq<usize>>,
    members: Seq<usize>,
    walked: Seq<usize>,
    curr: usize,
)
    requires
        is_trail(succ, members, walked),
        curr < succ.len(),
        members.contains(curr),
        !walked.contains(curr),
        walked.len() > 0 ==> has_edge(succ, walked.last(), curr),
    ensures
        is_trail(succ, members, walked.push(curr)),
        walked.push(curr).len() <= succ.len(),
        forall|v: usize| walked.push(curr).contains(v) <==> (v == curr || walked.contains(v)),
{
    let trail = walked.push(curr);
    assert forall|i: int, j: int| 0 <= i < trail.len() && 0 <= j < trail.len() && i != j implies trail[i]
        != trail[j] by {
        if i < walked.len() {
            assert(trail[i] == walked[i]);
        }
        if j < walked.len() {
            assert(trail[j] == walked[j]);
        }
    }
    assert forall|i: int| 0 <= i < trail.len() - 1 implies has_edge(
        succ,
        #[trigger] trail[i],
        trail[i + 1],
    ) by {
        if i < walked.len() - 1 {
            assert(trail[i] == walked[i] && trail[i + 1] == walked[i + 1]);
        } else {
            assert(trail[i] == walked.last());
        }
    }
    assert forall|i: int| 0 <= i < trail.len() implies members.contains(#[trigger] trail[i]) by {
        if i < walked.len() {
            assert(trail[i] == walked[i]);
        }
    }
    assert forall|i: int| 0 <= i < trail.len() implies (#[trigger] trail[i]) < succ.len() by {
        if i < walked.len() {
            assert(trail[i] == walked[i]);
        }
    }
    assert forall|v: usize| trail.contains(v) <==> (v == curr || walked.contains(v)) by {
        if v == curr {
            assert(trail[walked.len() as int] == curr);
        }
        if walked.contains(v) {
            let k = choose|k: int| 0 <= k < walked.len() && walked[k] == v;
            assert(trail[k] == v);
        }
        if trail.contains(v) && v != curr {
            let k = choose|k: int| 0 <= k < trail.len() && trail[k] == v;
            assert(walked[k] == v);
        }
    }
    lemma_distinct_bounded(trail, succ.len());
}

/// Where the last node of a walk has a successor on the walk, the walk from
/// that successor on is a cycle.
pub proof fn lemma_suffix_is_cycle(
    succ: Seq<Seq<usize>>,
    members: Seq<usize>,
    trail: Seq<usize>,
    start: usize,
)
    requires
        is_trail(succ, members, trail),
        trail.len() > 0,
        trail.contains(start),
        has_edge(succ, trail.last(), start),
    ensures
        is_cycle_chain(succ, members, trail.skip(position(trail, start))),
{
    lemma_position(trail, start);
    let index = position(trail, start);
    let chain = trail.skip(index);
    assert forall|i: int| 0 <= i < chain.len() implies members.contains(#[trigger] chain[i]) by {
        assert(chain[i] == trail[index + i]);
    }
    assert forall|i: int| 0 <= i < chain.len() - 1 implies has_edge(
        succ,
        #[trigger] chain[i],
        chain[i + 1],
    ) by {
        assert(chain[i] == trail[index + i]);
        assert(chain[i + 1] == trail[index + i + 1]);
    }
    assert forall|i: int, j: int| 0 <= i < chain.len() && 0 <= j < chain.len() && i != j implies chain[i]
        != chain[j] by {
        assert(chain[i] == trail[index + i]);
        assert(chain[j] == trail[index + j]);
    }
    assert(chain.last() == trail.last());
    assert(chain.first() == start);
}

/// The part of `trail` from the first `start` on.
fn trail_from(trail: &Vec<usize>, start: usize) -> (chain: Vec<usize>)
    requires
        trail@.contains(start),
    ensures
        chain@ == trail@.skip(position(trail@, start)),
{
    let len = trail.len();
    let mut index: usize = 0;
    while trail[index] != start
        invariant
            len == trail@.len(),
            0 <= index < trail@.len(),
            trail@.contains(start),
            forall|j: int| 0 <= j < index ==> trail@[j] != start,
        decreases trail@.len() - index,
    {
        proof {
            let k = choose|k: int| 0 <= k < trail@.len() && trail@[k] == start;
            assert(k > index);
        }
        index += 1;
    }
    proof {
        lemma_position(trail@, start);
        assert(position(trail@, start) == index);
    }
    let mut chain: Vec<usize> = Vec::new();
    let mut i: usize = index;
    while i < trail.len()
        invariant
            index <= i <= trail@.len(),
            chain@ == trail@.subrange(index as int, i as int),
        decreases trail@.len() - i,
    {
        chain.push(trail[i]);
        proof {
            assert(chain@ =~= trail@.subrange(index as int, i + 1));
        }
        i += 1;
    }
    proof {
        assert(chain@ =~= trail@.skip(index as int));
    }
    chain
}

/// The cycle chain of `cycle_set` in `graph`.
///
/// `cycle_set` is a set of nodes each of which has a successor in the set, as
/// every strongly connected component of two or more nodes is. The walk starts
/// at the first node of `cycle_set`, and ties between successors are broken by
/// the enumeration order of the graph.
pub fn get_cycle_chain<N, E>(graph: &LinkGraph<N, E>, cycle_set: &Vec<usize>) -> (chain: Vec<usize>)
    requires
        graph.wf(),
        cycle_set@.len() > 0,
        stays_inside(graph.succ(), cycle_set@),
    ensures
        chain@ == cycle_chain(graph.succ(), cycle_set@),
        is_cycle_chain(graph.succ(), cycle_set@, chain@),
{
    let ghost succ = graph.succ();
    let ghost members = cycle_set@;
    let n = graph.node_count();
    proof {
        lemma_wf_closed_rows(graph.ends(), graph.order());
    }
    let in_set = member_table(n, cycle_set);
    let none: Vec<usize> = Vec::new();
    let no_one = member_table(n, &none);
    let mut visited = member_table(n, &none);
    let mut trail: Vec<usize> = Vec::new();
    let mut curr: usize = cycle_set[0];
    proof {
        assert(members[0] == curr);
        assert(members.contains(curr));
        assert(none@ =~= Seq::<usize>::empty());
    }
    loop
        invariant
            graph.wf(),
            succ == graph.succ(),
            members == cycle_set@,
            n == succ.len(),
            closed_rows(succ),
            stays_inside(succ, members),
            in_set@.len() == n,
            forall|v: usize| v < n ==> in_set@[v as int] == members.contains(v),
            no_one@.len() == n,
            forall|v: usize| v < n ==> no_one@[v as int] == Seq::<usize>::empty().contains(v),
            visited@.len() == n,
            forall|v: usize| v < n ==> visited@[v as int] == trail@.contains(v),
            is_trail(succ, members, trail@),
            curr < n,
            members.contains(curr),
            !trail@.contains(curr),
            trail@.len() > 0 ==> has_edge(succ, trail@.last(), curr),
            cycle_chain(succ, members) == grow_chain(succ, members, trail@, curr),
        decreases n - trail@.len(),
    {
        let ghost walked = trail@;
        proof {
            lemma_trail_push(succ, members, walked, curr);
        }
        trail.push(curr);
        visited.set(curr, true);
        let row = graph.successors(curr);
        let next = scan_row(&row, &in_set, &visited, Ghost(members), Ghost(trail@));
        proof {
            lemma_first_fresh(row@, members, trail@);
        }
        match next {
            Some(v) => {
                proof {
                    let k = choose|k: int| 0 <= k < row@.len() && row@[k] == v;
                    assert(succ[curr as int][k] < succ.len());
                    assert(has_edge(succ, curr, v));
                    assert(trail@.last() == curr);
                    lemma_trail_push(succ, members, trail@, v);
                }
                curr = v;
            },
            None => {
                let start = scan_row(&row, &in_set, &no_one, Ghost(members), Ghost(Seq::empty()));
                proof {
                    let a = choose|a: int| 0 <= a < members.len() && members[a] == curr;
                    assert(first_member(succ[members[a] as int], members) is Some);
                    lemma_first_fresh(row@, members, Seq::empty());
                }
                let s = start.unwrap();
                proof {
                    let k = choose|k: int| 0 <= k < row@.len() && row@[k] == s;
                    assert(members.contains(row@[k]));
                    assert(trail@.contains(s));
                    assert(has_edge(succ, curr, s));
                    assert(trail@.last() == curr);
                    lemma_suffix_is_cycle(succ, members, trail@, s);
                }
                return trail_from(&trail, s);
            },
        }
    }
}

} // verus!
