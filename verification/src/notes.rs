//! Notes that link to each other, and the graph of their links: one node per
//! note, and an edge from a note to each note that one of its backlinks names.

use crate::adjacency::{has_edge, with_edges};
use crate::graph::LinkGraph;
use vstd::prelude::*;

verus! {

/// A link from one note to another, by title.
#[derive(Debug, Clone, PartialEq, Eq, Hash)]
pub struct Backlink {
    /// The title of the note that the link leads to.
    pub title: String,
    /// Whether a note of that title is known to exist.
    pub exists: bool,
    /// Where the note lies.
    pub path: String,
}

/// A note of a knowledge base.
#[derive(Debug, Clone)]
pub struct Note {
    /// The title, by which backlinks name the note.
    pub title: String,
    /// Where the note lies.
    pub path: String,
    /// The text of the note.
    pub content: String,
    /// The links from this note to others.
    pub backlinks: Vec<Backlink>,
    /// The resources that the text refers to.
    pub references: Vec<String>,
}

/// Two backlinks say the same: same title, same mark, same path.
pub open spec fn same_backlink(a: Backlink, b: Backlink) -> bool {
    a.title@ == b.title@ && a.exists == b.exists && a.path@ == b.path@
}

/// One of `links` says the same as `link`.
pub open spec fn has_backlink(links: Seq<Backlink>, link: Backlink) -> bool {
    exists|j: int| 0 <= j < links.len() && same_backlink(#[trigger] links[j], link)
}

/// The number of the last of the first `upto` notes that has the title
/// `title`.
pub open spec fn title_place(notes: Seq<Note>, title: Seq<char>, upto: int) -> Option<usize>
    decreases upto,
{
    if upto <= 0 {
        None
    } else if notes[upto - 1].title@ == title {
        Some((upto - 1) as usize)
    } else {
        title_place(notes, title, upto - 1)
    }
}

/// The edges that the backlinks `links` of a note give, in their order: one
/// from `from` for every backlink that is marked as existing, names the title
/// of a note and says something that no backlink before it says.
pub open spec fn backlink_edges(notes: Seq<Note>, from: usize, links: Seq<Backlink>) -> Seq<
    (usize, usize),
>
    decreases links.len(),
{
    if links.len() == 0 {
        Seq::empty()
    } else {
        let front = backlink_edges(notes, from, links.drop_last());
        let link = links.last();
        let to = title_place(notes, link.title@, notes.len() as int);
        if link.exists && to is Some && !has_backlink(links.drop_last(), link) {
            front.push((from, to->0))
        } else {
            front
        }
    }
}

/// The edges that note `i` gives. They start at the last note that has the
/// title of note `i`, which is note `i` itself where titles are not repeated.
pub open spec fn note_edges(notes: Seq<Note>, i: int) -> Seq<(usize, usize)> {
    match title_place(notes, notes[i].title@, notes.len() as int) {
        Some(from) => backlink_edges(notes, from, notes[i].backlinks@),
        None => Seq::empty(),
    }
}

/// The edges that the first `upto` notes give, note after note.
pub open spec fn all_note_edges(notes: Seq<Note>, upto: int) -> Seq<(usize, usize)>
    decreases upto,
{
    if upto <= 0 {
        Seq::empty()
    } else {
        all_note_edges(notes, upto - 1).add(note_edges(notes, upto - 1))
    }
}

/// What `title_place` finds is a note of that title, and it finds one if there
/// is any.
pub proof fn lemma_title_place(notes: Seq<Note>, title: Seq<char>, upto: int)
    requires
        0 <= upto <= notes.len(),
        notes.len() <= usize::MAX,
    ensures
        match title_place(notes, title, upto) {
            Some(at) => at < upto && notes[at as int].title@ == title && forall|j: int|
                at < j < upto ==> (#[trigger] notes[j]).title@ != title,
            None => forall|j: int| 0 <= j < upto ==> (#[trigger] notes[j]).title@ != title,
        },
    decreases upto,
{
    if upto > 0 && notes[upto - 1].title@ != title {
        lemma_title_place(notes, title, upto - 1);
    }
}

/// The number of the last note that has the title `title`.
fn find_title(notes: &[Note], title: &String) -> (found: Option<usize>)
    ensures
        found == title_place(notes@, title@, notes@.len() as int),
{
    let mut upto: usize = notes.len();
    while upto > 0
        invariant
            upto <= notes@.len(),
            title_place(notes@, title@, notes@.len() as int) == title_place(
                notes@,
                title@,
                upto as int,
            ),
        decreases upto,
    {
        if notes[upto - 1].title == *title {
            return Some(upto - 1);
        }
        upto -= 1;
    }
    None
}

/// Whether one of the first `k` of `links` says the same as `links[k]`.
fn said_before(links: &Vec<Backlink>, k: usize) -> (found: bool)
    requires
        k < links@.len(),
    ensures
        found == has_backlink(links@.take(k as int), links@[k as int]),
{
    let link = &links[k];
    let mut j: usize = 0;
    while j < k
        invariant
            j <= k,
            k < links@.len(),
            *link == links@[k as int],
            forall|t: int| 0 <= t < j ==> !same_backlink(#[trigger] links@[t], *link),
        decreases k - j,
    {
        let other = &links[j];
        if other.title == link.title && other.exists == link.exists && other.path == link.path {
            proof {
                assert(links@.take(k as int)[j as int] == links@[j as int]);
            }
            return true;
        }
        j += 1;
    }
    proof {
        let front = links@.take(k as int);
        assert forall|t: int| 0 <= t < front.len() implies !same_backlink(
            #[trigger] front[t],
            *link,
        ) by {
            assert(front[t] == links@[t]);
        }
    }
    false
}

/// The edges that the links between `notes` give, note after note, as
/// `all_note_edges` says.
pub fn link_edges(notes: &[Note]) -> (edges: Vec<(usize, usize)>)
    ensures
        edges@ == all_note_edges(notes@, notes@.len() as int),
        forall|e: int|
            0 <= e < edges@.len() ==> (#[trigger] edges@[e]).0 < notes@.len() && edges@[e].1
                < notes@.len(),
{
    let n = notes.len();
    let mut edges: Vec<(usize, usize)> = Vec::new();
    let mut i: usize = 0;
    while i < n
        invariant
            n == notes@.len(),
            i <= n,
            edges@ == all_note_edges(notes@, i as int),
            forall|e: int| 0 <= e < edges@.len() ==> (#[trigger] edges@[e]).0 < n && edges@[e].1 < n,
        decreases n - i,
    {
        let note = &notes[i];
        let ghost done = edges@;
        match find_title(notes, &note.title) {
            None => {
                proof {
                    assert(done.add(Seq::empty()) =~= done);
                }
            },
            Some(from) => {
                let links = &note.backlinks;
                proof {
                    lemma_title_place(notes@, note.title@, n as int);
                    assert(links@.take(0) =~= Seq::<Backlink>::empty());
                    assert(done.add(Seq::empty()) =~= done);
                }
                let mut k: usize = 0;
                while k < links.len()
                    invariant
                        n == notes@.len(),
                        i < n,
                        from < n,
                        *note == notes@[i as int],
                        *links == note.backlinks,
                        k <= links@.len(),
                        done == all_note_edges(notes@, i as int),
                        note_edges(notes@, i as int) == backlink_edges(notes@, from, links@),
                        edges@ == done.add(backlink_edges(notes@, from, links@.take(k as int))),
                        forall|e: int|
                            0 <= e < edges@.len() ==> (#[trigger] edges@[e]).0 < n && edges@[e].1
                                < n,
                    decreases links@.len() - k,
                {
                    let link = &links[k];
                    let ghost so_far = backlink_edges(notes@, from, links@.take(k as int));
                    let ghost before = edges@;
                    proof {
                        assert(links@.take(k + 1).drop_last() =~= links@.take(k as int));
                        assert(links@.take(k + 1).last() == links@[k as int]);
                    }
                    if link.exists {
                        match find_title(notes, &link.title) {
                            None => {},
                            Some(to) => {
                                proof {
                                    lemma_title_place(notes@, link.title@, n as int);
                                }
                                if !said_before(links, k) {
                                    edges.push((from, to));
                                    proof {
                                        assert(edges@ =~= done.add(so_far.push((from, to))));
                                        assert forall|e: int| 0 <= e < edges@.len() implies (
                                        #[trigger] edges@[e]).0 < n && edges@[e].1 < n by {
                                            if e < before.len() {
                                                assert(edges@[e] == before[e]);
                                            }
                                        }
                                    }
                                }
                            },
                        }
                    }
                    k += 1;
                }
                proof {
                    assert(links@.take(links@.len() as int) =~= links@);
                }
            },
        }
        i += 1;
    }
    edges
}

/// Adds the edges `edges`, in their order and each with an empty text as its
/// payload, to a graph that has none.
pub fn add_link_edges<N>(graph: &mut LinkGraph<N, String>, edges: &Vec<(usize, usize)>)
    requires
        old(graph).wf(),
        old(graph).ends().len() == 0,
        edges@.len() < u32::MAX,
        forall|e: int|
            0 <= e < edges@.len() ==> (#[trigger] edges@[e]).0 < old(graph).succ().len()
                && edges@[e].1 < old(graph).succ().len(),
    ensures
        final(graph).wf(),
        final(graph).payloads() == old(graph).payloads(),
        final(graph).ends() == edges@,
        final(graph).succ() == with_edges(old(graph).succ().len(), edges@),
        forall|e: int|
            0 <= e < edges@.len() ==> (#[trigger] final(graph).edge_payloads()[e])@
                == Seq::<char>::empty(),
{
    let ghost n = graph.succ().len();
    let ghost pay0 = graph.payloads();
    proof {
        assert(graph.ends() =~= edges@.take(0));
        assert(graph.succ() =~= with_edges(n, edges@.take(0))) by {
            assert forall|x: int| 0 <= x < n implies graph.succ()[x] =~= with_edges(
                n,
                edges@.take(0),
            )[x] by {
                if graph.succ()[x].len() > 0 {
                    assert(has_edge(graph.succ(), x as usize, graph.succ()[x][0]));
                }
            }
        }
    }
    let mut e: usize = 0;
    while e < edges.len()
        invariant
            e <= edges@.len(),
            edges@.len() < u32::MAX,
            graph.wf(),
            graph.succ().len() == n,
            graph.payloads() == pay0,
            forall|i: int|
                0 <= i < edges@.len() ==> (#[trigger] edges@[i]).0 < n && edges@[i].1 < n,
            graph.ends() == edges@.take(e as int),
            graph.succ() == with_edges(n, edges@.take(e as int)),
            forall|i: int|
                0 <= i < e ==> (#[trigger] graph.edge_payloads()[i])@ == Seq::<char>::empty(),
        decreases edges@.len() - e,
    {
        let edge = edges[e];
        graph.add_edge(edge.0, edge.1, String::new());
        proof {
            assert(edges@.take(e + 1).drop_last() =~= edges@.take(e as int));
            assert(edges@.take(e + 1) =~= edges@.take(e as int).push(edge));
        }
        e += 1;
    }
    proof {
        assert(edges@.take(edges@.len() as int) =~= edges@);
    }
}

/// The graph of the links between `notes`: node `i` carries note `i`, and
/// every note gives an edge to each note that one of its backlinks names,
/// provided that the backlink is marked as existing and a note of that title
/// is among `notes`. Backlinks that repeat an earlier one of the same note are
/// passed over. Where several notes share a title, the last of them stands for
/// the title, as the source of an edge and as its target. The edges carry an
/// empty text.
pub fn into_graph<'a>(notes: &'a [Note]) -> (graph: LinkGraph<&'a Note, String>)
    requires
        notes@.len() < u32::MAX,
        all_note_edges(notes@, notes@.len() as int).len() < u32::MAX,
    ensures
        graph.wf(),
        graph.payloads().len() == notes@.len(),
        forall|i: int| 0 <= i < notes@.len() ==> *(#[trigger] graph.payloads()[i]) == notes@[i],
        graph.ends() == all_note_edges(notes@, notes@.len() as int),
        graph.succ() == with_edges(notes@.len(), all_note_edges(notes@, notes@.len() as int)),
        forall|e: int|
            0 <= e < graph.ends().len() ==> (#[trigger] graph.edge_payloads()[e])@
                == Seq::<char>::empty(),
{
    let n = notes.len();
    let edges = link_edges(notes);
    let mut graph: LinkGraph<&'a Note, String> = LinkGraph::new();
    let mut i: usize = 0;
    while i < n
        invariant
            n == notes@.len(),
            n < u32::MAX,
            i <= n,
            graph.wf(),
            graph.succ().len() == i,
            graph.ends() == Seq::<(usize, usize)>::empty(),
            graph.payloads().len() == i,
            forall|k: int| 0 <= k < i ==> *(#[trigger] graph.payloads()[k]) == notes@[k],
        decreases n - i,
    {
        graph.add_node(&notes[i]);
        i += 1;
    }
    add_link_edges(&mut graph, &edges);
    graph
}

/// Whether `into_graph` can take `notes`: the notes and the edges between
/// them are fewer than the ids of the graph.
pub fn fits_graph(notes: &[Note]) -> (fits: bool)
    ensures
        fits == (notes@.len() < u32::MAX && all_note_edges(notes@, notes@.len() as int).len()
            < u32::MAX),
{
    notes.len() < u32::MAX as usize && link_edges(notes).len() < u32::MAX as usize
}

} // verus!
