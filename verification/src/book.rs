//! A knowledge base as a book: its notes as a graph, the resources that belong
//! to them, and what the export of the book is told.

use crate::adjacency::with_edges;
use crate::graph::LinkGraph;
use crate::notes::{add_link_edges, all_note_edges, link_edges, Note};
use vstd::prelude::*;

verus! {

/// The notes of a knowledge base and the resources that belong to them, each
/// resource as the pair of where it goes and where it comes from.
#[derive(Debug, Clone)]
pub struct BookJson {
    /// The notes.
    pub notes: Vec<Note>,
    /// The resources, as pairs `(to, from)`.
    pub resources: Vec<(String, String)>,
}

/// How a book is exported.
#[derive(Debug)]
pub struct MdBookConfig {
    /// Whether a PDF is asked for beside the pages.
    pub pdf: bool,
}

/// A knowledge base as a graph: the notes with the links between them, and
/// the resources that belong to them.
#[derive(Debug)]
pub struct Book {
    /// The notes and their links.
    pub graph: LinkGraph<Note, String>,
    /// The resources, as pairs `(to, from)`.
    pub resources: Vec<(String, String)>,
}

impl Book {
    /// The book of the notes and resources `json`: node `i` of the graph
    /// carries note `i`, and the edges are those of `into_graph`.
    pub fn from_json(json: BookJson) -> (book: Book)
        requires
            json.notes@.len() < u32::MAX,
            all_note_edges(json.notes@, json.notes@.len() as int).len() < u32::MAX,
        ensures
            book.graph.wf(),
            book.graph.payloads() == json.notes@,
            book.graph.ends() == all_note_edges(json.notes@, json.notes@.len() as int),
            book.graph.succ() == with_edges(
                json.notes@.len(),
                all_note_edges(json.notes@, json.notes@.len() as int),
            ),
            forall|e: int|
                0 <= e < book.graph.ends().len() ==> (#[trigger] book.graph.edge_payloads()[e])@
                    == Seq::<char>::empty(),
            book.resources == json.resources,
    {
        let BookJson { notes, resources } = json;
        let ghost all = notes@;
        let edges = link_edges(notes.as_slice());
        let mut rest = notes;
        let mut stack: Vec<Note> = Vec::new();
        while rest.len() > 0
            invariant
                rest@.len() + stack@.len() == all.len(),
                forall|i: int| 0 <= i < rest@.len() ==> rest@[i] == all[i],
                forall|i: int| 0 <= i < stack@.len() ==> stack@[i] == all[all.len() - 1 - i],
            decreases rest@.len(),
        {
            let note = rest.pop().unwrap();
            stack.push(note);
        }
        let mut graph: LinkGraph<Note, String> = LinkGraph::new();
        while stack.len() > 0
            invariant
                all.len() < u32::MAX,
                graph.wf(),
                graph.succ().len() + stack@.len() == all.len(),
                graph.payloads().len() == graph.succ().len(),
                graph.ends() == Seq::<(usize, usize)>::empty(),
                forall|i: int| 0 <= i < graph.payloads().len() ==> graph.payloads()[i] == all[i],
                forall|i: int| 0 <= i < stack@.len() ==> stack@[i] == all[all.len() - 1 - i],
            decreases stack@.len(),
        {
            let note = stack.pop().unwrap();
            graph.add_node(note);
        }
        add_link_edges(&mut graph, &edges);
        proof {
            assert(graph.payloads() =~= all);
        }
        Book { graph, resources }
    }
}

/// The text of the `book.toml` of an exported book.
pub open spec fn book_toml_text(pdf: bool) -> Seq<char> {
    if pdf {
        "\n[book]\n\
         authors = [\"author\"]\n\
         language = \"ja\"\n\
         multilingual = false\n\
         src = \"src\"\n\
         title = \"vault-book\"\n\
         [output.html]\n\
         [output.katex]\n\
         [preprocessor.katex]\n\
         [output.pdf]\n"@
    } else {
        "\n[book]\n\
         authors = [\"author\"]\n\
         language = \"ja\"\n\
         multilingual = false\n\
         src = \"src\"\n\
         title = \"vault-book\"\n\
         [output.html]\n\
         [output.katex]\n\
         [preprocessor.katex]\n"@
    }
}

/// The `book.toml` of an exported book; it asks for a PDF where the
/// configuration does.
pub fn book_toml(config: &MdBookConfig) -> (text: &'static str)
    ensures
        text@ == book_toml_text(config.pdf),
{
    if config.pdf {
        "\n[book]\n\
         authors = [\"author\"]\n\
         language = \"ja\"\n\
         multilingual = false\n\
         src = \"src\"\n\
         title = \"vault-book\"\n\
         [output.html]\n\
         [output.katex]\n\
         [preprocessor.katex]\n\
         [output.pdf]\n"
    } else {
        "\n[book]\n\
         authors = [\"author\"]\n\
         language = \"ja\"\n\
         multilingual = false\n\
         src = \"src\"\n\
         title = \"vault-book\"\n\
         [output.html]\n\
         [output.katex]\n\
         [preprocessor.katex]\n"
    }
}

} // verus!
