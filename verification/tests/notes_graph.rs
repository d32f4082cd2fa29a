use serigraph::chain::has_successors_inside;
use serigraph::eliminate::OutGoingAcyclifier;
use serigraph::graph::LinkGraph;
use serigraph::book::{book_toml, Book, BookJson, MdBookConfig};
use serigraph::notes::{fits_graph, into_graph, link_edges, Backlink, Note};
use serigraph::outline::{summary_outline, tree_outline};

fn link(title: &str, exists: bool) -> Backlink {
    Backlink { title: title.to_string(), exists, path: format!("{}.md", title) }
}

fn note(title: &str, links: Vec<Backlink>) -> Note {
    Note {
        title: title.to_string(),
        path: format!("{}.md", title),
        content: format!("# {}", title),
        backlinks: links,
        references: vec![],
    }
}

#[test]
fn notes_become_nodes_in_their_order() {
    let notes = vec![note("a", vec![]), note("b", vec![]), note("c", vec![])];
    let graph = into_graph(&notes);
    assert_eq!(graph.node_count(), 3);
    assert_eq!(graph.edge_count(), 0);
    assert_eq!(graph.payload(0).title, "a");
    assert_eq!(graph.payload(2).title, "c");
}

#[test]
fn backlinks_become_edges() {
    let notes = vec![
        note("a", vec![link("b", true), link("c", true)]),
        note("b", vec![link("c", true)]),
        note("c", vec![link("a", true)]),
    ];
    let graph = into_graph(&notes);
    assert_eq!(link_edges(&notes), vec![(0, 1), (0, 2), (1, 2), (2, 0)]);
    assert_eq!(graph.edge_count(), 4);
    assert_eq!(graph.successors(0), vec![2, 1]);
    assert_eq!(graph.successors(1), vec![2]);
    assert_eq!(graph.successors(2), vec![0]);
    for e in 0..4 {
        assert_eq!(graph.edge_payload(e).as_str(), "");
    }
}

#[test]
fn links_to_missing_notes_give_no_edge() {
    let notes = vec![
        note("a", vec![link("b", false), link("nowhere", true), link("c", true)]),
        note("b", vec![]),
        note("c", vec![]),
    ];
    assert_eq!(link_edges(&notes), vec![(0, 2)]);
}

#[test]
fn repeated_backlinks_give_one_edge() {
    let mut other_path = link("b", true);
    other_path.path = "elsewhere/b.md".to_string();
    let notes = vec![
        note("a", vec![link("b", true), link("b", true), other_path, link("b", true)]),
        note("b", vec![]),
    ];
    // the same backlink counts once; one with another path is another backlink
    assert_eq!(link_edges(&notes), vec![(0, 1), (0, 1)]);
}

#[test]
fn a_note_may_link_to_itself() {
    let notes = vec![note("a", vec![link("a", true)])];
    let graph = into_graph(&notes);
    assert_eq!(graph.successors(0), vec![0]);
}

#[test]
fn the_last_note_of_a_title_stands_for_it() {
    let notes = vec![
        note("a", vec![link("b", true)]),
        note("b", vec![]),
        note("a", vec![link("b", true)]),
    ];
    // both notes named "a" link from node 2
    assert_eq!(link_edges(&notes), vec![(2, 1), (2, 1)]);
}

#[test]
fn no_notes_no_graph() {
    let notes: Vec<Note> = vec![];
    assert!(fits_graph(&notes));
    let graph = into_graph(&notes);
    assert_eq!(graph.node_count(), 0);
}

#[test]
fn book_owns_its_notes() {
    let json = BookJson {
        notes: vec![
            note("a", vec![link("b", true)]),
            note("b", vec![link("a", true), link("c", true)]),
            note("c", vec![]),
        ],
        resources: vec![("img.png".to_string(), "/tmp/img.png".to_string())],
    };
    assert!(fits_graph(&json.notes));
    let mut book = Book::from_json(json);
    assert_eq!(book.graph.node_count(), 3);
    assert_eq!(book.graph.payload(0).title, "a");
    assert_eq!(book.graph.payload(1).title, "b");
    assert_eq!(book.graph.payload(2).title, "c");
    assert_eq!(book.graph.successors(1), vec![2, 0]);
    assert_eq!(book.resources.len(), 1);
    OutGoingAcyclifier::default().acyclify(&mut book.graph);
    assert_eq!(book.graph.edge_count(), 2);
    assert!(book.graph.topological_order().is_ok());
}

#[test]
fn outline_walks_depth_first() {
    let mut graph: LinkGraph<(), ()> = LinkGraph::new();
    for _ in 0..6 {
        graph.add_node(());
    }
    for (a, b) in [(0, 1), (0, 2), (2, 3), (1, 3), (4, 0), (4, 5)] {
        graph.add_edge(a, b, ());
    }
    // from 0: its successors are enumerated 2, 1; node 3 is met below 2
    assert_eq!(summary_outline(&graph), vec![(0, 0), (2, 1), (3, 2), (1, 1), (4, 0), (5, 1)]);
}

#[test]
fn outline_from_chosen_roots() {
    let mut graph: LinkGraph<(), ()> = LinkGraph::new();
    for _ in 0..5 {
        graph.add_node(());
    }
    for (a, b) in [(0, 1), (1, 2), (3, 1), (3, 4)] {
        graph.add_edge(a, b, ());
    }
    // node 0 is not reached; node 1 is listed where the walk from 3 meets it
    assert_eq!(tree_outline(&graph, &vec![3, 1, 3]), vec![(3, 0), (4, 1), (1, 1), (2, 2)]);
    assert_eq!(tree_outline(&graph, &vec![]), vec![]);
}

#[test]
fn outline_of_a_cycle_ends() {
    let mut graph: LinkGraph<(), ()> = LinkGraph::new();
    for _ in 0..3 {
        graph.add_node(());
    }
    for (a, b) in [(0, 1), (1, 2), (2, 0), (1, 1)] {
        graph.add_edge(a, b, ());
    }
    assert_eq!(summary_outline(&graph), vec![(0, 0), (1, 1), (2, 2)]);
}

#[test]
fn outline_of_an_empty_graph() {
    let graph: LinkGraph<(), ()> = LinkGraph::new();
    assert_eq!(summary_outline(&graph), vec![]);
}

#[test]
fn book_toml_asks_for_pdf_on_demand() {
    let plain = book_toml(&MdBookConfig { pdf: false });
    let pdf = book_toml(&MdBookConfig { pdf: true });
    assert!(plain.starts_with("\n[book]\nauthors = [\"author\"]\nlanguage = \"ja\"\n"));
    assert!(plain.ends_with("[preprocessor.katex]\n"));
    assert!(!plain.contains("[output.pdf]"));
    assert_eq!(pdf, format!("{}[output.pdf]\n", plain));
}

#[test]
fn sets_for_chain_extraction_are_checked() {
    let mut graph: LinkGraph<(), ()> = LinkGraph::new();
    for _ in 0..3 {
        graph.add_node(());
    }
    for (a, b) in [(0, 1), (1, 2), (2, 1)] {
        graph.add_edge(a, b, ());
    }
    assert!(has_successors_inside(&graph, &vec![1, 2]));
    assert!(has_successors_inside(&graph, &vec![0, 1, 2]));
    assert!(!has_successors_inside(&graph, &vec![]));
    assert!(!has_successors_inside(&graph, &vec![0]));
    assert!(!has_successors_inside(&graph, &vec![2]));
    assert!(!has_successors_inside(&graph, &vec![1, 2, 3]));
}
