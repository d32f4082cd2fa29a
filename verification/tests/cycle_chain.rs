use serigraph::chain::get_cycle_chain;
use serigraph::eliminate::ByOutGoingEdgeCountSorter;
use serigraph::graph::LinkGraph;

/// A graph with the nodes that the edges name, each carrying its own number,
/// and a zero on every edge.
fn graph_from_edges(edges: Vec<(usize, usize)>) -> LinkGraph<i32, i32> {
    let mut graph = LinkGraph::new();
    for (a, b) in edges {
        while graph.node_count() <= a.max(b) {
            let id = graph.node_count();
            graph.add_node(id as i32);
        }
        graph.add_edge(a, b, 0);
    }
    graph
}

/// 0 -> 1 -> 2 -> 0 : {0, 1, 2}
#[test]
pub fn outgoing_sorter_test_get_cycle1() {
    let edges = vec![(0, 1), (1, 2), (2, 0)];
    let graph = graph_from_edges(edges);
    let cycle = get_cycle_chain(&graph, &vec![0, 1, 2]);
    assert_eq!(cycle, vec![0, 1, 2]);
}

/// 0 -> 1 -> 2 -> 1 : [1, 2]
#[test]
pub fn outgoing_sorter_test_get_cycle2() {
    let edges = vec![(0, 1), (1, 2), (2, 1)];
    let graph = graph_from_edges(edges);
    let cycle = get_cycle_chain(&graph, &vec![0, 1, 2]);
    assert_eq!(cycle, vec![1, 2]);
}

/// 0 -> 1 -> 2 -> 0 : {0, 1, 2}
#[test]
pub fn outgoing_acyclifier_test_get_cycle1() {
    let edges = vec![(0, 1), (1, 2), (2, 0)];
    let graph = graph_from_edges(edges);
    let cycle = get_cycle_chain(&graph, &vec![0, 1, 2]);
    assert_eq!(cycle, vec![0, 1, 2]);
}

/// 0 -> 1 -> 2 -> 1 : [1, 2]
#[test]
pub fn outgoing_acyclifier_test_get_cycle2() {
    let edges = vec![(0, 1), (1, 2), (2, 1)];
    let graph = graph_from_edges(edges);
    let cycle = get_cycle_chain(&graph, &vec![0, 1, 2]);
    assert_eq!(cycle, vec![1, 2]);
}

/// 0 -> 1 -> 2 -> 0 : [0, 1, 2]
#[test]
pub fn decomp_cycles_test_get_cycle1() {
    let sorter: ByOutGoingEdgeCountSorter = Default::default();
    let edges = vec![(0, 1), (1, 2), (2, 0)];
    let graph = graph_from_edges(edges);
    let cycle = sorter.sorted(&graph, &vec![0, 1, 2]);
    assert_eq!(cycle, vec![0, 1, 2]);
}

/// 0 -> 1 -> 2 -> 1 : [1, 2]
#[test]
pub fn decomp_cycles_test_get_cycle2() {
    let sorter: ByOutGoingEdgeCountSorter = Default::default();
    let edges = vec![(0, 1), (1, 2), (2, 1)];
    let graph = graph_from_edges(edges);
    let cycle = sorter.sorted(&graph, &vec![0, 1, 2]);
    assert_eq!(cycle, vec![1, 2]);
}

/// The chain of a strongly connected pair behind a tail starts inside the pair.
#[test]
fn chain_of_pair_behind_tail() {
    let graph = graph_from_edges(vec![(0, 1), (1, 2), (2, 1)]);
    assert_eq!(get_cycle_chain(&graph, &vec![1, 2]), vec![1, 2]);
    assert_eq!(get_cycle_chain(&graph, &vec![2, 1]), vec![2, 1]);
}

/// The walk prefers the successor that the graph enumerates first, which is the
/// one whose edge was added last.
#[test]
fn chain_follows_enumeration_order() {
    // 0 -> 1, 0 -> 2, 1 -> 0, 2 -> 0; the successors of 0 are enumerated 2, 1
    let graph = graph_from_edges(vec![(0, 1), (0, 2), (1, 0), (2, 0)]);
    assert_eq!(graph.successors(0), vec![2, 1]);
    assert_eq!(get_cycle_chain(&graph, &vec![0, 1, 2]), vec![0, 2]);
    // from 1 the walk is 1 0 2, and 2 leads back to 0: node 1 is a tail
    assert_eq!(get_cycle_chain(&graph, &vec![1, 0, 2]), vec![0, 2]);
}

/// Nodes walked before the cycle is entered are cut off.
#[test]
fn chain_drops_the_tail() {
    // 0 -> 1 -> 2 -> 3 -> 1, and 3 -> 0 makes all four strongly connected
    let graph = graph_from_edges(vec![(0, 1), (1, 2), (2, 3), (3, 0), (3, 1)]);
    // successors of 3 are enumerated 1, 0: the walk 0 1 2 3 closes at 1
    assert_eq!(get_cycle_chain(&graph, &vec![0, 1, 2, 3]), vec![1, 2, 3]);
}

/// Every chain is a simple cycle of the set it was taken from.
#[test]
fn chain_is_a_simple_cycle() {
    let graph = graph_from_edges(vec![
        (0, 1),
        (1, 2),
        (2, 3),
        (3, 4),
        (4, 0),
        (2, 0),
        (4, 2),
        (1, 3),
    ]);
    let set = vec![3, 4, 0, 1, 2];
    let chain = get_cycle_chain(&graph, &set);
    assert!(!chain.is_empty());
    for (i, u) in chain.iter().enumerate() {
        assert!(set.contains(u));
        assert!(!chain[..i].contains(u));
        let next = chain[(i + 1) % chain.len()];
        assert!(graph.contains_edge(*u, next));
    }
}

/// A node with a self-loop is a cycle of one node.
#[test]
fn chain_of_a_self_loop() {
    let graph = graph_from_edges(vec![(0, 0)]);
    assert_eq!(get_cycle_chain(&graph, &vec![0]), vec![0]);
}
