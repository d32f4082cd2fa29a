use serigraph::cut::unlink_cycle;
use serigraph::eliminate::{
    eliminate_cycles, get_cycles, unlink_components, unlink_selfloops, ByOutGoingEdgeCountSorter,
    CycleEliminator, OutGoingAcyclifier, OutGoingCycleEliminator,
};
use serigraph::graph::LinkGraph;

fn graph_of(n: usize, edges: &[(usize, usize)]) -> LinkGraph<i32, ()> {
    let mut graph = LinkGraph::new();
    for i in 0..n {
        graph.add_node(i as i32);
    }
    for (a, b) in edges {
        graph.add_edge(*a, *b, ());
    }
    graph
}

/// The edges of `graph`, sorted.
fn edges_of(graph: &LinkGraph<i32, ()>) -> Vec<(usize, usize)> {
    let mut edges = Vec::new();
    for u in 0..graph.node_count() {
        for v in graph.successors(u) {
            edges.push((u, v));
        }
    }
    edges.sort();
    edges
}

fn is_acyclic(graph: &LinkGraph<i32, ()>) -> bool {
    graph.topological_order().is_ok()
}

#[test]
fn default_eliminator_has_no_limit() {
    assert_eq!(OutGoingCycleEliminator::default().limit, None);
    assert_eq!(OutGoingAcyclifier::default().limit, None);
    assert_eq!(ByOutGoingEdgeCountSorter::default().limit, 100);
}

#[test]
fn unlink_cycle_cuts_the_edge_into_the_hub() {
    // node 1 has two outgoing edges, the others one
    let mut graph = graph_of(4, &[(0, 1), (1, 2), (2, 0), (1, 3)]);
    unlink_cycle(&mut graph, &vec![0, 1, 2]);
    assert_eq!(edges_of(&graph), vec![(1, 2), (1, 3), (2, 0)]);
}

#[test]
fn unlink_cycle_counts_edges_that_leave_the_cycle() {
    // node 2 has three outgoing edges, two of them out of the cycle
    let mut graph = graph_of(5, &[(0, 1), (1, 2), (2, 0), (2, 3), (2, 4), (1, 3)]);
    unlink_cycle(&mut graph, &vec![0, 1, 2]);
    assert_eq!(edges_of(&graph), vec![(0, 1), (1, 3), (2, 0), (2, 3), (2, 4)]);
}

#[test]
fn unlink_cycle_breaks_ties_by_first_place_on_the_chain() {
    // all of 0, 1, 2 have one outgoing edge; the chain is 0 1 2, its hub is 0
    let mut graph = graph_of(3, &[(0, 1), (1, 2), (2, 0)]);
    unlink_cycle(&mut graph, &vec![0, 1, 2]);
    assert_eq!(edges_of(&graph), vec![(0, 1), (1, 2)]);
    // the chain from 1 is 1 2 0, its hub is 1
    let mut graph = graph_of(3, &[(0, 1), (1, 2), (2, 0)]);
    unlink_cycle(&mut graph, &vec![1, 2, 0]);
    assert_eq!(edges_of(&graph), vec![(1, 2), (2, 0)]);
}

#[test]
fn unlink_cycle_leaves_the_tail_alone() {
    // the chain of {0, 1, 2} is 1 2; both have one outgoing edge
    let mut graph = graph_of(3, &[(0, 1), (1, 2), (2, 1)]);
    unlink_cycle(&mut graph, &vec![0, 1, 2]);
    assert_eq!(edges_of(&graph), vec![(0, 1), (1, 2)]);
}

#[test]
fn sorter_unlink_cycle_is_the_same_cut() {
    let sorter = ByOutGoingEdgeCountSorter::default();
    let mut graph = graph_of(4, &[(0, 1), (1, 2), (2, 0), (1, 3)]);
    sorter.unlink_cycle(&mut graph, &vec![0, 1, 2]);
    assert_eq!(edges_of(&graph), vec![(1, 2), (1, 3), (2, 0)]);
}

#[test]
fn unlink_selfloops_removes_every_self_loop() {
    let mut graph = graph_of(3, &[(0, 0), (0, 1), (1, 1), (1, 1), (1, 2), (2, 0), (0, 0)]);
    unlink_selfloops(&mut graph);
    assert_eq!(edges_of(&graph), vec![(0, 1), (1, 2), (2, 0)]);
    assert_eq!(graph.edge_count(), 3);
}

#[test]
fn unlink_selfloops_keeps_the_order_of_the_rest() {
    let mut graph = graph_of(4, &[(0, 1), (0, 0), (0, 2), (0, 0), (0, 3)]);
    unlink_selfloops(&mut graph);
    assert_eq!(graph.successors(0), vec![3, 2, 1]);
}

#[test]
fn get_cycles_finds_components_with_a_cycle() {
    let graph = graph_of(6, &[(0, 1), (1, 2), (2, 0), (2, 3), (3, 3), (3, 4), (4, 5)]);
    let mut cycles = get_cycles(&graph);
    for c in cycles.iter_mut() {
        c.sort();
    }
    cycles.sort();
    assert_eq!(cycles, vec![vec![0, 1, 2], vec![3]]);
}

#[test]
fn get_cycles_of_a_dag_is_empty() {
    let graph = graph_of(4, &[(0, 1), (1, 2), (0, 3)]);
    assert_eq!(get_cycles(&graph), Vec::<Vec<usize>>::new());
}

#[test]
fn one_round_breaks_one_cycle_per_component() {
    let mut graph = graph_of(6, &[(0, 1), (1, 2), (2, 0), (3, 4), (4, 5), (5, 3), (2, 3)]);
    let comps = graph.tarjan_components();
    unlink_components(&mut graph, &comps);
    assert_eq!(graph.edge_count(), 5);
    assert!(graph.contains_edge(2, 3));
    assert!(is_acyclic(&graph));
}

#[test]
fn elimination_makes_the_graph_acyclic() {
    let mut graph = graph_of(
        6,
        &[
            (0, 1),
            (1, 0),
            (1, 2),
            (2, 1),
            (2, 3),
            (3, 2),
            (3, 3),
            (3, 4),
            (4, 5),
            (5, 0),
            (0, 3),
            (4, 1),
        ],
    );
    let before = edges_of(&graph);
    OutGoingCycleEliminator::default().eliminate_cycles(&mut graph);
    assert!(is_acyclic(&graph));
    for c in graph.tarjan_components() {
        assert_eq!(c.len(), 1);
    }
    for u in 0..6 {
        assert!(!graph.contains_edge(u, u));
    }
    // nodes and payloads stay, edges only leave
    assert_eq!(graph.node_count(), 6);
    for u in 0..6 {
        assert_eq!(*graph.payload(u), u as i32);
    }
    let after = edges_of(&graph);
    assert!(after.len() < before.len());
    for e in after.iter() {
        assert!(before.contains(e));
    }
}

#[test]
fn elimination_is_repeatable() {
    let edges = [(0, 1), (1, 0), (1, 2), (2, 1), (2, 0), (0, 2), (2, 3), (3, 0)];
    let mut first = graph_of(4, &edges);
    let mut second = graph_of(4, &edges);
    eliminate_cycles(&mut first, None);
    eliminate_cycles(&mut second, None);
    assert_eq!(edges_of(&first), edges_of(&second));
    for u in 0..4 {
        assert_eq!(first.successors(u), second.successors(u));
    }
}

#[test]
fn elimination_of_a_dag_changes_nothing() {
    let edges = [(0, 1), (0, 2), (1, 3), (2, 3)];
    let mut graph = graph_of(4, &edges);
    eliminate_cycles(&mut graph, None);
    assert_eq!(edges_of(&graph), vec![(0, 1), (0, 2), (1, 3), (2, 3)]);
    assert_eq!(graph.successors(0), vec![2, 1]);
}

#[test]
fn elimination_of_an_empty_graph() {
    let mut graph = graph_of(0, &[]);
    eliminate_cycles(&mut graph, None);
    assert_eq!(graph.node_count(), 0);
    assert_eq!(graph.edge_count(), 0);
}

#[test]
fn elimination_removes_a_self_loop_inside_a_component() {
    let mut graph = graph_of(2, &[(0, 1), (1, 0), (1, 1)]);
    eliminate_cycles(&mut graph, None);
    assert!(is_acyclic(&graph));
    assert_eq!(graph.edge_count(), 1);
}

#[test]
fn a_limit_of_zero_allows_one_round() {
    // two cycles through node 1: one round cuts one of them
    let mut graph = graph_of(3, &[(0, 1), (1, 0), (1, 2), (2, 1)]);
    eliminate_cycles(&mut graph, Some(0));
    assert_eq!(graph.edge_count(), 3);
    assert!(!is_acyclic(&graph));
    // a second round finishes the work
    let mut graph = graph_of(3, &[(0, 1), (1, 0), (1, 2), (2, 1)]);
    eliminate_cycles(&mut graph, Some(1));
    assert_eq!(graph.edge_count(), 2);
    assert!(is_acyclic(&graph));
}

#[test]
fn a_limit_still_removes_self_loops() {
    let mut graph = graph_of(2, &[(0, 0), (0, 1), (1, 1)]);
    eliminate_cycles(&mut graph, Some(0));
    assert_eq!(edges_of(&graph), vec![(0, 1)]);
}

#[test]
fn acyclifier_is_the_same_eliminator() {
    let edges = [(0, 1), (1, 2), (2, 0), (1, 3)];
    let mut one = graph_of(4, &edges);
    let mut other = graph_of(4, &edges);
    OutGoingAcyclifier::default().acyclify(&mut one);
    OutGoingCycleEliminator::default().eliminate_cycles(&mut other);
    assert_eq!(edges_of(&one), edges_of(&other));
    assert_eq!(edges_of(&one), vec![(1, 2), (1, 3), (2, 0)]);
}

#[test]
fn sorter_with_a_budget_of_rounds() {
    let edges = [(0, 1), (1, 0), (1, 2), (2, 1)];
    let mut graph = graph_of(3, &edges);
    ByOutGoingEdgeCountSorter { limit: 0 }.decompose_cycle(&mut graph);
    assert_eq!(graph.edge_count(), 4);
    let mut graph = graph_of(3, &edges);
    ByOutGoingEdgeCountSorter { limit: 1 }.decompose_cycle(&mut graph);
    assert_eq!(graph.edge_count(), 3);
    let mut graph = graph_of(3, &edges);
    ByOutGoingEdgeCountSorter::default().decompose_cycle(&mut graph);
    assert_eq!(graph.edge_count(), 2);
    assert!(is_acyclic(&graph));
}
