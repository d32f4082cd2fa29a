use serigraph::condense::{condensation, condense};
use serigraph::graph::LinkGraph;
use serigraph::notes::add_link_edges;

fn graph_of(n: usize, edges: &[(usize, usize)]) -> LinkGraph<i32, ()> {
    let mut graph = LinkGraph::new();
    for i in 0..n {
        graph.add_node(i as i32 * 10);
    }
    for (a, b) in edges {
        graph.add_edge(*a, *b, ());
    }
    graph
}

fn edges_of<N, E>(graph: &LinkGraph<N, E>) -> Vec<(usize, usize)> {
    let mut edges = Vec::new();
    for e in 0..graph.edge_count() {
        edges.push(graph.edge_endpoints(e).unwrap());
    }
    edges
}

#[test]
fn condense_groups_payloads_by_component() {
    let graph = graph_of(5, &[(0, 1), (1, 2), (2, 0), (1, 3), (3, 4)]);
    let comps = vec![vec![4], vec![3], vec![2, 0, 1]];
    let out = condense(&graph, &comps, true);
    assert_eq!(out.node_count(), 3);
    assert_eq!(*out.payload(0), vec![40]);
    assert_eq!(*out.payload(1), vec![30]);
    // ascending by node, whatever the order inside the component
    assert_eq!(*out.payload(2), vec![0, 10, 20]);
}

#[test]
fn condense_acyclic_draws_each_link_once() {
    // two edges from the triangle to node 3, and edges inside the triangle
    let graph = graph_of(4, &[(0, 1), (1, 2), (2, 0), (1, 3), (2, 3)]);
    let comps = vec![vec![3], vec![0, 1, 2]];
    let out = condense(&graph, &comps, true);
    assert_eq!(edges_of(&out), vec![(1, 0)]);
    assert_eq!(out.successors(1), vec![0]);
    assert_eq!(out.successors(0), Vec::<usize>::new());
}

#[test]
fn condense_keeps_every_edge_otherwise() {
    let graph = graph_of(4, &[(0, 1), (1, 2), (2, 0), (1, 3), (2, 3)]);
    let comps = vec![vec![3], vec![0, 1, 2]];
    let out = condense(&graph, &comps, false);
    assert_eq!(edges_of(&out), vec![(1, 1), (1, 1), (1, 1), (1, 0), (1, 0)]);
    assert_eq!(out.successors(1), vec![0, 0, 1, 1, 1]);
}

#[test]
fn condensation_of_a_mixed_graph() {
    let graph = graph_of(5, &[(0, 1), (1, 2), (2, 0), (1, 3), (3, 4)]);
    let out = condensation(&graph, true);
    assert_eq!(out.node_count(), 3);
    assert_eq!(out.edge_count(), 2);
    // a sink component first
    assert_eq!(*out.payload(0), vec![40]);
    assert_eq!(*out.payload(1), vec![30]);
    assert_eq!(*out.payload(2), vec![0, 10, 20]);
    assert!(out.contains_edge(2, 1));
    assert!(out.contains_edge(1, 0));
    assert!(out.topological_order().is_ok());
}

#[test]
fn condensation_of_a_dag_copies_it() {
    let graph = graph_of(3, &[(0, 1), (1, 2)]);
    let out = condensation(&graph, false);
    assert_eq!(out.node_count(), 3);
    assert_eq!(out.edge_count(), 2);
    for c in 0..3 {
        assert_eq!(out.payload(c).len(), 1);
    }
}

#[test]
fn condensation_of_an_empty_graph() {
    let graph = graph_of(0, &[]);
    let out = condensation(&graph, true);
    assert_eq!(out.node_count(), 0);
    assert_eq!(out.edge_count(), 0);
}

#[test]
fn induced_subgraph_renumbers_nodes() {
    let graph = graph_of(5, &[(0, 1), (1, 2), (2, 4), (4, 2), (0, 4), (3, 4)]);
    let sub = graph.induced_subgraph(&vec![false, true, true, false, true]);
    assert_eq!(sub.node_count(), 3);
    assert_eq!(*sub.payload(0), 1);
    assert_eq!(*sub.payload(1), 2);
    assert_eq!(*sub.payload(2), 4);
    // the edges 1 -> 2, 2 -> 4, 4 -> 2 between the kept nodes, by their ids
    assert_eq!(edges_of(&sub), vec![(0, 1), (1, 2), (2, 1)]);
    assert_eq!(sub.successors(1), vec![2]);
    // every edge carries the id that it has in the whole graph
    assert_eq!(*sub.edge_payload(0), 1);
    assert_eq!(*sub.edge_payload(1), 2);
    assert_eq!(*sub.edge_payload(2), 3);
}

#[test]
fn induced_subgraph_of_nothing() {
    let graph = graph_of(3, &[(0, 1), (1, 2)]);
    let sub = graph.induced_subgraph(&vec![false, false, false]);
    assert_eq!(sub.node_count(), 0);
    assert_eq!(sub.edge_count(), 0);
}

#[test]
fn update_edge_adds_an_edge_once() {
    let mut graph: LinkGraph<(), char> = LinkGraph::new();
    for _ in 0..3 {
        graph.add_node(());
    }
    graph.add_edge(0, 1, 'a');
    assert_eq!(graph.update_edge(0, 1, 'b'), 0);
    assert_eq!(graph.edge_count(), 1);
    assert_eq!(*graph.edge_payload(0), 'b');
    assert_eq!(graph.update_edge(0, 2, 'c'), 1);
    assert_eq!(graph.update_edge(0, 2, 'd'), 1);
    assert_eq!(graph.edge_count(), 2);
    assert_eq!(*graph.edge_payload(1), 'd');
    assert_eq!(graph.successors(0), vec![2, 1]);
}

#[test]
fn condense_carries_edge_payloads() {
    let mut graph: LinkGraph<i32, &str> = LinkGraph::new();
    for i in 0..4 {
        graph.add_node(i);
    }
    graph.add_edge(0, 1, "in");
    graph.add_edge(1, 0, "back");
    graph.add_edge(1, 2, "out");
    graph.add_edge(0, 2, "out too");
    graph.add_edge(2, 3, "on");
    let comps = vec![vec![3], vec![2], vec![0, 1]];
    let all = condense(&graph, &comps, false);
    assert_eq!(edges_of(&all), vec![(2, 2), (2, 2), (2, 1), (2, 1), (1, 0)]);
    for e in 0..5 {
        assert_eq!(all.edge_payload(e), graph.edge_payload(e));
    }
    // one edge for each pair of components; it carries the payload of the last
    let one = condense(&graph, &comps, true);
    assert_eq!(edges_of(&one), vec![(2, 1), (1, 0)]);
    assert_eq!(*one.edge_payload(0), "out too");
    assert_eq!(*one.edge_payload(1), "on");
}

#[test]
fn edge_endpoints_by_id() {
    let graph = graph_of(3, &[(0, 1), (2, 1), (1, 1)]);
    assert_eq!(graph.edge_endpoints(0), Some((0, 1)));
    assert_eq!(graph.edge_endpoints(1), Some((2, 1)));
    assert_eq!(graph.edge_endpoints(2), Some((1, 1)));
    assert_eq!(graph.edge_endpoints(3), None);
}

#[test]
fn payload_mut_changes_one_payload() {
    let mut graph = graph_of(3, &[(0, 1)]);
    *graph.payload_mut(1) = 7;
    assert_eq!(*graph.payload(0), 0);
    assert_eq!(*graph.payload(1), 7);
    assert_eq!(*graph.payload(2), 20);
    assert_eq!(graph.successors(0), vec![1]);
}

#[test]
fn add_edges_in_their_order() {
    let mut graph: LinkGraph<i32, String> = LinkGraph::new();
    for i in 0..3 {
        graph.add_node(i);
    }
    add_link_edges(&mut graph, &vec![(0, 1), (0, 2), (2, 2)]);
    assert_eq!(graph.successors(0), vec![2, 1]);
    assert_eq!(graph.successors(2), vec![2]);
    assert_eq!(graph.edge_endpoints(1), Some((0, 2)));
    assert_eq!(graph.edge_payload(1).as_str(), "");
}
