use serigraph::graph::LinkGraph;

fn graph_of(n: usize, edges: &[(usize, usize)]) -> LinkGraph<i32, ()> {
    let mut graph = LinkGraph::new();
    for i in 0..n {
        graph.add_node(i as i32);
    }
    for (a, b) in edges {
        graph.add_edge(*a, *b, ());
    }
    graph
}

#[test]
fn new_graph_is_empty() {
    let graph: LinkGraph<i32, ()> = LinkGraph::new();
    assert_eq!(graph.node_count(), 0);
    assert_eq!(graph.edge_count(), 0);
}

#[test]
fn nodes_are_numbered_in_order() {
    let mut graph: LinkGraph<&str, ()> = LinkGraph::new();
    assert_eq!(graph.add_node("a"), 0);
    assert_eq!(graph.add_node("b"), 1);
    assert_eq!(graph.add_node("c"), 2);
    assert_eq!(graph.node_count(), 3);
    assert_eq!(*graph.payload(0), "a");
    assert_eq!(*graph.payload(2), "c");
    assert_eq!(graph.successors(1), Vec::<usize>::new());
}

#[test]
fn edges_are_numbered_in_order() {
    let mut graph = graph_of(3, &[]);
    assert_eq!(graph.add_edge(0, 1, ()), 0);
    assert_eq!(graph.add_edge(1, 2, ()), 1);
    assert_eq!(graph.add_edge(2, 2, ()), 2);
    assert_eq!(graph.edge_count(), 3);
}

#[test]
fn successors_come_newest_first() {
    let graph = graph_of(4, &[(0, 1), (0, 2), (0, 3), (1, 0)]);
    assert_eq!(graph.successors(0), vec![3, 2, 1]);
    assert_eq!(graph.successors(1), vec![0]);
    assert_eq!(graph.successors(2), Vec::<usize>::new());
    assert_eq!(graph.out_degree(0), 3);
    assert_eq!(graph.out_degree(3), 0);
}

#[test]
fn find_edge_follows_direction() {
    let graph = graph_of(3, &[(0, 1), (1, 2)]);
    assert_eq!(graph.find_edge(0, 1), Some(0));
    assert_eq!(graph.find_edge(1, 2), Some(1));
    assert_eq!(graph.find_edge(1, 0), None);
    assert_eq!(graph.find_edge(0, 2), None);
    assert!(graph.contains_edge(0, 1));
    assert!(!graph.contains_edge(2, 1));
}

#[test]
fn find_edge_outside_the_graph() {
    let graph = graph_of(2, &[(0, 1)]);
    assert_eq!(graph.find_edge(0, 7), None);
    assert_eq!(graph.find_edge(7, 0), None);
    assert!(!graph.contains_edge(usize::MAX, 0));
}

#[test]
fn find_edge_takes_the_newest_of_parallel_edges() {
    let graph = graph_of(2, &[(0, 1), (0, 1)]);
    assert_eq!(graph.successors(0), vec![1, 1]);
    assert_eq!(graph.find_edge(0, 1), Some(1));
}

#[test]
fn remove_edge_keeps_the_order_of_the_rest() {
    let mut graph = graph_of(4, &[(0, 1), (0, 2), (0, 3)]);
    // edge 1 is 0 -> 2
    assert_eq!(graph.remove_edge(1), Some(()));
    assert_eq!(graph.successors(0), vec![3, 1]);
    assert_eq!(graph.edge_count(), 2);
    assert!(!graph.contains_edge(0, 2));
}

#[test]
fn remove_edge_hands_its_id_to_the_last_edge() {
    let mut graph = graph_of(4, &[(0, 1), (1, 2), (2, 3)]);
    assert_eq!(graph.find_edge(2, 3), Some(2));
    assert_eq!(graph.remove_edge(0), Some(()));
    assert_eq!(graph.find_edge(2, 3), Some(0));
    assert_eq!(graph.find_edge(1, 2), Some(1));
    assert_eq!(graph.find_edge(0, 1), None);
}

#[test]
fn remove_edge_without_an_edge() {
    let mut graph = graph_of(2, &[(0, 1)]);
    assert_eq!(graph.remove_edge(1), None);
    assert_eq!(graph.remove_edge(usize::MAX), None);
    assert_eq!(graph.edge_count(), 1);
    assert_eq!(graph.successors(0), vec![1]);
}

#[test]
fn remove_edge_takes_one_of_parallel_edges() {
    let mut graph = graph_of(2, &[(0, 1), (0, 1)]);
    let e = graph.find_edge(0, 1).unwrap();
    assert_eq!(graph.remove_edge(e), Some(()));
    assert_eq!(graph.successors(0), vec![1]);
    assert!(graph.contains_edge(0, 1));
}

#[test]
fn self_loops_are_edges() {
    let mut graph = graph_of(1, &[(0, 0)]);
    assert_eq!(graph.successors(0), vec![0]);
    assert_eq!(graph.find_edge(0, 0), Some(0));
    assert_eq!(graph.remove_edge(0), Some(()));
    assert_eq!(graph.successors(0), Vec::<usize>::new());
}

#[test]
fn edges_carry_their_payloads() {
    let mut graph: LinkGraph<(), &str> = LinkGraph::new();
    for _ in 0..3 {
        graph.add_node(());
    }
    graph.add_edge(0, 1, "first");
    graph.add_edge(1, 2, "second");
    graph.add_edge(2, 0, "third");
    assert_eq!(*graph.edge_payload(0), "first");
    assert_eq!(*graph.edge_payload(2), "third");
    // the last edge takes over the id of the edge that leaves, with its payload
    assert_eq!(graph.remove_edge(0), Some("first"));
    assert_eq!(graph.edge_endpoints(0), Some((2, 0)));
    assert_eq!(*graph.edge_payload(0), "third");
    assert_eq!(*graph.edge_payload(1), "second");
    assert_eq!(graph.edge_count(), 2);
}

/// Sorted, the components of a decomposition.
fn normalized(mut comps: Vec<Vec<usize>>) -> Vec<Vec<usize>> {
    for c in comps.iter_mut() {
        c.sort();
    }
    comps.sort();
    comps
}

#[test]
fn tarjan_components_of_a_mixed_graph() {
    let graph = graph_of(5, &[(0, 1), (1, 2), (2, 0), (1, 3), (3, 4)]);
    let comps = graph.tarjan_components();
    assert_eq!(comps.len(), 3);
    assert_eq!(normalized(comps.clone()), vec![vec![0, 1, 2], vec![3], vec![4]]);
    // a sink component comes first
    assert_eq!(comps[0], vec![4]);
    assert_eq!(comps[1], vec![3]);
}

#[test]
fn kosaraju_components_of_a_mixed_graph() {
    let graph = graph_of(5, &[(0, 1), (1, 2), (2, 0), (1, 3), (3, 4)]);
    let comps = graph.kosaraju_components();
    assert_eq!(normalized(comps.clone()), vec![vec![0, 1, 2], vec![3], vec![4]]);
    assert_eq!(comps[0], vec![4]);
    assert_eq!(comps[1], vec![3]);
}

#[test]
fn components_of_a_graph_without_edges() {
    let graph = graph_of(3, &[]);
    assert_eq!(normalized(graph.tarjan_components()), vec![vec![0], vec![1], vec![2]]);
    assert_eq!(normalized(graph.kosaraju_components()), vec![vec![0], vec![1], vec![2]]);
}

#[test]
fn topological_order_of_a_dag() {
    let graph = graph_of(4, &[(1, 2), (2, 0), (1, 3)]);
    let order = graph.topological_order().unwrap();
    assert_eq!(order.len(), 4);
    let place = |v: usize| order.iter().position(|x| *x == v).unwrap();
    assert!(place(1) < place(2));
    assert!(place(2) < place(0));
    assert!(place(1) < place(3));
}

#[test]
fn topological_order_fails_on_a_cycle() {
    let graph = graph_of(4, &[(0, 1), (1, 2), (2, 1), (2, 3)]);
    let node = graph.topological_order().unwrap_err();
    assert!(node == 1 || node == 2);
}

#[test]
fn topological_order_fails_on_a_self_loop() {
    let graph = graph_of(2, &[(0, 1), (1, 1)]);
    assert_eq!(graph.topological_order(), Err(1));
}
