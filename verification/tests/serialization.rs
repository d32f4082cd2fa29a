use serigraph::eliminate::{eliminate_cycles, OutGoingCycleEliminator};
use serigraph::graph::LinkGraph;
use serigraph::serialize::{
    payloads_of, serial_order, serialize, GraphSerializer, SerializeError, ToposortSerializer,
};

fn graph_of(n: usize, edges: &[(usize, usize)]) -> LinkGraph<i32, ()> {
    let mut graph = LinkGraph::new();
    for i in 0..n {
        graph.add_node(i as i32);
    }
    for (a, b) in edges {
        graph.add_edge(*a, *b, ());
    }
    graph
}

fn edges_of(graph: &LinkGraph<i32, ()>) -> Vec<(usize, usize)> {
    let mut edges = Vec::new();
    for u in 0..graph.node_count() {
        for v in graph.successors(u) {
            edges.push((u, v));
        }
    }
    edges.sort();
    edges
}

/// `out` holds every node once, each after the nodes it has an edge to.
fn assert_dependencies_first(graph: &LinkGraph<i32, ()>, out: &[i32]) {
    assert_eq!(out.len(), graph.node_count());
    let place = |v: usize| out.iter().position(|x| *x == v as i32).unwrap();
    for u in 0..graph.node_count() {
        for v in graph.successors(u) {
            assert!(place(u) > place(v));
        }
    }
}

/// A triangle with a tail: the hub is node 1, so the edge 0 -> 1 is cut.
#[test]
fn triangle_with_a_tail() {
    let mut graph = graph_of(4, &[(0, 1), (1, 2), (2, 0), (1, 3)]);
    let nodes = serialize(&mut graph, &OutGoingCycleEliminator::default()).unwrap();
    assert_eq!(edges_of(&graph), vec![(1, 2), (1, 3), (2, 0)]);
    assert_dependencies_first(&graph, &nodes);
    assert_eq!(nodes, vec![0, 2, 3, 1]);
}

#[test]
fn triangle() {
    let mut graph = graph_of(3, &[(0, 1), (1, 2), (2, 0)]);
    let nodes = serialize(&mut graph, &OutGoingCycleEliminator::default()).unwrap();
    assert_eq!(graph.edge_count(), 2);
    assert_dependencies_first(&graph, &nodes);
}

#[test]
fn single_self_loop() {
    let mut graph = graph_of(1, &[(0, 0)]);
    let nodes = serialize(&mut graph, &OutGoingCycleEliminator::default()).unwrap();
    assert_eq!(graph.edge_count(), 0);
    assert_eq!(nodes, vec![0]);
}

#[test]
fn two_disjoint_triangles() {
    let mut graph = graph_of(6, &[(0, 1), (1, 2), (2, 0), (3, 4), (4, 5), (5, 3)]);
    let nodes = serialize(&mut graph, &OutGoingCycleEliminator::default()).unwrap();
    assert_eq!(graph.edge_count(), 4);
    let edges = edges_of(&graph);
    assert_eq!(edges.iter().filter(|(u, _)| *u < 3).count(), 2);
    assert_eq!(edges.iter().filter(|(u, _)| *u >= 3).count(), 2);
    assert_dependencies_first(&graph, &nodes);
}

#[test]
fn dag_is_left_as_it_is() {
    let edges = [(0, 1), (0, 2), (1, 3), (2, 3), (3, 4)];
    let mut graph = graph_of(5, &edges);
    let nodes = serialize(&mut graph, &OutGoingCycleEliminator::default()).unwrap();
    let mut sorted = edges.to_vec();
    sorted.sort();
    assert_eq!(edges_of(&graph), sorted);
    assert_dependencies_first(&graph, &nodes);
    let mut order = graph.topological_order().unwrap();
    order.reverse();
    assert_eq!(nodes, order.iter().map(|v| *v as i32).collect::<Vec<_>>());
}

#[test]
fn empty_graph_serializes_to_nothing() {
    let mut graph = graph_of(0, &[]);
    let nodes = serialize(&mut graph, &OutGoingCycleEliminator::default()).unwrap();
    assert_eq!(nodes, Vec::<i32>::new());
}

#[test]
fn payloads_are_cloned_not_renumbered() {
    let mut graph = LinkGraph::new();
    let a = graph.add_node("intro".to_string());
    let b = graph.add_node("basics".to_string());
    let c = graph.add_node("advanced".to_string());
    graph.add_edge(c, b, "builds on");
    graph.add_edge(b, a, "follows");
    graph.add_edge(a, c, "points ahead to");
    let nodes = serialize(&mut graph, &OutGoingCycleEliminator::default()).unwrap();
    assert_eq!(nodes.len(), 3);
    for name in ["intro", "basics", "advanced"] {
        assert_eq!(nodes.iter().filter(|n| n.as_str() == name).count(), 1);
    }
    assert_eq!(graph.payload(a).as_str(), "intro");
    assert_eq!(graph.payload(b).as_str(), "basics");
    assert_eq!(graph.payload(c).as_str(), "advanced");
    // the two edges that are left carry what they carried before
    assert_eq!(graph.edge_count(), 2);
    for e in 0..2 {
        let (u, v) = graph.edge_endpoints(e).unwrap();
        let want = if (u, v) == (c, b) {
            "builds on"
        } else if (u, v) == (b, a) {
            "follows"
        } else {
            "points ahead to"
        };
        assert_eq!(*graph.edge_payload(e), want);
    }
}

#[test]
fn a_limit_can_leave_a_cycle() {
    let mut graph = graph_of(3, &[(0, 1), (1, 0), (1, 2), (2, 1)]);
    let out = serialize(&mut graph, &OutGoingCycleEliminator { limit: Some(0) });
    match out {
        Err(SerializeError::CycleRemaining { node }) => {
            // the node lies on the cycle that is left
            assert!(graph.successors(node).iter().any(|w| graph.contains_edge(*w, node)));
        },
        Ok(_) => panic!("the cycle was not seen"),
    }
    // what the eliminator removed stays removed
    assert_eq!(graph.edge_count(), 3);
}

#[test]
fn serial_order_is_the_reverse_of_the_topological_order() {
    let graph = graph_of(4, &[(1, 2), (2, 0), (1, 3)]);
    let mut order = graph.topological_order().unwrap();
    order.reverse();
    assert_eq!(serial_order(&graph), Ok(order));
    assert_eq!(serial_order(&graph), Ok(vec![0, 2, 3, 1]));
}

#[test]
fn serial_order_names_a_node_on_the_cycle() {
    let graph = graph_of(3, &[(0, 1), (1, 2), (2, 1)]);
    match serial_order(&graph) {
        Err(SerializeError::CycleRemaining { node }) => assert!(node == 1 || node == 2),
        Ok(_) => panic!("the cycle was not seen"),
    }
}

#[test]
fn payloads_of_follows_the_order() {
    let graph = graph_of(3, &[]);
    assert_eq!(payloads_of(&graph, &vec![2, 0, 1, 0]), vec![2, 0, 1, 0]);
}

#[test]
fn toposort_serializer_without_limit() {
    let serializer = ToposortSerializer::default();
    assert_eq!(serializer.limit, None);
    let mut graph = graph_of(4, &[(0, 1), (1, 2), (2, 0), (1, 3)]);
    let nodes = serializer.serialize(&mut graph).unwrap();
    assert_eq!(nodes, vec![0, 2, 3, 1]);
    assert_eq!(edges_of(&graph), vec![(1, 2), (1, 3), (2, 0)]);
}

#[test]
fn toposort_serializer_with_limit() {
    let serializer = ToposortSerializer { limit: Some(0) };
    let mut graph = graph_of(3, &[(0, 1), (1, 0), (1, 2), (2, 1)]);
    assert!(serializer.serialize(&mut graph).is_err());
    let serializer = ToposortSerializer { limit: Some(1) };
    let mut graph = graph_of(3, &[(0, 1), (1, 0), (1, 2), (2, 1)]);
    let nodes = serializer.serialize(&mut graph).unwrap();
    assert_dependencies_first(&graph, &nodes);
}

#[test]
fn serialization_is_repeatable() {
    let edges = [(0, 1), (1, 0), (1, 2), (2, 1), (2, 0), (0, 2), (2, 3), (3, 0), (3, 4)];
    let mut first = graph_of(5, &edges);
    let mut second = graph_of(5, &edges);
    let a = serialize(&mut first, &OutGoingCycleEliminator::default()).unwrap();
    let b = serialize(&mut second, &OutGoingCycleEliminator::default()).unwrap();
    assert_eq!(a, b);
    assert_eq!(edges_of(&first), edges_of(&second));
    // a second run on the graph that is acyclic now removes nothing
    let before = edges_of(&first);
    eliminate_cycles(&mut first, None);
    assert_eq!(edges_of(&first), before);
}
