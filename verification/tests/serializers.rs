use serigraph::dfs_serializer::{nodes_by_out_degree, visit_from, DfsSerializer};
use serigraph::eliminate::OutGoingCycleEliminator;
use serigraph::graph::LinkGraph;
use serigraph::scc_subgraph::{component_order, serialize2, SccSubgraphSerializer};
use serigraph::serialize::{serialize, GraphSerializer, SerializeError};

fn graph_of(n: usize, edges: &[(usize, usize)]) -> LinkGraph<i32, ()> {
    let mut graph = LinkGraph::new();
    for i in 0..n {
        graph.add_node(i as i32);
    }
    for (a, b) in edges {
        graph.add_edge(*a, *b, ());
    }
    graph
}

fn edges_of(graph: &LinkGraph<i32, ()>) -> Vec<(usize, usize)> {
    let mut edges = Vec::new();
    for u in 0..graph.node_count() {
        for v in graph.successors(u) {
            edges.push((u, v));
        }
    }
    edges.sort();
    edges
}

#[test]
fn mod_test_ser() {
    let mut g = LinkGraph::<i32, i32>::new();
    for i in 0..5 {
        g.add_node(i);
    }
    for (f, t) in &[(0, 1), (1, 2), (2, 0), (1, 3)] {
        g.add_edge(*f, *t, 0);
    }
    let ser = DfsSerializer;
    let res = ser.serialize(&mut g).unwrap();
    println!("{:?}", res);
}

#[test]
fn dfs_serializer_test_ser() {
    let mut g = LinkGraph::<i32, i32>::new();
    for i in 0..5 {
        g.add_node(i);
    }
    for (f, t) in &[(0, 1), (1, 2), (2, 0), (1, 3)] {
        g.add_edge(*f, *t, 0);
    }
    let ser = DfsSerializer;
    let res = ser.serialize(&mut g).unwrap();
    println!("{:?}", res);
}

#[test]
fn roots_come_by_out_degree_then_by_id() {
    let graph = graph_of(5, &[(0, 1), (1, 2), (2, 0), (1, 3)]);
    // node 1 has two outgoing edges, 0 and 2 have one, 3 and 4 have none
    assert_eq!(nodes_by_out_degree(&graph), vec![1, 2, 0, 4, 3]);
}

#[test]
fn sweep_hands_out_level_by_level() {
    let mut graph = graph_of(5, &[(0, 1), (1, 2), (2, 0), (1, 3)]);
    // from 1: its successors 3 and 2, then 0 behind 2; node 4 is a root of its own
    assert_eq!(DfsSerializer.serialize(&mut graph), Ok(vec![1, 3, 2, 0, 4]));
    assert_eq!(DfsSerializer.order(&graph), vec![1, 3, 2, 0, 4]);
    assert_eq!(graph.edge_count(), 4);
}

#[test]
fn sweep_lists_every_node_once() {
    let mut graph = graph_of(6, &[(0, 1), (0, 2), (1, 2), (2, 0), (3, 3), (4, 5), (5, 4), (4, 0)]);
    let mut out = DfsSerializer.serialize(&mut graph).unwrap();
    out.sort();
    assert_eq!(out, vec![0, 1, 2, 3, 4, 5]);
}

#[test]
fn visit_from_skips_what_was_handed_out() {
    let graph = graph_of(4, &[(0, 1), (1, 2), (2, 3)]);
    let mut visited = vec![false, false, true, false];
    let mut out = vec![2];
    visit_from(&graph, 0, &mut visited, &mut out);
    assert_eq!(out, vec![2, 0, 1]);
    assert_eq!(visited, vec![true, true, true, false]);
}

#[test]
fn sweep_of_an_empty_graph() {
    let mut graph = graph_of(0, &[]);
    assert_eq!(DfsSerializer.serialize(&mut graph), Ok(vec![]));
}

/// Every node once, and what a component links to before the component.
fn assert_components_in_order(graph: &LinkGraph<i32, ()>, out: &[i32]) {
    assert_eq!(out.len(), graph.node_count());
    let comps = graph.tarjan_components();
    let comp_of = |v: usize| comps.iter().position(|c| c.contains(&v)).unwrap();
    let place = |v: usize| out.iter().position(|x| *x == v as i32).unwrap();
    for u in 0..graph.node_count() {
        for v in graph.successors(u) {
            if comp_of(u) != comp_of(v) {
                assert!(place(u) > place(v));
            }
        }
    }
}

#[test]
fn components_are_serialized_one_by_one() {
    let edges = [(0, 1), (1, 2), (2, 0), (1, 3), (3, 4), (4, 3), (4, 5)];
    let mut graph = graph_of(6, &edges);
    let out = serialize2(&mut graph, &OutGoingCycleEliminator::default()).unwrap();
    assert_components_in_order(&graph, &out);
    // the sink comes first, the triangle last
    assert_eq!(out[0], 5);
    let mut pair = out[1..3].to_vec();
    pair.sort();
    assert_eq!(pair, vec![3, 4]);
    let mut triangle = out[3..].to_vec();
    triangle.sort();
    assert_eq!(triangle, vec![0, 1, 2]);
    // the graph keeps its edges
    let mut sorted = edges.to_vec();
    sorted.sort();
    assert_eq!(edges_of(&graph), sorted);
}

#[test]
fn component_of_a_triangle_with_a_tail() {
    let mut graph = graph_of(4, &[(0, 1), (1, 2), (2, 0), (1, 3)]);
    let out = serialize2(&mut graph, &OutGoingCycleEliminator::default()).unwrap();
    // node 3 first; in the copy of the triangle every node has one outgoing edge,
    // the chain is 2 0 1 and the edge 1 -> 2 is cut, which leaves 2 -> 0 -> 1
    assert_eq!(out, vec![3, 1, 0, 2]);
    assert_eq!(graph.edge_count(), 4);
}

#[test]
fn component_order_is_the_order_of_the_payloads() {
    let edges = [(0, 1), (1, 2), (2, 0), (1, 3), (3, 4), (4, 3), (4, 5)];
    let mut graph = graph_of(6, &edges);
    let eliminator = OutGoingCycleEliminator::default();
    let order = component_order(&graph, &eliminator).unwrap();
    assert_eq!(SccSubgraphSerializer.order(&graph), order);
    let out = serialize2(&mut graph, &eliminator).unwrap();
    assert_eq!(out, order.iter().map(|v| *v as i32).collect::<Vec<_>>());
    // inside a component the nodes follow what is left of the component: of the
    // pair 3 <-> 4 the chain is cut where it enters its first node
    let pair: Vec<usize> = order.iter().copied().filter(|v| *v == 3 || *v == 4).collect();
    let mut copy = graph_of(2, &[(0, 1), (1, 0)]);
    let inner = serialize(&mut copy, &eliminator).unwrap();
    assert_eq!(pair, inner.iter().map(|v| *v as usize + 3).collect::<Vec<_>>());
}

#[test]
fn scc_subgraph_serializer_never_fails() {
    let mut graph = graph_of(5, &[(0, 1), (1, 0), (1, 2), (2, 1), (2, 2), (3, 4), (4, 3), (0, 3)]);
    let out = SccSubgraphSerializer.serialize(&mut graph).unwrap();
    assert_components_in_order(&graph, &out);
    assert_eq!(graph.edge_count(), 8);
}

#[test]
fn a_limit_fails_inside_a_component() {
    let mut graph = graph_of(4, &[(3, 0), (0, 1), (1, 0), (1, 2), (2, 1)]);
    let out = serialize2(&mut graph, &OutGoingCycleEliminator { limit: Some(0) });
    match out {
        Err(SerializeError::CycleRemaining { node }) => assert!(node < 3),
        Ok(_) => panic!("the cycle was not seen"),
    }
    assert_eq!(graph.edge_count(), 5);
}

#[test]
fn component_serialization_of_an_empty_graph() {
    let mut graph = graph_of(0, &[]);
    assert_eq!(serialize2(&mut graph, &OutGoingCycleEliminator::default()), Ok(vec![]));
}
