use serigraph::chu_liu::{
    chu_liu_edmond, group_nodes, is_chu_liu_input, label_chain, pick_edges, try_chu_liu_edmond,
    walk_chain,
};

#[test]
fn test_chu_liu() {
    let edges = &[
        (0, 3, 8),
        (0, 1, 2),
        (0, 2, 10),
        (1, 3, 2),
        (2, 1, 1),
        (2, 4, 1),
        (3, 2, 8),
        (3, 4, 3),
        (4, 5, 1),
        (5, 2, 2),
    ];
    let res = chu_liu_edmond(6, edges.to_vec(), 0);
    println!("{:?}", res);
}

#[test]
fn cost_of_a_tree_is_the_sum_of_its_edges() {
    assert_eq!(chu_liu_edmond(3, vec![(0, 1, 5), (1, 2, 1)], 0), 6);
    assert_eq!(try_chu_liu_edmond(3, vec![(0, 1, 5), (1, 2, 1)], 0), Some(6));
}

#[test]
fn the_cheapest_edge_into_a_node_is_picked() {
    // node 2 is entered from 1 for 1, not from 0 for 3
    assert_eq!(chu_liu_edmond(3, vec![(0, 1, 5), (0, 2, 3), (1, 2, 1)], 0), 6);
}

#[test]
fn a_cycle_of_picked_edges_is_contracted() {
    // 1 and 2 pick each other; the cycle is entered through the edge 0 -> 1
    assert_eq!(chu_liu_edmond(3, vec![(0, 1, 10), (1, 2, 1), (2, 1, 1)], 0), 11);
}

#[test]
fn a_single_node_costs_nothing() {
    assert_eq!(chu_liu_edmond(1, vec![], 0), 0);
    assert_eq!(chu_liu_edmond(1, vec![(0, 0, 7)], 0), 0);
}

#[test]
fn cost_of_a_larger_graph() {
    let edges = vec![
        (0, 3, 8),
        (0, 1, 2),
        (0, 2, 10),
        (1, 3, 2),
        (2, 1, 1),
        (2, 4, 1),
        (3, 2, 8),
        (3, 4, 3),
        (4, 5, 1),
        (5, 2, 2),
    ];
    assert_eq!(try_chu_liu_edmond(6, edges.clone(), 0), Some(chu_liu_edmond(6, edges, 0)));
}

#[test]
fn picked_edges_by_node() {
    let edges = vec![(0, 1, 5), (2, 1, 5), (0, 2, 3), (1, 2, 1), (2, 0, 9)];
    // the first of two cheapest edges counts; the root picks none
    assert_eq!(pick_edges(3, &edges, 0), vec![(-1, None), (5, Some(0)), (1, Some(1))]);
    assert_eq!(pick_edges(2, &vec![], 1), vec![(i32::MAX, None), (-1, None)]);
}

#[test]
fn walks_stop_at_walked_nodes() {
    let table = vec![(-1, None), (1, Some(2)), (1, Some(1)), (4, Some(0))];
    let mut used = vec![false; 4];
    // from the root the walk ends at once, at the root
    assert_eq!(walk_chain(&table, &mut used, 0), (vec![0], 0));
    // 1 and 2 pick each other
    assert_eq!(walk_chain(&table, &mut used, 1), (vec![1, 2], 1));
    // 3 picks the root, which was walked
    assert_eq!(walk_chain(&table, &mut used, 3), (vec![3], 0));
    assert_eq!(used, vec![true; 4]);
}

#[test]
fn nodes_behind_the_stop_share_a_group() {
    let mut group = vec![0; 5];
    let mut comp = vec![false; 5];
    // the walk 0 1 2 3 stopped at 2: 0 and 1 stand alone, 2 and 3 share a group
    assert_eq!(label_chain(&vec![0, 1, 2, 3], 2, &mut group, &mut comp, 0), 3);
    assert_eq!(group, vec![0, 1, 2, 2, 0]);
    assert_eq!(comp, vec![false, false, true, false, false]);
    // a walk that stopped at a node of another walk: a group for each node
    assert_eq!(label_chain(&vec![4], 0, &mut group, &mut comp, 3), 4);
    assert_eq!(group, vec![0, 1, 2, 2, 3]);
}

#[test]
fn groups_of_all_nodes() {
    let table = vec![(-1, None), (1, Some(2)), (1, Some(1)), (4, Some(0))];
    let (group, comp, cnt) = group_nodes(&table);
    assert_eq!(group, vec![0, 1, 1, 2]);
    assert_eq!(comp, vec![true, true, false, false]);
    assert_eq!(cnt, 3);
}

#[test]
fn input_outside_the_graph_is_refused() {
    assert!(is_chu_liu_input(2, &vec![(0, 1, 1)], 0));
    assert!(!is_chu_liu_input(2, &vec![(0, 2, 1)], 0));
    assert!(!is_chu_liu_input(2, &vec![(2, 0, 1)], 0));
    assert!(!is_chu_liu_input(2, &vec![], 2));
    assert!(!is_chu_liu_input(0, &vec![], 0));
    assert_eq!(try_chu_liu_edmond(2, vec![(0, 2, 1)], 0), None);
    assert_eq!(try_chu_liu_edmond(2, vec![(0, 1, 1)], 5), None);
}

#[test]
fn sums_that_do_not_fit_are_refused() {
    // node 1 has no edge into it and counts for the greatest weight, node 2 for 1
    assert_eq!(try_chu_liu_edmond(3, vec![(0, 2, 1)], 0), None);
    assert_eq!(try_chu_liu_edmond(3, vec![(0, 1, i32::MAX), (1, 2, 1)], 0), None);
    // the weight of an edge into a cycle is lowered by what the cycle pays
    let far = vec![(0, 1, i32::MAX), (1, 2, i32::MIN + 5), (2, 1, i32::MIN)];
    assert_eq!(try_chu_liu_edmond(3, far, 0), None);
    // as much as just fits
    assert_eq!(try_chu_liu_edmond(2, vec![(0, 1, i32::MAX)], 0), Some(i32::MAX));
}
