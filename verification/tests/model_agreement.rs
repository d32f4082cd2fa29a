use serigraph::graph::LinkGraph;

/// A small generator of numbers that looks random and is the same in every run.
struct Dice(u64);

impl Dice {
    fn roll(&mut self, sides: usize) -> usize {
        self.0 = self.0.wrapping_mul(6364136223846793005).wrapping_add(1442695040888963407);
        ((self.0 >> 33) as usize) % sides
    }
}

/// The edges by id and, for every node, the ids of its outgoing edges in
/// enumeration order: what the contracts of the graph speak of.
struct Model {
    ends: Vec<(usize, usize)>,
    order: Vec<Vec<usize>>,
}

impl Model {
    fn new() -> Self {
        Model { ends: vec![], order: vec![] }
    }

    fn add_node(&mut self) -> usize {
        self.order.push(vec![]);
        self.order.len() - 1
    }

    fn add_edge(&mut self, a: usize, b: usize) -> usize {
        let id = self.ends.len();
        self.ends.push((a, b));
        self.order[a].insert(0, id);
        id
    }

    fn find_edge(&self, a: usize, b: usize) -> Option<usize> {
        self.order[a].iter().copied().find(|e| self.ends[*e].1 == b)
    }

    fn remove_edge(&mut self, e: usize) {
        let last = self.ends.len() - 1;
        let src = self.ends[e].0;
        let at = self.order[src].iter().position(|x| *x == e).unwrap();
        self.order[src].remove(at);
        for row in self.order.iter_mut() {
            for x in row.iter_mut() {
                if *x == last {
                    *x = e;
                }
            }
        }
        self.ends.swap_remove(e);
    }

    fn successors(&self, a: usize) -> Vec<usize> {
        self.order[a].iter().map(|e| self.ends[*e].1).collect()
    }

    fn reaches(&self, from: usize, to: usize) -> bool {
        let mut seen = vec![false; self.order.len()];
        let mut stack = vec![from];
        while let Some(u) = stack.pop() {
            if u == to {
                return true;
            }
            if !seen[u] {
                seen[u] = true;
                stack.extend(self.successors(u));
            }
        }
        false
    }

    fn on_cycle(&self, v: usize) -> bool {
        self.successors(v).iter().any(|w| self.reaches(*w, v))
    }
}

fn assert_same(graph: &LinkGraph<usize, usize>, model: &Model) {
    assert_eq!(graph.node_count(), model.order.len());
    assert_eq!(graph.edge_count(), model.ends.len());
    for e in 0..model.ends.len() {
        assert_eq!(graph.edge_endpoints(e), Some(model.ends[e]));
    }
    for a in 0..model.order.len() {
        assert_eq!(graph.successors(a), model.successors(a));
        assert_eq!(graph.out_degree(a), model.order[a].len());
        for b in 0..model.order.len() {
            assert_eq!(graph.find_edge(a, b), model.find_edge(a, b));
        }
    }
}

/// A graph and its model after `steps` random additions and removals.
fn grown(seed: u64, nodes: usize, steps: usize) -> (LinkGraph<usize, usize>, Model) {
    let mut dice = Dice(seed);
    let mut graph: LinkGraph<usize, usize> = LinkGraph::new();
    let mut model = Model::new();
    // every edge carries a number of its own, by which it is known again
    let mut next = 0;
    let mut carried: Vec<usize> = vec![];
    for i in 0..nodes {
        assert_eq!(graph.add_node(i), model.add_node());
    }
    for _ in 0..steps {
        match dice.roll(4) {
            0 if !model.ends.is_empty() => {
                let e = dice.roll(model.ends.len());
                assert_eq!(graph.remove_edge(e), Some(carried[e]));
                model.remove_edge(e);
                carried.swap_remove(e);
            },
            1 => {
                let (a, b) = (dice.roll(nodes), dice.roll(nodes));
                let found = model.find_edge(a, b);
                let id = graph.update_edge(a, b, next);
                match found {
                    Some(e) => {
                        assert_eq!(id, e);
                        carried[e] = next;
                    },
                    None => {
                        assert_eq!(id, model.add_edge(a, b));
                        carried.push(next);
                    },
                }
                next += 1;
            },
            _ => {
                let (a, b) = (dice.roll(nodes), dice.roll(nodes));
                assert_eq!(graph.add_edge(a, b, next), model.add_edge(a, b));
                carried.push(next);
                next += 1;
            },
        }
        assert_same(&graph, &model);
        for e in 0..carried.len() {
            assert_eq!(*graph.edge_payload(e), carried[e]);
        }
    }
    (graph, model)
}

#[test]
fn additions_and_removals_follow_the_model() {
    for seed in 0..20 {
        grown(seed, 5, 60);
    }
    grown(99, 1, 30);
    grown(100, 12, 200);
}

#[test]
fn components_follow_the_model() {
    for seed in 0..40 {
        let (graph, model) = grown(seed, 7, 4 + (seed as usize % 12));
        let n = model.order.len();
        for comps in [graph.tarjan_components(), graph.kosaraju_components()] {
            let mut place = vec![usize::MAX; n];
            for (i, comp) in comps.iter().enumerate() {
                assert!(!comp.is_empty());
                for v in comp {
                    // every node stands in one place
                    assert_eq!(place[*v], usize::MAX);
                    place[*v] = i;
                }
            }
            for u in 0..n {
                assert!(place[u] != usize::MAX);
                for v in 0..n {
                    // two nodes share a component exactly if they reach each other
                    let both = model.reaches(u, v) && model.reaches(v, u);
                    assert_eq!(place[u] == place[v], both);
                }
                for v in model.successors(u) {
                    // no edge leads from a component to a later one
                    assert!(place[u] >= place[v]);
                }
            }
        }
    }
}

#[test]
fn topological_order_follows_the_model() {
    let mut sorted = 0;
    for seed in 0..80 {
        let (graph, model) = grown(seed, 6, 3 + (seed as usize % 7));
        let n = model.order.len();
        let cyclic = (0..n).any(|v| model.on_cycle(v));
        match graph.topological_order() {
            Ok(order) => {
                assert!(!cyclic);
                sorted += 1;
                let mut seen = order.clone();
                seen.sort();
                assert_eq!(seen, (0..n).collect::<Vec<_>>());
                let place = |v: usize| order.iter().position(|x| *x == v).unwrap();
                for u in 0..n {
                    for v in model.successors(u) {
                        assert!(place(u) < place(v));
                    }
                }
            },
            Err(node) => {
                assert!(cyclic);
                assert!(model.on_cycle(node));
            },
        }
    }
    assert!(sorted > 0);
}

#[test]
fn induced_subgraphs_follow_the_model() {
    for seed in 0..30 {
        let (graph, model) = grown(seed, 6, 25);
        let n = model.order.len();
        let mut dice = Dice(seed + 1000);
        let keep: Vec<bool> = (0..n).map(|_| dice.roll(3) > 0).collect();
        let sub = graph.induced_subgraph(&keep);
        // the model of the subgraph: kept nodes renumbered, kept edges added by id
        let rank = |v: usize| keep[..v].iter().filter(|k| **k).count();
        let mut want = Model::new();
        let mut ids = vec![];
        for v in 0..n {
            if keep[v] {
                assert_eq!(*sub.payload(want.add_node()), v);
            }
        }
        for (e, (a, b)) in model.ends.iter().enumerate() {
            if keep[*a] && keep[*b] {
                want.add_edge(rank(*a), rank(*b));
                ids.push(e);
            }
        }
        assert_eq!(sub.node_count(), want.order.len());
        assert_eq!(sub.edge_count(), want.ends.len());
        for e in 0..want.ends.len() {
            assert_eq!(sub.edge_endpoints(e), Some(want.ends[e]));
            assert_eq!(*sub.edge_payload(e), ids[e]);
        }
        for a in 0..want.order.len() {
            assert_eq!(sub.successors(a), want.successors(a));
        }
    }
}

#[test]
fn component_order_depends_on_the_successors_alone() {
    // two graphs with the same successor lists, built in different ways
    let mut one: LinkGraph<(), ()> = LinkGraph::new();
    let mut other: LinkGraph<(), ()> = LinkGraph::new();
    for _ in 0..5 {
        one.add_node(());
        other.add_node(());
    }
    for (a, b) in [(0, 1), (1, 2), (2, 0), (2, 3), (3, 4), (4, 3)] {
        one.add_edge(a, b, ());
    }
    // the same edges in another order, with edges between that are removed again
    for (a, b) in [(3, 4), (4, 0), (2, 3), (0, 1), (2, 0), (1, 4), (4, 3), (1, 2)] {
        other.add_edge(a, b, ());
    }
    other.remove_edge(other.find_edge(4, 0).unwrap());
    other.remove_edge(other.find_edge(1, 4).unwrap());
    // bring the successors of 2 into the same order as in the first graph
    other.remove_edge(other.find_edge(2, 0).unwrap());
    other.remove_edge(other.find_edge(2, 3).unwrap());
    other.add_edge(2, 0, ());
    other.add_edge(2, 3, ());
    for u in 0..5 {
        assert_eq!(one.successors(u), other.successors(u));
    }
    assert_eq!(one.tarjan_components(), other.tarjan_components());
    let mut sorted_one = one.tarjan_components();
    sorted_one.sort();
    assert_eq!(sorted_one.len(), 2);
}

#[test]
fn orders_depend_on_the_successors_alone() {
    let mut sorted = 0;
    for seed in 0..60 {
        let mut dice = Dice(seed * 7 + 1);
        let n = 6;
        // the successors of every node, in the order in which they are to be enumerated
        let mut rows: Vec<Vec<usize>> = vec![vec![]; n];
        for _ in 0..(3 + seed as usize % 8) {
            let (a, b) = (dice.roll(n), dice.roll(n));
            if seed % 2 == 0 || a < b {
                rows[a].push(b);
            }
        }
        // one graph gets the edges node by node, the other node by node from behind
        let mut one: LinkGraph<(), ()> = LinkGraph::new();
        let mut other: LinkGraph<(), ()> = LinkGraph::new();
        for _ in 0..n {
            one.add_node(());
            other.add_node(());
        }
        for a in 0..n {
            for b in rows[a].iter().rev() {
                one.add_edge(a, *b, ());
            }
        }
        for a in (0..n).rev() {
            for b in rows[a].iter().rev() {
                other.add_edge(a, *b, ());
            }
        }
        for a in 0..n {
            assert_eq!(one.successors(a), rows[a]);
            assert_eq!(other.successors(a), rows[a]);
        }
        assert_eq!(one.tarjan_components(), other.tarjan_components());
        match (one.topological_order(), other.topological_order()) {
            (Ok(a), Ok(b)) => {
                assert_eq!(a, b);
                sorted += 1;
            },
            (Err(_), Err(_)) => {},
            _ => panic!("one graph has a cycle and the other has none"),
        }
    }
    assert!(sorted > 10);
}
