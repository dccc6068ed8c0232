use tow_dispatch::graph::{Graph, LoadError, Node};
use tow_dispatch::route::{Edge, UNREACHABLE};

fn edge(a: i32, b: i32, w: i32) -> Edge {
    Edge { node_a_id: a, node_b_id: b, weight: w }
}

fn node(id: i32) -> Node {
    Node { id, x: id * 10, y: -id }
}

fn sample_graph() -> Graph {
    let nodes = vec![node(1), node(2), node(3), node(4)];
    let edges = vec![edge(1, 2, 5), edge(2, 3, 3), edge(1, 3, 10), edge(3, 4, 1)];
    Graph::load(&nodes, &edges).unwrap()
}

#[test]
fn detour_beats_direct_edge() {
    let mut g = sample_graph();
    assert_eq!(g.shortest_path(1, 3), 8);
    assert_eq!(g.shortest_path(1, 4), 9);
    assert_eq!(g.shortest_path(4, 1), 9);
    assert_eq!(g.shortest_path(1, 99), UNREACHABLE);
}

#[test]
fn tie_explores_both_branches() {
    let mut g = Graph::new();
    for id in 1..=3 {
        g.add_node(node(id));
    }
    g.add_edge(edge(1, 2, 2));
    g.add_edge(edge(1, 3, 2));
    assert_eq!(g.shortest_path(1, 2), 2);
    assert_eq!(g.shortest_path(1, 3), 2);
    assert_eq!(g.shortest_path(2, 3), 4);
}

#[test]
fn distance_is_symmetric() {
    let mut g = sample_graph();
    for a in 1..=4 {
        for b in 1..=4 {
            assert_eq!(g.shortest_path(a, b), g.shortest_path(b, a));
        }
    }
}

#[test]
fn self_distance_is_zero() {
    let mut g = sample_graph();
    for n in 1..=4 {
        assert_eq!(g.shortest_path(n, n), 0);
    }
}

#[test]
fn triangle_inequality_holds() {
    let mut g = sample_graph();
    for a in 1..=4 {
        for b in 1..=4 {
            for c in 1..=4 {
                let ac = g.shortest_path(a, c) as i64;
                let ab = g.shortest_path(a, b) as i64;
                let bc = g.shortest_path(b, c) as i64;
                assert!(ac <= ab + bc);
            }
        }
    }
}

#[test]
fn repeated_queries_agree() {
    let mut g = sample_graph();
    let first = g.shortest_path(4, 2);
    let second = g.shortest_path(4, 2);
    assert_eq!(first, 4);
    assert_eq!(first, second);
}

#[test]
fn memo_matches_fresh_search() {
    let mut warm = sample_graph();
    let mut cold = sample_graph();
    for a in 1..=4 {
        for b in 1..=4 {
            warm.shortest_path(a, b);
        }
    }
    for a in 1..=4 {
        for b in 1..=4 {
            assert_eq!(warm.shortest_path(a, b), cold.shortest_path(a, b));
        }
    }
}

#[test]
fn disconnected_nodes_are_unreachable() {
    let nodes = vec![node(1), node(2), node(3), node(4)];
    let edges = vec![edge(1, 2, 1), edge(3, 4, 1)];
    let mut g = Graph::load(&nodes, &edges).unwrap();
    assert_eq!(g.shortest_path(1, 3), UNREACHABLE);
    assert_eq!(g.shortest_path(4, 2), UNREACHABLE);
    assert_eq!(g.shortest_path(1, 2), 1);
}

#[test]
fn unknown_node_reaches_only_itself() {
    let mut g = sample_graph();
    assert_eq!(g.shortest_path(99, 1), UNREACHABLE);
    assert_eq!(g.shortest_path(99, 99), 0);
}

#[test]
fn new_edge_clears_memo() {
    let mut g = sample_graph();
    assert_eq!(g.shortest_path(1, 4), 9);
    g.add_edge(edge(1, 4, 2));
    assert_eq!(g.shortest_path(1, 4), 2);
    assert_eq!(g.shortest_path(4, 3), 1);
    assert_eq!(g.shortest_path(2, 4), 4);
}

#[test]
fn parallel_edges_prefer_lighter() {
    let mut g = Graph::new();
    g.add_edge(edge(1, 2, 7));
    g.add_edge(edge(1, 2, 3));
    assert_eq!(g.shortest_path(2, 1), 3);
    assert_eq!(g.neighbors(1).len(), 2);
}

#[test]
fn zero_weight_edges() {
    let mut g = Graph::new();
    g.add_edge(edge(1, 2, 0));
    g.add_edge(edge(2, 3, 0));
    assert_eq!(g.shortest_path(1, 3), 0);
}

#[test]
fn cost_at_sentinel_is_unreachable() {
    let mut g = Graph::new();
    g.add_edge(edge(1, 2, i32::MAX - 1));
    g.add_edge(edge(2, 3, 1));
    g.add_edge(edge(3, 4, i32::MAX));
    assert_eq!(g.shortest_path(1, 2), i32::MAX - 1);
    assert_eq!(g.shortest_path(1, 3), UNREACHABLE);
    assert_eq!(g.shortest_path(3, 4), UNREACHABLE);
    assert_eq!(g.shortest_path(2, 3), 1);
}

#[test]
fn add_edge_lists_both_directions() {
    let mut g = Graph::new();
    g.add_edge(edge(5, 6, 4));
    assert_eq!(g.neighbors(5), vec![edge(5, 6, 4)]);
    assert_eq!(g.neighbors(6), vec![edge(6, 5, 4)]);
    assert_eq!(g.neighbors(7), Vec::<Edge>::new());
}

#[test]
fn self_loop_listed_twice() {
    let mut g = Graph::new();
    g.add_edge(edge(3, 3, 2));
    assert_eq!(g.neighbors(3), vec![edge(3, 3, 2), edge(3, 3, 2)]);
    assert_eq!(g.shortest_path(3, 3), 0);
}

#[test]
fn add_node_replaces_same_id() {
    let mut g = Graph::new();
    g.add_node(Node { id: 1, x: 0, y: 0 });
    g.add_node(Node { id: 1, x: 5, y: 6 });
    assert_eq!(g.node(1), Some(Node { id: 1, x: 5, y: 6 }));
    assert_eq!(g.node(2), None);
}

#[test]
fn load_refuses_negative_weight() {
    let nodes = vec![node(1), node(2)];
    let edges = vec![edge(1, 2, 3), edge(2, 1, -1), edge(1, 1, -5)];
    match Graph::load(&nodes, &edges) {
        Err(e) => assert_eq!(e, LoadError::NegativeWeight(1)),
        Ok(_) => panic!("a negative weight was accepted"),
    }
}

#[test]
fn load_keeps_nodes_and_order() {
    let nodes = vec![node(1), node(2), Node { id: 1, x: 7, y: 7 }];
    let edges = vec![edge(1, 2, 3), edge(2, 1, 4)];
    let g = Graph::load(&nodes, &edges).unwrap();
    assert_eq!(g.node(1), Some(Node { id: 1, x: 7, y: 7 }));
    assert_eq!(g.node(2), Some(node(2)));
    assert_eq!(g.neighbors(1), vec![edge(1, 2, 3), edge(1, 2, 4)]);
    assert_eq!(g.neighbors(2), vec![edge(2, 1, 3), edge(2, 1, 4)]);
}

#[test]
fn empty_graph() {
    let mut g = Graph::new();
    assert_eq!(g.shortest_path(1, 2), UNREACHABLE);
    assert_eq!(g.shortest_path(1, 1), 0);
}

#[test]
fn longer_network() {
    let nodes: Vec<Node> = (1..=6).map(node).collect();
    let edges = vec![
        edge(1, 2, 7),
        edge(1, 3, 9),
        edge(1, 6, 14),
        edge(2, 3, 10),
        edge(2, 4, 15),
        edge(3, 4, 11),
        edge(3, 6, 2),
        edge(4, 5, 6),
        edge(5, 6, 9),
    ];
    let mut g = Graph::load(&nodes, &edges).unwrap();
    assert_eq!(g.shortest_path(1, 5), 20);
    assert_eq!(g.shortest_path(1, 4), 20);
    assert_eq!(g.shortest_path(1, 6), 11);
    assert_eq!(g.shortest_path(5, 1), 20);
}
