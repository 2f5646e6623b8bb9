use forcegraph::graph::{Graph, GraphError, GraphErrorKind, Weighted};
use forcegraph::utils::create_random_graph;
use rand::Rng;

fn letters_graph() -> Graph<usize, usize> {
    let mut g: Graph<usize, usize> = Graph::new();
    for x in ['A', 'B', 'C', 'D', 'E', 'F', 'G', 'H'] {
        g.add_node(x as u64, 0);
    }
    g.add_edge('a' as u64, 'H' as u64, 'D' as u64, 6).unwrap();
    g.add_edge('b' as u64, 'D' as u64, 'C' as u64, 18).unwrap();
    g.add_edge('c' as u64, 'C' as u64, 'B' as u64, 10).unwrap();
    g.add_edge('d' as u64, 'H' as u64, 'A' as u64, 7).unwrap();
    g.add_edge('e' as u64, 'A' as u64, 'C' as u64, 4).unwrap();
    g.add_edge('f' as u64, 'H' as u64, 'G' as u64, 5).unwrap();
    g.add_edge('g' as u64, 'G' as u64, 'A' as u64, 8).unwrap();
    g.add_edge('h' as u64, 'A' as u64, 'F' as u64, 3).unwrap();
    g.add_edge('i' as u64, 'F' as u64, 'E' as u64, 15).unwrap();
    g.add_edge('j' as u64, 'C' as u64, 'E' as u64, 12).unwrap();
    g
}

#[test]
fn basic_connections() {
    let g = letters_graph();
    assert_eq!(g.nodes.keys().count(), 8);
    assert_eq!(g.edges.keys().count(), 10);

    assert_eq!(true, g.connected(&('C' as u64), &('A' as u64)));
    assert_eq!(true, g.connected(&('A' as u64), &('C' as u64)));
}

#[test]
fn connected_is_symmetric_everywhere() {
    let g = letters_graph();
    let ids = g.node_ids();
    for &a in &ids {
        for &b in &ids {
            assert_eq!(g.connected(&a, &b), g.connected(&b, &a));
        }
    }
}

#[test]
fn self_loop_is_not_a_neighbor() {
    let mut g: Graph<i32, i32> = Graph::new();
    g.add_node(1, 0);
    g.add_node(2, 0);
    g.add_edge(10, 1, 1, 0).unwrap();
    // A node with only a self-loop has an empty neighbor set.
    let n1 = g.neighbors(1).unwrap();
    assert!(n1.is_empty());
    // Even with an ordinary edge beside the loop, the node never lists itself.
    g.add_edge(11, 1, 2, 0).unwrap();
    let n1 = g.neighbors(1).unwrap();
    assert!(!n1.contains(&1));
    assert!(n1.contains(&2));
    assert_eq!(n1.len(), 1);
}

#[test]
fn new_edge_joins_both_neighbor_sets() {
    let mut g: Graph<i32, i32> = Graph::new();
    g.add_node(7, 0);
    g.add_node(8, 0);
    g.add_node(9, 0);
    g.add_edge(1, 7, 8, 5).unwrap();
    assert!(g.neighbors(7).unwrap().contains(&8));
    assert!(g.neighbors(8).unwrap().contains(&7));
    assert!(!g.neighbors(9).unwrap().contains(&7));
}

#[test]
fn add_edge_missing_endpoint_leaves_graph_unchanged() {
    let mut g: Graph<i32, i32> = Graph::new();
    g.add_node(1, 0);
    g.add_node(2, 0);
    g.add_edge(1, 1, 2, 0).unwrap();

    let err = g.add_edge(2, 99, 2, 0).unwrap_err();
    assert_eq!(err.kind, GraphErrorKind::MissingFrom);
    assert_eq!(err.message(), "'from' not in nodes.");

    let err = g.add_edge(2, 1, 99, 0).unwrap_err();
    assert_eq!(err.kind, GraphErrorKind::MissingTo);

    // No partial mutation happened.
    assert_eq!(g.nodes.keys().count(), 2);
    assert_eq!(g.edges.keys().count(), 1);
    assert!(!g.connected(&1, &99));
    assert!(!g.connected(&99, &2));
    let n1 = g.neighbors(1).unwrap();
    assert_eq!(n1.len(), 1);
    assert!(n1.contains(&2));
}

#[test]
fn re_adding_an_edge_id_replaces_the_edge() {
    let mut g: Graph<i32, i32> = Graph::new();
    g.add_node(1, 0);
    g.add_node(2, 0);
    g.add_node(3, 0);
    g.add_edge(7, 1, 2, 0).unwrap();
    assert!(g.connected(&1, &2));
    // The same edge identifier used again moves the edge: the old endpoints
    // are unlinked, the new ones joined, and no stale listing is left.
    g.add_edge(7, 2, 3, 0).unwrap();
    assert!(!g.connected(&1, &2));
    assert!(g.connected(&2, &3));
    assert_eq!(g.edges.keys().count(), 1);
    assert!(g.neighbors(1).unwrap().is_empty());
    let n2 = g.neighbors(2).unwrap();
    assert!(n2.contains(&3) && !n2.contains(&1));
}

#[test]
fn add_node_twice_keeps_first_payload() {
    let mut g: Graph<i32, i32> = Graph::new();
    g.add_node(1, 41);
    g.add_node(1, 99);
    assert_eq!(*g.node_data(1).unwrap(), 41);
    assert_eq!(g.nodes.keys().count(), 1);
}

#[test]
fn neighbors_of_absent_node_fails() {
    let g: Graph<i32, i32> = Graph::new();
    let err = g.neighbors(5).unwrap_err();
    assert_eq!(err.kind, GraphErrorKind::NodeNotFound);
}

#[test]
fn payload_lookup() {
    let mut g: Graph<i32, i32> = Graph::new();
    g.add_node(3, 30);
    g.add_node(4, 40);
    g.add_edge(1, 3, 4, 77).unwrap();
    assert_eq!(*g.node_data(3).unwrap(), 30);
    assert_eq!(*g.edge_data(1).unwrap(), 77);
    assert!(g.node_data(5).is_none());
    assert!(g.edge_data(2).is_none());
}

#[test]
fn sorted_ids_are_ascending() {
    let mut g: Graph<i32, i32> = Graph::new();
    for id in [9u64, 3, 7, 1, 5] {
        g.add_node(id, 0);
    }
    // Insertion order is kept by node_ids ...
    assert_eq!(g.node_ids(), vec![9, 3, 7, 1, 5]);
    // ... and sorted_node_ids returns the same identifiers ascending.
    assert_eq!(g.sorted_node_ids(), vec![1, 3, 5, 7, 9]);
}

#[test]
fn apply_nodes() {
    let mut g1: Graph<i32, i32> = create_random_graph(10, 20, 1, 10, 0, 1);

    g1.nodes.values().for_each(|n| assert_eq!(0, n.data));

    g1.apply_to_nodes(|_| {
        let mut rng = rand::thread_rng();
        rng.gen_range(10..100)
    });
    g1.nodes
        .values()
        .for_each(|n| assert!(n.data >= 10 && n.data <= 100));
}

#[test]
fn apply_edges() {
    let mut g1: Graph<i32, i32> = create_random_graph(10, 20, 1, 10, 0, 1);
    g1.edges
        .values()
        .for_each(|e| assert!(e.data >= 1 && e.data <= 10));

    g1.apply_to_edges(|_| 1234);
    g1.edges.values().for_each(|e| assert!(e.data == 1234));
}

#[test]
fn weight_of_an_integer_is_itself() {
    assert_eq!(5i32.weight(), 5);
    assert_eq!((-3i32).weight(), -3);
}

#[test]
fn error_values_carry_kind_and_message() {
    let e = GraphError::new(GraphErrorKind::Unreachable, "nothing leads there");
    assert_eq!(e.kind, GraphErrorKind::Unreachable);
    assert_eq!(e.message(), "nothing leads there");
}

#[test]
fn random_graph_respects_its_bounds() {
    let g = create_random_graph(5, 9, 2, 4, -3, 3);
    let n = g.nodes.keys().count();
    // The node count drawn from 5..9 yields one less node than the draw.
    assert!((4..=7).contains(&n));
    for k in g.nodes.keys() {
        assert!(*k < n as u64);
    }
    for e in g.edges.values() {
        assert_ne!(e.left, e.right);
        assert!((2..=3).contains(&e.data));
    }
    for d in g.nodes.values() {
        assert!((-3..=2).contains(&d.data));
    }
}
