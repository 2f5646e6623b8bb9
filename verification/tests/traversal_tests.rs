use forcegraph::graph::{Graph, GraphErrorKind};
use forcegraph::utils::test_graph;

fn letters_graph() -> Graph<usize, usize> {
    let mut g: Graph<usize, usize> = Graph::new();
    for x in ['A', 'B', 'C', 'D', 'E', 'F', 'G', 'H'] {
        g.add_node(x as u64, 0);
    }
    g.add_edge('a' as u64, 'H' as u64, 'D' as u64, 6).unwrap();
    g.add_edge('b' as u64, 'D' as u64, 'C' as u64, 18).unwrap();
    g.add_edge('c' as u64, 'C' as u64, 'B' as u64, 10).unwrap();
    g.add_edge('d' as u64, 'H' as u64, 'A' as u64, 7).unwrap();
    g.add_edge('e' as u64, 'A' as u64, 'C' as u64, 4).unwrap();
    g.add_edge('f' as u64, 'H' as u64, 'G' as u64, 5).unwrap();
    g.add_edge('g' as u64, 'G' as u64, 'A' as u64, 8).unwrap();
    g.add_edge('h' as u64, 'A' as u64, 'F' as u64, 3).unwrap();
    g.add_edge('i' as u64, 'F' as u64, 'E' as u64, 15).unwrap();
    g.add_edge('j' as u64, 'C' as u64, 'E' as u64, 12).unwrap();
    g
}

#[test]
fn bfs_path() {
    let g = letters_graph();
    let p = g.bfs_path(&('G' as u64), &('B' as u64));
    match p {
        Ok(v) => {
            assert_eq!(4, v.len());
            assert!(v.contains(&('G' as u64)));
            assert!(v.contains(&('A' as u64)));
            assert!(v.contains(&('C' as u64)));
            assert!(v.contains(&('B' as u64)));
        }
        Err(_) => assert_eq!(false, true),
    }
    let p = g.bfs_path(&('G' as u64), &('Z' as u64));
    match p {
        Ok(_) => assert_eq!(false, true),
        Err(_) => assert!(true),
    }
}

#[test]
fn bfs_path_endpoints_and_steps() {
    let g = letters_graph();
    let v = g.bfs_path(&('G' as u64), &('E' as u64)).unwrap();
    assert_eq!(v[0], 'G' as u64);
    assert_eq!(*v.last().unwrap(), 'E' as u64);
    for w in v.windows(2) {
        assert!(g.connected(&w[0], &w[1]));
    }
}

#[test]
fn bfs_takes_the_short_way_round() {
    // A square with one diagonal: 1-2-3-4-1 plus 1-3.
    let mut g: Graph<i32, i32> = Graph::new();
    for n in 1..=4 {
        g.add_node(n, 0);
    }
    g.add_edge(1, 1, 2, 0).unwrap();
    g.add_edge(2, 2, 3, 0).unwrap();
    g.add_edge(3, 3, 4, 0).unwrap();
    g.add_edge(4, 4, 1, 0).unwrap();
    g.add_edge(5, 1, 3, 0).unwrap();
    // The diagonal makes 1 -> 3 a single hop, not two.
    assert_eq!(g.bfs_path(&1, &3).unwrap().len(), 2);
    // 2 -> 4 has two routes of equal length; either way, two hops.
    assert_eq!(g.bfs_path(&2, &4).unwrap().len(), 3);
}

#[test]
fn bfs_path_to_itself() {
    let mut g: Graph<i32, i32> = Graph::new();
    g.add_node(1, 0);
    assert_eq!(g.bfs_path(&1, &1).unwrap(), vec![1]);
}

#[test]
fn bfs_errors_name_what_went_wrong() {
    let mut g: Graph<i32, i32> = Graph::new();
    g.add_node(1, 0);
    g.add_node(2, 0);
    g.add_node(3, 0);
    g.add_edge(1, 1, 2, 0).unwrap();

    let err = g.bfs_path(&9, &1).unwrap_err();
    assert_eq!(err.kind, GraphErrorKind::MissingFrom);
    let err = g.bfs_path(&1, &9).unwrap_err();
    assert_eq!(err.kind, GraphErrorKind::MissingTo);
    // Node 3 exists but sits in its own component.
    let err = g.bfs_path(&1, &3).unwrap_err();
    assert_eq!(err.kind, GraphErrorKind::Unreachable);
    assert_eq!(err.message(), "End point can't be reached.");
}

#[test]
fn dfs_finds_exactly_one_component() {
    // Two components: {1,2,3} in a triangle and {10,11} joined by an edge.
    let mut g: Graph<i32, i32> = Graph::new();
    for n in [1, 2, 3, 10, 11] {
        g.add_node(n, 0);
    }
    g.add_edge(1, 1, 2, 0).unwrap();
    g.add_edge(2, 2, 3, 0).unwrap();
    g.add_edge(3, 3, 1, 0).unwrap();
    g.add_edge(4, 10, 11, 0).unwrap();

    let reach = g.dfs(&1);
    assert_eq!(reach.len(), 3);
    for n in [1, 2, 3] {
        assert!(reach.contains(&n));
    }
    for n in [10, 11] {
        assert!(!reach.contains(&n));
    }
    let other = g.dfs(&10);
    assert_eq!(other.len(), 2);
    assert!(other.contains(&10) && other.contains(&11));
}

#[test]
fn depth_first_respects_prior_marks() {
    // A chain 1-2-3; marking 2 beforehand walls off 3.
    let mut g: Graph<i32, i32> = Graph::new();
    for n in [1, 2, 3] {
        g.add_node(n, 0);
    }
    g.add_edge(1, 1, 2, 0).unwrap();
    g.add_edge(2, 2, 3, 0).unwrap();
    let mut visited = std::collections::HashSet::new();
    visited.insert(2);
    g.depth_first(&1, &mut visited);
    assert!(visited.contains(&1));
    assert!(visited.contains(&2));
    assert!(!visited.contains(&3));
}

#[test]
fn fixture_graph_is_one_component() {
    let g = test_graph();
    assert_eq!(g.nodes.keys().count(), 22);
    assert!(g.connected(&1, &2));
    let reach = g.dfs(&1);
    assert_eq!(reach.len(), 22);
}
