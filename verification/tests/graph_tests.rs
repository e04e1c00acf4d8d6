use qbench_check::errors::LoadError;
use qbench_check::graph::Graph;

#[test]
fn build_by_hand() {
    let mut g = Graph::new("by hand");
    let a = g.add_node();
    let b = g.add_node();
    let c = g.add_node();
    assert_eq!((a, b, c), (0, 1, 2));
    g.add_edge(0, 1).unwrap();
    g.add_edge(1, 2).unwrap();
    assert_eq!(g.node_count(), 3);
    assert_eq!(g.edge_count(), 2);
    assert_eq!(g.name(), "by hand");
    assert!(g.add_edge(0, 3).is_err());
    assert_eq!(g.edge_count(), 2);
}

#[test]
fn loader_counts_and_symmetry() {
    let g = Graph::read_from_text("t", b"c comment\np edge 4 2\ne 1 2\ne 3 4\n").unwrap();
    assert_eq!(g.node_count(), 4);
    // each edge stored in both directions: the counter is half the entries
    assert_eq!(g.edge_count(), 2);
    assert_eq!(g.connected_components(), 2);
    assert_eq!(g.max_degree(), 1);
}

#[test]
fn loader_rejects_malformed() {
    assert_eq!(
        Graph::read_from_text("t", b"q 1 2\n"),
        Err(LoadError::SyntaxError { line: 1 })
    );
    assert_eq!(
        Graph::read_from_text("t", b"p edge x 3\n"),
        Err(LoadError::BadNodeCount { line: 1 })
    );
    assert_eq!(
        Graph::read_from_text("t", b"p edge 3 x\n"),
        Err(LoadError::BadEdgeCount { line: 1 })
    );
    assert_eq!(
        Graph::read_from_text("t", b"p edge 3 1\ne a 2\n"),
        Err(LoadError::BadNodeNo { line: 2 })
    );
    assert_eq!(
        Graph::read_from_text("t", b"p edge 3 1\ne 1 1\n"),
        Err(LoadError::EdgeOutOfRange { line: 2, tail: 1, head: 1, node_count: 3 })
    );
    assert_eq!(
        Graph::read_from_text("t", b"p edge 3 1\ne 1 4\n"),
        Err(LoadError::EdgeOutOfRange { line: 2, tail: 1, head: 4, node_count: 3 })
    );
    assert_eq!(
        Graph::read_from_text("t", b"p edge 3 2\ne 1 2\n"),
        Err(LoadError::MissingEdges { missing: 1 })
    );
    assert_eq!(
        Graph::read_from_text("t", b"e 1 2\n"),
        Err(LoadError::SyntaxError { line: 1 })
    );
    assert_eq!(
        Graph::read_from_text("t", b"p edge 3 1\np edge 3 1\n"),
        Err(LoadError::SyntaxError { line: 2 })
    );
}

#[test]
fn bfs_exact_depths() {
    // a path of five nodes: the far end is four hops away
    let g = Graph::read_from_text("t", b"p edge 5 4\ne 1 2\ne 2 3\ne 3 4\ne 4 5\n").unwrap();
    assert_eq!(g.bfs_depth(0), 4);
    assert_eq!(g.bfs_depth(2), 2);
    assert_eq!(g.diameter_serial(), 4);
    assert_eq!(g.diameter(), 4);
}

#[test]
fn components_counted_in_id_order() {
    // components: {1,2}, {3}, {4}, {5,6}
    let g = Graph::read_from_text("t", b"p edge 6 2\ne 1 2\ne 5 6\n").unwrap();
    assert_eq!(g.connected_components(), 4);
}

#[test]
fn empty_graph_queries() {
    let g = Graph::new("empty");
    assert_eq!(g.node_count(), 0);
    assert_eq!(g.edge_count(), 0);
    assert_eq!(g.max_degree(), 0);
    assert_eq!(g.connected_components(), 0);
    assert_eq!(g.diameter(), 0);
    assert_eq!(g.diameter_serial(), 0);
}

#[test]
fn stable_set_query() {
    let g = Graph::read_from_text("t", b"p edge 3 2\ne 1 2\ne 2 3\n").unwrap();
    assert!(g.is_set_stable(&vec![true, false, true]));
    assert!(!g.is_set_stable(&vec![true, true, false]));
}

#[test]
fn bfs_depth_array_exact() {
    // depths are 1 + distance from the source; 0 marks the unreachable
    let g = Graph::read_from_text("t", b"p edge 5 3\ne 1 2\ne 2 3\ne 4 5\n").unwrap();
    let (depth, ecc) = g.bfs(0, vec![0; 5]);
    assert_eq!(depth, vec![1, 2, 3, 0, 0]);
    assert_eq!(ecc, 2);
    // adjacent depths inside the component differ by at most one
    assert!((depth[0] as i64 - depth[1] as i64).abs() <= 1);
    assert!((depth[1] as i64 - depth[2] as i64).abs() <= 1);
}
