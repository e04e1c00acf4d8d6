use qbench_check::graph::Graph;
use qbench_check::topology::verify_solution;

const INSTANCE: &str = "c Undirected Graph with Diameter 3\n\
    p edge 15 22\n\
    e 1 9\n\
    e 1 11\n\
    e 1 12\n\
    e 2 7\n\
    e 2 10\n\
    e 2 11\n\
    e 3 5\n\
    e 3 10\n\
    e 3 13\n\
    e 4 8\n\
    e 4 13\n\
    e 4 14\n\
    e 5 6\n\
    e 5 14\n\
    e 6 10\n\
    e 6 12\n\
    e 7 8\n\
    e 7 12\n\
    e 8 9\n\
    e 9 13\n\
    e 11 15\n\
    e 14 15";

#[test]
fn verify_15_3_solution() {
    let g = Graph::read_from_text("test", INSTANCE.as_bytes()).unwrap();
    let report = verify_solution(15, 3, 3, &g);
    assert_eq!(report.verified, true);
}

#[test]
fn diameter_fail() {
    let instance = "c Undirected Graph with Diameter 3\n\
    p edge 15 22\n\
    e 1 9\ne 1 11\ne 1 12\ne 2 7\ne 2 10\ne 2 11\ne 3 5\ne 3 10\n\
    e 3 13\ne 4 8\ne 4 13\ne 4 14\ne 5 6\ne 5 14\ne 6 10\ne 6 12\n\
    e 7 8\ne 7 12\ne 8 9\ne 9 13\ne 11 15\ne 14 15\n";
    let g = Graph::read_from_text("test", instance.as_bytes()).unwrap();
    let report = verify_solution(15, 3, 2, &g);
    assert_eq!(report.verified, false);
}

#[test]
fn diameter_scenario_counts() {
    let g = Graph::read_from_text("test", INSTANCE.as_bytes()).unwrap();
    assert_eq!(g.node_count(), 15);
    assert_eq!(g.edge_count(), 22);
    assert_eq!(g.connected_components(), 1);
    assert_eq!(g.diameter(), 3);
    assert_eq!(g.diameter_serial(), 3);
    assert_eq!(g.max_degree(), 3);
}

#[test]
fn topology_rerun_same_report() {
    let g = Graph::read_from_text("test", INSTANCE.as_bytes()).unwrap();
    let a = verify_solution(15, 3, 3, &g);
    let b = verify_solution(15, 3, 3, &g);
    assert_eq!(a, b);
}
