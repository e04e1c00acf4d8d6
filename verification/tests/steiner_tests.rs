use qbench_check::errors::SteinerError;
use qbench_check::steiner::{check_networks, read_arcs, read_solutions, read_terminals};

#[test]
fn arcs_parsed_and_replaced() {
    let arcs = read_arcs(b"# arcs\n1 2 10\n3 1 7\n2 1 4\n").unwrap();
    // the repeated edge 1-2 keeps its last weight; endpoints are normalized
    assert_eq!(arcs.len(), 2);
    assert_eq!((arcs[0].a, arcs[0].b, arcs[0].w), (1, 2, 4));
    assert_eq!((arcs[1].a, arcs[1].b, arcs[1].w), (1, 3, 7));
}

#[test]
fn arcs_malformed_rejected() {
    assert_eq!(
        read_arcs(b"1 2\n"),
        Err(SteinerError::ArcsLineMalformed { line: 1 })
    );
    assert_eq!(
        read_arcs(b"1 x 3\n"),
        Err(SteinerError::ArcsBadNumber { line: 1 })
    );
}

#[test]
fn terminals_grouped_by_network() {
    let ts = read_terminals(b"1 1\n2 1\n3 2\n").unwrap();
    assert_eq!(ts.len(), 2);
    assert_eq!(ts[0], (1, vec![1, 2]));
    assert_eq!(ts[1], (2, vec![3]));
    assert_eq!(
        read_terminals(b"5\n"),
        Err(SteinerError::TermsLineMalformed { line: 1 })
    );
    assert_eq!(
        read_terminals(b"5 x\n"),
        Err(SteinerError::TermsBadNumber { line: 1 })
    );
}

#[test]
fn solutions_checked_against_arcs() {
    let arcs = read_arcs(b"1 2 1\n2 3 1\n").unwrap();
    let sols = read_solutions(b"2 1 1\n2 3 1\n", &arcs).unwrap();
    assert_eq!(sols.len(), 1);
    assert_eq!(sols[0], (1, vec![(2, 1), (2, 3)]));
    assert_eq!(
        read_solutions(b"1 3 1\n", &arcs),
        Err(SteinerError::EdgeNotInArcs { line: 1, head: 1, tail: 3 })
    );
    assert_eq!(
        read_solutions(b"1 2\n", &arcs),
        Err(SteinerError::SolLineMalformed { line: 1 })
    );
    assert_eq!(
        read_solutions(b"1 2 x\n", &arcs),
        Err(SteinerError::SolBadNumber { line: 1 })
    );
}

#[test]
fn steiner_happy_path_cost() {
    let arcs = read_arcs(b"1 2 5\n3 4 7\n").unwrap();
    let terms = read_terminals(b"1 1\n2 1\n3 2\n4 2\n").unwrap();
    let sols = read_solutions(b"1 2 1\n3 4 2\n", &arcs).unwrap();
    assert_eq!(check_networks(&arcs, &terms, &sols), Ok(12));
}

#[test]
fn steiner_shared_node_fails() {
    // both networks are individually covered and connected, but they share
    // node 2, so the check must name the conflicting pair
    let arcs = read_arcs(b"1 2 1\n2 3 1\n").unwrap();
    let terms = read_terminals(b"1 1\n2 1\n3 2\n").unwrap();
    let sols = read_solutions(b"1 2 1\n2 3 2\n", &arcs).unwrap();
    assert_eq!(
        check_networks(&arcs, &terms, &sols),
        Err(SteinerError::SharedNode { network_a: 1, network_b: 2 })
    );
}

#[test]
fn steiner_terminal_not_covered() {
    let arcs = read_arcs(b"1 2 1\n3 4 1\n").unwrap();
    let terms = read_terminals(b"1 1\n5 1\n").unwrap();
    let sols = read_solutions(b"1 2 1\n", &arcs).unwrap();
    assert_eq!(
        check_networks(&arcs, &terms, &sols),
        Err(SteinerError::TerminalNotCovered { network: 1, terminal: 5 })
    );
}

#[test]
fn steiner_terminal_not_connected() {
    // terminals 1 and 3 are both touched, but by different pieces
    let arcs = read_arcs(b"1 2 1\n3 4 1\n").unwrap();
    let terms = read_terminals(b"1 1\n3 1\n").unwrap();
    let sols = read_solutions(b"1 2 1\n3 4 1\n", &arcs).unwrap();
    assert_eq!(
        check_networks(&arcs, &terms, &sols),
        Err(SteinerError::TerminalNotConnected { network: 1, terminal: 3 })
    );
}

#[test]
fn steiner_network_without_terminals() {
    let arcs = read_arcs(b"1 2 1\n").unwrap();
    let terms = read_terminals(b"1 7\n").unwrap();
    let sols = read_solutions(b"1 2 9\n", &arcs).unwrap();
    assert_eq!(
        check_networks(&arcs, &terms, &sols),
        Err(SteinerError::NetworkWithoutTerminals { network: 9 })
    );
}

#[test]
fn steiner_rerun_same_verdict() {
    let arcs = read_arcs(b"1 2 5\n3 4 7\n").unwrap();
    let terms = read_terminals(b"1 1\n2 1\n3 2\n4 2\n").unwrap();
    let sols = read_solutions(b"1 2 1\n3 4 2\n", &arcs).unwrap();
    let a = check_networks(&arcs, &terms, &sols);
    let b = check_networks(&arcs, &terms, &sols);
    assert_eq!(a, b);
}

#[test]
fn steiner_cost_counts_per_network() {
    // an edge used by one network twice counts twice
    let arcs = read_arcs(b"1 2 5\n").unwrap();
    let terms = read_terminals(b"1 1\n2 1\n").unwrap();
    let sols = read_solutions(b"1 2 1\n2 1 1\n", &arcs).unwrap();
    assert_eq!(check_networks(&arcs, &terms, &sols), Ok(10));
}
