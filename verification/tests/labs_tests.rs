use qbench_check::errors::FormatError;
use qbench_check::labs::{autocorrelation, count_code, run_lengths, sequenz_energy, verify_solution};

#[test]
fn autocorrelation_exact() {
    // s = [+1, +1, -1]: C(1) = 1*1 + 1*(-1) = 0, C(2) = 1*(-1) = -1
    let s = vec![1, 1, -1];
    assert_eq!(autocorrelation(3, 1, &s), 0);
    assert_eq!(autocorrelation(3, 2, &s), -1);
}

#[test]
fn energy_exact() {
    // E = C(1)^2 + C(2)^2 = 0 + 1
    let s = vec![1, 1, -1];
    assert_eq!(sequenz_energy(3, &s), 1);
}

#[test]
fn labs_optimal_k3() {
    // "001" decodes bipolar to [+1, +1, -1], whose energy 1 is optimal
    let report = verify_solution(3, b"001").unwrap();
    assert_eq!(report.energy, 1);
    assert!(report.checkable);
    assert!(report.verified);
}

#[test]
fn labs_suboptimal_k3() {
    // "000" decodes to [+1, +1, +1] with energy 4 + 1 = 5
    let report = verify_solution(3, b"000").unwrap();
    assert_eq!(report.energy, 5);
    assert!(report.checkable);
    assert!(!report.verified);
}

#[test]
fn labs_too_big_to_check() {
    let report = verify_solution(41, &[b'0'; 41]).unwrap();
    assert!(!report.checkable);
    assert!(report.verified);
}

#[test]
fn labs_decode_error_passed_through() {
    assert_eq!(verify_solution(3, b"  "), Err(FormatError::Empty));
}

#[test]
fn labs_rerun_same_verdict() {
    let a = verify_solution(3, b"001").unwrap();
    let b = verify_solution(3, b"001").unwrap();
    assert_eq!(a, b);
}

#[test]
fn run_lengths_exact() {
    assert_eq!(run_lengths(&[1, 1, -1, -1, -1, 1]), vec![2, 3, 1]);
    assert_eq!(run_lengths(&[1]), vec![1]);
}

#[test]
fn count_codes() {
    assert_eq!(count_code(5), Some(b'5'));
    assert_eq!(count_code(10), Some(b'a'));
    assert_eq!(count_code(35), Some(b'z'));
    assert_eq!(count_code(36), Some(b'A'));
    assert_eq!(count_code(61), Some(b'Z'));
    assert_eq!(count_code(62), None);
}
