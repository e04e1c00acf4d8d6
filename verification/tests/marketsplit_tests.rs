use qbench_check::marketsplit::verify_solution;
use qbench_check::marketsplit::{compute_slack, check_range, MsError};
use qbench_check::errors::FormatError;

const INSTANCE: &str = "3 20\n\
     62,  20  96  46  43  38,  64,  83,  39,  20,  31,  99,  53,  91,   7,  30,  72,  26,  81,  78, 539 \n\
      45,  32,   8,  58,  94,  53,  14,  33,  69,  93,  17,  95,  87,  74,  43,  26,  12,  31,  36,   5, 462 \n\
     29,36,3,34,47,96,  11,  28,   8,  38,  78,  28,  37,  13,   0,  21,  91,  58,  93,  15, 382\n ";

#[test]
fn verify_text_solution() {
    let solution = b"# Solution for model obj\n\
      # Objective value = 0\n\
      s#1 0\n\
       s#2 0\n\
      s#3 0\n\
      x#20 1\n\
      x#19 0\n\
      x#18 1\n\
      x#17 1\n\
      x#16 1\n\
      x#15 1\n\
      x#14 1\n\
      x#13 0\n\
       x#12 1\n\
      x#11 1\n\
      x#10 0\n\
      x#9 1\n\
      x#8 0\n\
      x#7 0\n\
      x#6 0\n\
      x#5 0\n\
      x#4 1\n\
      x#3 0\n\
      x#2 1\n\
      x#1 0\n";

    let report = verify_solution(INSTANCE.as_bytes(), solution).unwrap();
    assert_eq!(report.num_vars, 20);
    assert_eq!(report.constraints, 3);
    assert!(report.verified);
}

#[test]
fn verify_01_a_solution() {
    let solution = b"01010000101101111101";
    let report = verify_solution(INSTANCE.as_bytes(), solution).unwrap();
    assert_eq!(report.verified, true);
}

#[test]
fn verify_01_b_solution() {
    let solution = b"0,1,0;1..0  0 0 0 1, 0 ,11 011 1.1.1 0 1";
    let report = verify_solution(INSTANCE.as_bytes(), solution).unwrap();
    assert_eq!(report.verified, true);
}

#[test]
fn verify_wrong_solution() {
    let solution = b"01010100111101111101";
    let report = verify_solution(INSTANCE.as_bytes(), solution).unwrap();
    assert_eq!(report.verified, false);
}

#[test]
fn ms_empty_solution_is_error() {
    let r = verify_solution(INSTANCE.as_bytes(), b"   \n ");
    assert_eq!(r, Err(MsError::Format(FormatError::Empty)));
}

#[test]
fn ms_rhs_mismatch_detected() {
    // total 10, so the right-hand side must be 5
    let instance = b"1 3\n4 4 2 6\n";
    let r = verify_solution(instance, b"101");
    assert_eq!(
        r,
        Err(MsError::RhsMismatch { constraint: 1, line: 2, expected: 5, found: 6 })
    );
}

#[test]
fn ms_constraint_count_checked() {
    let instance = b"2 3\n4 4 2 5\n";
    let r = verify_solution(instance, b"101");
    assert_eq!(r, Err(MsError::WrongConstraintCount { expected: 2, found: 1 }));
}

#[test]
fn ms_syntax_and_numbers_checked() {
    assert_eq!(
        verify_solution(b"1 3\nbad\n", b"101"),
        Err(MsError::SyntaxError { line: 2 })
    );
    assert_eq!(
        verify_solution(b"x 3\n", b"101"),
        Err(MsError::BadNumber { line: 1 })
    );
}

#[test]
fn ms_rerun_same_verdict() {
    let solution = b"01010000101101111101";
    let a = verify_solution(INSTANCE.as_bytes(), solution).unwrap();
    let b = verify_solution(INSTANCE.as_bytes(), solution).unwrap();
    assert_eq!(a, b);
}

#[test]
fn slack_exact_value() {
    let row = vec![10, 20, 30];
    let sel = vec![true, false, true];
    assert_eq!(compute_slack(&row, &sel, 50), 10);
    assert_eq!(compute_slack(&row, &sel, 25), -15);
}

#[test]
fn range_check_exact() {
    assert!(check_range(&[0, 5, 99], 0, 99));
    assert!(!check_range(&[0, 5, 100], 0, 99));
    assert!(check_range(&[], 5, 2));
}
