use qbench_check::decoder::{
    detect_solution_format, extract_selection, extract_solution, extract_solution_01, render_01,
    render_numb, SolutionFormat,
};
use qbench_check::errors::FormatError;

#[test]
fn detect_formats() {
    assert_eq!(detect_solution_format(b""), SolutionFormat::OnlySpace);
    assert_eq!(detect_solution_format(b" \t\n"), SolutionFormat::OnlySpace);
    assert_eq!(detect_solution_format(b"0 1,0 1"), SolutionFormat::ZeroOneVec);
    assert_eq!(detect_solution_format(b"3 17 9"), SolutionFormat::IndexList);
    assert_eq!(detect_solution_format(b"x#1 1\n"), SolutionFormat::XVarList);
    // one byte can promote through several states at once
    assert_eq!(detect_solution_format(b"z"), SolutionFormat::XVarList);
}

#[test]
fn format_equivalence_dim20() {
    // the same assignment in the three encodings decodes identically
    let dim = 20;
    let dense = b"01010000101101111101";
    let index_list = b"2 4 9 11 12 14 15 16 17 18 20\n";
    let xvar = b"x#1 0\nx#2 1\nx#3 0\nx#4 1\nx#5 0\nx#6 0\nx#7 0\nx#8 0\nx#9 1\nx#10 0\n\
                 x#11 1\nx#12 1\nx#13 0\nx#14 1\nx#15 1\nx#16 1\nx#17 1\nx#18 1\nx#19 0\nx#20 1\n";
    let a = extract_solution(dense, dim, 1, 0).unwrap();
    let b = extract_solution(index_list, dim, 1, 0).unwrap();
    let c = extract_solution(xvar, dim, 1, 0).unwrap();
    assert_eq!(a, b);
    assert_eq!(a, c);
}

#[test]
fn round_trip_dense() {
    let v = vec![1, 0, 0, 1, 1, 0, 1];
    let rendered = render_01(&v, 1);
    assert_eq!(rendered, b"1001101".to_vec());
    let back = extract_solution(&rendered, v.len(), 1, 0).unwrap();
    assert_eq!(back, v);
}

#[test]
fn bipolar_polarity() {
    // LABS polarity: 0 maps to +1, 1 to -1; unlisted defaults to off
    let a = extract_solution(b"0110", 4, -1, 1).unwrap();
    assert_eq!(a, vec![1, -1, -1, 1]);
    let b = extract_solution(b"2 3 ", 4, -1, 1).unwrap();
    assert_eq!(b, vec![1, -1, -1, 1]);
}

#[test]
fn empty_solution_is_error() {
    assert_eq!(extract_solution(b" \n\t ", 3, 1, 0), Err(FormatError::Empty));
}

#[test]
fn dense_wrong_length_is_error() {
    assert_eq!(
        extract_solution(b"0101", 5, 1, 0),
        Err(FormatError::WrongLength { expected: 5, found: 4 })
    );
}

#[test]
fn dense_unexpected_char_is_error() {
    assert_eq!(
        extract_solution_01(b"0121", 4, 1, 0),
        Err(FormatError::UnexpectedChar { pos: 2, found: b'2' })
    );
}

#[test]
fn index_out_of_range_is_error() {
    assert_eq!(
        extract_solution(b"3 7 \n", 5, 1, 0),
        Err(FormatError::IndexOutOfRange { line: 1, index: 7, dim: 5 })
    );
    assert_eq!(
        extract_solution(b"x#9 1\n", 5, 1, 0),
        Err(FormatError::IndexOutOfRange { line: 1, index: 9, dim: 5 })
    );
}

#[test]
fn bad_value_char_is_error() {
    assert_eq!(
        extract_solution(b"x#3 z\n", 5, 1, 0),
        Err(FormatError::BadValueChar { line: 1, found: b'z' })
    );
}

#[test]
fn annotated_lines_skip_others() {
    // lines not starting with the marker are ignored whole
    let data = b"# comment\ns#1 1\nx#2 1\n";
    let v = extract_solution(data, 3, 1, 0).unwrap();
    assert_eq!(v, vec![0, 1, 0]);
}

#[test]
fn index_list_trailing_index_dropped() {
    // an index the input ends inside is never finalized
    let v = extract_solution(b"1 3", 3, 1, 0).unwrap();
    assert_eq!(v, vec![1, 0, 0]);
}

#[test]
fn selection_to_bools() {
    let v = extract_selection(b"0110", 4).unwrap();
    assert_eq!(v, vec![false, true, true, false]);
}

#[test]
fn round_trip_index_list() {
    let v = vec![0, 1, 0, 0, 0, 0, 0, 0, 0, 0, 0, 1, 1];
    let rendered = render_numb(&v, 1);
    assert_eq!(rendered, b"2 12 13 ".to_vec());
    let back = extract_solution(&rendered, v.len(), 1, 0).unwrap();
    assert_eq!(back, v);
}
