use linalg::error::MatrixError;
use linalg::matrix::Matrix;

fn num(t: &str) -> Option<f64> {
    t.parse::<f64>().ok()
}

fn read(s: &str) -> Matrix<f64> {
    Matrix::from_string(s, num).unwrap()
}

fn add(a: f64, b: f64) -> f64 {
    a + b
}

fn sub(a: f64, b: f64) -> f64 {
    a - b
}

fn mul(a: f64, b: f64) -> f64 {
    a * b
}

fn div(a: f64, b: f64) -> f64 {
    a / b
}

fn neg(a: f64) -> f64 {
    -a
}

fn is_zero(a: f64) -> bool {
    a == 0.0
}

fn is_positive(a: f64) -> bool {
    a > 0.0
}

fn keep(a: f64) -> f64 {
    a
}

fn det(m: &Matrix<f64>) -> Result<f64, MatrixError> {
    m.det(0.0, add, sub, mul, neg)
}

fn inverse(m: &Matrix<f64>) -> Result<Matrix<f64>, MatrixError> {
    m.inverse(0.0, add, sub, mul, neg, div, is_zero, keep)
}

fn close(a: &Matrix<f64>, rows: usize, cols: usize, want: &[f64]) -> bool {
    a.rows == rows
        && a.cols == cols
        && a.data.len() == want.len()
        && a.data.iter().zip(want.iter()).all(|(x, y)| (x - y).abs() < 1e-9)
}

#[test]
fn test_from_string() {
    let m = Matrix::from_string("1 2 3 ; 4 5 6", num).unwrap();
    let expected = Matrix { rows: 2, cols: 3, data: vec![1.0, 2.0, 3.0, 4.0, 5.0, 6.0] };
    assert!(m == expected);
}

#[test]
fn display_shows_three_decimals_per_entry() {
    let m = read("1 2 3 ; 4 5 6");
    assert_eq!(
        m.to_text(|x: f64| format!("{:.3}", x)),
        "[1.000 2.000 3.000]\n[4.000 5.000 6.000]\n"
    );
}

#[test]
fn display_of_one_entry() {
    let m = read("-2.5");
    assert_eq!(m.to_text(|x: f64| format!("{:.3}", x)), "[-2.500]\n");
}

#[test]
fn from_string_reads_tabs_and_extra_spaces() {
    let m = read("  7\t8 ;9   10  ");
    assert_eq!(m.rows, 2);
    assert_eq!(m.cols, 2);
    assert_eq!(m.data, vec![7.0, 8.0, 9.0, 10.0]);
}

#[test]
fn ragged_rows_are_reported() {
    assert_eq!(Matrix::from_string("1 2;3", num), Err(MatrixError::RaggedInput { row: 1 }));
    assert_eq!(
        Matrix::from_string("1 2;3 4;5 6 7;8", num),
        Err(MatrixError::RaggedInput { row: 2 })
    );
}

#[test]
fn bad_token_is_reported_with_its_position() {
    assert_eq!(Matrix::from_string("1 2;3 x", num), Err(MatrixError::ParseError { index: 3 }));
    assert_eq!(Matrix::from_string("a b;3 x", num), Err(MatrixError::ParseError { index: 0 }));
}

#[test]
fn empty_text_has_invalid_dimensions() {
    assert_eq!(Matrix::from_string("", num), Err(MatrixError::InvalidDimensions));
    assert_eq!(Matrix::from_string(" ; ", num), Err(MatrixError::InvalidDimensions));
}

#[test]
fn ragged_is_reported_before_bad_tokens() {
    assert_eq!(Matrix::from_string("x;1 2", num), Err(MatrixError::RaggedInput { row: 1 }));
}

#[test]
fn from_lines_reads_one_row_per_line() {
    let m = Matrix::from_lines("1 2\n3 4\n", num).unwrap();
    assert_eq!((m.rows, m.cols), (2, 2));
    assert_eq!(m.data, vec![1.0, 2.0, 3.0, 4.0]);
    let w = Matrix::from_lines("1 2\r\n3 4", num).unwrap();
    assert_eq!(w.data, vec![1.0, 2.0, 3.0, 4.0]);
    assert_eq!(Matrix::from_lines("1 2\n\n3 4\n", num), Err(MatrixError::RaggedInput { row: 1 }));
    assert_eq!(Matrix::from_lines("", num), Err(MatrixError::InvalidDimensions));
}

#[test]
fn new_fills_and_rejects_empty_shapes() {
    let m = Matrix::new(2, 3, 0.0).unwrap();
    assert_eq!(m.data, vec![0.0; 6]);
    assert_eq!(Matrix::new(0, 3, 0.0), Err(MatrixError::InvalidDimensions));
    assert_eq!(Matrix::new(3, 0, 0.0), Err(MatrixError::InvalidDimensions));
}

#[test]
fn from_parts_needs_a_full_buffer() {
    assert!(Matrix::from_parts(2, 2, vec![1.0, 2.0, 3.0, 4.0]).is_ok());
    assert_eq!(Matrix::from_parts(2, 2, vec![1.0, 2.0, 3.0]), Err(MatrixError::InvalidDimensions));
}

#[test]
fn get_set_and_copy() {
    let mut m = read("1 2;3 4");
    let c = m.copy();
    m.set(1, 0, 9.0);
    assert_eq!(m.get(1, 0), 9.0);
    assert_eq!(c.get(1, 0), 3.0);
    assert_eq!(c.data, vec![1.0, 2.0, 3.0, 4.0]);
}

#[test]
fn identity_overwrites_every_entry() {
    let mut m = read("5 5 5;5 5 5;5 5 5");
    assert_eq!(m.identity(0.0, 1.0), Ok(()));
    assert_eq!(m.data, vec![1.0, 0.0, 0.0, 0.0, 1.0, 0.0, 0.0, 0.0, 1.0]);
    let mut r = read("1 2 3;4 5 6");
    assert_eq!(r.identity(0.0, 1.0), Err(MatrixError::NotSquare { rows: 2, cols: 3 }));
    assert_eq!(r.data, vec![1.0, 2.0, 3.0, 4.0, 5.0, 6.0]);
}

#[test]
fn apply_maps_every_entry() {
    let mut m = read("1 2;3 4");
    m.apply(|x: f64| x + 3.0);
    assert_eq!(m.data, vec![4.0, 5.0, 6.0, 7.0]);
}

#[test]
fn combine_multiplies_entrywise() {
    let a = read("1 2;3 4");
    let b = read("5 6;7 8");
    let m = a.combine(b, mul).unwrap();
    assert_eq!(m.data, vec![5.0, 12.0, 21.0, 32.0]);
}

#[test]
fn combine_pairs_self_first() {
    let a = read("10 20");
    let b = read("1 2");
    assert_eq!(a.combine(b, sub).unwrap().data, vec![9.0, 18.0]);
}

#[test]
fn combine_rejects_other_shapes() {
    let a = read("1 2;3 4");
    let b = read("1 2 3");
    assert_eq!(
        a.combine(b, add),
        Err(MatrixError::DimensionMismatch { rows_a: 2, cols_a: 2, rows_b: 1, cols_b: 3 })
    );
}

#[test]
fn dot_multiplies_matrices() {
    let a = read("9 8 4 ; 2 3 7; 4 1 1");
    let b = read("1 2 3 ; 4 5 6 ; 7 8 9");
    let m = a.dot(b, 0.0, add, mul).unwrap();
    assert_eq!(m.data, vec![69.0, 90.0, 111.0, 63.0, 75.0, 87.0, 15.0, 21.0, 27.0]);
}

#[test]
fn dot_of_non_square_shapes() {
    let a = read("1 2 3;4 5 6");
    let b = read("1;2;3");
    let m = a.dot(b, 0.0, add, mul).unwrap();
    assert_eq!((m.rows, m.cols), (2, 1));
    assert_eq!(m.data, vec![14.0, 32.0]);
}

#[test]
fn dot_rejects_mismatched_inner_size() {
    let a = read("1 2 3;4 5 6");
    let b = read("1 2;3 4");
    assert_eq!(
        a.dot(b, 0.0, add, mul),
        Err(MatrixError::DimensionMismatch { rows_a: 2, cols_a: 3, rows_b: 2, cols_b: 2 })
    );
}

#[test]
fn identity_is_neutral_for_dot() {
    let m = read("1 2 3;4 5 6");
    let mut left = Matrix::new(2, 2, 0.0).unwrap();
    left.identity(0.0, 1.0).unwrap();
    let mut right = Matrix::new(3, 3, 0.0).unwrap();
    right.identity(0.0, 1.0).unwrap();
    assert_eq!(left.dot(m.copy(), 0.0, add, mul).unwrap(), m);
    assert_eq!(m.dot(right, 0.0, add, mul).unwrap(), m);
}

#[test]
fn transpose_swaps_shape() {
    let m = read("1 2 3;4 5 6");
    let t = m.transpose();
    assert_eq!((t.rows, t.cols), (3, 2));
    assert_eq!(t.data, vec![1.0, 4.0, 2.0, 5.0, 3.0, 6.0]);
}

#[test]
fn transpose_twice_is_identity() {
    let m = read("1 2 3;4 5 6");
    assert_eq!(m.transpose().transpose(), m);
}

#[test]
fn trace_sums_the_diagonal() {
    assert_eq!(read("1 2;3 4").trace(0.0, add), Ok(5.0));
    assert_eq!(read("1 2 3").trace(0.0, add), Err(MatrixError::NotSquare { rows: 1, cols: 3 }));
}

#[test]
fn det_of_two_by_two() {
    assert_eq!(det(&read("1 2;3 4")), Ok(-2.0));
    assert_eq!(det(&read("4 7;2 6")), Ok(10.0));
}

#[test]
fn det_of_larger_matrices() {
    assert_eq!(det(&read("1 2 3 ; 4 5 6 ; 7 8 9")), Ok(0.0));
    assert_eq!(det(&read("9 8 4 ; 2 3 7; 4 1 1")), Ok(132.0));
    assert_eq!(det(&read("3 0 2 ; 2 0 -2 ; 0 1 1")), Ok(10.0));
    assert_eq!(det(&read("1 0 0 0;0 2 0 0;0 0 3 0;0 0 0 4")), Ok(24.0));
}

#[test]
fn det_of_one_entry_is_the_entry() {
    assert_eq!(det(&read("7")), Ok(7.0));
}

#[test]
fn det_rejects_non_square() {
    assert_eq!(det(&read("1 2 3;4 5 6")), Err(MatrixError::NotSquare { rows: 2, cols: 3 }));
}

#[test]
fn cofactor_signs_and_minors() {
    let m = read("1 2 3;4 5 6;7 8 10");
    assert_eq!(m.cofactor(0, 0, 0.0, add, sub, mul, neg), Ok(2.0));
    assert_eq!(m.cofactor(0, 1, 0.0, add, sub, mul, neg), Ok(2.0));
    assert_eq!(m.cofactor(1, 1, 0.0, add, sub, mul, neg), Ok(-11.0));
    let minor = m.minor(1, 2);
    assert_eq!(minor.data, vec![1.0, 2.0, 7.0, 8.0]);
}

#[test]
fn inverse_of_two_by_two() {
    let inv = inverse(&read("4 7;2 6")).unwrap();
    assert!(close(&inv, 2, 2, &[0.6, -0.7, -0.2, 0.4]));
}

#[test]
fn inverse_of_three_by_three() {
    let m = read("3 0 2 ; 2 0 -2 ; 0 1 1");
    let inv = inverse(&m).unwrap();
    assert!(close(&inv, 3, 3, &[0.2, 0.2, 0.0, -0.2, 0.3, 1.0, 0.2, -0.3, 0.0]));
    let p = m.dot(inv, 0.0, add, mul).unwrap();
    assert!(close(&p, 3, 3, &[1.0, 0.0, 0.0, 0.0, 1.0, 0.0, 0.0, 0.0, 1.0]));
}

#[test]
fn inverse_of_singular_matrix_fails() {
    assert_eq!(inverse(&read("1 2;2 4")), Err(MatrixError::SingularMatrix));
    assert_eq!(inverse(&read("1 2 3;4 5 6")), Err(MatrixError::NotSquare { rows: 2, cols: 3 }));
}

#[test]
fn inverse_applies_fix_before_dividing() {
    let m = read("4 7;2 6");
    let inv = m.inverse(0.0, add, sub, mul, neg, div, is_zero, |x: f64| x * 10.0).unwrap();
    assert!(close(&inv, 2, 2, &[6.0, -7.0, -2.0, 4.0]));
}

#[test]
fn rref_solves_a_system() {
    let mut m = read("5 -6 -7 7 ; 3 -2 5 -17 ; 2 4 -3 29");
    m.rref(div, sub, mul, is_zero, is_positive, keep);
    assert!(close(&m, 3, 4, &[1.0, 0.0, 0.0, 2.0, 0.0, 1.0, 0.0, 4.0, 0.0, 0.0, 1.0, -3.0]));
}

#[test]
fn rref_swaps_a_positive_row_to_the_top() {
    let mut m = read("0 1 2 ; 0 3 1 ; 5 2 2");
    m.rref(div, sub, mul, is_zero, is_positive, keep);
    assert!(close(&m, 3, 3, &[1.0, 0.0, 0.0, 0.0, 1.0, 0.0, 0.0, 0.0, 1.0]));
}

#[test]
fn rref_twice_changes_nothing_more() {
    let mut m = read("2 1 5;4 3 6");
    m.rref(div, sub, mul, is_zero, is_positive, keep);
    let once = m.copy();
    m.rref(div, sub, mul, is_zero, is_positive, keep);
    assert!(close(&m, 2, 3, &once.data));
}

#[test]
fn swap_rows_exchanges_whole_rows() {
    let mut m = read("1 2 3;4 5 6;7 8 9");
    m.swap_rows(0, 2);
    assert_eq!(m.data, vec![7.0, 8.0, 9.0, 4.0, 5.0, 6.0, 1.0, 2.0, 3.0]);
}

#[test]
fn find_row_scans_down_column_zero() {
    let m = read("0 1;-1 2;3 4;5 6");
    assert_eq!(m.find_row(0, &is_positive), Some(2));
    assert_eq!(m.find_row(3, &is_positive), Some(3));
    assert_eq!(m.find_row(0, &|x: f64| x > 10.0), None);
}

#[test]
fn layout_cuts_rows_and_words() {
    let l = linalg::text::layout("a b ; c d", ';', false).unwrap();
    assert_eq!((l.rows, l.cols), (2, 2));
    assert_eq!(l.tokens, vec!["a", "b", "c", "d"]);
}

#[test]
fn shown_text_reads_back_to_display_precision() {
    let m = read("1.23456 -2 3 ; 4 5.5 0.0004");
    let text = m.to_text(|x: f64| format!("{:.3}", x));
    let back = Matrix::from_lines(&text, |t: &str| {
        t.trim_start_matches('[').trim_end_matches(']').parse::<f64>().ok()
    })
    .unwrap();
    assert_eq!((back.rows, back.cols), (2, 3));
    assert!(back.data.iter().zip(m.data.iter()).all(|(a, b)| (a - b).abs() <= 0.0005));
    assert_eq!(back.data, vec![1.235, -2.0, 3.0, 4.0, 5.5, 0.0]);
}
