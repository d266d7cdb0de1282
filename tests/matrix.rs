use linalg::{Matrix, MatrixError};

fn grid(rows: &[&[f64]]) -> Vec<Vec<f64>> {
    rows.iter().map(|r| r.to_vec()).collect()
}

fn mat(rows: &[&[f64]]) -> Matrix<f64> {
    Matrix::from_grid(grid(rows)).unwrap()
}

fn plus(x: f64, y: f64) -> f64 {
    x + y
}

fn minus(x: f64, y: f64) -> f64 {
    x - y
}

fn times(x: f64, y: f64) -> f64 {
    x * y
}

fn nonzero(x: f64) -> bool {
    x != 0.0
}

fn div(x: f64, y: f64) -> f64 {
    x / y
}

fn elim(x: f64, p: f64, m: f64) -> f64 {
    x - p * m
}

fn keep(x: f64) -> f64 {
    x
}

fn identity(n: usize) -> Matrix<f64> {
    let mut m = Matrix::new(n, n, 0.0);
    for i in 0..n {
        m.data[i][i] = 1.0;
    }
    m
}

fn close(a: &Matrix<f64>, b: &Matrix<f64>) -> bool {
    a.rows == b.rows
        && a.cols == b.cols
        && a.data.iter().zip(b.data.iter()).all(|(r, s)| {
            r.len() == s.len() && r.iter().zip(s.iter()).all(|(x, y)| (x - y).abs() < 1e-9)
        })
}

#[test]
fn new_fills_with_value() {
    let m = Matrix::new(2, 3, 0.0);
    assert_eq!(m.rows, 2);
    assert_eq!(m.cols, 3);
    assert_eq!(m.data, vec![vec![0.0; 3]; 2]);
}

#[test]
fn new_empty_matrix() {
    let m: Matrix<f64> = Matrix::new(0, 0, 0.0);
    assert_eq!(m.rows, 0);
    assert_eq!(m.cols, 0);
    assert!(m.data.is_empty());
}

#[test]
fn from_grid_keeps_entries() {
    let m = mat(&[&[1.0, 2.0, 3.0], &[4.0, 5.0, 6.0]]);
    assert_eq!(m.rows, 2);
    assert_eq!(m.cols, 3);
    assert_eq!(m.data, grid(&[&[1.0, 2.0, 3.0], &[4.0, 5.0, 6.0]]));
}

#[test]
fn from_grid_rejects_ragged_rows() {
    let r = Matrix::from_grid(grid(&[&[1.0, 2.0], &[3.0]]));
    assert_eq!(r.err(), Some(MatrixError::MalformedInputError));
    let r = Matrix::from_grid(grid(&[&[1.0], &[2.0], &[3.0, 4.0]]));
    assert_eq!(r.err(), Some(MatrixError::MalformedInputError));
}

#[test]
fn from_grid_rejects_empty_grid() {
    let r: Result<Matrix<f64>, MatrixError> = Matrix::from_grid(Vec::new());
    assert_eq!(r.err(), Some(MatrixError::MalformedInputError));
}

#[test]
fn from_grid_rejects_rows_without_entries() {
    let r: Result<Matrix<f64>, MatrixError> = Matrix::from_grid(vec![Vec::new()]);
    assert_eq!(r.err(), Some(MatrixError::MalformedInputError));
    let r: Result<Matrix<f64>, MatrixError> = Matrix::from_grid(vec![Vec::new(), Vec::new()]);
    assert_eq!(r.err(), Some(MatrixError::MalformedInputError));
}

#[test]
fn copy_is_equal_and_independent() {
    let a = mat(&[&[1.0, 2.0], &[3.0, 4.0]]);
    let mut b = a.copy();
    assert_eq!(b.data, a.data);
    assert_eq!((b.rows, b.cols), (a.rows, a.cols));
    b.apply(|x| x * 10.0);
    b.data[0][0] = -7.0;
    assert_eq!(a.data, grid(&[&[1.0, 2.0], &[3.0, 4.0]]));
}

#[test]
fn apply_transforms_every_entry() {
    let mut m = mat(&[&[1.0, 2.0, 3.0], &[4.0, 5.0, 6.0], &[7.0, 8.0, 9.0]]);
    m.apply(|x| x * 2.0);
    assert_eq!(m.data, grid(&[&[2.0, 4.0, 6.0], &[8.0, 10.0, 12.0], &[14.0, 16.0, 18.0]]));
}

#[test]
fn add_sums_entries() {
    let a = mat(&[&[1.0, 2.0], &[3.0, 4.0]]);
    let b = mat(&[&[10.0, 20.0], &[30.0, 40.0]]);
    let s = a.add(&b, plus).unwrap();
    assert_eq!(s.data, grid(&[&[11.0, 22.0], &[33.0, 44.0]]));
}

#[test]
fn subtract_takes_differences() {
    let a = mat(&[&[1.0, 2.0], &[3.0, 4.0]]);
    let b = mat(&[&[10.0, 20.0], &[30.0, 40.0]]);
    let d = b.subtract(&a, minus).unwrap();
    assert_eq!(d.data, grid(&[&[9.0, 18.0], &[27.0, 36.0]]));
}

#[test]
fn add_then_subtract_gives_back_original() {
    let a = mat(&[&[0.1, -2.5, 3.75], &[1e6, 0.3, -0.7]]);
    let b = mat(&[&[0.2, 4.0, -1.25], &[-3.0, 1e-3, 2.2]]);
    let r = a.add(&b, plus).unwrap().subtract(&b, minus).unwrap();
    assert!(close(&r, &a));
}

#[test]
fn add_is_commutative() {
    let a = mat(&[&[0.1, -2.5], &[3.75, 8.0]]);
    let b = mat(&[&[0.2, 4.0], &[-1.25, 1e-9]]);
    let ab = a.add(&b, plus).unwrap();
    let ba = b.add(&a, plus).unwrap();
    assert_eq!(ab.data, ba.data);
}

#[test]
fn add_and_subtract_reject_mismatched_shapes() {
    let a = mat(&[&[1.0, 2.0], &[3.0, 4.0]]);
    let b = mat(&[&[1.0, 2.0, 3.0], &[4.0, 5.0, 6.0]]);
    assert_eq!(a.add(&b, plus).err(), Some(MatrixError::DimensionMismatchError));
    assert_eq!(a.subtract(&b, minus).err(), Some(MatrixError::DimensionMismatchError));
    let c = mat(&[&[1.0, 2.0]]);
    assert_eq!(a.add(&c, plus).err(), Some(MatrixError::DimensionMismatchError));
    assert_eq!(a.data, grid(&[&[1.0, 2.0], &[3.0, 4.0]]));
    assert_eq!(b.data, grid(&[&[1.0, 2.0, 3.0], &[4.0, 5.0, 6.0]]));
}

#[test]
fn dot_multiplies_rectangular_matrices() {
    let a = mat(&[&[1.0, 2.0, 3.0], &[4.0, 5.0, 6.0]]);
    let b = mat(&[&[7.0, 8.0], &[9.0, 10.0], &[11.0, 12.0]]);
    let p = a.dot(&b, 0.0, times, plus).unwrap();
    assert_eq!((p.rows, p.cols), (2, 2));
    assert_eq!(p.data, grid(&[&[58.0, 64.0], &[139.0, 154.0]]));
}

#[test]
fn dot_of_column_and_row() {
    let a = mat(&[&[1.0], &[2.0], &[3.0]]);
    let b = mat(&[&[4.0, 5.0]]);
    let p = a.dot(&b, 0.0, times, plus).unwrap();
    assert_eq!((p.rows, p.cols), (3, 2));
    assert_eq!(p.data, grid(&[&[4.0, 5.0], &[8.0, 10.0], &[12.0, 15.0]]));
}

#[test]
fn dot_with_identity_gives_back_matrix() {
    let a = mat(&[&[1.5, -2.0, 3.0], &[4.0, 0.25, 6.0]]);
    let p = a.dot(&identity(3), 0.0, times, plus).unwrap();
    assert_eq!(p.data, a.data);
}

#[test]
fn dot_rejects_mismatched_shapes() {
    let a = mat(&[&[1.0, 2.0, 3.0], &[4.0, 5.0, 6.0]]);
    let b = mat(&[&[1.0, 2.0], &[3.0, 4.0]]);
    assert_eq!(a.dot(&b, 0.0, times, plus).err(), Some(MatrixError::DimensionMismatchError));
    assert_eq!(a.data, grid(&[&[1.0, 2.0, 3.0], &[4.0, 5.0, 6.0]]));
    assert_eq!(b.data, grid(&[&[1.0, 2.0], &[3.0, 4.0]]));
}

#[test]
fn swap_rows_exchanges_rows() {
    let mut m = mat(&[&[1.0, 2.0], &[3.0, 4.0], &[5.0, 6.0]]);
    m.swap_rows(0, 2);
    assert_eq!(m.data, grid(&[&[5.0, 6.0], &[3.0, 4.0], &[1.0, 2.0]]));
    m.swap_rows(1, 1);
    assert_eq!(m.data, grid(&[&[5.0, 6.0], &[3.0, 4.0], &[1.0, 2.0]]));
}

#[test]
fn find_pivot_takes_first_nonzero_at_or_below() {
    let m = mat(&[&[0.0, 1.0], &[0.0, 0.0], &[2.0, 3.0], &[4.0, 0.0]]);
    assert_eq!(m.find_pivot(0, nonzero), Some(2));
    assert_eq!(m.find_pivot(1, nonzero), Some(2));
    let z = mat(&[&[1.0, 0.0], &[5.0, 0.0]]);
    assert_eq!(z.find_pivot(1, nonzero), None);
}

#[test]
fn eliminate_uses_pivot_row_before_normalizing() {
    let mut m = mat(&[&[2.0, 4.0], &[1.0, 3.0]]);
    m.eliminate(0, div, elim);
    assert_eq!(m.data, grid(&[&[1.0, 2.0], &[0.0, 1.0]]));
}

#[test]
fn rref_of_identity_is_identity() {
    for n in 1..5 {
        let mut m = identity(n);
        assert_eq!(m.rref(nonzero, div, elim, keep), Ok(()));
        assert_eq!(m.data, identity(n).data);
        assert!(m.data.iter().flatten().all(|x| !x.is_sign_negative()));
    }
}

#[test]
fn rref_solves_system() {
    let mut m = mat(&[&[2.0, 1.0, -1.0, 8.0], &[-3.0, -1.0, 2.0, -11.0], &[-2.0, 1.0, 2.0, -3.0]]);
    assert_eq!(m.rref(nonzero, div, elim, keep), Ok(()));
    let expected = mat(&[&[1.0, 0.0, 0.0, 2.0], &[0.0, 1.0, 0.0, 3.0], &[0.0, 0.0, 1.0, -1.0]]);
    assert!(close(&m, &expected));
    for i in 0..3 {
        for j in 0..3 {
            let want = if i == j { 1.0 } else { 0.0 };
            assert!((m.data[i][j] - want).abs() < 1e-9);
        }
    }
}

#[test]
fn rref_swaps_in_pivot_for_zero_corner() {
    let mut m = mat(&[&[0.0, 2.0, 4.0], &[3.0, 6.0, 9.0]]);
    assert_eq!(m.rref(nonzero, div, elim, keep), Ok(()));
    assert!(close(&m, &mat(&[&[1.0, 0.0, -1.0], &[0.0, 1.0, 2.0]])));
}

#[test]
fn rref_reports_singular_pivot_and_keeps_matrix() {
    let rows: &[&[f64]] = &[&[2.0, 4.0, 6.0], &[1.0, 2.0, 3.0], &[3.0, 1.0, 2.0]];
    let mut m = mat(rows);
    assert_eq!(m.rref(nonzero, div, elim, keep), Err(MatrixError::SingularPivotError));
    assert_eq!(m.data, grid(rows));
}

#[test]
fn rref_applies_fix_to_every_entry() {
    let mut m = mat(&[&[4.0, 2.0], &[0.0, 8.0]]);
    assert_eq!(m.rref(nonzero, div, elim, |x: f64| x * 100.0), Ok(()));
    assert_eq!(m.data, grid(&[&[100.0, 0.0], &[0.0, 100.0]]));
}
