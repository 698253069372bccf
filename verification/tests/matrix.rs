use bnum::integer::Integer;
use bnum::matrix::Matrix;

type I32 = Integer<true, 4, 0, 1>;

fn v(x: i128) -> I32 {
    I32::cast_from_i128(x)
}

fn mat<const M: usize, const N: usize>(cols: [[i128; M]; N]) -> Matrix<I32, M, N> {
    Matrix::from(cols.map(|c| c.map(v)))
}

#[test]
fn rref_with_zero_row_last() {
    let m1 = mat([[1, 0, 0], [4, 0, 0], [0, 1, 0]]);
    assert!(m1.is_rref());
}

#[test]
fn rref_with_leading_zero_column() {
    let m2 = mat([[0, 0, 0], [1, 0, 0], [0, 1, 0], [0, 0, 1], [2, 3, 4]]);
    assert!(m2.is_rref());
}

#[test]
fn rref_square() {
    let m3 = mat([[1, 0, 0, 0], [0, 1, 0, 0], [2, 3, 0, 0], [0, 0, 1, 0]]);
    assert!(m3.is_rref());
}

#[test]
fn not_rref_zero_row_first() {
    let m4 = mat([[0, 1, 0, 0], [0, 4, 0, 0], [0, 0, 1, 0]]);
    assert!(!m4.is_rref());
}

#[test]
fn not_rref_pivot_column_with_other_entry() {
    assert!(!mat([[1, 2], [0, 1]]).is_rref());
    assert!(!mat([[3, 1], [0, 1]]).is_rref());
}

#[test]
fn not_rref_entry_without_pivot() {
    assert!(!mat([[0, 5], [1, 0]]).is_rref());
}

#[test]
fn identity_is_rref() {
    let id = Matrix::<I32, 3, 3>::identity();
    assert!(id.is_rref());
    assert_eq!(id.col(1), [v(0), v(1), v(0)]);
}

#[test]
fn rows_columns_and_transpose() {
    let m = mat([[1, 2, 3], [4, 5, 6]]);
    assert_eq!(m.col(0), [v(1), v(2), v(3)]);
    assert_eq!(m.row(1), [v(2), v(5)]);
    let t = m.tranpose();
    assert_eq!(t.col(2), [v(3), v(6)]);
    assert_eq!(t.row(0), [v(1), v(2), v(3)]);
    assert_eq!(t.tranpose().col(1), [v(4), v(5), v(6)]);
}

#[test]
fn zero_matrix() {
    assert!(mat([[0, 0], [0, 0], [0, 0]]).is_zero());
    assert!(!mat([[0, 0], [0, 7], [0, 0]]).is_zero());
    assert!(!Matrix::<I32, 2, 2>::identity().is_zero());
}
