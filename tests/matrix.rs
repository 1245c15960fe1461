use raytracer::matrix::{Matrix, MatrixError};

fn m(rows: usize, columns: usize, v: Vec<f64>) -> Matrix<f64> {
    Matrix::new(rows, columns, &v).unwrap()
}

#[test]
fn test_matrices_feature() {
    let m1 = m(4, 4, vec![1.0, 2.0, 3.0, 4.0, 5.5, 6.5, 7.5, 8.5, 9.0, 10.0, 11.0, 12.0, 13.5, 14.5, 15.5, 16.5]);
    assert_eq!(m1.rows(), 4);
    assert_eq!(m1.columns(), 4);
    assert_eq!(m1.at(0, 0), 1.0);
    assert_eq!(m1.at(1, 0), 5.5);
    assert_eq!(m1.at(1, 2), 7.5);
    assert_eq!(m1.at(2, 2), 11.0);
    assert_eq!(m1.at(3, 0), 13.5);
    assert_eq!(m1.at(3, 2), 15.5);

    let m2 = m(2, 2, vec![-3.0, 5.0, 1.0, -2.0]);
    assert_eq!(m2.at(0, 0), -3.0);
    assert_eq!(m2.at(0, 1), 5.0);
    assert_eq!(m2.at(1, 0), 1.0);
    assert_eq!(m2.at(1, 1), -2.0);

    let m3 = m(3, 3, vec![-3.0, 5.0, 0.0, 1.0, -2.0, -7.0, 0.0, 1.0, 1.0]);
    assert_eq!(m3.at(0, 0), -3.0);
    assert_eq!(m3.at(1, 1), -2.0);
    assert_eq!(m3.at(2, 2), 1.0);

    let v4 = vec![1.0, 2.0, 3.0, 4.0, 5.0, 6.0, 7.0, 8.0, 9.0, 8.0, 7.0, 6.0, 5.0, 4.0, 3.0, 2.0];
    assert_eq!(m(4, 4, v4.clone()), m(4, 4, v4.clone()));
    let v7 = vec![2.0, 3.0, 4.0, 5.0, 6.0, 7.0, 8.0, 9.0, 8.0, 7.0, 6.0, 5.0, 4.0, 3.0, 2.0, 1.0];
    assert_ne!(m(4, 4, v4), m(4, 4, v7));
}

#[test]
fn test_matrices_feature_transpose() {
    let m16 = m(4, 4, vec![0.0, 9.0, 3.0, 0.0, 9.0, 8.0, 0.0, 8.0, 1.0, 8.0, 5.0, 3.0, 0.0, 0.0, 5.0, 8.0]);
    let m17 = m16.transpose();
    assert_eq!(m17, m(4, 4, vec![0.0, 9.0, 1.0, 0.0, 9.0, 8.0, 8.0, 0.0, 3.0, 0.0, 5.0, 5.0, 0.0, 8.0, 3.0, 8.0]));

    let mut identity = Matrix::filled(4, 4, 0.0);
    for i in 0..4 {
        identity.set(i, i, 1.0);
    }
    assert_eq!(identity, identity.transpose());
}

#[test]
fn transpose_of_a_non_square_matrix() {
    let a = m(2, 3, vec![1.0, 2.0, 3.0, 4.0, 5.0, 6.0]);
    let t = a.transpose();
    assert_eq!(t.rows(), 3);
    assert_eq!(t.columns(), 2);
    assert_eq!(t, m(3, 2, vec![1.0, 4.0, 2.0, 5.0, 3.0, 6.0]));
}

#[test]
fn submatrices() {
    let m18 = m(3, 3, vec![1.0, 5.0, 0.0, -3.0, 2.0, 7.0, 0.0, 6.0, -3.0]);
    assert_eq!(m18.submatrix(0, 2), m(2, 2, vec![-3.0, 2.0, 0.0, 6.0]));

    let m20 = m(4, 4, vec![-6.0, 1.0, 1.0, 6.0, -8.0, 5.0, 8.0, 6.0, -1.0, 0.0, 8.0, 2.0, -7.0, 1.0, -1.0, 1.0]);
    let m21 = m(3, 3, vec![-6.0, 1.0, 6.0, -8.0, 8.0, 6.0, -7.0, -1.0, 1.0]);
    assert_eq!(m20.submatrix(2, 1), m21);

    let one = m(1, 1, vec![7.0]);
    let empty = one.submatrix(0, 0);
    assert_eq!(empty.rows(), 0);
    assert_eq!(empty.columns(), 0);
}

#[test]
fn wrong_number_of_cells_is_an_error() {
    assert_eq!(Matrix::new(2, 2, &vec![1.0, 2.0, 3.0]).err(), Some(MatrixError::MismatchedMatrixShape));
    assert_eq!(Matrix::new(usize::MAX, 2, &vec![1.0]).err(), Some(MatrixError::MismatchedMatrixShape));
    assert!(Matrix::<u8>::new(0, 5, &Vec::new()).is_ok());
}

#[test]
fn set_changes_one_cell() {
    let mut a = Matrix::filled(2, 3, 0u32);
    a.set(1, 2, 9);
    assert_eq!(a.at(1, 2), 9);
    assert_eq!(a, Matrix::new(2, 3, &vec![0, 0, 0, 0, 0, 9]).unwrap());
}
