use rusty_kan::error::KanError;
use rusty_kan::matrix::Matrix;
use rusty_kan::vector::Vector;

fn two_by_three() -> Matrix<f64> {
    Matrix { rows: vec![Vector { elements: vec![1.0, 2.0, 3.0] }, Vector { elements: vec![4.0, 5.0, 6.0] }] }
}

#[test]
fn matrix_add_pass() {
    let a = two_by_three();
    let b = Matrix { rows: vec![Vector { elements: vec![7.0, 8.0, 9.0] }, Vector { elements: vec![10.0, 11.0, 12.0] }] };
    let c = a.zip_with(&b, &|x: f64, y: f64| x + y).unwrap();
    assert_eq!(c.rows, vec![Vector { elements: vec![8.0, 10.0, 12.0] }, Vector { elements: vec![14.0, 16.0, 18.0] }]);
}

#[test]
#[should_panic]
fn matrix_add_fail() {
    let a = two_by_three();
    let b = Matrix { rows: vec![Vector { elements: vec![7.0, 8.0, 9.0] }] };
    let _ = a.zip_with(&b, &|x: f64, y: f64| x + y).unwrap();
}

#[test]
fn matrix_sub_pass() {
    let a = two_by_three();
    let b = Matrix { rows: vec![Vector { elements: vec![7.0, 8.0, 9.0] }, Vector { elements: vec![10.0, 11.0, 12.0] }] };
    let c = a.zip_with(&b, &|x: f64, y: f64| x - y).unwrap();
    assert_eq!(c.rows, vec![Vector { elements: vec![-6.0, -6.0, -6.0] }, Vector { elements: vec![-6.0, -6.0, -6.0] }]);
}

#[test]
#[should_panic]
fn matrix_sub_fail() {
    let a = two_by_three();
    let b = Matrix { rows: vec![Vector { elements: vec![7.0, 8.0, 9.0] }] };
    let _ = a.zip_with(&b, &|x: f64, y: f64| x - y).unwrap();
}

#[test]
fn matrix_mul_scalar_pass() {
    let a = two_by_three();
    let scalar = 2.0;
    let b = a.map(&|x: f64| x * scalar);
    assert_eq!(b.rows, vec![Vector { elements: vec![2.0, 4.0, 6.0] }, Vector { elements: vec![8.0, 10.0, 12.0] }]);
}

#[test]
fn matrix_index_pass() {
    let a = two_by_three();
    assert_eq!(a.rows[0].get(0), Some(1.0));
    assert_eq!(a.rows[0].get(1), Some(2.0));
    assert_eq!(a.rows[0].get(2), Some(3.0));
    assert_eq!(a.rows[1].get(0), Some(4.0));
    assert_eq!(a.rows[1].get(1), Some(5.0));
    assert_eq!(a.rows[1].get(2), Some(6.0));
}

#[test]
#[should_panic]
fn matrix_index_fail() {
    let a = two_by_three();
    let _ = a.rows[0].get(3).unwrap();
}

#[test]
fn matrix_zeros_pass() {
    let a = Matrix::filled(2, 3, 0.0);
    assert_eq!(a.rows, vec![Vector { elements: vec![0.0, 0.0, 0.0] }, Vector { elements: vec![0.0, 0.0, 0.0] }]);
}

#[test]
fn matrix_ones_pass() {
    let a = Matrix::filled(2, 3, 1.0);
    assert_eq!(a.rows, vec![Vector { elements: vec![1.0, 1.0, 1.0] }, Vector { elements: vec![1.0, 1.0, 1.0] }]);
}

#[test]
fn matrix_identity_pass() {
    let a = Matrix::diagonal(3, 0.0, 1.0);
    for i in 0..3 {
        for j in 0..3 {
            if i == j {
                assert_eq!(a.rows[i].elements[j], 1.0);
            } else {
                assert_eq!(a.rows[i].elements[j], 0.0);
            }
        }
    }
}

#[test]
fn matrix_shape_pass() {
    let a = Matrix::filled(2, 3, 0.0);
    assert_eq!(a.shape(), (2, 3));
}

#[test]
fn matrix_get_col_pass() {
    let a = two_by_three();
    let b = a.get_col(1).unwrap();
    assert_eq!(b.elements, vec![2.0, 5.0]);
}

#[test]
#[should_panic]
fn matrix_get_col_fail() {
    let a = Matrix::filled(2, 3, 0.0);
    let _ = a.get_col(3).unwrap();
}

#[test]
fn matrix_set_row_pass() {
    let mut a = Matrix::filled(2, 3, 0.0);
    let b = Vector { elements: vec![1.0, 2.0, 3.0] };
    a.set_row(1, b).unwrap();
    assert_eq!(a.rows, vec![Vector { elements: vec![0.0, 0.0, 0.0] }, Vector { elements: vec![1.0, 2.0, 3.0] }]);
}

#[test]
#[should_panic]
fn matrix_set_row_fail() {
    let mut a = Matrix::filled(2, 3, 0.0);
    let b = Vector { elements: vec![1.0, 2.0] };
    a.set_row(1, b).unwrap();
}

#[test]
fn matrix_set_col_pass() {
    let mut a = Matrix::filled(2, 3, 0.0);
    let b = Vector { elements: vec![1.0, 2.0] };
    a.set_col(1, &b).unwrap();
    assert_eq!(a.rows, vec![Vector { elements: vec![0.0, 1.0, 0.0] }, Vector { elements: vec![0.0, 2.0, 0.0] }]);
}

#[test]
#[should_panic]
fn matrix_set_col_fail() {
    let mut a = Matrix::filled(2, 3, 0.0);
    let b = Vector { elements: vec![1.0, 2.0, 3.0] };
    a.set_col(1, &b).unwrap();
}

#[test]
fn matrix_transpose_pass() {
    let a = two_by_three();
    let b = a.transpose().unwrap();
    assert_eq!(b.rows, vec![Vector { elements: vec![1.0, 4.0] }, Vector { elements: vec![2.0, 5.0] }, Vector { elements: vec![3.0, 6.0] }]);
}

#[test]
fn matrix_errors_name_their_cause() {
    let mut a = two_by_three();
    assert_eq!(a.set_row(2, Vector::new(vec![0.0, 0.0, 0.0])), Err(KanError::IndexOutOfRange));
    assert_eq!(a.set_row(0, Vector::new(vec![0.0])), Err(KanError::ShapeMismatch));
    assert_eq!(a.set_col(3, &Vector::new(vec![0.0, 0.0])), Err(KanError::IndexOutOfRange));
    assert_eq!(a.set_col(0, &Vector::new(vec![0.0])), Err(KanError::ShapeMismatch));
    assert_eq!(a, two_by_three());
    assert_eq!(a.get_col(3), Err(KanError::IndexOutOfRange));
}

#[test]
fn matrix_ragged_rows() {
    let a = Matrix::new(vec![Vector::new(vec![1, 2, 3]), Vector::new(vec![4])]);
    assert_eq!(a.transpose(), Err(KanError::ShapeMismatch));
    assert_eq!(a.get_col(0).unwrap().elements, vec![1, 4]);
    assert_eq!(a.get_col(1), Err(KanError::IndexOutOfRange));
    let b = Matrix::new(vec![Vector::new(vec![1, 2, 3]), Vector::new(vec![4, 5])]);
    assert_eq!(a.zip_with(&b, &|x: i32, y: i32| x + y), Err(KanError::ShapeMismatch));
}

#[test]
fn matrix_empty_shape_and_transpose() {
    let a: Matrix<i32> = Matrix::new(vec![]);
    assert_eq!(a.shape(), (0, 0));
    assert_eq!(a.transpose().unwrap().rows.len(), 0);
}

#[test]
fn matrix_diagonal_of_size_zero() {
    let a: Matrix<i32> = Matrix::diagonal(0, 0, 1);
    assert_eq!(a.rows.len(), 0);
}

fn multiply_add(acc: f64, x: f64, y: f64) -> f64 {
    acc + x * y
}

#[test]
fn matrix_mul_vector_pass() {
    let a = two_by_three();
    let b = Vector { elements: vec![7.0, 8.0, 9.0] };
    let c = a.mul_vector_with(&b, 0.0, &multiply_add).unwrap();
    assert_eq!(c.elements, vec![50.0, 122.0]);
}

#[test]
fn matrix_mul_matrix_pass() {
    let a = Matrix { rows: vec![Vector { elements: vec![1.0, 2.0] }, Vector { elements: vec![3.0, 4.0] }] };
    let b = Matrix { rows: vec![Vector { elements: vec![5.0, 6.0] }, Vector { elements: vec![7.0, 8.0] }] };
    let c = a.mul_matrix_with(&b, 0.0, &multiply_add).unwrap();
    assert_eq!(c.rows, vec![Vector { elements: vec![19.0, 22.0] }, Vector { elements: vec![43.0, 50.0] }]);
}

#[test]
#[should_panic]
fn matrix_mul_matrix_fail() {
    let a = two_by_three();
    let b = Matrix { rows: vec![Vector { elements: vec![4.0, 5.0] }, Vector { elements: vec![7.0, 8.0] }] };
    let _ = a.mul_matrix_with(&b, 0.0, &multiply_add).unwrap();
}

#[test]
fn matrix_products_check_every_row() {
    let ragged = Matrix::new(vec![Vector::new(vec![1.0, 2.0, 3.0]), Vector::new(vec![4.0])]);
    let v = Vector::new(vec![1.0, 1.0, 1.0]);
    assert_eq!(ragged.mul_vector_with(&v, 0.0, &multiply_add), Err(KanError::ShapeMismatch));
    let square = Matrix::diagonal(3, 0.0, 1.0);
    assert_eq!(ragged.mul_matrix_with(&square, 0.0, &multiply_add), Err(KanError::ShapeMismatch));
    assert_eq!(square.mul_matrix_with(&ragged, 0.0, &multiply_add), Err(KanError::ShapeMismatch));
}

#[test]
fn matrix_product_with_identity_is_unchanged() {
    let a = two_by_three();
    let c = a.mul_matrix_with(&Matrix::diagonal(3, 0.0, 1.0), 0.0, &multiply_add).unwrap();
    assert_eq!(c, a);
}

#[test]
fn matrix_product_folds_row_against_column() {
    // Non-commutative step: the row entry comes first, the column entry second.
    let a = Matrix::new(vec![Vector::new(vec![1u64, 2])]);
    let b = Matrix::new(vec![Vector::new(vec![3u64]), Vector::new(vec![4u64])]);
    let c = a.mul_matrix_with(&b, 0u64, &|acc: u64, x: u64, y: u64| acc * 100 + 10 * x + y).unwrap();
    assert_eq!(c.rows, vec![Vector::new(vec![1324])]);
}
