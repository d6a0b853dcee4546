use perceptron::error::NetError;
use perceptron::linalg::{LinAlg, LinAlgGen, LinAlgMul, Matrix, Vector};

fn entries(m: &Matrix<i64>) -> Vec<i64> {
    m.buf().clone()
}

#[test]
fn identity_matrix_multiplication() {
    let a: Matrix<i64> = Matrix::from_arr([[1, 2, 3], [4, 5, 6]]);
    let i: Matrix<i64> = Matrix::identity(3);
    let mut c: Matrix<i64> = Matrix::zeros((2, 3));
    assert_eq!(a.mul_to(&i, &mut c), Ok(()));
    assert_eq!(entries(&c), vec![1, 2, 3, 4, 5, 6]);
    let mut c2: Matrix<i64> = Matrix::filled((2, 3), 7);
    assert_eq!(a.mul_t2_to(&i, &mut c2), Ok(()));
    assert_eq!(entries(&c2), vec![1, 2, 3, 4, 5, 6]);
}

#[test]
fn identity_is_neutral_on_both_sides() {
    let m: Matrix<i64> = Matrix::from_arr([[2, -1, 0], [5, 3, 9], [-4, 8, 1]]);
    let i: Matrix<i64> = Matrix::identity(3);
    let left: Matrix<i64> = i.mul(&m).unwrap();
    let right: Matrix<i64> = m.mul(&i).unwrap();
    assert_eq!(entries(&left), entries(&m));
    assert_eq!(entries(&right), entries(&m));
}

#[test]
fn product_values() {
    let a: Matrix<i64> = Matrix::from_arr([[1, 2], [3, 4]]);
    let b: Matrix<i64> = Matrix::from_arr([[5, 6, 7], [8, 9, 10]]);
    let c: Matrix<i64> = a.mul(&b).unwrap();
    assert_eq!(c.shape(), (2, 3));
    assert_eq!(entries(&c), vec![21, 24, 27, 47, 54, 61]);
}

#[test]
fn transpose_is_involutive() {
    let m: Matrix<i64> = Matrix::from_arr([[1, 2, 3], [4, 5, 6]]);
    let t = m.transpose();
    assert_eq!(t.shape(), (3, 2));
    assert_eq!(entries(&t), vec![1, 4, 2, 5, 3, 6]);
    let tt = t.transpose();
    assert_eq!(tt.shape(), (2, 3));
    assert_eq!(entries(&tt), entries(&m));
}

#[test]
fn transpose_aware_products_agree() {
    let a: Matrix<i64> = Matrix::from_arr([[1, 2, 3], [4, 5, 6]]);
    let b: Matrix<i64> = Matrix::from_arr([[7, 8], [9, 10]]);
    let mut c1: Matrix<i64> = Matrix::zeros((3, 2));
    assert_eq!(a.mul_t1_to(&b, &mut c1), Ok(()));
    let c2: Matrix<i64> = a.transpose().mul(&b).unwrap();
    assert_eq!(entries(&c1), entries(&c2));
    assert_eq!(entries(&c1), vec![43, 48, 59, 66, 75, 84]);

    let d: Matrix<i64> = Matrix::from_arr([[1, 0, 2], [3, 1, 1]]);
    let mut e1: Matrix<i64> = Matrix::zeros((2, 2));
    assert_eq!(a.mul_t2_to(&d, &mut e1), Ok(()));
    let e2: Matrix<i64> = a.mul(&d.transpose()).unwrap();
    assert_eq!(entries(&e1), entries(&e2));
    assert_eq!(entries(&e1), vec![7, 8, 16, 23]);
}

#[test]
fn shape_mismatch_is_reported() {
    let a: Matrix<i64> = Matrix::from_arr([[1, 2, 3], [4, 5, 6]]);
    let b: Matrix<i64> = Matrix::from_arr([[1, 2], [3, 4]]);
    let mut c: Matrix<i64> = Matrix::zeros((2, 2));
    assert_eq!(a.mul_to(&b, &mut c), Err(NetError::ShapeMismatch));
    assert_eq!(entries(&c), vec![0, 0, 0, 0]);
    let mut wrong_out: Matrix<i64> = Matrix::zeros((3, 3));
    assert_eq!(b.mul_to(&b, &mut wrong_out), Err(NetError::ShapeMismatch));
    assert_eq!(a.mul_t1_to(&b, &mut c), Err(NetError::ShapeMismatch));
    assert_eq!(a.mul_t2_to(&b, &mut c), Err(NetError::ShapeMismatch));
    let mut x = a.duplicate();
    assert_eq!(x.add_eq(&b), Err(NetError::ShapeMismatch));
    assert_eq!(x.sub_eq(&b), Err(NetError::ShapeMismatch));
    assert_eq!(x.dot_eq(&b), Err(NetError::ShapeMismatch));
    assert_eq!(entries(&x), entries(&a));
    assert!(a.add(&b).is_err());
    assert!(a.sub(&b).is_err());
    assert!(a.dot(&b).is_err());
    let r: Result<Matrix<i64>, NetError> = a.mul(&a);
    assert!(r.is_err());
    assert!(a.to_vector().is_err());
    assert!(a.to_diagonal().is_err());
}

#[test]
fn element_wise_operations() {
    let a: Matrix<i64> = Matrix::from_arr([[1, 2], [3, 4]]);
    let b: Matrix<i64> = Matrix::from_arr([[10, 20], [30, 40]]);
    assert_eq!(entries(&a.add(&b).unwrap()), vec![11, 22, 33, 44]);
    assert_eq!(entries(&b.sub(&a).unwrap()), vec![9, 18, 27, 36]);
    assert_eq!(entries(&a.dot(&b).unwrap()), vec![10, 40, 90, 160]);
    assert_eq!(entries(&a.scale(3)), vec![3, 6, 9, 12]);
    assert_eq!(entries(&a.map(|x: i64| x * x + 1)), vec![2, 5, 10, 17]);
    let mut c = a.duplicate();
    c.scale_eq(-2);
    assert_eq!(entries(&c), vec![-2, -4, -6, -8]);
    c.map_eq(|x: i64| x + 1);
    assert_eq!(entries(&c), vec![-1, -3, -5, -7]);
    assert_eq!(c.zip_eq(&a, |x: i64, y: i64| x * y), Ok(()));
    assert_eq!(entries(&c), vec![-1, -6, -15, -28]);
    c.fill_eq(5);
    assert_eq!(entries(&c), vec![5, 5, 5, 5]);
    c.fill_zero();
    assert_eq!(entries(&c), vec![0, 0, 0, 0]);
}

#[test]
fn buffer_length_is_checked() {
    let ok: Result<Matrix<i64>, NetError> = Matrix::from_buf((2, 3), vec![1, 2, 3, 4, 5, 6]);
    let m = ok.unwrap();
    assert_eq!(m.at(1, 0), 4);
    assert_eq!(m.shape(), (2, 3));
    let bad: Result<Matrix<i64>, NetError> = Matrix::from_buf((2, 3), vec![1, 2, 3]);
    assert!(matches!(bad, Err(NetError::BadBufferLength)));
    let v: Result<Vector<i64>, NetError> = Vector::from_buf(3, vec![1, 2]);
    assert!(matches!(v, Err(NetError::BadBufferLength)));
}

#[test]
fn conversions() {
    let v: Vector<i64> = Vector::from_arr([1, 2, 3]);
    let d = v.to_diagonal().unwrap();
    assert_eq!(entries(&d), vec![1, 0, 0, 0, 2, 0, 0, 0, 3]);
    let m = v.to_matrix();
    assert_eq!(m.shape(), (3, 1));
    let back = m.to_vector().unwrap();
    assert_eq!(back.buf().clone(), vec![1, 2, 3]);
    let mapped: Matrix<i64> = Matrix::from_map((2, 2), |i: usize, j: usize| (10 * i + j) as i64);
    assert_eq!(entries(&mapped), vec![0, 1, 10, 11]);
    assert_eq!(v.shape_t(), (1, 3));
}

#[test]
fn one_hot_vectors() {
    let v: Vector<i64> = Vector::one_hot(5, 3);
    assert_eq!(v.hot(), 3);
    assert_eq!(v.at(3, 0), 1);
    assert_eq!(v.buf().iter().sum::<i64>(), 1);
    assert_eq!(v.buf().clone(), vec![0, 0, 0, 1, 0]);
    let first: Vector<i64> = Vector::one_hot(4, 0);
    assert_eq!(first.hot(), 0);
}

#[test]
fn hot_takes_first_largest() {
    let v: Vector<i64> = Vector::from_arr([3, 9, 2, 9]);
    assert_eq!(v.hot(), 1);
    let empty: Vector<i64> = Vector::from_arr([]);
    assert_eq!(empty.hot(), 0);
}

#[test]
fn wrapping_integer_arithmetic() {
    let a: Matrix<i64> = Matrix::from_arr([[i64::MAX]]);
    let b: Matrix<i64> = Matrix::from_arr([[1]]);
    assert_eq!(entries(&a.add(&b).unwrap()), vec![i64::MIN]);
    let c: Matrix<i32> = Matrix::from_arr([[7, 8]]);
    let d: Matrix<i32> = Matrix::from_arr([[2], [3]]);
    let p: Matrix<i32> = c.mul(&d).unwrap();
    assert_eq!(p.buf().clone(), vec![38]);
}
