use perceptron::array::{Array, IndexType};
use perceptron::error::NetError;
use perceptron::linalg::{LinAlg, LinAlgGen, Matrix, Vector};

#[test]
fn split_borrow_of_distinct_layers() {
    let mut a: Array<Vector<i64>> = Array::from_buf(vec![
        Vector::from_arr([1]),
        Vector::from_arr([2]),
        Vector::from_arr([3]),
    ]);
    {
        let (x, y) = a.indices_mut(IndexType::Back(0), IndexType::Back(1)).unwrap();
        assert_eq!(x.at(0, 0), 3);
        assert_eq!(y.at(0, 0), 2);
        x.fill_eq(30);
        y.fill_eq(20);
    }
    assert_eq!(a.get(IndexType::Front(2)).at(0, 0), 30);
    assert_eq!(a.get(IndexType::Front(1)).at(0, 0), 20);
    assert_eq!(a.get(IndexType::Front(0)).at(0, 0), 1);
    {
        let (x, y) = a.indices_mut(IndexType::Front(0), IndexType::Back(0)).unwrap();
        assert_eq!(x.at(0, 0), 1);
        assert_eq!(y.at(0, 0), 30);
    }
}

#[test]
fn split_borrow_of_one_layer_is_aliased() {
    let mut a: Array<Vector<i64>> = Array::from_buf(vec![Vector::from_arr([1]), Vector::from_arr([2])]);
    assert!(matches!(a.indices_mut(IndexType::Front(1), IndexType::Back(0)), Err(NetError::Aliased)));
    assert!(matches!(a.indices_mut(IndexType::Front(0), IndexType::Front(0)), Err(NetError::Aliased)));
}

#[test]
fn front_and_back_indexing() {
    let mut a: Array<Matrix<i64>> = Array::from_buf(vec![
        Matrix::from_arr([[1, 2]]),
        Matrix::from_arr([[3], [4]]),
    ]);
    assert_eq!(a.len(), 2);
    assert_eq!(a.get(IndexType::Back(0)).at(1, 0), 4);
    assert_eq!(a.get(IndexType::Back(1)).at(0, 1), 2);
    a.get_mut(IndexType::Front(0)).fill_eq(9);
    assert_eq!(a.get(IndexType::Front(0)).at(0, 0), 9);
    a.zero::<i64>();
    assert_eq!(a.get(IndexType::Front(0)).buf().clone(), vec![0, 0]);
    assert_eq!(a.get(IndexType::Front(1)).buf().clone(), vec![0, 0]);
    let empty: Array<Matrix<i64>> = Array::new();
    assert_eq!(empty.len(), 0);
}
