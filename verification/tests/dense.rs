use ultrametric_matrix_tools::{DMatrix, DVector};

#[test]
fn vector_round_trip() {
    let v = DVector::from_vec(vec![4, 2, 7, 5]);
    assert_eq!(v.nrows(), 4);
    assert_eq!(v.to_vec(), vec![4, 2, 7, 5]);
    assert_eq!(v.get(2), 7);
}

#[test]
fn vector_of_zeros_and_assignment() {
    let mut v = DVector::zeros(3);
    assert_eq!(v.to_vec(), vec![0, 0, 0]);
    v.set(1, -9);
    assert_eq!(v.to_vec(), vec![0, -9, 0]);
    assert_eq!(DVector::zeros(0).nrows(), 0);
}

#[test]
fn matrix_from_vec_is_column_major() {
    let m = DMatrix::from_vec(2, 3, vec![1, 2, 3, 4, 5, 6]).unwrap();
    assert_eq!(m.shape(), (2, 3));
    assert_eq!(m.nrows(), 2);
    assert_eq!(m.ncols(), 3);
    assert!(!m.is_square());
    assert_eq!(m.try_get(0, 0), Some(1));
    assert_eq!(m.try_get(1, 0), Some(2));
    assert_eq!(m.try_get(0, 1), Some(3));
    assert_eq!(m.try_get(1, 2), Some(6));
    assert_eq!(m.try_get(2, 0), None);
    assert_eq!(m.try_get(0, 3), None);
    assert_eq!(m.get(1, 1), 4);
}

#[test]
fn matrix_from_vec_wants_one_element_per_place() {
    assert!(DMatrix::from_vec(2, 2, vec![1, 2, 3]).is_none());
    assert!(DMatrix::from_vec(2, 2, vec![1, 2, 3, 4, 5]).is_none());
    assert!(DMatrix::from_vec(usize::MAX, 2, vec![1, 2]).is_none());
    assert!(DMatrix::from_vec(0, 5, vec![]).is_some());
}

#[test]
fn matrix_of_zeros_and_assignment() {
    let mut m = DMatrix::zeros(2, 2);
    assert!(m.is_square());
    assert_eq!(m.try_get(1, 1), Some(0));
    m.set(0, 1, 8);
    assert_eq!(m.get(0, 1), 8);
    assert_eq!(m.get(1, 0), 0);
    assert_eq!(m.get(0, 0), 0);
}
