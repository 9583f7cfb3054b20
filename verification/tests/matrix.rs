use sparse_ldl::matrix::CsMat;
use sparse_ldl::permutation::Permutation;

#[test]
fn from_vecs_accepts_sorted_columns() {
    let m = CsMat::from_vecs(2, vec![0, 2, 3], vec![0, 1, 1], vec![1.0, 2.0, 3.0]);
    let m = m.unwrap();
    assert_eq!(m.rows(), 2);
    assert_eq!(m.indptr, vec![0, 2, 3]);
    assert_eq!(m.indices, vec![0, 1, 1]);
    assert_eq!(m.data, vec![1.0, 2.0, 3.0]);
}

#[test]
fn from_vecs_accepts_the_empty_matrix() {
    let m = CsMat::<f64>::from_vecs(0, vec![0], vec![], vec![]);
    assert!(m.is_some());
}

#[test]
fn from_vecs_rejects_a_wrong_number_of_column_pointers() {
    assert!(CsMat::from_vecs(2, vec![0, 1], vec![0], vec![1.0]).is_none());
    assert!(CsMat::<f64>::from_vecs(0, vec![], vec![], vec![]).is_none());
}

#[test]
fn from_vecs_rejects_a_first_pointer_that_is_not_zero() {
    assert!(CsMat::from_vecs(1, vec![1, 1], vec![0], vec![1.0]).is_none());
}

#[test]
fn from_vecs_rejects_a_last_pointer_that_is_not_the_entry_count() {
    assert!(CsMat::from_vecs(1, vec![0, 0], vec![0], vec![1.0]).is_none());
}

#[test]
fn from_vecs_rejects_arrays_of_different_lengths() {
    assert!(CsMat::from_vecs(1, vec![0, 1], vec![0], vec![1.0, 2.0]).is_none());
}

#[test]
fn from_vecs_rejects_decreasing_column_pointers() {
    assert!(CsMat::from_vecs(2, vec![0, 2, 1], vec![0], vec![1.0]).is_none());
}

#[test]
fn from_vecs_rejects_a_row_outside_the_matrix() {
    assert!(CsMat::from_vecs(2, vec![0, 1, 2], vec![0, 2], vec![1.0, 1.0]).is_none());
}

#[test]
fn from_vecs_rejects_unsorted_and_repeated_rows() {
    assert!(CsMat::from_vecs(2, vec![0, 2, 2], vec![1, 0], vec![1.0, 1.0]).is_none());
    assert!(CsMat::from_vecs(2, vec![0, 2, 2], vec![1, 1], vec![1.0, 1.0]).is_none());
}

#[test]
fn find_in_column_gives_the_position_of_a_row() {
    let m = CsMat::from_vecs(3, vec![0, 2, 3, 5], vec![0, 2, 1, 0, 2], vec![1, 2, 3, 4, 5]);
    let m = m.unwrap();
    assert_eq!(m.find_in_column(0, 2), Some(1));
    assert_eq!(m.find_in_column(0, 1), None);
    assert_eq!(m.find_in_column(2, 0), Some(3));
    assert_eq!(m.find_in_column(1, 1), Some(2));
}

#[test]
fn is_symmetric_accepts_a_symmetric_matrix() {
    let m = CsMat::from_vecs(2, vec![0, 2, 4], vec![0, 1, 0, 1], vec![4.0, 2.0, 2.0, 3.0]);
    assert!(m.unwrap().is_symmetric());
}

#[test]
fn is_symmetric_rejects_values_that_differ() {
    let m = CsMat::from_vecs(2, vec![0, 2, 4], vec![0, 1, 0, 1], vec![4.0, 2.0, 2.5, 3.0]);
    assert!(!m.unwrap().is_symmetric());
}

#[test]
fn is_symmetric_rejects_a_pattern_that_differs() {
    let m = CsMat::from_vecs(2, vec![0, 2, 3], vec![0, 1, 1], vec![4.0, 2.0, 3.0]);
    assert!(!m.unwrap().is_symmetric());
}

#[test]
fn identity_moves_nothing() {
    let p = Permutation::identity();
    assert_eq!(p.at(0), 0);
    assert_eq!(p.at(17), 17);
    assert_eq!(p.at_inv(5), 5);
}

#[test]
fn new_builds_the_inverse() {
    let p = Permutation::new(vec![2, 0, 1]).unwrap();
    assert_eq!(p.at(0), 2);
    assert_eq!(p.at(1), 0);
    assert_eq!(p.at(2), 1);
    assert_eq!(p.at_inv(2), 0);
    assert_eq!(p.at_inv(0), 1);
    assert_eq!(p.at_inv(1), 2);
    for i in 0..3 {
        assert_eq!(p.at_inv(p.at(i)), i);
        assert_eq!(p.at(p.at_inv(i)), i);
    }
}

#[test]
fn new_rejects_what_is_no_permutation() {
    assert!(Permutation::new(vec![0, 0]).is_none());
    assert!(Permutation::new(vec![0, 2]).is_none());
    assert!(Permutation::new(vec![1, 1, 2]).is_none());
    assert!(Permutation::new(vec![3]).is_none());
}

#[test]
fn new_accepts_the_empty_permutation() {
    assert!(Permutation::new(vec![]).is_some());
}
