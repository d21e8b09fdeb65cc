use ovsa::dense::{common_dimension, cyclic_shift};
use ovsa::errors::OVSAError;

#[test]
fn dense_cyclic_shift_moves_components() {
    let v = vec![1.0f32, 2.0, 3.0, 4.0];
    assert_eq!(cyclic_shift(&v, 1), vec![4.0f32, 1.0, 2.0, 3.0]);
    assert_eq!(cyclic_shift(&v, -1), vec![2.0f32, 3.0, 4.0, 1.0]);
    assert_eq!(cyclic_shift(&v, 6), vec![3.0f32, 4.0, 1.0, 2.0]);
    assert_eq!(cyclic_shift(&v, 0), v);
}

#[test]
fn dense_cyclic_shift_of_empty_vector() {
    let v: Vec<f32> = vec![];
    assert_eq!(cyclic_shift(&v, 3), Vec::<f32>::new());
}

#[test]
fn dense_shift_round_trip() {
    let v = vec![0.5f32, -1.0, 2.25, 8.0, 3.0];
    for s in [-12isize, -5, -1, 0, 2, 5, 99, isize::MAX] {
        assert_eq!(cyclic_shift(&cyclic_shift(&v, s), -s), v);
    }
}

#[test]
fn dense_operand_validation() {
    assert_eq!(common_dimension(&vec![]), Err(OVSAError::EmptyVectorList));
    assert_eq!(common_dimension(&vec![3, 3, 4]), Err(OVSAError::VectorSizeMismatch));
    assert_eq!(common_dimension(&vec![3, 3, 3]), Ok(3));
    assert_eq!(common_dimension(&vec![5]), Ok(5));
}
