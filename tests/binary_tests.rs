use ovsa::binary::{
    consensus_sum, consensus_with_ties, cyclic_shift, from_indices, hamming_distance, similarity,
    sparse_random, xor, BinaryHypervector,
};
use ovsa::errors::OVSAError;
use rand::rng;
use rand::seq::index::sample;

#[test]
fn test_sparse_random() {
    let dimension = 10;
    let n_active = 3;
    let vec = sparse_random(dimension, n_active).expect("Failed to create sparse random vector");
    assert_eq!(vec.dim(), dimension);
    assert_eq!(vec.nnz(), n_active);
}

#[test]
fn test_from_indices() {
    let dimension = 10;
    let indices = vec![1, 3, 5];
    let vec = from_indices(dimension, &indices).expect("Failed to create vector from indices");
    assert_eq!(vec.dim(), dimension);
    assert_eq!(vec.nnz(), indices.len());
    for &index in &indices {
        assert_eq!(vec.get(index), 1);
    }
}

#[test]
fn test_hamming_distance() {
    let dimension = 10;
    let vec1 = from_indices(dimension, &[1, 3, 5]).unwrap();
    let vec2 = from_indices(dimension, &[3, 4, 5]).unwrap();
    let distance = hamming_distance(&vec1, &vec2).unwrap();
    assert_eq!(distance, 2); // indices 1 and 4 are different
}

#[test]
fn test_consensus_sum() {
    let dimension = 10;
    let vec1 = from_indices(dimension, &[1, 3, 5]).unwrap();
    let vec2 = from_indices(dimension, &[3, 4, 5]).unwrap();
    let vec3 = from_indices(dimension, &[1, 6, 9]).unwrap();
    let consensus = consensus_sum(&[vec1, vec2, vec3]).expect("failed to compute consensus sum");
    let on_indices: Vec<usize> = vec![1, 3, 5];
    for index in 0..dimension {
        if on_indices.contains(&index) {
            assert_eq!(consensus.get(index), 1);
        }
    }
}

#[test]
fn test_consensus_sum_tie() {
    let mut rng = rng();
    let dimension = 10000;

    let mut indices1: Vec<usize> = sample(&mut rng, dimension / 2, dimension / 4).into_vec();
    indices1.sort();

    let vec1 = from_indices(dimension, &indices1).unwrap();

    let mut indices2: Vec<usize> = sample(&mut rng, dimension / 2, dimension / 4).into_vec();
    for element in &mut indices2 {
        // offset by half the dimension to avoid overlap
        *element += dimension / 2;
    }
    indices2.sort();

    let vec2 = from_indices(dimension, &indices2).unwrap();

    let consensus = consensus_sum(&[vec1, vec2]).unwrap();
    let indices = consensus.indices();

    println!(
        "Consensus indices: n({}) should be close to {}",
        indices.len(),
        dimension / 4
    );

    let abs_diff = if indices.len() > dimension / 4 {
        indices.len() - dimension / 4
    } else {
        dimension / 4 - indices.len()
    };

    assert!(
        abs_diff < dimension / 20,
        "Consensus sum deviates too much from expected in tie case."
    );
}

#[test]
fn test_xor() {
    let dimension = 10;
    let vec1 = from_indices(dimension, &[1, 3, 5]).unwrap();
    let vec2 = from_indices(dimension, &[3, 4, 5]).unwrap();
    let result = xor(&vec1, &vec2).expect("failed to compute xor");
    let expected_indices = vec![1, 4];
    assert_eq!(result.nnz(), expected_indices.len());
    for &index in &expected_indices {
        assert_eq!(result.get(index), 1);
    }
}

#[test]
fn test_cyclic_shift() {
    let dimension = 10;
    let vec = from_indices(dimension, &[1, 3, 5, 9]).unwrap();
    let shifted_vec = cyclic_shift(&vec, 2);
    let expected_indices = vec![3, 5, 7, 1];
    assert_eq!(shifted_vec.nnz(), expected_indices.len());
    for &index in &expected_indices {
        assert_eq!(shifted_vec.get(index), 1);
    }
}

#[test]
fn test_cyclic_shift_negative() {
    let dimension = 10;
    let vec = from_indices(dimension, &[1, 3, 5, 0]).unwrap();
    let shifted_vec = cyclic_shift(&vec, -2);
    let expected_indices = vec![9, 1, 3, 8];
    assert_eq!(shifted_vec.nnz(), expected_indices.len());
    for &index in &expected_indices {
        assert_eq!(shifted_vec.get(index), 1);
    }
}

#[test]
fn test_similarity() {
    let dimension = 10;
    let vec1 = from_indices(dimension, &[1, 3, 5]).unwrap();
    let vec2 = from_indices(dimension, &[3, 4, 5]).unwrap();
    let similarity = similarity(&vec1, &vec2).expect("Failed to compute similarity");
    let value = 1.0 - (similarity.distance as f64 / similarity.dimension as f64);
    // two items are not the same (indices 1 and 4) out of four active indices total
    let expected_similarity = 1.0 - (2.0 / (dimension as f64));
    assert_eq!(value, expected_similarity);
}

fn active(v: &BinaryHypervector) -> Vec<usize> {
    v.indices().to_vec()
}

#[test]
fn from_indices_sorts_and_deduplicates() {
    let v = from_indices(10, &[5, 1, 5, 3, 1]).unwrap();
    assert_eq!(active(&v), vec![1, 3, 5]);
    assert_eq!(v.nnz(), 3);
    assert_eq!(v.get(0), 0);
    assert_eq!(v.get(5), 1);
}

#[test]
fn from_indices_empty_list_is_all_zero() {
    let v = from_indices(7, &[]).unwrap();
    assert_eq!(v.dim(), 7);
    assert_eq!(v.nnz(), 0);
}

#[test]
fn from_indices_errors() {
    assert_eq!(from_indices(0, &[]).err(), Some(OVSAError::ZeroDimension));
    assert_eq!(from_indices(0, &[0]).err(), Some(OVSAError::ZeroDimension));
    assert_eq!(from_indices(10, &[3, 10]).err(), Some(OVSAError::VectorSizeMismatch));
    assert!(from_indices(10, &[9]).is_ok());
}

#[test]
fn sparse_random_errors() {
    assert_eq!(sparse_random(0, 0).err(), Some(OVSAError::ZeroDimension));
    assert_eq!(sparse_random(0, 3).err(), Some(OVSAError::ZeroDimension));
    assert_eq!(sparse_random(10, 0).err(), Some(OVSAError::ZeroActiveElements));
    assert_eq!(sparse_random(10, 11).err(), Some(OVSAError::TooManyActiveElements));
}

#[test]
fn sparse_random_indices_are_distinct_sorted_and_in_range() {
    let v = sparse_random(1000, 500).unwrap();
    let ind = active(&v);
    assert_eq!(ind.len(), 500);
    for w in ind.windows(2) {
        assert!(w[0] < w[1]);
    }
    assert!(ind.iter().all(|&i| i < 1000));
    let full = sparse_random(8, 8).unwrap();
    assert_eq!(active(&full), vec![0, 1, 2, 3, 4, 5, 6, 7]);
}

#[test]
fn operand_dimension_mismatch() {
    let a = from_indices(10, &[1]).unwrap();
    let b = from_indices(11, &[1]).unwrap();
    assert_eq!(xor(&a, &b).err(), Some(OVSAError::VectorSizeMismatch));
    assert_eq!(hamming_distance(&a, &b), Err(OVSAError::VectorSizeMismatch));
    assert_eq!(similarity(&a, &b), Err(OVSAError::VectorSizeMismatch));
    assert_eq!(consensus_sum(&[a, b]).err(), Some(OVSAError::VectorSizeMismatch));
}

#[test]
fn consensus_of_no_vectors() {
    assert_eq!(consensus_sum(&[]).err(), Some(OVSAError::EmptyVectorList));
    assert_eq!(consensus_with_ties(&[], &vec![]).err(), Some(OVSAError::EmptyVectorList));
}

#[test]
fn bind_twice_gives_back_the_first_operand() {
    let a = from_indices(10, &[1, 3, 5]).unwrap();
    let b = from_indices(10, &[3, 4, 5]).unwrap();
    let ab = xor(&a, &b).unwrap();
    assert_eq!(active(&ab), vec![1, 4]);
    let back = xor(&ab, &b).unwrap();
    assert_eq!(active(&back), vec![1, 3, 5]);
    let zero = xor(&a, &a).unwrap();
    assert_eq!(zero.nnz(), 0);
}

#[test]
fn hamming_distance_is_symmetric() {
    let a = from_indices(64, &[0, 7, 8, 30, 63]).unwrap();
    let b = from_indices(64, &[7, 9, 30, 40]).unwrap();
    assert_eq!(hamming_distance(&a, &b), Ok(5));
    assert_eq!(hamming_distance(&b, &a), Ok(5));
}

#[test]
fn similarity_with_itself_is_one() {
    let a = from_indices(10, &[2, 4, 6]).unwrap();
    let s = similarity(&a, &a).unwrap();
    assert_eq!(s.distance, 0);
    assert_eq!(s.dimension, 10);
    assert_eq!(1.0 - (s.distance as f64 / s.dimension as f64), 1.0);
    let full = from_indices(4, &[0, 1, 2, 3]).unwrap();
    let empty = from_indices(4, &[]).unwrap();
    assert_eq!(similarity(&full, &empty).unwrap().distance, 4);
}

#[test]
fn shift_then_shift_back_gives_the_vector() {
    let v = from_indices(10, &[0, 1, 3, 5, 9]).unwrap();
    for s in [-23isize, -10, -1, 0, 1, 7, 10, 31] {
        let there = cyclic_shift(&v, s);
        let back = cyclic_shift(&there, -s);
        assert_eq!(active(&back), active(&v));
    }
}

#[test]
fn shift_results_are_sorted() {
    let v = from_indices(10, &[1, 3, 5, 9]).unwrap();
    assert_eq!(active(&cyclic_shift(&v, 2)), vec![1, 3, 5, 7]);
    let w = from_indices(10, &[0, 1, 3, 5]).unwrap();
    assert_eq!(active(&cyclic_shift(&w, -2)), vec![1, 3, 8, 9]);
    assert_eq!(active(&cyclic_shift(&v, 12)), vec![1, 3, 5, 7]);
}

#[test]
fn shift_by_extreme_amounts() {
    let v = from_indices(7, &[0, 6]).unwrap();
    // isize::MAX = 7 * 1317624576693539401, so it is 0 mod 7.
    assert_eq!(active(&cyclic_shift(&v, isize::MAX)), vec![0, 6]);
    // isize::MIN = -(isize::MAX) - 1, which is 6 mod 7.
    assert_eq!(active(&cyclic_shift(&v, isize::MIN)), vec![5, 6]);
}

#[test]
fn bundle_of_identical_copies() {
    let v = from_indices(20, &[0, 2, 3, 11, 19]).unwrap();
    for k in 1..6 {
        let copies: Vec<BinaryHypervector> =
            (0..k).map(|_| from_indices(20, &[0, 2, 3, 11, 19]).unwrap()).collect();
        let b = consensus_sum(&copies).unwrap();
        assert_eq!(active(&b), active(&v));
    }
}

#[test]
fn majority_with_given_tie_breaks() {
    let a = from_indices(6, &[0, 1, 2]).unwrap();
    let b = from_indices(6, &[1, 2, 3]).unwrap();
    let c = from_indices(6, &[2, 4]).unwrap();
    // Three voters: no tie is possible.
    let r = consensus_with_ties(&[a, b, c], &vec![true; 6]).unwrap();
    assert_eq!(active(&r), vec![1, 2]);

    let a = from_indices(4, &[0, 1]).unwrap();
    let b = from_indices(4, &[1, 2]).unwrap();
    // Position 1 wins; positions 0 and 2 are tied; position 3 loses.
    let ties = vec![false, true, true, true];
    let r = consensus_with_ties(&[a, b], &ties).unwrap();
    assert_eq!(active(&r), vec![1, 2]);

    let a = from_indices(4, &[0, 1]).unwrap();
    let b = from_indices(4, &[1, 2]).unwrap();
    let r = consensus_with_ties(&[a, b], &vec![]).unwrap();
    assert_eq!(active(&r), vec![1]);
}

#[test]
fn bundling_many_random_vectors_is_near_half_active() {
    let dimension = 10000;
    let vectors: Vec<BinaryHypervector> =
        (0..20).map(|_| sparse_random(dimension, dimension / 2).unwrap()).collect();
    let b = consensus_sum(&vectors).unwrap();
    let fraction = b.nnz() as f64 / dimension as f64;
    assert!((fraction - 0.5).abs() < 0.05, "active fraction {}", fraction);
}
