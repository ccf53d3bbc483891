//! Fixed-point cosine similarity: exact values, self-similarity, symmetry,
//! and the degenerate-input policy.

use engine::{cosine_similarity, SCORE_SCALE};

#[test]
fn cosine_of_vector_with_itself_is_one() {
    assert_eq!(cosine_similarity(&[3, 4], &[3, 4]), SCORE_SCALE);
    assert_eq!(cosine_similarity(&[1], &[1]), SCORE_SCALE);
    assert_eq!(cosine_similarity(&[7, -2, 9], &[7, -2, 9]), SCORE_SCALE);
}

#[test]
fn cosine_of_parallel_vectors_is_one() {
    assert_eq!(cosine_similarity(&[2, 0], &[1, 0]), SCORE_SCALE);
}

#[test]
fn cosine_is_symmetric() {
    assert_eq!(
        cosine_similarity(&[1, 2, 3], &[4, 5, 6]),
        cosine_similarity(&[4, 5, 6], &[1, 2, 3])
    );
    assert_eq!(cosine_similarity(&[1, 2, 3], &[4, 5, 6]), 974631);
}

#[test]
fn cosine_exact_values() {
    assert_eq!(cosine_similarity(&[1, 1], &[1, 0]), 707107);
    assert_eq!(cosine_similarity(&[1, 1], &[1, 2]), 948683);
    assert_eq!(cosine_similarity(&[1, 2], &[2, 1]), 800000);
    assert_eq!(cosine_similarity(&[10, 0], &[9, 1]), 993883);
}

#[test]
fn cosine_of_orthogonal_vectors_is_zero() {
    assert_eq!(cosine_similarity(&[1, 0], &[0, 1]), 0);
}

#[test]
fn cosine_of_opposite_vectors_is_minus_one() {
    assert_eq!(cosine_similarity(&[1, 0], &[-1, 0]), -SCORE_SCALE);
}

#[test]
fn cosine_of_mismatched_lengths_is_zero() {
    assert_eq!(cosine_similarity(&[1, 0], &[1, 0, 0]), 0);
}

#[test]
fn cosine_of_empty_vectors_is_zero() {
    assert_eq!(cosine_similarity(&[], &[]), 0);
}

#[test]
fn cosine_of_zero_norm_vector_is_zero() {
    assert_eq!(cosine_similarity(&[0, 0], &[1, 1]), 0);
    assert_eq!(cosine_similarity(&[1, 1], &[0, 0]), 0);
}
