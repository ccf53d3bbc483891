//! Vector store semantics (upsert, lookup, deletion) and similarity
//! search ordering.

use engine::{Database, EmbeddingSource, StoreError};

#[test]
fn saving_same_key_twice_keeps_one_row_with_second_vector() {
    let mut db = Database::open_in_memory();
    db.save_embedding(EmbeddingSource::Chunk, "v1:0", "m", &[1, 2, 3], 10).unwrap();
    db.save_embedding(EmbeddingSource::Chunk, "v1:0", "m", &[4, 5, 6], 11).unwrap();

    assert_eq!(db.list_all_embeddings().len(), 1, "the upsert replaced, not appended");
    let row = db.get_embedding(EmbeddingSource::Chunk, "v1:0", "m").unwrap();
    assert_eq!(row.vector, vec![4, 5, 6]);
}

#[test]
fn different_models_are_different_rows() {
    let mut db = Database::open_in_memory();
    db.save_embedding(EmbeddingSource::Video, "v1", "m1", &[1, 0], 10).unwrap();
    db.save_embedding(EmbeddingSource::Video, "v1", "m2", &[0, 1], 10).unwrap();
    assert_eq!(db.list_all_embeddings().len(), 2);
    assert!(db.has_embedding(EmbeddingSource::Video, "v1"));
    assert!(!db.has_embedding(EmbeddingSource::Chunk, "v1"));
}

#[test]
fn malformed_vectors_are_rejected_before_any_write() {
    let mut db = Database::open_in_memory();
    assert_eq!(
        db.save_embedding(EmbeddingSource::Video, "v1", "m", &[], 10).err(),
        Some(StoreError::InvalidInput)
    );
    assert_eq!(
        db.save_embedding(EmbeddingSource::Video, "v1", "m", &[40_000], 10).err(),
        Some(StoreError::InvalidInput)
    );
    let oversized = vec![0i64; 16_385];
    assert_eq!(
        db.save_embedding(EmbeddingSource::Video, "v1", "m", &oversized, 10).err(),
        Some(StoreError::InvalidInput),
        "one component more than the dimension bound"
    );
    assert!(db.list_all_embeddings().is_empty());
}

#[test]
fn delete_embedding_removes_all_models_of_the_key() {
    let mut db = Database::open_in_memory();
    db.save_embedding(EmbeddingSource::Video, "v1", "m1", &[1, 0], 10).unwrap();
    db.save_embedding(EmbeddingSource::Video, "v1", "m2", &[0, 1], 10).unwrap();
    db.save_embedding(EmbeddingSource::Video, "v2", "m1", &[1, 1], 10).unwrap();
    assert!(db.delete_embedding(EmbeddingSource::Video, "v1"));
    assert_eq!(db.list_all_embeddings().len(), 1);
    assert!(!db.delete_embedding(EmbeddingSource::Video, "v1"));
}

#[test]
fn find_similar_never_exceeds_limit_and_orders_by_score() {
    let mut db = Database::open_in_memory();
    db.save_embedding(EmbeddingSource::Video, "a", "m", &[1, 0], 10).unwrap();
    db.save_embedding(EmbeddingSource::Video, "b", "m", &[1, 1], 10).unwrap();
    db.save_embedding(EmbeddingSource::Video, "c", "m", &[0, 1], 10).unwrap();
    db.save_embedding(EmbeddingSource::Video, "d", "m", &[-1, 0], 10).unwrap();

    let hits = db.find_similar(&[1, 0], None, 3);
    assert_eq!(hits.len(), 3, "cut to the limit");
    for w in hits.windows(2) {
        assert!(w[0].1 >= w[1].1, "scores are non-increasing");
    }
    assert_eq!(hits[0].0.source_id, "a");
    assert_eq!(hits[0].1, engine::SCORE_SCALE);
    assert_eq!(hits[1].0.source_id, "b");
    assert_eq!(hits[1].1, 707107);
    assert_eq!(hits[2].0.source_id, "c");
    assert_eq!(hits[2].1, 0);

    let all = db.find_similar(&[1, 0], None, 10);
    assert_eq!(all.len(), 4, "a large limit returns every candidate");
    assert_eq!(all[3].0.source_id, "d");
    assert_eq!(all[3].1, -engine::SCORE_SCALE);
}

#[test]
fn find_similar_can_filter_by_source_kind() {
    let mut db = Database::open_in_memory();
    db.save_embedding(EmbeddingSource::Video, "a", "m", &[1, 0], 10).unwrap();
    db.save_embedding(EmbeddingSource::Claim, "7", "m", &[1, 0], 10).unwrap();
    let hits = db.find_similar(&[1, 0], Some(EmbeddingSource::Claim), 10);
    assert_eq!(hits.len(), 1);
    assert_eq!(hits[0].0.source_type, EmbeddingSource::Claim);
}

#[test]
fn find_similar_scores_degenerate_candidates_zero() {
    let mut db = Database::open_in_memory();
    db.save_embedding(EmbeddingSource::Video, "short", "m", &[5], 10).unwrap();
    let hits = db.find_similar(&[1, 0], None, 10);
    assert_eq!(hits.len(), 1);
    assert_eq!(hits[0].1, 0, "a dimension mismatch scores zero instead of failing");
}

#[test]
fn equal_scores_keep_storage_order() {
    let mut db = Database::open_in_memory();
    db.save_embedding(EmbeddingSource::Video, "first", "m", &[2, 0], 10).unwrap();
    db.save_embedding(EmbeddingSource::Video, "second", "m", &[3, 0], 10).unwrap();
    let hits = db.find_similar(&[1, 0], None, 10);
    assert_eq!(hits[0].0.source_id, "first");
    assert_eq!(hits[1].0.source_id, "second");
    assert_eq!(hits[0].1, hits[1].1);
}
