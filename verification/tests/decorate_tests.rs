//! Similarity-result decoration, embedding statistics, and the export of
//! items still lacking embeddings.

use engine::{
    ClaimCategory, Confidence, Database, EmbeddingSource, TranscriptChunk, Video,
};

fn video(id: &str, title: &str, description: Option<&str>) -> Video {
    Video {
        id: id.to_string(),
        url: format!("https://example.invalid/{id}"),
        title: title.to_string(),
        channel: None,
        upload_date: None,
        description: description.map(|d| d.to_string()),
        added_at: 1_000,
    }
}

fn chunk(video_id: &str, index: i32, text: &str) -> TranscriptChunk {
    TranscriptChunk {
        id: 0,
        video_id: video_id.to_string(),
        chunk_index: index,
        start_time: (index as i64) * 10_000,
        end_time: (index as i64 + 1) * 10_000,
        text: text.to_string(),
        token_count: 4,
        overlap_with_previous: false,
    }
}

#[test]
fn text_for_embedding_reads_each_source_kind() {
    let mut db = Database::open_in_memory();
    db.insert_video(video("v1", "river towns", Some("a talk")));
    db.save_transcript_chunks("v1", &[chunk("v1", 0, "first chunk text")]).unwrap();
    let claim = db.create_claim(
        "a claim",
        "v1",
        None,
        "quoted",
        ClaimCategory::Factual,
        Confidence::High,
        1_000,
    );

    let ve = db.save_embedding(EmbeddingSource::Video, "v1", "m", &[1, 0], 10).unwrap();
    assert_eq!(db.get_text_for_embedding(&ve).unwrap(), "river towns\na talk");

    let ce = db.save_embedding(EmbeddingSource::Chunk, "v1:0", "m", &[1, 0], 10).unwrap();
    assert_eq!(db.get_text_for_embedding(&ce).unwrap(), "first chunk text");

    let cl = db
        .save_embedding(EmbeddingSource::Claim, &claim.id.to_string(), "m", &[1, 0], 10)
        .unwrap();
    assert_eq!(db.get_text_for_embedding(&cl).unwrap(), "a claim");

    let orphan = db.save_embedding(EmbeddingSource::Video, "ghost", "m", &[1, 0], 10).unwrap();
    assert!(db.get_text_for_embedding(&orphan).is_none());

    let bad_key = db.save_embedding(EmbeddingSource::Chunk, "v1:0:9", "m", &[1, 0], 10).unwrap();
    assert!(db.get_text_for_embedding(&bad_key).is_none(), "a malformed composite key");

    let summary = db.save_embedding(EmbeddingSource::Summary, "v1:1", "m", &[1, 0], 10).unwrap();
    assert!(db.get_text_for_embedding(&summary).is_none(), "no summary text is stored");
}

#[test]
fn build_similarity_results_attributes_videos() {
    let mut db = Database::open_in_memory();
    db.insert_video(video("v1", "river towns", None));
    db.save_transcript_chunks("v1", &[chunk("v1", 0, "first chunk text")]).unwrap();
    let claim = db.create_claim(
        "a claim",
        "v1",
        None,
        "quoted",
        ClaimCategory::Factual,
        Confidence::High,
        1_000,
    );
    db.save_embedding(EmbeddingSource::Video, "v1", "m", &[1, 0], 10).unwrap();
    db.save_embedding(EmbeddingSource::Chunk, "v1:0", "m", &[1, 1], 10).unwrap();
    db.save_embedding(EmbeddingSource::Claim, &claim.id.to_string(), "m", &[0, 1], 10).unwrap();

    let hits = db.find_similar(&[1, 0], None, 10);
    let results = db.build_similarity_results(hits);
    assert_eq!(results.len(), 3);
    assert_eq!(results[0].source_type, EmbeddingSource::Video);
    assert_eq!(results[0].video_id.as_deref(), Some("v1"));
    assert_eq!(results[0].text, "river towns\n");
    assert_eq!(results[0].score, engine::SCORE_SCALE);
    assert_eq!(results[1].source_type, EmbeddingSource::Chunk);
    assert_eq!(results[1].video_id.as_deref(), Some("v1"));
    assert_eq!(results[1].text, "first chunk text");
    assert_eq!(results[2].source_type, EmbeddingSource::Claim);
    assert_eq!(results[2].video_id.as_deref(), Some("v1"), "claims attribute via their video");
    assert_eq!(results[2].score, 0);
}

#[test]
fn embedding_stats_count_by_kind() {
    let mut db = Database::open_in_memory();
    let stats = db.get_embedding_stats();
    assert_eq!(stats.total_embeddings, 0);
    assert!(stats.model.is_none());
    assert!(stats.dimensions.is_none());

    db.save_embedding(EmbeddingSource::Video, "v1", "m", &[1, 0, 0], 10).unwrap();
    db.save_embedding(EmbeddingSource::Chunk, "v1:0", "m", &[1, 0, 0], 10).unwrap();
    db.save_embedding(EmbeddingSource::Chunk, "v1:1", "m", &[0, 1, 0], 10).unwrap();
    db.save_embedding(EmbeddingSource::Claim, "1", "m", &[0, 0, 1], 10).unwrap();
    let stats = db.get_embedding_stats();
    assert_eq!(stats.total_embeddings, 4);
    assert_eq!(stats.video_embeddings, 1);
    assert_eq!(stats.chunk_embeddings, 2);
    assert_eq!(stats.claim_embeddings, 1);
    assert_eq!(stats.summary_embeddings, 0);
    assert_eq!(stats.model.as_deref(), Some("m"));
    assert_eq!(stats.dimensions, Some(3));
}

#[test]
fn items_needing_embeddings_lists_each_missing_entity() {
    let mut db = Database::open_in_memory();
    db.insert_video(video("covered", "has one", None));
    db.insert_video(video("bare", "has none", None));
    db.save_transcript_chunks("covered", &[chunk("covered", 0, "a"), chunk("covered", 1, "b")])
        .unwrap();
    let claim = db.create_claim(
        "c",
        "covered",
        None,
        "q",
        ClaimCategory::Factual,
        Confidence::Low,
        1_000,
    );

    db.save_embedding(EmbeddingSource::Video, "covered", "m", &[1, 0], 10).unwrap();
    db.save_embedding(EmbeddingSource::Chunk, "covered:0", "m", &[1, 0], 10).unwrap();

    let (videos, chunks, claims) = db.get_items_needing_embeddings();
    assert_eq!(videos, vec!["bare".to_string()]);
    assert_eq!(chunks, vec!["covered:1".to_string()]);
    assert_eq!(claims, vec![claim.id]);
}
