//! Keyword search over the lexical index, and the fusion ranking in its
//! pure-keyword and pure-semantic configurations.

use engine::{
    Database, EmbeddingSource, Transcript, TranscriptChunk, TranscriptSegment, Video,
};

fn video(id: &str, title: &str, description: Option<&str>) -> Video {
    Video {
        id: id.to_string(),
        url: format!("https://example.invalid/{id}"),
        title: title.to_string(),
        channel: None,
        upload_date: None,
        description: description.map(|d| d.to_string()),
        added_at: 1_000,
    }
}

fn transcript(video_id: &str, lines: &[&str]) -> Transcript {
    let segments: Vec<TranscriptSegment> = lines
        .iter()
        .enumerate()
        .map(|(i, text)| TranscriptSegment {
            start_time: (i as i64) * 5_000,
            duration: 5_000,
            text: text.to_string(),
        })
        .collect();
    let full_text = lines.join(" ");
    Transcript {
        video_id: video_id.to_string(),
        language: "en".to_string(),
        segments,
        full_text,
    }
}

fn indexed_db() -> Database {
    let mut db = Database::open_in_memory();
    db.insert_video(video("v-title", "all about rivers", None));
    db.insert_video(video("v-body", "city growth", Some("a history talk")));
    db.insert_transcript(transcript("v-body", &[
        "the rivers fed the fields",
        "markets rose at the crossing",
        "Rivers also carried the plague",
    ]));
    db.insert_video(video("v-none", "deserts", None));
    db
}

#[test]
fn title_matches_outrank_transcript_matches() {
    let db = indexed_db();
    let hits = db.search_with_timestamps("rivers");
    assert_eq!(hits.len(), 2);
    assert_eq!(hits[0].video.id, "v-title", "the weighted title match ranks first");
    assert_eq!(hits[1].video.id, "v-body");
}

#[test]
fn segment_matches_are_case_insensitive_and_timestamped() {
    let db = indexed_db();
    let hits = db.search_with_timestamps("rivers");
    let body_hit = &hits[1];
    assert_eq!(body_hit.matches.len(), 2);
    assert_eq!(body_hit.matches[0].start_time, 0);
    assert_eq!(body_hit.matches[0].text, "the rivers fed the fields");
    assert_eq!(body_hit.matches[1].start_time, 10_000);

    let title_hit = &hits[0];
    assert!(title_hit.matches.is_empty(), "a title-only hit carries no segments");
}

#[test]
fn unmatched_queries_return_nothing() {
    let db = indexed_db();
    assert!(db.search_with_timestamps("volcano").is_empty());
}

#[test]
fn empty_and_blank_queries_return_nothing() {
    let db = indexed_db();
    assert!(db.search_with_timestamps("").is_empty());
    assert!(db.search_with_timestamps("   ").is_empty());
}

#[test]
fn multi_word_queries_require_every_term() {
    let db = indexed_db();
    // "rivers" occurs in v-title's title and v-body's transcript; "plague"
    // only in v-body's transcript.  Both terms together match only v-body.
    let hits = db.search_with_timestamps("rivers plague");
    assert_eq!(hits.len(), 1);
    assert_eq!(hits[0].video.id, "v-body");

    // Extra spaces change nothing: the tokenizer drops empty words.
    let hits = db.search_with_timestamps("  rivers   plague ");
    assert_eq!(hits.len(), 1);
    assert_eq!(hits[0].video.id, "v-body");

    // The terms need not stand together in the text.
    let hits = db.search_with_timestamps("plague markets");
    assert_eq!(hits.len(), 1);
    assert_eq!(hits[0].video.id, "v-body");
}

#[test]
fn shorter_fields_rank_higher_on_equal_term_counts() {
    let mut db = Database::open_in_memory();
    db.insert_video(video("wordy", "rivers of the long winding valley lands", None));
    db.insert_video(video("terse", "rivers", None));
    let hits = db.search_with_timestamps("rivers");
    assert_eq!(hits.len(), 2);
    assert_eq!(
        hits[0].video.id, "terse",
        "length normalization favors the shorter matching title"
    );
    assert_eq!(hits[1].video.id, "wordy");
}

#[test]
fn reindexing_follows_video_edits() {
    let mut db = indexed_db();
    db.insert_video(video("v-none", "desert rivers", None));
    let hits = db.search_with_timestamps("rivers");
    assert_eq!(hits.len(), 3);
    assert_eq!(db.rebuild_search_index(), 3);
    let hits = db.search_with_timestamps("rivers");
    assert_eq!(hits.len(), 3);
}

#[test]
fn pure_keyword_fusion_matches_lexical_order() {
    let mut db = indexed_db();
    // Semantic rows exist but carry no weight in this configuration.
    db.save_embedding(EmbeddingSource::Video, "v-none", "default", &[1, 0], 10).unwrap();

    let query_vec: Vec<i64> = vec![1, 0];
    let lexical = db.search_with_timestamps("rivers");
    let fused = db.hybrid_search("rivers", Some(&query_vec), 1, 0, lexical.len());
    assert_eq!(fused.len(), lexical.len());
    for (f, l) in fused.iter().zip(lexical.iter()) {
        assert_eq!(f.video.id, l.video.id, "pure keyword weighting keeps the lexical order");
    }
}

#[test]
fn pure_semantic_fusion_orders_by_best_embedding_score() {
    let mut db = Database::open_in_memory();
    db.insert_video(video("far", "far video", None));
    db.insert_video(video("near", "near video", None));
    db.insert_video(video("chunky", "chunk video", None));
    db.save_embedding(EmbeddingSource::Video, "far", "default", &[0, 1], 10).unwrap();
    db.save_embedding(EmbeddingSource::Video, "near", "default", &[1, 0], 10).unwrap();
    // The chunk score is this video's best signal.
    db.save_embedding(EmbeddingSource::Video, "chunky", "default", &[0, 1], 10).unwrap();
    db.save_embedding(EmbeddingSource::Chunk, "chunky:0", "default", &[2, 1], 10).unwrap();

    let query_vec: Vec<i64> = vec![1, 0];
    let fused = db.hybrid_search("", Some(&query_vec), 0, 1, 10);
    assert_eq!(fused.len(), 3);
    assert_eq!(fused[0].video.id, "near");
    assert_eq!(fused[0].semantic_score, engine::SCORE_SCALE);
    assert_eq!(fused[1].video.id, "chunky", "the chunk lifted this video above its own score");
    assert_eq!(fused[2].video.id, "far");
    assert_eq!(fused[2].semantic_score, 0);
    for w in fused.windows(2) {
        assert!(w[0].semantic_score >= w[1].semantic_score);
        assert!(w[0].combined_score >= w[1].combined_score);
    }
}

#[test]
fn fusion_combines_both_signals_and_respects_limit() {
    let mut db = indexed_db();
    db.save_embedding(EmbeddingSource::Video, "v-none", "default", &[1, 0], 10).unwrap();
    let query_vec: Vec<i64> = vec![1, 0];
    let fused = db.hybrid_search("rivers", Some(&query_vec), 1, 1, 2);
    assert_eq!(fused.len(), 2, "cut to the limit");
    // Combined scores respect the weights.
    for f in &fused {
        assert_eq!(
            f.combined_score,
            f.keyword_score as i128 + f.semantic_score as i128
        );
    }
}

#[test]
fn fusion_attaches_chunk_and_claim_evidence() {
    let mut db = indexed_db();
    let chunk = TranscriptChunk {
        id: 0,
        video_id: "v-body".to_string(),
        chunk_index: 0,
        start_time: 0,
        end_time: 10_000,
        text: "the rivers fed the fields".to_string(),
        token_count: 6,
        overlap_with_previous: false,
    };
    db.save_transcript_chunks("v-body", &[chunk]).unwrap();
    db.save_embedding(EmbeddingSource::Chunk, "v-body:0", "default", &[1, 0], 10).unwrap();

    let claim = db.create_claim(
        "rivers fed the fields",
        "v-body",
        Some(0),
        "the rivers fed the fields",
        engine::ClaimCategory::Factual,
        engine::Confidence::High,
        1_000,
    );
    db.save_embedding(
        EmbeddingSource::Claim,
        &claim.id.to_string(),
        "default",
        &[9, 1],
        10,
    )
    .unwrap();

    let query_vec: Vec<i64> = vec![1, 0];
    let fused = db.hybrid_search("rivers", Some(&query_vec), 1, 1, 10);
    let body = fused.iter().find(|r| r.video.id == "v-body").unwrap();
    assert_eq!(body.matching_chunks.len(), 1);
    assert_eq!(body.matching_chunks[0].chunk.chunk_index, 0);
    assert_eq!(body.matching_chunks[0].score, engine::SCORE_SCALE);
    assert_eq!(body.matching_claims.len(), 1, "score above the 0.5 threshold");
    assert_eq!(body.matching_claims[0].id, claim.id);

    // An orthogonal query keeps the chunk (still embedded) but drops the
    // claim below the threshold.
    let sideways: Vec<i64> = vec![0, 1];
    let fused = db.hybrid_search("rivers", Some(&sideways), 1, 1, 10);
    let body = fused.iter().find(|r| r.video.id == "v-body").unwrap();
    assert_eq!(body.matching_chunks.len(), 1);
    assert_eq!(body.matching_chunks[0].score, 0);
    assert!(body.matching_claims.is_empty());
}

#[test]
fn fusion_without_query_vector_uses_keyword_signal_alone() {
    let mut db = indexed_db();
    db.save_embedding(EmbeddingSource::Video, "v-none", "default", &[1, 0], 10).unwrap();
    let fused = db.hybrid_search("rivers", None, 1, 1, 10);
    assert_eq!(fused.len(), 2, "without a vector, semantic-only videos stay out");
    for f in &fused {
        assert_eq!(f.semantic_score, 0);
        assert!(f.matching_chunks.is_empty());
        assert!(f.matching_claims.is_empty());
    }
}

#[test]
fn chunk_storage_round_trip() {
    let mut db = Database::open_in_memory();
    let mk = |i: i32, text: &str| TranscriptChunk {
        id: 0,
        video_id: "v".to_string(),
        chunk_index: i,
        start_time: (i as i64) * 10_000,
        end_time: (i as i64 + 1) * 10_000,
        text: text.to_string(),
        token_count: 3,
        overlap_with_previous: i > 0,
    };
    db.save_transcript_chunks("v", &[mk(0, "one"), mk(1, "two")]).unwrap();
    assert!(db.has_chunks("v"));
    assert!(!db.has_chunks("w"));
    let got = db.get_transcript_chunks("v");
    assert_eq!(got.len(), 2);
    assert_eq!(got[0].chunk_index, 0);
    assert_eq!(got[1].text, "two");

    // Saving again replaces the whole set.
    db.save_transcript_chunks("v", &[mk(5, "five")]).unwrap();
    let got = db.get_transcript_chunks("v");
    assert_eq!(got.len(), 1);
    assert_eq!(got[0].chunk_index, 5);

    // Out-of-order chunk indexes are rejected.
    assert!(db.save_transcript_chunks("v", &[mk(2, "a"), mk(1, "b")]).is_err());
}
