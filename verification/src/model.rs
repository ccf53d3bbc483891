//! Record types held by the store.
//!
//! Wall-clock instants (`added_at`, `created_at`, `last_accessed`) are unix
//! timestamps in seconds, supplied by the caller.  Positions inside a video
//! (`timestamp`, `start_time`, `duration`, `end_time`) are milliseconds.
//! Embedding vectors and similarity scores are fixed-point integers scaled
//! by `SCORE_SCALE`.

use vstd::prelude::*;

use crate::kinds::{ClaimCategory, Confidence, EmbeddingSource, LinkType};

verus! {

#[derive(Debug, Clone)]
pub struct Video {
    pub id: String,
    pub url: String,
    pub title: String,
    pub channel: Option<String>,
    /// Upload day as days since the unix epoch.
    pub upload_date: Option<i64>,
    pub description: Option<String>,
    pub added_at: i64,
}

#[derive(Debug, Clone)]
pub struct TranscriptSegment {
    pub start_time: i64,
    pub duration: i64,
    pub text: String,
}

#[derive(Debug, Clone)]
pub struct Transcript {
    pub video_id: String,
    pub language: String,
    pub segments: Vec<TranscriptSegment>,
    pub full_text: String,
}

#[derive(Debug, Clone)]
pub struct SegmentMatch {
    pub start_time: i64,
    pub duration: i64,
    pub text: String,
}

/// One keyword search hit: the video and every transcript segment that
/// contains the query.
#[derive(Debug, Clone)]
pub struct SearchResult {
    pub video: Video,
    pub matches: Vec<SegmentMatch>,
}

#[derive(Debug, Clone)]
pub struct Claim {
    pub id: i64,
    pub text: String,
    pub video_id: String,
    pub timestamp: Option<i64>,
    pub source_quote: String,
    pub category: ClaimCategory,
    pub confidence: Confidence,
    pub created_at: i64,
}

#[derive(Debug, Clone, Copy, PartialEq, Eq, Structural)]
pub struct ClaimLink {
    pub id: i64,
    pub source_claim_id: i64,
    pub target_claim_id: i64,
    pub link_type: LinkType,
    pub created_at: i64,
}

#[derive(Debug, Clone)]
pub struct ClaimWithLinks {
    pub claim: Claim,
    pub outgoing_links: Vec<(ClaimLink, Claim)>,
    pub incoming_links: Vec<(ClaimLink, Claim)>,
}

#[derive(Debug, Clone)]
pub struct TranscriptChunk {
    pub id: i64,
    pub video_id: String,
    pub chunk_index: i32,
    pub start_time: i64,
    pub end_time: i64,
    pub text: String,
    pub token_count: i32,
    pub overlap_with_previous: bool,
}

#[derive(Debug, Clone)]
pub struct Embedding {
    pub id: i64,
    pub source_type: EmbeddingSource,
    /// Composite key by convention: the video id for `Video`,
    /// `"<video-id>:<chunk-index>"` for `Chunk` and `Summary`, and the
    /// stringified claim id for `Claim`.
    pub source_id: String,
    pub model: String,
    pub vector: Vec<i64>,
    pub created_at: i64,
}

#[derive(Debug, Clone)]
pub struct SimilarityResult {
    pub source_type: EmbeddingSource,
    pub source_id: String,
    pub score: i64,
    pub text: String,
    pub video_id: Option<String>,
}

#[derive(Debug, Clone)]
pub struct ChunkMatch {
    pub chunk: TranscriptChunk,
    pub score: i64,
}

#[derive(Debug, Clone)]
pub struct HybridSearchResult {
    pub video: Video,
    pub keyword_score: i64,
    pub semantic_score: i64,
    /// `keyword_score * keyword_weight + semantic_score * semantic_weight`;
    /// wide so that no weight choice can overflow.
    pub combined_score: i128,
    pub matching_chunks: Vec<ChunkMatch>,
    pub matching_claims: Vec<Claim>,
}

#[derive(Debug, Clone)]
pub struct EmbeddingStats {
    pub total_embeddings: i64,
    pub video_embeddings: i64,
    pub chunk_embeddings: i64,
    pub claim_embeddings: i64,
    pub summary_embeddings: i64,
    pub model: Option<String>,
    pub dimensions: Option<i32>,
}

#[derive(Debug, Clone, Copy, PartialEq, Eq, Structural)]
pub struct ClaimAccess {
    pub claim_id: i64,
    pub last_accessed: i64,
}

#[derive(Debug, Clone)]
pub struct ReviewQueue {
    pub stale_claims: Vec<Claim>,
    pub orphan_claims: Vec<Claim>,
    pub random_suggestions: Vec<Claim>,
}

/// How a store operation failed.
#[derive(Debug, Clone, Copy, PartialEq, Eq, Structural)]
pub enum StoreError {
    /// A referenced video or claim does not exist.
    NotFound,
    /// The input was rejected before any mutation: an empty or oversized
    /// vector payload, or a self-referential link request.
    InvalidInput,
}

} // verus!
