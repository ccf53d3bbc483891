//! Retrieval and claim-graph engine for a personal research knowledge base.
//!
//! The engine keeps dense embedding vectors, a lexical index over video
//! titles, descriptions and transcripts, and a directed graph of typed links
//! between atomic claims.  Queries rank videos by cosine similarity, by
//! weighted keyword relevance, or by a fusion of both signals, and the claim
//! graph answers connectivity and recency triage questions.
//!
//! Scores are fixed-point integers: a similarity of 1.0 is represented as
//! `SCORE_SCALE`.  Vector components are integers too, bounded by
//! `MAX_COMPONENT`; callers scale their real-valued embedding components
//! into that range before storing them.

mod fusion;
mod graph;
mod kinds;
mod lexical;
mod model;
mod rank;
mod search;
mod store;
mod text;
mod vector;

pub use kinds::BraudelTimescale;
pub use kinds::ClaimCategory;
pub use kinds::Confidence;
pub use kinds::CyclicalType;
pub use kinds::EmbeddingSource;
pub use kinds::LLMProvider;
pub use kinds::LinkType;
pub use kinds::LoopType;
pub use kinds::PatternType;
pub use kinds::ProcessingStatus;
pub use kinds::QuestionStatus;
pub use kinds::RelationStrength;
pub use kinds::SystemPosition;
pub use kinds::TransmissionType;
pub use model::Claim;
pub use model::ClaimAccess;
pub use model::ClaimLink;
pub use model::ClaimWithLinks;
pub use model::ChunkMatch;
pub use model::Embedding;
pub use model::EmbeddingStats;
pub use model::HybridSearchResult;
pub use model::ReviewQueue;
pub use model::SearchResult;
pub use model::SegmentMatch;
pub use model::SimilarityResult;
pub use model::StoreError;
pub use model::Transcript;
pub use model::TranscriptChunk;
pub use model::TranscriptSegment;
pub use model::Video;
pub use store::Database;
pub use store::IndexEntry;
pub use fusion::lemma_hybrid_pure_keyword;
pub use fusion::lemma_hybrid_pure_semantic;
pub use graph::lemma_access_refreshes;
pub use graph::lemma_never_accessed_always_stale;
pub use text::truncate;
pub use vector::lemma_cauchy_schwarz;
pub use vector::lemma_cosine_degenerate;
pub use vector::lemma_cosine_self;
pub use vector::lemma_cosine_symmetric;
pub use vector::cosine_similarity;
pub use vector::MAX_COMPONENT;
pub use vector::MAX_DIM;
pub use vector::SCORE_SCALE;
