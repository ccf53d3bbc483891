//! The closed string vocabularies and the text helpers.

use engine::{
    BraudelTimescale, EmbeddingSource, ClaimCategory, Confidence, CyclicalType, LLMProvider, LinkType, LoopType,
    PatternType, ProcessingStatus, QuestionStatus, RelationStrength, SystemPosition,
    TransmissionType,
};

#[test]
fn claim_category_round_trip_and_synonyms() {
    for c in [
        ClaimCategory::CyclicalPattern,
        ClaimCategory::CausalClaim,
        ClaimCategory::MemeticTransmission,
        ClaimCategory::GeopoliticalDynamic,
        ClaimCategory::Factual,
        ClaimCategory::Phenomenological,
        ClaimCategory::Metaphysical,
    ] {
        assert_eq!(ClaimCategory::from_str(c.as_str()), Some(c));
    }
    assert_eq!(ClaimCategory::from_str("CYCLICAL_PATTERN"), Some(ClaimCategory::CyclicalPattern));
    assert_eq!(ClaimCategory::from_str("causal_claim"), Some(ClaimCategory::CausalClaim));
    assert_eq!(ClaimCategory::from_str("no-such-kind"), None);
}

#[test]
fn confidence_round_trip_and_synonyms() {
    assert_eq!(Confidence::from_str("High"), Some(Confidence::High));
    assert_eq!(Confidence::from_str("med"), Some(Confidence::Medium));
    assert_eq!(Confidence::from_str("medium"), Some(Confidence::Medium));
    assert_eq!(Confidence::from_str("low"), Some(Confidence::Low));
    assert_eq!(Confidence::from_str(""), None);
    assert_eq!(Confidence::Medium.as_str(), "medium");
}

#[test]
fn link_type_round_trip_and_synonyms() {
    for l in [
        LinkType::Supports,
        LinkType::Contradicts,
        LinkType::Elaborates,
        LinkType::CausedBy,
        LinkType::Causes,
        LinkType::Related,
    ] {
        assert_eq!(LinkType::from_str(l.as_str()), Some(l));
    }
    assert_eq!(LinkType::from_str("causedby"), Some(LinkType::CausedBy));
    assert_eq!(LinkType::from_str("causing"), None);
}

#[test]
fn embedding_source_round_trip() {
    for s in [
        EmbeddingSource::Chunk,
        EmbeddingSource::Claim,
        EmbeddingSource::Summary,
        EmbeddingSource::Video,
    ] {
        assert_eq!(EmbeddingSource::from_str(s.as_str()), Some(s));
    }
    assert_eq!(EmbeddingSource::from_str("CHUNK"), Some(EmbeddingSource::Chunk));
    assert_eq!(EmbeddingSource::from_str("segment"), None);
}

#[test]
fn dashed_vocabularies_fold_dashes() {
    assert_eq!(
        CyclicalType::from_str("elite-overproduction"),
        Some(CyclicalType::EliteOverproduction)
    );
    assert_eq!(CyclicalType::from_str("cohesion"), Some(CyclicalType::Asabiyyah));
    assert_eq!(SystemPosition::from_str("semi-periphery"), Some(SystemPosition::SemiPeriphery));
    assert_eq!(SystemPosition::from_str("semi"), Some(SystemPosition::SemiPeriphery));
    assert_eq!(BraudelTimescale::from_str("longue-duree"), Some(BraudelTimescale::LongueDuree));
    assert_eq!(BraudelTimescale::from_str("structural"), Some(BraudelTimescale::LongueDuree));
}

#[test]
fn cyclical_type_lists_every_variant() {
    let all = CyclicalType::all();
    assert_eq!(all.len(), 6);
    assert_eq!(all[0], CyclicalType::EliteOverproduction);
    assert_eq!(all[5], CyclicalType::CenterPeriphery);
}

#[test]
fn remaining_vocabularies_round_trip() {
    assert_eq!(LoopType::from_str("+"), Some(LoopType::Positive));
    assert_eq!(LoopType::from_str("dampening"), Some(LoopType::Negative));
    assert_eq!(RelationStrength::from_str("uncertain"), Some(RelationStrength::Speculative));
    assert_eq!(TransmissionType::from_str("institutional"), Some(TransmissionType::Oblique));
    assert_eq!(QuestionStatus::from_str("parked"), Some(QuestionStatus::Parked));
    assert_eq!(PatternType::from_str("theme"), Some(PatternType::RecurringTheme));
    assert_eq!(LLMProvider::from_str("ANTHROPIC"), Some(LLMProvider::Anthropic));
    assert_eq!(ProcessingStatus::from_str("done"), Some(ProcessingStatus::Completed));
    assert_eq!(ProcessingStatus::from_str("inprogress"), Some(ProcessingStatus::InProgress));
    assert_eq!(LoopType::Linear.as_str(), "linear");
    assert_eq!(ProcessingStatus::Skipped.as_str(), "skipped");
}

#[test]
fn truncate_shortens_long_text_with_ellipsis() {
    assert_eq!(engine::truncate("short", 10), "short");
    assert_eq!(engine::truncate("exactly-10", 10), "exactly-10");
    assert_eq!(engine::truncate("a longer sentence", 10), "a longe...");
    assert_eq!(engine::truncate("abc", 2), "...");
}
