//! Closed string vocabularies persisted by the store: claim categories,
//! confidence levels, link types, embedding source kinds, and the analytical
//! framework enumerations.  Each variant renders to a fixed string and parses
//! back case-insensitively, with the exact synonym sets the store accepts.

use vstd::prelude::*;

use crate::text::{canon_of, canon_str, lower_of, lower_str, text_eq};

verus! {

#[derive(Debug, Clone, Copy, PartialEq, Eq, Structural)]
pub enum ClaimCategory {
    CyclicalPattern,
    CausalClaim,
    MemeticTransmission,
    GeopoliticalDynamic,
    Factual,
    Phenomenological,
    Metaphysical,
}

impl ClaimCategory {
    pub open spec fn spec_str(self) -> Seq<char> {
        match self {
            ClaimCategory::CyclicalPattern => "cyclical"@,
            ClaimCategory::CausalClaim => "causal"@,
            ClaimCategory::MemeticTransmission => "memetic"@,
            ClaimCategory::GeopoliticalDynamic => "geopolitical"@,
            ClaimCategory::Factual => "factual"@,
            ClaimCategory::Phenomenological => "phenomenological"@,
            ClaimCategory::Metaphysical => "metaphysical"@,
        }
    }

    pub fn as_str(&self) -> (r: &'static str)
        ensures
            r@ == self.spec_str(),
    {
        match *self {
            ClaimCategory::CyclicalPattern => "cyclical",
            ClaimCategory::CausalClaim => "causal",
            ClaimCategory::MemeticTransmission => "memetic",
            ClaimCategory::GeopoliticalDynamic => "geopolitical",
            ClaimCategory::Factual => "factual",
            ClaimCategory::Phenomenological => "phenomenological",
            ClaimCategory::Metaphysical => "metaphysical",
        }
    }

    pub open spec fn spec_parse(s: Seq<char>) -> Option<ClaimCategory> {
        let t = lower_of(s);
        if t == "cyclical"@ || t == "cyclical_pattern"@ {
            Some(ClaimCategory::CyclicalPattern)
        } else if t == "causal"@ || t == "causal_claim"@ {
            Some(ClaimCategory::CausalClaim)
        } else if t == "memetic"@ || t == "memetic_transmission"@ {
            Some(ClaimCategory::MemeticTransmission)
        } else if t == "geopolitical"@ || t == "geopolitical_dynamic"@ {
            Some(ClaimCategory::GeopoliticalDynamic)
        } else if t == "factual"@ {
            Some(ClaimCategory::Factual)
        } else if t == "phenomenological"@ {
            Some(ClaimCategory::Phenomenological)
        } else if t == "metaphysical"@ {
            Some(ClaimCategory::Metaphysical)
        } else {
            None
        }
    }

    pub fn from_str(s: &str) -> (r: Option<ClaimCategory>)
        ensures
            r == Self::spec_parse(s@),
    {
        let t = lower_str(s);
        if text_eq(&t, "cyclical") || text_eq(&t, "cyclical_pattern") {
            Some(ClaimCategory::CyclicalPattern)
        } else if text_eq(&t, "causal") || text_eq(&t, "causal_claim") {
            Some(ClaimCategory::CausalClaim)
        } else if text_eq(&t, "memetic") || text_eq(&t, "memetic_transmission") {
            Some(ClaimCategory::MemeticTransmission)
        } else if text_eq(&t, "geopolitical") || text_eq(&t, "geopolitical_dynamic") {
            Some(ClaimCategory::GeopoliticalDynamic)
        } else if text_eq(&t, "factual") {
            Some(ClaimCategory::Factual)
        } else if text_eq(&t, "phenomenological") {
            Some(ClaimCategory::Phenomenological)
        } else if text_eq(&t, "metaphysical") {
            Some(ClaimCategory::Metaphysical)
        } else {
            None
        }
    }
}

#[derive(Debug, Clone, Copy, PartialEq, Eq, Structural)]
pub enum Confidence {
    High,
    Medium,
    Low,
}

impl Confidence {
    pub open spec fn spec_str(self) -> Seq<char> {
        match self {
            Confidence::High => "high"@,
            Confidence::Medium => "medium"@,
            Confidence::Low => "low"@,
        }
    }

    pub fn as_str(&self) -> (r: &'static str)
        ensures
            r@ == self.spec_str(),
    {
        match *self {
            Confidence::High => "high",
            Confidence::Medium => "medium",
            Confidence::Low => "low",
        }
    }

    pub open spec fn spec_parse(s: Seq<char>) -> Option<Confidence> {
        let t = lower_of(s);
        if t == "high"@ {
            Some(Confidence::High)
        } else if t == "medium"@ || t == "med"@ {
            Some(Confidence::Medium)
        } else if t == "low"@ {
            Some(Confidence::Low)
        } else {
            None
        }
    }

    pub fn from_str(s: &str) -> (r: Option<Confidence>)
        ensures
            r == Self::spec_parse(s@),
    {
        let t = lower_str(s);
        if text_eq(&t, "high") {
            Some(Confidence::High)
        } else if text_eq(&t, "medium") || text_eq(&t, "med") {
            Some(Confidence::Medium)
        } else if text_eq(&t, "low") {
            Some(Confidence::Low)
        } else {
            None
        }
    }
}

#[derive(Debug, Clone, Copy, PartialEq, Eq, Structural)]
pub enum LinkType {
    Supports,
    Contradicts,
    Elaborates,
    CausedBy,
    Causes,
    Related,
}

impl LinkType {
    pub open spec fn spec_str(self) -> Seq<char> {
        match self {
            LinkType::Supports => "supports"@,
            LinkType::Contradicts => "contradicts"@,
            LinkType::Elaborates => "elaborates"@,
            LinkType::CausedBy => "caused_by"@,
            LinkType::Causes => "causes"@,
            LinkType::Related => "related"@,
        }
    }

    pub fn as_str(&self) -> (r: &'static str)
        ensures
            r@ == self.spec_str(),
    {
        match *self {
            LinkType::Supports => "supports",
            LinkType::Contradicts => "contradicts",
            LinkType::Elaborates => "elaborates",
            LinkType::CausedBy => "caused_by",
            LinkType::Causes => "causes",
            LinkType::Related => "related",
        }
    }

    pub open spec fn spec_parse(s: Seq<char>) -> Option<LinkType> {
        let t = lower_of(s);
        if t == "supports"@ {
            Some(LinkType::Supports)
        } else if t == "contradicts"@ {
            Some(LinkType::Contradicts)
        } else if t == "elaborates"@ {
            Some(LinkType::Elaborates)
        } else if t == "caused_by"@ || t == "causedby"@ {
            Some(LinkType::CausedBy)
        } else if t == "causes"@ {
            Some(LinkType::Causes)
        } else if t == "related"@ {
            Some(LinkType::Related)
        } else {
            None
        }
    }

    pub fn from_str(s: &str) -> (r: Option<LinkType>)
        ensures
            r == Self::spec_parse(s@),
    {
        let t = lower_str(s);
        if text_eq(&t, "supports") {
            Some(LinkType::Supports)
        } else if text_eq(&t, "contradicts") {
            Some(LinkType::Contradicts)
        } else if text_eq(&t, "elaborates") {
            Some(LinkType::Elaborates)
        } else if text_eq(&t, "caused_by") || text_eq(&t, "causedby") {
            Some(LinkType::CausedBy)
        } else if text_eq(&t, "causes") {
            Some(LinkType::Causes)
        } else if text_eq(&t, "related") {
            Some(LinkType::Related)
        } else {
            None
        }
    }
}

#[derive(Debug, Clone, Copy, PartialEq, Eq, Structural)]
pub enum EmbeddingSource {
    Chunk,
    Claim,
    Summary,
    Video,
}

impl EmbeddingSource {
    pub open spec fn spec_str(self) -> Seq<char> {
        match self {
            EmbeddingSource::Chunk => "chunk"@,
            EmbeddingSource::Claim => "claim"@,
            EmbeddingSource::Summary => "summary"@,
            EmbeddingSource::Video => "video"@,
        }
    }

    pub fn as_str(&self) -> (r: &'static str)
        ensures
            r@ == self.spec_str(),
    {
        match *self {
            EmbeddingSource::Chunk => "chunk",
            EmbeddingSource::Claim => "claim",
            EmbeddingSource::Summary => "summary",
            EmbeddingSource::Video => "video",
        }
    }

    pub open spec fn spec_parse(s: Seq<char>) -> Option<EmbeddingSource> {
        let t = lower_of(s);
        if t == "chunk"@ {
            Some(EmbeddingSource::Chunk)
        } else if t == "claim"@ {
            Some(EmbeddingSource::Claim)
        } else if t == "summary"@ {
            Some(EmbeddingSource::Summary)
        } else if t == "video"@ {
            Some(EmbeddingSource::Video)
        } else {
            None
        }
    }

    pub fn from_str(s: &str) -> (r: Option<EmbeddingSource>)
        ensures
            r == Self::spec_parse(s@),
    {
        let t = lower_str(s);
        if text_eq(&t, "chunk") {
            Some(EmbeddingSource::Chunk)
        } else if text_eq(&t, "claim") {
            Some(EmbeddingSource::Claim)
        } else if text_eq(&t, "summary") {
            Some(EmbeddingSource::Summary)
        } else if text_eq(&t, "video") {
            Some(EmbeddingSource::Video)
        } else {
            None
        }
    }
}

#[derive(Debug, Clone, Copy, PartialEq, Eq, Structural)]
pub enum CyclicalType {
    EliteOverproduction,
    FiscalStrain,
    SocialUnrest,
    PopulationPressure,
    Asabiyyah,
    CenterPeriphery,
}

impl CyclicalType {
    pub open spec fn spec_str(self) -> Seq<char> {
        match self {
            CyclicalType::EliteOverproduction => "elite_overproduction"@,
            CyclicalType::FiscalStrain => "fiscal_strain"@,
            CyclicalType::SocialUnrest => "social_unrest"@,
            CyclicalType::PopulationPressure => "population_pressure"@,
            CyclicalType::Asabiyyah => "asabiyyah"@,
            CyclicalType::CenterPeriphery => "center_periphery"@,
        }
    }

    pub fn as_str(&self) -> (r: &'static str)
        ensures
            r@ == self.spec_str(),
    {
        match *self {
            CyclicalType::EliteOverproduction => "elite_overproduction",
            CyclicalType::FiscalStrain => "fiscal_strain",
            CyclicalType::SocialUnrest => "social_unrest",
            CyclicalType::PopulationPressure => "population_pressure",
            CyclicalType::Asabiyyah => "asabiyyah",
            CyclicalType::CenterPeriphery => "center_periphery",
        }
    }

    pub open spec fn spec_parse(s: Seq<char>) -> Option<CyclicalType> {
        let t = canon_of(s);
        if t == "elite_overproduction"@ || t == "elite"@ {
            Some(CyclicalType::EliteOverproduction)
        } else if t == "fiscal_strain"@ || t == "fiscal"@ {
            Some(CyclicalType::FiscalStrain)
        } else if t == "social_unrest"@ || t == "unrest"@ {
            Some(CyclicalType::SocialUnrest)
        } else if t == "population_pressure"@ || t == "population"@ {
            Some(CyclicalType::PopulationPressure)
        } else if t == "asabiyyah"@ || t == "cohesion"@ {
            Some(CyclicalType::Asabiyyah)
        } else if t == "center_periphery"@ || t == "center"@ {
            Some(CyclicalType::CenterPeriphery)
        } else {
            None
        }
    }

    pub fn from_str(s: &str) -> (r: Option<CyclicalType>)
        ensures
            r == Self::spec_parse(s@),
    {
        let t = canon_str(s);
        if text_eq(&t, "elite_overproduction") || text_eq(&t, "elite") {
            Some(CyclicalType::EliteOverproduction)
        } else if text_eq(&t, "fiscal_strain") || text_eq(&t, "fiscal") {
            Some(CyclicalType::FiscalStrain)
        } else if text_eq(&t, "social_unrest") || text_eq(&t, "unrest") {
            Some(CyclicalType::SocialUnrest)
        } else if text_eq(&t, "population_pressure") || text_eq(&t, "population") {
            Some(CyclicalType::PopulationPressure)
        } else if text_eq(&t, "asabiyyah") || text_eq(&t, "cohesion") {
            Some(CyclicalType::Asabiyyah)
        } else if text_eq(&t, "center_periphery") || text_eq(&t, "center") {
            Some(CyclicalType::CenterPeriphery)
        } else {
            None
        }
    }

    /// Every indicator type, in declaration order.
    pub fn all() -> (r: Vec<CyclicalType>)
        ensures
            r@ == seq![
                CyclicalType::EliteOverproduction,
                CyclicalType::FiscalStrain,
                CyclicalType::SocialUnrest,
                CyclicalType::PopulationPressure,
                CyclicalType::Asabiyyah,
                CyclicalType::CenterPeriphery,
            ],
    {
        let r = vec![
            CyclicalType::EliteOverproduction,
            CyclicalType::FiscalStrain,
            CyclicalType::SocialUnrest,
            CyclicalType::PopulationPressure,
            CyclicalType::Asabiyyah,
            CyclicalType::CenterPeriphery,
        ];
        assert(r@ =~= seq![
            CyclicalType::EliteOverproduction,
            CyclicalType::FiscalStrain,
            CyclicalType::SocialUnrest,
            CyclicalType::PopulationPressure,
            CyclicalType::Asabiyyah,
            CyclicalType::CenterPeriphery,
        ]);
        r
    }
}

#[derive(Debug, Clone, Copy, PartialEq, Eq, Structural)]
pub enum LoopType {
    Positive,
    Negative,
    Linear,
}

impl LoopType {
    pub open spec fn spec_str(self) -> Seq<char> {
        match self {
            LoopType::Positive => "positive"@,
            LoopType::Negative => "negative"@,
            LoopType::Linear => "linear"@,
        }
    }

    pub fn as_str(&self) -> (r: &'static str)
        ensures
            r@ == self.spec_str(),
    {
        match *self {
            LoopType::Positive => "positive",
            LoopType::Negative => "negative",
            LoopType::Linear => "linear",
        }
    }

    pub open spec fn spec_parse(s: Seq<char>) -> Option<LoopType> {
        let t = lower_of(s);
        if t == "positive"@ || t == "amplifying"@ || t == "+"@ {
            Some(LoopType::Positive)
        } else if t == "negative"@ || t == "dampening"@ || t == "-"@ {
            Some(LoopType::Negative)
        } else if t == "linear"@ || t == "simple"@ {
            Some(LoopType::Linear)
        } else {
            None
        }
    }

    pub fn from_str(s: &str) -> (r: Option<LoopType>)
        ensures
            r == Self::spec_parse(s@),
    {
        let t = lower_str(s);
        if text_eq(&t, "positive") || text_eq(&t, "amplifying") || text_eq(&t, "+") {
            Some(LoopType::Positive)
        } else if text_eq(&t, "negative") || text_eq(&t, "dampening") || text_eq(&t, "-") {
            Some(LoopType::Negative)
        } else if text_eq(&t, "linear") || text_eq(&t, "simple") {
            Some(LoopType::Linear)
        } else {
            None
        }
    }
}

#[derive(Debug, Clone, Copy, PartialEq, Eq, Structural)]
pub enum RelationStrength {
    Strong,
    Moderate,
    Weak,
    Speculative,
}

impl RelationStrength {
    pub open spec fn spec_str(self) -> Seq<char> {
        match self {
            RelationStrength::Strong => "strong"@,
            RelationStrength::Moderate => "moderate"@,
            RelationStrength::Weak => "weak"@,
            RelationStrength::Speculative => "speculative"@,
        }
    }

    pub fn as_str(&self) -> (r: &'static str)
        ensures
            r@ == self.spec_str(),
    {
        match *self {
            RelationStrength::Strong => "strong",
            RelationStrength::Moderate => "moderate",
            RelationStrength::Weak => "weak",
            RelationStrength::Speculative => "speculative",
        }
    }

    pub open spec fn spec_parse(s: Seq<char>) -> Option<RelationStrength> {
        let t = lower_of(s);
        if t == "strong"@ {
            Some(RelationStrength::Strong)
        } else if t == "moderate"@ || t == "medium"@ {
            Some(RelationStrength::Moderate)
        } else if t == "weak"@ {
            Some(RelationStrength::Weak)
        } else if t == "speculative"@ || t == "uncertain"@ {
            Some(RelationStrength::Speculative)
        } else {
            None
        }
    }

    pub fn from_str(s: &str) -> (r: Option<RelationStrength>)
        ensures
            r == Self::spec_parse(s@),
    {
        let t = lower_str(s);
        if text_eq(&t, "strong") {
            Some(RelationStrength::Strong)
        } else if text_eq(&t, "moderate") || text_eq(&t, "medium") {
            Some(RelationStrength::Moderate)
        } else if text_eq(&t, "weak") {
            Some(RelationStrength::Weak)
        } else if text_eq(&t, "speculative") || text_eq(&t, "uncertain") {
            Some(RelationStrength::Speculative)
        } else {
            None
        }
    }
}

#[derive(Debug, Clone, Copy, PartialEq, Eq, Structural)]
pub enum TransmissionType {
    Horizontal,
    Vertical,
    Oblique,
}

impl TransmissionType {
    pub open spec fn spec_str(self) -> Seq<char> {
        match self {
            TransmissionType::Horizontal => "horizontal"@,
            TransmissionType::Vertical => "vertical"@,
            TransmissionType::Oblique => "oblique"@,
        }
    }

    pub fn as_str(&self) -> (r: &'static str)
        ensures
            r@ == self.spec_str(),
    {
        match *self {
            TransmissionType::Horizontal => "horizontal",
            TransmissionType::Vertical => "vertical",
            TransmissionType::Oblique => "oblique",
        }
    }

    pub open spec fn spec_parse(s: Seq<char>) -> Option<TransmissionType> {
        let t = lower_of(s);
        if t == "horizontal"@ || t == "peer"@ {
            Some(TransmissionType::Horizontal)
        } else if t == "vertical"@ || t == "parent"@ {
            Some(TransmissionType::Vertical)
        } else if t == "oblique"@ || t == "institutional"@ {
            Some(TransmissionType::Oblique)
        } else {
            None
        }
    }

    pub fn from_str(s: &str) -> (r: Option<TransmissionType>)
        ensures
            r == Self::spec_parse(s@),
    {
        let t = lower_str(s);
        if text_eq(&t, "horizontal") || text_eq(&t, "peer") {
            Some(TransmissionType::Horizontal)
        } else if text_eq(&t, "vertical") || text_eq(&t, "parent") {
            Some(TransmissionType::Vertical)
        } else if text_eq(&t, "oblique") || text_eq(&t, "institutional") {
            Some(TransmissionType::Oblique)
        } else {
            None
        }
    }
}

#[derive(Debug, Clone, Copy, PartialEq, Eq, Structural)]
pub enum SystemPosition {
    Core,
    SemiPeriphery,
    Periphery,
}

impl SystemPosition {
    pub open spec fn spec_str(self) -> Seq<char> {
        match self {
            SystemPosition::Core => "core"@,
            SystemPosition::SemiPeriphery => "semi_periphery"@,
            SystemPosition::Periphery => "periphery"@,
        }
    }

    pub fn as_str(&self) -> (r: &'static str)
        ensures
            r@ == self.spec_str(),
    {
        match *self {
            SystemPosition::Core => "core",
            SystemPosition::SemiPeriphery => "semi_periphery",
            SystemPosition::Periphery => "periphery",
        }
    }

    pub open spec fn spec_parse(s: Seq<char>) -> Option<SystemPosition> {
        let t = canon_of(s);
        if t == "core"@ {
            Some(SystemPosition::Core)
        } else if t == "semi_periphery"@ || t == "semiperiphery"@ || t == "semi"@ {
            Some(SystemPosition::SemiPeriphery)
        } else if t == "periphery"@ {
            Some(SystemPosition::Periphery)
        } else {
            None
        }
    }

    pub fn from_str(s: &str) -> (r: Option<SystemPosition>)
        ensures
            r == Self::spec_parse(s@),
    {
        let t = canon_str(s);
        if text_eq(&t, "core") {
            Some(SystemPosition::Core)
        } else if text_eq(&t, "semi_periphery") || text_eq(&t, "semiperiphery") || text_eq(
            &t,
            "semi",
        ) {
            Some(SystemPosition::SemiPeriphery)
        } else if text_eq(&t, "periphery") {
            Some(SystemPosition::Periphery)
        } else {
            None
        }
    }
}

#[derive(Debug, Clone, Copy, PartialEq, Eq, Structural)]
pub enum BraudelTimescale {
    Event,
    Conjuncture,
    LongueDuree,
}

impl BraudelTimescale {
    pub open spec fn spec_str(self) -> Seq<char> {
        match self {
            BraudelTimescale::Event => "event"@,
            BraudelTimescale::Conjuncture => "conjuncture"@,
            BraudelTimescale::LongueDuree => "longue_duree"@,
        }
    }

    pub fn as_str(&self) -> (r: &'static str)
        ensures
            r@ == self.spec_str(),
    {
        match *self {
            BraudelTimescale::Event => "event",
            BraudelTimescale::Conjuncture => "conjuncture",
            BraudelTimescale::LongueDuree => "longue_duree",
        }
    }

    pub open spec fn spec_parse(s: Seq<char>) -> Option<BraudelTimescale> {
        let t = canon_of(s);
        if t == "event"@ || t == "short"@ {
            Some(BraudelTimescale::Event)
        } else if t == "conjuncture"@ || t == "medium"@ || t == "cycle"@ {
            Some(BraudelTimescale::Conjuncture)
        } else if t == "longue_duree"@ || t == "longueduree"@ || t == "long"@ || t
            == "structural"@ {
            Some(BraudelTimescale::LongueDuree)
        } else {
            None
        }
    }

    pub fn from_str(s: &str) -> (r: Option<BraudelTimescale>)
        ensures
            r == Self::spec_parse(s@),
    {
        let t = canon_str(s);
        if text_eq(&t, "event") || text_eq(&t, "short") {
            Some(BraudelTimescale::Event)
        } else if text_eq(&t, "conjuncture") || text_eq(&t, "medium") || text_eq(&t, "cycle") {
            Some(BraudelTimescale::Conjuncture)
        } else if text_eq(&t, "longue_duree") || text_eq(&t, "longueduree") || text_eq(&t, "long")
            || text_eq(&t, "structural") {
            Some(BraudelTimescale::LongueDuree)
        } else {
            None
        }
    }
}

#[derive(Debug, Clone, Copy, PartialEq, Eq, Structural)]
pub enum QuestionStatus {
    Active,
    Answered,
    Refined,
    Parked,
}

impl QuestionStatus {
    pub open spec fn spec_str(self) -> Seq<char> {
        match self {
            QuestionStatus::Active => "active"@,
            QuestionStatus::Answered => "answered"@,
            QuestionStatus::Refined => "refined"@,
            QuestionStatus::Parked => "parked"@,
        }
    }

    pub fn as_str(&self) -> (r: &'static str)
        ensures
            r@ == self.spec_str(),
    {
        match *self {
            QuestionStatus::Active => "active",
            QuestionStatus::Answered => "answered",
            QuestionStatus::Refined => "refined",
            QuestionStatus::Parked => "parked",
        }
    }

    pub open spec fn spec_parse(s: Seq<char>) -> Option<QuestionStatus> {
        let t = lower_of(s);
        if t == "active"@ {
            Some(QuestionStatus::Active)
        } else if t == "answered"@ {
            Some(QuestionStatus::Answered)
        } else if t == "refined"@ {
            Some(QuestionStatus::Refined)
        } else if t == "parked"@ {
            Some(QuestionStatus::Parked)
        } else {
            None
        }
    }

    pub fn from_str(s: &str) -> (r: Option<QuestionStatus>)
        ensures
            r == Self::spec_parse(s@),
    {
        let t = lower_str(s);
        if text_eq(&t, "active") {
            Some(QuestionStatus::Active)
        } else if text_eq(&t, "answered") {
            Some(QuestionStatus::Answered)
        } else if text_eq(&t, "refined") {
            Some(QuestionStatus::Refined)
        } else if text_eq(&t, "parked") {
            Some(QuestionStatus::Parked)
        } else {
            None
        }
    }
}

#[derive(Debug, Clone, Copy, PartialEq, Eq, Structural)]
pub enum PatternType {
    RecurringTheme,
    Contradiction,
    Consensus,
    Evolution,
    Parallel,
}

impl PatternType {
    pub open spec fn spec_str(self) -> Seq<char> {
        match self {
            PatternType::RecurringTheme => "recurring_theme"@,
            PatternType::Contradiction => "contradiction"@,
            PatternType::Consensus => "consensus"@,
            PatternType::Evolution => "evolution"@,
            PatternType::Parallel => "parallel"@,
        }
    }

    pub fn as_str(&self) -> (r: &'static str)
        ensures
            r@ == self.spec_str(),
    {
        match *self {
            PatternType::RecurringTheme => "recurring_theme",
            PatternType::Contradiction => "contradiction",
            PatternType::Consensus => "consensus",
            PatternType::Evolution => "evolution",
            PatternType::Parallel => "parallel",
        }
    }

    pub open spec fn spec_parse(s: Seq<char>) -> Option<PatternType> {
        let t = lower_of(s);
        if t == "recurring_theme"@ || t == "theme"@ || t == "recurring"@ {
            Some(PatternType::RecurringTheme)
        } else if t == "contradiction"@ {
            Some(PatternType::Contradiction)
        } else if t == "consensus"@ {
            Some(PatternType::Consensus)
        } else if t == "evolution"@ {
            Some(PatternType::Evolution)
        } else if t == "parallel"@ {
            Some(PatternType::Parallel)
        } else {
            None
        }
    }

    pub fn from_str(s: &str) -> (r: Option<PatternType>)
        ensures
            r == Self::spec_parse(s@),
    {
        let t = lower_str(s);
        if text_eq(&t, "recurring_theme") || text_eq(&t, "theme") || text_eq(&t, "recurring") {
            Some(PatternType::RecurringTheme)
        } else if text_eq(&t, "contradiction") {
            Some(PatternType::Contradiction)
        } else if text_eq(&t, "consensus") {
            Some(PatternType::Consensus)
        } else if text_eq(&t, "evolution") {
            Some(PatternType::Evolution)
        } else if text_eq(&t, "parallel") {
            Some(PatternType::Parallel)
        } else {
            None
        }
    }
}

#[derive(Debug, Clone, Copy, PartialEq, Eq, Structural)]
pub enum LLMProvider {
    Anthropic,
    OpenAI,
    Local,
}

impl LLMProvider {
    pub open spec fn spec_str(self) -> Seq<char> {
        match self {
            LLMProvider::Anthropic => "anthropic"@,
            LLMProvider::OpenAI => "openai"@,
            LLMProvider::Local => "local"@,
        }
    }

    pub fn as_str(&self) -> (r: &'static str)
        ensures
            r@ == self.spec_str(),
    {
        match *self {
            LLMProvider::Anthropic => "anthropic",
            LLMProvider::OpenAI => "openai",
            LLMProvider::Local => "local",
        }
    }

    pub open spec fn spec_parse(s: Seq<char>) -> Option<LLMProvider> {
        let t = lower_of(s);
        if t == "anthropic"@ {
            Some(LLMProvider::Anthropic)
        } else if t == "openai"@ || t == "gpt"@ {
            Some(LLMProvider::OpenAI)
        } else if t == "local"@ || t == "ollama"@ {
            Some(LLMProvider::Local)
        } else {
            None
        }
    }

    pub fn from_str(s: &str) -> (r: Option<LLMProvider>)
        ensures
            r == Self::spec_parse(s@),
    {
        let t = lower_str(s);
        if text_eq(&t, "anthropic") {
            Some(LLMProvider::Anthropic)
        } else if text_eq(&t, "openai") || text_eq(&t, "gpt") {
            Some(LLMProvider::OpenAI)
        } else if text_eq(&t, "local") || text_eq(&t, "ollama") {
            Some(LLMProvider::Local)
        } else {
            None
        }
    }
}

#[derive(Debug, Clone, Copy, PartialEq, Eq, Structural)]
pub enum ProcessingStatus {
    Pending,
    InProgress,
    Completed,
    Failed,
    Skipped,
}

impl ProcessingStatus {
    pub open spec fn spec_str(self) -> Seq<char> {
        match self {
            ProcessingStatus::Pending => "pending"@,
            ProcessingStatus::InProgress => "in_progress"@,
            ProcessingStatus::Completed => "completed"@,
            ProcessingStatus::Failed => "failed"@,
            ProcessingStatus::Skipped => "skipped"@,
        }
    }

    pub fn as_str(&self) -> (r: &'static str)
        ensures
            r@ == self.spec_str(),
    {
        match *self {
            ProcessingStatus::Pending => "pending",
            ProcessingStatus::InProgress => "in_progress",
            ProcessingStatus::Completed => "completed",
            ProcessingStatus::Failed => "failed",
            ProcessingStatus::Skipped => "skipped",
        }
    }

    pub open spec fn spec_parse(s: Seq<char>) -> Option<ProcessingStatus> {
        let t = lower_of(s);
        if t == "pending"@ {
            Some(ProcessingStatus::Pending)
        } else if t == "in_progress"@ || t == "inprogress"@ || t == "processing"@ {
            Some(ProcessingStatus::InProgress)
        } else if t == "completed"@ || t == "done"@ {
            Some(ProcessingStatus::Completed)
        } else if t == "failed"@ || t == "error"@ {
            Some(ProcessingStatus::Failed)
        } else if t == "skipped"@ || t == "skip"@ {
            Some(ProcessingStatus::Skipped)
        } else {
            None
        }
    }

    pub fn from_str(s: &str) -> (r: Option<ProcessingStatus>)
        ensures
            r == Self::spec_parse(s@),
    {
        let t = lower_str(s);
        if text_eq(&t, "pending") {
            Some(ProcessingStatus::Pending)
        } else if text_eq(&t, "in_progress") || text_eq(&t, "inprogress") || text_eq(
            &t,
            "processing",
        ) {
            Some(ProcessingStatus::InProgress)
        } else if text_eq(&t, "completed") || text_eq(&t, "done") {
            Some(ProcessingStatus::Completed)
        } else if text_eq(&t, "failed") || text_eq(&t, "error") {
            Some(ProcessingStatus::Failed)
        } else if text_eq(&t, "skipped") || text_eq(&t, "skip") {
            Some(ProcessingStatus::Skipped)
        } else {
            None
        }
    }
}

} // verus!
