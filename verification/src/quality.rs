//! Connection quality tiers derived from a mean latency.

use vstd::prelude::*;
use vstd::string::StringExecFns;

verus! {

/// Mean latency, in microseconds, from which a connection is no longer
/// excellent.
pub const GOOD_FROM_MICROS: u32 = 30_000;

/// Mean latency, in microseconds, from which a connection is no longer good.
pub const FAIR_FROM_MICROS: u32 = 60_000;

/// Mean latency, in microseconds, from which a connection is poor.
pub const POOR_FROM_MICROS: u32 = 100_000;

/// Quality of a connection, best first.
#[derive(Clone, Copy, Debug, PartialEq, Eq, Structural)]
pub enum QualityTier {
    Excellent,
    Good,
    Fair,
    Poor,
}

/// The tier of a mean latency: each boundary belongs to the worse tier.
pub open spec fn tier_of(mean_micros: int) -> QualityTier {
    if mean_micros < 30_000 {
        QualityTier::Excellent
    } else if mean_micros < 60_000 {
        QualityTier::Good
    } else if mean_micros < 100_000 {
        QualityTier::Fair
    } else {
        QualityTier::Poor
    }
}

/// Position of a tier in the order from best to worst.
pub open spec fn tier_rank(tier: QualityTier) -> int {
    match tier {
        QualityTier::Excellent => 0,
        QualityTier::Good => 1,
        QualityTier::Fair => 2,
        QualityTier::Poor => 3,
    }
}

/// The name of a tier.
pub open spec fn label_of(tier: QualityTier) -> Seq<char> {
    match tier {
        QualityTier::Excellent => "Excellent"@,
        QualityTier::Good => "Good"@,
        QualityTier::Fair => "Fair"@,
        QualityTier::Poor => "Poor"@,
    }
}

/// What a tier means for the user.
pub open spec fn description_of(tier: QualityTier) -> Seq<char> {
    match tier {
        QualityTier::Excellent => "suitable for video calls & real-time apps"@,
        QualityTier::Good => "suitable for most applications"@,
        QualityTier::Fair => "acceptable, may affect real-time apps"@,
        QualityTier::Poor => "high latency, expect delays"@,
    }
}

/// The tier of a mean latency given in microseconds.
pub fn classify(mean_micros: u32) -> (tier: QualityTier)
    ensures
        tier == tier_of(mean_micros as int),
{
    if mean_micros < GOOD_FROM_MICROS {
        QualityTier::Excellent
    } else if mean_micros < FAIR_FROM_MICROS {
        QualityTier::Good
    } else if mean_micros < POOR_FROM_MICROS {
        QualityTier::Fair
    } else {
        QualityTier::Poor
    }
}

impl QualityTier {
    /// The name of the tier.
    pub fn label(&self) -> (r: &'static str)
        ensures
            r@ == label_of(*self),
    {
        match self {
            QualityTier::Excellent => "Excellent",
            QualityTier::Good => "Good",
            QualityTier::Fair => "Fair",
            QualityTier::Poor => "Poor",
        }
    }

    /// What the tier means for the user.
    pub fn description(&self) -> (r: &'static str)
        ensures
            r@ == description_of(*self),
    {
        match self {
            QualityTier::Excellent => "suitable for video calls & real-time apps",
            QualityTier::Good => "suitable for most applications",
            QualityTier::Fair => "acceptable, may affect real-time apps",
            QualityTier::Poor => "high latency, expect delays",
        }
    }

    /// Whether the tier is one of the two best.
    pub fn is_healthy(&self) -> (r: bool)
        ensures
            r == (tier_rank(*self) <= 1),
    {
        match self {
            QualityTier::Excellent => true,
            QualityTier::Good => true,
            QualityTier::Fair => false,
            QualityTier::Poor => false,
        }
    }
}

/// Name and description of the tier that a mean latency, given in
/// microseconds, falls into.
pub fn quality_assessment(latency_micros: u32) -> (r: (&'static str, String))
    ensures
        r.0@ == label_of(tier_of(latency_micros as int)),
        r.1@ == description_of(tier_of(latency_micros as int)),
{
    let tier = classify(latency_micros);
    (tier.label(), String::from_str(tier.description()))
}

/// A higher mean latency never gets a better tier.
pub proof fn lemma_tier_monotonic(a: int, b: int)
    requires
        a <= b,
    ensures
        tier_rank(tier_of(a)) <= tier_rank(tier_of(b)),
{
}

} // verus!
