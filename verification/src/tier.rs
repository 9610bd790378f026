//! Promotion tiers: which of an operator's two base-skill sets applies.

use vstd::prelude::*;

use crate::roster::OperatorProgress;

verus! {

/// The base-skill set an operator uses: the initial one or the one unlocked by
/// promotion.
#[derive(Debug, Clone, Copy, PartialEq, Eq, Structural)]
pub enum PromotionTier {
    Tier0,
    TierUp,
}

/// The promoted skill set is unlocked at elite 2 for 5- and 6-star operators
/// (and when the rarity is unknown, recorded as 0), and at elite 1 for
/// operators of 1 to 4 stars.
pub open spec fn spec_tier_of(elite: u8, rarity: u8) -> PromotionTier {
    if elite >= 2 || (1 <= rarity <= 4 && elite >= 1) {
        PromotionTier::TierUp
    } else {
        PromotionTier::Tier0
    }
}

impl PromotionTier {
    /// Tier from the account progress of an operator.
    pub fn from_progress(progress: OperatorProgress) -> (res: PromotionTier)
        ensures
            res == spec_tier_of(progress.elite, progress.rarity),
    {
        if progress.elite >= 2 || (1 <= progress.rarity && progress.rarity <= 4 && progress.elite >= 1) {
            PromotionTier::TierUp
        } else {
            PromotionTier::Tier0
        }
    }

    /// Tier when only the elite stage is known (rarity unknown).
    pub fn from_elite(elite: u8) -> (res: PromotionTier)
        ensures
            res == spec_tier_of(elite, 0),
    {
        if elite >= 2 {
            PromotionTier::TierUp
        } else {
            PromotionTier::Tier0
        }
    }
}

/// Three-layer classification of pool entries.
#[derive(Debug, Clone, Copy, PartialEq, Eq, Structural)]
pub enum OperatorTier {
    /// Evaluated on its own in one room.
    Standalone,
    /// Belongs to a combination that spans stations.
    CrossStation,
    /// Claimed by an activated system.
    System,
}

/// Precedence of a classification: a higher one overrides a lower one.
pub open spec fn spec_tier_priority(tier: OperatorTier) -> u8 {
    match tier {
        OperatorTier::Standalone => 0,
        OperatorTier::CrossStation => 1,
        OperatorTier::System => 2,
    }
}

impl OperatorTier {
    pub fn priority(&self) -> (res: u8)
        ensures
            res == spec_tier_priority(*self),
    {
        match self {
            OperatorTier::Standalone => 0,
            OperatorTier::CrossStation => 1,
            OperatorTier::System => 2,
        }
    }
}

} // verus!
