//! The power-plant pool.

use vstd::prelude::*;

use crate::instances::OperatorInstances;
use crate::pool::base::{HasName, HasProgress, PoolCore, TierTagged};
use crate::pool::ranked::{build_roster_pool, is_ranked_pool, HintKind, RankedEntry, RankedParts};
use crate::power::PowerOperator;
use crate::roster::{OperatorProgress, Roster};
use crate::skill_table::SkillTable;
use crate::text::clone_strings;
use crate::tier::OperatorTier;

verus! {

/// One candidate for a power plant.
#[derive(Debug)]
pub struct PowerPoolEntry {
    pub name: String,
    pub elite: u8,
    pub progress: OperatorProgress,
    pub buff_ids: Vec<String>,
    pub tags: Vec<String>,
    /// Constant charge bonus in thousandths; ranks the pool, nothing more.
    pub flat_charge_hint_milli: i64,
    /// Some skill of the operator has no atoms: another layer models it.
    pub has_l2_delegate: bool,
    pub tier: OperatorTier,
}

impl Clone for PowerPoolEntry {
    fn clone(&self) -> (res: Self)
        ensures
            res.name@ == self.name@,
            res.parts() == self.parts(),
    {
        PowerPoolEntry {
            name: self.name.clone(),
            elite: self.elite,
            progress: self.progress,
            buff_ids: clone_strings(&self.buff_ids),
            tags: clone_strings(&self.tags),
            flat_charge_hint_milli: self.flat_charge_hint_milli,
            has_l2_delegate: self.has_l2_delegate,
            tier: self.tier,
        }
    }
}

impl HasName for PowerPoolEntry {
    open spec fn spec_pool_name(&self) -> Seq<char> {
        self.name@
    }

    fn pool_name(&self) -> (res: &str) {
        self.name.as_str()
    }
}

impl HasProgress for PowerPoolEntry {
    open spec fn spec_progress(&self) -> OperatorProgress {
        self.progress
    }

    fn progress(&self) -> (res: OperatorProgress) {
        self.progress
    }
}

impl TierTagged for PowerPoolEntry {
    open spec fn spec_tier(&self) -> OperatorTier {
        self.tier
    }

    fn tier(&self) -> (res: OperatorTier) {
        self.tier
    }

    open spec fn same_but_tier(&self, other: Self) -> bool {
        &&& self.name@ == other.name@
        &&& self.elite == other.elite
        &&& self.progress == other.progress
        &&& self.buff_ids@ == other.buff_ids@
        &&& self.tags@ == other.tags@
        &&& self.flat_charge_hint_milli == other.flat_charge_hint_milli
        &&& self.has_l2_delegate == other.has_l2_delegate
    }

    fn set_tier(&mut self, tier: OperatorTier) {
        self.tier = tier;
    }
}

impl RankedEntry for PowerPoolEntry {
    open spec fn parts(&self) -> RankedParts {
        (
            self.elite,
            self.progress,
            self.buff_ids@,
            self.tags@,
            self.flat_charge_hint_milli as int,
            self.has_l2_delegate,
            self.tier,
        )
    }

    fn make(
        name: String,
        progress: OperatorProgress,
        buff_ids: Vec<String>,
        tags: Vec<String>,
        hint: i64,
        delegated: bool,
    ) -> (res: Self) {
        PowerPoolEntry {
            name,
            elite: progress.elite,
            progress,
            buff_ids,
            tags,
            flat_charge_hint_milli: hint,
            has_l2_delegate: delegated,
            tier: OperatorTier::Standalone,
        }
    }

    fn hint(&self) -> (res: i64) {
        self.flat_charge_hint_milli
    }
}

impl PowerPoolEntry {
    /// The entry as an operator of the power model.
    pub fn to_power_operator(&self) -> (res: PowerOperator)
        ensures
            res.name@ == self.name@,
            res.elite == self.elite,
            res.buff_ids@ == self.buff_ids@,
            res.tags@ == self.tags@,
    {
        PowerOperator {
            name: self.name.clone(),
            elite: self.elite,
            buff_ids: clone_strings(&self.buff_ids),
            tags: clone_strings(&self.tags),
        }
    }
}

/// The power-plant pool.
pub type PowerPool = PoolCore<PowerPoolEntry>;

/// The power-plant pool of `roster`: every operator whose power skills are
/// all modeled, best constant charge bonus first (then by name), and the
/// others with the reason they stay out.
pub fn build_power_pool(roster: &Roster, instances: &OperatorInstances, table: &SkillTable) -> (res: PowerPool)
    ensures
        is_ranked_pool(res.entries@, res.skipped@, roster@, instances.instances@, table.skills@, HintKind::Power),
{
    build_roster_pool(roster, instances, table, HintKind::Power)
}

} // verus!
