//! Power-plant inputs.

use vstd::prelude::*;

use crate::tier::{spec_tier_of, PromotionTier};

verus! {

/// One power-plant operator with its skills.
#[derive(Debug)]
pub struct PowerOperator {
    pub name: String,
    pub elite: u8,
    pub buff_ids: Vec<String>,
    pub tags: Vec<String>,
}

impl PowerOperator {
    /// The promotion tier the elite stage gives.
    pub fn tier(&self) -> (res: PromotionTier)
        ensures
            res == spec_tier_of(self.elite, 0),
    {
        PromotionTier::from_elite(self.elite)
    }

    /// An operator without group tags.
    pub fn new(name: &str, elite: u8, buff_ids: Vec<String>) -> (res: Self)
        ensures
            res.name@ == name@,
            res.elite == elite,
            res.buff_ids == buff_ids,
            res.tags@.len() == 0,
    {
        PowerOperator { name: String::from_str(name), elite, buff_ids, tags: Vec::new() }
    }
}

} // verus!
