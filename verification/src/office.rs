//! Office inputs: the operators of an office with their office skills.

use vstd::prelude::*;

use crate::instances::{instance_buffs, OperatorInstances};
use crate::layout::AssignedOperator;
use crate::tier::{spec_tier_of, PromotionTier};

verus! {

/// One office operator with its office skills.
#[derive(Debug)]
pub struct OfficeOperator {
    pub name: String,
    pub elite: u8,
    pub buff_ids: Vec<String>,
}

/// Why an assigned operator is no office operator.
#[derive(Debug, PartialEq, Eq)]
pub enum OfficeError {
    /// No office skill at the operator's tier.
    NoOfficeBuff { name: String, elite: u8 },
}

/// The office operator of an assigned operator: its office skills at the
/// tier its elite stage gives; an error when it has none.
pub fn to_office_operator(instances: &OperatorInstances, op: &AssignedOperator) -> (res: Result<OfficeOperator, OfficeError>)
    ensures
        ({
            let buffs = instance_buffs(instances.instances@, op.name@, spec_tier_of(op.elite, 0), "office"@);
            match res {
                Ok(o) => buffs.len() > 0 && o.name@ == op.name@ && o.elite == op.elite && o.buff_ids@ == buffs,
                Err(OfficeError::NoOfficeBuff { name, elite }) => buffs.len() == 0 && name@ == op.name@ && elite
                    == op.elite,
            }
        }),
{
    let tier = PromotionTier::from_elite(op.elite);
    let buff_ids = instances.resolve_buff_ids(op.name.as_str(), tier, "office");
    if buff_ids.len() == 0 {
        return Err(OfficeError::NoOfficeBuff { name: op.name.clone(), elite: op.elite });
    }
    Ok(OfficeOperator { name: op.name.clone(), elite: op.elite, buff_ids })
}

} // verus!
