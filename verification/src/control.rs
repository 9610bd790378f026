//! Control-center operators as the control model consumes them.

use vstd::prelude::*;

verus! {

/// One operator assigned to the control center, with the control skills of
/// its tier and its group tags.
#[derive(Debug)]
pub struct ControlOperator {
    pub name: String,
    pub elite: u8,
    pub buff_ids: Vec<String>,
    pub tags: Vec<String>,
}

} // verus!
