//! Named scoring policies and balance formulas.

use vstd::prelude::*;

verus! {

/// Trade/manufacture balance formulas.
#[derive(Debug, Clone, Copy, PartialEq, Eq, Structural)]
pub enum BalanceFormulaId {
    Placeholder,
    GongsunTradeManuV1,
}

/// Scoring policies of candidate orderings.
#[derive(Debug, Clone, Copy, PartialEq, Eq, Structural)]
pub enum ScoringPolicyId {
    /// Control-center fill order: the raw sum of trade and factory injection.
    ControlInjectRawSumV0,
}

impl Default for ScoringPolicyId {
    fn default() -> (res: Self)
        ensures
            res == ScoringPolicyId::ControlInjectRawSumV0,
    {
        ScoringPolicyId::ControlInjectRawSumV0
    }
}

} // verus!
