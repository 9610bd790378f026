//! Trade-post rotation roles.

use vstd::prelude::*;

verus! {

/// Trade posts staffed per shift.
pub const TRADE_STATIONS_PER_SHIFT: usize = 3;

/// Operators per trade post.
pub const WORKERS_PER_STATION: usize = 3;

/// Trade operators per shift.
pub const WORKERS_PER_SHIFT: usize = TRADE_STATIONS_PER_SHIFT * WORKERS_PER_STATION;

/// The role a trade post plays in a shift.
#[derive(Debug, Clone, Copy, PartialEq, Eq, Structural)]
pub enum TradeStationRole {
    /// The witch with her partner.
    Witch,
    /// The witch without her partner.
    WitchFallback,
    /// Special orders.
    Closure,
    /// The lone order specialist.
    Docus,
    /// The Glasgow trio.
    Vina,
    /// The stall keeper leading a spare shift.
    JieE0Lead,
    Plain,
}

} // verus!
