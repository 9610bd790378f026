//! Lightweight run-time counters used to compare hot-path behaviour before and
//! after an optimisation.
//!
//! The counters are an explicit value: whoever wants process-wide counting
//! keeps one `HotPathCounters` and passes it to the recording functions.

use vstd::prelude::*;

verus! {

/// Running counts of the instrumented hot-path events.
#[derive(Debug, Default)]
pub struct HotPathCounters {
    pub shortcut_json_loads: u64,
    pub exclusive_checks: u64,
    pub trade_solves: u64,
}

/// A copy of the counts at one moment.
#[derive(Debug, Clone, Copy, PartialEq, Eq, Structural)]
pub struct HotPathSnapshot {
    pub shortcut_json_loads: u64,
    pub exclusive_checks: u64,
    pub trade_solves: u64,
}

/// An instrumented hot-path event.
#[derive(Debug, Clone, Copy, PartialEq, Eq, Structural)]
pub enum HotPathEvent {
    ShortcutJsonLoad,
    ExclusiveCheck,
    TradeSolve,
}

/// The counts (shortcut loads, exclusivity checks, trade solves) after
/// recording `events` in order from `c`, each count wrapping at `u64::MAX`.
pub open spec fn counts_after(c: (int, int, int), events: Seq<HotPathEvent>) -> (int, int, int)
    decreases events.len(),
{
    if events.len() == 0 {
        c
    } else {
        let p = counts_after(c, events.drop_last());
        match events.last() {
            HotPathEvent::ShortcutJsonLoad => ((p.0 + 1) % 0x1_0000_0000_0000_0000, p.1, p.2),
            HotPathEvent::ExclusiveCheck => (p.0, (p.1 + 1) % 0x1_0000_0000_0000_0000, p.2),
            HotPathEvent::TradeSolve => (p.0, p.1, (p.2 + 1) % 0x1_0000_0000_0000_0000),
        }
    }
}

/// The counts as a triple.
pub open spec fn counts_of(c: HotPathCounters) -> (int, int, int) {
    (c.shortcut_json_loads as int, c.exclusive_checks as int, c.trade_solves as int)
}

/// How often `e` occurs among `events`.
pub open spec fn occurrences(events: Seq<HotPathEvent>, e: HotPathEvent) -> int
    decreases events.len(),
{
    if events.len() == 0 {
        0
    } else {
        occurrences(events.drop_last(), e) + if events.last() == e {
            1int
        } else {
            0int
        }
    }
}

/// From zero, the counts after any sequence of events are the number of
/// times each event occurs, whatever the order (while each stays below
/// 2^64).
pub proof fn lemma_counts_any_order(events: Seq<HotPathEvent>)
    requires
        occurrences(events, HotPathEvent::ShortcutJsonLoad) < 0x1_0000_0000_0000_0000,
        occurrences(events, HotPathEvent::ExclusiveCheck) < 0x1_0000_0000_0000_0000,
        occurrences(events, HotPathEvent::TradeSolve) < 0x1_0000_0000_0000_0000,
    ensures
        counts_after((0, 0, 0), events) == (
            occurrences(events, HotPathEvent::ShortcutJsonLoad),
            occurrences(events, HotPathEvent::ExclusiveCheck),
            occurrences(events, HotPathEvent::TradeSolve),
        ),
    decreases events.len(),
{
    if events.len() > 0 {
        lemma_occurrences_nonneg(events.drop_last());
        lemma_counts_any_order(events.drop_last());
    }
}

proof fn lemma_occurrences_nonneg(events: Seq<HotPathEvent>)
    ensures
        occurrences(events, HotPathEvent::ShortcutJsonLoad) >= 0,
        occurrences(events, HotPathEvent::ExclusiveCheck) >= 0,
        occurrences(events, HotPathEvent::TradeSolve) >= 0,
    decreases events.len(),
{
    if events.len() > 0 {
        lemma_occurrences_nonneg(events.drop_last());
    }
}

impl HotPathCounters {
    /// Counters that start at zero.
    pub fn new() -> (res: Self)
        ensures
            res.shortcut_json_loads == 0,
            res.exclusive_checks == 0,
            res.trade_solves == 0,
    {
        HotPathCounters { shortcut_json_loads: 0, exclusive_checks: 0, trade_solves: 0 }
    }
}

/// Sets every counter back to zero.
pub fn reset_hot_path_counters(counters: &mut HotPathCounters)
    ensures
        final(counters).shortcut_json_loads == 0,
        final(counters).exclusive_checks == 0,
        final(counters).trade_solves == 0,
{
    counters.shortcut_json_loads = 0;
    counters.exclusive_checks = 0;
    counters.trade_solves = 0;
}

/// The current counts.
pub fn hot_path_snapshot(counters: &HotPathCounters) -> (res: HotPathSnapshot)
    ensures
        res.shortcut_json_loads == counters.shortcut_json_loads,
        res.exclusive_checks == counters.exclusive_checks,
        res.trade_solves == counters.trade_solves,
{
    HotPathSnapshot {
        shortcut_json_loads: counters.shortcut_json_loads,
        exclusive_checks: counters.exclusive_checks,
        trade_solves: counters.trade_solves,
    }
}

/// Counts one load of the shortcut table (wrapping at `u64::MAX`, as an
/// atomic add does).
pub fn record_shortcut_json_load(counters: &mut HotPathCounters)
    ensures
        counts_of(*final(counters)) == counts_after(counts_of(*old(counters)), seq![HotPathEvent::ShortcutJsonLoad]),
        final(counters).shortcut_json_loads == (old(counters).shortcut_json_loads + 1) % 0x1_0000_0000_0000_0000,
        final(counters).exclusive_checks == old(counters).exclusive_checks,
        final(counters).trade_solves == old(counters).trade_solves,
{
    let ghost before = *counters;
    counters.shortcut_json_loads = counters.shortcut_json_loads.wrapping_add(1);
    proof {
        let events = seq![HotPathEvent::ShortcutJsonLoad];
        assert(events.drop_last() =~= Seq::<HotPathEvent>::empty());
        assert(counts_after(counts_of(before), events.drop_last()) == counts_of(before));
        assert(events.last() == HotPathEvent::ShortcutJsonLoad);
    }
}

/// Counts one exclusivity check.
pub fn record_exclusive_check(counters: &mut HotPathCounters)
    ensures
        counts_of(*final(counters)) == counts_after(counts_of(*old(counters)), seq![HotPathEvent::ExclusiveCheck]),
        final(counters).exclusive_checks == (old(counters).exclusive_checks + 1) % 0x1_0000_0000_0000_0000,
        final(counters).shortcut_json_loads == old(counters).shortcut_json_loads,
        final(counters).trade_solves == old(counters).trade_solves,
{
    let ghost before = *counters;
    counters.exclusive_checks = counters.exclusive_checks.wrapping_add(1);
    proof {
        let events = seq![HotPathEvent::ExclusiveCheck];
        assert(events.drop_last() =~= Seq::<HotPathEvent>::empty());
        assert(counts_after(counts_of(before), events.drop_last()) == counts_of(before));
        assert(events.last() == HotPathEvent::ExclusiveCheck);
    }
}

/// Counts one trade solve.
pub fn record_trade_solve(counters: &mut HotPathCounters)
    ensures
        counts_of(*final(counters)) == counts_after(counts_of(*old(counters)), seq![HotPathEvent::TradeSolve]),
        final(counters).trade_solves == (old(counters).trade_solves + 1) % 0x1_0000_0000_0000_0000,
        final(counters).shortcut_json_loads == old(counters).shortcut_json_loads,
        final(counters).exclusive_checks == old(counters).exclusive_checks,
{
    let ghost before = *counters;
    counters.trade_solves = counters.trade_solves.wrapping_add(1);
    proof {
        let events = seq![HotPathEvent::TradeSolve];
        assert(events.drop_last() =~= Seq::<HotPathEvent>::empty());
        assert(counts_after(counts_of(before), events.drop_last()) == counts_of(before));
        assert(events.last() == HotPathEvent::TradeSolve);
    }
}

} // verus!
