//! Per-shift efficiency records: the sums of the production rooms'
//! efficiencies, by kind, and their weighting by the length of a shift.

use vstd::prelude::*;

use crate::layout::{Efficiency, FacilityKind};

verus! {

/// Direct efficiencies of one room.
#[derive(Debug, Clone, Default)]
pub struct RoomEfficiencyLine {
    pub room_id: String,
    pub trade_efficiency: Efficiency,
    pub trade_skill_efficiency: Efficiency,
    pub manufacture_efficiency: Efficiency,
    pub manufacture_skill_efficiency: Efficiency,
    pub power_efficiency: Efficiency,
    pub power_skill_efficiency: Efficiency,
}

/// Whether an efficiency is zero (zero lines are left out of reports).
pub fn is_zero_efficiency(v: &Efficiency) -> (res: bool)
    ensures
        res == (v.milli == 0),
{
    v.is_zero()
}

/// Trade, manufacture and power efficiency of one shift, with its room lines.
#[derive(Debug, Clone, Default)]
pub struct ShiftEfficiencies {
    pub trade_efficiency: Efficiency,
    pub manufacture_efficiency: Efficiency,
    pub power_efficiency: Efficiency,
    pub room_lines: Vec<RoomEfficiencyLine>,
}

/// Final and skill efficiency of one room.
#[derive(Debug, Clone, Copy, PartialEq, Eq, Structural)]
pub struct RoomScore {
    pub final_efficiency: Efficiency,
    pub skill_efficiency: Efficiency,
}

/// What is known of one production room when a shift is evaluated: the
/// efficiency snapshot stored with its assignment (when it is of the room's
/// kind), whether anyone works there, and what the room's solver gives for
/// the shift.
#[derive(Debug)]
pub struct RoomEvaluation {
    pub room_id: String,
    pub kind: FacilityKind,
    pub occupied: bool,
    pub snapshot: Option<RoomScore>,
    pub solved: RoomScore,
}

/// Largest efficiency, in thousandths, that a room's score may hold.
pub const ROOM_SCORE_BOUND: i64 = 1_000_000_000_000;

/// Most rooms an evaluation takes.
pub const ROOM_COUNT_BOUND: usize = 1_000_000;

/// The scores of a room lie within the bound.
pub open spec fn score_bounded(s: RoomScore) -> bool {
    &&& -ROOM_SCORE_BOUND <= s.final_efficiency.milli <= ROOM_SCORE_BOUND
    &&& -ROOM_SCORE_BOUND <= s.skill_efficiency.milli <= ROOM_SCORE_BOUND
}

/// A room's scores lie within the bound.
pub open spec fn evaluation_bounded(r: RoomEvaluation) -> bool {
    &&& score_bounded(r.solved)
    &&& (r.snapshot matches Some(s) ==> score_bounded(s))
}

/// Zero efficiency.
pub open spec fn zero_eff() -> Efficiency {
    Efficiency { milli: 0 }
}

/// The score a room counts with: for a power plant the snapshot's final
/// efficiency (the solver's when there is none) and always the solver's
/// skill efficiency; for another room the snapshot, else the solver's result
/// when someone works there, else zero.
pub open spec fn counted_score(r: RoomEvaluation) -> RoomScore {
    if r.kind == FacilityKind::PowerPlant {
        match r.snapshot {
            Some(s) => RoomScore { final_efficiency: s.final_efficiency, skill_efficiency: r.solved.skill_efficiency },
            None => r.solved,
        }
    } else {
        match r.snapshot {
            Some(s) => s,
            None => if r.occupied {
                r.solved
            } else {
                RoomScore { final_efficiency: zero_eff(), skill_efficiency: zero_eff() }
            },
        }
    }
}

/// The efficiency line of a room: its counted score in the columns of its
/// kind, zero elsewhere.
pub open spec fn room_line(r: RoomEvaluation) -> RoomEfficiencyLine {
    let c = counted_score(r);
    RoomEfficiencyLine {
        room_id: r.room_id,
        trade_efficiency: if r.kind == FacilityKind::TradePost { c.final_efficiency } else { zero_eff() },
        trade_skill_efficiency: if r.kind == FacilityKind::TradePost { c.skill_efficiency } else { zero_eff() },
        manufacture_efficiency: if r.kind == FacilityKind::Factory { c.final_efficiency } else { zero_eff() },
        manufacture_skill_efficiency: if r.kind == FacilityKind::Factory { c.skill_efficiency } else { zero_eff() },
        power_efficiency: if r.kind == FacilityKind::PowerPlant { c.final_efficiency } else { zero_eff() },
        power_skill_efficiency: if r.kind == FacilityKind::PowerPlant { c.skill_efficiency } else { zero_eff() },
    }
}

/// Sum of the counted final efficiencies of the rooms of `kind`.
pub open spec fn kind_total(rooms: Seq<RoomEvaluation>, kind: FacilityKind) -> int
    decreases rooms.len(),
{
    if rooms.len() == 0 {
        0
    } else {
        kind_total(rooms.drop_last(), kind) + if rooms.last().kind == kind {
            counted_score(rooms.last()).final_efficiency.milli as int
        } else {
            0
        }
    }
}

/// The lines of the rooms of `kind`, in room order.
pub open spec fn kind_lines(rooms: Seq<RoomEvaluation>, kind: FacilityKind) -> Seq<RoomEfficiencyLine>
    decreases rooms.len(),
{
    if rooms.len() == 0 {
        Seq::empty()
    } else if rooms.last().kind == kind {
        kind_lines(rooms.drop_last(), kind).push(room_line(rooms.last()))
    } else {
        kind_lines(rooms.drop_last(), kind)
    }
}

/// How a room counts: a trade post or factory with a stored snapshot counts
/// the snapshot's final and skill efficiency; without one it counts the
/// solver's result when someone works there and zero when nobody does; a
/// power plant counts the snapshot's final efficiency when there is one (the
/// solver's otherwise) and always the solver's skill efficiency.
pub proof fn lemma_counted_score(r: RoomEvaluation)
    ensures
        r.kind != FacilityKind::PowerPlant && r.snapshot is Some ==> counted_score(r) == r.snapshot.unwrap(),
        r.kind != FacilityKind::PowerPlant && r.snapshot is None && r.occupied ==> counted_score(r) == r.solved,
        r.kind != FacilityKind::PowerPlant && r.snapshot is None && !r.occupied ==> counted_score(r).final_efficiency.milli
            == 0 && counted_score(r).skill_efficiency.milli == 0,
        r.kind == FacilityKind::PowerPlant ==> counted_score(r).skill_efficiency == r.solved.skill_efficiency,
        r.kind == FacilityKind::PowerPlant && r.snapshot is Some ==> counted_score(r).final_efficiency
            == r.snapshot.unwrap().final_efficiency,
        r.kind == FacilityKind::PowerPlant && r.snapshot is None ==> counted_score(r).final_efficiency
            == r.solved.final_efficiency,
{
}

/// A room's line shows its counted final and skill efficiency in the two
/// columns of its kind and zero in the others, under its own id.
pub proof fn lemma_room_line(r: RoomEvaluation)
    ensures
        room_line(r).room_id == r.room_id,
        r.kind == FacilityKind::TradePost ==> room_line(r).trade_efficiency == counted_score(r).final_efficiency
            && room_line(r).trade_skill_efficiency == counted_score(r).skill_efficiency
            && room_line(r).manufacture_efficiency.milli == 0 && room_line(r).power_efficiency.milli == 0,
        r.kind == FacilityKind::Factory ==> room_line(r).manufacture_efficiency == counted_score(r).final_efficiency
            && room_line(r).manufacture_skill_efficiency == counted_score(r).skill_efficiency
            && room_line(r).trade_efficiency.milli == 0 && room_line(r).power_efficiency.milli == 0,
        r.kind == FacilityKind::PowerPlant ==> room_line(r).power_efficiency == counted_score(r).final_efficiency
            && room_line(r).power_skill_efficiency == counted_score(r).skill_efficiency
            && room_line(r).trade_efficiency.milli == 0 && room_line(r).manufacture_efficiency.milli == 0,
{
}

/// A kind's total over two runs of rooms is the sum of their totals, and
/// over one room it is that room's counted final efficiency when the room is
/// of the kind, zero otherwise; the same holds of the lines, appended.
pub proof fn lemma_kind_total_split(a: Seq<RoomEvaluation>, b: Seq<RoomEvaluation>, kind: FacilityKind)
    ensures
        kind_total(a + b, kind) == kind_total(a, kind) + kind_total(b, kind),
        kind_lines(a + b, kind) == kind_lines(a, kind) + kind_lines(b, kind),
        b.len() == 1 ==> kind_total(b, kind) == (if b[0].kind == kind {
            counted_score(b[0]).final_efficiency.milli as int
        } else {
            0
        }),
        b.len() == 1 ==> kind_lines(b, kind) == (if b[0].kind == kind {
            seq![room_line(b[0])]
        } else {
            Seq::empty()
        }),
    decreases b.len(),
{
    if b.len() == 1 {
        assert(b.drop_last() == Seq::<RoomEvaluation>::empty());
        assert(b.last() == b[0]);
        assert(kind_lines(b.drop_last(), kind) == Seq::<RoomEfficiencyLine>::empty());
        assert(kind_lines(b, kind) =~= (if b[0].kind == kind {
            seq![room_line(b[0])]
        } else {
            Seq::empty()
        }));
    }
    if b.len() == 0 {
        assert(a + b == a);
        assert(kind_lines(a, kind) + kind_lines(b, kind) =~= kind_lines(a, kind));
    } else {
        lemma_kind_total_split(a, b.drop_last(), kind);
        assert((a + b).drop_last() == a + b.drop_last());
        assert((a + b).last() == b.last());
        assert(kind_lines(a + b, kind) =~= kind_lines(a, kind) + kind_lines(b, kind));
    }
}

/// The counted score of a room, computed.
fn counted_score_of(r: &RoomEvaluation) -> (res: RoomScore)
    ensures
        res == counted_score(*r),
{
    if r.kind == FacilityKind::PowerPlant {
        match r.snapshot {
            Some(s) => RoomScore { final_efficiency: s.final_efficiency, skill_efficiency: r.solved.skill_efficiency },
            None => r.solved,
        }
    } else {
        match r.snapshot {
            Some(s) => s,
            None => if r.occupied {
                r.solved
            } else {
                RoomScore { final_efficiency: Efficiency { milli: 0 }, skill_efficiency: Efficiency { milli: 0 } }
            },
        }
    }
}

/// The line of a room, computed.
fn room_line_of(r: &RoomEvaluation) -> (res: RoomEfficiencyLine)
    ensures
        res == room_line(*r),
{
    let c = counted_score_of(r);
    let z = Efficiency { milli: 0 };
    let trade = r.kind == FacilityKind::TradePost;
    let manu = r.kind == FacilityKind::Factory;
    let power = r.kind == FacilityKind::PowerPlant;
    RoomEfficiencyLine {
        room_id: r.room_id.clone(),
        trade_efficiency: if trade { c.final_efficiency } else { z },
        trade_skill_efficiency: if trade { c.skill_efficiency } else { z },
        manufacture_efficiency: if manu { c.final_efficiency } else { z },
        manufacture_skill_efficiency: if manu { c.skill_efficiency } else { z },
        power_efficiency: if power { c.final_efficiency } else { z },
        power_skill_efficiency: if power { c.skill_efficiency } else { z },
    }
}

/// Adds the lines of the rooms of `kind` to `lines` and returns the sum of
/// their final efficiencies.
fn add_kind(rooms: &Vec<RoomEvaluation>, kind: FacilityKind, lines: &mut Vec<RoomEfficiencyLine>) -> (res: i64)
    requires
        rooms@.len() <= ROOM_COUNT_BOUND,
        forall|k: int| 0 <= k < rooms@.len() ==> evaluation_bounded(#[trigger] rooms@[k]),
    ensures
        res == kind_total(rooms@, kind),
        final(lines)@ == old(lines)@ + kind_lines(rooms@, kind),
{
    let mut total: i64 = 0;
    let mut i: usize = 0;
    let ghost start = lines@;
    while i < rooms.len()
        invariant
            0 <= i <= rooms@.len(),
            rooms@.len() <= ROOM_COUNT_BOUND,
            forall|k: int| 0 <= k < rooms@.len() ==> evaluation_bounded(#[trigger] rooms@[k]),
            total == kind_total(rooms@.take(i as int), kind),
            -(i as int) * ROOM_SCORE_BOUND <= total <= (i as int) * ROOM_SCORE_BOUND,
            lines@ == start + kind_lines(rooms@.take(i as int), kind),
        decreases rooms@.len() - i,
    {
        let r = &rooms[i];
        assert(rooms@.take(i + 1).drop_last() == rooms@.take(i as int));
        assert(rooms@.take(i + 1).last() == rooms@[i as int]);
        if r.kind == kind {
            let c = counted_score_of(r);
            assert(evaluation_bounded(rooms@[i as int]));
            total = total + c.final_efficiency.milli;
            lines.push(room_line_of(r));
            assert(lines@ == start + kind_lines(rooms@.take(i + 1), kind));
        }
        i += 1;
    }
    assert(rooms@.take(rooms@.len() as int) == rooms@);
    total
}

/// The direct efficiencies of a shift from what is known of its production
/// rooms: per kind, the sum of the rooms' counted final efficiencies; the
/// room lines of the trade posts, then the factories, then the power plants,
/// each in room order.
pub fn evaluate_base_assignment_efficiencies(rooms: &Vec<RoomEvaluation>) -> (res: ShiftEfficiencies)
    requires
        rooms@.len() <= ROOM_COUNT_BOUND,
        forall|k: int| 0 <= k < rooms@.len() ==> evaluation_bounded(#[trigger] rooms@[k]),
    ensures
        res.trade_efficiency.milli == kind_total(rooms@, FacilityKind::TradePost),
        res.manufacture_efficiency.milli == kind_total(rooms@, FacilityKind::Factory),
        res.power_efficiency.milli == kind_total(rooms@, FacilityKind::PowerPlant),
        res.room_lines@ == kind_lines(rooms@, FacilityKind::TradePost) + kind_lines(rooms@, FacilityKind::Factory)
            + kind_lines(rooms@, FacilityKind::PowerPlant),
{
    let mut lines: Vec<RoomEfficiencyLine> = Vec::new();
    let trade = add_kind(rooms, FacilityKind::TradePost, &mut lines);
    let manu = add_kind(rooms, FacilityKind::Factory, &mut lines);
    let power = add_kind(rooms, FacilityKind::PowerPlant, &mut lines);
    assert(lines@ == kind_lines(rooms@, FacilityKind::TradePost) + kind_lines(rooms@, FacilityKind::Factory)
        + kind_lines(rooms@, FacilityKind::PowerPlant));
    ShiftEfficiencies {
        trade_efficiency: Efficiency { milli: trade },
        manufacture_efficiency: Efficiency { milli: manu },
        power_efficiency: Efficiency { milli: power },
        room_lines: lines,
    }
}

/// Minutes in a day.
pub const DAY_MINUTES: u32 = 1440;

/// `milli` scaled by `minutes` of a day, rounded toward zero.
pub open spec fn scaled_for_minutes(milli: int, minutes: int) -> int {
    if milli >= 0 {
        milli * minutes / 1440
    } else {
        -((-milli) * minutes / 1440)
    }
}

/// The weighted value is the efficiency times the shift's share of the day,
/// rounded toward zero: for a non-negative efficiency the largest `w` with
/// `w * 1440 <= milli * minutes`; a negative efficiency weighs the opposite
/// of its magnitude's weight.
pub proof fn lemma_weighting(milli: int, minutes: int)
    requires
        0 <= minutes <= 1440,
    ensures
        milli >= 0 ==> {
            let w = scaled_for_minutes(milli, minutes);
            &&& 0 <= w
            &&& w * 1440 <= milli * minutes < (w + 1) * 1440
        },
        milli < 0 ==> scaled_for_minutes(milli, minutes) == -scaled_for_minutes(-milli, minutes),
        minutes == 1440 ==> scaled_for_minutes(milli, minutes) == milli,
        minutes == 0 ==> scaled_for_minutes(milli, minutes) == 0,
{
    if milli >= 0 {
        let p = milli * minutes;
        assert(p >= 0) by (nonlinear_arith)
            requires
                milli >= 0,
                minutes >= 0,
                p == milli * minutes,
        ;
        let w = p / 1440;
        assert(w * 1440 <= p < (w + 1) * 1440) by (nonlinear_arith)
            requires
                w == p / 1440,
                p >= 0,
        ;
    }
    if minutes == 1440 {
        if milli >= 0 {
            assert(milli * 1440 / 1440 == milli) by (nonlinear_arith);
        } else {
            assert((-milli) * 1440 / 1440 == -milli) by (nonlinear_arith);
        }
    }
    if minutes == 0 {
        assert(milli * 0 == 0);
        assert((-milli) * 0 == 0);
    }
}

/// An efficiency weighted by the share of the day a shift of `minutes`
/// lasts, rounded toward zero.
pub fn weighted_for_minutes(efficiency: Efficiency, minutes: u32) -> (res: Efficiency)
    requires
        minutes <= DAY_MINUTES,
    ensures
        res.milli == scaled_for_minutes(efficiency.milli as int, minutes as int),
{
    let m = efficiency.milli;
    if m >= 0 {
        assert((m as u128) * (minutes as u128) <= 0x8000_0000_0000_0000u128 * 1440) by (nonlinear_arith)
            requires
                0 <= m < 0x8000_0000_0000_0000u128,
                minutes <= 1440,
        ;
        let p: u128 = (m as u128) * (minutes as u128);
        let q: u128 = p / 1440;
        assert(q <= m) by (nonlinear_arith)
            requires
                q == p / 1440,
                p == m * minutes,
                minutes <= 1440,
                m >= 0,
        ;
        Efficiency { milli: q as i64 }
    } else {
        let a: u128 = (-(m as i128)) as u128;
        assert(a * (minutes as u128) <= 0x8000_0000_0000_0000u128 * 1440) by (nonlinear_arith)
            requires
                0 <= a <= 0x8000_0000_0000_0000u128,
                minutes <= 1440,
        ;
        let p: u128 = a * (minutes as u128);
        let q: u128 = p / 1440;
        assert(q <= a) by (nonlinear_arith)
            requires
                q == p / 1440,
                p == a * minutes,
                minutes <= 1440,
        ;
        Efficiency { milli: -(q as i128) as i64 }
    }
}

impl ShiftEfficiencies {
    /// Trade efficiency weighted by the shift's length.
    pub fn weighted_trade(&self, minutes: u32) -> (res: Efficiency)
        requires
            minutes <= DAY_MINUTES,
        ensures
            res.milli == scaled_for_minutes(self.trade_efficiency.milli as int, minutes as int),
    {
        weighted_for_minutes(self.trade_efficiency, minutes)
    }

    /// Manufacture efficiency weighted by the shift's length.
    pub fn weighted_manufacture(&self, minutes: u32) -> (res: Efficiency)
        requires
            minutes <= DAY_MINUTES,
        ensures
            res.milli == scaled_for_minutes(self.manufacture_efficiency.milli as int, minutes as int),
    {
        weighted_for_minutes(self.manufacture_efficiency, minutes)
    }

    /// Power efficiency weighted by the shift's length.
    pub fn weighted_power(&self, minutes: u32) -> (res: Efficiency)
        requires
            minutes <= DAY_MINUTES,
        ensures
            res.milli == scaled_for_minutes(self.power_efficiency.milli as int, minutes as int),
    {
        weighted_for_minutes(self.power_efficiency, minutes)
    }
}

} // verus!
