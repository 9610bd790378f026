//! The assembly of a three-team rotation: the three shifts (twelve hours
//! with alpha and beta, six with beta and gamma, six with gamma and alpha),
//! their checks (every production room staffed, nobody on two posts, the
//! resting team off duty but for a returned core operator) and the daily
//! totals of the weighted shift efficiencies.

use vstd::prelude::*;

use crate::layout::{
    blueprint_room, clone_operators, is_production, room_operators, AssignedOperator, AssignmentPlan, BaseAssignment, BaseBlueprint,
    BlueprintRoom, Efficiency, FacilityKind, RoomAssignment,
};
use crate::schedule::base_rotation::{scaled_for_minutes, ShiftEfficiencies};
use crate::schedule::rooms::{merge_rooms, merged_views, room_view, views_of};
use crate::schedule::team_rotation::{DailyTotals, FiammettaShiftAction, TeamAssignment, TeamLabel};
use crate::text::{contains_name, distinct_views, has_name, str_eq};

verus! {

/// One shift of the rotation: the two working teams together staff every
/// facility.
#[derive(Debug)]
pub struct TeamShiftResult {
    pub index: usize,
    pub duration_minutes: u32,
    pub active_teams: Vec<TeamLabel>,
    pub resting_team: TeamLabel,
    pub assignment: BaseAssignment,
    /// The one return of a resting core operator in this shift, if any.
    pub fiammetta: Option<FiammettaShiftAction>,
    pub efficiencies: ShiftEfficiencies,
    /// Trade efficiency weighted by the shift's length.
    pub weighted_trade: Efficiency,
    /// Manufacture efficiency weighted by the shift's length.
    pub weighted_manufacture: Efficiency,
    /// Power efficiency weighted by the shift's length.
    pub weighted_power: Efficiency,
}

/// A three-team rotation.
#[derive(Debug)]
pub struct TeamRotationReport {
    /// The plan of the peak shift the halves were aligned with.
    pub peak_plan: AssignmentPlan,
    pub teams: Vec<TeamAssignment>,
    pub shifts: Vec<TeamShiftResult>,
    /// Daily weighted output, trade, manufacture and power kept apart.
    pub daily: DailyTotals,
}

/// Why a rotation cannot be assembled.
#[derive(Debug, PartialEq, Eq)]
pub enum RotationError {
    /// The teams are not alpha, beta and gamma, in that order.
    TeamsMalformed,
    /// There are not three shifts, each with its efficiencies.
    ShiftCount,
    /// The returned core operator belongs to no team.
    UnknownReturnTarget,
    /// A production room is empty in a shift.
    EmptyFacility { shift: usize, room: String },
    /// An operator holds two posts in a shift.
    DoublePost { shift: usize, name: String },
    /// A member of the resting team works in a shift.
    RestingWorks { shift: usize, name: String },
}

/// Length of shift `i` in minutes: twelve hours, then six, then six.
pub open spec fn shift_minutes(i: int) -> u32 {
    if i == 0 {
        720
    } else {
        360
    }
}

/// Position, among alpha, beta and gamma, of the team resting in shift `i`:
/// gamma, then alpha, then beta.
pub open spec fn resting_position(i: int) -> int {
    if i == 0 {
        2
    } else if i == 1 {
        0
    } else {
        1
    }
}

/// The team resting in shift `i`.
pub open spec fn resting_label(i: int) -> TeamLabel {
    if i == 0 {
        TeamLabel::Gamma
    } else if i == 1 {
        TeamLabel::Alpha
    } else {
        TeamLabel::Beta
    }
}

/// The two teams working in shift `i`: alpha and beta, beta and gamma, gamma
/// and alpha.
pub open spec fn active_labels(i: int) -> Seq<TeamLabel> {
    if i == 0 {
        seq![TeamLabel::Alpha, TeamLabel::Beta]
    } else if i == 1 {
        seq![TeamLabel::Beta, TeamLabel::Gamma]
    } else {
        seq![TeamLabel::Gamma, TeamLabel::Alpha]
    }
}

/// The teams are alpha, beta and gamma, in that order.
pub open spec fn teams_ok(teams: Seq<TeamAssignment>) -> bool {
    &&& teams.len() == 3
    &&& teams[0].label == TeamLabel::Alpha
    &&& teams[1].label == TeamLabel::Beta
    &&& teams[2].label == TeamLabel::Gamma
}

/// Position of the first team `name` belongs to.
pub open spec fn team_of(teams: Seq<TeamAssignment>, name: Seq<char>) -> Option<int> {
    if has_name(teams[0].operators@, name) {
        Some(0)
    } else if has_name(teams[1].operators@, name) {
        Some(1)
    } else if has_name(teams[2].operators@, name) {
        Some(2)
    } else {
        None
    }
}

/// The shift in which the team at position `t` rests.
pub open spec fn shift_resting(t: int) -> int {
    (t + 1) % 3
}

/// The shift a return of a resting core operator belongs to: the one in which
/// the operator's team rests.
pub open spec fn return_shift(teams: Seq<TeamAssignment>, f: Option<FiammettaShiftAction>) -> Option<int> {
    match f {
        Some(a) => match team_of(teams, a.target@) {
            Some(t) => Some(shift_resting(t)),
            None => None,
        },
        None => None,
    }
}

/// The operator allowed to work in shift `i` though its team rests.
pub open spec fn exempt_in(teams: Seq<TeamAssignment>, f: Option<FiammettaShiftAction>, i: int) -> Option<Seq<char>> {
    match f {
        Some(a) => if return_shift(teams, f) == Some(i) {
            Some(a.target@)
        } else {
            None
        },
        None => None,
    }
}

/// Rooms the blueprint lists as dormitory or office: nobody works there.
pub open spec fn rest_room(bp: Seq<BlueprintRoom>, id: Seq<char>) -> bool {
    match blueprint_room(bp, id) {
        Some(r) => r.kind == FacilityKind::Dormitory || r.kind == FacilityKind::Office,
        None => false,
    }
}

/// The names of some operators.
pub open spec fn names_of(ops: Seq<AssignedOperator>) -> Seq<String> {
    ops.map_values(|o: AssignedOperator| o.name)
}

/// The names of everyone at a post (in a room other than a dormitory or an
/// office), room by room.
pub open spec fn working_names(bp: Seq<BlueprintRoom>, rooms: Seq<RoomAssignment>) -> Seq<String>
    decreases rooms.len(),
{
    if rooms.len() == 0 {
        Seq::empty()
    } else {
        let prev = working_names(bp, rooms.drop_last());
        if rest_room(bp, rooms.last().room_id.0@) {
            prev
        } else {
            prev + names_of(rooms.last().operators@)
        }
    }
}

/// Every production room of the blueprint has someone in it.
pub open spec fn staffed(bp: Seq<BlueprintRoom>, rooms: Seq<RoomAssignment>) -> bool {
    forall|k: int| 0 <= k < bp.len() && is_production(#[trigger] bp[k].kind) ==> room_operators(rooms, bp[k].id.0@).len() > 0
}

/// Nobody at a post is of the resting team, but for the exempt operator.
pub open spec fn rest_kept(names: Seq<String>, resting: Seq<String>, exempt: Option<Seq<char>>) -> bool {
    forall|k: int| 0 <= k < names.len() && has_name(resting, #[trigger] names[k]@) ==> exempt == Some(names[k]@)
}

/// Shift `i`'s assignment passes the checks.
pub open spec fn shift_ok(
    bp: Seq<BlueprintRoom>,
    teams: Seq<TeamAssignment>,
    f: Option<FiammettaShiftAction>,
    i: int,
    a: BaseAssignment,
) -> bool {
    let names = working_names(bp, a.rooms@);
    &&& staffed(bp, a.rooms@)
    &&& distinct_views(names)
    &&& rest_kept(names, teams[resting_position(i)].operators@, exempt_in(teams, f, i))
}

/// The inputs make a rotation.
pub open spec fn rotation_valid(
    bp: Seq<BlueprintRoom>,
    teams: Seq<TeamAssignment>,
    shifts: Seq<BaseAssignment>,
    effs: Seq<ShiftEfficiencies>,
    f: Option<FiammettaShiftAction>,
) -> bool {
    &&& teams_ok(teams)
    &&& shifts.len() == 3
    &&& effs.len() == 3
    &&& (f matches Some(a) ==> team_of(teams, a.target@) is Some)
    &&& forall|i: int| 0 <= i < 3 ==> shift_ok(bp, teams, f, i, #[trigger] shifts[i])
}

/// The error names a real fault of the inputs.
pub open spec fn error_holds(
    e: RotationError,
    bp: Seq<BlueprintRoom>,
    teams: Seq<TeamAssignment>,
    shifts: Seq<BaseAssignment>,
    effs: Seq<ShiftEfficiencies>,
    f: Option<FiammettaShiftAction>,
) -> bool {
    match e {
        RotationError::TeamsMalformed => !teams_ok(teams),
        RotationError::ShiftCount => !(shifts.len() == 3 && effs.len() == 3),
        RotationError::UnknownReturnTarget => f matches Some(a) && teams_ok(teams) && team_of(teams, a.target@) is None,
        RotationError::EmptyFacility { shift, .. } => shift < shifts.len() && shift_error(
            e,
            bp,
            teams,
            f,
            shifts[shift as int],
        ),
        RotationError::DoublePost { shift, .. } => shift < shifts.len() && shift_error(e, bp, teams, f, shifts[shift as int]),
        RotationError::RestingWorks { shift, .. } => shift < shifts.len() && teams_ok(teams) && shift_error(
            e,
            bp,
            teams,
            f,
            shifts[shift as int],
        ),
    }
}

/// The error names a real fault of the assignment `a` of its shift.
pub open spec fn shift_error(
    e: RotationError,
    bp: Seq<BlueprintRoom>,
    teams: Seq<TeamAssignment>,
    f: Option<FiammettaShiftAction>,
    a: BaseAssignment,
) -> bool {
    match e {
        RotationError::EmptyFacility { shift, room } => exists|k: int|
            0 <= k < bp.len() && is_production(#[trigger] bp[k].kind) && bp[k].id.0@ == room@ && room_operators(
                a.rooms@,
                room@,
            ).len() == 0,
        RotationError::DoublePost { shift, name } => exists|x: int, y: int|
            0 <= x < y < working_names(bp, a.rooms@).len() && #[trigger] working_names(bp, a.rooms@)[x]@ == name@
                && #[trigger] working_names(bp, a.rooms@)[y]@ == name@,
        RotationError::RestingWorks { shift, name } => shift < 3 && {
            let names = working_names(bp, a.rooms@);
            &&& exists|k: int| 0 <= k < names.len() && #[trigger] names[k]@ == name@
            &&& has_name(teams[resting_position(shift as int)].operators@, name@)
            &&& exempt_in(teams, f, shift as int) != Some(name@)
        },
        _ => false,
    }
}

/// The rotation's timetable: twelve hours, then six, then six, a full day in
/// all; each of alpha, beta and gamma rests in exactly one shift (gamma, then
/// alpha, then beta) and works in the other two; the two working teams of a
/// shift are the two that do not rest; the resting team's position among
/// alpha, beta, gamma is the one that rests, and a team rests in the shift
/// `shift_resting` gives for its position.
pub proof fn lemma_rotation_timetable()
    ensures
        shift_minutes(0) + shift_minutes(1) + shift_minutes(2) == 1440,
        shift_minutes(0) == 720 && shift_minutes(1) == 360 && shift_minutes(2) == 360,
        resting_label(0) != resting_label(1) && resting_label(1) != resting_label(2) && resting_label(0)
            != resting_label(2),
        forall|i: int|
            0 <= i < 3 ==> {
                let a = #[trigger] active_labels(i);
                &&& a.len() == 2
                &&& a[0] != a[1]
                &&& a[0] != resting_label(i) && a[1] != resting_label(i)
            },
        forall|i: int|
            0 <= i < 3 ==> seq![TeamLabel::Alpha, TeamLabel::Beta, TeamLabel::Gamma][#[trigger] resting_position(i)]
                == resting_label(i),
        forall|t: int| 0 <= t < 3 ==> resting_position(#[trigger] shift_resting(t)) == t,
        forall|t: int| 0 <= t < 3 ==> 0 <= #[trigger] shift_resting(t) < 3,
{
    assert(forall|i: int| 0 <= i < 3 ==> active_labels(i).len() == 2);
}

/// Who is at a post, room by room: the names of two runs of rooms are the
/// names of the first followed by those of the second; a room the blueprint
/// lists as a dormitory or an office adds nobody, any other room adds its
/// operators in order.
pub proof fn lemma_working_names(bp: Seq<BlueprintRoom>, a: Seq<RoomAssignment>, b: Seq<RoomAssignment>)
    ensures
        working_names(bp, a + b) == working_names(bp, a) + working_names(bp, b),
        b.len() == 1 ==> working_names(bp, b) == (if rest_room(bp, b[0].room_id.0@) {
            Seq::<String>::empty()
        } else {
            names_of(b[0].operators@)
        }),
        forall|id: Seq<char>|
            #![trigger rest_room(bp, id)]
            rest_room(bp, id) <==> (blueprint_room(bp, id) matches Some(r) && (r.kind == FacilityKind::Dormitory
                || r.kind == FacilityKind::Office)),
    decreases b.len(),
{
    if b.len() == 1 {
        assert(b.drop_last() == Seq::<RoomAssignment>::empty());
        assert(b.last() == b[0]);
        assert(working_names(bp, b.drop_last()) == Seq::<String>::empty());
        assert(working_names(bp, b) =~= (if rest_room(bp, b[0].room_id.0@) {
            Seq::<String>::empty()
        } else {
            names_of(b[0].operators@)
        }));
    }
    if b.len() == 0 {
        assert(a + b == a);
        assert(working_names(bp, a) + working_names(bp, b) =~= working_names(bp, a));
    } else {
        lemma_working_names(bp, a, b.drop_last());
        assert((a + b).drop_last() == a + b.drop_last());
        assert((a + b).last() == b.last());
        assert(working_names(bp, a + b) =~= working_names(bp, a) + working_names(bp, b));
    }
}

/// Sum of the weighted trade of some shift results.
pub open spec fn sum_trade(s: Seq<TeamShiftResult>) -> int
    decreases s.len(),
{
    if s.len() == 0 {
        0
    } else {
        sum_trade(s.drop_last()) + s.last().weighted_trade.milli
    }
}

/// Sum of the weighted manufacture of some shift results.
pub open spec fn sum_manufacture(s: Seq<TeamShiftResult>) -> int
    decreases s.len(),
{
    if s.len() == 0 {
        0
    } else {
        sum_manufacture(s.drop_last()) + s.last().weighted_manufacture.milli
    }
}

/// Sum of the weighted power of some shift results.
pub open spec fn sum_power(s: Seq<TeamShiftResult>) -> int
    decreases s.len(),
{
    if s.len() == 0 {
        0
    } else {
        sum_power(s.drop_last()) + s.last().weighted_power.milli
    }
}

/// Largest efficiency, in thousandths, a shift may report per kind.
pub const SHIFT_EFFICIENCY_BOUND: i64 = 1_000_000_000_000_000;

/// A shift's efficiencies lie within the bound.
pub open spec fn shift_bounded(e: ShiftEfficiencies) -> bool {
    &&& -SHIFT_EFFICIENCY_BOUND <= e.trade_efficiency.milli <= SHIFT_EFFICIENCY_BOUND
    &&& -SHIFT_EFFICIENCY_BOUND <= e.manufacture_efficiency.milli <= SHIFT_EFFICIENCY_BOUND
    &&& -SHIFT_EFFICIENCY_BOUND <= e.power_efficiency.milli <= SHIFT_EFFICIENCY_BOUND
}

/// Whether the blueprint lists room `id` as a dormitory or an office.
fn is_rest_room(bp: &BaseBlueprint, id: &crate::layout::RoomId) -> (res: bool)
    ensures
        res == rest_room(bp.rooms@, id.0@),
{
    match bp.room(id) {
        Some(r) => r.kind == FacilityKind::Dormitory || r.kind == FacilityKind::Office,
        None => false,
    }
}

/// The names of everyone at a post in the assignment, room by room.
pub fn working_names_of(bp: &BaseBlueprint, a: &BaseAssignment) -> (res: Vec<String>)
    ensures
        res@ == working_names(bp.rooms@, a.rooms@),
{
    let mut out: Vec<String> = Vec::new();
    let mut i: usize = 0;
    while i < a.rooms.len()
        invariant
            0 <= i <= a.rooms@.len(),
            out@ == working_names(bp.rooms@, a.rooms@.take(i as int)),
        decreases a.rooms@.len() - i,
    {
        let r = &a.rooms[i];
        assert(a.rooms@.take(i + 1).drop_last() == a.rooms@.take(i as int));
        assert(a.rooms@.take(i + 1).last() == a.rooms@[i as int]);
        if !is_rest_room(bp, &r.room_id) {
            let ghost base = out@;
            let mut j: usize = 0;
            while j < r.operators.len()
                invariant
                    0 <= j <= r.operators@.len(),
                    out@ == base + names_of(r.operators@.take(j as int)),
                decreases r.operators@.len() - j,
            {
                out.push(r.operators[j].name.clone());
                assert(names_of(r.operators@.take(j + 1)) == names_of(r.operators@.take(j as int)).push(
                    r.operators@[j as int].name,
                ));
                j += 1;
            }
            assert(r.operators@.take(r.operators@.len() as int) == r.operators@);
        }
        i += 1;
    }
    assert(a.rooms@.take(a.rooms@.len() as int) == a.rooms@);
    out
}

/// The first production room of the blueprint left empty by the assignment.
fn first_empty_room(bp: &BaseBlueprint, a: &BaseAssignment) -> (res: Option<usize>)
    ensures
        match res {
            None => staffed(bp.rooms@, a.rooms@),
            Some(k) => k < bp.rooms@.len() && is_production(bp.rooms@[k as int].kind) && room_operators(
                a.rooms@,
                bp.rooms@[k as int].id.0@,
            ).len() == 0,
        },
{
    let mut k: usize = 0;
    while k < bp.rooms.len()
        invariant
            0 <= k <= bp.rooms@.len(),
            forall|j: int|
                0 <= j < k && is_production(#[trigger] bp.rooms@[j].kind) ==> room_operators(
                    a.rooms@,
                    bp.rooms@[j].id.0@,
                ).len() > 0,
        decreases bp.rooms@.len() - k,
    {
        let room = &bp.rooms[k];
        let production = room.kind == FacilityKind::TradePost || room.kind == FacilityKind::Factory || room.kind
            == FacilityKind::PowerPlant;
        if production && a.operators_in(&room.id).len() == 0 {
            return Some(k);
        }
        k += 1;
    }
    None
}

/// The first name that occurs earlier in the list too.
fn first_repeat(v: &Vec<String>) -> (res: Option<usize>)
    ensures
        match res {
            None => distinct_views(v@),
            Some(b) => b < v@.len() && exists|a: int| 0 <= a < b && #[trigger] v@[a]@ == v@[b as int]@,
        },
{
    let mut b: usize = 0;
    while b < v.len()
        invariant
            0 <= b <= v@.len(),
            forall|x: int, y: int| 0 <= x < y < b ==> #[trigger] v@[x]@ != #[trigger] v@[y]@,
        decreases v@.len() - b,
    {
        let mut a: usize = 0;
        while a < b
            invariant
                0 <= a <= b < v@.len(),
                forall|x: int| 0 <= x < a ==> #[trigger] v@[x]@ != v@[b as int]@,
            decreases b - a,
        {
            if str_eq(v[a].as_str(), v[b].as_str()) {
                return Some(b);
            }
            a += 1;
        }
        b += 1;
    }
    None
}

/// An optional index as an integer.
pub open spec fn opt_int(x: Option<usize>) -> Option<int> {
    match x {
        Some(v) => Some(v as int),
        None => None,
    }
}

/// The characters of an optional name.
pub open spec fn opt_view(e: Option<&String>) -> Option<Seq<char>> {
    match e {
        Some(s) => Some(s@),
        None => None,
    }
}

/// The first name at a post that belongs to the resting team and is not the
/// exempt operator.
fn first_resting_worker(names: &Vec<String>, resting: &Vec<String>, exempt: Option<&String>) -> (res: Option<usize>)
    ensures
        match res {
            None => rest_kept(names@, resting@, opt_view(exempt)),
            Some(k) => k < names@.len() && has_name(resting@, names@[k as int]@) && opt_view(exempt)
                != Some(names@[k as int]@),
        },
{
    let mut k: usize = 0;
    while k < names.len()
        invariant
            0 <= k <= names@.len(),
            forall|j: int|
                0 <= j < k && has_name(resting@, #[trigger] names@[j]@) ==> opt_view(exempt) == Some(
                    names@[j]@,
                ),
        decreases names@.len() - k,
    {
        if contains_name(resting, names[k].as_str()) {
            let allowed = match exempt {
                Some(e) => str_eq(e.as_str(), names[k].as_str()),
                None => false,
            };
            if !allowed {
                return Some(k);
            }
        }
        k += 1;
    }
    None
}

/// The checks of shift `i`: `None` when its assignment passes them, else
/// the first fault found (an empty production room, then a double post, then
/// a resting operator at a post).
fn check_shift(
    bp: &BaseBlueprint,
    teams: &Vec<TeamAssignment>,
    f: &Option<FiammettaShiftAction>,
    exempt: Option<&String>,
    i: usize,
    a: &BaseAssignment,
) -> (res: Option<RotationError>)
    requires
        teams_ok(teams@),
        i < 3,
        opt_view(exempt) == exempt_in(teams@, *f, i as int),
    ensures
        res is None <==> shift_ok(bp.rooms@, teams@, *f, i as int, *a),
        res matches Some(e) ==> shift_error(e, bp.rooms@, teams@, *f, *a) && e.shift_of() == i,
{
    if let Some(k) = first_empty_room(bp, a) {
        return Some(RotationError::EmptyFacility { shift: i, room: bp.rooms[k].id.0.clone() });
    }
    let names = working_names_of(bp, a);
    if let Some(b) = first_repeat(&names) {
        let ghost x = choose|x: int| 0 <= x < b && #[trigger] names@[x]@ == names@[b as int]@;
        assert(names@[x]@ == names@[b as int]@);
        return Some(RotationError::DoublePost { shift: i, name: names[b].clone() });
    }
    let rp: usize = if i == 0 {
        2
    } else if i == 1 {
        0
    } else {
        1
    };
    if let Some(k) = first_resting_worker(&names, &teams[rp].operators, exempt) {
        return Some(RotationError::RestingWorks { shift: i, name: names[k].clone() });
    }
    None
}

impl RotationError {
    /// The shift a shift's fault names (0 for the other errors).
    pub open spec fn shift_of(self) -> usize {
        match self {
            RotationError::EmptyFacility { shift, .. } => shift,
            RotationError::DoublePost { shift, .. } => shift,
            RotationError::RestingWorks { shift, .. } => shift,
            _ => 0,
        }
    }
}

/// The result of shift `i` carries its place in the rotation, the given
/// assignment and efficiencies, the return of a resting core operator when
/// it falls in this shift, and the efficiencies weighted by its length.
pub open spec fn shift_result_matches(
    r: TeamShiftResult,
    i: int,
    a: BaseAssignment,
    e: ShiftEfficiencies,
    teams: Seq<TeamAssignment>,
    f: Option<FiammettaShiftAction>,
) -> bool {
    &&& r.index == i
    &&& r.duration_minutes == shift_minutes(i)
    &&& r.active_teams@ == active_labels(i)
    &&& r.resting_team == resting_label(i)
    &&& r.assignment == a
    &&& r.efficiencies == e
    &&& r.fiammetta == (if return_shift(teams, f) == Some(i) {
        f
    } else {
        None
    })
    &&& r.weighted_trade.milli == scaled_for_minutes(e.trade_efficiency.milli as int, shift_minutes(i) as int)
    &&& r.weighted_manufacture.milli == scaled_for_minutes(
        e.manufacture_efficiency.milli as int,
        shift_minutes(i) as int,
    )
    &&& r.weighted_power.milli == scaled_for_minutes(e.power_efficiency.milli as int, shift_minutes(i) as int)
}

/// The operator a shift's own return exempts from resting.
pub open spec fn returned_in(r: TeamShiftResult) -> Option<Seq<char>> {
    match r.fiammetta {
        Some(a) => Some(a.target@),
        None => None,
    }
}

/// A weighted efficiency is no larger than the efficiency.
proof fn lemma_scaled_bound(m: int, minutes: int)
    requires
        0 <= minutes <= 1440,
    ensures
        m >= 0 ==> 0 <= scaled_for_minutes(m, minutes) <= m,
        m < 0 ==> m <= scaled_for_minutes(m, minutes) <= 0,
{
    if m >= 0 {
        assert(0 <= m * minutes / 1440 <= m) by (nonlinear_arith)
            requires
                m >= 0,
                0 <= minutes <= 1440,
        ;
    } else {
        assert(0 <= (-m) * minutes / 1440 <= -m) by (nonlinear_arith)
            requires
                m < 0,
                0 <= minutes <= 1440,
        ;
    }
}

/// The result of one shift.
fn shift_result(
    i: usize,
    a: BaseAssignment,
    e: ShiftEfficiencies,
    f: Option<FiammettaShiftAction>,
) -> (res: TeamShiftResult)
    requires
        i < 3,
        shift_bounded(e),
    ensures
        res.index == i,
        res.duration_minutes == shift_minutes(i as int),
        res.active_teams@ == active_labels(i as int),
        res.resting_team == resting_label(i as int),
        res.assignment == a,
        res.efficiencies == e,
        res.fiammetta == f,
        res.weighted_trade.milli == scaled_for_minutes(e.trade_efficiency.milli as int, shift_minutes(i as int) as int),
        res.weighted_manufacture.milli == scaled_for_minutes(
            e.manufacture_efficiency.milli as int,
            shift_minutes(i as int) as int,
        ),
        res.weighted_power.milli == scaled_for_minutes(e.power_efficiency.milli as int, shift_minutes(i as int) as int),
        -SHIFT_EFFICIENCY_BOUND <= res.weighted_trade.milli <= SHIFT_EFFICIENCY_BOUND,
        -SHIFT_EFFICIENCY_BOUND <= res.weighted_manufacture.milli <= SHIFT_EFFICIENCY_BOUND,
        -SHIFT_EFFICIENCY_BOUND <= res.weighted_power.milli <= SHIFT_EFFICIENCY_BOUND,
{
    let minutes: u32 = if i == 0 {
        720
    } else {
        360
    };
    let (active, resting) = if i == 0 {
        (vec![TeamLabel::Alpha, TeamLabel::Beta], TeamLabel::Gamma)
    } else if i == 1 {
        (vec![TeamLabel::Beta, TeamLabel::Gamma], TeamLabel::Alpha)
    } else {
        (vec![TeamLabel::Gamma, TeamLabel::Alpha], TeamLabel::Beta)
    };
    proof {
        lemma_scaled_bound(e.trade_efficiency.milli as int, minutes as int);
        lemma_scaled_bound(e.manufacture_efficiency.milli as int, minutes as int);
        lemma_scaled_bound(e.power_efficiency.milli as int, minutes as int);
    }
    let weighted_trade = e.weighted_trade(minutes);
    let weighted_manufacture = e.weighted_manufacture(minutes);
    let weighted_power = e.weighted_power(minutes);
    TeamShiftResult {
        index: i,
        duration_minutes: minutes,
        active_teams: active,
        resting_team: resting,
        assignment: a,
        fiammetta: f,
        efficiencies: e,
        weighted_trade,
        weighted_manufacture,
        weighted_power,
    }
}

/// Assembles the three-team rotation from the teams, the assignments and
/// efficiencies of the three shifts, and the return of a resting core
/// operator (which falls in the shift where the operator's team rests).
/// Succeeds exactly when the teams are alpha, beta and gamma, there are three
/// shifts with their efficiencies, the returned operator belongs to a team,
/// and every shift staffs every production room, puts nobody on two posts
/// and keeps its resting team off duty but for its returned operator; each
/// error names a fault that the inputs have.
pub fn assemble_team_rotation(
    bp: &BaseBlueprint,
    peak_plan: AssignmentPlan,
    teams: Vec<TeamAssignment>,
    shifts: Vec<BaseAssignment>,
    effs: Vec<ShiftEfficiencies>,
    fiammetta: Option<FiammettaShiftAction>,
) -> (res: Result<TeamRotationReport, RotationError>)
    requires
        forall|i: int| 0 <= i < effs@.len() ==> shift_bounded(#[trigger] effs@[i]),
    ensures
        res is Ok <==> rotation_valid(bp.rooms@, teams@, shifts@, effs@, fiammetta),
        res matches Err(e) ==> error_holds(e, bp.rooms@, teams@, shifts@, effs@, fiammetta),
        res matches Ok(r) ==> {
            &&& r.peak_plan == peak_plan
            &&& r.teams@ == teams@
            &&& r.shifts@.len() == 3
            &&& forall|i: int|
                0 <= i < 3 ==> shift_result_matches(#[trigger] r.shifts@[i], i, shifts@[i], effs@[i], teams@, fiammetta)
            &&& forall|i: int|
                0 <= i < 3 ==> {
                    let names = working_names(bp.rooms@, (#[trigger] r.shifts@[i]).assignment.rooms@);
                    &&& staffed(bp.rooms@, r.shifts@[i].assignment.rooms@)
                    &&& distinct_views(names)
                    &&& rest_kept(names, teams@[resting_position(i)].operators@, returned_in(r.shifts@[i]))
                }
            &&& r.daily.trade.milli == sum_trade(r.shifts@)
            &&& r.daily.manufacture.milli == sum_manufacture(r.shifts@)
            &&& r.daily.power.milli == sum_power(r.shifts@)
        },
{
    if teams.len() != 3 || teams[0].label != TeamLabel::Alpha || teams[1].label != TeamLabel::Beta || teams[2].label
        != TeamLabel::Gamma {
        return Err(RotationError::TeamsMalformed);
    }
    if shifts.len() != 3 || effs.len() != 3 {
        return Err(RotationError::ShiftCount);
    }
    let ret: Option<usize> = match &fiammetta {
        Some(a) => {
            let t = a.target.as_str();
            if contains_name(&teams[0].operators, t) {
                Some(1)
            } else if contains_name(&teams[1].operators, t) {
                Some(2)
            } else if contains_name(&teams[2].operators, t) {
                Some(0)
            } else {
                return Err(RotationError::UnknownReturnTarget);
            }
        },
        None => None,
    };
    assert(opt_int(ret) == return_shift(teams@, fiammetta));
    let mut i: usize = 0;
    while i < 3
        invariant
            0 <= i <= 3,
            teams_ok(teams@),
            shifts@.len() == 3,
            opt_int(ret) == return_shift(teams@, fiammetta),
            forall|j: int| 0 <= j < i ==> shift_ok(bp.rooms@, teams@, fiammetta, j, #[trigger] shifts@[j]),
        decreases 3 - i,
    {
        let exempt: Option<&String> = match &fiammetta {
            Some(a) => if ret == Some(i) {
                Some(&a.target)
            } else {
                None
            },
            None => None,
        };
        if let Some(e) = check_shift(bp, &teams, &fiammetta, exempt, i, &shifts[i]) {
            return Err(e);
        }
        i += 1;
    }
    let mut shifts = shifts;
    let mut effs = effs;
    let ghost s0 = shifts@;
    let ghost e0 = effs@;
    assert(shift_bounded(e0[0]) && shift_bounded(e0[1]) && shift_bounded(e0[2]));
    let (f0, f1, f2) = match ret {
        Some(0) => (fiammetta, None, None),
        Some(1) => (None, fiammetta, None),
        Some(_) => (None, None, fiammetta),
        None => (None, None, None),
    };
    let (a2, a1, a0) = match (shifts.pop(), shifts.pop(), shifts.pop()) {
        (Some(x), Some(y), Some(z)) => (x, y, z),
        _ => {
            return Err(RotationError::ShiftCount);
        },
    };
    let (g2, g1, g0) = match (effs.pop(), effs.pop(), effs.pop()) {
        (Some(x), Some(y), Some(z)) => (x, y, z),
        _ => {
            return Err(RotationError::ShiftCount);
        },
    };
    let r0 = shift_result(0, a0, g0, f0);
    let r1 = shift_result(1, a1, g1, f1);
    let r2 = shift_result(2, a2, g2, f2);
    let daily = DailyTotals {
        trade: Efficiency { milli: r0.weighted_trade.milli + r1.weighted_trade.milli + r2.weighted_trade.milli },
        manufacture: Efficiency {
            milli: r0.weighted_manufacture.milli + r1.weighted_manufacture.milli + r2.weighted_manufacture.milli,
        },
        power: Efficiency { milli: r0.weighted_power.milli + r1.weighted_power.milli + r2.weighted_power.milli },
    };
    let out = vec![r0, r1, r2];
    proof {
        reveal_with_fuel(sum_trade, 4);
        reveal_with_fuel(sum_manufacture, 4);
        reveal_with_fuel(sum_power, 4);
        assert(out@.drop_last().drop_last().drop_last() == Seq::<TeamShiftResult>::empty());
        assert(s0[0] == a0 && s0[1] == a1 && s0[2] == a2);
        assert(e0[0] == g0 && e0[1] == g1 && e0[2] == g2);
    }
    Ok(TeamRotationReport { peak_plan, teams, shifts: out, daily })
}

/// The core operators a returned mood swap may bring back to their posts, in
/// order of priority.
pub open spec fn return_priority() -> Seq<Seq<char>> {
    seq!["但书"@, "巫恋"@, "龙舌兰"@, "清流"@, "可露希尔"@]
}

/// The core operators a returned mood swap may bring back, in order of
/// priority.
pub fn fiammetta_return_priority() -> (res: Vec<String>)
    ensures
        res@.len() == 5,
        forall|i: int| 0 <= i < 5 ==> (#[trigger] res@[i])@ == return_priority()[i],
{
    let out = vec![
        String::from_str("但书"),
        String::from_str("巫恋"),
        String::from_str("龙舌兰"),
        String::from_str("清流"),
        String::from_str("可露希尔"),
    ];
    proof {
        reveal_strlit("但书");
        reveal_strlit("巫恋");
        reveal_strlit("龙舌兰");
        reveal_strlit("清流");
        reveal_strlit("可露希尔");
    }
    out
}

/// Some operator of the list is `name`.
pub open spec fn has_operator(ops: Seq<AssignedOperator>, name: Seq<char>) -> bool {
    exists|k: int| 0 <= k < ops.len() && #[trigger] ops[k].name@ == name
}

/// Index of the first room holding `name`.
pub open spec fn first_room_with(rooms: Seq<RoomAssignment>, name: Seq<char>) -> Option<int>
    decreases rooms.len(),
{
    if rooms.len() == 0 {
        None
    } else if has_operator(rooms[0].operators@, name) {
        Some(0)
    } else {
        match first_room_with(rooms.drop_first(), name) {
            Some(i) => Some(i + 1),
            None => None,
        }
    }
}

/// The label of the first team `name` belongs to.
pub open spec fn team_label_of(teams: Seq<TeamAssignment>, name: Seq<char>) -> Option<TeamLabel>
    decreases teams.len(),
{
    if teams.len() == 0 {
        None
    } else if has_name(teams[0].operators@, name) {
        Some(teams[0].label)
    } else {
        team_label_of(teams.drop_first(), name)
    }
}

/// Index of the first shift in which team `label` rests.
pub open spec fn shift_resting_team(shifts: Seq<TeamShiftResult>, label: TeamLabel) -> Option<int>
    decreases shifts.len(),
{
    if shifts.len() == 0 {
        None
    } else if shifts[0].resting_team == label {
        Some(0)
    } else {
        match shift_resting_team(shifts.drop_first(), label) {
            Some(i) => Some(i + 1),
            None => None,
        }
    }
}

/// A core operator who may return to its peak room in the shift its team
/// rests, with the places it may take there.
#[derive(Debug)]
pub struct ReturnCandidate {
    pub target: String,
    /// The shift in which the operator's team rests.
    pub shift: usize,
    /// The operator's room in the peak shift.
    pub room_id: crate::layout::RoomId,
    pub kind: FacilityKind,
    /// The operator as placed in the peak shift.
    pub operator: AssignedOperator,
    /// How many places the room has in that shift.
    pub slots: usize,
}

/// Core operator `name` may return: it works in a production room of the
/// peak shift, belongs to a team that rests in some shift, is not at work in
/// that shift already, and that shift has its peak room; `c` describes it.
pub open spec fn return_candidate_for(
    bp: Seq<BlueprintRoom>,
    peak: Seq<RoomAssignment>,
    teams: Seq<TeamAssignment>,
    shifts: Seq<TeamShiftResult>,
    name: Seq<char>,
    c: ReturnCandidate,
) -> bool {
    &&& first_room_with(peak, name) matches Some(r)
    &&& blueprint_room(bp, peak[r].room_id.0@) matches Some(b)
    &&& is_production(b.kind)
    &&& team_label_of(teams, name) matches Some(label)
    &&& shift_resting_team(shifts, label) matches Some(s)
    &&& !crate::layout::assigned_anywhere(shifts[s].assignment.rooms@, name)
    &&& crate::layout::room_index(shifts[s].assignment.rooms@, peak[r].room_id.0@) matches Some(ri)
    &&& c.target@ == name
    &&& c.shift == s
    &&& c.room_id == peak[r].room_id
    &&& c.kind == b.kind
    &&& c.operator.name@ == name
    &&& has_operator(peak[r].operators@, name)
    &&& peak[r].operators@.contains(c.operator)
    &&& c.slots == shifts[s].assignment.rooms@[ri].operators@.len()
}

/// Core operator `name` may return (some candidate describes it).
pub open spec fn may_return(
    bp: Seq<BlueprintRoom>,
    peak: Seq<RoomAssignment>,
    teams: Seq<TeamAssignment>,
    shifts: Seq<TeamShiftResult>,
    name: Seq<char>,
) -> bool {
    &&& first_room_with(peak, name) matches Some(r)
    &&& blueprint_room(bp, peak[r].room_id.0@) matches Some(b)
    &&& is_production(b.kind)
    &&& team_label_of(teams, name) matches Some(label)
    &&& shift_resting_team(shifts, label) matches Some(s)
    &&& !crate::layout::assigned_anywhere(shifts[s].assignment.rooms@, name)
    &&& crate::layout::room_index(shifts[s].assignment.rooms@, peak[r].room_id.0@) is Some
}

/// Position of `name` in the priority list (five when absent).
pub open spec fn priority_index(name: Seq<char>) -> int {
    if name == return_priority()[0] {
        0
    } else if name == return_priority()[1] {
        1
    } else if name == return_priority()[2] {
        2
    } else if name == return_priority()[3] {
        3
    } else if name == return_priority()[4] {
        4
    } else {
        5
    }
}

/// Each core operator of the priority list stands at its own position.
proof fn lemma_priority_index()
    ensures
        forall|p: int| 0 <= p < 5 ==> priority_index(#[trigger] return_priority()[p]) == p,
{
    reveal_strlit("但书");
    reveal_strlit("巫恋");
    reveal_strlit("龙舌兰");
    reveal_strlit("清流");
    reveal_strlit("可露希尔");
    let r = return_priority();
    assert(r[0][0] == '但' && r[1][0] == '巫' && r[2][0] == '龙' && r[3][0] == '清' && r[4][0] == '可');
    assert(r[1] != r[0]);
    assert(r[2] != r[0] && r[2] != r[1]);
    assert(r[3] != r[0] && r[3] != r[1] && r[3] != r[2]);
    assert(r[4] != r[0] && r[4] != r[1] && r[4] != r[2] && r[4] != r[3]);
}

/// The first room holding a name holds it.
proof fn lemma_first_room_with(rooms: Seq<RoomAssignment>, name: Seq<char>)
    ensures
        first_room_with(rooms, name) matches Some(r) ==> 0 <= r < rooms.len() && has_operator(rooms[r].operators@, name),
    decreases rooms.len(),
{
    if rooms.len() > 0 && !has_operator(rooms[0].operators@, name) {
        lemma_first_room_with(rooms.drop_first(), name);
        if let Some(r) = first_room_with(rooms, name) {
            assert(rooms[r] == rooms.drop_first()[r - 1]);
        }
    }
}

/// Whether some operator of the list is `name`.
fn holds_operator(ops: &Vec<AssignedOperator>, name: &str) -> (res: Option<usize>)
    ensures
        match res {
            Some(k) => k < ops@.len() && ops@[k as int].name@ == name@ && has_operator(ops@, name@),
            None => !has_operator(ops@, name@),
        },
{
    let mut k: usize = 0;
    while k < ops.len()
        invariant
            0 <= k <= ops@.len(),
            forall|j: int| 0 <= j < k ==> (#[trigger] ops@[j]).name@ != name@,
        decreases ops@.len() - k,
    {
        if str_eq(ops[k].name.as_str(), name) {
            return Some(k);
        }
        k += 1;
    }
    None
}

/// Index of the first room holding `name`.
fn find_room_with(rooms: &Vec<RoomAssignment>, name: &str) -> (res: Option<usize>)
    ensures
        opt_int(res) == first_room_with(rooms@, name@),
        res matches Some(r) ==> r < rooms@.len(),
{
    let mut i: usize = 0;
    assert(rooms@.skip(0) == rooms@);
    while i < rooms.len()
        invariant
            0 <= i <= rooms@.len(),
            first_room_with(rooms@, name@) == match first_room_with(rooms@.skip(i as int), name@) {
                Some(j) => Some(j + i),
                None => None,
            },
        decreases rooms@.len() - i,
    {
        assert(rooms@.skip(i as int)[0] == rooms@[i as int]);
        assert(rooms@.skip(i as int).drop_first() == rooms@.skip(i + 1));
        if holds_operator(&rooms[i].operators, name).is_some() {
            return Some(i);
        }
        i += 1;
    }
    None
}

/// The label of the first team `name` belongs to.
fn find_team_label(teams: &Vec<TeamAssignment>, name: &str) -> (res: Option<TeamLabel>)
    ensures
        res == team_label_of(teams@, name@),
{
    let mut i: usize = 0;
    assert(teams@.skip(0) == teams@);
    while i < teams.len()
        invariant
            0 <= i <= teams@.len(),
            team_label_of(teams@, name@) == team_label_of(teams@.skip(i as int), name@),
        decreases teams@.len() - i,
    {
        assert(teams@.skip(i as int)[0] == teams@[i as int]);
        assert(teams@.skip(i as int).drop_first() == teams@.skip(i + 1));
        if contains_name(&teams[i].operators, name) {
            return Some(teams[i].label);
        }
        i += 1;
    }
    None
}

/// Index of the first shift in which team `label` rests.
fn find_resting_shift(shifts: &Vec<TeamShiftResult>, label: TeamLabel) -> (res: Option<usize>)
    ensures
        opt_int(res) == shift_resting_team(shifts@, label),
        res matches Some(s) ==> s < shifts@.len(),
{
    let mut i: usize = 0;
    assert(shifts@.skip(0) == shifts@);
    while i < shifts.len()
        invariant
            0 <= i <= shifts@.len(),
            shift_resting_team(shifts@, label) == match shift_resting_team(shifts@.skip(i as int), label) {
                Some(j) => Some(j + i),
                None => None,
            },
        decreases shifts@.len() - i,
    {
        assert(shifts@.skip(i as int)[0] == shifts@[i as int]);
        assert(shifts@.skip(i as int).drop_first() == shifts@.skip(i + 1));
        if shifts[i].resting_team == label {
            return Some(i);
        }
        i += 1;
    }
    None
}

/// Whether `name` works in some room of the assignment.
fn works_anywhere(a: &BaseAssignment, name: &str) -> (res: bool)
    ensures
        res == crate::layout::assigned_anywhere(a.rooms@, name@),
{
    let mut i: usize = 0;
    while i < a.rooms.len()
        invariant
            0 <= i <= a.rooms@.len(),
            forall|r: int, k: int|
                0 <= r < i && 0 <= k < a.rooms@[r].operators@.len() ==> #[trigger] a.rooms@[r].operators@[k].name@
                    != name@,
        decreases a.rooms@.len() - i,
    {
        if let Some(k) = holds_operator(&a.rooms[i].operators, name) {
            assert(a.rooms@[i as int].operators@[k as int].name@ == name@);
            return true;
        }
        i += 1;
    }
    false
}

/// The candidate for core operator `name`, when it may return.
fn return_candidate(
    bp: &BaseBlueprint,
    peak: &BaseAssignment,
    teams: &Vec<TeamAssignment>,
    shifts: &Vec<TeamShiftResult>,
    name: &String,
) -> (res: Option<ReturnCandidate>)
    ensures
        res is Some <==> may_return(bp.rooms@, peak.rooms@, teams@, shifts@, name@),
        res matches Some(c) ==> return_candidate_for(bp.rooms@, peak.rooms@, teams@, shifts@, name@, c),
{
    let r = match find_room_with(&peak.rooms, name.as_str()) {
        Some(r) => r,
        None => {
            return None;
        },
    };
    let src = &peak.rooms[r];
    proof {
        lemma_first_room_with(peak.rooms@, name@);
    }
    let kind = match bp.room(&src.room_id) {
        Some(b) => b.kind,
        None => {
            return None;
        },
    };
    if !(kind == FacilityKind::TradePost || kind == FacilityKind::Factory || kind == FacilityKind::PowerPlant) {
        return None;
    }
    let label = match find_team_label(teams, name.as_str()) {
        Some(l) => l,
        None => {
            return None;
        },
    };
    let s = match find_resting_shift(shifts, label) {
        Some(s) => s,
        None => {
            return None;
        },
    };
    if works_anywhere(&shifts[s].assignment, name.as_str()) {
        return None;
    }
    let ri = match shifts[s].assignment.room_position(src.room_id.0.as_str()) {
        Some(ri) => ri,
        None => {
            return None;
        },
    };
    let k = match holds_operator(&src.operators, name.as_str()) {
        Some(k) => k,
        None => {
            return None;
        },
    };
    let operator = src.operators[k].clone();
    proof {
        assert(src.operators@[k as int] == operator);
    }
    Some(
        ReturnCandidate {
            target: name.clone(),
            shift: s,
            room_id: src.room_id.clone(),
            kind,
            operator,
            slots: shifts[s].assignment.rooms[ri].operators.len(),
        },
    )
}

/// The core operators that may return, in order of priority, each with
/// its candidate; none when the account does not own the operator whose
/// mood swap makes a return possible.
pub fn fiammetta_return_candidates(
    owns_swapper: bool,
    bp: &BaseBlueprint,
    peak: &BaseAssignment,
    teams: &Vec<TeamAssignment>,
    shifts: &Vec<TeamShiftResult>,
) -> (res: Vec<ReturnCandidate>)
    ensures
        !owns_swapper ==> res@.len() == 0,
        forall|i: int|
            0 <= i < res@.len() ==> return_candidate_for(
                bp.rooms@,
                peak.rooms@,
                teams@,
                shifts@,
                (#[trigger] res@[i]).target@,
                res@[i],
            ) && priority_index(res@[i].target@) < 5,
        forall|i: int, j: int|
            0 <= i < j < res@.len() ==> priority_index((#[trigger] res@[i]).target@) < priority_index(
                (#[trigger] res@[j]).target@,
            ),
        owns_swapper ==> forall|p: int|
            0 <= p < 5 ==> (may_return(bp.rooms@, peak.rooms@, teams@, shifts@, return_priority()[p]) <==> exists|i: int|
                0 <= i < res@.len() && (#[trigger] res@[i]).target@ == return_priority()[p]),
{
    let mut out: Vec<ReturnCandidate> = Vec::new();
    if !owns_swapper {
        return out;
    }
    let names = fiammetta_return_priority();
    proof {
        reveal_strlit("但书");
        reveal_strlit("巫恋");
        reveal_strlit("龙舌兰");
        reveal_strlit("清流");
        reveal_strlit("可露希尔");
        lemma_priority_index();
    }
    let mut p: usize = 0;
    while p < 5
        invariant
            0 <= p <= 5,
            names@.len() == 5,
            forall|q: int| 0 <= q < 5 ==> (#[trigger] names@[q])@ == return_priority()[q],
            forall|q: int| 0 <= q < 5 ==> priority_index(#[trigger] return_priority()[q]) == q,
            forall|i: int|
                0 <= i < out@.len() ==> return_candidate_for(
                    bp.rooms@,
                    peak.rooms@,
                    teams@,
                    shifts@,
                    (#[trigger] out@[i]).target@,
                    out@[i],
                ) && priority_index(out@[i].target@) < p,
            forall|i: int, j: int|
                0 <= i < j < out@.len() ==> priority_index((#[trigger] out@[i]).target@) < priority_index(
                    (#[trigger] out@[j]).target@,
                ),
            forall|q: int|
                0 <= q < p ==> (may_return(bp.rooms@, peak.rooms@, teams@, shifts@, return_priority()[q]) <==> exists|i: int|
                    0 <= i < out@.len() && (#[trigger] out@[i]).target@ == return_priority()[q]),
        decreases 5 - p,
    {
        let ghost before = out@;
        if let Some(c) = return_candidate(bp, peak, teams, shifts, &names[p]) {
            out.push(c);
            proof {
                assert(out@[out@.len() - 1].target@ == return_priority()[p as int]);
                assert forall|q: int|
                    0 <= q < p + 1 implies (may_return(bp.rooms@, peak.rooms@, teams@, shifts@, return_priority()[q])
                        <==> exists|i: int| 0 <= i < out@.len() && (#[trigger] out@[i]).target@ == return_priority()[q]) by {
                    if q < p {
                        if exists|i: int| 0 <= i < out@.len() && (#[trigger] out@[i]).target@ == return_priority()[q] {
                            let i = choose|i: int| 0 <= i < out@.len() && (#[trigger] out@[i]).target@ == return_priority()[q];
                            if i == out@.len() - 1 {
                                assert(priority_index(return_priority()[q]) == q);
                            } else {
                                assert(out@[i] == before[i]);
                            }
                        }
                        if exists|i: int| 0 <= i < before.len() && (#[trigger] before[i]).target@ == return_priority()[q] {
                            let i = choose|i: int| 0 <= i < before.len() && (#[trigger] before[i]).target@ == return_priority()[q];
                            assert(out@[i] == before[i]);
                        }
                    }
                }
            }
        } else {
            proof {
                assert forall|i: int| 0 <= i < out@.len() implies (#[trigger] out@[i]).target@ != return_priority()[p as int] by {
                    assert(priority_index(out@[i].target@) < p);
                }
            }
        }
        p += 1;
    }
    out
}

/// The efficiency of a shift in the kind of a room.
pub open spec fn kind_efficiency(e: ShiftEfficiencies, kind: FacilityKind) -> int {
    if kind == FacilityKind::TradePost {
        e.trade_efficiency.milli as int
    } else if kind == FacilityKind::Factory {
        e.manufacture_efficiency.milli as int
    } else {
        e.power_efficiency.milli as int
    }
}

/// Place `b` gives the highest efficiency of the room's kind among the
/// evaluated places, and comes first among the places that give it.
pub open spec fn is_best_slot(scores: Seq<Option<ShiftEfficiencies>>, kind: FacilityKind, b: int) -> bool {
    &&& 0 <= b < scores.len()
    &&& scores[b] is Some
    &&& forall|j: int|
        0 <= j < scores.len() && (#[trigger] scores[j]) is Some ==> kind_efficiency(scores[j].unwrap(), kind)
            < kind_efficiency(scores[b].unwrap(), kind) || (kind_efficiency(scores[j].unwrap(), kind)
            == kind_efficiency(scores[b].unwrap(), kind) && b <= j)
}

/// The place of the room where the returning operator does best: the first
/// place with the highest efficiency of the room's kind, among the places
/// whose shift could be evaluated (`None` for the others).
pub fn best_return_slot(kind: FacilityKind, scores: &Vec<Option<ShiftEfficiencies>>) -> (res: Option<usize>)
    ensures
        res is None <==> forall|j: int| 0 <= j < scores@.len() ==> (#[trigger] scores@[j]) is None,
        res matches Some(b) ==> is_best_slot(scores@, kind, b as int),
{
    let mut best: Option<usize> = None;
    let mut best_val: i64 = 0;
    let mut j: usize = 0;
    while j < scores.len()
        invariant
            0 <= j <= scores@.len(),
            match best {
                Some(b) => b < j && scores@[b as int] is Some && best_val == kind_efficiency(
                    scores@[b as int].unwrap(),
                    kind,
                ) && forall|x: int|
                    0 <= x < j && (#[trigger] scores@[x]) is Some ==> kind_efficiency(scores@[x].unwrap(), kind)
                        < best_val || (kind_efficiency(scores@[x].unwrap(), kind) == best_val && b <= x),
                None => forall|x: int| 0 <= x < j ==> (#[trigger] scores@[x]) is None,
            },
        decreases scores@.len() - j,
    {
        if let Some(e) = &scores[j] {
            let v: i64 = if kind == FacilityKind::TradePost {
                e.trade_efficiency.milli
            } else if kind == FacilityKind::Factory {
                e.manufacture_efficiency.milli
            } else {
                e.power_efficiency.milli
            };
            match best {
                None => {
                    best = Some(j);
                    best_val = v;
                },
                Some(_) => {
                    if v > best_val {
                        best = Some(j);
                        best_val = v;
                    }
                },
            }
        }
        j += 1;
    }
    best
}

/// The room of candidate `c` in its shift, and the best place there, when
/// the candidate's places were evaluated and the place exists.
pub open spec fn return_place(shifts: Seq<TeamShiftResult>, c: ReturnCandidate, scores: Seq<Option<ShiftEfficiencies>>) -> Option<(int, int)> {
    if c.shift < shifts.len() && crate::layout::room_index(shifts[c.shift as int].assignment.rooms@, c.room_id.0@) is Some
        && exists|b: int| is_best_slot(scores, c.kind, b) {
        let ri = crate::layout::room_index(shifts[c.shift as int].assignment.rooms@, c.room_id.0@).unwrap();
        let b = choose|b: int| is_best_slot(scores, c.kind, b);
        if b < shifts[c.shift as int].assignment.rooms@[ri].operators@.len() {
            Some((ri, b))
        } else {
            None
        }
    } else {
        None
    }
}

/// The best place is unique.
proof fn lemma_best_slot_unique(scores: Seq<Option<ShiftEfficiencies>>, kind: FacilityKind, a: int, b: int)
    requires
        is_best_slot(scores, kind, a),
        is_best_slot(scores, kind, b),
    ensures
        a == b,
{
    assert(scores[a] is Some && scores[b] is Some);
}

/// Shift `new` is shift `old` after the candidate took place `slot` of room
/// `ri`: the room holds the candidate there and no stored efficiency, the
/// shift carries the efficiencies `e`, weighted by its length, and the
/// return; the rest is unchanged.
pub open spec fn returned_shift(
    old: TeamShiftResult,
    new: TeamShiftResult,
    c: ReturnCandidate,
    ri: int,
    slot: int,
    e: ShiftEfficiencies,
) -> bool {
    let rooms = old.assignment.rooms@;
    &&& new.index == old.index
    &&& new.duration_minutes == old.duration_minutes
    &&& new.active_teams@ == old.active_teams@
    &&& new.resting_team == old.resting_team
    &&& new.assignment.rooms@.len() == rooms.len()
    &&& forall|i: int| 0 <= i < rooms.len() && i != ri ==> #[trigger] new.assignment.rooms@[i] == rooms[i]
    &&& new.assignment.rooms@[ri].room_id == rooms[ri].room_id
    &&& new.assignment.rooms@[ri].operators@ == rooms[ri].operators@.update(slot, c.operator)
    &&& new.assignment.rooms@[ri].efficiency is None
    &&& new.efficiencies == e
    &&& new.weighted_trade.milli == scaled_for_minutes(e.trade_efficiency.milli as int, old.duration_minutes as int)
    &&& new.weighted_manufacture.milli == scaled_for_minutes(
        e.manufacture_efficiency.milli as int,
        old.duration_minutes as int,
    )
    &&& new.weighted_power.milli == scaled_for_minutes(e.power_efficiency.milli as int, old.duration_minutes as int)
    &&& new.fiammetta matches Some(a) && a.target@ == c.target@ && a.displaced@ == rooms[ri].operators@[slot].name@
        && a.room_id == c.room_id
}

/// Brings back the first candidate (in order) whose room's places were
/// evaluated: in the shift its team rests, it takes the place of its peak
/// room where the room's kind does best (`scores[c][slot]` is the shift's
/// evaluation with candidate `c` in place `slot`, `None` where it failed),
/// and the shift takes that evaluation. Returns the shifts and the candidate
/// brought back; the shifts are unchanged when none is.
pub fn apply_fiammetta_return(
    shifts: Vec<TeamShiftResult>,
    candidates: &Vec<ReturnCandidate>,
    scores: Vec<Vec<Option<ShiftEfficiencies>>>,
) -> (res: (Vec<TeamShiftResult>, Option<usize>))
    requires
        scores@.len() == candidates@.len(),
        forall|i: int| 0 <= i < shifts@.len() ==> (#[trigger] shifts@[i]).duration_minutes <= 1440,
    ensures
        res.1 is None ==> res.0@ == shifts@ && forall|c: int|
            0 <= c < candidates@.len() ==> return_place(shifts@, #[trigger] candidates@[c], scores@[c]@) is None,
        res.1 matches Some(c) ==> {
            let cand = candidates@[c as int];
            let s = cand.shift as int;
            &&& c < candidates@.len()
            &&& forall|d: int| 0 <= d < c ==> return_place(shifts@, #[trigger] candidates@[d], scores@[d]@) is None
            &&& return_place(shifts@, cand, scores@[c as int]@) matches Some((ri, slot))
            &&& res.0@.len() == shifts@.len()
            &&& forall|i: int| 0 <= i < shifts@.len() && i != s ==> #[trigger] res.0@[i] == shifts@[i]
            &&& returned_shift(shifts@[s], res.0@[s], cand, ri, slot, scores@[c as int]@[slot].unwrap())
        },
{
    let mut c: usize = 0;
    while c < candidates.len()
        invariant
            0 <= c <= candidates@.len(),
            scores@.len() == candidates@.len(),
            forall|i: int| 0 <= i < shifts@.len() ==> (#[trigger] shifts@[i]).duration_minutes <= 1440,
            forall|d: int| 0 <= d < c ==> return_place(shifts@, #[trigger] candidates@[d], scores@[d]@) is None,
        decreases candidates@.len() - c,
    {
        let cand = &candidates[c];
        if let Some(b) = best_return_slot(cand.kind, &scores[c]) {
            if cand.shift < shifts.len() {
                if let Some(ri) = shifts[cand.shift].assignment.room_position(cand.room_id.0.as_str()) {
                    if b < shifts[cand.shift].assignment.rooms[ri].operators.len() {
                        proof {
                            let bb = choose|bb: int| is_best_slot(scores@[c as int]@, cand.kind, bb);
                            lemma_best_slot_unique(scores@[c as int]@, cand.kind, bb, b as int);
                        }
                        let out = return_in_shift(shifts, cand, ri, b, scores, c);
                        return (out, Some(c));
                    }
                }
            }
            proof {
                let bb = choose|bb: int| is_best_slot(scores@[c as int]@, cand.kind, bb);
                lemma_best_slot_unique(scores@[c as int]@, cand.kind, bb, b as int);
            }
        } else {
            proof {
                if exists|bb: int| is_best_slot(scores@[c as int]@, cand.kind, bb) {
                    let bb = choose|bb: int| is_best_slot(scores@[c as int]@, cand.kind, bb);
                    assert(scores@[c as int]@[bb] is Some);
                }
            }
        }
        c += 1;
    }
    (shifts, None)
}

/// Puts the candidate into place `slot` of room `ri` of its shift, with the
/// evaluation `scores[c][slot]`.
fn return_in_shift(
    shifts: Vec<TeamShiftResult>,
    cand: &ReturnCandidate,
    ri: usize,
    slot: usize,
    scores: Vec<Vec<Option<ShiftEfficiencies>>>,
    c: usize,
) -> (res: Vec<TeamShiftResult>)
    requires
        cand.shift < shifts@.len(),
        ri < shifts@[cand.shift as int].assignment.rooms@.len(),
        slot < shifts@[cand.shift as int].assignment.rooms@[ri as int].operators@.len(),
        c < scores@.len(),
        slot < scores@[c as int]@.len(),
        scores@[c as int]@[slot as int] is Some,
        shifts@[cand.shift as int].duration_minutes <= 1440,
    ensures
        res@.len() == shifts@.len(),
        forall|i: int| 0 <= i < shifts@.len() && i != cand.shift ==> #[trigger] res@[i] == shifts@[i],
        returned_shift(
            shifts@[cand.shift as int],
            res@[cand.shift as int],
            *cand,
            ri as int,
            slot as int,
            scores@[c as int]@[slot as int].unwrap(),
        ),
{
    let ghost old_shifts = shifts@;
    let mut shifts = shifts;
    let mut scores = scores;
    let mut row = scores.remove(c);
    let e = match row.remove(slot) {
        Some(e) => e,
        None => {
            return shifts;
        },
    };
    let s = cand.shift;
    let sh = shifts.remove(s);
    let ghost old_sh = sh;
    let mut rooms = sh.assignment.rooms;
    let mut ops = clone_operators(&rooms[ri].operators);
    let displaced = ops[slot].name.clone();
    ops.set(slot, cand.operator.clone());
    let room = RoomAssignment { room_id: rooms[ri].room_id.clone(), operators: ops, efficiency: None };
    rooms.set(ri, room);
    let minutes = sh.duration_minutes;
    let weighted_trade = e.weighted_trade(minutes);
    let weighted_manufacture = e.weighted_manufacture(minutes);
    let weighted_power = e.weighted_power(minutes);
    let new_sh = TeamShiftResult {
        index: sh.index,
        duration_minutes: minutes,
        active_teams: sh.active_teams,
        resting_team: sh.resting_team,
        assignment: BaseAssignment { rooms },
        fiammetta: Some(
            FiammettaShiftAction { target: cand.target.clone(), displaced, room_id: cand.room_id.clone() },
        ),
        efficiencies: e,
        weighted_trade,
        weighted_manufacture,
        weighted_power,
    };
    shifts.insert(s, new_sh);
    shifts
}

/// A copy of an assignment.
fn copy_assignment(a: &BaseAssignment) -> (res: BaseAssignment)
    ensures
        views_of(res.rooms@) == views_of(a.rooms@),
{
    let mut rooms: Vec<RoomAssignment> = Vec::new();
    let mut i: usize = 0;
    while i < a.rooms.len()
        invariant
            0 <= i <= a.rooms@.len(),
            views_of(rooms@) == views_of(a.rooms@.take(i as int)),
        decreases a.rooms@.len() - i,
    {
        let c = a.rooms[i].clone();
        let ghost before = rooms@;
        rooms.push(c);
        assert(room_view(c) == room_view(a.rooms@[i as int]));
        assert(views_of(rooms@) =~= views_of(before).push(room_view(c)));
        assert(views_of(a.rooms@.take(i + 1)) =~= views_of(a.rooms@.take(i as int)).push(room_view(a.rooms@[i as int])));
        i += 1;
    }
    assert(a.rooms@.take(a.rooms@.len() as int) == a.rooms@);
    BaseAssignment { rooms }
}

/// The two half-assignments that staff shift `i` besides the shared rooms,
/// in the order they are laid over them: alpha's half and beta's half in the
/// first shift, beta's half and gamma's first-half stand-ins in the second,
/// gamma's second-half stand-ins and alpha's half in the third.
pub open spec fn shift_parts(
    i: int,
    alpha: BaseAssignment,
    beta: BaseAssignment,
    gamma_h1: BaseAssignment,
    gamma_h2: BaseAssignment,
) -> (BaseAssignment, BaseAssignment) {
    if i == 0 {
        (alpha, beta)
    } else if i == 1 {
        (beta, gamma_h1)
    } else {
        (gamma_h2, alpha)
    }
}

/// The base assignment of shift `i`: the shared rooms, with the staffed
/// rooms of the shift's two half-assignments laid over them in turn (a room
/// of a later one replaces the room of the same id).
pub fn shift_base_assignment(
    i: usize,
    shared: &BaseAssignment,
    alpha: &BaseAssignment,
    beta: &BaseAssignment,
    gamma_h1: &BaseAssignment,
    gamma_h2: &BaseAssignment,
) -> (res: BaseAssignment)
    requires
        i < 3,
    ensures
        ({
            let (first, second) = shift_parts(i as int, *alpha, *beta, *gamma_h1, *gamma_h2);
            views_of(res.rooms@) == merged_views(
                merged_views(views_of(shared.rooms@), first.rooms@),
                second.rooms@,
            )
        }),
{
    let mut out = copy_assignment(shared);
    let (first, second) = if i == 0 {
        (alpha, beta)
    } else if i == 1 {
        (beta, gamma_h1)
    } else {
        (gamma_h2, alpha)
    };
    merge_rooms(&mut out, first);
    merge_rooms(&mut out, second);
    out
}

} // verus!
