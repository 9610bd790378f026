//! Shift binds: groups of operators that go on and off shift together in the
//! three-team rotation (on N shifts, off M).

use vstd::prelude::*;

use crate::layout::{AssignedOperator, AssignmentPlan, BaseAssignment, RoomAssignment, RoomId};
use crate::schedule::team_rotation::{has_room, ids_contain, in_half, FacilityHalf, TeamAssignment, TeamLabel};
use crate::text::{clone_strings, has_name, push_unique, str_eq};

verus! {

/// A group that must share a team and its rest shift.
#[derive(Debug)]
pub struct RuntimeShiftBind {
    pub operators: Vec<String>,
    /// Shifts on duty per rotation cycle (12h + 6h + 6h, currently 2).
    pub on_shifts: u8,
    pub off_shifts: u8,
}

impl Clone for RuntimeShiftBind {
    fn clone(&self) -> (res: Self)
        ensures
            res.operators@ == self.operators@,
            res.on_shifts == self.on_shifts,
            res.off_shifts == self.off_shifts,
    {
        RuntimeShiftBind {
            operators: clone_strings(&self.operators),
            on_shifts: self.on_shifts,
            off_shifts: self.off_shifts,
        }
    }
}

/// The runtime binds of a plan, one per declared bind, in order.
pub fn shift_binds_from_plan(plan: &AssignmentPlan) -> (res: Vec<RuntimeShiftBind>)
    ensures
        res@.len() == plan.shift_binds@.len(),
        forall|k: int|
            0 <= k < res@.len() ==> {
                &&& (#[trigger] res@[k]).operators@ == plan.shift_binds@[k].operators@
                &&& res@[k].on_shifts == plan.shift_binds@[k].on_shifts
                &&& res@[k].off_shifts == plan.shift_binds@[k].off_shifts
            },
{
    let mut out: Vec<RuntimeShiftBind> = Vec::new();
    let mut i: usize = 0;
    while i < plan.shift_binds.len()
        invariant
            0 <= i <= plan.shift_binds@.len(),
            out@.len() == i,
            forall|k: int|
                0 <= k < i ==> {
                    &&& (#[trigger] out@[k]).operators@ == plan.shift_binds@[k].operators@
                    &&& out@[k].on_shifts == plan.shift_binds@[k].on_shifts
                    &&& out@[k].off_shifts == plan.shift_binds@[k].off_shifts
                },
        decreases plan.shift_binds@.len() - i,
    {
        let b = &plan.shift_binds[i];
        out.push(
            RuntimeShiftBind {
                operators: clone_strings(&b.operators),
                on_shifts: b.on_shifts,
                off_shifts: b.off_shifts,
            },
        );
        i += 1;
    }
    out
}

/// Some operator of `ops` is named `name`.
pub open spec fn has_operator(ops: Seq<AssignedOperator>, name: Seq<char>) -> bool {
    exists|k: int| 0 <= k < ops.len() && #[trigger] ops[k].name@ == name
}

/// The first room holding `name`.
pub open spec fn operator_room(rooms: Seq<RoomAssignment>, name: Seq<char>) -> Option<RoomId>
    decreases rooms.len(),
{
    if rooms.len() == 0 {
        None
    } else if has_operator(rooms[0].operators@, name) {
        Some(rooms[0].room_id)
    } else {
        operator_room(rooms.drop_first(), name)
    }
}

/// Whether some operator of `ops` is named `name`.
pub fn ops_contain(ops: &Vec<AssignedOperator>, name: &str) -> (res: bool)
    ensures
        res == has_operator(ops@, name@),
{
    let mut k: usize = 0;
    while k < ops.len()
        invariant
            0 <= k <= ops@.len(),
            forall|j: int| 0 <= j < k ==> #[trigger] ops@[j].name@ != name@,
        decreases ops@.len() - k,
    {
        if str_eq(ops[k].name.as_str(), name) {
            return true;
        }
        k += 1;
    }
    false
}

/// The room that holds `name`, when any does.
pub fn room_for_operator(assignment: &BaseAssignment, name: &str) -> (res: Option<RoomId>)
    ensures
        res == operator_room(assignment.rooms@, name@),
{
    let mut i: usize = 0;
    assert(assignment.rooms@.skip(0) == assignment.rooms@);
    while i < assignment.rooms.len()
        invariant
            0 <= i <= assignment.rooms@.len(),
            operator_room(assignment.rooms@, name@) == operator_room(assignment.rooms@.skip(i as int), name@),
        decreases assignment.rooms@.len() - i,
    {
        let room = &assignment.rooms[i];
        assert(assignment.rooms@.skip(i as int)[0] == *room);
        assert(assignment.rooms@.skip(i as int).drop_first() == assignment.rooms@.skip(i + 1));
        if ops_contain(&room.operators, name) {
            return Some(room.room_id.clone());
        }
        i += 1;
    }
    None
}

/// Whether the half holds the room (as a trade post, factory or power plant).
pub fn half_contains_room(half: &FacilityHalf, room: &RoomId) -> (res: bool)
    ensures
        res == in_half(*half, room.0@),
{
    crate::schedule::team_rotation::ids_contain(&half.trade, room) || crate::schedule::team_rotation::ids_contain(
        &half.manu,
        room,
    ) || crate::schedule::team_rotation::ids_contain(&half.power, room)
}

/// The shift a team rests in: 0 is the 12-hour shift, 1 and 2 the 6-hour
/// ones; gamma rests first, then alpha, then beta.
pub open spec fn spec_resting_shift(team: TeamLabel) -> usize {
    match team {
        TeamLabel::Gamma => 0,
        TeamLabel::Alpha => 1,
        TeamLabel::Beta => 2,
    }
}

/// Index of the shift `team` rests in.
pub fn resting_shift_index(team: TeamLabel) -> (res: usize)
    ensures
        res == spec_resting_shift(team),
{
    match team {
        TeamLabel::Gamma => 0,
        TeamLabel::Alpha => 1,
        TeamLabel::Beta => 2,
    }
}

/// The team whose roster lists `name` first.
pub open spec fn team_of(teams: Seq<TeamAssignment>, name: Seq<char>) -> Option<TeamLabel>
    decreases teams.len(),
{
    if teams.len() == 0 {
        None
    } else if has_name(teams[0].operators@, name) {
        Some(teams[0].label)
    } else {
        team_of(teams.drop_first(), name)
    }
}

/// The team of `name`.
pub fn team_of_operator(teams: &Vec<TeamAssignment>, name: &str) -> (res: Option<TeamLabel>)
    ensures
        res == team_of(teams@, name@),
{
    let mut i: usize = 0;
    assert(teams@.skip(0) == teams@);
    while i < teams.len()
        invariant
            0 <= i <= teams@.len(),
            team_of(teams@, name@) == team_of(teams@.skip(i as int), name@),
        decreases teams@.len() - i,
    {
        let t = &teams[i];
        assert(teams@.skip(i as int)[0] == *t);
        assert(teams@.skip(i as int).drop_first() == teams@.skip(i + 1));
        if crate::text::contains_name(&t.operators, name) {
            return Some(t.label);
        }
        i += 1;
    }
    None
}

/// Whether `name` works in the assignment of a shift.
pub fn operator_in_shift(shift: &BaseAssignment, name: &str) -> (res: bool)
    ensures
        res == crate::layout::assigned_anywhere(shift.rooms@, name@),
{
    let mut r: usize = 0;
    while r < shift.rooms.len()
        invariant
            0 <= r <= shift.rooms@.len(),
            forall|x: int, y: int|
                0 <= x < r && 0 <= y < shift.rooms@[x].operators@.len() ==> #[trigger] shift.rooms@[x].operators@[y].name@
                    != name@,
        decreases shift.rooms@.len() - r,
    {
        if ops_contain(&shift.rooms[r].operators, name) {
            return true;
        }
        r += 1;
    }
    false
}

/// Every member of the bind works somewhere in the peak shift.
pub open spec fn bind_in_peak(bind: RuntimeShiftBind, peak: Seq<RoomAssignment>) -> bool {
    forall|k: int| 0 <= k < bind.operators@.len() ==> operator_room(peak, #[trigger] bind.operators@[k]@) is Some
}

/// Members of the binds all of whose members work in the peak shift, once
/// each.
pub fn bound_operator_names(binds: &Vec<RuntimeShiftBind>, peak: &BaseAssignment) -> (res: Vec<String>)
    ensures
        forall|a: int, b: int| 0 <= a < b < res@.len() ==> #[trigger] res@[a]@ != #[trigger] res@[b]@,
        forall|n: Seq<char>|
            has_name(res@, n) <==> exists|b: int|
                0 <= b < binds@.len() && bind_in_peak(#[trigger] binds@[b], peak.rooms@) && has_name(
                    binds@[b].operators@,
                    n,
                ),
{
    let mut names: Vec<String> = Vec::new();
    let mut b: usize = 0;
    while b < binds.len()
        invariant
            0 <= b <= binds@.len(),
            forall|x: int, y: int| 0 <= x < y < names@.len() ==> #[trigger] names@[x]@ != #[trigger] names@[y]@,
            forall|n: Seq<char>|
                has_name(names@, n) <==> exists|c: int|
                    0 <= c < b && bind_in_peak(#[trigger] binds@[c], peak.rooms@) && has_name(
                        binds@[c].operators@,
                        n,
                    ),
        decreases binds@.len() - b,
    {
        let bind = &binds[b];
        let mut all_in = true;
        let mut k: usize = 0;
        while k < bind.operators.len()
            invariant
                0 <= k <= bind.operators@.len(),
                all_in == forall|j: int| 0 <= j < k ==> operator_room(peak.rooms@, #[trigger] bind.operators@[j]@) is Some,
            decreases bind.operators@.len() - k,
        {
            if room_for_operator(peak, bind.operators[k].as_str()).is_none() {
                all_in = false;
            }
            k += 1;
        }
        if all_in {
            let mut k: usize = 0;
            while k < bind.operators.len()
                invariant
                    0 <= k <= bind.operators@.len(),
                    *bind == binds@[b as int],
                    bind_in_peak(*bind, peak.rooms@),
                    forall|x: int, y: int| 0 <= x < y < names@.len() ==> #[trigger] names@[x]@ != #[trigger] names@[y]@,
                    forall|n: Seq<char>|
                        has_name(names@, n) <==> (exists|c: int|
                            0 <= c < b && bind_in_peak(#[trigger] binds@[c], peak.rooms@) && has_name(
                                binds@[c].operators@,
                                n,
                            )) || exists|j: int| 0 <= j < k && #[trigger] bind.operators@[j]@ == n,
                decreases bind.operators@.len() - k,
            {
                let ghost before = names@;
                push_unique(&mut names, bind.operators[k].clone());
                proof {
                    let x = bind.operators@[k as int];
                    assert forall|p: int, q: int| 0 <= p < q < names@.len() implies #[trigger] names@[p]@
                        != #[trigger] names@[q]@ by {
                        if names@.len() > before.len() && q == before.len() {
                            if before[p]@ == x@ {
                                assert(has_name(before, x@));
                            }
                        } else if names@.len() > before.len() {
                            assert(names@[p] == before[p] && names@[q] == before[q]);
                        }
                    }
                    assert forall|n: Seq<char>| has_name(names@, n) <==> (exists|c: int|
                        0 <= c < b && bind_in_peak(#[trigger] binds@[c], peak.rooms@) && has_name(
                            binds@[c].operators@,
                            n,
                        )) || exists|j: int| 0 <= j < k + 1 && #[trigger] bind.operators@[j]@ == n by {
                        if has_name(names@, n) && !has_name(before, n) {
                            let t = choose|t: int| 0 <= t < names@.len() && #[trigger] names@[t]@ == n;
                            if t < before.len() {
                                assert(names@[t] == before[t]);
                            }
                        }
                        if has_name(before, n) {
                            let t = choose|t: int| 0 <= t < before.len() && #[trigger] before[t]@ == n;
                            assert(names@[t] == before[t]);
                        }
                        if n == x@ && !has_name(before, n) {
                            assert(names@[before.len() as int]@ == n);
                        }
                    }
                }
                k += 1;
            }
            proof {
                assert forall|n: Seq<char>| has_name(names@, n) <==> exists|c: int|
                    0 <= c < b + 1 && bind_in_peak(#[trigger] binds@[c], peak.rooms@) && has_name(
                        binds@[c].operators@,
                        n,
                    ) by {
                    if has_name(binds@[b as int].operators@, n) {
                        let j = choose|j: int| 0 <= j < bind.operators@.len() && #[trigger] bind.operators@[j]@ == n;
                        assert(bind.operators@[j]@ == n);
                    }
                    if exists|j: int| 0 <= j < bind.operators@.len() && #[trigger] bind.operators@[j]@ == n {
                        let j = choose|j: int| 0 <= j < bind.operators@.len() && #[trigger] bind.operators@[j]@ == n;
                        assert(has_name(binds@[b as int].operators@, n));
                    }
                }
            }
        } else {
            proof {
                assert(!bind_in_peak(binds@[b as int], peak.rooms@));
                assert forall|n: Seq<char>| has_name(names@, n) <==> exists|c: int|
                    0 <= c < b + 1 && bind_in_peak(#[trigger] binds@[c], peak.rooms@) && has_name(
                        binds@[c].operators@,
                        n,
                    ) by {
                    if exists|c: int|
                        0 <= c < b + 1 && bind_in_peak(#[trigger] binds@[c], peak.rooms@) && has_name(
                            binds@[c].operators@,
                            n,
                        ) {
                        let c = choose|c: int|
                            0 <= c < b + 1 && bind_in_peak(#[trigger] binds@[c], peak.rooms@) && has_name(
                                binds@[c].operators@,
                                n,
                            );
                        assert(c != b);
                    }
                }
            }
        }
        b += 1;
    }
    names
}

/// The three room lists of a half, as values.
pub type HalfView = (Seq<RoomId>, Seq<RoomId>, Seq<RoomId>);

/// The lists of a half.
pub open spec fn half_view(h: FacilityHalf) -> HalfView {
    (h.trade@, h.manu@, h.power@)
}

/// The room `id` is in one of the three lists.
pub open spec fn view_has(h: HalfView, id: Seq<char>) -> bool {
    has_room(h.0, id) || has_room(h.1, id) || has_room(h.2, id)
}

/// Index of the first room with id `id`.
pub open spec fn first_pos(v: Seq<RoomId>, id: Seq<char>) -> int
    decreases v.len(),
{
    if v.len() == 0 {
        0
    } else if v[0].0@ == id {
        0
    } else {
        1 + first_pos(v.drop_first(), id)
    }
}

/// Index of the first room whose id is not `id`, or 0 when there is none.
pub open spec fn first_other(v: Seq<RoomId>, id: Seq<char>) -> int
    decreases v.len(),
{
    if v.len() == 0 {
        0
    } else if v[0].0@ != id {
        0
    } else if first_other_exists(v.drop_first(), id) {
        1 + first_other(v.drop_first(), id)
    } else {
        0
    }
}

/// Some room has an id other than `id`.
pub open spec fn first_other_exists(v: Seq<RoomId>, id: Seq<char>) -> bool {
    exists|k: int| 0 <= k < v.len() && #[trigger] v[k].0@ != id
}

/// The room of `target` given up in exchange: the first that is not the
/// anchor's.
pub open spec fn exchange_index(target: Seq<RoomId>, anchor: Seq<char>) -> int {
    first_other(target, anchor)
}

/// The two lists after moving the wanderer's room from `source` to `target`
/// and the exchanged room of `target` to `source`, each appended at the end.
pub open spec fn exchanged(
    target: Seq<RoomId>,
    source: Seq<RoomId>,
    anchor: Seq<char>,
    wanderer: Seq<char>,
) -> (Seq<RoomId>, Seq<RoomId>) {
    let wi = first_pos(source, wanderer);
    let ti = exchange_index(target, anchor);
    (target.remove(ti).push(source[wi]), source.remove(wi).push(target[ti]))
}

/// The exchange applies: the wanderer's room is in `source` and the anchor's
/// room in `target`. When `target` holds no other room of the kind, the
/// anchor's own room is the one given up.
pub open spec fn exchange_applies(target: Seq<RoomId>, source: Seq<RoomId>, anchor: Seq<char>, wanderer: Seq<char>) -> bool {
    has_room(source, wanderer) && has_room(target, anchor)
}

/// The first room other than `id` is one, at a valid index.
pub proof fn lemma_first_other(v: Seq<RoomId>, id: Seq<char>)
    requires
        first_other_exists(v, id),
    ensures
        0 <= first_other(v, id) < v.len(),
        v[first_other(v, id)].0@ != id,
    decreases v.len(),
{
    if v[0].0@ == id {
        let k = choose|k: int| 0 <= k < v.len() && #[trigger] v[k].0@ != id;
        assert(v.drop_first()[k - 1] == v[k]);
        assert(first_other_exists(v.drop_first(), id));
        lemma_first_other(v.drop_first(), id);
    }
}

/// The exchanged index is a valid index of a list that is not empty.
proof fn lemma_first_other_in_range(v: Seq<RoomId>, id: Seq<char>)
    requires
        v.len() > 0,
    ensures
        0 <= first_other(v, id) < v.len(),
{
    if first_other_exists(v, id) {
        lemma_first_other(v, id);
    }
}

/// The first room with id `id` is one, at a valid index.
proof fn lemma_first_pos(v: Seq<RoomId>, id: Seq<char>)
    requires
        has_room(v, id),
    ensures
        0 <= first_pos(v, id) < v.len(),
        v[first_pos(v, id)].0@ == id,
    decreases v.len(),
{
    if v[0].0@ != id {
        let k = choose|k: int| 0 <= k < v.len() && #[trigger] v[k].0@ == id;
        assert(v.drop_first()[k - 1] == v[k]);
        lemma_first_pos(v.drop_first(), id);
    }
}

/// An applying exchange puts the wanderer's room into the anchor's list,
/// keeps both lists' lengths, and only moves rooms between the two lists;
/// the anchor's room stays when its list holds another room of the kind.
pub proof fn lemma_exchange(target: Seq<RoomId>, source: Seq<RoomId>, anchor: Seq<char>, wanderer: Seq<char>)
    requires
        exchange_applies(target, source, anchor, wanderer),
    ensures
        has_room(exchanged(target, source, anchor, wanderer).0, wanderer),
        first_other_exists(target, anchor) ==> has_room(exchanged(target, source, anchor, wanderer).0, anchor),
        exchanged(target, source, anchor, wanderer).0.len() == target.len(),
        exchanged(target, source, anchor, wanderer).1.len() == source.len(),
        exchanged(target, source, anchor, wanderer).0.to_multiset().add(
            exchanged(target, source, anchor, wanderer).1.to_multiset(),
        ) == target.to_multiset().add(source.to_multiset()),
{
    broadcast use vstd::seq_lib::group_to_multiset_ensures;
    broadcast use vstd::multiset::group_multiset_axioms;

    lemma_first_other_in_range(target, anchor);
    lemma_first_pos(source, wanderer);
    let wi = first_pos(source, wanderer);
    let ti = first_other(target, anchor);
    let (t, s) = exchanged(target, source, anchor, wanderer);
    assert(t[t.len() - 1] == source[wi]);
    if first_other_exists(target, anchor) {
        lemma_first_other(target, anchor);
        let ai = choose|k: int| 0 <= k < target.len() && #[trigger] target[k].0@ == anchor;
        if ai < ti {
            assert(t[ai] == target[ai]);
        } else {
            assert(ai != ti);
            assert(t[ai - 1] == target[ai]);
        }
    }
    assert(t.to_multiset() =~= target.to_multiset().remove(target[ti]).insert(source[wi]));
    assert(s.to_multiset() =~= source.to_multiset().remove(source[wi]).insert(target[ti]));
    assert(t.to_multiset().add(s.to_multiset()) =~= target.to_multiset().add(source.to_multiset()));
}

/// Target and source halves after moving the wanderer's room into the
/// anchor's half, in the first of trade, factory, power lists where both
/// rooms are found; unchanged when none.
pub open spec fn swap_views(target: HalfView, source: HalfView, anchor: Seq<char>, wanderer: Seq<char>) -> (
    HalfView,
    HalfView,
) {
    if exchange_applies(target.0, source.0, anchor, wanderer) {
        let (t, s) = exchanged(target.0, source.0, anchor, wanderer);
        ((t, target.1, target.2), (s, source.1, source.2))
    } else if exchange_applies(target.1, source.1, anchor, wanderer) {
        let (t, s) = exchanged(target.1, source.1, anchor, wanderer);
        ((target.0, t, target.2), (source.0, s, source.2))
    } else if exchange_applies(target.2, source.2, anchor, wanderer) {
        let (t, s) = exchanged(target.2, source.2, anchor, wanderer);
        ((target.0, target.1, t), (source.0, source.1, s))
    } else {
        (target, source)
    }
}

/// Whether some exchange applies.
pub open spec fn swap_applies(target: HalfView, source: HalfView, anchor: Seq<char>, wanderer: Seq<char>) -> bool {
    exchange_applies(target.0, source.0, anchor, wanderer) || exchange_applies(target.1, source.1, anchor, wanderer)
        || exchange_applies(target.2, source.2, anchor, wanderer)
}

/// First index of `room` in the list, when there.
fn position_of(v: &Vec<RoomId>, room: &RoomId) -> (res: Option<usize>)
    ensures
        match res {
            Some(i) => has_room(v@, room.0@) && i == first_pos(v@, room.0@) && i < v@.len(),
            None => !has_room(v@, room.0@),
        },
{
    let mut i: usize = 0;
    assert(v@.skip(0) == v@);
    while i < v.len()
        invariant
            0 <= i <= v@.len(),
            forall|k: int| 0 <= k < i ==> #[trigger] v@[k].0@ != room.0@,
            first_pos(v@, room.0@) == i + first_pos(v@.skip(i as int), room.0@),
        decreases v@.len() - i,
    {
        assert(v@.skip(i as int)[0] == v@[i as int]);
        assert(v@.skip(i as int).drop_first() == v@.skip(i + 1));
        if v[i].same(room) {
            return Some(i);
        }
        i += 1;
    }
    None
}

/// First index of a room other than `room`, or 0.
fn position_of_other(v: &Vec<RoomId>, room: &RoomId) -> (res: usize)
    ensures
        res == first_other(v@, room.0@),
        v@.len() > 0 ==> res < v@.len(),
{
    let mut i: usize = 0;
    assert(v@.skip(0) == v@);
    while i < v.len()
        invariant
            0 <= i <= v@.len(),
            forall|k: int| 0 <= k < i ==> #[trigger] v@[k].0@ == room.0@,
            first_other_exists(v@, room.0@) ==> first_other(v@, room.0@) == i + first_other(
                v@.skip(i as int),
                room.0@,
            ),
            !first_other_exists(v@, room.0@) ==> first_other(v@, room.0@) == 0,
        decreases v@.len() - i,
    {
        let ghost sk = v@.skip(i as int);
        assert(sk[0] == v@[i as int]);
        assert(sk.drop_first() == v@.skip(i + 1));
        if !v[i].same(room) {
            return i;
        }
        proof {
            if first_other_exists(v@, room.0@) {
                let k = choose|k: int| 0 <= k < v@.len() && #[trigger] v@[k].0@ != room.0@;
                assert(sk.drop_first()[k - i - 1] == v@[k]);
                assert(first_other_exists(sk.drop_first(), room.0@));
            }
        }
        i += 1;
    }
    proof {
        if first_other_exists(v@, room.0@) {
            let k = choose|k: int| 0 <= k < v@.len() && #[trigger] v@[k].0@ != room.0@;
        }
    }
    0
}

/// Exchanges the wanderer's room of `source` with a room of `target`.
fn exchange_rooms(target: &mut Vec<RoomId>, source: &mut Vec<RoomId>, anchor: &RoomId, wanderer: &RoomId)
    requires
        exchange_applies(old(target)@, old(source)@, anchor.0@, wanderer.0@),
    ensures
        (final(target)@, final(source)@) == exchanged(old(target)@, old(source)@, anchor.0@, wanderer.0@),
{
    let wi = match position_of(source, wanderer) {
        Some(i) => i,
        None => 0,
    };
    proof {
        lemma_first_other_in_range(target@, anchor.0@);
        lemma_first_pos(source@, wanderer.0@);
    }
    let ti = position_of_other(target, anchor);
    let w = source.remove(wi);
    let t = target.remove(ti);
    target.push(w);
    source.push(t);
}

/// Moves the wanderer's room into the anchor's half (the first half when
/// `anchor_in_h1`), exchanging it for the first room of the same kind there
/// that is not the anchor's, or for the anchor's own room when there is no
/// other. Returns whether an exchange was made.
pub fn swap_room_across_halves(
    h1: &mut FacilityHalf,
    h2: &mut FacilityHalf,
    anchor_in_h1: bool,
    anchor: &RoomId,
    wanderer: &RoomId,
) -> (res: bool)
    ensures
        anchor_in_h1 ==> (half_view(*final(h1)), half_view(*final(h2))) == swap_views(
            half_view(*old(h1)),
            half_view(*old(h2)),
            anchor.0@,
            wanderer.0@,
        ),
        !anchor_in_h1 ==> (half_view(*final(h2)), half_view(*final(h1))) == swap_views(
            half_view(*old(h2)),
            half_view(*old(h1)),
            anchor.0@,
            wanderer.0@,
        ),
        anchor_in_h1 ==> res == swap_applies(half_view(*old(h1)), half_view(*old(h2)), anchor.0@, wanderer.0@),
        !anchor_in_h1 ==> res == swap_applies(half_view(*old(h2)), half_view(*old(h1)), anchor.0@, wanderer.0@),
{
    if anchor_in_h1 {
        swap_into(h1, h2, anchor, wanderer)
    } else {
        swap_into(h2, h1, anchor, wanderer)
    }
}

/// Moves the wanderer's room from `source` into `target`.
fn swap_into(target: &mut FacilityHalf, source: &mut FacilityHalf, anchor: &RoomId, wanderer: &RoomId) -> (res: bool)
    ensures
        (half_view(*final(target)), half_view(*final(source))) == swap_views(
            half_view(*old(target)),
            half_view(*old(source)),
            anchor.0@,
            wanderer.0@,
        ),
        res == swap_applies(half_view(*old(target)), half_view(*old(source)), anchor.0@, wanderer.0@),
{
    if ids_contain(&source.trade, wanderer) && ids_contain(&target.trade, anchor) {
        exchange_rooms(&mut target.trade, &mut source.trade, anchor, wanderer);
        return true;
    }
    if ids_contain(&source.manu, wanderer) && ids_contain(&target.manu, anchor) {
        exchange_rooms(&mut target.manu, &mut source.manu, anchor, wanderer);
        return true;
    }
    if ids_contain(&source.power, wanderer) && ids_contain(&target.power, anchor) {
        exchange_rooms(&mut target.power, &mut source.power, anchor, wanderer);
        return true;
    }
    false
}

/// The peak rooms of the members found in the peak shift, in member order.
pub open spec fn bind_rooms(peak: Seq<RoomAssignment>, ops: Seq<String>) -> Seq<RoomId>
    decreases ops.len(),
{
    if ops.len() == 0 {
        Seq::empty()
    } else {
        let prev = bind_rooms(peak, ops.drop_last());
        match operator_room(peak, ops.last()@) {
            Some(r) => prev.push(r),
            None => prev,
        }
    }
}

/// The halves after moving each wanderer room that lies in the other half
/// than the anchor into the anchor's half.
pub open spec fn align_wanderers(
    h1: HalfView,
    h2: HalfView,
    anchor_in_h1: bool,
    anchor: Seq<char>,
    ws: Seq<RoomId>,
) -> (HalfView, HalfView)
    decreases ws.len(),
{
    if ws.len() == 0 {
        (h1, h2)
    } else {
        let w = ws[0].0@;
        let next = if view_has(h1, w) == anchor_in_h1 {
            (h1, h2)
        } else if anchor_in_h1 {
            swap_views(h1, h2, anchor, w)
        } else {
            let (t, s) = swap_views(h2, h1, anchor, w);
            (s, t)
        };
        align_wanderers(next.0, next.1, anchor_in_h1, anchor, ws.drop_first())
    }
}

/// The halves after aligning each bind of two or more members, all found in
/// the peak shift, on the half of its first member's room.
pub open spec fn align_binds(
    h1: HalfView,
    h2: HalfView,
    binds: Seq<RuntimeShiftBind>,
    peak: Seq<RoomAssignment>,
) -> (HalfView, HalfView)
    decreases binds.len(),
{
    if binds.len() == 0 {
        (h1, h2)
    } else {
        let ops = binds[0].operators@;
        let rooms = bind_rooms(peak, ops);
        let next = if ops.len() < 2 || rooms.len() < ops.len() {
            (h1, h2)
        } else {
            align_wanderers(h1, h2, view_has(h1, rooms[0].0@), rooms[0].0@, rooms.drop_first())
        };
        align_binds(next.0, next.1, binds.drop_first(), peak)
    }
}

/// One kind's two lists hold the same rooms before and after, each list
/// keeping its length.
pub open spec fn kind_kept(x1: Seq<RoomId>, x2: Seq<RoomId>, y1: Seq<RoomId>, y2: Seq<RoomId>) -> bool {
    &&& x1.len() == y1.len()
    &&& x2.len() == y2.len()
    &&& x1.to_multiset().add(x2.to_multiset()) == y1.to_multiset().add(y2.to_multiset())
}

/// Rooms only changed halves within their kind: per kind, the halves keep
/// their lengths and together hold the same rooms.
pub open spec fn rooms_kept(a: (HalfView, HalfView), b: (HalfView, HalfView)) -> bool {
    &&& kind_kept(a.0.0, a.1.0, b.0.0, b.1.0)
    &&& kind_kept(a.0.1, a.1.1, b.0.1, b.1.1)
    &&& kind_kept(a.0.2, a.1.2, b.0.2, b.1.2)
}

proof fn lemma_rooms_kept_flip(a: (HalfView, HalfView), b: (HalfView, HalfView))
    requires
        rooms_kept(a, b),
    ensures
        rooms_kept((a.1, a.0), (b.1, b.0)),
{
    broadcast use vstd::multiset::group_multiset_axioms;

    assert(a.1.0.to_multiset().add(a.0.0.to_multiset()) =~= a.0.0.to_multiset().add(a.1.0.to_multiset()));
    assert(b.1.0.to_multiset().add(b.0.0.to_multiset()) =~= b.0.0.to_multiset().add(b.1.0.to_multiset()));
    assert(a.1.1.to_multiset().add(a.0.1.to_multiset()) =~= a.0.1.to_multiset().add(a.1.1.to_multiset()));
    assert(b.1.1.to_multiset().add(b.0.1.to_multiset()) =~= b.0.1.to_multiset().add(b.1.1.to_multiset()));
    assert(a.1.2.to_multiset().add(a.0.2.to_multiset()) =~= a.0.2.to_multiset().add(a.1.2.to_multiset()));
    assert(b.1.2.to_multiset().add(b.0.2.to_multiset()) =~= b.0.2.to_multiset().add(b.1.2.to_multiset()));
}

proof fn lemma_swap_views_kept(target: HalfView, source: HalfView, anchor: Seq<char>, wanderer: Seq<char>)
    ensures
        rooms_kept((target, source), swap_views(target, source, anchor, wanderer)),
{
    if exchange_applies(target.0, source.0, anchor, wanderer) {
        lemma_exchange(target.0, source.0, anchor, wanderer);
    } else if exchange_applies(target.1, source.1, anchor, wanderer) {
        lemma_exchange(target.1, source.1, anchor, wanderer);
    } else if exchange_applies(target.2, source.2, anchor, wanderer) {
        lemma_exchange(target.2, source.2, anchor, wanderer);
    }
}

proof fn lemma_align_wanderers_kept(h1: HalfView, h2: HalfView, anchor_in_h1: bool, anchor: Seq<char>, ws: Seq<RoomId>)
    ensures
        rooms_kept((h1, h2), align_wanderers(h1, h2, anchor_in_h1, anchor, ws)),
    decreases ws.len(),
{
    if ws.len() > 0 {
        let w = ws[0].0@;
        let next = if view_has(h1, w) == anchor_in_h1 {
            (h1, h2)
        } else if anchor_in_h1 {
            swap_views(h1, h2, anchor, w)
        } else {
            let (t, s) = swap_views(h2, h1, anchor, w);
            (s, t)
        };
        if view_has(h1, w) != anchor_in_h1 {
            if anchor_in_h1 {
                lemma_swap_views_kept(h1, h2, anchor, w);
            } else {
                lemma_swap_views_kept(h2, h1, anchor, w);
                lemma_rooms_kept_flip((h2, h1), swap_views(h2, h1, anchor, w));
            }
        }
        lemma_align_wanderers_kept(next.0, next.1, anchor_in_h1, anchor, ws.drop_first());
    }
}

proof fn lemma_align_binds_kept(h1: HalfView, h2: HalfView, binds: Seq<RuntimeShiftBind>, peak: Seq<RoomAssignment>)
    ensures
        rooms_kept((h1, h2), align_binds(h1, h2, binds, peak)),
    decreases binds.len(),
{
    if binds.len() > 0 {
        let ops = binds[0].operators@;
        let rooms = bind_rooms(peak, ops);
        let next = if ops.len() < 2 || rooms.len() < ops.len() {
            (h1, h2)
        } else {
            align_wanderers(h1, h2, view_has(h1, rooms[0].0@), rooms[0].0@, rooms.drop_first())
        };
        if !(ops.len() < 2 || rooms.len() < ops.len()) {
            lemma_align_wanderers_kept(h1, h2, view_has(h1, rooms[0].0@), rooms[0].0@, rooms.drop_first());
        }
        lemma_align_binds_kept(next.0, next.1, binds.drop_first(), peak);
    }
}

/// When a bind spans both halves, moves the rooms of its other members into
/// the half of its first member's room, each by exchange with another room
/// of its kind there; a room whose kind has no other room in the anchor's
/// half stays. Rooms only change halves within their kind.
pub fn align_shift_binds_in_halves(
    peak: &BaseAssignment,
    binds: &Vec<RuntimeShiftBind>,
    h1: &mut FacilityHalf,
    h2: &mut FacilityHalf,
)
    ensures
        (half_view(*final(h1)), half_view(*final(h2))) == align_binds(
            half_view(*old(h1)),
            half_view(*old(h2)),
            binds@,
            peak.rooms@,
        ),
        rooms_kept((half_view(*old(h1)), half_view(*old(h2))), (half_view(*final(h1)), half_view(*final(h2)))),
{
    proof {
        lemma_align_binds_kept(half_view(*h1), half_view(*h2), binds@, peak.rooms@);
    }
    let mut b: usize = 0;
    assert(binds@.skip(0) == binds@);
    while b < binds.len()
        invariant
            0 <= b <= binds@.len(),
            align_binds(half_view(*old(h1)), half_view(*old(h2)), binds@, peak.rooms@) == align_binds(
                half_view(*h1),
                half_view(*h2),
                binds@.skip(b as int),
                peak.rooms@,
            ),
        decreases binds@.len() - b,
    {
        let bind = &binds[b];
        let ghost ops = bind.operators@;
        let ghost s1 = half_view(*h1);
        let ghost s2 = half_view(*h2);
        assert(binds@.skip(b as int)[0] == *bind);
        assert(binds@.skip(b as int).drop_first() == binds@.skip(b + 1));
        if bind.operators.len() >= 2 {
            let mut rooms: Vec<RoomId> = Vec::new();
            let mut k: usize = 0;
            while k < bind.operators.len()
                invariant
                    0 <= k <= ops.len(),
                    ops == bind.operators@,
                    rooms@ == bind_rooms(peak.rooms@, ops.take(k as int)),
                decreases ops.len() - k,
            {
                assert(ops.take(k + 1).drop_last() == ops.take(k as int));
                assert(ops.take(k + 1).last() == ops[k as int]);
                match room_for_operator(peak, bind.operators[k].as_str()) {
                    Some(r) => rooms.push(r),
                    None => {},
                }
                k += 1;
            }
            assert(ops.take(ops.len() as int) == ops);
            if rooms.len() >= bind.operators.len() {
                let anchor = &rooms[0];
                let anchor_in_h1 = half_contains_room(h1, anchor);
                let ghost ws = rooms@.drop_first();
                let mut w: usize = 1;
                assert(rooms@.skip(1) == ws);
                while w < rooms.len()
                    invariant
                        1 <= w <= rooms@.len(),
                        ws == rooms@.drop_first(),
                        *anchor == rooms@[0],
                        align_wanderers(s1, s2, anchor_in_h1, anchor.0@, ws) == align_wanderers(
                            half_view(*h1),
                            half_view(*h2),
                            anchor_in_h1,
                            anchor.0@,
                            rooms@.skip(w as int),
                        ),
                    decreases rooms@.len() - w,
                {
                    let wanderer = &rooms[w];
                    assert(rooms@.skip(w as int)[0] == *wanderer);
                    assert(rooms@.skip(w as int).drop_first() == rooms@.skip(w + 1));
                    let wanderer_in_h1 = half_contains_room(h1, wanderer);
                    if wanderer_in_h1 != anchor_in_h1 {
                        let _ = swap_room_across_halves(h1, h2, anchor_in_h1, anchor, wanderer);
                    }
                    w += 1;
                }
                assert(rooms@.skip(w as int).len() == 0);
                assert(anchor_in_h1 == view_has(s1, rooms@[0].0@));
                assert((half_view(*h1), half_view(*h2)) == align_wanderers(
                    s1,
                    s2,
                    view_has(s1, rooms@[0].0@),
                    rooms@[0].0@,
                    rooms@.drop_first(),
                ));
            }
        }
        b += 1;
    }
    assert(binds@.skip(b as int).len() == 0);
}


/// Members of a bind that work somewhere in the peak shift, in bind order.
pub open spec fn present_members(ops: Seq<String>, peak: Seq<RoomAssignment>) -> Seq<String>
    decreases ops.len(),
{
    if ops.len() == 0 {
        Seq::empty()
    } else {
        let rest = present_members(ops.drop_last(), peak);
        if operator_room(peak, ops.last()@) is Some {
            rest.push(ops.last())
        } else {
            rest
        }
    }
}

/// Every member in `p` works in the shift.
pub open spec fn all_on(shift: BaseAssignment, p: Seq<String>) -> bool {
    forall|k: int| 0 <= k < p.len() ==> crate::layout::assigned_anywhere(shift.rooms@, #[trigger] p[k]@)
}

/// No member in `p` works in the shift.
pub open spec fn all_off(shift: BaseAssignment, p: Seq<String>) -> bool {
    forall|k: int| 0 <= k < p.len() ==> !crate::layout::assigned_anywhere(shift.rooms@, #[trigger] p[k]@)
}

/// The members in `p` are all on duty or all off duty in the shift.
pub open spec fn moves_together(shift: BaseAssignment, p: Seq<String>) -> bool {
    all_on(shift, p) || all_off(shift, p)
}

/// The members in `p` move together in every shift.
pub open spec fn always_together(shifts: Seq<BaseAssignment>, p: Seq<String>) -> bool {
    forall|t: int| 0 <= t < shifts.len() ==> moves_together(#[trigger] shifts[t], p)
}

/// `s` is the first shift in which the members in `p` split up.
pub open spec fn first_split_at(shifts: Seq<BaseAssignment>, p: Seq<String>, s: int) -> bool {
    &&& 0 <= s < shifts.len()
    &&& !moves_together(shifts[s], p)
    &&& forall|t: int| 0 <= t < s ==> moves_together(#[trigger] shifts[t], p)
}

/// Number of shifts in which every member in `p` is on duty.
pub open spec fn active_shift_count(shifts: Seq<BaseAssignment>, p: Seq<String>) -> nat
    decreases shifts.len(),
{
    if shifts.len() == 0 {
        0
    } else {
        active_shift_count(shifts.drop_last(), p) + if all_on(shifts.last(), p) {
            1nat
        } else {
            0nat
        }
    }
}

/// A bind breaks the rotation: two or more of its members work at peak and
/// they split up in some shift, have no team, work in their team's rest
/// shift, or are on duty in another number of shifts than the bind asks.
pub open spec fn bind_faults(
    bind: RuntimeShiftBind,
    shifts: Seq<BaseAssignment>,
    teams: Seq<TeamAssignment>,
    peak: Seq<RoomAssignment>,
) -> bool {
    let p = present_members(bind.operators@, peak);
    p.len() >= 2 && (!always_together(shifts, p) || match team_of(teams, p[0]@) {
        None => true,
        Some(t) => all_on(shifts[spec_resting_shift(t) as int], p) || active_shift_count(shifts, p)
            != bind.on_shifts,
    })
}

/// The violation reported for a faulty bind: the first shift that splits
/// it, else the missing team of its first present member, else that member
/// working in the rest shift, else the wrong number of shifts on duty.
pub open spec fn violation_matches(
    e: ShiftBindViolation,
    bind: RuntimeShiftBind,
    shifts: Seq<BaseAssignment>,
    teams: Seq<TeamAssignment>,
    peak: Seq<RoomAssignment>,
) -> bool {
    let p = present_members(bind.operators@, peak);
    if !always_together(shifts, p) {
        e matches ShiftBindViolation::NotTogether { bind: b, shift } && b@ == bind.operators@
            && first_split_at(shifts, p, shift as int)
    } else {
        match team_of(teams, p[0]@) {
            None => e matches ShiftBindViolation::NoTeam { bind: b, operator } && b@ == bind.operators@
                && operator@ == p[0]@,
            Some(t) => if all_on(shifts[spec_resting_shift(t) as int], p) {
                e matches ShiftBindViolation::OnRestShift { bind: b, operator, shift } && b@
                    == bind.operators@ && operator@ == p[0]@ && shift == spec_resting_shift(t)
            } else {
                e matches ShiftBindViolation::WrongShiftCount { bind: b, expected, actual } && b@
                    == bind.operators@ && expected == bind.on_shifts && actual == active_shift_count(
                    shifts,
                    p,
                )
            },
        }
    }
}

/// Why a bind breaks the rotation; `bind` lists all its members.
#[derive(Debug)]
pub enum ShiftBindViolation {
    /// Some but not all present members work in shift `shift` (from 0).
    NotTogether { bind: Vec<String>, shift: usize },
    /// `operator` belongs to no team.
    NoTeam { bind: Vec<String>, operator: String },
    /// `operator` works in shift `shift`, the rest shift of its team.
    OnRestShift { bind: Vec<String>, operator: String, shift: usize },
    /// The present members are on duty together in `actual` shifts, not
    /// `expected`.
    WrongShiftCount { bind: Vec<String>, expected: u8, actual: usize },
}

/// Members of `ops` that work somewhere in the peak shift.
fn present_in_peak(ops: &Vec<String>, peak: &BaseAssignment) -> (res: Vec<String>)
    ensures
        res@ == present_members(ops@, peak.rooms@),
{
    let mut out: Vec<String> = Vec::new();
    let mut i: usize = 0;
    assert(ops@.take(0) =~= Seq::<String>::empty());
    while i < ops.len()
        invariant
            0 <= i <= ops@.len(),
            out@ == present_members(ops@.take(i as int), peak.rooms@),
        decreases ops@.len() - i,
    {
        assert(ops@.take(i + 1).drop_last() =~= ops@.take(i as int));
        assert(ops@.take(i + 1).last() == ops@[i as int]);
        if room_for_operator(peak, ops[i].as_str()).is_some() {
            out.push(ops[i].clone());
        }
        i += 1;
    }
    assert(ops@.take(ops@.len() as int) =~= ops@);
    out
}

/// Checks one bind against the shifts of a rotation: its members present at
/// peak go on and off duty together, rest in their team's rest shift, and
/// are on duty in as many shifts as the bind asks.
pub fn check_shift_bind(
    bind: &RuntimeShiftBind,
    shifts: &Vec<BaseAssignment>,
    teams: &Vec<TeamAssignment>,
    peak: &BaseAssignment,
) -> (res: Result<(), ShiftBindViolation>)
    requires
        shifts@.len() >= 3,
    ensures
        res is Ok <==> !bind_faults(*bind, shifts@, teams@, peak.rooms@),
        res is Err ==> violation_matches(res->Err_0, *bind, shifts@, teams@, peak.rooms@),
{
    let present = present_in_peak(&bind.operators, peak);
    let ghost p = present@;
    if present.len() < 2 {
        return Ok(());
    }
    let mut active: usize = 0;
    let mut s: usize = 0;
    assert(shifts@.take(0) =~= Seq::<BaseAssignment>::empty());
    while s < shifts.len()
        invariant
            0 <= s <= shifts@.len(),
            p == present@,
            p == present_members(bind.operators@, peak.rooms@),
            p.len() >= 2,
            forall|t: int| 0 <= t < s ==> moves_together(#[trigger] shifts@[t], p),
            active == active_shift_count(shifts@.take(s as int), p),
            active <= s,
        decreases shifts@.len() - s,
    {
        let shift = &shifts[s];
        let mut every_on = true;
        let mut every_off = true;
        let mut k: usize = 0;
        while k < present.len()
            invariant
                0 <= k <= present@.len(),
                p == present@,
                every_on == (forall|j: int| 0 <= j < k ==> crate::layout::assigned_anywhere(shift.rooms@, #[trigger] p[j]@)),
                every_off == (forall|j: int| 0 <= j < k ==> !crate::layout::assigned_anywhere(shift.rooms@, #[trigger] p[j]@)),
            decreases present@.len() - k,
        {
            let on = operator_in_shift(shift, present[k].as_str());
            every_on = every_on && on;
            every_off = every_off && !on;
            k += 1;
        }
        assert(shifts@.take(s + 1).drop_last() =~= shifts@.take(s as int));
        assert(shifts@.take(s + 1).last() == *shift);
        if !every_on && !every_off {
            assert(!moves_together(shifts@[s as int], p));
            assert(!always_together(shifts@, p));
            assert(first_split_at(shifts@, p, s as int));
            return Err(ShiftBindViolation::NotTogether { bind: clone_strings(&bind.operators), shift: s });
        }
        if every_on {
            active += 1;
        }
        s += 1;
    }
    assert(shifts@.take(shifts@.len() as int) =~= shifts@);
    assert(always_together(shifts@, p));
    let team = match team_of_operator(teams, present[0].as_str()) {
        Some(t) => t,
        None => {
            return Err(ShiftBindViolation::NoTeam {
                bind: clone_strings(&bind.operators),
                operator: present[0].clone(),
            });
        },
    };
    let rest = resting_shift_index(team);
    let rest_shift = &shifts[rest];
    assert(moves_together(shifts@[rest as int], p));
    let mut k: usize = 0;
    while k < present.len()
        invariant
            0 <= k <= present@.len(),
            p == present@,
            p == present_members(bind.operators@, peak.rooms@),
            p.len() >= 2,
            shifts@.len() >= 3,
            rest == spec_resting_shift(team),
            team_of(teams@, p[0]@) == Some(team),
            always_together(shifts@, p),
            *rest_shift == shifts@[rest as int],
            moves_together(shifts@[rest as int], p),
            forall|j: int| 0 <= j < k ==> !crate::layout::assigned_anywhere(rest_shift.rooms@, #[trigger] p[j]@),
        decreases present@.len() - k,
    {
        if operator_in_shift(rest_shift, present[k].as_str()) {
            assert(!all_off(shifts@[rest as int], p));
            assert(all_on(shifts@[rest as int], p));
            assert(crate::layout::assigned_anywhere(rest_shift.rooms@, p[0]@));
            assert(k == 0);
            return Err(ShiftBindViolation::OnRestShift {
                bind: clone_strings(&bind.operators),
                operator: present[k].clone(),
                shift: rest,
            });
        }
        k += 1;
    }
    assert(!crate::layout::assigned_anywhere(rest_shift.rooms@, p[0]@));
    assert(!all_on(shifts@[rest as int], p));
    if active != bind.on_shifts as usize {
        return Err(ShiftBindViolation::WrongShiftCount {
            bind: clone_strings(&bind.operators),
            expected: bind.on_shifts,
            actual: active,
        });
    }
    Ok(())
}

/// Checks every bind in order and reports the first that breaks the
/// rotation; `shifts` are the rotation's shift assignments in order and
/// `teams` its three team rosters.
pub fn verify_shift_binds(
    shifts: &Vec<BaseAssignment>,
    teams: &Vec<TeamAssignment>,
    binds: &Vec<RuntimeShiftBind>,
    peak: &BaseAssignment,
) -> (res: Result<(), ShiftBindViolation>)
    requires
        shifts@.len() >= 3,
    ensures
        res is Ok <==> forall|b: int| 0 <= b < binds@.len() ==> !bind_faults(#[trigger] binds@[b], shifts@, teams@, peak.rooms@),
        res is Err ==> exists|b: int|
            0 <= b < binds@.len() && bind_faults(#[trigger] binds@[b], shifts@, teams@, peak.rooms@) && (forall|c: int|
                0 <= c < b ==> !bind_faults(#[trigger] binds@[c], shifts@, teams@, peak.rooms@)) && violation_matches(
                res->Err_0,
                binds@[b],
                shifts@,
                teams@,
                peak.rooms@,
            ),
{
    let mut i: usize = 0;
    while i < binds.len()
        invariant
            0 <= i <= binds@.len(),
            shifts@.len() >= 3,
            forall|c: int| 0 <= c < i ==> !bind_faults(#[trigger] binds@[c], shifts@, teams@, peak.rooms@),
        decreases binds@.len() - i,
    {
        match check_shift_bind(&binds[i], shifts, teams, peak) {
            Ok(()) => {},
            Err(e) => {
                assert(bind_faults(binds@[i as int], shifts@, teams@, peak.rooms@));
                return Err(e);
            },
        }
        i += 1;
    }
    Ok(())
}

} // verus!
