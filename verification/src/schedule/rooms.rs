//! Room-level edits of a shift assignment used by the rotation: copying a
//! half out of the peak shift, merging, clearing and swapping rooms.

use vstd::prelude::*;

use crate::layout::{
    blueprint_room, clone_operators, lemma_room_index, room_index, same_product, AssignedOperator, BaseAssignment,
    BaseBlueprint, Efficiency, FacilityKind, RoomAssignment, RoomId,
};
use crate::schedule::base_rotation::ShiftEfficiencies;
use crate::schedule::shift_bind::{has_operator, ops_contain};
use crate::schedule::team_rotation::{is_production_room_id, FacilityHalf};
use crate::text::{has_name, insert_sorted_unique, str_eq, strictly_sorted};

verus! {

/// A room entry as values: id, operators, efficiency.
pub type RoomView = (Seq<char>, Seq<AssignedOperator>, Option<Efficiency>);

/// The values of a room entry.
pub open spec fn room_view(r: RoomAssignment) -> RoomView {
    (r.room_id.0@, r.operators@, r.efficiency)
}

/// The values of the room entries.
pub open spec fn views_of(rooms: Seq<RoomAssignment>) -> Seq<RoomView> {
    rooms.map_values(|r: RoomAssignment| room_view(r))
}

/// Index of the first entry with id `id`.
pub open spec fn view_index(vs: Seq<RoomView>, id: Seq<char>) -> Option<int>
    decreases vs.len(),
{
    if vs.len() == 0 {
        None
    } else if vs[0].0 == id {
        Some(0)
    } else {
        match view_index(vs.drop_first(), id) {
            Some(i) => Some(i + 1),
            None => None,
        }
    }
}

/// The entries after putting `r`: replacing the first entry with its id, or
/// appending it.
pub open spec fn put_room(vs: Seq<RoomView>, r: RoomView) -> Seq<RoomView> {
    match view_index(vs, r.0) {
        Some(i) => vs.update(i, r),
        None => vs.push(r),
    }
}

pub proof fn lemma_view_index(rooms: Seq<RoomAssignment>, id: Seq<char>)
    ensures
        view_index(views_of(rooms), id) == room_index(rooms, id),
    decreases rooms.len(),
{
    if rooms.len() > 0 {
        assert(views_of(rooms).drop_first() == views_of(rooms.drop_first()));
        lemma_view_index(rooms.drop_first(), id);
    }
}

/// Puts a copy of `room` into the assignment.
fn put_room_copy(assignment: &mut BaseAssignment, room: &RoomAssignment)
    ensures
        views_of(final(assignment).rooms@) == put_room(views_of(old(assignment).rooms@), room_view(*room)),
{
    let copy = room.clone();
    let ghost before = assignment.rooms@;
    assignment.set_room_assignment(copy);
    proof {
        lemma_view_index(before, room.room_id.0@);
        match room_index(before, room.room_id.0@) {
            Some(i) => {
                lemma_room_index(before, room.room_id.0@);
                assert(views_of(assignment.rooms@) =~= views_of(before).update(i, room_view(*room)));
            },
            None => {
                assert(views_of(assignment.rooms@) =~= views_of(before).push(room_view(*room)));
            },
        }
    }
}

/// The first room of `rooms` with id `id`, as values, when it has operators.
pub open spec fn staffed_view(rooms: Seq<RoomAssignment>, id: Seq<char>) -> Option<RoomView> {
    match room_index(rooms, id) {
        Some(i) => if rooms[i].operators@.len() > 0 {
            Some(room_view(rooms[i]))
        } else {
            None
        },
        None => None,
    }
}

/// The entries after putting the staffed peak room of each id in turn.
pub open spec fn put_staffed(vs: Seq<RoomView>, peak: Seq<RoomAssignment>, ids: Seq<RoomId>) -> Seq<RoomView>
    decreases ids.len(),
{
    if ids.len() == 0 {
        vs
    } else {
        let next = match staffed_view(peak, ids[0].0@) {
            Some(r) => put_room(vs, r),
            None => vs,
        };
        put_staffed(next, peak, ids.drop_first(), )
    }
}

/// The rooms of the half, trade posts first, then factories, then power
/// plants.
pub open spec fn half_rooms(half: FacilityHalf) -> Seq<RoomId> {
    half.trade@ + half.manu@ + half.power@
}

/// Puts the staffed peak room of each id of `ids`.
fn put_staffed_rooms(assignment: &mut BaseAssignment, peak: &BaseAssignment, ids: &Vec<RoomId>)
    ensures
        views_of(final(assignment).rooms@) == put_staffed(views_of(old(assignment).rooms@), peak.rooms@, ids@),
{
    let mut k: usize = 0;
    assert(ids@.skip(0) == ids@);
    while k < ids.len()
        invariant
            0 <= k <= ids@.len(),
            put_staffed(views_of(old(assignment).rooms@), peak.rooms@, ids@) == put_staffed(
                views_of(assignment.rooms@),
                peak.rooms@,
                ids@.skip(k as int),
            ),
        decreases ids@.len() - k,
    {
        assert(ids@.skip(k as int)[0] == ids@[k as int]);
        assert(ids@.skip(k as int).drop_first() == ids@.skip(k + 1));
        match peak.room_assignment(&ids[k]) {
            Some(room) => {
                if room.operators.len() > 0 {
                    put_room_copy(assignment, room);
                }
            },
            None => {},
        }
        k += 1;
    }
    assert(ids@.skip(k as int).len() == 0);
}

/// The staffed peak rooms of the half, copied in the order trade posts,
/// factories, power plants.
pub fn production_half_from_peak(peak: &BaseAssignment, half: &FacilityHalf) -> (res: BaseAssignment)
    ensures
        views_of(res.rooms@) == put_staffed(Seq::empty(), peak.rooms@, half_rooms(*half)),
{
    let mut out = BaseAssignment::new();
    assert(views_of(out.rooms@) == Seq::<RoomView>::empty());
    put_staffed_rooms(&mut out, peak, &half.trade);
    put_staffed_rooms(&mut out, peak, &half.manu);
    put_staffed_rooms(&mut out, peak, &half.power);
    proof {
        lemma_put_staffed_append(Seq::empty(), peak.rooms@, half.trade@, half.manu@);
        lemma_put_staffed_append(Seq::empty(), peak.rooms@, half.trade@ + half.manu@, half.power@);
    }
    out
}

proof fn lemma_put_staffed_append(vs: Seq<RoomView>, peak: Seq<RoomAssignment>, a: Seq<RoomId>, b: Seq<RoomId>)
    ensures
        put_staffed(vs, peak, a + b) == put_staffed(put_staffed(vs, peak, a), peak, b),
    decreases a.len(),
{
    if a.len() > 0 {
        let next = match staffed_view(peak, a[0].0@) {
            Some(r) => put_room(vs, r),
            None => vs,
        };
        assert((a + b).drop_first() == a.drop_first() + b);
        assert((a + b)[0] == a[0]);
        lemma_put_staffed_append(next, peak, a.drop_first(), b);
    } else {
        assert(a + b == b);
    }
}

/// Every operator of the assignment, sorted, once each.
pub fn operators_of(assignment: &BaseAssignment) -> (res: Vec<String>)
    ensures
        strictly_sorted(res@),
        forall|n: Seq<char>| has_name(res@, n) <==> crate::layout::assigned_anywhere(assignment.rooms@, n),
{
    let mut names: Vec<String> = Vec::new();
    let mut r: usize = 0;
    while r < assignment.rooms.len()
        invariant
            0 <= r <= assignment.rooms@.len(),
            strictly_sorted(names@),
            forall|n: Seq<char>|
                #![trigger has_name(names@, n)]
                has_name(names@, n) <==> crate::layout::assigned_anywhere(assignment.rooms@.take(r as int), n),
        decreases assignment.rooms@.len() - r,
    {
        let ops = &assignment.rooms[r].operators;
        let mut k: usize = 0;
        while k < ops.len()
            invariant
                0 <= r < assignment.rooms@.len(),
                *ops == assignment.rooms@[r as int].operators,
                0 <= k <= ops@.len(),
                strictly_sorted(names@),
                forall|n: Seq<char>|
                    #![trigger has_name(names@, n)]
                    has_name(names@, n) <==> (crate::layout::assigned_anywhere(assignment.rooms@.take(r as int), n)
                        || exists|j: int| 0 <= j < k && #[trigger] ops@[j].name@ == n),
            decreases ops@.len() - k,
        {
            insert_sorted_unique(&mut names, ops[k].name.clone());
            proof {
                assert forall|n: Seq<char>|
                    #![trigger has_name(names@, n)]
                    has_name(names@, n) <==> (crate::layout::assigned_anywhere(assignment.rooms@.take(r as int), n)
                        || exists|j: int| 0 <= j < k + 1 && #[trigger] ops@[j].name@ == n) by {
                    if n == ops@[k as int].name@ {
                        assert(ops@[k as int].name@ == n);
                    }
                }
            }
            k += 1;
        }
        proof {
            assert forall|n: Seq<char>|
                #![trigger has_name(names@, n)]
                has_name(names@, n) <==> crate::layout::assigned_anywhere(assignment.rooms@.take(r + 1), n) by {
                let t1 = assignment.rooms@.take(r + 1);
                let t0 = assignment.rooms@.take(r as int);
                if crate::layout::assigned_anywhere(t1, n) {
                    let (x, y) = choose|x: int, y: int|
                        0 <= x < t1.len() && 0 <= y < t1[x].operators@.len() && #[trigger] t1[x].operators@[y].name@
                            == n;
                    if x < r {
                        assert(t0[x] == t1[x]);
                        assert(crate::layout::assigned_anywhere(t0, n));
                    } else {
                        assert(ops@[y].name@ == n);
                    }
                }
                if crate::layout::assigned_anywhere(t0, n) {
                    let (x, y) = choose|x: int, y: int|
                        0 <= x < t0.len() && 0 <= y < t0[x].operators@.len() && #[trigger] t0[x].operators@[y].name@
                            == n;
                    assert(t1[x] == t0[x]);
                }
                if exists|j: int| 0 <= j < ops@.len() && #[trigger] ops@[j].name@ == n {
                    let j = choose|j: int| 0 <= j < ops@.len() && #[trigger] ops@[j].name@ == n;
                    assert(t1[r as int].operators@[j].name@ == n);
                }
            }
        }
        r += 1;
    }
    assert(assignment.rooms@.take(assignment.rooms@.len() as int) == assignment.rooms@);
    names
}

/// The entries after putting each staffed room of `source` in turn.
pub open spec fn merged_views(vs: Seq<RoomView>, source: Seq<RoomAssignment>) -> Seq<RoomView>
    decreases source.len(),
{
    if source.len() == 0 {
        vs
    } else {
        let next = if source[0].operators@.len() == 0 {
            vs
        } else {
            put_room(vs, room_view(source[0]))
        };
        merged_views(next, source.drop_first())
    }
}

/// Copies every staffed room of `source` into `target`, replacing the room
/// of the same id.
pub fn merge_rooms(target: &mut BaseAssignment, source: &BaseAssignment)
    ensures
        views_of(final(target).rooms@) == merged_views(views_of(old(target).rooms@), source.rooms@),
{
    let mut k: usize = 0;
    assert(source.rooms@.skip(0) == source.rooms@);
    while k < source.rooms.len()
        invariant
            0 <= k <= source.rooms@.len(),
            merged_views(views_of(old(target).rooms@), source.rooms@) == merged_views(
                views_of(target.rooms@),
                source.rooms@.skip(k as int),
            ),
        decreases source.rooms@.len() - k,
    {
        assert(source.rooms@.skip(k as int)[0] == source.rooms@[k as int]);
        assert(source.rooms@.skip(k as int).drop_first() == source.rooms@.skip(k + 1));
        let room = &source.rooms[k];
        if room.operators.len() > 0 {
            put_room_copy(target, room);
        }
        k += 1;
    }
    assert(source.rooms@.skip(k as int).len() == 0);
}

/// The entry is not room `id`.
pub open spec fn not_room(id: Seq<char>) -> spec_fn(RoomAssignment) -> bool {
    |r: RoomAssignment| r.room_id.0@ != id
}

/// Removes every entry of room `room_id`.
pub fn clear_room(assignment: &mut BaseAssignment, room_id: &str)
    ensures
        final(assignment).rooms@ == old(assignment).rooms@.filter(not_room(room_id@)),
{
    let ghost orig = assignment.rooms@;
    let mut kept: Vec<RoomAssignment> = Vec::new();
    let mut rest: Vec<RoomAssignment> = Vec::new();
    std::mem::swap(&mut rest, &mut assignment.rooms);
    let mut i: usize = 0;
    let total = rest.len();
    let ghost n = rest@.len();
    assert(n == total);
    while rest.len() > 0
        invariant
            rest@.len() + i == n,
            n == orig.len(),
            n <= usize::MAX,
            rest@ == orig.skip(i as int),
            kept@ == orig.take(i as int).filter(not_room(room_id@)),
        decreases rest@.len(),
    {
        let room = rest.remove(0);
        proof {
            assert(room == orig[i as int]);
            orig.take(i as int).lemma_filter_push(room, not_room(room_id@));
            assert(orig.take(i + 1) == orig.take(i as int).push(room));
        }
        if !str_eq(room.room_id.0.as_str(), room_id) {
            kept.push(room);
        }
        i += 1;
        proof {
            assert(rest@ == orig.skip(i as int));
        }
    }
    assert(orig.take(i as int) == orig);
    assignment.rooms = kept;
}

/// Clears the efficiency of the first entry of room `room_id`.
pub fn clear_room_efficiency(assignment: &mut BaseAssignment, room_id: &RoomId)
    ensures
        match room_index(old(assignment).rooms@, room_id.0@) {
            Some(i) => final(assignment).rooms@ == old(assignment).rooms@.update(
                i,
                RoomAssignment {
                    room_id: old(assignment).rooms@[i].room_id,
                    operators: old(assignment).rooms@[i].operators,
                    efficiency: None,
                },
            ),
            None => final(assignment).rooms@ == old(assignment).rooms@,
        },
{
    match assignment.room_position(room_id.0.as_str()) {
        Some(i) => {
            let mut room = assignment.rooms.remove(i);
            room.efficiency = None;
            assignment.rooms.insert(i, room);
        },
        None => {},
    }
}

/// The entries after clearing the efficiency of the first entry of each
/// production room of the blueprint, in blueprint order.
pub open spec fn cleared_views(vs: Seq<RoomAssignment>, bp: Seq<crate::layout::BlueprintRoom>) -> Seq<RoomAssignment>
    decreases bp.len(),
{
    if bp.len() == 0 {
        vs
    } else {
        let prev = cleared_views(vs, bp.drop_last());
        let room = bp.last();
        if crate::layout::is_production(room.kind) {
            match room_index(prev, room.id.0@) {
                Some(i) => prev.update(
                    i,
                    RoomAssignment { room_id: prev[i].room_id, operators: prev[i].operators, efficiency: None },
                ),
                None => prev,
            }
        } else {
            prev
        }
    }
}

/// Clears the efficiency of the trade posts, factories and power plants.
pub fn clear_production_efficiencies(blueprint: &BaseBlueprint, assignment: &mut BaseAssignment)
    ensures
        final(assignment).rooms@ == cleared_views(old(assignment).rooms@, blueprint.rooms@),
{
    let mut k: usize = 0;
    while k < blueprint.rooms.len()
        invariant
            0 <= k <= blueprint.rooms@.len(),
            assignment.rooms@ == cleared_views(old(assignment).rooms@, blueprint.rooms@.take(k as int)),
        decreases blueprint.rooms@.len() - k,
    {
        let room = &blueprint.rooms[k];
        assert(blueprint.rooms@.take(k + 1).drop_last() == blueprint.rooms@.take(k as int));
        assert(blueprint.rooms@.take(k + 1).last() == *room);
        match room.kind {
            FacilityKind::TradePost | FacilityKind::Factory | FacilityKind::PowerPlant => {
                clear_room_efficiency(assignment, &room.id);
            },
            _ => {},
        }
        k += 1;
    }
    assert(blueprint.rooms@.take(blueprint.rooms@.len() as int) == blueprint.rooms@);
}

/// The shift efficiency of a production facility kind.
pub fn production_efficiency(efficiencies: &ShiftEfficiencies, kind: FacilityKind) -> (res: Option<Efficiency>)
    ensures
        res == match kind {
            FacilityKind::TradePost => Some(efficiencies.trade_efficiency),
            FacilityKind::Factory => Some(efficiencies.manufacture_efficiency),
            FacilityKind::PowerPlant => Some(efficiencies.power_efficiency),
            _ => None,
        },
{
    match kind {
        FacilityKind::TradePost => Some(efficiencies.trade_efficiency),
        FacilityKind::Factory => Some(efficiencies.manufacture_efficiency),
        FacilityKind::PowerPlant => Some(efficiencies.power_efficiency),
        _ => None,
    }
}

/// Two rooms may exchange their staff: the same room, or two rooms of kind
/// `kind` with the same level and the same product.
pub open spec fn compatible_for_swap(
    bp: Seq<crate::layout::BlueprintRoom>,
    a: Seq<char>,
    b: Seq<char>,
    kind: FacilityKind,
) -> bool {
    if a == b {
        true
    } else {
        match (blueprint_room(bp, a), blueprint_room(bp, b)) {
            (Some(ra), Some(rb)) => ra.kind == kind && rb.kind == kind && ra.level == rb.level && match (
                ra.product,
                rb.product,
            ) {
                (Some(pa), Some(pb)) => same_product(pa, pb),
                _ => false,
            },
            _ => false,
        }
    }
}

/// Whether rooms `a` and `b` may exchange their staff.
pub fn rooms_compatible_for_swap(blueprint: &BaseBlueprint, a: &RoomId, b: &RoomId, kind: FacilityKind) -> (res: bool)
    ensures
        res == compatible_for_swap(blueprint.rooms@, a.0@, b.0@, kind),
{
    if a.same(b) {
        return true;
    }
    let room_a = match blueprint.room(a) {
        Some(r) => r,
        None => {
            return false;
        },
    };
    let room_b = match blueprint.room(b) {
        Some(r) => r,
        None => {
            return false;
        },
    };
    if room_a.kind != kind || room_b.kind != kind || room_a.level != room_b.level {
        return false;
    }
    match (&room_a.product, &room_b.product) {
        (Some(pa), Some(pb)) => crate::layout::product_eq(pa, pb),
        _ => false,
    }
}

/// Every name of `names` works in the room.
pub open spec fn room_holds_all(room: RoomAssignment, names: Seq<String>) -> bool {
    forall|k: int| 0 <= k < names.len() ==> has_operator(room.operators@, #[trigger] names[k]@)
}

/// Whether every name of `names` works in the room.
pub fn room_has_all(room: &RoomAssignment, names: &Vec<String>) -> (res: bool)
    ensures
        res == room_holds_all(*room, names@),
{
    let mut k: usize = 0;
    while k < names.len()
        invariant
            0 <= k <= names@.len(),
            forall|t: int| 0 <= t < k ==> has_operator(room.operators@, #[trigger] names@[t]@),
        decreases names@.len() - k,
    {
        if !ops_contain(&room.operators, names[k].as_str()) {
            return false;
        }
        k += 1;
    }
    true
}

/// The first trade post of the assignment holding all of `names`.
pub open spec fn trade_room_with(
    rooms: Seq<RoomAssignment>,
    bp: Seq<crate::layout::BlueprintRoom>,
    names: Seq<String>,
) -> Option<RoomId>
    decreases rooms.len(),
{
    if rooms.len() == 0 {
        None
    } else if (blueprint_room(bp, rooms[0].room_id.0@) matches Some(b) && b.kind == FacilityKind::TradePost)
        && room_holds_all(rooms[0], names) {
        Some(rooms[0].room_id)
    } else {
        trade_room_with(rooms.drop_first(), bp, names)
    }
}

/// The trade post that holds the whole group.
pub fn trade_room_containing_group(assignment: &BaseAssignment, blueprint: &BaseBlueprint, names: &Vec<String>) -> (res:
    Option<RoomId>)
    ensures
        res == trade_room_with(assignment.rooms@, blueprint.rooms@, names@),
{
    let mut i: usize = 0;
    assert(assignment.rooms@.skip(0) == assignment.rooms@);
    while i < assignment.rooms.len()
        invariant
            0 <= i <= assignment.rooms@.len(),
            trade_room_with(assignment.rooms@, blueprint.rooms@, names@) == trade_room_with(
                assignment.rooms@.skip(i as int),
                blueprint.rooms@,
                names@,
            ),
        decreases assignment.rooms@.len() - i,
    {
        let room = &assignment.rooms[i];
        assert(assignment.rooms@.skip(i as int)[0] == *room);
        assert(assignment.rooms@.skip(i as int).drop_first() == assignment.rooms@.skip(i + 1));
        let is_trade = match blueprint.room(&room.room_id) {
            Some(b) => b.kind == FacilityKind::TradePost,
            None => false,
        };
        if is_trade && room_has_all(room, names) {
            return Some(room.room_id.clone());
        }
        i += 1;
    }
    None
}

/// The first room of the assignment, of kind `kind` in the blueprint, that
/// holds `name`.
pub open spec fn room_with_operator(
    rooms: Seq<RoomAssignment>,
    bp: Seq<crate::layout::BlueprintRoom>,
    name: Seq<char>,
    kind: FacilityKind,
) -> Option<RoomId>
    decreases rooms.len(),
{
    if rooms.len() == 0 {
        None
    } else if (blueprint_room(bp, rooms[0].room_id.0@) matches Some(b) && b.kind == kind) && has_operator(
        rooms[0].operators@,
        name,
    ) {
        Some(rooms[0].room_id)
    } else {
        room_with_operator(rooms.drop_first(), bp, name, kind)
    }
}

/// The room of kind `kind` that holds `name`.
pub fn room_containing_operator(
    assignment: &BaseAssignment,
    blueprint: &BaseBlueprint,
    name: &str,
    kind: FacilityKind,
) -> (res: Option<RoomId>)
    ensures
        res == room_with_operator(assignment.rooms@, blueprint.rooms@, name@, kind),
{
    let mut i: usize = 0;
    assert(assignment.rooms@.skip(0) == assignment.rooms@);
    while i < assignment.rooms.len()
        invariant
            0 <= i <= assignment.rooms@.len(),
            room_with_operator(assignment.rooms@, blueprint.rooms@, name@, kind) == room_with_operator(
                assignment.rooms@.skip(i as int),
                blueprint.rooms@,
                name@,
                kind,
            ),
        decreases assignment.rooms@.len() - i,
    {
        let room = &assignment.rooms[i];
        assert(assignment.rooms@.skip(i as int)[0] == *room);
        assert(assignment.rooms@.skip(i as int).drop_first() == assignment.rooms@.skip(i + 1));
        let of_kind = match blueprint.room(&room.room_id) {
            Some(b) => b.kind == kind,
            None => false,
        };
        if of_kind && ops_contain(&room.operators, name) {
            return Some(room.room_id.clone());
        }
        i += 1;
    }
    None
}

/// The entries after exchanging the operators and efficiencies of entries
/// `a` and `b` (room ids stay in place).
pub open spec fn swapped_views(vs: Seq<RoomView>, a: int, b: int) -> Seq<RoomView> {
    vs.update(a, (vs[a].0, vs[b].1, vs[b].2)).update(b, (vs[b].0, vs[a].1, vs[a].2))
}

/// Exchanges the staff (operators and efficiency) of rooms `a` and `b`.
/// Returns false, changing nothing, when either room has no entry.
pub fn swap_room_assignments(assignment: &mut BaseAssignment, a: &RoomId, b: &RoomId) -> (res: bool)
    ensures
        res == (room_index(old(assignment).rooms@, a.0@) is Some && room_index(old(assignment).rooms@, b.0@) is Some),
        res ==> views_of(final(assignment).rooms@) == swapped_views(
            views_of(old(assignment).rooms@),
            room_index(old(assignment).rooms@, a.0@).unwrap(),
            room_index(old(assignment).rooms@, b.0@).unwrap(),
        ),
        !res ==> final(assignment).rooms@ == old(assignment).rooms@,
{
    let ai = match assignment.room_position(a.0.as_str()) {
        Some(i) => i,
        None => {
            return false;
        },
    };
    let bi = match assignment.room_position(b.0.as_str()) {
        Some(i) => i,
        None => {
            return false;
        },
    };
    if ai == bi {
        proof {
            let vs = views_of(assignment.rooms@);
            assert(swapped_views(vs, ai as int, bi as int) =~= vs);
        }
        return true;
    }
    let ghost before = assignment.rooms@;
    let ops_a = clone_operators(&assignment.rooms[ai].operators);
    let eff_a = assignment.rooms[ai].efficiency;
    let ops_b = clone_operators(&assignment.rooms[bi].operators);
    let eff_b = assignment.rooms[bi].efficiency;
    let id_a = assignment.rooms[ai].room_id.clone();
    let id_b = assignment.rooms[bi].room_id.clone();
    assignment.rooms.set(ai, RoomAssignment { room_id: id_a, operators: ops_b, efficiency: eff_b });
    assignment.rooms.set(bi, RoomAssignment { room_id: id_b, operators: ops_a, efficiency: eff_a });
    proof {
        assert(views_of(assignment.rooms@) =~= swapped_views(views_of(before), ai as int, bi as int));
    }
    true
}

} // verus!
