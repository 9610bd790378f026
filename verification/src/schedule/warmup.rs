//! Warm-up operators keep their room across consecutive short shifts: their
//! skills ramp up with continuous work, so the rotation moves them back to the
//! room they started in.

use vstd::prelude::*;

use crate::instances::{instance_buffs, OperatorInstance, OperatorInstances};
use crate::layout::{blueprint_room, room_index, AssignedOperator, BaseAssignment, BaseBlueprint, FacilityKind, RoomAssignment, RoomId};
use crate::schedule::rooms::{
    clear_room_efficiency, compatible_for_swap, room_containing_operator, room_view, room_with_operator,
    rooms_compatible_for_swap, swap_room_assignments, swapped_views, view_index, views_of, RoomView,
};
use crate::schedule::shift_bind::has_operator;
use crate::text::{seq_starts_with, starts_with, str_eq};
use crate::tier::{spec_tier_of, PromotionTier};

verus! {

/// Trade-post operators always treated as warm-up operators.
pub open spec fn is_sticky_trade_name(name: Seq<char>) -> bool {
    name == "巫恋"@ || name == "龙舌兰"@
}

/// Some skill of `buffs` starts with `prefix`.
pub open spec fn any_buff_with_prefix(buffs: Seq<String>, prefix: Seq<char>) -> bool {
    exists|k: int| 0 <= k < buffs.len() && seq_starts_with(#[trigger] buffs[k]@, prefix)
}

/// `name` at `tier` ramps up while working in a room of `kind`: a sticky
/// trade operator or a trade skill of the order-weight family in trade
/// posts, a production-speed addition skill in factories.
pub open spec fn is_warmup(name: Seq<char>, tier: PromotionTier, kind: FacilityKind, inst: Seq<OperatorInstance>) -> bool {
    match kind {
        FacilityKind::TradePost => is_sticky_trade_name(name) || any_buff_with_prefix(
            instance_buffs(inst, name, tier, "trade"@),
            "trade_ord_wt&cost["@,
        ),
        FacilityKind::Factory => any_buff_with_prefix(
            instance_buffs(inst, name, tier, "manufacture"@),
            "manu_prod_spd_addition["@,
        ),
        _ => false,
    }
}

/// Who is a warm-up operator: in a trade post 巫恋, 龙舌兰, and anyone with a
/// trade skill at its tier whose id begins with `trade_ord_wt&cost[`; in a
/// factory anyone with a manufacture skill at its tier whose id begins with
/// `manu_prod_spd_addition[`; in any other room nobody.
pub proof fn lemma_warmup_rules(name: Seq<char>, tier: PromotionTier, kind: FacilityKind, inst: Seq<OperatorInstance>)
    ensures
        kind == FacilityKind::TradePost ==> (is_warmup(name, tier, kind, inst) <==> (name == "巫恋"@ || name == "龙舌兰"@
            || exists|k: int|
            0 <= k < instance_buffs(inst, name, tier, "trade"@).len() && {
                let id = (#[trigger] instance_buffs(inst, name, tier, "trade"@)[k])@;
                "trade_ord_wt&cost["@.len() <= id.len() && id.subrange(0, "trade_ord_wt&cost["@.len() as int)
                    == "trade_ord_wt&cost["@
            })),
        kind == FacilityKind::Factory ==> (is_warmup(name, tier, kind, inst) <==> exists|k: int|
            0 <= k < instance_buffs(inst, name, tier, "manufacture"@).len() && {
                let id = (#[trigger] instance_buffs(inst, name, tier, "manufacture"@)[k])@;
                "manu_prod_spd_addition["@.len() <= id.len() && id.subrange(
                    0,
                    "manu_prod_spd_addition["@.len() as int,
                ) == "manu_prod_spd_addition["@
            }),
        kind != FacilityKind::TradePost && kind != FacilityKind::Factory ==> !is_warmup(name, tier, kind, inst),
{
    let tb = instance_buffs(inst, name, tier, "trade"@);
    let mb = instance_buffs(inst, name, tier, "manufacture"@);
    if kind == FacilityKind::TradePost {
        if any_buff_with_prefix(tb, "trade_ord_wt&cost["@) {
            let k = choose|k: int| 0 <= k < tb.len() && seq_starts_with(#[trigger] tb[k]@, "trade_ord_wt&cost["@);
            assert(seq_starts_with(tb[k]@, "trade_ord_wt&cost["@));
        }
    }
    if kind == FacilityKind::Factory {
        if any_buff_with_prefix(mb, "manu_prod_spd_addition["@) {
            let k = choose|k: int| 0 <= k < mb.len() && seq_starts_with(#[trigger] mb[k]@, "manu_prod_spd_addition["@);
            assert(seq_starts_with(mb[k]@, "manu_prod_spd_addition["@));
        }
    }
}

/// Whether some skill of `buffs` starts with `prefix`.
fn has_buff_prefix(buffs: &Vec<String>, prefix: &str) -> (res: bool)
    ensures
        res == any_buff_with_prefix(buffs@, prefix@),
{
    let mut k: usize = 0;
    while k < buffs.len()
        invariant
            0 <= k <= buffs@.len(),
            forall|t: int| 0 <= t < k ==> !seq_starts_with(#[trigger] buffs@[t]@, prefix@),
        decreases buffs@.len() - k,
    {
        if starts_with(buffs[k].as_str(), prefix) {
            return true;
        }
        k += 1;
    }
    false
}

/// Whether `name` at `tier` is a warm-up operator in a room of `kind`.
pub fn is_warmup_operator(name: &str, tier: PromotionTier, kind: FacilityKind, instances: &OperatorInstances) -> (res:
    bool)
    ensures
        res == is_warmup(name@, tier, kind, instances.instances@),
{
    match kind {
        FacilityKind::TradePost => {
            if str_eq(name, "巫恋") || str_eq(name, "龙舌兰") {
                return true;
            }
            let buffs = instances.resolve_buff_ids(name, tier, "trade");
            has_buff_prefix(&buffs, "trade_ord_wt&cost[")
        },
        FacilityKind::Factory => {
            let buffs = instances.resolve_buff_ids(name, tier, "manufacture");
            has_buff_prefix(&buffs, "manu_prod_spd_addition[")
        },
        _ => false,
    }
}

/// The warm-up operators of a room's operators, with the room's kind.
pub open spec fn ops_warm(ops: Seq<AssignedOperator>, kind: FacilityKind, inst: Seq<OperatorInstance>) -> Seq<
    (String, FacilityKind),
>
    decreases ops.len(),
{
    if ops.len() == 0 {
        Seq::empty()
    } else {
        let prev = ops_warm(ops.drop_last(), kind, inst);
        let op = ops.last();
        if is_warmup(op.name@, spec_tier_of(op.progress.elite, op.progress.rarity), kind, inst) {
            prev.push((op.name, kind))
        } else {
            prev
        }
    }
}

/// The warm-up operators of the trade posts and factories, room by room.
pub open spec fn warmup_list(
    rooms: Seq<RoomAssignment>,
    bp: Seq<crate::layout::BlueprintRoom>,
    inst: Seq<OperatorInstance>,
) -> Seq<(String, FacilityKind)>
    decreases rooms.len(),
{
    if rooms.len() == 0 {
        Seq::empty()
    } else {
        let prev = warmup_list(rooms.drop_last(), bp, inst);
        let room = rooms.last();
        match blueprint_room(bp, room.room_id.0@) {
            Some(b) => if b.kind == FacilityKind::TradePost || b.kind == FacilityKind::Factory {
                prev + ops_warm(room.operators@, b.kind, inst)
            } else {
                prev
            },
            None => prev,
        }
    }
}

/// The first room of the entries, of kind `kind`, that holds `name`.
pub open spec fn view_room_with(
    vs: Seq<RoomView>,
    bp: Seq<crate::layout::BlueprintRoom>,
    name: Seq<char>,
    kind: FacilityKind,
) -> Option<Seq<char>>
    decreases vs.len(),
{
    if vs.len() == 0 {
        None
    } else if (blueprint_room(bp, vs[0].0) matches Some(b) && b.kind == kind) && has_operator(vs[0].1, name) {
        Some(vs[0].0)
    } else {
        view_room_with(vs.drop_first(), bp, name, kind)
    }
}

proof fn lemma_view_room_with(
    rooms: Seq<RoomAssignment>,
    bp: Seq<crate::layout::BlueprintRoom>,
    name: Seq<char>,
    kind: FacilityKind,
)
    ensures
        view_room_with(views_of(rooms), bp, name, kind) == match room_with_operator(rooms, bp, name, kind) {
            Some(r) => Some(r.0@),
            None => None,
        },
    decreases rooms.len(),
{
    if rooms.len() > 0 {
        assert(views_of(rooms).drop_first() == views_of(rooms.drop_first()));
        lemma_view_room_with(rooms.drop_first(), bp, name, kind);
    }
}

proof fn lemma_view_index(rooms: Seq<RoomAssignment>, id: Seq<char>)
    ensures
        view_index(views_of(rooms), id) == room_index(rooms, id),
    decreases rooms.len(),
{
    if rooms.len() > 0 {
        assert(views_of(rooms).drop_first() == views_of(rooms.drop_first()));
        lemma_view_index(rooms.drop_first(), id);
    }
}

/// The room recorded for `name`.
pub open spec fn sticky_get(sticky: Seq<(Seq<char>, Seq<char>)>, name: Seq<char>) -> Option<Seq<char>>
    decreases sticky.len(),
{
    if sticky.len() == 0 {
        None
    } else if sticky[0].0 == name {
        Some(sticky[0].1)
    } else {
        sticky_get(sticky.drop_first(), name)
    }
}

/// The recorded rooms as values.
pub open spec fn sticky_view(s: Seq<(String, RoomId)>) -> Seq<(Seq<char>, Seq<char>)> {
    s.map_values(|p: (String, RoomId)| (p.0@, p.1.0@))
}

/// The entries with the efficiency of room `id` cleared.
pub open spec fn clear_eff(vs: Seq<RoomView>, id: Seq<char>) -> Seq<RoomView> {
    match view_index(vs, id) {
        Some(i) => vs.update(i, (vs[i].0, vs[i].1, None)),
        None => vs,
    }
}

/// One warm-up operator handled: its current room is recorded the first
/// time; later, when it works in another compatible room, the two rooms
/// exchange their staff and lose their efficiency snapshots.
pub open spec fn warm_step(
    vs: Seq<RoomView>,
    sticky: Seq<(Seq<char>, Seq<char>)>,
    name: Seq<char>,
    kind: FacilityKind,
    bp: Seq<crate::layout::BlueprintRoom>,
) -> (Seq<RoomView>, Seq<(Seq<char>, Seq<char>)>) {
    match view_room_with(vs, bp, name, kind) {
        None => (vs, sticky),
        Some(cur) => match sticky_get(sticky, name) {
            None => (vs, sticky.push((name, cur))),
            Some(anchor) => if cur == anchor || !compatible_for_swap(bp, cur, anchor, kind) {
                (vs, sticky)
            } else {
                match (view_index(vs, cur), view_index(vs, anchor)) {
                    (Some(a), Some(b)) => (clear_eff(clear_eff(swapped_views(vs, a, b), cur), anchor), sticky),
                    _ => (vs, sticky),
                }
            },
        },
    }
}

/// An entry index found for an id holds that id.
proof fn lemma_view_index_found(vs: Seq<RoomView>, id: Seq<char>)
    ensures
        view_index(vs, id) matches Some(i) ==> 0 <= i < vs.len() && vs[i].0 == id,
    decreases vs.len(),
{
    if vs.len() > 0 && vs[0].0 != id {
        lemma_view_index_found(vs.drop_first(), id);
    }
}

/// Entries with the same ids, in the same order, find ids at the same index.
proof fn lemma_view_index_same_ids(vs: Seq<RoomView>, ws: Seq<RoomView>, id: Seq<char>)
    requires
        vs.len() == ws.len(),
        forall|i: int| 0 <= i < vs.len() ==> vs[i].0 == ws[i].0,
    ensures
        view_index(vs, id) == view_index(ws, id),
    decreases vs.len(),
{
    if vs.len() > 0 {
        assert forall|i: int| 0 <= i < vs.drop_first().len() implies vs.drop_first()[i].0 == ws.drop_first()[i].0 by {
            assert(vs.drop_first()[i] == vs[i + 1]);
            assert(ws.drop_first()[i] == ws[i + 1]);
        }
        lemma_view_index_same_ids(vs.drop_first(), ws.drop_first(), id);
    }
}

/// How one warm-up operator is handled. The first time it is met its
/// current room is recorded and nothing moves. Later, when it works in a
/// room other than the recorded one and the two rooms are compatible, the
/// recorded room takes the current room's staff (the operator among them)
/// and the current room the recorded room's, both without an efficiency
/// snapshot, every other entry and the records unchanged. Otherwise nothing
/// changes.
pub proof fn lemma_warm_step(
    vs: Seq<RoomView>,
    sticky: Seq<(Seq<char>, Seq<char>)>,
    name: Seq<char>,
    kind: FacilityKind,
    bp: Seq<crate::layout::BlueprintRoom>,
    cur: Seq<char>,
    anchor: Seq<char>,
    a: int,
    b: int,
)
    ensures
        view_room_with(vs, bp, name, kind) is None ==> warm_step(vs, sticky, name, kind, bp) == (vs, sticky),
        (view_room_with(vs, bp, name, kind) == Some(cur) && sticky_get(sticky, name) is None) ==> warm_step(
            vs,
            sticky,
            name,
            kind,
            bp,
        ) == (vs, sticky.push((name, cur))),
        (view_room_with(vs, bp, name, kind) == Some(cur) && sticky_get(sticky, name) == Some(anchor) && (cur
            == anchor || !compatible_for_swap(bp, cur, anchor, kind))) ==> warm_step(vs, sticky, name, kind, bp) == (
            vs,
            sticky,
        ),
        (view_room_with(vs, bp, name, kind) == Some(cur) && sticky_get(sticky, name) == Some(anchor) && cur != anchor
            && compatible_for_swap(bp, cur, anchor, kind) && view_index(vs, cur) == Some(a) && view_index(vs, anchor)
            == Some(b)) ==> {
            let (v2, s2) = warm_step(vs, sticky, name, kind, bp);
            &&& s2 == sticky
            &&& v2.len() == vs.len()
            &&& v2[b] == (anchor, vs[a].1, None::<crate::layout::Efficiency>)
            &&& v2[a] == (cur, vs[b].1, None::<crate::layout::Efficiency>)
            &&& forall|i: int| 0 <= i < vs.len() && i != a && i != b ==> v2[i] == vs[i]
        },
{
    if let Some(cur) = view_room_with(vs, bp, name, kind) {
        if let Some(anchor) = sticky_get(sticky, name) {
            if cur != anchor && compatible_for_swap(bp, cur, anchor, kind) {
                if let (Some(a), Some(b)) = (view_index(vs, cur), view_index(vs, anchor)) {
                    lemma_view_index_found(vs, cur);
                    lemma_view_index_found(vs, anchor);
                    let w = swapped_views(vs, a, b);
                    assert forall|i: int| 0 <= i < vs.len() implies vs[i].0 == w[i].0 by {}
                    lemma_view_index_same_ids(vs, w, cur);
                    let w1 = clear_eff(w, cur);
                    assert(w1 == w.update(a, (w[a].0, w[a].1, None::<crate::layout::Efficiency>)));
                    assert forall|i: int| 0 <= i < vs.len() implies vs[i].0 == w1[i].0 by {}
                    lemma_view_index_same_ids(vs, w1, anchor);
                }
            }
        }
    }
}

/// The entries and records after handling each warm-up operator in turn.
pub open spec fn warm_fold(
    vs: Seq<RoomView>,
    sticky: Seq<(Seq<char>, Seq<char>)>,
    ops: Seq<(String, FacilityKind)>,
    bp: Seq<crate::layout::BlueprintRoom>,
) -> (Seq<RoomView>, Seq<(Seq<char>, Seq<char>)>)
    decreases ops.len(),
{
    if ops.len() == 0 {
        (vs, sticky)
    } else {
        let (v2, s2) = warm_step(vs, sticky, ops[0].0@, ops[0].1, bp);
        warm_fold(v2, s2, ops.drop_first(), bp)
    }
}

/// The room recorded for `name`.
fn sticky_lookup(sticky: &Vec<(String, RoomId)>, name: &str) -> (res: Option<RoomId>)
    ensures
        match res {
            Some(r) => sticky_get(sticky_view(sticky@), name@) == Some(r.0@),
            None => sticky_get(sticky_view(sticky@), name@) is None,
        },
{
    let mut k: usize = 0;
    assert(sticky_view(sticky@).skip(0) == sticky_view(sticky@));
    while k < sticky.len()
        invariant
            0 <= k <= sticky@.len(),
            sticky_get(sticky_view(sticky@), name@) == sticky_get(sticky_view(sticky@).skip(k as int), name@),
        decreases sticky@.len() - k,
    {
        assert(sticky_view(sticky@).skip(k as int)[0] == (sticky@[k as int].0@, sticky@[k as int].1.0@));
        assert(sticky_view(sticky@).skip(k as int).drop_first() == sticky_view(sticky@).skip(k + 1));
        if str_eq(sticky[k].0.as_str(), name) {
            return Some(sticky[k].1.clone());
        }
        k += 1;
    }
    None
}

/// The warm-up operators of the assignment's trade posts and factories.
fn collect_warmup(blueprint: &BaseBlueprint, instances: &OperatorInstances, assignment: &BaseAssignment) -> (res: Vec<
    (String, FacilityKind),
>)
    ensures
        res@ == warmup_list(assignment.rooms@, blueprint.rooms@, instances.instances@),
{
    let mut out: Vec<(String, FacilityKind)> = Vec::new();
    let mut r: usize = 0;
    while r < assignment.rooms.len()
        invariant
            0 <= r <= assignment.rooms@.len(),
            out@ == warmup_list(assignment.rooms@.take(r as int), blueprint.rooms@, instances.instances@),
        decreases assignment.rooms@.len() - r,
    {
        let room = &assignment.rooms[r];
        assert(assignment.rooms@.take(r + 1).drop_last() == assignment.rooms@.take(r as int));
        assert(assignment.rooms@.take(r + 1).last() == *room);
        let kind = match blueprint.room(&room.room_id) {
            Some(b) => Some(b.kind),
            None => None,
        };
        match kind {
            Some(k) => {
                if k == FacilityKind::TradePost || k == FacilityKind::Factory {
                    let ghost start = out@;
                    let ops = &room.operators;
                    let mut j: usize = 0;
                    while j < ops.len()
                        invariant
                            0 <= j <= ops@.len(),
                            *ops == room.operators,
                            out@ == start + ops_warm(ops@.take(j as int), k, instances.instances@),
                        decreases ops@.len() - j,
                    {
                        let op = &ops[j];
                        assert(ops@.take(j + 1).drop_last() == ops@.take(j as int));
                        assert(ops@.take(j + 1).last() == *op);
                        if is_warmup_operator(op.name.as_str(), op.tier(), k, instances) {
                            out.push((op.name.clone(), k));
                        }
                        j += 1;
                    }
                    assert(ops@.take(ops@.len() as int) == ops@);
                }
            },
            None => {},
        }
        r += 1;
    }
    assert(assignment.rooms@.take(assignment.rooms@.len() as int) == assignment.rooms@);
    out
}

/// Keeps warm-up operators in the room they were first seen in: a later
/// shift that places one in another room of the same kind, level and product
/// exchanges the two rooms' staff and clears their efficiency snapshots.
/// `sticky_rooms` records the first room of each warm-up operator.
pub fn align_warmup_rooms(
    blueprint: &BaseBlueprint,
    instances: &OperatorInstances,
    assignment: &mut BaseAssignment,
    sticky_rooms: &mut Vec<(String, RoomId)>,
)
    ensures
        (views_of(final(assignment).rooms@), sticky_view(final(sticky_rooms)@)) == warm_fold(
            views_of(old(assignment).rooms@),
            sticky_view(old(sticky_rooms)@),
            warmup_list(old(assignment).rooms@, blueprint.rooms@, instances.instances@),
            blueprint.rooms@,
        ),
{
    let ops = collect_warmup(blueprint, instances, assignment);
    let ghost target = warm_fold(
        views_of(assignment.rooms@),
        sticky_view(sticky_rooms@),
        ops@,
        blueprint.rooms@,
    );
    let mut k: usize = 0;
    assert(ops@.skip(0) == ops@);
    while k < ops.len()
        invariant
            0 <= k <= ops@.len(),
            target == warm_fold(views_of(assignment.rooms@), sticky_view(sticky_rooms@), ops@.skip(k as int), blueprint.rooms@),
        decreases ops@.len() - k,
    {
        assert(ops@.skip(k as int)[0] == ops@[k as int]);
        assert(ops@.skip(k as int).drop_first() == ops@.skip(k + 1));
        let name = &ops[k].0;
        let kind = ops[k].1;
        let ghost vs = views_of(assignment.rooms@);
        let ghost st = sticky_view(sticky_rooms@);
        proof {
            lemma_view_room_with(assignment.rooms@, blueprint.rooms@, name@, kind);
        }
        match room_containing_operator(assignment, blueprint, name.as_str(), kind) {
            None => {},
            Some(current_room) => {
                match sticky_lookup(sticky_rooms, name.as_str()) {
                    None => {
                        sticky_rooms.push((name.clone(), current_room));
                        proof {
                            assert(sticky_view(sticky_rooms@) =~= st.push((name@, current_room.0@)));
                        }
                    },
                    Some(anchor_room) => {
                        if !current_room.same(&anchor_room) && rooms_compatible_for_swap(
                            blueprint,
                            &current_room,
                            &anchor_room,
                            kind,
                        ) {
                            proof {
                                lemma_view_index(assignment.rooms@, current_room.0@);
                                lemma_view_index(assignment.rooms@, anchor_room.0@);
                            }
                            if swap_room_assignments(assignment, &current_room, &anchor_room) {
                                let ghost sw = views_of(assignment.rooms@);
                                proof {
                                    lemma_view_index(assignment.rooms@, current_room.0@);
                                }
                                let ghost r1 = assignment.rooms@;
                                clear_room_efficiency(assignment, &current_room);
                                proof {
                                    crate::layout::lemma_room_index(r1, current_room.0@);
                                    assert(views_of(assignment.rooms@) =~= clear_eff(sw, current_room.0@));
                                    lemma_view_index(assignment.rooms@, anchor_room.0@);
                                }
                                let ghost r2 = assignment.rooms@;
                                let ghost c1 = views_of(r2);
                                clear_room_efficiency(assignment, &anchor_room);
                                proof {
                                    crate::layout::lemma_room_index(r2, anchor_room.0@);
                                    assert(views_of(assignment.rooms@) =~= clear_eff(c1, anchor_room.0@));
                                }
                            }
                        }
                    },
                }
            },
        }
        k += 1;
    }
    assert(ops@.skip(k as int).len() == 0);
}

} // verus!
