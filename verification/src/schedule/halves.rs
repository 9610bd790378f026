//! What splitting the production facilities yields, room by room: the
//! components that shift binds glue together, the order in which components
//! are placed, and which half each one joins.

use vstd::prelude::*;

use crate::layout::{is_production, BlueprintRoom, FacilityKind, RoomAssignment, RoomId};
use crate::schedule::shift_bind::RuntimeShiftBind;
use crate::schedule::team_rotation::{last_kind, production_room_of, touches, FacilityHalf};
use crate::text::{has_name, lemma_seq_lt_asymmetric, lemma_seq_lt_irreflexive, seq_lt, views};

verus! {

/// A half by room ids: its trade posts, factories and power plants.
pub type HalfIds = (Seq<Seq<char>>, Seq<Seq<char>>, Seq<Seq<char>>);

/// The ids of a list of rooms.
pub open spec fn room_ids(v: Seq<RoomId>) -> Seq<Seq<char>> {
    v.map_values(|r: RoomId| r.0@)
}

/// The rooms of a half, by id.
pub open spec fn half_ids(h: FacilityHalf) -> HalfIds {
    (room_ids(h.trade@), room_ids(h.manu@), room_ids(h.power@))
}

/// A half with no rooms.
pub open spec fn no_rooms() -> HalfIds {
    (Seq::empty(), Seq::empty(), Seq::empty())
}

/// Number of rooms of kind `k` in a half (none for a kind that is not a
/// production kind).
pub open spec fn kind_count(h: HalfIds, k: Option<FacilityKind>) -> int {
    match k {
        Some(FacilityKind::TradePost) => h.0.len() as int,
        Some(FacilityKind::Factory) => h.1.len() as int,
        Some(FacilityKind::PowerPlant) => h.2.len() as int,
        _ => 0,
    }
}

/// How crowded a half is for component `comp`: for each of its rooms, the
/// number of rooms of that room's kind the half already holds.
pub open spec fn crowding(h: HalfIds, rooms: Seq<BlueprintRoom>, comp: Seq<Seq<char>>) -> int
    decreases comp.len(),
{
    if comp.len() == 0 {
        0
    } else {
        crowding(h, rooms, comp.drop_last()) + kind_count(h, last_kind(rooms, comp.last()))
    }
}

/// `h` with room `id` appended to the list of its kind (the kind of the last
/// blueprint room with that id).
pub open spec fn add_room(h: HalfIds, rooms: Seq<BlueprintRoom>, id: Seq<char>) -> HalfIds {
    match last_kind(rooms, id) {
        Some(FacilityKind::TradePost) => (h.0.push(id), h.1, h.2),
        Some(FacilityKind::Factory) => (h.0, h.1.push(id), h.2),
        Some(FacilityKind::PowerPlant) => (h.0, h.1, h.2.push(id)),
        _ => h,
    }
}

/// `h` with the rooms of `comp` appended in order.
pub open spec fn add_component(h: HalfIds, rooms: Seq<BlueprintRoom>, comp: Seq<Seq<char>>) -> HalfIds
    decreases comp.len(),
{
    if comp.len() == 0 {
        h
    } else {
        add_room(add_component(h, rooms, comp.drop_last()), rooms, comp.last())
    }
}

/// The components of length `len`, in list order.
pub open spec fn of_len(cs: Seq<Seq<Seq<char>>>, len: int) -> Seq<Seq<Seq<char>>>
    decreases cs.len(),
{
    if cs.len() == 0 {
        Seq::empty()
    } else {
        let p = of_len(cs.drop_last(), len);
        if cs.last().len() == len {
            p.push(cs.last())
        } else {
            p
        }
    }
}

/// The components whose length lies above `lo` and at most `hi`, longest
/// first, components of one length in list order.
pub open spec fn longer_than(cs: Seq<Seq<Seq<char>>>, hi: int, lo: int) -> Seq<Seq<Seq<char>>>
    decreases hi - lo,
{
    if lo >= hi {
        Seq::empty()
    } else {
        longer_than(cs, hi, lo + 1) + of_len(cs, lo + 1)
    }
}

/// Length of the longest component (0 when there is none).
pub open spec fn max_len(cs: Seq<Seq<Seq<char>>>) -> int
    decreases cs.len(),
{
    if cs.len() == 0 {
        0
    } else {
        let m = max_len(cs.drop_last());
        if cs.last().len() > m {
            cs.last().len() as int
        } else {
            m
        }
    }
}

/// The non-empty components, longest first; components of one length keep
/// their order (a stable sort by decreasing length).
pub open spec fn longest_first(cs: Seq<Seq<Seq<char>>>) -> Seq<Seq<Seq<char>>> {
    longer_than(cs, max_len(cs), 0)
}

/// The two halves after placing the components of `order` one by one, each
/// whole into the half that holds fewer rooms of its rooms' kinds (the
/// smaller `crowding`), into the first half on a tie. Rooms of one kind
/// placed one by one thus alternate between the halves, the first half
/// taking the first.
pub open spec fn greedy(order: Seq<Seq<Seq<char>>>, rooms: Seq<BlueprintRoom>) -> (HalfIds, HalfIds)
    decreases order.len(),
{
    if order.len() == 0 {
        (no_rooms(), no_rooms())
    } else {
        let g = greedy(order.drop_last(), rooms);
        if crowding(g.1, rooms, order.last()) < crowding(g.0, rooms, order.last()) {
            (g.0, add_component(g.1, rooms, order.last()))
        } else {
            (add_component(g.0, rooms, order.last()), g.1)
        }
    }
}

/// The components by room ids.
pub open spec fn comp_ids(cs: Seq<Vec<String>>) -> Seq<Seq<Seq<char>>> {
    cs.map_values(|c: Vec<String>| views(c@))
}

/// Some room of `comp` is one of `bound`.
pub open spec fn meets(comp: Seq<Seq<char>>, bound: Seq<Seq<char>>) -> bool {
    exists|j: int| 0 <= j < comp.len() && bound.contains(#[trigger] comp[j])
}

/// The components that meet no room of `bound`, in order.
pub open spec fn kept_apart(cs: Seq<Seq<Seq<char>>>, bound: Seq<Seq<char>>) -> Seq<Seq<Seq<char>>>
    decreases cs.len(),
{
    if cs.len() == 0 {
        Seq::empty()
    } else {
        let p = kept_apart(cs.drop_last(), bound);
        if meets(cs.last(), bound) {
            p
        } else {
            p.push(cs.last())
        }
    }
}

/// Ids in strictly increasing order.
pub open spec fn ids_sorted(s: Seq<Seq<char>>) -> bool {
    forall|a: int, b: int| 0 <= a < b < s.len() ==> seq_lt(#[trigger] s[a], #[trigger] s[b])
}

/// `id` lies in a component that meets `bound`.
pub open spec fn in_met(cs: Seq<Seq<Seq<char>>>, bound: Seq<Seq<char>>, id: Seq<char>) -> bool {
    exists|c: int| 0 <= c < cs.len() && meets(#[trigger] cs[c], bound) && cs[c].contains(id)
}

/// The ids of the components that meet `bound`, sorted, each once.
pub open spec fn joined(cs: Seq<Seq<Seq<char>>>, bound: Seq<Seq<char>>) -> Seq<Seq<char>> {
    choose|s: Seq<Seq<char>>| ids_sorted(s) && forall|id: Seq<char>| #[trigger] s.contains(id) <==> in_met(cs, bound, id)
}

/// The components with those that meet `bound` merged into one, placed last.
pub open spec fn merge_met(cs: Seq<Seq<Seq<char>>>, bound: Seq<Seq<char>>) -> Seq<Seq<Seq<char>>> {
    kept_apart(cs, bound).push(joined(cs, bound))
}

/// The production rooms the operators `ops` work in at peak, in order of
/// first mention, each once.
pub open spec fn bound_rooms(ops: Seq<String>, rooms: Seq<BlueprintRoom>, pk: Seq<RoomAssignment>) -> Seq<Seq<char>>
    decreases ops.len(),
{
    if ops.len() == 0 {
        Seq::empty()
    } else {
        let p = bound_rooms(ops.drop_last(), rooms, pk);
        match production_room_of(rooms, pk, ops.last()@) {
            Some(r) => if p.contains(r) {
                p
            } else {
                p.push(r)
            },
            None => p,
        }
    }
}

/// The components after the binds, in order, each merge the components of
/// the production rooms of their members (a bind that meets fewer than two
/// rooms changes nothing).
pub open spec fn after_binds(
    cs: Seq<Seq<Seq<char>>>,
    binds: Seq<RuntimeShiftBind>,
    rooms: Seq<BlueprintRoom>,
    pk: Seq<RoomAssignment>,
) -> Seq<Seq<Seq<char>>>
    decreases binds.len(),
{
    if binds.len() == 0 {
        cs
    } else {
        let p = after_binds(cs, binds.drop_last(), rooms, pk);
        let bound = bound_rooms(binds.last().operators@, rooms, pk);
        if bound.len() < 2 {
            p
        } else {
            merge_met(p, bound)
        }
    }
}

/// Ids of the production rooms of the blueprint, in blueprint order.
pub open spec fn production_ids(rooms: Seq<BlueprintRoom>) -> Seq<Seq<char>>
    decreases rooms.len(),
{
    if rooms.len() == 0 {
        Seq::empty()
    } else {
        let p = production_ids(rooms.drop_last());
        if is_production(rooms.last().kind) {
            p.push(rooms.last().id.0@)
        } else {
            p
        }
    }
}

/// One component per id.
pub open spec fn singletons(ids: Seq<Seq<char>>) -> Seq<Seq<Seq<char>>> {
    ids.map_values(|id: Seq<char>| seq![id])
}

/// The components of the production rooms once the binds have merged them:
/// every production room starts as a component of its own.
pub open spec fn split_components(
    rooms: Seq<BlueprintRoom>,
    pk: Seq<RoomAssignment>,
    binds: Seq<RuntimeShiftBind>,
) -> Seq<Seq<Seq<char>>> {
    after_binds(singletons(production_ids(rooms)), binds, rooms, pk)
}

/// The two halves of the production facilities: the components after the
/// binds, placed longest first, each into the half holding fewer rooms of its
/// rooms' kinds, so that the rooms of each kind alternate.
pub open spec fn production_split(
    rooms: Seq<BlueprintRoom>,
    pk: Seq<RoomAssignment>,
    binds: Seq<RuntimeShiftBind>,
) -> (HalfIds, HalfIds) {
    greedy(longest_first(split_components(rooms, pk, binds)), rooms)
}

/// Every id of every component is that of a production room.
pub open spec fn production_only(cs: Seq<Seq<Seq<char>>>, rooms: Seq<BlueprintRoom>) -> bool {
    forall|c: int, j: int|
        0 <= c < cs.len() && 0 <= j < cs[c].len() ==> (last_kind(rooms, #[trigger] cs[c][j]) matches Some(k)
            && is_production(k))
}

/// Each component of `sub` is one of `cs`.
pub open spec fn drawn_from(sub: Seq<Seq<Seq<char>>>, cs: Seq<Seq<Seq<char>>>) -> bool {
    forall|k: int| 0 <= k < sub.len() ==> cs.contains(#[trigger] sub[k])
}

proof fn lemma_of_len_drawn(cs: Seq<Seq<Seq<char>>>, len: int)
    ensures
        drawn_from(of_len(cs, len), cs),
    decreases cs.len(),
{
    if cs.len() > 0 {
        let d = cs.drop_last();
        lemma_of_len_drawn(d, len);
        let p = of_len(d, len);
        assert forall|k: int| 0 <= k < of_len(cs, len).len() implies cs.contains(#[trigger] of_len(cs, len)[k]) by {
            if k < p.len() {
                assert(d.contains(p[k]));
                let i = choose|i: int| 0 <= i < d.len() && d[i] == p[k];
                assert(cs[i] == p[k]);
            } else {
                assert(cs[cs.len() - 1] == cs.last());
            }
        }
    }
}

proof fn lemma_longer_than_drawn(cs: Seq<Seq<Seq<char>>>, hi: int, lo: int)
    ensures
        drawn_from(longer_than(cs, hi, lo), cs),
    decreases hi - lo,
{
    if lo < hi {
        lemma_longer_than_drawn(cs, hi, lo + 1);
        lemma_of_len_drawn(cs, lo + 1);
        let a = longer_than(cs, hi, lo + 1);
        let b = of_len(cs, lo + 1);
        assert forall|k: int| 0 <= k < (a + b).len() implies cs.contains(#[trigger] (a + b)[k]) by {
            if k < a.len() {
                assert(cs.contains(a[k]));
            } else {
                assert(cs.contains(b[k - a.len()]));
            }
        }
    }
}

/// Every kind's rooms in the first half number those in the second, or one
/// more.
pub open spec fn alternated(g: (HalfIds, HalfIds)) -> bool {
    &&& 0 <= g.0.0.len() - g.1.0.len() <= 1
    &&& 0 <= g.0.1.len() - g.1.1.len() <= 1
    &&& 0 <= g.0.2.len() - g.1.2.len() <= 1
}

proof fn lemma_greedy_alternates(order: Seq<Seq<Seq<char>>>, rooms: Seq<BlueprintRoom>)
    requires
        production_only(order, rooms),
        forall|k: int| 0 <= k < order.len() ==> (#[trigger] order[k]).len() == 1,
    ensures
        alternated(greedy(order, rooms)),
    decreases order.len(),
{
    if order.len() > 0 {
        let d = order.drop_last();
        assert forall|c: int, j: int| 0 <= c < d.len() && 0 <= j < d[c].len() implies (last_kind(
            rooms,
            #[trigger] d[c][j],
        ) matches Some(k) && is_production(k)) by {
            assert(d[c] == order[c]);
        }
        assert forall|k: int| 0 <= k < d.len() implies (#[trigger] d[k]).len() == 1 by {
            assert(d[k] == order[k]);
        }
        lemma_greedy_alternates(d, rooms);
        let c = order.last();
        assert(c == order[order.len() - 1]);
        assert(c.len() == 1);
        assert(c.drop_last().len() == 0);
        assert(c.last() == c[0]);
        assert(last_kind(rooms, order[order.len() - 1][0]) matches Some(k) && is_production(k));
        let g = greedy(d, rooms);
        let x = c[0];
        assert(add_component(g.0, rooms, c.drop_last()) == g.0);
        assert(add_component(g.1, rooms, c.drop_last()) == g.1);
        assert(add_component(g.0, rooms, c) == add_room(g.0, rooms, x));
        assert(add_component(g.1, rooms, c) == add_room(g.1, rooms, x));
        assert(crowding(g.0, rooms, c.drop_last()) == 0);
        assert(crowding(g.1, rooms, c.drop_last()) == 0);
        assert(crowding(g.0, rooms, c) == kind_count(g.0, last_kind(rooms, x)));
        assert(crowding(g.1, rooms, c) == kind_count(g.1, last_kind(rooms, x)));
    }
}

/// Single-room components, placed in order, split every kind alternately:
/// the first half gets the first room of each kind, the second half the
/// next, and so on, so each kind's rooms differ by at most one between the
/// halves.
pub proof fn lemma_single_rooms_alternate(cs: Seq<Seq<Seq<char>>>, rooms: Seq<BlueprintRoom>)
    requires
        production_only(cs, rooms),
        forall|k: int| 0 <= k < cs.len() ==> (#[trigger] cs[k]).len() == 1,
    ensures
        alternated(greedy(longest_first(cs), rooms)),
{
    let order = longest_first(cs);
    lemma_longer_than_drawn(cs, max_len(cs), 0);
    assert forall|k: int| 0 <= k < order.len() implies (#[trigger] order[k]).len() == 1 by {
        assert(cs.contains(order[k]));
        let d = choose|d: int| 0 <= d < cs.len() && cs[d] == order[k];
    }
    assert forall|c: int, j: int| 0 <= c < order.len() && 0 <= j < order[c].len() implies (last_kind(
        rooms,
        #[trigger] order[c][j],
    ) matches Some(k) && is_production(k)) by {
        assert(cs.contains(order[c]));
        let d = choose|d: int| 0 <= d < cs.len() && cs[d] == order[c];
        assert(cs[d][j] == order[c][j]);
    }
    lemma_greedy_alternates(order, rooms);
}

/// Two sorted id lists with the same ids are equal.
pub proof fn lemma_sorted_unique(s: Seq<Seq<char>>, t: Seq<Seq<char>>)
    requires
        ids_sorted(s),
        ids_sorted(t),
        forall|id: Seq<char>| s.contains(id) <==> t.contains(id),
    ensures
        s == t,
    decreases s.len(),
{
    if s.len() == 0 {
        if t.len() > 0 {
            assert(t.contains(t[0]));
        }
        assert(s =~= t);
    } else {
        assert(s.contains(s[0]));
        let a = s[0];
        let i = choose|i: int| 0 <= i < t.len() && t[i] == a;
        let b = t[0];
        assert(t.contains(b));
        let j = choose|j: int| 0 <= j < s.len() && s[j] == b;
        if i > 0 && j > 0 {
            assert(seq_lt(t[0], t[i]));
            assert(seq_lt(s[0], s[j]));
            lemma_seq_lt_asymmetric(a, b);
        }
        assert(a == b);
        let s1 = s.drop_first();
        let t1 = t.drop_first();
        assert forall|id: Seq<char>| s1.contains(id) <==> t1.contains(id) by {
            if s1.contains(id) {
                let k = choose|k: int| 0 <= k < s1.len() && s1[k] == id;
                assert(s[k + 1] == id);
                assert(seq_lt(s[0], s[k + 1]));
                assert(t.contains(id));
                let m = choose|m: int| 0 <= m < t.len() && t[m] == id;
                if m == 0 {
                    lemma_seq_lt_irreflexive(a);
                }
                assert(t1[m - 1] == id);
            }
            if t1.contains(id) {
                let k = choose|k: int| 0 <= k < t1.len() && t1[k] == id;
                assert(t[k + 1] == id);
                assert(seq_lt(t[0], t[k + 1]));
                assert(s.contains(id));
                let m = choose|m: int| 0 <= m < s.len() && s[m] == id;
                if m == 0 {
                    lemma_seq_lt_irreflexive(a);
                }
                assert(s1[m - 1] == id);
            }
        }
        assert forall|x: int, y: int| 0 <= x < y < s1.len() implies seq_lt(#[trigger] s1[x], #[trigger] s1[y]) by {
            assert(s1[x] == s[x + 1] && s1[y] == s[y + 1]);
        }
        assert forall|x: int, y: int| 0 <= x < y < t1.len() implies seq_lt(#[trigger] t1[x], #[trigger] t1[y]) by {
            assert(t1[x] == t[x + 1] && t1[y] == t[y + 1]);
        }
        lemma_sorted_unique(s1, t1);
        assert(s =~= seq![a] + s1);
        assert(t =~= seq![b] + t1);
    }
}

/// A sorted list of exactly the ids of the components that meet `bound` is
/// their join.
pub proof fn lemma_joined(cs: Seq<Seq<Seq<char>>>, bound: Seq<Seq<char>>, s: Seq<Seq<char>>)
    requires
        ids_sorted(s),
        forall|id: Seq<char>| s.contains(id) <==> in_met(cs, bound, id),
    ensures
        joined(cs, bound) == s,
{
    let j = joined(cs, bound);
    assert(ids_sorted(j) && forall|id: Seq<char>| #[trigger] j.contains(id) <==> in_met(cs, bound, id));
    lemma_sorted_unique(j, s);
}

/// A name is in a list of strings exactly when it is among their views.
pub proof fn lemma_has_name_views(v: Seq<String>, n: Seq<char>)
    ensures
        has_name(v, n) <==> views(v).contains(n),
{
    if has_name(v, n) {
        let k = choose|k: int| 0 <= k < v.len() && #[trigger] v[k]@ == n;
        assert(views(v)[k] == n);
    }
    if views(v).contains(n) {
        let k = choose|k: int| 0 <= k < views(v).len() && views(v)[k] == n;
        assert(v[k]@ == n);
    }
}

/// A component touches a list of strings exactly when its ids meet theirs.
pub proof fn lemma_touches_meets(comp: Seq<String>, bound: Seq<String>)
    ensures
        touches(comp, bound) <==> meets(views(comp), views(bound)),
{
    reveal(touches);
    if touches(comp, bound) {
        let j = choose|j: int| 0 <= j < comp.len() && has_name(bound, #[trigger] comp[j]@);
        lemma_has_name_views(bound, comp[j]@);
        assert(views(comp)[j] == comp[j]@);
    }
    if meets(views(comp), views(bound)) {
        let j = choose|j: int| 0 <= j < views(comp).len() && views(bound).contains(#[trigger] views(comp)[j]);
        lemma_has_name_views(bound, comp[j]@);
        assert(views(comp)[j] == comp[j]@);
    }
}

} // verus!
