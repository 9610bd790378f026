//! The three-team rotation: teams alpha, beta and gamma, the two halves of the
//! production facilities, and the helpers that split, staff and align them.

use vstd::prelude::*;

use crate::layout::{
    is_production, AssignedOperator, BaseAssignment, BaseBlueprint, BlueprintRoom, Efficiency, FacilityKind,
    RoomAssignment, RoomId,
};
use crate::schedule::halves::{
    add_component, add_room, after_binds, bound_rooms, comp_ids, greedy, half_ids, in_met, kept_apart,
    lemma_has_name_views, lemma_joined, lemma_single_rooms_alternate, lemma_touches_meets, longer_than,
    longest_first, max_len, meets, merge_met, no_rooms, of_len, production_ids, production_split, room_ids,
    singletons, split_components, alternated, crowding, kind_count,
};
use crate::schedule::shift_bind::{operator_room, room_for_operator, RuntimeShiftBind};
use crate::text::{
    clone_strings, contains_name, has_name, insert_sorted_unique, lemma_seq_lt_irreflexive, strictly_sorted, views,
};

verus! {

/// The three rotation teams. Each shift two teams work and one rests; every
/// facility is fully staffed in every shift.
#[derive(Debug, Clone, Copy, PartialEq, Eq, Hash, Structural)]
pub enum TeamLabel {
    Alpha,
    Beta,
    Gamma,
}

/// One team (rest cohort): the operators who rest in the same shift.
#[derive(Debug)]
pub struct TeamAssignment {
    pub label: TeamLabel,
    pub operators: Vec<String>,
}

/// One return of a resting core operator to its peak room, made possible by
/// a mood swap.
#[derive(Debug)]
pub struct FiammettaShiftAction {
    /// The core operator who returns to its post.
    pub target: String,
    /// The operator on shift it replaces, who goes to rest.
    pub displaced: String,
    /// The core operator's peak room, where the swap happens.
    pub room_id: RoomId,
}

/// Daily weighted output of trade, manufacture and power, kept apart.
#[derive(Debug, Clone, Copy, PartialEq, Eq, Structural)]
pub struct DailyTotals {
    pub trade: Efficiency,
    pub manufacture: Efficiency,
    pub power: Efficiency,
}

impl Default for DailyTotals {
    fn default() -> (res: Self)
        ensures
            res.trade.milli == 0,
            res.manufacture.milli == 0,
            res.power.milli == 0,
    {
        DailyTotals {
            trade: Efficiency { milli: 0 },
            manufacture: Efficiency { milli: 0 },
            power: Efficiency { milli: 0 },
        }
    }
}

/// One half of the production facilities: some trade posts, factories and
/// power plants.
#[derive(Debug)]
pub struct FacilityHalf {
    pub trade: Vec<RoomId>,
    pub manu: Vec<RoomId>,
    pub power: Vec<RoomId>,
}

impl FacilityHalf {
    /// A half with no rooms.
    pub fn new() -> (res: Self)
        ensures
            res.trade@.len() == 0,
            res.manu@.len() == 0,
            res.power@.len() == 0,
    {
        FacilityHalf { trade: Vec::new(), manu: Vec::new(), power: Vec::new() }
    }
}

impl Default for FacilityHalf {
    fn default() -> (res: Self)
        ensures
            res.trade@.len() == 0,
            res.manu@.len() == 0,
            res.power@.len() == 0,
    {
        FacilityHalf::new()
    }
}

/// Some room of the list has id `id`.
pub open spec fn has_room(v: Seq<RoomId>, id: Seq<char>) -> bool {
    exists|k: int| 0 <= k < v.len() && #[trigger] v[k].0@ == id
}

/// The half holds room `id`.
pub open spec fn in_half(h: FacilityHalf, id: Seq<char>) -> bool {
    has_room(h.trade@, id) || has_room(h.manu@, id) || has_room(h.power@, id)
}

/// Whether some room of the list has the id of `room`.
pub fn ids_contain(v: &Vec<RoomId>, room: &RoomId) -> (res: bool)
    ensures
        res == has_room(v@, room.0@),
{
    let mut k: usize = 0;
    while k < v.len()
        invariant
            0 <= k <= v@.len(),
            forall|j: int| 0 <= j < k ==> #[trigger] v@[j].0@ != room.0@,
        decreases v@.len() - k,
    {
        if v[k].same(room) {
            return true;
        }
        k += 1;
    }
    false
}

/// The two sequences are equal.
pub open spec fn same_seq<T>(a: Seq<T>, b: Seq<T>) -> bool {
    a == b
}

/// `v` is one of the components that do not touch `bound`.
pub open spec fn untouched_component(comps: Seq<Vec<String>>, bound: Seq<String>, v: Seq<String>) -> bool {
    exists|c: int| 0 <= c < comps.len() && !touches(#[trigger] comps[c]@, bound) && same_seq(v, comps[c]@)
}

/// Some element of `comp` is listed in `bound`.
#[verifier::opaque]
pub open spec fn touches(comp: Seq<String>, bound: Seq<String>) -> bool {
    exists|j: int| 0 <= j < comp.len() && has_name(bound, #[trigger] comp[j]@)
}

/// No room id occurs at two positions of the components.
pub open spec fn unique_positions(comps: Seq<Vec<String>>) -> bool {
    forall|c1: int, j1: int, c2: int, j2: int|
        0 <= c1 < comps.len() && 0 <= j1 < comps[c1]@.len() && 0 <= c2 < comps.len() && 0 <= j2 < comps[c2]@.len()
            && #[trigger] comps[c1]@[j1]@ == #[trigger] comps[c2]@[j2]@ ==> c1 == c2 && j1 == j2
}

/// Whether some element of `comp` is listed in `bound`.
fn touches_bound(comp: &Vec<String>, bound: &Vec<String>) -> (res: bool)
    ensures
        res == touches(comp@, bound@),
{
    let mut j: usize = 0;
    while j < comp.len()
        invariant
            0 <= j <= comp@.len(),
            forall|t: int| 0 <= t < j ==> !has_name(bound@, #[trigger] comp@[t]@),
        decreases comp@.len() - j,
    {
        if contains_name(bound, comp[j].as_str()) {
            proof {
                reveal(touches);
            }
            return true;
        }
        j += 1;
    }
    proof {
        reveal(touches);
    }
    false
}

proof fn lemma_merge_kept(
    comps: Seq<Vec<String>>,
    bound: Seq<String>,
    kept_s: Seq<Vec<String>>,
    idx: Seq<int>,
    res: Seq<Vec<String>>,
)
    requires
        res.len() == kept_s.len() + 1,
        forall|k: int| 0 <= k < kept_s.len() ==> #[trigger] res[k] == kept_s[k],
        kept_s.len() == idx.len(),
        forall|k: int| 0 <= k < idx.len() ==> 0 <= #[trigger] idx[k] < comps.len(),
        forall|k: int|
            0 <= k < idx.len() ==> same_seq(#[trigger] kept_s[k]@, comps[idx[k]]@) && !touches(comps[idx[k]]@, bound),
        forall|d: int|
            0 <= d < comps.len() && !touches(#[trigger] comps[d]@, bound) ==> exists|k: int|
                0 <= k < idx.len() && #[trigger] idx[k] == d,
    ensures
        forall|k: int| 0 <= k < res.len() - 1 ==> #[trigger] untouched_component(comps, bound, res[k]@),
        forall|c: int|
            0 <= c < comps.len() && !touches(#[trigger] comps[c]@, bound) ==> exists|k: int|
                0 <= k < res.len() - 1 && same_seq(#[trigger] res[k]@, comps[c]@),
{
    assert forall|k: int| 0 <= k < res.len() - 1 implies #[trigger] untouched_component(comps, bound, res[k]@) by {
        assert(res[k] == kept_s[k]);
        assert(0 <= k < idx.len());
        assert(same_seq(kept_s[k]@, comps[idx[k]]@));
        assert(!touches(comps[idx[k]]@, bound));
    }
    assert forall|d: int|
        0 <= d < comps.len() && !touches(#[trigger] comps[d]@, bound) implies exists|k: int|
        0 <= k < res.len() - 1 && same_seq(#[trigger] res[k]@, comps[d]@) by {
        let k = choose|k: int| 0 <= k < idx.len() && #[trigger] idx[k] == d;
        assert(res[k] == kept_s[k]);
        assert(same_seq(kept_s[k]@, comps[idx[k]]@));
    }
}

proof fn lemma_merge_unique(
    comps: Seq<Vec<String>>,
    bound: Seq<String>,
    kept_s: Seq<Vec<String>>,
    idx: Seq<int>,
    merged: Seq<String>,
    res: Seq<Vec<String>>,
)
    requires
        unique_positions(comps),
        res.len() == kept_s.len() + 1,
        forall|k: int| 0 <= k < kept_s.len() ==> #[trigger] res[k] == kept_s[k],
        res.last()@ == merged,
        kept_s.len() == idx.len(),
        forall|k: int| 0 <= k < idx.len() ==> 0 <= #[trigger] idx[k] < comps.len(),
        forall|a: int, b: int| 0 <= a < b < idx.len() ==> #[trigger] idx[a] < #[trigger] idx[b],
        forall|k: int|
            0 <= k < idx.len() ==> same_seq(#[trigger] kept_s[k]@, comps[idx[k]]@) && !touches(comps[idx[k]]@, bound),
        strictly_sorted(merged),
        forall|id: Seq<char>|
            has_name(merged, id) ==> exists|d: int|
                0 <= d < comps.len() && touches(#[trigger] comps[d]@, bound) && has_name(comps[d]@, id),
    ensures
        unique_positions(res),
{
    assert forall|c1: int, j1: int, c2: int, j2: int|
        0 <= c1 < res.len() && 0 <= j1 < res[c1]@.len() && 0 <= c2 < res.len() && 0 <= j2 < res[c2]@.len()
            && #[trigger] res[c1]@[j1]@ == #[trigger] res[c2]@[j2]@ implies c1 == c2 && j1 == j2 by {
        let last = res.len() - 1;
        if c1 < last && c2 < last {
            assert(res[c1] == kept_s[c1] && res[c2] == kept_s[c2]);
            assert(kept_s[c1]@ == comps[idx[c1]]@);
            assert(kept_s[c2]@ == comps[idx[c2]]@);
            assert(comps[idx[c1]]@[j1]@ == comps[idx[c2]]@[j2]@);
            if c1 < c2 {
                assert(idx[c1] < idx[c2]);
            } else if c2 < c1 {
                assert(idx[c2] < idx[c1]);
            }
        } else if c1 == last && c2 == last {
            if j1 < j2 {
                lemma_seq_lt_irreflexive(merged[j1]@);
                assert(crate::text::seq_lt(merged[j1]@, merged[j2]@));
            } else if j2 < j1 {
                lemma_seq_lt_irreflexive(merged[j1]@);
                assert(crate::text::seq_lt(merged[j2]@, merged[j1]@));
            }
        } else {
            let (ck, jk, cm, jm) = if c1 < last {
                (c1, j1, c2, j2)
            } else {
                (c2, j2, c1, j1)
            };
            let id = res[cm]@[jm]@;
            assert(has_name(merged, id)) by {
                assert(merged[jm]@ == id);
            }
            let d = choose|d: int|
                0 <= d < comps.len() && touches(#[trigger] comps[d]@, bound) && has_name(comps[d]@, id);
            let t = choose|t: int| 0 <= t < comps[d]@.len() && #[trigger] comps[d]@[t]@ == id;
            assert(res[ck] == kept_s[ck]);
            assert(kept_s[ck]@ == comps[idx[ck]]@);
            assert(comps[idx[ck]]@[jk]@ == id);
            assert(comps[d]@[t]@ == comps[idx[ck]]@[jk]@);
            assert(d == idx[ck]);
        }
    }
}

/// `new` is `old` with the components that touch `bound` merged into one
/// strictly sorted component placed last.
pub open spec fn merge_result(old: Seq<Vec<String>>, bound: Seq<String>, new: Seq<Vec<String>>) -> bool {
    &&& new.len() >= 1
    &&& strictly_sorted(new.last()@)
    &&& forall|id: Seq<char>|
        has_name(new.last()@, id) <==> exists|c: int|
            0 <= c < old.len() && touches(#[trigger] old[c]@, bound) && has_name(old[c]@, id)
    &&& forall|k: int| 0 <= k < new.len() - 1 ==> #[trigger] untouched_component(old, bound, new[k]@)
    &&& forall|c: int|
        0 <= c < old.len() && !touches(#[trigger] old[c]@, bound) ==> exists|k: int|
            0 <= k < new.len() - 1 && same_seq(#[trigger] new[k]@, old[c]@)
}

/// Every room of the components is in `prod`, and every id of `prod` is in a
/// component.
pub open spec fn components_ok(comps: Seq<Vec<String>>, prod: Seq<String>) -> bool {
    &&& forall|c: int, j: int|
        0 <= c < comps.len() && 0 <= j < comps[c]@.len() ==> has_name(prod, #[trigger] comps[c]@[j]@)
    &&& forall|id: Seq<char>| has_name(prod, id) ==> exists|c: int| 0 <= c < comps.len() && has_name(#[trigger] comps[c]@, id)
}

/// Some component holds both `a` and `b`.
pub open spec fn together(comps: Seq<Vec<String>>, a: Seq<char>, b: Seq<char>) -> bool {
    exists|c: int| 0 <= c < comps.len() && has_name(#[trigger] comps[c]@, a) && has_name(comps[c]@, b)
}

/// The production rooms of the members of `bind` share a component.
pub open spec fn bind_cohesive(
    comps: Seq<Vec<String>>,
    bind: RuntimeShiftBind,
    rooms: Seq<BlueprintRoom>,
    peak: Seq<RoomAssignment>,
) -> bool {
    forall|k1: int, k2: int|
        0 <= k1 < bind.operators@.len() && 0 <= k2 < bind.operators@.len() && production_room_of(
            rooms,
            peak,
            #[trigger] bind.operators@[k1]@,
        ) is Some && production_room_of(rooms, peak, #[trigger] bind.operators@[k2]@) is Some ==> together(
            comps,
            production_room_of(rooms, peak, bind.operators@[k1]@).unwrap(),
            production_room_of(rooms, peak, bind.operators@[k2]@).unwrap(),
        )
}

proof fn lemma_merge_components_ok(old: Seq<Vec<String>>, bound: Seq<String>, new: Seq<Vec<String>>, prod: Seq<String>)
    requires
        merge_result(old, bound, new),
        components_ok(old, prod),
    ensures
        components_ok(new, prod),
{
    assert forall|c: int, j: int| 0 <= c < new.len() && 0 <= j < new[c]@.len() implies has_name(
        prod,
        #[trigger] new[c]@[j]@,
    ) by {
        let id = new[c]@[j]@;
        if c == new.len() - 1 {
            assert(has_name(new.last()@, id)) by {
                assert(new.last()@[j]@ == id);
            }
            let d = choose|d: int| 0 <= d < old.len() && touches(#[trigger] old[d]@, bound) && has_name(old[d]@, id);
            let t = choose|t: int| 0 <= t < old[d]@.len() && #[trigger] old[d]@[t]@ == id;
            assert(has_name(prod, old[d]@[t]@));
        } else {
            assert(untouched_component(old, bound, new[c]@));
            let d = choose|d: int| 0 <= d < old.len() && !touches(#[trigger] old[d]@, bound) && same_seq(new[c]@, old[d]@);
            assert(old[d]@[j]@ == id);
            assert(has_name(prod, old[d]@[j]@));
        }
    }
    assert forall|id: Seq<char>| has_name(prod, id) implies exists|c: int|
        0 <= c < new.len() && has_name(#[trigger] new[c]@, id) by {
        let d = choose|d: int| 0 <= d < old.len() && has_name(#[trigger] old[d]@, id);
        if touches(old[d]@, bound) {
            assert(has_name(new.last()@, id));
            assert(has_name(new[new.len() - 1]@, id));
        } else {
            let k = choose|k: int| 0 <= k < new.len() - 1 && same_seq(#[trigger] new[k]@, old[d]@);
            assert(has_name(new[k]@, id));
        }
    }
}

proof fn lemma_merge_together(old: Seq<Vec<String>>, bound: Seq<String>, new: Seq<Vec<String>>, a: Seq<char>, b: Seq<char>)
    requires
        merge_result(old, bound, new),
        together(old, a, b),
    ensures
        together(new, a, b),
{
    let d = choose|d: int| 0 <= d < old.len() && has_name(#[trigger] old[d]@, a) && has_name(old[d]@, b);
    if touches(old[d]@, bound) {
        assert(has_name(new.last()@, a));
        assert(has_name(new.last()@, b));
        assert(has_name(new[new.len() - 1]@, a));
    } else {
        let k = choose|k: int| 0 <= k < new.len() - 1 && same_seq(#[trigger] new[k]@, old[d]@);
        assert(has_name(new[k]@, a));
    }
}

proof fn lemma_merge_bound_together(
    old: Seq<Vec<String>>,
    bound: Seq<String>,
    new: Seq<Vec<String>>,
    prod: Seq<String>,
    a: Seq<char>,
    b: Seq<char>,
)
    requires
        merge_result(old, bound, new),
        components_ok(old, prod),
        has_name(bound, a),
        has_name(bound, b),
        has_name(prod, a),
        has_name(prod, b),
    ensures
        together(new, a, b),
{
    reveal(touches);
    let da = choose|d: int| 0 <= d < old.len() && has_name(#[trigger] old[d]@, a);
    let ta = choose|t: int| 0 <= t < old[da]@.len() && #[trigger] old[da]@[t]@ == a;
    assert(has_name(bound, old[da]@[ta]@));
    assert(touches(old[da]@, bound));
    let db = choose|d: int| 0 <= d < old.len() && has_name(#[trigger] old[d]@, b);
    let tb = choose|t: int| 0 <= t < old[db]@.len() && #[trigger] old[db]@[t]@ == b;
    assert(has_name(bound, old[db]@[tb]@));
    assert(touches(old[db]@, bound));
    assert(has_name(new.last()@, a));
    assert(has_name(new.last()@, b));
    assert(has_name(new[new.len() - 1]@, a));
}

/// Merges every component that touches `bound` into one component, sorted by
/// id without repeats, placed last; the other components keep their order.
fn merge_components(comps: Vec<Vec<String>>, bound: &Vec<String>) -> (res: Vec<Vec<String>>)
    ensures
        merge_result(comps@, bound@, res@),
        unique_positions(comps@) ==> unique_positions(res@),
        comp_ids(res@) == merge_met(comp_ids(comps@), views(bound@)),
{
    let ghost cv = comp_ids(comps@);
    let ghost vb = views(bound@);
    let mut kept: Vec<Vec<String>> = Vec::new();
    let mut merged: Vec<String> = Vec::new();
    let ghost mut idx: Seq<int> = Seq::empty();
    let mut c: usize = 0;
    assert(comp_ids(kept@) =~= kept_apart(cv.take(0), vb));
    while c < comps.len()
        invariant
            0 <= c <= comps@.len(),
            cv == comp_ids(comps@),
            vb == views(bound@),
            comp_ids(kept@) == kept_apart(cv.take(c as int), vb),
            kept@.len() == idx.len(),
            forall|k: int| 0 <= k < idx.len() ==> 0 <= #[trigger] idx[k] < c,
            forall|a: int, b: int| 0 <= a < b < idx.len() ==> #[trigger] idx[a] < #[trigger] idx[b],
            forall|k: int|
                0 <= k < idx.len() ==> same_seq(#[trigger] kept@[k]@, comps@[idx[k]]@) && !touches(comps@[idx[k]]@, bound@),
            forall|d: int|
                0 <= d < c && !touches(#[trigger] comps@[d]@, bound@) ==> exists|k: int|
                    0 <= k < idx.len() && #[trigger] idx[k] == d,
            strictly_sorted(merged@),
            forall|id: Seq<char>|
                has_name(merged@, id) <==> exists|d: int|
                    0 <= d < c && touches(#[trigger] comps@[d]@, bound@) && has_name(comps@[d]@, id),
        decreases comps@.len() - c,
    {
        let comp = &comps[c];
        proof {
            assert(cv.take(c + 1).drop_last() =~= cv.take(c as int));
            assert(cv.take(c + 1).last() == views(comp@));
            lemma_touches_meets(comp@, bound@);
        }
        if touches_bound(comp, bound) {
            let mut j: usize = 0;
            while j < comp.len()
                invariant
                    0 <= j <= comp@.len(),
                    *comp == comps@[c as int],
                    touches(comp@, bound@),
                    strictly_sorted(merged@),
                    forall|id: Seq<char>|
                        has_name(merged@, id) <==> (exists|d: int|
                            0 <= d < c && touches(#[trigger] comps@[d]@, bound@) && has_name(comps@[d]@, id))
                            || exists|t: int| 0 <= t < j && #[trigger] comp@[t]@ == id,
                decreases comp@.len() - j,
            {
                let ghost before = merged@;
                insert_sorted_unique(&mut merged, comp[j].clone());
                proof {
                    assert forall|id: Seq<char>| has_name(merged@, id) <==> (exists|d: int|
                        0 <= d < c && touches(#[trigger] comps@[d]@, bound@) && has_name(comps@[d]@, id))
                        || exists|t: int| 0 <= t < j + 1 && #[trigger] comp@[t]@ == id by {
                        if id == comp@[j as int]@ {
                            assert(comp@[j as int]@ == id);
                        }
                    }
                }
                j += 1;
            }
            proof {
                assert forall|id: Seq<char>| has_name(merged@, id) <==> exists|d: int|
                    0 <= d < c + 1 && touches(#[trigger] comps@[d]@, bound@) && has_name(comps@[d]@, id) by {
                    if exists|t: int| 0 <= t < comp@.len() && #[trigger] comp@[t]@ == id {
                        let t = choose|t: int| 0 <= t < comp@.len() && #[trigger] comp@[t]@ == id;
                        assert(has_name(comps@[c as int]@, id));
                    }
                    if has_name(comps@[c as int]@, id) {
                        let t = choose|t: int| 0 <= t < comps@[c as int]@.len() && #[trigger] comps@[c as int]@[t]@ == id;
                        assert(comp@[t]@ == id);
                    }
                }
                assert forall|d: int|
                    0 <= d < c + 1 && !touches(#[trigger] comps@[d]@, bound@) implies exists|k: int|
                    0 <= k < idx.len() && #[trigger] idx[k] == d by {
                    assert(d != c);
                }
            }
        } else {
            let ghost kept_before = kept@;
            kept.push(clone_strings(comp));
            proof {
                assert(comp_ids(kept@) =~= comp_ids(kept_before).push(views(comp@)));
                let old_idx = idx;
                idx = idx.push(c as int);
                assert forall|d: int|
                    0 <= d < c + 1 && !touches(#[trigger] comps@[d]@, bound@) implies exists|k: int|
                    0 <= k < idx.len() && #[trigger] idx[k] == d by {
                    if d == c {
                        assert(idx[old_idx.len() as int] == d);
                    } else {
                        let k = choose|k: int| 0 <= k < old_idx.len() && #[trigger] old_idx[k] == d;
                        assert(idx[k] == d);
                    }
                }
                assert forall|k: int| 0 <= k < idx.len() implies same_seq(#[trigger] kept@[k]@, comps@[idx[k]]@) && !touches(
                    comps@[idx[k]]@,
                    bound@,
                ) by {
                    if k < old_idx.len() {
                        assert(idx[k] == old_idx[k]);
                    }
                }
                assert forall|id: Seq<char>| has_name(merged@, id) <==> exists|d: int|
                    0 <= d < c + 1 && touches(#[trigger] comps@[d]@, bound@) && has_name(comps@[d]@, id) by {
                    if exists|d: int| 0 <= d < c + 1 && touches(#[trigger] comps@[d]@, bound@) && has_name(comps@[d]@, id) {
                        let d = choose|d: int|
                            0 <= d < c + 1 && touches(#[trigger] comps@[d]@, bound@) && has_name(comps@[d]@, id);
                        assert(d != c);
                    }
                }
            }
        }
        c += 1;
    }
    let ghost kept_s = kept@;
    let ghost merged_s = merged@;
    kept.push(merged);
    proof {
        assert(cv.take(c as int) =~= cv);
        assert(comp_ids(kept@) =~= comp_ids(kept_s).push(views(merged_s)));
        assert forall|a: int, b: int| 0 <= a < b < views(merged_s).len() implies crate::text::seq_lt(
            #[trigger] views(merged_s)[a],
            #[trigger] views(merged_s)[b],
        ) by {
            assert(views(merged_s)[a] == merged_s[a]@ && views(merged_s)[b] == merged_s[b]@);
        }
        assert forall|id: Seq<char>| views(merged_s).contains(id) <==> in_met(cv, vb, id) by {
            lemma_has_name_views(merged_s, id);
            if in_met(cv, vb, id) {
                let d = choose|d: int| 0 <= d < cv.len() && meets(#[trigger] cv[d], vb) && cv[d].contains(id);
                lemma_touches_meets(comps@[d]@, bound@);
                lemma_has_name_views(comps@[d]@, id);
            }
            if has_name(merged_s, id) {
                let d = choose|d: int|
                    0 <= d < c && touches(#[trigger] comps@[d]@, bound@) && has_name(comps@[d]@, id);
                lemma_touches_meets(comps@[d]@, bound@);
                lemma_has_name_views(comps@[d]@, id);
                assert(meets(cv[d], vb) && cv[d].contains(id));
            }
        }
        lemma_joined(cv, vb, views(merged_s));
        assert(kept@.last()@ == merged_s);
        lemma_merge_kept(comps@, bound@, kept_s, idx, kept@);
        if unique_positions(comps@) {
            lemma_merge_unique(comps@, bound@, kept_s, idx, merged_s, kept@);
        }
    }
    kept
}

/// Kind of the last blueprint room with id `id` (a later room with the same
/// id takes precedence).
pub open spec fn last_kind(rooms: Seq<BlueprintRoom>, id: Seq<char>) -> Option<FacilityKind>
    decreases rooms.len(),
{
    if rooms.len() == 0 {
        None
    } else if rooms.last().id.0@ == id {
        Some(rooms.last().kind)
    } else {
        last_kind(rooms.drop_last(), id)
    }
}

/// Some trade post, factory or power plant of the blueprint has id `id`.
pub open spec fn is_production_room_id(rooms: Seq<BlueprintRoom>, id: Seq<char>) -> bool {
    exists|i: int| 0 <= i < rooms.len() && #[trigger] rooms[i].id.0@ == id && is_production(rooms[i].kind)
}

/// Where two rooms share an id, a production room is not overridden by a
/// room of another kind.
pub open spec fn production_kinds_consistent(rooms: Seq<BlueprintRoom>) -> bool {
    forall|i: int|
        0 <= i < rooms.len() && is_production(rooms[i].kind) ==> (last_kind(rooms, #[trigger] rooms[i].id.0@) matches Some(
            k,
        ) && is_production(k))
}

/// No two blueprint rooms share an id.
pub open spec fn distinct_room_ids(rooms: Seq<BlueprintRoom>) -> bool {
    forall|a: int, b: int| 0 <= a < b < rooms.len() ==> #[trigger] rooms[a].id.0@ != #[trigger] rooms[b].id.0@
}

/// The first of `names` that works in no room of `peak`.
pub open spec fn first_missing_in(names: Seq<String>, peak: Seq<RoomAssignment>) -> Option<Seq<char>>
    decreases names.len(),
{
    if names.len() == 0 {
        None
    } else if operator_room(peak, names[0]@) is None {
        Some(names[0]@)
    } else {
        first_missing_in(names.drop_first(), peak)
    }
}

/// The first bind member, bind by bind, that works in no room of `peak`.
pub open spec fn first_missing(binds: Seq<RuntimeShiftBind>, peak: Seq<RoomAssignment>) -> Option<Seq<char>>
    decreases binds.len(),
{
    if binds.len() == 0 {
        None
    } else {
        match first_missing_in(binds[0].operators@, peak) {
            Some(n) => Some(n),
            None => first_missing(binds.drop_first(), peak),
        }
    }
}

/// The production room `name` works in at peak, if it works in one.
pub open spec fn production_room_of(
    rooms: Seq<BlueprintRoom>,
    peak: Seq<RoomAssignment>,
    name: Seq<char>,
) -> Option<Seq<char>> {
    match operator_room(peak, name) {
        Some(r) => if is_production_room_id(rooms, r.0@) {
            Some(r.0@)
        } else {
            None
        },
        None => None,
    }
}

/// Every room of the list is a production room whose kind is `kind`.
pub open spec fn list_of_kind(v: Seq<RoomId>, rooms: Seq<BlueprintRoom>, kind: FacilityKind) -> bool {
    forall|k: int|
        0 <= k < v.len() ==> is_production_room_id(rooms, #[trigger] v[k].0@) && last_kind(rooms, v[k].0@) == Some(
            kind,
        )
}

/// No id occurs twice in the list.
pub open spec fn no_dup_ids(v: Seq<RoomId>) -> bool {
    forall|a: int, b: int| 0 <= a < b < v.len() ==> #[trigger] v[a].0@ != #[trigger] v[b].0@
}

/// `h0` and `h1` split the production rooms of the blueprint: trade posts,
/// factories and power plants each in their list, every production room in a
/// half, and, when room ids are distinct, every room exactly once.
pub open spec fn is_production_split(h0: FacilityHalf, h1: FacilityHalf, rooms: Seq<BlueprintRoom>) -> bool {
    &&& list_of_kind(h0.trade@, rooms, FacilityKind::TradePost)
    &&& list_of_kind(h0.manu@, rooms, FacilityKind::Factory)
    &&& list_of_kind(h0.power@, rooms, FacilityKind::PowerPlant)
    &&& list_of_kind(h1.trade@, rooms, FacilityKind::TradePost)
    &&& list_of_kind(h1.manu@, rooms, FacilityKind::Factory)
    &&& list_of_kind(h1.power@, rooms, FacilityKind::PowerPlant)
    &&& forall|id: Seq<char>| #[trigger] is_production_room_id(rooms, id) ==> in_half(h0, id) || in_half(h1, id)
    &&& distinct_room_ids(rooms) ==> {
        &&& no_dup_ids(h0.trade@) && no_dup_ids(h0.manu@) && no_dup_ids(h0.power@)
        &&& no_dup_ids(h1.trade@) && no_dup_ids(h1.manu@) && no_dup_ids(h1.power@)
        &&& forall|id: Seq<char>| !(#[trigger] in_half(h0, id) && in_half(h1, id))
    }
}

/// The production rooms of the members of each bind lie in one half.
pub open spec fn keeps_binds_together(
    h0: FacilityHalf,
    binds: Seq<RuntimeShiftBind>,
    rooms: Seq<BlueprintRoom>,
    peak: Seq<RoomAssignment>,
) -> bool {
    forall|b: int, k1: int, k2: int|
        0 <= b < binds.len() && 0 <= k1 < binds[b].operators@.len() && 0 <= k2 < binds[b].operators@.len()
            && production_room_of(rooms, peak, #[trigger] binds[b].operators@[k1]@) is Some && production_room_of(
            rooms,
            peak,
            #[trigger] binds[b].operators@[k2]@,
        ) is Some ==> (in_half(h0, production_room_of(rooms, peak, binds[b].operators@[k1]@).unwrap()) <==> in_half(
            h0,
            production_room_of(rooms, peak, binds[b].operators@[k2]@).unwrap(),
        ))
}

/// Why the production facilities could not be split.
#[derive(Debug)]
pub enum SplitError {
    /// A bind member works in no room of the peak shift.
    MissingFromPeak { operator: String },
}

impl SplitError {
    /// The error as text.
    pub fn message(&self) -> (res: String)
        ensures
            match self {
                SplitError::MissingFromPeak { operator } => res@ == "shift bind operator "@ + operator@
                    + " missing from peak"@,
            },
    {
        match self {
            SplitError::MissingFromPeak { operator } => {
                let text = String::from_str("shift bind operator ");
                let text = text.concat(operator.as_str());
                text.concat(" missing from peak")
            },
        }
    }
}

/// Kind of the last blueprint room with id `id`.
fn last_room_kind(blueprint: &BaseBlueprint, id: &str) -> (res: Option<FacilityKind>)
    ensures
        res == last_kind(blueprint.rooms@, id@),
{
    let mut i: usize = blueprint.rooms.len();
    assert(blueprint.rooms@.take(i as int) == blueprint.rooms@);
    while i > 0
        invariant
            0 <= i <= blueprint.rooms@.len(),
            last_kind(blueprint.rooms@, id@) == last_kind(blueprint.rooms@.take(i as int), id@),
        decreases i,
    {
        let room = &blueprint.rooms[i - 1];
        assert(blueprint.rooms@.take(i as int).last() == *room);
        assert(blueprint.rooms@.take(i as int).drop_last() == blueprint.rooms@.take(i - 1));
        if crate::text::str_eq(room.id.0.as_str(), id) {
            return Some(room.kind);
        }
        i -= 1;
    }
    None
}

/// Some room among `rooms` has id `id`.
pub open spec fn has_room_id(rooms: Seq<BlueprintRoom>, id: Seq<char>) -> bool {
    exists|t: int| 0 <= t < rooms.len() && #[trigger] rooms[t].id.0@ == id
}

/// Ids of the production rooms of the blueprint, in blueprint order.
fn production_room_ids(blueprint: &BaseBlueprint) -> (res: Vec<String>)
    ensures
        views(res@) == production_ids(blueprint.rooms@),
        forall|id: Seq<char>| has_name(res@, id) <==> is_production_room_id(blueprint.rooms@, id),
        distinct_room_ids(blueprint.rooms@) ==> forall|a: int, b: int|
            0 <= a < b < res@.len() ==> #[trigger] res@[a]@ != #[trigger] res@[b]@,
{
    let ghost rooms = blueprint.rooms@;
    let mut out: Vec<String> = Vec::new();
    let mut i: usize = 0;
    assert(views(out@) =~= production_ids(rooms.take(0)));
    while i < blueprint.rooms.len()
        invariant
            0 <= i <= rooms.len(),
            rooms == blueprint.rooms@,
            views(out@) == production_ids(rooms.take(i as int)),
            forall|id: Seq<char>| has_name(out@, id) ==> is_production_room_id(rooms, id),
            forall|k: int| 0 <= k < out@.len() ==> has_room_id(rooms.take(i as int), #[trigger] out@[k]@),
            distinct_room_ids(rooms) ==> forall|a: int, b: int|
                0 <= a < b < out@.len() ==> #[trigger] out@[a]@ != #[trigger] out@[b]@,
            forall|t: int|
                0 <= t < i && is_production(rooms[t].kind) ==> has_name(out@, #[trigger] rooms[t].id.0@),
        decreases rooms.len() - i,
    {
        let room = &blueprint.rooms[i];
        let prod = match room.kind {
            FacilityKind::TradePost | FacilityKind::Factory | FacilityKind::PowerPlant => true,
            _ => false,
        };
        let ghost before = out@;
        proof {
            assert(rooms.take(i + 1).drop_last() =~= rooms.take(i as int));
            assert(rooms.take(i + 1).last() == *room);
        }
        if prod {
            let x = room.id.0.clone();
            out.push(x);
            proof {
                assert(views(out@) =~= views(before).push(x@));
                assert forall|id: Seq<char>| has_name(out@, id) implies is_production_room_id(rooms, id) by {
                    crate::text::lemma_has_name_push(before, x, id);
                    if id == x@ {
                        assert(rooms[i as int].id.0@ == id);
                    }
                }
                assert forall|t: int| 0 <= t < i + 1 && is_production(rooms[t].kind) implies has_name(
                    out@,
                    #[trigger] rooms[t].id.0@,
                ) by {
                    crate::text::lemma_has_name_push(before, x, rooms[t].id.0@);
                }
                if distinct_room_ids(rooms) {
                    assert forall|a: int, b: int| 0 <= a < b < out@.len() implies #[trigger] out@[a]@
                        != #[trigger] out@[b]@ by {
                        if b == before.len() {
                            assert(has_room_id(rooms.take(i as int), before[a]@));
                            let t = choose|t: int|
                                0 <= t < rooms.take(i as int).len() && #[trigger] rooms.take(i as int)[t].id.0@
                                    == before[a]@;
                            assert(rooms[t].id.0@ != rooms[i as int].id.0@);
                        } else {
                            assert(out@[a] == before[a] && out@[b] == before[b]);
                        }
                    }
                }
            }
        }
        proof {
            assert forall|k: int| 0 <= k < out@.len() implies has_room_id(rooms.take(i + 1), #[trigger] out@[k]@) by {
                if k < before.len() {
                    assert(out@[k] == before[k]);
                    let t = choose|t: int|
                        0 <= t < rooms.take(i as int).len() && #[trigger] rooms.take(i as int)[t].id.0@ == before[k]@;
                    assert(rooms.take(i + 1)[t] == rooms[t]);
                } else {
                    assert(rooms.take(i + 1)[i as int].id.0@ == out@[k]@);
                }
            }
        }
        i += 1;
    }
    proof {
        assert(rooms.take(i as int) =~= rooms);
        assert forall|id: Seq<char>| is_production_room_id(rooms, id) implies has_name(out@, id) by {
            let t = choose|t: int|
                0 <= t < rooms.len() && #[trigger] rooms[t].id.0@ == id && is_production(rooms[t].kind);
            assert(has_name(out@, rooms[t].id.0@));
        }
    }
    out
}

/// How crowded half `h` is for `comp`: for each room of `comp`, the rooms
/// of its kind the half holds.
fn crowding_of(h: &FacilityHalf, comp: &Vec<String>, blueprint: &BaseBlueprint) -> (res: u128)
    ensures
        res == crowding(half_ids(*h), blueprint.rooms@, views(comp@)),
{
    let ghost hv = half_ids(*h);
    let mut acc: u128 = 0;
    let mut j: usize = 0;
    assert(views(comp@.take(0)) =~= Seq::<Seq<char>>::empty());
    while j < comp.len()
        invariant
            0 <= j <= comp@.len(),
            hv == half_ids(*h),
            acc == crowding(hv, blueprint.rooms@, views(comp@.take(j as int))),
            acc <= j * (usize::MAX as int),
        decreases comp@.len() - j,
    {
        assert(views(comp@.take(j + 1)).drop_last() =~= views(comp@.take(j as int)));
        assert(views(comp@.take(j + 1)).last() == comp@[j as int]@);
        let kind = last_room_kind(blueprint, comp[j].as_str());
        let count: usize = match kind {
            Some(FacilityKind::TradePost) => h.trade.len(),
            Some(FacilityKind::Factory) => h.manu.len(),
            Some(FacilityKind::PowerPlant) => h.power.len(),
            _ => 0,
        };
        assert(count == kind_count(hv, kind));
        assert(acc + count <= (j + 1) * (usize::MAX as int)) by (nonlinear_arith)
            requires
                acc <= j * (usize::MAX as int),
                count <= usize::MAX,
        ;
        assert((j + 1) * (usize::MAX as int) <= (usize::MAX as int) * (usize::MAX as int)) by (nonlinear_arith)
            requires
                j + 1 <= usize::MAX,
        ;
        assert((usize::MAX as int) * (usize::MAX as int) < u128::MAX) by (nonlinear_arith)
            requires
                usize::MAX <= u64::MAX,
        ;
        acc = acc + count as u128;
        j += 1;
    }
    assert(comp@.take(j as int) =~= comp@);
    acc
}

/// The ids of the list keep their order and the list grows only at its end.
pub open spec fn extends(new: Seq<RoomId>, old: Seq<RoomId>) -> bool {
    new.len() >= old.len() && forall|k: int| 0 <= k < old.len() ==> #[trigger] new[k] == old[k]
}

/// Rooms added to `new` beyond `old` come from `comp` and have kind `kind`.
pub open spec fn added_from(
    new: Seq<RoomId>,
    old: Seq<RoomId>,
    comp: Seq<String>,
    rooms: Seq<BlueprintRoom>,
    kind: FacilityKind,
) -> bool {
    forall|k: int|
        old.len() <= k < new.len() ==> has_name(comp, #[trigger] new[k].0@) && last_kind(rooms, new[k].0@) == Some(
            kind,
        )
}

/// Rooms added to `new` beyond `old` are distinct.
pub open spec fn added_distinct(new: Seq<RoomId>, old: Seq<RoomId>) -> bool {
    forall|a: int, b: int| old.len() <= a < b < new.len() ==> #[trigger] new[a].0@ != #[trigger] new[b].0@
}

/// Adds each room of `comp` to the list of its kind.
fn place_component(h: &mut FacilityHalf, comp: &Vec<String>, blueprint: &BaseBlueprint)
    requires
        forall|j: int|
            0 <= j < comp@.len() ==> (last_kind(blueprint.rooms@, #[trigger] comp@[j]@) matches Some(k)
                && is_production(k)),
    ensures
        extends(final(h).trade@, old(h).trade@),
        extends(final(h).manu@, old(h).manu@),
        extends(final(h).power@, old(h).power@),
        added_from(final(h).trade@, old(h).trade@, comp@, blueprint.rooms@, FacilityKind::TradePost),
        added_from(final(h).manu@, old(h).manu@, comp@, blueprint.rooms@, FacilityKind::Factory),
        added_from(final(h).power@, old(h).power@, comp@, blueprint.rooms@, FacilityKind::PowerPlant),
        forall|j: int| 0 <= j < comp@.len() ==> in_half(*final(h), #[trigger] comp@[j]@),
        half_ids(*final(h)) == add_component(half_ids(*old(h)), blueprint.rooms@, views(comp@)),
        (forall|a: int, b: int| 0 <= a < b < comp@.len() ==> #[trigger] comp@[a]@ != #[trigger] comp@[b]@) ==> {
            &&& added_distinct(final(h).trade@, old(h).trade@)
            &&& added_distinct(final(h).manu@, old(h).manu@)
            &&& added_distinct(final(h).power@, old(h).power@)
        },
{
    let ghost t0 = h.trade@;
    let ghost m0 = h.manu@;
    let ghost p0 = h.power@;
    let ghost distinct = forall|a: int, b: int| 0 <= a < b < comp@.len() ==> #[trigger] comp@[a]@ != #[trigger] comp@[b]@;
    let ghost start = half_ids(*h);
    let mut j: usize = 0;
    assert(views(comp@.take(0)) =~= Seq::<Seq<char>>::empty());
    while j < comp.len()
        invariant
            0 <= j <= comp@.len(),
            half_ids(*h) == add_component(start, blueprint.rooms@, views(comp@.take(j as int))),
            forall|t: int|
                0 <= t < comp@.len() ==> (last_kind(blueprint.rooms@, #[trigger] comp@[t]@) matches Some(k)
                    && is_production(k)),
            distinct == forall|a: int, b: int| 0 <= a < b < comp@.len() ==> #[trigger] comp@[a]@ != #[trigger] comp@[b]@,
            extends(h.trade@, t0),
            extends(h.manu@, m0),
            extends(h.power@, p0),
            added_from(h.trade@, t0, comp@.take(j as int), blueprint.rooms@, FacilityKind::TradePost),
            added_from(h.manu@, m0, comp@.take(j as int), blueprint.rooms@, FacilityKind::Factory),
            added_from(h.power@, p0, comp@.take(j as int), blueprint.rooms@, FacilityKind::PowerPlant),
            forall|t: int| 0 <= t < j ==> in_half(*h, #[trigger] comp@[t]@),
            distinct ==> {
                &&& added_distinct(h.trade@, t0)
                &&& added_distinct(h.manu@, m0)
                &&& added_distinct(h.power@, p0)
            },
        decreases comp@.len() - j,
    {
        let id = &comp[j];
        let kind = last_room_kind(blueprint, id.as_str());
        let ghost x = id@;
        assert(comp@.take(j + 1) == comp@.take(j as int).push(*id));
        proof {
            if distinct {
                assert forall|k: int| t0.len() <= k < h.trade@.len() implies #[trigger] h.trade@[k].0@ != x by {
                    let tk = choose|tk: int| 0 <= tk < j && #[trigger] comp@.take(j as int)[tk]@ == h.trade@[k].0@;
                    assert(comp@[tk]@ == h.trade@[k].0@);
                }
                assert forall|k: int| m0.len() <= k < h.manu@.len() implies #[trigger] h.manu@[k].0@ != x by {
                    let tk = choose|tk: int| 0 <= tk < j && #[trigger] comp@.take(j as int)[tk]@ == h.manu@[k].0@;
                    assert(comp@[tk]@ == h.manu@[k].0@);
                }
                assert forall|k: int| p0.len() <= k < h.power@.len() implies #[trigger] h.power@[k].0@ != x by {
                    let tk = choose|tk: int| 0 <= tk < j && #[trigger] comp@.take(j as int)[tk]@ == h.power@[k].0@;
                    assert(comp@[tk]@ == h.power@[k].0@);
                }
            }
        }
        let ghost before = *h;
        match kind {
            Some(FacilityKind::TradePost) => {
                h.trade.push(RoomId(id.clone()));
            },
            Some(FacilityKind::Factory) => {
                h.manu.push(RoomId(id.clone()));
            },
            Some(FacilityKind::PowerPlant) => {
                h.power.push(RoomId(id.clone()));
            },
            _ => {},
        }
        proof {
            assert(views(comp@.take(j + 1)) =~= views(comp@.take(j as int)).push(x));
            assert(views(comp@.take(j + 1)).drop_last() =~= views(comp@.take(j as int)));
            assert(half_ids(*h) == add_room(half_ids(before), blueprint.rooms@, x)) by {
                assert(room_ids(h.trade@) =~= (if kind == Some(FacilityKind::TradePost) {
                    room_ids(before.trade@).push(x)
                } else {
                    room_ids(before.trade@)
                }));
                assert(room_ids(h.manu@) =~= (if kind == Some(FacilityKind::Factory) {
                    room_ids(before.manu@).push(x)
                } else {
                    room_ids(before.manu@)
                }));
                assert(room_ids(h.power@) =~= (if kind == Some(FacilityKind::PowerPlant) {
                    room_ids(before.power@).push(x)
                } else {
                    room_ids(before.power@)
                }));
            }
            assert(in_half(*h, x)) by {
                if kind == Some(FacilityKind::TradePost) {
                    assert(h.trade@[h.trade@.len() - 1].0@ == x);
                } else if kind == Some(FacilityKind::Factory) {
                    assert(h.manu@[h.manu@.len() - 1].0@ == x);
                } else {
                    assert(h.power@[h.power@.len() - 1].0@ == x);
                }
            }
            assert forall|t: int| 0 <= t < j + 1 implies in_half(*h, #[trigger] comp@[t]@) by {
                if t < j {
                    assert(in_half(before, comp@[t]@));
                    if has_room(before.trade@, comp@[t]@) {
                        let k = choose|k: int| 0 <= k < before.trade@.len() && #[trigger] before.trade@[k].0@ == comp@[t]@;
                        assert(h.trade@[k] == before.trade@[k]);
                    } else if has_room(before.manu@, comp@[t]@) {
                        let k = choose|k: int| 0 <= k < before.manu@.len() && #[trigger] before.manu@[k].0@ == comp@[t]@;
                        assert(h.manu@[k] == before.manu@[k]);
                    } else {
                        let k = choose|k: int| 0 <= k < before.power@.len() && #[trigger] before.power@[k].0@ == comp@[t]@;
                        assert(h.power@[k] == before.power@[k]);
                    }
                }
            }
            assert forall|k: int| t0.len() <= k < h.trade@.len() implies has_name(
                comp@.take(j + 1),
                #[trigger] h.trade@[k].0@,
            ) && last_kind(blueprint.rooms@, h.trade@[k].0@) == Some(FacilityKind::TradePost) by {
                if k < before.trade@.len() {
                    assert(h.trade@[k] == before.trade@[k]);
                    let tk = choose|tk: int| 0 <= tk < j && #[trigger] comp@.take(j as int)[tk]@ == h.trade@[k].0@;
                    assert(comp@.take(j + 1)[tk]@ == h.trade@[k].0@);
                } else {
                    assert(comp@.take(j + 1)[j as int]@ == h.trade@[k].0@);
                }
            }
            assert forall|k: int| m0.len() <= k < h.manu@.len() implies has_name(
                comp@.take(j + 1),
                #[trigger] h.manu@[k].0@,
            ) && last_kind(blueprint.rooms@, h.manu@[k].0@) == Some(FacilityKind::Factory) by {
                if k < before.manu@.len() {
                    assert(h.manu@[k] == before.manu@[k]);
                    let tk = choose|tk: int| 0 <= tk < j && #[trigger] comp@.take(j as int)[tk]@ == h.manu@[k].0@;
                    assert(comp@.take(j + 1)[tk]@ == h.manu@[k].0@);
                } else {
                    assert(comp@.take(j + 1)[j as int]@ == h.manu@[k].0@);
                }
            }
            assert forall|k: int| p0.len() <= k < h.power@.len() implies has_name(
                comp@.take(j + 1),
                #[trigger] h.power@[k].0@,
            ) && last_kind(blueprint.rooms@, h.power@[k].0@) == Some(FacilityKind::PowerPlant) by {
                if k < before.power@.len() {
                    assert(h.power@[k] == before.power@[k]);
                    let tk = choose|tk: int| 0 <= tk < j && #[trigger] comp@.take(j as int)[tk]@ == h.power@[k].0@;
                    assert(comp@.take(j + 1)[tk]@ == h.power@[k].0@);
                } else {
                    assert(comp@.take(j + 1)[j as int]@ == h.power@[k].0@);
                }
            }
            if distinct {
                assert forall|a: int, b: int| m0.len() <= a < b < h.manu@.len() implies #[trigger] h.manu@[a].0@
                    != #[trigger] h.manu@[b].0@ by {
                    assert(h.manu@[a] == before.manu@[a]);
                    if b < before.manu@.len() {
                        assert(h.manu@[b] == before.manu@[b]);
                    }
                }
                assert forall|a: int, b: int| p0.len() <= a < b < h.power@.len() implies #[trigger] h.power@[a].0@
                    != #[trigger] h.power@[b].0@ by {
                    assert(h.power@[a] == before.power@[a]);
                    if b < before.power@.len() {
                        assert(h.power@[b] == before.power@[b]);
                    }
                }
                assert forall|a: int, b: int| t0.len() <= a < b < h.trade@.len() implies #[trigger] h.trade@[a].0@
                    != #[trigger] h.trade@[b].0@ by {
                    assert(h.trade@[a] == before.trade@[a]);
                    if b < before.trade@.len() {
                        assert(h.trade@[b] == before.trade@[b]);
                    }
                }
            }
        }
        j += 1;
    }
    assert(comp@.take(comp@.len() as int) == comp@);
}

/// Component `d` is placed once the passes have reached length `len` and,
/// within that pass, index `cur`.
pub open spec fn placed(comps: Seq<Vec<String>>, d: int, len: int, cur: int) -> bool {
    comps[d]@.len() > len || (comps[d]@.len() == len && d < cur)
}

/// Every room of the list comes from a placed component assigned to side `s`.
pub open spec fn from_placed(
    v: Seq<RoomId>,
    comps: Seq<Vec<String>>,
    side: Seq<bool>,
    s: bool,
    len: int,
    cur: int,
) -> bool {
    forall|k: int| 0 <= k < v.len() ==> #[trigger] placed_source(comps, side, s, len, cur, v[k].0@)
}

/// Some placed component of side `s` holds `id`.
pub open spec fn placed_source(
    comps: Seq<Vec<String>>,
    side: Seq<bool>,
    s: bool,
    len: int,
    cur: int,
    id: Seq<char>,
) -> bool {
    exists|d: int|
        0 <= d < comps.len() && placed(comps, d, len, cur) && side[d] == s && has_name(#[trigger] comps[d]@, id)
}

/// The three lists of the half come from placed components of side `s`.
pub open spec fn half_from_placed(
    h: FacilityHalf,
    comps: Seq<Vec<String>>,
    side: Seq<bool>,
    s: bool,
    len: int,
    cur: int,
) -> bool {
    &&& from_placed(h.trade@, comps, side, s, len, cur)
    &&& from_placed(h.manu@, comps, side, s, len, cur)
    &&& from_placed(h.power@, comps, side, s, len, cur)
}

/// The lists of the half hold production rooms of their kind.
pub open spec fn half_of_kinds(h: FacilityHalf, rooms: Seq<BlueprintRoom>) -> bool {
    &&& list_of_kind(h.trade@, rooms, FacilityKind::TradePost)
    &&& list_of_kind(h.manu@, rooms, FacilityKind::Factory)
    &&& list_of_kind(h.power@, rooms, FacilityKind::PowerPlant)
}

/// No list of the half repeats an id.
pub open spec fn half_no_dup(h: FacilityHalf) -> bool {
    no_dup_ids(h.trade@) && no_dup_ids(h.manu@) && no_dup_ids(h.power@)
}

/// Every room of a placed component is in the half of its side.
pub open spec fn covered(
    h0: FacilityHalf,
    h1: FacilityHalf,
    comps: Seq<Vec<String>>,
    side: Seq<bool>,
    len: int,
    cur: int,
) -> bool {
    forall|d: int, j: int|
        0 <= d < comps.len() && placed(comps, d, len, cur) && 0 <= j < comps[d]@.len() ==> in_half(
            if side[d] {
                h1
            } else {
                h0
            },
            #[trigger] comps[d]@[j]@,
        )
}

/// The placement state after the components before `cur` of the pass `len`.
pub open spec fn placement_state(
    h0: FacilityHalf,
    h1: FacilityHalf,
    comps: Seq<Vec<String>>,
    side: Seq<bool>,
    rooms: Seq<BlueprintRoom>,
    len: int,
    cur: int,
) -> bool {
    &&& side.len() == comps.len()
    &&& half_of_kinds(h0, rooms)
    &&& half_of_kinds(h1, rooms)
    &&& half_from_placed(h0, comps, side, false, len, cur)
    &&& half_from_placed(h1, comps, side, true, len, cur)
    &&& covered(h0, h1, comps, side, len, cur)
    &&& unique_positions(comps) ==> half_no_dup(h0) && half_no_dup(h1)
}

/// Every list of `new` extends the same list of `old`.
pub open spec fn half_extends(new: FacilityHalf, old: FacilityHalf) -> bool {
    extends(new.trade@, old.trade@) && extends(new.manu@, old.manu@) && extends(new.power@, old.power@)
}

proof fn lemma_in_half_extends(old: FacilityHalf, new: FacilityHalf, id: Seq<char>)
    requires
        half_extends(new, old),
        in_half(old, id),
    ensures
        in_half(new, id),
{
    if has_room(old.trade@, id) {
        let k = choose|k: int| 0 <= k < old.trade@.len() && #[trigger] old.trade@[k].0@ == id;
        assert(new.trade@[k] == old.trade@[k]);
    } else if has_room(old.manu@, id) {
        let k = choose|k: int| 0 <= k < old.manu@.len() && #[trigger] old.manu@[k].0@ == id;
        assert(new.manu@[k] == old.manu@[k]);
    } else {
        let k = choose|k: int| 0 <= k < old.power@.len() && #[trigger] old.power@[k].0@ == id;
        assert(new.power@[k] == old.power@[k]);
    }
}

proof fn lemma_list_step(
    new: Seq<RoomId>,
    old: Seq<RoomId>,
    comps: Seq<Vec<String>>,
    side: Seq<bool>,
    s: bool,
    len: int,
    c: int,
    rooms: Seq<BlueprintRoom>,
    kind: FacilityKind,
)
    requires
        0 <= c < comps.len(),
        side.len() == comps.len(),
        comps[c]@.len() == len,
        extends(new, old),
        added_from(new, old, comps[c]@, rooms, kind),
        list_of_kind(old, rooms, kind),
        forall|c2: int, j: int|
            0 <= c2 < comps.len() && 0 <= j < comps[c2]@.len() ==> is_production_room_id(rooms, #[trigger] comps[c2]@[j]@),
        from_placed(old, comps, side, s, len, c),
        unique_positions(comps) ==> no_dup_ids(old) && added_distinct(new, old),
    ensures
        list_of_kind(new, rooms, kind),
        from_placed(new, comps, side.update(c, s), s, len, c + 1),
        unique_positions(comps) ==> no_dup_ids(new),
{
    let side2 = side.update(c, s);
    assert forall|k: int| 0 <= k < new.len() implies is_production_room_id(rooms, #[trigger] new[k].0@) && last_kind(
        rooms,
        new[k].0@,
    ) == Some(kind) by {
        if k < old.len() {
            assert(new[k] == old[k]);
        } else {
            let j = choose|j: int| 0 <= j < comps[c]@.len() && #[trigger] comps[c]@[j]@ == new[k].0@;
            assert(is_production_room_id(rooms, comps[c]@[j]@));
        }
    }
    assert forall|k: int| 0 <= k < new.len() implies #[trigger] placed_source(comps, side2, s, len, c + 1, new[k].0@) by {
        if k < old.len() {
            assert(new[k] == old[k]);
            assert(placed_source(comps, side, s, len, c, old[k].0@));
            let d = choose|d: int| 0 <= d < comps.len() && placed(comps, d, len, c) && side[d] == s && has_name(#[trigger] comps[d]@, old[k].0@);
            assert(d != c);
            assert(side2[d] == s);
        } else {
            assert(side2[c] == s);
            assert(has_name(comps[c]@, new[k].0@));
        }
    }
    if unique_positions(comps) {
        assert forall|a: int, b: int| 0 <= a < b < new.len() implies #[trigger] new[a].0@ != #[trigger] new[b].0@ by {
            if b < old.len() {
                assert(new[a] == old[a] && new[b] == old[b]);
            } else if a >= old.len() {
            } else {
                assert(new[a] == old[a]);
                assert(placed_source(comps, side, s, len, c, old[a].0@));
                let d = choose|d: int|
                    0 <= d < comps.len() && placed(comps, d, len, c) && side[d] == s && has_name(#[trigger] comps[d]@, old[a].0@);
                let ja = choose|t: int| 0 <= t < comps[d]@.len() && #[trigger] comps[d]@[t]@ == old[a].0@;
                let jb = choose|t: int| 0 <= t < comps[c]@.len() && #[trigger] comps[c]@[t]@ == new[b].0@;
                if new[a].0@ == new[b].0@ {
                    assert(comps[d]@[ja]@ == comps[c]@[jb]@);
                    assert(d == c);
                }
            }
        }
    }
}

proof fn lemma_from_placed_other(
    v: Seq<RoomId>,
    comps: Seq<Vec<String>>,
    side: Seq<bool>,
    s: bool,
    t: bool,
    len: int,
    c: int,
)
    requires
        0 <= c < comps.len(),
        side.len() == comps.len(),
        comps[c]@.len() == len,
        from_placed(v, comps, side, s, len, c),
    ensures
        from_placed(v, comps, side.update(c, t), s, len, c + 1),
{
    let side2 = side.update(c, t);
    assert forall|k: int| 0 <= k < v.len() implies #[trigger] placed_source(comps, side2, s, len, c + 1, v[k].0@) by {
        assert(placed_source(comps, side, s, len, c, v[k].0@));
            let d = choose|d: int| 0 <= d < comps.len() && placed(comps, d, len, c) && side[d] == s && has_name(#[trigger] comps[d]@, v[k].0@);
        assert(d != c);
        assert(side2[d] == s);
    }
}

proof fn lemma_from_placed_skip(v: Seq<RoomId>, comps: Seq<Vec<String>>, side: Seq<bool>, s: bool, len: int, c: int)
    requires
        0 <= c < comps.len(),
        comps[c]@.len() != len,
        from_placed(v, comps, side, s, len, c),
    ensures
        from_placed(v, comps, side, s, len, c + 1),
{
    assert forall|k: int| 0 <= k < v.len() implies #[trigger] placed_source(comps, side, s, len, c + 1, v[k].0@) by {
        assert(placed_source(comps, side, s, len, c, v[k].0@));
            let d = choose|d: int| 0 <= d < comps.len() && placed(comps, d, len, c) && side[d] == s && has_name(#[trigger] comps[d]@, v[k].0@);
        assert(placed(comps, d, len, c + 1));
    }
}

proof fn lemma_from_placed_next_pass(v: Seq<RoomId>, comps: Seq<Vec<String>>, side: Seq<bool>, s: bool, len: int)
    requires
        from_placed(v, comps, side, s, len, comps.len() as int),
    ensures
        from_placed(v, comps, side, s, len - 1, 0),
{
    assert forall|k: int| 0 <= k < v.len() implies #[trigger] placed_source(comps, side, s, len - 1, 0, v[k].0@) by {
        assert(placed_source(comps, side, s, len, comps.len() as int, v[k].0@));
        let d = choose|d: int|
            0 <= d < comps.len() && placed(comps, d, len, comps.len() as int) && side[d] == s && has_name(
                #[trigger] comps[d]@,
                v[k].0@,
            );
        assert(placed(comps, d, len - 1, 0));
    }
}

/// Placing component `c` (of length `len`) into the half of side `t` keeps the
/// placement state.
proof fn lemma_place_step(
    h0: FacilityHalf,
    h1: FacilityHalf,
    n0: FacilityHalf,
    n1: FacilityHalf,
    comps: Seq<Vec<String>>,
    side: Seq<bool>,
    rooms: Seq<BlueprintRoom>,
    len: int,
    c: int,
    t: bool,
)
    requires
        0 <= c < comps.len(),
        comps[c]@.len() == len,
        placement_state(h0, h1, comps, side, rooms, len, c),
        forall|c2: int, j: int|
            0 <= c2 < comps.len() && 0 <= j < comps[c2]@.len() ==> is_production_room_id(rooms, #[trigger] comps[c2]@[j]@),
        t ==> n0 == h0,
        !t ==> n1 == h1,
        ({
            let (o, n) = if t {
                (h1, n1)
            } else {
                (h0, n0)
            };
            &&& half_extends(n, o)
            &&& added_from(n.trade@, o.trade@, comps[c]@, rooms, FacilityKind::TradePost)
            &&& added_from(n.manu@, o.manu@, comps[c]@, rooms, FacilityKind::Factory)
            &&& added_from(n.power@, o.power@, comps[c]@, rooms, FacilityKind::PowerPlant)
            &&& forall|j: int| 0 <= j < comps[c]@.len() ==> in_half(n, #[trigger] comps[c]@[j]@)
            &&& (forall|a: int, b: int|
                0 <= a < b < comps[c]@.len() ==> #[trigger] comps[c]@[a]@ != #[trigger] comps[c]@[b]@) ==> {
                &&& added_distinct(n.trade@, o.trade@)
                &&& added_distinct(n.manu@, o.manu@)
                &&& added_distinct(n.power@, o.power@)
            }
        }),
    ensures
        placement_state(n0, n1, comps, side.update(c, t), rooms, len, c + 1),
{
    let side2 = side.update(c, t);
    let (o, n) = if t {
        (h1, n1)
    } else {
        (h0, n0)
    };
    let other = if t {
        h0
    } else {
        h1
    };
    if unique_positions(comps) {
        assert forall|a: int, b: int| 0 <= a < b < comps[c]@.len() implies #[trigger] comps[c]@[a]@
            != #[trigger] comps[c]@[b]@ by {}
    }
    lemma_list_step(n.trade@, o.trade@, comps, side, t, len, c, rooms, FacilityKind::TradePost);
    lemma_list_step(n.manu@, o.manu@, comps, side, t, len, c, rooms, FacilityKind::Factory);
    lemma_list_step(n.power@, o.power@, comps, side, t, len, c, rooms, FacilityKind::PowerPlant);
    lemma_from_placed_other(other.trade@, comps, side, !t, t, len, c);
    lemma_from_placed_other(other.manu@, comps, side, !t, t, len, c);
    lemma_from_placed_other(other.power@, comps, side, !t, t, len, c);
    assert forall|d: int, j: int|
        0 <= d < comps.len() && placed(comps, d, len, c + 1) && 0 <= j < comps[d]@.len() implies in_half(
        if side2[d] {
            n1
        } else {
            n0
        },
        #[trigger] comps[d]@[j]@,
    ) by {
        if d == c {
            assert(side2[d] == t);
        } else {
            assert(placed(comps, d, len, c));
            assert(side2[d] == side[d]);
            assert(in_half(
                if side[d] {
                    h1
                } else {
                    h0
                },
                comps[d]@[j]@,
            ));
            if side[d] == t {
                lemma_in_half_extends(o, n, comps[d]@[j]@);
            }
        }
    }
}

/// Places whole components into the two halves, longest first (ties in list
/// order), each into the half holding fewer rooms of its rooms' kinds (the
/// first half on a tie).
fn place_all(comps: &Vec<Vec<String>>, blueprint: &BaseBlueprint) -> (res: (FacilityHalf, FacilityHalf))
    requires
        production_kinds_consistent(blueprint.rooms@),
        forall|c: int, j: int|
            0 <= c < comps@.len() && 0 <= j < comps@[c]@.len() ==> is_production_room_id(
                blueprint.rooms@,
                #[trigger] comps@[c]@[j]@,
            ),
    ensures
        (half_ids(res.0), half_ids(res.1)) == greedy(longest_first(comp_ids(comps@)), blueprint.rooms@),
        half_of_kinds(res.0, blueprint.rooms@),
        half_of_kinds(res.1, blueprint.rooms@),
        forall|c: int, j: int|
            0 <= c < comps@.len() && 0 <= j < comps@[c]@.len() ==> in_half(res.0, #[trigger] comps@[c]@[j]@)
                || in_half(res.1, comps@[c]@[j]@),
        unique_positions(comps@) ==> {
            &&& half_no_dup(res.0)
            &&& half_no_dup(res.1)
            &&& forall|id: Seq<char>| !(#[trigger] in_half(res.0, id) && in_half(res.1, id))
            &&& forall|c: int, j1: int, j2: int|
                0 <= c < comps@.len() && 0 <= j1 < comps@[c]@.len() && 0 <= j2 < comps@[c]@.len() ==> (in_half(
                    res.0,
                    #[trigger] comps@[c]@[j1]@,
                ) <==> in_half(res.0, #[trigger] comps@[c]@[j2]@))
        },
{
    let ghost rooms = blueprint.rooms@;
    let ghost cs = comps@;
    let ghost cv = comp_ids(cs);
    let mut maxlen: usize = 0;
    let mut c: usize = 0;
    while c < comps.len()
        invariant
            0 <= c <= comps@.len(),
            cs == comps@,
            cv == comp_ids(cs),
            forall|d: int| 0 <= d < c ==> #[trigger] comps@[d]@.len() <= maxlen,
            maxlen == max_len(cv.take(c as int)),
        decreases comps@.len() - c,
    {
        assert(cv.take(c + 1).drop_last() =~= cv.take(c as int));
        assert(cv.take(c + 1).last() == views(comps@[c as int]@));
        if comps[c].len() > maxlen {
            maxlen = comps[c].len();
        }
        c += 1;
    }
    assert(cv.take(cv.len() as int) =~= cv);
    let mut h0 = FacilityHalf::new();
    let mut h1 = FacilityHalf::new();
    assert(half_ids(h0) =~= no_rooms());
    assert(half_ids(h1) =~= no_rooms());
    let ghost mut side: Seq<bool> = Seq::new(comps@.len(), |i: int| false);
    let mut len: usize = maxlen;
    while len > 0
        invariant
            len <= maxlen,
            cs == comps@,
            rooms == blueprint.rooms@,
            production_kinds_consistent(rooms),
            forall|d: int| 0 <= d < cs.len() ==> #[trigger] cs[d]@.len() <= maxlen,
            forall|c2: int, j: int|
                0 <= c2 < cs.len() && 0 <= j < cs[c2]@.len() ==> is_production_room_id(rooms, #[trigger] cs[c2]@[j]@),
            placement_state(h0, h1, cs, side, rooms, len as int, 0),
            cv == comp_ids(cs),
            maxlen == max_len(cv),
            (half_ids(h0), half_ids(h1)) == greedy(longer_than(cv, maxlen as int, len as int), rooms),
        decreases len,
    {
        let mut c: usize = 0;
        assert(of_len(cv.take(0), len as int) =~= Seq::<Seq<Seq<char>>>::empty());
        assert(longer_than(cv, maxlen as int, len as int) + of_len(cv.take(0), len as int) =~= longer_than(
            cv,
            maxlen as int,
            len as int,
        ));
        while c < comps.len()
            invariant
                0 <= c <= cs.len(),
                0 < len <= maxlen,
                cs == comps@,
                cv == comp_ids(cs),
                (half_ids(h0), half_ids(h1)) == greedy(
                    longer_than(cv, maxlen as int, len as int) + of_len(cv.take(c as int), len as int),
                    rooms,
                ),
                rooms == blueprint.rooms@,
                production_kinds_consistent(rooms),
                forall|c2: int, j: int|
                    0 <= c2 < cs.len() && 0 <= j < cs[c2]@.len() ==> is_production_room_id(
                        rooms,
                        #[trigger] cs[c2]@[j]@,
                    ),
                placement_state(h0, h1, cs, side, rooms, len as int, c as int),
            decreases cs.len() - c,
        {
            let comp = &comps[c];
            let ghost above = longer_than(cv, maxlen as int, len as int);
            let ghost done_here = of_len(cv.take(c as int), len as int);
            proof {
                assert(cv.take(c + 1).drop_last() =~= cv.take(c as int));
                assert(cv.take(c + 1).last() == views(comp@));
            }
            if comp.len() == len {
                proof {
                    assert forall|j: int| 0 <= j < comp@.len() implies (last_kind(rooms, #[trigger] comp@[j]@) matches Some(
                        k,
                    ) && is_production(k)) by {
                        assert(is_production_room_id(rooms, cs[c as int]@[j]@));
                        let i = choose|i: int|
                            0 <= i < rooms.len() && #[trigger] rooms[i].id.0@ == comp@[j]@ && is_production(rooms[i].kind);
                        assert(rooms[i].id.0@ == comp@[j]@);
                    }
                }
                let to_second = crowding_of(&h1, comp, blueprint) < crowding_of(&h0, comp, blueprint);
                let ghost o0 = h0;
                let ghost o1 = h1;
                if to_second {
                    place_component(&mut h1, comp, blueprint);
                } else {
                    place_component(&mut h0, comp, blueprint);
                }
                proof {
                    lemma_place_step(o0, o1, h0, h1, cs, side, rooms, len as int, c as int, to_second);
                    side = side.update(c as int, to_second);
                    assert(of_len(cv.take(c + 1), len as int) == done_here.push(views(comp@)));
                    assert(above + done_here.push(views(comp@)) =~= (above + done_here).push(views(comp@)));
                    assert((above + done_here).push(views(comp@)).drop_last() =~= above + done_here);
                }
            } else {
                proof {
                    assert(of_len(cv.take(c + 1), len as int) == done_here);
                    lemma_from_placed_skip(h0.trade@, cs, side, false, len as int, c as int);
                    lemma_from_placed_skip(h0.manu@, cs, side, false, len as int, c as int);
                    lemma_from_placed_skip(h0.power@, cs, side, false, len as int, c as int);
                    lemma_from_placed_skip(h1.trade@, cs, side, true, len as int, c as int);
                    lemma_from_placed_skip(h1.manu@, cs, side, true, len as int, c as int);
                    lemma_from_placed_skip(h1.power@, cs, side, true, len as int, c as int);
                    assert forall|d: int, j: int|
                        0 <= d < cs.len() && placed(cs, d, len as int, c + 1) && 0 <= j < cs[d]@.len() implies in_half(
                        if side[d] {
                            h1
                        } else {
                            h0
                        },
                        #[trigger] cs[d]@[j]@,
                    ) by {
                        assert(placed(cs, d, len as int, c as int));
                    }
                }
            }
            c += 1;
        }
        proof {
            assert(cv.take(c as int) =~= cv);
            assert(longer_than(cv, maxlen as int, len - 1) == longer_than(cv, maxlen as int, len as int) + of_len(
                cv,
                len as int,
            ));
            lemma_from_placed_next_pass(h0.trade@, cs, side, false, len as int);
            lemma_from_placed_next_pass(h0.manu@, cs, side, false, len as int);
            lemma_from_placed_next_pass(h0.power@, cs, side, false, len as int);
            lemma_from_placed_next_pass(h1.trade@, cs, side, true, len as int);
            lemma_from_placed_next_pass(h1.manu@, cs, side, true, len as int);
            lemma_from_placed_next_pass(h1.power@, cs, side, true, len as int);
            assert forall|d: int, j: int|
                0 <= d < cs.len() && placed(cs, d, len - 1, 0) && 0 <= j < cs[d]@.len() implies in_half(
                if side[d] {
                    h1
                } else {
                    h0
                },
                #[trigger] cs[d]@[j]@,
            ) by {
                assert(placed(cs, d, len as int, cs.len() as int));
            }
        }
        len -= 1;
    }
    proof {
        assert forall|c: int, j: int| 0 <= c < cs.len() && 0 <= j < cs[c]@.len() implies in_half(
            h0,
            #[trigger] cs[c]@[j]@,
        ) || in_half(h1, cs[c]@[j]@) by {
            assert(placed(cs, c, 0, 0));
        }
        if unique_positions(cs) {
            assert forall|id: Seq<char>| !(#[trigger] in_half(h0, id) && in_half(h1, id)) by {
                if in_half(h0, id) && in_half(h1, id) {
                    let d0 = lemma_source(h0, cs, side, false, id);
                    let d1 = lemma_source(h1, cs, side, true, id);
                    let j0 = choose|t: int| 0 <= t < cs[d0]@.len() && #[trigger] cs[d0]@[t]@ == id;
                    let j1 = choose|t: int| 0 <= t < cs[d1]@.len() && #[trigger] cs[d1]@[t]@ == id;
                    assert(cs[d0]@[j0]@ == cs[d1]@[j1]@);
                }
            }
            assert forall|c: int, j1: int, j2: int|
                0 <= c < cs.len() && 0 <= j1 < cs[c]@.len() && 0 <= j2 < cs[c]@.len() implies (in_half(
                h0,
                #[trigger] cs[c]@[j1]@,
            ) <==> in_half(h0, #[trigger] cs[c]@[j2]@)) by {
                assert(placed(cs, c, 0, 0));
                assert(in_half(
                    if side[c] {
                        h1
                    } else {
                        h0
                    },
                    cs[c]@[j1]@,
                ));
                assert(in_half(
                    if side[c] {
                        h1
                    } else {
                        h0
                    },
                    cs[c]@[j2]@,
                ));
                assert(!(in_half(h0, cs[c]@[j1]@) && in_half(h1, cs[c]@[j1]@)));
                assert(!(in_half(h0, cs[c]@[j2]@) && in_half(h1, cs[c]@[j2]@)));
            }
        }
    }
    (h0, h1)
}

/// The component a room of half `h` comes from.
proof fn lemma_source(h: FacilityHalf, comps: Seq<Vec<String>>, side: Seq<bool>, s: bool, id: Seq<char>) -> (d: int)
    requires
        half_from_placed(h, comps, side, s, 0, 0),
        in_half(h, id),
    ensures
        0 <= d < comps.len(),
        side[d] == s,
        has_name(comps[d]@, id),
{
    if has_room(h.trade@, id) {
        let k = choose|k: int| 0 <= k < h.trade@.len() && #[trigger] h.trade@[k].0@ == id;
        assert(placed_source(comps, side, s, 0, 0, h.trade@[k].0@));
        let d = choose|d: int|
            0 <= d < comps.len() && placed(comps, d, 0, 0) && side[d] == s && has_name(#[trigger] comps[d]@, h.trade@[k].0@);
        d
    } else if has_room(h.manu@, id) {
        let k = choose|k: int| 0 <= k < h.manu@.len() && #[trigger] h.manu@[k].0@ == id;
        assert(placed_source(comps, side, s, 0, 0, h.manu@[k].0@));
        let d = choose|d: int|
            0 <= d < comps.len() && placed(comps, d, 0, 0) && side[d] == s && has_name(#[trigger] comps[d]@, h.manu@[k].0@);
        d
    } else {
        let k = choose|k: int| 0 <= k < h.power@.len() && #[trigger] h.power@[k].0@ == id;
        assert(placed_source(comps, side, s, 0, 0, h.power@[k].0@));
        let d = choose|d: int|
            0 <= d < comps.len() && placed(comps, d, 0, 0) && side[d] == s && has_name(#[trigger] comps[d]@, h.power@[k].0@);
        d
    }
}

/// Splits all production facilities (trade posts, factories, power plants)
/// into two halves. Every production room starts as its own component; the
/// production rooms of each shift bind's members are merged into one
/// component; components are then placed whole, longest first, each into
/// the half holding fewer rooms of its rooms' kinds, so that rooms of one
/// kind alternate between the halves. Fails when a bind member works in no
/// room of the peak shift.
#[verifier::rlimit(60)]
pub fn split_production_facilities(
    blueprint: &BaseBlueprint,
    peak: &BaseAssignment,
    binds: &Vec<RuntimeShiftBind>,
) -> (res: Result<[FacilityHalf; 2], SplitError>)
    requires
        production_kinds_consistent(blueprint.rooms@),
    ensures
        res is Err <==> first_missing(binds@, peak.rooms@) is Some,
        res matches Err(SplitError::MissingFromPeak { operator }) ==> first_missing(binds@, peak.rooms@) == Some(
            operator@,
        ),
        res matches Ok(h) ==> (half_ids(h@[0]), half_ids(h@[1])) == production_split(
            blueprint.rooms@,
            peak.rooms@,
            binds@,
        ),
        res matches Ok(h) ==> ((forall|c: int|
            0 <= c < split_components(blueprint.rooms@, peak.rooms@, binds@).len() ==> (#[trigger] split_components(
                blueprint.rooms@,
                peak.rooms@,
                binds@,
            )[c]).len() == 1) ==> alternated((half_ids(h@[0]), half_ids(h@[1])))),
        res matches Ok(h) ==> is_production_split(h@[0], h@[1], blueprint.rooms@),
        res matches Ok(h) ==> (distinct_room_ids(blueprint.rooms@) ==> keeps_binds_together(
            h@[0],
            binds@,
            blueprint.rooms@,
            peak.rooms@,
        )),
{
    let ghost rooms = blueprint.rooms@;
    let ghost pk = peak.rooms@;
    let ghost dist = distinct_room_ids(rooms);
    let prod = production_room_ids(blueprint);
    let mut comps: Vec<Vec<String>> = Vec::new();
    let mut i: usize = 0;
    while i < prod.len()
        invariant
            0 <= i <= prod@.len(),
            comps@.len() == i,
            forall|c: int| 0 <= c < i ==> (#[trigger] comps@[c])@.len() == 1 && comps@[c]@[0]@ == prod@[c]@,
        decreases prod@.len() - i,
    {
        let mut one: Vec<String> = Vec::new();
        one.push(prod[i].clone());
        comps.push(one);
        i += 1;
    }
    proof {
        assert forall|c: int, j: int| 0 <= c < comps@.len() && 0 <= j < comps@[c]@.len() implies has_name(
            prod@,
            #[trigger] comps@[c]@[j]@,
        ) by {
            assert(comps@[c]@[0]@ == prod@[c]@);
        }
        assert forall|id: Seq<char>| has_name(prod@, id) implies exists|c: int|
            0 <= c < comps@.len() && has_name(#[trigger] comps@[c]@, id) by {
            let k = choose|k: int| 0 <= k < prod@.len() && #[trigger] prod@[k]@ == id;
            assert(comps@[k]@[0]@ == id);
            assert(has_name(comps@[k]@, id));
        }
        if dist {
            assert forall|c1: int, j1: int, c2: int, j2: int|
                0 <= c1 < comps@.len() && 0 <= j1 < comps@[c1]@.len() && 0 <= c2 < comps@.len() && 0 <= j2
                    < comps@[c2]@.len() && #[trigger] comps@[c1]@[j1]@ == #[trigger] comps@[c2]@[j2]@ implies c1 == c2
                && j1 == j2 by {
                assert(comps@[c1]@[0]@ == prod@[c1]@);
                assert(comps@[c2]@[0]@ == prod@[c2]@);
                if c1 < c2 {
                    assert(prod@[c1]@ != prod@[c2]@);
                } else if c2 < c1 {
                    assert(prod@[c2]@ != prod@[c1]@);
                }
            }
        }
    }
    let ghost start = singletons(production_ids(rooms));
    proof {
        assert forall|c: int| 0 <= c < comps@.len() implies #[trigger] comp_ids(comps@)[c] =~= start[c] by {
            assert(comps@[c]@[0]@ == prod@[c]@);
            assert(views(prod@)[c] == prod@[c]@);
        }
        assert(comp_ids(comps@) =~= start);
        assert(after_binds(start, binds@.take(0), rooms, pk) == start);
    }
    let mut b: usize = 0;
    assert(binds@.skip(0) == binds@);
    while b < binds.len()
        invariant
            0 <= b <= binds@.len(),
            start == singletons(production_ids(rooms)),
            comp_ids(comps@) == after_binds(start, binds@.take(b as int), rooms, pk),
            rooms == blueprint.rooms@,
            pk == peak.rooms@,
            dist == distinct_room_ids(rooms),
            forall|id: Seq<char>| has_name(prod@, id) <==> is_production_room_id(rooms, id),
            components_ok(comps@, prod@),
            dist ==> unique_positions(comps@),
            forall|d: int| 0 <= d < b ==> bind_cohesive(comps@, #[trigger] binds@[d], rooms, pk),
            first_missing(binds@, pk) == first_missing(binds@.skip(b as int), pk),
        decreases binds@.len() - b,
    {
        let bind = &binds[b];
        let ghost ops = bind.operators@;
        assert(binds@.skip(b as int)[0] == *bind);
        assert(binds@.skip(b as int).drop_first() == binds@.skip(b + 1));
        let mut bound: Vec<String> = Vec::new();
        let mut k: usize = 0;
        assert(ops.skip(0) == ops);
        assert(views(bound@) =~= bound_rooms(ops.take(0), rooms, pk));
        while k < bind.operators.len()
            invariant
                0 <= k <= ops.len(),
                views(bound@) == bound_rooms(ops.take(k as int), rooms, pk),
                ops == bind.operators@,
                0 <= b < binds@.len(),
                *bind == binds@[b as int],
                binds@.skip(b as int).len() > 0,
                binds@.skip(b as int)[0] == *bind,
                first_missing(binds@, pk) == first_missing(binds@.skip(b as int), pk),
                rooms == blueprint.rooms@,
                pk == peak.rooms@,
                forall|id: Seq<char>| has_name(prod@, id) <==> is_production_room_id(rooms, id),
                first_missing_in(ops, pk) == first_missing_in(ops.skip(k as int), pk),
                forall|id: Seq<char>|
                    has_name(bound@, id) <==> exists|t: int|
                        0 <= t < k && production_room_of(rooms, pk, #[trigger] ops[t]@) == Some(id),
                forall|x: int, y: int| 0 <= x < y < bound@.len() ==> #[trigger] bound@[x]@ != #[trigger] bound@[y]@,
                forall|t: int| 0 <= t < bound@.len() ==> has_name(prod@, #[trigger] bound@[t]@),
            decreases ops.len() - k,
        {
            let name = &bind.operators[k];
            assert(ops.skip(k as int)[0] == *name);
            assert(ops.skip(k as int).drop_first() == ops.skip(k + 1));
            match room_for_operator(peak, name.as_str()) {
                None => {
                    proof {
                        assert(first_missing_in(ops, pk) == Some(name@));
                        assert(first_missing(binds@.skip(b as int), pk) == Some(name@));
                    }
                    return Err(SplitError::MissingFromPeak { operator: name.clone() });
                },
                Some(room) => {
                    let ghost before = bound@;
                    proof {
                        assert(ops.take(k + 1).drop_last() =~= ops.take(k as int));
                        assert(ops.take(k + 1).last() == *name);
                        lemma_has_name_views(before, room.0@);
                    }
                    let is_prod = contains_name(&prod, room.0.as_str());
                    if is_prod && !contains_name(&bound, room.0.as_str()) {
                        let x = room.0.clone();
                        bound.push(x);
                        proof {
                            assert(views(bound@) =~= views(before).push(x@));
                            assert forall|p: int, q: int| 0 <= p < q < bound@.len() implies #[trigger] bound@[p]@
                                != #[trigger] bound@[q]@ by {
                                if q == before.len() {
                                    if before[p]@ == x@ {
                                        assert(has_name(before, x@));
                                    }
                                } else {
                                    assert(bound@[p] == before[p] && bound@[q] == before[q]);
                                }
                            }
                            assert forall|t: int| 0 <= t < bound@.len() implies has_name(
                                prod@,
                                #[trigger] bound@[t]@,
                            ) by {
                                if t < before.len() {
                                    assert(bound@[t] == before[t]);
                                }
                            }
                        }
                    }
                    proof {
                        assert(production_room_of(rooms, pk, ops[k as int]@) == if is_prod {
                            Some(room.0@)
                        } else {
                            None::<Seq<char>>
                        });
                        assert forall|id: Seq<char>| has_name(bound@, id) <==> exists|t: int|
                            0 <= t < k + 1 && production_room_of(rooms, pk, #[trigger] ops[t]@) == Some(id) by {
                            crate::text::lemma_has_name_push(before, room.0, id);
                            if exists|t: int| 0 <= t < k + 1 && production_room_of(rooms, pk, #[trigger] ops[t]@) == Some(id) {
                                let t = choose|t: int|
                                    0 <= t < k + 1 && production_room_of(rooms, pk, #[trigger] ops[t]@) == Some(id);
                                if t < k {
                                    assert(has_name(before, id));
                                }
                            }
                        }
                    }
                },
            }
            k += 1;
        }
        proof {
            assert(ops.skip(k as int).len() == 0);
            assert(ops.take(k as int) =~= ops);
            assert(binds@.take(b + 1).drop_last() =~= binds@.take(b as int));
            assert(binds@.take(b + 1).last() == *bind);
        }
        if bound.len() >= 2 {
            let ghost old_comps = comps@;
            comps = merge_components(comps, &bound);
            proof {
                lemma_merge_components_ok(old_comps, bound@, comps@, prod@);
                assert forall|d: int| 0 <= d < b + 1 implies bind_cohesive(comps@, #[trigger] binds@[d], rooms, pk) by {
                    let bd = binds@[d];
                    assert forall|k1: int, k2: int|
                        0 <= k1 < bd.operators@.len() && 0 <= k2 < bd.operators@.len() && production_room_of(
                            rooms,
                            pk,
                            #[trigger] bd.operators@[k1]@,
                        ) is Some && production_room_of(rooms, pk, #[trigger] bd.operators@[k2]@) is Some implies together(
                        comps@,
                        production_room_of(rooms, pk, bd.operators@[k1]@).unwrap(),
                        production_room_of(rooms, pk, bd.operators@[k2]@).unwrap(),
                    ) by {
                        let r1 = production_room_of(rooms, pk, bd.operators@[k1]@).unwrap();
                        let r2 = production_room_of(rooms, pk, bd.operators@[k2]@).unwrap();
                        if d < b {
                            assert(bind_cohesive(old_comps, bd, rooms, pk));
                            lemma_merge_together(old_comps, bound@, comps@, r1, r2);
                        } else {
                            assert(has_name(bound@, r1));
                            assert(has_name(bound@, r2));
                            assert(has_name(prod@, r1));
                            assert(has_name(prod@, r2));
                            lemma_merge_bound_together(old_comps, bound@, comps@, prod@, r1, r2);
                        }
                    }
                }
            }
        } else {
            proof {
                let bd = binds@[b as int];
                assert forall|k1: int, k2: int|
                    0 <= k1 < bd.operators@.len() && 0 <= k2 < bd.operators@.len() && production_room_of(
                        rooms,
                        pk,
                        #[trigger] bd.operators@[k1]@,
                    ) is Some && production_room_of(rooms, pk, #[trigger] bd.operators@[k2]@) is Some implies together(
                    comps@,
                    production_room_of(rooms, pk, bd.operators@[k1]@).unwrap(),
                    production_room_of(rooms, pk, bd.operators@[k2]@).unwrap(),
                ) by {
                    let r1 = production_room_of(rooms, pk, bd.operators@[k1]@).unwrap();
                    let r2 = production_room_of(rooms, pk, bd.operators@[k2]@).unwrap();
                    assert(has_name(bound@, r1));
                    assert(has_name(bound@, r2));
                    let p1 = choose|p: int| 0 <= p < bound@.len() && #[trigger] bound@[p]@ == r1;
                    let p2 = choose|p: int| 0 <= p < bound@.len() && #[trigger] bound@[p]@ == r2;
                    assert(p1 == p2);
                    assert(has_name(prod@, r1));
                    let c = choose|c: int| 0 <= c < comps@.len() && has_name(#[trigger] comps@[c]@, r1);
                    assert(has_name(comps@[c]@, r1));
                }
            }
        }
        b += 1;
    }
    proof {
        assert(binds@.skip(b as int).len() == 0);
        assert(binds@.take(b as int) =~= binds@);
        assert forall|c: int, j: int| 0 <= c < comps@.len() && 0 <= j < comps@[c]@.len() implies is_production_room_id(
            rooms,
            #[trigger] comps@[c]@[j]@,
        ) by {
            assert(has_name(prod@, comps@[c]@[j]@));
        }
    }
    let (h0, h1) = place_all(&comps, blueprint);
    proof {
        let cvf = comp_ids(comps@);
        assert forall|c: int, j: int| 0 <= c < cvf.len() && 0 <= j < cvf[c].len() implies (last_kind(
            rooms,
            #[trigger] cvf[c][j],
        ) matches Some(k) && is_production(k)) by {
            assert(cvf[c][j] == comps@[c]@[j]@);
            assert(is_production_room_id(rooms, comps@[c]@[j]@));
            let i = choose|i: int|
                0 <= i < rooms.len() && #[trigger] rooms[i].id.0@ == cvf[c][j] && is_production(rooms[i].kind);
            assert(rooms[i].id.0@ == cvf[c][j]);
        }
        assert(cvf == split_components(rooms, pk, binds@));
        if forall|c: int| 0 <= c < cvf.len() ==> (#[trigger] cvf[c]).len() == 1 {
            lemma_single_rooms_alternate(cvf, rooms);
            assert(alternated((half_ids(h0), half_ids(h1))));
        }
        assert forall|id: Seq<char>| #[trigger] is_production_room_id(rooms, id) implies in_half(h0, id) || in_half(
            h1,
            id,
        ) by {
            assert(has_name(prod@, id));
            let c = choose|c: int| 0 <= c < comps@.len() && has_name(#[trigger] comps@[c]@, id);
            let j = choose|j: int| 0 <= j < comps@[c]@.len() && #[trigger] comps@[c]@[j]@ == id;
            assert(in_half(h0, comps@[c]@[j]@) || in_half(h1, comps@[c]@[j]@));
        }
        if dist {
            assert forall|bi: int, k1: int, k2: int|
                0 <= bi < binds@.len() && 0 <= k1 < binds@[bi].operators@.len() && 0 <= k2
                    < binds@[bi].operators@.len() && production_room_of(
                    rooms,
                    pk,
                    #[trigger] binds@[bi].operators@[k1]@,
                ) is Some && production_room_of(rooms, pk, #[trigger] binds@[bi].operators@[k2]@) is Some implies (in_half(
                h0,
                production_room_of(rooms, pk, binds@[bi].operators@[k1]@).unwrap(),
            ) <==> in_half(h0, production_room_of(rooms, pk, binds@[bi].operators@[k2]@).unwrap())) by {
                let r1 = production_room_of(rooms, pk, binds@[bi].operators@[k1]@).unwrap();
                let r2 = production_room_of(rooms, pk, binds@[bi].operators@[k2]@).unwrap();
                assert(bind_cohesive(comps@, binds@[bi], rooms, pk));
                assert(together(comps@, r1, r2));
                let c = choose|c: int| 0 <= c < comps@.len() && has_name(#[trigger] comps@[c]@, r1) && has_name(
                    comps@[c]@,
                    r2,
                );
                let j1 = choose|j: int| 0 <= j < comps@[c]@.len() && #[trigger] comps@[c]@[j]@ == r1;
                let j2 = choose|j: int| 0 <= j < comps@[c]@.len() && #[trigger] comps@[c]@[j]@ == r2;
                assert(in_half(h0, comps@[c]@[j1]@) <==> in_half(h0, comps@[c]@[j2]@));
            }
        }
    }
    let halves = [h0, h1];
    proof {
        assert(halves@[0] == h0);
        assert(halves@[1] == h1);
    }
    Ok(halves)
}

} // verus!
