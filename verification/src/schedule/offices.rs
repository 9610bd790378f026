//! Offices in the rotation: the office members a shift bind ties to a team,
//! the filling of offices each shift, and the team of each operator.

use vstd::prelude::*;

use crate::layout::{
    assigned_anywhere, blueprint_room, room_index, room_operators, spec_operator_capacity, AssignedOperator,
    BaseAssignment, BaseBlueprint, BlueprintRoom, FacilityKind, RoomAssignment,
};
use crate::schedule::control_team::{team_lookup, TeamControlMap};
use crate::schedule::rooms::{view_index, views_of, RoomView};
use crate::schedule::shift_bind::{has_operator, ops_contain, RuntimeShiftBind};
use crate::schedule::team_rotation::{TeamAssignment, TeamLabel};
use crate::text::{
    contains_name, distinct_views, has_name, insert_sorted_unique, lemma_seq_lt_total, lemma_seq_lt_transitive,
    push_unique, seq_lt, str_eq, strictly_sorted,
};

verus! {

/// `n` works in an office of the assignment.
pub open spec fn works_in_office(rooms: Seq<RoomAssignment>, bp: Seq<BlueprintRoom>, n: Seq<char>) -> bool {
    exists|r: int|
        0 <= r < rooms.len() && (blueprint_room(bp, (#[trigger] rooms[r]).room_id.0@) matches Some(b) && b.kind
            == FacilityKind::Office) && has_operator(rooms[r].operators@, n)
}

/// Whether `n` works in an office of the assignment.
fn in_office(blueprint: &BaseBlueprint, peak: &BaseAssignment, n: &str) -> (res: bool)
    ensures
        res == works_in_office(peak.rooms@, blueprint.rooms@, n@),
{
    let mut r: usize = 0;
    while r < peak.rooms.len()
        invariant
            0 <= r <= peak.rooms@.len(),
            forall|t: int|
                0 <= t < r ==> !((blueprint_room(blueprint.rooms@, (#[trigger] peak.rooms@[t]).room_id.0@) matches Some(
                    b,
                ) && b.kind == FacilityKind::Office) && has_operator(peak.rooms@[t].operators@, n@)),
        decreases peak.rooms@.len() - r,
    {
        let room = &peak.rooms[r];
        let office = match blueprint.room(&room.room_id) {
            Some(b) => b.kind == FacilityKind::Office,
            None => false,
        };
        if office && ops_contain(&room.operators, n) {
            return true;
        }
        r += 1;
    }
    false
}

/// Members of the binds who work in an office at peak, once each.
pub fn bound_office_operators(blueprint: &BaseBlueprint, peak: &BaseAssignment, binds: &Vec<RuntimeShiftBind>) -> (res:
    Vec<String>)
    ensures
        distinct_views(res@),
        forall|n: Seq<char>|
            #![trigger has_name(res@, n)]
            has_name(res@, n) <==> ((exists|b: int| 0 <= b < binds@.len() && has_name(#[trigger] binds@[b].operators@, n))
                && works_in_office(peak.rooms@, blueprint.rooms@, n)),
{
    let mut names: Vec<String> = Vec::new();
    let mut b: usize = 0;
    while b < binds.len()
        invariant
            0 <= b <= binds@.len(),
            distinct_views(names@),
            forall|n: Seq<char>|
                #![trigger has_name(names@, n)]
                has_name(names@, n) <==> ((exists|c: int| 0 <= c < b && has_name(#[trigger] binds@[c].operators@, n))
                    && works_in_office(peak.rooms@, blueprint.rooms@, n)),
        decreases binds@.len() - b,
    {
        let ops = &binds[b].operators;
        let mut k: usize = 0;
        while k < ops.len()
            invariant
                0 <= b < binds@.len(),
                *ops == binds@[b as int].operators,
                0 <= k <= ops@.len(),
                distinct_views(names@),
                forall|n: Seq<char>|
                    #![trigger has_name(names@, n)]
                    has_name(names@, n) <==> (((exists|c: int| 0 <= c < b && has_name(#[trigger] binds@[c].operators@, n))
                        || has_name(ops@.take(k as int), n)) && works_in_office(peak.rooms@, blueprint.rooms@, n)),
            decreases ops@.len() - k,
        {
            let x = ops[k].clone();
            let ghost xs = x;
            if in_office(blueprint, peak, x.as_str()) {
                push_unique(&mut names, x);
            }
            proof {
                assert(ops@.take(k + 1) == ops@.take(k as int).push(xs));
                assert forall|n: Seq<char>|
                    #![trigger has_name(names@, n)]
                    has_name(names@, n) <==> (((exists|c: int|
                        0 <= c < b && has_name(#[trigger] binds@[c].operators@, n)) || has_name(ops@.take(k + 1), n))
                        && works_in_office(peak.rooms@, blueprint.rooms@, n)) by {
                    crate::text::lemma_has_name_push(ops@.take(k as int), xs, n);
                }
            }
            k += 1;
        }
        proof {
            assert(ops@.take(ops@.len() as int) == ops@);
            assert forall|n: Seq<char>|
                #![trigger has_name(names@, n)]
                has_name(names@, n) <==> ((exists|c: int| 0 <= c < b + 1 && has_name(#[trigger] binds@[c].operators@, n))
                    && works_in_office(peak.rooms@, blueprint.rooms@, n)) by {
                if exists|c: int| 0 <= c < b + 1 && has_name(#[trigger] binds@[c].operators@, n) {
                    let c = choose|c: int| 0 <= c < b + 1 && has_name(#[trigger] binds@[c].operators@, n);
                    if c == b {
                        assert(has_name(ops@, n));
                    }
                }
            }
        }
        b += 1;
    }
    names
}

/// The team of the last team roster listing `n`.
pub open spec fn last_team_of(teams: Seq<TeamAssignment>, n: Seq<char>) -> Option<TeamLabel>
    decreases teams.len(),
{
    if teams.len() == 0 {
        None
    } else if has_name(teams.last().operators@, n) {
        Some(teams.last().label)
    } else {
        last_team_of(teams.drop_last(), n)
    }
}

/// Position of the pair naming `n`.
fn pair_position(pairs: &Vec<(String, TeamLabel)>, n: &str) -> (res: Option<usize>)
    ensures
        match res {
            Some(i) => i < pairs@.len() && pairs@[i as int].0@ == n@,
            None => forall|k: int| 0 <= k < pairs@.len() ==> #[trigger] pairs@[k].0@ != n@,
        },
{
    let mut k: usize = 0;
    while k < pairs.len()
        invariant
            0 <= k <= pairs@.len(),
            forall|t: int| 0 <= t < k ==> #[trigger] pairs@[t].0@ != n@,
        decreases pairs@.len() - k,
    {
        if str_eq(pairs[k].0.as_str(), n) {
            return Some(k);
        }
        k += 1;
    }
    None
}

/// Each operator of the teams with its team (the last team listing it), once
/// each.
pub fn operator_team_map(teams: &Vec<TeamAssignment>) -> (res: Vec<(String, TeamLabel)>)
    ensures
        forall|a: int, b: int| 0 <= a < b < res@.len() ==> #[trigger] res@[a].0@ != #[trigger] res@[b].0@,
        forall|k: int| 0 <= k < res@.len() ==> last_team_of(teams@, (#[trigger] res@[k]).0@) == Some(res@[k].1),
        forall|n: Seq<char>|
            #![trigger last_team_of(teams@, n)]
            last_team_of(teams@, n) is Some ==> exists|k: int| 0 <= k < res@.len() && #[trigger] res@[k].0@ == n,
{
    let mut out: Vec<(String, TeamLabel)> = Vec::new();
    let mut t: usize = 0;
    while t < teams.len()
        invariant
            0 <= t <= teams@.len(),
            forall|a: int, b: int| 0 <= a < b < out@.len() ==> #[trigger] out@[a].0@ != #[trigger] out@[b].0@,
            forall|k: int|
                0 <= k < out@.len() ==> last_team_of(teams@.take(t as int), (#[trigger] out@[k]).0@) == Some(
                    out@[k].1,
                ),
            forall|n: Seq<char>|
                #![trigger last_team_of(teams@.take(t as int), n)]
                last_team_of(teams@.take(t as int), n) is Some ==> exists|k: int|
                    0 <= k < out@.len() && #[trigger] out@[k].0@ == n,
        decreases teams@.len() - t,
    {
        let team = &teams[t];
        let ghost prefix = teams@.take(t as int);
        assert(teams@.take(t + 1).drop_last() == prefix);
        assert(teams@.take(t + 1).last() == *team);
        let ghost start = out@;
        let mut k: usize = 0;
        while k < team.operators.len()
            invariant
                0 <= k <= team.operators@.len(),
                0 <= t < teams@.len(),
                *team == teams@[t as int],
                forall|a: int, b: int| 0 <= a < b < out@.len() ==> #[trigger] out@[a].0@ != #[trigger] out@[b].0@,
                forall|q: int|
                    0 <= q < out@.len() ==> {
                        let n = (#[trigger] out@[q]).0@;
                        if has_name(team.operators@.take(k as int), n) {
                            out@[q].1 == team.label
                        } else {
                            last_team_of(prefix, n) == Some(out@[q].1)
                        }
                    },
                forall|n: Seq<char>|
                    (#[trigger] last_team_of(prefix, n) is Some || has_name(team.operators@.take(k as int), n))
                        ==> exists|q: int| 0 <= q < out@.len() && #[trigger] out@[q].0@ == n,
                forall|q: int|
                    0 <= q < out@.len() ==> (last_team_of(prefix, (#[trigger] out@[q]).0@) is Some || has_name(
                        team.operators@.take(k as int),
                        out@[q].0@,
                    )),
            decreases team.operators@.len() - k,
        {
            let x = team.operators[k].clone();
            let ghost xs = x;
            let ghost before = out@;
            proof {
                assert(team.operators@.take(k + 1) == team.operators@.take(k as int).push(xs));
            }
            match pair_position(&out, x.as_str()) {
                Some(i) => {
                    out.set(i, (x, team.label));
                },
                None => {
                    out.push((x, team.label));
                },
            }
            proof {
                assert forall|q: int| 0 <= q < out@.len() implies {
                    let n = (#[trigger] out@[q]).0@;
                    if has_name(team.operators@.take(k + 1), n) {
                        out@[q].1 == team.label
                    } else {
                        last_team_of(prefix, n) == Some(out@[q].1)
                    }
                } by {
                    crate::text::lemma_has_name_push(team.operators@.take(k as int), xs, out@[q].0@);
                    if q < before.len() && out@[q].0@ != xs@ {
                        assert(out@[q] == before[q]);
                    }
                }
                assert forall|n: Seq<char>|
                    (#[trigger] last_team_of(prefix, n) is Some || has_name(team.operators@.take(k + 1), n))
                        implies exists|q: int| 0 <= q < out@.len() && #[trigger] out@[q].0@ == n by {
                    crate::text::lemma_has_name_push(team.operators@.take(k as int), xs, n);
                    if n == xs@ {
                        if out@.len() > before.len() {
                            assert(out@[before.len() as int].0@ == n);
                        } else {
                            let i = choose|i: int| 0 <= i < before.len() && before[i].0@ == xs@;
                            assert(out@[i].0@ == n);
                        }
                    } else {
                        let q = choose|q: int| 0 <= q < before.len() && #[trigger] before[q].0@ == n;
                        assert(out@[q].0@ == n);
                    }
                }
                assert forall|q: int|
                    0 <= q < out@.len() implies (last_team_of(prefix, (#[trigger] out@[q]).0@) is Some || has_name(
                    team.operators@.take(k + 1),
                    out@[q].0@,
                )) by {
                    crate::text::lemma_has_name_push(team.operators@.take(k as int), xs, out@[q].0@);
                    if q < before.len() && out@[q].0@ != xs@ {
                        assert(out@[q] == before[q]);
                    }
                }
                assert forall|a: int, b: int| 0 <= a < b < out@.len() implies #[trigger] out@[a].0@
                    != #[trigger] out@[b].0@ by {
                    if out@.len() > before.len() {
                        if b == before.len() {
                            assert(out@[a] == before[a]);
                        } else {
                            assert(out@[a] == before[a] && out@[b] == before[b]);
                        }
                    } else {
                        if out@[a].0@ == out@[b].0@ {
                            if before[a].0@ == xs@ || before[b].0@ == xs@ {
                            } else {
                                assert(out@[a] == before[a] && out@[b] == before[b]);
                            }
                        }
                    }
                }
            }
            k += 1;
        }
        proof {
            assert(team.operators@.take(team.operators@.len() as int) == team.operators@);
            let next = teams@.take(t + 1);
            assert forall|q: int| 0 <= q < out@.len() implies last_team_of(next, (#[trigger] out@[q]).0@) == Some(
                out@[q].1,
            ) by {}
            assert forall|n: Seq<char>|
                #![trigger last_team_of(next, n)]
                last_team_of(next, n) is Some implies exists|q: int| 0 <= q < out@.len() && #[trigger] out@[q].0@ == n by {
                if !has_name(team.operators@, n) {
                    assert(last_team_of(prefix, n) is Some);
                }
            }
        }
        t += 1;
    }
    assert(teams@.take(teams@.len() as int) == teams@);
    out
}

/// `n` is a rotating office operator of one of the active teams.
pub open spec fn active_rot(rot: Seq<(String, TeamLabel)>, active: Seq<TeamLabel>, n: Seq<char>) -> bool {
    exists|k: int| 0 <= k < rot.len() && #[trigger] rot[k].0@ == n && active.contains(rot[k].1)
}

/// `n` is an unused active rotating operator, bound (`want_bound`) or not.
pub open spec fn rot_group(
    rot: Seq<(String, TeamLabel)>,
    active: Seq<TeamLabel>,
    bound: Seq<String>,
    used: Set<Seq<char>>,
    want_bound: bool,
    n: Seq<char>,
) -> bool {
    active_rot(rot, active, n) && has_name(bound, n) == want_bound && !used.contains(n)
}

/// `n` is the first of its group in name order.
pub open spec fn is_least_of(
    rot: Seq<(String, TeamLabel)>,
    active: Seq<TeamLabel>,
    bound: Seq<String>,
    used: Set<Seq<char>>,
    want_bound: bool,
    n: Seq<char>,
) -> bool {
    &&& rot_group(rot, active, bound, used, want_bound, n)
    &&& forall|m: Seq<char>| #[trigger] rot_group(rot, active, bound, used, want_bound, m) ==> m == n || seq_lt(n, m)
}

/// The first unused active rotating operator of the group, by name.
pub open spec fn least_of(
    rot: Seq<(String, TeamLabel)>,
    active: Seq<TeamLabel>,
    bound: Seq<String>,
    used: Set<Seq<char>>,
    want_bound: bool,
) -> Option<Seq<char>> {
    if exists|n: Seq<char>| is_least_of(rot, active, bound, used, want_bound, n) {
        Some(choose|n: Seq<char>| is_least_of(rot, active, bound, used, want_bound, n))
    } else {
        None
    }
}

/// The next rotating office operator: the first unused bound one by name,
/// else the first unused unbound one.
pub open spec fn next_rotating(
    rot: Seq<(String, TeamLabel)>,
    active: Seq<TeamLabel>,
    bound: Seq<String>,
    used: Set<Seq<char>>,
) -> Option<Seq<char>> {
    match least_of(rot, active, bound, used, true) {
        Some(n) => Some(n),
        None => least_of(rot, active, bound, used, false),
    }
}

/// The first candidate named `n`.
pub open spec fn first_named(cands: Seq<AssignedOperator>, n: Seq<char>) -> Option<AssignedOperator>
    decreases cands.len(),
{
    if cands.len() == 0 {
        None
    } else if cands[0].name@ == n {
        Some(cands[0])
    } else {
        first_named(cands.drop_first(), n)
    }
}

/// The first unused candidate that belongs to no rotating team.
pub open spec fn first_replacement(
    cands: Seq<AssignedOperator>,
    rot: Seq<(String, TeamLabel)>,
    used: Set<Seq<char>>,
) -> Option<AssignedOperator>
    decreases cands.len(),
{
    if cands.len() == 0 {
        None
    } else if !used.contains(cands[0].name@) && !crate::schedule::control_team::names_pair(rot, cands[0].name@) {
        Some(cands[0])
    } else {
        first_replacement(cands.drop_first(), rot, used)
    }
}

/// The operator for the next office seat: the next rotating operator when it
/// is a candidate, else the first legal replacement.
pub open spec fn office_pick(
    cands: Seq<AssignedOperator>,
    rot: Seq<(String, TeamLabel)>,
    active: Seq<TeamLabel>,
    bound: Seq<String>,
    used: Set<Seq<char>>,
) -> Option<AssignedOperator> {
    let by_rot = match next_rotating(rot, active, bound, used) {
        Some(n) => first_named(cands, n),
        None => None,
    };
    match by_rot {
        Some(op) => Some(op),
        None => first_replacement(cands, rot, used),
    }
}

/// The office's operators after filling its free seats, with the names used
/// so far; none when a seat finds no operator.
pub open spec fn fill_office(
    ops: Seq<AssignedOperator>,
    cap: int,
    used: Set<Seq<char>>,
    cands: Seq<AssignedOperator>,
    rot: Seq<(String, TeamLabel)>,
    active: Seq<TeamLabel>,
    bound: Seq<String>,
) -> Option<(Seq<AssignedOperator>, Set<Seq<char>>)>
    decreases cap - ops.len(),
{
    if ops.len() >= cap {
        Some((ops, used))
    } else {
        match office_pick(cands, rot, active, bound, used) {
            None => None,
            Some(op) => fill_office(ops.push(op), cap, used.insert(op.name@), cands, rot, active, bound),
        }
    }
}

/// The operators of the first entry of room `id`.
pub open spec fn view_ops(vs: Seq<RoomView>, id: Seq<char>) -> Seq<AssignedOperator> {
    match view_index(vs, id) {
        Some(i) => vs[i].1,
        None => Seq::empty(),
    }
}

/// The entries with room `id` set to `ops` (its efficiency cleared).
pub open spec fn set_ops(vs: Seq<RoomView>, id: Seq<char>, ops: Seq<AssignedOperator>) -> Seq<RoomView> {
    match view_index(vs, id) {
        Some(i) => vs.update(i, (vs[i].0, ops, None)),
        None => vs.push((id, ops, None)),
    }
}

/// The entries after filling each office of the blueprint in turn; none when
/// an office cannot be filled.
pub open spec fn fill_offices(
    vs: Seq<RoomView>,
    used: Set<Seq<char>>,
    bp: Seq<BlueprintRoom>,
    cands: Seq<AssignedOperator>,
    rot: Seq<(String, TeamLabel)>,
    active: Seq<TeamLabel>,
    bound: Seq<String>,
) -> Option<Seq<RoomView>>
    decreases bp.len(),
{
    if bp.len() == 0 {
        Some(vs)
    } else {
        let room = bp[0];
        if room.kind != FacilityKind::Office {
            fill_offices(vs, used, bp.drop_first(), cands, rot, active, bound)
        } else {
            match fill_office(
                view_ops(vs, room.id.0@),
                spec_operator_capacity(room.kind, room.level) as int,
                used,
                cands,
                rot,
                active,
                bound,
            ) {
                None => None,
                Some((ops, used2)) => fill_offices(
                    set_ops(vs, room.id.0@, ops),
                    used2,
                    bp.drop_first(),
                    cands,
                    rot,
                    active,
                    bound,
                ),
            }
        }
    }
}

/// No office seat could be filled.
#[derive(Debug)]
pub enum OfficeFillError {
    NoLegalOperator { room: String },
}

impl OfficeFillError {
    /// The error as text.
    pub fn message(&self) -> (res: String)
        ensures
            match self {
                OfficeFillError::NoLegalOperator { room } => res@ == "office "@ + room@
                    + " has no legal rotating operator or replacement"@,
            },
    {
        match self {
            OfficeFillError::NoLegalOperator { room } => {
                let text = String::from_str("office ");
                let text = text.concat(room.as_str());
                text.concat(" has no legal rotating operator or replacement")
            },
        }
    }
}

/// The names of `v` as a set.
pub open spec fn name_set_of(v: Seq<String>) -> Set<Seq<char>> {
    Set::new(|n: Seq<char>| has_name(v, n))
}

proof fn lemma_first_unused_least(
    l: Seq<String>,
    i: int,
    rot: Seq<(String, TeamLabel)>,
    active: Seq<TeamLabel>,
    bound: Seq<String>,
    used: Set<Seq<char>>,
    wb: bool,
)
    requires
        strictly_sorted(l),
        forall|n: Seq<char>| #[trigger] has_name(l, n) <==> (active_rot(rot, active, n) && has_name(bound, n) == wb),
        0 <= i <= l.len(),
        forall|j: int| 0 <= j < i ==> used.contains(#[trigger] l[j]@),
        i < l.len() ==> !used.contains(l[i]@),
    ensures
        i < l.len() ==> least_of(rot, active, bound, used, wb) == Some(l[i]@),
        i == l.len() ==> least_of(rot, active, bound, used, wb) is None,
{
    if i < l.len() {
        let x = l[i]@;
        assert(has_name(l, x));
        assert forall|m: Seq<char>| #[trigger] rot_group(rot, active, bound, used, wb, m) implies m == x || seq_lt(x, m) by {
            assert(has_name(l, m));
            let j = choose|j: int| 0 <= j < l.len() && #[trigger] l[j]@ == m;
            if j < i {
                assert(used.contains(l[j]@));
            } else if j > i {
                assert(seq_lt(l[i]@, l[j]@));
            }
        }
        assert(is_least_of(rot, active, bound, used, wb, x));
        let c = choose|n: Seq<char>| is_least_of(rot, active, bound, used, wb, n);
        if c != x {
            assert(seq_lt(x, c));
            assert(seq_lt(c, x));
            crate::text::lemma_seq_lt_asymmetric(x, c);
        }
    } else {
        if exists|n: Seq<char>| is_least_of(rot, active, bound, used, wb, n) {
            let n = choose|n: Seq<char>| is_least_of(rot, active, bound, used, wb, n);
            assert(has_name(l, n));
            let j = choose|j: int| 0 <= j < l.len() && #[trigger] l[j]@ == n;
            assert(used.contains(l[j]@));
        }
    }
}

/// The first name of the strictly sorted list not in `used`.
fn first_unused(l: &Vec<String>, used: &Vec<String>) -> (res: (usize, bool))
    ensures
        res.0 <= l@.len(),
        res.1 == (res.0 < l@.len()),
        forall|j: int| 0 <= j < res.0 ==> has_name(used@, #[trigger] l@[j]@),
        res.0 < l@.len() ==> !has_name(used@, l@[res.0 as int]@),
{
    let mut i: usize = 0;
    while i < l.len()
        invariant
            0 <= i <= l@.len(),
            forall|j: int| 0 <= j < i ==> has_name(used@, #[trigger] l@[j]@),
        decreases l@.len() - i,
    {
        if !contains_name(used, l[i].as_str()) {
            return (i, true);
        }
        i += 1;
    }
    (i, false)
}

/// The first candidate named `n`.
fn find_named<'a>(cands: &'a Vec<AssignedOperator>, n: &str) -> (res: Option<&'a AssignedOperator>)
    ensures
        match res {
            Some(op) => first_named(cands@, n@) == Some(*op),
            None => first_named(cands@, n@) is None,
        },
{
    let mut k: usize = 0;
    assert(cands@.skip(0) == cands@);
    while k < cands.len()
        invariant
            0 <= k <= cands@.len(),
            first_named(cands@, n@) == first_named(cands@.skip(k as int), n@),
        decreases cands@.len() - k,
    {
        assert(cands@.skip(k as int)[0] == cands@[k as int]);
        assert(cands@.skip(k as int).drop_first() == cands@.skip(k + 1));
        if str_eq(cands[k].name.as_str(), n) {
            return Some(&cands[k]);
        }
        k += 1;
    }
    None
}

/// The first legal replacement candidate.
fn find_replacement<'a>(
    cands: &'a Vec<AssignedOperator>,
    rot: &Vec<(String, TeamLabel)>,
    used: &Vec<String>,
) -> (res: Option<&'a AssignedOperator>)
    ensures
        match res {
            Some(op) => first_replacement(cands@, rot@, name_set_of(used@)) == Some(*op),
            None => first_replacement(cands@, rot@, name_set_of(used@)) is None,
        },
{
    let mut k: usize = 0;
    assert(cands@.skip(0) == cands@);
    while k < cands.len()
        invariant
            0 <= k <= cands@.len(),
            first_replacement(cands@, rot@, name_set_of(used@)) == first_replacement(
                cands@.skip(k as int),
                rot@,
                name_set_of(used@),
            ),
        decreases cands@.len() - k,
    {
        assert(cands@.skip(k as int)[0] == cands@[k as int]);
        assert(cands@.skip(k as int).drop_first() == cands@.skip(k + 1));
        let name = cands[k].name.as_str();
        if !contains_name(used, name) && !crate::schedule::control_team::pairs_contain(rot, name) {
            return Some(&cands[k]);
        }
        k += 1;
    }
    None
}

/// Fills every office of the blueprint up to its capacity, seat by seat:
/// first the active teams' rotating office operators (bound ones first,
/// each group by name), else a candidate outside every rotating team; no
/// operator is used twice. Fails when a seat finds nobody.
pub fn assign_rotating_offices(
    assignment: &mut BaseAssignment,
    blueprint: &BaseBlueprint,
    active_teams: &Vec<TeamLabel>,
    rotating_team: &Vec<(String, TeamLabel)>,
    bound_names: &Vec<String>,
    candidates: &Vec<AssignedOperator>,
) -> (res: Result<(), OfficeFillError>)
    requires
        forall|a: int, b: int|
            0 <= a < b < rotating_team@.len() ==> #[trigger] rotating_team@[a].0@ != #[trigger] rotating_team@[b].0@,
    ensures
        match fill_offices(
            views_of(old(assignment).rooms@),
            Set::new(|n: Seq<char>| assigned_anywhere(old(assignment).rooms@, n)),
            blueprint.rooms@,
            candidates@,
            rotating_team@,
            active_teams@,
            bound_names@,
        ) {
            Some(v) => res is Ok && views_of(final(assignment).rooms@) == v,
            None => res is Err,
        },
{
    let ghost rot = rotating_team@;
    let ghost active = active_teams@;
    let ghost bound = bound_names@;
    let ghost cands = candidates@;
    let mut used = assignment.operator_names();
    assert(name_set_of(used@) =~= Set::new(|n: Seq<char>| assigned_anywhere(assignment.rooms@, n)));
    let mut bound_sorted: Vec<String> = Vec::new();
    let mut free_sorted: Vec<String> = Vec::new();
    let mut r: usize = 0;
    while r < rotating_team.len()
        invariant
            0 <= r <= rot.len(),
            rot == rotating_team@,
            active == active_teams@,
            bound == bound_names@,
            strictly_sorted(bound_sorted@),
            strictly_sorted(free_sorted@),
            forall|n: Seq<char>|
                #[trigger] has_name(bound_sorted@, n) <==> (active_rot(rot.take(r as int), active, n) && has_name(
                    bound,
                    n,
                )),
            forall|n: Seq<char>|
                #[trigger] has_name(free_sorted@, n) <==> (active_rot(rot.take(r as int), active, n) && !has_name(
                    bound,
                    n,
                )),
        decreases rot.len() - r,
    {
        let name = &rotating_team[r].0;
        let team = rotating_team[r].1;
        let mut in_active = false;
        let mut t: usize = 0;
        while t < active_teams.len()
            invariant
                0 <= t <= active.len(),
                active == active_teams@,
                in_active == exists|q: int| 0 <= q < t && active[q] == team,
            decreases active.len() - t,
        {
            if active_teams[t] == team {
                in_active = true;
            }
            t += 1;
        }
        proof {
            assert(in_active == active.contains(team));
            assert forall|n: Seq<char>| active_rot(rot.take(r + 1), active, n) <==> (active_rot(rot.take(r as int), active, n)
                || (n == name@ && active.contains(team))) by {
                let p = rot.take(r + 1);
                if active_rot(p, active, n) {
                    let k = choose|k: int| 0 <= k < p.len() && #[trigger] p[k].0@ == n && active.contains(p[k].1);
                    if k < r {
                        assert(rot.take(r as int)[k] == p[k]);
                        assert(active_rot(rot.take(r as int), active, n));
                    }
                }
                if active_rot(rot.take(r as int), active, n) {
                    let k = choose|k: int|
                        0 <= k < rot.take(r as int).len() && #[trigger] rot.take(r as int)[k].0@ == n && active.contains(
                            rot.take(r as int)[k].1,
                        );
                    assert(p[k] == rot.take(r as int)[k]);
                }
                if n == name@ && active.contains(team) {
                    assert(p[r as int].0@ == n);
                }
            }
        }
        if in_active {
            if contains_name(bound_names, name.as_str()) {
                insert_sorted_unique(&mut bound_sorted, name.clone());
            } else {
                insert_sorted_unique(&mut free_sorted, name.clone());
            }
        }
        r += 1;
    }
    assert(rot.take(rot.len() as int) == rot);
    let ghost target = fill_offices(
        views_of(assignment.rooms@),
        name_set_of(used@),
        blueprint.rooms@,
        cands,
        rot,
        active,
        bound,
    );
    let mut k: usize = 0;
    assert(blueprint.rooms@.skip(0) == blueprint.rooms@);
    assert(views_of(assignment.rooms@) == views_of(old(assignment).rooms@));
    while k < blueprint.rooms.len()
        invariant
            0 <= k <= blueprint.rooms@.len(),
            rot == rotating_team@,
            active == active_teams@,
            bound == bound_names@,
            cands == candidates@,
            strictly_sorted(bound_sorted@),
            strictly_sorted(free_sorted@),
            forall|n: Seq<char>| #[trigger] has_name(bound_sorted@, n) <==> (active_rot(rot, active, n) && has_name(bound, n)),
            forall|n: Seq<char>|
                #[trigger] has_name(free_sorted@, n) <==> (active_rot(rot, active, n) && !has_name(bound, n)),
            target == fill_offices(
                views_of(assignment.rooms@),
                name_set_of(used@),
                blueprint.rooms@.skip(k as int),
                cands,
                rot,
                active,
                bound,
            ),
            target == fill_offices(
                views_of(old(assignment).rooms@),
                Set::new(|n: Seq<char>| assigned_anywhere(old(assignment).rooms@, n)),
                blueprint.rooms@,
                cands,
                rot,
                active,
                bound,
            ),
        decreases blueprint.rooms@.len() - k,
    {
        let room = &blueprint.rooms[k];
        assert(blueprint.rooms@.skip(k as int)[0] == *room);
        assert(blueprint.rooms@.skip(k as int).drop_first() == blueprint.rooms@.skip(k + 1));
        if room.kind == FacilityKind::Office {
            let ghost vs = views_of(assignment.rooms@);
            proof {
                crate::schedule::rooms::lemma_view_index(assignment.rooms@, room.id.0@);
                crate::layout::lemma_room_index(assignment.rooms@, room.id.0@);
            }
            let mut operators: Vec<AssignedOperator> = match assignment.room_position(room.id.0.as_str()) {
                Some(i) => crate::layout::clone_operators(&assignment.rooms[i].operators),
                None => Vec::new(),
            };
            assert(operators@ == view_ops(vs, room.id.0@));
            let cap = room.operator_capacity();
            let ghost used_start = name_set_of(used@);
            let ghost room_target = fill_office(
                operators@,
                cap as int,
                name_set_of(used@),
                cands,
                rot,
                active,
                bound,
            );
            assert(target == match room_target {
                None => None,
                Some((ops, u2)) => fill_offices(
                    set_ops(vs, room.id.0@, ops),
                    u2,
                    blueprint.rooms@.skip(k + 1),
                    cands,
                    rot,
                    active,
                    bound,
                ),
            });
            while operators.len() < cap
                invariant
                    cap == spec_operator_capacity(room.kind, room.level),
                    rot == rotating_team@,
                    active == active_teams@,
                    bound == bound_names@,
                    cands == candidates@,
                    strictly_sorted(bound_sorted@),
                    strictly_sorted(free_sorted@),
                    forall|n: Seq<char>|
                        #[trigger] has_name(bound_sorted@, n) <==> (active_rot(rot, active, n) && has_name(bound, n)),
                    forall|n: Seq<char>|
                        #[trigger] has_name(free_sorted@, n) <==> (active_rot(rot, active, n) && !has_name(bound, n)),
                    room_target == fill_office(operators@, cap as int, name_set_of(used@), cands, rot, active, bound),
                    target == match room_target {
                        None => None,
                        Some((ops, u2)) => fill_offices(
                            set_ops(vs, room.id.0@, ops),
                            u2,
                            blueprint.rooms@.skip(k + 1),
                            cands,
                            rot,
                            active,
                            bound,
                        ),
                    },
                    target == fill_offices(
                        views_of(old(assignment).rooms@),
                        Set::new(|n: Seq<char>| assigned_anywhere(old(assignment).rooms@, n)),
                        blueprint.rooms@,
                        cands,
                        rot,
                        active,
                        bound,
                    ),
                decreases cap - operators@.len(),
            {
                let ghost us = name_set_of(used@);
                let (bi, bfound) = first_unused(&bound_sorted, &used);
                let (fi, ffound) = first_unused(&free_sorted, &used);
                proof {
                    assert forall|j: int| 0 <= j < bi implies us.contains(#[trigger] bound_sorted@[j]@) by {
                        assert(has_name(used@, bound_sorted@[j]@));
                    }
                    assert forall|j: int| 0 <= j < fi implies us.contains(#[trigger] free_sorted@[j]@) by {
                        assert(has_name(used@, free_sorted@[j]@));
                    }
                    lemma_first_unused_least(bound_sorted@, bi as int, rot, active, bound, us, true);
                    lemma_first_unused_least(free_sorted@, fi as int, rot, active, bound, us, false);
                }
                let by_rot: Option<&AssignedOperator> = if bfound {
                    find_named(candidates, bound_sorted[bi].as_str())
                } else if ffound {
                    find_named(candidates, free_sorted[fi].as_str())
                } else {
                    None
                };
                let pick: Option<&AssignedOperator> = match by_rot {
                    Some(op) => Some(op),
                    None => find_replacement(candidates, rotating_team, &used),
                };
                proof {
                    match pick {
                        Some(op) => assert(office_pick(cands, rot, active, bound, us) == Some(*op)),
                        None => assert(office_pick(cands, rot, active, bound, us) is None),
                    }
                }
                match pick {
                    None => {
                        return Err(OfficeFillError::NoLegalOperator { room: room.id.0.clone() });
                    },
                    Some(op) => {
                        let ghost before_used = used@;
                        let x = op.name.clone();
                        used.push(x);
                        proof {
                            assert forall|n: Seq<char>| name_set_of(used@).contains(n) <==> us.insert(op.name@).contains(n) by {
                                crate::text::lemma_has_name_push(before_used, x, n);
                            }
                            assert(name_set_of(used@) =~= us.insert(op.name@));
                        }
                        operators.push(op.clone());
                    },
                }
            }
            let ghost filled = operators@;
            let ghost before_rooms = assignment.rooms@;
            assignment.set_room(room.id.0.as_str(), operators);
            proof {
                crate::schedule::rooms::lemma_view_index(before_rooms, room.id.0@);
                crate::layout::lemma_room_index(before_rooms, room.id.0@);
                assert(views_of(assignment.rooms@) =~= set_ops(vs, room.id.0@, filled));
            }
        }
        k += 1;
    }
    assert(blueprint.rooms@.skip(k as int).len() == 0);
    Ok(())
}

} // verus!
