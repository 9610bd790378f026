//! The response-dependency rows of a skill table: one row per effect atom,
//! classifying what the atom reads (selector, condition, action), which
//! resources it reads and writes, which room response it changes, and
//! whether it needs state from outside its room; and the counts a report
//! gives of them.

use vstd::prelude::*;

use crate::response_dependency::{
    ResponseField, action_dependency, closure_response_field, spec_closure_response_field, condition_dependency, response_field, selector_dependency, spec_action_dependency,
    spec_condition_name, spec_condition_scope, spec_response_field, spec_selector_name, spec_selector_scope,
    spec_target_facility, target_facility, DependencyScope, ResponseDependencyRow,
};
use crate::skill_table::{Skill, SkillTable};
use crate::text::{has_name, insert_sorted_unique, str_eq, strictly_sorted, views};
use crate::types::{Action, AtomScope, EffectAtom, Selector};

verus! {

/// The id a resource key names: the id its alias pair gives (the first
/// pair with that key), else the key in ASCII lower case.
pub open spec fn normalized(aliases: Seq<(String, String)>, key: Seq<char>) -> Seq<char>
    decreases aliases.len(),
{
    if aliases.len() == 0 {
        key.map_values(|c: char| lower_char(c))
    } else if aliases[0].0@ == key {
        aliases[0].1@
    } else {
        normalized(aliases.drop_first(), key)
    }
}

/// A character in ASCII lower case.
pub open spec fn lower_char(c: char) -> char {
    if 'A' <= c && c <= 'Z' {
        ((c as u32) + 32) as char
    } else {
        c
    }
}

/// The key of the resource an atom's action reads.
pub open spec fn action_read_key(action: Action) -> Option<Seq<char>> {
    match action {
        Action::AddLimitFromState { key, .. } => Some(key@),
        Action::MoodDrainPerStateStep { key, .. } => Some(key@),
        Action::StateConsume { key, .. } => Some(key@),
        Action::StateConsumeToEff { key, .. } => Some(key@),
        Action::StateConvert { from, .. } => Some(from@),
        _ => None,
    }
}

/// The resources an atom reads: the floored pool its selector reads, the
/// virtual power of a power-plant count, then the resource its action reads
/// unless already listed.
pub open spec fn read_resources(atom: EffectAtom, aliases: Seq<(String, String)>) -> Seq<Seq<char>> {
    let s1: Seq<Seq<char>> = match atom.selector {
        Some(Selector::StatePoolFloored { key, .. }) => seq![normalized(aliases, key@)],
        _ => Seq::empty(),
    };
    let s2 = match atom.selector {
        Some(Selector::PowerStationCount) => s1.push("virtual_power"@),
        _ => s1,
    };
    match action_read_key(atom.action) {
        Some(k) => if s2.contains(normalized(aliases, k)) {
            s2
        } else {
            s2.push(normalized(aliases, k))
        },
        None => s2,
    }
}

/// The resources an atom writes.
pub open spec fn written_resources(atom: EffectAtom, aliases: Seq<(String, String)>) -> Seq<Seq<char>> {
    match atom.action {
        Action::StateProduce { key, .. } => seq![normalized(aliases, key@)],
        Action::StateConvert { to, .. } => seq![normalized(aliases, to@)],
        _ => Seq::empty(),
    }
}

/// The atom needs state from outside its room: it acts on the whole base,
/// or its selector, condition or action reaches beyond the room.
pub open spec fn needs_external_state(atom: EffectAtom) -> bool {
    ||| atom.scope == AtomScope::Global
    ||| (atom.selector matches Some(s) && spec_selector_scope(s) != DependencyScope::RoomLocal)
    ||| (atom.condition matches Some(c) && spec_condition_scope(c) != DependencyScope::RoomLocal)
    ||| spec_action_dependency(atom.action, atom.scope).1 != DependencyScope::RoomLocal
}

/// `row` is the row of atom `i` of `skill`.
pub open spec fn row_of_atom(
    row: ResponseDependencyRow,
    skill: Skill,
    i: int,
    atom: EffectAtom,
    aliases: Seq<(String, String)>,
) -> bool {
    &&& row.skill_id@ == skill.id@
    &&& row.source_facility@ == skill.facility@
    &&& row.target_facility@ == spec_target_facility(skill.facility@, atom.action, atom.scope)
    &&& row.atom_index == i
    &&& match atom.selector {
        Some(s) => row.selector matches Some(n) && n@ == spec_selector_name(s) && row.selector_scope == Some(
            spec_selector_scope(s),
        ),
        None => row.selector is None && row.selector_scope is None,
    }
    &&& match atom.condition {
        Some(c) => row.condition matches Some(n) && n@ == spec_condition_name(c) && row.condition_scope == Some(
            spec_condition_scope(c),
        ),
        None => row.condition is None && row.condition_scope is None,
    }
    &&& row.action_dependency@ == spec_action_dependency(atom.action, atom.scope).0
    &&& row.action_scope == spec_action_dependency(atom.action, atom.scope).1
    &&& views(row.reads_resources@) == read_resources(atom, aliases)
    &&& views(row.writes_resources@) == written_resources(atom, aliases)
    &&& row.atom_scope@ == (if atom.scope == AtomScope::Room {
        "room"@
    } else {
        "global"@
    })
    &&& row.response_field == spec_response_field(atom.action)
    &&& row.requires_external_state == needs_external_state(atom)
}

/// Number of atoms of the skills.
pub open spec fn atom_total(skills: Seq<Skill>) -> nat
    decreases skills.len(),
{
    if skills.len() == 0 {
        0
    } else {
        atom_total(skills.drop_last()) + skills.last().atoms@.len()
    }
}

/// The rows are those of the skills' atoms, skill by skill, atom by atom.
pub open spec fn rows_of_table(
    rows: Seq<ResponseDependencyRow>,
    skills: Seq<Skill>,
    aliases: Seq<(String, String)>,
) -> bool {
    &&& rows.len() == atom_total(skills)
    &&& forall|s: int, i: int|
        0 <= s < skills.len() && 0 <= i < skills[s].atoms@.len() ==> row_of_atom(
            #[trigger] rows[atom_total(skills.take(s)) + i],
            skills[s],
            i,
            skills[s].atoms@[i],
            aliases,
        )
}

/// A resource key names the id of the first alias pair with that key; with
/// no such pair it names itself with ASCII capitals lowered (each `A`..`Z`
/// moved up by 32 code points, every other character kept).
pub proof fn lemma_normalized(aliases: Seq<(String, String)>, key: Seq<char>)
    ensures
        forall|k: int|
            0 <= k < aliases.len() && aliases[k].0@ == key && (forall|j: int| 0 <= j < k ==> aliases[j].0@ != key)
                ==> normalized(aliases, key) == aliases[k].1@,
        (forall|j: int| 0 <= j < aliases.len() ==> aliases[j].0@ != key) ==> {
            let n = normalized(aliases, key);
            &&& n.len() == key.len()
            &&& forall|i: int|
                0 <= i < key.len() ==> if 'A' <= key[i] && key[i] <= 'Z' {
                    n[i] as u32 == key[i] as u32 + 32
                } else {
                    n[i] == key[i]
                }
        },
    decreases aliases.len(),
{
    if aliases.len() > 0 {
        lemma_normalized(aliases.drop_first(), key);
        assert forall|k: int|
            0 <= k < aliases.len() && aliases[k].0@ == key && (forall|j: int| 0 <= j < k ==> aliases[j].0@ != key)
                implies normalized(aliases, key) == aliases[k].1@ by {
            if k > 0 {
                assert(aliases[0].0@ != key);
                assert(aliases.drop_first()[k - 1] == aliases[k]);
                assert forall|j: int| 0 <= j < k - 1 implies aliases.drop_first()[j].0@ != key by {
                    assert(aliases.drop_first()[j] == aliases[j + 1]);
                }
            }
        }
        if forall|j: int| 0 <= j < aliases.len() ==> aliases[j].0@ != key {
            assert(aliases[0].0@ != key);
            assert forall|j: int| 0 <= j < aliases.drop_first().len() implies aliases.drop_first()[j].0@ != key by {
                assert(aliases.drop_first()[j] == aliases[j + 1]);
            }
        }
    } else {
        let n = normalized(aliases, key);
        assert forall|i: int| 0 <= i < key.len() implies (if 'A' <= key[i] && key[i] <= 'Z' {
            n[i] as u32 == key[i] as u32 + 32
        } else {
            n[i] == key[i]
        }) by {
            assert(n[i] == lower_char(key[i]));
        }
    }
}

/// What an atom reads and writes: a produced pool is written, a converted
/// pool read and its target written; a floored-pool selector reads its pool
/// first and a power-plant count reads virtual power; the pool the action
/// reads comes last and only once; an atom without such a selector or
/// action reads nothing.
pub proof fn lemma_read_write_resources(atom: EffectAtom, aliases: Seq<(String, String)>)
    ensures
        atom.action matches Action::StateProduce { key, .. } ==> written_resources(atom, aliases) == seq![
            normalized(aliases, key@),
        ],
        atom.action matches Action::StateConvert { from, to, .. } ==> written_resources(atom, aliases) == seq![
            normalized(aliases, to@),
        ],
        !(atom.action is StateProduce || atom.action is StateConvert) ==> written_resources(atom, aliases).len() == 0,
        atom.selector is None ==> (atom.action matches Action::StateConsume { key, .. } ==> read_resources(
            atom,
            aliases,
        ) == seq![normalized(aliases, key@)]),
        atom.selector is None ==> (atom.action matches Action::StateConvert { from, .. } ==> read_resources(
            atom,
            aliases,
        ) == seq![normalized(aliases, from@)]),
        !(atom.action is AddLimitFromState || atom.action is MoodDrainPerStateStep || atom.action is StateConsume
            || atom.action is StateConsumeToEff || atom.action is StateConvert) ==> (atom.selector matches Some(
            Selector::StatePoolFloored { key, .. },
        ) ==> read_resources(atom, aliases) == seq![normalized(aliases, key@)]),
        (atom.selector matches Some(Selector::PowerStationCount) && !(atom.action is AddLimitFromState
            || atom.action is MoodDrainPerStateStep || atom.action is StateConsume || atom.action is StateConsumeToEff
            || atom.action is StateConvert)) ==> read_resources(atom, aliases) == seq!["virtual_power"@],
        (!(atom.selector matches Some(Selector::StatePoolFloored { .. })) && !(atom.selector matches Some(
            Selector::PowerStationCount,
        )) && !(atom.action is AddLimitFromState || atom.action is MoodDrainPerStateStep || atom.action is StateConsume
            || atom.action is StateConsumeToEff || atom.action is StateConvert)) ==> read_resources(atom, aliases).len()
            == 0,
        (atom.selector matches Some(Selector::StatePoolFloored { .. })) ==> read_resources(atom, aliases).len() >= 1,
{
}

/// An atom acting on the whole base needs outside state; one acting on its
/// room, with no selector or condition and an action without implicit input
/// from outside the room, does not.
pub proof fn lemma_external_state(atom: EffectAtom)
    ensures
        atom.scope == AtomScope::Global ==> needs_external_state(atom),
        (atom.scope == AtomScope::Room && atom.selector is None && atom.condition is None && (atom.action is AddFlatEff
            || atom.action is ReduceLimit || atom.action is AddLimitDelta || atom.action is MoodDrainDelta
            || atom.action is AddEffRamp || atom.action is TagOrder)) ==> !needs_external_state(atom),
        (atom.action is AddPerGapEff || atom.action is StateConsume || atom.action is GlobalInjectTradeEff)
            ==> needs_external_state(atom),
{
}

/// The row of atom `i` of skill `s` of a table changes mood exactly when
/// the atom's action drains mood, and efficiency exactly when it adds
/// production efficiency; its response field is one of the two only then.
pub proof fn lemma_row_response_fields(
    rows: Seq<ResponseDependencyRow>,
    skills: Seq<Skill>,
    aliases: Seq<(String, String)>,
    s: int,
    i: int,
)
    requires
        rows_of_table(rows, skills, aliases),
        0 <= s < skills.len(),
        0 <= i < skills[s].atoms@.len(),
    ensures
        ({
            let f = rows[atom_total(skills.take(s)) + i].response_field;
            let a = skills[s].atoms@[i].action;
            &&& f == ResponseField::Mood <==> (a is MoodDrainDelta || a is MoodDrainPerStateStep)
            &&& f == ResponseField::Efficiency <==> (a is AddFlatEff || a is AddPerGapEff || a is PeerEffAbsorb
                || a is AddBucketEffFromSelector || a is AddEffFromLimitContribSum || a is AddEffFromLimitContribTiered
                || a is AddEffRamp || a is AddFlatEffFromSelector || a is StateConsumeToEff)
        }),
{
    assert(row_of_atom(rows[atom_total(skills.take(s)) + i], skills[s], i, skills[s].atoms@[i], aliases));
    crate::response_dependency::lemma_response_field_families(skills[s].atoms@[i].action);
}

/// `str::to_ascii_lowercase`: a copy of the string with each ASCII letter
/// `A` to `Z` mapped to `a` to `z` and every other character unchanged, as
/// its documentation states.
#[verifier::external_body]
fn ascii_lower(key: &str) -> (res: String)
    ensures
        res@ == key@.map_values(|c: char| lower_char(c)),
{
    key.to_ascii_lowercase()
}

/// The id a resource key names.
pub fn normalize_resource(aliases: &Vec<(String, String)>, key: &str) -> (res: String)
    ensures
        res@ == normalized(aliases@, key@),
{
    let mut i: usize = 0;
    assert(aliases@.skip(0) == aliases@);
    while i < aliases.len()
        invariant
            0 <= i <= aliases@.len(),
            normalized(aliases@, key@) == normalized(aliases@.skip(i as int), key@),
        decreases aliases@.len() - i,
    {
        assert(aliases@.skip(i as int)[0] == aliases@[i as int]);
        assert(aliases@.skip(i as int).drop_first() == aliases@.skip(i + 1));
        if str_eq(aliases[i].0.as_str(), key) {
            return aliases[i].1.clone();
        }
        i += 1;
    }
    ascii_lower(key)
}

/// The resources an atom reads, computed.
pub fn read_resources_of(atom: &EffectAtom, aliases: &Vec<(String, String)>) -> (res: Vec<String>)
    ensures
        views(res@) == read_resources(*atom, aliases@),
{
    let mut out: Vec<String> = Vec::new();
    match &atom.selector {
        Some(Selector::StatePoolFloored { key, .. }) => {
            out.push(normalize_resource(aliases, key.as_str()));
        },
        _ => {},
    }
    match &atom.selector {
        Some(Selector::PowerStationCount) => {
            out.push(String::from_str("virtual_power"));
        },
        _ => {},
    }
    let ghost s2 = views(out@);
    assert(s2 == match atom.selector {
        Some(Selector::PowerStationCount) => (match atom.selector {
            Some(Selector::StatePoolFloored { key, .. }) => seq![normalized(aliases@, key@)],
            _ => Seq::<Seq<char>>::empty(),
        }).push("virtual_power"@),
        _ => match atom.selector {
            Some(Selector::StatePoolFloored { key, .. }) => seq![normalized(aliases@, key@)],
            _ => Seq::<Seq<char>>::empty(),
        },
    });
    let key: Option<&String> = match &atom.action {
        Action::AddLimitFromState { key, .. } => Some(key),
        Action::MoodDrainPerStateStep { key, .. } => Some(key),
        Action::StateConsume { key, .. } => Some(key),
        Action::StateConsumeToEff { key, .. } => Some(key),
        Action::StateConvert { from, .. } => Some(from),
        _ => None,
    };
    if let Some(k) = key {
        let r = normalize_resource(aliases, k.as_str());
        let mut present = false;
        let mut i: usize = 0;
        while i < out.len()
            invariant
                0 <= i <= out@.len(),
                present ==> views(out@).contains(r@),
                !present ==> forall|j: int| 0 <= j < i ==> out@[j]@ != r@,
            decreases out@.len() - i,
        {
            if str_eq(out[i].as_str(), r.as_str()) {
                present = true;
                assert(views(out@)[i as int] == r@);
            }
            i += 1;
        }
        if !present {
            assert(!views(out@).contains(r@)) by {
                if views(out@).contains(r@) {
                    let j = choose|j: int| 0 <= j < views(out@).len() && views(out@)[j] == r@;
                    assert(out@[j]@ == r@);
                }
            }
            out.push(r);
            assert(views(out@) == s2.push(normalized(aliases@, action_read_key(atom.action).unwrap())));
        }
    }
    out
}

/// The resources an atom writes, computed.
pub fn written_resources_of(atom: &EffectAtom, aliases: &Vec<(String, String)>) -> (res: Vec<String>)
    ensures
        views(res@) == written_resources(*atom, aliases@),
{
    let mut out: Vec<String> = Vec::new();
    match &atom.action {
        Action::StateProduce { key, .. } => {
            out.push(normalize_resource(aliases, key.as_str()));
        },
        Action::StateConvert { to, .. } => {
            out.push(normalize_resource(aliases, to.as_str()));
        },
        _ => {},
    }
    assert(views(out@) == written_resources(*atom, aliases@));
    out
}

/// The row of atom `i` of `skill`.
pub fn response_dependency_row(
    skill: &Skill,
    i: usize,
    atom: &EffectAtom,
    aliases: &Vec<(String, String)>,
) -> (res: ResponseDependencyRow)
    ensures
        row_of_atom(res, *skill, i as int, *atom, aliases@),
{
    let (selector, selector_scope) = match &atom.selector {
        Some(s) => {
            let (n, sc) = selector_dependency(s);
            (Some(String::from_str(n)), Some(sc))
        },
        None => (None, None),
    };
    let (condition, condition_scope) = match &atom.condition {
        Some(c) => {
            let (n, sc) = condition_dependency(c);
            (Some(String::from_str(n)), Some(sc))
        },
        None => (None, None),
    };
    let (action_name, action_scope) = action_dependency(&atom.action, atom.scope);
    let external = atom.scope == AtomScope::Global || (match selector_scope {
        Some(sc) => sc != DependencyScope::RoomLocal,
        None => false,
    }) || (match condition_scope {
        Some(sc) => sc != DependencyScope::RoomLocal,
        None => false,
    }) || action_scope != DependencyScope::RoomLocal;
    let atom_scope = if atom.scope == AtomScope::Room {
        String::from_str("room")
    } else {
        String::from_str("global")
    };
    ResponseDependencyRow {
        skill_id: skill.id.clone(),
        source_facility: skill.facility.clone(),
        target_facility: String::from_str(target_facility(skill.facility.as_str(), &atom.action, atom.scope)),
        atom_index: i,
        selector,
        selector_scope,
        condition,
        condition_scope,
        action_dependency: String::from_str(action_name),
        action_scope,
        reads_resources: read_resources_of(atom, aliases),
        writes_resources: written_resources_of(atom, aliases),
        atom_scope,
        response_field: response_field(&atom.action),
        requires_external_state: external,
    }
}

/// The rows of every atom of the table, skill by skill, atom by atom.
pub fn build_response_dependency_rows(table: &SkillTable, aliases: &Vec<(String, String)>) -> (res: Vec<ResponseDependencyRow>)
    ensures
        rows_of_table(res@, table.skills@, aliases@),
{
    let skills = &table.skills;
    let mut rows: Vec<ResponseDependencyRow> = Vec::new();
    let mut s: usize = 0;
    while s < skills.len()
        invariant
            0 <= s <= skills@.len(),
            rows@.len() == atom_total(skills@.take(s as int)),
            forall|t: int, i: int|
                0 <= t < s && 0 <= i < skills@[t].atoms@.len() ==> row_of_atom(
                    #[trigger] rows@[atom_total(skills@.take(t)) + i],
                    skills@[t],
                    i,
                    skills@[t].atoms@[i],
                    aliases@,
                ),
            forall|t: int| 0 <= t <= s ==> atom_total(#[trigger] skills@.take(t)) <= atom_total(skills@.take(s as int)),
        decreases skills@.len() - s,
    {
        let skill = &skills[s];
        let ghost base = rows@.len();
        proof {
            assert(skills@.take(s + 1).drop_last() == skills@.take(s as int));
            assert(skills@.take(s + 1).last() == skills@[s as int]);
            assert(atom_total(skills@.take(s + 1)) == base + skill.atoms@.len());
        }
        let mut i: usize = 0;
        while i < skill.atoms.len()
            invariant
                0 <= i <= skill.atoms@.len(),
                *skill == skills@[s as int],
                s < skills@.len(),
                base == atom_total(skills@.take(s as int)),
                rows@.len() == base + i,
                forall|t: int, j: int|
                    0 <= t < s && 0 <= j < skills@[t].atoms@.len() ==> row_of_atom(
                        #[trigger] rows@[atom_total(skills@.take(t)) + j],
                        skills@[t],
                        j,
                        skills@[t].atoms@[j],
                        aliases@,
                    ),
                forall|j: int| 0 <= j < i ==> row_of_atom(#[trigger] rows@[base + j], *skill, j, skill.atoms@[j], aliases@),
                forall|t: int| 0 <= t <= s ==> atom_total(#[trigger] skills@.take(t)) <= base,
            decreases skill.atoms@.len() - i,
        {
            let row = response_dependency_row(skill, i, &skill.atoms[i], aliases);
            let ghost prev = rows@;
            rows.push(row);
            proof {
                assert forall|t: int, j: int|
                    0 <= t < s && 0 <= j < skills@[t].atoms@.len() implies row_of_atom(
                    #[trigger] rows@[atom_total(skills@.take(t)) + j],
                    skills@[t],
                    j,
                    skills@[t].atoms@[j],
                    aliases@,
                ) by {
                    lemma_prefix_total(skills@, t, s as int);
                    assert(rows@[atom_total(skills@.take(t)) + j] == prev[atom_total(skills@.take(t)) + j]);
                }
                assert forall|j: int| 0 <= j < i + 1 implies row_of_atom(
                    #[trigger] rows@[base + j],
                    *skill,
                    j,
                    skill.atoms@[j],
                    aliases@,
                ) by {
                    if j < i {
                        assert(rows@[base + j] == prev[base + j]);
                    }
                }
            }
            i += 1;
        }
        proof {
            assert forall|t: int| 0 <= t <= s + 1 implies atom_total(#[trigger] skills@.take(t)) <= atom_total(
                skills@.take(s + 1),
            ) by {}
        }
        s += 1;
    }
    assert(skills@.take(skills@.len() as int) == skills@);
    rows
}

/// The atoms of an earlier prefix end before the atoms of skill `s` begin.
proof fn lemma_prefix_total(skills: Seq<Skill>, t: int, s: int)
    requires
        0 <= t < s <= skills.len(),
    ensures
        atom_total(skills.take(t)) + skills[t].atoms@.len() <= atom_total(skills.take(s)),
    decreases s - t,
{
    assert(skills.take(t + 1).drop_last() == skills.take(t));
    assert(skills.take(t + 1).last() == skills[t]);
    if t + 1 < s {
        lemma_prefix_total(skills, t + 1, s);
        assert(skills.take(s).drop_last() == skills.take(s - 1));
        lemma_prefix_mono(skills, t + 1, s);
    }
}

/// Longer prefixes hold at least as many atoms.
proof fn lemma_prefix_mono(skills: Seq<Skill>, t: int, s: int)
    requires
        0 <= t <= s <= skills.len(),
    ensures
        atom_total(skills.take(t)) <= atom_total(skills.take(s)),
    decreases s - t,
{
    if t < s {
        assert(skills.take(s).drop_last() == skills.take(s - 1));
        lemma_prefix_mono(skills, t, s - 1);
    }
}

/// The row counts (every row, or only those needing outside state).
pub open spec fn counted(row: ResponseDependencyRow, external_only: bool) -> bool {
    !external_only || row.requires_external_state
}

/// Number of counted rows whose target facility is `t`.
pub open spec fn target_count(rows: Seq<ResponseDependencyRow>, t: Seq<char>, external_only: bool) -> nat
    decreases rows.len(),
{
    if rows.len() == 0 {
        0
    } else {
        target_count(rows.drop_last(), t, external_only) + if counted(rows.last(), external_only)
            && rows.last().target_facility@ == t {
            1nat
        } else {
            0nat
        }
    }
}

/// Number of rows that change response field `f`.
pub open spec fn field_count(rows: Seq<ResponseDependencyRow>, f: ResponseField) -> nat
    decreases rows.len(),
{
    if rows.len() == 0 {
        0
    } else {
        field_count(rows.drop_last(), f) + if rows.last().response_field == f {
            1nat
        } else {
            0nat
        }
    }
}

/// Number of dependency edges (selector, condition, action) of scope `sc`.
pub open spec fn scope_count(rows: Seq<ResponseDependencyRow>, sc: DependencyScope) -> nat
    decreases rows.len(),
{
    if rows.len() == 0 {
        0
    } else {
        let r = rows.last();
        scope_count(rows.drop_last(), sc) + (if r.selector_scope == Some(sc) {
            1nat
        } else {
            0nat
        }) + (if r.condition_scope == Some(sc) {
            1nat
        } else {
            0nat
        }) + (if r.action_scope == sc {
            1nat
        } else {
            0nat
        })
    }
}

/// Number of rows that need outside state.
pub open spec fn external_count(rows: Seq<ResponseDependencyRow>) -> nat
    decreases rows.len(),
{
    if rows.len() == 0 {
        0
    } else {
        external_count(rows.drop_last()) + if rows.last().requires_external_state {
            1nat
        } else {
            0nat
        }
    }
}

/// Some counted row targets facility `t`.
pub open spec fn targeted(rows: Seq<ResponseDependencyRow>, t: Seq<char>, external_only: bool) -> bool {
    exists|j: int| 0 <= j < rows.len() && counted(rows[j], external_only) && #[trigger] rows[j].target_facility@ == t
}

/// Counts per target facility: keys in increasing order, exactly the
/// targets of the counted rows, each with its count.
pub open spec fn target_counts_ok(
    res: Seq<(String, usize)>,
    rows: Seq<ResponseDependencyRow>,
    external_only: bool,
) -> bool {
    &&& strictly_sorted(res.map_values(|p: (String, usize)| p.0))
    &&& forall|k: int| 0 <= k < res.len() ==> (#[trigger] res[k]).1 == target_count(rows, res[k].0@, external_only)
    &&& forall|t: Seq<char>| has_name(res.map_values(|p: (String, usize)| p.0), t) <==> targeted(rows, t, external_only)
}

/// The counts over two runs of rows are the sums of their counts, and one
/// row counts: once for its target facility (when it needs outside state,
/// or when every row is counted), once for its response field, once if it
/// needs outside state, and once for each of its selector, condition and
/// action scopes that is the scope counted.
pub proof fn lemma_counts(a: Seq<ResponseDependencyRow>, b: Seq<ResponseDependencyRow>, t: Seq<char>, ext: bool, f: ResponseField, sc: DependencyScope)
    ensures
        target_count(a + b, t, ext) == target_count(a, t, ext) + target_count(b, t, ext),
        field_count(a + b, f) == field_count(a, f) + field_count(b, f),
        scope_count(a + b, sc) == scope_count(a, sc) + scope_count(b, sc),
        external_count(a + b) == external_count(a) + external_count(b),
        b.len() == 1 ==> {
            let r = b[0];
            &&& target_count(b, t, ext) == (if r.target_facility@ == t && (!ext || r.requires_external_state) {
                1int
            } else {
                0int
            })
            &&& field_count(b, f) == (if r.response_field == f {
                1int
            } else {
                0int
            })
            &&& external_count(b) == (if r.requires_external_state {
                1int
            } else {
                0int
            })
            &&& scope_count(b, sc) == (if r.selector_scope == Some(sc) {
                1int
            } else {
                0int
            }) + (if r.condition_scope == Some(sc) {
                1int
            } else {
                0int
            }) + (if r.action_scope == sc {
                1int
            } else {
                0int
            })
        },
    decreases b.len(),
{
    if b.len() == 1 {
        assert(b.drop_last() == Seq::<ResponseDependencyRow>::empty());
        assert(b.last() == b[0]);
    }
    if b.len() == 0 {
        assert(a + b == a);
    } else {
        lemma_counts(a, b.drop_last(), t, ext, f, sc);
        assert((a + b).drop_last() == a + b.drop_last());
        assert((a + b).last() == b.last());
    }
}

/// Number of counted rows targeting `t`.
fn count_target(rows: &Vec<ResponseDependencyRow>, t: &str, external_only: bool) -> (res: usize)
    ensures
        res == target_count(rows@, t@, external_only),
{
    let mut c: usize = 0;
    let mut i: usize = 0;
    while i < rows.len()
        invariant
            0 <= i <= rows@.len(),
            c == target_count(rows@.take(i as int), t@, external_only),
            c <= i,
        decreases rows@.len() - i,
    {
        assert(rows@.take(i + 1).drop_last() == rows@.take(i as int));
        let r = &rows[i];
        if (!external_only || r.requires_external_state) && str_eq(r.target_facility.as_str(), t) {
            c += 1;
        }
        i += 1;
    }
    assert(rows@.take(rows@.len() as int) == rows@);
    c
}

/// The number of counted rows per target facility, in increasing order of
/// facility.
pub fn target_counts(rows: &Vec<ResponseDependencyRow>, external_only: bool) -> (res: Vec<(String, usize)>)
    ensures
        target_counts_ok(res@, rows@, external_only),
{
    let mut keys: Vec<String> = Vec::new();
    let mut i: usize = 0;
    while i < rows.len()
        invariant
            0 <= i <= rows@.len(),
            strictly_sorted(keys@),
            forall|t: Seq<char>| has_name(keys@, t) <==> targeted(rows@.take(i as int), t, external_only),
        decreases rows@.len() - i,
    {
        let r = &rows[i];
        let ghost before = keys@;
        if !external_only || r.requires_external_state {
            insert_sorted_unique(&mut keys, r.target_facility.clone());
        }
        proof {
            assert forall|t: Seq<char>| has_name(keys@, t) <==> targeted(rows@.take(i + 1), t, external_only) by {
                if targeted(rows@.take(i + 1), t, external_only) {
                    let j = choose|j: int|
                        0 <= j < i + 1 && counted(rows@.take(i + 1)[j], external_only)
                            && #[trigger] rows@.take(i + 1)[j].target_facility@ == t;
                    if j < i {
                        assert(rows@.take(i as int)[j] == rows@[j]);
                        assert(targeted(rows@.take(i as int), t, external_only));
                    }
                }
                if targeted(rows@.take(i as int), t, external_only) {
                    let j = choose|j: int|
                        0 <= j < i && counted(rows@.take(i as int)[j], external_only)
                            && #[trigger] rows@.take(i as int)[j].target_facility@ == t;
                    assert(rows@.take(i + 1)[j] == rows@[j]);
                }
                if counted(rows@[i as int], external_only) && rows@[i as int].target_facility@ == t {
                    assert(rows@.take(i + 1)[i as int] == rows@[i as int]);
                }
            }
        }
        i += 1;
    }
    assert(rows@.take(rows@.len() as int) == rows@);
    let mut out: Vec<(String, usize)> = Vec::new();
    let mut k: usize = 0;
    while k < keys.len()
        invariant
            0 <= k <= keys@.len(),
            out@.len() == k,
            forall|j: int| 0 <= j < k ==> (#[trigger] out@[j]).0 == keys@[j],
            forall|j: int| 0 <= j < k ==> (#[trigger] out@[j]).1 == target_count(rows@, out@[j].0@, external_only),
        decreases keys@.len() - k,
    {
        let c = count_target(rows, keys[k].as_str(), external_only);
        out.push((keys[k].clone(), c));
        k += 1;
    }
    assert(out@.map_values(|p: (String, usize)| p.0) == keys@);
    out
}

/// Number of rows changing response field `f`.
fn count_field(rows: &Vec<ResponseDependencyRow>, f: ResponseField) -> (res: usize)
    ensures
        res == field_count(rows@, f),
{
    let mut c: usize = 0;
    let mut i: usize = 0;
    while i < rows.len()
        invariant
            0 <= i <= rows@.len(),
            c == field_count(rows@.take(i as int), f),
            c <= i,
        decreases rows@.len() - i,
    {
        assert(rows@.take(i + 1).drop_last() == rows@.take(i as int));
        if rows[i].response_field == f {
            c += 1;
        }
        i += 1;
    }
    assert(rows@.take(rows@.len() as int) == rows@);
    c
}

/// Number of dependency edges of scope `sc`.
fn count_scope(rows: &Vec<ResponseDependencyRow>, sc: DependencyScope) -> (res: u128)
    ensures
        res == scope_count(rows@, sc),
{
    let mut c: u128 = 0;
    let mut i: usize = 0;
    while i < rows.len()
        invariant
            0 <= i <= rows@.len(),
            c == scope_count(rows@.take(i as int), sc),
            c <= 3 * i,
        decreases rows@.len() - i,
    {
        assert(rows@.take(i + 1).drop_last() == rows@.take(i as int));
        let r = &rows[i];
        if r.selector_scope == Some(sc) {
            c += 1;
        }
        if r.condition_scope == Some(sc) {
            c += 1;
        }
        if r.action_scope == sc {
            c += 1;
        }
        i += 1;
    }
    assert(rows@.take(rows@.len() as int) == rows@);
    c
}

/// Number of rows needing outside state.
fn count_external(rows: &Vec<ResponseDependencyRow>) -> (res: usize)
    ensures
        res == external_count(rows@),
{
    let mut c: usize = 0;
    let mut i: usize = 0;
    while i < rows.len()
        invariant
            0 <= i <= rows@.len(),
            c == external_count(rows@.take(i as int)),
            c <= i,
        decreases rows@.len() - i,
    {
        assert(rows@.take(i + 1).drop_last() == rows@.take(i as int));
        if rows[i].requires_external_state {
            c += 1;
        }
        i += 1;
    }
    assert(rows@.take(rows@.len() as int) == rows@);
    c
}

/// The response fields, in their order.
pub open spec fn all_fields() -> Seq<ResponseField> {
    seq![
        ResponseField::Efficiency,
        ResponseField::LimitOrStorage,
        ResponseField::UnitOutput,
        ResponseField::Mood,
        ResponseField::StateResource,
        ResponseField::GlobalInject,
    ]
}

/// The dependency scopes, in their order.
pub open spec fn all_scopes() -> Seq<DependencyScope> {
    seq![
        DependencyScope::RoomLocal,
        DependencyScope::SameFacility,
        DependencyScope::CrossFacility,
        DependencyScope::GlobalLayout,
        DependencyScope::RuntimeState,
    ]
}

/// The response-dependency report of a skill table: the rows of its atoms
/// and what they add up to.
#[derive(Debug)]
pub struct ResponseDependencyReport {
    pub skill_count: usize,
    pub atom_count: usize,
    pub external_atom_count: usize,
    /// Rows per target facility, in increasing order of facility.
    pub by_target_facility: Vec<(String, usize)>,
    /// Rows needing outside state per target facility.
    pub external_by_target_facility: Vec<(String, usize)>,
    /// Dependency edges per scope, in scope order, scopes without edges left out.
    pub dependency_edges_by_scope: Vec<(DependencyScope, u128)>,
    /// Rows per response field, in field order, fields without rows left out.
    pub by_response_field: Vec<(ResponseField, usize)>,
    pub rows: Vec<ResponseDependencyRow>,
}

/// The nonzero counts, in the order of the fields.
pub open spec fn field_counts_ok(res: Seq<(ResponseField, usize)>, rows: Seq<ResponseDependencyRow>) -> bool {
    &&& forall|k: int| 0 <= k < res.len() ==> (#[trigger] res[k]).1 == field_count(rows, res[k].0) && res[k].1 > 0
    &&& forall|f: ResponseField| field_count(rows, f) > 0 <==> exists|k: int| 0 <= k < res.len() && (#[trigger] res[k]).0 == f
    &&& forall|a: int, b: int|
        0 <= a < b < res.len() ==> all_fields().index_of((#[trigger] res[a]).0) < all_fields().index_of((#[trigger] res[b]).0)
}

/// The nonzero edge counts, in the order of the scopes.
pub open spec fn scope_counts_ok(res: Seq<(DependencyScope, u128)>, rows: Seq<ResponseDependencyRow>) -> bool {
    &&& forall|k: int| 0 <= k < res.len() ==> (#[trigger] res[k]).1 == scope_count(rows, res[k].0) && res[k].1 > 0
    &&& forall|sc: DependencyScope| scope_count(rows, sc) > 0 <==> exists|k: int| 0 <= k < res.len() && (#[trigger] res[k]).0 == sc
    &&& forall|a: int, b: int|
        0 <= a < b < res.len() ==> all_scopes().index_of((#[trigger] res[a]).0) < all_scopes().index_of((#[trigger] res[b]).0)
}

/// The response-dependency report of a skill table, with `aliases` naming
/// the ids of resource keys: the rows of its atoms, their number, the number
/// needing outside state, and the counts per target facility, dependency
/// scope and response field.
pub fn build_response_dependency_report(table: &SkillTable, aliases: &Vec<(String, String)>) -> (res: ResponseDependencyReport)
    ensures
        rows_of_table(res.rows@, table.skills@, aliases@),
        res.skill_count == table.skills@.len(),
        res.atom_count == res.rows@.len(),
        res.external_atom_count == external_count(res.rows@),
        target_counts_ok(res.by_target_facility@, res.rows@, false),
        target_counts_ok(res.external_by_target_facility@, res.rows@, true),
        scope_counts_ok(res.dependency_edges_by_scope@, res.rows@),
        field_counts_ok(res.by_response_field@, res.rows@),
{
    let rows = build_response_dependency_rows(table, aliases);
    let by_target_facility = target_counts(&rows, false);
    let external_by_target_facility = target_counts(&rows, true);
    let fields = [
        ResponseField::Efficiency,
        ResponseField::LimitOrStorage,
        ResponseField::UnitOutput,
        ResponseField::Mood,
        ResponseField::StateResource,
        ResponseField::GlobalInject,
    ];
    let mut by_response_field: Vec<(ResponseField, usize)> = Vec::new();
    let mut k: usize = 0;
    proof {
        assert(fields@ == all_fields());
    }
    while k < 6
        invariant
            0 <= k <= 6,
            fields@ == all_fields(),
            forall|j: int| 0 <= j < by_response_field@.len() ==> (#[trigger] by_response_field@[j]).1 == field_count(rows@, by_response_field@[j].0) && by_response_field@[j].1 > 0,
            forall|j: int| 0 <= j < by_response_field@.len() ==> all_fields().index_of((#[trigger] by_response_field@[j]).0) < k,
            forall|j: int| 0 <= j < k ==> (field_count(rows@, #[trigger] all_fields()[j]) > 0 <==> exists|q: int| 0 <= q < by_response_field@.len() && (#[trigger] by_response_field@[q]).0 == all_fields()[j]),
            forall|a: int, b: int|
                0 <= a < b < by_response_field@.len() ==> all_fields().index_of((#[trigger] by_response_field@[a]).0) < all_fields().index_of((#[trigger] by_response_field@[b]).0),
        decreases 6 - k,
    {
        let f = fields[k];
        let c = count_field(&rows, f);
        proof {
            lemma_field_index(k as int);
            lemma_fields_distinct();
        }
        let ghost before = by_response_field@;
        if c > 0 {
            by_response_field.push((f, c));
        }
        proof {
            assert forall|j: int| 0 <= j < k + 1 implies (field_count(rows@, #[trigger] all_fields()[j]) > 0 <==> exists|q: int|
                0 <= q < by_response_field@.len() && (#[trigger] by_response_field@[q]).0 == all_fields()[j]) by {
                if exists|q: int| 0 <= q < by_response_field@.len() && (#[trigger] by_response_field@[q]).0 == all_fields()[j] {
                    let q = choose|q: int| 0 <= q < by_response_field@.len() && (#[trigger] by_response_field@[q]).0 == all_fields()[j];
                    if q < before.len() {
                        assert(by_response_field@[q] == before[q]);
                        assert(all_fields().index_of(before[q].0) < k);
                        if j == k {
                            assert(false);
                        }
                    } else {
                        assert(all_fields()[j] == all_fields()[k as int]);
                    }
                }
                if j < k && exists|q: int| 0 <= q < before.len() && (#[trigger] before[q]).0 == all_fields()[j] {
                    let q = choose|q: int| 0 <= q < before.len() && (#[trigger] before[q]).0 == all_fields()[j];
                    assert(by_response_field@[q] == before[q]);
                }
                if j == k && c > 0 {
                    assert(by_response_field@[before.len() as int].0 == all_fields()[j]);
                }
            }
        }
        k += 1;
    }
    proof {
        assert forall|f: ResponseField| field_count(rows@, f) > 0 <==> exists|q: int| 0 <= q < by_response_field@.len() && (#[trigger] by_response_field@[q]).0 == f by {
            lemma_field_in_all(f);
        }
    }
    let scopes = [
        DependencyScope::RoomLocal,
        DependencyScope::SameFacility,
        DependencyScope::CrossFacility,
        DependencyScope::GlobalLayout,
        DependencyScope::RuntimeState,
    ];
    let mut by_scope: Vec<(DependencyScope, u128)> = Vec::new();
    let mut k: usize = 0;
    proof {
        assert(scopes@ == all_scopes());
    }
    while k < 5
        invariant
            0 <= k <= 5,
            scopes@ == all_scopes(),
            forall|j: int| 0 <= j < by_scope@.len() ==> (#[trigger] by_scope@[j]).1 == scope_count(rows@, by_scope@[j].0) && by_scope@[j].1 > 0,
            forall|j: int| 0 <= j < by_scope@.len() ==> all_scopes().index_of((#[trigger] by_scope@[j]).0) < k,
            forall|j: int| 0 <= j < k ==> (scope_count(rows@, #[trigger] all_scopes()[j]) > 0 <==> exists|q: int| 0 <= q < by_scope@.len() && (#[trigger] by_scope@[q]).0 == all_scopes()[j]),
            forall|a: int, b: int|
                0 <= a < b < by_scope@.len() ==> all_scopes().index_of((#[trigger] by_scope@[a]).0) < all_scopes().index_of((#[trigger] by_scope@[b]).0),
        decreases 5 - k,
    {
        let sc = scopes[k];
        let c = count_scope(&rows, sc);
        proof {
            lemma_scope_index(k as int);
            lemma_scopes_distinct();
        }
        let ghost before = by_scope@;
        if c > 0 {
            by_scope.push((sc, c));
        }
        proof {
            assert forall|j: int| 0 <= j < k + 1 implies (scope_count(rows@, #[trigger] all_scopes()[j]) > 0 <==> exists|q: int|
                0 <= q < by_scope@.len() && (#[trigger] by_scope@[q]).0 == all_scopes()[j]) by {
                if exists|q: int| 0 <= q < by_scope@.len() && (#[trigger] by_scope@[q]).0 == all_scopes()[j] {
                    let q = choose|q: int| 0 <= q < by_scope@.len() && (#[trigger] by_scope@[q]).0 == all_scopes()[j];
                    if q < before.len() {
                        assert(by_scope@[q] == before[q]);
                        assert(all_scopes().index_of(before[q].0) < k);
                        if j == k {
                            assert(false);
                        }
                    } else {
                        assert(all_scopes()[j] == all_scopes()[k as int]);
                    }
                }
                if j < k && exists|q: int| 0 <= q < before.len() && (#[trigger] before[q]).0 == all_scopes()[j] {
                    let q = choose|q: int| 0 <= q < before.len() && (#[trigger] before[q]).0 == all_scopes()[j];
                    assert(by_scope@[q] == before[q]);
                }
                if j == k && c > 0 {
                    assert(by_scope@[before.len() as int].0 == all_scopes()[j]);
                }
            }
        }
        k += 1;
    }
    proof {
        assert forall|sc: DependencyScope| scope_count(rows@, sc) > 0 <==> exists|q: int| 0 <= q < by_scope@.len() && (#[trigger] by_scope@[q]).0 == sc by {
            lemma_scope_in_all(sc);
        }
    }
    let external_atom_count = count_external(&rows);
    ResponseDependencyReport {
        skill_count: table.skills.len(),
        atom_count: rows.len(),
        external_atom_count,
        by_target_facility,
        external_by_target_facility,
        dependency_edges_by_scope: by_scope,
        by_response_field,
        rows,
    }
}

/// Each field stands at its own position of the list.
proof fn lemma_field_index(k: int)
    requires
        0 <= k < 6,
    ensures
        all_fields().index_of(all_fields()[k]) == k,
{
    let s = all_fields();
    assert(s.contains(s[k]));
    assert(forall|a: int, b: int| 0 <= a < b < 6 ==> s[a] != s[b]);
    s.index_of_first_ensures(s[k]);
    let i = s.index_of(s[k]);
    assert(s.index_of_first(s[k]) == Some(i));
}

/// The fields of the list differ.
proof fn lemma_fields_distinct()
    ensures
        forall|a: int, b: int| 0 <= a < 6 && 0 <= b < 6 && a != b ==> all_fields()[a] != all_fields()[b],
{
}

/// The scopes of the list differ.
proof fn lemma_scopes_distinct()
    ensures
        forall|a: int, b: int| 0 <= a < 5 && 0 <= b < 5 && a != b ==> all_scopes()[a] != all_scopes()[b],
{
}

/// Every field is in the list.
proof fn lemma_field_in_all(f: ResponseField)
    ensures
        exists|j: int| 0 <= j < 6 && all_fields()[j] == f,
{
    let s = all_fields();
    match f {
        ResponseField::Efficiency => assert(s[0] == f),
        ResponseField::LimitOrStorage => assert(s[1] == f),
        ResponseField::UnitOutput => assert(s[2] == f),
        ResponseField::Mood => assert(s[3] == f),
        ResponseField::StateResource => assert(s[4] == f),
        ResponseField::GlobalInject => assert(s[5] == f),
    }
}

/// Each scope stands at its own position of the list.
proof fn lemma_scope_index(k: int)
    requires
        0 <= k < 5,
    ensures
        all_scopes().index_of(all_scopes()[k]) == k,
{
    let s = all_scopes();
    assert(s.contains(s[k]));
    assert(forall|a: int, b: int| 0 <= a < b < 5 ==> s[a] != s[b]);
    s.index_of_first_ensures(s[k]);
    let i = s.index_of(s[k]);
    assert(s.index_of_first(s[k]) == Some(i));
}

/// Every scope is in the list.
proof fn lemma_scope_in_all(sc: DependencyScope)
    ensures
        exists|j: int| 0 <= j < 5 && all_scopes()[j] == sc,
{
    let s = all_scopes();
    match sc {
        DependencyScope::RoomLocal => assert(s[0] == sc),
        DependencyScope::SameFacility => assert(s[1] == sc),
        DependencyScope::CrossFacility => assert(s[2] == sc),
        DependencyScope::GlobalLayout => assert(s[3] == sc),
        DependencyScope::RuntimeState => assert(s[4] == sc),
    }
}

/// How a read resource's value enters the atom (quantities in thousandths).
#[derive(Debug, Clone, Copy, PartialEq, Eq, Structural)]
pub enum ResourceReadFormula {
    FloorDivideMultiplier { div_milli: i64, multiplier_milli: i64 },
    FloorStepDelta { step_size_milli: i64, delta_per_step_milli: i64 },
    FloorThenRoundMultiplier { multiplier_milli: i64 },
    LinearConvert { ratio_milli: i64 },
    IntegerTruncateSaturatingAdd { cap: u64, action_multiplier_milli: i64, requires_physical_base: bool },
    DeclaredConsume { div_milli: i64 },
}

/// One resource an atom reads, with the formula of the read.
#[derive(Debug)]
pub struct ResourceValueDomainFact {
    pub skill_id: String,
    pub atom_index: usize,
    pub target_facility: String,
    pub response_field: ResponseField,
    pub resource: String,
    pub formula: ResourceReadFormula,
    pub requires_producer_range_analysis: bool,
}

/// A fact, with its strings as character sequences.
pub struct FactView {
    pub skill_id: Seq<char>,
    pub atom_index: int,
    pub target_facility: Seq<char>,
    pub response_field: ResponseField,
    pub resource: Seq<char>,
    pub formula: ResourceReadFormula,
    pub requires_producer_range_analysis: bool,
}

/// The view of a fact.
pub open spec fn fact_view(f: ResourceValueDomainFact) -> FactView {
    FactView {
        skill_id: f.skill_id@,
        atom_index: f.atom_index as int,
        target_facility: f.target_facility@,
        response_field: f.response_field,
        resource: f.resource@,
        formula: f.formula,
        requires_producer_range_analysis: f.requires_producer_range_analysis,
    }
}

/// The multiplier an atom's action applies to what its selector counts
/// (one when it names none).
pub open spec fn selector_action_multiplier(action: Action) -> i64 {
    match action {
        Action::AddFlatEffFromSelector { multiplier_milli, .. } => multiplier_milli,
        Action::GlobalInjectTradeEff { value_milli } => value_milli,
        Action::GlobalInjectManuEff { value_milli, .. } => value_milli,
        Action::GlobalInjectManuTaggedEff { value_milli, .. } => value_milli,
        _ => 1000,
    }
}

/// The fact of atom `i` of `skill` reading `resource` by `formula`.
pub open spec fn fact_of(skill: Skill, i: int, atom: EffectAtom, resource: Seq<char>, formula: ResourceReadFormula) -> FactView {
    FactView {
        skill_id: skill.id@,
        atom_index: i,
        target_facility: spec_target_facility(skill.facility@, atom.action, atom.scope),
        response_field: spec_closure_response_field(spec_response_field(atom.action)),
        resource,
        formula,
        requires_producer_range_analysis: true,
    }
}

/// The resource an atom's action reads and the formula of the read.
pub open spec fn action_read(action: Action) -> Option<(Seq<char>, ResourceReadFormula)> {
    match action {
        Action::StateConsumeToEff { key, div_milli, multiplier_milli } => Some(
            (
                key@,
                ResourceReadFormula::FloorDivideMultiplier {
                    div_milli,
                    multiplier_milli: match multiplier_milli {
                        Some(m) => m,
                        None => 1000,
                    },
                },
            ),
        ),
        Action::MoodDrainPerStateStep { key, step_size_milli, delta_per_step_milli, .. } => Some(
            (key@, ResourceReadFormula::FloorStepDelta { step_size_milli, delta_per_step_milli }),
        ),
        Action::AddLimitFromState { key, multiplier_milli } => Some(
            (key@, ResourceReadFormula::FloorThenRoundMultiplier { multiplier_milli }),
        ),
        Action::StateConvert { from, ratio_milli, .. } => Some((from@, ResourceReadFormula::LinearConvert { ratio_milli })),
        Action::StateConsume { key, div_milli } => Some((key@, ResourceReadFormula::DeclaredConsume { div_milli })),
        _ => None,
    }
}

/// The read facts of one atom: the floored pool its selector reads, then the
/// resource its action reads.
pub open spec fn atom_read_facts(skill: Skill, i: int, atom: EffectAtom, aliases: Seq<(String, String)>) -> Seq<FactView> {
    let pool: Seq<FactView> = match atom.selector {
        Some(Selector::StatePoolFloored { key, div_milli }) => seq![
            fact_of(
                skill,
                i,
                atom,
                normalized(aliases, key@),
                ResourceReadFormula::FloorDivideMultiplier {
                    div_milli,
                    multiplier_milli: selector_action_multiplier(atom.action),
                },
            ),
        ],
        _ => Seq::empty(),
    };
    match action_read(atom.action) {
        Some((k, formula)) => pool.push(fact_of(skill, i, atom, normalized(aliases, k), formula)),
        None => pool,
    }
}

/// The power-count fact of one atom, when its selector counts power plants.
pub open spec fn atom_power_facts(skill: Skill, i: int, atom: EffectAtom) -> Seq<FactView> {
    match atom.selector {
        Some(Selector::PowerStationCount) => seq![
            fact_of(
                skill,
                i,
                atom,
                "virtual_power"@,
                ResourceReadFormula::IntegerTruncateSaturatingAdd {
                    cap: 255,
                    action_multiplier_milli: selector_action_multiplier(atom.action),
                    requires_physical_base: true,
                },
            ),
        ],
        _ => Seq::empty(),
    }
}

/// The facts of the first `n` atoms of a skill (`power` picks the pass).
pub open spec fn skill_facts(skill: Skill, n: int, power: bool, aliases: Seq<(String, String)>) -> Seq<FactView>
    decreases n,
{
    if n <= 0 {
        Seq::empty()
    } else {
        skill_facts(skill, n - 1, power, aliases) + if power {
            atom_power_facts(skill, n - 1, skill.atoms@[n - 1])
        } else {
            atom_read_facts(skill, n - 1, skill.atoms@[n - 1], aliases)
        }
    }
}

/// The facts of the skills, skill by skill (`power` picks the pass).
pub open spec fn table_facts(skills: Seq<Skill>, power: bool, aliases: Seq<(String, String)>) -> Seq<FactView>
    decreases skills.len(),
{
    if skills.len() == 0 {
        Seq::empty()
    } else {
        table_facts(skills.drop_last(), power, aliases) + skill_facts(
            skills.last(),
            skills.last().atoms@.len() as int,
            power,
            aliases,
        )
    }
}

/// The value-domain facts of one atom. A floored-pool selector gives one
/// fact for its pool, dividing by its divisor and scaling by the action's
/// multiplier (the selector bonus's multiplier, an inject's value, else
/// one); an action reading a pool gives one more, last, with the formula of
/// its kind (a pool consumed into efficiency scaling by one when it names
/// no multiplier); a power-plant count gives, in the second pass, one fact
/// for virtual power, saturating at 255 and needing a physical base. Every
/// fact needs producer range analysis and names the atom.
pub proof fn lemma_value_domain_facts(skill: Skill, i: int, atom: EffectAtom, aliases: Seq<(String, String)>)
    ensures
        atom_read_facts(skill, i, atom, aliases).len() == (if atom.selector matches Some(
            Selector::StatePoolFloored { .. },
        ) {
            1int
        } else {
            0int
        }) + (if action_read(atom.action) is Some {
            1int
        } else {
            0int
        }),
        atom.selector matches Some(Selector::StatePoolFloored { key, div_milli }) ==> atom_read_facts(
            skill,
            i,
            atom,
            aliases,
        )[0].resource == normalized(aliases, key@) && atom_read_facts(skill, i, atom, aliases)[0].formula
            == (ResourceReadFormula::FloorDivideMultiplier {
            div_milli,
            multiplier_milli: selector_action_multiplier(atom.action),
        }),
        atom.action matches Action::StateConsumeToEff { key, div_milli, multiplier_milli } ==> atom_read_facts(
            skill,
            i,
            atom,
            aliases,
        ).last().formula == (ResourceReadFormula::FloorDivideMultiplier {
            div_milli,
            multiplier_milli: if multiplier_milli is None {
                1000
            } else {
                multiplier_milli.unwrap()
            },
        }),
        (atom.action is AddFlatEffFromSelector ==> selector_action_multiplier(atom.action)
            == atom.action->AddFlatEffFromSelector_multiplier_milli),
        (atom.action is GlobalInjectTradeEff ==> selector_action_multiplier(atom.action)
            == atom.action->GlobalInjectTradeEff_value_milli),
        !(atom.action is AddFlatEffFromSelector || atom.action is GlobalInjectTradeEff || atom.action is GlobalInjectManuEff
            || atom.action is GlobalInjectManuTaggedEff) ==> selector_action_multiplier(atom.action) == 1000,
        atom_power_facts(skill, i, atom).len() == (if atom.selector matches Some(Selector::PowerStationCount) {
            1int
        } else {
            0int
        }),
        atom.selector matches Some(Selector::PowerStationCount) ==> atom_power_facts(skill, i, atom)[0].resource
            == "virtual_power"@ && atom_power_facts(skill, i, atom)[0].formula
            == (ResourceReadFormula::IntegerTruncateSaturatingAdd {
            cap: 255,
            action_multiplier_milli: selector_action_multiplier(atom.action),
            requires_physical_base: true,
        }),
        forall|k: int|
            0 <= k < atom_read_facts(skill, i, atom, aliases).len() ==> (#[trigger] atom_read_facts(
                skill,
                i,
                atom,
                aliases,
            )[k]).requires_producer_range_analysis && atom_read_facts(skill, i, atom, aliases)[k].atom_index == i
                && atom_read_facts(skill, i, atom, aliases)[k].skill_id == skill.id@,
{
}

/// A fact, built.
fn make_fact(skill: &Skill, i: usize, atom: &EffectAtom, resource: String, formula: ResourceReadFormula) -> (res: ResourceValueDomainFact)
    ensures
        fact_view(res) == fact_of(*skill, i as int, *atom, resource@, formula),
{
    ResourceValueDomainFact {
        skill_id: skill.id.clone(),
        atom_index: i,
        target_facility: String::from_str(target_facility(skill.facility.as_str(), &atom.action, atom.scope)),
        response_field: closure_response_field(response_field(&atom.action)),
        resource,
        formula,
        requires_producer_range_analysis: true,
    }
}

/// The multiplier an atom's action applies to its selector's count.
fn action_multiplier(action: &Action) -> (res: i64)
    ensures
        res == selector_action_multiplier(*action),
{
    match action {
        Action::AddFlatEffFromSelector { multiplier_milli, .. } => *multiplier_milli,
        Action::GlobalInjectTradeEff { value_milli } => *value_milli,
        Action::GlobalInjectManuEff { value_milli, .. } => *value_milli,
        Action::GlobalInjectManuTaggedEff { value_milli, .. } => *value_milli,
        _ => 1000,
    }
}

/// Appends the facts of one atom of the chosen pass.
fn push_atom_facts(
    out: &mut Vec<ResourceValueDomainFact>,
    skill: &Skill,
    i: usize,
    atom: &EffectAtom,
    power: bool,
    aliases: &Vec<(String, String)>,
)
    ensures
        final(out)@.map_values(|f: ResourceValueDomainFact| fact_view(f)) == old(out)@.map_values(
            |f: ResourceValueDomainFact| fact_view(f),
        ) + if power {
            atom_power_facts(*skill, i as int, *atom)
        } else {
            atom_read_facts(*skill, i as int, *atom, aliases@)
        },
{
    let ghost start = old(out)@.map_values(|f: ResourceValueDomainFact| fact_view(f));
    if power {
        match &atom.selector {
            Some(Selector::PowerStationCount) => {
                let f = make_fact(
                    skill,
                    i,
                    atom,
                    String::from_str("virtual_power"),
                    ResourceReadFormula::IntegerTruncateSaturatingAdd {
                        cap: 255,
                        action_multiplier_milli: action_multiplier(&atom.action),
                        requires_physical_base: true,
                    },
                );
                out.push(f);
            },
            _ => {},
        }
        assert(out@.map_values(|f: ResourceValueDomainFact| fact_view(f)) == start + atom_power_facts(
            *skill,
            i as int,
            *atom,
        ));
        return;
    }
    match &atom.selector {
        Some(Selector::StatePoolFloored { key, div_milli }) => {
            let f = make_fact(
                skill,
                i,
                atom,
                normalize_resource(aliases, key.as_str()),
                ResourceReadFormula::FloorDivideMultiplier {
                    div_milli: *div_milli,
                    multiplier_milli: action_multiplier(&atom.action),
                },
            );
            out.push(f);
        },
        _ => {},
    }
    let read: Option<(&String, ResourceReadFormula)> = match &atom.action {
        Action::StateConsumeToEff { key, div_milli, multiplier_milli } => Some(
            (
                key,
                ResourceReadFormula::FloorDivideMultiplier {
                    div_milli: *div_milli,
                    multiplier_milli: match multiplier_milli {
                        Some(m) => *m,
                        None => 1000,
                    },
                },
            ),
        ),
        Action::MoodDrainPerStateStep { key, step_size_milli, delta_per_step_milli, .. } => Some(
            (
                key,
                ResourceReadFormula::FloorStepDelta {
                    step_size_milli: *step_size_milli,
                    delta_per_step_milli: *delta_per_step_milli,
                },
            ),
        ),
        Action::AddLimitFromState { key, multiplier_milli } => Some(
            (key, ResourceReadFormula::FloorThenRoundMultiplier { multiplier_milli: *multiplier_milli }),
        ),
        Action::StateConvert { from, ratio_milli, .. } => Some(
            (from, ResourceReadFormula::LinearConvert { ratio_milli: *ratio_milli }),
        ),
        Action::StateConsume { key, div_milli } => Some(
            (key, ResourceReadFormula::DeclaredConsume { div_milli: *div_milli }),
        ),
        _ => None,
    };
    if let Some((k, formula)) = read {
        let f = make_fact(skill, i, atom, normalize_resource(aliases, k.as_str()), formula);
        out.push(f);
    }
    assert(out@.map_values(|f: ResourceValueDomainFact| fact_view(f)) == start + atom_read_facts(
        *skill,
        i as int,
        *atom,
        aliases@,
    ));
}

/// Appends the facts of every atom of the table, for the chosen pass.
fn push_table_facts(
    out: &mut Vec<ResourceValueDomainFact>,
    table: &SkillTable,
    power: bool,
    aliases: &Vec<(String, String)>,
)
    ensures
        final(out)@.map_values(|f: ResourceValueDomainFact| fact_view(f)) == old(out)@.map_values(
            |f: ResourceValueDomainFact| fact_view(f),
        ) + table_facts(table.skills@, power, aliases@),
{
    let ghost start = old(out)@.map_values(|f: ResourceValueDomainFact| fact_view(f));
    let skills = &table.skills;
    let mut s: usize = 0;
    while s < skills.len()
        invariant
            0 <= s <= skills@.len(),
            out@.map_values(|f: ResourceValueDomainFact| fact_view(f)) == start + table_facts(
                skills@.take(s as int),
                power,
                aliases@,
            ),
        decreases skills@.len() - s,
    {
        let skill = &skills[s];
        let ghost base = out@.map_values(|f: ResourceValueDomainFact| fact_view(f));
        let mut i: usize = 0;
        while i < skill.atoms.len()
            invariant
                0 <= i <= skill.atoms@.len(),
                out@.map_values(|f: ResourceValueDomainFact| fact_view(f)) == base + skill_facts(
                    *skill,
                    i as int,
                    power,
                    aliases@,
                ),
            decreases skill.atoms@.len() - i,
        {
            push_atom_facts(out, skill, i, &skill.atoms[i], power, aliases);
            i += 1;
        }
        proof {
            assert(skills@.take(s + 1).drop_last() == skills@.take(s as int));
            assert(skills@.take(s + 1).last() == skills@[s as int]);
            assert(out@.map_values(|f: ResourceValueDomainFact| fact_view(f)) == start + table_facts(
                skills@.take(s + 1),
                power,
                aliases@,
            ));
        }
        s += 1;
    }
    assert(skills@.take(skills@.len() as int) == skills@);
}

/// The value-domain facts of a skill table: for each atom, skill by skill,
/// the floored pool its selector reads and the resource its action reads;
/// then, for each atom counting power plants, its read of virtual power.
pub fn build_resource_value_domains(table: &SkillTable, aliases: &Vec<(String, String)>) -> (res: Vec<ResourceValueDomainFact>)
    ensures
        res@.map_values(|f: ResourceValueDomainFact| fact_view(f)) == table_facts(table.skills@, false, aliases@)
            + table_facts(table.skills@, true, aliases@),
{
    let mut out: Vec<ResourceValueDomainFact> = Vec::new();
    assert(out@.map_values(|f: ResourceValueDomainFact| fact_view(f)) == Seq::<FactView>::empty());
    push_table_facts(&mut out, table, false, aliases);
    push_table_facts(&mut out, table, true, aliases);
    out
}

} // verus!
