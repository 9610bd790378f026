//! Pools ranked by a flat-bonus hint (factories and power plants): every
//! operator of the roster is tried; those whose skills for the facility are
//! all modeled enter the pool, best hint first, the others are listed as
//! skipped with the reason.

use vstd::prelude::*;

use crate::instances::{instance_buffs, instance_has_facility, instance_tags, OperatorInstance, OperatorInstances};
use crate::pool::base::{HasName, PoolCore, PoolSkip};
use crate::pool::control::names_entry;
use crate::response_dependency::clamp_i64;
use crate::roster::{lists_keys, OperatorProgress, Roster};
use crate::skill_table::{lookup_skill, Skill, SkillTable};
use crate::text::{lemma_seq_lt_irreflexive, lemma_seq_lt_total, lemma_seq_lt_transitive, seq_lt, str_eq, str_lt};
use crate::tier::{spec_tier_of, OperatorTier, PromotionTier};
use crate::types::{Action, EffectAtom, Phase, RecipeKind};

verus! {

/// Which flat-bonus hint ranks a pool.
#[derive(Debug, Clone, Copy, PartialEq, Eq, Structural)]
pub enum HintKind {
    /// Factories: three times the multiplier of a per-station selector bonus,
    /// and constant efficiency bonuses for any recipe.
    Manufacture,
    /// Power plants: constant charge bonuses.
    Power,
}

/// The facility key of the pool.
pub open spec fn hint_facility(kind: HintKind) -> Seq<char> {
    match kind {
        HintKind::Manufacture => "manufacture"@,
        HintKind::Power => "power"@,
    }
}

fn facility_name(kind: HintKind) -> (res: &'static str)
    ensures
        res@ == hint_facility(kind),
{
    match kind {
        HintKind::Manufacture => "manufacture",
        HintKind::Power => "power",
    }
}

/// `a + b`, saturating at the range of `i64`.
fn sat_add(a: i64, b: i64) -> (res: i64)
    ensures
        res as int == clamp_i64(a + b),
{
    let s: i128 = a as i128 + b as i128;
    if s > i64::MAX as i128 {
        i64::MAX
    } else if s < i64::MIN as i128 {
        i64::MIN
    } else {
        s as i64
    }
}

/// The hint `acc` after atom `a`: for factories, a per-station selector
/// bonus (tag `station`) adds three times its multiplier, then a constant
/// efficiency bonus for any recipe adds its value; for power plants, a
/// constant bonus adds its value. Each addition saturates at the range of
/// `i64`.
pub open spec fn atom_hint(acc: int, a: EffectAtom, kind: HintKind) -> int {
    match kind {
        HintKind::Manufacture => {
            let s = if a.tag matches Some(t) && t@ == "station"@ {
                match a.action {
                    Action::AddFlatEffFromSelector { multiplier_milli, .. } => clamp_i64(
                        acc + clamp_i64(3 * multiplier_milli),
                    ),
                    _ => acc,
                }
            } else {
                acc
            };
            if a.phase == Phase::Constant {
                match a.action {
                    Action::AddFlatEff { value_milli, recipe } => if recipe is None || recipe == Some(
                        RecipeKind::All,
                    ) {
                        clamp_i64(s + value_milli)
                    } else {
                        s
                    },
                    _ => s,
                }
            } else {
                s
            }
        },
        HintKind::Power => if a.phase == Phase::Constant {
            match a.action {
                Action::AddFlatEff { value_milli, .. } => clamp_i64(acc + value_milli),
                _ => acc,
            }
        } else {
            acc
        },
    }
}

/// The hint of a list of atoms, atom by atom from zero.
pub open spec fn atoms_hint(atoms: Seq<EffectAtom>, kind: HintKind) -> int
    decreases atoms.len(),
{
    if atoms.len() == 0 {
        0
    } else {
        atom_hint(atoms_hint(atoms.drop_last(), kind), atoms.last(), kind)
    }
}

/// The hint of a skill, and whether it is left to another layer (a skill
/// without atoms, hint zero).
pub open spec fn skill_hint(skill: Skill, kind: HintKind) -> (int, bool) {
    if skill.atoms@.len() == 0 {
        (0, true)
    } else {
        (atoms_hint(skill.atoms@, kind), false)
    }
}

/// The table models `id` as a skill of `facility`.
pub open spec fn modeled_for(skills: Seq<Skill>, id: Seq<char>, facility: Seq<char>) -> bool {
    lookup_skill(skills, id) matches Some(s) && s.facility@ == facility
}

/// The first of `buffs` the table does not model for `facility`.
pub open spec fn first_unmodeled_for(buffs: Seq<String>, skills: Seq<Skill>, facility: Seq<char>) -> Option<Seq<char>>
    decreases buffs.len(),
{
    if buffs.len() == 0 {
        None
    } else if !modeled_for(skills, buffs[0]@, facility) {
        Some(buffs[0]@)
    } else {
        first_unmodeled_for(buffs.drop_first(), skills, facility)
    }
}

/// The summed hint of the skills `buffs` (saturating at the range of `i64`),
/// and whether any of them is left to another layer.
pub open spec fn buffs_hint(buffs: Seq<String>, skills: Seq<Skill>, kind: HintKind) -> (int, bool)
    decreases buffs.len(),
{
    if buffs.len() == 0 {
        (0, false)
    } else {
        let p = buffs_hint(buffs.drop_last(), skills, kind);
        match lookup_skill(skills, buffs.last()@) {
            Some(s) => (clamp_i64(p.0 + skill_hint(s, kind).0), p.1 || skill_hint(s, kind).1),
            None => p,
        }
    }
}

/// Skills `name` at `progress` brings to the facility.
pub open spec fn pool_buffs(
    inst: Seq<OperatorInstance>,
    name: Seq<char>,
    progress: OperatorProgress,
    kind: HintKind,
) -> Seq<String> {
    instance_buffs(inst, name, spec_tier_of(progress.elite, progress.rarity), hint_facility(kind))
}

/// Why `name` at `progress` stays out of the pool: `Some(None)` when it has no
/// binding or no skill for the facility, `Some(Some(b))` when `b` is the first
/// of its skills the table does not model, `None` when it enters.
pub open spec fn skip_reason(
    inst: Seq<OperatorInstance>,
    skills: Seq<Skill>,
    name: Seq<char>,
    progress: OperatorProgress,
    kind: HintKind,
) -> Option<Option<Seq<char>>> {
    let tier = spec_tier_of(progress.elite, progress.rarity);
    if !instance_has_facility(inst, name, tier, hint_facility(kind)) || pool_buffs(inst, name, progress, kind).len()
        == 0 {
        Some(None)
    } else {
        match first_unmodeled_for(pool_buffs(inst, name, progress, kind), skills, hint_facility(kind)) {
            Some(b) => Some(Some(b)),
            None => None,
        }
    }
}

/// `skip` is the reason `why`.
pub open spec fn skip_is(skip: PoolSkip, why: Option<Seq<char>>) -> bool {
    match why {
        None => skip is NoTradeBinding,
        Some(b) => skip matches PoolSkip::UnmodeledBuff(x) && x@ == b,
    }
}

/// What a ranked entry holds besides its name: elite stage, progress,
/// skills, tags, hint, whether a skill is left to another layer, and
/// classification.
pub type RankedParts = (u8, OperatorProgress, Seq<String>, Seq<String>, int, bool, OperatorTier);

/// A pool entry ranked by its hint.
pub trait RankedEntry: HasName + Sized {
    spec fn parts(&self) -> RankedParts;

    /// A fresh standalone entry.
    fn make(
        name: String,
        progress: OperatorProgress,
        buff_ids: Vec<String>,
        tags: Vec<String>,
        hint: i64,
        delegated: bool,
    ) -> (res: Self)
        ensures
            res.spec_pool_name() == name@,
            res.parts() == (progress.elite, progress, buff_ids@, tags@, hint as int, delegated, OperatorTier::Standalone),
    ;

    fn hint(&self) -> (res: i64)
        ensures
            res as int == self.parts().4,
    ;
}

/// `e` is the entry of `name` at `progress`.
pub open spec fn is_ranked_entry<T: RankedEntry>(
    e: T,
    name: Seq<char>,
    progress: OperatorProgress,
    inst: Seq<OperatorInstance>,
    skills: Seq<Skill>,
    kind: HintKind,
) -> bool {
    let buffs = pool_buffs(inst, name, progress, kind);
    &&& e.spec_pool_name() == name
    &&& e.parts() == (
        progress.elite,
        progress,
        buffs,
        instance_tags(inst, name, spec_tier_of(progress.elite, progress.rarity)),
        buffs_hint(buffs, skills, kind).0,
        buffs_hint(buffs, skills, kind).1,
        OperatorTier::Standalone,
    )
}

/// Hint `h1` and name `n1` rank before `h2` and `n2`: a higher hint first,
/// then the name.
pub open spec fn ranks_before(h1: int, n1: Seq<char>, h2: int, n2: Seq<char>) -> bool {
    h1 > h2 || (h1 == h2 && seq_lt(n1, n2))
}

/// Entries strictly in rank order.
pub open spec fn ranked_sorted<T: RankedEntry>(s: Seq<T>) -> bool {
    forall|a: int, b: int|
        0 <= a < b < s.len() ==> ranks_before(
            (#[trigger] s[a]).parts().4,
            s[a].spec_pool_name(),
            (#[trigger] s[b]).parts().4,
            s[b].spec_pool_name(),
        )
}

/// The order of ranks is a strict total order on distinct names.
pub proof fn lemma_rank_order(h1: int, n1: Seq<char>, h2: int, n2: Seq<char>, h3: int, n3: Seq<char>)
    ensures
        !ranks_before(h1, n1, h1, n1),
        ranks_before(h1, n1, h2, n2) && ranks_before(h2, n2, h3, n3) ==> ranks_before(h1, n1, h3, n3),
        n1 != n2 ==> ranks_before(h1, n1, h2, n2) || ranks_before(h2, n2, h1, n1),
        ranks_before(h1, n1, h2, n2) ==> !ranks_before(h2, n2, h1, n1),
{
    lemma_seq_lt_irreflexive(n1);
    lemma_seq_lt_total(n1, n2);
    if seq_lt(n1, n2) && seq_lt(n2, n3) {
        lemma_seq_lt_transitive(n1, n2, n3);
    }
    if seq_lt(n1, n2) && seq_lt(n2, n1) {
        lemma_seq_lt_transitive(n1, n2, n1);
    }
}

/// `skip` records that `name` of the roster stays out of the pool, with the
/// reason.
pub open spec fn is_ranked_skip(
    skip: (String, u8, PoolSkip),
    roster: Map<Seq<char>, OperatorProgress>,
    inst: Seq<OperatorInstance>,
    skills: Seq<Skill>,
    kind: HintKind,
) -> bool {
    let name = skip.0@;
    &&& roster.contains_key(name)
    &&& skip.1 == roster[name].elite
    &&& skip_reason(inst, skills, name, roster[name], kind) matches Some(why) && skip_is(skip.2, why)
}

/// The pool of `roster`: every operator that enters, as its entry, in rank
/// order, and every other operator among the skipped, once, with the reason.
pub open spec fn is_ranked_pool<T: RankedEntry>(
    entries: Seq<T>,
    skipped: Seq<(String, u8, PoolSkip)>,
    roster: Map<Seq<char>, OperatorProgress>,
    inst: Seq<OperatorInstance>,
    skills: Seq<Skill>,
    kind: HintKind,
) -> bool {
    &&& ranked_sorted(entries)
    &&& forall|k: int|
        0 <= k < entries.len() ==> {
            let n = (#[trigger] entries[k]).spec_pool_name();
            &&& roster.contains_key(n)
            &&& skip_reason(inst, skills, n, roster[n], kind) is None
            &&& is_ranked_entry(entries[k], n, roster[n], inst, skills, kind)
        }
    &&& forall|n: Seq<char>|
        #[trigger] roster.contains_key(n) && skip_reason(inst, skills, n, roster[n], kind) is None ==> names_entry(
            entries,
            n,
        )
    &&& forall|k: int| 0 <= k < skipped.len() ==> is_ranked_skip(#[trigger] skipped[k], roster, inst, skills, kind)
    &&& forall|n: Seq<char>|
        #[trigger] roster.contains_key(n) && skip_reason(inst, skills, n, roster[n], kind) is Some ==> exists|k: int|
            0 <= k < skipped.len() && #[trigger] skipped[k].0@ == n
    &&& forall|a: int, b: int| 0 <= a < b < skipped.len() ==> #[trigger] skipped[a].0@ != #[trigger] skipped[b].0@
}

/// The hint after atom `a`.
fn atom_step(acc: i64, a: &EffectAtom, kind: HintKind) -> (res: i64)
    ensures
        res as int == atom_hint(acc as int, *a, kind),
{
    match kind {
        HintKind::Manufacture => {
            let station = match &a.tag {
                Some(t) => str_eq(t.as_str(), "station"),
                None => false,
            };
            let mut s = acc;
            if station {
                match &a.action {
                    Action::AddFlatEffFromSelector { multiplier_milli, .. } => {
                        let m: i128 = 3 * (*multiplier_milli as i128);
                        let three: i64 = if m > i64::MAX as i128 {
                            i64::MAX
                        } else if m < i64::MIN as i128 {
                            i64::MIN
                        } else {
                            m as i64
                        };
                        s = sat_add(acc, three);
                    },
                    _ => {},
                }
            }
            if a.phase == Phase::Constant {
                match &a.action {
                    Action::AddFlatEff { value_milli, recipe } => {
                        let any = match recipe {
                            None => true,
                            Some(RecipeKind::All) => true,
                            Some(_) => false,
                        };
                        if any {
                            s = sat_add(s, *value_milli);
                        }
                    },
                    _ => {},
                }
            }
            s
        },
        HintKind::Power => {
            if a.phase == Phase::Constant {
                match &a.action {
                    Action::AddFlatEff { value_milli, .. } => sat_add(acc, *value_milli),
                    _ => acc,
                }
            } else {
                acc
            }
        },
    }
}

/// The hint of a skill and whether it is left to another layer.
fn skill_hints(skill: &Skill, kind: HintKind) -> (res: (i64, bool))
    ensures
        res.0 as int == skill_hint(*skill, kind).0,
        res.1 == skill_hint(*skill, kind).1,
{
    if skill.atoms.len() == 0 {
        return (0, true);
    }
    let mut acc: i64 = 0;
    let mut j: usize = 0;
    assert(skill.atoms@.take(0) =~= Seq::<EffectAtom>::empty());
    while j < skill.atoms.len()
        invariant
            0 <= j <= skill.atoms@.len(),
            acc as int == atoms_hint(skill.atoms@.take(j as int), kind),
        decreases skill.atoms@.len() - j,
    {
        assert(skill.atoms@.take(j + 1).drop_last() =~= skill.atoms@.take(j as int));
        assert(skill.atoms@.take(j + 1).last() == skill.atoms@[j as int]);
        acc = atom_step(acc, &skill.atoms[j], kind);
        j += 1;
    }
    assert(skill.atoms@.take(j as int) =~= skill.atoms@);
    (acc, false)
}

/// The entry of `name` at `progress`, or why it stays out.
fn try_ranked<T: RankedEntry>(
    name: &str,
    progress: OperatorProgress,
    instances: &OperatorInstances,
    table: &SkillTable,
    kind: HintKind,
) -> (res: Result<T, PoolSkip>)
    ensures
        res is Ok <==> skip_reason(instances.instances@, table.skills@, name@, progress, kind) is None,
        res matches Ok(e) ==> is_ranked_entry(e, name@, progress, instances.instances@, table.skills@, kind),
        res matches Err(skip) ==> (skip_reason(instances.instances@, table.skills@, name@, progress, kind) matches Some(
            why,
        ) && skip_is(skip, why)),
{
    let ghost inst = instances.instances@;
    let ghost skills = table.skills@;
    let ghost fac = hint_facility(kind);
    let tier = PromotionTier::from_progress(progress);
    let facility = facility_name(kind);
    if !instances.has_facility(name, tier, facility) {
        return Err(PoolSkip::NoTradeBinding);
    }
    let buff_ids = instances.resolve_buff_ids(name, tier, facility);
    if buff_ids.len() == 0 {
        return Err(PoolSkip::NoTradeBinding);
    }
    let mut hint: i64 = 0;
    let mut delegated = false;
    let mut i: usize = 0;
    assert(buff_ids@.skip(0) == buff_ids@);
    assert(buff_ids@.take(0) =~= Seq::<String>::empty());
    while i < buff_ids.len()
        invariant
            0 <= i <= buff_ids@.len(),
            skills == table.skills@,
            inst == instances.instances@,
            fac == hint_facility(kind),
            facility@ == fac,
            instance_has_facility(inst, name@, spec_tier_of(progress.elite, progress.rarity), fac),
            buff_ids@.len() > 0,
            buff_ids@ == pool_buffs(inst, name@, progress, kind),
            first_unmodeled_for(buff_ids@, skills, fac) == first_unmodeled_for(buff_ids@.skip(i as int), skills, fac),
            hint as int == buffs_hint(buff_ids@.take(i as int), skills, kind).0,
            delegated == buffs_hint(buff_ids@.take(i as int), skills, kind).1,
        decreases buff_ids@.len() - i,
    {
        let bid = &buff_ids[i];
        assert(buff_ids@.skip(i as int)[0] == *bid);
        assert(buff_ids@.skip(i as int).drop_first() == buff_ids@.skip(i + 1));
        assert(buff_ids@.take(i + 1).drop_last() =~= buff_ids@.take(i as int));
        assert(buff_ids@.take(i + 1).last() == *bid);
        match table.get(bid.as_str()) {
            None => {
                let b = bid.clone();
                assert(first_unmodeled_for(buff_ids@.skip(i as int), skills, fac) == Some(b@));
                return Err(PoolSkip::UnmodeledBuff(b));
            },
            Some(skill) => {
                if !str_eq(skill.facility.as_str(), facility) {
                    let b = bid.clone();
                    assert(first_unmodeled_for(buff_ids@.skip(i as int), skills, fac) == Some(b@));
                    return Err(PoolSkip::UnmodeledBuff(b));
                }
                let (h, d) = skill_hints(skill, kind);
                hint = sat_add(hint, h);
                delegated = delegated || d;
            },
        }
        i += 1;
    }
    assert(buff_ids@.skip(i as int).len() == 0);
    assert(buff_ids@.take(i as int) =~= buff_ids@);
    let tags = instances.tags_for(name, tier);
    Ok(T::make(String::from_str(name), progress, buff_ids, tags, hint, delegated))
}

/// Inserts `e` at its place by rank into a list in rank order that does not
/// hold its name yet.
fn insert_by_rank<T: RankedEntry>(v: &mut Vec<T>, e: T)
    requires
        ranked_sorted(old(v)@),
        !names_entry(old(v)@, e.spec_pool_name()),
    ensures
        ranked_sorted(final(v)@),
        exists|p: int| 0 <= p <= old(v)@.len() && final(v)@ == old(v)@.insert(p, e),
{
    let eh = e.hint();
    let mut i: usize = 0;
    let mut done = false;
    while !done && i < v.len()
        invariant
            0 <= i <= v@.len(),
            v@ == old(v)@,
            eh as int == e.parts().4,
            ranked_sorted(v@),
            forall|j: int|
                0 <= j < i ==> ranks_before(
                    (#[trigger] v@[j]).parts().4,
                    v@[j].spec_pool_name(),
                    e.parts().4,
                    e.spec_pool_name(),
                ),
            done ==> i < v@.len() && !ranks_before(
                v@[i as int].parts().4,
                v@[i as int].spec_pool_name(),
                e.parts().4,
                e.spec_pool_name(),
            ),
        decreases v@.len() - i + (if done {
            0int
        } else {
            1int
        }),
    {
        let h = v[i].hint();
        let before = h > eh || (h == eh && str_lt(v[i].pool_name(), e.pool_name()));
        if before {
            i += 1;
        } else {
            done = true;
        }
    }
    let ghost old_v = v@;
    let ghost ee = e;
    proof {
        if i < old_v.len() {
            assert(old_v[i as int].spec_pool_name() != ee.spec_pool_name());
            lemma_rank_order(
                old_v[i as int].parts().4,
                old_v[i as int].spec_pool_name(),
                ee.parts().4,
                ee.spec_pool_name(),
                ee.parts().4,
                ee.spec_pool_name(),
            );
        }
    }
    v.insert(i, e);
    proof {
        let after = v@;
        assert forall|a: int, b: int| 0 <= a < b < after.len() implies ranks_before(
            (#[trigger] after[a]).parts().4,
            after[a].spec_pool_name(),
            (#[trigger] after[b]).parts().4,
            after[b].spec_pool_name(),
        ) by {
            if b < i {
                assert(after[a] == old_v[a] && after[b] == old_v[b]);
            } else if b == i {
                assert(after[a] == old_v[a]);
            } else if a < i {
                assert(after[a] == old_v[a] && after[b] == old_v[b - 1]);
                if b - 1 > i {
                    lemma_rank_order(
                        ee.parts().4,
                        ee.spec_pool_name(),
                        old_v[i as int].parts().4,
                        old_v[i as int].spec_pool_name(),
                        old_v[b - 1].parts().4,
                        old_v[b - 1].spec_pool_name(),
                    );
                }
                lemma_rank_order(
                    old_v[a].parts().4,
                    old_v[a].spec_pool_name(),
                    ee.parts().4,
                    ee.spec_pool_name(),
                    old_v[b - 1].parts().4,
                    old_v[b - 1].spec_pool_name(),
                );
            } else if a == i {
                assert(after[b] == old_v[b - 1]);
                if b - 1 > i {
                    lemma_rank_order(
                        ee.parts().4,
                        ee.spec_pool_name(),
                        old_v[i as int].parts().4,
                        old_v[i as int].spec_pool_name(),
                        old_v[b - 1].parts().4,
                        old_v[b - 1].spec_pool_name(),
                    );
                }
            } else {
                assert(after[a] == old_v[a - 1] && after[b] == old_v[b - 1]);
            }
        }
    }
}

/// The pool of `roster` for the facility of `kind`: the entries in rank
/// order (higher hint first, then by name), and the operators left out with
/// the reason.
pub fn build_roster_pool<T: RankedEntry>(
    roster: &Roster,
    instances: &OperatorInstances,
    table: &SkillTable,
    kind: HintKind,
) -> (res: PoolCore<T>)
    ensures
        is_ranked_pool(res.entries@, res.skipped@, roster@, instances.instances@, table.skills@, kind),
{
    let names = roster.names();
    let ghost r = roster@;
    let ghost inst = instances.instances@;
    let ghost skills = table.skills@;
    let mut entries: Vec<T> = Vec::new();
    let mut skipped: Vec<(String, u8, PoolSkip)> = Vec::new();
    let mut i: usize = 0;
    while i < names.len()
        invariant
            0 <= i <= names@.len(),
            r == roster@,
            inst == instances.instances@,
            skills == table.skills@,
            lists_keys(names@, r),
            ranked_sorted(entries@),
            forall|k: int|
                0 <= k < entries@.len() ==> {
                    let n = (#[trigger] entries@[k]).spec_pool_name();
                    &&& r.contains_key(n)
                    &&& skip_reason(inst, skills, n, r[n], kind) is None
                    &&& is_ranked_entry(entries@[k], n, r[n], inst, skills, kind)
                    &&& exists|j: int| 0 <= j < i && #[trigger] names@[j]@ == n
                },
            forall|j: int|
                0 <= j < i && skip_reason(inst, skills, names@[j]@, r[names@[j]@], kind) is None ==> names_entry(
                    entries@,
                    #[trigger] names@[j]@,
                ),
            forall|k: int| 0 <= k < skipped@.len() ==> is_ranked_skip(#[trigger] skipped@[k], r, inst, skills, kind),
            forall|k: int|
                0 <= k < skipped@.len() ==> exists|j: int| 0 <= j < i && #[trigger] names@[j]@ == (#[trigger] skipped@[k]).0@,
            forall|j: int|
                0 <= j < i && skip_reason(inst, skills, names@[j]@, r[names@[j]@], kind) is Some ==> exists|k: int|
                    0 <= k < skipped@.len() && #[trigger] skipped@[k].0@ == #[trigger] names@[j]@,
            forall|a: int, b: int|
                0 <= a < b < skipped@.len() ==> #[trigger] skipped@[a].0@ != #[trigger] skipped@[b].0@,
        decreases names@.len() - i,
    {
        let name = &names[i];
        assert(r.contains_key(names@[i as int]@));
        let progress = match roster.progress(name.as_str()) {
            Some(p) => p,
            None => {
                i += 1;
                continue ;
            },
        };
        match try_ranked::<T>(name.as_str(), progress, instances, table, kind) {
            Ok(e) => {
                proof {
                    if names_entry(entries@, e.spec_pool_name()) {
                        let k = choose|k: int|
                            0 <= k < entries@.len() && #[trigger] entries@[k].spec_pool_name() == e.spec_pool_name();
                        let j = choose|j: int| 0 <= j < i && #[trigger] names@[j]@ == entries@[k].spec_pool_name();
                        assert(names@[j]@ != names@[i as int]@);
                    }
                }
                let ghost before = entries@;
                insert_by_rank(&mut entries, e);
                proof {
                    let p = choose|p: int| 0 <= p <= before.len() && entries@ == before.insert(p, e);
                    assert forall|k: int| 0 <= k < entries@.len() implies {
                        let n = (#[trigger] entries@[k]).spec_pool_name();
                        &&& r.contains_key(n)
                        &&& skip_reason(inst, skills, n, r[n], kind) is None
                        &&& is_ranked_entry(entries@[k], n, r[n], inst, skills, kind)
                        &&& exists|j: int| 0 <= j < i + 1 && #[trigger] names@[j]@ == n
                    } by {
                        if k < p {
                            assert(entries@[k] == before[k]);
                        } else if k == p {
                            assert(names@[i as int]@ == entries@[k].spec_pool_name());
                        } else {
                            assert(entries@[k] == before[k - 1]);
                        }
                    }
                    assert forall|j: int|
                        0 <= j < i + 1 && skip_reason(inst, skills, names@[j]@, r[names@[j]@], kind) is None implies names_entry(
                        entries@,
                        #[trigger] names@[j]@,
                    ) by {
                        if j < i {
                            let k = choose|k: int|
                                0 <= k < before.len() && #[trigger] before[k].spec_pool_name() == names@[j]@;
                            if k < p {
                                assert(entries@[k] == before[k]);
                            } else {
                                assert(entries@[k + 1] == before[k]);
                            }
                        } else {
                            assert(entries@[p].spec_pool_name() == names@[j]@);
                        }
                    }
                    assert forall|k: int| 0 <= k < skipped@.len() implies exists|j: int|
                        0 <= j < i + 1 && #[trigger] names@[j]@ == (#[trigger] skipped@[k]).0@ by {
                        let j = choose|j: int| 0 <= j < i && #[trigger] names@[j]@ == skipped@[k].0@;
                        assert(names@[j]@ == skipped@[k].0@);
                    }
                }
            },
            Err(skip) => {
                proof {
                    assert forall|k: int| 0 <= k < skipped@.len() implies #[trigger] skipped@[k].0@
                        != names@[i as int]@ by {
                        let j = choose|j: int| 0 <= j < i && #[trigger] names@[j]@ == skipped@[k].0@;
                        assert(names@[j]@ != names@[i as int]@);
                    }
                }
                let ghost before = skipped@;
                skipped.push((name.clone(), progress.elite, skip));
                proof {
                    assert(skipped@[before.len() as int].0@ == names@[i as int]@);
                    assert forall|k: int| 0 <= k < skipped@.len() implies exists|j: int|
                        0 <= j < i + 1 && #[trigger] names@[j]@ == (#[trigger] skipped@[k]).0@ by {
                        if k < before.len() {
                            assert(skipped@[k] == before[k]);
                            let j = choose|j: int| 0 <= j < i && #[trigger] names@[j]@ == before[k].0@;
                            assert(names@[j]@ == skipped@[k].0@);
                        } else {
                            assert(names@[i as int]@ == skipped@[k].0@);
                        }
                    }
                    assert forall|j: int|
                        0 <= j < i + 1 && skip_reason(inst, skills, names@[j]@, r[names@[j]@], kind) is Some implies exists|k: int|
                        0 <= k < skipped@.len() && #[trigger] skipped@[k].0@ == #[trigger] names@[j]@ by {
                        if j < i {
                            let k = choose|k: int| 0 <= k < before.len() && #[trigger] before[k].0@ == names@[j]@;
                            assert(skipped@[k] == before[k]);
                        } else {
                            assert(skipped@[before.len() as int].0@ == names@[j]@);
                        }
                    }
                    assert forall|a: int, b: int| 0 <= a < b < skipped@.len() implies #[trigger] skipped@[a].0@
                        != #[trigger] skipped@[b].0@ by {
                        if b < before.len() {
                            assert(skipped@[a] == before[a] && skipped@[b] == before[b]);
                        } else {
                            assert(skipped@[a] == before[a]);
                        }
                    }
                }
            },
        }
        i += 1;
    }
    proof {
        assert forall|n: Seq<char>|
            #[trigger] r.contains_key(n) && skip_reason(inst, skills, n, r[n], kind) is None implies names_entry(
            entries@,
            n,
        ) by {
            assert(r.dom().contains(n));
            let j = choose|j: int| 0 <= j < names@.len() && #[trigger] names@[j]@ == n;
            assert(names_entry(entries@, names@[j]@));
        }
        assert forall|n: Seq<char>|
            #[trigger] r.contains_key(n) && skip_reason(inst, skills, n, r[n], kind) is Some implies exists|k: int|
            0 <= k < skipped@.len() && #[trigger] skipped@[k].0@ == n by {
            assert(r.dom().contains(n));
            let j = choose|j: int| 0 <= j < names@.len() && #[trigger] names@[j]@ == n;
            assert(skip_reason(inst, skills, names@[j]@, r[names@[j]@], kind) is Some);
        }
    }
    PoolCore { entries, skipped }
}

} // verus!
