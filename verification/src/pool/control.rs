//! The control-center pool.

use vstd::prelude::*;

use crate::control::ControlOperator;
use crate::instances::{instance_buffs, instance_tags, OperatorInstance, OperatorInstances};
use crate::operbox::{facility_map, OperBox};
use crate::pool::base::{filter_pool, kept_entries, HasName, HasProgress, PoolCore, PoolSkip, TierTagged};
use crate::roster::{lists_keys, OperatorProgress, Roster};
use crate::skill_table::{lookup_skill, Skill, SkillTable};
use crate::text::{
    clone_strings, contains_name, has_name, lemma_seq_lt_total, lemma_seq_lt_transitive, seq_lt, str_eq,
    str_lt,
};
use crate::tier::{spec_tier_of, OperatorTier, PromotionTier};

verus! {

/// One candidate for the control center.
#[derive(Debug)]
pub struct ControlPoolEntry {
    pub name: String,
    pub elite: u8,
    pub progress: OperatorProgress,
    pub buff_ids: Vec<String>,
    pub tags: Vec<String>,
    pub tier: OperatorTier,
}

/// Two entries hold the same values.
pub open spec fn same_control_entry(a: ControlPoolEntry, b: ControlPoolEntry) -> bool {
    &&& a.name@ == b.name@
    &&& a.elite == b.elite
    &&& a.progress == b.progress
    &&& a.buff_ids@ == b.buff_ids@
    &&& a.tags@ == b.tags@
    &&& a.tier == b.tier
}

impl Clone for ControlPoolEntry {
    fn clone(&self) -> (res: Self)
        ensures
            same_control_entry(*self, res),
    {
        ControlPoolEntry {
            name: self.name.clone(),
            elite: self.elite,
            progress: self.progress,
            buff_ids: clone_strings(&self.buff_ids),
            tags: clone_strings(&self.tags),
            tier: self.tier,
        }
    }
}

impl HasName for ControlPoolEntry {
    open spec fn spec_pool_name(&self) -> Seq<char> {
        self.name@
    }

    fn pool_name(&self) -> (res: &str) {
        self.name.as_str()
    }
}

impl HasProgress for ControlPoolEntry {
    open spec fn spec_progress(&self) -> OperatorProgress {
        self.progress
    }

    fn progress(&self) -> (res: OperatorProgress) {
        self.progress
    }
}

impl TierTagged for ControlPoolEntry {
    open spec fn spec_tier(&self) -> OperatorTier {
        self.tier
    }

    fn tier(&self) -> (res: OperatorTier) {
        self.tier
    }

    open spec fn same_but_tier(&self, other: Self) -> bool {
        &&& self.name@ == other.name@
        &&& self.elite == other.elite
        &&& self.progress == other.progress
        &&& self.buff_ids@ == other.buff_ids@
        &&& self.tags@ == other.tags@
    }

    fn set_tier(&mut self, tier: OperatorTier) {
        self.tier = tier;
    }
}

impl ControlPoolEntry {
    /// The entry as an operator of the control model.
    pub fn to_control_operator(&self) -> (res: ControlOperator)
        ensures
            res.name@ == self.name@,
            res.elite == self.elite,
            res.buff_ids@ == self.buff_ids@,
            res.tags@ == self.tags@,
    {
        ControlOperator {
            name: self.name.clone(),
            elite: self.elite,
            buff_ids: clone_strings(&self.buff_ids),
            tags: clone_strings(&self.tags),
        }
    }
}

/// The control pool.
pub type ControlPool = PoolCore<ControlPoolEntry>;

/// Control skills of `name` at the tier its progress gives.
pub open spec fn control_buffs(
    inst: Seq<OperatorInstance>,
    name: Seq<char>,
    progress: OperatorProgress,
) -> Seq<String> {
    instance_buffs(inst, name, spec_tier_of(progress.elite, progress.rarity), "control"@)
}

/// The skill table holds `id` as a control skill.
pub open spec fn is_modeled_control(skills: Seq<Skill>, id: Seq<char>) -> bool {
    match lookup_skill(skills, id) {
        Some(s) => s.facility@ == "control"@,
        None => false,
    }
}

/// The first of `buffs` the control model does not cover.
pub open spec fn first_unmodeled(buffs: Seq<String>, skills: Seq<Skill>) -> Option<Seq<char>>
    decreases buffs.len(),
{
    if buffs.len() == 0 {
        None
    } else if !is_modeled_control(skills, buffs[0]@) {
        Some(buffs[0]@)
    } else {
        first_unmodeled(buffs.drop_first(), skills)
    }
}

/// `name` at `progress` enters the control pool: all its control skills are
/// modeled.
pub open spec fn control_accepts(
    inst: Seq<OperatorInstance>,
    skills: Seq<Skill>,
    name: Seq<char>,
    progress: OperatorProgress,
) -> bool {
    first_unmodeled(control_buffs(inst, name, progress), skills) is None
}

/// `e` is the control entry of `name` at `progress`.
pub open spec fn is_control_entry(
    e: ControlPoolEntry,
    name: Seq<char>,
    progress: OperatorProgress,
    inst: Seq<OperatorInstance>,
) -> bool {
    &&& e.name@ == name
    &&& e.elite == progress.elite
    &&& e.progress == progress
    &&& e.buff_ids@ == control_buffs(inst, name, progress)
    &&& e.tags@ == instance_tags(inst, name, spec_tier_of(progress.elite, progress.rarity))
    &&& e.tier == OperatorTier::Standalone
}

/// Entries strictly increasing by name.
pub open spec fn sorted_by_name<T: HasName>(s: Seq<T>) -> bool {
    forall|a: int, b: int|
        0 <= a < b < s.len() ==> seq_lt(#[trigger] s[a].spec_pool_name(), #[trigger] s[b].spec_pool_name())
}

/// Some entry is named `name`.
pub open spec fn names_entry<T: HasName>(s: Seq<T>, name: Seq<char>) -> bool {
    exists|k: int| 0 <= k < s.len() && #[trigger] s[k].spec_pool_name() == name
}

/// `skip` records that `name` at `progress` carries an unmodeled control skill.
pub open spec fn is_control_skip(
    skip: (String, u8, PoolSkip),
    roster: Map<Seq<char>, OperatorProgress>,
    inst: Seq<OperatorInstance>,
    skills: Seq<Skill>,
) -> bool {
    let name = skip.0@;
    &&& roster.contains_key(name)
    &&& skip.1 == roster[name].elite
    &&& (skip.2 matches PoolSkip::UnmodeledBuff(b) && first_unmodeled(
        control_buffs(inst, name, roster[name]),
        skills,
    ) == Some(b@))
}

/// The control pool of `roster`: every operator whose control skills are all
/// modeled, sorted by name, and every other operator among the skipped with
/// its first unmodeled skill.
pub open spec fn is_control_pool(
    entries: Seq<ControlPoolEntry>,
    skipped: Seq<(String, u8, PoolSkip)>,
    roster: Map<Seq<char>, OperatorProgress>,
    inst: Seq<OperatorInstance>,
    skills: Seq<Skill>,
) -> bool {
    &&& sorted_by_name(entries)
    &&& forall|k: int|
        0 <= k < entries.len() ==> {
            let n = (#[trigger] entries[k]).name@;
            &&& roster.contains_key(n)
            &&& control_accepts(inst, skills, n, roster[n])
            &&& is_control_entry(entries[k], n, roster[n], inst)
        }
    &&& forall|n: Seq<char>|
        #[trigger] roster.contains_key(n) && control_accepts(inst, skills, n, roster[n]) ==> names_entry(
            entries,
            n,
        )
    &&& forall|k: int| 0 <= k < skipped.len() ==> is_control_skip(#[trigger] skipped[k], roster, inst, skills)
    &&& forall|n: Seq<char>|
        #[trigger] roster.contains_key(n) && !control_accepts(inst, skills, n, roster[n]) ==> exists|k: int|
            0 <= k < skipped.len() && #[trigger] skipped[k].0@ == n
    &&& forall|a: int, b: int| 0 <= a < b < skipped.len() ==> #[trigger] skipped[a].0@ != #[trigger] skipped[b].0@
}

/// The control entry of `name`, or the first control skill the model lacks.
fn try_entry(name: &str, progress: OperatorProgress, instances: &OperatorInstances, table: &SkillTable) -> (res:
    Result<ControlPoolEntry, PoolSkip>)
    ensures
        res is Ok <==> control_accepts(instances.instances@, table.skills@, name@, progress),
        res matches Ok(e) ==> is_control_entry(e, name@, progress, instances.instances@),
        res matches Err(skip) ==> (skip matches PoolSkip::UnmodeledBuff(b) && first_unmodeled(
            control_buffs(instances.instances@, name@, progress),
            table.skills@,
        ) == Some(b@)),
{
    let tier = PromotionTier::from_progress(progress);
    let buff_ids = instances.resolve_buff_ids(name, tier, "control");
    let ghost skills = table.skills@;
    let mut i: usize = 0;
    assert(buff_ids@.skip(0) == buff_ids@);
    while i < buff_ids.len()
        invariant
            0 <= i <= buff_ids@.len(),
            skills == table.skills@,
            buff_ids@ == control_buffs(instances.instances@, name@, progress),
            first_unmodeled(buff_ids@, skills) == first_unmodeled(buff_ids@.skip(i as int), skills),
        decreases buff_ids@.len() - i,
    {
        let bid = &buff_ids[i];
        assert(buff_ids@.skip(i as int)[0] == *bid);
        assert(buff_ids@.skip(i as int).drop_first() == buff_ids@.skip(i + 1));
        let modeled = match table.get(bid.as_str()) {
            Some(skill) => str_eq(skill.facility.as_str(), "control"),
            None => false,
        };
        if !modeled {
            let b = bid.clone();
            assert(!is_modeled_control(skills, b@));
            assert(first_unmodeled(buff_ids@.skip(i as int), skills) == Some(b@));
            return Err(PoolSkip::UnmodeledBuff(b));
        }
        i += 1;
    }
    assert(buff_ids@.skip(i as int).len() == 0);
    let tags = instances.tags_for(name, tier);
    Ok(
        ControlPoolEntry {
            name: String::from_str(name),
            elite: progress.elite,
            progress,
            buff_ids,
            tags,
            tier: OperatorTier::Standalone,
        },
    )
}

/// Inserts `e` at its place by name into a list sorted by name that does not
/// hold its name yet.
pub fn insert_by_name<T: HasName>(v: &mut Vec<T>, e: T)
    requires
        sorted_by_name(old(v)@),
        !names_entry(old(v)@, e.spec_pool_name()),
    ensures
        sorted_by_name(final(v)@),
        exists|p: int| 0 <= p <= old(v)@.len() && final(v)@ == old(v)@.insert(p, e),
{
    let mut i: usize = 0;
    let mut done = false;
    while !done && i < v.len()
        invariant
            0 <= i <= v@.len(),
            v@ == old(v)@,
            sorted_by_name(v@),
            forall|j: int| 0 <= j < i ==> seq_lt(#[trigger] v@[j].spec_pool_name(), e.spec_pool_name()),
            done ==> i < v@.len() && !seq_lt(v@[i as int].spec_pool_name(), e.spec_pool_name()),
        decreases v@.len() - i + (if done {
            0int
        } else {
            1int
        }),
    {
        if str_lt(v[i].pool_name(), e.pool_name()) {
            i += 1;
        } else {
            done = true;
        }
    }
    let ghost before = v@;
    let ghost name = e.spec_pool_name();
    proof {
        if i < before.len() {
            lemma_seq_lt_total(before[i as int].spec_pool_name(), name);
            assert(before[i as int].spec_pool_name() != name);
        }
    }
    v.insert(i, e);
    proof {
        let after = v@;
        assert(after == before.insert(i as int, e));
        assert forall|a: int, b: int| 0 <= a < b < after.len() implies seq_lt(
            #[trigger] after[a].spec_pool_name(),
            #[trigger] after[b].spec_pool_name(),
        ) by {
            if b < i {
                assert(after[a] == before[a] && after[b] == before[b]);
            } else if b == i {
                assert(after[a] == before[a]);
            } else if a < i {
                assert(after[a] == before[a] && after[b] == before[b - 1]);
                assert(seq_lt(before[a].spec_pool_name(), name));
                assert(seq_lt(name, before[i as int].spec_pool_name()));
                if b - 1 > i {
                    lemma_seq_lt_transitive(
                        name,
                        before[i as int].spec_pool_name(),
                        before[b - 1].spec_pool_name(),
                    );
                }
                lemma_seq_lt_transitive(before[a].spec_pool_name(), name, before[b - 1].spec_pool_name());
            } else if a == i {
                assert(after[b] == before[b - 1]);
                if b - 1 > i {
                    lemma_seq_lt_transitive(
                        name,
                        before[i as int].spec_pool_name(),
                        before[b - 1].spec_pool_name(),
                    );
                }
            } else {
                assert(after[a] == before[a - 1] && after[b] == before[b - 1]);
            }
        }
    }
}

/// The control pool of `roster`, sorted by name.
pub fn build_control_pool(roster: &Roster, instances: &OperatorInstances, table: &SkillTable) -> (res:
    ControlPool)
    ensures
        is_control_pool(res.entries@, res.skipped@, roster@, instances.instances@, table.skills@),
{
    let names = roster.names();
    let ghost r = roster@;
    let ghost inst = instances.instances@;
    let ghost skills = table.skills@;
    let mut entries: Vec<ControlPoolEntry> = Vec::new();
    let mut skipped: Vec<(String, u8, PoolSkip)> = Vec::new();
    let mut i: usize = 0;
    while i < names.len()
        invariant
            0 <= i <= names@.len(),
            r == roster@,
            inst == instances.instances@,
            skills == table.skills@,
            lists_keys(names@, r),
            sorted_by_name(entries@),
            forall|k: int|
                0 <= k < entries@.len() ==> {
                    let n = (#[trigger] entries@[k]).name@;
                    &&& r.contains_key(n)
                    &&& control_accepts(inst, skills, n, r[n])
                    &&& is_control_entry(entries@[k], n, r[n], inst)
                    &&& exists|j: int| 0 <= j < i && #[trigger] names@[j]@ == n
                },
            forall|j: int|
                0 <= j < i && control_accepts(inst, skills, names@[j]@, r[names@[j]@]) ==> names_entry(
                    entries@,
                    #[trigger] names@[j]@,
                ),
            forall|k: int| 0 <= k < skipped@.len() ==> is_control_skip(#[trigger] skipped@[k], r, inst, skills),
            forall|k: int|
                0 <= k < skipped@.len() ==> exists|j: int| 0 <= j < i && #[trigger] names@[j]@ == (#[trigger] skipped@[k]).0@,
            forall|j: int|
                0 <= j < i && !control_accepts(inst, skills, names@[j]@, r[names@[j]@]) ==> exists|k: int|
                    0 <= k < skipped@.len() && #[trigger] skipped@[k].0@ == #[trigger] names@[j]@,
            forall|a: int, b: int|
                0 <= a < b < skipped@.len() ==> #[trigger] skipped@[a].0@ != #[trigger] skipped@[b].0@,
        decreases names@.len() - i,
    {
        let name = &names[i];
        assert(r.contains_key(names@[i as int]@));
        let progress = match roster.progress(name.as_str()) {
            Some(p) => p,
            None => {
                i += 1;
                continue ;
            },
        };
        match try_entry(name.as_str(), progress, instances, table) {
            Ok(e) => {
                proof {
                    if names_entry(entries@, e.spec_pool_name()) {
                        let k = choose|k: int| 0 <= k < entries@.len() && #[trigger] entries@[k].spec_pool_name() == e.spec_pool_name();
                        let j = choose|j: int| 0 <= j < i && #[trigger] names@[j]@ == entries@[k].name@;
                        assert(names@[j]@ != names@[i as int]@);
                    }
                }
                let ghost before = entries@;
                insert_by_name(&mut entries, e);
                proof {
                    let p = choose|p: int| 0 <= p <= before.len() && entries@ == before.insert(p, e);
                    assert forall|k: int| 0 <= k < entries@.len() implies {
                        let n = (#[trigger] entries@[k]).name@;
                        &&& r.contains_key(n)
                        &&& control_accepts(inst, skills, n, r[n])
                        &&& is_control_entry(entries@[k], n, r[n], inst)
                        &&& exists|j: int| 0 <= j < i + 1 && #[trigger] names@[j]@ == n
                    } by {
                        if k < p {
                            assert(entries@[k] == before[k]);
                        } else if k == p {
                            assert(names@[i as int]@ == entries@[k].name@);
                        } else {
                            assert(entries@[k] == before[k - 1]);
                        }
                    }
                    assert forall|j: int|
                        0 <= j < i + 1 && control_accepts(inst, skills, names@[j]@, r[names@[j]@]) implies names_entry(
                        entries@,
                        #[trigger] names@[j]@,
                    ) by {
                        if j < i {
                            let k = choose|k: int| 0 <= k < before.len() && #[trigger] before[k].spec_pool_name() == names@[j]@;
                            if k < p {
                                assert(entries@[k] == before[k]);
                            } else {
                                assert(entries@[k + 1] == before[k]);
                            }
                        } else {
                            assert(entries@[p].spec_pool_name() == names@[j]@);
                        }
                    }
                    assert forall|k: int| 0 <= k < skipped@.len() implies exists|j: int|
                        0 <= j < i + 1 && #[trigger] names@[j]@ == (#[trigger] skipped@[k]).0@ by {
                        let j = choose|j: int| 0 <= j < i && #[trigger] names@[j]@ == skipped@[k].0@;
                        assert(names@[j]@ == skipped@[k].0@);
                    }
                }
            },
            Err(skip) => {
                proof {
                    assert forall|k: int| 0 <= k < skipped@.len() implies #[trigger] skipped@[k].0@ != names@[i as int]@ by {
                        let j = choose|j: int| 0 <= j < i && #[trigger] names@[j]@ == skipped@[k].0@;
                        assert(names@[j]@ != names@[i as int]@);
                    }
                }
                let ghost before = skipped@;
                skipped.push((name.clone(), progress.elite, skip));
                proof {
                    assert(skipped@[before.len() as int].0@ == names@[i as int]@);
                    assert forall|k: int| 0 <= k < skipped@.len() implies exists|j: int|
                        0 <= j < i + 1 && #[trigger] names@[j]@ == (#[trigger] skipped@[k]).0@ by {
                        if k < before.len() {
                            assert(skipped@[k] == before[k]);
                            let j = choose|j: int| 0 <= j < i && #[trigger] names@[j]@ == before[k].0@;
                            assert(names@[j]@ == skipped@[k].0@);
                        } else {
                            assert(names@[i as int]@ == skipped@[k].0@);
                        }
                    }
                    assert forall|j: int|
                        0 <= j < i + 1 && !control_accepts(inst, skills, names@[j]@, r[names@[j]@]) implies exists|k: int|
                        0 <= k < skipped@.len() && #[trigger] skipped@[k].0@ == #[trigger] names@[j]@ by {
                        if j < i {
                            let k = choose|k: int| 0 <= k < before.len() && #[trigger] before[k].0@ == names@[j]@;
                            assert(skipped@[k] == before[k]);
                        } else {
                            assert(skipped@[before.len() as int].0@ == names@[j]@);
                        }
                    }
                    assert forall|a: int, b: int| 0 <= a < b < skipped@.len() implies #[trigger] skipped@[a].0@
                        != #[trigger] skipped@[b].0@ by {
                        if b < before.len() {
                            assert(skipped@[a] == before[a] && skipped@[b] == before[b]);
                        } else {
                            assert(skipped@[a] == before[a]);
                        }
                    }
                }
            },
        }
        i += 1;
    }
    proof {
        assert forall|n: Seq<char>| #[trigger] r.contains_key(n) && control_accepts(inst, skills, n, r[n]) implies names_entry(
            entries@,
            n,
        ) by {
            assert(r.dom().contains(n));
            let j = choose|j: int| 0 <= j < names@.len() && #[trigger] names@[j]@ == n;
            assert(names_entry(entries@, names@[j]@));
        }
        assert forall|n: Seq<char>| #[trigger] r.contains_key(n) && !control_accepts(inst, skills, n, r[n]) implies exists|k: int|
            0 <= k < skipped@.len() && #[trigger] skipped@[k].0@ == n by {
            assert(r.dom().contains(n));
            let j = choose|j: int| 0 <= j < names@.len() && #[trigger] names@[j]@ == n;
            assert(!control_accepts(inst, skills, names@[j]@, r[names@[j]@]));
        }
    }
    PoolCore { entries, skipped }
}

/// Most skill-less operators added to the control pool as fillers.
pub const CONTROL_FILLER_CAP: usize = 5;

/// `e` is a skill-less filler entry for `name` at `progress`.
pub open spec fn is_filler_entry(
    e: ControlPoolEntry,
    name: Seq<char>,
    progress: OperatorProgress,
    inst: Seq<OperatorInstance>,
) -> bool {
    &&& e.name@ == name
    &&& e.elite == progress.elite
    &&& e.progress == progress
    &&& e.buff_ids@.len() == 0
    &&& e.tags@ == instance_tags(inst, name, spec_tier_of(progress.elite, progress.rarity))
    &&& e.tier == OperatorTier::Standalone
}

/// `fillers` are at most five distinct owned operators outside `pool`, each as
/// a skill-less entry; fewer than five only when no owned operator is left.
pub open spec fn is_filler_list(
    fillers: Seq<ControlPoolEntry>,
    pool: Seq<ControlPoolEntry>,
    owned: Map<Seq<char>, OperatorProgress>,
    inst: Seq<OperatorInstance>,
) -> bool {
    &&& fillers.len() <= CONTROL_FILLER_CAP
    &&& forall|k: int|
        0 <= k < fillers.len() ==> {
            let n = (#[trigger] fillers[k]).name@;
            &&& owned.contains_key(n)
            &&& !names_entry(pool, n)
            &&& is_filler_entry(fillers[k], n, owned[n], inst)
        }
    &&& forall|a: int, b: int| 0 <= a < b < fillers.len() ==> #[trigger] fillers[a].name@ != #[trigger] fillers[b].name@
    &&& fillers.len() < CONTROL_FILLER_CAP ==> forall|n: Seq<char>|
        #[trigger] owned.contains_key(n) ==> names_entry(pool, n) || names_entry(fillers, n)
}

/// The names of the entries of a pool.
fn entry_names(entries: &Vec<ControlPoolEntry>) -> (res: Vec<String>)
    ensures
        forall|n: Seq<char>| has_name(res@, n) <==> names_entry(entries@, n),
{
    let mut out: Vec<String> = Vec::new();
    let mut i: usize = 0;
    while i < entries.len()
        invariant
            0 <= i <= entries@.len(),
            out@.len() == i,
            forall|j: int| 0 <= j < i ==> #[trigger] out@[j]@ == entries@[j].name@,
        decreases entries@.len() - i,
    {
        out.push(entries[i].name.clone());
        i += 1;
    }
    assert forall|n: Seq<char>| has_name(out@, n) <==> names_entry(entries@, n) by {
        if has_name(out@, n) {
            let j = choose|j: int| 0 <= j < out@.len() && #[trigger] out@[j]@ == n;
            assert(entries@[j].spec_pool_name() == n);
        }
        if names_entry(entries@, n) {
            let j = choose|j: int| 0 <= j < entries@.len() && #[trigger] entries@[j].spec_pool_name() == n;
            assert(out@[j]@ == n);
        }
    }
    out
}

/// The modeled control pool of the box's control-capable operators, followed
/// by up to five skill-less owned operators as legal fillers.
pub fn build_control_pool_with_fillers(operbox: &OperBox, instances: &OperatorInstances, table: &SkillTable) -> (res:
    ControlPool)
    ensures
        exists|m: int|
            0 <= m <= res.entries@.len() && is_control_pool(
                res.entries@.take(m),
                res.skipped@,
                facility_map(operbox.owned@, instances.instances@, "control"@),
                instances.instances@,
                table.skills@,
            ) && is_filler_list(res.entries@.skip(m), res.entries@.take(m), operbox.owned@, instances.instances@),
{
    let mut pool = build_control_pool(&operbox.control_roster(instances), instances, table);
    let existing = entry_names(&pool.entries);
    let roster = operbox.roster();
    let names = roster.names();
    let ghost owned = operbox.owned@;
    let ghost inst = instances.instances@;
    let ghost base = pool.entries@;
    let mut fillers: Vec<ControlPoolEntry> = Vec::new();
    let mut i: usize = 0;
    while i < names.len() && fillers.len() < CONTROL_FILLER_CAP
        invariant
            0 <= i <= names@.len(),
            roster@ == owned,
            owned == operbox.owned@,
            inst == instances.instances@,
            lists_keys(names@, owned),
            forall|n: Seq<char>| has_name(existing@, n) <==> names_entry(base, n),
            fillers@.len() <= CONTROL_FILLER_CAP,
            forall|k: int|
                0 <= k < fillers@.len() ==> {
                    let n = (#[trigger] fillers@[k]).name@;
                    &&& owned.contains_key(n)
                    &&& !names_entry(base, n)
                    &&& is_filler_entry(fillers@[k], n, owned[n], inst)
                    &&& exists|j: int| 0 <= j < i && #[trigger] names@[j]@ == n
                },
            forall|a: int, b: int|
                0 <= a < b < fillers@.len() ==> #[trigger] fillers@[a].name@ != #[trigger] fillers@[b].name@,
            forall|j: int|
                0 <= j < i ==> names_entry(base, #[trigger] names@[j]@) || names_entry(fillers@, names@[j]@),
        decreases names@.len() - i,
    {
        let name = &names[i];
        assert(owned.contains_key(names@[i as int]@));
        if !contains_name(&existing, name.as_str()) {
            match roster.progress(name.as_str()) {
                Some(progress) => {
                    let tier = PromotionTier::from_progress(progress);
                    let tags = instances.tags_for(name.as_str(), tier);
                    let e = ControlPoolEntry {
                        name: name.clone(),
                        elite: progress.elite,
                        progress,
                        buff_ids: Vec::new(),
                        tags,
                        tier: OperatorTier::Standalone,
                    };
                    proof {
                        assert forall|k: int| 0 <= k < fillers@.len() implies #[trigger] fillers@[k].name@
                            != names@[i as int]@ by {
                            let j = choose|j: int| 0 <= j < i && #[trigger] names@[j]@ == fillers@[k].name@;
                            assert(names@[j]@ != names@[i as int]@);
                        }
                    }
                    let ghost before = fillers@;
                    fillers.push(e);
                    proof {
                        assert forall|j: int| 0 <= j < i + 1 implies names_entry(base, #[trigger] names@[j]@)
                            || names_entry(fillers@, names@[j]@) by {
                            if j < i {
                                if names_entry(before, names@[j]@) {
                                    let k = choose|k: int| 0 <= k < before.len() && #[trigger] before[k].spec_pool_name() == names@[j]@;
                                    assert(fillers@[k] == before[k]);
                                }
                            } else {
                                assert(fillers@[before.len() as int].spec_pool_name() == names@[j]@);
                            }
                        }
                        assert forall|k: int| 0 <= k < fillers@.len() implies {
                            let n = (#[trigger] fillers@[k]).name@;
                            &&& owned.contains_key(n)
                            &&& !names_entry(base, n)
                            &&& is_filler_entry(fillers@[k], n, owned[n], inst)
                            &&& exists|j: int| 0 <= j < i + 1 && #[trigger] names@[j]@ == n
                        } by {
                            if k < before.len() {
                                assert(fillers@[k] == before[k]);
                                let j = choose|j: int| 0 <= j < i && #[trigger] names@[j]@ == before[k].name@;
                                assert(names@[j]@ == fillers@[k].name@);
                            } else {
                                assert(names@[i as int]@ == fillers@[k].name@);
                            }
                        }
                    }
                },
                None => {},
            }
        }
        i += 1;
    }
    let ghost fill = fillers@;
    proof {
        if fill.len() < CONTROL_FILLER_CAP {
            assert forall|n: Seq<char>| #[trigger] owned.contains_key(n) implies names_entry(base, n) || names_entry(
                fill,
                n,
            ) by {
                assert(owned.dom().contains(n));
                let j = choose|j: int| 0 <= j < names@.len() && #[trigger] names@[j]@ == n;
                assert(names_entry(base, names@[j]@) || names_entry(fill, names@[j]@));
            }
        }
    }
    let ghost m = base.len() as int;
    pool.entries.append(&mut fillers);
    proof {
        assert(pool.entries@.take(m) == base);
        assert(pool.entries@.skip(m) == fill);
    }
    pool
}

/// The pool without the operators named in `exclude`; the skip list is kept.
pub fn filter_control_pool(pool: &ControlPool, exclude: &Vec<String>) -> (res: ControlPool)
    ensures
        res.entries@.len() == kept_entries(pool.entries@, exclude@).len(),
        forall|k: int|
            0 <= k < res.entries@.len() ==> same_control_entry(
                kept_entries(pool.entries@, exclude@)[k],
                #[trigger] res.entries@[k],
            ),
        res.skipped@.len() == pool.skipped@.len(),
        forall|k: int|
            0 <= k < pool.skipped@.len() ==> (#[trigger] res.skipped@[k]).0@ == pool.skipped@[k].0@
                && res.skipped@[k].1 == pool.skipped@[k].1 && res.skipped@[k].2 == pool.skipped@[k].2,
{
    let res = filter_pool(pool, exclude);
    assert forall|k: int| 0 <= k < res.entries@.len() implies same_control_entry(
        kept_entries(pool.entries@, exclude@)[k],
        #[trigger] res.entries@[k],
    ) by {
        assert(cloned::<ControlPoolEntry>(kept_entries(pool.entries@, exclude@)[k], res.entries@[k]));
    }
    res
}

} // verus!
