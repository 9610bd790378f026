//! The operator box: the account's operators with their progress.

use vstd::prelude::*;

use crate::instances::{instance_has_facility, instance_tags, OperatorInstances};
use crate::roster::{lists_keys, OperatorProgress, Roster};
use crate::text::{contains_name, has_name, spec_trim, trim_owned};
use crate::tier::{spec_tier_of, PromotionTier};

verus! {

/// Group tag of the Durin operators.
pub const TAG_DURIN: &'static str = "cc.g.durin";

/// Most Durin operators counted as dormitory residents for planning.
pub const DURIN_DORM_PLANNING_CAP: u8 = 4;

/// One row of an operator box export.
#[derive(Debug)]
pub struct OperBoxEntry {
    pub id: String,
    pub name: String,
    pub elite: u8,
    pub level: u32,
    pub own: bool,
    pub potential: u8,
    pub rarity: u8,
}

impl Clone for OperBoxEntry {
    fn clone(&self) -> (res: Self)
        ensures
            res == *self,
    {
        OperBoxEntry {
            id: self.id.clone(),
            name: self.name.clone(),
            elite: self.elite,
            level: self.level,
            own: self.own,
            potential: self.potential,
            rarity: self.rarity,
        }
    }
}

/// OperBox: instance name -> progress (matches `operator_instances.json` `name` field).
#[derive(Debug)]
pub struct OperBox {
    pub entries: Vec<OperBoxEntry>,
    pub owned: Roster,
}

/// Progress an owned box row records.
pub open spec fn entry_progress(e: OperBoxEntry) -> OperatorProgress {
    OperatorProgress { elite: e.elite, level: e.level, rarity: e.rarity }
}

/// Progress of the owned operators the first rows of a box describe: for a
/// name listed more than once the highest elite stage wins, and among rows of
/// that stage the highest level and the highest rarity are kept.
pub open spec fn owned_map(entries: Seq<OperBoxEntry>) -> Map<Seq<char>, OperatorProgress>
    decreases entries.len(),
{
    if entries.len() == 0 {
        Map::empty()
    } else {
        let prev = owned_map(entries.drop_last());
        let e = entries.last();
        if !e.own {
            prev
        } else if !prev.contains_key(e.name@) || e.elite > prev[e.name@].elite {
            prev.insert(e.name@, entry_progress(e))
        } else if e.elite == prev[e.name@].elite {
            let q = prev[e.name@];
            prev.insert(
                e.name@,
                OperatorProgress {
                    elite: q.elite,
                    level: if e.level > q.level {
                        e.level
                    } else {
                        q.level
                    },
                    rarity: if e.rarity > q.rarity {
                        e.rarity
                    } else {
                        q.rarity
                    },
                },
            )
        } else {
            prev
        }
    }
}

/// The owned operators are exactly the names of owned rows, and each keeps the
/// highest elite stage among its owned rows.
pub proof fn lemma_owned_map_is_max_elite(entries: Seq<OperBoxEntry>)
    ensures
        forall|n: Seq<char>|
            #[trigger] owned_map(entries).contains_key(n) <==> exists|i: int|
                0 <= i < entries.len() && entries[i].own && #[trigger] entries[i].name@ == n,
        forall|i: int|
            0 <= i < entries.len() && #[trigger] entries[i].own ==> entries[i].elite <= owned_map(
                entries,
            )[entries[i].name@].elite,
        forall|n: Seq<char>|
            #[trigger] owned_map(entries).contains_key(n) ==> exists|i: int|
                0 <= i < entries.len() && entries[i].own && entries[i].name@ == n
                    && #[trigger] entries[i].elite == owned_map(entries)[n].elite,
    decreases entries.len(),
{
    if entries.len() > 0 {
        let init = entries.drop_last();
        lemma_owned_map_is_max_elite(init);
        let last = entries.len() - 1;
        assert forall|i: int| 0 <= i < init.len() implies #[trigger] init[i] == entries[i] by {}
        assert forall|n: Seq<char>| #[trigger] owned_map(entries).contains_key(n) <==> exists|i: int|
            0 <= i < entries.len() && entries[i].own && #[trigger] entries[i].name@ == n by {
            let e = entries[last];
            if e.own && e.name@ == n {
                assert(owned_map(entries).contains_key(n));
                assert(entries[last].own && entries[last].name@ == n);
            } else {
                assert(owned_map(entries).contains_key(n) == owned_map(init).contains_key(n));
                if owned_map(init).contains_key(n) {
                    let i = choose|i: int| 0 <= i < init.len() && init[i].own && #[trigger] init[i].name@ == n;
                    assert(init[i] == entries[i]);
                }
                if exists|i: int| 0 <= i < entries.len() && entries[i].own && #[trigger] entries[i].name@ == n {
                    let i = choose|i: int| 0 <= i < entries.len() && entries[i].own && #[trigger] entries[i].name@ == n;
                    assert(i != last);
                    assert(init[i] == entries[i]);
                    assert(init[i].name@ == n);
                }
            }
        }
        assert forall|i: int| 0 <= i < entries.len() && #[trigger] entries[i].own implies entries[i].elite
            <= owned_map(entries)[entries[i].name@].elite by {
            if i < last {
                assert(init[i].own);
            }
        }
        assert forall|n: Seq<char>| #[trigger] owned_map(entries).contains_key(n) implies exists|i: int|
            0 <= i < entries.len() && entries[i].own && entries[i].name@ == n
                && #[trigger] entries[i].elite == owned_map(entries)[n].elite by {
            if entries[last].own && entries[last].name@ == n && (!owned_map(init).contains_key(n)
                || entries[last].elite >= owned_map(init)[n].elite) {
                assert(entries[last].elite == owned_map(entries)[n].elite);
            } else {
                let i = choose|i: int|
                    0 <= i < init.len() && init[i].own && init[i].name@ == n && #[trigger] init[i].elite
                        == owned_map(init)[n].elite;
                assert(entries[i].elite == owned_map(entries)[n].elite);
            }
        }
    }
}

/// The owned operators of `owned` that, at the tier their progress gives,
/// work in `facility`.
pub open spec fn facility_map(
    owned: Map<Seq<char>, OperatorProgress>,
    instances: Seq<crate::instances::OperatorInstance>,
    facility: Seq<char>,
) -> Map<Seq<char>, OperatorProgress> {
    owned.restrict(
        owned.dom().filter(
            |n: Seq<char>|
                instance_has_facility(
                    instances,
                    n,
                    spec_tier_of(owned[n].elite, owned[n].rarity),
                    facility,
                ),
        ),
    )
}

/// The names of a list of strings, as a set.
pub open spec fn name_set(v: Seq<String>) -> Set<Seq<char>> {
    Set::new(|n: Seq<char>| has_name(v, n))
}

/// `name` carries `tag` at its initial or at its promoted tier.
pub open spec fn tagged_at_any_tier(
    instances: Seq<crate::instances::OperatorInstance>,
    name: Seq<char>,
    tag: Seq<char>,
) -> bool {
    has_name(instance_tags(instances, name, PromotionTier::Tier0), tag) || has_name(
        instance_tags(instances, name, PromotionTier::TierUp),
        tag,
    )
}

impl OperBox {
    /// Builds the owned map from the rows; rows not owned are kept in
    /// `entries` only.
    pub fn from_entries(entries: Vec<OperBoxEntry>) -> (res: Self)
        ensures
            res.entries@ == entries@,
            res.owned@ == owned_map(entries@),
    {
        let mut owned = Roster::new();
        let mut i: usize = 0;
        while i < entries.len()
            invariant
                0 <= i <= entries@.len(),
                owned@ == owned_map(entries@.take(i as int)),
            decreases entries@.len() - i,
        {
            let e = &entries[i];
            assert(entries@.take(i + 1).drop_last() == entries@.take(i as int));
            assert(entries@.take(i + 1).last() == *e);
            if e.own {
                let progress = OperatorProgress::new(e.elite, e.level, e.rarity);
                match owned.progress(e.name.as_str()) {
                    None => {
                        owned.insert(e.name.clone(), progress);
                    },
                    Some(p) => {
                        if e.elite > p.elite {
                            owned.insert(e.name.clone(), progress);
                        } else if e.elite == p.elite {
                            let level = if e.level > p.level {
                                e.level
                            } else {
                                p.level
                            };
                            let rarity = if e.rarity > p.rarity {
                                e.rarity
                            } else {
                                p.rarity
                            };
                            owned.insert(e.name.clone(), OperatorProgress::new(p.elite, level, rarity));
                        }
                    },
                }
            }
            i += 1;
        }
        assert(entries@.take(entries@.len() as int) == entries@);
        OperBox { entries, owned }
    }

    /// Whether the (trimmed) name is owned.
    pub fn owns(&self, name: &str) -> (res: bool)
        ensures
            res == self.owned@.contains_key(spec_trim(name@)),
    {
        let key = trim_owned(name);
        self.owned.progress(key.as_str()).is_some()
    }

    /// Elite stage of the (trimmed) name, when owned.
    pub fn elite_of(&self, name: &str) -> (res: Option<u8>)
        ensures
            res == (if self.owned@.contains_key(spec_trim(name@)) {
                Some(self.owned@[spec_trim(name@)].elite)
            } else {
                None
            }),
    {
        let key = trim_owned(name);
        self.owned.elite(key.as_str())
    }

    /// Progress of the (trimmed) name, when owned.
    pub fn progress_of(&self, name: &str) -> (res: Option<OperatorProgress>)
        ensures
            res == (if self.owned@.contains_key(spec_trim(name@)) {
                Some(self.owned@[spec_trim(name@)])
            } else {
                None
            }),
    {
        let key = trim_owned(name);
        self.owned.progress(key.as_str())
    }

    /// Number of owned operators.
    pub fn owned_count(&self) -> (res: usize)
        ensures
            res == self.owned@.dom().len(),
    {
        self.owned.len()
    }

    /// All owned operators.
    pub fn roster(&self) -> (res: Roster)
        ensures
            res@ == self.owned@,
    {
        self.owned.clone()
    }

    /// Owned operators that work in trade posts at their tier.
    pub fn trade_roster(&self, instances: &OperatorInstances) -> (res: Roster)
        ensures
            res@ == facility_map(self.owned@, instances.instances@, "trade"@),
    {
        Self::facility_roster(self, instances, "trade")
    }

    /// Owned operators that work in factories at their tier.
    pub fn manufacture_roster(&self, instances: &OperatorInstances) -> (res: Roster)
        ensures
            res@ == facility_map(self.owned@, instances.instances@, "manufacture"@),
    {
        Self::facility_roster(self, instances, "manufacture")
    }

    /// Owned operators that work in power plants at their tier.
    pub fn power_roster(&self, instances: &OperatorInstances) -> (res: Roster)
        ensures
            res@ == facility_map(self.owned@, instances.instances@, "power"@),
    {
        Self::facility_roster(self, instances, "power")
    }

    /// Owned operators that work in the control center at their tier.
    pub fn control_roster(&self, instances: &OperatorInstances) -> (res: Roster)
        ensures
            res@ == facility_map(self.owned@, instances.instances@, "control"@),
    {
        Self::facility_roster(self, instances, "control")
    }

    /// Owned operators that, at the tier their progress gives, work in
    /// `facility`.
    pub fn facility_roster(&self, instances: &OperatorInstances, facility: &str) -> (res: Roster)
        ensures
            res@ == facility_map(self.owned@, instances.instances@, facility@),
    {
        let names = self.owned.names();
        let ghost owned = self.owned@;
        let ghost keep = owned.dom().filter(
            |n: Seq<char>|
                instance_has_facility(
                    instances.instances@,
                    n,
                    spec_tier_of(owned[n].elite, owned[n].rarity),
                    facility@,
                ),
        );
        let mut roster = Roster::new();
        let mut i: usize = 0;
        while i < names.len()
            invariant
                0 <= i <= names@.len(),
                owned == self.owned@,
                lists_keys(names@, owned),
                keep == owned.dom().filter(
                    |n: Seq<char>|
                        instance_has_facility(
                            instances.instances@,
                            n,
                            spec_tier_of(owned[n].elite, owned[n].rarity),
                            facility@,
                        ),
                ),
                roster@ == owned.restrict(keep.intersect(name_set(names@.take(i as int)))),
            decreases names@.len() - i,
        {
            let name = &names[i];
            assert(owned.contains_key(name@));
            let progress = match self.owned.progress(name.as_str()) {
                Some(p) => p,
                None => {
                    assert(false);
                    return Roster::new();
                },
            };
            let tier = PromotionTier::from_progress(progress);
            let ghost before = roster@;
            if instances.has_facility(name.as_str(), tier, facility) {
                roster.insert(name.clone(), progress);
            }
            assert(roster@ =~= owned.restrict(keep.intersect(name_set(names@.take(i + 1))))) by {
                assert forall|n: Seq<char>| #[trigger] name_set(names@.take(i + 1)).contains(n) <==> (
                name_set(names@.take(i as int)).contains(n) || n == name@) by {
                    if has_name(names@.take(i + 1), n) {
                        let j = choose|j: int| 0 <= j < i + 1 && #[trigger] names@.take(i + 1)[j]@ == n;
                        if j < i {
                            assert(names@.take(i as int)[j]@ == n);
                        }
                    }
                    if has_name(names@.take(i as int), n) {
                        let j = choose|j: int| 0 <= j < i && #[trigger] names@.take(i as int)[j]@ == n;
                        assert(names@.take(i + 1)[j]@ == n);
                    }
                    if n == name@ {
                        assert(names@.take(i + 1)[i as int]@ == n);
                    }
                }
                assert(!name_set(names@.take(i as int)).contains(name@)) by {
                    if has_name(names@.take(i as int), name@) {
                        let j = choose|j: int| 0 <= j < i && #[trigger] names@.take(i as int)[j]@ == name@;
                        assert(names@[j]@ == names@[i as int]@);
                    }
                }
            }
            i += 1;
        }
        assert(roster@ =~= facility_map(owned, instances.instances@, facility@)) by {
            assert(names@.take(names@.len() as int) == names@);
            assert forall|n: Seq<char>| keep.contains(n) implies #[trigger] name_set(names@).contains(n) by {
                assert(owned.dom().contains(n));
            }
        }
        roster
    }

    /// Owned operators except those named in `excluded`.
    pub fn roster_excluding(&self, excluded: &Vec<String>) -> (res: Roster)
        ensures
            res@ == self.owned@.remove_keys(name_set(excluded@)),
    {
        self.owned_subset(excluded)
    }

    /// The box without the operators named in `excluded` (for pruning the pool
    /// of an adjacent shift).
    pub fn excluding(&self, excluded: &Vec<String>) -> (res: Self)
        ensures
            res.entries@ == self.entries@.filter(not_excluded(excluded@)),
            res.owned@ == self.owned@.remove_keys(name_set(excluded@)),
    {
        let mut entries: Vec<OperBoxEntry> = Vec::new();
        let mut i: usize = 0;
        while i < self.entries.len()
            invariant
                0 <= i <= self.entries@.len(),
                entries@ == self.entries@.take(i as int).filter(not_excluded(excluded@)),
            decreases self.entries@.len() - i,
        {
            let e = &self.entries[i];
            assert(self.entries@.take(i + 1).drop_last() == self.entries@.take(i as int));
            proof {
                let pre = self.entries@.take(i as int);
                assert(self.entries@.take(i + 1) == pre.push(*e));
                pre.lemma_filter_push(*e, not_excluded(excluded@));
            }
            if !contains_name(excluded, e.name.as_str()) {
                entries.push(e.clone());
            }
            i += 1;
        }
        assert(self.entries@.take(self.entries@.len() as int) == self.entries@);
        OperBox { entries, owned: self.owned_subset(excluded) }
    }

    /// Owned operators except those named in `excluded`.
    pub fn owned_subset(&self, excluded: &Vec<String>) -> (res: Roster)
        ensures
            res@ == self.owned@.remove_keys(name_set(excluded@)),
    {
        let names = self.owned.names();
        let ghost owned = self.owned@;
        let mut roster = Roster::new();
        let mut i: usize = 0;
        while i < names.len()
            invariant
                0 <= i <= names@.len(),
                owned == self.owned@,
                lists_keys(names@, owned),
                roster@ == owned.restrict(name_set(names@.take(i as int)).difference(name_set(excluded@))),
            decreases names@.len() - i,
        {
            let name = &names[i];
            assert(owned.contains_key(name@));
            let progress = match self.owned.progress(name.as_str()) {
                Some(p) => p,
                None => {
                    assert(false);
                    return Roster::new();
                },
            };
            if !contains_name(excluded, name.as_str()) {
                roster.insert(name.clone(), progress);
            }
            assert(roster@ =~= owned.restrict(
                name_set(names@.take(i + 1)).difference(name_set(excluded@)),
            )) by {
                assert forall|n: Seq<char>| #[trigger] name_set(names@.take(i + 1)).contains(n) <==> (
                name_set(names@.take(i as int)).contains(n) || n == name@) by {
                    if has_name(names@.take(i + 1), n) {
                        let j = choose|j: int| 0 <= j < i + 1 && #[trigger] names@.take(i + 1)[j]@ == n;
                        if j < i {
                            assert(names@.take(i as int)[j]@ == n);
                        }
                    }
                    if has_name(names@.take(i as int), n) {
                        let j = choose|j: int| 0 <= j < i && #[trigger] names@.take(i as int)[j]@ == n;
                        assert(names@.take(i + 1)[j]@ == n);
                    }
                    if n == name@ {
                        assert(names@.take(i + 1)[i as int]@ == n);
                    }
                }
            }
            i += 1;
        }
        assert(roster@ =~= owned.remove_keys(name_set(excluded@))) by {
            assert(names@.take(names@.len() as int) == names@);
            assert forall|n: Seq<char>| owned.dom().contains(n) implies #[trigger] name_set(names@).contains(n) by {}
        }
        roster
    }

    /// 规划假设：box 内杜林族干员视同进驻宿舍计入基建，供鸿雪「际崖居民」等消费（cap 4）。
    ///
    /// 与编制落位无关；与编制内计数取较大值。
    pub fn durin_dorm_planning_count(&self, instances: &OperatorInstances) -> (res: u8)
        ensures
            res == if durin_names(self.owned@, instances.instances@).len() < 4 {
                durin_names(self.owned@, instances.instances@).len() as u8
            } else {
                4u8
            },
    {
        let names = self.owned.names();
        let ghost owned = self.owned@;
        let ghost target = durin_names(owned, instances.instances@);
        let mut hits: Vec<String> = Vec::new();
        let mut i: usize = 0;
        while i < names.len()
            invariant
                0 <= i <= names@.len(),
                owned == self.owned@,
                target == durin_names(owned, instances.instances@),
                lists_keys(names@, owned),
                hits@.len() <= i,
                forall|a: int, b: int| 0 <= a < b < hits@.len() ==> #[trigger] hits@[a]@ != #[trigger] hits@[b]@,
                name_set(hits@) == target.intersect(name_set(names@.take(i as int))),
            decreases names@.len() - i,
        {
            let name = &names[i];
            let ghost before = hits@;
            let tagged = owned_operator_has_tag(self, instances, name.as_str(), TAG_DURIN);
            if tagged {
                hits.push(name.clone());
            }
            proof {
                lemma_name_set_step(names@, i as int);
                assert(!name_set(names@.take(i as int)).contains(name@)) by {
                    if has_name(names@.take(i as int), name@) {
                        let j = choose|j: int| 0 <= j < i && #[trigger] names@.take(i as int)[j]@ == name@;
                        assert(names@[j]@ == names@[i as int]@);
                    }
                }
                assert(owned.contains_key(name@));
                if tagged {
                    assert(hits@.drop_last() == before);
                    assert forall|a: int, b: int| 0 <= a < b < hits@.len() implies #[trigger] hits@[a]@
                        != #[trigger] hits@[b]@ by {
                        if b == before.len() {
                            assert(name_set(before).contains(before[a]@));
                        } else {
                            assert(before[a]@ != before[b]@);
                        }
                    }
                    lemma_name_set_push(before, *name);
                    assert(target.contains(name@));
                } else {
                    assert(!target.contains(name@));
                }
                assert(name_set(hits@) =~= target.intersect(name_set(names@.take(i + 1))));
            }
            i += 1;
        }
        proof {
            assert(names@.take(names@.len() as int) == names@);
            assert(name_set(hits@) =~= target) by {
                assert forall|n: Seq<char>| target.contains(n) implies #[trigger] name_set(names@).contains(n) by {}
            }
            lemma_distinct_name_count(hits@);
        }
        let n = hits.len();
        if n < 4 {
            n as u8
        } else {
            4
        }
    }
}

/// A box row whose name is not among `excluded`.
pub open spec fn not_excluded(excluded: Seq<String>) -> spec_fn(OperBoxEntry) -> bool {
    |e: OperBoxEntry| !has_name(excluded, e.name@)
}

/// Excluding the names of `a` and then those of `b` excludes exactly the
/// names of either, once: from the box entries (order kept) and from the
/// owned map.
pub proof fn lemma_excluding_twice(
    entries: Seq<OperBoxEntry>,
    owned: Map<Seq<char>, OperatorProgress>,
    a: Seq<String>,
    b: Seq<String>,
)
    ensures
        entries.filter(not_excluded(a)).filter(not_excluded(b)) == entries.filter(not_excluded(a + b)),
        owned.remove_keys(name_set(a)).remove_keys(name_set(b)) == owned.remove_keys(name_set(a + b)),
    decreases entries.len(),
{
    if entries.len() > 0 {
        let d = entries.drop_last();
        let x = entries.last();
        lemma_excluding_twice(d, owned, a, b);
        crate::text::lemma_has_name_concat(a, b, x.name@);
        assert(entries =~= d.push(x));
        d.lemma_filter_push(x, not_excluded(a));
        d.lemma_filter_push(x, not_excluded(a + b));
        d.filter(not_excluded(a)).lemma_filter_push(x, not_excluded(b));
    }
    assert forall|n: Seq<char>| #[trigger] name_set(a + b).contains(n) <==> (name_set(a).contains(n) || name_set(
        b,
    ).contains(n)) by {
        crate::text::lemma_has_name_concat(a, b, n);
    }
    assert(owned.remove_keys(name_set(a)).remove_keys(name_set(b)) =~= owned.remove_keys(name_set(a + b)));
}

/// Owned names tagged Durin at either tier.
pub open spec fn durin_names(
    owned: Map<Seq<char>, OperatorProgress>,
    instances: Seq<crate::instances::OperatorInstance>,
) -> Set<Seq<char>> {
    owned.dom().filter(
        |n: Seq<char>| owned.contains_key(spec_trim(n)) && tagged_at_any_tier(instances, n, TAG_DURIN@),
    )
}

/// One more name in the list adds exactly that name to the set.
pub proof fn lemma_name_set_step(names: Seq<String>, i: int)
    requires
        0 <= i < names.len(),
    ensures
        forall|n: Seq<char>| #[trigger] name_set(names.take(i + 1)).contains(n) <==> (name_set(
            names.take(i),
        ).contains(n) || n == names[i]@),
{
    assert forall|n: Seq<char>| #[trigger] name_set(names.take(i + 1)).contains(n) <==> (name_set(
        names.take(i),
    ).contains(n) || n == names[i]@) by {
        if has_name(names.take(i + 1), n) {
            let j = choose|j: int| 0 <= j < i + 1 && #[trigger] names.take(i + 1)[j]@ == n;
            if j < i {
                assert(names.take(i)[j]@ == n);
            }
        }
        if has_name(names.take(i), n) {
            let j = choose|j: int| 0 <= j < i && #[trigger] names.take(i)[j]@ == n;
            assert(names.take(i + 1)[j]@ == n);
        }
        if n == names[i]@ {
            assert(names.take(i + 1)[i]@ == n);
        }
    }
}

/// Pushing a name adds exactly it to the set.
pub proof fn lemma_name_set_push(names: Seq<String>, s: String)
    ensures
        name_set(names.push(s)) == name_set(names).insert(s@),
{
    let pushed = names.push(s);
    assert(pushed.take(names.len() as int) == names);
    lemma_name_set_step(pushed, names.len() as int);
    assert(pushed.take(names.len() as int + 1) == pushed);
    assert(name_set(pushed) =~= name_set(names).insert(s@));
}

/// A list of distinct names has as many names as its name set.
pub proof fn lemma_distinct_name_count(names: Seq<String>)
    requires
        forall|a: int, b: int| 0 <= a < b < names.len() ==> #[trigger] names[a]@ != #[trigger] names[b]@,
    ensures
        name_set(names).finite(),
        name_set(names).len() == names.len(),
    decreases names.len(),
{
    if names.len() == 0 {
        assert(name_set(names) =~= Set::empty());
    } else {
        let init = names.drop_last();
        lemma_distinct_name_count(init);
        lemma_name_set_push(init, names.last());
        assert(init.push(names.last()) == names);
        assert(!name_set(init).contains(names.last()@)) by {
            if has_name(init, names.last()@) {
                let j = choose|j: int| 0 <= j < init.len() && #[trigger] init[j]@ == names.last()@;
                assert(names[j]@ == names[names.len() - 1]@);
            }
        }
    }
}

/// `name` (trimmed) is owned and carries `tag` at its initial or promoted tier.
pub fn owned_operator_has_tag(
    operbox: &OperBox,
    instances: &OperatorInstances,
    name: &str,
    tag: &str,
) -> (res: bool)
    ensures
        res == (operbox.owned@.contains_key(spec_trim(name@)) && tagged_at_any_tier(
            instances.instances@,
            name@,
            tag@,
        )),
{
    if !operbox.owns(name) {
        return false;
    }
    let tier0 = instances.tags_for(name, PromotionTier::Tier0);
    if contains_name(&tier0, tag) {
        return true;
    }
    let tier_up = instances.tags_for(name, PromotionTier::TierUp);
    contains_name(&tier_up, tag)
}

/// Data-relative path of the bundled Gongsun operator box.
pub fn default_operbox_gongsun_path() -> (res: &'static str)
    ensures
        res@ == "operbox_gongsun.json"@,
{
    "operbox_gongsun.json"
}

/// 243 标准测试样例：全精2 operbox（数据目录下 `fixtures/243/operbox_full_e2.json`）。
pub fn default_operbox_full_e2_path() -> (res: &'static str)
    ensures
        res@ == "fixtures/243/operbox_full_e2.json"@,
{
    "fixtures/243/operbox_full_e2.json"
}

} // verus!
