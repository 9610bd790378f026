//! The factory pool.

use vstd::prelude::*;

use crate::instances::OperatorInstances;
use crate::manufacture::ManuOperator;
use crate::pool::base::{clone_skipped, filter_pool, kept_entries, HasName, HasProgress, PoolCore, TierTagged};
use crate::pool::ranked::{build_roster_pool, is_ranked_pool, ranks_before, HintKind, RankedEntry, RankedParts};
use crate::roster::{OperatorProgress, Roster};
use crate::skill_table::SkillTable;
use crate::text::{clone_strings, str_eq, str_lt};
use crate::tier::OperatorTier;

verus! {

/// One candidate for a factory.
#[derive(Debug)]
pub struct ManuPoolEntry {
    pub name: String,
    pub elite: u8,
    pub progress: OperatorProgress,
    pub buff_ids: Vec<String>,
    pub tags: Vec<String>,
    /// Flat efficiency bonus in thousandths; ranks the pool, nothing more.
    pub flat_eff_hint_milli: i64,
    /// Some skill of the operator has no atoms: another layer models it.
    pub has_l2_delegate: bool,
    pub tier: OperatorTier,
}

/// An entry by value: its name and the rest.
pub open spec fn manu_view(e: ManuPoolEntry) -> (Seq<char>, RankedParts) {
    (e.name@, e.parts())
}

/// Entries by value.
pub open spec fn manu_views(s: Seq<ManuPoolEntry>) -> Seq<(Seq<char>, RankedParts)> {
    s.map_values(|e: ManuPoolEntry| manu_view(e))
}

impl Clone for ManuPoolEntry {
    fn clone(&self) -> (res: Self)
        ensures
            manu_view(res) == manu_view(*self),
    {
        ManuPoolEntry {
            name: self.name.clone(),
            elite: self.elite,
            progress: self.progress,
            buff_ids: clone_strings(&self.buff_ids),
            tags: clone_strings(&self.tags),
            flat_eff_hint_milli: self.flat_eff_hint_milli,
            has_l2_delegate: self.has_l2_delegate,
            tier: self.tier,
        }
    }
}

impl HasName for ManuPoolEntry {
    open spec fn spec_pool_name(&self) -> Seq<char> {
        self.name@
    }

    fn pool_name(&self) -> (res: &str) {
        self.name.as_str()
    }
}

impl HasProgress for ManuPoolEntry {
    open spec fn spec_progress(&self) -> OperatorProgress {
        self.progress
    }

    fn progress(&self) -> (res: OperatorProgress) {
        self.progress
    }
}

impl TierTagged for ManuPoolEntry {
    open spec fn spec_tier(&self) -> OperatorTier {
        self.tier
    }

    fn tier(&self) -> (res: OperatorTier) {
        self.tier
    }

    open spec fn same_but_tier(&self, other: Self) -> bool {
        &&& self.name@ == other.name@
        &&& self.elite == other.elite
        &&& self.progress == other.progress
        &&& self.buff_ids@ == other.buff_ids@
        &&& self.tags@ == other.tags@
        &&& self.flat_eff_hint_milli == other.flat_eff_hint_milli
        &&& self.has_l2_delegate == other.has_l2_delegate
    }

    fn set_tier(&mut self, tier: OperatorTier) {
        self.tier = tier;
    }
}

impl RankedEntry for ManuPoolEntry {
    open spec fn parts(&self) -> RankedParts {
        (
            self.elite,
            self.progress,
            self.buff_ids@,
            self.tags@,
            self.flat_eff_hint_milli as int,
            self.has_l2_delegate,
            self.tier,
        )
    }

    fn make(
        name: String,
        progress: OperatorProgress,
        buff_ids: Vec<String>,
        tags: Vec<String>,
        hint: i64,
        delegated: bool,
    ) -> (res: Self) {
        ManuPoolEntry {
            name,
            elite: progress.elite,
            progress,
            buff_ids,
            tags,
            flat_eff_hint_milli: hint,
            has_l2_delegate: delegated,
            tier: OperatorTier::Standalone,
        }
    }

    fn hint(&self) -> (res: i64) {
        self.flat_eff_hint_milli
    }
}

impl ManuPoolEntry {
    /// The entry as an operator of the factory model.
    pub fn to_manu_operator(&self) -> (res: ManuOperator)
        ensures
            res.name@ == self.name@,
            res.elite == self.elite,
            res.buff_ids@ == self.buff_ids@,
            res.tags@ == self.tags@,
    {
        ManuOperator {
            name: self.name.clone(),
            elite: self.elite,
            buff_ids: clone_strings(&self.buff_ids),
            tags: clone_strings(&self.tags),
        }
    }
}

/// The factory pool.
pub type ManuPool = PoolCore<ManuPoolEntry>;

/// The factory pool of `roster`: every operator whose factory skills are all
/// modeled, best flat bonus first (then by name), and the others with the
/// reason they stay out.
pub fn build_manufacture_pool(roster: &Roster, instances: &OperatorInstances, table: &SkillTable) -> (res: ManuPool)
    ensures
        is_ranked_pool(
            res.entries@,
            res.skipped@,
            roster@,
            instances.instances@,
            table.skills@,
            HintKind::Manufacture,
        ),
{
    build_roster_pool(roster, instances, table, HintKind::Manufacture)
}

/// The factory pool without the operators named in `exclude`.
pub fn filter_manufacture_pool(pool: &ManuPool, exclude: &Vec<String>) -> (res: ManuPool)
    ensures
        manu_views(res.entries@) == manu_views(kept_entries(pool.entries@, exclude@)),
        res.skipped@.len() == pool.skipped@.len(),
        forall|k: int|
            0 <= k < pool.skipped@.len() ==> (#[trigger] res.skipped@[k]).0@ == pool.skipped@[k].0@
                && res.skipped@[k].1 == pool.skipped@[k].1 && res.skipped@[k].2 == pool.skipped@[k].2,
{
    let res = filter_pool(pool, exclude);
    proof {
        let kept = kept_entries(pool.entries@, exclude@);
        assert forall|k: int| 0 <= k < res.entries@.len() implies #[trigger] manu_views(res.entries@)[k] == manu_views(
            kept,
        )[k] by {
            assert(cloned::<ManuPoolEntry>(kept[k], res.entries@[k]));
        }
        assert(manu_views(res.entries@) =~= manu_views(kept));
    }
    res
}

/// Operators the system paths place explicitly, kept out of the general
/// factory search.
pub open spec fn system_only_manufacture(name: Seq<char>) -> bool {
    name == "冬时"@ || name == "温蒂"@
}

/// The entries whose operator is not system-only, in order.
pub open spec fn general_entries(v: Seq<(Seq<char>, RankedParts)>) -> Seq<(Seq<char>, RankedParts)>
    decreases v.len(),
{
    if v.len() == 0 {
        Seq::empty()
    } else {
        let p = general_entries(v.drop_last());
        if system_only_manufacture(v.last().0) {
            p
        } else {
            p.push(v.last())
        }
    }
}

/// The pool of the general factory search: without the operators the system
/// paths place explicitly; the skip list is kept.
pub fn filter_general_manufacture_search_pool(pool: &ManuPool) -> (res: ManuPool)
    ensures
        manu_views(res.entries@) == general_entries(manu_views(pool.entries@)),
        res.skipped@.len() == pool.skipped@.len(),
        forall|k: int|
            0 <= k < pool.skipped@.len() ==> (#[trigger] res.skipped@[k]).0@ == pool.skipped@[k].0@
                && res.skipped@[k].1 == pool.skipped@[k].1 && res.skipped@[k].2 == pool.skipped@[k].2,
{
    let ghost pv = manu_views(pool.entries@);
    let mut entries: Vec<ManuPoolEntry> = Vec::new();
    let mut k: usize = 0;
    assert(manu_views(entries@) =~= general_entries(pv.take(0)));
    while k < pool.entries.len()
        invariant
            0 <= k <= pool.entries@.len(),
            pv == manu_views(pool.entries@),
            manu_views(entries@) == general_entries(pv.take(k as int)),
        decreases pool.entries@.len() - k,
    {
        let e = &pool.entries[k];
        assert(pv.take(k + 1).drop_last() =~= pv.take(k as int));
        assert(pv.take(k + 1).last() == manu_view(*e));
        let system = str_eq(e.name.as_str(), "冬时") || str_eq(e.name.as_str(), "温蒂");
        if !system {
            let ghost before = entries@;
            entries.push(e.clone());
            assert(manu_views(entries@) =~= manu_views(before).push(manu_view(*e)));
        }
        k += 1;
    }
    assert(pv.take(k as int) =~= pv);
    ManuPool { entries, skipped: clone_skipped(&pool.skipped) }
}

/// A skill that makes an operator a candidate beyond the hand-kept
/// whitelist: a cheap but mechanically important factory filler.
pub open spec fn extension_buff(id: Seq<char>) -> bool {
    ||| id == "manu_prod_spd[010]"@
    ||| id == "manu_prod_spd_addition[030]"@
    ||| id == "manu_prod_spd_addition[031]"@
    ||| id == "manu_prod_spd_addition[040]"@
    ||| id == "manu_prod_spd_addition[041]"@
}

/// Some skill of `buffs` is an extension skill.
pub open spec fn has_extension_buff(buffs: Seq<String>) -> bool {
    exists|k: int| 0 <= k < buffs.len() && extension_buff(#[trigger] buffs[k]@)
}

/// Whether the entry carries an extension skill.
pub fn is_manufacture_candidate_extension(entry: &ManuPoolEntry) -> (res: bool)
    ensures
        res == has_extension_buff(entry.buff_ids@),
{
    let mut k: usize = 0;
    while k < entry.buff_ids.len()
        invariant
            0 <= k <= entry.buff_ids@.len(),
            forall|j: int| 0 <= j < k ==> !extension_buff(#[trigger] entry.buff_ids@[j]@),
        decreases entry.buff_ids@.len() - k,
    {
        let id = entry.buff_ids[k].as_str();
        if str_eq(id, "manu_prod_spd[010]") || str_eq(id, "manu_prod_spd_addition[030]") || str_eq(
            id,
            "manu_prod_spd_addition[031]",
        ) || str_eq(id, "manu_prod_spd_addition[040]") || str_eq(id, "manu_prod_spd_addition[041]") {
            assert(extension_buff(entry.buff_ids@[k as int]@));
            return true;
        }
        k += 1;
    }
    false
}

/// Some entry of `v` is named `name`.
pub open spec fn view_named(v: Seq<(Seq<char>, RankedParts)>, name: Seq<char>) -> bool {
    exists|k: int| 0 <= k < v.len() && #[trigger] v[k].0 == name
}

/// The entries of `full`, in order, that carry an extension skill and whose
/// name is neither in `primary` nor taken by an earlier such entry.
pub open spec fn extensions(
    primary: Seq<(Seq<char>, RankedParts)>,
    full: Seq<(Seq<char>, RankedParts)>,
) -> Seq<(Seq<char>, RankedParts)>
    decreases full.len(),
{
    if full.len() == 0 {
        Seq::empty()
    } else {
        let p = extensions(primary, full.drop_last());
        let e = full.last();
        if !view_named(primary, e.0) && !view_named(p, e.0) && has_extension_buff(e.1.2) {
            p.push(e)
        } else {
            p
        }
    }
}

/// `s` with `x` inserted after every entry that does not rank after it.
pub open spec fn rank_insert(s: Seq<(Seq<char>, RankedParts)>, x: (Seq<char>, RankedParts)) -> Seq<
    (Seq<char>, RankedParts),
>
    decreases s.len(),
{
    if s.len() == 0 {
        seq![x]
    } else if ranks_before(x.1.4, x.0, s.last().1.4, s.last().0) {
        rank_insert(s.drop_last(), x).push(s.last())
    } else {
        s.push(x)
    }
}

/// The stable sort of `s` by rank (higher hint first, then by name): entries
/// of equal rank keep their order.
pub open spec fn rank_sort(s: Seq<(Seq<char>, RankedParts)>) -> Seq<(Seq<char>, RankedParts)>
    decreases s.len(),
{
    if s.len() == 0 {
        Seq::empty()
    } else {
        rank_insert(rank_sort(s.drop_last()), s.last())
    }
}

/// Whether some entry of `v` is named `name`.
fn has_entry_named(v: &Vec<ManuPoolEntry>, name: &str) -> (res: bool)
    ensures
        res == view_named(manu_views(v@), name@),
{
    let mut k: usize = 0;
    while k < v.len()
        invariant
            0 <= k <= v@.len(),
            forall|j: int| 0 <= j < k ==> (#[trigger] v@[j]).name@ != name@,
        decreases v@.len() - k,
    {
        if str_eq(v[k].name.as_str(), name) {
            assert(manu_views(v@)[k as int].0 == name@);
            return true;
        }
        k += 1;
    }
    proof {
        if view_named(manu_views(v@), name@) {
            let k = choose|k: int| 0 <= k < manu_views(v@).len() && #[trigger] manu_views(v@)[k].0 == name@;
            assert(v@[k].name@ == name@);
        }
    }
    false
}

/// Inserts a copy of `x` into `sorted` after every entry that does not rank
/// after it.
fn insert_ranked_copy(sorted: &mut Vec<ManuPoolEntry>, x: &ManuPoolEntry)
    ensures
        manu_views(final(sorted)@) == rank_insert(manu_views(old(sorted)@), manu_view(*x)),
{
    let ghost s = manu_views(sorted@);
    let mut j: usize = sorted.len();
    assert(s.take(j as int) =~= s);
    assert(s.skip(j as int) =~= Seq::<(Seq<char>, RankedParts)>::empty());
    assert(rank_insert(s, manu_view(*x)) =~= rank_insert(s.take(j as int), manu_view(*x)) + s.skip(j as int));
    let mut done = false;
    while !done && j > 0
        invariant
            0 <= j <= sorted@.len(),
            s == manu_views(sorted@),
            rank_insert(s, manu_view(*x)) == rank_insert(s.take(j as int), manu_view(*x)) + s.skip(j as int),
            done ==> j > 0 && !ranks_before(manu_view(*x).1.4, manu_view(*x).0, s[j - 1].1.4, s[j - 1].0),
        decreases j + (if done {
            0int
        } else {
            1int
        }),
    {
        let y = &sorted[j - 1];
        let later = x.flat_eff_hint_milli > y.flat_eff_hint_milli || (x.flat_eff_hint_milli == y.flat_eff_hint_milli
            && str_lt(x.name.as_str(), y.name.as_str()));
        assert(s[j - 1] == manu_view(*y));
        if later {
            proof {
                let t = s.take(j as int);
                assert(t.drop_last() =~= s.take(j - 1));
                assert(t.last() == s[j - 1]);
                assert(rank_insert(t, manu_view(*x)) == rank_insert(s.take(j - 1), manu_view(*x)).push(s[j - 1]));
                assert(rank_insert(s.take(j - 1), manu_view(*x)).push(s[j - 1]) + s.skip(j as int) =~= rank_insert(
                    s.take(j - 1),
                    manu_view(*x),
                ) + s.skip(j - 1));
            }
            j -= 1;
        } else {
            done = true;
        }
    }
    proof {
        let t = s.take(j as int);
        if j == 0 {
            assert(t =~= Seq::<(Seq<char>, RankedParts)>::empty());
        } else {
            assert(t.last() == s[j - 1]);
        }
        assert(rank_insert(t, manu_view(*x)) =~= t.push(manu_view(*x)));
    }
    let ghost before = sorted@;
    sorted.insert(j, x.clone());
    proof {
        assert(manu_views(sorted@) =~= s.take(j as int).push(manu_view(*x)) + s.skip(j as int)) by {
            assert forall|k: int| 0 <= k < sorted@.len() implies #[trigger] manu_views(sorted@)[k] == (s.take(
                j as int,
            ).push(manu_view(*x)) + s.skip(j as int))[k] by {
                if k < j {
                    assert(sorted@[k] == before[k]);
                } else if k > j {
                    assert(sorted@[k] == before[k - 1]);
                }
            }
        }
    }
}

/// The primary pool widened by the full pool's entries that carry an
/// extension skill and are not in it yet; all sorted stably by rank (higher
/// flat bonus first, then by name). The skip list is the full pool's.
pub fn expand_manufacture_candidate_pool(primary: &ManuPool, full: &ManuPool) -> (res: ManuPool)
    ensures
        manu_views(res.entries@) == rank_sort(
            manu_views(primary.entries@) + extensions(manu_views(primary.entries@), manu_views(full.entries@)),
        ),
        res.skipped@.len() == full.skipped@.len(),
        forall|k: int|
            0 <= k < full.skipped@.len() ==> (#[trigger] res.skipped@[k]).0@ == full.skipped@[k].0@
                && res.skipped@[k].1 == full.skipped@[k].1 && res.skipped@[k].2 == full.skipped@[k].2,
{
    let ghost pv = manu_views(primary.entries@);
    let ghost fv = manu_views(full.entries@);
    let mut cands: Vec<ManuPoolEntry> = Vec::new();
    let mut k: usize = 0;
    while k < primary.entries.len()
        invariant
            0 <= k <= primary.entries@.len(),
            pv == manu_views(primary.entries@),
            manu_views(cands@) == pv.take(k as int),
        decreases primary.entries@.len() - k,
    {
        let ghost before = cands@;
        cands.push(primary.entries[k].clone());
        assert(manu_views(cands@) =~= manu_views(before).push(pv[k as int]));
        assert(pv.take(k + 1) =~= pv.take(k as int).push(pv[k as int]));
        k += 1;
    }
    assert(pv.take(k as int) =~= pv);
    let mut f: usize = 0;
    assert(extensions(pv, fv.take(0)) =~= Seq::<(Seq<char>, RankedParts)>::empty());
    assert(pv + extensions(pv, fv.take(0)) =~= pv);
    while f < full.entries.len()
        invariant
            0 <= f <= full.entries@.len(),
            pv == manu_views(primary.entries@),
            fv == manu_views(full.entries@),
            manu_views(cands@) == pv + extensions(pv, fv.take(f as int)),
        decreases full.entries@.len() - f,
    {
        let e = &full.entries[f];
        let ghost p = extensions(pv, fv.take(f as int));
        assert(fv.take(f + 1).drop_last() =~= fv.take(f as int));
        assert(fv.take(f + 1).last() == manu_view(*e));
        let seen = has_entry_named(&cands, e.name.as_str());
        proof {
            assert(view_named(pv + p, e.name@) <==> (view_named(pv, e.name@) || view_named(p, e.name@))) by {
                if view_named(pv + p, e.name@) {
                    let t = choose|t: int| 0 <= t < (pv + p).len() && #[trigger] (pv + p)[t].0 == e.name@;
                    if t < pv.len() {
                        assert(pv[t].0 == e.name@);
                    } else {
                        assert(p[t - pv.len()].0 == e.name@);
                    }
                }
                if view_named(pv, e.name@) {
                    let t = choose|t: int| 0 <= t < pv.len() && #[trigger] pv[t].0 == e.name@;
                    assert((pv + p)[t].0 == e.name@);
                }
                if view_named(p, e.name@) {
                    let t = choose|t: int| 0 <= t < p.len() && #[trigger] p[t].0 == e.name@;
                    assert((pv + p)[t + pv.len()].0 == e.name@);
                }
            }
        }
        if !seen && is_manufacture_candidate_extension(e) {
            let ghost before = cands@;
            cands.push(e.clone());
            assert(manu_views(cands@) =~= manu_views(before).push(manu_view(*e)));
            assert((pv + p).push(manu_view(*e)) =~= pv + p.push(manu_view(*e)));
        }
        f += 1;
    }
    assert(fv.take(f as int) =~= fv);
    let ghost cv = manu_views(cands@);
    let mut sorted: Vec<ManuPoolEntry> = Vec::new();
    let mut c: usize = 0;
    assert(manu_views(sorted@) =~= rank_sort(cv.take(0)));
    while c < cands.len()
        invariant
            0 <= c <= cands@.len(),
            cv == manu_views(cands@),
            manu_views(sorted@) == rank_sort(cv.take(c as int)),
        decreases cands@.len() - c,
    {
        assert(cv.take(c + 1).drop_last() =~= cv.take(c as int));
        assert(cv.take(c + 1).last() == manu_view(cands@[c as int]));
        insert_ranked_copy(&mut sorted, &cands[c]);
        c += 1;
    }
    assert(cv.take(c as int) =~= cv);
    ManuPool { entries: sorted, skipped: clone_skipped(&full.skipped) }
}

} // verus!
