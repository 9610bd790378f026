//! The standalone whitelist: operators known to be worth searching per
//! facility. A pool is narrowed to the whitelist when enough of it remains.

use vstd::prelude::*;

use crate::layout::FacilityKind;
use crate::pool::base::{clone_skipped, HasName, PoolCore};
use crate::text::{contains_name, has_name};

verus! {

/// Whitelisted operator names per facility.
#[derive(Debug)]
pub struct StandaloneRoster {
    pub trade_post: Vec<String>,
    pub factory: Vec<String>,
    pub power_plant: Vec<String>,
    pub control_center: Vec<String>,
}

impl StandaloneRoster {
    /// The whitelist of a facility; none for facilities without one.
    pub fn get(&self, facility: FacilityKind) -> (res: Option<&Vec<String>>)
        ensures
            res == match facility {
                FacilityKind::TradePost => Some(&self.trade_post),
                FacilityKind::Factory => Some(&self.factory),
                FacilityKind::PowerPlant => Some(&self.power_plant),
                FacilityKind::ControlCenter => Some(&self.control_center),
                _ => None,
            },
    {
        match facility {
            FacilityKind::TradePost => Some(&self.trade_post),
            FacilityKind::Factory => Some(&self.factory),
            FacilityKind::PowerPlant => Some(&self.power_plant),
            FacilityKind::ControlCenter => Some(&self.control_center),
            _ => None,
        }
    }
}

/// The display label of a facility in the whitelist reports.
pub fn facility_label(facility: FacilityKind) -> (res: &'static str)
    ensures
        res@ == match facility {
            FacilityKind::TradePost => "贸易站"@,
            FacilityKind::Factory => "制造站"@,
            FacilityKind::PowerPlant => "发电站"@,
            FacilityKind::ControlCenter => "中枢"@,
            FacilityKind::Dormitory => "宿舍"@,
            FacilityKind::Office => "办公室"@,
            _ => "其他"@,
        },
{
    match facility {
        FacilityKind::TradePost => "贸易站",
        FacilityKind::Factory => "制造站",
        FacilityKind::PowerPlant => "发电站",
        FacilityKind::ControlCenter => "中枢",
        FacilityKind::Dormitory => "宿舍",
        FacilityKind::Office => "办公室",
        _ => "其他",
    }
}

/// Entries of a pool named in `names`.
pub open spec fn whitelisted<T: HasName>(entries: Seq<T>, names: Seq<String>) -> Seq<T> {
    entries.filter(|e: T| has_name(names, e.spec_pool_name()))
}

/// A copy of a pool.
pub fn clone_pool<T: HasName + Clone>(pool: &PoolCore<T>) -> (res: PoolCore<T>)
    ensures
        res.entries@.len() == pool.entries@.len(),
        forall|k: int| 0 <= k < pool.entries@.len() ==> cloned::<T>(pool.entries@[k], #[trigger] res.entries@[k]),
        res.skipped@.len() == pool.skipped@.len(),
        forall|k: int|
            0 <= k < pool.skipped@.len() ==> (#[trigger] res.skipped@[k]).0@ == pool.skipped@[k].0@
                && res.skipped@[k].1 == pool.skipped@[k].1 && res.skipped@[k].2 == pool.skipped@[k].2,
{
    let mut entries: Vec<T> = Vec::new();
    let mut k: usize = 0;
    while k < pool.entries.len()
        invariant
            0 <= k <= pool.entries@.len(),
            entries@.len() == k,
            forall|q: int| 0 <= q < k ==> cloned::<T>(pool.entries@[q], #[trigger] entries@[q]),
        decreases pool.entries@.len() - k,
    {
        entries.push(pool.entries[k].clone());
        k += 1;
    }
    PoolCore { entries, skipped: clone_skipped(&pool.skipped) }
}

/// The pool narrowed to the whitelist `names`; the whole pool when there is
/// no whitelist or fewer than `min_entries` entries would remain (3 for
/// trade posts and factories, 1 for power plants and the control center).
pub fn try_filter_standalone_with<T: HasName + Clone>(
    pool: &PoolCore<T>,
    names: Option<&Vec<String>>,
    min_entries: usize,
) -> (res: PoolCore<T>)
    ensures
        ({
            let keep = match names {
                Some(w) => whitelisted(pool.entries@, w@).len() >= min_entries,
                None => false,
            };
            let kept = match names {
                Some(w) => whitelisted(pool.entries@, w@),
                None => pool.entries@,
            };
            &&& keep ==> res.entries@.len() == kept.len() && forall|k: int|
                0 <= k < kept.len() ==> cloned::<T>(kept[k], #[trigger] res.entries@[k])
            &&& !keep ==> res.entries@.len() == pool.entries@.len() && forall|k: int|
                0 <= k < pool.entries@.len() ==> cloned::<T>(pool.entries@[k], #[trigger] res.entries@[k])
        }),
        res.skipped@.len() == pool.skipped@.len(),
        forall|k: int|
            0 <= k < pool.skipped@.len() ==> (#[trigger] res.skipped@[k]).0@ == pool.skipped@[k].0@
                && res.skipped@[k].1 == pool.skipped@[k].1 && res.skipped@[k].2 == pool.skipped@[k].2,
{
    let names = match names {
        Some(w) => w,
        None => {
            return clone_pool(pool);
        },
    };
    let ghost pred = |e: T| has_name(names@, e.spec_pool_name());
    let mut filtered: Vec<T> = Vec::new();
    let mut k: usize = 0;
    while k < pool.entries.len()
        invariant
            0 <= k <= pool.entries@.len(),
            pred == (|e: T| has_name(names@, e.spec_pool_name())),
            filtered@.len() == pool.entries@.take(k as int).filter(pred).len(),
            forall|q: int|
                0 <= q < filtered@.len() ==> cloned::<T>(
                    pool.entries@.take(k as int).filter(pred)[q],
                    #[trigger] filtered@[q],
                ),
        decreases pool.entries@.len() - k,
    {
        let e = &pool.entries[k];
        proof {
            let pre = pool.entries@.take(k as int);
            assert(pool.entries@.take(k + 1) == pre.push(*e));
            pre.lemma_filter_push(*e, pred);
        }
        if contains_name(names, e.pool_name()) {
            filtered.push(e.clone());
        }
        k += 1;
    }
    assert(pool.entries@.take(pool.entries@.len() as int) == pool.entries@);
    assert(pred == (|e: T| has_name(names@, e.spec_pool_name())));
    if filtered.len() < min_entries {
        return clone_pool(pool);
    }
    PoolCore { entries: filtered, skipped: clone_skipped(&pool.skipped) }
}

} // verus!
