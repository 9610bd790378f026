//! The pool skeleton shared by all facilities.

use vstd::prelude::*;

use crate::roster::OperatorProgress;
use crate::text::has_name;
use crate::tier::{spec_tier_priority, OperatorTier};

verus! {

/// Pool entries are found by name.
pub trait HasName {
    spec fn spec_pool_name(&self) -> Seq<char>;

    fn pool_name(&self) -> (res: &str)
        ensures
            res@ == self.spec_pool_name(),
    ;
}

/// Pool entries expose account progress for data-driven gates.
pub trait HasProgress {
    spec fn spec_progress(&self) -> OperatorProgress;

    fn progress(&self) -> (res: OperatorProgress)
        ensures
            res == self.spec_progress(),
    ;
}

/// Pool entries carry a three-layer classification.
pub trait TierTagged: HasName + Sized {
    spec fn spec_tier(&self) -> OperatorTier;

    fn tier(&self) -> (res: OperatorTier)
        ensures
            res == self.spec_tier(),
    ;

    /// `self` equals `other` in everything but the classification.
    spec fn same_but_tier(&self, other: Self) -> bool;

    fn set_tier(&mut self, tier: OperatorTier)
        ensures
            final(self).spec_tier() == tier,
            final(self).spec_pool_name() == old(self).spec_pool_name(),
            final(self).same_but_tier(*old(self)),
    ;
}

/// `after` is `before` tagged with `tier` when named in `names`: it takes
/// `tier` if that has higher precedence than its own classification, keeping
/// everything else; otherwise it is unchanged.
pub open spec fn tagged<T: TierTagged>(before: T, after: T, names: Seq<String>, tier: OperatorTier) -> bool {
    if has_name(names, before.spec_pool_name()) && spec_tier_priority(tier) > spec_tier_priority(before.spec_tier()) {
        &&& after.spec_tier() == tier
        &&& after.spec_pool_name() == before.spec_pool_name()
        &&& after.same_but_tier(before)
    } else {
        after == before
    }
}

/// Tagging twice with the same names and classification changes nothing
/// more than tagging once.
pub proof fn lemma_tag_idempotent<T: TierTagged>(a: T, b: T, c: T, names: Seq<String>, tier: OperatorTier)
    requires
        tagged(a, b, names, tier),
        tagged(b, c, names, tier),
    ensures
        c == b,
{
}

/// Why an operator stayed out of a pool.
#[derive(Debug, PartialEq, Eq)]
pub enum PoolSkip {
    /// A skill the facility model does not cover.
    UnmodeledBuff(String),
    /// No binding for the facility.
    NoTradeBinding,
    /// A mechanic excluded from the general search.
    ExcludedMechanic(String),
}

impl Clone for PoolSkip {
    fn clone(&self) -> (res: Self)
        ensures
            res == *self,
    {
        match self {
            PoolSkip::UnmodeledBuff(b) => PoolSkip::UnmodeledBuff(b.clone()),
            PoolSkip::NoTradeBinding => PoolSkip::NoTradeBinding,
            PoolSkip::ExcludedMechanic(m) => PoolSkip::ExcludedMechanic(m.clone()),
        }
    }
}

/// Size of a pool and of its combination space.
#[derive(Debug, Clone, Copy, PartialEq, Eq, Structural)]
pub struct PoolStats {
    pub ready: usize,
    pub skipped: usize,
    pub combinations_3: u64,
}

/// Entries of one facility pool, plus the operators left out and why.
#[derive(Debug)]
pub struct PoolCore<T> {
    pub entries: Vec<T>,
    pub skipped: Vec<(String, u8, PoolSkip)>,
}

/// The binomial coefficient C(n, k).
pub open spec fn binomial(n: nat, k: nat) -> nat
    decreases n,
{
    if k == 0 {
        1
    } else if n == 0 {
        0
    } else {
        binomial((n - 1) as nat, (k - 1) as nat) + binomial((n - 1) as nat, k)
    }
}

/// `v`, or `u64::MAX` when larger.
pub open spec fn saturate(v: nat) -> u64 {
    if v <= u64::MAX {
        v as u64
    } else {
        u64::MAX
    }
}

/// C(n, k) is zero when k exceeds n.
pub proof fn lemma_binomial_above(n: nat, k: nat)
    requires
        k > n,
    ensures
        binomial(n, k) == 0,
    decreases n,
{
    if n > 0 {
        lemma_binomial_above((n - 1) as nat, (k - 1) as nat);
        lemma_binomial_above((n - 1) as nat, k);
    }
}

/// C(n, n) is one.
pub proof fn lemma_binomial_diagonal(n: nat)
    ensures
        binomial(n, n) == 1,
    decreases n,
{
    if n > 0 {
        lemma_binomial_diagonal((n - 1) as nat);
        lemma_binomial_above((n - 1) as nat, n);
    }
}

/// C(n, k), saturated at `u64::MAX`.
pub fn n_choose_k_u64(n: usize, k: usize) -> (res: u64)
    ensures
        res == saturate(binomial(n as nat, k as nat)),
{
    if k > n {
        proof {
            lemma_binomial_above(n as nat, k as nat);
        }
        return 0;
    }
    if k == n {
        proof {
            lemma_binomial_diagonal(n as nat);
        }
        return 1;
    }
    // row[j] = C(i, j) for the current i (saturated), built row by row.
    let mut row: Vec<u64> = Vec::new();
    let mut j: usize = 0;
    while j <= k
        invariant
            0 <= j <= k + 1,
            k < usize::MAX,
            row@.len() == j,
            forall|t: int| 0 <= t < j ==> #[trigger] row@[t] == saturate(binomial(0, t as nat)),
        decreases k + 1 - j,
    {
        if j == 0 {
            row.push(1);
        } else {
            row.push(0);
        }
        j += 1;
    }
    let mut i: usize = 0;
    while i < n
        invariant
            0 <= i <= n,
            k < usize::MAX,
            row@.len() == k + 1,
            forall|t: int| 0 <= t <= k ==> #[trigger] row@[t] == saturate(binomial(i as nat, t as nat)),
        decreases n - i,
    {
        let mut t: usize = k;
        while t > 0
            invariant
                0 <= t <= k,
                k < usize::MAX,
                row@.len() == k + 1,
                forall|q: int| 0 <= q <= t ==> #[trigger] row@[q] == saturate(binomial(i as nat, q as nat)),
                forall|q: int|
                    t < q <= k ==> #[trigger] row@[q] == saturate(binomial((i + 1) as nat, q as nat)),
            decreases t,
        {
            let sum = row[t].saturating_add(row[t - 1]);
            proof {
                assert(binomial((i + 1) as nat, t as nat) == binomial(i as nat, (t - 1) as nat) + binomial(
                    i as nat,
                    t as nat,
                ));
            }
            row.set(t, sum);
            t -= 1;
        }
        proof {
            assert(binomial((i + 1) as nat, 0) == 1);
            assert(binomial(i as nat, 0) == 1);
        }
        i += 1;
    }
    row[k]
}

impl<T: HasName + TierTagged> PoolCore<T> {
    /// Marks the entries named in `names` with `tier`, unless they already
    /// carry a classification of higher precedence.
    pub fn tag_tier(&mut self, names: &Vec<String>, tier: OperatorTier)
        ensures
            final(self).skipped@ == old(self).skipped@,
            final(self).entries@.len() == old(self).entries@.len(),
            forall|k: int|
                0 <= k < old(self).entries@.len() ==> tagged(
                    #[trigger] old(self).entries@[k],
                    final(self).entries@[k],
                    names@,
                    tier,
                ),
    {
        let ghost start = self.entries@;
        let mut k: usize = 0;
        while k < self.entries.len()
            invariant
                0 <= k <= self.entries@.len(),
                self.entries@.len() == start.len(),
                self.skipped@ == old(self).skipped@,
                start == old(self).entries@,
                forall|q: int| k <= q < start.len() ==> #[trigger] self.entries@[q] == start[q],
                forall|q: int| 0 <= q < k ==> tagged(#[trigger] start[q], self.entries@[q], names@, tier),
            decreases self.entries@.len() - k,
        {
            let named = crate::text::contains_name(names, self.entries[k].pool_name());
            if named {
                let current = self.entries[k].tier();
                if tier.priority() > current.priority() {
                    let ghost prev = self.entries@;
                    self.entries[k].set_tier(tier);
                    proof {
                        assert forall|q: int| 0 <= q < self.entries@.len() && q != k implies self.entries@[q]
                            == prev[q] by {}
                    }
                }
            }
            k += 1;
        }
    }
}

impl<T: HasName> PoolCore<T> {
    /// Pool size, skip count and C(n, `combinations_k`) (3 for trade and
    /// factories, 1 for power).
    pub fn stats(&self, combinations_k: usize) -> (res: PoolStats)
        ensures
            res.ready == self.entries@.len(),
            res.skipped == self.skipped@.len(),
            res.combinations_3 == saturate(binomial(self.entries@.len() as nat, combinations_k as nat)),
    {
        let n = self.entries.len();
        PoolStats { ready: n, skipped: self.skipped.len(), combinations_3: n_choose_k_u64(n, combinations_k) }
    }

    /// The first entry named `name`.
    pub fn entry(&self, name: &str) -> (res: Option<&T>)
        ensures
            match res {
                Some(e) => exists|k: int|
                    0 <= k < self.entries@.len() && self.entries@[k] == *e && e.spec_pool_name() == name@
                        && forall|q: int| 0 <= q < k ==> (#[trigger] self.entries@[q]).spec_pool_name() != name@,
                None => forall|q: int|
                    0 <= q < self.entries@.len() ==> (#[trigger] self.entries@[q]).spec_pool_name() != name@,
            },
    {
        let mut k: usize = 0;
        while k < self.entries.len()
            invariant
                0 <= k <= self.entries@.len(),
                forall|q: int| 0 <= q < k ==> (#[trigger] self.entries@[q]).spec_pool_name() != name@,
            decreases self.entries@.len() - k,
        {
            if crate::text::str_eq(self.entries[k].pool_name(), name) {
                return Some(&self.entries[k]);
            }
            k += 1;
        }
        None
    }
}

/// A copy of a skip list.
pub fn clone_skipped(skipped: &Vec<(String, u8, PoolSkip)>) -> (res: Vec<(String, u8, PoolSkip)>)
    ensures
        res@.len() == skipped@.len(),
        forall|k: int|
            0 <= k < skipped@.len() ==> (#[trigger] res@[k]).0@ == skipped@[k].0@ && res@[k].1
                == skipped@[k].1 && res@[k].2 == skipped@[k].2,
{
    let mut out: Vec<(String, u8, PoolSkip)> = Vec::new();
    let mut k: usize = 0;
    while k < skipped.len()
        invariant
            0 <= k <= skipped@.len(),
            out@.len() == k,
            forall|q: int|
                0 <= q < k ==> (#[trigger] out@[q]).0@ == skipped@[q].0@ && out@[q].1 == skipped@[q].1
                    && out@[q].2 == skipped@[q].2,
        decreases skipped@.len() - k,
    {
        let entry = &skipped[k];
        out.push((entry.0.clone(), entry.1, entry.2.clone()));
        k += 1;
    }
    out
}

/// Entries of a pool not named in `exclude`.
pub open spec fn kept_entries<T: HasName>(entries: Seq<T>, exclude: Seq<String>) -> Seq<T> {
    entries.filter(|e: T| !has_name(exclude, e.spec_pool_name()))
}

/// Keeping the entries not named in `a`, then those not named in `b`, keeps
/// those named in neither; excluding no name keeps every entry.
pub proof fn lemma_kept_entries_twice<T: HasName>(entries: Seq<T>, a: Seq<String>, b: Seq<String>)
    ensures
        kept_entries(kept_entries(entries, a), b) == kept_entries(entries, a + b),
        kept_entries(entries, Seq::empty()) == entries,
    decreases entries.len(),
{
    let pa = |e: T| !has_name(a, e.spec_pool_name());
    let pb = |e: T| !has_name(b, e.spec_pool_name());
    let pab = |e: T| !has_name(a + b, e.spec_pool_name());
    let pe = |e: T| !has_name(Seq::<String>::empty(), e.spec_pool_name());
    if entries.len() > 0 {
        let d = entries.drop_last();
        let x = entries.last();
        lemma_kept_entries_twice(d, a, b);
        crate::text::lemma_has_name_concat(a, b, x.spec_pool_name());
        assert(!has_name(Seq::<String>::empty(), x.spec_pool_name()));
        assert(entries =~= d.push(x));
        d.lemma_filter_push(x, pa);
        d.lemma_filter_push(x, pab);
        d.lemma_filter_push(x, pe);
        d.filter(pa).lemma_filter_push(x, pb);
        assert(kept_entries(entries, a) == entries.filter(pa));
        assert(kept_entries(d, a) == d.filter(pa));
        assert(kept_entries(kept_entries(d, a), b) == d.filter(pa).filter(pb));
        assert(kept_entries(kept_entries(entries, a), b) == entries.filter(pa).filter(pb));
        assert(kept_entries(entries, a + b) == entries.filter(pab));
        assert(kept_entries(d, a + b) == d.filter(pab));
        assert(kept_entries(entries, Seq::empty()) == entries.filter(pe));
        assert(kept_entries(d, Seq::empty()) == d.filter(pe));
    } else {
        assert(kept_entries(entries, Seq::<String>::empty()) =~= entries);
    }
}

/// The names of some entries.
pub open spec fn entry_names<T: HasName>(entries: Seq<T>) -> Seq<Seq<char>> {
    entries.map_values(|e: T| e.spec_pool_name())
}

/// `out` holds copies of the entries of `src` not named in `exclude`, in
/// order (what `filter_pool` returns).
pub open spec fn filtered<T: HasName + Clone>(src: Seq<T>, exclude: Seq<String>, out: Seq<T>) -> bool {
    &&& out.len() == kept_entries(src, exclude).len()
    &&& forall|k: int| 0 <= k < out.len() ==> cloned::<T>(kept_entries(src, exclude)[k], #[trigger] out[k])
}

/// Entries with the same names keep entries with the same names.
proof fn lemma_kept_names<T: HasName>(x: Seq<T>, y: Seq<T>, exclude: Seq<String>)
    requires
        entry_names(x) == entry_names(y),
    ensures
        entry_names(kept_entries(x, exclude)) == entry_names(kept_entries(y, exclude)),
    decreases x.len(),
{
    let p = |e: T| !has_name(exclude, e.spec_pool_name());
    assert(x.len() == entry_names(x).len() && y.len() == entry_names(y).len());
    if x.len() > 0 {
        let dx = x.drop_last();
        let dy = y.drop_last();
        assert(entry_names(dx) =~= entry_names(x).drop_last());
        assert(entry_names(dy) =~= entry_names(y).drop_last());
        lemma_kept_names(dx, dy, exclude);
        assert(x =~= dx.push(x.last()));
        assert(y =~= dy.push(y.last()));
        dx.lemma_filter_push(x.last(), p);
        dy.lemma_filter_push(y.last(), p);
        assert(x.last().spec_pool_name() == entry_names(x)[x.len() - 1]);
        assert(y.last().spec_pool_name() == entry_names(y)[y.len() - 1]);
        assert(kept_entries(x, exclude) == dx.push(x.last()).filter(p));
        assert(kept_entries(y, exclude) == dy.push(y.last()).filter(p));
        assert(kept_entries(dx, exclude) == dx.filter(p));
        assert(kept_entries(dy, exclude) == dy.filter(p));
        if p(x.last()) {
            assert(entry_names(dx.filter(p).push(x.last())) =~= entry_names(dx.filter(p)).push(x.last().spec_pool_name()));
            assert(entry_names(dy.filter(p).push(y.last())) =~= entry_names(dy.filter(p)).push(y.last().spec_pool_name()));
        }
    } else {
        assert(kept_entries(x, exclude) =~= Seq::<T>::empty());
        assert(kept_entries(y, exclude) =~= Seq::<T>::empty());
    }
}

/// Copies that keep their names have the names of the originals.
proof fn lemma_filtered_names<T: HasName + Clone>(src: Seq<T>, exclude: Seq<String>, out: Seq<T>)
    requires
        filtered(src, exclude, out),
        forall|x: T, y: T| #[trigger] cloned::<T>(x, y) ==> y.spec_pool_name() == x.spec_pool_name(),
    ensures
        entry_names(out) == entry_names(kept_entries(src, exclude)),
{
    assert forall|k: int| 0 <= k < out.len() implies entry_names(out)[k] == entry_names(kept_entries(src, exclude))[k] by {
        assert(cloned::<T>(kept_entries(src, exclude)[k], out[k]));
    }
    assert(entry_names(out) =~= entry_names(kept_entries(src, exclude)));
}

/// Filtering a pool by the names `a` and then by the names `b` keeps, in
/// order, the operators that filtering it once by both keeps, when a copy of
/// an entry keeps the entry's name (as the copies of the pools' entries do).
pub proof fn lemma_filter_pool_twice<T: HasName + Clone>(
    entries: Seq<T>,
    a: Seq<String>,
    b: Seq<String>,
    once: Seq<T>,
    twice: Seq<T>,
    both: Seq<T>,
)
    requires
        forall|x: T, y: T| #[trigger] cloned::<T>(x, y) ==> y.spec_pool_name() == x.spec_pool_name(),
        filtered(entries, a, once),
        filtered(once, b, twice),
        filtered(entries, a + b, both),
    ensures
        entry_names(twice) == entry_names(both),
        entry_names(twice) == entry_names(kept_entries(entries, a + b)),
{
    lemma_filtered_names(entries, a, once);
    lemma_filtered_names(once, b, twice);
    lemma_filtered_names(entries, a + b, both);
    lemma_kept_names(once, kept_entries(entries, a), b);
    lemma_kept_entries_twice(entries, a, b);
}

/// A sub-pool without the operators already assigned elsewhere; the skip list
/// is kept.
pub fn filter_pool<T: HasName + Clone>(pool: &PoolCore<T>, exclude: &Vec<String>) -> (res: PoolCore<T>)
    ensures
        filtered(pool.entries@, exclude@, res.entries@),
        res.skipped@.len() == pool.skipped@.len(),
        forall|k: int|
            0 <= k < pool.skipped@.len() ==> (#[trigger] res.skipped@[k]).0@ == pool.skipped@[k].0@
                && res.skipped@[k].1 == pool.skipped@[k].1 && res.skipped@[k].2 == pool.skipped@[k].2,
{
    let ghost pred = |e: T| !has_name(exclude@, e.spec_pool_name());
    let mut entries: Vec<T> = Vec::new();
    let mut k: usize = 0;
    while k < pool.entries.len()
        invariant
            0 <= k <= pool.entries@.len(),
            pred == (|e: T| !has_name(exclude@, e.spec_pool_name())),
            entries@.len() == pool.entries@.take(k as int).filter(pred).len(),
            forall|q: int|
                0 <= q < entries@.len() ==> cloned::<T>(
                    pool.entries@.take(k as int).filter(pred)[q],
                    #[trigger] entries@[q],
                ),
        decreases pool.entries@.len() - k,
    {
        let e = &pool.entries[k];
        proof {
            let pre = pool.entries@.take(k as int);
            assert(pool.entries@.take(k + 1) == pre.push(*e));
            pre.lemma_filter_push(*e, pred);
        }
        if !crate::text::contains_name(exclude, e.pool_name()) {
            entries.push(e.clone());
        }
        k += 1;
    }
    assert(pool.entries@.take(pool.entries@.len() as int) == pool.entries@);
    assert(pred == (|e: T| !has_name(exclude@, e.spec_pool_name())));
    PoolCore { entries, skipped: clone_skipped(&pool.skipped) }
}

} // verus!
