//! Power-plant searches over evaluated hits: the station assignment (each
//! station in turn takes the best free operator in the power-plant order)
//! and the single-station top list.

use vstd::prelude::*;

use crate::search::{lemma_power_hit_order, power_hit_precedes, spec_power_hit_precedes, PowerHitRank};
use crate::text::{contains_name, has_name};

verus! {

/// Names of the picked hits.
pub open spec fn picked_names(hits: Seq<PowerHitRank>, picks: Seq<usize>) -> Seq<String> {
    picks.map_values(|p: usize| hits[p as int].name)
}

/// Hit `e` is still free once `picks` are taken: no picked hit has its name.
pub open spec fn free_after(hits: Seq<PowerHitRank>, picks: Seq<usize>, e: int) -> bool {
    !has_name(picked_names(hits, picks), hits[e].name@)
}

/// Hit `b` is the pick among the free hits: it is free, no free hit comes
/// before it, and it comes before every free hit listed before it.
pub open spec fn best_free(hits: Seq<PowerHitRank>, picks: Seq<usize>, b: int) -> bool {
    &&& 0 <= b < hits.len()
    &&& free_after(hits, picks, b)
    &&& forall|e: int|
        0 <= e < hits.len() && free_after(hits, picks, e) && e != b ==> !spec_power_hit_precedes(
            #[trigger] hits[e],
            hits[b],
        ) && (e < b ==> spec_power_hit_precedes(hits[b], hits[e]))
}

/// `picks` fill the stations one by one, each with the best free hit, and
/// stop early only when no hit is free.
pub open spec fn greedy_picks(hits: Seq<PowerHitRank>, stations: int, picks: Seq<usize>) -> bool {
    &&& picks.len() <= stations
    &&& forall|s: int| 0 <= s < picks.len() ==> best_free(hits, picks.take(s), #[trigger] picks[s] as int)
    &&& (picks.len() < stations ==> forall|e: int| 0 <= e < hits.len() ==> !free_after(hits, picks, e))
}

/// Sum of the final efficiencies of the picked hits.
pub open spec fn picks_total(hits: Seq<PowerHitRank>, picks: Seq<usize>) -> int
    decreases picks.len(),
{
    if picks.len() == 0 {
        0
    } else {
        picks_total(hits, picks.drop_last()) + hits[picks.last() as int].final_efficiency.milli
    }
}

/// Largest charge speed, in thousandths, a power-plant hit may report.
pub const POWER_EFFICIENCY_BOUND: i64 = 1_000_000_000_000;

/// Two hits neither of which comes before the other rank the same.
proof fn lemma_power_tie(a: PowerHitRank, b: PowerHitRank, c: PowerHitRank)
    requires
        !spec_power_hit_precedes(a, b),
        !spec_power_hit_precedes(b, a),
    ensures
        spec_power_hit_precedes(a, c) == spec_power_hit_precedes(b, c),
        spec_power_hit_precedes(c, a) == spec_power_hit_precedes(c, b),
{
    lemma_power_hit_order(a, b, c);
    assert(a.name@ == b.name@);
}

/// The free hit the station takes, when any is free.
fn best_free_hit(hits: &Vec<PowerHitRank>, picks: &Vec<usize>, names: &Vec<String>) -> (res: Option<usize>)
    requires
        names@ == picked_names(hits@, picks@),
        forall|s: int| 0 <= s < picks@.len() ==> (#[trigger] picks@[s]) < hits@.len(),
    ensures
        match res {
            Some(b) => best_free(hits@, picks@, b as int),
            None => forall|e: int| 0 <= e < hits@.len() ==> !free_after(hits@, picks@, e),
        },
{
    let mut best: Option<usize> = None;
    let mut j: usize = 0;
    while j < hits.len()
        invariant
            0 <= j <= hits@.len(),
            names@ == picked_names(hits@, picks@),
            match best {
                Some(b) => b < j && free_after(hits@, picks@, b as int) && forall|e: int|
                    0 <= e < j && free_after(hits@, picks@, e) && e != b ==> !spec_power_hit_precedes(
                        #[trigger] hits@[e],
                        hits@[b as int],
                    ) && (e < b ==> spec_power_hit_precedes(hits@[b as int], hits@[e])),
                None => forall|e: int| 0 <= e < j ==> !free_after(hits@, picks@, e),
            },
        decreases hits@.len() - j,
    {
        if !contains_name(names, hits[j].name.as_str()) {
            match best {
                None => {
                    best = Some(j);
                },
                Some(b) => {
                    if power_hit_precedes(&hits[j], &hits[b]) {
                        proof {
                            assert forall|e: int|
                                0 <= e < j + 1 && free_after(hits@, picks@, e) && e != j implies !spec_power_hit_precedes(
                                #[trigger] hits@[e],
                                hits@[j as int],
                            ) && (e < j ==> spec_power_hit_precedes(hits@[j as int], hits@[e])) by {
                                lemma_power_hit_order(hits@[j as int], hits@[b as int], hits@[e]);
                                lemma_power_hit_order(hits@[e], hits@[j as int], hits@[b as int]);
                                lemma_power_hit_order(hits@[j as int], hits@[e], hits@[b as int]);
                                if e != b as int {
                                    if !spec_power_hit_precedes(hits@[e], hits@[b as int]) && !spec_power_hit_precedes(
                                        hits@[b as int],
                                        hits@[e],
                                    ) {
                                        lemma_power_tie(hits@[e], hits@[b as int], hits@[j as int]);
                                    }
                                    if !spec_power_hit_precedes(hits@[e], hits@[j as int]) && !spec_power_hit_precedes(
                                        hits@[j as int],
                                        hits@[e],
                                    ) {
                                        lemma_power_tie(hits@[e], hits@[j as int], hits@[b as int]);
                                    }
                                }
                            }
                        }
                        best = Some(j);
                    } else {
                        proof {
                            lemma_power_hit_order(hits@[j as int], hits@[b as int], hits@[j as int]);
                        }
                    }
                },
            }
        }
        j += 1;
    }
    best
}

/// Assigns operators to `stations` power plants: each station in turn takes
/// the free hit (of an operator not yet placed) that comes first in the
/// power-plant order (the first such hit when several rank the same), until
/// the stations are filled or no hit is free. Returns the positions of the
/// picked hits and the sum of their final efficiencies.
pub fn assign_power_stations(hits: &Vec<PowerHitRank>, stations: u8) -> (res: (Vec<usize>, i64))
    requires
        forall|e: int| 0 <= e < hits@.len() ==> -POWER_EFFICIENCY_BOUND <= (#[trigger] hits@[e]).final_efficiency.milli <= POWER_EFFICIENCY_BOUND,
    ensures
        greedy_picks(hits@, stations as int, res.0@),
        forall|s: int| 0 <= s < res.0@.len() ==> (#[trigger] res.0@[s]) < hits@.len(),
        res.1 == picks_total(hits@, res.0@),
{
    let mut picks: Vec<usize> = Vec::new();
    let mut names: Vec<String> = Vec::new();
    let mut total: i64 = 0;
    while picks.len() < stations as usize
        invariant
            picks@.len() <= stations,
            forall|e: int| 0 <= e < hits@.len() ==> -POWER_EFFICIENCY_BOUND <= (#[trigger] hits@[e]).final_efficiency.milli <= POWER_EFFICIENCY_BOUND,
            names@ == picked_names(hits@, picks@),
            forall|s: int| 0 <= s < picks@.len() ==> (#[trigger] picks@[s]) < hits@.len(),
            forall|s: int| 0 <= s < picks@.len() ==> best_free(hits@, picks@.take(s), #[trigger] picks@[s] as int),
            total == picks_total(hits@, picks@),
            -(picks@.len() as int) * POWER_EFFICIENCY_BOUND <= total <= (picks@.len() as int) * POWER_EFFICIENCY_BOUND,
        ensures
            greedy_picks(hits@, stations as int, picks@),
            forall|s: int| 0 <= s < picks@.len() ==> (#[trigger] picks@[s]) < hits@.len(),
            total == picks_total(hits@, picks@),
        decreases stations - picks@.len(),
    {
        match best_free_hit(hits, &picks, &names) {
            None => {
                break;
            },
            Some(b) => {
                let ghost before = picks@;
                total = total + hits[b].final_efficiency.milli;
                names.push(hits[b].name.clone());
                picks.push(b);
                proof {
                    assert(picks@.drop_last() == before);
                    assert(names@ =~= picked_names(hits@, picks@));
                    assert forall|s: int| 0 <= s < picks@.len() implies best_free(hits@, picks@.take(s), #[trigger] picks@[s] as int) by {
                        if s < before.len() {
                            assert(picks@.take(s) == before.take(s));
                        } else {
                            assert(picks@.take(s) == before);
                        }
                    }
                }
            },
        }
    }
    (picks, total)
}

/// Hit `i` goes before hit `j` in a top list: it comes first in the
/// power-plant order, or ranks the same and is listed earlier (the order of
/// a stable sort).
pub open spec fn top_before(hits: Seq<PowerHitRank>, i: int, j: int) -> bool {
    spec_power_hit_precedes(hits[i], hits[j]) || (!spec_power_hit_precedes(hits[j], hits[i]) && i < j)
}

/// `top_before` orders distinct positions strictly and totally.
proof fn lemma_top_before(hits: Seq<PowerHitRank>, i: int, j: int, k: int)
    ensures
        i != j ==> (top_before(hits, i, j) || top_before(hits, j, i)),
        top_before(hits, i, j) ==> !top_before(hits, j, i),
        top_before(hits, i, j) && top_before(hits, j, k) ==> top_before(hits, i, k),
{
    lemma_power_hit_order(hits[i], hits[j], hits[k]);
    lemma_power_hit_order(hits[j], hits[i], hits[k]);
    lemma_power_hit_order(hits[i], hits[k], hits[j]);
    lemma_power_hit_order(hits[k], hits[i], hits[j]);
    lemma_power_hit_order(hits[j], hits[k], hits[i]);
    lemma_power_hit_order(hits[k], hits[j], hits[i]);
    if !spec_power_hit_precedes(hits[i], hits[j]) && !spec_power_hit_precedes(hits[j], hits[i]) {
        lemma_power_tie(hits[i], hits[j], hits[k]);
    }
    if !spec_power_hit_precedes(hits[j], hits[k]) && !spec_power_hit_precedes(hits[k], hits[j]) {
        lemma_power_tie(hits[j], hits[k], hits[i]);
    }
    if !spec_power_hit_precedes(hits[i], hits[k]) && !spec_power_hit_precedes(hits[k], hits[i]) {
        lemma_power_tie(hits[i], hits[k], hits[j]);
    }
}

/// The positions of the first `top_k` hits of a single-station search, in
/// the power-plant order (hits that rank the same in their given order): all
/// hits when there are fewer.
pub fn power_top(hits: &Vec<PowerHitRank>, top_k: usize) -> (res: Vec<usize>)
    ensures
        res@.len() == if top_k < hits@.len() {
            top_k as int
        } else {
            hits@.len() as int
        },
        forall|p: int| 0 <= p < res@.len() ==> (#[trigger] res@[p]) < hits@.len(),
        forall|p: int, q: int| 0 <= p < q < res@.len() ==> top_before(hits@, #[trigger] res@[p] as int, #[trigger] res@[q] as int),
        forall|e: usize|
            e < hits@.len() && !(#[trigger] res@.contains(e)) ==> forall|p: int|
                0 <= p < res@.len() ==> top_before(hits@, #[trigger] res@[p] as int, e as int),
{
    let n = hits.len();
    let mut chosen: Vec<bool> = Vec::new();
    let mut c: usize = 0;
    while c < n
        invariant
            0 <= c <= n,
            chosen@.len() == c,
            forall|j: int| 0 <= j < c ==> !chosen@[j],
        decreases n - c,
    {
        chosen.push(false);
        c += 1;
    }
    let mut pos: Vec<usize> = Vec::new();
    proof {
        lemma_none_chosen(chosen@);
    }
    while pos.len() < top_k && pos.len() < n
        invariant
            n == hits@.len(),
            chosen@.len() == n,
            pos@.len() <= n,
            pos@.len() <= top_k,
            forall|j: int| 0 <= j < n ==> (#[trigger] chosen@[j] <==> pos@.contains(j as usize)),
            unchosen_count(chosen@) + pos@.len() == n,
            forall|p: int| 0 <= p < pos@.len() ==> (#[trigger] pos@[p]) < n,
            forall|p: int, q: int| 0 <= p < q < pos@.len() ==> top_before(hits@, #[trigger] pos@[p] as int, #[trigger] pos@[q] as int),
            forall|e: usize|
                e < n && !(#[trigger] pos@.contains(e)) ==> forall|p: int|
                    0 <= p < pos@.len() ==> top_before(hits@, #[trigger] pos@[p] as int, e as int),
        decreases n - pos@.len(),
    {
        proof {
            lemma_some_unchosen(chosen@);
        }
        let mut best: Option<usize> = None;
        let mut j: usize = 0;
        while j < n
            invariant
                0 <= j <= n,
                n == hits@.len(),
                chosen@.len() == n,
                match best {
                    Some(b) => b < j && !chosen@[b as int] && forall|x: int|
                        0 <= x < j && !chosen@[x] && x != b ==> top_before(hits@, b as int, x),
                    None => forall|x: int| 0 <= x < j ==> chosen@[x],
                },
            decreases n - j,
        {
            if !chosen[j] {
                match best {
                    None => {
                        best = Some(j);
                    },
                    Some(b) => {
                        if power_hit_precedes(&hits[j], &hits[b]) {
                            proof {
                                assert forall|x: int| 0 <= x < j + 1 && !chosen@[x] && x != j implies top_before(
                                    hits@,
                                    j as int,
                                    x,
                                ) by {
                                    lemma_top_before(hits@, j as int, b as int, x);
                                }
                            }
                            best = Some(j);
                        } else {
                            proof {
                                lemma_top_before(hits@, b as int, j as int, b as int);
                            }
                        }
                    },
                }
            }
            j += 1;
        }
        proof {
            if best is None {
                let e = choose|e: int| 0 <= e < chosen@.len() && !chosen@[e];
                assert(chosen@[e]);
            }
        }
        let b = best.unwrap();
        let ghost old_pos = pos@;
        proof {
            lemma_choose_one(chosen@, b as int);
        }
        proof {
            assert(!old_pos.contains(b));
        }
        pos.push(b);
        chosen.set(b, true);
        proof {
            assert(pos@[pos@.len() - 1] == b);
            assert forall|j: int| 0 <= j < n implies (#[trigger] chosen@[j] <==> pos@.contains(j as usize)) by {
                if j != b as int {
                    if pos@.contains(j as usize) {
                        let p = choose|p: int| 0 <= p < pos@.len() && pos@[p] == j as usize;
                        assert(old_pos[p] == j as usize);
                    }
                    if old_pos.contains(j as usize) {
                        let p = choose|p: int| 0 <= p < old_pos.len() && old_pos[p] == j as usize;
                        assert(pos@[p] == j as usize);
                    }
                }
            }
            assert forall|p: int, q: int| 0 <= p < q < pos@.len() implies top_before(
                hits@,
                #[trigger] pos@[p] as int,
                #[trigger] pos@[q] as int,
            ) by {
                assert(pos@[p] == old_pos[p]);
                if q < pos@.len() - 1 {
                    assert(pos@[q] == old_pos[q]);
                }
            }
            assert forall|e: usize| e < n && !(#[trigger] pos@.contains(e)) implies forall|p: int|
                0 <= p < pos@.len() ==> top_before(hits@, #[trigger] pos@[p] as int, e as int) by {
                assert(e != b);
                assert(!chosen@[e as int]);
                assert(!old_pos.contains(e)) by {
                    if old_pos.contains(e) {
                        let p = choose|p: int| 0 <= p < old_pos.len() && old_pos[p] == e;
                        assert(pos@[p] == e);
                    }
                }
                assert forall|p: int| 0 <= p < pos@.len() implies top_before(hits@, #[trigger] pos@[p] as int, e as int) by {
                    if p < old_pos.len() {
                        assert(pos@[p] == old_pos[p]);
                    }
                }
            }
        }
    }
    pos
}

/// Number of positions not chosen.
pub open spec fn unchosen_count(chosen: Seq<bool>) -> nat
    decreases chosen.len(),
{
    if chosen.len() == 0 {
        0
    } else {
        unchosen_count(chosen.drop_last()) + if chosen.last() {
            0nat
        } else {
            1nat
        }
    }
}

/// Choosing an unchosen position leaves one fewer unchosen.
proof fn lemma_choose_one(chosen: Seq<bool>, b: int)
    requires
        0 <= b < chosen.len(),
        !chosen[b],
    ensures
        unchosen_count(chosen.update(b, true)) + 1 == unchosen_count(chosen),
    decreases chosen.len(),
{
    if b < chosen.len() - 1 {
        lemma_choose_one(chosen.drop_last(), b);
        assert(chosen.update(b, true).drop_last() == chosen.drop_last().update(b, true));
    } else {
        assert(chosen.update(b, true).drop_last() == chosen.drop_last());
    }
}

/// When some position is unchosen, one is.
proof fn lemma_some_unchosen(chosen: Seq<bool>)
    requires
        unchosen_count(chosen) > 0,
    ensures
        exists|e: int| 0 <= e < chosen.len() && !chosen[e],
    decreases chosen.len(),
{
    if chosen.last() {
        lemma_some_unchosen(chosen.drop_last());
        let e = choose|e: int| 0 <= e < chosen.drop_last().len() && !chosen.drop_last()[e];
        assert(chosen[e] == chosen.drop_last()[e]);
    }
}

/// With nothing chosen, every position is unchosen.
proof fn lemma_none_chosen(chosen: Seq<bool>)
    requires
        forall|j: int| 0 <= j < chosen.len() ==> !chosen[j],
    ensures
        unchosen_count(chosen) == chosen.len(),
    decreases chosen.len(),
{
    if chosen.len() > 0 {
        lemma_none_chosen(chosen.drop_last());
    }
}

} // verus!
