//! The ranking of the evaluated combinations of a trade search, the
//! must-include positions it starts from, and the combination of the two
//! searches of a split-station search.

use vstd::prelude::*;

use crate::combos::station_size;
use crate::layout::Efficiency;
use crate::text::{clone_strings, contains_name, has_name, str_eq};

verus! {

/// One evaluated trade combination.
#[derive(Debug)]
pub struct TradeSearchHit {
    pub names: Vec<String>,
    pub gold_names: Vec<String>,
    pub originium_names: Vec<String>,
    pub final_efficiency: Efficiency,
    pub mechanic_equivalent_efficiency: Efficiency,
    pub rule_id: Option<String>,
}

/// The ranking of a trade search: the best combination, the leading ones
/// (with their positions among the evaluated hits), and the counts.
#[derive(Debug)]
pub struct TradeSearchReport {
    pub best: TradeSearchHit,
    pub top: Vec<TradeSearchHit>,
    pub top_positions: Vec<usize>,
    pub combinations: u64,
    pub evaluated: u64,
    /// The best gold-order line of a split-station search.
    pub gold_order_line: Option<TradeSearchHit>,
    /// The best originium-order line of a split-station search.
    pub originium_order_line: Option<TradeSearchHit>,
}

/// Why a trade search found nothing.
#[derive(Debug, PartialEq, Eq)]
pub enum TradeSearchError {
    /// The pool holds fewer operators than the station.
    PoolTooSmall { capacity: usize },
    /// More must-include operators than the station holds.
    TooManyMust { must: usize, capacity: usize },
    /// A must-include operator is not in the pool.
    MissingMust { name: String },
    /// No combination passed the search's filters.
    NoMatch,
    /// The pool had fewer ready operators than the station holds.
    TooFewOperators,
}

impl TradeSearchError {
    /// The error's message.
    pub fn message(&self) -> (res: String) {
        match self {
            TradeSearchError::PoolTooSmall { .. } => "trade pool has fewer ready operators than the station holds".to_string(),
            TradeSearchError::TooManyMust { .. } => "trade search requires more operators than the station holds".to_string(),
            TradeSearchError::MissingMust { .. } => "trade pool missing a must-include operator".to_string(),
            TradeSearchError::NoMatch => "no trade combo matched search filter".to_string(),
            TradeSearchError::TooFewOperators => "trade pool has fewer ready operators than station capacity".to_string(),
        }
    }
}

/// The two hits hold the same data.
pub open spec fn same_hit(a: TradeSearchHit, b: TradeSearchHit) -> bool {
    &&& a.names@ == b.names@
    &&& a.gold_names@ == b.gold_names@
    &&& a.originium_names@ == b.originium_names@
    &&& a.final_efficiency == b.final_efficiency
    &&& a.mechanic_equivalent_efficiency == b.mechanic_equivalent_efficiency
    &&& a.rule_id == b.rule_id
}

/// A copy of a hit.
fn clone_hit(h: &TradeSearchHit) -> (res: TradeSearchHit)
    ensures
        same_hit(res, *h),
{
    TradeSearchHit {
        names: clone_strings(&h.names),
        gold_names: clone_strings(&h.gold_names),
        originium_names: clone_strings(&h.originium_names),
        final_efficiency: h.final_efficiency,
        mechanic_equivalent_efficiency: h.mechanic_equivalent_efficiency,
        rule_id: match &h.rule_id {
            Some(r) => Some(r.clone()),
            None => None,
        },
    }
}

/// The hit holds every must-include name and no forbidden pair.
pub open spec fn hit_passes(h: TradeSearchHit, must: Seq<String>, forbidden: Seq<(String, String)>) -> bool {
    &&& forall|m: int| 0 <= m < must.len() ==> has_name(h.names@, #[trigger] must[m]@)
    &&& forall|p: int|
        0 <= p < forbidden.len() ==> !(has_name(h.names@, (#[trigger] forbidden[p]).0@) && has_name(
            h.names@,
            forbidden[p].1@,
        ))
}

/// A hit with no must-include names and no forbidden pairs passes; adding a
/// must-include name keeps exactly the passing hits that hold it; adding a
/// forbidden pair `(x, y)` rejects exactly the passing hits that hold both
/// `x` and `y` (a hit holding only one of them still passes).
pub proof fn lemma_hit_filters(h: TradeSearchHit, must: Seq<String>, forbidden: Seq<(String, String)>, m: String, pair: (String, String))
    ensures
        hit_passes(h, Seq::empty(), Seq::empty()),
        hit_passes(h, must.push(m), forbidden) == (hit_passes(h, must, forbidden) && has_name(h.names@, m@)),
        hit_passes(h, must, forbidden.push(pair)) == (hit_passes(h, must, forbidden) && !(has_name(h.names@, pair.0@)
            && has_name(h.names@, pair.1@))),
{
    let mp = must.push(m);
    let fp = forbidden.push(pair);
    assert(mp[must.len() as int] == m);
    assert(fp[forbidden.len() as int] == pair);
    assert forall|k: int| 0 <= k < must.len() implies mp[k] == must[k] by {}
    assert forall|k: int| 0 <= k < forbidden.len() implies fp[k] == forbidden[k] by {}
    if hit_passes(h, must, forbidden) && has_name(h.names@, m@) {
        assert forall|k: int| 0 <= k < mp.len() implies has_name(h.names@, (#[trigger] mp[k])@) by {
            if k < must.len() {
                assert(mp[k] == must[k]);
            }
        }
    }
    if hit_passes(h, must, forbidden) && !(has_name(h.names@, pair.0@) && has_name(h.names@, pair.1@)) {
        assert forall|k: int| 0 <= k < fp.len() implies !(has_name(h.names@, (#[trigger] fp[k]).0@) && has_name(
            h.names@,
            fp[k].1@,
        )) by {
            if k < forbidden.len() {
                assert(fp[k] == forbidden[k]);
            }
        }
    }
    if hit_passes(h, mp, forbidden) {
        assert(has_name(h.names@, mp[must.len() as int]@));
        assert forall|k: int| 0 <= k < must.len() implies has_name(h.names@, (#[trigger] must[k])@) by {
            assert(has_name(h.names@, mp[k]@));
        }
    }
    if hit_passes(h, must, fp) {
        assert(!(has_name(h.names@, fp[forbidden.len() as int].0@) && has_name(h.names@, fp[forbidden.len() as int].1@)));
        assert forall|k: int| 0 <= k < forbidden.len() implies !(has_name(h.names@, (#[trigger] forbidden[k]).0@)
            && has_name(h.names@, forbidden[k].1@)) by {
            assert(!(has_name(h.names@, fp[k].0@) && has_name(h.names@, fp[k].1@)));
        }
    }
}

/// Hit `i` ranks before hit `j`: a higher final efficiency, or an equal one
/// and an earlier position (the order of a stable sort by descending
/// efficiency).
pub open spec fn ranks_before(hits: Seq<TradeSearchHit>, i: int, j: int) -> bool {
    hits[i].final_efficiency.milli > hits[j].final_efficiency.milli || (hits[i].final_efficiency.milli
        == hits[j].final_efficiency.milli && i < j)
}

/// Number of hits among the first `n` that pass the filters.
pub open spec fn passing_count(hits: Seq<TradeSearchHit>, must: Seq<String>, forbidden: Seq<(String, String)>, n: int) -> nat
    decreases n,
{
    if n <= 0 {
        0
    } else {
        passing_count(hits, must, forbidden, n - 1) + if hit_passes(hits[n - 1], must, forbidden) {
            1nat
        } else {
            0nat
        }
    }
}

/// Whether the hit passes the filters.
fn passes(h: &TradeSearchHit, must: &Vec<String>, forbidden: &Vec<(String, String)>) -> (res: bool)
    ensures
        res == hit_passes(*h, must@, forbidden@),
{
    let mut m: usize = 0;
    while m < must.len()
        invariant
            0 <= m <= must@.len(),
            forall|x: int| 0 <= x < m ==> has_name(h.names@, #[trigger] must@[x]@),
        decreases must@.len() - m,
    {
        if !contains_name(&h.names, must[m].as_str()) {
            return false;
        }
        m += 1;
    }
    let mut p: usize = 0;
    while p < forbidden.len()
        invariant
            0 <= p <= forbidden@.len(),
            forall|x: int|
                0 <= x < p ==> !(has_name(h.names@, (#[trigger] forbidden@[x]).0@) && has_name(
                    h.names@,
                    forbidden@[x].1@,
                )),
        decreases forbidden@.len() - p,
    {
        let pair = &forbidden[p];
        if contains_name(&h.names, pair.0.as_str()) && contains_name(&h.names, pair.1.as_str()) {
            return false;
        }
        p += 1;
    }
    true
}

/// Ranks evaluated trade combinations: keeps the hits that hold every `must`
/// name and no `forbidden` pair, orders them by descending final efficiency
/// (equal ones in their given order) and reports the best and the first
/// `top_k` (none when `top_k` is zero). When none is kept, the error says that the search's filters left
/// nothing when it had filters (`filtered`, must-include names or forbidden
/// pairs), else that the pool was too small.
pub fn rank_trade_hits(
    hits: Vec<TradeSearchHit>,
    must: &Vec<String>,
    forbidden: &Vec<(String, String)>,
    filtered: bool,
    top_k: usize,
    combinations: u64,
) -> (res: Result<TradeSearchReport, TradeSearchError>)
    requires
        hits@.len() <= u64::MAX,
    ensures
        res is Err <==> passing_count(hits@, must@, forbidden@, hits@.len() as int) == 0,
        res matches Err(e) ==> (e == TradeSearchError::NoMatch <==> (filtered || must@.len() > 0 || forbidden@.len() > 0)),
        res matches Ok(r) ==> {
            let pos = r.top_positions@;
            &&& r.combinations == combinations
            &&& r.gold_order_line is None && r.originium_order_line is None
            &&& r.evaluated == passing_count(hits@, must@, forbidden@, hits@.len() as int)
            &&& pos.len() == r.top@.len()
            &&& pos.len() <= top_k
            &&& (top_k > 0 ==> pos.len() >= 1)
            &&& exists|b: int|
                0 <= b < hits@.len() && hit_passes(hits@[b], must@, forbidden@) && same_hit(r.best, hits@[b])
                    && forall|e: int|
                    0 <= e < hits@.len() && hit_passes(hits@[e], must@, forbidden@) && e != b ==> ranks_before(
                        hits@,
                        b,
                        e,
                    )
            &&& forall|p: int| 0 <= p < pos.len() ==> same_hit(#[trigger] r.top@[p], hits@[pos[p] as int])
            &&& ranked_prefix(hits@, must@, forbidden@, top_k as int, pos)
            &&& forall|p: int, q: int|
                0 <= p < q < pos.len() ==> hits@[#[trigger] pos[p] as int].final_efficiency.milli >= hits@[
                    #[trigger] pos[q] as int].final_efficiency.milli && (hits@[pos[p] as int].final_efficiency.milli
                    == hits@[pos[q] as int].final_efficiency.milli ==> pos[p] < pos[q])
            &&& forall|e: int|
                0 <= e < hits@.len() && hit_passes(#[trigger] hits@[e], must@, forbidden@) ==> r.best.final_efficiency.milli
                    >= hits@[e].final_efficiency.milli
        },
{
    let n = hits.len();
    let mut ok: Vec<bool> = Vec::new();
    let mut count: u64 = 0;
    let mut i: usize = 0;
    while i < n
        invariant
            0 <= i <= n,
            n == hits@.len(),
            n <= u64::MAX,
            ok@.len() == i,
            forall|j: int| 0 <= j < i ==> ok@[j] == hit_passes(#[trigger] hits@[j], must@, forbidden@),
            count == passing_count(hits@, must@, forbidden@, i as int),
            count <= i,
        decreases n - i,
    {
        let b = passes(&hits[i], must, forbidden);
        ok.push(b);
        if b {
            count = count + 1;
        }
        i += 1;
    }
    if count == 0 {
        if filtered || must.len() > 0 || forbidden.len() > 0 {
            return Err(TradeSearchError::NoMatch);
        }
        return Err(TradeSearchError::TooFewOperators);
    }
    proof {
        lemma_some_passing(hits@, must@, forbidden@, n as int);
    }
    let want: usize = if top_k == 0 {
        1
    } else {
        top_k
    };
    let mut chosen: Vec<bool> = Vec::new();
    let mut c: usize = 0;
    while c < n
        invariant
            0 <= c <= n,
            chosen@.len() == c,
            forall|j: int| 0 <= j < c ==> !chosen@[j],
        decreases n - c,
    {
        chosen.push(false);
        c += 1;
    }
    let mut pos: Vec<usize> = Vec::new();
    let mut top: Vec<TradeSearchHit> = Vec::new();
    loop
        invariant
            n == hits@.len(),
            ok@.len() == n,
            chosen@.len() == n,
            forall|j: int| 0 <= j < n ==> ok@[j] == hit_passes(#[trigger] hits@[j], must@, forbidden@),
            pos@.len() == top@.len(),
            pos@.len() <= want,
            want >= 1,
            want == (if top_k == 0 { 1 } else { top_k }),
            exists|e: int| 0 <= e < n && hit_passes(hits@[e], must@, forbidden@),
            forall|j: int| 0 <= j < n ==> (#[trigger] chosen@[j] <==> pos@.contains(j as usize)),
            forall|p: int| 0 <= p < pos@.len() ==> pos@[p] < n && hit_passes(hits@[pos@[p] as int], must@, forbidden@),
            forall|p: int| 0 <= p < pos@.len() ==> same_hit(#[trigger] top@[p], hits@[pos@[p] as int]),
            forall|p: int, q: int| 0 <= p < q < pos@.len() ==> ranks_before(hits@, pos@[p] as int, pos@[q] as int),
            forall|e: int|
                0 <= e < n && hit_passes(hits@[e], must@, forbidden@) && !pos@.contains(e as usize) ==> forall|p: int|
                    0 <= p < pos@.len() ==> ranks_before(hits@, #[trigger] pos@[p] as int, e),
        ensures
            pos@.len() >= 1,
            pos@.len() == want || forall|e: int|
                0 <= e < n && hit_passes(hits@[e], must@, forbidden@) ==> pos@.contains(e as usize),
        decreases want - pos@.len(),
    {
        if pos.len() >= want {
            break;
        }
        let mut best: Option<usize> = None;
        let mut j: usize = 0;
        while j < n
            invariant
                0 <= j <= n,
                n == hits@.len(),
                ok@.len() == n,
                chosen@.len() == n,
                forall|x: int| 0 <= x < n ==> ok@[x] == hit_passes(#[trigger] hits@[x], must@, forbidden@),
                match best {
                    Some(b) => b < j && ok@[b as int] && !chosen@[b as int] && forall|x: int|
                        0 <= x < j && ok@[x] && !chosen@[x] && x != b ==> ranks_before(hits@, b as int, x),
                    None => forall|x: int| 0 <= x < j ==> !(ok@[x] && !chosen@[x]),
                },
            decreases n - j,
        {
            if ok[j] && !chosen[j] {
                match best {
                    None => {
                        best = Some(j);
                    },
                    Some(b) => {
                        if hits[j].final_efficiency.milli > hits[b].final_efficiency.milli {
                            best = Some(j);
                        }
                    },
                }
            }
            j += 1;
        }
        match best {
            None => {
                proof {
                    assert forall|e: int| 0 <= e < n && hit_passes(hits@[e], must@, forbidden@) implies pos@.contains(
                        e as usize,
                    ) by {
                        assert(ok@[e]);
                        assert(chosen@[e]);
                    }
                    let e = choose|e: int| 0 <= e < n && hit_passes(hits@[e], must@, forbidden@);
                    assert(ok@[e]);
                    assert(chosen@[e]);
                }
                break;
            },
            Some(b) => {
                let ghost old_pos = pos@;
                let h = clone_hit(&hits[b]);
                proof {
                    assert(ok@[b as int]);
                    assert(!old_pos.contains(b));
                }
                pos.push(b);
                top.push(h);
                chosen.set(b, true);
                proof {
                    assert forall|j: int| 0 <= j < n implies (#[trigger] chosen@[j] <==> pos@.contains(j as usize)) by {
                        if j == b as int {
                            assert(pos@[pos@.len() - 1] == b);
                        } else {
                            if pos@.contains(j as usize) {
                                let p = choose|p: int| 0 <= p < pos@.len() && pos@[p] == j as usize;
                                assert(p < old_pos.len());
                                assert(old_pos[p] == j as usize);
                            }
                            if old_pos.contains(j as usize) {
                                let p = choose|p: int| 0 <= p < old_pos.len() && old_pos[p] == j as usize;
                                assert(pos@[p] == j as usize);
                            }
                        }
                    }
                    assert forall|p: int, q: int| 0 <= p < q < pos@.len() implies ranks_before(
                        hits@,
                        pos@[p] as int,
                        pos@[q] as int,
                    ) by {
                        if q == pos@.len() - 1 {
                            assert(pos@[p] == old_pos[p]);
                        } else {
                            assert(pos@[p] == old_pos[p] && pos@[q] == old_pos[q]);
                        }
                    }
                    assert forall|e: int|
                        0 <= e < n && hit_passes(hits@[e], must@, forbidden@) && !pos@.contains(e as usize) implies forall|p: int|
                        0 <= p < pos@.len() ==> ranks_before(hits@, #[trigger] pos@[p] as int, e) by {
                        assert(ok@[e]);
                        assert(pos@[pos@.len() - 1] == b);
                        assert(e != b as int);
                        assert(!chosen@[e]);
                        assert(!old_pos.contains(e as usize)) by {
                            if old_pos.contains(e as usize) {
                                let p = choose|p: int| 0 <= p < old_pos.len() && old_pos[p] == e as usize;
                                assert(pos@[p] == e as usize);
                            }
                        }
                        assert forall|p: int| 0 <= p < pos@.len() implies ranks_before(hits@, #[trigger] pos@[p] as int, e) by {
                            if p < old_pos.len() {
                                assert(pos@[p] == old_pos[p]);
                            }
                        }
                    }
                }
            },
        }
    }
    let best = clone_hit(&top[0]);
    proof {
        let b = pos@[0] as int;
        assert forall|e: int| 0 <= e < n && hit_passes(hits@[e], must@, forbidden@) && e != b implies ranks_before(
            hits@,
            b,
            e,
        ) by {
            if pos@.contains(e as usize) {
                let q = choose|q: int| 0 <= q < pos@.len() && pos@[q] == e as usize;
                assert(q != 0);
            } else {
                assert(ranks_before(hits@, pos@[0] as int, e));
            }
        }
        assert(same_hit(best, hits@[b]));
        assert forall|e: int| 0 <= e < n && hit_passes(#[trigger] hits@[e], must@, forbidden@) implies best.final_efficiency.milli
            >= hits@[e].final_efficiency.milli by {
            if e != b {
                assert(ranks_before(hits@, b, e));
            }
        }
        assert forall|p: int, q: int| 0 <= p < q < pos@.len() implies hits@[#[trigger] pos@[p] as int].final_efficiency.milli
            >= hits@[#[trigger] pos@[q] as int].final_efficiency.milli && (hits@[pos@[p] as int].final_efficiency.milli
            == hits@[pos@[q] as int].final_efficiency.milli ==> pos@[p] < pos@[q]) by {
            assert(ranks_before(hits@, pos@[p] as int, pos@[q] as int));
        }
    }
    if top_k == 0 {
        return Ok(
            TradeSearchReport {
                best,
                top: Vec::new(),
                top_positions: Vec::new(),
                combinations,
                evaluated: count,
                gold_order_line: None,
                originium_order_line: None,
            },
        );
    }
    Ok(
        TradeSearchReport {
            best,
            top,
            top_positions: pos,
            combinations,
            evaluated: count,
            gold_order_line: None,
            originium_order_line: None,
        },
    )
}

/// `pos` lists, best first, the first `top_k` passing hits in the order of
/// `ranks_before` (all of them when there are fewer).
pub open spec fn ranked_prefix(
    hits: Seq<TradeSearchHit>,
    must: Seq<String>,
    forbidden: Seq<(String, String)>,
    top_k: int,
    pos: Seq<usize>,
) -> bool {
    &&& pos.len() <= top_k
    &&& forall|p: int| 0 <= p < pos.len() ==> pos[p] < hits.len() && hit_passes(hits[pos[p] as int], must, forbidden)
    &&& forall|p: int, q: int| 0 <= p < q < pos.len() ==> ranks_before(hits, pos[p] as int, pos[q] as int)
    &&& forall|e: int|
        0 <= e < hits.len() && hit_passes(hits[e], must, forbidden) && !pos.contains(e as usize) ==> forall|p: int|
            0 <= p < pos.len() ==> ranks_before(hits, #[trigger] pos[p] as int, e)
    &&& (pos.len() < top_k ==> forall|e: int|
        0 <= e < hits.len() && hit_passes(hits[e], must, forbidden) ==> pos.contains(e as usize))
}

/// The ranking of evaluated combinations is unique: two lists that both rank
/// the passing hits (the first `top_k`, best first, ties in given order) are
/// the same list. However a search comes to its result (evaluating every
/// combination or reading results computed before), a correctly ranked
/// result is the one `rank_trade_hits` reports.
pub proof fn lemma_ranking_unique(
    hits: Seq<TradeSearchHit>,
    must: Seq<String>,
    forbidden: Seq<(String, String)>,
    top_k: int,
    a: Seq<usize>,
    b: Seq<usize>,
)
    requires
        ranked_prefix(hits, must, forbidden, top_k, a),
        ranked_prefix(hits, must, forbidden, top_k, b),
    ensures
        a == b,
{
    let m = if a.len() < b.len() {
        a.len() as int
    } else {
        b.len() as int
    };
    lemma_ranking_agree(hits, must, forbidden, top_k, a, b, m, 0);
    if a.len() < b.len() {
        let y = b[m] as int;
        assert(a.contains(y as usize));
        let q = choose|q: int| 0 <= q < a.len() && a[q] == y as usize;
        assert(a[q] == b[q]);
        assert(ranks_before(hits, b[q] as int, b[m] as int));
    } else if b.len() < a.len() {
        let x = a[m] as int;
        assert(b.contains(x as usize));
        let q = choose|q: int| 0 <= q < b.len() && b[q] == x as usize;
        assert(a[q] == b[q]);
        assert(ranks_before(hits, a[q] as int, a[m] as int));
    }
    assert(a =~= b);
}

/// Two rankings agree on their first `m` places, given that they agree on
/// the first `i`.
proof fn lemma_ranking_agree(
    hits: Seq<TradeSearchHit>,
    must: Seq<String>,
    forbidden: Seq<(String, String)>,
    top_k: int,
    a: Seq<usize>,
    b: Seq<usize>,
    m: int,
    i: int,
)
    requires
        ranked_prefix(hits, must, forbidden, top_k, a),
        ranked_prefix(hits, must, forbidden, top_k, b),
        0 <= i <= m,
        m <= a.len() && m <= b.len(),
        forall|j: int| 0 <= j < i ==> a[j] == b[j],
    ensures
        forall|j: int| 0 <= j < m ==> a[j] == b[j],
    decreases m - i,
{
    if i < m {
        let x = a[i] as int;
        let y = b[i] as int;
        if x != y {
            assert(ranks_before(hits, y, x)) by {
                if b.contains(x as usize) {
                    let q = choose|q: int| 0 <= q < b.len() && b[q] == x as usize;
                    if q < i {
                        assert(a[q] == b[q]);
                        assert(ranks_before(hits, a[q] as int, a[i] as int));
                    } else {
                        assert(q != i);
                    }
                }
            }
            assert(ranks_before(hits, x, y)) by {
                if a.contains(y as usize) {
                    let q = choose|q: int| 0 <= q < a.len() && a[q] == y as usize;
                    if q < i {
                        assert(a[q] == b[q]);
                        assert(ranks_before(hits, b[q] as int, b[i] as int));
                    } else {
                        assert(q != i);
                    }
                }
            }
        }
        lemma_ranking_agree(hits, must, forbidden, top_k, a, b, m, i + 1);
    }
}

/// When some hit passes, the count is positive, and the other way round.
proof fn lemma_some_passing(hits: Seq<TradeSearchHit>, must: Seq<String>, forbidden: Seq<(String, String)>, n: int)
    requires
        0 <= n <= hits.len(),
        passing_count(hits, must, forbidden, n) > 0,
    ensures
        exists|e: int| 0 <= e < n && hit_passes(hits[e], must, forbidden),
    decreases n,
{
    if !hit_passes(hits[n - 1], must, forbidden) {
        lemma_some_passing(hits, must, forbidden, n - 1);
    }
}

/// Position in the pool of must-include operator `name`: its first position
/// among the pool's names, else the first when it is the operator put in
/// place of a pool entry.
pub open spec fn must_position(names: Seq<String>, stand_in: Option<Seq<char>>, name: Seq<char>) -> Option<int> {
    if has_name(names, name) {
        Some(first_name_index(names, name))
    } else if stand_in == Some(name) {
        Some(0)
    } else {
        None
    }
}

/// Index of the first occurrence of `name`.
pub open spec fn first_name_index(names: Seq<String>, name: Seq<char>) -> int
    decreases names.len(),
{
    if names.len() == 0 || names[0]@ == name {
        0
    } else {
        1 + first_name_index(names.drop_first(), name)
    }
}

/// The first occurrence of a name that occurs is where it stands.
proof fn lemma_first_name_index(names: Seq<String>, name: Seq<char>)
    requires
        has_name(names, name),
    ensures
        0 <= first_name_index(names, name) < names.len(),
        names[first_name_index(names, name)]@ == name,
        forall|j: int| 0 <= j < first_name_index(names, name) ==> names[j]@ != name,
    decreases names.len(),
{
    if names[0]@ != name {
        let k = choose|k: int| 0 <= k < names.len() && #[trigger] names[k]@ == name;
        assert(names.drop_first()[k - 1] == names[k]);
        lemma_first_name_index(names.drop_first(), name);
        assert forall|j: int| 0 < j < first_name_index(names, name) implies names[j]@ != name by {
            assert(names[j] == names.drop_first()[j - 1]);
        }
    }
}

/// Where a must-include operator stands: at the first position of the pool
/// holding its name; when the pool lacks it, first if it is the operator put
/// in place of a pool entry; nowhere otherwise.
pub proof fn lemma_must_position(names: Seq<String>, stand_in: Option<Seq<char>>, name: Seq<char>, i: int)
    ensures
        (0 <= i < names.len() && names[i]@ == name && forall|j: int| 0 <= j < i ==> names[j]@ != name)
            ==> must_position(names, stand_in, name) == Some(i),
        (forall|j: int| 0 <= j < names.len() ==> names[j]@ != name) ==> must_position(names, stand_in, name) == (
        if stand_in == Some(name) {
            Some(0int)
        } else {
            None
        }),
{
    if 0 <= i < names.len() && names[i]@ == name && forall|j: int| 0 <= j < i ==> names[j]@ != name {
        assert(has_name(names, name));
        lemma_first_name_index(names, name);
        let f = first_name_index(names, name);
        if f < i {
            assert(names[f]@ != name);
        }
        if i < f {
            assert(names[i]@ != name);
        }
    }
}

/// The pool positions of the must-include operators of a trade search over
/// a pool with operators `names` and a station of `capacity` (taken into
/// `1..=3`), each once, in the order of `must`; `stand_in` is the operator
/// put in place of a pool entry, if any. Errors, in this order: the pool is
/// smaller than the station, more operators must be included than the
/// station holds, a must-include operator has no position (the first such).
pub fn trade_search_must_positions(
    names: &Vec<String>,
    must: &Vec<String>,
    stand_in: Option<&String>,
    capacity: usize,
) -> (res: Result<Vec<usize>, TradeSearchError>)
    ensures
        names@.len() < station_size(capacity as int) <==> res matches Err(TradeSearchError::PoolTooSmall { .. }),
        res matches Err(TradeSearchError::PoolTooSmall { capacity: c }) ==> c == station_size(capacity as int),
        res matches Err(TradeSearchError::TooManyMust { .. }) <==> (names@.len() >= station_size(capacity as int)
            && must@.len() > station_size(capacity as int)),
        res matches Err(TradeSearchError::TooManyMust { must: m, capacity: c }) ==> m == must@.len() && c
            == station_size(capacity as int),
        res matches Err(TradeSearchError::MissingMust { name }) ==> exists|k: int|
            0 <= k < must@.len() && #[trigger] must@[k]@ == name@ && must_position(names@, opt_chars(stand_in), name@)
                is None && forall|j: int|
                0 <= j < k ==> must_position(names@, opt_chars(stand_in), #[trigger] must@[j]@) is Some,
        res is Ok <==> (names@.len() >= station_size(capacity as int) && must@.len() <= station_size(capacity as int)
            && forall|k: int| 0 <= k < must@.len() ==> must_position(names@, opt_chars(stand_in), #[trigger] must@[k]@) is Some),
        res matches Ok(idx) ==> must_positions_ok(idx@, names@, opt_chars(stand_in), must@),
{
    let k: usize = if capacity < 1 {
        1
    } else if capacity > 3 {
        3
    } else {
        capacity
    };
    if names.len() < k {
        return Err(TradeSearchError::PoolTooSmall { capacity: k });
    }
    if must.len() > k {
        return Err(TradeSearchError::TooManyMust { must: must.len(), capacity: k });
    }
    let mut idx: Vec<usize> = Vec::new();
    let mut m: usize = 0;
    while m < must.len()
        invariant
            0 <= m <= must@.len(),
            k == station_size(capacity as int),
            names@.len() >= k,
            must@.len() <= k,
            forall|a: int, b: int| 0 <= a < b < idx@.len() ==> idx@[a] != idx@[b],
            forall|j: int| 0 <= j < m ==> must_position(names@, opt_chars(stand_in), #[trigger] must@[j]@) is Some,
            forall|j: int|
                0 <= j < m ==> holds_position(idx@, must_position(names@, opt_chars(stand_in), #[trigger] must@[j]@)),
            forall|a: int|
                #![trigger idx@[a]]
                0 <= a < idx@.len() ==> exists|j: int|
                    0 <= j < m && must_position(names@, opt_chars(stand_in), #[trigger] must@[j]@) == Some(
                        idx@[a] as int,
                    ),
        decreases must@.len() - m,
    {
        let name = &must[m];
        let mut found: Option<usize> = None;
        let mut i: usize = 0;
        while i < names.len() && found.is_none()
            invariant
                0 <= i <= names@.len(),
                match found {
                    Some(f) => f < names@.len() && names@[f as int]@ == name@ && forall|j: int|
                        0 <= j < f ==> names@[j]@ != name@,
                    None => forall|j: int| 0 <= j < i ==> names@[j]@ != name@,
                },
            decreases names@.len() - i,
        {
            if str_eq(names[i].as_str(), name.as_str()) {
                found = Some(i);
            }
            i += 1;
        }
        proof {
            if let Some(f) = found {
                assert(has_name(names@, name@));
                lemma_first_name_index(names@, name@);
            } else {
                assert(!has_name(names@, name@));
            }
        }
        let p: usize = match found {
            Some(i) => i,
            None => {
                let stands = match stand_in {
                    Some(o) => str_eq(o.as_str(), name.as_str()),
                    None => false,
                };
                if !stands {
                    return Err(TradeSearchError::MissingMust { name: name.clone() });
                }
                0
            },
        };
        assert(must_position(names@, opt_chars(stand_in), must@[m as int]@) == Some(p as int));
        let mut present = false;
        let mut q: usize = 0;
        while q < idx.len()
            invariant
                0 <= q <= idx@.len(),
                present ==> idx@.contains(p),
                !present ==> forall|j: int| 0 <= j < q ==> idx@[j] != p,
            decreases idx@.len() - q,
        {
            if idx[q] == p {
                present = true;
            }
            q += 1;
        }
        let ghost before = idx@;
        if !present {
            idx.push(p);
            proof {
                assert(idx@[idx@.len() - 1] == p);
                assert(holds_position(idx@, Some(p as int)));
                assert forall|j: int| 0 <= j < m implies holds_position(
                    idx@,
                    must_position(names@, opt_chars(stand_in), #[trigger] must@[j]@),
                ) by {
                    let w = must_position(names@, opt_chars(stand_in), must@[j]@);
                    let t = choose|t: int| 0 <= t < before.len() && Some(before[t] as int) == w;
                    assert(idx@[t] == before[t]);
                }
            }
        }
        proof {
            if present {
                let t = choose|t: int| 0 <= t < idx@.len() && idx@[t] == p;
                assert(holds_position(idx@, Some(p as int)));
            }
            assert(holds_position(idx@, must_position(names@, opt_chars(stand_in), must@[m as int]@)));
            assert forall|a: int| #![trigger idx@[a]] 0 <= a < idx@.len() implies exists|j: int|
                0 <= j < m + 1 && must_position(names@, opt_chars(stand_in), #[trigger] must@[j]@) == Some(
                    idx@[a] as int,
                ) by {
                if a < before.len() {
                    assert(idx@[a] == before[a]);
                    let j = choose|j: int|
                        0 <= j < m && must_position(names@, opt_chars(stand_in), #[trigger] must@[j]@) == Some(
                            before[a] as int,
                        );
                } else {
                    assert(must_position(names@, opt_chars(stand_in), must@[m as int]@) == Some(idx@[a] as int));
                }
            }
        }
        m += 1;
    }
    proof {
        assert forall|a: int| 0 <= a < idx@.len() implies is_must_position(
            names@,
            opt_chars(stand_in),
            must@,
            #[trigger] idx@[a] as int,
        ) by {
            let j = choose|j: int|
                0 <= j < m && must_position(names@, opt_chars(stand_in), #[trigger] must@[j]@) == Some(idx@[a] as int);
        }
        assert(must_positions_ok(idx@, names@, opt_chars(stand_in), must@));
    }
    Ok(idx)
}

/// The positions are distinct, each must-include operator's position is
/// among them, and each of them is some must-include operator's position.
pub open spec fn must_positions_ok(idx: Seq<usize>, names: Seq<String>, stand_in: Option<Seq<char>>, must: Seq<String>) -> bool {
    &&& forall|a: int, b: int| 0 <= a < b < idx.len() ==> idx[a] != idx[b]
    &&& forall|k: int| 0 <= k < must.len() ==> holds_position(idx, must_position(names, stand_in, #[trigger] must[k]@))
    &&& forall|a: int| 0 <= a < idx.len() ==> is_must_position(names, stand_in, must, #[trigger] idx[a] as int)
}

/// `p` is the position of some must-include operator.
pub open spec fn is_must_position(names: Seq<String>, stand_in: Option<Seq<char>>, must: Seq<String>, p: int) -> bool {
    exists|k: int| 0 <= k < must.len() && must_position(names, stand_in, #[trigger] must[k]@) == Some(p)
}

/// Some position of the list is `p`.
pub open spec fn holds_position(idx: Seq<usize>, p: Option<int>) -> bool {
    exists|t: int| 0 <= t < idx.len() && Some(#[trigger] idx[t] as int) == p
}

/// The characters of an optional name.
pub open spec fn opt_chars(o: Option<&String>) -> Option<Seq<char>> {
    match o {
        Some(s) => Some(s@),
        None => None,
    }
}

/// Largest final efficiency, in thousandths, of a line combined across
/// stations.
pub const LINE_EFFICIENCY_BOUND: i64 = 1_000_000_000;

/// The report of a split-station trade search from the reports of its gold
/// and originium searches: one combined hit (the gold line's names as gold
/// names, the originium line's as originium names, the efficiency of each
/// line times its number of stations, summed, the gold line's mechanic
/// efficiency), reported as best and as the only top hit; the counts added
/// (saturating); both lines kept.
pub fn combine_split_station_reports(
    gold: TradeSearchReport,
    originium: TradeSearchReport,
    gold_stations: u32,
    originium_stations: u32,
) -> (res: TradeSearchReport)
    requires
        -LINE_EFFICIENCY_BOUND <= gold.best.final_efficiency.milli <= LINE_EFFICIENCY_BOUND,
        -LINE_EFFICIENCY_BOUND <= originium.best.final_efficiency.milli <= LINE_EFFICIENCY_BOUND,
    ensures
        res.best.names@.len() == 0,
        res.best.gold_names@ == gold.best.names@,
        res.best.originium_names@ == originium.best.names@,
        res.best.final_efficiency.milli == gold.best.final_efficiency.milli * gold_stations
            + originium.best.final_efficiency.milli * originium_stations,
        res.best.mechanic_equivalent_efficiency == gold.best.mechanic_equivalent_efficiency,
        res.best.rule_id is None,
        res.top@.len() == 1 && same_hit(res.top@[0], res.best),
        res.top_positions@.len() == 0,
        res.combinations == if gold.combinations + originium.combinations > u64::MAX {
            u64::MAX as int
        } else {
            gold.combinations + originium.combinations
        },
        res.evaluated == if gold.evaluated + originium.evaluated > u64::MAX {
            u64::MAX as int
        } else {
            gold.evaluated + originium.evaluated
        },
        res.gold_order_line matches Some(h) && same_hit(h, gold.best),
        res.originium_order_line matches Some(h) && same_hit(h, originium.best),
{
    let g = gold.best.final_efficiency.milli;
    let o = originium.best.final_efficiency.milli;
    assert(-LINE_EFFICIENCY_BOUND * 0x1_0000_0000 <= g * gold_stations <= LINE_EFFICIENCY_BOUND * 0x1_0000_0000)
        by (nonlinear_arith)
        requires
            -LINE_EFFICIENCY_BOUND <= g <= LINE_EFFICIENCY_BOUND,
            0 <= gold_stations < 0x1_0000_0000,
    ;
    assert(-LINE_EFFICIENCY_BOUND * 0x1_0000_0000 <= o * originium_stations <= LINE_EFFICIENCY_BOUND * 0x1_0000_0000)
        by (nonlinear_arith)
        requires
            -LINE_EFFICIENCY_BOUND <= o <= LINE_EFFICIENCY_BOUND,
            0 <= originium_stations < 0x1_0000_0000,
    ;
    let composite = g * (gold_stations as i64) + o * (originium_stations as i64);
    let best = TradeSearchHit {
        names: Vec::new(),
        gold_names: clone_strings(&gold.best.names),
        originium_names: clone_strings(&originium.best.names),
        final_efficiency: Efficiency { milli: composite },
        mechanic_equivalent_efficiency: gold.best.mechanic_equivalent_efficiency,
        rule_id: None,
    };
    let top_hit = clone_hit(&best);
    TradeSearchReport {
        best,
        top: vec![top_hit],
        top_positions: Vec::new(),
        combinations: gold.combinations.saturating_add(originium.combinations),
        evaluated: gold.evaluated.saturating_add(originium.evaluated),
        gold_order_line: Some(gold.best),
        originium_order_line: Some(originium.best),
    }
}

} // verus!
