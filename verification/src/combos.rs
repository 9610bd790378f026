//! The operator combinations a station search evaluates: every increasing
//! tuple of pool positions of the station's size that holds the
//! must-include positions, in lexicographic order.

use vstd::prelude::*;

verus! {

/// Every position lies in `lo..n` and the positions increase.
pub open spec fn increasing_from(c: Seq<usize>, lo: int, n: int) -> bool {
    &&& forall|i: int, j: int| 0 <= i < j < c.len() ==> c[i] < c[j]
    &&& forall|i: int| 0 <= i < c.len() ==> lo <= #[trigger] c[i] < n
}

/// `a` comes before `b` in lexicographic order (on tuples of one length).
pub open spec fn lex_lt(a: Seq<usize>, b: Seq<usize>) -> bool
    decreases a.len(),
{
    if a.len() == 0 || b.len() == 0 {
        false
    } else {
        a[0] < b[0] || (a[0] == b[0] && lex_lt(a.drop_first(), b.drop_first()))
    }
}

/// A station's size: its capacity taken into `1..=3`.
pub open spec fn station_size(capacity: int) -> int {
    if capacity < 1 {
        1
    } else if capacity > 3 {
        3
    } else {
        capacity
    }
}

/// The tuple holds every must-include position.
pub open spec fn holds_all(c: Seq<usize>, must: Seq<usize>) -> bool {
    forall|m: int| 0 <= m < must.len() ==> c.contains(#[trigger] must[m])
}

/// A combination the search evaluates: `k` increasing positions below `n`
/// holding every must-include position.
pub open spec fn search_combo(c: Seq<usize>, n: int, k: int, must: Seq<usize>) -> bool {
    &&& c.len() == k
    &&& increasing_from(c, 0, n)
    &&& holds_all(c, must)
}

/// The tuple `a` followed by `t`.
proof fn lemma_lex_cons(a: usize, x: Seq<usize>, y: Seq<usize>)
    requires
        lex_lt(x, y),
    ensures
        lex_lt(seq![a] + x, seq![a] + y),
{
    assert((seq![a] + x).drop_first() == x);
    assert((seq![a] + y).drop_first() == y);
}

/// The tuple `seq![a] + t`, built.
fn cons_tuple(a: usize, t: &Vec<usize>) -> (res: Vec<usize>)
    ensures
        res@ == seq![a] + t@,
{
    let mut out: Vec<usize> = Vec::new();
    out.push(a);
    let mut i: usize = 0;
    while i < t.len()
        invariant
            0 <= i <= t@.len(),
            out@ == seq![a] + t@.take(i as int),
        decreases t@.len() - i,
    {
        out.push(t[i]);
        assert(t@.take(i + 1) == t@.take(i as int).push(t@[i as int]));
        i += 1;
    }
    assert(t@.take(t@.len() as int) == t@);
    out
}

/// Every increasing tuple of `k` positions in `lo..n`, in lexicographic
/// order.
pub fn increasing_tuples(lo: usize, n: usize, k: usize) -> (res: Vec<Vec<usize>>)
    requires
        lo <= n,
    ensures
        forall|i: int| 0 <= i < res@.len() ==> (#[trigger] res@[i])@.len() == k && increasing_from(res@[i]@, lo as int, n as int),
        forall|i: int, j: int| 0 <= i < j < res@.len() ==> lex_lt(#[trigger] res@[i]@, #[trigger] res@[j]@),
        forall|c: Seq<usize>|
            c.len() == k && increasing_from(c, lo as int, n as int) ==> exists|i: int|
                0 <= i < res@.len() && (#[trigger] res@[i])@ == c,
    decreases k,
{
    if k == 0 {
        let out: Vec<Vec<usize>> = vec![Vec::new()];
        proof {
            assert forall|c: Seq<usize>| c.len() == k && increasing_from(c, lo as int, n as int) implies exists|i: int|
                0 <= i < out@.len() && (#[trigger] out@[i])@ == c by {
                assert(out@[0]@ == c);
            }
        }
        return out;
    }
    let mut out: Vec<Vec<usize>> = Vec::new();
    let mut a: usize = lo;
    while a < n
        invariant
            lo <= a <= n,
            k >= 1,
            forall|i: int|
                0 <= i < out@.len() ==> (#[trigger] out@[i])@.len() == k && increasing_from(out@[i]@, lo as int, n as int)
                    && out@[i]@[0] < a,
            forall|i: int, j: int| 0 <= i < j < out@.len() ==> lex_lt(#[trigger] out@[i]@, #[trigger] out@[j]@),
            forall|c: Seq<usize>|
                c.len() == k && increasing_from(c, lo as int, n as int) && c[0] < a ==> exists|i: int|
                    0 <= i < out@.len() && (#[trigger] out@[i])@ == c,
        decreases n - a,
    {
        let tails = increasing_tuples(a + 1, n, k - 1);
        let ghost before = out@;
        let mut t: usize = 0;
        while t < tails.len()
            invariant
                lo <= a < n,
                k >= 1,
                0 <= t <= tails@.len(),
                out@.len() == before.len() + t,
                forall|i: int| 0 <= i < before.len() ==> out@[i] == before[i],
                forall|i: int| 0 <= i < before.len() ==> (#[trigger] before[i])@.len() == k && before[i]@[0] < a,
                forall|i: int| 0 <= i < t ==> (#[trigger] out@[before.len() + i])@ == seq![a] + tails@[i]@,
                forall|i: int| 0 <= i < tails@.len() ==> (#[trigger] tails@[i])@.len() == k - 1 && increasing_from(
                    tails@[i]@,
                    a + 1,
                    n as int,
                ),
                forall|i: int, j: int| 0 <= i < j < tails@.len() ==> lex_lt(#[trigger] tails@[i]@, #[trigger] tails@[j]@),
                forall|i: int| 0 <= i < out@.len() ==> (#[trigger] out@[i])@.len() == k && increasing_from(
                    out@[i]@,
                    lo as int,
                    n as int,
                ) && out@[i]@[0] <= a,
                forall|i: int, j: int| 0 <= i < j < out@.len() ==> lex_lt(#[trigger] out@[i]@, #[trigger] out@[j]@),
            decreases tails@.len() - t,
        {
            let tup = cons_tuple(a, &tails[t]);
            proof {
                let x = tup@;
                assert(x[0] == a);
                assert forall|i: int| 0 <= i < x.len() implies lo <= #[trigger] x[i] < n by {
                    if i > 0 {
                        assert(x[i] == tails@[t as int]@[i - 1]);
                    }
                }
                assert forall|i: int, j: int| 0 <= i < j < x.len() implies x[i] < x[j] by {
                    assert(x[j] == tails@[t as int]@[j - 1]);
                    if i > 0 {
                        assert(x[i] == tails@[t as int]@[i - 1]);
                    }
                }
                assert forall|i: int| 0 <= i < out@.len() implies lex_lt(#[trigger] out@[i]@, x) by {
                    if i < before.len() {
                        assert(out@[i] == before[i]);
                        assert(before[i]@.len() == k && before[i]@[0] < a);
                    } else {
                        let p = i - before.len();
                        assert(out@[before.len() + p]@ == seq![a] + tails@[p]@);
                        lemma_lex_cons(a, tails@[p]@, tails@[t as int]@);
                    }
                }
            }
            out.push(tup);
            t += 1;
        }
        proof {
            assert forall|c: Seq<usize>|
                c.len() == k && increasing_from(c, lo as int, n as int) && c[0] < a + 1 implies exists|i: int|
                0 <= i < out@.len() && (#[trigger] out@[i])@ == c by {
                if c[0] < a {
                    let i = choose|i: int| 0 <= i < before.len() && (#[trigger] before[i])@ == c;
                    assert(out@[i] == before[i]);
                } else {
                    let d = c.drop_first();
                    assert forall|i: int| 0 <= i < d.len() implies a + 1 <= #[trigger] d[i] < n by {
                        assert(d[i] == c[i + 1]);
                    }
                    assert forall|i: int, j: int| 0 <= i < j < d.len() implies d[i] < d[j] by {
                        assert(d[i] == c[i + 1] && d[j] == c[j + 1]);
                    }
                    let q = choose|q: int| 0 <= q < tails@.len() && (#[trigger] tails@[q])@ == d;
                    assert(seq![a] + d == c);
                    assert(out@[before.len() + q]@ == c);
                }
            }
        }
        a += 1;
    }
    out
}

/// Whether the tuple holds every must-include position.
fn holds_every(c: &Vec<usize>, must: &Vec<usize>) -> (res: bool)
    ensures
        res == holds_all(c@, must@),
{
    let mut m: usize = 0;
    while m < must.len()
        invariant
            0 <= m <= must@.len(),
            forall|x: int| 0 <= x < m ==> c@.contains(#[trigger] must@[x]),
        decreases must@.len() - m,
    {
        let want = must[m];
        let mut i: usize = 0;
        let mut found = false;
        while i < c.len()
            invariant
                0 <= i <= c@.len(),
                found ==> c@.contains(want),
                !found ==> forall|y: int| 0 <= y < i ==> c@[y] != want,
            decreases c@.len() - i,
        {
            if c[i] == want {
                found = true;
            }
            i += 1;
        }
        if !found {
            assert(!c@.contains(want));
            return false;
        }
        m += 1;
    }
    true
}

/// The combinations a trade search over a pool of `n` operators evaluates:
/// every increasing tuple of positions below `n` of the station's size
/// (`capacity` taken into `1..=3`) that holds the `must` positions, in
/// lexicographic order.
#[verifier::rlimit(40)]

pub fn trade_search_combos(n: usize, capacity: usize, must: &Vec<usize>) -> (res: Vec<Vec<usize>>)
    ensures
        forall|i: int| 0 <= i < res@.len() ==> search_combo(#[trigger] res@[i]@, n as int, station_size(capacity as int), must@),
        forall|i: int, j: int| 0 <= i < j < res@.len() ==> lex_lt(#[trigger] res@[i]@, #[trigger] res@[j]@),
        forall|c: Seq<usize>|
            search_combo(c, n as int, station_size(capacity as int), must@) ==> exists|i: int|
                0 <= i < res@.len() && (#[trigger] res@[i])@ == c,
{
    let k: usize = if capacity < 1 {
        1
    } else if capacity > 3 {
        3
    } else {
        capacity
    };
    let all = increasing_tuples(0, n, k);
    let mut out: Vec<Vec<usize>> = Vec::new();
    let mut i: usize = 0;
    while i < all.len()
        invariant
            0 <= i <= all@.len(),
            k == station_size(capacity as int),
            forall|p: int| 0 <= p < all@.len() ==> (#[trigger] all@[p])@.len() == k && increasing_from(all@[p]@, 0, n as int),
            forall|p: int, q: int| 0 <= p < q < all@.len() ==> lex_lt(#[trigger] all@[p]@, #[trigger] all@[q]@),
            forall|p: int| 0 <= p < out@.len() ==> search_combo(#[trigger] out@[p]@, n as int, k as int, must@),
            forall|p: int| 0 <= p < out@.len() ==> exists|q: int| 0 <= q < i && (#[trigger] out@[p])@ == all@[q]@,
            forall|p: int, q: int| 0 <= p < q < out@.len() ==> lex_lt(#[trigger] out@[p]@, #[trigger] out@[q]@),
            forall|q: int| 0 <= q < i && holds_all(all@[q]@, must@) ==> exists|p: int| 0 <= p < out@.len() && (#[trigger] out@[p])@ == all@[q]@,
        decreases all@.len() - i,
    {
        let ghost prev = out@;
        if holds_every(&all[i], must) {
            let tup = cons_copy(&all[i]);
            proof {
                assert forall|p: int| 0 <= p < out@.len() implies lex_lt(#[trigger] out@[p]@, tup@) by {
                    let q = choose|q: int| 0 <= q < i && (#[trigger] out@[p])@ == all@[q]@;
                    assert(lex_lt(all@[q]@, all@[i as int]@));
                }
            }
            out.push(tup);
            proof {
                assert(out@[out@.len() - 1]@ == all@[i as int]@);
                assert forall|p: int| 0 <= p < prev.len() implies out@[p] == prev[p] by {}
            }
        }
        proof {
            assert forall|q: int| 0 <= q < i + 1 && holds_all(all@[q]@, must@) implies exists|p: int|
                0 <= p < out@.len() && (#[trigger] out@[p])@ == all@[q]@ by {
                if q < i {
                    let p = choose|p: int| 0 <= p < prev.len() && (#[trigger] prev[p])@ == all@[q]@;
                    assert(out@[p] == prev[p]);
                } else {
                    assert(out@[out@.len() - 1]@ == all@[i as int]@);
                }
            }
            assert forall|p: int| 0 <= p < out@.len() implies exists|q: int| 0 <= q < i + 1 && (#[trigger] out@[p])@ == all@[q]@ by {
                if p < prev.len() {
                    assert(out@[p] == prev[p]);
                    let q = choose|q: int| 0 <= q < i && (#[trigger] prev[p])@ == all@[q]@;
                } else {
                    assert(out@[p]@ == all@[i as int]@);
                }
            }
        }
        i += 1;
    }
    proof {
        assert forall|c: Seq<usize>| search_combo(c, n as int, station_size(capacity as int), must@) implies exists|p: int|
            0 <= p < out@.len() && (#[trigger] out@[p])@ == c by {
            let q = choose|q: int| 0 <= q < all@.len() && (#[trigger] all@[q])@ == c;
        }
    }
    out
}

/// A copy of a tuple.
fn cons_copy(t: &Vec<usize>) -> (res: Vec<usize>)
    ensures
        res@ == t@,
{
    let mut out: Vec<usize> = Vec::new();
    let mut i: usize = 0;
    while i < t.len()
        invariant
            0 <= i <= t@.len(),
            out@ == t@.take(i as int),
        decreases t@.len() - i,
    {
        out.push(t[i]);
        assert(t@.take(i + 1) == t@.take(i as int).push(t@[i as int]));
        i += 1;
    }
    assert(t@.take(t@.len() as int) == t@);
    out
}

/// The combinations a factory search over a pool of `n` operators
/// evaluates: every increasing tuple of positions below `n` of the station's
/// size that holds the anchor position, when there is one, in lexicographic
/// order.
pub fn manufacture_search_combos(n: usize, capacity: usize, anchor: Option<usize>) -> (res: Vec<Vec<usize>>)
    ensures
        forall|i: int|
            0 <= i < res@.len() ==> search_combo(
                #[trigger] res@[i]@,
                n as int,
                station_size(capacity as int),
                anchor_list(anchor),
            ),
        forall|i: int, j: int| 0 <= i < j < res@.len() ==> lex_lt(#[trigger] res@[i]@, #[trigger] res@[j]@),
        forall|c: Seq<usize>|
            search_combo(c, n as int, station_size(capacity as int), anchor_list(anchor)) ==> exists|i: int|
                0 <= i < res@.len() && (#[trigger] res@[i])@ == c,
{
    let mut must: Vec<usize> = Vec::new();
    if let Some(a) = anchor {
        must.push(a);
    }
    assert(must@ == anchor_list(anchor));
    trade_search_combos(n, capacity, &must)
}

/// The anchor position as a list of must-include positions.
pub open spec fn anchor_list(anchor: Option<usize>) -> Seq<usize> {
    match anchor {
        Some(a) => seq![a],
        None => Seq::empty(),
    }
}

} // verus!
