//! Joint selection of one candidate row per trade room such that no logical
//! operator is used twice.
//!
//! Each room contributes a list of rows, already sorted by that room's own
//! comparator; a row carries a bit mask (one bit per logical operator, split
//! into 64-bit words).  The search returns the lexicographically first index
//! tuple whose masks are pairwise disjoint and disjoint from a fixed prefix
//! mask.  The traversal is exhaustive over the lexicographic order: it only
//! stops descending below a prefix whose masks already collide, which no
//! extension can repair.

use vstd::prelude::*;

verus! {

/// One candidate row of a room: the logical operators it occupies.
#[derive(Debug, Clone, PartialEq, Eq)]
pub struct JointTradeRow {
    pub logical_mask: Vec<u64>,
}

/// Word `w` of a mask; words past the end of the mask are empty.
pub open spec fn word_at(mask: Seq<u64>, w: int) -> u64 {
    if 0 <= w < mask.len() {
        mask[w]
    } else {
        0
    }
}

/// Two masks share no bit.
pub open spec fn masks_disjoint(a: Seq<u64>, b: Seq<u64>) -> bool {
    forall|w: int| 0 <= w < a.len() && w < b.len() ==> #[trigger] (a[w] & b[w]) == 0
}

/// The mask of the row chosen for room `i` by the index tuple `idx`.
pub open spec fn chosen_row(lists: Seq<Vec<JointTradeRow>>, idx: Seq<usize>, i: int) -> Seq<u64> {
    lists[i]@[idx[i] as int].logical_mask@
}

/// Every index of `idx` names an existing row of its room (a tuple over the
/// first `idx.len()` rooms).
pub open spec fn partial_tuple(lists: Seq<Vec<JointTradeRow>>, idx: Seq<usize>) -> bool {
    &&& idx.len() <= lists.len()
    &&& forall|i: int| 0 <= i < idx.len() ==> #[trigger] idx[i] < lists[i]@.len()
}

/// A complete index tuple: one existing row for every room.
pub open spec fn full_tuple(lists: Seq<Vec<JointTradeRow>>, idx: Seq<usize>) -> bool {
    partial_tuple(lists, idx) && idx.len() == lists.len()
}

/// The chosen rows are pairwise disjoint and disjoint from the prefix mask.
pub open spec fn tuple_disjoint(
    lists: Seq<Vec<JointTradeRow>>,
    idx: Seq<usize>,
    prefix: Seq<u64>,
) -> bool {
    &&& forall|i: int| 0 <= i < idx.len() ==> masks_disjoint(prefix, #[trigger] chosen_row(lists, idx, i))
    &&& forall|i: int, j: int|
        0 <= i < j < idx.len() ==> masks_disjoint(
            #[trigger] chosen_row(lists, idx, i),
            #[trigger] chosen_row(lists, idx, j),
        )
}

/// `a` comes strictly before `b` in lexicographic order.
pub open spec fn lex_lt(a: Seq<usize>, b: Seq<usize>) -> bool {
    exists|k: int| 0 <= k < a.len() && k < b.len() && a.take(k) == b.take(k) && #[trigger] a[k] < b[k]
}

/// `a` is `b` or comes before it in lexicographic order.
pub open spec fn lex_le(a: Seq<usize>, b: Seq<usize>) -> bool {
    a == b || lex_lt(a, b)
}

/// The tuple a search over `lists` with `prefix` must return: the
/// lexicographically first complete disjoint tuple, or `None` when there is
/// none.
pub open spec fn is_first_disjoint_tuple(
    lists: Seq<Vec<JointTradeRow>>,
    prefix: Seq<u64>,
    res: Option<Seq<usize>>,
) -> bool {
    match res {
        Some(t) => {
            &&& full_tuple(lists, t)
            &&& tuple_disjoint(lists, t, prefix)
            &&& forall|u: Seq<usize>|
                full_tuple(lists, u) && tuple_disjoint(lists, u, prefix) ==> lex_le(t, u)
        },
        None => forall|u: Seq<usize>| full_tuple(lists, u) ==> !tuple_disjoint(lists, u, prefix),
    }
}

/// The smaller of two integers.
pub open spec fn min_int(a: int, b: int) -> int {
    if a < b {
        a
    } else {
        b
    }
}

/// Accumulated occupancy of word `w` after the prefix and the first `k`
/// chosen rows.
pub open spec fn occupancy(
    lists: Seq<Vec<JointTradeRow>>,
    idx: Seq<usize>,
    prefix: Seq<u64>,
    k: nat,
    w: int,
) -> u64
    decreases k,
{
    if k == 0 {
        word_at(prefix, w)
    } else {
        occupancy(lists, idx, prefix, (k - 1) as nat, w) | word_at(
            chosen_row(lists, idx, k - 1),
            w,
        )
    }
}

/// No mask (prefix or row) is wider than `width` words.
pub open spec fn within_width(lists: Seq<Vec<JointTradeRow>>, prefix: Seq<u64>, width: int) -> bool {
    &&& prefix.len() <= width
    &&& forall|i: int, j: int|
        0 <= i < lists.len() && 0 <= j < lists[i]@.len() ==> #[trigger] lists[i]@[j].logical_mask@.len()
            <= width
}

proof fn lemma_or_and_zero(a: u64, b: u64, x: u64)
    ensures
        ((a | b) & x) == 0 <==> ((a & x) == 0 && (b & x) == 0),
{
    assert(((a | b) & x) == 0 <==> ((a & x) == 0 && (b & x) == 0)) by (bit_vector);
}

proof fn lemma_zero_and(x: u64)
    ensures
        (0u64 & x) == 0,
        (x | 0u64) == x,
{
    assert((0u64 & x) == 0) by (bit_vector);
    assert((x | 0u64) == x) by (bit_vector);
}

/// The occupancy of a word collides with `x` exactly when the prefix or one
/// of the chosen rows does.
proof fn lemma_occupancy_and_zero(
    lists: Seq<Vec<JointTradeRow>>,
    idx: Seq<usize>,
    prefix: Seq<u64>,
    k: nat,
    w: int,
    x: u64,
)
    ensures
        (occupancy(lists, idx, prefix, k, w) & x) == 0 <==> ((word_at(prefix, w) & x) == 0
            && forall|i: int| 0 <= i < k ==> (#[trigger] word_at(chosen_row(lists, idx, i), w) & x) == 0),
    decreases k,
{
    if k > 0 {
        lemma_occupancy_and_zero(lists, idx, prefix, (k - 1) as nat, w, x);
        lemma_or_and_zero(
            occupancy(lists, idx, prefix, (k - 1) as nat, w),
            word_at(chosen_row(lists, idx, k - 1), w),
            x,
        );
        if (occupancy(lists, idx, prefix, k, w) & x) == 0 {
            assert forall|i: int| 0 <= i < k implies (#[trigger] word_at(
                chosen_row(lists, idx, i),
                w,
            ) & x) == 0 by {
                if i < k - 1 {
                } else {
                }
            }
        }
    }
}

/// Occupancy only depends on the first `k` indices.
proof fn lemma_occupancy_prefix_stable(
    lists: Seq<Vec<JointTradeRow>>,
    idx: Seq<usize>,
    idx2: Seq<usize>,
    prefix: Seq<u64>,
    k: nat,
    w: int,
)
    requires
        k <= idx.len(),
        k <= idx2.len(),
        idx.take(k as int) == idx2.take(k as int),
    ensures
        occupancy(lists, idx, prefix, k, w) == occupancy(lists, idx2, prefix, k, w),
    decreases k,
{
    if k > 0 {
        assert(idx.take(k - 1) == idx.take(k as int).take(k - 1));
        assert(idx2.take(k - 1) == idx2.take(k as int).take(k - 1));
        lemma_occupancy_prefix_stable(lists, idx, idx2, prefix, (k - 1) as nat, w);
        assert(idx[k - 1] == idx.take(k as int)[k - 1]);
        assert(idx2[k - 1] == idx2.take(k as int)[k - 1]);
    }
}

/// A prefix of a disjoint tuple is disjoint.
proof fn lemma_take_disjoint(
    lists: Seq<Vec<JointTradeRow>>,
    u: Seq<usize>,
    prefix: Seq<u64>,
    m: int,
)
    requires
        0 <= m <= u.len(),
        tuple_disjoint(lists, u, prefix),
    ensures
        tuple_disjoint(lists, u.take(m), prefix),
{
    let t = u.take(m);
    assert forall|i: int| 0 <= i < t.len() implies chosen_row(lists, t, i) == chosen_row(
        lists,
        u,
        i,
    ) by {}
    assert forall|i: int| 0 <= i < t.len() implies masks_disjoint(
        prefix,
        #[trigger] chosen_row(lists, t, i),
    ) by {
        assert(chosen_row(lists, t, i) == chosen_row(lists, u, i));
    }
    assert forall|i: int, j: int| 0 <= i < j < t.len() implies masks_disjoint(
        #[trigger] chosen_row(lists, t, i),
        #[trigger] chosen_row(lists, t, j),
    ) by {
        assert(chosen_row(lists, t, i) == chosen_row(lists, u, i));
        assert(chosen_row(lists, t, j) == chosen_row(lists, u, j));
    }
}

/// Extending a disjoint partial tuple by one row keeps it disjoint exactly when
/// the new row is disjoint from the prefix and from every earlier row.
proof fn lemma_push_disjoint(
    lists: Seq<Vec<JointTradeRow>>,
    idx: Seq<usize>,
    prefix: Seq<u64>,
    j: usize,
)
    requires
        tuple_disjoint(lists, idx, prefix),
        idx.len() < lists.len(),
    ensures
        tuple_disjoint(lists, idx.push(j), prefix) <==> (masks_disjoint(
            prefix,
            lists[idx.len() as int]@[j as int].logical_mask@,
        ) && forall|i: int|
            0 <= i < idx.len() ==> masks_disjoint(
                #[trigger] chosen_row(lists, idx, i),
                lists[idx.len() as int]@[j as int].logical_mask@,
            )),
{
    let n = idx.push(j);
    let k = idx.len() as int;
    assert forall|i: int| 0 <= i < k implies chosen_row(lists, n, i) == chosen_row(lists, idx, i) by {}
    assert(chosen_row(lists, n, k) == lists[k]@[j as int].logical_mask@);
    if masks_disjoint(prefix, lists[k]@[j as int].logical_mask@) && forall|i: int|
        0 <= i < k ==> masks_disjoint(
            #[trigger] chosen_row(lists, idx, i),
            lists[k]@[j as int].logical_mask@,
        ) {
        assert forall|i: int| 0 <= i < n.len() implies masks_disjoint(
            prefix,
            #[trigger] chosen_row(lists, n, i),
        ) by {
            if i < k {
                assert(chosen_row(lists, n, i) == chosen_row(lists, idx, i));
            }
        }
        assert forall|i: int, i2: int| 0 <= i < i2 < n.len() implies masks_disjoint(
            #[trigger] chosen_row(lists, n, i),
            #[trigger] chosen_row(lists, n, i2),
        ) by {
            assert(chosen_row(lists, n, i) == chosen_row(lists, idx, i));
            if i2 < k {
                assert(chosen_row(lists, n, i2) == chosen_row(lists, idx, i2));
            }
        }
    }
    if tuple_disjoint(lists, n, prefix) {
        assert(masks_disjoint(prefix, chosen_row(lists, n, k)));
        assert forall|i: int| 0 <= i < k implies masks_disjoint(
            #[trigger] chosen_row(lists, idx, i),
            lists[k]@[j as int].logical_mask@,
        ) by {
            assert(masks_disjoint(chosen_row(lists, n, i), chosen_row(lists, n, k)));
        }
    }
}

/// Checks `row` against the current occupancy word by word.
fn row_fits(occupied: &Vec<u64>, row: &Vec<u64>) -> (res: bool)
    requires
        row.len() <= occupied.len(),
    ensures
        res == forall|w: int| 0 <= w < row.len() ==> #[trigger] (occupied@[w] & row@[w]) == 0,
{
    let n = row.len();
    let mut w: usize = 0;
    while w < n
        invariant
            n == row.len(),
            row.len() <= occupied.len(),
            0 <= w <= n,
            forall|v: int| 0 <= v < w ==> #[trigger] (occupied@[v] & row@[v]) == 0,
        decreases n - w,
    {
        if occupied[w] & row[w] != 0 {
            return false;
        }
        w += 1;
    }
    true
}

/// Adds the bits of `row` to the occupancy.
fn occupy_row(occupied: &mut Vec<u64>, row: &Vec<u64>)
    requires
        row.len() <= old(occupied).len(),
    ensures
        final(occupied).len() == old(occupied).len(),
        forall|w: int|
            0 <= w < old(occupied).len() ==> #[trigger] final(occupied)@[w] == (old(occupied)@[w]
                | word_at(row@, w)),
{
    let n = row.len();
    let mut w: usize = 0;
    while w < n
        invariant
            n == row.len(),
            row.len() <= old(occupied).len(),
            occupied.len() == old(occupied).len(),
            0 <= w <= n,
            forall|v: int| 0 <= v < w ==> #[trigger] occupied@[v] == (old(occupied)@[v] | word_at(row@, v)),
            forall|v: int| w <= v < occupied.len() ==> #[trigger] occupied@[v] == old(occupied)@[v],
        decreases n - w,
    {
        let bits = occupied[w] | row[w];
        occupied.set(w, bits);
        w += 1;
    }
    assert forall|v: int| 0 <= v < old(occupied).len() implies #[trigger] occupied@[v] == (old(
        occupied,
    )@[v] | word_at(row@, v)) by {
        if v >= n {
            lemma_zero_and(old(occupied)@[v]);
        }
    }
}

/// Relates the word-wise check against the occupancy to disjointness from the
/// prefix and from each chosen row.
proof fn lemma_fits_iff(
    lists: Seq<Vec<JointTradeRow>>,
    idx: Seq<usize>,
    prefix: Seq<u64>,
    occupied: Seq<u64>,
    row: Seq<u64>,
)
    requires
        row.len() <= occupied.len(),
        prefix.len() <= occupied.len(),
        forall|w: int|
            0 <= w < occupied.len() ==> #[trigger] occupied[w] == occupancy(
                lists,
                idx,
                prefix,
                idx.len() as nat,
                w,
            ),
    ensures
        (forall|w: int| 0 <= w < row.len() ==> #[trigger] (occupied[w] & row[w]) == 0) <==> (
        masks_disjoint(prefix, row) && forall|i: int|
            0 <= i < idx.len() ==> masks_disjoint(#[trigger] chosen_row(lists, idx, i), row)),
{
    let k = idx.len() as nat;
    if forall|w: int| 0 <= w < row.len() ==> #[trigger] (occupied[w] & row[w]) == 0 {
        assert forall|w: int| 0 <= w < prefix.len() && w < row.len() implies #[trigger] (prefix[w]
            & row[w]) == 0 by {
            assert((occupied[w] & row[w]) == 0);
            lemma_occupancy_and_zero(lists, idx, prefix, k, w, row[w]);
        }
        assert forall|i: int| 0 <= i < idx.len() implies masks_disjoint(
            #[trigger] chosen_row(lists, idx, i),
            row,
        ) by {
            let r = chosen_row(lists, idx, i);
            assert forall|w: int| 0 <= w < r.len() && w < row.len() implies #[trigger] (r[w]
                & row[w]) == 0 by {
                assert((occupied[w] & row[w]) == 0);
                lemma_occupancy_and_zero(lists, idx, prefix, k, w, row[w]);
                assert((word_at(r, w) & row[w]) == 0);
            }
        }
    }
    if masks_disjoint(prefix, row) && forall|i: int|
        0 <= i < idx.len() ==> masks_disjoint(#[trigger] chosen_row(lists, idx, i), row) {
        assert forall|w: int| 0 <= w < row.len() implies #[trigger] (occupied[w] & row[w]) == 0 by {
            lemma_occupancy_and_zero(lists, idx, prefix, k, w, row[w]);
            lemma_zero_and(row[w]);
            if w < prefix.len() {
                assert((prefix[w] & row[w]) == 0);
            }
            assert forall|i: int| 0 <= i < k implies (#[trigger] word_at(
                chosen_row(lists, idx, i),
                w,
            ) & row[w]) == 0 by {
                let r = chosen_row(lists, idx, i);
                assert(masks_disjoint(r, row));
                if w < r.len() {
                    assert((r[w] & row[w]) == 0);
                }
            }
        }
    }
}

/// Depth-first search over the rooms from `indices.len()` on, in lexicographic
/// order of the remaining indices.
fn first_disjoint_extension(
    lists: &[Vec<JointTradeRow>],
    prefix_mask: &[u64],
    occupied: &Vec<u64>,
    indices: &Vec<usize>,
) -> (res: Option<Vec<usize>>)
    requires
        within_width(lists@, prefix_mask@, occupied.len() as int),
        partial_tuple(lists@, indices@),
        tuple_disjoint(lists@, indices@, prefix_mask@),
        forall|w: int|
            0 <= w < occupied.len() ==> #[trigger] occupied@[w] == occupancy(
                lists@,
                indices@,
                prefix_mask@,
                indices@.len() as nat,
                w,
            ),
    ensures
        match res {
            Some(t) => {
                &&& full_tuple(lists@, t@)
                &&& t@.take(indices@.len() as int) == indices@
                &&& tuple_disjoint(lists@, t@, prefix_mask@)
                &&& forall|u: Seq<usize>|
                    full_tuple(lists@, u) && u.take(indices@.len() as int) == indices@
                        && tuple_disjoint(lists@, u, prefix_mask@) ==> lex_le(t@, u)
            },
            None => forall|u: Seq<usize>|
                full_tuple(lists@, u) && u.take(indices@.len() as int) == indices@
                    ==> !tuple_disjoint(lists@, u, prefix_mask@),
        },
    decreases lists@.len() - indices@.len(),
{
    let ghost start = indices@;
    let k = indices.len();
    if k == lists.len() {
        assert forall|u: Seq<usize>|
            full_tuple(lists@, u) && u.take(k as int) == start implies u == start by {
            assert(u.take(k as int) == u);
        }
        assert(start.take(k as int) == start);
        return Some(indices.clone());
    }
    let room = &lists[k];
    let n = room.len();
    let mut j: usize = 0;
    while j < n
        invariant
            k == start.len(),
            k < lists@.len(),
            room == lists@[k as int],
            n == room@.len(),
            0 <= j <= n,
            indices@ == start,
            within_width(lists@, prefix_mask@, occupied.len() as int),
            partial_tuple(lists@, start),
            tuple_disjoint(lists@, start, prefix_mask@),
            forall|w: int|
                0 <= w < occupied.len() ==> #[trigger] occupied@[w] == occupancy(
                    lists@,
                    start,
                    prefix_mask@,
                    start.len() as nat,
                    w,
                ),
            forall|u: Seq<usize>|
                full_tuple(lists@, u) && u.take(k as int) == start && #[trigger] u[k as int] < j
                    ==> !tuple_disjoint(lists@, u, prefix_mask@),
        decreases n - j,
    {
        let row = &room[j].logical_mask;
        assert(row@.len() <= occupied.len()) by {
            assert(lists@[k as int]@[j as int].logical_mask@.len() <= occupied.len());
        }
        proof {
            lemma_fits_iff(lists@, start, prefix_mask@, occupied@, row@);
            lemma_push_disjoint(lists@, start, prefix_mask@, j);
        }
        let fits = row_fits(occupied, row);
        let ghost ext = start.push(j);
        if fits {
            let mut next = occupied.clone();
            occupy_row(&mut next, row);
            let mut extended = indices.clone();
            extended.push(j);
            assert(extended@ == ext);
            assert forall|w: int| 0 <= w < next.len() implies #[trigger] next@[w] == occupancy(
                lists@,
                ext,
                prefix_mask@,
                ext.len() as nat,
                w,
            ) by {
                assert(ext.take(k as int) == start);
                assert(start.take(k as int) == start);
                lemma_occupancy_prefix_stable(lists@, ext, start, prefix_mask@, k as nat, w);
                assert(chosen_row(lists@, ext, k as int) == row@);
            }
            assert(partial_tuple(lists@, ext));
            let found = first_disjoint_extension(lists, prefix_mask, &next, &extended);
            match found {
                Some(t) => {
                    assert(t@.take(k as int) == start) by {
                        assert(t@.take(k as int) == t@.take(k + 1).take(k as int));
                        assert(ext.take(k as int) == start);
                    }
                    assert(t@[k as int] == j) by {
                        assert(t@.take(k + 1)[k as int] == t@[k as int]);
                    }
                    assert forall|u: Seq<usize>|
                        full_tuple(lists@, u) && u.take(k as int) == start && tuple_disjoint(
                            lists@,
                            u,
                            prefix_mask@,
                        ) implies lex_le(t@, u) by {
                        if u[k as int] < j {
                        } else if u[k as int] == j {
                            assert(u.take(k + 1) == ext) by {
                                assert(u.take(k + 1) =~= u.take(k as int).push(u[k as int]));
                            }
                        } else {
                            assert(t@.take(k as int) == u.take(k as int));
                            assert(lex_lt(t@, u)) by {
                                assert(t@[k as int] < u[k as int]);
                            }
                        }
                    }
                    return Some(t);
                },
                None => {
                    assert forall|u: Seq<usize>|
                        full_tuple(lists@, u) && u.take(k as int) == start && #[trigger] u[k as int]
                            < j + 1 implies !tuple_disjoint(lists@, u, prefix_mask@) by {
                        if u[k as int] == j {
                            assert(u.take(k + 1) == ext) by {
                                assert(u.take(k + 1) =~= u.take(k as int).push(u[k as int]));
                            }
                        }
                    }
                },
            }
        } else {
            assert(!tuple_disjoint(lists@, ext, prefix_mask@));
            assert forall|u: Seq<usize>|
                full_tuple(lists@, u) && u.take(k as int) == start && #[trigger] u[k as int] < j
                    + 1 implies !tuple_disjoint(lists@, u, prefix_mask@) by {
                if u[k as int] == j {
                    assert(u.take(k + 1) == ext) by {
                        assert(u.take(k + 1) =~= u.take(k as int).push(u[k as int]));
                    }
                    if tuple_disjoint(lists@, u, prefix_mask@) {
                        lemma_take_disjoint(lists@, u, prefix_mask@, k + 1);
                    }
                }
            }
        }
        j += 1;
    }
    assert forall|u: Seq<usize>| full_tuple(lists@, u) && u.take(k as int) == start implies !tuple_disjoint(
        lists@,
        u,
        prefix_mask@,
    ) by {
        assert(u[k as int] < n);
    }
    None
}

/// Width in words of the widest mask (prefix included).
fn mask_width(lists: &[Vec<JointTradeRow>], prefix_mask: &[u64]) -> (width: usize)
    ensures
        within_width(lists@, prefix_mask@, width as int),
{
    let mut width = prefix_mask.len();
    let mut i: usize = 0;
    while i < lists.len()
        invariant
            0 <= i <= lists@.len(),
            prefix_mask@.len() <= width,
            forall|a: int, b: int|
                0 <= a < i && 0 <= b < lists@[a]@.len() ==> #[trigger] lists@[a]@[b].logical_mask@.len()
                    <= width,
        decreases lists@.len() - i,
    {
        let list = &lists[i];
        let mut j: usize = 0;
        while j < list.len()
            invariant
                0 <= i < lists@.len(),
                list == lists@[i as int],
                0 <= j <= list@.len(),
                prefix_mask@.len() <= width,
                forall|a: int, b: int|
                    0 <= a < i && 0 <= b < lists@[a]@.len() ==> #[trigger] lists@[a]@[b].logical_mask@.len()
                        <= width,
                forall|b: int| 0 <= b < j ==> #[trigger] lists@[i as int]@[b].logical_mask@.len() <= width,
            decreases list@.len() - j,
        {
            let len = list[j].logical_mask.len();
            if len > width {
                width = len;
            }
            j += 1;
        }
        i += 1;
    }
    width
}

/// Returns the lexicographically first pairwise-disjoint index tuple.
///
/// Each list must contain the complete row universe for one room under the
/// same response signature and must already be sorted by that room's final
/// comparator. The traversal changes search order only; it does not prune.
pub fn first_mask_disjoint_tuple(
    sorted_lists: &[Vec<JointTradeRow>],
    prefix_mask: &[u64],
) -> (res: Option<Vec<usize>>)
    ensures
        is_first_disjoint_tuple(
            sorted_lists@,
            prefix_mask@,
            match res {
                Some(t) => Some(t@),
                None => None,
            },
        ),
{
    let width = mask_width(sorted_lists, prefix_mask);
    let mut occupied: Vec<u64> = Vec::new();
    let mut w: usize = 0;
    while w < width
        invariant
            0 <= w <= width,
            prefix_mask@.len() <= width,
            occupied@.len() == w,
            forall|v: int| 0 <= v < w ==> #[trigger] occupied@[v] == word_at(prefix_mask@, v),
        decreases width - w,
    {
        if w < prefix_mask.len() {
            occupied.push(prefix_mask[w]);
        } else {
            occupied.push(0);
        }
        w += 1;
    }
    let indices: Vec<usize> = Vec::new();
    let ghost empty = indices@;
    assert forall|v: int| 0 <= v < occupied.len() implies #[trigger] occupied@[v] == occupancy(
        sorted_lists@,
        empty,
        prefix_mask@,
        0,
        v,
    ) by {}
    let res = first_disjoint_extension(sorted_lists, prefix_mask, &occupied, &indices);
    proof {
        assert forall|u: Seq<usize>| #![trigger full_tuple(sorted_lists@, u)] u.take(0) == empty by {
            assert(u.take(0) =~= empty);
        }
    }
    res
}

/// Checks a complete index tuple in room order against a running occupancy:
/// `true` when every chosen row is disjoint from the prefix mask and from the
/// rows chosen before it.  Rooms past the shorter of `lists` and `indices` are
/// not looked at.
pub fn tuple_masks_are_disjoint(
    lists: &[Vec<JointTradeRow>],
    indices: &[usize],
    prefix_mask: &[u64],
) -> (res: bool)
    requires
        forall|i: int|
            0 <= i < lists@.len() && i < indices@.len() ==> #[trigger] indices@[i] < lists@[i]@.len(),
    ensures
        res == tuple_disjoint(
            lists@,
            indices@.take(min_int(lists@.len() as int, indices@.len() as int)),
            prefix_mask@,
        ),
{
    let width = mask_width(lists, prefix_mask);
    let count = if lists.len() < indices.len() {
        lists.len()
    } else {
        indices.len()
    };
    let ghost all = indices@.take(count as int);
    assert(all == indices@.take(min_int(lists@.len() as int, indices@.len() as int)));
    let mut occupied: Vec<u64> = Vec::new();
    let mut w: usize = 0;
    while w < width
        invariant
            0 <= w <= width,
            prefix_mask@.len() <= width,
            occupied@.len() == w,
            forall|v: int| 0 <= v < w ==> #[trigger] occupied@[v] == word_at(prefix_mask@, v),
        decreases width - w,
    {
        if w < prefix_mask.len() {
            occupied.push(prefix_mask[w]);
        } else {
            occupied.push(0);
        }
        w += 1;
    }
    let mut i: usize = 0;
    while i < count
        invariant
            count <= lists@.len(),
            count <= indices@.len(),
            all == indices@.take(count as int),
            all == indices@.take(min_int(lists@.len() as int, indices@.len() as int)),
            0 <= i <= count,
            forall|a: int| 0 <= a < count ==> #[trigger] indices@[a] < lists@[a]@.len(),
            within_width(lists@, prefix_mask@, width as int),
            occupied@.len() == width,
            tuple_disjoint(lists@, all.take(i as int), prefix_mask@),
            forall|v: int|
                0 <= v < occupied.len() ==> #[trigger] occupied@[v] == occupancy(
                    lists@,
                    all,
                    prefix_mask@,
                    i as nat,
                    v,
                ),
        decreases count - i,
    {
        let row = &lists[i][indices[i]].logical_mask;
        let ghost cur = all.take(i as int);
        assert(row@.len() <= width) by {
            assert(lists@[i as int]@[indices@[i as int] as int].logical_mask@.len() <= width);
        }
        assert(chosen_row(lists@, all, i as int) == row@);
        proof {
            assert forall|v: int| 0 <= v < occupied.len() implies #[trigger] occupied@[v]
                == occupancy(lists@, cur, prefix_mask@, cur.len() as nat, v) by {
                assert(all.take(i as int) == cur.take(i as int));
                lemma_occupancy_prefix_stable(lists@, all, cur, prefix_mask@, i as nat, v);
            }
            assert forall|a: int| 0 <= a < cur.len() implies chosen_row(lists@, cur, a)
                == chosen_row(lists@, all, a) by {}
            lemma_fits_iff(lists@, cur, prefix_mask@, occupied@, row@);
            lemma_push_disjoint(lists@, cur, prefix_mask@, indices@[i as int]);
            assert(all.take(i + 1) =~= cur.push(indices@[i as int]));
        }
        if !row_fits(&occupied, row) {
            proof {
                assert(!tuple_disjoint(lists@, all.take(i + 1), prefix_mask@));
                if tuple_disjoint(lists@, all, prefix_mask@) {
                    lemma_take_disjoint(lists@, all, prefix_mask@, i + 1);
                }
            }
            return false;
        }
        let ghost before = occupied@;
        occupy_row(&mut occupied, row);
        i += 1;
    }
    assert(all.take(count as int) == all);
    true
}

} // verus!
