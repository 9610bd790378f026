//! Text helpers shared by the name lookups and the table readers.

use vstd::prelude::*;

verus! {

/// A Unicode white-space character (the `White_Space` property, which
/// `char::is_whitespace` and `str::trim` go by): the 25 code points U+0009 to
/// U+000D, U+0020, U+0085, U+00A0, U+1680, U+2000 to U+200A, U+2028,
/// U+2029, U+202F, U+205F and U+3000.
pub open spec fn is_white_space(c: char) -> bool {
    ||| '\u{9}' <= c <= '\u{d}'
    ||| c == ' '
    ||| c == '\u{85}'
    ||| c == '\u{a0}'
    ||| c == '\u{1680}'
    ||| '\u{2000}' <= c <= '\u{200a}'
    ||| c == '\u{2028}'
    ||| c == '\u{2029}'
    ||| c == '\u{202f}'
    ||| c == '\u{205f}'
    ||| c == '\u{3000}'
}

fn white_space(c: char) -> (res: bool)
    ensures
        res == is_white_space(c),
{
    ('\u{9}' <= c && c <= '\u{d}') || c == ' ' || c == '\u{85}' || c == '\u{a0}' || c == '\u{1680}' || ('\u{2000}'
        <= c && c <= '\u{200a}') || c == '\u{2028}' || c == '\u{2029}' || c == '\u{202f}' || c == '\u{205f}' || c
        == '\u{3000}'
}

/// Number of white-space characters `s` starts with.
pub open spec fn leading_white(s: Seq<char>) -> int
    decreases s.len(),
{
    if s.len() == 0 || !is_white_space(s[0]) {
        0
    } else {
        1 + leading_white(s.drop_first())
    }
}

/// Number of white-space characters `s` ends with.
pub open spec fn trailing_white(s: Seq<char>) -> int
    decreases s.len(),
{
    if s.len() == 0 || !is_white_space(s.last()) {
        0
    } else {
        1 + trailing_white(s.drop_last())
    }
}

/// `s` without its leading and trailing white space (what `str::trim` gives).
pub open spec fn spec_trim(s: Seq<char>) -> Seq<char> {
    let t = s.skip(leading_white(s));
    t.take(t.len() - trailing_white(t))
}

/// `piece` is a contiguous part of `s`.
pub open spec fn is_piece_of(piece: Seq<char>, s: Seq<char>) -> bool {
    exists|a: int, b: int| 0 <= a <= b <= s.len() && piece == #[trigger] s.subrange(a, b)
}

/// `s` without its leading and trailing white space, as an owned string.
pub fn trim_owned(s: &str) -> (res: String)
    ensures
        res@ == spec_trim(s@),
        is_piece_of(res@, s@),
{
    let n = s.unicode_len();
    let mut i: usize = 0;
    assert(s@.skip(0) =~= s@);
    while i < n && white_space(s.get_char(i))
        invariant
            0 <= i <= n,
            n == s@.len(),
            leading_white(s@) == i + leading_white(s@.skip(i as int)),
        decreases n - i,
    {
        assert(s@.skip(i as int)[0] == s@[i as int]);
        assert(s@.skip(i as int).drop_first() =~= s@.skip(i + 1));
        i += 1;
    }
    proof {
        if i < n {
            assert(s@.skip(i as int)[0] == s@[i as int]);
        }
        assert(leading_white(s@.skip(i as int)) == 0);
    }
    let ghost t = s@.skip(i as int);
    let mut j: usize = n;
    assert(s@.subrange(i as int, n as int) =~= t);
    while j > i && white_space(s.get_char(j - 1))
        invariant
            i <= j <= n,
            n == s@.len(),
            t == s@.skip(i as int),
            trailing_white(t) == (n - j) + trailing_white(s@.subrange(i as int, j as int)),
        decreases j,
    {
        assert(s@.subrange(i as int, j as int).last() == s@[j - 1]);
        assert(s@.subrange(i as int, j as int).drop_last() =~= s@.subrange(i as int, j - 1));
        j -= 1;
    }
    proof {
        if j > i {
            assert(s@.subrange(i as int, j as int).last() == s@[j - 1]);
        }
        assert(trailing_white(s@.subrange(i as int, j as int)) == 0);
        assert(t.take(t.len() - trailing_white(t)) =~= s@.subrange(i as int, j as int));
    }
    String::from_str(s.substring_char(i, j))
}

/// `s` begins with `prefix`.
pub open spec fn seq_starts_with(s: Seq<char>, prefix: Seq<char>) -> bool {
    prefix.len() <= s.len() && s.subrange(0, prefix.len() as int) == prefix
}

/// Whether `s` begins with `prefix`.
pub fn starts_with(s: &str, prefix: &str) -> (res: bool)
    ensures
        res == seq_starts_with(s@, prefix@),
{
    let n = s.unicode_len();
    let m = prefix.unicode_len();
    if m > n {
        return false;
    }
    let mut i: usize = 0;
    while i < m
        invariant
            0 <= i <= m <= n,
            n == s@.len(),
            m == prefix@.len(),
            forall|k: int| 0 <= k < i ==> s@[k] == prefix@[k],
        decreases m - i,
    {
        if s.get_char(i) != prefix.get_char(i) {
            assert(s@.subrange(0, m as int)[i as int] != prefix@[i as int]);
            return false;
        }
        i += 1;
    }
    assert(s@.subrange(0, m as int) =~= prefix@);
    true
}

/// Value of a non-empty run of ASCII decimal digits; `None` when `s` is empty
/// or holds any other character.
pub open spec fn decimal_value(s: Seq<char>) -> Option<int>
    decreases s.len(),
{
    if s.len() == 0 {
        None
    } else if !('0' <= s.last() && s.last() <= '9') {
        None
    } else if s.len() == 1 {
        Some((s.last() as int) - ('0' as int))
    } else {
        match decimal_value(s.drop_last()) {
            Some(v) => Some(v * 10 + ((s.last() as int) - ('0' as int))),
            None => None,
        }
    }
}

/// What `str::parse` gives for an unsigned integer type whose largest value
/// is `max`: an optional leading `+`, then one or more decimal digits whose
/// value does not exceed `max`; `None` for anything else.
pub open spec fn parse_unsigned(s: Seq<char>, max: int) -> Option<int> {
    let digits = if s.len() > 0 && s[0] == '+' {
        s.drop_first()
    } else {
        s
    };
    match decimal_value(digits) {
        Some(v) => if v <= max {
            Some(v)
        } else {
            None
        },
        None => None,
    }
}

/// `v`, or `cap` when `v` reaches it.
pub open spec fn capped(v: int, cap: int) -> int {
    if v < cap {
        v
    } else {
        cap
    }
}

proof fn lemma_decimal_nonneg(s: Seq<char>)
    ensures
        decimal_value(s) matches Some(v) ==> v >= 0,
    decreases s.len(),
{
    if s.len() > 1 {
        lemma_decimal_nonneg(s.drop_last());
    }
}

/// Parses an unsigned decimal number not larger than `max`, with the rules of
/// `str::parse` for unsigned integers.
pub fn parse_decimal(s: &str, max: u64) -> (res: Option<u64>)
    requires
        max < u64::MAX / 16,
    ensures
        match res {
            Some(v) => parse_unsigned(s@, max as int) == Some(v as int),
            None => parse_unsigned(s@, max as int) is None,
        },
{
    let n = s.unicode_len();
    let mut start: usize = 0;
    if n > 0 && s.get_char(0) == '+' {
        start = 1;
    }
    let ghost digits = if s@.len() > 0 && s@[0] == '+' {
        s@.drop_first()
    } else {
        s@
    };
    assert(digits == s@.subrange(start as int, n as int));
    if start == n {
        return None;
    }
    let cap = max + 1;
    let mut acc: u64 = 0;
    let mut i: usize = start;
    while i < n
        invariant
            n == s@.len(),
            start <= i <= n,
            start < n,
            cap == max + 1,
            max < u64::MAX / 16,
            digits == s@.subrange(start as int, n as int),
            digits == (if s@.len() > 0 && s@[0] == '+' {
                s@.drop_first()
            } else {
                s@
            }),
            i == start ==> acc == 0,
            i > start ==> decimal_value(s@.subrange(start as int, i as int)) is Some,
            i > start ==> acc == capped(decimal_value(s@.subrange(start as int, i as int))->0, cap as int),
        decreases n - i,
    {
        let c = s.get_char(i);
        let ghost prev = s@.subrange(start as int, i as int);
        let ghost next = s@.subrange(start as int, i + 1);
        assert(next.drop_last() == prev);
        assert(next.last() == c);
        if !('0' <= c && c <= '9') {
            proof {
                assert forall|k: int| i < k <= n implies decimal_value(s@.subrange(start as int, k))
                    is None by {
                    lemma_invalid_stays_invalid(s@, start as int, i as int, k);
                }
                assert(decimal_value(s@.subrange(start as int, n as int)) is None);
                assert(decimal_value(digits) is None);
                assert(parse_unsigned(s@, max as int) is None);
            }
            return None;
        }
        let d = (c as u64) - ('0' as u64);
        let stepped = acc * 10 + d;
        if stepped < cap {
            acc = stepped;
        } else {
            acc = cap;
        }
        proof {
            lemma_decimal_nonneg(prev);
        }
        i += 1;
    }
    assert(s@.subrange(start as int, n as int) == digits);
    if acc < cap {
        Some(acc)
    } else {
        None
    }
}

/// Once a prefix holds a non-digit, every longer prefix is no number either.
proof fn lemma_invalid_stays_invalid(s: Seq<char>, start: int, i: int, k: int)
    requires
        0 <= start <= i < k <= s.len(),
        !('0' <= s[i] && s[i] <= '9'),
    ensures
        decimal_value(s.subrange(start, k)) is None,
    decreases k - i,
{
    let t = s.subrange(start, k);
    if k == i + 1 {
        assert(t.last() == s[i]);
    } else {
        lemma_invalid_stays_invalid(s, start, i, k - 1);
        assert(t.drop_last() == s.subrange(start, k - 1));
    }
}

/// Two strings hold the same characters.
pub fn str_eq(a: &str, b: &str) -> (res: bool)
    ensures
        res == (a@ == b@),
{
    String::from_str(a) == String::from_str(b)
}

/// The names of a list of strings.
pub open spec fn views(v: Seq<String>) -> Seq<Seq<char>> {
    v.map_values(|s: String| s@)
}

/// `name` occurs in `v`.
pub open spec fn has_name(v: Seq<String>, name: Seq<char>) -> bool {
    exists|i: int| 0 <= i < v.len() && #[trigger] v[i]@ == name
}

/// A name occurs in a list with one more element when it occurs in the list
/// or is that element.
pub proof fn lemma_has_name_push(v: Seq<String>, x: String, n: Seq<char>)
    ensures
        has_name(v.push(x), n) <==> (has_name(v, n) || x@ == n),
{
    if has_name(v, n) {
        let k = choose|k: int| 0 <= k < v.len() && #[trigger] v[k]@ == n;
        assert(v.push(x)[k]@ == n);
    }
    if x@ == n {
        assert(v.push(x)[v.len() as int]@ == n);
    }
    if has_name(v.push(x), n) {
        let k = choose|k: int| 0 <= k < v.push(x).len() && #[trigger] v.push(x)[k]@ == n;
        if k < v.len() {
            assert(v[k]@ == n);
        }
    }
}

/// A name is in two lists joined exactly when it is in one of them.
pub proof fn lemma_has_name_concat(a: Seq<String>, b: Seq<String>, n: Seq<char>)
    ensures
        has_name(a + b, n) <==> (has_name(a, n) || has_name(b, n)),
{
    if has_name(a + b, n) {
        let k = choose|k: int| 0 <= k < (a + b).len() && #[trigger] (a + b)[k]@ == n;
        if k < a.len() {
            assert(a[k]@ == n);
        } else {
            assert(b[k - a.len()]@ == n);
        }
    }
    if has_name(a, n) {
        let k = choose|k: int| 0 <= k < a.len() && #[trigger] a[k]@ == n;
        assert((a + b)[k]@ == n);
    }
    if has_name(b, n) {
        let k = choose|k: int| 0 <= k < b.len() && #[trigger] b[k]@ == n;
        assert((a + b)[k + a.len()]@ == n);
    }
}

/// Whether `name` occurs in `v`.
pub fn contains_name(v: &Vec<String>, name: &str) -> (res: bool)
    ensures
        res == has_name(v@, name@),
{
    let target = String::from_str(name);
    let mut i: usize = 0;
    while i < v.len()
        invariant
            0 <= i <= v@.len(),
            target@ == name@,
            forall|j: int| 0 <= j < i ==> #[trigger] v@[j]@ != name@,
        decreases v@.len() - i,
    {
        if v[i] == target {
            return true;
        }
        i += 1;
    }
    false
}

/// A copy of a list of strings.
pub fn clone_strings(v: &Vec<String>) -> (res: Vec<String>)
    ensures
        res@ == v@,
{
    let mut out: Vec<String> = Vec::new();
    let mut i: usize = 0;
    while i < v.len()
        invariant
            0 <= i <= v@.len(),
            out@ == v@.take(i as int),
        decreases v@.len() - i,
    {
        out.push(v[i].clone());
        assert(out@ =~= v@.take(i + 1));
        i += 1;
    }
    assert(v@.take(v@.len() as int) =~= v@);
    out
}

/// Appends `name` unless it already occurs.
pub fn push_unique(v: &mut Vec<String>, name: String)
    ensures
        has_name(old(v)@, name@) ==> final(v)@ == old(v)@,
        !has_name(old(v)@, name@) ==> final(v)@ == old(v)@.push(name),
        forall|n: Seq<char>| has_name(final(v)@, n) <==> (has_name(old(v)@, n) || n == name@),
        distinct_views(old(v)@) ==> distinct_views(final(v)@),
{
    let ghost before = v@;
    if !contains_name(v, name.as_str()) {
        let ghost x = name;
        v.push(name);
        proof {
            assert forall|n: Seq<char>| has_name(v@, n) <==> (has_name(before, n) || n == x@) by {
                lemma_has_name_push(before, x, n);
            }
            if distinct_views(before) {
                assert forall|a: int, b: int| 0 <= a < b < v@.len() implies #[trigger] v@[a]@ != #[trigger] v@[b]@ by {
                    if b == before.len() {
                        if before[a]@ == x@ {
                            assert(has_name(before, x@));
                        }
                    } else {
                        assert(v@[a] == before[a] && v@[b] == before[b]);
                    }
                }
            }
        }
    }
}

/// No name occurs twice in the list.
pub open spec fn distinct_views(v: Seq<String>) -> bool {
    forall|a: int, b: int| 0 <= a < b < v.len() ==> #[trigger] v[a]@ != #[trigger] v[b]@
}

/// `a` sorts before `b`: code point by code point, a proper prefix first
/// (the order of `String`'s `Ord`, which compares UTF-8 bytes).
pub open spec fn seq_lt(a: Seq<char>, b: Seq<char>) -> bool
    decreases a.len(),
{
    if a.len() == 0 {
        b.len() > 0
    } else if b.len() == 0 {
        false
    } else if a[0] != b[0] {
        (a[0] as int) < (b[0] as int)
    } else {
        seq_lt(a.drop_first(), b.drop_first())
    }
}

pub proof fn lemma_seq_lt_irreflexive(a: Seq<char>)
    ensures
        !seq_lt(a, a),
    decreases a.len(),
{
    if a.len() > 0 {
        lemma_seq_lt_irreflexive(a.drop_first());
    }
}

pub proof fn lemma_seq_lt_transitive(a: Seq<char>, b: Seq<char>, c: Seq<char>)
    requires
        seq_lt(a, b),
        seq_lt(b, c),
    ensures
        seq_lt(a, c),
    decreases a.len(),
{
    if a.len() > 0 && b.len() > 0 && c.len() > 0 {
        if a[0] == b[0] && b[0] == c[0] {
            lemma_seq_lt_transitive(a.drop_first(), b.drop_first(), c.drop_first());
        }
    }
}

pub proof fn lemma_seq_lt_total(a: Seq<char>, b: Seq<char>)
    ensures
        a == b || seq_lt(a, b) || seq_lt(b, a),
    decreases a.len(),
{
    if a.len() > 0 && b.len() > 0 {
        if a[0] == b[0] {
            lemma_seq_lt_total(a.drop_first(), b.drop_first());
            if a.drop_first() == b.drop_first() {
                assert(a =~= seq![a[0]] + a.drop_first());
                assert(b =~= seq![b[0]] + b.drop_first());
            }
        } else {
            assert((a[0] as int) != (b[0] as int));
        }
    } else if a.len() == 0 && b.len() == 0 {
        assert(a =~= b);
    }
}

pub proof fn lemma_seq_lt_asymmetric(a: Seq<char>, b: Seq<char>)
    requires
        seq_lt(a, b),
    ensures
        !seq_lt(b, a),
{
    if seq_lt(b, a) {
        lemma_seq_lt_transitive(a, b, a);
        lemma_seq_lt_irreflexive(a);
    }
}

/// Whether `a` sorts before `b`.
pub fn str_lt(a: &str, b: &str) -> (res: bool)
    ensures
        res == seq_lt(a@, b@),
{
    let na = a.unicode_len();
    let nb = b.unicode_len();
    let mut i: usize = 0;
    assert(a@.skip(0) == a@);
    assert(b@.skip(0) == b@);
    while i < na && i < nb
        invariant
            na == a@.len(),
            nb == b@.len(),
            0 <= i <= na,
            i <= nb,
            seq_lt(a@, b@) == seq_lt(a@.skip(i as int), b@.skip(i as int)),
        decreases na - i,
    {
        let ca = a.get_char(i);
        let cb = b.get_char(i);
        assert(a@.skip(i as int)[0] == ca);
        assert(b@.skip(i as int)[0] == cb);
        assert(a@.skip(i as int).drop_first() == a@.skip(i + 1));
        assert(b@.skip(i as int).drop_first() == b@.skip(i + 1));
        if ca != cb {
            return (ca as u32) < (cb as u32);
        }
        i += 1;
    }
    proof {
        if i == 0 {
            assert(a@.skip(0) == a@);
            assert(b@.skip(0) == b@);
        }
    }
    i == na && i < nb
}

/// Strictly increasing names, hence no name twice.
pub open spec fn strictly_sorted(v: Seq<String>) -> bool {
    forall|a: int, b: int| 0 <= a < b < v.len() ==> seq_lt(#[trigger] v[a]@, #[trigger] v[b]@)
}

/// Adds `name` to a strictly sorted list, unless it is already there.
pub fn insert_sorted_unique(v: &mut Vec<String>, name: String)
    requires
        strictly_sorted(old(v)@),
    ensures
        strictly_sorted(final(v)@),
        forall|n: Seq<char>| has_name(final(v)@, n) <==> (has_name(old(v)@, n) || n == name@),
        final(v)@.len() <= old(v)@.len() + 1,
        has_name(old(v)@, name@) ==> final(v)@ == old(v)@,
        !has_name(old(v)@, name@) ==> final(v)@.len() == old(v)@.len() + 1,
{
    let mut i: usize = 0;
    let mut done = false;
    while !done && i < v.len()
        invariant
            0 <= i <= v@.len(),
            v@ == old(v)@,
            strictly_sorted(v@),
            forall|j: int| 0 <= j < i ==> seq_lt(#[trigger] v@[j]@, name@),
            done ==> i < v@.len() && !seq_lt(v@[i as int]@, name@),
        decreases v@.len() - i + (if done {
            0int
        } else {
            1int
        }),
    {
        if str_lt(v[i].as_str(), name.as_str()) {
            i += 1;
        } else {
            done = true;
        }
    }
    if i < v.len() && v[i] == name {
        return;
    }
    let ghost before = v@;
    proof {
        if i < before.len() {
            lemma_seq_lt_total(before[i as int]@, name@);
        }
        assert forall|t: int| 0 <= t < before.len() implies #[trigger] before[t]@ != name@ by {
            if t < i {
                lemma_seq_lt_irreflexive(name@);
            } else {
                if t > i {
                    lemma_seq_lt_transitive(name@, before[i as int]@, before[t]@);
                }
                lemma_seq_lt_irreflexive(name@);
            }
        }
    }
    v.insert(i, name);
    proof {
        let after = v@;
        assert forall|a: int, b: int| 0 <= a < b < after.len() implies seq_lt(
            #[trigger] after[a]@,
            #[trigger] after[b]@,
        ) by {
            if b < i {
                assert(after[a] == before[a] && after[b] == before[b]);
            } else if b == i {
                assert(after[a] == before[a]);
            } else if a < i {
                assert(after[a] == before[a] && after[b] == before[b - 1]);
                assert(seq_lt(before[a]@, name@));
                assert(seq_lt(name@, before[i as int]@));
                if b - 1 > i {
                    lemma_seq_lt_transitive(name@, before[i as int]@, before[b - 1]@);
                }
                lemma_seq_lt_transitive(before[a]@, name@, before[b - 1]@);
            } else if a == i {
                assert(after[b] == before[b - 1]);
                if b - 1 > i {
                    lemma_seq_lt_transitive(name@, before[i as int]@, before[b - 1]@);
                }
            } else {
                assert(after[a] == before[a - 1] && after[b] == before[b - 1]);
            }
        }
        assert forall|n: Seq<char>| has_name(after, n) <==> (has_name(before, n) || n == name@) by {
            if has_name(after, n) {
                let t = choose|t: int| 0 <= t < after.len() && #[trigger] after[t]@ == n;
                if t < i {
                    assert(before[t]@ == n);
                } else if t > i {
                    assert(before[t - 1]@ == n);
                }
            }
            if has_name(before, n) {
                let t = choose|t: int| 0 <= t < before.len() && #[trigger] before[t]@ == n;
                if t < i {
                    assert(after[t]@ == n);
                } else {
                    assert(after[t + 1]@ == n);
                }
            }
            if n == name@ {
                assert(after[i as int]@ == n);
            }
        }
    }
}

} // verus!
