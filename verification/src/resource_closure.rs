//! Reverse resource closures: for each facility and response field, the
//! resources its atoms read, every resource that can flow into them through
//! producing and converting atoms or registry conversions, and the edges of
//! that flow.

use vstd::prelude::*;

use crate::response_dependency::{
    closure_response_field, spec_closure_response_field, ResourceClosureEdge, ResourceClosureEdgeKind,
    ResourceReverseClosure, ResponseDependencyRow, ResponseField,
};
use crate::text::{
    clone_strings, contains_name, has_name, insert_sorted_unique, lemma_seq_lt_asymmetric, lemma_seq_lt_irreflexive,
    lemma_seq_lt_total, lemma_seq_lt_transitive, seq_lt, str_eq, str_lt, strictly_sorted, views,
};

verus! {

// ── the order of closure edges ──

/// Order of the edge kinds: produce, convert, registry conversion.
pub open spec fn kind_rank(k: ResourceClosureEdgeKind) -> int {
    match k {
        ResourceClosureEdgeKind::AtomProduce => 0,
        ResourceClosureEdgeKind::AtomConvert => 1,
        ResourceClosureEdgeKind::RegistryConversion => 2,
    }
}

/// Two optional names are equal.
pub open spec fn opt_eq(a: Option<String>, b: Option<String>) -> bool {
    match (a, b) {
        (None, None) => true,
        (Some(x), Some(y)) => x@ == y@,
        _ => false,
    }
}

/// `a` sorts before `b`: none first, then names in code-point order.
pub open spec fn opt_lt(a: Option<String>, b: Option<String>) -> bool {
    match (a, b) {
        (None, Some(_)) => true,
        (Some(x), Some(y)) => seq_lt(x@, y@),
        _ => false,
    }
}

/// `a` sorts before `b`: none first, then by value.
pub open spec fn opt_index_lt(a: Option<usize>, b: Option<usize>) -> bool {
    match (a, b) {
        (None, Some(_)) => true,
        (Some(x), Some(y)) => x < y,
        _ => false,
    }
}

/// Two edges have the same key (kind, from, to, skill, atom, provider,
/// converter).
pub open spec fn same_key(a: ResourceClosureEdge, b: ResourceClosureEdge) -> bool {
    &&& a.kind == b.kind
    &&& opt_eq(a.from, b.from)
    &&& a.to@ == b.to@
    &&& opt_eq(a.skill_id, b.skill_id)
    &&& a.atom_index == b.atom_index
    &&& opt_eq(a.provider_buff_id, b.provider_buff_id)
    &&& opt_eq(a.converter_buff_id, b.converter_buff_id)
}

/// Edge `a` sorts before `b`: by kind, from, to, skill, atom, provider and
/// converter, in that order.
pub open spec fn edge_lt(a: ResourceClosureEdge, b: ResourceClosureEdge) -> bool {
    if a.kind != b.kind {
        kind_rank(a.kind) < kind_rank(b.kind)
    } else if !opt_eq(a.from, b.from) {
        opt_lt(a.from, b.from)
    } else if a.to@ != b.to@ {
        seq_lt(a.to@, b.to@)
    } else if !opt_eq(a.skill_id, b.skill_id) {
        opt_lt(a.skill_id, b.skill_id)
    } else if a.atom_index != b.atom_index {
        opt_index_lt(a.atom_index, b.atom_index)
    } else if !opt_eq(a.provider_buff_id, b.provider_buff_id) {
        opt_lt(a.provider_buff_id, b.provider_buff_id)
    } else {
        opt_lt(a.converter_buff_id, b.converter_buff_id)
    }
}

/// Edges strictly increasing by key.
pub open spec fn edges_sorted(v: Seq<ResourceClosureEdge>) -> bool {
    forall|i: int, j: int| 0 <= i < j < v.len() ==> edge_lt(#[trigger] v[i], #[trigger] v[j])
}

proof fn lemma_opt_facts(a: Option<String>, b: Option<String>, c: Option<String>)
    ensures
        !opt_lt(a, a),
        opt_lt(a, b) ==> !opt_eq(a, b) && !opt_lt(b, a),
        opt_lt(a, b) && opt_lt(b, c) ==> opt_lt(a, c),
        opt_lt(a, b) && opt_eq(b, c) ==> opt_lt(a, c),
        opt_eq(a, b) && opt_lt(b, c) ==> opt_lt(a, c),
        opt_eq(a, b) && opt_eq(b, c) ==> opt_eq(a, c),
        opt_eq(a, b) ==> opt_eq(b, a),
        opt_eq(a, a),
        opt_eq(a, b) || opt_lt(a, b) || opt_lt(b, a),
{
    if let Some(x) = a {
        lemma_seq_lt_irreflexive(x@);
        if let Some(y) = b {
            lemma_seq_lt_total(x@, y@);
            if seq_lt(x@, y@) {
                lemma_seq_lt_asymmetric(x@, y@);
            }
            if let Some(z) = c {
                if seq_lt(x@, y@) && seq_lt(y@, z@) {
                    lemma_seq_lt_transitive(x@, y@, z@);
                }
            }
        }
    }
}

/// Edge order facts: irreflexive, asymmetric, transitive, and total up to
/// equal keys.
pub proof fn lemma_edge_order(a: ResourceClosureEdge, b: ResourceClosureEdge, c: ResourceClosureEdge)
    ensures
        !edge_lt(a, a),
        edge_lt(a, b) ==> !edge_lt(b, a) && !same_key(a, b),
        edge_lt(a, b) && edge_lt(b, c) ==> edge_lt(a, c),
        same_key(a, b) || edge_lt(a, b) || edge_lt(b, a),
        same_key(a, b) && same_key(b, c) ==> same_key(a, c),
        same_key(a, b) ==> same_key(b, a),
        same_key(a, a),
        same_key(a, b) && edge_lt(b, c) ==> edge_lt(a, c),
        edge_lt(a, b) && same_key(b, c) ==> edge_lt(a, c),
{
    lemma_opt_facts(a.from, b.from, c.from);
    lemma_opt_facts(b.from, a.from, c.from);
    lemma_opt_facts(a.skill_id, b.skill_id, c.skill_id);
    lemma_opt_facts(b.skill_id, a.skill_id, c.skill_id);
    lemma_opt_facts(a.provider_buff_id, b.provider_buff_id, c.provider_buff_id);
    lemma_opt_facts(b.provider_buff_id, a.provider_buff_id, c.provider_buff_id);
    lemma_opt_facts(a.converter_buff_id, b.converter_buff_id, c.converter_buff_id);
    lemma_opt_facts(b.converter_buff_id, a.converter_buff_id, c.converter_buff_id);
    lemma_seq_lt_irreflexive(a.to@);
    lemma_seq_lt_total(a.to@, b.to@);
    if seq_lt(a.to@, b.to@) {
        lemma_seq_lt_asymmetric(a.to@, b.to@);
        if seq_lt(b.to@, c.to@) {
            lemma_seq_lt_transitive(a.to@, b.to@, c.to@);
        }
    }
}

fn opt_str_eq(a: &Option<String>, b: &Option<String>) -> (res: bool)
    ensures
        res == opt_eq(*a, *b),
{
    match (a, b) {
        (None, None) => true,
        (Some(x), Some(y)) => str_eq(x.as_str(), y.as_str()),
        _ => false,
    }
}

fn opt_str_lt(a: &Option<String>, b: &Option<String>) -> (res: bool)
    ensures
        res == opt_lt(*a, *b),
{
    match (a, b) {
        (None, Some(_)) => true,
        (Some(x), Some(y)) => str_lt(x.as_str(), y.as_str()),
        _ => false,
    }
}

fn rank_of(k: ResourceClosureEdgeKind) -> (res: u8)
    ensures
        res as int == kind_rank(k),
{
    match k {
        ResourceClosureEdgeKind::AtomProduce => 0,
        ResourceClosureEdgeKind::AtomConvert => 1,
        ResourceClosureEdgeKind::RegistryConversion => 2,
    }
}

/// Whether edge `a` sorts before `b`.
fn edge_before(a: &ResourceClosureEdge, b: &ResourceClosureEdge) -> (res: bool)
    ensures
        res == edge_lt(*a, *b),
{
    let ra = rank_of(a.kind);
    let rb = rank_of(b.kind);
    if ra != rb {
        return ra < rb;
    }
    assert(a.kind == b.kind);
    if !opt_str_eq(&a.from, &b.from) {
        return opt_str_lt(&a.from, &b.from);
    }
    if !str_eq(a.to.as_str(), b.to.as_str()) {
        return str_lt(a.to.as_str(), b.to.as_str());
    }
    if !opt_str_eq(&a.skill_id, &b.skill_id) {
        return opt_str_lt(&a.skill_id, &b.skill_id);
    }
    let ai = a.atom_index;
    let bi = b.atom_index;
    let same_index = match (ai, bi) {
        (None, None) => true,
        (Some(x), Some(y)) => x == y,
        _ => false,
    };
    if !same_index {
        return match (ai, bi) {
            (None, Some(_)) => true,
            (Some(x), Some(y)) => x < y,
            _ => false,
        };
    }
    if !opt_str_eq(&a.provider_buff_id, &b.provider_buff_id) {
        return opt_str_lt(&a.provider_buff_id, &b.provider_buff_id);
    }
    opt_str_lt(&a.converter_buff_id, &b.converter_buff_id)
}

/// Whether edges `a` and `b` have the same key.
fn edge_same_key(a: &ResourceClosureEdge, b: &ResourceClosureEdge) -> (res: bool)
    ensures
        res == same_key(*a, *b),
{
    let same_index = match (a.atom_index, b.atom_index) {
        (None, None) => true,
        (Some(x), Some(y)) => x == y,
        _ => false,
    };
    rank_of(a.kind) == rank_of(b.kind) && opt_str_eq(&a.from, &b.from) && str_eq(a.to.as_str(), b.to.as_str())
        && opt_str_eq(&a.skill_id, &b.skill_id) && same_index && opt_str_eq(
        &a.provider_buff_id,
        &b.provider_buff_id,
    ) && opt_str_eq(&a.converter_buff_id, &b.converter_buff_id)
}

/// Some edge of `v` has the key of `e`.
pub open spec fn has_key(v: Seq<ResourceClosureEdge>, e: ResourceClosureEdge) -> bool {
    exists|i: int| 0 <= i < v.len() && same_key(#[trigger] v[i], e)
}

/// Adds `e` at its place by key unless an edge with its key is present (the
/// first edge of a key is kept).
fn insert_edge(v: &mut Vec<ResourceClosureEdge>, e: ResourceClosureEdge)
    requires
        edges_sorted(old(v)@),
    ensures
        edges_sorted(final(v)@),
        has_key(old(v)@, e) ==> final(v)@ == old(v)@,
        !has_key(old(v)@, e) ==> exists|p: int| 0 <= p <= old(v)@.len() && final(v)@ == old(v)@.insert(p, e),
{
    let mut i: usize = 0;
    let mut done = false;
    while !done && i < v.len()
        invariant
            0 <= i <= v@.len(),
            v@ == old(v)@,
            edges_sorted(v@),
            forall|j: int| 0 <= j < i ==> edge_lt(#[trigger] v@[j], e),
            done ==> i < v@.len() && !edge_lt(v@[i as int], e),
        decreases v@.len() - i + (if done {
            0int
        } else {
            1int
        }),
    {
        if edge_before(&v[i], &e) {
            i += 1;
        } else {
            done = true;
        }
    }
    let ghost before = v@;
    if i < v.len() && edge_same_key(&v[i], &e) {
        return;
    }
    proof {
        if i < before.len() {
            lemma_edge_order(before[i as int], e, e);
            assert(edge_lt(e, before[i as int]));
        }
        assert forall|j: int| 0 <= j < before.len() implies !same_key(#[trigger] before[j], e) by {
            lemma_edge_order(before[j], e, e);
            if j < i {
                assert(edge_lt(before[j], e));
            } else if j > i {
                lemma_edge_order(e, before[i as int], before[j]);
                assert(edge_lt(before[i as int], before[j]));
                assert(edge_lt(e, before[j]));
                lemma_edge_order(e, before[j], e);
            }
        }
    }
    v.insert(i, e);
    proof {
        let after = v@;
        assert(after == before.insert(i as int, e));
        assert forall|a: int, b: int| 0 <= a < b < after.len() implies edge_lt(#[trigger] after[a], #[trigger] after[b]) by {
            if b < i {
                assert(after[a] == before[a] && after[b] == before[b]);
            } else if b == i {
                assert(after[a] == before[a]);
            } else if a < i {
                assert(after[a] == before[a] && after[b] == before[b - 1]);
                if b - 1 > i {
                    lemma_edge_order(e, before[i as int], before[b - 1]);
                }
                lemma_edge_order(before[a], e, before[b - 1]);
            } else if a == i {
                assert(after[b] == before[b - 1]);
                if b - 1 > i {
                    lemma_edge_order(e, before[i as int], before[b - 1]);
                }
            } else {
                assert(after[a] == before[a - 1] && after[b] == before[b - 1]);
            }
        }
    }
}


// ── the closure of one group of seed resources ──

/// A registry conversion between two resources, as the closure reads it.
#[derive(Debug, Clone)]
pub struct ResourceConversionLink {
    pub from: String,
    pub to: String,
    pub provider_buff_id: String,
    pub converter_buff_id: String,
}

/// Resource `p` flows into `r`: an atom writing `r` reads `p`, or a registry
/// conversion turns `p` into `r`.
pub open spec fn feeds(
    rows: Seq<ResponseDependencyRow>,
    convs: Seq<ResourceConversionLink>,
    p: Seq<char>,
    r: Seq<char>,
) -> bool {
    ||| exists|i: int|
        0 <= i < rows.len() && has_name(#[trigger] rows[i].writes_resources@, r) && has_name(
            rows[i].reads_resources@,
            p,
        )
    ||| exists|c: int| 0 <= c < convs.len() && #[trigger] convs[c].to@ == r && convs[c].from@ == p
}

/// `ch` walks against the flow from a seed: it starts at a seed and each
/// resource flows into the one before it.
pub open spec fn is_chain(
    rows: Seq<ResponseDependencyRow>,
    convs: Seq<ResourceConversionLink>,
    seeds: Seq<String>,
    ch: Seq<Seq<char>>,
) -> bool {
    &&& ch.len() >= 1
    &&& has_name(seeds, ch[0])
    &&& forall|i: int| 0 <= i < ch.len() - 1 ==> #[trigger] feeds(rows, convs, ch[i + 1], ch[i])
}

/// `x` can flow into a seed resource.
pub open spec fn in_closure(
    rows: Seq<ResponseDependencyRow>,
    convs: Seq<ResourceConversionLink>,
    seeds: Seq<String>,
    x: Seq<char>,
) -> bool {
    exists|ch: Seq<Seq<char>>| #[trigger] is_chain(rows, convs, seeds, ch) && ch.last() == x
}

/// `e` is the edge of atom row `row` into `r`.
pub open spec fn is_atom_edge(e: ResourceClosureEdge, row: ResponseDependencyRow) -> bool {
    &&& has_name(row.writes_resources@, e.to@)
    &&& if row.reads_resources@.len() == 0 {
        e.kind == ResourceClosureEdgeKind::AtomProduce && e.from is None
    } else {
        e.kind == ResourceClosureEdgeKind::AtomConvert && (e.from matches Some(f) && has_name(
            row.reads_resources@,
            f@,
        ))
    }
    &&& opt_eq(e.skill_id, Some(row.skill_id))
    &&& e.atom_index == Some(row.atom_index)
    &&& opt_eq(e.source_facility, Some(row.source_facility))
    &&& e.provider_buff_id is None
    &&& e.converter_buff_id is None
    &&& !e.requires_same_shift_activation
}

/// Row `row` yields an edge with the key of `e`: but for its source facility,
/// `e` is the edge of atom row `row`.
pub open spec fn yields_key(e: ResourceClosureEdge, row: ResponseDependencyRow) -> bool {
    &&& has_name(row.writes_resources@, e.to@)
    &&& if row.reads_resources@.len() == 0 {
        e.kind == ResourceClosureEdgeKind::AtomProduce && e.from is None
    } else {
        e.kind == ResourceClosureEdgeKind::AtomConvert && (e.from matches Some(f) && has_name(
            row.reads_resources@,
            f@,
        ))
    }
    &&& opt_eq(e.skill_id, Some(row.skill_id))
    &&& e.atom_index == Some(row.atom_index)
}

/// `e` is the edge of atom row `i`, and no earlier row yields its key.
pub open spec fn first_row_edge(rows: Seq<ResponseDependencyRow>, e: ResourceClosureEdge, i: int) -> bool {
    &&& 0 <= i < rows.len()
    &&& is_atom_edge(e, rows[i])
    &&& forall|j: int| 0 <= j < i ==> !#[trigger] yields_key(e, rows[j])
}

/// Every atom edge of the list is that of the first row yielding its key
/// (and so carries that row's source facility).
pub open spec fn atom_edges_first(rows: Seq<ResponseDependencyRow>, edges: Seq<ResourceClosureEdge>) -> bool {
    forall|t: int|
        0 <= t < edges.len() && (#[trigger] edges[t]).kind != ResourceClosureEdgeKind::RegistryConversion
            ==> exists|i: int| #[trigger] first_row_edge(rows, edges[t], i)
}

/// An edge of atom row `i` into `r` either has its key listed already or is
/// that of the first row yielding its key, when the edges of every earlier
/// row into `r` are listed.
proof fn lemma_first_or_keyed(
    rows: Seq<ResponseDependencyRow>,
    edges: Seq<ResourceClosureEdge>,
    e: ResourceClosureEdge,
    i: int,
    r: Seq<char>,
)
    requires
        0 <= i < rows.len(),
        is_atom_edge(e, rows[i]),
        e.to@ == r,
        forall|q: int, d: ResourceClosureEdge|
            0 <= q < i && #[trigger] is_atom_edge(d, rows[q]) && d.to@ == r ==> has_key(edges, d),
    ensures
        has_key(edges, e) || first_row_edge(rows, e, i),
{
    if !first_row_edge(rows, e, i) {
        let j = choose|j: int| 0 <= j < i && #[trigger] yields_key(e, rows[j]);
        let d = ResourceClosureEdge { source_facility: Some(rows[j].source_facility), ..e };
        assert(is_atom_edge(d, rows[j]));
        assert(has_key(edges, d));
        let x = choose|x: int| 0 <= x < edges.len() && same_key(#[trigger] edges[x], d);
        lemma_edge_order(edges[x], d, e);
    }
}

/// `e` is the edge of registry conversion `c`.
pub open spec fn is_registry_edge(e: ResourceClosureEdge, c: ResourceConversionLink) -> bool {
    &&& e.kind == ResourceClosureEdgeKind::RegistryConversion
    &&& opt_eq(e.from, Some(c.from))
    &&& e.to@ == c.to@
    &&& e.skill_id is None
    &&& e.atom_index is None
    &&& e.source_facility is None
    &&& opt_eq(e.provider_buff_id, Some(c.provider_buff_id))
    &&& opt_eq(e.converter_buff_id, Some(c.converter_buff_id))
    &&& e.requires_same_shift_activation
}

/// `e` is an edge of some atom row or registry conversion.
pub open spec fn derived_edge(
    rows: Seq<ResponseDependencyRow>,
    convs: Seq<ResourceConversionLink>,
    e: ResourceClosureEdge,
) -> bool {
    ||| exists|i: int| 0 <= i < rows.len() && #[trigger] is_atom_edge(e, rows[i])
    ||| exists|c: int| 0 <= c < convs.len() && #[trigger] is_registry_edge(e, convs[c])
}

/// A closed set holds everything reached from the seeds it holds.
proof fn lemma_closed_holds_chain(
    rows: Seq<ResponseDependencyRow>,
    convs: Seq<ResourceConversionLink>,
    seeds: Seq<String>,
    set: Seq<String>,
    ch: Seq<Seq<char>>,
)
    requires
        forall|y: Seq<char>| has_name(seeds, y) ==> has_name(set, y),
        forall|r: Seq<char>, p: Seq<char>| has_name(set, r) && #[trigger] feeds(rows, convs, p, r) ==> has_name(set, p),
        is_chain(rows, convs, seeds, ch),
    ensures
        has_name(set, ch.last()),
    decreases ch.len(),
{
    if ch.len() > 1 {
        let pre = ch.drop_last();
        assert forall|i: int| 0 <= i < pre.len() - 1 implies #[trigger] feeds(rows, convs, pre[i + 1], pre[i]) by {
            assert(feeds(rows, convs, ch[i + 1], ch[i]));
        }
        lemma_closed_holds_chain(rows, convs, seeds, set, pre);
        let i = ch.len() - 2;
        assert(feeds(rows, convs, ch[i + 1], ch[i]));
        assert(pre.last() == ch[i]);
    }
}

/// A chain to `r` extended by a resource flowing into `r`.
proof fn lemma_chain_extend(
    rows: Seq<ResponseDependencyRow>,
    convs: Seq<ResourceConversionLink>,
    seeds: Seq<String>,
    r: Seq<char>,
    p: Seq<char>,
)
    requires
        in_closure(rows, convs, seeds, r),
        feeds(rows, convs, p, r),
    ensures
        in_closure(rows, convs, seeds, p),
{
    let ch = choose|ch: Seq<Seq<char>>| #[trigger] is_chain(rows, convs, seeds, ch) && ch.last() == r;
    let ext = ch.push(p);
    assert forall|i: int| 0 <= i < ext.len() - 1 implies #[trigger] feeds(rows, convs, ext[i + 1], ext[i]) by {
        if i < ch.len() - 1 {
            assert(feeds(rows, convs, ch[i + 1], ch[i]));
        }
    }
    assert(is_chain(rows, convs, seeds, ext));
}

/// A seed is in the closure.
proof fn lemma_seed_in_closure(
    rows: Seq<ResponseDependencyRow>,
    convs: Seq<ResourceConversionLink>,
    seeds: Seq<String>,
    x: Seq<char>,
)
    requires
        has_name(seeds, x),
    ensures
        in_closure(rows, convs, seeds, x),
{
    let ch = seq![x];
    assert(is_chain(rows, convs, seeds, ch));
}

/// A strictly sorted list whose names all occur in `u` is no longer than `u`.
proof fn lemma_sorted_within(a: Seq<String>, u: Seq<String>)
    requires
        strictly_sorted(a),
        forall|x: Seq<char>| has_name(a, x) ==> has_name(u, x),
    ensures
        a.len() <= u.len(),
{
    broadcast use vstd::seq_lib::seq_to_set_is_finite;

    let va = views(a);
    let vu = views(u);
    assert(va.no_duplicates()) by {
        assert forall|i: int, j: int| 0 <= i < va.len() && 0 <= j < va.len() && i != j implies va[i] != va[j] by {
            if i < j {
                assert(seq_lt(a[i]@, a[j]@));
                lemma_seq_lt_irreflexive(a[i]@);
            } else {
                assert(seq_lt(a[j]@, a[i]@));
                lemma_seq_lt_irreflexive(a[j]@);
            }
        }
    }
    va.unique_seq_to_set();
    vu.lemma_cardinality_of_set();
    assert(va.to_set().subset_of(vu.to_set())) by {
        assert forall|x: Seq<char>| va.to_set().contains(x) implies vu.to_set().contains(x) by {
            let i = choose|i: int| 0 <= i < va.len() && va[i] == x;
            assert(a[i]@ == x);
            assert(has_name(u, x));
            let j = choose|j: int| 0 <= j < u.len() && #[trigger] u[j]@ == x;
            assert(vu[j] == x);
        }
    }
    vstd::set_lib::lemma_len_subset(va.to_set(), vu.to_set());
}

/// Every name that can enter a closure: the seeds, what atoms read, and
/// what conversions consume.
fn name_universe(
    rows: &Vec<ResponseDependencyRow>,
    convs: &Vec<ResourceConversionLink>,
    seeds: &Vec<String>,
) -> (res: Vec<String>)
    ensures
        strictly_sorted(res@),
        forall|x: Seq<char>| has_name(seeds@, x) ==> has_name(res@, x),
        forall|i: int, x: Seq<char>|
            0 <= i < rows@.len() && #[trigger] has_name(rows@[i].reads_resources@, x) ==> has_name(res@, x),
        forall|c: int| 0 <= c < convs@.len() ==> has_name(res@, #[trigger] convs@[c].from@),
{
    let mut u: Vec<String> = Vec::new();
    let mut k: usize = 0;
    while k < seeds.len()
        invariant
            0 <= k <= seeds@.len(),
            strictly_sorted(u@),
            forall|j: int| 0 <= j < k ==> has_name(u@, #[trigger] seeds@[j]@),
        decreases seeds@.len() - k,
    {
        insert_sorted_unique(&mut u, seeds[k].clone());
        assert(has_name(u@, seeds@[k as int]@));
        k += 1;
    }
    let mut i: usize = 0;
    while i < rows.len()
        invariant
            0 <= i <= rows@.len(),
            strictly_sorted(u@),
            forall|j: int| 0 <= j < seeds@.len() ==> has_name(u@, #[trigger] seeds@[j]@),
            forall|q: int, x: Seq<char>|
                0 <= q < i && #[trigger] has_name(rows@[q].reads_resources@, x) ==> has_name(u@, x),
        decreases rows@.len() - i,
    {
        let reads = &rows[i].reads_resources;
        let mut t: usize = 0;
        while t < reads.len()
            invariant
                0 <= t <= reads@.len(),
                *reads == rows@[i as int].reads_resources,
                strictly_sorted(u@),
                forall|j: int| 0 <= j < seeds@.len() ==> has_name(u@, #[trigger] seeds@[j]@),
                forall|q: int, x: Seq<char>|
                    0 <= q < i && #[trigger] has_name(rows@[q].reads_resources@, x) ==> has_name(u@, x),
                forall|j: int| 0 <= j < t ==> has_name(u@, #[trigger] reads@[j]@),
            decreases reads@.len() - t,
        {
            insert_sorted_unique(&mut u, reads[t].clone());
            assert(has_name(u@, reads@[t as int]@));
            t += 1;
        }
        proof {
            assert forall|q: int, x: Seq<char>|
                0 <= q < i + 1 && #[trigger] has_name(rows@[q].reads_resources@, x) implies has_name(u@, x) by {
                if q == i {
                    let j = choose|j: int| 0 <= j < reads@.len() && #[trigger] reads@[j]@ == x;
                    assert(has_name(u@, reads@[j]@));
                }
            }
        }
        i += 1;
    }
    let mut c: usize = 0;
    while c < convs.len()
        invariant
            0 <= c <= convs@.len(),
            strictly_sorted(u@),
            forall|j: int| 0 <= j < seeds@.len() ==> has_name(u@, #[trigger] seeds@[j]@),
            forall|q: int, x: Seq<char>|
                0 <= q < rows@.len() && #[trigger] has_name(rows@[q].reads_resources@, x) ==> has_name(u@, x),
            forall|j: int| 0 <= j < c ==> has_name(u@, #[trigger] convs@[j].from@),
        decreases convs@.len() - c,
    {
        insert_sorted_unique(&mut u, convs[c].from.clone());
        c += 1;
    }
    proof {
        assert forall|x: Seq<char>| has_name(seeds@, x) implies has_name(u@, x) by {
            let j = choose|j: int| 0 <= j < seeds@.len() && #[trigger] seeds@[j]@ == x;
            assert(has_name(u@, seeds@[j]@));
        }
    }
    u
}


/// What holds of a closure under construction: the queue lists each
/// resource found once, every resource found lies in the universe and in the
/// closure, the seeds are found, and every edge found is a sorted, derived
/// edge into the closure.
pub open spec fn closure_state(
    rows: Seq<ResponseDependencyRow>,
    convs: Seq<ResourceConversionLink>,
    seeds: Seq<String>,
    universe: Seq<String>,
    resources: Seq<String>,
    queue: Seq<String>,
    edges: Seq<ResourceClosureEdge>,
) -> bool {
    &&& queue.len() == resources.len()
    &&& strictly_sorted(resources)
    &&& forall|x: Seq<char>| #[trigger] has_name(resources, x) ==> has_name(universe, x)
    &&& forall|x: Seq<char>| #[trigger] has_name(seeds, x) ==> has_name(resources, x)
    &&& forall|x: Seq<char>| #[trigger] has_name(resources, x) ==> in_closure(rows, convs, seeds, x)
    &&& forall|j: int| 0 <= j < queue.len() ==> has_name(resources, #[trigger] queue[j]@)
    &&& forall|x: Seq<char>| #[trigger] has_name(resources, x) ==> has_name(queue, x)
    &&& edges_sorted(edges)
    &&& forall|t: int|
        0 <= t < edges.len() ==> in_closure(rows, convs, seeds, (#[trigger] edges[t]).to@) && derived_edge(
            rows,
            convs,
            edges[t],
        )
    &&& atom_edges_first(rows, edges)
}

/// Records `p`, which flows into the found resource `r`, unless it is found.
fn add_resource(
    p: &String,
    resources: &mut Vec<String>,
    queue: &mut Vec<String>,
    Ghost(rows): Ghost<Seq<ResponseDependencyRow>>,
    Ghost(convs): Ghost<Seq<ResourceConversionLink>>,
    Ghost(seeds): Ghost<Seq<String>>,
    Ghost(universe): Ghost<Seq<String>>,
    Ghost(edges): Ghost<Seq<ResourceClosureEdge>>,
    Ghost(r): Ghost<Seq<char>>,
)
    requires
        closure_state(rows, convs, seeds, universe, old(resources)@, old(queue)@, edges),
        in_closure(rows, convs, seeds, r),
        feeds(rows, convs, p@, r),
        has_name(universe, p@),
    ensures
        closure_state(rows, convs, seeds, universe, final(resources)@, final(queue)@, edges),
        has_name(final(resources)@, p@),
        forall|x: Seq<char>| has_name(old(resources)@, x) ==> #[trigger] has_name(final(resources)@, x),
        final(queue)@.len() >= old(queue)@.len(),
        forall|j: int| 0 <= j < old(queue)@.len() ==> #[trigger] final(queue)@[j] == old(queue)@[j],
{
    if contains_name(resources, p.as_str()) {
        return;
    }
    proof {
        lemma_chain_extend(rows, convs, seeds, r, p@);
    }
    let ghost before_r = resources@;
    let ghost before_q = queue@;
    insert_sorted_unique(resources, p.clone());
    queue.push(p.clone());
    proof {
        assert forall|x: Seq<char>| #[trigger] has_name(resources@, x) implies has_name(queue@, x) by {
            if x == p@ {
                assert(queue@[queue@.len() - 1]@ == x);
            } else {
                assert(has_name(before_r, x));
                let j = choose|j: int| 0 <= j < before_q.len() && #[trigger] before_q[j]@ == x;
                assert(queue@[j]@ == x);
            }
        }
        assert forall|j: int| 0 <= j < queue@.len() implies has_name(resources@, #[trigger] queue@[j]@) by {
            if j < before_q.len() {
                assert(queue@[j] == before_q[j]);
                assert(has_name(before_r, before_q[j]@));
            }
        }
        assert forall|x: Seq<char>| #[trigger] has_name(seeds, x) implies has_name(resources@, x) by {
            assert(has_name(before_r, x));
        }
    }
}


/// Records edge `e` unless an edge with its key is found.
fn add_edge(
    e: ResourceClosureEdge,
    edges: &mut Vec<ResourceClosureEdge>,
    Ghost(rows): Ghost<Seq<ResponseDependencyRow>>,
    Ghost(convs): Ghost<Seq<ResourceConversionLink>>,
    Ghost(seeds): Ghost<Seq<String>>,
)
    requires
        edges_sorted(old(edges)@),
        forall|t: int|
            0 <= t < old(edges)@.len() ==> in_closure(rows, convs, seeds, (#[trigger] old(edges)@[t]).to@)
                && derived_edge(rows, convs, old(edges)@[t]),
        in_closure(rows, convs, seeds, e.to@),
        derived_edge(rows, convs, e),
        atom_edges_first(rows, old(edges)@),
        has_key(old(edges)@, e) || e.kind == ResourceClosureEdgeKind::RegistryConversion || exists|i: int|
            #[trigger] first_row_edge(rows, e, i),
    ensures
        atom_edges_first(rows, final(edges)@),
        edges_sorted(final(edges)@),
        forall|t: int|
            0 <= t < final(edges)@.len() ==> in_closure(rows, convs, seeds, (#[trigger] final(edges)@[t]).to@)
                && derived_edge(rows, convs, final(edges)@[t]),
        forall|d: ResourceClosureEdge| #[trigger] same_key(e, d) ==> has_key(final(edges)@, d),
        forall|d: ResourceClosureEdge| #[trigger] has_key(old(edges)@, d) ==> has_key(final(edges)@, d),
{
    let ghost before = edges@;
    let ghost ee = e;
    insert_edge(edges, e);
    proof {
        if has_key(before, ee) {
            assert forall|d: ResourceClosureEdge| #[trigger] same_key(ee, d) implies has_key(edges@, d) by {
                let x = choose|x: int| 0 <= x < before.len() && same_key(#[trigger] before[x], ee);
                lemma_edge_order(before[x], ee, d);
            }
        } else {
            let p = choose|p: int| 0 <= p <= before.len() && edges@ == before.insert(p, ee);
            assert forall|d: ResourceClosureEdge| #[trigger] same_key(ee, d) implies has_key(edges@, d) by {
                assert(edges@[p] == ee);
            }
            assert forall|d: ResourceClosureEdge| #[trigger] has_key(before, d) implies has_key(edges@, d) by {
                let x = choose|x: int| 0 <= x < before.len() && same_key(#[trigger] before[x], d);
                if x < p {
                    assert(edges@[x] == before[x]);
                } else {
                    assert(edges@[x + 1] == before[x]);
                }
            }
            assert forall|t: int|
                0 <= t < edges@.len() implies in_closure(rows, convs, seeds, (#[trigger] edges@[t]).to@) && derived_edge(
                rows,
                convs,
                edges@[t],
            ) by {
                if t < p {
                    assert(edges@[t] == before[t]);
                } else if t > p {
                    assert(edges@[t] == before[t - 1]);
                }
            }
            assert forall|t: int|
                0 <= t < edges@.len() && (#[trigger] edges@[t]).kind != ResourceClosureEdgeKind::RegistryConversion
                    implies exists|i: int| #[trigger] first_row_edge(rows, edges@[t], i) by {
                if t < p {
                    assert(edges@[t] == before[t]);
                } else if t > p {
                    assert(edges@[t] == before[t - 1]);
                }
            }
        }
    }
}

/// The edge of atom row `row` from `from` (none for a producing atom) into `to`.
fn atom_edge(row: &ResponseDependencyRow, from: Option<String>, to: &String) -> (e: ResourceClosureEdge)
    ensures
        e.kind == (if from is None {
            ResourceClosureEdgeKind::AtomProduce
        } else {
            ResourceClosureEdgeKind::AtomConvert
        }),
        e.from == from,
        e.to@ == to@,
        opt_eq(e.skill_id, Some(row.skill_id)),
        e.atom_index == Some(row.atom_index),
        opt_eq(e.source_facility, Some(row.source_facility)),
        e.provider_buff_id is None,
        e.converter_buff_id is None,
        !e.requires_same_shift_activation,
{
    let kind = match &from {
        None => ResourceClosureEdgeKind::AtomProduce,
        Some(_) => ResourceClosureEdgeKind::AtomConvert,
    };
    ResourceClosureEdge {
        kind,
        from,
        to: to.clone(),
        skill_id: Some(row.skill_id.clone()),
        atom_index: Some(row.atom_index),
        source_facility: Some(row.source_facility.clone()),
        provider_buff_id: None,
        converter_buff_id: None,
        requires_same_shift_activation: false,
    }
}

/// The edge of registry conversion `c`.
fn registry_edge(c: &ResourceConversionLink) -> (e: ResourceClosureEdge)
    ensures
        is_registry_edge(e, *c),
{
    ResourceClosureEdge {
        kind: ResourceClosureEdgeKind::RegistryConversion,
        from: Some(c.from.clone()),
        to: c.to.clone(),
        skill_id: None,
        atom_index: None,
        source_facility: None,
        provider_buff_id: Some(c.provider_buff_id.clone()),
        converter_buff_id: Some(c.converter_buff_id.clone()),
        requires_same_shift_activation: true,
    }
}

/// The universe holds every name an atom reads and every name a conversion
/// consumes.
pub open spec fn universe_covers(
    rows: Seq<ResponseDependencyRow>,
    convs: Seq<ResourceConversionLink>,
    universe: Seq<String>,
) -> bool {
    &&& forall|i: int, x: Seq<char>|
        0 <= i < rows.len() && #[trigger] has_name(rows[i].reads_resources@, x) ==> has_name(universe, x)
    &&& forall|c: int| 0 <= c < convs.len() ==> has_name(universe, #[trigger] convs[c].from@)
}

/// Handles the found resource `r`: records every resource flowing into it
/// and every edge into it.
fn expand_resource(
    r: &String,
    rows: &Vec<ResponseDependencyRow>,
    convs: &Vec<ResourceConversionLink>,
    resources: &mut Vec<String>,
    queue: &mut Vec<String>,
    edges: &mut Vec<ResourceClosureEdge>,
    Ghost(seeds): Ghost<Seq<String>>,
    Ghost(universe): Ghost<Seq<String>>,
)
    requires
        closure_state(rows@, convs@, seeds, universe, old(resources)@, old(queue)@, old(edges)@),
        universe_covers(rows@, convs@, universe),
        has_name(old(resources)@, r@),
    ensures
        closure_state(rows@, convs@, seeds, universe, final(resources)@, final(queue)@, final(edges)@),
        forall|p: Seq<char>| #[trigger] feeds(rows@, convs@, p, r@) ==> has_name(final(resources)@, p),
        forall|d: ResourceClosureEdge|
            #[trigger] derived_edge(rows@, convs@, d) && d.to@ == r@ ==> has_key(final(edges)@, d),
        forall|x: Seq<char>| has_name(old(resources)@, x) ==> #[trigger] has_name(final(resources)@, x),
        final(queue)@.len() >= old(queue)@.len(),
        forall|j: int| 0 <= j < old(queue)@.len() ==> #[trigger] final(queue)@[j] == old(queue)@[j],
        forall|d: ResourceClosureEdge| #[trigger] has_key(old(edges)@, d) ==> has_key(final(edges)@, d),
{
    let ghost rs = rows@;
    let ghost cs = convs@;
    let ghost r0 = resources@;
    let ghost q0 = queue@;
    let ghost e0 = edges@;
    proof {
        assert(in_closure(rs, cs, seeds, r@));
    }
    let mut i: usize = 0;
    while i < rows.len()
        invariant
            0 <= i <= rs.len(),
            rs == rows@,
            cs == convs@,
            closure_state(rs, cs, seeds, universe, resources@, queue@, edges@),
            universe_covers(rs, cs, universe),
            in_closure(rs, cs, seeds, r@),
            forall|x: Seq<char>| has_name(r0, x) ==> #[trigger] has_name(resources@, x),
            queue@.len() >= q0.len(),
            forall|j: int| 0 <= j < q0.len() ==> #[trigger] queue@[j] == q0[j],
            forall|d: ResourceClosureEdge| #[trigger] has_key(e0, d) ==> has_key(edges@, d),
            forall|q: int, p: Seq<char>|
                0 <= q < i && has_name(rs[q].writes_resources@, r@) && #[trigger] has_name(rs[q].reads_resources@, p)
                    ==> has_name(resources@, p),
            forall|q: int, d: ResourceClosureEdge|
                0 <= q < i && #[trigger] is_atom_edge(d, rs[q]) && d.to@ == r@ ==> has_key(edges@, d),
        decreases rs.len() - i,
    {
        let row = &rows[i];
        if contains_name(&row.writes_resources, r.as_str()) {
            if row.reads_resources.len() == 0 {
                let e = atom_edge(row, None, r);
                assert(is_atom_edge(e, rs[i as int]));
                proof {
                    lemma_first_or_keyed(rs, edges@, e, i as int, r@);
                }
                add_edge(e, edges, Ghost(rs), Ghost(cs), Ghost(seeds));
                proof {
                    assert forall|d: ResourceClosureEdge|
                        #[trigger] is_atom_edge(d, rs[i as int]) && d.to@ == r@ implies has_key(edges@, d) by {
                        assert(same_key(e, d));
                    }
                }
            } else {
                let reads = &row.reads_resources;
                let mut t: usize = 0;
                while t < reads.len()
                    invariant
                        0 <= t <= reads@.len(),
                        0 <= i < rs.len(),
                        *row == rs[i as int],
                        reads@.len() > 0,
                        *reads == rs[i as int].reads_resources,
                        has_name(rs[i as int].writes_resources@, r@),
                        rs == rows@,
                        cs == convs@,
                        closure_state(rs, cs, seeds, universe, resources@, queue@, edges@),
                        universe_covers(rs, cs, universe),
                        in_closure(rs, cs, seeds, r@),
                        forall|x: Seq<char>| has_name(r0, x) ==> #[trigger] has_name(resources@, x),
                        queue@.len() >= q0.len(),
                        forall|j: int| 0 <= j < q0.len() ==> #[trigger] queue@[j] == q0[j],
                        forall|d: ResourceClosureEdge| #[trigger] has_key(e0, d) ==> has_key(edges@, d),
                        forall|q: int, p: Seq<char>|
                            0 <= q < i && has_name(rs[q].writes_resources@, r@) && #[trigger] has_name(
                                rs[q].reads_resources@,
                                p,
                            ) ==> has_name(resources@, p),
                        forall|q: int, d: ResourceClosureEdge|
                            0 <= q < i && #[trigger] is_atom_edge(d, rs[q]) && d.to@ == r@ ==> has_key(edges@, d),
                        forall|u: int| 0 <= u < t ==> has_name(resources@, #[trigger] reads@[u]@),
                        forall|d: ResourceClosureEdge|
                            #[trigger] is_atom_edge(d, rs[i as int]) && d.to@ == r@ && (d.from matches Some(f)
                                && exists|u: int| 0 <= u < t && #[trigger] reads@[u]@ == f@) ==> has_key(edges@, d),
                    decreases reads@.len() - t,
                {
                    let p = &reads[t];
                    assert(has_name(reads@, p@));
                    assert(feeds(rs, cs, p@, r@));
                    let ghost res_before = resources@;
                    let ghost q_before = queue@;
                    let ghost e_before = edges@;
                    add_resource(
                        p,
                        resources,
                        queue,
                        Ghost(rs),
                        Ghost(cs),
                        Ghost(seeds),
                        Ghost(universe),
                        Ghost(edges@),
                        Ghost(r@),
                    );
                    let pc = p.clone();
                    assert(pc@ == p@);
                    let e = atom_edge(row, Some(pc), r);
                    assert(*row == rs[i as int]);
                    assert(e.from matches Some(f) && has_name(row.reads_resources@, f@));
                    assert(is_atom_edge(e, rs[i as int]));
                    proof {
                        lemma_first_or_keyed(rs, edges@, e, i as int, r@);
                    }
                    add_edge(e, edges, Ghost(rs), Ghost(cs), Ghost(seeds));
                    proof {
                        assert forall|u: int| 0 <= u < t + 1 implies has_name(resources@, #[trigger] reads@[u]@) by {
                            if u < t {
                                assert(has_name(res_before, reads@[u]@));
                            }
                        }
                        assert forall|d: ResourceClosureEdge|
                            #[trigger] is_atom_edge(d, rs[i as int]) && d.to@ == r@ && (d.from matches Some(f)
                                && exists|u: int| 0 <= u < t + 1 && #[trigger] reads@[u]@ == f@) implies has_key(
                            edges@,
                            d,
                        ) by {
                            let f = d.from->0;
                            let u = choose|u: int| 0 <= u < t + 1 && #[trigger] reads@[u]@ == f@;
                            if u == t {
                                assert(same_key(e, d));
                            } else {
                                assert(has_key(e_before, d));
                            }
                        }
                        assert forall|q: int, pp: Seq<char>|
                            0 <= q < i && has_name(rs[q].writes_resources@, r@) && #[trigger] has_name(
                                rs[q].reads_resources@,
                                pp,
                            ) implies has_name(resources@, pp) by {
                            assert(has_name(res_before, pp));
                        }
                        assert forall|x: Seq<char>| has_name(r0, x) implies #[trigger] has_name(resources@, x) by {
                            assert(has_name(res_before, x));
                        }
                        assert forall|j: int| 0 <= j < q0.len() implies #[trigger] queue@[j] == q0[j] by {
                            assert(q_before[j] == q0[j]);
                        }
                        assert forall|q: int, d: ResourceClosureEdge|
                            0 <= q < i && #[trigger] is_atom_edge(d, rs[q]) && d.to@ == r@ implies has_key(edges@, d) by {
                            assert(has_key(e_before, d));
                        }
                        assert forall|d: ResourceClosureEdge| #[trigger] has_key(e0, d) implies has_key(edges@, d) by {
                            assert(has_key(e_before, d));
                        }
                    }
                    t += 1;
                }
                proof {
                    assert forall|d: ResourceClosureEdge|
                        #[trigger] is_atom_edge(d, rs[i as int]) && d.to@ == r@ implies has_key(edges@, d) by {
                        let f = d.from->0;
                        assert(has_name(reads@, f@));
                        let u = choose|u: int| 0 <= u < reads@.len() && #[trigger] reads@[u]@ == f@;
                    }
                    assert forall|pp: Seq<char>| #[trigger] has_name(rs[i as int].reads_resources@, pp) implies has_name(
                        resources@,
                        pp,
                    ) by {
                        let u = choose|u: int| 0 <= u < reads@.len() && #[trigger] reads@[u]@ == pp;
                    }
                }
            }
        }
        proof {
            assert forall|q: int, p: Seq<char>|
                0 <= q < i + 1 && has_name(rs[q].writes_resources@, r@) && #[trigger] has_name(rs[q].reads_resources@, p)
                    implies has_name(resources@, p) by {
                if q == i {
                }
            }
        }
        i += 1;
    }
    let ghost r1 = resources@;
    let ghost q1 = queue@;
    let ghost e1 = edges@;
    let mut c: usize = 0;
    while c < convs.len()
        invariant
            0 <= c <= cs.len(),
            rs == rows@,
            cs == convs@,
            closure_state(rs, cs, seeds, universe, resources@, queue@, edges@),
            universe_covers(rs, cs, universe),
            in_closure(rs, cs, seeds, r@),
            forall|x: Seq<char>| has_name(r1, x) ==> #[trigger] has_name(resources@, x),
            queue@.len() >= q1.len(),
            forall|j: int| 0 <= j < q1.len() ==> #[trigger] queue@[j] == q1[j],
            forall|d: ResourceClosureEdge| #[trigger] has_key(e1, d) ==> has_key(edges@, d),
            forall|q: int| 0 <= q < c && (#[trigger] cs[q]).to@ == r@ ==> has_name(resources@, cs[q].from@),
            forall|q: int, d: ResourceClosureEdge|
                0 <= q < c && #[trigger] is_registry_edge(d, cs[q]) && d.to@ == r@ ==> has_key(edges@, d),
        decreases cs.len() - c,
    {
        let conv = &convs[c];
        if str_eq(conv.to.as_str(), r.as_str()) {
            assert(feeds(rs, cs, conv.from@, r@));
            let ghost res_before = resources@;
            let ghost q_before = queue@;
            let ghost e_before = edges@;
            add_resource(
                &conv.from,
                resources,
                queue,
                Ghost(rs),
                Ghost(cs),
                Ghost(seeds),
                Ghost(universe),
                Ghost(edges@),
                Ghost(r@),
            );
            let e = registry_edge(conv);
            add_edge(e, edges, Ghost(rs), Ghost(cs), Ghost(seeds));
            proof {
                assert forall|q: int| 0 <= q < c + 1 && (#[trigger] cs[q]).to@ == r@ implies has_name(
                    resources@,
                    cs[q].from@,
                ) by {
                    if q < c {
                        assert(has_name(res_before, cs[q].from@));
                    }
                }
                assert forall|q: int, d: ResourceClosureEdge|
                    0 <= q < c + 1 && #[trigger] is_registry_edge(d, cs[q]) && d.to@ == r@ implies has_key(edges@, d) by {
                    if q == c {
                        assert(same_key(e, d));
                    } else {
                        assert(has_key(e_before, d));
                    }
                }
                assert forall|x: Seq<char>| has_name(r1, x) implies #[trigger] has_name(resources@, x) by {
                    assert(has_name(res_before, x));
                }
                assert forall|j: int| 0 <= j < q1.len() implies #[trigger] queue@[j] == q1[j] by {
                    assert(q_before[j] == q1[j]);
                }
                assert forall|d: ResourceClosureEdge| #[trigger] has_key(e1, d) implies has_key(edges@, d) by {
                    assert(has_key(e_before, d));
                }
            }
        }
        c += 1;
    }
    proof {
        assert forall|p: Seq<char>| #[trigger] feeds(rs, cs, p, r@) implies has_name(resources@, p) by {
            if exists|i: int|
                0 <= i < rs.len() && has_name(#[trigger] rs[i].writes_resources@, r@) && has_name(
                    rs[i].reads_resources@,
                    p,
                ) {
                let i = choose|i: int|
                    0 <= i < rs.len() && has_name(#[trigger] rs[i].writes_resources@, r@) && has_name(
                        rs[i].reads_resources@,
                        p,
                    );
                assert(has_name(r1, p));
            } else {
                let q = choose|q: int| 0 <= q < cs.len() && #[trigger] cs[q].to@ == r@ && cs[q].from@ == p;
            }
        }
        assert forall|d: ResourceClosureEdge|
            #[trigger] derived_edge(rs, cs, d) && d.to@ == r@ implies has_key(edges@, d) by {
            if exists|i: int| 0 <= i < rs.len() && #[trigger] is_atom_edge(d, rs[i]) {
                let i = choose|i: int| 0 <= i < rs.len() && #[trigger] is_atom_edge(d, rs[i]);
                assert(has_key(e1, d));
            } else {
                let q = choose|q: int| 0 <= q < cs.len() && #[trigger] is_registry_edge(d, cs[q]);
            }
        }
        assert forall|x: Seq<char>| has_name(r0, x) implies #[trigger] has_name(resources@, x) by {
            assert(has_name(r1, x));
        }
        assert forall|j: int| 0 <= j < q0.len() implies #[trigger] queue@[j] == q0[j] by {
            assert(q1[j] == q0[j]);
        }
        assert forall|d: ResourceClosureEdge| #[trigger] has_key(e0, d) implies has_key(edges@, d) by {
            assert(has_key(e1, d));
        }
    }
}


/// The reverse closure of a set of seed resources: every resource that can
/// flow into a seed, sorted, and every edge into such a resource, sorted by
/// key with one edge per key.
pub fn closure_of_seeds(
    rows: &Vec<ResponseDependencyRow>,
    convs: &Vec<ResourceConversionLink>,
    seeds: &Vec<String>,
) -> (res: (Vec<String>, Vec<ResourceClosureEdge>))
    requires
        strictly_sorted(seeds@),
    ensures
        strictly_sorted(res.0@),
        forall|x: Seq<char>| has_name(res.0@, x) <==> in_closure(rows@, convs@, seeds@, x),
        edges_sorted(res.1@),
        atom_edges_first(rows@, res.1@),
        forall|t: int|
            0 <= t < res.1@.len() ==> in_closure(rows@, convs@, seeds@, (#[trigger] res.1@[t]).to@) && derived_edge(
                rows@,
                convs@,
                res.1@[t],
            ),
        forall|d: ResourceClosureEdge|
            #[trigger] derived_edge(rows@, convs@, d) && in_closure(rows@, convs@, seeds@, d.to@) ==> has_key(res.1@, d),
{
    let ghost rs = rows@;
    let ghost cs = convs@;
    let ghost sd = seeds@;
    let universe = name_universe(rows, convs, seeds);
    let ghost uv = universe@;
    let mut resources = clone_strings(seeds);
    let mut queue = clone_strings(seeds);
    let mut edges: Vec<ResourceClosureEdge> = Vec::new();
    proof {
        assert forall|x: Seq<char>| #[trigger] has_name(resources@, x) implies in_closure(rs, cs, sd, x) by {
            lemma_seed_in_closure(rs, cs, sd, x);
        }
    }
    let mut head: usize = 0;
    while head < queue.len()
        invariant
            0 <= head <= queue@.len(),
            rs == rows@,
            cs == convs@,
            sd == seeds@,
            uv == universe@,
            strictly_sorted(uv),
            universe_covers(rs, cs, uv),
            closure_state(rs, cs, sd, uv, resources@, queue@, edges@),
            forall|j: int, p: Seq<char>| 0 <= j < head && #[trigger] feeds(rs, cs, p, queue@[j]@) ==> has_name(resources@, p),
            forall|j: int, d: ResourceClosureEdge|
                #![trigger derived_edge(rs, cs, d), queue@[j]]
                0 <= j < head && derived_edge(rs, cs, d) && d.to@ == queue@[j]@ ==> has_key(edges@, d),
        decreases uv.len() - head,
    {
        proof {
            lemma_sorted_within(resources@, uv);
        }
        let r = queue[head].clone();
        let ghost q_before = queue@;
        let ghost res_before = resources@;
        let ghost e_before = edges@;
        expand_resource(&r, rows, convs, &mut resources, &mut queue, &mut edges, Ghost(sd), Ghost(uv));
        proof {
            assert forall|j: int, p: Seq<char>|
                0 <= j < head + 1 && #[trigger] feeds(rs, cs, p, queue@[j]@) implies has_name(resources@, p) by {
                assert(queue@[j] == q_before[j]);
                if j < head {
                    assert(has_name(res_before, p));
                }
            }
            assert forall|j: int, d: ResourceClosureEdge|
                #![trigger derived_edge(rs, cs, d), queue@[j]]
                0 <= j < head + 1 && derived_edge(rs, cs, d) && d.to@ == queue@[j]@ implies has_key(
                edges@,
                d,
            ) by {
                assert(queue@[j] == q_before[j]);
                if j < head {
                    assert(has_key(e_before, d));
                }
            }
        }
        head += 1;
    }
    proof {
        assert forall|r: Seq<char>, p: Seq<char>| has_name(resources@, r) && #[trigger] feeds(rs, cs, p, r) implies has_name(
            resources@,
            p,
        ) by {
            let j = choose|j: int| 0 <= j < queue@.len() && #[trigger] queue@[j]@ == r;
            assert(feeds(rs, cs, p, queue@[j]@));
        }
        assert forall|x: Seq<char>| has_name(resources@, x) <==> in_closure(rs, cs, sd, x) by {
            if in_closure(rs, cs, sd, x) {
                let ch = choose|ch: Seq<Seq<char>>| #[trigger] is_chain(rs, cs, sd, ch) && ch.last() == x;
                lemma_closed_holds_chain(rs, cs, sd, resources@, ch);
            }
        }
        assert forall|d: ResourceClosureEdge|
            #[trigger] derived_edge(rs, cs, d) && in_closure(rs, cs, sd, d.to@) implies has_key(edges@, d) by {
            assert(has_name(resources@, d.to@));
            let j = choose|j: int| 0 <= j < queue@.len() && #[trigger] queue@[j]@ == d.to@;
        }
    }
    (resources, edges)
}


// ── grouping the seeds by facility and response field ──

/// Order of the response fields.
pub open spec fn field_rank(f: ResponseField) -> int {
    match f {
        ResponseField::Efficiency => 0,
        ResponseField::LimitOrStorage => 1,
        ResponseField::UnitOutput => 2,
        ResponseField::Mood => 3,
        ResponseField::StateResource => 4,
        ResponseField::GlobalInject => 5,
    }
}

fn rank_of_field(f: ResponseField) -> (res: u8)
    ensures
        res as int == field_rank(f),
{
    match f {
        ResponseField::Efficiency => 0,
        ResponseField::LimitOrStorage => 1,
        ResponseField::UnitOutput => 2,
        ResponseField::Mood => 3,
        ResponseField::StateResource => 4,
        ResponseField::GlobalInject => 5,
    }
}

/// Group key `(t1, f1)` sorts before `(t2, f2)`: by facility, then field.
pub open spec fn group_lt(t1: Seq<char>, f1: ResponseField, t2: Seq<char>, f2: ResponseField) -> bool {
    seq_lt(t1, t2) || (t1 == t2 && field_rank(f1) < field_rank(f2))
}

/// The row seeds the group of facility `t` and field `f`: it acts on `t`
/// (not the global resource pool), reads some resource, and its response
/// field, with injects counted as efficiency, is `f`.
pub open spec fn seeds_group(row: ResponseDependencyRow, t: Seq<char>, f: ResponseField) -> bool {
    &&& row.target_facility@ != "global_resource"@
    &&& row.reads_resources@.len() > 0
    &&& row.target_facility@ == t
    &&& spec_closure_response_field(row.response_field) == f
}

/// `x` is a seed of the group: a row of the group reads it.
pub open spec fn is_group_seed(rows: Seq<ResponseDependencyRow>, t: Seq<char>, f: ResponseField, x: Seq<char>) -> bool {
    exists|i: int|
        0 <= i < rows.len() && #[trigger] seeds_group(rows[i], t, f) && has_name(rows[i].reads_resources@, x)
}

/// Some row seeds the group.
pub open spec fn group_exists(rows: Seq<ResponseDependencyRow>, t: Seq<char>, f: ResponseField) -> bool {
    exists|i: int| 0 <= i < rows.len() && #[trigger] seeds_group(rows[i], t, f)
}

/// A group of seeds under construction.
struct SeedGroup {
    target: String,
    field: ResponseField,
    seeds: Vec<String>,
}

/// The groups are strictly sorted by key.
spec fn groups_sorted(g: Seq<SeedGroup>) -> bool {
    forall|a: int, b: int|
        0 <= a < b < g.len() ==> group_lt(
            (#[trigger] g[a]).target@,
            g[a].field,
            (#[trigger] g[b]).target@,
            g[b].field,
        )
}

proof fn lemma_group_order(t1: Seq<char>, f1: ResponseField, t2: Seq<char>, f2: ResponseField, t3: Seq<char>, f3: ResponseField)
    ensures
        !group_lt(t1, f1, t1, f1),
        group_lt(t1, f1, t2, f2) && group_lt(t2, f2, t3, f3) ==> group_lt(t1, f1, t3, f3),
        (t1 == t2 && f1 == f2) || group_lt(t1, f1, t2, f2) || group_lt(t2, f2, t1, f1),
        group_lt(t1, f1, t2, f2) ==> !(t1 == t2 && f1 == f2),
{
    lemma_seq_lt_irreflexive(t1);
    lemma_seq_lt_total(t1, t2);
    if seq_lt(t1, t2) && seq_lt(t2, t3) {
        lemma_seq_lt_transitive(t1, t2, t3);
    }
    assert(field_rank(f1) == field_rank(f2) ==> f1 == f2);
}

/// Position of the group with key `(t, f)`.
fn find_group(groups: &Vec<SeedGroup>, t: &str, f: ResponseField) -> (res: Option<usize>)
    ensures
        match res {
            Some(k) => k < groups@.len() && groups@[k as int].target@ == t@ && groups@[k as int].field == f,
            None => forall|k: int| 0 <= k < groups@.len() ==> !((#[trigger] groups@[k]).target@ == t@ && groups@[k].field == f),
        },
{
    let mut k: usize = 0;
    while k < groups.len()
        invariant
            0 <= k <= groups@.len(),
            forall|j: int| 0 <= j < k ==> !((#[trigger] groups@[j]).target@ == t@ && groups@[j].field == f),
        decreases groups@.len() - k,
    {
        if str_eq(groups[k].target.as_str(), t) && rank_of_field(groups[k].field) == rank_of_field(f) {
            assert(field_rank(groups@[k as int].field) == field_rank(f) ==> groups@[k as int].field == f);
            return Some(k);
        }
        k += 1;
    }
    None
}

/// Inserts a group whose key is absent at its place by key.
fn insert_group(groups: &mut Vec<SeedGroup>, g: SeedGroup)
    requires
        groups_sorted(old(groups)@),
        forall|k: int| 0 <= k < old(groups)@.len() ==> !((#[trigger] old(groups)@[k]).target@ == g.target@ && old(groups)@[k].field == g.field),
    ensures
        groups_sorted(final(groups)@),
        exists|p: int| 0 <= p <= old(groups)@.len() && final(groups)@ == old(groups)@.insert(p, g),
{
    let mut i: usize = 0;
    let mut done = false;
    let gr = rank_of_field(g.field);
    while !done && i < groups.len()
        invariant
            0 <= i <= groups@.len(),
            groups@ == old(groups)@,
            gr as int == field_rank(g.field),
            groups_sorted(groups@),
            forall|j: int| 0 <= j < i ==> group_lt((#[trigger] groups@[j]).target@, groups@[j].field, g.target@, g.field),
            done ==> i < groups@.len() && !group_lt(groups@[i as int].target@, groups@[i as int].field, g.target@, g.field),
        decreases groups@.len() - i + (if done {
            0int
        } else {
            1int
        }),
    {
        let gi = &groups[i];
        let before = str_lt(gi.target.as_str(), g.target.as_str()) || (str_eq(gi.target.as_str(), g.target.as_str())
            && rank_of_field(gi.field) < gr);
        if before {
            i += 1;
        } else {
            done = true;
        }
    }
    let ghost old_g = groups@;
    let ghost gg = g;
    proof {
        if i < old_g.len() {
            lemma_group_order(old_g[i as int].target@, old_g[i as int].field, g.target@, g.field, g.target@, g.field);
        }
    }
    groups.insert(i, g);
    proof {
        let after = groups@;
        assert forall|a: int, b: int| 0 <= a < b < after.len() implies group_lt(
            (#[trigger] after[a]).target@,
            after[a].field,
            (#[trigger] after[b]).target@,
            after[b].field,
        ) by {
            if b < i {
                assert(after[a] == old_g[a] && after[b] == old_g[b]);
            } else if b == i {
                assert(after[a] == old_g[a]);
            } else if a < i {
                assert(after[a] == old_g[a] && after[b] == old_g[b - 1]);
                if b - 1 > i {
                    lemma_group_order(gg.target@, gg.field, old_g[i as int].target@, old_g[i as int].field, old_g[b - 1].target@, old_g[b - 1].field);
                }
                lemma_group_order(old_g[a].target@, old_g[a].field, gg.target@, gg.field, old_g[b - 1].target@, old_g[b - 1].field);
            } else if a == i {
                assert(after[b] == old_g[b - 1]);
                if b - 1 > i {
                    lemma_group_order(gg.target@, gg.field, old_g[i as int].target@, old_g[i as int].field, old_g[b - 1].target@, old_g[b - 1].field);
                }
            } else {
                assert(after[a] == old_g[a - 1] && after[b] == old_g[b - 1]);
            }
        }
    }
}


/// Adds every name of `names` to the strictly sorted `seeds`.
fn add_all(seeds: &mut Vec<String>, names: &Vec<String>)
    requires
        strictly_sorted(old(seeds)@),
    ensures
        strictly_sorted(final(seeds)@),
        forall|x: Seq<char>| #[trigger] has_name(final(seeds)@, x) <==> (has_name(old(seeds)@, x) || has_name(names@, x)),
{
    let ghost s0 = seeds@;
    let mut k: usize = 0;
    while k < names.len()
        invariant
            0 <= k <= names@.len(),
            strictly_sorted(seeds@),
            forall|x: Seq<char>|
                #[trigger] has_name(seeds@, x) <==> (has_name(s0, x) || exists|j: int| 0 <= j < k && #[trigger] names@[j]@ == x),
        decreases names@.len() - k,
    {
        insert_sorted_unique(seeds, names[k].clone());
        proof {
            assert forall|x: Seq<char>|
                #[trigger] has_name(seeds@, x) <==> (has_name(s0, x) || exists|j: int| 0 <= j < k + 1 && #[trigger] names@[j]@ == x) by {
                if x == names@[k as int]@ {
                }
            }
        }
        k += 1;
    }
}

/// Some of the first `n` rows seeds the group.
spec fn group_seen(rs: Seq<ResponseDependencyRow>, n: int, t: Seq<char>, f: ResponseField) -> bool {
    exists|q: int| 0 <= q < n && q < rs.len() && #[trigger] seeds_group(rs[q], t, f)
}

/// Some group has the key.
spec fn group_listed(g: Seq<SeedGroup>, t: Seq<char>, f: ResponseField) -> bool {
    exists|k: int| 0 <= k < g.len() && (#[trigger] g[k]).target@ == t && g[k].field == f
}

/// One of the first `n` rows of the group reads `x`.
spec fn seed_seen(rs: Seq<ResponseDependencyRow>, n: int, t: Seq<char>, f: ResponseField, x: Seq<char>) -> bool {
    exists|q: int|
        0 <= q < n && q < rs.len() && #[trigger] seeds_group(rs[q], t, f) && has_name(rs[q].reads_resources@, x)
}

/// The groups describe the first `n` rows.
spec fn groups_ok(rs: Seq<ResponseDependencyRow>, n: int, g: Seq<SeedGroup>) -> bool {
    &&& groups_sorted(g)
    &&& forall|t: Seq<char>, f: ResponseField|
        #![trigger group_seen(rs, n, t, f)]
        #![trigger group_listed(g, t, f)]
        group_seen(rs, n, t, f) <==> group_listed(g, t, f)
    &&& forall|k: int|
        0 <= k < g.len() ==> strictly_sorted((#[trigger] g[k]).seeds@) && forall|x: Seq<char>|
            #[trigger] has_name(g[k].seeds@, x) <==> seed_seen(rs, n, g[k].target@, g[k].field, x)
}

/// Row `i` folded into groups that describe the rows before it, by merging
/// into the group of its key.
proof fn lemma_merge_step(rs: Seq<ResponseDependencyRow>, i: int, before: Seq<SeedGroup>, after: Seq<SeedGroup>, k: int)
    requires
        0 <= i < rs.len(),
        groups_ok(rs, i, before),
        0 <= k < before.len(),
        seeds_group(rs[i], before[k].target@, before[k].field),
        after.len() == before.len(),
        forall|j: int| 0 <= j < before.len() && j != k ==> #[trigger] after[j] == before[j],
        after[k].target@ == before[k].target@,
        after[k].field == before[k].field,
        strictly_sorted(after[k].seeds@),
        forall|x: Seq<char>|
            #[trigger] has_name(after[k].seeds@, x) <==> (has_name(before[k].seeds@, x) || has_name(
                rs[i].reads_resources@,
                x,
            )),
    ensures
        groups_ok(rs, i + 1, after),
{
    assert forall|a: int, b: int| 0 <= a < b < after.len() implies group_lt(
        (#[trigger] after[a]).target@,
        after[a].field,
        (#[trigger] after[b]).target@,
        after[b].field,
    ) by {
        assert(group_lt(before[a].target@, before[a].field, before[b].target@, before[b].field));
    }
    assert forall|t: Seq<char>, f: ResponseField| group_seen(rs, i + 1, t, f) <==> group_listed(after, t, f) by {
        if group_seen(rs, i + 1, t, f) {
            let q = choose|q: int| 0 <= q < i + 1 && q < rs.len() && #[trigger] seeds_group(rs[q], t, f);
            if q == i {
                assert(after[k].target@ == t && after[k].field == f);
            } else {
                assert(group_seen(rs, i, t, f));
                let kk = choose|kk: int| 0 <= kk < before.len() && (#[trigger] before[kk]).target@ == t && before[kk].field == f;
                if kk == k {
                    assert(after[k].target@ == t && after[k].field == f);
                } else {
                    assert(after[kk].target@ == t && after[kk].field == f);
                }
            }
        }
        if group_listed(after, t, f) {
            let kk = choose|kk: int| 0 <= kk < after.len() && (#[trigger] after[kk]).target@ == t && after[kk].field == f;
            if kk == k {
                assert(seeds_group(rs[i], t, f));
            } else {
                assert(before[kk].target@ == t && before[kk].field == f);
                assert(group_listed(before, t, f));
            }
        }
    }
    assert forall|kk: int| 0 <= kk < after.len() implies strictly_sorted((#[trigger] after[kk]).seeds@) && forall|x: Seq<char>|
        #[trigger] has_name(after[kk].seeds@, x) <==> seed_seen(rs, i + 1, after[kk].target@, after[kk].field, x) by {
        assert forall|x: Seq<char>|
            #[trigger] has_name(after[kk].seeds@, x) <==> seed_seen(rs, i + 1, after[kk].target@, after[kk].field, x) by {
            let t = after[kk].target@;
            let f = after[kk].field;
            if kk == k {
                if has_name(rs[i].reads_resources@, x) {
                    assert(seeds_group(rs[i], t, f));
                }
                if has_name(before[k].seeds@, x) {
                    assert(seed_seen(rs, i, t, f, x));
                    let q = choose|q: int|
                        0 <= q < i && q < rs.len() && #[trigger] seeds_group(rs[q], t, f) && has_name(rs[q].reads_resources@, x);
                }
                if seed_seen(rs, i + 1, t, f, x) {
                    let q = choose|q: int|
                        0 <= q < i + 1 && q < rs.len() && #[trigger] seeds_group(rs[q], t, f) && has_name(rs[q].reads_resources@, x);
                    if q < i {
                        assert(seed_seen(rs, i, t, f, x));
                    }
                }
            } else {
                assert(after[kk] == before[kk]);
                lemma_group_order(before[kk].target@, before[kk].field, before[k].target@, before[k].field, before[k].target@, before[k].field);
                lemma_group_order(before[k].target@, before[k].field, before[kk].target@, before[kk].field, before[kk].target@, before[kk].field);
                if kk < k {
                    assert(group_lt(before[kk].target@, before[kk].field, before[k].target@, before[k].field));
                } else {
                    assert(group_lt(before[k].target@, before[k].field, before[kk].target@, before[kk].field));
                }
                if seed_seen(rs, i + 1, t, f, x) {
                    let q = choose|q: int|
                        0 <= q < i + 1 && q < rs.len() && #[trigger] seeds_group(rs[q], t, f) && has_name(rs[q].reads_resources@, x);
                    if q < i {
                        assert(seed_seen(rs, i, t, f, x));
                    }
                }
                if has_name(before[kk].seeds@, x) {
                    assert(seed_seen(rs, i, t, f, x));
                    let q = choose|q: int|
                        0 <= q < i && q < rs.len() && #[trigger] seeds_group(rs[q], t, f) && has_name(rs[q].reads_resources@, x);
                }
            }
        }
    }
}

/// Row `i`, whose key no group has, folded in as a new group.
proof fn lemma_new_group_step(rs: Seq<ResponseDependencyRow>, i: int, before: Seq<SeedGroup>, after: Seq<SeedGroup>, g: SeedGroup, p: int)
    requires
        0 <= i < rs.len(),
        groups_ok(rs, i, before),
        seeds_group(rs[i], g.target@, g.field),
        !group_listed(before, g.target@, g.field),
        groups_sorted(after),
        0 <= p <= before.len(),
        after == before.insert(p, g),
        strictly_sorted(g.seeds@),
        forall|x: Seq<char>| #[trigger] has_name(g.seeds@, x) <==> has_name(rs[i].reads_resources@, x),
    ensures
        groups_ok(rs, i + 1, after),
{
    assert forall|t: Seq<char>, f: ResponseField| group_seen(rs, i + 1, t, f) <==> group_listed(after, t, f) by {
        if group_seen(rs, i + 1, t, f) {
            let q = choose|q: int| 0 <= q < i + 1 && q < rs.len() && #[trigger] seeds_group(rs[q], t, f);
            if q == i {
                assert(after[p].target@ == t && after[p].field == f);
            } else {
                assert(group_seen(rs, i, t, f));
                let kk = choose|kk: int| 0 <= kk < before.len() && (#[trigger] before[kk]).target@ == t && before[kk].field == f;
                if kk < p {
                    assert(after[kk] == before[kk]);
                } else {
                    assert(after[kk + 1] == before[kk]);
                }
            }
        }
        if group_listed(after, t, f) {
            let kk = choose|kk: int| 0 <= kk < after.len() && (#[trigger] after[kk]).target@ == t && after[kk].field == f;
            if kk == p {
                assert(seeds_group(rs[i], t, f));
            } else if kk < p {
                assert(after[kk] == before[kk]);
                assert(group_listed(before, t, f));
            } else {
                assert(after[kk] == before[kk - 1]);
                assert(group_listed(before, t, f));
            }
        }
    }
    assert forall|kk: int| 0 <= kk < after.len() implies strictly_sorted((#[trigger] after[kk]).seeds@) && forall|x: Seq<char>|
        #[trigger] has_name(after[kk].seeds@, x) <==> seed_seen(rs, i + 1, after[kk].target@, after[kk].field, x) by {
        assert forall|x: Seq<char>|
            #[trigger] has_name(after[kk].seeds@, x) <==> seed_seen(rs, i + 1, after[kk].target@, after[kk].field, x) by {
            let t = after[kk].target@;
            let f = after[kk].field;
            if kk == p {
                if has_name(rs[i].reads_resources@, x) {
                    assert(seeds_group(rs[i], t, f));
                }
                if seed_seen(rs, i + 1, t, f, x) {
                    let q = choose|q: int|
                        0 <= q < i + 1 && q < rs.len() && #[trigger] seeds_group(rs[q], t, f) && has_name(rs[q].reads_resources@, x);
                    if q < i {
                        assert(group_seen(rs, i, t, f));
                    }
                }
            } else {
                let ob = if kk < p { kk } else { kk - 1 };
                assert(after[kk] == before[ob]);
                if seed_seen(rs, i + 1, t, f, x) {
                    let q = choose|q: int|
                        0 <= q < i + 1 && q < rs.len() && #[trigger] seeds_group(rs[q], t, f) && has_name(rs[q].reads_resources@, x);
                    if q < i {
                        assert(seed_seen(rs, i, t, f, x));
                    } else {
                        assert(group_listed(before, g.target@, g.field));
                    }
                }
                if has_name(before[ob].seeds@, x) {
                    assert(seed_seen(rs, i, t, f, x));
                    let q = choose|q: int|
                        0 <= q < i && q < rs.len() && #[trigger] seeds_group(rs[q], t, f) && has_name(rs[q].reads_resources@, x);
                }
            }
        }
    }
}

/// A row outside every group leaves the groups describing one row more.
proof fn lemma_skip_step(rs: Seq<ResponseDependencyRow>, i: int, g: Seq<SeedGroup>)
    requires
        0 <= i < rs.len(),
        groups_ok(rs, i, g),
        !(rs[i].target_facility@ != "global_resource"@ && rs[i].reads_resources@.len() > 0),
    ensures
        groups_ok(rs, i + 1, g),
{
    assert forall|t: Seq<char>, f: ResponseField| group_seen(rs, i + 1, t, f) <==> group_listed(g, t, f) by {
        if group_seen(rs, i + 1, t, f) {
            let q = choose|q: int| 0 <= q < i + 1 && q < rs.len() && #[trigger] seeds_group(rs[q], t, f);
            assert(q != i);
            assert(group_seen(rs, i, t, f));
        }
        if group_seen(rs, i, t, f) {
            let q = choose|q: int| 0 <= q < i && q < rs.len() && #[trigger] seeds_group(rs[q], t, f);
        }
    }
    assert forall|kk: int| 0 <= kk < g.len() implies strictly_sorted((#[trigger] g[kk]).seeds@) && forall|x: Seq<char>|
        #[trigger] has_name(g[kk].seeds@, x) <==> seed_seen(rs, i + 1, g[kk].target@, g[kk].field, x) by {
        assert forall|x: Seq<char>|
            #[trigger] has_name(g[kk].seeds@, x) <==> seed_seen(rs, i + 1, g[kk].target@, g[kk].field, x) by {
            let t = g[kk].target@;
            let f = g[kk].field;
            if seed_seen(rs, i + 1, t, f, x) {
                let q = choose|q: int|
                    0 <= q < i + 1 && q < rs.len() && #[trigger] seeds_group(rs[q], t, f) && has_name(rs[q].reads_resources@, x);
                assert(q != i);
                assert(seed_seen(rs, i, t, f, x));
            }
            if seed_seen(rs, i, t, f, x) {
                let q = choose|q: int|
                    0 <= q < i && q < rs.len() && #[trigger] seeds_group(rs[q], t, f) && has_name(rs[q].reads_resources@, x);
            }
        }
    }
}

/// The seed groups of the rows, sorted by key.
fn seed_groups(rows: &Vec<ResponseDependencyRow>) -> (res: Vec<SeedGroup>)
    ensures
        groups_ok(rows@, rows@.len() as int, res@),
{
    let ghost rs = rows@;
    let mut groups: Vec<SeedGroup> = Vec::new();
    let mut i: usize = 0;
    while i < rows.len()
        invariant
            0 <= i <= rs.len(),
            rs == rows@,
            groups_ok(rs, i as int, groups@),
        decreases rs.len() - i,
    {
        let row = &rows[i];
        let ghost before = groups@;
        if !str_eq(row.target_facility.as_str(), "global_resource") && row.reads_resources.len() > 0 {
            let f = closure_response_field(row.response_field);
            assert(seeds_group(rs[i as int], row.target_facility@, f));
            match find_group(&groups, row.target_facility.as_str(), f) {
                Some(k) => {
                    let mut seeds = clone_strings(&groups[k].seeds);
                    add_all(&mut seeds, &row.reads_resources);
                    let g = SeedGroup { target: groups[k].target.clone(), field: groups[k].field, seeds };
                    groups.set(k, g);
                    proof {
                        lemma_merge_step(rs, i as int, before, groups@, k as int);
                    }
                },
                None => {
                    let mut seeds: Vec<String> = Vec::new();
                    add_all(&mut seeds, &row.reads_resources);
                    let g = SeedGroup { target: row.target_facility.clone(), field: f, seeds };
                    let ghost gg = g;
                    proof {
                        if group_listed(before, gg.target@, gg.field) {
                            let kk = choose|kk: int|
                                0 <= kk < before.len() && (#[trigger] before[kk]).target@ == gg.target@ && before[kk].field == gg.field;
                        }
                    }
                    insert_group(&mut groups, g);
                    proof {
                        let p = choose|p: int| 0 <= p <= before.len() && groups@ == before.insert(p, gg);
                        lemma_new_group_step(rs, i as int, before, groups@, gg, p);
                    }
                },
            }
        } else {
            proof {
                lemma_skip_step(rs, i as int, groups@);
            }
        }
        i += 1;
    }
    groups
}


/// `c` is the closure of its seeds: sorted seeds, resources and edges, the
/// resources being exactly those that flow into a seed, and the edges one
/// per key of the edges into them.
pub open spec fn closure_matches(
    c: ResourceReverseClosure,
    rows: Seq<ResponseDependencyRow>,
    convs: Seq<ResourceConversionLink>,
) -> bool {
    let seeds = c.seed_resources@;
    &&& strictly_sorted(seeds)
    &&& forall|x: Seq<char>|
        #[trigger] has_name(seeds, x) <==> is_group_seed(rows, c.target_facility@, c.response_field, x)
    &&& strictly_sorted(c.resources@)
    &&& forall|x: Seq<char>| #[trigger] has_name(c.resources@, x) <==> in_closure(rows, convs, seeds, x)
    &&& edges_sorted(c.edges@)
    &&& atom_edges_first(rows, c.edges@)
    &&& forall|t: int|
        0 <= t < c.edges@.len() ==> in_closure(rows, convs, seeds, (#[trigger] c.edges@[t]).to@) && derived_edge(
            rows,
            convs,
            c.edges@[t],
        )
    &&& forall|d: ResourceClosureEdge|
        #[trigger] derived_edge(rows, convs, d) && in_closure(rows, convs, seeds, d.to@) ==> has_key(c.edges@, d)
}

/// The reverse resource closures of the rows: one per facility and response
/// field (injects counted as efficiency) whose atoms read a resource, sorted
/// by facility and field; the global resource pool gets none.
pub fn build_resource_reverse_closures(
    rows: &Vec<ResponseDependencyRow>,
    conversions: &Vec<ResourceConversionLink>,
) -> (res: Vec<ResourceReverseClosure>)
    ensures
        forall|a: int, b: int|
            0 <= a < b < res@.len() ==> group_lt(
                (#[trigger] res@[a]).target_facility@,
                res@[a].response_field,
                (#[trigger] res@[b]).target_facility@,
                res@[b].response_field,
            ),
        forall|t: Seq<char>, f: ResponseField|
            #[trigger] group_exists(rows@, t, f) <==> exists|k: int|
                0 <= k < res@.len() && (#[trigger] res@[k]).target_facility@ == t && res@[k].response_field == f,
        forall|k: int| 0 <= k < res@.len() ==> closure_matches(#[trigger] res@[k], rows@, conversions@),
{
    let groups = seed_groups(rows);
    let ghost rs = rows@;
    let ghost g = groups@;
    let mut out: Vec<ResourceReverseClosure> = Vec::new();
    let mut k: usize = 0;
    while k < groups.len()
        invariant
            0 <= k <= g.len(),
            g == groups@,
            rs == rows@,
            groups_ok(rs, rs.len() as int, g),
            out@.len() == k,
            forall|j: int|
                0 <= j < k ==> (#[trigger] out@[j]).target_facility@ == g[j].target@ && out@[j].response_field
                    == g[j].field,
            forall|j: int| 0 <= j < k ==> closure_matches(#[trigger] out@[j], rs, conversions@),
        decreases g.len() - k,
    {
        let group = &groups[k];
        let (resources, edges) = closure_of_seeds(rows, conversions, &group.seeds);
        let c = ResourceReverseClosure {
            target_facility: group.target.clone(),
            response_field: group.field,
            seed_resources: clone_strings(&group.seeds),
            resources,
            edges,
        };
        proof {
            assert forall|x: Seq<char>| #[trigger] has_name(c.seed_resources@, x) <==> is_group_seed(
                rs,
                c.target_facility@,
                c.response_field,
                x,
            ) by {
                assert(has_name(g[k as int].seeds@, x) <==> seed_seen(rs, rs.len() as int, g[k as int].target@, g[k as int].field, x));
                if is_group_seed(rs, c.target_facility@, c.response_field, x) {
                    let i = choose|i: int|
                        0 <= i < rs.len() && #[trigger] seeds_group(rs[i], c.target_facility@, c.response_field) && has_name(
                            rs[i].reads_resources@,
                            x,
                        );
                    assert(seed_seen(rs, rs.len() as int, g[k as int].target@, g[k as int].field, x));
                }
                if seed_seen(rs, rs.len() as int, g[k as int].target@, g[k as int].field, x) {
                    let i = choose|i: int|
                        0 <= i < rs.len() && i < rs.len() && #[trigger] seeds_group(rs[i], g[k as int].target@, g[k as int].field)
                            && has_name(rs[i].reads_resources@, x);
                }
            }
        }
        out.push(c);
        proof {
            assert(out@[k as int] == c);
        }
        k += 1;
    }
    proof {
        assert forall|a: int, b: int| 0 <= a < b < out@.len() implies group_lt(
            (#[trigger] out@[a]).target_facility@,
            out@[a].response_field,
            (#[trigger] out@[b]).target_facility@,
            out@[b].response_field,
        ) by {
            assert(group_lt(g[a].target@, g[a].field, g[b].target@, g[b].field));
        }
        assert forall|t: Seq<char>, f: ResponseField| #[trigger] group_exists(rs, t, f) <==> exists|j: int|
            0 <= j < out@.len() && (#[trigger] out@[j]).target_facility@ == t && out@[j].response_field == f by {
            if group_exists(rs, t, f) {
                let i = choose|i: int| 0 <= i < rs.len() && #[trigger] seeds_group(rs[i], t, f);
                assert(group_seen(rs, rs.len() as int, t, f));
                assert(group_listed(g, t, f));
                let j = choose|j: int| 0 <= j < g.len() && (#[trigger] g[j]).target@ == t && g[j].field == f;
                assert(out@[j].target_facility@ == t);
            }
            if exists|j: int| 0 <= j < out@.len() && (#[trigger] out@[j]).target_facility@ == t && out@[j].response_field == f {
                let j = choose|j: int| 0 <= j < out@.len() && (#[trigger] out@[j]).target_facility@ == t && out@[j].response_field == f;
                assert(g[j].target@ == t && g[j].field == f);
                assert(group_listed(g, t, f));
                assert(group_seen(rs, rs.len() as int, t, f));
                let i = choose|i: int| 0 <= i < rs.len() as int && i < rs.len() && #[trigger] seeds_group(rs[i], t, f);
            }
        }
    }
    out
}


/// A reverse closure is closed against the flow: whatever flows into one of
/// its resources is one of its resources, and so is every seed.
pub proof fn lemma_closure_closed(c: ResourceReverseClosure, rows: Seq<ResponseDependencyRow>, convs: Seq<ResourceConversionLink>)
    requires
        closure_matches(c, rows, convs),
    ensures
        forall|x: Seq<char>| has_name(c.seed_resources@, x) ==> #[trigger] has_name(c.resources@, x),
        forall|r: Seq<char>, p: Seq<char>|
            has_name(c.resources@, r) && #[trigger] feeds(rows, convs, p, r) ==> has_name(c.resources@, p),
{
    assert forall|x: Seq<char>| has_name(c.seed_resources@, x) implies #[trigger] has_name(c.resources@, x) by {
        lemma_seed_in_closure(rows, convs, c.seed_resources@, x);
    }
    assert forall|r: Seq<char>, p: Seq<char>|
        has_name(c.resources@, r) && #[trigger] feeds(rows, convs, p, r) implies has_name(c.resources@, p) by {
        lemma_chain_extend(rows, convs, c.seed_resources@, r, p);
    }
}

} // verus!
