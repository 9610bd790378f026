//! Control-center team membership in the three-team rotation: which team each
//! control operator belongs to, and the rules that keep the teams balanced.

use vstd::prelude::*;

use crate::layout::{
    slot_facility, slot_facility_of, ActivatedSystem, AssignedOperator, AssignmentPlan, FacilityKind, RoomId,
    SlotFill,
};
use crate::pool::control::ControlPoolEntry;
use crate::schedule::team_rotation::{in_half, FacilityHalf, TeamLabel};
use crate::text::{contains_name, distinct_views, has_name, push_unique, seq_starts_with, starts_with, str_eq};

verus! {

/// Control-center operators of each team.
#[derive(Debug)]
pub struct TeamControlMap {
    pub alpha: Vec<String>,
    pub beta: Vec<String>,
    pub gamma: Vec<String>,
}

/// The list of `team`.
pub open spec fn team_list(m: TeamControlMap, team: TeamLabel) -> Seq<String> {
    match team {
        TeamLabel::Alpha => m.alpha@,
        TeamLabel::Beta => m.beta@,
        TeamLabel::Gamma => m.gamma@,
    }
}

impl TeamControlMap {
    /// No operator in any team.
    pub fn new() -> (res: Self)
        ensures
            res.alpha@.len() == 0,
            res.beta@.len() == 0,
            res.gamma@.len() == 0,
    {
        TeamControlMap { alpha: Vec::new(), beta: Vec::new(), gamma: Vec::new() }
    }

    /// The operators of `team`.
    pub fn names(&self, team: TeamLabel) -> (res: &Vec<String>)
        ensures
            res@ == team_list(*self, team),
    {
        match team {
            TeamLabel::Alpha => &self.alpha,
            TeamLabel::Beta => &self.beta,
            TeamLabel::Gamma => &self.gamma,
        }
    }

    /// Appends `name` to the list of `team`.
    pub fn push(&mut self, team: TeamLabel, name: String)
        ensures
            lists_of(*final(self)) == push_to(lists_of(*old(self)), team, name),
            forall|t: TeamLabel|
                team_list(*final(self), t) == if t == team {
                    team_list(*old(self), t).push(name)
                } else {
                    team_list(*old(self), t)
                },
    {
        match team {
            TeamLabel::Alpha => self.alpha.push(name),
            TeamLabel::Beta => self.beta.push(name),
            TeamLabel::Gamma => self.gamma.push(name),
        }
    }
}

/// A control skill that speeds up trade posts.
pub open spec fn is_trade_inject_buff(id: Seq<char>) -> bool {
    seq_starts_with(id, "control_tra_spd"@) || id == "control_token_tra_spd[000]"@
}

/// A control skill that speeds up factories.
pub open spec fn is_manu_inject_buff(id: Seq<char>) -> bool {
    seq_starts_with(id, "control_prod_spd"@) || seq_starts_with(id, "control_token_prod_spd"@) || id
        == "control_bd_spd[000]"@ || id == "control_prod_tra_spd[000]"@
}

/// The two classes of production injection from the control center.
#[derive(Debug, Clone, Copy, PartialEq, Eq, Structural)]
pub enum InjectClass {
    Trade,
    Manu,
}

/// The entry carries a control skill of `class`.
pub open spec fn entry_in_class(e: ControlPoolEntry, class: InjectClass) -> bool {
    exists|k: int|
        0 <= k < e.buff_ids@.len() && match class {
            InjectClass::Trade => is_trade_inject_buff(#[trigger] e.buff_ids@[k]@),
            InjectClass::Manu => is_manu_inject_buff(e.buff_ids@[k]@),
        }
}

/// Whether the entry carries a control skill that speeds up trade posts.
pub fn control_entry_trade_inject(entry: &ControlPoolEntry) -> (res: bool)
    ensures
        res == entry_in_class(*entry, InjectClass::Trade),
{
    let mut k: usize = 0;
    while k < entry.buff_ids.len()
        invariant
            0 <= k <= entry.buff_ids@.len(),
            forall|t: int| 0 <= t < k ==> !is_trade_inject_buff(#[trigger] entry.buff_ids@[t]@),
        decreases entry.buff_ids@.len() - k,
    {
        let bid = entry.buff_ids[k].as_str();
        if starts_with(bid, "control_tra_spd") || str_eq(bid, "control_token_tra_spd[000]") {
            return true;
        }
        k += 1;
    }
    false
}

/// Whether the entry carries a control skill that speeds up factories.
pub fn control_entry_manu_inject(entry: &ControlPoolEntry) -> (res: bool)
    ensures
        res == entry_in_class(*entry, InjectClass::Manu),
{
    let mut k: usize = 0;
    while k < entry.buff_ids.len()
        invariant
            0 <= k <= entry.buff_ids@.len(),
            forall|t: int| 0 <= t < k ==> !is_manu_inject_buff(#[trigger] entry.buff_ids@[t]@),
        decreases entry.buff_ids@.len() - k,
    {
        let bid = entry.buff_ids[k].as_str();
        if starts_with(bid, "control_prod_spd") || starts_with(bid, "control_token_prod_spd") || str_eq(
            bid,
            "control_bd_spd[000]",
        ) || str_eq(bid, "control_prod_tra_spd[000]") {
            return true;
        }
        k += 1;
    }
    false
}

/// Whether the entry is in `class`.
pub fn entry_has_class(entry: &ControlPoolEntry, class: InjectClass) -> (res: bool)
    ensures
        res == entry_in_class(*entry, class),
{
    match class {
        InjectClass::Trade => control_entry_trade_inject(entry),
        InjectClass::Manu => control_entry_manu_inject(entry),
    }
}

/// The last pool entry named `name` (entries are looked up by name, a later
/// one replacing an earlier one).
pub open spec fn entry_for(entries: Seq<ControlPoolEntry>, name: Seq<char>) -> Option<ControlPoolEntry>
    decreases entries.len(),
{
    if entries.len() == 0 {
        None
    } else if entries.last().name@ == name {
        Some(entries.last())
    } else {
        entry_for(entries.drop_last(), name)
    }
}

/// The pool entry of `name`.
pub fn entry_by_name<'a>(entries: &'a Vec<ControlPoolEntry>, name: &str) -> (res: Option<&'a ControlPoolEntry>)
    ensures
        match res {
            Some(e) => entry_for(entries@, name@) == Some(*e),
            None => entry_for(entries@, name@) is None,
        },
{
    let mut i: usize = entries.len();
    assert(entries@.take(i as int) == entries@);
    while i > 0
        invariant
            0 <= i <= entries@.len(),
            entry_for(entries@, name@) == entry_for(entries@.take(i as int), name@),
        decreases i,
    {
        assert(entries@.take(i as int).last() == entries@[i - 1]);
        assert(entries@.take(i as int).drop_last() == entries@.take(i - 1));
        if str_eq(entries[i - 1].name.as_str(), name) {
            return Some(&entries[i - 1]);
        }
        i -= 1;
    }
    None
}

/// `name` has a pool entry in `class`.
pub open spec fn name_in_class(entries: Seq<ControlPoolEntry>, name: Seq<char>, class: InjectClass) -> bool {
    match entry_for(entries, name) {
        Some(e) => entry_in_class(e, class),
        None => false,
    }
}

/// Whether `name` has a pool entry in `class`.
fn name_has_class(entries: &Vec<ControlPoolEntry>, name: &str, class: InjectClass) -> (res: bool)
    ensures
        res == name_in_class(entries@, name@, class),
{
    match entry_by_name(entries, name) {
        Some(e) => entry_has_class(e, class),
        None => false,
    }
}

/// How many of `names` have a pool entry in `class`.
pub open spec fn class_count(names: Seq<String>, entries: Seq<ControlPoolEntry>, class: InjectClass) -> nat
    decreases names.len(),
{
    if names.len() == 0 {
        0
    } else {
        class_count(names.drop_last(), entries, class) + if name_in_class(entries, names.last()@, class) {
            1nat
        } else {
            0nat
        }
    }
}

/// How many operators of `team` have a pool entry in `class`.
pub fn team_control_class_count(
    team_ctrl: &TeamControlMap,
    entries: &Vec<ControlPoolEntry>,
    team: TeamLabel,
    class: InjectClass,
) -> (res: usize)
    ensures
        res == class_count(team_list(*team_ctrl, team), entries@, class),
{
    let names = team_ctrl.names(team);
    let mut count: usize = 0;
    let mut k: usize = 0;
    while k < names.len()
        invariant
            0 <= k <= names@.len(),
            count == class_count(names@.take(k as int), entries@, class),
            count <= k,
        decreases names@.len() - k,
    {
        assert(names@.take(k + 1).drop_last() == names@.take(k as int));
        if name_has_class(entries, names[k].as_str(), class) {
            count += 1;
        }
        k += 1;
    }
    assert(names@.take(names@.len() as int) == names@);
    count
}

/// The class an entry is balanced by: factory injection first, then trade.
pub open spec fn plugin_class(e: ControlPoolEntry) -> Option<InjectClass> {
    if entry_in_class(e, InjectClass::Manu) {
        Some(InjectClass::Manu)
    } else if entry_in_class(e, InjectClass::Trade) {
        Some(InjectClass::Trade)
    } else {
        None
    }
}

/// The balancing key of a team for an entry of class `class`: the team's
/// members of that class, then its size.
pub open spec fn plugin_key(
    team_ctrl: TeamControlMap,
    entries: Seq<ControlPoolEntry>,
    class: Option<InjectClass>,
    team: TeamLabel,
) -> (nat, nat) {
    let n = match class {
        Some(c) => class_count(team_list(team_ctrl, team), entries, c),
        None => 0,
    };
    (n, team_list(team_ctrl, team).len())
}

/// `a` sorts strictly before `b`.
pub open spec fn key_lt(a: (nat, nat), b: (nat, nat)) -> bool {
    a.0 < b.0 || (a.0 == b.0 && a.1 < b.1)
}

/// The first of alpha, beta, gamma whose key is smallest.
pub open spec fn first_min_team(ka: (nat, nat), kb: (nat, nat), kg: (nat, nat)) -> TeamLabel {
    let (t, k) = if key_lt(kb, ka) {
        (TeamLabel::Beta, kb)
    } else {
        (TeamLabel::Alpha, ka)
    };
    if key_lt(kg, k) {
        TeamLabel::Gamma
    } else {
        t
    }
}

/// The team for a new plug-in control operator: the first of alpha, beta,
/// gamma with the fewest members of the entry's class, then fewest members.
pub fn pick_control_plugin_team(
    entry: &ControlPoolEntry,
    team_ctrl: &TeamControlMap,
    entries: &Vec<ControlPoolEntry>,
) -> (res: TeamLabel)
    ensures
        res == first_min_team(
            plugin_key(*team_ctrl, entries@, plugin_class(*entry), TeamLabel::Alpha),
            plugin_key(*team_ctrl, entries@, plugin_class(*entry), TeamLabel::Beta),
            plugin_key(*team_ctrl, entries@, plugin_class(*entry), TeamLabel::Gamma),
        ),
{
    let class = if control_entry_manu_inject(entry) {
        Some(InjectClass::Manu)
    } else if control_entry_trade_inject(entry) {
        Some(InjectClass::Trade)
    } else {
        None
    };
    let (ka0, ka1) = plugin_key_of(team_ctrl, entries, class, TeamLabel::Alpha);
    let (kb0, kb1) = plugin_key_of(team_ctrl, entries, class, TeamLabel::Beta);
    let (kg0, kg1) = plugin_key_of(team_ctrl, entries, class, TeamLabel::Gamma);
    let mut best = TeamLabel::Alpha;
    let mut b0 = ka0;
    let mut b1 = ka1;
    if kb0 < b0 || (kb0 == b0 && kb1 < b1) {
        best = TeamLabel::Beta;
        b0 = kb0;
        b1 = kb1;
    }
    if kg0 < b0 || (kg0 == b0 && kg1 < b1) {
        best = TeamLabel::Gamma;
    }
    best
}

/// The balancing key of a team.
fn plugin_key_of(
    team_ctrl: &TeamControlMap,
    entries: &Vec<ControlPoolEntry>,
    class: Option<InjectClass>,
    team: TeamLabel,
) -> (res: (usize, usize))
    ensures
        res.0 == plugin_key(*team_ctrl, entries@, class, team).0,
        res.1 == plugin_key(*team_ctrl, entries@, class, team).1,
{
    let n = match class {
        Some(c) => team_control_class_count(team_ctrl, entries, team, c),
        None => 0,
    };
    (n, team_ctrl.names(team).len())
}

/// Whether some operator of the room has a pool entry in `class`.
pub fn control_room_has_class(ops: &Vec<AssignedOperator>, entries: &Vec<ControlPoolEntry>, class: InjectClass) -> (res:
    bool)
    ensures
        res == exists|k: int| 0 <= k < ops@.len() && name_in_class(entries@, #[trigger] ops@[k].name@, class),
{
    let mut k: usize = 0;
    while k < ops.len()
        invariant
            0 <= k <= ops@.len(),
            forall|t: int| 0 <= t < k ==> !name_in_class(entries@, #[trigger] ops@[t].name@, class),
        decreases ops@.len() - k,
    {
        if name_has_class(entries, ops[k].name.as_str(), class) {
            return true;
        }
        k += 1;
    }
    false
}

/// Operators the control center keeps in place.
pub open spec fn is_pinned_control_name(name: Seq<char>) -> bool {
    name == "歌蕾蒂娅"@ || name == "戴菲恩"@
}

/// How readily a control operator gives up its seat to an injection
/// operator: -1 never (pinned, or claimed by a system), 3 for operators
/// without injection (and for 八幡海铃), 1 for injection operators, 0 for
/// operators without a pool entry.
pub open spec fn replace_rank(name: Seq<char>, system_names: Seq<String>, entries: Seq<ControlPoolEntry>) -> int {
    if is_pinned_control_name(name) {
        -1
    } else if name == "八幡海铃"@ {
        3
    } else if has_name(system_names, name) {
        -1
    } else {
        match entry_for(entries, name) {
            None => 0,
            Some(e) => if entry_in_class(e, InjectClass::Trade) || entry_in_class(e, InjectClass::Manu) {
                1
            } else {
                3
            },
        }
    }
}

/// The replacement rank of a control operator.
pub fn control_replace_rank(op: &AssignedOperator, system_ctrl_names: &Vec<String>, entries: &Vec<ControlPoolEntry>) -> (res:
    i32)
    ensures
        res as int == replace_rank(op.name@, system_ctrl_names@, entries@),
{
    let name = op.name.as_str();
    if str_eq(name, "歌蕾蒂娅") || str_eq(name, "戴菲恩") {
        return -1;
    }
    if str_eq(name, "八幡海铃") {
        return 3;
    }
    if contains_name(system_ctrl_names, name) {
        return -1;
    }
    match entry_by_name(entries, name) {
        None => 0,
        Some(entry) => {
            if control_entry_trade_inject(entry) || control_entry_manu_inject(entry) {
                1
            } else {
                3
            }
        },
    }
}

/// The list without any occurrence of `name`.
pub open spec fn without_name(v: Seq<String>, name: Seq<char>) -> Seq<String> {
    v.filter(|s: String| s@ != name)
}

/// A copy of `v` without `name`.
fn remove_name(v: &Vec<String>, name: &str) -> (res: Vec<String>)
    ensures
        res@ == without_name(v@, name@),
{
    let ghost pred = |s: String| s@ != name@;
    let mut out: Vec<String> = Vec::new();
    let mut k: usize = 0;
    while k < v.len()
        invariant
            0 <= k <= v@.len(),
            pred == (|s: String| s@ != name@),
            out@ == v@.take(k as int).filter(pred),
        decreases v@.len() - k,
    {
        proof {
            v@.take(k as int).lemma_filter_push(v@[k as int], pred);
            assert(v@.take(k + 1) == v@.take(k as int).push(v@[k as int]));
        }
        if !str_eq(v[k].as_str(), name) {
            out.push(v[k].clone());
        }
        k += 1;
    }
    assert(v@.take(v@.len() as int) == v@);
    out
}

/// Moves `operator` into `team`: removed from every team, then appended to
/// the list of `team`.
pub fn move_control_operator_to_team(team_ctrl: &mut TeamControlMap, operator: &str, team: TeamLabel)
    ensures
        forall|t: TeamLabel|
            team_list(*final(team_ctrl), t) == if t == team {
                without_name(team_list(*old(team_ctrl), t), operator@).push(final(team_ctrl).names_last(team))
            } else {
                without_name(team_list(*old(team_ctrl), t), operator@)
            },
        final(team_ctrl).names_last(team)@ == operator@,
{
    team_ctrl.alpha = remove_name(&team_ctrl.alpha, operator);
    team_ctrl.beta = remove_name(&team_ctrl.beta, operator);
    team_ctrl.gamma = remove_name(&team_ctrl.gamma, operator);
    team_ctrl.push(team, String::from_str(operator));
}

impl TeamControlMap {
    /// The last operator of `team`'s list.
    pub open spec fn names_last(self, team: TeamLabel) -> String {
        team_list(self, team).last()
    }
}

/// The distinct names in the lists of `teams`, leaving out `unavailable`.
pub open spec fn available_name(
    by_team: TeamControlMap,
    teams: Seq<TeamLabel>,
    unavailable: Seq<String>,
    n: Seq<char>,
) -> bool {
    &&& exists|i: int| 0 <= i < teams.len() && has_name(team_list(by_team, #[trigger] teams[i]), n)
    &&& !has_name(unavailable, n)
}

/// Number of distinct control candidates of the active teams that are not
/// unavailable.
pub fn active_control_candidate_count(
    by_team: &TeamControlMap,
    active_teams: &Vec<TeamLabel>,
    unavailable: &Vec<String>,
) -> (res: usize)
    ensures
        res == Set::new(|n: Seq<char>| available_name(*by_team, active_teams@, unavailable@, n)).len(),
        Set::new(|n: Seq<char>| available_name(*by_team, active_teams@, unavailable@, n)).finite(),
{
    let mut seen: Vec<String> = Vec::new();
    let mut i: usize = 0;
    while i < active_teams.len()
        invariant
            0 <= i <= active_teams@.len(),
            forall|a: int, b: int| 0 <= a < b < seen@.len() ==> #[trigger] seen@[a]@ != #[trigger] seen@[b]@,
            forall|n: Seq<char>|
                has_name(seen@, n) <==> (!has_name(unavailable@, n) && exists|t: int|
                    0 <= t < i && has_name(team_list(*by_team, #[trigger] active_teams@[t]), n)),
        decreases active_teams@.len() - i,
    {
        let names = by_team.names(active_teams[i]);
        let mut k: usize = 0;
        while k < names.len()
            invariant
                0 <= i < active_teams@.len(),
                0 <= k <= names@.len(),
                names@ == team_list(*by_team, active_teams@[i as int]),
                forall|a: int, b: int| 0 <= a < b < seen@.len() ==> #[trigger] seen@[a]@ != #[trigger] seen@[b]@,
                forall|n: Seq<char>|
                    has_name(seen@, n) <==> (!has_name(unavailable@, n) && ((exists|t: int|
                        0 <= t < i && has_name(team_list(*by_team, #[trigger] active_teams@[t]), n)) || exists|q: int|
                        0 <= q < k && #[trigger] names@[q]@ == n)),
            decreases names@.len() - k,
        {
            let ghost before = seen@;
            if !contains_name(unavailable, names[k].as_str()) {
                push_unique(&mut seen, names[k].clone());
            }
            proof {
                let x = names@[k as int];
                assert forall|a: int, b: int| 0 <= a < b < seen@.len() implies #[trigger] seen@[a]@
                    != #[trigger] seen@[b]@ by {
                    if seen@.len() > before.len() && b == before.len() {
                        if before[a]@ == x@ {
                            assert(has_name(before, x@));
                        }
                    } else if seen@.len() > before.len() {
                        assert(seen@[a] == before[a] && seen@[b] == before[b]);
                    }
                }
                assert forall|n: Seq<char>| has_name(seen@, n) <==> (!has_name(unavailable@, n) && ((exists|t: int|
                    0 <= t < i && has_name(team_list(*by_team, #[trigger] active_teams@[t]), n)) || exists|q: int|
                    0 <= q < k + 1 && #[trigger] names@[q]@ == n)) by {
                    crate::text::lemma_has_name_push(before, x, n);
                    if n == x@ {
                        assert(names@[k as int]@ == n);
                    }
                }
            }
            k += 1;
        }
        proof {
            assert forall|n: Seq<char>| has_name(seen@, n) <==> (!has_name(unavailable@, n) && exists|t: int|
                0 <= t < i + 1 && has_name(team_list(*by_team, #[trigger] active_teams@[t]), n)) by {
                if has_name(names@, n) {
                    let q = choose|q: int| 0 <= q < names@.len() && #[trigger] names@[q]@ == n;
                    assert(names@[q]@ == n);
                }
                if exists|q: int| 0 <= q < names@.len() && #[trigger] names@[q]@ == n {
                    let q = choose|q: int| 0 <= q < names@.len() && #[trigger] names@[q]@ == n;
                    assert(has_name(team_list(*by_team, active_teams@[i as int]), n));
                }
            }
        }
        i += 1;
    }
    proof {
        let target = Set::new(|n: Seq<char>| available_name(*by_team, active_teams@, unavailable@, n));
        let vs = seen@.map_values(|s: String| s@);
        assert(vs.no_duplicates()) by {
            assert forall|a: int, b: int| 0 <= a < vs.len() && 0 <= b < vs.len() && a != b implies vs[a] != vs[b] by {
                if a < b {
                    assert(seen@[a]@ != seen@[b]@);
                } else {
                    assert(seen@[b]@ != seen@[a]@);
                }
            }
        }
        assert(vs.to_set() =~= target) by {
            assert forall|n: Seq<char>| vs.to_set().contains(n) <==> target.contains(n) by {
                if vs.to_set().contains(n) {
                    let k = choose|k: int| 0 <= k < vs.len() && vs[k] == n;
                    assert(seen@[k]@ == n);
                    assert(has_name(seen@, n));
                }
                if target.contains(n) {
                    assert(has_name(seen@, n));
                    let k = choose|k: int| 0 <= k < seen@.len() && #[trigger] seen@[k]@ == n;
                    assert(vs[k] == n);
                }
            }
        }
        vs.unique_seq_to_set();
    }
    seen.len()
}

/// The team with the fewest available control candidates (the first of
/// alpha, beta, gamma on a tie).
pub fn least_available_control_team(by_team: &TeamControlMap, unavailable: &Vec<String>) -> (res: TeamLabel)
    ensures
        res == first_min_team(
            (available_count(*by_team, TeamLabel::Alpha, unavailable@), 0),
            (available_count(*by_team, TeamLabel::Beta, unavailable@), 0),
            (available_count(*by_team, TeamLabel::Gamma, unavailable@), 0),
        ),
{
    let ca = count_for(by_team, TeamLabel::Alpha, unavailable);
    let cb = count_for(by_team, TeamLabel::Beta, unavailable);
    let cg = count_for(by_team, TeamLabel::Gamma, unavailable);
    let mut best = TeamLabel::Alpha;
    let mut bc = ca;
    if cb < bc {
        best = TeamLabel::Beta;
        bc = cb;
    }
    if cg < bc {
        best = TeamLabel::Gamma;
    }
    best
}

/// Number of available control candidates of one team.
pub open spec fn available_count(by_team: TeamControlMap, team: TeamLabel, unavailable: Seq<String>) -> nat {
    Set::new(|n: Seq<char>| available_name(by_team, seq![team], unavailable, n)).len()
}

/// The number of available control candidates of `team`.
fn count_for(by_team: &TeamControlMap, team: TeamLabel, unavailable: &Vec<String>) -> (res: usize)
    ensures
        res == available_count(*by_team, team, unavailable@),
{
    let mut teams: Vec<TeamLabel> = Vec::new();
    teams.push(team);
    assert(teams@ == seq![team]);
    active_control_candidate_count(by_team, &teams, unavailable)
}

/// The operators a slot names.
pub open spec fn slot_names(slot: SlotFill) -> Seq<String> {
    match slot {
        SlotFill::Fixed { operator, .. } => seq![operator],
        SlotFill::PickOne { candidates, .. } => candidates@,
        SlotFill::OptionalFixed { operator, .. } => seq![operator],
    }
}

/// Trade posts and factories.
pub open spec fn is_trade_or_factory(kind: FacilityKind) -> bool {
    kind == FacilityKind::TradePost || kind == FacilityKind::Factory
}

/// The system fills a trade-post or factory slot.
pub open spec fn has_production_slot(sys: ActivatedSystem) -> bool {
    exists|i: int| 0 <= i < sys.slots@.len() && is_trade_or_factory(slot_facility(#[trigger] sys.slots@[i]))
}

/// A control anchor among the first `upto` anchors names `n`.
pub open spec fn anchor_claims(plan: AssignmentPlan, upto: int, n: Seq<char>) -> bool {
    exists|a: int|
        0 <= a < upto && (#[trigger] plan.anchors@[a]).facility == FacilityKind::ControlCenter
            && plan.anchors@[a].operator@ == n
}

/// A control slot among the first `upto` slots of `sys` names `n`.
pub open spec fn slots_claim(sys: ActivatedSystem, upto: int, n: Seq<char>) -> bool {
    exists|i: int|
        0 <= i < upto && slot_facility(#[trigger] sys.slots@[i]) == FacilityKind::ControlCenter && has_name(
            slot_names(sys.slots@[i]),
            n,
        )
}

/// One of the first `upto` systems that fill a production slot has a control
/// slot naming `n`.
pub open spec fn systems_claim(plan: AssignmentPlan, upto: int, n: Seq<char>) -> bool {
    exists|s: int|
        0 <= s < upto && has_production_slot(#[trigger] plan.activated@[s]) && slots_claim(
            plan.activated@[s],
            plan.activated@[s].slots@.len() as int,
            n,
        )
}

/// `n` is a control operator claimed by the plan: a control anchor, or a
/// control slot candidate of a system that also fills a production slot.
pub open spec fn is_system_control_name(plan: AssignmentPlan, n: Seq<char>) -> bool {
    anchor_claims(plan, plan.anchors@.len() as int, n) || systems_claim(plan, plan.activated@.len() as int, n)
}

proof fn lemma_anchor_claims_step(plan: AssignmentPlan, a: int, n: Seq<char>)
    requires
        0 <= a < plan.anchors@.len(),
    ensures
        anchor_claims(plan, a + 1, n) <==> (anchor_claims(plan, a, n) || (plan.anchors@[a].facility
            == FacilityKind::ControlCenter && plan.anchors@[a].operator@ == n)),
{
    if anchor_claims(plan, a + 1, n) {
        let t = choose|t: int|
            0 <= t < a + 1 && (#[trigger] plan.anchors@[t]).facility == FacilityKind::ControlCenter
                && plan.anchors@[t].operator@ == n;
        if t < a {
            assert(anchor_claims(plan, a, n));
        }
    }
    if anchor_claims(plan, a, n) {
        let t = choose|t: int|
            0 <= t < a && (#[trigger] plan.anchors@[t]).facility == FacilityKind::ControlCenter
                && plan.anchors@[t].operator@ == n;
        assert(0 <= t < a + 1);
    }
    if plan.anchors@[a].facility == FacilityKind::ControlCenter && plan.anchors@[a].operator@ == n {
        assert(0 <= a < a + 1);
    }
}

proof fn lemma_slots_claim_step(sys: ActivatedSystem, i: int, n: Seq<char>)
    requires
        0 <= i < sys.slots@.len(),
    ensures
        slots_claim(sys, i + 1, n) <==> (slots_claim(sys, i, n) || (slot_facility(sys.slots@[i])
            == FacilityKind::ControlCenter && has_name(slot_names(sys.slots@[i]), n))),
{
    if slots_claim(sys, i + 1, n) {
        let t = choose|t: int|
            0 <= t < i + 1 && slot_facility(#[trigger] sys.slots@[t]) == FacilityKind::ControlCenter && has_name(
                slot_names(sys.slots@[t]),
                n,
            );
        if t < i {
            assert(slots_claim(sys, i, n));
        }
    }
    if slots_claim(sys, i, n) {
        let t = choose|t: int|
            0 <= t < i && slot_facility(#[trigger] sys.slots@[t]) == FacilityKind::ControlCenter && has_name(
                slot_names(sys.slots@[t]),
                n,
            );
        assert(0 <= t < i + 1);
    }
}

proof fn lemma_systems_claim_step(plan: AssignmentPlan, s: int, n: Seq<char>)
    requires
        0 <= s < plan.activated@.len(),
    ensures
        systems_claim(plan, s + 1, n) <==> (systems_claim(plan, s, n) || (has_production_slot(plan.activated@[s])
            && slots_claim(plan.activated@[s], plan.activated@[s].slots@.len() as int, n))),
{
    if systems_claim(plan, s + 1, n) {
        let t = choose|t: int|
            0 <= t < s + 1 && has_production_slot(#[trigger] plan.activated@[t]) && slots_claim(
                plan.activated@[t],
                plan.activated@[t].slots@.len() as int,
                n,
            );
        if t < s {
            assert(systems_claim(plan, s, n));
        }
    }
    if systems_claim(plan, s, n) {
        let t = choose|t: int|
            0 <= t < s && has_production_slot(#[trigger] plan.activated@[t]) && slots_claim(
                plan.activated@[t],
                plan.activated@[t].slots@.len() as int,
                n,
            );
        assert(0 <= t < s + 1);
    }
}

/// Whether the system fills a trade-post or factory slot.
fn system_has_production_slot(sys: &ActivatedSystem) -> (res: bool)
    ensures
        res == has_production_slot(*sys),
{
    let mut i: usize = 0;
    while i < sys.slots.len()
        invariant
            0 <= i <= sys.slots@.len(),
            forall|t: int| 0 <= t < i ==> !is_trade_or_factory(slot_facility(#[trigger] sys.slots@[t])),
        decreases sys.slots@.len() - i,
    {
        let f = slot_facility_of(&sys.slots[i]);
        if f == FacilityKind::TradePost || f == FacilityKind::Factory {
            return true;
        }
        i += 1;
    }
    false
}

/// Control operators the plan's systems claim (with every candidate of a
/// pick-one slot), once each.
pub fn system_control_operators(plan: &AssignmentPlan) -> (res: Vec<String>)
    ensures
        distinct_views(res@),
        forall|n: Seq<char>| has_name(res@, n) <==> is_system_control_name(*plan, n),
{
    let mut names: Vec<String> = Vec::new();
    let mut a: usize = 0;
    while a < plan.anchors.len()
        invariant
            0 <= a <= plan.anchors@.len(),
            distinct_views(names@),
            forall|n: Seq<char>| has_name(names@, n) <==> anchor_claims(*plan, a as int, n),
        decreases plan.anchors@.len() - a,
    {
        let anchor = &plan.anchors[a];
        if anchor.facility == FacilityKind::ControlCenter {
            push_unique(&mut names, anchor.operator.clone());
        }
        proof {
            assert forall|n: Seq<char>| has_name(names@, n) <==> anchor_claims(*plan, a + 1, n) by {
                lemma_anchor_claims_step(*plan, a as int, n);
            }
        }
        a += 1;
    }
    let mut s: usize = 0;
    while s < plan.activated.len()
        invariant
            0 <= s <= plan.activated@.len(),
            distinct_views(names@),
            forall|n: Seq<char>|
                has_name(names@, n) <==> (anchor_claims(*plan, plan.anchors@.len() as int, n) || systems_claim(
                    *plan,
                    s as int,
                    n,
                )),
        decreases plan.activated@.len() - s,
    {
        let sys = &plan.activated[s];
        let ghost start = names@;
        if system_has_production_slot(sys) {
            let mut i: usize = 0;
            while i < sys.slots.len()
                invariant
                    0 <= i <= sys.slots@.len(),
                    distinct_views(names@),
                    forall|n: Seq<char>|
                        #![trigger has_name(names@, n)]
                        has_name(names@, n) <==> (has_name(start, n) || slots_claim(*sys, i as int, n)),
                decreases sys.slots@.len() - i,
            {
                let slot = &sys.slots[i];
                let ghost before = names@;
                if slot_facility_of(slot) == FacilityKind::ControlCenter {
                    match slot {
                        SlotFill::Fixed { operator, .. } => {
                            push_unique(&mut names, operator.clone());
                        },
                        SlotFill::OptionalFixed { operator, .. } => {
                            push_unique(&mut names, operator.clone());
                        },
                        SlotFill::PickOne { candidates, .. } => {
                            let mut c: usize = 0;
                            while c < candidates.len()
                                invariant
                                    0 <= c <= candidates@.len(),
                                    distinct_views(names@),
                                    forall|n: Seq<char>|
                                        #![trigger has_name(names@, n)]
                                        has_name(names@, n) <==> (has_name(before, n) || has_name(
                                            candidates@.take(c as int),
                                            n,
                                        )),
                                decreases candidates@.len() - c,
                            {
                                let ghost prev = names@;
                                let x = candidates[c].clone();
                                let ghost xs = x;
                                push_unique(&mut names, x);
                                proof {
                                    assert(candidates@.take(c + 1) == candidates@.take(c as int).push(xs));
                                    assert forall|n: Seq<char>|
                                        #![trigger has_name(names@, n)]
                                        has_name(names@, n) <==> (has_name(before, n)
                                        || has_name(candidates@.take(c + 1), n)) by {
                                        crate::text::lemma_has_name_push(candidates@.take(c as int), xs, n);
                                        assert(has_name(names@, n) <==> (has_name(prev, n) || n == xs@));
                                    }
                                }
                                c += 1;
                            }
                            assert(candidates@.take(candidates@.len() as int) == candidates@);
                        },
                    }
                }
                proof {
                    assert(sys.slots@[i as int] == *slot);
                    assert forall|n: Seq<char>|
                        #![trigger has_name(names@, n)]
                        has_name(names@, n) <==> (has_name(start, n) || slots_claim(*sys, i + 1, n)) by {
                        lemma_slots_claim_step(*sys, i as int, n);
                        if slot_facility(*slot) == FacilityKind::ControlCenter {
                            match *slot {
                                SlotFill::Fixed { operator, .. } => {
                                    if has_name(slot_names(*slot), n) {
                                        let k = choose|k: int| 0 <= k < slot_names(*slot).len() && #[trigger] slot_names(*slot)[k]@ == n;
                                        assert(k == 0);
                                    }
                                    if n == operator@ {
                                        assert(slot_names(*slot)[0]@ == n);
                                    }
                                },
                                SlotFill::OptionalFixed { operator, .. } => {
                                    if has_name(slot_names(*slot), n) {
                                        let k = choose|k: int| 0 <= k < slot_names(*slot).len() && #[trigger] slot_names(*slot)[k]@ == n;
                                        assert(k == 0);
                                    }
                                    if n == operator@ {
                                        assert(slot_names(*slot)[0]@ == n);
                                    }
                                },
                                SlotFill::PickOne { candidates, .. } => {},
                            }
                        }
                    }
                }
                i += 1;
            }
        }
        proof {
            assert forall|n: Seq<char>| has_name(names@, n) <==> (anchor_claims(*plan, plan.anchors@.len() as int, n)
                || systems_claim(*plan, s + 1, n)) by {
                lemma_systems_claim_step(*plan, s as int, n);
                assert(plan.activated@[s as int] == *sys);
            }
        }
        s += 1;
    }
    names
}

/// The production room of a system's first trade-post or factory slot that
/// names its room.
pub open spec fn first_system_room(slots: Seq<SlotFill>) -> Option<RoomId>
    decreases slots.len(),
{
    if slots.len() == 0 {
        None
    } else {
        let here = match slots[0] {
            SlotFill::Fixed { facility, room_id, .. } => if is_trade_or_factory(facility) {
                room_id
            } else {
                None
            },
            SlotFill::PickOne { facility, room_id, .. } => if is_trade_or_factory(facility) {
                room_id
            } else {
                None
            },
            SlotFill::OptionalFixed { .. } => None,
        };
        match here {
            Some(r) => Some(r),
            None => first_system_room(slots.drop_first()),
        }
    }
}

/// The team of a system's control operators: alpha when its production room
/// lies in the first half, beta otherwise; none for a control-only system.
pub open spec fn spec_system_team(sys: ActivatedSystem, h1: FacilityHalf) -> Option<TeamLabel> {
    match first_system_room(sys.slots@) {
        Some(r) => Some(
            if in_half(h1, r.0@) {
                TeamLabel::Alpha
            } else {
                TeamLabel::Beta
            },
        ),
        None => None,
    }
}

/// The team a system's control operators follow.
pub fn system_control_team(sys: &ActivatedSystem, h1: &FacilityHalf) -> (res: Option<TeamLabel>)
    ensures
        res == spec_system_team(*sys, *h1),
{
    let mut i: usize = 0;
    assert(sys.slots@.skip(0) == sys.slots@);
    while i < sys.slots.len()
        invariant
            0 <= i <= sys.slots@.len(),
            first_system_room(sys.slots@) == first_system_room(sys.slots@.skip(i as int)),
        decreases sys.slots@.len() - i,
    {
        let slot = &sys.slots[i];
        assert(sys.slots@.skip(i as int)[0] == *slot);
        assert(sys.slots@.skip(i as int).drop_first() == sys.slots@.skip(i + 1));
        let here: Option<&RoomId> = match slot {
            SlotFill::Fixed { facility, room_id, .. } => {
                if *facility == FacilityKind::TradePost || *facility == FacilityKind::Factory {
                    room_id.as_ref()
                } else {
                    None
                }
            },
            SlotFill::PickOne { facility, room_id, .. } => {
                if *facility == FacilityKind::TradePost || *facility == FacilityKind::Factory {
                    room_id.as_ref()
                } else {
                    None
                }
            },
            SlotFill::OptionalFixed { .. } => None,
        };
        if let Some(rid) = here {
            if crate::schedule::shift_bind::half_contains_room(h1, rid) {
                return Some(TeamLabel::Alpha);
            }
            return Some(TeamLabel::Beta);
        }
        i += 1;
    }
    None
}

/// The three team lists as values.
pub type TeamLists = (Seq<String>, Seq<String>, Seq<String>);

/// The lists of a map.
pub open spec fn lists_of(m: TeamControlMap) -> TeamLists {
    (m.alpha@, m.beta@, m.gamma@)
}

/// `n` appended to the list of team `t`.
pub open spec fn push_to(l: TeamLists, t: TeamLabel, n: String) -> TeamLists {
    match t {
        TeamLabel::Alpha => (l.0.push(n), l.1, l.2),
        TeamLabel::Beta => (l.0, l.1.push(n), l.2),
        TeamLabel::Gamma => (l.0, l.1, l.2.push(n)),
    }
}

/// The first candidate working in the peak control center.
pub open spec fn first_in_peak(cands: Seq<String>, peak: Seq<String>) -> Option<String>
    decreases cands.len(),
{
    if cands.len() == 0 {
        None
    } else if has_name(peak, cands[0]@) {
        Some(cands[0])
    } else {
        first_in_peak(cands.drop_first(), peak)
    }
}

/// The operator a control slot contributes: its fixed operator when it works
/// in the peak control center, or the first such candidate.
pub open spec fn slot_pick(slot: SlotFill, peak: Seq<String>) -> Option<String> {
    match slot {
        SlotFill::Fixed { operator, .. } => if has_name(peak, operator@) {
            Some(operator)
        } else {
            None
        },
        SlotFill::OptionalFixed { operator, .. } => if has_name(peak, operator@) {
            Some(operator)
        } else {
            None
        },
        SlotFill::PickOne { candidates, .. } => first_in_peak(candidates@, peak),
    }
}

/// The lists after adding the control slot picks of `slots` to `team`.
pub open spec fn assign_slots(l: TeamLists, slots: Seq<SlotFill>, team: TeamLabel, peak: Seq<String>) -> TeamLists
    decreases slots.len(),
{
    if slots.len() == 0 {
        l
    } else {
        let l2 = if slot_facility(slots[0]) == FacilityKind::ControlCenter {
            match slot_pick(slots[0], peak) {
                Some(n) => push_to(l, team, n),
                None => l,
            }
        } else {
            l
        };
        assign_slots(l2, slots.drop_first(), team, peak)
    }
}

/// The lists after adding each system's control picks to its team (alpha
/// for a control-only system).
pub open spec fn assign_systems(l: TeamLists, systems: Seq<ActivatedSystem>, peak: Seq<String>, h1: FacilityHalf) -> TeamLists
    decreases systems.len(),
{
    if systems.len() == 0 {
        l
    } else {
        let team = match spec_system_team(systems[0], h1) {
            Some(t) => t,
            None => TeamLabel::Alpha,
        };
        assign_systems(assign_slots(l, systems[0].slots@, team, peak), systems.drop_first(), peak, h1)
    }
}

/// The team with the fewest operators (the first on a tie).
pub open spec fn least_filled(l: TeamLists) -> TeamLabel {
    first_min_team((l.0.len(), 0), (l.1.len(), 0), (l.2.len(), 0))
}

/// The lists after adding each operator the plan does not claim to the team
/// with the fewest operators.
pub open spec fn add_fillers(l: TeamLists, names: Seq<String>, plan: AssignmentPlan) -> TeamLists
    decreases names.len(),
{
    if names.len() == 0 {
        l
    } else {
        let l2 = if is_system_control_name(plan, names[0]@) {
            l
        } else {
            push_to(l, least_filled(l), names[0])
        };
        add_fillers(l2, names.drop_first(), plan)
    }
}

/// The pick of a control slot.
fn pick_of_slot(slot: &SlotFill, peak_ctrl: &Vec<String>) -> (res: Option<String>)
    ensures
        res == slot_pick(*slot, peak_ctrl@),
{
    match slot {
        SlotFill::Fixed { operator, .. } => {
            if contains_name(peak_ctrl, operator.as_str()) {
                Some(operator.clone())
            } else {
                None
            }
        },
        SlotFill::OptionalFixed { operator, .. } => {
            if contains_name(peak_ctrl, operator.as_str()) {
                Some(operator.clone())
            } else {
                None
            }
        },
        SlotFill::PickOne { candidates, .. } => {
            let mut c: usize = 0;
            assert(candidates@.skip(0) == candidates@);
            while c < candidates.len()
                invariant
                    0 <= c <= candidates@.len(),
                    slot_pick(*slot, peak_ctrl@) == first_in_peak(candidates@, peak_ctrl@),
                    first_in_peak(candidates@, peak_ctrl@) == first_in_peak(candidates@.skip(c as int), peak_ctrl@),
                decreases candidates@.len() - c,
            {
                assert(candidates@.skip(c as int)[0] == candidates@[c as int]);
                assert(candidates@.skip(c as int).drop_first() == candidates@.skip(c + 1));
                if contains_name(peak_ctrl, candidates[c].as_str()) {
                    return Some(candidates[c].clone());
                }
                c += 1;
            }
            None
        },
    }
}

/// Splits the peak control operators into the three teams: operators a
/// system claims follow the half of its production room (first half alpha,
/// second beta, control-only systems alpha); the others go, one by one, to
/// the team with the fewest operators.
pub fn build_team_control_map(peak_ctrl: &Vec<String>, plan: &AssignmentPlan, h1: &FacilityHalf) -> (res:
    TeamControlMap)
    ensures
        lists_of(res) == add_fillers(
            assign_systems((Seq::empty(), Seq::empty(), Seq::empty()), plan.activated@, peak_ctrl@, *h1),
            peak_ctrl@,
            *plan,
        ),
{
    let system_names = system_control_operators(plan);
    let mut team_map = TeamControlMap::new();
    let ghost target = add_fillers(
        assign_systems((Seq::empty(), Seq::empty(), Seq::empty()), plan.activated@, peak_ctrl@, *h1),
        peak_ctrl@,
        *plan,
    );
    let ghost after_systems = assign_systems(
        (Seq::empty(), Seq::empty(), Seq::empty()),
        plan.activated@,
        peak_ctrl@,
        *h1,
    );
    assert(lists_of(team_map) == (Seq::<String>::empty(), Seq::<String>::empty(), Seq::<String>::empty()));
    let mut s: usize = 0;
    assert(plan.activated@.skip(0) == plan.activated@);
    while s < plan.activated.len()
        invariant
            0 <= s <= plan.activated@.len(),
            after_systems == assign_systems(lists_of(team_map), plan.activated@.skip(s as int), peak_ctrl@, *h1),
        decreases plan.activated@.len() - s,
    {
        let sys = &plan.activated[s];
        assert(plan.activated@.skip(s as int)[0] == *sys);
        assert(plan.activated@.skip(s as int).drop_first() == plan.activated@.skip(s + 1));
        let team = match system_control_team(sys, h1) {
            Some(t) => t,
            None => TeamLabel::Alpha,
        };
        let ghost sys_target = assign_slots(lists_of(team_map), sys.slots@, team, peak_ctrl@);
        let mut i: usize = 0;
        assert(sys.slots@.skip(0) == sys.slots@);
        while i < sys.slots.len()
            invariant
                0 <= i <= sys.slots@.len(),
                sys_target == assign_slots(lists_of(team_map), sys.slots@.skip(i as int), team, peak_ctrl@),
            decreases sys.slots@.len() - i,
        {
            let slot = &sys.slots[i];
            assert(sys.slots@.skip(i as int)[0] == *slot);
            assert(sys.slots@.skip(i as int).drop_first() == sys.slots@.skip(i + 1));
            if slot_facility_of(slot) == FacilityKind::ControlCenter {
                match pick_of_slot(slot, peak_ctrl) {
                    Some(name) => {
                        team_map.push(team, name);
                    },
                    None => {},
                }
            }
            i += 1;
        }
        assert(sys.slots@.skip(i as int).len() == 0);
        s += 1;
    }
    assert(plan.activated@.skip(s as int).len() == 0);
    let mut k: usize = 0;
    assert(peak_ctrl@.skip(0) == peak_ctrl@);
    while k < peak_ctrl.len()
        invariant
            0 <= k <= peak_ctrl@.len(),
            forall|n: Seq<char>| has_name(system_names@, n) <==> is_system_control_name(*plan, n),
            target == add_fillers(lists_of(team_map), peak_ctrl@.skip(k as int), *plan),
        decreases peak_ctrl@.len() - k,
    {
        let name = &peak_ctrl[k];
        assert(peak_ctrl@.skip(k as int)[0] == *name);
        assert(peak_ctrl@.skip(k as int).drop_first() == peak_ctrl@.skip(k + 1));
        if !contains_name(&system_names, name.as_str()) {
            let la = team_map.alpha.len();
            let lb = team_map.beta.len();
            let lg = team_map.gamma.len();
            let mut best = TeamLabel::Alpha;
            let mut bl = la;
            if lb < bl {
                best = TeamLabel::Beta;
                bl = lb;
            }
            if lg < bl {
                best = TeamLabel::Gamma;
            }
            assert(best == least_filled(lists_of(team_map)));
            team_map.push(best, name.clone());
        }
        k += 1;
    }
    assert(peak_ctrl@.skip(k as int).len() == 0);
    team_map
}

/// The team the first pair naming `n` gives.
pub open spec fn team_lookup(pairs: Seq<(String, TeamLabel)>, n: Seq<char>) -> Option<TeamLabel>
    decreases pairs.len(),
{
    if pairs.len() == 0 {
        None
    } else if pairs[0].0@ == n {
        Some(pairs[0].1)
    } else {
        team_lookup(pairs.drop_first(), n)
    }
}

/// Tags an operator with team `t`.
pub open spec fn tag_with(t: TeamLabel) -> spec_fn(String) -> (String, TeamLabel) {
    |n: String| (n, t)
}

/// Every operator of the lists tagged with its team, alpha first, then beta,
/// then gamma.
pub open spec fn tagged(l: TeamLists) -> Seq<(String, TeamLabel)> {
    l.0.map_values(tag_with(TeamLabel::Alpha)) + l.1.map_values(tag_with(TeamLabel::Beta)) + l.2.map_values(
        tag_with(TeamLabel::Gamma),
    )
}

/// Some pair names `n`.
pub open spec fn names_pair(s: Seq<(String, TeamLabel)>, n: Seq<char>) -> bool {
    exists|k: int| 0 <= k < s.len() && #[trigger] s[k].0@ == n
}

/// The first pair of each name, with its team replaced by the name's
/// production team when it has one.
pub open spec fn choose_teams(items: Seq<(String, TeamLabel)>, prod: Seq<(String, TeamLabel)>) -> Seq<(String, TeamLabel)>
    decreases items.len(),
{
    if items.len() == 0 {
        Seq::empty()
    } else {
        let prev = choose_teams(items.drop_last(), prod);
        let (n, t) = items.last();
        if names_pair(prev, n@) {
            prev
        } else {
            prev.push(
                (
                    n,
                    match team_lookup(prod, n@) {
                        Some(x) => x,
                        None => t,
                    },
                ),
            )
        }
    }
}

/// The pair belongs to team `t`.
pub open spec fn in_team(t: TeamLabel) -> spec_fn((String, TeamLabel)) -> bool {
    |p: (String, TeamLabel)| p.1 == t
}

/// The name of a pair.
pub open spec fn pair_name() -> spec_fn((String, TeamLabel)) -> String {
    |p: (String, TeamLabel)| p.0
}

/// The names of the pairs of team `t`, in order.
pub open spec fn members(chosen: Seq<(String, TeamLabel)>, t: TeamLabel) -> Seq<String> {
    chosen.filter(in_team(t)).map_values(pair_name())
}

/// Whether some pair names `n`.
pub fn pairs_contain(pairs: &Vec<(String, TeamLabel)>, n: &str) -> (res: bool)
    ensures
        res == names_pair(pairs@, n@),
{
    let mut k: usize = 0;
    while k < pairs.len()
        invariant
            0 <= k <= pairs@.len(),
            forall|t: int| 0 <= t < k ==> #[trigger] pairs@[t].0@ != n@,
        decreases pairs@.len() - k,
    {
        if str_eq(pairs[k].0.as_str(), n) {
            return true;
        }
        k += 1;
    }
    false
}

/// The team the first pair naming `n` gives.
fn lookup_team(pairs: &Vec<(String, TeamLabel)>, n: &str) -> (res: Option<TeamLabel>)
    ensures
        res == team_lookup(pairs@, n@),
{
    let mut k: usize = 0;
    assert(pairs@.skip(0) == pairs@);
    while k < pairs.len()
        invariant
            0 <= k <= pairs@.len(),
            team_lookup(pairs@, n@) == team_lookup(pairs@.skip(k as int), n@),
        decreases pairs@.len() - k,
    {
        assert(pairs@.skip(k as int)[0] == pairs@[k as int]);
        assert(pairs@.skip(k as int).drop_first() == pairs@.skip(k + 1));
        if str_eq(pairs[k].0.as_str(), n) {
            return Some(pairs[k].1);
        }
        k += 1;
    }
    None
}

/// Appends each operator of `names`, tagged with `t`.
fn push_tagged(items: &mut Vec<(String, TeamLabel)>, names: &Vec<String>, t: TeamLabel)
    ensures
        final(items)@ == old(items)@ + names@.map_values(tag_with(t)),
{
    let mut k: usize = 0;
    while k < names.len()
        invariant
            0 <= k <= names@.len(),
            items@ == old(items)@ + names@.take(k as int).map_values(tag_with(t)),
        decreases names@.len() - k,
    {
        items.push((names[k].clone(), t));
        assert(names@.take(k + 1).map_values(tag_with(t)) == names@.take(k as int).map_values(tag_with(t)).push(
            (names@[k as int], t),
        ));
        k += 1;
    }
    assert(names@.take(names@.len() as int) == names@);
}

/// Gives each control operator one team: the first team listing it, or its
/// production team when it has one; the lists are rebuilt in that order.
pub fn normalize_control_team_membership(
    team_ctrl: &mut TeamControlMap,
    production_team_by_name: &Vec<(String, TeamLabel)>,
)
    ensures
        lists_of(*final(team_ctrl)) == ({
            let c = choose_teams(tagged(lists_of(*old(team_ctrl))), production_team_by_name@);
            (members(c, TeamLabel::Alpha), members(c, TeamLabel::Beta), members(c, TeamLabel::Gamma))
        }),
{
    let mut items: Vec<(String, TeamLabel)> = Vec::new();
    push_tagged(&mut items, &team_ctrl.alpha, TeamLabel::Alpha);
    push_tagged(&mut items, &team_ctrl.beta, TeamLabel::Beta);
    push_tagged(&mut items, &team_ctrl.gamma, TeamLabel::Gamma);
    assert(items@ == tagged(lists_of(*team_ctrl)));
    let mut chosen: Vec<(String, TeamLabel)> = Vec::new();
    let mut k: usize = 0;
    while k < items.len()
        invariant
            0 <= k <= items@.len(),
            chosen@ == choose_teams(items@.take(k as int), production_team_by_name@),
        decreases items@.len() - k,
    {
        assert(items@.take(k + 1).drop_last() == items@.take(k as int));
        assert(items@.take(k + 1).last() == items@[k as int]);
        let name = &items[k].0;
        if !pairs_contain(&chosen, name.as_str()) {
            let team = match lookup_team(production_team_by_name, name.as_str()) {
                Some(x) => x,
                None => items[k].1,
            };
            chosen.push((name.clone(), team));
        }
        k += 1;
    }
    assert(items@.take(items@.len() as int) == items@);
    let mut alpha: Vec<String> = Vec::new();
    let mut beta: Vec<String> = Vec::new();
    let mut gamma: Vec<String> = Vec::new();
    let mut j: usize = 0;
    while j < chosen.len()
        invariant
            0 <= j <= chosen@.len(),
            alpha@ == members(chosen@.take(j as int), TeamLabel::Alpha),
            beta@ == members(chosen@.take(j as int), TeamLabel::Beta),
            gamma@ == members(chosen@.take(j as int), TeamLabel::Gamma),
        decreases chosen@.len() - j,
    {
        let ghost pre = chosen@.take(j as int);
        let ghost p = chosen@[j as int];
        assert(chosen@.take(j + 1) == pre.push(p));
        proof {
            pre.lemma_filter_push(p, in_team(TeamLabel::Alpha));
            pre.lemma_filter_push(p, in_team(TeamLabel::Beta));
            pre.lemma_filter_push(p, in_team(TeamLabel::Gamma));
        }
        let name = chosen[j].0.clone();
        match chosen[j].1 {
            TeamLabel::Alpha => {
                alpha.push(name);
                assert(pre.filter(in_team(TeamLabel::Alpha)).push(p).map_values(pair_name()) == pre.filter(
                    in_team(TeamLabel::Alpha),
                ).map_values(pair_name()).push(p.0));
            },
            TeamLabel::Beta => {
                beta.push(name);
                assert(pre.filter(in_team(TeamLabel::Beta)).push(p).map_values(pair_name()) == pre.filter(
                    in_team(TeamLabel::Beta),
                ).map_values(pair_name()).push(p.0));
            },
            TeamLabel::Gamma => {
                gamma.push(name);
                assert(pre.filter(in_team(TeamLabel::Gamma)).push(p).map_values(pair_name()) == pre.filter(
                    in_team(TeamLabel::Gamma),
                ).map_values(pair_name()).push(p.0));
            },
        }
        j += 1;
    }
    assert(chosen@.take(chosen@.len() as int) == chosen@);
    team_ctrl.alpha = alpha;
    team_ctrl.beta = beta;
    team_ctrl.gamma = gamma;
}

} // verus!
