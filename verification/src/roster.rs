//! Player-owned operators and their progress.

use vstd::prelude::*;

use crate::text::{has_name, parse_decimal, parse_unsigned, spec_trim, trim_owned, views};

verus! {

/// Player-owned operator progress for tier resolution.
#[derive(Debug, Clone, Copy, PartialEq, Eq, Default, Structural)]
pub struct OperatorProgress {
    pub elite: u8,
    pub level: u32,
    /// 0 = unknown (CSV roster); tier logic treats as 5–6★.
    pub rarity: u8,
}

impl OperatorProgress {
    pub fn new(elite: u8, level: u32, rarity: u8) -> (res: Self)
        ensures
            res == (OperatorProgress { elite, level, rarity }),
    {
        Self { elite, level, rarity }
    }

    /// Progress known only by elite stage: level 1, rarity unknown.
    pub fn elite_only(elite: u8) -> (res: Self)
        ensures
            res == (OperatorProgress { elite, level: 1, rarity: 0 }),
    {
        Self { elite, level: 1, rarity: 0 }
    }
}

/// The map a list of `(name, value)` pairs describes; a later pair for the
/// same name replaces an earlier one.
pub open spec fn pairs_map<V>(pairs: Seq<(String, V)>) -> Map<Seq<char>, V>
    decreases pairs.len(),
{
    if pairs.len() == 0 {
        Map::empty()
    } else {
        pairs_map(pairs.drop_last()).insert(pairs.last().0@, pairs.last().1)
    }
}

/// No name occurs twice among the pairs.
pub open spec fn distinct_names<V>(pairs: Seq<(String, V)>) -> bool {
    forall|i: int, j: int| 0 <= i < j < pairs.len() ==> #[trigger] pairs[i].0@ != #[trigger] pairs[j].0@
}

/// `names` lists every key of `m` exactly once.
pub open spec fn lists_keys<V>(names: Seq<String>, m: Map<Seq<char>, V>) -> bool {
    &&& forall|i: int, j: int| 0 <= i < j < names.len() ==> #[trigger] names[i]@ != #[trigger] names[j]@
    &&& forall|i: int| 0 <= i < names.len() ==> m.dom().contains(#[trigger] names[i]@)
    &&& forall|k: Seq<char>| #[trigger] m.dom().contains(k) ==> has_name(names, k)
}

/// A key of the map of distinct pairs is the name of exactly one pair.
pub proof fn lemma_pairs_map_index<V>(pairs: Seq<(String, V)>)
    requires
        distinct_names(pairs),
    ensures
        forall|k: Seq<char>|
            #[trigger] pairs_map(pairs).dom().contains(k) <==> exists|i: int|
                0 <= i < pairs.len() && #[trigger] pairs[i].0@ == k,
        forall|i: int| 0 <= i < pairs.len() ==> #[trigger] pairs_map(pairs)[pairs[i].0@] == pairs[i].1,
        pairs_map(pairs).dom().finite(),
        pairs_map(pairs).dom().len() == pairs.len(),
    decreases pairs.len(),
{
    if pairs.len() > 0 {
        let init = pairs.drop_last();
        assert(distinct_names(init));
        lemma_pairs_map_index(init);
        let last = pairs.last();
        assert(!pairs_map(init).dom().contains(last.0@)) by {
            if pairs_map(init).dom().contains(last.0@) {
                let i = choose|i: int| 0 <= i < init.len() && #[trigger] init[i].0@ == last.0@;
                assert(pairs[i].0@ == pairs[pairs.len() - 1].0@);
            }
        }
        assert forall|k: Seq<char>|
            #[trigger] pairs_map(pairs).dom().contains(k) <==> exists|i: int|
                0 <= i < pairs.len() && #[trigger] pairs[i].0@ == k by {
            if pairs_map(pairs).dom().contains(k) {
                if k == last.0@ {
                    assert(pairs[pairs.len() - 1].0@ == k);
                } else {
                    let i = choose|i: int| 0 <= i < init.len() && #[trigger] init[i].0@ == k;
                    assert(pairs[i].0@ == k);
                }
            }
            if exists|i: int| 0 <= i < pairs.len() && #[trigger] pairs[i].0@ == k {
                let i = choose|i: int| 0 <= i < pairs.len() && #[trigger] pairs[i].0@ == k;
                if i < pairs.len() - 1 {
                    assert(init[i].0@ == k);
                }
            }
        }
        assert forall|i: int| 0 <= i < pairs.len() implies #[trigger] pairs_map(pairs)[pairs[i].0@]
            == pairs[i].1 by {
            if i < pairs.len() - 1 {
                assert(init[i] == pairs[i]);
                assert(pairs[i].0@ != last.0@);
            }
        }
    }
}

/// Player-owned operators: canonical name → progress.
///
/// The roster is a map; its entries are kept in insertion order and no name
/// occurs twice.
#[derive(Debug)]
pub struct Roster {
    by_name: Vec<(String, OperatorProgress)>,
}

impl View for Roster {
    type V = Map<Seq<char>, OperatorProgress>;

    closed spec fn view(&self) -> Map<Seq<char>, OperatorProgress> {
        pairs_map(self.by_name@)
    }
}

/// The roster a list of `(name, elite)` pairs describes; a later pair for the
/// same name replaces an earlier one.
pub open spec fn elite_pairs_map(pairs: Seq<(String, u8)>) -> Map<Seq<char>, OperatorProgress>
    decreases pairs.len(),
{
    if pairs.len() == 0 {
        Map::empty()
    } else {
        elite_pairs_map(pairs.drop_last()).insert(
            pairs.last().0@,
            OperatorProgress { elite: pairs.last().1, level: 1, rarity: 0 },
        )
    }
}

impl Roster {
    #[verifier::type_invariant]
    spec fn unique_names(self) -> bool {
        distinct_names(self.by_name@)
    }

    /// An empty roster.
    pub fn new() -> (res: Self)
        ensures
            res@ == Map::<Seq<char>, OperatorProgress>::empty(),
    {
        Roster { by_name: Vec::new() }
    }

    /// Roster from a list of names and elite stages (level 1, rarity unknown).
    pub fn from_elite_map(elite_by_name: Vec<(String, u8)>) -> (res: Self)
        ensures
            res@ == elite_pairs_map(elite_by_name@),
    {
        let mut roster = Roster::new();
        let mut i: usize = 0;
        while i < elite_by_name.len()
            invariant
                0 <= i <= elite_by_name@.len(),
                roster@ == elite_pairs_map(elite_by_name@.take(i as int)),
            decreases elite_by_name@.len() - i,
        {
            let name = elite_by_name[i].0.clone();
            let elite = elite_by_name[i].1;
            roster.insert(name, OperatorProgress::elite_only(elite));
            assert(elite_by_name@.take(i + 1).drop_last() == elite_by_name@.take(i as int));
            i += 1;
        }
        assert(elite_by_name@.take(elite_by_name@.len() as int) == elite_by_name@);
        roster
    }

    /// Roster from a list of names and progress.
    pub fn from_progress_map(by_name: Vec<(String, OperatorProgress)>) -> (res: Self)
        ensures
            res@ == pairs_map(by_name@),
    {
        Self::from_pairs(&by_name)
    }

    fn from_pairs(by_name: &Vec<(String, OperatorProgress)>) -> (res: Self)
        ensures
            res@ == pairs_map(by_name@),
    {
        let mut roster = Roster::new();
        let mut i: usize = 0;
        while i < by_name.len()
            invariant
                0 <= i <= by_name@.len(),
                roster@ == pairs_map(by_name@.take(i as int)),
            decreases by_name@.len() - i,
        {
            let name = by_name[i].0.clone();
            let progress = by_name[i].1;
            roster.insert(name, progress);
            assert(by_name@.take(i + 1).drop_last() == by_name@.take(i as int));
            i += 1;
        }
        assert(by_name@.take(by_name@.len() as int) == by_name@);
        roster
    }

    fn position(&self, name: &str) -> (res: Option<usize>)
        ensures
            match res {
                Some(i) => i < self.by_name@.len() && self.by_name@[i as int].0@ == name@,
                None => forall|j: int|
                    0 <= j < self.by_name@.len() ==> #[trigger] self.by_name@[j].0@ != name@,
            },
    {
        let target = String::from_str(name);
        let mut i: usize = 0;
        while i < self.by_name.len()
            invariant
                0 <= i <= self.by_name@.len(),
                target@ == name@,
                forall|j: int| 0 <= j < i ==> #[trigger] self.by_name@[j].0@ != name@,
            decreases self.by_name@.len() - i,
        {
            if self.by_name[i].0 == target {
                return Some(i);
            }
            i += 1;
        }
        None
    }

    /// Records `progress` for `name`, replacing any earlier progress.
    pub fn insert(&mut self, name: String, progress: OperatorProgress)
        ensures
            final(self)@ == old(self)@.insert(name@, progress),
            final(self)@.dom().finite(),
            final(self)@.dom().len() == old(self)@.dom().len() + if old(self)@.contains_key(name@) {
                0int
            } else {
                1int
            },
    {
        proof {
            use_type_invariant(&*self);
            lemma_pairs_map_index(self.by_name@);
            assert(old(self)@.dom().finite());
            assert(old(self)@.insert(name@, progress).dom() =~= old(self)@.dom().insert(name@));
        }
        match self.position(name.as_str()) {
            Some(i) => {
                let ghost before = self.by_name@;
                let mut entries: Vec<(String, OperatorProgress)> = Vec::new();
                std::mem::swap(&mut entries, &mut self.by_name);
                entries.set(i, (name, progress));
                proof {
                    let after = entries@;
                    assert(distinct_names(after)) by {
                        assert forall|a: int, b: int| 0 <= a < b < after.len() implies #[trigger] after[a].0@
                            != #[trigger] after[b].0@ by {
                            assert(before[a].0@ != before[b].0@ || a == b);
                        }
                    }
                    lemma_pairs_map_index(after);
                    assert(pairs_map(after) =~= pairs_map(before).insert(name@, progress)) by {
                        assert forall|k: Seq<char>| #[trigger] pairs_map(after).dom().contains(k) <==> pairs_map(
                            before,
                        ).insert(name@, progress).dom().contains(k) by {
                            if pairs_map(before).dom().contains(k) && k != name@ {
                                let j = choose|j: int| 0 <= j < before.len() && #[trigger] before[j].0@ == k;
                                assert(after[j].0@ == k);
                            }
                            if pairs_map(after).dom().contains(k) {
                                let j = choose|j: int| 0 <= j < after.len() && #[trigger] after[j].0@ == k;
                                if j != i {
                                    assert(before[j].0@ == k);
                                }
                            }
                            assert(after[i as int].0@ == name@);
                        }
                        assert forall|k: Seq<char>| #[trigger] pairs_map(after).dom().contains(k) implies pairs_map(
                            after,
                        )[k] == pairs_map(before).insert(name@, progress)[k] by {
                            let j = choose|j: int| 0 <= j < after.len() && #[trigger] after[j].0@ == k;
                            if j != i {
                                assert(before[j] == after[j]);
                            }
                        }
                    }
                }
                self.by_name = entries;
            },
            None => {
                let ghost before = self.by_name@;
                let ghost key = name@;
                let mut entries: Vec<(String, OperatorProgress)> = Vec::new();
                std::mem::swap(&mut entries, &mut self.by_name);
                entries.push((name, progress));
                assert(entries@.drop_last() == before);
                assert(distinct_names(entries@)) by {
                    assert forall|a: int, b: int| 0 <= a < b < entries@.len() implies #[trigger] entries@[a].0@
                        != #[trigger] entries@[b].0@ by {
                        if b == before.len() {
                            assert(before[a].0@ != key);
                        } else {
                            assert(before[a].0@ != before[b].0@);
                        }
                    }
                }
                self.by_name = entries;
            },
        }
    }

    /// Elite stage of `name`, when owned.
    pub fn elite(&self, name: &str) -> (res: Option<u8>)
        ensures
            res == (if self@.contains_key(name@) {
                Some(self@[name@].elite)
            } else {
                None
            }),
    {
        match self.progress(name) {
            Some(p) => Some(p.elite),
            None => None,
        }
    }

    /// Progress of `name`, when owned.
    pub fn progress(&self, name: &str) -> (res: Option<OperatorProgress>)
        ensures
            res == (if self@.contains_key(name@) {
                Some(self@[name@])
            } else {
                None
            }),
    {
        proof {
            use_type_invariant(self);
            lemma_pairs_map_index(self.by_name@);
        }
        match self.position(name) {
            Some(i) => Some(self.by_name[i].1),
            None => {
                assert(!self@.contains_key(name@));
                None
            },
        }
    }

    /// Every owned name, once each, in insertion order.
    pub fn names(&self) -> (res: Vec<String>)
        ensures
            lists_keys(res@, self@),
    {
        proof {
            use_type_invariant(self);
            lemma_pairs_map_index(self.by_name@);
        }
        let mut out: Vec<String> = Vec::new();
        let mut i: usize = 0;
        while i < self.by_name.len()
            invariant
                0 <= i <= self.by_name@.len(),
                distinct_names(self.by_name@),
                out@.len() == i,
                forall|j: int| 0 <= j < i ==> #[trigger] out@[j]@ == self.by_name@[j].0@,
                forall|k: Seq<char>|
                    #[trigger] pairs_map(self.by_name@).dom().contains(k) <==> exists|j: int|
                        0 <= j < self.by_name@.len() && #[trigger] self.by_name@[j].0@ == k,
            decreases self.by_name@.len() - i,
        {
            out.push(self.by_name[i].0.clone());
            i += 1;
        }
        assert forall|k: Seq<char>| #[trigger] self@.dom().contains(k) implies has_name(out@, k) by {
            let j = choose|j: int| 0 <= j < self.by_name@.len() && #[trigger] self.by_name@[j].0@ == k;
            assert(out@[j]@ == k);
        }
        assert forall|a: int, b: int| 0 <= a < b < out@.len() implies #[trigger] out@[a]@ != #[trigger] out@[b]@ by {
            assert(self.by_name@[a].0@ != self.by_name@[b].0@);
        }
        assert forall|a: int| 0 <= a < out@.len() implies self@.dom().contains(#[trigger] out@[a]@) by {
            assert(self.by_name@[a].0@ == out@[a]@);
        }
        out
    }

    /// Number of owned operators.
    pub fn len(&self) -> (res: usize)
        ensures
            res == self@.dom().len(),
            self@.dom().finite(),
    {
        proof {
            use_type_invariant(self);
            lemma_pairs_map_index(self.by_name@);
        }
        self.by_name.len()
    }

    pub fn is_empty(&self) -> (res: bool)
        ensures
            res == (self@.dom().len() == 0),
    {
        self.len() == 0
    }
}

impl Clone for Roster {
    fn clone(&self) -> (res: Self)
        ensures
            res@ == self@,
    {
        Roster::from_pairs(&self.by_name)
    }
}

impl Default for Roster {
    fn default() -> (res: Self)
        ensures
            res@ == Map::<Seq<char>, OperatorProgress>::empty(),
    {
        Roster::new()
    }
}

/// Why a roster table could not be read.
#[derive(Debug, Clone, PartialEq, Eq)]
pub enum RosterTableError {
    /// A required column is not among the headers.
    MissingColumn(String),
    /// A selected row's elite cell is not a number from 0 to 255.
    InvalidElite(String),
}

/// `i` is the first position of `name` among the headers.
pub open spec fn is_first_index(headers: Seq<String>, name: Seq<char>, i: int) -> bool {
    0 <= i < headers.len() && headers[i]@ == name && forall|j: int| 0 <= j < i ==> #[trigger] headers[j]@ != name
}

/// Index of the first header equal to `name`.
fn column_index(headers: &Vec<String>, name: &str) -> (res: Option<usize>)
    ensures
        match res {
            Some(i) => is_first_index(headers@, name@, i as int),
            None => !has_name(headers@, name@),
        },
{
    let target = String::from_str(name);
    let mut i: usize = 0;
    while i < headers.len()
        invariant
            0 <= i <= headers@.len(),
            target@ == name@,
            forall|j: int| 0 <= j < i ==> #[trigger] headers@[j]@ != name@,
        decreases headers@.len() - i,
    {
        if headers[i] == target {
            return Some(i);
        }
        i += 1;
    }
    None
}

/// A row counts for the roster of `facility`: its facility cell is that
/// facility and its trimmed name is not empty.
pub open spec fn row_selected(row: Seq<String>, facility_i: int, name_i: int, facility: Seq<char>) -> bool {
    row[facility_i]@ == facility && spec_trim(row[name_i]@).len() > 0
}

/// Elite stage a selected row records, when its trimmed cell is a number.
pub open spec fn row_elite(row: Seq<String>, elite_i: int) -> Option<int> {
    parse_unsigned(spec_trim(row[elite_i]@), 255)
}

/// The roster the first `k` rows of a table give: selected rows in order, a
/// name keeping the highest elite stage seen (level 1, rarity unknown).
pub open spec fn table_roster(
    rows: Seq<Vec<String>>,
    facility_i: int,
    name_i: int,
    elite_i: int,
    facility: Seq<char>,
    k: int,
) -> Map<Seq<char>, OperatorProgress>
    decreases k,
{
    if k <= 0 {
        Map::empty()
    } else {
        let prev = table_roster(rows, facility_i, name_i, elite_i, facility, k - 1);
        let row = rows[k - 1]@;
        if !row_selected(row, facility_i, name_i, facility) {
            prev
        } else {
            let name = spec_trim(row[name_i]@);
            let elite = row_elite(row, elite_i)->0 as u8;
            if prev.contains_key(name) && elite <= prev[name].elite {
                prev
            } else {
                prev.insert(name, OperatorProgress { elite, level: 1, rarity: 0 })
            }
        }
    }
}

impl Roster {
    /// Roster of one facility from a roster table (`name`, `facility` and
    /// `elite` columns, found by header).  Rows of other facilities and rows
    /// with an empty name are skipped; a name listed twice keeps the higher
    /// elite stage.  Every row must have one cell per header.
    pub fn from_table_for_facility(
        headers: &Vec<String>,
        rows: &Vec<Vec<String>>,
        facility: &str,
    ) -> (res: Result<Roster, RosterTableError>)
        requires
            forall|r: int| 0 <= r < rows@.len() ==> #[trigger] rows@[r]@.len() == headers@.len(),
        ensures
            match res {
                Ok(roster) => exists|fi: int, ni: int, ei: int|
                    #![trigger is_first_index(headers@, "facility"@, fi), is_first_index(headers@, "name"@, ni), is_first_index(headers@, "elite"@, ei)]
                    is_first_index(headers@, "facility"@, fi) && is_first_index(headers@, "name"@, ni)
                        && is_first_index(headers@, "elite"@, ei) && (forall|r: int|
                        0 <= r < rows@.len() && row_selected(rows@[r]@, fi, ni, facility@)
                            ==> #[trigger] row_elite(rows@[r]@, ei) is Some) && roster@
                        == table_roster(rows@, fi, ni, ei, facility@, rows@.len() as int),
                Err(RosterTableError::MissingColumn(col)) => !has_name(headers@, col@) && (col@
                    == "name"@ || col@ == "facility"@ || col@ == "elite"@),
                Err(RosterTableError::InvalidElite(name)) => exists|fi: int, ni: int, ei: int, r: int|
                    #![trigger is_first_index(headers@, "facility"@, fi), is_first_index(headers@, "name"@, ni), is_first_index(headers@, "elite"@, ei), rows@[r]]
                    is_first_index(headers@, "facility"@, fi) && is_first_index(headers@, "name"@, ni)
                        && is_first_index(headers@, "elite"@, ei) && 0 <= r < rows@.len()
                        && row_selected(rows@[r]@, fi, ni, facility@) && row_elite(rows@[r]@, ei)
                        is None && name@ == spec_trim(rows@[r]@[ni]@),
            },
    {
        let name_i = match column_index(headers, "name") {
            Some(i) => i,
            None => {
                return Err(RosterTableError::MissingColumn(String::from_str("name")));
            },
        };
        let facility_i = match column_index(headers, "facility") {
            Some(i) => i,
            None => {
                return Err(RosterTableError::MissingColumn(String::from_str("facility")));
            },
        };
        let elite_i = match column_index(headers, "elite") {
            Some(i) => i,
            None => {
                return Err(RosterTableError::MissingColumn(String::from_str("elite")));
            },
        };
        let target = String::from_str(facility);
        let mut roster = Roster::new();
        let mut r: usize = 0;
        while r < rows.len()
            invariant
                0 <= r <= rows@.len(),
                target@ == facility@,
                is_first_index(headers@, "name"@, name_i as int),
                is_first_index(headers@, "facility"@, facility_i as int),
                is_first_index(headers@, "elite"@, elite_i as int),
                forall|q: int| 0 <= q < rows@.len() ==> #[trigger] rows@[q]@.len() == headers@.len(),
                forall|q: int|
                    0 <= q < r && row_selected(rows@[q]@, facility_i as int, name_i as int, facility@)
                        ==> #[trigger] row_elite(rows@[q]@, elite_i as int) is Some,
                roster@ == table_roster(
                    rows@,
                    facility_i as int,
                    name_i as int,
                    elite_i as int,
                    facility@,
                    r as int,
                ),
            decreases rows@.len() - r,
        {
            let row = &rows[r];
            if row[facility_i] == target {
                let name = trim_owned(row[name_i].as_str());
                if name.unicode_len() > 0 {
                    let elite_cell = trim_owned(row[elite_i].as_str());
                    let elite = match parse_decimal(elite_cell.as_str(), 255) {
                        Some(v) => v as u8,
                        None => {
                            return Err(RosterTableError::InvalidElite(name));
                        },
                    };
                    match roster.elite(name.as_str()) {
                        Some(current) => {
                            if elite > current {
                                roster.insert(name, OperatorProgress::elite_only(elite));
                            }
                        },
                        None => {
                            roster.insert(name, OperatorProgress::elite_only(elite));
                        },
                    }
                }
            }
            r += 1;
        }
        Ok(roster)
    }
}

/// File name of the roster table in the data directory.
pub fn default_roster_path() -> (res: &'static str)
    ensures
        res@ == "roster.csv"@,
{
    "roster.csv"
}

} // verus!
