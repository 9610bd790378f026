//! Reading the 一图流「干员练度表」 sheet layout: which column holds what, and how
//! text cells become numbers and flags.

use vstd::prelude::*;

use crate::text::{parse_decimal, parse_unsigned, str_eq};

verus! {

pub const COL_NAME: &'static str = "干员名称";
pub const COL_OWN: &'static str = "是否已招募";
pub const COL_RARITY: &'static str = "星级";
pub const COL_LEVEL: &'static str = "等级";
pub const COL_ELITE: &'static str = "精英化等级";
pub const COL_POTENTIAL: &'static str = "潜能等级";

/// Positions of the required columns in the header row.
#[derive(Debug, Clone, Copy, PartialEq, Eq, Structural)]
pub struct ColumnMap {
    pub name: usize,
    pub own: usize,
    pub rarity: usize,
    pub level: usize,
    pub elite: usize,
    pub potential: usize,
}

/// The header row lacks required columns (listed in the order name, own,
/// rarity, level, elite, potential).
#[derive(Debug, Clone, PartialEq, Eq)]
pub struct MissingColumns {
    pub missing: Vec<&'static str>,
}

/// The last position of a header cell whose text is `label`.
pub open spec fn last_label_index(labels: Seq<Option<String>>, label: Seq<char>) -> Option<int>
    decreases labels.len(),
{
    if labels.len() == 0 {
        None
    } else if labels.last() matches Some(s) && s@ == label {
        Some(labels.len() - 1)
    } else {
        last_label_index(labels.drop_last(), label)
    }
}

/// The six required column titles, in order.
pub open spec fn required_columns() -> Seq<Seq<char>> {
    seq![COL_NAME@, COL_OWN@, COL_RARITY@, COL_LEVEL@, COL_ELITE@, COL_POTENTIAL@]
}

/// Value of a text cell read as an unsigned byte: its number, or 0 when it is
/// not one.
pub open spec fn spec_parse_u8(s: Seq<char>) -> u8 {
    match parse_unsigned(s, 255) {
        Some(v) => v as u8,
        None => 0,
    }
}

/// Value of a text cell read as an unsigned 32-bit number, or 0.
pub open spec fn spec_parse_u32(s: Seq<char>) -> u32 {
    match parse_unsigned(s, 4294967295) {
        Some(v) => v as u32,
        None => 0,
    }
}

/// The spellings of "yes" a flag cell may hold.
pub open spec fn yes_spellings() -> Seq<Seq<char>> {
    seq!["1"@, "true"@, "True"@, "TRUE"@, "是"@, "Y"@, "y"@, "yes"@, "Yes"@, "YES"@]
}

pub fn parse_u8_str(s: &str) -> (res: u8)
    ensures
        res == spec_parse_u8(s@),
{
    match parse_decimal(s, 255) {
        Some(v) => v as u8,
        None => 0,
    }
}

pub fn parse_u32_str(s: &str) -> (res: u32)
    ensures
        res == spec_parse_u32(s@),
{
    match parse_decimal(s, 4294967295) {
        Some(v) => v as u32,
        None => 0,
    }
}

pub fn parse_bool_str(s: &str) -> (res: bool)
    ensures
        res == yes_spellings().contains(s@),
{
    let yes: [&'static str; 10] = ["1", "true", "True", "TRUE", "是", "Y", "y", "yes", "Yes", "YES"];
    let mut i: usize = 0;
    while i < 10
        invariant
            0 <= i <= 10,
            forall|j: int| 0 <= j < 10 ==> #[trigger] yes@[j]@ == yes_spellings()[j],
            forall|j: int| 0 <= j < i ==> yes_spellings()[j] != s@,
        decreases 10 - i,
    {
        if str_eq(yes[i], s) {
            assert(yes_spellings()[i as int] == s@);
            return true;
        }
        i += 1;
    }
    assert(!yes_spellings().contains(s@)) by {
        if yes_spellings().contains(s@) {
            let j = choose|j: int| 0 <= j < yes_spellings().len() && yes_spellings()[j] == s@;
        }
    }
    false
}

/// Last position of `label` among the header cells.
fn label_index(labels: &Vec<Option<String>>, label: &str) -> (res: Option<usize>)
    ensures
        match res {
            Some(i) => last_label_index(labels@, label@) == Some(i as int),
            None => last_label_index(labels@, label@) is None,
        },
{
    let target = String::from_str(label);
    let mut i: usize = labels.len();
    assert(labels@.take(labels@.len() as int) == labels@);
    while i > 0
        invariant
            0 <= i <= labels@.len(),
            target@ == label@,
            last_label_index(labels@, label@) == last_label_index(labels@.take(i as int), label@),
        decreases i,
    {
        let ghost prefix = labels@.take(i as int);
        assert(prefix.drop_last() == labels@.take(i - 1));
        assert(prefix.last() == labels@[i - 1]);
        match &labels[i - 1] {
            Some(s) => {
                if *s == target {
                    return Some(i - 1);
                }
            },
            None => {},
        }
        i -= 1;
    }
    None
}

/// Finds the required columns in the header row (`None` for a blank cell; a
/// title listed twice counts at its last position).
pub fn column_map(labels: &Vec<Option<String>>) -> (res: Result<ColumnMap, MissingColumns>)
    ensures
        match res {
            Ok(cols) => {
                &&& last_label_index(labels@, COL_NAME@) == Some(cols.name as int)
                &&& last_label_index(labels@, COL_OWN@) == Some(cols.own as int)
                &&& last_label_index(labels@, COL_RARITY@) == Some(cols.rarity as int)
                &&& last_label_index(labels@, COL_LEVEL@) == Some(cols.level as int)
                &&& last_label_index(labels@, COL_ELITE@) == Some(cols.elite as int)
                &&& last_label_index(labels@, COL_POTENTIAL@) == Some(cols.potential as int)
            },
            Err(missing) => {
                &&& missing.missing@.len() > 0
                &&& missing.missing@.map_values(|c: &str| c@) == required_columns().filter(
                    |c: Seq<char>| last_label_index(labels@, c) is None,
                )
            },
        },
{
    let name = label_index(labels, COL_NAME);
    let own = label_index(labels, COL_OWN);
    let rarity = label_index(labels, COL_RARITY);
    let level = label_index(labels, COL_LEVEL);
    let elite = label_index(labels, COL_ELITE);
    let potential = label_index(labels, COL_POTENTIAL);
    match (name, own, rarity, level, elite, potential) {
        (Some(name), Some(own), Some(rarity), Some(level), Some(elite), Some(potential)) => {
            Ok(ColumnMap { name, own, rarity, level, elite, potential })
        },
        _ => {
            let mut missing: Vec<&'static str> = Vec::new();
            let ghost missing_pred = |c: Seq<char>| last_label_index(labels@, c) is None;
            let ghost req = required_columns();
            proof {
                assert(req.take(0).filter(missing_pred) =~= Seq::<Seq<char>>::empty());
            }
            if name.is_none() {
                missing.push(COL_NAME);
            }
            proof {
                req.take(0).lemma_filter_push(req[0], missing_pred);
                assert(req.take(1) == req.take(0).push(req[0]));
                assert(missing@.map_values(|c: &str| c@) =~= req.take(1).filter(missing_pred));
            }
            if own.is_none() {
                missing.push(COL_OWN);
            }
            proof {
                req.take(1).lemma_filter_push(req[1], missing_pred);
                assert(req.take(2) == req.take(1).push(req[1]));
                assert(missing@.map_values(|c: &str| c@) =~= req.take(2).filter(missing_pred));
            }
            if rarity.is_none() {
                missing.push(COL_RARITY);
            }
            proof {
                req.take(2).lemma_filter_push(req[2], missing_pred);
                assert(req.take(3) == req.take(2).push(req[2]));
                assert(missing@.map_values(|c: &str| c@) =~= req.take(3).filter(missing_pred));
            }
            if level.is_none() {
                missing.push(COL_LEVEL);
            }
            proof {
                req.take(3).lemma_filter_push(req[3], missing_pred);
                assert(req.take(4) == req.take(3).push(req[3]));
                assert(missing@.map_values(|c: &str| c@) =~= req.take(4).filter(missing_pred));
            }
            if elite.is_none() {
                missing.push(COL_ELITE);
            }
            proof {
                req.take(4).lemma_filter_push(req[4], missing_pred);
                assert(req.take(5) == req.take(4).push(req[4]));
                assert(missing@.map_values(|c: &str| c@) =~= req.take(5).filter(missing_pred));
            }
            if potential.is_none() {
                missing.push(COL_POTENTIAL);
            }
            proof {
                req.take(5).lemma_filter_push(req[5], missing_pred);
                assert(req.take(6) == req.take(5).push(req[5]));
                assert(missing@.map_values(|c: &str| c@) =~= req.take(6).filter(missing_pred));
                assert(req.take(6) == req);
            }
            Err(MissingColumns { missing })
        },
    }
}

} // verus!
