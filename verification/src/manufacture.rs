//! Factory inputs: line scenarios, recipe modes, operators, per-recipe
//! storage limits, and the skill families the factory model recognises.

use vstd::prelude::*;

use crate::text::str_eq;
use crate::tier::{spec_tier_of, PromotionTier};
use crate::types::{EffectAtom, RecipeKind, Selector};

verus! {

/// Production lines assumed for a factory search: lines of one recipe share
/// one three-operator team.
#[derive(Debug, Clone, Copy, PartialEq, Eq, Structural)]
pub struct ManuLineScenario {
    pub gold_lines: u8,
    pub battle_record_lines: u8,
    pub originium_lines: u8,
}

/// `a + b`, or 255 when larger.
pub open spec fn sat_add_u8(a: int, b: int) -> int {
    if a + b > 255 {
        255
    } else {
        a + b
    }
}

impl ManuLineScenario {
    /// The default baseline: four lines, two gold and two battle record.
    pub fn standard_four_lines() -> (res: Self)
        ensures
            res == (ManuLineScenario { gold_lines: 2, battle_record_lines: 2, originium_lines: 0 }),
    {
        ManuLineScenario { gold_lines: 2, battle_record_lines: 2, originium_lines: 0 }
    }

    /// Number of lines, saturating at 255.
    pub fn total_lines(self) -> (res: u8)
        ensures
            res == sat_add_u8(sat_add_u8(self.gold_lines as int, self.battle_record_lines as int), self.originium_lines as int),
    {
        self.gold_lines.saturating_add(self.battle_record_lines).saturating_add(self.originium_lines)
    }

    /// The recipes with at least one line, with their line counts, in the
    /// order gold, battle record, originium.
    pub fn active_recipes(self) -> (res: Vec<(RecipeKind, u8)>)
        ensures
            res@ == seq![
                (RecipeKind::Gold, self.gold_lines),
                (RecipeKind::BattleRecord, self.battle_record_lines),
                (RecipeKind::Originium, self.originium_lines),
            ].filter(|p: (RecipeKind, u8)| p.1 > 0),
    {
        let mut out: Vec<(RecipeKind, u8)> = Vec::new();
        if self.gold_lines > 0 {
            out.push((RecipeKind::Gold, self.gold_lines));
        }
        if self.battle_record_lines > 0 {
            out.push((RecipeKind::BattleRecord, self.battle_record_lines));
        }
        if self.originium_lines > 0 {
            out.push((RecipeKind::Originium, self.originium_lines));
        }
        proof {
            let all = seq![
                (RecipeKind::Gold, self.gold_lines),
                (RecipeKind::BattleRecord, self.battle_record_lines),
                (RecipeKind::Originium, self.originium_lines),
            ];
            let pred = |p: (RecipeKind, u8)| p.1 > 0;
            assert(all.take(0) == Seq::<(RecipeKind, u8)>::empty());
            assert(all.take(1) == all.take(0).push(all[0]));
            assert(all.take(2) == all.take(1).push(all[1]));
            assert(all.take(3) == all.take(2).push(all[2]));
            all.take(0).lemma_filter_push(all[0], pred);
            all.take(1).lemma_filter_push(all[1], pred);
            all.take(2).lemma_filter_push(all[2], pred);
            assert(all.take(3) == all);
            assert(Seq::<(RecipeKind, u8)>::empty().filter(pred) =~= Seq::<(RecipeKind, u8)>::empty());
            assert(out@ =~= all.filter(pred));
        }
        out
    }
}

/// How a factory search values recipes.
#[derive(Debug, Clone, Copy, PartialEq, Eq, Structural)]
pub enum ManuSearchRecipeMode {
    /// One recipe only.
    Single(RecipeKind),
    /// A sum weighted by the number of lines.
    Lines(ManuLineScenario),
}

impl Default for ManuSearchRecipeMode {
    fn default() -> (res: Self)
        ensures
            res == ManuSearchRecipeMode::Lines(
                ManuLineScenario { gold_lines: 2, battle_record_lines: 2, originium_lines: 0 },
            ),
    {
        ManuSearchRecipeMode::Lines(ManuLineScenario::standard_four_lines())
    }
}

impl ManuSearchRecipeMode {
    /// Gold only.
    pub fn single_gold() -> (res: Self)
        ensures
            res == ManuSearchRecipeMode::Single(RecipeKind::Gold),
    {
        ManuSearchRecipeMode::Single(RecipeKind::Gold)
    }
}

/// One factory operator with its skills.
#[derive(Debug)]
pub struct ManuOperator {
    pub name: String,
    pub elite: u8,
    pub buff_ids: Vec<String>,
    pub tags: Vec<String>,
}

impl ManuOperator {
    /// The promotion tier the elite stage gives.
    pub fn tier(&self) -> (res: PromotionTier)
        ensures
            res == spec_tier_of(self.elite, 0),
    {
        PromotionTier::from_elite(self.elite)
    }

    /// An operator without group tags.
    pub fn new(name: &str, elite: u8, buff_ids: Vec<String>) -> (res: Self)
        ensures
            res.name@ == name@,
            res.elite == elite,
            res.buff_ids == buff_ids,
            res.tags@.len() == 0,
    {
        ManuOperator { name: String::from_str(name), elite, buff_ids, tags: Vec::new() }
    }
}

/// Storage limit changes, for all recipes and per recipe.
#[derive(Debug, Clone, Copy, PartialEq, Eq, Default, Structural)]
pub struct RecipeLimit {
    pub all: i32,
    pub battle_record: i32,
    pub gold: i32,
    pub originium: i32,
}

/// The recipe-specific part of a limit.
pub open spec fn recipe_part(l: RecipeLimit, recipe: RecipeKind) -> int {
    match recipe {
        RecipeKind::All => 0,
        RecipeKind::BattleRecord => l.battle_record as int,
        RecipeKind::Gold => l.gold as int,
        RecipeKind::Originium => l.originium as int,
    }
}

/// The limit `add` leaves: `delta` added to the part of `recipe` (to the
/// shared part when no recipe or `All`).
pub open spec fn limit_added(l: RecipeLimit, recipe: Option<RecipeKind>, delta: int) -> (int, int, int, int) {
    match recipe {
        None | Some(RecipeKind::All) => (l.all + delta, l.battle_record as int, l.gold as int, l.originium as int),
        Some(RecipeKind::BattleRecord) => (l.all as int, l.battle_record + delta, l.gold as int, l.originium as int),
        Some(RecipeKind::Gold) => (l.all as int, l.battle_record as int, l.gold + delta, l.originium as int),
        Some(RecipeKind::Originium) => (l.all as int, l.battle_record as int, l.gold as int, l.originium + delta),
    }
}

/// The sum fits an `i32`.
pub open spec fn fits_i32(v: int) -> bool {
    i32::MIN <= v <= i32::MAX
}

impl RecipeLimit {
    /// The limit change for `recipe`: the shared part plus its own part.
    pub fn for_recipe(&self, recipe: RecipeKind) -> (res: i32)
        requires
            fits_i32(self.all + recipe_part(*self, recipe)),
        ensures
            res == self.all + recipe_part(*self, recipe),
    {
        self.all + match recipe {
            RecipeKind::All => 0,
            RecipeKind::BattleRecord => self.battle_record,
            RecipeKind::Gold => self.gold,
            RecipeKind::Originium => self.originium,
        }
    }

    /// Adds `delta` to the part of `recipe` (the shared part for none or
    /// `All`).
    pub fn add(&mut self, recipe: Option<RecipeKind>, delta: i32)
        requires
            ({
                let r = limit_added(*old(self), recipe, delta as int);
                fits_i32(r.0) && fits_i32(r.1) && fits_i32(r.2) && fits_i32(r.3)
            }),
        ensures
            ({
                let r = limit_added(*old(self), recipe, delta as int);
                final(self).all == r.0 && final(self).battle_record == r.1 && final(self).gold == r.2
                    && final(self).originium == r.3
            }),
    {
        match recipe {
            None | Some(RecipeKind::All) => self.all = self.all + delta,
            Some(RecipeKind::BattleRecord) => self.battle_record = self.battle_record + delta,
            Some(RecipeKind::Gold) => self.gold = self.gold + delta,
            Some(RecipeKind::Originium) => self.originium = self.originium + delta,
        }
    }
}

/// Base storage of a factory: 10 at level 1, 15 at level 2, 20 otherwise.
pub open spec fn spec_base_storage(level: u8) -> i32 {
    if level == 1 {
        10
    } else if level == 2 {
        15
    } else {
        20
    }
}

/// Base storage of a factory of `level`.
pub fn facility_base_storage(level: u8) -> (res: i32)
    ensures
        res == spec_base_storage(level),
{
    match level {
        1 => 10,
        2 => 15,
        3 => 20,
        _ => 20,
    }
}

/// Storage per recipe.
#[derive(Debug, Clone, Copy, PartialEq, Eq, Default, Structural)]
pub struct ManuStorageBreakdown {
    pub gold: i32,
    pub battle_record: i32,
    pub originium: i32,
}

/// The atom's efficiency counts as a layout bonus: its selector counts trade
/// posts, power plants or platforms in power plants.
pub open spec fn spec_eff_target_is_layout(atom: EffectAtom) -> bool {
    match atom.selector {
        Some(Selector::TradeStationCount) | Some(Selector::PowerStationCount) | Some(
            Selector::PlatformCountInPower,
        ) => true,
        _ => false,
    }
}

/// Whether the atom's efficiency counts as a layout bonus.
pub fn eff_target_is_layout(atom: &EffectAtom) -> (res: bool)
    ensures
        res == spec_eff_target_is_layout(*atom),
{
    match &atom.selector {
        Some(Selector::TradeStationCount) | Some(Selector::PowerStationCount) | Some(
            Selector::PlatformCountInPower,
        ) => true,
        _ => false,
    }
}

/// A limit change without recipe (or for all recipes) counts as a storage
/// contribution.
pub fn limit_delta_counts_as_contrib(recipe: &Option<RecipeKind>) -> (res: bool)
    ensures
        res == (*recipe is None || *recipe == Some(RecipeKind::All)),
{
    match recipe {
        None | Some(RecipeKind::All) => true,
        _ => false,
    }
}

/// The metal-formula skills.
pub open spec fn spec_is_metal_formula(id: Seq<char>) -> bool {
    id == "manu_formula_spd[100]"@ || id == "manu_formula_spd[101]"@ || id == "manu_formula_spd[110]"@
}

/// Whether `buff_id` is a metal-formula skill.
pub fn is_metal_formula_buff(buff_id: &str) -> (res: bool)
    ensures
        res == spec_is_metal_formula(buff_id@),
{
    str_eq(buff_id, "manu_formula_spd[100]") || str_eq(buff_id, "manu_formula_spd[101]") || str_eq(
        buff_id,
        "manu_formula_spd[110]",
    )
}

/// The standardisation skills.
pub open spec fn spec_is_standard_skill(id: Seq<char>) -> bool {
    id == "manu_prod_spd[000]"@ || id == "manu_prod_spd[010]"@
}

/// Whether `buff_id` is a standardisation skill.
pub fn is_standard_skill_buff(buff_id: &str) -> (res: bool)
    ensures
        res == spec_is_standard_skill(buff_id@),
{
    str_eq(buff_id, "manu_prod_spd[000]") || str_eq(buff_id, "manu_prod_spd[010]")
}

/// The Rhine technology skills.
pub open spec fn spec_is_rhine_skill(id: Seq<char>) -> bool {
    id == "manu_prod_spd[001]"@ || id == "manu_prod_spd[011]"@ || id == "manu_prod_spd[021]"@
}

/// Whether `buff_id` is a Rhine technology skill.
pub fn is_rhine_skill_buff(buff_id: &str) -> (res: bool)
    ensures
        res == spec_is_rhine_skill(buff_id@),
{
    str_eq(buff_id, "manu_prod_spd[001]") || str_eq(buff_id, "manu_prod_spd[011]") || str_eq(
        buff_id,
        "manu_prod_spd[021]",
    )
}

/// The pinecone skills.
pub open spec fn spec_is_pinecone_skill(id: Seq<char>) -> bool {
    id == "manu_prod_spd[002]"@ || id == "manu_prod_spd[012]"@
}

/// Whether `buff_id` is a pinecone skill.
pub fn is_pinecone_skill_buff(buff_id: &str) -> (res: bool)
    ensures
        res == spec_is_pinecone_skill(buff_id@),
{
    str_eq(buff_id, "manu_prod_spd[002]") || str_eq(buff_id, "manu_prod_spd[012]")
}

} // verus!
