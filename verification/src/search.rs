//! Role-pick steps of the trade search, the classes the control-center fill
//! gives its candidates by their skills, and the factory candidates that can
//! raise the output of a recipe.

use vstd::prelude::*;

use crate::control::ControlOperator;
use crate::layout::Efficiency;
use crate::pool::base::clone_skipped;
use crate::pool::control::ControlPoolEntry;
use crate::pool::manufacture::{manu_view, manu_views, ManuPool, ManuPoolEntry};
use crate::pool::ranked::RankedParts;
use crate::skill_table::{lookup_skill, Skill, SkillTable};
use crate::text::{
    has_name, lemma_seq_lt_irreflexive, lemma_seq_lt_total, lemma_seq_lt_transitive, push_unique, seq_lt,
    seq_starts_with, starts_with, str_eq, str_lt,
};
use crate::types::{Action, Condition, EffectAtom, RecipeKind};

verus! {

/// One step of a role pick: the operators a picked trade team must include.
#[derive(Debug)]
pub struct RolePickStep {
    pub must_include_name: Option<String>,
    pub must_include_names: Vec<String>,
}

/// `v` followed by each of `names` not yet listed.
pub open spec fn append_new(v: Seq<String>, names: Seq<String>) -> Seq<String>
    decreases names.len(),
{
    if names.len() == 0 {
        v
    } else {
        let prev = append_new(v, names.drop_last());
        if has_name(prev, names.last()@) {
            prev
        } else {
            prev.push(names.last())
        }
    }
}

/// The operators the step requires: the single required name first, then
/// each further name once.
pub fn step_must_include_names(step: &RolePickStep) -> (res: Vec<String>)
    ensures
        res@ == append_new(
            match step.must_include_name {
                Some(n) => seq![n],
                None => Seq::empty(),
            },
            step.must_include_names@,
        ),
{
    let mut names: Vec<String> = Vec::new();
    match &step.must_include_name {
        Some(n) => names.push(n.clone()),
        None => {},
    }
    let ghost init = names@;
    let mut k: usize = 0;
    while k < step.must_include_names.len()
        invariant
            0 <= k <= step.must_include_names@.len(),
            names@ == append_new(init, step.must_include_names@.take(k as int)),
        decreases step.must_include_names@.len() - k,
    {
        assert(step.must_include_names@.take(k + 1).drop_last() == step.must_include_names@.take(k as int));
        assert(step.must_include_names@.take(k + 1).last() == step.must_include_names@[k as int]);
        push_unique(&mut names, step.must_include_names[k].clone());
        k += 1;
    }
    assert(step.must_include_names@.take(step.must_include_names@.len() as int) == step.must_include_names@);
    names
}


// ── control-center fill classes ──

/// A skill of the passion / MyGO economy chain, left out of the fill so that
/// it does not take the remaining control seats.
pub open spec fn is_passion_chain_buff(id: Seq<char>) -> bool {
    id == "control_dorm_bd[000]"@ || id == "control_mp_bd&trade[000]"@ || id == "control_prod_bd_spd[000]"@ || id
        == "control_prod_bd_spd[010]"@
}

/// Whether a skill belongs to the passion / MyGO economy chain.
pub fn control_passion_chain_buff(buff_id: &str) -> (res: bool)
    ensures
        res == is_passion_chain_buff(buff_id@),
{
    str_eq(buff_id, "control_dorm_bd[000]") || str_eq(buff_id, "control_mp_bd&trade[000]") || str_eq(
        buff_id,
        "control_prod_bd_spd[000]",
    ) || str_eq(buff_id, "control_prod_bd_spd[010]")
}

/// A skill that produces a control resource.
pub open spec fn is_resource_producer_buff(id: Seq<char>) -> bool {
    id == "control_mp_bd[000]"@ || id == "control_mp_bd[010]"@ || id == "control_mp_bd2[000]"@ || id
        == "control_mp_cost&bd2[010]"@
}

fn control_resource_producer_buff(buff_id: &str) -> (res: bool)
    ensures
        res == is_resource_producer_buff(buff_id@),
{
    str_eq(buff_id, "control_mp_bd[000]") || str_eq(buff_id, "control_mp_bd[010]") || str_eq(
        buff_id,
        "control_mp_bd2[000]",
    ) || str_eq(buff_id, "control_mp_cost&bd2[010]")
}

/// A producer skill that works on its own (economy chain or resource).
pub open spec fn is_standalone_producer_buff(id: Seq<char>) -> bool {
    is_passion_chain_buff(id) || is_resource_producer_buff(id)
}

fn control_standalone_producer_buff(buff_id: &str) -> (res: bool)
    ensures
        res == is_standalone_producer_buff(buff_id@),
{
    control_passion_chain_buff(buff_id) || control_resource_producer_buff(buff_id)
}

/// A skill injecting trade or factory efficiency.
pub open spec fn is_efficiency_inject_buff(id: Seq<char>) -> bool {
    seq_starts_with(id, "control_prod_spd"@) || seq_starts_with(id, "control_tra_spd"@) || seq_starts_with(
        id,
        "control_token_prod_spd"@,
    ) || seq_starts_with(id, "control_tra_limit&spd"@) || seq_starts_with(id, "control_bd_spd"@) || id
        == "control_token_tra_spd[000]"@ || id == "control_prod_tra_spd[000]"@
}

fn control_efficiency_inject_buff(buff_id: &str) -> (res: bool)
    ensures
        res == is_efficiency_inject_buff(buff_id@),
{
    starts_with(buff_id, "control_prod_spd") || starts_with(buff_id, "control_tra_spd") || starts_with(
        buff_id,
        "control_token_prod_spd",
    ) || starts_with(buff_id, "control_tra_limit&spd") || starts_with(buff_id, "control_bd_spd") || str_eq(
        buff_id,
        "control_token_tra_spd[000]",
    ) || str_eq(buff_id, "control_prod_tra_spd[000]")
}

/// Whether the text holds the character `c`.
fn has_char(s: &str, c: char) -> (res: bool)
    ensures
        res == s@.contains(c),
{
    let n = s.unicode_len();
    let mut i: usize = 0;
    while i < n
        invariant
            0 <= i <= n,
            n == s@.len(),
            forall|j: int| 0 <= j < i ==> s@[j] != c,
        decreases n - i,
    {
        if s.get_char(i) == c {
            return true;
        }
        i += 1;
    }
    false
}

/// A skill whose cost is the operators' mood.
pub open spec fn is_mood_cost_buff(id: Seq<char>) -> bool {
    ||| id == "control_mp_psk[000]"@
    ||| id == "control_mp_lonely[000]"@
    ||| id == "control_mp_expand_double[000]"@
    ||| (seq_starts_with(id, "control_mp_cost["@) && !id.contains('&'))
    ||| seq_starts_with(id, "control_mp_cost&faction"@)
}

fn control_mood_cost_buff(buff_id: &str) -> (res: bool)
    ensures
        res == is_mood_cost_buff(buff_id@),
{
    str_eq(buff_id, "control_mp_psk[000]") || str_eq(buff_id, "control_mp_lonely[000]") || str_eq(
        buff_id,
        "control_mp_expand_double[000]",
    ) || (starts_with(buff_id, "control_mp_cost[") && !has_char(buff_id, '&')) || starts_with(
        buff_id,
        "control_mp_cost&faction",
    )
}

/// A loose piece outside the systems (+7 / +2 style).
pub open spec fn is_loose_piece_buff(id: Seq<char>) -> bool {
    id == "control_hire_spd&bd[000]"@ || id == "control_tra_limit&spd[000]"@
}

/// A skill of the layered fill: a loose piece or a mood-cost skill (no clue
/// skill is classified yet).
pub open spec fn is_layered_fill_buff(id: Seq<char>) -> bool {
    is_loose_piece_buff(id) || is_mood_cost_buff(id)
}

fn control_layered_fill_buff(buff_id: &str) -> (res: bool)
    ensures
        res == is_layered_fill_buff(buff_id@),
{
    str_eq(buff_id, "control_hire_spd&bd[000]") || str_eq(buff_id, "control_tra_limit&spd[000]")
        || control_mood_cost_buff(buff_id)
}

/// Which of the skill classes a search is after.
#[derive(Debug, Clone, Copy, PartialEq, Eq, Structural)]
pub enum FillSkillClass {
    EfficiencyInject,
    StandaloneProducer,
    MoodCost,
    LayeredFill,
}

/// The skill is of the class.
pub open spec fn in_fill_class(id: Seq<char>, class: FillSkillClass) -> bool {
    match class {
        FillSkillClass::EfficiencyInject => is_efficiency_inject_buff(id),
        FillSkillClass::StandaloneProducer => is_standalone_producer_buff(id),
        FillSkillClass::MoodCost => is_mood_cost_buff(id),
        FillSkillClass::LayeredFill => is_layered_fill_buff(id),
    }
}

/// Some skill of the entry is of the class.
pub open spec fn entry_has_fill_class(e: ControlPoolEntry, class: FillSkillClass) -> bool {
    exists|k: int| 0 <= k < e.buff_ids@.len() && #[trigger] in_fill_class(e.buff_ids@[k]@, class)
}

/// Whether some skill of the entry is of the class.
fn any_buff_in(entry: &ControlPoolEntry, class: FillSkillClass) -> (res: bool)
    ensures
        res == entry_has_fill_class(*entry, class),
{
    let mut k: usize = 0;
    while k < entry.buff_ids.len()
        invariant
            0 <= k <= entry.buff_ids@.len(),
            forall|j: int| 0 <= j < k ==> !#[trigger] in_fill_class(entry.buff_ids@[j]@, class),
        decreases entry.buff_ids@.len() - k,
    {
        let b = entry.buff_ids[k].as_str();
        let hit = match class {
            FillSkillClass::EfficiencyInject => control_efficiency_inject_buff(b),
            FillSkillClass::StandaloneProducer => control_standalone_producer_buff(b),
            FillSkillClass::MoodCost => control_mood_cost_buff(b),
            FillSkillClass::LayeredFill => control_layered_fill_buff(b),
        };
        assert(hit == in_fill_class(entry.buff_ids@[k as int]@, class));
        if hit {
            return true;
        }
        k += 1;
    }
    false
}

/// 琴柳 never fills a control seat by skill class.
pub open spec fn is_excluded_filler(name: Seq<char>) -> bool {
    name == "琴柳"@
}

/// The entry fills by an efficiency inject.
pub open spec fn spec_core_inject_fill(e: ControlPoolEntry) -> bool {
    !is_excluded_filler(e.name@) && entry_has_fill_class(e, FillSkillClass::EfficiencyInject)
}

/// The entry fills by an efficiency inject.
pub fn control_entry_core_inject_fill(entry: &ControlPoolEntry) -> (res: bool)
    ensures
        res == spec_core_inject_fill(*entry),
{
    if str_eq(entry.name.as_str(), "琴柳") {
        return false;
    }
    any_buff_in(entry, FillSkillClass::EfficiencyInject)
}

/// The entry fills by a mood-cost skill and produces nothing on its own.
pub open spec fn spec_mood_cost_fill(e: ControlPoolEntry) -> bool {
    &&& !is_excluded_filler(e.name@)
    &&& !entry_has_fill_class(e, FillSkillClass::StandaloneProducer)
    &&& entry_has_fill_class(e, FillSkillClass::MoodCost)
}

/// The entry fills by a mood-cost skill.
pub fn control_entry_mood_cost_fill(entry: &ControlPoolEntry) -> (res: bool)
    ensures
        res == spec_mood_cost_fill(*entry),
{
    if str_eq(entry.name.as_str(), "琴柳") {
        return false;
    }
    if any_buff_in(entry, FillSkillClass::StandaloneProducer) {
        return false;
    }
    any_buff_in(entry, FillSkillClass::MoodCost)
}

/// The entry fills the layered way: a loose piece or mood-cost skill, with
/// neither a standalone producer nor an efficiency inject.
pub open spec fn spec_layered_fill(e: ControlPoolEntry) -> bool {
    &&& !is_excluded_filler(e.name@)
    &&& !entry_has_fill_class(e, FillSkillClass::StandaloneProducer)
    &&& !entry_has_fill_class(e, FillSkillClass::EfficiencyInject)
    &&& entry_has_fill_class(e, FillSkillClass::LayeredFill)
}

/// The entry fills the layered way.
pub fn control_entry_layered_fill(entry: &ControlPoolEntry) -> (res: bool)
    ensures
        res == spec_layered_fill(*entry),
{
    if str_eq(entry.name.as_str(), "琴柳") {
        return false;
    }
    if any_buff_in(entry, FillSkillClass::StandaloneProducer) || any_buff_in(entry, FillSkillClass::EfficiencyInject) {
        return false;
    }
    any_buff_in(entry, FillSkillClass::LayeredFill)
}

/// The entry may plug into a control seat: it produces nothing on its own
/// and fills by an inject or the layered way.
pub open spec fn spec_plugin_fill(e: ControlPoolEntry) -> bool {
    &&& !is_excluded_filler(e.name@)
    &&& !entry_has_fill_class(e, FillSkillClass::StandaloneProducer)
    &&& (spec_core_inject_fill(e) || spec_layered_fill(e))
}

/// Whether the entry may plug into a control seat.
pub fn control_entry_plugin_fill(entry: &ControlPoolEntry) -> (res: bool)
    ensures
        res == spec_plugin_fill(*entry),
{
    if str_eq(entry.name.as_str(), "琴柳") {
        return false;
    }
    if any_buff_in(entry, FillSkillClass::StandaloneProducer) {
        return false;
    }
    control_entry_core_inject_fill(entry) || control_entry_layered_fill(entry)
}

/// Sort weight of one skill in the efficiency fill: 100 for trade injects,
/// 80 for factory injects, 60 for the limit-and-speed and dual injects, 10
/// for the hire-and-dorm skill, 0 otherwise.
pub open spec fn buff_fill_weight(id: Seq<char>) -> int {
    if seq_starts_with(id, "control_tra_spd"@) || id == "control_token_tra_spd[000]"@ {
        100
    } else if seq_starts_with(id, "control_prod_spd"@) || seq_starts_with(id, "control_token_prod_spd"@) || id
        == "control_bd_spd[000]"@ {
        80
    } else if seq_starts_with(id, "control_tra_limit&spd"@) || id == "control_prod_tra_spd[000]"@ {
        60
    } else if id == "control_hire_spd&bd[000]"@ {
        10
    } else {
        0
    }
}

/// The summed weight of the skills.
pub open spec fn fill_weight_sum(ids: Seq<String>) -> int
    decreases ids.len(),
{
    if ids.len() == 0 {
        0
    } else {
        fill_weight_sum(ids.drop_last()) + buff_fill_weight(ids.last()@)
    }
}

proof fn lemma_fill_weight_bound(ids: Seq<String>)
    ensures
        0 <= fill_weight_sum(ids) <= 100 * ids.len(),
    decreases ids.len(),
{
    if ids.len() > 0 {
        lemma_fill_weight_bound(ids.drop_last());
    }
}

/// The efficiency-fill sort weight of an entry: the summed weight of its
/// skills.
pub fn control_efficiency_fill_sort_weight(entry: &ControlPoolEntry) -> (res: u128)
    ensures
        res as int == fill_weight_sum(entry.buff_ids@),
{
    let mut weight: u128 = 0;
    let mut k: usize = 0;
    assert(entry.buff_ids@.take(0) =~= Seq::<String>::empty());
    while k < entry.buff_ids.len()
        invariant
            0 <= k <= entry.buff_ids@.len(),
            weight as int == fill_weight_sum(entry.buff_ids@.take(k as int)),
        decreases entry.buff_ids@.len() - k,
    {
        let bid = entry.buff_ids[k].as_str();
        assert(entry.buff_ids@.take(k + 1).drop_last() =~= entry.buff_ids@.take(k as int));
        assert(entry.buff_ids@.take(k + 1).last() == entry.buff_ids@[k as int]);
        proof {
            lemma_fill_weight_bound(entry.buff_ids@.take(k as int));
        }
        let w: u128 = if starts_with(bid, "control_tra_spd") || str_eq(bid, "control_token_tra_spd[000]") {
            100
        } else if starts_with(bid, "control_prod_spd") || starts_with(bid, "control_token_prod_spd") || str_eq(
            bid,
            "control_bd_spd[000]",
        ) {
            80
        } else if starts_with(bid, "control_tra_limit&spd") || str_eq(bid, "control_prod_tra_spd[000]") {
            60
        } else if str_eq(bid, "control_hire_spd&bd[000]") {
            10
        } else {
            0
        };
        weight = weight + w;
        k += 1;
    }
    assert(entry.buff_ids@.take(entry.buff_ids@.len() as int) =~= entry.buff_ids@);
    weight
}

// ── factory candidates that can raise a recipe's output ──

/// The recipe filter of an action lets `recipe` through: none, `All`, or the
/// recipe itself.
pub open spec fn spec_recipe_filter_matches(filter: Option<RecipeKind>, recipe: RecipeKind) -> bool {
    filter is None || filter == Some(RecipeKind::All) || filter == Some(recipe)
}

/// Whether the recipe filter of an action lets `recipe` through.
pub fn recipe_filter_matches(filter: Option<RecipeKind>, recipe: RecipeKind) -> (res: bool)
    ensures
        res == spec_recipe_filter_matches(filter, recipe),
{
    match filter {
        None => true,
        Some(RecipeKind::All) => true,
        Some(f) => f == recipe,
    }
}

/// The atom's condition can hold while the factory makes `recipe`: only an
/// active-recipe condition for another recipe cannot.
pub open spec fn spec_condition_can_match_recipe(condition: Option<Condition>, recipe: RecipeKind) -> bool {
    match condition {
        Some(Condition::ActiveRecipe { kind }) => kind == recipe,
        _ => true,
    }
}

/// Whether the atom's condition can hold while the factory makes `recipe`.
pub fn atom_condition_can_match_recipe(condition: &Option<Condition>, recipe: RecipeKind) -> (res: bool)
    ensures
        res == spec_condition_can_match_recipe(*condition, recipe),
{
    match condition {
        Some(Condition::ActiveRecipe { kind }) => *kind == recipe,
        _ => true,
    }
}

/// The atom can raise the production of `recipe`: its condition can hold,
/// and its action is a positive flat bonus for the recipe, a positive
/// selector bonus for the recipe, a ramp with a positive cap that starts or
/// grows above zero, a bucket bonus with a positive step and cap, a positive
/// share of the storage contributions, or a positive conversion of a state
/// pool into efficiency (a missing multiplier counting as one).
pub open spec fn spec_atom_can_contribute(atom: EffectAtom, recipe: RecipeKind) -> bool {
    spec_condition_can_match_recipe(atom.condition, recipe) && match atom.action {
        Action::AddFlatEff { value_milli, recipe: r } => value_milli > 0 && spec_recipe_filter_matches(r, recipe),
        Action::AddFlatEffFromSelector { multiplier_milli, recipe: r } => multiplier_milli > 0
            && spec_recipe_filter_matches(r, recipe),
        Action::AddEffRamp { initial_milli, per_hour_milli, cap_milli } => cap_milli > 0 && (initial_milli > 0
            || per_hour_milli > 0),
        Action::AddBucketEffFromSelector { ret_per_step_milli, cap_milli } => ret_per_step_milli > 0 && cap_milli > 0,
        Action::AddEffFromLimitContribSum { rate_milli } => rate_milli > 0,
        Action::AddEffFromLimitContribTiered { low_rate_milli, high_rate_milli } => low_rate_milli > 0
            || high_rate_milli > 0,
        Action::StateConsumeToEff { div_milli, multiplier_milli, .. } => div_milli > 0 && match multiplier_milli {
            Some(m) => m > 0,
            None => true,
        },
        _ => false,
    }
}

/// When an atom can raise the production of `recipe`. Its condition must
/// not require another active recipe. Then: a flat bonus or a selector-scaled
/// flat bonus counts when positive and its recipe filter (none, `All`, or a
/// recipe) lets the recipe through; a ramp when its cap is positive and it
/// starts or grows above zero; a bucket bonus when step and cap are
/// positive; a storage-contribution share when positive (either rate of the
/// tiered one); a pool consumed into efficiency when its divisor is positive
/// and its multiplier, if given, too; no other action counts.
pub proof fn lemma_contribution_rules(atom: EffectAtom, recipe: RecipeKind)
    ensures
        (atom.condition matches Some(Condition::ActiveRecipe { kind }) && kind != recipe) ==> !spec_atom_can_contribute(
            atom,
            recipe,
        ),
        !(atom.condition matches Some(Condition::ActiveRecipe { kind }) && kind != recipe) ==> {
            &&& atom.action matches Action::AddFlatEff { value_milli, recipe: r } ==> (spec_atom_can_contribute(
                atom,
                recipe,
            ) <==> value_milli > 0 && (r is None || r == Some(RecipeKind::All) || r == Some(recipe)))
            &&& atom.action matches Action::AddFlatEffFromSelector { multiplier_milli, recipe: r } ==> (
            spec_atom_can_contribute(atom, recipe) <==> multiplier_milli > 0 && (r is None || r == Some(
                RecipeKind::All,
            ) || r == Some(recipe)))
            &&& atom.action matches Action::AddEffRamp { initial_milli, per_hour_milli, cap_milli } ==> (
            spec_atom_can_contribute(atom, recipe) <==> cap_milli > 0 && (initial_milli > 0 || per_hour_milli > 0))
            &&& atom.action matches Action::AddBucketEffFromSelector { ret_per_step_milli, cap_milli } ==> (
            spec_atom_can_contribute(atom, recipe) <==> ret_per_step_milli > 0 && cap_milli > 0)
            &&& atom.action matches Action::AddEffFromLimitContribSum { rate_milli } ==> (spec_atom_can_contribute(
                atom,
                recipe,
            ) <==> rate_milli > 0)
            &&& atom.action matches Action::AddEffFromLimitContribTiered { low_rate_milli, high_rate_milli } ==> (
            spec_atom_can_contribute(atom, recipe) <==> low_rate_milli > 0 || high_rate_milli > 0)
            &&& atom.action matches Action::StateConsumeToEff { div_milli, multiplier_milli, .. } ==> (
            spec_atom_can_contribute(atom, recipe) <==> div_milli > 0 && (multiplier_milli is None
                || multiplier_milli.unwrap() > 0))
        },
        !(atom.action is AddFlatEff || atom.action is AddFlatEffFromSelector || atom.action is AddEffRamp
            || atom.action is AddBucketEffFromSelector || atom.action is AddEffFromLimitContribSum
            || atom.action is AddEffFromLimitContribTiered || atom.action is StateConsumeToEff)
            ==> !spec_atom_can_contribute(atom, recipe),
{
}

/// A selector-scaled flat bonus counts for a recipe exactly when a plain
/// flat bonus of the same sign, recipe filter and condition does.
pub proof fn lemma_selector_bonus_like_flat(a: EffectAtom, b: EffectAtom, recipe: RecipeKind)
    requires
        a.condition == b.condition,
        a.action matches Action::AddFlatEff { value_milli: v, recipe: ra },
        b.action matches Action::AddFlatEffFromSelector { multiplier_milli: m, recipe: rb },
        a.action->AddFlatEff_recipe == b.action->AddFlatEffFromSelector_recipe,
        (a.action->AddFlatEff_value_milli > 0) == (b.action->AddFlatEffFromSelector_multiplier_milli > 0),
    ensures
        spec_atom_can_contribute(a, recipe) == spec_atom_can_contribute(b, recipe),
{
}

/// Whether the atom can raise the production of `recipe`.
pub fn atom_can_contribute_prod_for_recipe(atom: &EffectAtom, recipe: RecipeKind) -> (res: bool)
    ensures
        res == spec_atom_can_contribute(*atom, recipe),
{
    if !atom_condition_can_match_recipe(&atom.condition, recipe) {
        return false;
    }
    match &atom.action {
        Action::AddFlatEff { value_milli, recipe: r } => *value_milli > 0 && recipe_filter_matches(*r, recipe),
        Action::AddFlatEffFromSelector { multiplier_milli, recipe: r } => *multiplier_milli > 0
            && recipe_filter_matches(*r, recipe),
        Action::AddEffRamp { initial_milli, per_hour_milli, cap_milli } => *cap_milli > 0 && (*initial_milli > 0
            || *per_hour_milli > 0),
        Action::AddBucketEffFromSelector { ret_per_step_milli, cap_milli } => *ret_per_step_milli > 0 && *cap_milli
            > 0,
        Action::AddEffFromLimitContribSum { rate_milli } => *rate_milli > 0,
        Action::AddEffFromLimitContribTiered { low_rate_milli, high_rate_milli } => *low_rate_milli > 0
            || *high_rate_milli > 0,
        Action::StateConsumeToEff { div_milli, multiplier_milli, .. } => *div_milli > 0 && match multiplier_milli {
            Some(m) => *m > 0,
            None => true,
        },
        _ => false,
    }
}

/// The skill is a factory skill with an atom that can raise the production
/// of `recipe`.
pub open spec fn spec_skill_productive(skill: Skill, recipe: RecipeKind) -> bool {
    skill.facility@ == "manufacture"@ && exists|k: int|
        0 <= k < skill.atoms@.len() && spec_atom_can_contribute(#[trigger] skill.atoms@[k], recipe)
}

/// Whether the skill is a factory skill that can raise the production of
/// `recipe`.
pub fn skill_has_productive_eff_for_recipe(skill: &Skill, recipe: RecipeKind) -> (res: bool)
    ensures
        res == spec_skill_productive(*skill, recipe),
{
    if !str_eq(skill.facility.as_str(), "manufacture") {
        return false;
    }
    let mut k: usize = 0;
    while k < skill.atoms.len()
        invariant
            0 <= k <= skill.atoms@.len(),
            skill.facility@ == "manufacture"@,
            forall|j: int| 0 <= j < k ==> !spec_atom_can_contribute(#[trigger] skill.atoms@[j], recipe),
        decreases skill.atoms@.len() - k,
    {
        if atom_can_contribute_prod_for_recipe(&skill.atoms[k], recipe) {
            return true;
        }
        k += 1;
    }
    false
}

/// Some skill of `buffs` in the table can raise the production of `recipe`.
pub open spec fn buffs_productive(buffs: Seq<String>, skills: Seq<Skill>, recipe: RecipeKind) -> bool {
    exists|k: int|
        0 <= k < buffs.len() && (lookup_skill(skills, #[trigger] buffs[k]@) matches Some(s) && spec_skill_productive(
            s,
            recipe,
        ))
}

/// The entries, in order, with a skill that can raise the production of
/// `recipe`.
pub open spec fn productive_entries(
    v: Seq<(Seq<char>, RankedParts)>,
    skills: Seq<Skill>,
    recipe: RecipeKind,
) -> Seq<(Seq<char>, RankedParts)>
    decreases v.len(),
{
    if v.len() == 0 {
        Seq::empty()
    } else {
        let p = productive_entries(v.drop_last(), skills, recipe);
        if buffs_productive(v.last().1.2, skills, recipe) {
            p.push(v.last())
        } else {
            p
        }
    }
}

/// A candidate's skills can raise a recipe's production when some of them
/// can: none when it has no skills, and for two lists of skills exactly when
/// one of the lists can; a single skill can when the table's skill of that
/// id is a factory skill with an atom that can raise the recipe.
pub proof fn lemma_buffs_productive(a: Seq<String>, b: Seq<String>, skills: Seq<Skill>, recipe: RecipeKind)
    ensures
        !buffs_productive(Seq::empty(), skills, recipe),
        buffs_productive(a + b, skills, recipe) == (buffs_productive(a, skills, recipe) || buffs_productive(
            b,
            skills,
            recipe,
        )),
        b.len() == 1 ==> (buffs_productive(b, skills, recipe) <==> (lookup_skill(skills, b[0]@) matches Some(sk)
            && sk.facility@ == "manufacture"@ && exists|k: int|
            0 <= k < sk.atoms@.len() && spec_atom_can_contribute(#[trigger] sk.atoms@[k], recipe))),
{
    let c = a + b;
    if buffs_productive(c, skills, recipe) {
        let k = choose|k: int|
            0 <= k < c.len() && (lookup_skill(skills, #[trigger] c[k]@) matches Some(s) && spec_skill_productive(
                s,
                recipe,
            ));
        if k < a.len() {
            assert(c[k] == a[k]);
        } else {
            assert(c[k] == b[k - a.len()]);
        }
    }
    if buffs_productive(a, skills, recipe) {
        let k = choose|k: int|
            0 <= k < a.len() && (lookup_skill(skills, #[trigger] a[k]@) matches Some(s) && spec_skill_productive(
                s,
                recipe,
            ));
        assert(c[k] == a[k]);
    }
    if buffs_productive(b, skills, recipe) {
        let k = choose|k: int|
            0 <= k < b.len() && (lookup_skill(skills, #[trigger] b[k]@) matches Some(s) && spec_skill_productive(
                s,
                recipe,
            ));
        assert(c[a.len() + k] == b[k]);
    }
}

/// Narrowing a factory pool keeps, in order, exactly the candidates whose
/// skills can raise the recipe's production: over two runs of candidates
/// it keeps those of the first followed by those of the second, and a single
/// candidate is kept exactly when its skills can.
pub proof fn lemma_productive_entries(
    a: Seq<(Seq<char>, RankedParts)>,
    b: Seq<(Seq<char>, RankedParts)>,
    skills: Seq<Skill>,
    recipe: RecipeKind,
)
    ensures
        productive_entries(a + b, skills, recipe) == productive_entries(a, skills, recipe) + productive_entries(
            b,
            skills,
            recipe,
        ),
        b.len() == 1 ==> productive_entries(b, skills, recipe) == (if buffs_productive(b[0].1.2, skills, recipe) {
            seq![b[0]]
        } else {
            Seq::empty()
        }),
    decreases b.len(),
{
    if b.len() == 1 {
        assert(b.drop_last() == Seq::<(Seq<char>, RankedParts)>::empty());
        assert(b.last() == b[0]);
        assert(productive_entries(b.drop_last(), skills, recipe) == Seq::<(Seq<char>, RankedParts)>::empty());
        assert(productive_entries(b, skills, recipe) =~= (if buffs_productive(b[0].1.2, skills, recipe) {
            seq![b[0]]
        } else {
            Seq::empty()
        }));
    }
    if b.len() == 0 {
        assert(a + b == a);
        assert(productive_entries(a, skills, recipe) + productive_entries(b, skills, recipe) =~= productive_entries(
            a,
            skills,
            recipe,
        ));
    } else {
        lemma_productive_entries(a, b.drop_last(), skills, recipe);
        assert((a + b).drop_last() == a + b.drop_last());
        assert((a + b).last() == b.last());
        assert(productive_entries(a + b, skills, recipe) =~= productive_entries(a, skills, recipe)
            + productive_entries(b, skills, recipe));
    }
}

/// Whether some skill of the entry can raise the production of `recipe`.
fn entry_productive(entry: &ManuPoolEntry, table: &SkillTable, recipe: RecipeKind) -> (res: bool)
    ensures
        res == buffs_productive(entry.buff_ids@, table.skills@, recipe),
{
    let mut k: usize = 0;
    while k < entry.buff_ids.len()
        invariant
            0 <= k <= entry.buff_ids@.len(),
            forall|j: int|
                0 <= j < k ==> !(lookup_skill(table.skills@, #[trigger] entry.buff_ids@[j]@) matches Some(s)
                    && spec_skill_productive(s, recipe)),
        decreases entry.buff_ids@.len() - k,
    {
        match table.get(entry.buff_ids[k].as_str()) {
            Some(skill) => {
                if skill_has_productive_eff_for_recipe(skill, recipe) {
                    return true;
                }
            },
            None => {},
        }
        k += 1;
    }
    false
}

/// The factory pool narrowed to the candidates with a skill that can raise
/// the production of `recipe`; the skip list is kept.
pub fn filter_recipe_productive_pool(pool: &ManuPool, table: &SkillTable, recipe: RecipeKind) -> (res: ManuPool)
    ensures
        manu_views(res.entries@) == productive_entries(manu_views(pool.entries@), table.skills@, recipe),
        res.skipped@.len() == pool.skipped@.len(),
        forall|k: int|
            0 <= k < pool.skipped@.len() ==> (#[trigger] res.skipped@[k]).0@ == pool.skipped@[k].0@
                && res.skipped@[k].1 == pool.skipped@[k].1 && res.skipped@[k].2 == pool.skipped@[k].2,
{
    let ghost pv = manu_views(pool.entries@);
    let mut entries: Vec<ManuPoolEntry> = Vec::new();
    let mut k: usize = 0;
    assert(manu_views(entries@) =~= productive_entries(pv.take(0), table.skills@, recipe));
    while k < pool.entries.len()
        invariant
            0 <= k <= pool.entries@.len(),
            pv == manu_views(pool.entries@),
            manu_views(entries@) == productive_entries(pv.take(k as int), table.skills@, recipe),
        decreases pool.entries@.len() - k,
    {
        let e = &pool.entries[k];
        assert(pv.take(k + 1).drop_last() =~= pv.take(k as int));
        assert(pv.take(k + 1).last() == manu_view(*e));
        if entry_productive(e, table, recipe) {
            let ghost before = entries@;
            entries.push(e.clone());
            assert(manu_views(entries@) =~= manu_views(before).push(manu_view(*e)));
        }
        k += 1;
    }
    assert(pv.take(k as int) =~= pv);
    ManuPool { entries, skipped: clone_skipped(&pool.skipped) }
}

// ── order of power-plant candidates ──

/// Power-plant operators that yield to others of equal charge speed.
pub open spec fn spec_low_priority_power_name(name: Seq<char>) -> bool {
    ||| name == "Castle-3"@
    ||| name == "Friston-3"@
    ||| name == "Lancet-2"@
    ||| name == "PhonoR-0"@
    ||| name == "THRM-EX"@
    ||| name == "正义骑士号"@
}

/// Whether the operator yields to others of equal charge speed.
pub fn low_priority_power_name(name: &str) -> (res: bool)
    ensures
        res == spec_low_priority_power_name(name@),
{
    str_eq(name, "Castle-3") || str_eq(name, "Friston-3") || str_eq(name, "Lancet-2") || str_eq(name, "PhonoR-0")
        || str_eq(name, "THRM-EX") || str_eq(name, "正义骑士号")
}

/// What ranks a power-plant search hit: the operator and its final charge
/// speed.
#[derive(Debug)]
pub struct PowerHitRank {
    pub name: String,
    pub final_efficiency: Efficiency,
}

/// Hit `a` comes before hit `b`: faster charge first; on a tie, an operator
/// that does not yield before one that does, then by name.
pub open spec fn spec_power_hit_precedes(a: PowerHitRank, b: PowerHitRank) -> bool {
    let la = spec_low_priority_power_name(a.name@);
    let lb = spec_low_priority_power_name(b.name@);
    ||| a.final_efficiency.milli > b.final_efficiency.milli
    ||| a.final_efficiency.milli == b.final_efficiency.milli && ((!la && lb) || (la == lb && seq_lt(
        a.name@,
        b.name@,
    )))
}

/// Whether hit `a` comes before hit `b`.
pub fn power_hit_precedes(a: &PowerHitRank, b: &PowerHitRank) -> (res: bool)
    ensures
        res == spec_power_hit_precedes(*a, *b),
{
    if a.final_efficiency.milli > b.final_efficiency.milli {
        return true;
    }
    if a.final_efficiency.milli < b.final_efficiency.milli {
        return false;
    }
    let la = low_priority_power_name(a.name.as_str());
    let lb = low_priority_power_name(b.name.as_str());
    if la != lb {
        return !la;
    }
    str_lt(a.name.as_str(), b.name.as_str())
}

/// Which power-plant hit comes first: the faster charge; on equal speed an
/// operator that does not yield before one that does; on equal speed and
/// the same yielding, the name that sorts first.
pub proof fn lemma_power_hit_precedence(a: PowerHitRank, b: PowerHitRank)
    ensures
        a.final_efficiency.milli > b.final_efficiency.milli ==> spec_power_hit_precedes(a, b),
        a.final_efficiency.milli < b.final_efficiency.milli ==> !spec_power_hit_precedes(a, b),
        (a.final_efficiency.milli == b.final_efficiency.milli && !spec_low_priority_power_name(a.name@)
            && spec_low_priority_power_name(b.name@)) ==> spec_power_hit_precedes(a, b),
        (a.final_efficiency.milli == b.final_efficiency.milli && spec_low_priority_power_name(a.name@)
            && !spec_low_priority_power_name(b.name@)) ==> !spec_power_hit_precedes(a, b),
        (a.final_efficiency.milli == b.final_efficiency.milli && spec_low_priority_power_name(a.name@)
            == spec_low_priority_power_name(b.name@)) ==> (spec_power_hit_precedes(a, b) == seq_lt(a.name@, b.name@)),
{
}

/// The order of power-plant hits is a strict total order on hits of distinct
/// operators: no hit precedes itself, of two hits exactly one comes first,
/// and it is transitive.
pub proof fn lemma_power_hit_order(a: PowerHitRank, b: PowerHitRank, c: PowerHitRank)
    ensures
        !spec_power_hit_precedes(a, a),
        spec_power_hit_precedes(a, b) ==> !spec_power_hit_precedes(b, a),
        a.name@ != b.name@ ==> spec_power_hit_precedes(a, b) || spec_power_hit_precedes(b, a),
        spec_power_hit_precedes(a, b) && spec_power_hit_precedes(b, c) ==> spec_power_hit_precedes(a, c),
{
    lemma_seq_lt_irreflexive(a.name@);
    lemma_seq_lt_total(a.name@, b.name@);
    if seq_lt(a.name@, b.name@) && seq_lt(b.name@, a.name@) {
        lemma_seq_lt_transitive(a.name@, b.name@, a.name@);
    }
    if seq_lt(a.name@, b.name@) && seq_lt(b.name@, c.name@) {
        lemma_seq_lt_transitive(a.name@, b.name@, c.name@);
    }
}

// ── layered scores of the control fill ──

/// What one skill adds to the layered fill scores (loose piece, mood, clue):
/// the Karlan trade entry 8 and the standalone hire bonus 1 as loose pieces;
/// the in-center mood skills 5 and the dormitory-wide one 2 as mood; any
/// other modeled control skill without atoms counts 5 as mood when it is a
/// plain mood-cost skill (no clue skill is classified yet).
pub open spec fn fill_buff_scores(id: Seq<char>, skills: Seq<Skill>) -> (int, int, int) {
    if id == "control_tra_limit&spd[000]"@ {
        (8, 0, 0)
    } else if id == "control_hire_spd&bd[000]"@ {
        (1, 0, 0)
    } else if id == "control_mp_cost[007]"@ || id == "control_mp_cost[010]"@ || id == "control_mp_cost[012]"@ || id
        == "control_mp_psk[000]"@ || id == "control_mp_lonely[000]"@ || id == "control_mp_expand_double[000]"@ {
        (0, 5, 0)
    } else if id == "control_dorm_rec2[000]"@ {
        (0, 2, 0)
    } else {
        match lookup_skill(skills, id) {
            Some(skill) => if skill.facility@ == "control"@ && skill.atoms@.len() == 0 && seq_starts_with(
                id,
                "control_mp_cost["@,
            ) && !id.contains('&') {
                (0, 5, 0)
            } else {
                (0, 0, 0)
            },
            None => (0, 0, 0),
        }
    }
}

/// The summed scores of the skills `buffs`.
pub open spec fn buffs_fill_scores(buffs: Seq<String>, skills: Seq<Skill>) -> (int, int, int)
    decreases buffs.len(),
{
    if buffs.len() == 0 {
        (0, 0, 0)
    } else {
        let p = buffs_fill_scores(buffs.drop_last(), skills);
        let b = fill_buff_scores(buffs.last()@, skills);
        (p.0 + b.0, p.1 + b.1, p.2 + b.2)
    }
}

/// The summed scores of the skills of `ops`.
pub open spec fn ops_fill_scores(ops: Seq<ControlOperator>, skills: Seq<Skill>) -> (int, int, int)
    decreases ops.len(),
{
    if ops.len() == 0 {
        (0, 0, 0)
    } else {
        let p = ops_fill_scores(ops.drop_last(), skills);
        let b = buffs_fill_scores(ops.last().buff_ids@, skills);
        (p.0 + b.0, p.1 + b.1, p.2 + b.2)
    }
}

/// `v`, or `u64::MAX` when larger.
pub open spec fn cap_u64(v: int) -> int {
    if v > u64::MAX {
        u64::MAX as int
    } else {
        v
    }
}

/// The layered scores of a control fill: loose pieces, mood, clues.
#[derive(Debug, Clone, Copy, PartialEq, Eq, Default, Structural)]
pub struct ControlFillTierScores {
    pub loose_piece: u64,
    pub mood: u64,
    pub clue: u64,
}

impl ControlFillTierScores {
    /// The sort bonus of the fill: loose pieces compare first, mood only
    /// breaks their ties and clues only break ties of both (in units of one
    /// ten-thousandth of a loose-piece point).
    pub fn layered_sort_bonus(self) -> (res: u128)
        ensures
            res == self.loose_piece * 10000 + self.mood * 100 + self.clue,
    {
        self.loose_piece as u128 * 10000 + self.mood as u128 * 100 + self.clue as u128
    }
}

fn add_capped(a: u64, b: u64) -> (res: u64)
    ensures
        res == cap_u64(a + b),
{
    a.saturating_add(b)
}

/// The layered scores of the skills of `operators` (each sum capped at
/// `u64::MAX`).
pub fn control_layered_fill_scores(operators: &Vec<ControlOperator>, table: &SkillTable) -> (res: ControlFillTierScores)
    ensures
        res.loose_piece == cap_u64(ops_fill_scores(operators@, table.skills@).0),
        res.mood == cap_u64(ops_fill_scores(operators@, table.skills@).1),
        res.clue == cap_u64(ops_fill_scores(operators@, table.skills@).2),
{
    let ghost skills = table.skills@;
    let mut scores = ControlFillTierScores { loose_piece: 0, mood: 0, clue: 0 };
    let mut o: usize = 0;
    assert(operators@.take(0) =~= Seq::<ControlOperator>::empty());
    while o < operators.len()
        invariant
            0 <= o <= operators@.len(),
            skills == table.skills@,
            scores.loose_piece == cap_u64(ops_fill_scores(operators@.take(o as int), skills).0),
            scores.mood == cap_u64(ops_fill_scores(operators@.take(o as int), skills).1),
            scores.clue == cap_u64(ops_fill_scores(operators@.take(o as int), skills).2),
        decreases operators@.len() - o,
    {
        let op = &operators[o];
        let ghost before = ops_fill_scores(operators@.take(o as int), skills);
        assert(operators@.take(o + 1).drop_last() =~= operators@.take(o as int));
        assert(operators@.take(o + 1).last() == *op);
        let mut b: usize = 0;
        assert(op.buff_ids@.take(0) =~= Seq::<String>::empty());
        while b < op.buff_ids.len()
            invariant
                0 <= b <= op.buff_ids@.len(),
                skills == table.skills@,
                scores.loose_piece == cap_u64(before.0 + buffs_fill_scores(op.buff_ids@.take(b as int), skills).0),
                scores.mood == cap_u64(before.1 + buffs_fill_scores(op.buff_ids@.take(b as int), skills).1),
                scores.clue == cap_u64(before.2 + buffs_fill_scores(op.buff_ids@.take(b as int), skills).2),
                before.0 >= 0 && before.1 >= 0 && before.2 >= 0,
            decreases op.buff_ids@.len() - b,
        {
            let id = op.buff_ids[b].as_str();
            assert(op.buff_ids@.take(b + 1).drop_last() =~= op.buff_ids@.take(b as int));
            assert(op.buff_ids@.take(b + 1).last()@ == id@);
            let (l, m, c): (u64, u64, u64) = if str_eq(id, "control_tra_limit&spd[000]") {
                (8, 0, 0)
            } else if str_eq(id, "control_hire_spd&bd[000]") {
                (1, 0, 0)
            } else if str_eq(id, "control_mp_cost[007]") || str_eq(id, "control_mp_cost[010]") || str_eq(
                id,
                "control_mp_cost[012]",
            ) || str_eq(id, "control_mp_psk[000]") || str_eq(id, "control_mp_lonely[000]") || str_eq(
                id,
                "control_mp_expand_double[000]",
            ) {
                (0, 5, 0)
            } else if str_eq(id, "control_dorm_rec2[000]") {
                (0, 2, 0)
            } else {
                match table.get(id) {
                    Some(skill) => {
                        if str_eq(skill.facility.as_str(), "control") && skill.atoms.len() == 0 && starts_with(
                            id,
                            "control_mp_cost[",
                        ) && !has_char(id, '&') {
                            (0, 5, 0)
                        } else {
                            (0, 0, 0)
                        }
                    },
                    None => (0, 0, 0),
                }
            };
            proof {
                lemma_buffs_fill_nonneg(op.buff_ids@.take(b as int), skills);
            }
            scores.loose_piece = add_capped(scores.loose_piece, l);
            scores.mood = add_capped(scores.mood, m);
            scores.clue = add_capped(scores.clue, c);
            b += 1;
        }
        assert(op.buff_ids@.take(b as int) =~= op.buff_ids@);
        proof {
            lemma_ops_fill_nonneg(operators@.take(o + 1), skills);
        }
        o += 1;
    }
    assert(operators@.take(o as int) =~= operators@);
    scores
}

proof fn lemma_buffs_fill_nonneg(buffs: Seq<String>, skills: Seq<Skill>)
    ensures
        buffs_fill_scores(buffs, skills).0 >= 0,
        buffs_fill_scores(buffs, skills).1 >= 0,
        buffs_fill_scores(buffs, skills).2 >= 0,
    decreases buffs.len(),
{
    if buffs.len() > 0 {
        lemma_buffs_fill_nonneg(buffs.drop_last(), skills);
    }
}

proof fn lemma_ops_fill_nonneg(ops: Seq<ControlOperator>, skills: Seq<Skill>)
    ensures
        ops_fill_scores(ops, skills).0 >= 0,
        ops_fill_scores(ops, skills).1 >= 0,
        ops_fill_scores(ops, skills).2 >= 0,
    decreases ops.len(),
{
    if ops.len() > 0 {
        lemma_ops_fill_nonneg(ops.drop_last(), skills);
        lemma_buffs_fill_nonneg(ops.last().buff_ids@, skills);
    }
}

} // verus!
