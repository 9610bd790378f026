//! Mood model keys and records: the facility and recipe keys of the mood
//! data, and the entries read from it.

use vstd::prelude::*;

use crate::layout::FacilityKind;
use crate::types::RecipeKind;

verus! {

/// The mood-data key of a facility; none for facilities without a work-mood
/// model (dormitories recover, training and workshop are not modelled).
pub open spec fn spec_facility_key(kind: FacilityKind) -> Option<Seq<char>> {
    match kind {
        FacilityKind::TradePost => Some("trade"@),
        FacilityKind::Factory => Some("factory"@),
        FacilityKind::PowerPlant => Some("power"@),
        FacilityKind::Office => Some("office"@),
        FacilityKind::ControlCenter => Some("control"@),
        FacilityKind::MeetingRoom => Some("reception"@),
        _ => None,
    }
}

/// The mood-data key of a facility.
pub fn facility_key(kind: FacilityKind) -> (res: Option<&'static str>)
    ensures
        match res {
            Some(k) => spec_facility_key(kind) == Some(k@),
            None => spec_facility_key(kind) is None,
        },
{
    match kind {
        FacilityKind::TradePost => Some("trade"),
        FacilityKind::Factory => Some("factory"),
        FacilityKind::PowerPlant => Some("power"),
        FacilityKind::Office => Some("office"),
        FacilityKind::ControlCenter => Some("control"),
        FacilityKind::MeetingRoom => Some("reception"),
        _ => None,
    }
}

/// The mood-data key of a recipe; none for `All`.
pub open spec fn spec_recipe_key(recipe: RecipeKind) -> Option<Seq<char>> {
    match recipe {
        RecipeKind::Gold => Some("gold"@),
        RecipeKind::BattleRecord => Some("battle_record"@),
        RecipeKind::Originium => Some("originium"@),
        RecipeKind::All => None,
    }
}

/// The mood-data key of a recipe.
pub fn recipe_key(recipe: RecipeKind) -> (res: Option<&'static str>)
    ensures
        match res {
            Some(k) => spec_recipe_key(recipe) == Some(k@),
            None => spec_recipe_key(recipe) is None,
        },
{
    match recipe {
        RecipeKind::Gold => Some("gold"),
        RecipeKind::BattleRecord => Some("battle_record"),
        RecipeKind::Originium => Some("originium"),
        RecipeKind::All => None,
    }
}

/// An operator that clears the self-drain effects of skills
/// (`scope`: `room` for its whole room, `self` for itself).
#[derive(Debug, Clone)]
pub struct MoodClearEntry {
    pub name: String,
    pub facility: String,
    pub elite: u8,
    pub scope: String,
}

/// A control-center operator providing smiley recovery.
#[derive(Debug, Clone)]
pub struct ControlSmileyProvider {
    pub name: String,
    pub elite: u8,
}

/// The room context of one operator's net mood drain.
#[derive(Clone, Copy)]
pub struct DrainInputs<'a> {
    pub name: &'a str,
    pub elite: u8,
    pub facility: FacilityKind,
    /// Every operator of the room `(name, elite)`, itself included.
    pub room_ops: &'a [(String, u8)],
    /// The control center holds five operators.
    pub full_control: bool,
    /// Operators of the control center `(name, elite)`.
    pub control_ops: &'a [(String, u8)],
    /// Recipe key of the room; none when unknown.
    pub recipe: Option<&'a str>,
}

} // verus!
