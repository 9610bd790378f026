//! Shared vocabulary: recipes and the effect atoms base skills are made of.
//!
//! Numeric parameters of effects are kept in thousandths (`_milli` fields),
//! the unit efficiencies are stored in throughout the engine.

use vstd::prelude::*;

verus! {

/// Factory recipe (`All` = any recipe).
#[derive(Debug, Clone, Copy, PartialEq, Eq, Structural)]
pub enum RecipeKind {
    All,
    Gold,
    BattleRecord,
    Originium,
}

/// Whether an atom acts on its own room or on the whole base.
#[derive(Debug, Clone, Copy, PartialEq, Eq, Structural)]
pub enum AtomScope {
    Room,
    Global,
}

/// Who a mood-drain change applies to.
#[derive(Debug, Clone, Copy, PartialEq, Eq, Structural)]
pub enum MoodDrainScope {
    SelfOp,
    RoomOperators,
}

/// What an effect atom does.
#[derive(Debug, Clone, PartialEq, Eq)]
pub enum Action {
    AddFlatEff { value_milli: i64, recipe: Option<RecipeKind> },
    AddPerGapEff { rate_milli: i64 },
    TagOrder,
    AddGoldDelivery,
    ReduceLimit,
    AddLimitFromSelector { multiplier_milli: i64 },
    AddFlatEffFromSelector { multiplier_milli: i64, recipe: Option<RecipeKind> },
    AddLimitDelta { delta: i32, recipe: Option<RecipeKind> },
    AddLimitFromState { key: String, multiplier_milli: i64 },
    MoodDrainDelta { delta_milli: i64, scope: MoodDrainScope },
    MoodDrainPerStateStep {
        key: String,
        step_size_milli: i64,
        delta_per_step_milli: i64,
        scope: MoodDrainScope,
    },
    AddOrderLmdBonus,
    PeerEffAbsorb { rate_per_peer_milli: i64 },
    AddBucketEffFromSelector { ret_per_step_milli: i64, cap_milli: i64 },
    AddEffFromLimitContribSum { rate_milli: i64 },
    AddEffFromLimitContribTiered { low_rate_milli: i64, high_rate_milli: i64 },
    AddEffRamp { initial_milli: i64, per_hour_milli: i64, cap_milli: i64 },
    StateProduce { key: String, amount_milli: i64 },
    StateConsume { key: String, div_milli: i64 },
    StateConvert { from: String, to: String, ratio_milli: i64 },
    StateConsumeToEff { key: String, div_milli: i64, multiplier_milli: Option<i64> },
    GlobalInjectTradeEff { value_milli: i64 },
    GlobalInjectManuEff { value_milli: i64, recipe: Option<RecipeKind> },
    GlobalInjectManuTaggedEff { value_milli: i64, target_tag: String, recipe: Option<RecipeKind> },
    GlobalInjectKarlanPrecision { eff_per_karlan_milli: i64, limit_per_karlan: i32 },
}

/// What an atom's value is computed from.
#[derive(Debug, Clone, PartialEq, Eq)]
pub enum Selector {
    GoldDeliveryCount,
    OtherOpsDirectEff,
    OtherOpsTotalEff,
    RoomPeerCount,
    RoomOperatorCount,
    FinalOrderLimit,
    LimitExcess,
    FacilityLevel,
    FacilityLevelMinusOne,
    TaggedCountInRoom { tag: String },
    LimitContribSum,
    MeetingMaxLevel,
    DormLevelSum,
    ManuRecipeKinds,
    EliteFacilityCount,
    SuiFacilityCount,
    CappedSuiFacilityCount { max: u8 },
    DormOccupantCount,
    OrderGap,
    OrderCount,
    PeerSettledEffSum,
    PeerSkillEffSum,
    OtherOpsSettledEff,
    TradeStationCount,
    PowerStationCount,
    PlatformCountInPower,
    TaggedCountInControl { tag: String },
    ControlOperatorCount,
    DroneCap,
    RhineLifeInBase,
    RhineLifeInBaseExcludingSelf,
    MetalFormulaSkillCountInRoom,
    StandardSkillCountInRoom,
    RhineSkillCountInRoom,
    FacilityLevelSumExclMeeting,
    TrainingRoomLevel,
    Mood,
    TaggedCountInTradeSum { tag: String },
    TaggedCountInCurrentTradeRoom { tag: String },
    TradeStationsWithTaggedGte { tag: String, min: u8 },
    TaggedCountInManuSum { tag: String },
    StatePoolFloored { key: String, div_milli: i64 },
}

/// When an atom applies.
#[derive(Debug, Clone, PartialEq, Eq)]
pub enum Condition {
    GoldDeliveryBelow,
    GoldDeliveryAbove,
    GoldOrderInvestEligible,
    OrderHasTag,
    OrderNotHasTag,
    MoodAbove { n_milli: i64 },
    MoodAboveOrEq { n_milli: i64 },
    MoodBelow { n_milli: i64 },
    MoodBelowOrEq { n_milli: i64 },
    OwnerEliteGte { n: u8 },
    OwnerEliteBelow { n: u8 },
    PartnerInRoom { name: String },
    TagPresentInRoom { tag: String },
    PeerTagInRoom,
    OperatorInBase { name: String },
    OperatorInPower { name: String },
    OperatorInTraining { name: String },
    OperatorInTrade { name: String },
    NoPlatformInOtherPower,
    OtherPlatformInPower,
    OtherLateranoInPower,
    TiandaoEffVarAllowed,
    ActiveRecipe { kind: RecipeKind },
    OwnerLacksBuff { buff_id: String },
    ExternalMomentumGteField,
    FieldMomentumGtExternal,
    PlatformCountGte,
}

/// The evaluation phase an atom belongs to.
#[derive(Debug, Clone, Copy, PartialEq, Eq, Structural)]
pub enum Phase {
    Constant,
    EffVar,
    LimitVar,
    OrderVar,
    Limit,
    Mood,
    StateWrite,
    GlobalInject,
    OrderMechanic,
    PeerAbsorb,
    PeerShare,
}

/// One step of a base skill: an optional selector and condition, and an
/// action at a scope, evaluated in a phase; `tag` marks special atoms (such
/// as the per-station part of a factory skill).
#[derive(Debug, Clone)]
pub struct EffectAtom {
    pub phase: Phase,
    pub tag: Option<String>,
    pub selector: Option<Selector>,
    pub condition: Option<Condition>,
    pub action: Action,
    pub scope: AtomScope,
}

} // verus!
