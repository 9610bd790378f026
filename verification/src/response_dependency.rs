//! Classification of what each effect atom's outcome depends on: which
//! facility it acts on, which part of the room response it changes, and
//! whether its inputs lie inside the room or outside it.

use vstd::prelude::*;

use crate::instances::{instance_buffs, instance_tags, OperatorInstance, OperatorInstances};
use crate::layout::{room_operators, AssignedOperator, BaseAssignment, BaseBlueprint, BlueprintRoom, FacilityKind, RoomAssignment, RoomId};
use crate::pool::base::HasName;
use crate::skill_table::{lookup_skill, Skill, SkillTable};
use crate::text::{
    has_name, insert_sorted_unique, lemma_seq_lt_asymmetric, lemma_seq_lt_irreflexive, lemma_seq_lt_total,
    lemma_seq_lt_transitive, push_unique, seq_lt, str_eq, str_lt, strictly_sorted,
};
use crate::tier::{spec_tier_of, PromotionTier};
use crate::types::{Action, AtomScope, Condition, EffectAtom, Selector};

verus! {

/// How far outside its own room an input of an atom lies.
#[derive(Debug, Clone, Copy, PartialEq, Eq, PartialOrd, Ord, Structural)]
pub enum DependencyScope {
    RoomLocal,
    SameFacility,
    CrossFacility,
    GlobalLayout,
    RuntimeState,
}

/// Which part of a room's response an atom changes.
#[derive(Debug, Clone, Copy, PartialEq, Eq, PartialOrd, Ord, Structural)]
pub enum ResponseField {
    Efficiency,
    LimitOrStorage,
    UnitOutput,
    Mood,
    StateResource,
    GlobalInject,
}

/// How a producer of a dynamic inject is admitted into a plan.
#[derive(Debug, Clone, Copy, PartialEq, Eq, Structural)]
pub enum ProducerAdmission {
    DeferredOptional,
    PlanRequired,
    NormalObservation,
    PolicyManaged,
}

/// How producer and consumers of a dynamic inject must share shifts.
#[derive(Debug, Clone, Copy, PartialEq, Eq, Structural)]
pub enum ScheduleDependencyRelation {
    ExactPresence,
    RequiresPresence,
    /// No presence relation (serialised as `none`).
    Unrelated,
}

/// A rule for one control-center skill whose inject depends on the
/// workforce of the target facility.
#[derive(Debug)]
pub struct ProducerRule {
    pub id: String,
    pub source_buff_id: String,
    pub admission: ProducerAdmission,
    pub target_facility: String,
    pub schedule_relation: ScheduleDependencyRelation,
    pub on_shifts: u8,
    pub off_shifts: u8,
}

impl Clone for ProducerRule {
    fn clone(&self) -> (res: Self)
        ensures
            res == *self,
    {
        ProducerRule {
            id: self.id.clone(),
            source_buff_id: self.source_buff_id.clone(),
            admission: self.admission,
            target_facility: self.target_facility.clone(),
            schedule_relation: self.schedule_relation,
            on_shifts: self.on_shifts,
            off_shifts: self.off_shifts,
        }
    }
}

/// The versioned list of producer rules.
#[derive(Debug, Clone)]
pub struct ProducerRuleCatalog {
    pub version: u32,
    pub rules: Vec<ProducerRule>,
}

/// One classified atom of the skill table.
#[derive(Debug, Clone)]
pub struct ResponseDependencyRow {
    pub skill_id: String,
    pub source_facility: String,
    pub target_facility: String,
    pub atom_index: usize,
    pub selector: Option<String>,
    pub selector_scope: Option<DependencyScope>,
    pub condition: Option<String>,
    pub condition_scope: Option<DependencyScope>,
    pub action_dependency: String,
    pub action_scope: DependencyScope,
    pub reads_resources: Vec<String>,
    pub writes_resources: Vec<String>,
    pub atom_scope: String,
    pub response_field: ResponseField,
    pub requires_external_state: bool,
}

/// How a resource reaches a room response.
#[derive(Debug, Clone, Copy, PartialEq, Eq, PartialOrd, Ord, Structural)]
pub enum ResourceClosureEdgeKind {
    AtomProduce,
    AtomConvert,
    RegistryConversion,
}

/// One edge of a reverse resource closure.
#[derive(Debug, Clone)]
pub struct ResourceClosureEdge {
    pub kind: ResourceClosureEdgeKind,
    pub from: Option<String>,
    pub to: String,
    pub skill_id: Option<String>,
    pub atom_index: Option<usize>,
    pub source_facility: Option<String>,
    pub provider_buff_id: Option<String>,
    pub converter_buff_id: Option<String>,
    pub requires_same_shift_activation: bool,
}

/// The resources that can reach one response field of one facility.
#[derive(Debug, Clone)]
pub struct ResourceReverseClosure {
    pub target_facility: String,
    pub response_field: ResponseField,
    pub seed_resources: Vec<String>,
    pub resources: Vec<String>,
    pub edges: Vec<ResourceClosureEdge>,
}

/// A delegated input that has no finite domain in the scenario.
#[derive(Debug, Clone)]
pub struct UnresolvedDelegatedDependency {
    pub facility: String,
    pub mechanism: String,
    pub resource: String,
    pub reason: String,
}

/// Where a domain contributor's input comes from.
#[derive(Debug, Clone, Copy, PartialEq, Eq, Structural)]
pub enum DomainInputSource {
    Blueprint,
    GlobalResource,
    LayoutStatistic,
    CandidateRow,
    RoomContext,
}

/// Static declaration of a domain contributor's input.
#[derive(Debug, Clone, Copy)]
pub struct DomainDependencyInputDecl {
    pub name: &'static str,
    pub source: DomainInputSource,
    pub external_signature: bool,
    pub note: &'static str,
}

/// A domain contributor's input with its scenario values, when finite.
#[derive(Debug, Clone)]
pub struct DomainDependencyInput {
    pub name: String,
    pub source: DomainInputSource,
    pub external_signature: bool,
    pub scenario_values: Option<Vec<u32>>,
    pub note: String,
}

/// A domain engine whose result depends on inputs outside the room.
#[derive(Debug, Clone)]
pub struct DomainDependencyContributor {
    pub mechanism: String,
    pub target_facility: String,
    pub response_field: ResponseField,
    pub inputs: Vec<DomainDependencyInput>,
}

/// One value class of an integer resource.
#[derive(Debug, Clone)]
pub struct ResourceEquivalenceClass {
    pub resource: String,
    pub min_inclusive: u32,
    pub max_inclusive: u32,
}

/// Scenario metadata of a report built for a blueprint.
#[derive(Debug, Clone)]
pub struct DependencyScenario {
    pub template: Option<String>,
    pub room_count: usize,
    pub gold_manu_line_count: u32,
    pub initial_virtual_gold_lines: u32,
}

/// Default number of shifts a producer works in a rotation.
pub fn default_on_shifts() -> (res: u8)
    ensures
        res == 2,
{
    2
}

/// Default number of shifts a producer rests in a rotation.
pub fn default_off_shifts() -> (res: u8)
    ensures
        res == 1,
{
    1
}

/// Data-relative path of the producer rule catalog.
pub fn default_producer_rules_path() -> (res: &'static str)
    ensures
        res@ == "producer_rules.json"@,
{
    "producer_rules.json"
}

// ── facility an atom acts on ──

/// The facility an atom's action acts on: injects act on the facility they
/// name, a globally scoped production feeds the global resource pool, and
/// everything else acts on the skill's own facility.
pub open spec fn spec_target_facility(source: Seq<char>, action: Action, scope: AtomScope) -> Seq<char> {
    match action {
        Action::GlobalInjectTradeEff { .. } | Action::GlobalInjectKarlanPrecision { .. } => "trade"@,
        Action::GlobalInjectManuEff { .. } | Action::GlobalInjectManuTaggedEff { .. } => "manufacture"@,
        Action::StateProduce { .. } => if scope == AtomScope::Global {
            "global_resource"@
        } else {
            source
        },
        _ => source,
    }
}

pub fn target_facility<'a>(source: &'a str, action: &Action, atom_scope: AtomScope) -> (res: &'a str)
    ensures
        res@ == spec_target_facility(source@, *action, atom_scope),
{
    match action {
        Action::GlobalInjectTradeEff { .. } | Action::GlobalInjectKarlanPrecision { .. } => "trade",
        Action::GlobalInjectManuEff { .. } | Action::GlobalInjectManuTaggedEff { .. } => "manufacture",
        Action::StateProduce { .. } => {
            if atom_scope == AtomScope::Global {
                "global_resource"
            } else {
                source
            }
        },
        _ => source,
    }
}

// ── what an action depends on ──

/// The action reads a state pool of the running base.
pub open spec fn reads_state_pool(action: Action) -> bool {
    match action {
        Action::AddLimitFromState { .. }
        | Action::MoodDrainPerStateStep { .. }
        | Action::StateConsume { .. }
        | Action::StateConvert { .. }
        | Action::StateConsumeToEff { .. } => true,
        _ => false,
    }
}

/// The action injects into another facility.
pub open spec fn is_global_inject(action: Action) -> bool {
    match action {
        Action::GlobalInjectTradeEff { .. }
        | Action::GlobalInjectManuEff { .. }
        | Action::GlobalInjectManuTaggedEff { .. }
        | Action::GlobalInjectKarlanPrecision { .. } => true,
        _ => false,
    }
}

/// Name and scope of the implicit input of an action.
pub open spec fn spec_action_dependency(action: Action, scope: AtomScope) -> (Seq<char>, DependencyScope) {
    match action {
        Action::AddPerGapEff { .. } => ("order_gap"@, DependencyScope::RuntimeState),
        Action::StateProduce { .. } => if scope == AtomScope::Global {
            ("global_resource_produce"@, DependencyScope::CrossFacility)
        } else {
            ("room_state_produce"@, DependencyScope::RoomLocal)
        },
        _ => if reads_state_pool(action) {
            ("state_pool"@, DependencyScope::RuntimeState)
        } else if is_global_inject(action) {
            ("global_inject"@, DependencyScope::CrossFacility)
        } else {
            ("no_implicit_input"@, DependencyScope::RoomLocal)
        },
    }
}

pub fn action_dependency(action: &Action, atom_scope: AtomScope) -> (res: (&'static str, DependencyScope))
    ensures
        res.0@ == spec_action_dependency(*action, atom_scope).0,
        res.1 == spec_action_dependency(*action, atom_scope).1,
{
    match action {
        Action::AddPerGapEff { .. } => ("order_gap", DependencyScope::RuntimeState),
        Action::AddLimitFromState { .. }
        | Action::MoodDrainPerStateStep { .. }
        | Action::StateConsume { .. }
        | Action::StateConvert { .. }
        | Action::StateConsumeToEff { .. } => ("state_pool", DependencyScope::RuntimeState),
        Action::GlobalInjectTradeEff { .. }
        | Action::GlobalInjectManuEff { .. }
        | Action::GlobalInjectManuTaggedEff { .. }
        | Action::GlobalInjectKarlanPrecision { .. } => ("global_inject", DependencyScope::CrossFacility),
        Action::StateProduce { .. } => {
            if atom_scope == AtomScope::Global {
                ("global_resource_produce", DependencyScope::CrossFacility)
            } else {
                ("room_state_produce", DependencyScope::RoomLocal)
            }
        },
        Action::AddFlatEff { .. }
        | Action::TagOrder
        | Action::AddGoldDelivery
        | Action::ReduceLimit
        | Action::AddLimitFromSelector { .. }
        | Action::AddFlatEffFromSelector { .. }
        | Action::AddLimitDelta { .. }
        | Action::MoodDrainDelta { .. }
        | Action::AddOrderLmdBonus
        | Action::PeerEffAbsorb { .. }
        | Action::AddBucketEffFromSelector { .. }
        | Action::AddEffFromLimitContribSum { .. }
        | Action::AddEffFromLimitContribTiered { .. }
        | Action::AddEffRamp { .. } => ("no_implicit_input", DependencyScope::RoomLocal),
    }
}

/// The part of the room response an action changes.
pub open spec fn spec_response_field(action: Action) -> ResponseField {
    match action {
        Action::AddFlatEff { .. }
        | Action::AddPerGapEff { .. }
        | Action::PeerEffAbsorb { .. }
        | Action::AddBucketEffFromSelector { .. }
        | Action::AddEffFromLimitContribSum { .. }
        | Action::AddEffFromLimitContribTiered { .. }
        | Action::StateConsumeToEff { .. }
        | Action::AddFlatEffFromSelector { .. }
        | Action::AddEffRamp { .. } => ResponseField::Efficiency,
        Action::ReduceLimit
        | Action::AddLimitFromSelector { .. }
        | Action::AddLimitFromState { .. }
        | Action::AddLimitDelta { .. } => ResponseField::LimitOrStorage,
        Action::TagOrder | Action::AddGoldDelivery | Action::AddOrderLmdBonus => ResponseField::UnitOutput,
        Action::MoodDrainDelta { .. } | Action::MoodDrainPerStateStep { .. } => ResponseField::Mood,
        Action::StateProduce { .. } | Action::StateConsume { .. } | Action::StateConvert { .. } => {
            ResponseField::StateResource
        },
        Action::GlobalInjectTradeEff { .. }
        | Action::GlobalInjectManuEff { .. }
        | Action::GlobalInjectManuTaggedEff { .. }
        | Action::GlobalInjectKarlanPrecision { .. } => ResponseField::GlobalInject,
    }
}

pub fn response_field(action: &Action) -> (res: ResponseField)
    ensures
        res == spec_response_field(*action),
{
    match action {
        Action::AddFlatEff { .. }
        | Action::AddPerGapEff { .. }
        | Action::PeerEffAbsorb { .. }
        | Action::AddBucketEffFromSelector { .. }
        | Action::AddEffFromLimitContribSum { .. }
        | Action::AddEffFromLimitContribTiered { .. }
        | Action::StateConsumeToEff { .. }
        | Action::AddFlatEffFromSelector { .. }
        | Action::AddEffRamp { .. } => ResponseField::Efficiency,
        Action::ReduceLimit
        | Action::AddLimitFromSelector { .. }
        | Action::AddLimitFromState { .. }
        | Action::AddLimitDelta { .. } => ResponseField::LimitOrStorage,
        Action::TagOrder | Action::AddGoldDelivery | Action::AddOrderLmdBonus => ResponseField::UnitOutput,
        Action::MoodDrainDelta { .. } | Action::MoodDrainPerStateStep { .. } => ResponseField::Mood,
        Action::StateProduce { .. } | Action::StateConsume { .. } | Action::StateConvert { .. } => {
            ResponseField::StateResource
        },
        Action::GlobalInjectTradeEff { .. }
        | Action::GlobalInjectManuEff { .. }
        | Action::GlobalInjectManuTaggedEff { .. }
        | Action::GlobalInjectKarlanPrecision { .. } => ResponseField::GlobalInject,
    }
}

/// What part of a room's response each action changes: the mood-drain
/// actions change mood and nothing else does; efficiency is changed exactly
/// by the actions that add production efficiency (flat, per-gap, absorbed,
/// bucket, storage-contribution, ramp and selector bonuses, and pools
/// consumed into efficiency); the limit actions change the limit or storage;
/// order tags, gold deliveries and order bonuses change the unit output; the
/// pool producers, consumers and converters change state resources; and the
/// global injects are injects.
pub proof fn lemma_response_field_families(a: Action)
    ensures
        spec_response_field(a) == ResponseField::Mood <==> (a is MoodDrainDelta || a is MoodDrainPerStateStep),
        spec_response_field(a) == ResponseField::Efficiency <==> (a is AddFlatEff || a is AddPerGapEff
            || a is PeerEffAbsorb || a is AddBucketEffFromSelector || a is AddEffFromLimitContribSum
            || a is AddEffFromLimitContribTiered || a is AddEffRamp || a is AddFlatEffFromSelector
            || a is StateConsumeToEff),
        spec_response_field(a) == ResponseField::LimitOrStorage <==> (a is ReduceLimit || a is AddLimitFromSelector
            || a is AddLimitFromState || a is AddLimitDelta),
        spec_response_field(a) == ResponseField::UnitOutput <==> (a is TagOrder || a is AddGoldDelivery
            || a is AddOrderLmdBonus),
        spec_response_field(a) == ResponseField::StateResource <==> (a is StateProduce || a is StateConsume
            || a is StateConvert),
        spec_response_field(a) == ResponseField::GlobalInject <==> (a is GlobalInjectTradeEff
            || a is GlobalInjectManuEff || a is GlobalInjectManuTaggedEff || a is GlobalInjectKarlanPrecision),
{
}

/// The facility an atom acts on: trade injects (and the Karlan precision
/// inject) act on trade, factory injects on manufacture, a globally scoped
/// production on the global resource pool, and every other atom on its
/// skill's own facility.
pub proof fn lemma_target_facility(source: Seq<char>, a: Action, scope: AtomScope)
    ensures
        (a is GlobalInjectTradeEff || a is GlobalInjectKarlanPrecision) ==> spec_target_facility(source, a, scope)
            == "trade"@,
        (a is GlobalInjectManuEff || a is GlobalInjectManuTaggedEff) ==> spec_target_facility(source, a, scope)
            == "manufacture"@,
        (a is StateProduce && scope == AtomScope::Global) ==> spec_target_facility(source, a, scope)
            == "global_resource"@,
        !(a is GlobalInjectTradeEff || a is GlobalInjectKarlanPrecision || a is GlobalInjectManuEff
            || a is GlobalInjectManuTaggedEff || (a is StateProduce && scope == AtomScope::Global))
            ==> spec_target_facility(source, a, scope) == source,
{
}

/// The implicit input of an action: the order gap for per-gap bonuses (a
/// runtime state); a state pool for the pool readers (runtime state); the
/// inject registry for global injects (cross-facility); the global resource
/// pool for a globally scoped production (cross-facility), the room's own
/// state for a room-scoped one; nothing (room-local) for every other action.
pub proof fn lemma_action_dependency(a: Action, scope: AtomScope)
    ensures
        a is AddPerGapEff ==> spec_action_dependency(a, scope) == ("order_gap"@, DependencyScope::RuntimeState),
        (a is AddLimitFromState || a is MoodDrainPerStateStep || a is StateConsume || a is StateConvert
            || a is StateConsumeToEff) ==> spec_action_dependency(a, scope) == (
            "state_pool"@,
            DependencyScope::RuntimeState,
        ),
        (a is GlobalInjectTradeEff || a is GlobalInjectManuEff || a is GlobalInjectManuTaggedEff
            || a is GlobalInjectKarlanPrecision) ==> spec_action_dependency(a, scope) == (
            "global_inject"@,
            DependencyScope::CrossFacility,
        ),
        (a is StateProduce && scope == AtomScope::Global) ==> spec_action_dependency(a, scope) == (
            "global_resource_produce"@,
            DependencyScope::CrossFacility,
        ),
        (a is StateProduce && scope == AtomScope::Room) ==> spec_action_dependency(a, scope) == (
            "room_state_produce"@,
            DependencyScope::RoomLocal,
        ),
        (a is AddFlatEff || a is TagOrder || a is AddGoldDelivery || a is ReduceLimit || a is AddLimitFromSelector
            || a is AddFlatEffFromSelector || a is AddLimitDelta || a is MoodDrainDelta || a is AddOrderLmdBonus
            || a is PeerEffAbsorb || a is AddBucketEffFromSelector || a is AddEffFromLimitContribSum
            || a is AddEffFromLimitContribTiered || a is AddEffRamp) ==> spec_action_dependency(a, scope) == (
            "no_implicit_input"@,
            DependencyScope::RoomLocal,
        ),
{
}

/// Closing over resources counts a global inject as efficiency and leaves
/// every other response field as it is.
pub proof fn lemma_closure_response_field(f: ResponseField)
    ensures
        f == ResponseField::GlobalInject ==> spec_closure_response_field(f) == ResponseField::Efficiency,
        f != ResponseField::GlobalInject ==> spec_closure_response_field(f) == f,
{
}

/// Global injects are counted as efficiency when closing over resources.
pub open spec fn spec_closure_response_field(field: ResponseField) -> ResponseField {
    match field {
        ResponseField::GlobalInject => ResponseField::Efficiency,
        other => other,
    }
}

pub fn closure_response_field(field: ResponseField) -> (res: ResponseField)
    ensures
        res == spec_closure_response_field(field),
{
    match field {
        ResponseField::GlobalInject => ResponseField::Efficiency,
        other => other,
    }
}

// ── what a selector and a condition depend on ──

/// Name of the input a selector reads.
pub open spec fn spec_selector_name(selector: Selector) -> Seq<char> {
    match selector {
        Selector::GoldDeliveryCount => "gold_delivery_count"@,
        Selector::OtherOpsDirectEff => "other_ops_direct_eff"@,
        Selector::OtherOpsTotalEff => "other_ops_total_eff"@,
        Selector::RoomPeerCount => "room_peer_count"@,
        Selector::RoomOperatorCount => "room_operator_count"@,
        Selector::FinalOrderLimit => "final_order_limit"@,
        Selector::LimitExcess => "limit_excess"@,
        Selector::FacilityLevel => "facility_level"@,
        Selector::FacilityLevelMinusOne => "facility_level_minus_one"@,
        Selector::TaggedCountInRoom { .. } => "tagged_count_in_room"@,
        Selector::LimitContribSum => "limit_contrib_sum"@,
        Selector::MeetingMaxLevel => "meeting_max_level"@,
        Selector::DormLevelSum => "dorm_level_sum"@,
        Selector::ManuRecipeKinds => "manu_recipe_kinds"@,
        Selector::EliteFacilityCount => "elite_facility_count"@,
        Selector::SuiFacilityCount => "sui_facility_count"@,
        Selector::CappedSuiFacilityCount { .. } => "capped_sui_facility_count"@,
        Selector::DormOccupantCount => "dorm_occupant_count"@,
        Selector::OrderGap => "order_gap"@,
        Selector::OrderCount => "order_count"@,
        Selector::PeerSettledEffSum => "peer_settled_eff_sum"@,
        Selector::PeerSkillEffSum => "peer_skill_eff_sum"@,
        Selector::OtherOpsSettledEff => "other_ops_settled_eff"@,
        Selector::TradeStationCount => "trade_station_count"@,
        Selector::PowerStationCount => "power_station_count"@,
        Selector::PlatformCountInPower => "platform_count_in_power"@,
        Selector::TaggedCountInControl { .. } => "tagged_count_in_control"@,
        Selector::ControlOperatorCount => "control_operator_count"@,
        Selector::DroneCap => "drone_cap"@,
        Selector::RhineLifeInBase => "rhine_life_in_base"@,
        Selector::RhineLifeInBaseExcludingSelf => "rhine_life_in_base_excluding_self"@,
        Selector::MetalFormulaSkillCountInRoom => "metal_formula_skill_count_in_room"@,
        Selector::StandardSkillCountInRoom => "standard_skill_count_in_room"@,
        Selector::RhineSkillCountInRoom => "rhine_skill_count_in_room"@,
        Selector::FacilityLevelSumExclMeeting => "facility_level_sum_excl_meeting"@,
        Selector::TrainingRoomLevel => "training_room_level"@,
        Selector::Mood => "mood"@,
        Selector::TaggedCountInTradeSum { .. } => "tagged_count_in_trade_sum"@,
        Selector::TaggedCountInCurrentTradeRoom { .. } => "tagged_count_in_current_trade_room"@,
        Selector::TradeStationsWithTaggedGte { .. } => "trade_stations_with_tagged_gte"@,
        Selector::TaggedCountInManuSum { .. } => "tagged_count_in_manu_sum"@,
        Selector::StatePoolFloored { .. } => "state_pool_floored"@,
    }
}

/// Scope of the input a selector reads.
pub open spec fn spec_selector_scope(selector: Selector) -> DependencyScope {
    match selector {
        Selector::GoldDeliveryCount => DependencyScope::RuntimeState,
        Selector::OtherOpsDirectEff => DependencyScope::RoomLocal,
        Selector::OtherOpsTotalEff => DependencyScope::RoomLocal,
        Selector::RoomPeerCount => DependencyScope::RoomLocal,
        Selector::RoomOperatorCount => DependencyScope::RoomLocal,
        Selector::FinalOrderLimit => DependencyScope::RuntimeState,
        Selector::LimitExcess => DependencyScope::RuntimeState,
        Selector::FacilityLevel => DependencyScope::RoomLocal,
        Selector::FacilityLevelMinusOne => DependencyScope::RoomLocal,
        Selector::TaggedCountInRoom { .. } => DependencyScope::RoomLocal,
        Selector::LimitContribSum => DependencyScope::RoomLocal,
        Selector::MeetingMaxLevel => DependencyScope::CrossFacility,
        Selector::DormLevelSum => DependencyScope::CrossFacility,
        Selector::ManuRecipeKinds => DependencyScope::CrossFacility,
        Selector::EliteFacilityCount => DependencyScope::GlobalLayout,
        Selector::SuiFacilityCount => DependencyScope::GlobalLayout,
        Selector::CappedSuiFacilityCount { .. } => DependencyScope::GlobalLayout,
        Selector::DormOccupantCount => DependencyScope::CrossFacility,
        Selector::OrderGap => DependencyScope::RuntimeState,
        Selector::OrderCount => DependencyScope::RuntimeState,
        Selector::PeerSettledEffSum => DependencyScope::RoomLocal,
        Selector::PeerSkillEffSum => DependencyScope::RoomLocal,
        Selector::OtherOpsSettledEff => DependencyScope::RoomLocal,
        Selector::TradeStationCount => DependencyScope::CrossFacility,
        Selector::PowerStationCount => DependencyScope::CrossFacility,
        Selector::PlatformCountInPower => DependencyScope::CrossFacility,
        Selector::TaggedCountInControl { .. } => DependencyScope::CrossFacility,
        Selector::ControlOperatorCount => DependencyScope::CrossFacility,
        Selector::DroneCap => DependencyScope::GlobalLayout,
        Selector::RhineLifeInBase => DependencyScope::GlobalLayout,
        Selector::RhineLifeInBaseExcludingSelf => DependencyScope::GlobalLayout,
        Selector::MetalFormulaSkillCountInRoom => DependencyScope::RoomLocal,
        Selector::StandardSkillCountInRoom => DependencyScope::RoomLocal,
        Selector::RhineSkillCountInRoom => DependencyScope::RoomLocal,
        Selector::FacilityLevelSumExclMeeting => DependencyScope::GlobalLayout,
        Selector::TrainingRoomLevel => DependencyScope::CrossFacility,
        Selector::Mood => DependencyScope::RuntimeState,
        Selector::TaggedCountInTradeSum { .. } => DependencyScope::SameFacility,
        Selector::TaggedCountInCurrentTradeRoom { .. } => DependencyScope::RoomLocal,
        Selector::TradeStationsWithTaggedGte { .. } => DependencyScope::SameFacility,
        Selector::TaggedCountInManuSum { .. } => DependencyScope::SameFacility,
        Selector::StatePoolFloored { .. } => DependencyScope::RuntimeState,
    }
}

pub fn selector_dependency(selector: &Selector) -> (res: (&'static str, DependencyScope))
    ensures
        res.0@ == spec_selector_name(*selector),
        res.1 == spec_selector_scope(*selector),
{
    match selector {
        Selector::GoldDeliveryCount => ("gold_delivery_count", DependencyScope::RuntimeState),
        Selector::OtherOpsDirectEff => ("other_ops_direct_eff", DependencyScope::RoomLocal),
        Selector::OtherOpsTotalEff => ("other_ops_total_eff", DependencyScope::RoomLocal),
        Selector::RoomPeerCount => ("room_peer_count", DependencyScope::RoomLocal),
        Selector::RoomOperatorCount => ("room_operator_count", DependencyScope::RoomLocal),
        Selector::FinalOrderLimit => ("final_order_limit", DependencyScope::RuntimeState),
        Selector::LimitExcess => ("limit_excess", DependencyScope::RuntimeState),
        Selector::FacilityLevel => ("facility_level", DependencyScope::RoomLocal),
        Selector::FacilityLevelMinusOne => ("facility_level_minus_one", DependencyScope::RoomLocal),
        Selector::TaggedCountInRoom { .. } => ("tagged_count_in_room", DependencyScope::RoomLocal),
        Selector::LimitContribSum => ("limit_contrib_sum", DependencyScope::RoomLocal),
        Selector::MeetingMaxLevel => ("meeting_max_level", DependencyScope::CrossFacility),
        Selector::DormLevelSum => ("dorm_level_sum", DependencyScope::CrossFacility),
        Selector::ManuRecipeKinds => ("manu_recipe_kinds", DependencyScope::CrossFacility),
        Selector::EliteFacilityCount => ("elite_facility_count", DependencyScope::GlobalLayout),
        Selector::SuiFacilityCount => ("sui_facility_count", DependencyScope::GlobalLayout),
        Selector::CappedSuiFacilityCount { .. } => ("capped_sui_facility_count", DependencyScope::GlobalLayout),
        Selector::DormOccupantCount => ("dorm_occupant_count", DependencyScope::CrossFacility),
        Selector::OrderGap => ("order_gap", DependencyScope::RuntimeState),
        Selector::OrderCount => ("order_count", DependencyScope::RuntimeState),
        Selector::PeerSettledEffSum => ("peer_settled_eff_sum", DependencyScope::RoomLocal),
        Selector::PeerSkillEffSum => ("peer_skill_eff_sum", DependencyScope::RoomLocal),
        Selector::OtherOpsSettledEff => ("other_ops_settled_eff", DependencyScope::RoomLocal),
        Selector::TradeStationCount => ("trade_station_count", DependencyScope::CrossFacility),
        Selector::PowerStationCount => ("power_station_count", DependencyScope::CrossFacility),
        Selector::PlatformCountInPower => ("platform_count_in_power", DependencyScope::CrossFacility),
        Selector::TaggedCountInControl { .. } => ("tagged_count_in_control", DependencyScope::CrossFacility),
        Selector::ControlOperatorCount => ("control_operator_count", DependencyScope::CrossFacility),
        Selector::DroneCap => ("drone_cap", DependencyScope::GlobalLayout),
        Selector::RhineLifeInBase => ("rhine_life_in_base", DependencyScope::GlobalLayout),
        Selector::RhineLifeInBaseExcludingSelf => ("rhine_life_in_base_excluding_self", DependencyScope::GlobalLayout),
        Selector::MetalFormulaSkillCountInRoom => ("metal_formula_skill_count_in_room", DependencyScope::RoomLocal),
        Selector::StandardSkillCountInRoom => ("standard_skill_count_in_room", DependencyScope::RoomLocal),
        Selector::RhineSkillCountInRoom => ("rhine_skill_count_in_room", DependencyScope::RoomLocal),
        Selector::FacilityLevelSumExclMeeting => ("facility_level_sum_excl_meeting", DependencyScope::GlobalLayout),
        Selector::TrainingRoomLevel => ("training_room_level", DependencyScope::CrossFacility),
        Selector::Mood => ("mood", DependencyScope::RuntimeState),
        Selector::TaggedCountInTradeSum { .. } => ("tagged_count_in_trade_sum", DependencyScope::SameFacility),
        Selector::TaggedCountInCurrentTradeRoom { .. } => ("tagged_count_in_current_trade_room", DependencyScope::RoomLocal),
        Selector::TradeStationsWithTaggedGte { .. } => ("trade_stations_with_tagged_gte", DependencyScope::SameFacility),
        Selector::TaggedCountInManuSum { .. } => ("tagged_count_in_manu_sum", DependencyScope::SameFacility),
        Selector::StatePoolFloored { .. } => ("state_pool_floored", DependencyScope::RuntimeState),
    }
}

/// Name of the input a condition reads.
pub open spec fn spec_condition_name(condition: Condition) -> Seq<char> {
    match condition {
        Condition::GoldDeliveryBelow => "gold_delivery_below"@,
        Condition::GoldDeliveryAbove => "gold_delivery_above"@,
        Condition::GoldOrderInvestEligible => "gold_order_invest_eligible"@,
        Condition::OrderHasTag => "order_has_tag"@,
        Condition::OrderNotHasTag => "order_not_has_tag"@,
        Condition::MoodAbove { .. } => "mood_above"@,
        Condition::MoodAboveOrEq { .. } => "mood_above_or_eq"@,
        Condition::MoodBelow { .. } => "mood_below"@,
        Condition::MoodBelowOrEq { .. } => "mood_below_or_eq"@,
        Condition::OwnerEliteGte { .. } => "owner_elite_gte"@,
        Condition::OwnerEliteBelow { .. } => "owner_elite_below"@,
        Condition::PartnerInRoom { .. } => "partner_in_room"@,
        Condition::TagPresentInRoom { .. } => "tag_present_in_room"@,
        Condition::PeerTagInRoom => "peer_tag_in_room"@,
        Condition::OperatorInBase { .. } => "operator_in_base"@,
        Condition::OperatorInPower { .. } => "operator_in_power"@,
        Condition::OperatorInTraining { .. } => "operator_in_training"@,
        Condition::OperatorInTrade { .. } => "operator_in_trade"@,
        Condition::NoPlatformInOtherPower => "no_platform_in_other_power"@,
        Condition::OtherPlatformInPower => "other_platform_in_power"@,
        Condition::OtherLateranoInPower => "other_laterano_in_power"@,
        Condition::TiandaoEffVarAllowed => "tiandao_eff_var_allowed"@,
        Condition::ActiveRecipe { .. } => "active_recipe"@,
        Condition::OwnerLacksBuff { .. } => "owner_lacks_buff"@,
        Condition::ExternalMomentumGteField => "external_momentum_gte_field"@,
        Condition::FieldMomentumGtExternal => "field_momentum_gt_external"@,
        Condition::PlatformCountGte => "platform_count_gte"@,
    }
}

/// Scope of the input a condition reads.
pub open spec fn spec_condition_scope(condition: Condition) -> DependencyScope {
    match condition {
        Condition::GoldDeliveryBelow => DependencyScope::RuntimeState,
        Condition::GoldDeliveryAbove => DependencyScope::RuntimeState,
        Condition::GoldOrderInvestEligible => DependencyScope::RuntimeState,
        Condition::OrderHasTag => DependencyScope::RuntimeState,
        Condition::OrderNotHasTag => DependencyScope::RuntimeState,
        Condition::MoodAbove { .. } => DependencyScope::RuntimeState,
        Condition::MoodAboveOrEq { .. } => DependencyScope::RuntimeState,
        Condition::MoodBelow { .. } => DependencyScope::RuntimeState,
        Condition::MoodBelowOrEq { .. } => DependencyScope::RuntimeState,
        Condition::OwnerEliteGte { .. } => DependencyScope::RoomLocal,
        Condition::OwnerEliteBelow { .. } => DependencyScope::RoomLocal,
        Condition::PartnerInRoom { .. } => DependencyScope::RoomLocal,
        Condition::TagPresentInRoom { .. } => DependencyScope::RoomLocal,
        Condition::PeerTagInRoom => DependencyScope::RoomLocal,
        Condition::OperatorInBase { .. } => DependencyScope::GlobalLayout,
        Condition::OperatorInPower { .. } => DependencyScope::CrossFacility,
        Condition::OperatorInTraining { .. } => DependencyScope::CrossFacility,
        Condition::OperatorInTrade { .. } => DependencyScope::CrossFacility,
        Condition::NoPlatformInOtherPower => DependencyScope::SameFacility,
        Condition::OtherPlatformInPower => DependencyScope::SameFacility,
        Condition::OtherLateranoInPower => DependencyScope::SameFacility,
        Condition::TiandaoEffVarAllowed => DependencyScope::RoomLocal,
        Condition::ActiveRecipe { .. } => DependencyScope::RoomLocal,
        Condition::OwnerLacksBuff { .. } => DependencyScope::RoomLocal,
        Condition::ExternalMomentumGteField => DependencyScope::GlobalLayout,
        Condition::FieldMomentumGtExternal => DependencyScope::GlobalLayout,
        Condition::PlatformCountGte => DependencyScope::CrossFacility,
    }
}

pub fn condition_dependency(condition: &Condition) -> (res: (&'static str, DependencyScope))
    ensures
        res.0@ == spec_condition_name(*condition),
        res.1 == spec_condition_scope(*condition),
{
    match condition {
        Condition::GoldDeliveryBelow => ("gold_delivery_below", DependencyScope::RuntimeState),
        Condition::GoldDeliveryAbove => ("gold_delivery_above", DependencyScope::RuntimeState),
        Condition::GoldOrderInvestEligible => ("gold_order_invest_eligible", DependencyScope::RuntimeState),
        Condition::OrderHasTag => ("order_has_tag", DependencyScope::RuntimeState),
        Condition::OrderNotHasTag => ("order_not_has_tag", DependencyScope::RuntimeState),
        Condition::MoodAbove { .. } => ("mood_above", DependencyScope::RuntimeState),
        Condition::MoodAboveOrEq { .. } => ("mood_above_or_eq", DependencyScope::RuntimeState),
        Condition::MoodBelow { .. } => ("mood_below", DependencyScope::RuntimeState),
        Condition::MoodBelowOrEq { .. } => ("mood_below_or_eq", DependencyScope::RuntimeState),
        Condition::OwnerEliteGte { .. } => ("owner_elite_gte", DependencyScope::RoomLocal),
        Condition::OwnerEliteBelow { .. } => ("owner_elite_below", DependencyScope::RoomLocal),
        Condition::PartnerInRoom { .. } => ("partner_in_room", DependencyScope::RoomLocal),
        Condition::TagPresentInRoom { .. } => ("tag_present_in_room", DependencyScope::RoomLocal),
        Condition::PeerTagInRoom => ("peer_tag_in_room", DependencyScope::RoomLocal),
        Condition::OperatorInBase { .. } => ("operator_in_base", DependencyScope::GlobalLayout),
        Condition::OperatorInPower { .. } => ("operator_in_power", DependencyScope::CrossFacility),
        Condition::OperatorInTraining { .. } => ("operator_in_training", DependencyScope::CrossFacility),
        Condition::OperatorInTrade { .. } => ("operator_in_trade", DependencyScope::CrossFacility),
        Condition::NoPlatformInOtherPower => ("no_platform_in_other_power", DependencyScope::SameFacility),
        Condition::OtherPlatformInPower => ("other_platform_in_power", DependencyScope::SameFacility),
        Condition::OtherLateranoInPower => ("other_laterano_in_power", DependencyScope::SameFacility),
        Condition::TiandaoEffVarAllowed => ("tiandao_eff_var_allowed", DependencyScope::RoomLocal),
        Condition::ActiveRecipe { .. } => ("active_recipe", DependencyScope::RoomLocal),
        Condition::OwnerLacksBuff { .. } => ("owner_lacks_buff", DependencyScope::RoomLocal),
        Condition::ExternalMomentumGteField => ("external_momentum_gte_field", DependencyScope::GlobalLayout),
        Condition::FieldMomentumGtExternal => ("field_momentum_gt_external", DependencyScope::GlobalLayout),
        Condition::PlatformCountGte => ("platform_count_gte", DependencyScope::CrossFacility),
    }
}

// ── producer rules ──

/// A selector that counts tagged workers in the target facility: its tag and,
/// for a per-station threshold, the minimum count.
pub open spec fn spec_dynamic_workforce_selector(selector: Option<Selector>) -> Option<(Seq<char>, Option<u8>)> {
    match selector {
        Some(Selector::TaggedCountInTradeSum { tag }) => Some((tag@, None)),
        Some(Selector::TaggedCountInCurrentTradeRoom { tag }) => Some((tag@, None)),
        Some(Selector::TaggedCountInManuSum { tag }) => Some((tag@, None)),
        Some(Selector::TradeStationsWithTaggedGte { tag, min }) => Some((tag@, Some(min))),
        _ => None,
    }
}

pub fn dynamic_workforce_selector(selector: Option<&Selector>) -> (res: Option<(&str, Option<u8>)>)
    ensures
        match res {
            Some((tag, min)) => spec_dynamic_workforce_selector(
                match selector {
                    Some(s) => Some(*s),
                    None => None,
                },
            ) == Some((tag@, min)),
            None => spec_dynamic_workforce_selector(
                match selector {
                    Some(s) => Some(*s),
                    None => None,
                },
            ) is None,
        },
{
    match selector {
        Some(Selector::TaggedCountInTradeSum { tag }) => Some((tag.as_str(), None)),
        Some(Selector::TaggedCountInCurrentTradeRoom { tag }) => Some((tag.as_str(), None)),
        Some(Selector::TaggedCountInManuSum { tag }) => Some((tag.as_str(), None)),
        Some(Selector::TradeStationsWithTaggedGte { tag, min }) => Some((tag.as_str(), Some(*min))),
        _ => None,
    }
}

/// The rules a plan may defer: optional admission, the requested target
/// facility, and a source buff among those asked for; in catalog order.
pub open spec fn is_deferred_for(rule: ProducerRule, buff_ids: Seq<String>, target: Seq<char>) -> bool {
    rule.admission == ProducerAdmission::DeferredOptional && rule.target_facility@ == target && has_name(
        buff_ids,
        rule.source_buff_id@,
    )
}

/// [`is_deferred_for`] as a filter.
pub open spec fn deferred_filter(buff_ids: Seq<String>, target: Seq<char>) -> spec_fn(ProducerRule) -> bool {
    |rule: ProducerRule| is_deferred_for(rule, buff_ids, target)
}

pub fn deferred_producer_rules_for_buffs(
    catalog: &ProducerRuleCatalog,
    buff_ids: &Vec<String>,
    target_facility: &str,
) -> (res: Vec<ProducerRule>)
    ensures
        res@ == catalog.rules@.filter(deferred_filter(buff_ids@, target_facility@)),
{
    let ghost pred = deferred_filter(buff_ids@, target_facility@);
    let mut out: Vec<ProducerRule> = Vec::new();
    let mut i: usize = 0;
    while i < catalog.rules.len()
        invariant
            0 <= i <= catalog.rules@.len(),
            pred == deferred_filter(buff_ids@, target_facility@),
            out@ == catalog.rules@.take(i as int).filter(pred),
        decreases catalog.rules@.len() - i,
    {
        let rule = &catalog.rules[i];
        proof {
            let pre = catalog.rules@.take(i as int);
            assert(catalog.rules@.take(i + 1) == pre.push(*rule));
            pre.lemma_filter_push(*rule, pred);
        }
        if rule.admission == ProducerAdmission::DeferredOptional && str_eq(
            rule.target_facility.as_str(),
            target_facility,
        ) && crate::text::contains_name(buff_ids, rule.source_buff_id.as_str()) {
            out.push(rule.clone());
        }
        i += 1;
    }
    assert(catalog.rules@.take(catalog.rules@.len() as int) == catalog.rules@);
    out
}

/// Global injects act on a production facility and depend on another
/// facility.
pub proof fn lemma_global_inject_targets_production(source: Seq<char>, action: Action, scope: AtomScope)
    requires
        is_global_inject(action),
    ensures
        spec_target_facility(source, action, scope) == "trade"@ || spec_target_facility(source, action, scope)
            == "manufacture"@,
        spec_action_dependency(action, scope).1 == DependencyScope::CrossFacility,
{
}

/// An action that reads a state pool (or the order gap) never claims to depend
/// on its own room only.
pub proof fn lemma_implicit_inputs_not_local(action: Action, scope: AtomScope)
    requires
        reads_state_pool(action) || action is AddPerGapEff,
    ensures
        spec_action_dependency(action, scope).1 == DependencyScope::RuntimeState,
{
}

// ── validating the producer rule catalog ──

/// Why a producer rule catalog is rejected.
#[derive(Debug, Clone, PartialEq, Eq)]
pub enum ProducerCatalogError {
    UnsupportedVersion(u32),
    DuplicateRuleId(String),
    DuplicateSourceBuff(String),
    UnknownBuff { rule: String, buff: String },
    NoDynamicWorkforceAtom { rule: String, target: String },
    NegativeDynamicInject(String),
    /// Buffs with a dynamic workforce inject that no rule covers, and rule
    /// buffs that have none.
    CoverageMismatch { missing: Vec<String>, extra: Vec<String> },
}

/// The atom is a dynamic workforce atom acting on `target`.
pub open spec fn atom_matches_target(skill: Skill, atom: EffectAtom, target: Seq<char>) -> bool {
    spec_dynamic_workforce_selector(atom.selector) is Some && spec_target_facility(
        skill.facility@,
        atom.action,
        atom.scope,
    ) == target
}

/// A trade or factory inject with a negative value.
pub open spec fn negative_inject(atom: EffectAtom) -> bool {
    match atom.action {
        Action::GlobalInjectTradeEff { value_milli } => value_milli < 0,
        Action::GlobalInjectManuEff { value_milli, .. } => value_milli < 0,
        _ => false,
    }
}

/// The rule's buff is in the table, has a dynamic workforce atom acting on
/// the rule's target, and none of those atoms injects a negative value.
pub open spec fn rule_matches_table(rule: ProducerRule, skills: Seq<Skill>) -> bool {
    match lookup_skill(skills, rule.source_buff_id@) {
        Some(skill) => {
            &&& exists|k: int|
                0 <= k < skill.atoms@.len() && #[trigger] atom_matches_target(
                    skill,
                    skill.atoms@[k],
                    rule.target_facility@,
                )
            &&& forall|k: int|
                0 <= k < skill.atoms@.len() && #[trigger] atom_matches_target(
                    skill,
                    skill.atoms@[k],
                    rule.target_facility@,
                ) ==> !negative_inject(skill.atoms@[k])
        },
        None => false,
    }
}

/// A trade or factory inject driven by a dynamic workforce selector.
pub open spec fn is_dynamic_inject_atom(atom: EffectAtom) -> bool {
    (atom.action is GlobalInjectTradeEff || atom.action is GlobalInjectManuEff)
        && spec_dynamic_workforce_selector(atom.selector) is Some
}

/// The skill has a dynamic workforce inject.
pub open spec fn has_dynamic_inject(skill: Skill) -> bool {
    exists|k: int| 0 <= k < skill.atoms@.len() && #[trigger] is_dynamic_inject_atom(skill.atoms@[k])
}

/// A catalog the engine can rely on: version 1, distinct rule ids and source
/// buffs, every rule matching the table, and the rule buffs being exactly the
/// skills with a dynamic workforce inject.
pub open spec fn catalog_valid(catalog: ProducerRuleCatalog, skills: Seq<Skill>) -> bool {
    let rules = catalog.rules@;
    &&& catalog.version == 1
    &&& forall|a: int, b: int| 0 <= a < b < rules.len() ==> #[trigger] rules[a].id@ != #[trigger] rules[b].id@
    &&& forall|a: int, b: int|
        0 <= a < b < rules.len() ==> #[trigger] rules[a].source_buff_id@ != #[trigger] rules[b].source_buff_id@
    &&& forall|a: int| 0 <= a < rules.len() ==> rule_matches_table(#[trigger] rules[a], skills)
    &&& forall|a: int| 0 <= a < rules.len() ==> #[trigger] buff_covered(skills, rules[a].source_buff_id@)
    &&& forall|q: int|
        0 <= q < skills.len() && #[trigger] has_dynamic_inject(skills[q]) ==> rule_for_buff(rules, skills[q].id@)
}

/// Some skill with id `buff` has a dynamic workforce inject.
pub open spec fn buff_covered(skills: Seq<Skill>, buff: Seq<char>) -> bool {
    dynamic_id_among(skills, skills.len() as int, buff)
}

/// Among the first `n` skills, one with id `id` has a dynamic workforce inject.
pub open spec fn dynamic_id_among(skills: Seq<Skill>, n: int, id: Seq<char>) -> bool {
    exists|q: int| 0 <= q < n && q < skills.len() && #[trigger] skills[q].id@ == id && has_dynamic_inject(skills[q])
}

/// Some rule has `buff` as its source buff.
pub open spec fn rule_for_buff(rules: Seq<ProducerRule>, buff: Seq<char>) -> bool {
    exists|a: int| 0 <= a < rules.len() && #[trigger] rules[a].source_buff_id@ == buff
}

/// Checks one rule's buff against the table.
fn check_rule_atoms(rule: &ProducerRule, table: &SkillTable) -> (res: Result<(), ProducerCatalogError>)
    ensures
        res is Ok <==> rule_matches_table(*rule, table.skills@),
{
    let skill = match table.get(rule.source_buff_id.as_str()) {
        Some(skill) => skill,
        None => {
            return Err(
                ProducerCatalogError::UnknownBuff {
                    rule: rule.id.clone(),
                    buff: rule.source_buff_id.clone(),
                },
            );
        },
    };
    assert(lookup_skill(table.skills@, rule.source_buff_id@) == Some(*skill));
    let mut found = false;
    let mut k: usize = 0;
    while k < skill.atoms.len()
        invariant
            0 <= k <= skill.atoms@.len(),
            lookup_skill(table.skills@, rule.source_buff_id@) == Some(*skill),
            found == exists|j: int|
                0 <= j < k && #[trigger] atom_matches_target(*skill, skill.atoms@[j], rule.target_facility@),
            forall|j: int|
                0 <= j < k && #[trigger] atom_matches_target(*skill, skill.atoms@[j], rule.target_facility@)
                    ==> !negative_inject(skill.atoms@[j]),
        decreases skill.atoms@.len() - k,
    {
        let atom = &skill.atoms[k];
        let selector = match &atom.selector {
            Some(s) => Some(s),
            None => None,
        };
        assert((match selector {
            Some(s) => Some(*s),
            None => None,
        }) == atom.selector);
        let dynamic = dynamic_workforce_selector(selector).is_some();
        let target = target_facility(skill.facility.as_str(), &atom.action, atom.scope);
        let matches = dynamic && str_eq(target, rule.target_facility.as_str());
        assert(matches == atom_matches_target(*skill, skill.atoms@[k as int], rule.target_facility@));
        if matches {
            let negative = match &atom.action {
                Action::GlobalInjectTradeEff { value_milli } => *value_milli < 0,
                Action::GlobalInjectManuEff { value_milli, .. } => *value_milli < 0,
                _ => false,
            };
            if negative {
                proof {
                    let sk = lookup_skill(table.skills@, rule.source_buff_id@)->0;
                    assert(sk == *skill);
                    assert(atom_matches_target(sk, sk.atoms@[k as int], rule.target_facility@));
                    assert(negative_inject(sk.atoms@[k as int]));
                }
                return Err(ProducerCatalogError::NegativeDynamicInject(rule.id.clone()));
            }
            found = true;
        }
        k += 1;
    }
    proof {
        let sk = lookup_skill(table.skills@, rule.source_buff_id@)->0;
        assert(sk == *skill);
        if found {
            let j = choose|j: int|
                0 <= j < skill.atoms@.len() && #[trigger] atom_matches_target(*skill, skill.atoms@[j], rule.target_facility@);
            assert(atom_matches_target(sk, sk.atoms@[j], rule.target_facility@));
        }
    }
    if !found {
        return Err(
            ProducerCatalogError::NoDynamicWorkforceAtom {
                rule: rule.id.clone(),
                target: rule.target_facility.clone(),
            },
        );
    }
    Ok(())
}

/// Whether the skill has a dynamic workforce inject.
fn skill_has_dynamic_inject(skill: &Skill) -> (res: bool)
    ensures
        res == has_dynamic_inject(*skill),
{
    let mut k: usize = 0;
    while k < skill.atoms.len()
        invariant
            0 <= k <= skill.atoms@.len(),
            forall|j: int| 0 <= j < k ==> !#[trigger] is_dynamic_inject_atom(skill.atoms@[j]),
        decreases skill.atoms@.len() - k,
    {
        let atom = &skill.atoms[k];
        let inject = match &atom.action {
            Action::GlobalInjectTradeEff { .. } | Action::GlobalInjectManuEff { .. } => true,
            _ => false,
        };
        let selector = match &atom.selector {
            Some(s) => Some(s),
            None => None,
        };
        assert((match selector {
            Some(s) => Some(*s),
            None => None,
        }) == atom.selector);
        if inject && dynamic_workforce_selector(selector).is_some() {
            assert(is_dynamic_inject_atom(skill.atoms@[k as int]));
            return true;
        }
        k += 1;
    }
    false
}

/// Rejects a catalog that is not [`catalog_valid`] for the table: the
/// version, duplicate ids and buffs, each rule against the table, then
/// coverage of the dynamic workforce injects.
pub fn validate_producer_rule_catalog(
    catalog: &ProducerRuleCatalog,
    table: &SkillTable,
) -> (res: Result<(), ProducerCatalogError>)
    ensures
        res is Ok <==> catalog_valid(*catalog, table.skills@),
{
    if catalog.version != 1 {
        return Err(ProducerCatalogError::UnsupportedVersion(catalog.version));
    }
    let rules = &catalog.rules;
    let mut ids: Vec<String> = Vec::new();
    let mut buff_ids: Vec<String> = Vec::new();
    let mut i: usize = 0;
    while i < rules.len()
        invariant
            0 <= i <= rules@.len(),
            rules@ == catalog.rules@,
            ids@.len() == i,
            buff_ids@.len() == i,
            forall|a: int| 0 <= a < i ==> #[trigger] ids@[a]@ == rules@[a].id@,
            forall|a: int| 0 <= a < i ==> #[trigger] buff_ids@[a]@ == rules@[a].source_buff_id@,
            forall|a: int, b: int| 0 <= a < b < i ==> #[trigger] rules@[a].id@ != #[trigger] rules@[b].id@,
            forall|a: int, b: int|
                0 <= a < b < i ==> #[trigger] rules@[a].source_buff_id@ != #[trigger] rules@[b].source_buff_id@,
            forall|a: int| 0 <= a < i ==> rule_matches_table(#[trigger] rules@[a], table.skills@),
        decreases rules@.len() - i,
    {
        let rule = &rules[i];
        if crate::text::contains_name(&ids, rule.id.as_str()) {
            proof {
                let a = choose|a: int| 0 <= a < ids@.len() && #[trigger] ids@[a]@ == rule.id@;
                assert(rules@[a].id@ == rules@[i as int].id@);
            }
            return Err(ProducerCatalogError::DuplicateRuleId(rule.id.clone()));
        }
        if crate::text::contains_name(&buff_ids, rule.source_buff_id.as_str()) {
            proof {
                let a = choose|a: int| 0 <= a < buff_ids@.len() && #[trigger] buff_ids@[a]@ == rule.source_buff_id@;
                assert(rules@[a].source_buff_id@ == rules@[i as int].source_buff_id@);
            }
            return Err(ProducerCatalogError::DuplicateSourceBuff(rule.source_buff_id.clone()));
        }
        let checked = check_rule_atoms(rule, table);
        if checked.is_err() {
            return checked;
        }
        ids.push(rule.id.clone());
        buff_ids.push(rule.source_buff_id.clone());
        proof {
            assert forall|a: int, b: int| 0 <= a < b < i + 1 implies #[trigger] rules@[a].id@
                != #[trigger] rules@[b].id@ by {
                if b == i {
                    assert(ids@[a]@ == rules@[a].id@);
                }
            }
            assert forall|a: int, b: int| 0 <= a < b < i + 1 implies #[trigger] rules@[a].source_buff_id@
                != #[trigger] rules@[b].source_buff_id@ by {
                if b == i {
                    assert(buff_ids@[a]@ == rules@[a].source_buff_id@);
                }
            }
        }
        i += 1;
    }
    let skills = table.skills();
    let mut missing: Vec<String> = Vec::new();
    let mut s: usize = 0;
    while s < skills.len()
        invariant
            0 <= s <= skills@.len(),
            skills@ == table.skills@,
            buff_ids@.len() == rules@.len(),
            forall|a: int| 0 <= a < rules@.len() ==> #[trigger] buff_ids@[a]@ == rules@[a].source_buff_id@,
            forall|t: int| 0 <= t < missing@.len() ==> dynamic_id_among(skills@, s as int, #[trigger] missing@[t]@),
            forall|t: int| 0 <= t < missing@.len() ==> !has_name(buff_ids@, #[trigger] missing@[t]@),
            forall|q: int|
                0 <= q < s && #[trigger] has_dynamic_inject(skills@[q]) && !has_name(buff_ids@, skills@[q].id@)
                    ==> has_name(missing@, skills@[q].id@),
        decreases skills@.len() - s,
    {
        let skill = &skills[s];
        if skill_has_dynamic_inject(skill) && !crate::text::contains_name(&buff_ids, skill.id.as_str()) {
            let ghost before = missing@;
            push_unique(&mut missing, skill.id.clone());
            proof {
                assert forall|t: int| 0 <= t < missing@.len() implies dynamic_id_among(
                    skills@,
                    s + 1,
                    #[trigger] missing@[t]@,
                ) by {
                    if t < before.len() {
                        assert(missing@[t] == before[t]);
                        assert(dynamic_id_among(skills@, s as int, before[t]@));
                        let q = choose|q: int|
                            0 <= q < s && q < skills@.len() && #[trigger] skills@[q].id@ == before[t]@
                                && has_dynamic_inject(skills@[q]);
                        assert(skills@[q].id@ == missing@[t]@);
                    } else {
                        assert(skills@[s as int].id@ == missing@[t]@);
                        assert(has_dynamic_inject(skills@[s as int]));
                    }
                }
                assert forall|q: int|
                    0 <= q < s + 1 && #[trigger] has_dynamic_inject(skills@[q]) && !has_name(
                        buff_ids@,
                        skills@[q].id@,
                    ) implies has_name(missing@, skills@[q].id@) by {
                    if q < s {
                        let t = choose|t: int| 0 <= t < before.len() && #[trigger] before[t]@ == skills@[q].id@;
                        assert(missing@[t] == before[t]);
                    } else if has_name(before, skill.id@) {
                        let t = choose|t: int| 0 <= t < before.len() && #[trigger] before[t]@ == skill.id@;
                        assert(missing@[t] == before[t]);
                    } else {
                        assert(missing@[missing@.len() - 1]@ == skill.id@);
                    }
                }
            }
        }
        s += 1;
    }
    let mut extra: Vec<String> = Vec::new();
    let mut a: usize = 0;
    while a < buff_ids.len()
        invariant
            0 <= a <= buff_ids@.len(),
            skills@ == table.skills@,
            buff_ids@.len() == rules@.len(),
            forall|q: int| 0 <= q < rules@.len() ==> #[trigger] buff_ids@[q]@ == rules@[q].source_buff_id@,
            extra@.len() == 0 <==> forall|q: int| 0 <= q < a ==> #[trigger] buff_covered(skills@, buff_ids@[q]@),
        decreases buff_ids@.len() - a,
    {
        let mut covered = false;
        let mut t: usize = 0;
        while t < skills.len()
            invariant
                0 <= t <= skills@.len(),
                0 <= a < buff_ids@.len(),
                covered == dynamic_id_among(skills@, t as int, buff_ids@[a as int]@),
            decreases skills@.len() - t,
        {
            let hit = skill_has_dynamic_inject(&skills[t]) && skills[t].id == buff_ids[a];
            if hit {
                covered = true;
            }
            proof {
                if dynamic_id_among(skills@, t + 1, buff_ids@[a as int]@) && !hit {
                    let q = choose|q: int|
                        0 <= q < t + 1 && q < skills@.len() && #[trigger] skills@[q].id@ == buff_ids@[a as int]@
                            && has_dynamic_inject(skills@[q]);
                    assert(q != t);
                }
            }
            t += 1;
        }
        if !covered {
            extra.push(buff_ids[a].clone());
        }
        proof {
            assert(covered == buff_covered(skills@, buff_ids@[a as int]@));
            if extra@.len() == 0 {
                assert forall|q: int| 0 <= q < a + 1 implies #[trigger] buff_covered(skills@, buff_ids@[q]@) by {}
            } else {
                if !covered {
                    assert(!buff_covered(skills@, buff_ids@[a as int]@));
                }
            }
        }
        a += 1;
    }
    if missing.len() > 0 || extra.len() > 0 {
        proof {
            if missing@.len() > 0 {
                assert(dynamic_id_among(skills@, skills@.len() as int, missing@[0]@));
                let q = choose|q: int|
                    0 <= q < skills@.len() && q < skills@.len() && #[trigger] skills@[q].id@ == missing@[0]@
                        && has_dynamic_inject(skills@[q]);
                if catalog_valid(*catalog, table.skills@) {
                    assert(rule_for_buff(rules@, skills@[q].id@));
                    let r = choose|r: int| 0 <= r < rules@.len() && #[trigger] rules@[r].source_buff_id@ == skills@[q].id@;
                    assert(buff_ids@[r]@ == missing@[0]@);
                }
            } else {
                let q = choose|q: int| 0 <= q < buff_ids@.len() && !#[trigger] buff_covered(skills@, buff_ids@[q]@);
                assert(buff_ids@[q]@ == rules@[q].source_buff_id@);
                assert(!buff_covered(skills@, rules@[q].source_buff_id@));
            }
        }
        return Err(ProducerCatalogError::CoverageMismatch { missing, extra });
    }
    proof {
        assert forall|q: int| 0 <= q < skills@.len() && #[trigger] has_dynamic_inject(skills@[q]) implies rule_for_buff(
            rules@,
            skills@[q].id@,
        ) by {
            if !has_name(buff_ids@, skills@[q].id@) {
                assert(has_name(missing@, skills@[q].id@));
            }
            let r = choose|r: int| 0 <= r < buff_ids@.len() && #[trigger] buff_ids@[r]@ == skills@[q].id@;
            assert(rules@[r].source_buff_id@ == skills@[q].id@);
        }
        assert forall|r: int| 0 <= r < rules@.len() implies #[trigger] buff_covered(skills@, rules@[r].source_buff_id@) by {
            assert(buff_ids@[r]@ == rules@[r].source_buff_id@);
            assert(buff_covered(skills@, buff_ids@[r]@));
        }
    }
    Ok(())
}


// ── resolving the producers of an assignment ──

/// The tier an assigned operator's progress gives.
pub open spec fn op_tier(op: AssignedOperator) -> PromotionTier {
    spec_tier_of(op.progress.elite, op.progress.rarity)
}

/// `op` brings the buff `buff` to the control center.
pub open spec fn produces(op: AssignedOperator, inst: Seq<OperatorInstance>, buff: Seq<char>) -> bool {
    has_name(instance_buffs(inst, op.name@, op_tier(op), "control"@), buff)
}

/// `n` names a control operator that brings `buff`.
pub open spec fn producer_name(ctrl: Seq<AssignedOperator>, inst: Seq<OperatorInstance>, buff: Seq<char>, n: Seq<char>) -> bool {
    exists|k: int| 0 <= k < ctrl.len() && #[trigger] produces(ctrl[k], inst, buff) && ctrl[k].name@ == n
}

/// `n` is the first, in code-point order, of the producer names.
pub open spec fn least_producer(ctrl: Seq<AssignedOperator>, inst: Seq<OperatorInstance>, buff: Seq<char>, n: Seq<char>) -> bool {
    &&& producer_name(ctrl, inst, buff, n)
    &&& forall|m: Seq<char>| #[trigger] producer_name(ctrl, inst, buff, m) && m != n ==> seq_lt(n, m)
}

/// Some control operator brings `buff`.
pub open spec fn has_producer(ctrl: Seq<AssignedOperator>, inst: Seq<OperatorInstance>, buff: Seq<char>) -> bool {
    exists|k: int| 0 <= k < ctrl.len() && #[trigger] produces(ctrl[k], inst, buff)
}

/// The least producer name among the control operators.
fn least_control_producer(ctrl: &Vec<AssignedOperator>, instances: &OperatorInstances, buff: &str) -> (res: Option<String>)
    ensures
        res is None <==> !has_producer(ctrl@, instances.instances@, buff@),
        res matches Some(n) ==> least_producer(ctrl@, instances.instances@, buff@, n@),
{
    let ghost inst = instances.instances@;
    let mut best: Option<String> = None;
    let mut k: usize = 0;
    while k < ctrl.len()
        invariant
            0 <= k <= ctrl@.len(),
            inst == instances.instances@,
            best is None <==> forall|j: int| 0 <= j < k ==> !#[trigger] produces(ctrl@[j], inst, buff@),
            best matches Some(b) ==> exists|j: int| 0 <= j < k && #[trigger] produces(ctrl@[j], inst, buff@) && ctrl@[j].name@ == b@,
            best matches Some(b) ==> forall|j: int|
                0 <= j < k && #[trigger] produces(ctrl@[j], inst, buff@) && ctrl@[j].name@ != b@ ==> seq_lt(b@, ctrl@[j].name@),
        decreases ctrl@.len() - k,
    {
        let op = &ctrl[k];
        let buffs = instances.resolve_buff_ids(op.name.as_str(), op.tier(), "control");
        if crate::text::contains_name(&buffs, buff) {
            assert(produces(ctrl@[k as int], inst, buff@));
            let replace = match &best {
                None => true,
                Some(b) => str_lt(op.name.as_str(), b.as_str()),
            };
            if replace {
                proof {
                    if best is Some {
                        let b = best->0;
                        assert forall|j: int|
                            0 <= j < k + 1 && #[trigger] produces(ctrl@[j], inst, buff@) && ctrl@[j].name@ != op.name@ implies seq_lt(
                            op.name@,
                            ctrl@[j].name@,
                        ) by {
                            if j < k {
                                if ctrl@[j].name@ != b@ {
                                    lemma_seq_lt_transitive(op.name@, b@, ctrl@[j].name@);
                                }
                            }
                        }
                    }
                }
                best = Some(op.name.clone());
            } else {
                proof {
                    let b = best->0;
                    lemma_seq_lt_total(op.name@, b@);
                }
            }
        }
        k += 1;
    }
    proof {
        if best is Some {
            let b = best->0;
            assert forall|m: Seq<char>| #[trigger] producer_name(ctrl@, inst, buff@, m) && m != b@ implies seq_lt(b@, m) by {
                let j = choose|j: int| 0 <= j < ctrl@.len() && #[trigger] produces(ctrl@[j], inst, buff@) && ctrl@[j].name@ == m;
            }
        }
        if best is None {
            assert(!has_producer(ctrl@, inst, buff@));
        }
    }
    best
}

/// Names of the operators of `ops` that carry `tag` at their tier, in order.
pub open spec fn tagged_names(ops: Seq<AssignedOperator>, inst: Seq<OperatorInstance>, tag: Seq<char>) -> Seq<Seq<char>>
    decreases ops.len(),
{
    if ops.len() == 0 {
        Seq::empty()
    } else {
        let prev = tagged_names(ops.drop_last(), inst, tag);
        let op = ops.last();
        if has_name(instance_tags(inst, op.name@, op_tier(op)), tag) {
            prev.push(op.name@)
        } else {
            prev
        }
    }
}

/// Operators of `ops` carrying `tag`.
fn tagged_operator_names(ops: &[AssignedOperator], instances: &OperatorInstances, tag: &str) -> (res: Vec<String>)
    ensures
        crate::text::views(res@) == tagged_names(ops@, instances.instances@, tag@),
{
    let mut out: Vec<String> = Vec::new();
    let mut k: usize = 0;
    assert(ops@.take(0) =~= Seq::<AssignedOperator>::empty());
    assert(crate::text::views(out@) =~= Seq::<Seq<char>>::empty());
    while k < ops.len()
        invariant
            0 <= k <= ops@.len(),
            crate::text::views(out@) == tagged_names(ops@.take(k as int), instances.instances@, tag@),
        decreases ops@.len() - k,
    {
        let op = &ops[k];
        assert(ops@.take(k + 1).drop_last() =~= ops@.take(k as int));
        assert(ops@.take(k + 1).last() == ops@[k as int]);
        let tags = instances.tags_for(op.name.as_str(), op.tier());
        if crate::text::contains_name(&tags, tag) {
            let ghost before = out@;
            out.push(op.name.clone());
            assert(crate::text::views(out@) =~= crate::text::views(before).push(op.name@));
        }
        k += 1;
    }
    assert(ops@.take(ops@.len() as int) =~= ops@);
    out
}

/// A room takes part for an atom: it holds tagged operators, at least
/// `threshold` of them when there is one.
pub open spec fn room_takes_part(n: int, threshold: Option<u8>) -> bool {
    n > 0 && match threshold {
        Some(m) => n >= m,
        None => true,
    }
}

/// `v` limited to the range of `i64`.
pub open spec fn clamp_i64(v: int) -> int {
    if v > i64::MAX {
        i64::MAX as int
    } else if v < i64::MIN {
        i64::MIN as int
    } else {
        v
    }
}

/// What a taking-part room with `n` tagged operators adds: the inject value
/// once per room with a threshold, else once per tagged operator.
pub open spec fn room_share(v: i64, n: int, threshold: Option<u8>) -> int {
    match threshold {
        Some(_) => v as int,
        None => clamp_i64(v * n),
    }
}

/// The tagged operators of the blueprint room `r` in the assignment.
pub open spec fn room_tagged(r: BlueprintRoom, rooms: Seq<RoomAssignment>, inst: Seq<OperatorInstance>, tag: Seq<char>) -> Seq<Seq<char>> {
    tagged_names(room_operators(rooms, r.id.0@), inst, tag)
}

/// Blueprint room `r` of kind `kind` takes part for the tag and threshold.
pub open spec fn room_part(
    r: BlueprintRoom,
    kind: FacilityKind,
    rooms: Seq<RoomAssignment>,
    inst: Seq<OperatorInstance>,
    tag: Seq<char>,
    threshold: Option<u8>,
) -> bool {
    r.kind == kind && room_takes_part(room_tagged(r, rooms, inst, tag).len() as int, threshold)
}

/// The contribution after adding, room by room, the shares of the first
/// blueprint rooms `bp` (sums saturate at the range of `i64`).
pub open spec fn rooms_contribution(
    acc: int,
    bp: Seq<BlueprintRoom>,
    kind: FacilityKind,
    rooms: Seq<RoomAssignment>,
    inst: Seq<OperatorInstance>,
    tag: Seq<char>,
    threshold: Option<u8>,
    v: i64,
) -> int
    decreases bp.len(),
{
    if bp.len() == 0 {
        acc
    } else {
        let prev = rooms_contribution(acc, bp.drop_last(), kind, rooms, inst, tag, threshold, v);
        let r = bp.last();
        if room_part(r, kind, rooms, inst, tag, threshold) {
            clamp_i64(prev + room_share(v, room_tagged(r, rooms, inst, tag).len() as int, threshold))
        } else {
            prev
        }
    }
}

/// Adds the shares of the blueprint rooms of `kind` for one atom: updates the
/// contribution, and records the tagged operators and the rooms that take
/// part.
fn add_atom_rooms(
    blueprint: &BaseBlueprint,
    assignment: &BaseAssignment,
    instances: &OperatorInstances,
    kind: FacilityKind,
    tag: &str,
    threshold: Option<u8>,
    v: i64,
    contribution: &mut i64,
    consumers: &mut Vec<String>,
    target_rooms: &mut Vec<String>,
)
    requires
        strictly_sorted(old(consumers)@),
        strictly_sorted(old(target_rooms)@),
    ensures
        *final(contribution) as int == rooms_contribution(
            *old(contribution) as int,
            blueprint.rooms@,
            kind,
            assignment.rooms@,
            instances.instances@,
            tag@,
            threshold,
            v,
        ),
        strictly_sorted(final(consumers)@),
        strictly_sorted(final(target_rooms)@),
        forall|n: Seq<char>|
            #![trigger has_name(final(consumers)@, n)]
            has_name(final(consumers)@, n) <==> (has_name(old(consumers)@, n) || exists|j: int|
                0 <= j < blueprint.rooms@.len() && room_part(
                    #[trigger] blueprint.rooms@[j],
                    kind,
                    assignment.rooms@,
                    instances.instances@,
                    tag@,
                    threshold,
                ) && room_tagged(blueprint.rooms@[j], assignment.rooms@, instances.instances@, tag@).contains(n)),
        forall|id: Seq<char>|
            #![trigger has_name(final(target_rooms)@, id)]
            has_name(final(target_rooms)@, id) <==> (has_name(old(target_rooms)@, id) || exists|j: int|
                0 <= j < blueprint.rooms@.len() && room_part(
                    #[trigger] blueprint.rooms@[j],
                    kind,
                    assignment.rooms@,
                    instances.instances@,
                    tag@,
                    threshold,
                ) && blueprint.rooms@[j].id.0@ == id),
{
    let ghost bp = blueprint.rooms@;
    let ghost rooms = assignment.rooms@;
    let ghost inst = instances.instances@;
    let ghost c0 = consumers@;
    let ghost t0 = target_rooms@;
    let ghost acc0 = *contribution as int;
    let mut j: usize = 0;
    assert(bp.take(0) =~= Seq::<BlueprintRoom>::empty());
    while j < blueprint.rooms.len()
        invariant
            0 <= j <= bp.len(),
            bp == blueprint.rooms@,
            rooms == assignment.rooms@,
            inst == instances.instances@,
            *contribution as int == rooms_contribution(acc0, bp.take(j as int), kind, rooms, inst, tag@, threshold, v),
            strictly_sorted(consumers@),
            strictly_sorted(target_rooms@),
            forall|n: Seq<char>|
                #![trigger has_name(consumers@, n)]
                has_name(consumers@, n) <==> (has_name(c0, n) || exists|q: int|
                    0 <= q < j && room_part(#[trigger] bp[q], kind, rooms, inst, tag@, threshold) && room_tagged(
                        bp[q],
                        rooms,
                        inst,
                        tag@,
                    ).contains(n)),
            forall|id: Seq<char>|
                #![trigger has_name(target_rooms@, id)]
                has_name(target_rooms@, id) <==> (has_name(t0, id) || exists|q: int|
                    0 <= q < j && room_part(#[trigger] bp[q], kind, rooms, inst, tag@, threshold) && bp[q].id.0@ == id),
        decreases bp.len() - j,
    {
        let room = &blueprint.rooms[j];
        assert(bp.take(j + 1).drop_last() =~= bp.take(j as int));
        assert(bp.take(j + 1).last() == bp[j as int]);
        if room.kind == kind {
            let ops = assignment.operators_in(&room.id);
            let tagged = tagged_operator_names(ops, instances, tag);
            let n = tagged.len();
            assert(n as int == room_tagged(*room, rooms, inst, tag@).len());
            let takes_part = n > 0 && match threshold {
                Some(m) => n >= m as usize,
                None => true,
            };
            assert(takes_part == room_part(*room, kind, rooms, inst, tag@, threshold));
            if takes_part {
                let share: i128 = match threshold {
                    Some(_) => v as i128,
                    None => {
                        let vv = v as i128;
                        let nn = n as i128;
                        assert(-0x8000_0000_0000_0000 <= vv < 0x8000_0000_0000_0000);
                        assert(0 <= nn < 0x1_0000_0000_0000_0000);
                        assert(-0x8000_0000_0000_0000_0000_0000_0000_0000 < vv * nn
                            < 0x8000_0000_0000_0000_0000_0000_0000_0000) by (nonlinear_arith)
                            requires
                                -0x8000_0000_0000_0000 <= vv < 0x8000_0000_0000_0000,
                                0 <= nn < 0x1_0000_0000_0000_0000,
                        ;
                        let p = vv * nn;
                        if p > 9223372036854775807i128 {
                            9223372036854775807i128
                        } else if p < -9223372036854775808i128 {
                            -9223372036854775808i128
                        } else {
                            p
                        }
                    },
                };
                assert(share as int == room_share(v, n as int, threshold));
                let total: i128 = *contribution as i128 + share;
                *contribution = if total > 9223372036854775807i128 {
                    9223372036854775807i64
                } else if total < -9223372036854775808i128 {
                    -9223372036854775808i64
                } else {
                    total as i64
                };
                let mut t: usize = 0;
                let ghost before = consumers@;
                while t < tagged.len()
                    invariant
                        0 <= t <= tagged@.len(),
                        strictly_sorted(consumers@),
                        forall|m: Seq<char>|
                            #![trigger has_name(consumers@, m)]
                            has_name(consumers@, m) <==> (has_name(before, m) || exists|u: int|
                                0 <= u < t && #[trigger] tagged@[u]@ == m),
                    decreases tagged@.len() - t,
                {
                    insert_sorted_unique(consumers, tagged[t].clone());
                    proof {
                        assert forall|m: Seq<char>|
                            #![trigger has_name(consumers@, m)]
                            has_name(consumers@, m) <==> (has_name(before, m) || exists|u: int|
                                0 <= u < t + 1 && #[trigger] tagged@[u]@ == m) by {
                            if m == tagged@[t as int]@ {
                            }
                        }
                    }
                    t += 1;
                }
                proof {
                    assert forall|m: Seq<char>| (exists|u: int| 0 <= u < tagged@.len() && #[trigger] tagged@[u]@ == m)
                        <==> room_tagged(*room, rooms, inst, tag@).contains(m) by {
                        assert(crate::text::views(tagged@) == room_tagged(*room, rooms, inst, tag@));
                        if exists|u: int| 0 <= u < tagged@.len() && #[trigger] tagged@[u]@ == m {
                            let u = choose|u: int| 0 <= u < tagged@.len() && #[trigger] tagged@[u]@ == m;
                            assert(crate::text::views(tagged@)[u] == m);
                        }
                        if room_tagged(*room, rooms, inst, tag@).contains(m) {
                            let u = choose|u: int|
                                0 <= u < room_tagged(*room, rooms, inst, tag@).len() && room_tagged(
                                    *room,
                                    rooms,
                                    inst,
                                    tag@,
                                )[u] == m;
                            assert(tagged@[u]@ == m);
                        }
                    }
                }
                insert_sorted_unique(target_rooms, room.id.0.clone());
            }
        }
        proof {
            assert forall|m: Seq<char>|
                #![trigger has_name(consumers@, m)]
                has_name(consumers@, m) <==> (has_name(c0, m) || exists|q: int|
                    0 <= q < j + 1 && room_part(#[trigger] bp[q], kind, rooms, inst, tag@, threshold) && room_tagged(
                        bp[q],
                        rooms,
                        inst,
                        tag@,
                    ).contains(m)) by {
                if exists|q: int|
                    0 <= q < j + 1 && room_part(#[trigger] bp[q], kind, rooms, inst, tag@, threshold) && room_tagged(
                        bp[q],
                        rooms,
                        inst,
                        tag@,
                    ).contains(m) {
                    let q = choose|q: int|
                        0 <= q < j + 1 && room_part(#[trigger] bp[q], kind, rooms, inst, tag@, threshold)
                            && room_tagged(bp[q], rooms, inst, tag@).contains(m);
                    if q < j {
                    }
                }
            }
            assert forall|id: Seq<char>|
                #![trigger has_name(target_rooms@, id)]
                has_name(target_rooms@, id) <==> (has_name(t0, id) || exists|q: int|
                    0 <= q < j + 1 && room_part(#[trigger] bp[q], kind, rooms, inst, tag@, threshold) && bp[q].id.0@
                        == id) by {
                if exists|q: int|
                    0 <= q < j + 1 && room_part(#[trigger] bp[q], kind, rooms, inst, tag@, threshold) && bp[q].id.0@
                        == id {
                    let q = choose|q: int|
                        0 <= q < j + 1 && room_part(#[trigger] bp[q], kind, rooms, inst, tag@, threshold)
                            && bp[q].id.0@ == id;
                    if q < j {
                    }
                }
            }
        }
        j += 1;
    }
    assert(bp.take(bp.len() as int) =~= bp);
}


/// The inject value of a trade or factory inject.
pub open spec fn inject_value(action: Action) -> Option<i64> {
    match action {
        Action::GlobalInjectTradeEff { value_milli } => Some(value_milli),
        Action::GlobalInjectManuEff { value_milli, .. } => Some(value_milli),
        _ => None,
    }
}

/// Tag counted by an atom's dynamic workforce selector.
pub open spec fn dyn_tag(a: EffectAtom) -> Seq<char> {
    match spec_dynamic_workforce_selector(a.selector) {
        Some(p) => p.0,
        None => Seq::empty(),
    }
}

/// Per-station minimum of an atom's dynamic workforce selector.
pub open spec fn dyn_threshold(a: EffectAtom) -> Option<u8> {
    match spec_dynamic_workforce_selector(a.selector) {
        Some(p) => p.1,
        None => None,
    }
}

/// The atom feeds the rule's target: a dynamic workforce atom acting on it
/// that injects a value.
pub open spec fn atom_feeds(skill: Skill, a: EffectAtom, target: Seq<char>) -> bool {
    atom_matches_target(skill, a, target) && inject_value(a.action) is Some
}

/// The facility kind a producer rule may target.
pub open spec fn rule_kind(target: Seq<char>) -> Option<FacilityKind> {
    if target == "trade"@ {
        Some(FacilityKind::TradePost)
    } else if target == "manufacture"@ {
        Some(FacilityKind::Factory)
    } else {
        None
    }
}

/// The facility kind a producer rule targets.
fn target_kind(target: &str) -> (res: Option<FacilityKind>)
    ensures
        res == rule_kind(target@),
{
    if str_eq(target, "trade") {
        Some(FacilityKind::TradePost)
    } else if str_eq(target, "manufacture") {
        Some(FacilityKind::Factory)
    } else {
        None
    }
}

/// The contribution of the first `atoms`: each feeding atom adds the shares
/// of the blueprint rooms, in blueprint order.
pub open spec fn atoms_contribution(
    atoms: Seq<EffectAtom>,
    skill: Skill,
    target: Seq<char>,
    kind: FacilityKind,
    bp: Seq<BlueprintRoom>,
    rooms: Seq<RoomAssignment>,
    inst: Seq<OperatorInstance>,
) -> int
    decreases atoms.len(),
{
    if atoms.len() == 0 {
        0
    } else {
        let prev = atoms_contribution(atoms.drop_last(), skill, target, kind, bp, rooms, inst);
        let a = atoms.last();
        if atom_feeds(skill, a, target) {
            rooms_contribution(prev, bp, kind, rooms, inst, dyn_tag(a), dyn_threshold(a), inject_value(a.action)->0)
        } else {
            prev
        }
    }
}

/// `n` is tagged in a taking-part room of some feeding atom among the first
/// `m` atoms.
pub open spec fn is_consumer_upto(
    skill: Skill,
    m: int,
    target: Seq<char>,
    kind: FacilityKind,
    bp: Seq<BlueprintRoom>,
    rooms: Seq<RoomAssignment>,
    inst: Seq<OperatorInstance>,
    n: Seq<char>,
) -> bool {
    exists|k: int, j: int|
        #![trigger skill.atoms@[k], bp[j]]
        0 <= k < m && k < skill.atoms@.len() && 0 <= j < bp.len() && atom_feeds(skill, skill.atoms@[k], target)
            && room_part(bp[j], kind, rooms, inst, dyn_tag(skill.atoms@[k]), dyn_threshold(skill.atoms@[k]))
            && room_tagged(bp[j], rooms, inst, dyn_tag(skill.atoms@[k])).contains(n)
}

/// Room `id` takes part for some feeding atom among the first `m` atoms.
pub open spec fn is_target_room_upto(
    skill: Skill,
    m: int,
    target: Seq<char>,
    kind: FacilityKind,
    bp: Seq<BlueprintRoom>,
    rooms: Seq<RoomAssignment>,
    inst: Seq<OperatorInstance>,
    id: Seq<char>,
) -> bool {
    exists|k: int, j: int|
        #![trigger skill.atoms@[k], bp[j]]
        0 <= k < m && k < skill.atoms@.len() && 0 <= j < bp.len() && atom_feeds(skill, skill.atoms@[k], target)
            && room_part(bp[j], kind, rooms, inst, dyn_tag(skill.atoms@[k]), dyn_threshold(skill.atoms@[k]))
            && bp[j].id.0@ == id
}

/// The ids of a list of rooms.
pub open spec fn room_ids(v: Seq<RoomId>) -> Seq<String> {
    v.map_values(|r: RoomId| r.0)
}

/// What resolving reports for one producer rule of a catalog.
#[derive(Debug)]
pub struct ResolvedProducerDependency {
    pub rule_id: String,
    pub source_buff_id: String,
    /// The producing control operator (the first by name).
    pub producers: Vec<String>,
    /// Tagged operators of the taking-part rooms, sorted, once each.
    pub consumers: Vec<String>,
    pub target_facility: String,
    /// Taking-part rooms, sorted by id, once each.
    pub target_rooms: Vec<RoomId>,
    pub relation: ScheduleDependencyRelation,
    pub on_shifts: u8,
    pub off_shifts: u8,
    /// Summed inject value in thousandths (sums saturate at the range of `i64`).
    pub effective_contribution_milli: Option<i64>,
}

/// A resolved dependency is named by its rule.
impl HasName for ResolvedProducerDependency {
    open spec fn spec_pool_name(&self) -> Seq<char> {
        self.rule_id@
    }

    fn pool_name(&self) -> (res: &str) {
        self.rule_id.as_str()
    }
}

/// Why the producers of an assignment could not be resolved.
#[derive(Debug, Clone, PartialEq, Eq)]
pub enum ProducerResolveError {
    /// The catalog is not valid for the skill table.
    InvalidCatalog(ProducerCatalogError),
    /// A rule with a producer names a buff the skill table lacks.
    MissingSkill { rule: String, buff: String },
    /// A rule with a producer targets a facility other than trade posts and
    /// factories.
    UnsupportedTarget { rule: String, target: String },
}

/// The rule's producer exists and its buff is missing, or it targets an
/// unsupported facility through a dynamic workforce atom.
pub open spec fn rule_fails(
    rule: ProducerRule,
    ctrl: Seq<AssignedOperator>,
    inst: Seq<OperatorInstance>,
    skills: Seq<Skill>,
) -> bool {
    has_producer(ctrl, inst, rule.source_buff_id@) && match lookup_skill(skills, rule.source_buff_id@) {
        None => true,
        Some(skill) => rule_kind(rule.target_facility@) is None && exists|k: int|
            0 <= k < skill.atoms@.len() && #[trigger] atom_matches_target(
                skill,
                skill.atoms@[k],
                rule.target_facility@,
            ),
    }
}

/// The error reported for a failing rule.
pub open spec fn rule_error_matches(e: ProducerResolveError, rule: ProducerRule, skills: Seq<Skill>) -> bool {
    match lookup_skill(skills, rule.source_buff_id@) {
        None => e matches ProducerResolveError::MissingSkill { rule: r, buff } && r@ == rule.id@ && buff@
            == rule.source_buff_id@,
        Some(_) => e matches ProducerResolveError::UnsupportedTarget { rule: r, target } && r@ == rule.id@
            && target@ == rule.target_facility@,
    }
}

/// The rule is reported: it has a producer, a consumer, and a non-zero
/// contribution.
pub open spec fn rule_kept(
    rule: ProducerRule,
    ctrl: Seq<AssignedOperator>,
    inst: Seq<OperatorInstance>,
    skills: Seq<Skill>,
    bp: Seq<BlueprintRoom>,
    rooms: Seq<RoomAssignment>,
) -> bool {
    has_producer(ctrl, inst, rule.source_buff_id@) && match lookup_skill(skills, rule.source_buff_id@) {
        None => false,
        Some(skill) => match rule_kind(rule.target_facility@) {
            None => false,
            Some(kind) => (exists|n: Seq<char>|
                is_consumer_upto(skill, skill.atoms@.len() as int, rule.target_facility@, kind, bp, rooms, inst, n))
                && atoms_contribution(skill.atoms@, skill, rule.target_facility@, kind, bp, rooms, inst) != 0,
        },
    }
}

/// `d` is the report of a kept rule.
pub open spec fn resolved_matches(
    d: ResolvedProducerDependency,
    rule: ProducerRule,
    ctrl: Seq<AssignedOperator>,
    inst: Seq<OperatorInstance>,
    skills: Seq<Skill>,
    bp: Seq<BlueprintRoom>,
    rooms: Seq<RoomAssignment>,
) -> bool {
    let skill = lookup_skill(skills, rule.source_buff_id@)->0;
    let kind = rule_kind(rule.target_facility@)->0;
    let t = rule.target_facility@;
    let m = skill.atoms@.len() as int;
    &&& d.rule_id@ == rule.id@
    &&& d.source_buff_id@ == rule.source_buff_id@
    &&& d.producers@.len() == 1
    &&& least_producer(ctrl, inst, rule.source_buff_id@, d.producers@[0]@)
    &&& strictly_sorted(d.consumers@)
    &&& forall|n: Seq<char>| has_name(d.consumers@, n) <==> is_consumer_upto(skill, m, t, kind, bp, rooms, inst, n)
    &&& d.target_facility@ == t
    &&& strictly_sorted(room_ids(d.target_rooms@))
    &&& forall|id: Seq<char>|
        has_name(room_ids(d.target_rooms@), id) <==> is_target_room_upto(skill, m, t, kind, bp, rooms, inst, id)
    &&& d.relation == rule.schedule_relation
    &&& d.on_shifts == rule.on_shifts
    &&& d.off_shifts == rule.off_shifts
    &&& d.effective_contribution_milli == Some(atoms_contribution(skill.atoms@, skill, t, kind, bp, rooms, inst) as i64)
}


proof fn lemma_consumer_step(
    skill: Skill,
    k: int,
    target: Seq<char>,
    kind: FacilityKind,
    bp: Seq<BlueprintRoom>,
    rooms: Seq<RoomAssignment>,
    inst: Seq<OperatorInstance>,
    n: Seq<char>,
)
    requires
        0 <= k < skill.atoms@.len(),
    ensures
        is_consumer_upto(skill, k + 1, target, kind, bp, rooms, inst, n) <==> (is_consumer_upto(
            skill,
            k,
            target,
            kind,
            bp,
            rooms,
            inst,
            n,
        ) || (atom_feeds(skill, skill.atoms@[k], target) && exists|j: int|
            0 <= j < bp.len() && room_part(
                #[trigger] bp[j],
                kind,
                rooms,
                inst,
                dyn_tag(skill.atoms@[k]),
                dyn_threshold(skill.atoms@[k]),
            ) && room_tagged(bp[j], rooms, inst, dyn_tag(skill.atoms@[k])).contains(n))),
{
    if is_consumer_upto(skill, k + 1, target, kind, bp, rooms, inst, n) {
        let (a, j) = choose|a: int, j: int|
            #![trigger skill.atoms@[a], bp[j]]
            0 <= a < k + 1 && a < skill.atoms@.len() && 0 <= j < bp.len() && atom_feeds(skill, skill.atoms@[a], target)
                && room_part(bp[j], kind, rooms, inst, dyn_tag(skill.atoms@[a]), dyn_threshold(skill.atoms@[a]))
                && room_tagged(bp[j], rooms, inst, dyn_tag(skill.atoms@[a])).contains(n);
        if a < k {
            assert(is_consumer_upto(skill, k, target, kind, bp, rooms, inst, n));
        }
    }
    if is_consumer_upto(skill, k, target, kind, bp, rooms, inst, n) {
        let (a, j) = choose|a: int, j: int|
            #![trigger skill.atoms@[a], bp[j]]
            0 <= a < k && a < skill.atoms@.len() && 0 <= j < bp.len() && atom_feeds(skill, skill.atoms@[a], target)
                && room_part(bp[j], kind, rooms, inst, dyn_tag(skill.atoms@[a]), dyn_threshold(skill.atoms@[a]))
                && room_tagged(bp[j], rooms, inst, dyn_tag(skill.atoms@[a])).contains(n);
        assert(is_consumer_upto(skill, k + 1, target, kind, bp, rooms, inst, n));
    }
    if atom_feeds(skill, skill.atoms@[k], target) && exists|j: int|
        0 <= j < bp.len() && room_part(
            #[trigger] bp[j],
            kind,
            rooms,
            inst,
            dyn_tag(skill.atoms@[k]),
            dyn_threshold(skill.atoms@[k]),
        ) && room_tagged(bp[j], rooms, inst, dyn_tag(skill.atoms@[k])).contains(n) {
        let j = choose|j: int|
            0 <= j < bp.len() && room_part(
                #[trigger] bp[j],
                kind,
                rooms,
                inst,
                dyn_tag(skill.atoms@[k]),
                dyn_threshold(skill.atoms@[k]),
            ) && room_tagged(bp[j], rooms, inst, dyn_tag(skill.atoms@[k])).contains(n);
        assert(is_consumer_upto(skill, k + 1, target, kind, bp, rooms, inst, n));
    }
}

proof fn lemma_target_room_step(
    skill: Skill,
    k: int,
    target: Seq<char>,
    kind: FacilityKind,
    bp: Seq<BlueprintRoom>,
    rooms: Seq<RoomAssignment>,
    inst: Seq<OperatorInstance>,
    id: Seq<char>,
)
    requires
        0 <= k < skill.atoms@.len(),
    ensures
        is_target_room_upto(skill, k + 1, target, kind, bp, rooms, inst, id) <==> (is_target_room_upto(
            skill,
            k,
            target,
            kind,
            bp,
            rooms,
            inst,
            id,
        ) || (atom_feeds(skill, skill.atoms@[k], target) && exists|j: int|
            0 <= j < bp.len() && room_part(
                #[trigger] bp[j],
                kind,
                rooms,
                inst,
                dyn_tag(skill.atoms@[k]),
                dyn_threshold(skill.atoms@[k]),
            ) && bp[j].id.0@ == id)),
{
    if is_target_room_upto(skill, k + 1, target, kind, bp, rooms, inst, id) {
        let (a, j) = choose|a: int, j: int|
            #![trigger skill.atoms@[a], bp[j]]
            0 <= a < k + 1 && a < skill.atoms@.len() && 0 <= j < bp.len() && atom_feeds(skill, skill.atoms@[a], target)
                && room_part(bp[j], kind, rooms, inst, dyn_tag(skill.atoms@[a]), dyn_threshold(skill.atoms@[a]))
                && bp[j].id.0@ == id;
        if a < k {
            assert(is_target_room_upto(skill, k, target, kind, bp, rooms, inst, id));
        }
    }
    if is_target_room_upto(skill, k, target, kind, bp, rooms, inst, id) {
        let (a, j) = choose|a: int, j: int|
            #![trigger skill.atoms@[a], bp[j]]
            0 <= a < k && a < skill.atoms@.len() && 0 <= j < bp.len() && atom_feeds(skill, skill.atoms@[a], target)
                && room_part(bp[j], kind, rooms, inst, dyn_tag(skill.atoms@[a]), dyn_threshold(skill.atoms@[a]))
                && bp[j].id.0@ == id;
        assert(is_target_room_upto(skill, k + 1, target, kind, bp, rooms, inst, id));
    }
    if atom_feeds(skill, skill.atoms@[k], target) && exists|j: int|
        0 <= j < bp.len() && room_part(
            #[trigger] bp[j],
            kind,
            rooms,
            inst,
            dyn_tag(skill.atoms@[k]),
            dyn_threshold(skill.atoms@[k]),
        ) && bp[j].id.0@ == id {
        let j = choose|j: int|
            0 <= j < bp.len() && room_part(
                #[trigger] bp[j],
                kind,
                rooms,
                inst,
                dyn_tag(skill.atoms@[k]),
                dyn_threshold(skill.atoms@[k]),
            ) && bp[j].id.0@ == id;
        assert(is_target_room_upto(skill, k + 1, target, kind, bp, rooms, inst, id));
    }
}

/// Rooms with the given ids.
fn rooms_from_ids(ids: &Vec<String>) -> (res: Vec<RoomId>)
    ensures
        room_ids(res@) == ids@,
{
    let mut out: Vec<RoomId> = Vec::new();
    let mut i: usize = 0;
    while i < ids.len()
        invariant
            0 <= i <= ids@.len(),
            room_ids(out@) == ids@.take(i as int),
        decreases ids@.len() - i,
    {
        let c = ids[i].clone();
        let ghost before = out@;
        out.push(RoomId(c));
        assert(room_ids(out@) =~= room_ids(before).push(ids@[i as int]));
        assert(ids@.take(i + 1) =~= ids@.take(i as int).push(ids@[i as int]));
        i += 1;
    }
    assert(ids@.take(ids@.len() as int) =~= ids@);
    out
}

/// The report of one rule: none when it has no producer, no consumer or no
/// contribution.
fn resolve_rule(
    rule: &ProducerRule,
    blueprint: &BaseBlueprint,
    assignment: &BaseAssignment,
    instances: &OperatorInstances,
    table: &SkillTable,
    ctrl: &Vec<AssignedOperator>,
) -> (res: Result<Option<ResolvedProducerDependency>, ProducerResolveError>)
    ensures
        res is Err <==> rule_fails(*rule, ctrl@, instances.instances@, table.skills@),
        res matches Err(e) ==> rule_error_matches(e, *rule, table.skills@),
        res matches Ok(o) ==> (o is Some <==> rule_kept(
            *rule,
            ctrl@,
            instances.instances@,
            table.skills@,
            blueprint.rooms@,
            assignment.rooms@,
        )),
        res matches Ok(Some(d)) ==> resolved_matches(
            d,
            *rule,
            ctrl@,
            instances.instances@,
            table.skills@,
            blueprint.rooms@,
            assignment.rooms@,
        ),
{
    let ghost inst = instances.instances@;
    let ghost bp = blueprint.rooms@;
    let ghost rooms_v = assignment.rooms@;
    let ghost t = rule.target_facility@;
    let producer = match least_control_producer(ctrl, instances, rule.source_buff_id.as_str()) {
        Some(p) => p,
        None => {
            return Ok(None);
        },
    };
    let skill = match table.get(rule.source_buff_id.as_str()) {
        Some(s) => s,
        None => {
            return Err(
                ProducerResolveError::MissingSkill { rule: rule.id.clone(), buff: rule.source_buff_id.clone() },
            );
        },
    };
    let kind_opt = target_kind(rule.target_facility.as_str());
    let kind = match kind_opt {
        Some(k) => k,
        None => FacilityKind::TradePost,
    };
    let mut contribution: i64 = 0;
    let mut consumers: Vec<String> = Vec::new();
    let mut target_rooms: Vec<String> = Vec::new();
    let mut k: usize = 0;
    assert(skill.atoms@.take(0) =~= Seq::<EffectAtom>::empty());
    while k < skill.atoms.len()
        invariant
            0 <= k <= skill.atoms@.len(),
            inst == instances.instances@,
            bp == blueprint.rooms@,
            rooms_v == assignment.rooms@,
            t == rule.target_facility@,
            has_producer(ctrl@, inst, rule.source_buff_id@),
            least_producer(ctrl@, inst, rule.source_buff_id@, producer@),
            lookup_skill(table.skills@, rule.source_buff_id@) == Some(*skill),
            kind_opt == rule_kind(t),
            kind_opt matches Some(kk) ==> kind == kk,
            kind_opt is None ==> forall|j: int| 0 <= j < k ==> !#[trigger] atom_matches_target(*skill, skill.atoms@[j], t),
            contribution as int == atoms_contribution(skill.atoms@.take(k as int), *skill, t, kind, bp, rooms_v, inst),
            strictly_sorted(consumers@),
            strictly_sorted(target_rooms@),
            forall|n: Seq<char>|
                #![trigger has_name(consumers@, n)]
                has_name(consumers@, n) <==> is_consumer_upto(*skill, k as int, t, kind, bp, rooms_v, inst, n),
            forall|id: Seq<char>|
                #![trigger has_name(target_rooms@, id)]
                has_name(target_rooms@, id) <==> is_target_room_upto(*skill, k as int, t, kind, bp, rooms_v, inst, id),
        decreases skill.atoms@.len() - k,
    {
        let atom = &skill.atoms[k];
        assert(skill.atoms@.take(k + 1).drop_last() =~= skill.atoms@.take(k as int));
        assert(skill.atoms@.take(k + 1).last() == skill.atoms@[k as int]);
        let selector = match &atom.selector {
            Some(s) => Some(s),
            None => None,
        };
        assert((match selector {
            Some(s) => Some(*s),
            None => None,
        }) == atom.selector);
        let dynamic = dynamic_workforce_selector(selector);
        let acts_on = target_facility(skill.facility.as_str(), &atom.action, atom.scope);
        let matches = dynamic.is_some() && str_eq(acts_on, rule.target_facility.as_str());
        assert(matches == atom_matches_target(*skill, skill.atoms@[k as int], t));
        let ghost c_before = consumers@;
        let ghost r_before = target_rooms@;
        if matches {
            if kind_opt.is_none() {
                proof {
                    let sk = lookup_skill(table.skills@, rule.source_buff_id@)->0;
                    assert(sk == *skill);
                    assert(atom_matches_target(sk, sk.atoms@[k as int], t));
                }
                return Err(
                    ProducerResolveError::UnsupportedTarget {
                        rule: rule.id.clone(),
                        target: rule.target_facility.clone(),
                    },
                );
            }
            let value: Option<i64> = match &atom.action {
                Action::GlobalInjectTradeEff { value_milli } => Some(*value_milli),
                Action::GlobalInjectManuEff { value_milli, .. } => Some(*value_milli),
                _ => None,
            };
            assert(value == inject_value(atom.action));
            match value {
                Some(v) => {
                    let (tag, threshold) = match dynamic {
                        Some(p) => p,
                        None => {
                            return Ok(None);
                        },
                    };
                    assert(tag@ == dyn_tag(skill.atoms@[k as int]));
                    assert(threshold == dyn_threshold(skill.atoms@[k as int]));
                    add_atom_rooms(
                        blueprint,
                        assignment,
                        instances,
                        kind,
                        tag,
                        threshold,
                        v,
                        &mut contribution,
                        &mut consumers,
                        &mut target_rooms,
                    );
                },
                None => {},
            }
        }
        proof {
            assert forall|n: Seq<char>|
                #![trigger has_name(consumers@, n)]
                has_name(consumers@, n) <==> is_consumer_upto(*skill, k + 1, t, kind, bp, rooms_v, inst, n) by {
                lemma_consumer_step(*skill, k as int, t, kind, bp, rooms_v, inst, n);
            }
            assert forall|id: Seq<char>|
                #![trigger has_name(target_rooms@, id)]
                has_name(target_rooms@, id) <==> is_target_room_upto(*skill, k + 1, t, kind, bp, rooms_v, inst, id) by {
                lemma_target_room_step(*skill, k as int, t, kind, bp, rooms_v, inst, id);
            }
        }
        k += 1;
    }
    assert(skill.atoms@.take(skill.atoms@.len() as int) =~= skill.atoms@);
    proof {
        if kind_opt is None {
            assert(!exists|j: int|
                0 <= j < skill.atoms@.len() && #[trigger] atom_matches_target(*skill, skill.atoms@[j], t));
            assert forall|n: Seq<char>| !is_consumer_upto(*skill, skill.atoms@.len() as int, t, kind, bp, rooms_v, inst, n) by {
                if is_consumer_upto(*skill, skill.atoms@.len() as int, t, kind, bp, rooms_v, inst, n) {
                    let (a, j) = choose|a: int, j: int|
                        #![trigger skill.atoms@[a], bp[j]]
                        0 <= a < skill.atoms@.len() && a < skill.atoms@.len() && 0 <= j < bp.len() && atom_feeds(
                            *skill,
                            skill.atoms@[a],
                            t,
                        ) && room_part(bp[j], kind, rooms_v, inst, dyn_tag(skill.atoms@[a]), dyn_threshold(skill.atoms@[a]))
                            && room_tagged(bp[j], rooms_v, inst, dyn_tag(skill.atoms@[a])).contains(n);
                    assert(atom_matches_target(*skill, skill.atoms@[a], t));
                }
            }
        }
    }
    if consumers.len() == 0 || contribution == 0 {
        proof {
            if consumers@.len() == 0 {
                assert forall|n: Seq<char>| !is_consumer_upto(*skill, skill.atoms@.len() as int, t, kind, bp, rooms_v, inst, n) by {
                    assert(!has_name(consumers@, n));
                }
            }
        }
        return Ok(None);
    }
    proof {
        assert(has_name(consumers@, consumers@[0]@));
    }
    let mut producers: Vec<String> = Vec::new();
    producers.push(producer);
    let rooms_out = rooms_from_ids(&target_rooms);
    Ok(
        Some(
            ResolvedProducerDependency {
                rule_id: rule.id.clone(),
                source_buff_id: rule.source_buff_id.clone(),
                producers,
                consumers,
                target_facility: rule.target_facility.clone(),
                target_rooms: rooms_out,
                relation: rule.schedule_relation,
                on_shifts: rule.on_shifts,
                off_shifts: rule.off_shifts,
                effective_contribution_milli: Some(contribution),
            },
        ),
    )
}


/// The producer dependencies an assignment realises under a catalog: for
/// each rule whose source buff a control operator brings, the tagged
/// operators of the rule's facility that its dynamic inject reaches, the
/// rooms they work in, and the summed inject; sorted by rule id. The catalog
/// is checked first; a rule with a producer whose buff the table lacks, or
/// whose dynamic atom targets another facility than trade posts and
/// factories, stops the resolution.
pub fn resolve_assignment_producer_dependencies(
    catalog: &ProducerRuleCatalog,
    blueprint: &BaseBlueprint,
    assignment: &BaseAssignment,
    instances: &OperatorInstances,
    table: &SkillTable,
) -> (res: Result<Vec<ResolvedProducerDependency>, ProducerResolveError>)
    ensures
        (res matches Err(ProducerResolveError::InvalidCatalog(_))) <==> !catalog_valid(*catalog, table.skills@),
        res is Ok ==> catalog_valid(*catalog, table.skills@) && forall|i: int|
            0 <= i < catalog.rules@.len() ==> !#[trigger] rule_fails(
                catalog.rules@[i],
                room_operators(assignment.rooms@, "control"@),
                instances.instances@,
                table.skills@,
            ),
        (res is Err && !(res matches Err(ProducerResolveError::InvalidCatalog(_)))) ==> exists|i: int|
            0 <= i < catalog.rules@.len() && #[trigger] rule_fails(
                catalog.rules@[i],
                room_operators(assignment.rooms@, "control"@),
                instances.instances@,
                table.skills@,
            ) && (forall|j: int|
                0 <= j < i ==> !#[trigger] rule_fails(
                    catalog.rules@[j],
                    room_operators(assignment.rooms@, "control"@),
                    instances.instances@,
                    table.skills@,
                )) && rule_error_matches(res->Err_0, catalog.rules@[i], table.skills@),
        res matches Ok(v) ==> {
            &&& crate::pool::control::sorted_by_name(v@)
            &&& forall|i: int|
                0 <= i < catalog.rules@.len() ==> (#[trigger] rule_kept(
                    catalog.rules@[i],
                    room_operators(assignment.rooms@, "control"@),
                    instances.instances@,
                    table.skills@,
                    blueprint.rooms@,
                    assignment.rooms@,
                ) <==> crate::pool::control::names_entry(v@, catalog.rules@[i].id@))
            &&& forall|t: int|
                0 <= t < v@.len() ==> exists|i: int|
                    0 <= i < catalog.rules@.len() && (#[trigger] v@[t]).rule_id@ == catalog.rules@[i].id@ && rule_kept(
                        catalog.rules@[i],
                        room_operators(assignment.rooms@, "control"@),
                        instances.instances@,
                        table.skills@,
                        blueprint.rooms@,
                        assignment.rooms@,
                    ) && resolved_matches(
                        v@[t],
                        catalog.rules@[i],
                        room_operators(assignment.rooms@, "control"@),
                        instances.instances@,
                        table.skills@,
                        blueprint.rooms@,
                        assignment.rooms@,
                    )
        },
{
    match validate_producer_rule_catalog(catalog, table) {
        Ok(()) => {},
        Err(e) => {
            return Err(ProducerResolveError::InvalidCatalog(e));
        },
    }
    let ctrl = assignment.control_operators();
    let ghost c = ctrl@;
    let ghost inst = instances.instances@;
    let ghost skills = table.skills@;
    let ghost bp = blueprint.rooms@;
    let ghost rooms_v = assignment.rooms@;
    let ghost rules = catalog.rules@;
    let mut out: Vec<ResolvedProducerDependency> = Vec::new();
    let mut i: usize = 0;
    while i < catalog.rules.len()
        invariant
            0 <= i <= rules.len(),
            rules == catalog.rules@,
            c == ctrl@,
            c == room_operators(assignment.rooms@, "control"@),
            inst == instances.instances@,
            skills == table.skills@,
            bp == blueprint.rooms@,
            rooms_v == assignment.rooms@,
            catalog_valid(*catalog, skills),
            forall|j: int| 0 <= j < i ==> !#[trigger] rule_fails(rules[j], c, inst, skills),
            crate::pool::control::sorted_by_name(out@),
            forall|j: int|
                0 <= j < i ==> (#[trigger] rule_kept(rules[j], c, inst, skills, bp, rooms_v)
                    <==> crate::pool::control::names_entry(out@, rules[j].id@)),
            forall|t: int|
                0 <= t < out@.len() ==> exists|j: int|
                    0 <= j < i && (#[trigger] out@[t]).rule_id@ == rules[j].id@ && rule_kept(
                        rules[j],
                        c,
                        inst,
                        skills,
                        bp,
                        rooms_v,
                    ) && resolved_matches(out@[t], rules[j], c, inst, skills, bp, rooms_v),
        decreases rules.len() - i,
    {
        let rule = &catalog.rules[i];
        match resolve_rule(rule, blueprint, assignment, instances, table, &ctrl) {
            Err(e) => {
                return Err(e);
            },
            Ok(None) => {
                proof {
                    assert forall|j: int|
                        0 <= j < i + 1 implies (#[trigger] rule_kept(rules[j], c, inst, skills, bp, rooms_v)
                        <==> crate::pool::control::names_entry(out@, rules[j].id@)) by {
                        if j == i {
                            if crate::pool::control::names_entry(out@, rules[j].id@) {
                                let t = choose|t: int|
                                    0 <= t < out@.len() && #[trigger] out@[t].spec_pool_name() == rules[j].id@;
                                let q = choose|q: int|
                                    0 <= q < i && (#[trigger] out@[t]).rule_id@ == rules[q].id@ && rule_kept(
                                        rules[q],
                                        c,
                                        inst,
                                        skills,
                                        bp,
                                        rooms_v,
                                    ) && resolved_matches(out@[t], rules[q], c, inst, skills, bp, rooms_v);
                                assert(rules[q].id@ != rules[i as int].id@);
                            }
                        }
                    }
                }
            },
            Ok(Some(d)) => {
                let ghost before = out@;
                proof {
                    if crate::pool::control::names_entry(before, d.rule_id@) {
                        let t = choose|t: int|
                            0 <= t < before.len() && #[trigger] before[t].spec_pool_name() == d.rule_id@;
                        let q = choose|q: int|
                            0 <= q < i && (#[trigger] before[t]).rule_id@ == rules[q].id@ && rule_kept(
                                rules[q],
                                c,
                                inst,
                                skills,
                                bp,
                                rooms_v,
                            ) && resolved_matches(before[t], rules[q], c, inst, skills, bp, rooms_v);
                        assert(rules[q].id@ != rules[i as int].id@);
                    }
                }
                let ghost dd = d;
                crate::pool::control::insert_by_name(&mut out, d);
                proof {
                    let p = choose|p: int| 0 <= p <= before.len() && out@ == before.insert(p, dd);
                    assert forall|t: int|
                        0 <= t < out@.len() implies exists|j: int|
                            0 <= j < i + 1 && (#[trigger] out@[t]).rule_id@ == rules[j].id@ && rule_kept(
                                rules[j],
                                c,
                                inst,
                                skills,
                                bp,
                                rooms_v,
                            ) && resolved_matches(out@[t], rules[j], c, inst, skills, bp, rooms_v) by {
                        if t < p {
                            assert(out@[t] == before[t]);
                        } else if t == p {
                            assert(out@[t] == dd);
                        } else {
                            assert(out@[t] == before[t - 1]);
                        }
                    }
                    assert forall|j: int|
                        0 <= j < i + 1 implies (#[trigger] rule_kept(rules[j], c, inst, skills, bp, rooms_v)
                        <==> crate::pool::control::names_entry(out@, rules[j].id@)) by {
                        if j == i {
                            assert(out@[p].spec_pool_name() == rules[j].id@);
                        } else {
                            if crate::pool::control::names_entry(before, rules[j].id@) {
                                let t = choose|t: int|
                                    0 <= t < before.len() && #[trigger] before[t].spec_pool_name() == rules[j].id@;
                                if t < p {
                                    assert(out@[t] == before[t]);
                                } else {
                                    assert(out@[t + 1] == before[t]);
                                }
                            }
                            if crate::pool::control::names_entry(out@, rules[j].id@) {
                                let t = choose|t: int|
                                    0 <= t < out@.len() && #[trigger] out@[t].spec_pool_name() == rules[j].id@;
                                if t < p {
                                    assert(out@[t] == before[t]);
                                } else if t == p {
                                    assert(rules[j].id@ != rules[i as int].id@);
                                } else {
                                    assert(out@[t] == before[t - 1]);
                                }
                            }
                        }
                    }
                }
            },
        }
        i += 1;
    }
    Ok(out)
}

} // verus!
