use infra_core::instances::{FacilityBinding, OperatorInstance, OperatorInstances};
use infra_core::layout::{
    slot_facility_of, AssignedOperator, BaseAssignment, BlueprintRoom, FacilityKind, RoomId, RoomProduct, SlotFill,
    product_eq,
};
use infra_core::manufacture::{
    eff_target_is_layout, facility_base_storage, is_metal_formula_buff, is_pinecone_skill_buff, is_rhine_skill_buff,
    is_standard_skill_buff, limit_delta_counts_as_contrib, ManuLineScenario, ManuOperator, ManuSearchRecipeMode,
    RecipeLimit,
};
use infra_core::mood::{facility_key, recipe_key};
use infra_core::office::{to_office_operator, OfficeError};
use infra_core::power::PowerOperator;
use infra_core::profile::{
    hot_path_snapshot, record_exclusive_check, record_shortcut_json_load, record_trade_solve, reset_hot_path_counters,
    HotPathCounters,
};
use infra_core::roster::OperatorProgress;
use infra_core::schedule::base_rotation::is_zero_efficiency;
use infra_core::scoring::ScoringPolicyId;
use infra_core::search::{step_must_include_names, RolePickStep};
use infra_core::skill_table::{Skill, SkillTable};
use infra_core::tier::PromotionTier;
use infra_core::types::{Action, AtomScope, EffectAtom, Phase, RecipeKind, Selector};
use infra_core::layout::Efficiency;

#[test]
fn line_scenarios() {
    let s = ManuLineScenario::standard_four_lines();
    assert_eq!(s.total_lines(), 4);
    assert_eq!(s.active_recipes(), vec![(RecipeKind::Gold, 2), (RecipeKind::BattleRecord, 2)]);
    let big = ManuLineScenario { gold_lines: 200, battle_record_lines: 100, originium_lines: 1 };
    assert_eq!(big.total_lines(), 255);
    let ori = ManuLineScenario { gold_lines: 0, battle_record_lines: 0, originium_lines: 3 };
    assert_eq!(ori.active_recipes(), vec![(RecipeKind::Originium, 3)]);
    assert_eq!(ManuSearchRecipeMode::default(), ManuSearchRecipeMode::Lines(s));
    assert_eq!(ManuSearchRecipeMode::single_gold(), ManuSearchRecipeMode::Single(RecipeKind::Gold));
}

#[test]
fn recipe_limits_add_per_recipe() {
    let mut l = RecipeLimit::default();
    l.add(None, 8);
    l.add(Some(RecipeKind::Gold), 4);
    l.add(Some(RecipeKind::All), -2);
    l.add(Some(RecipeKind::BattleRecord), 1);
    assert_eq!(l, RecipeLimit { all: 6, battle_record: 1, gold: 4, originium: 0 });
    assert_eq!(l.for_recipe(RecipeKind::Gold), 10);
    assert_eq!(l.for_recipe(RecipeKind::All), 6);
    assert_eq!(l.for_recipe(RecipeKind::Originium), 6);
    assert!(limit_delta_counts_as_contrib(&None));
    assert!(limit_delta_counts_as_contrib(&Some(RecipeKind::All)));
    assert!(!limit_delta_counts_as_contrib(&Some(RecipeKind::Gold)));
}

#[test]
fn base_storage_by_level() {
    assert_eq!(facility_base_storage(1), 10);
    assert_eq!(facility_base_storage(2), 15);
    assert_eq!(facility_base_storage(3), 20);
    assert_eq!(facility_base_storage(0), 20);
}

#[test]
fn skill_families() {
    assert!(is_metal_formula_buff("manu_formula_spd[101]"));
    assert!(!is_metal_formula_buff("manu_formula_spd[000]"));
    assert!(is_standard_skill_buff("manu_prod_spd[010]"));
    assert!(is_rhine_skill_buff("manu_prod_spd[021]"));
    assert!(!is_rhine_skill_buff("manu_prod_spd[000]"));
    assert!(is_pinecone_skill_buff("manu_prod_spd[002]"));
    let atom = |selector| EffectAtom {
        phase: Phase::Constant,
        tag: None,
        selector,
        condition: None,
        action: Action::TagOrder,
        scope: AtomScope::Room,
    };
    assert!(eff_target_is_layout(&atom(Some(Selector::TradeStationCount))));
    assert!(eff_target_is_layout(&atom(Some(Selector::PowerStationCount))));
    assert!(!eff_target_is_layout(&atom(Some(Selector::RoomPeerCount))));
    assert!(!eff_target_is_layout(&atom(None)));
}

#[test]
fn operators_by_tier() {
    let m = ManuOperator::new("清流", 1, vec!["manu_prod_spd[000]".to_string()]);
    assert_eq!(m.tier(), PromotionTier::Tier0);
    assert!(m.tags.is_empty());
    let p = PowerOperator::new("澄闪", 2, vec![]);
    assert_eq!(p.tier(), PromotionTier::TierUp);
    assert_eq!(AssignedOperator::new("甲", 2).tier(), PromotionTier::TierUp);
    let q = AssignedOperator::from_progress("乙", OperatorProgress::new(1, 30, 4));
    assert_eq!(q.elite, 1);
    assert_eq!(q.tier(), PromotionTier::TierUp);
}

#[test]
fn office_operator_needs_office_skill() {
    let instances = OperatorInstances {
        instances: vec![OperatorInstance {
            name: "办公".to_string(),
            tier: PromotionTier::TierUp,
            tags: vec![],
            facilities: vec![FacilityBinding {
                facility: "office".to_string(),
                buff_ids: vec!["hire_spd[000]".to_string()],
            }],
        }],
    };
    let ok = to_office_operator(&instances, &AssignedOperator::new("办公", 2)).unwrap();
    assert_eq!(ok.buff_ids, vec!["hire_spd[000]".to_string()]);
    match to_office_operator(&instances, &AssignedOperator::new("办公", 1)) {
        Err(OfficeError::NoOfficeBuff { name, elite }) => {
            assert_eq!(name, "办公");
            assert_eq!(elite, 1);
        },
        other => panic!("unexpected {:?}", other.is_ok()),
    }
}

#[test]
fn mood_keys() {
    assert_eq!(facility_key(FacilityKind::MeetingRoom), Some("reception"));
    assert_eq!(facility_key(FacilityKind::Factory), Some("factory"));
    assert_eq!(facility_key(FacilityKind::Dormitory), None);
    assert_eq!(recipe_key(RecipeKind::BattleRecord), Some("battle_record"));
    assert_eq!(recipe_key(RecipeKind::All), None);
}

#[test]
fn profile_counters() {
    let mut c = HotPathCounters::new();
    record_shortcut_json_load(&mut c);
    record_trade_solve(&mut c);
    record_trade_solve(&mut c);
    record_exclusive_check(&mut c);
    let s = hot_path_snapshot(&c);
    assert_eq!((s.shortcut_json_loads, s.exclusive_checks, s.trade_solves), (1, 1, 2));
    c.trade_solves = u64::MAX;
    record_trade_solve(&mut c);
    assert_eq!(c.trade_solves, 0);
    reset_hot_path_counters(&mut c);
    let s = hot_path_snapshot(&c);
    assert_eq!((s.shortcut_json_loads, s.exclusive_checks, s.trade_solves), (0, 0, 0));
}

#[test]
fn role_pick_names_are_deduplicated() {
    let step = RolePickStep {
        must_include_name: Some("但书".to_string()),
        must_include_names: vec!["伊内丝".to_string(), "但书".to_string(), "伊内丝".to_string(), "乌有".to_string()],
    };
    assert_eq!(
        step_must_include_names(&step),
        vec!["但书".to_string(), "伊内丝".to_string(), "乌有".to_string()]
    );
    let none = RolePickStep { must_include_name: None, must_include_names: vec![] };
    assert!(step_must_include_names(&none).is_empty());
    assert_eq!(ScoringPolicyId::default(), ScoringPolicyId::ControlInjectRawSumV0);
}

#[test]
fn layout_helpers() {
    let room = |kind, level| BlueprintRoom { id: RoomId::from_str("r"), kind, level, product: None };
    assert_eq!(room(FacilityKind::ControlCenter, 5).operator_capacity(), 5);
    assert_eq!(room(FacilityKind::TradePost, 2).operator_capacity(), 2);
    assert_eq!(room(FacilityKind::Factory, 0).operator_capacity(), 1);
    assert_eq!(room(FacilityKind::Factory, 9).operator_capacity(), 3);
    assert_eq!(room(FacilityKind::MeetingRoom, 3).operator_capacity(), 2);
    assert_eq!(room(FacilityKind::Office, 3).operator_capacity(), 1);
    assert!(RoomId::from_str("a").same(&RoomId::from_str("a")));
    assert!(!RoomId::from_str("a").same(&RoomId::from_str("b")));
    let gold = RoomProduct::Factory { recipe: RecipeKind::Gold };
    assert!(product_eq(&gold, &RoomProduct::Factory { recipe: RecipeKind::Gold }));
    assert!(!product_eq(&gold, &RoomProduct::Trade { order: "gold".to_string() }));
    let slot = SlotFill::OptionalFixed { facility: FacilityKind::PowerPlant, operator: "x".to_string() };
    assert_eq!(slot_facility_of(&slot), FacilityKind::PowerPlant);
    assert!(is_zero_efficiency(&Efficiency { milli: 0 }));
    assert!(!is_zero_efficiency(&Efficiency { milli: -1 }));

    let mut a = BaseAssignment::new();
    a.set_room("control", vec![AssignedOperator::new("中", 2)]);
    a.set_room("trade_1", vec![AssignedOperator::new("甲", 2), AssignedOperator::new("中", 2)]);
    assert_eq!(a.room_position("trade_1"), Some(1));
    assert_eq!(a.control_operators().len(), 1);
    let mut names = a.operator_names();
    names.sort();
    let mut expected = vec!["中".to_string(), "甲".to_string()];
    expected.sort();
    assert_eq!(names, expected);
    assert!(a.operators_in(&RoomId::from_str("nowhere")).is_empty());
}

#[test]
fn skill_table_lookup_takes_first() {
    let table = SkillTable {
        skills: vec![
            Skill { id: "a".to_string(), facility: "trade".to_string(), atoms: vec![] },
            Skill { id: "a".to_string(), facility: "control".to_string(), atoms: vec![] },
        ],
    };
    assert_eq!(table.get("a").unwrap().facility, "trade");
    assert!(table.get("b").is_none());
    assert_eq!(table.skills().len(), 2);
}
