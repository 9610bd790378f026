use infra_core::instances::{FacilityBinding, OperatorInstance, OperatorInstances};
use infra_core::layout::{
    AssignedOperator, BaseAssignment, BaseBlueprint, BlueprintRoom, Efficiency, FacilityKind, RoomAssignment, RoomId,
    RoomProduct,
};
use infra_core::operbox::{OperBox, OperBoxEntry};
use infra_core::schedule::abyssal::{enumerate_abyssal_counts, owned_abyssal_hunters};
use infra_core::schedule::base_rotation::ShiftEfficiencies;
use infra_core::schedule::rooms::{
    clear_production_efficiencies, clear_room, clear_room_efficiency, merge_rooms, operators_of,
    production_efficiency, production_half_from_peak, room_containing_operator, room_has_all,
    rooms_compatible_for_swap, swap_room_assignments, trade_room_containing_group,
};
use infra_core::schedule::team_rotation::FacilityHalf;
use infra_core::schedule::warmup::{align_warmup_rooms, is_warmup_operator};
use infra_core::tier::PromotionTier;
use infra_core::types::RecipeKind;

fn room(id: &str, kind: FacilityKind, level: u8, product: Option<RoomProduct>) -> BlueprintRoom {
    BlueprintRoom { id: RoomId::from_str(id), kind, level, product }
}

fn gold_order() -> Option<RoomProduct> {
    Some(RoomProduct::Trade { order: "gold".to_string() })
}

fn blueprint() -> BaseBlueprint {
    BaseBlueprint {
        rooms: vec![
            room("control", FacilityKind::ControlCenter, 5, None),
            room("trade_1", FacilityKind::TradePost, 3, gold_order()),
            room("trade_2", FacilityKind::TradePost, 3, gold_order()),
            room("trade_3", FacilityKind::TradePost, 2, gold_order()),
            room("manu_1", FacilityKind::Factory, 3, Some(RoomProduct::Factory { recipe: RecipeKind::Gold })),
            room("manu_2", FacilityKind::Factory, 3, Some(RoomProduct::Factory { recipe: RecipeKind::BattleRecord })),
            room("power_1", FacilityKind::PowerPlant, 3, None),
        ],
    }
}

fn ops(names: &[&str]) -> Vec<AssignedOperator> {
    names.iter().map(|n| AssignedOperator::new(n, 2)).collect()
}

fn names_in(a: &BaseAssignment, id: &str) -> Vec<String> {
    a.operators_in(&RoomId::from_str(id)).iter().map(|o| o.name.clone()).collect()
}

fn staffed(id: &str, names: &[&str], milli: i64) -> RoomAssignment {
    RoomAssignment { room_id: RoomId::from_str(id), operators: ops(names), efficiency: Some(Efficiency { milli }) }
}

#[test]
fn half_is_copied_from_peak_in_facility_order() {
    let mut peak = BaseAssignment::default();
    peak.set_room("power_1", ops(&["电"]));
    peak.set_room("trade_2", ops(&["贸"]));
    peak.set_room("manu_1", ops(&[]));
    peak.set_room("control", ops(&["中"]));
    let half = FacilityHalf {
        trade: vec![RoomId::from_str("trade_2")],
        manu: vec![RoomId::from_str("manu_1")],
        power: vec![RoomId::from_str("power_1")],
    };
    let copy = production_half_from_peak(&peak, &half);
    let ids: Vec<String> = copy.rooms.iter().map(|r| r.room_id.0.clone()).collect();
    assert_eq!(ids, vec!["trade_2".to_string(), "power_1".to_string()]);
    assert_eq!(names_in(&copy, "trade_2"), vec!["贸".to_string()]);
}

#[test]
fn operators_are_listed_sorted_once() {
    let mut a = BaseAssignment::default();
    a.set_room("trade_1", ops(&["丙", "甲"]));
    a.set_room("manu_1", ops(&["乙", "甲"]));
    let mut expected = vec!["丙".to_string(), "甲".to_string(), "乙".to_string()];
    expected.sort();
    assert_eq!(operators_of(&a), expected);
}

#[test]
fn merge_replaces_staffed_rooms_only() {
    let mut target = BaseAssignment::default();
    target.set_room("trade_1", ops(&["旧"]));
    target.set_room("manu_1", ops(&["留"]));
    let mut source = BaseAssignment::default();
    source.set_room("trade_1", ops(&["新"]));
    source.set_room("manu_1", ops(&[]));
    source.set_room("power_1", ops(&["电"]));
    merge_rooms(&mut target, &source);
    assert_eq!(names_in(&target, "trade_1"), vec!["新".to_string()]);
    assert_eq!(names_in(&target, "manu_1"), vec!["留".to_string()]);
    assert_eq!(names_in(&target, "power_1"), vec!["电".to_string()]);
    assert_eq!(target.rooms.len(), 3);
}

#[test]
fn clearing_rooms_and_efficiencies() {
    let mut a = BaseAssignment::default();
    a.set_room_assignment(staffed("trade_1", &["甲"], 1500));
    a.set_room_assignment(staffed("control", &["中"], 200));
    a.set_room_assignment(staffed("manu_1", &["乙"], 900));
    clear_room_efficiency(&mut a, &RoomId::from_str("control"));
    assert_eq!(a.rooms[1].efficiency, None);
    assert_eq!(a.rooms[0].efficiency, Some(Efficiency { milli: 1500 }));

    a.set_room_assignment(staffed("control", &["中"], 200));
    clear_production_efficiencies(&blueprint(), &mut a);
    assert_eq!(a.rooms[0].efficiency, None);
    assert_eq!(a.rooms[2].efficiency, None);
    assert_eq!(a.rooms[1].efficiency, Some(Efficiency { milli: 200 }));

    clear_room(&mut a, "control");
    assert_eq!(a.rooms.len(), 2);
    assert!(a.room_assignment(&RoomId::from_str("control")).is_none());
}

#[test]
fn production_efficiency_by_kind() {
    let e = ShiftEfficiencies {
        trade_efficiency: Efficiency { milli: 1 },
        manufacture_efficiency: Efficiency { milli: 2 },
        power_efficiency: Efficiency { milli: 3 },
        room_lines: vec![],
    };
    assert_eq!(production_efficiency(&e, FacilityKind::Factory), Some(Efficiency { milli: 2 }));
    assert_eq!(production_efficiency(&e, FacilityKind::PowerPlant), Some(Efficiency { milli: 3 }));
    assert_eq!(production_efficiency(&e, FacilityKind::Office), None);
}

#[test]
fn swap_compatibility_needs_same_kind_level_and_product() {
    let bp = blueprint();
    let id = RoomId::from_str;
    assert!(rooms_compatible_for_swap(&bp, &id("trade_1"), &id("trade_2"), FacilityKind::TradePost));
    assert!(!rooms_compatible_for_swap(&bp, &id("trade_1"), &id("trade_3"), FacilityKind::TradePost));
    assert!(!rooms_compatible_for_swap(&bp, &id("manu_1"), &id("manu_2"), FacilityKind::Factory));
    assert!(!rooms_compatible_for_swap(&bp, &id("trade_1"), &id("trade_2"), FacilityKind::Factory));
    assert!(rooms_compatible_for_swap(&bp, &id("nowhere"), &id("nowhere"), FacilityKind::Factory));
}

#[test]
fn room_searches_and_swaps() {
    let bp = blueprint();
    let mut a = BaseAssignment::default();
    a.set_room_assignment(staffed("manu_1", &["但书", "乙"], 10));
    a.set_room_assignment(staffed("trade_1", &["但书", "乙"], 20));
    let group = vec!["但书".to_string(), "乙".to_string()];
    assert!(room_has_all(&a.rooms[0], &group));
    assert_eq!(trade_room_containing_group(&a, &bp, &group).map(|r| r.0), Some("trade_1".to_string()));
    assert_eq!(
        room_containing_operator(&a, &bp, "但书", FacilityKind::Factory).map(|r| r.0),
        Some("manu_1".to_string())
    );
    assert!(room_containing_operator(&a, &bp, "但书", FacilityKind::PowerPlant).is_none());

    assert!(swap_room_assignments(&mut a, &RoomId::from_str("manu_1"), &RoomId::from_str("trade_1")));
    assert_eq!(a.rooms[0].room_id.0, "manu_1");
    assert_eq!(a.rooms[0].efficiency, Some(Efficiency { milli: 20 }));
    assert!(!swap_room_assignments(&mut a, &RoomId::from_str("manu_1"), &RoomId::from_str("power_1")));
}

fn warmup_instances() -> OperatorInstances {
    OperatorInstances {
        instances: vec![OperatorInstance {
            name: "预热工".to_string(),
            tier: PromotionTier::TierUp,
            tags: vec![],
            facilities: vec![FacilityBinding {
                facility: "manufacture".to_string(),
                buff_ids: vec!["manu_prod_spd_addition[000]".to_string()],
            }],
        }],
    }
}

#[test]
fn warmup_operators_are_recognised() {
    let inst = warmup_instances();
    assert!(is_warmup_operator("巫恋", PromotionTier::Tier0, FacilityKind::TradePost, &inst));
    assert!(is_warmup_operator("预热工", PromotionTier::TierUp, FacilityKind::Factory, &inst));
    assert!(!is_warmup_operator("预热工", PromotionTier::Tier0, FacilityKind::Factory, &inst));
    assert!(!is_warmup_operator("巫恋", PromotionTier::Tier0, FacilityKind::Factory, &inst));
}

#[test]
fn warmup_operator_returns_to_its_first_room() {
    let bp = blueprint();
    let inst = warmup_instances();
    let mut sticky: Vec<(String, RoomId)> = Vec::new();

    let mut first = BaseAssignment::default();
    first.set_room_assignment(staffed("trade_1", &["巫恋", "甲"], 100));
    first.set_room_assignment(staffed("trade_2", &["乙"], 50));
    align_warmup_rooms(&bp, &inst, &mut first, &mut sticky);
    assert_eq!(sticky.len(), 1);
    assert_eq!(sticky[0].0, "巫恋");
    assert_eq!(sticky[0].1 .0, "trade_1");
    assert_eq!(first.rooms[0].efficiency, Some(Efficiency { milli: 100 }));

    let mut second = BaseAssignment::default();
    second.set_room_assignment(staffed("trade_1", &["丙"], 70));
    second.set_room_assignment(staffed("trade_2", &["巫恋", "丁"], 80));
    align_warmup_rooms(&bp, &inst, &mut second, &mut sticky);
    assert_eq!(names_in(&second, "trade_1"), vec!["巫恋".to_string(), "丁".to_string()]);
    assert_eq!(names_in(&second, "trade_2"), vec!["丙".to_string()]);
    assert_eq!(second.rooms[0].efficiency, None);
    assert_eq!(second.rooms[1].efficiency, None);
    assert_eq!(sticky.len(), 1);
}

#[test]
fn abyssal_counts_enumerate_bounded_splits() {
    let mut current: Vec<usize> = Vec::new();
    let mut out: Vec<Vec<usize>> = Vec::new();
    enumerate_abyssal_counts(3, 2, &mut current, &mut out);
    assert_eq!(out, vec![vec![0, 3], vec![1, 2], vec![2, 1], vec![3, 0]]);
    assert!(current.is_empty());

    let mut out4: Vec<Vec<usize>> = Vec::new();
    enumerate_abyssal_counts(4, 2, &mut current, &mut out4);
    assert_eq!(out4, vec![vec![1, 3], vec![2, 2], vec![3, 1]]);

    let mut none: Vec<Vec<usize>> = Vec::new();
    enumerate_abyssal_counts(7, 2, &mut current, &mut none);
    assert!(none.is_empty());
}

#[test]
fn abyssal_hunters_owned_and_unused_in_fixed_order() {
    let owned = ["安哲拉", "斯卡蒂", "乌尔比安", "别人"];
    let operbox = OperBox::from_entries(
        owned
            .iter()
            .map(|n| OperBoxEntry {
                id: n.to_string(),
                name: n.to_string(),
                elite: 0,
                level: 1,
                own: true,
                potential: 1,
                rarity: 6,
            })
            .collect(),
    );
    let hunters = owned_abyssal_hunters(&operbox, &vec!["斯卡蒂".to_string()]);
    assert_eq!(hunters, vec!["乌尔比安".to_string(), "安哲拉".to_string()]);
}
