use infra_core::layout::{
    AssignedOperator, BaseAssignment, BaseBlueprint, BlueprintRoom, FacilityKind, RoomId, RoomProduct,
};
use infra_core::schedule::control_team::{
    active_control_candidate_count, least_available_control_team, TeamControlMap,
};
use infra_core::schedule::shift_bind::RuntimeShiftBind;
use infra_core::schedule::team_rotation::{split_production_facilities, SplitError, TeamLabel};
use infra_core::types::RecipeKind;

fn room(id: &str, kind: FacilityKind, level: u8, product: Option<RoomProduct>) -> BlueprintRoom {
    BlueprintRoom {
        id: RoomId::from_str(id),
        kind,
        level,
        product,
    }
}

/// A 2-4-3 base: two trade posts, four factories, three power plants, with
/// the control center, dormitories, office and meeting room.
fn blueprint_243() -> BaseBlueprint {
    let gold = || Some(RoomProduct::Factory { recipe: RecipeKind::Gold });
    let record = || Some(RoomProduct::Factory { recipe: RecipeKind::BattleRecord });
    let order = || Some(RoomProduct::Trade { order: "gold".to_string() });
    BaseBlueprint {
        rooms: vec![
            room("control", FacilityKind::ControlCenter, 5, None),
            room("trade_1", FacilityKind::TradePost, 3, order()),
            room("trade_2", FacilityKind::TradePost, 3, order()),
            room("manu_1", FacilityKind::Factory, 3, gold()),
            room("manu_2", FacilityKind::Factory, 3, gold()),
            room("manu_3", FacilityKind::Factory, 3, record()),
            room("manu_4", FacilityKind::Factory, 3, record()),
            room("power_1", FacilityKind::PowerPlant, 3, None),
            room("power_2", FacilityKind::PowerPlant, 3, None),
            room("power_3", FacilityKind::PowerPlant, 3, None),
            room("dorm_1", FacilityKind::Dormitory, 5, None),
            room("dorm_2", FacilityKind::Dormitory, 5, None),
            room("dorm_3", FacilityKind::Dormitory, 5, None),
            room("dorm_4", FacilityKind::Dormitory, 5, None),
            room("office", FacilityKind::Office, 3, None),
            room("meeting", FacilityKind::MeetingRoom, 3, None),
        ],
    }
}

fn ids(v: &[RoomId]) -> Vec<String> {
    v.iter().map(|r| r.0.clone()).collect()
}

#[test]
fn split_keeps_multi_room_production_bind_as_one_component() {
    let blueprint = blueprint_243();
    let mut peak = BaseAssignment::default();
    peak.set_room("manu_1", vec![AssignedOperator::new("生产甲", 2)]);
    peak.set_room("manu_2", vec![AssignedOperator::new("生产乙", 2)]);
    peak.set_room("manu_3", vec![AssignedOperator::new("生产丙", 2)]);
    peak.set_room("control", vec![AssignedOperator::new("中枢甲", 2)]);
    let bind = RuntimeShiftBind {
        operators: ["生产甲", "生产乙", "生产丙", "中枢甲"]
            .into_iter()
            .map(str::to_string)
            .collect(),
        on_shifts: 2,
        off_shifts: 1,
    };

    let [h1, h2] = split_production_facilities(&blueprint, &peak, &vec![bind]).unwrap();
    let bound = ["manu_1", "manu_2", "manu_3"];
    let h1_manu = ids(&h1.manu);
    let h2_manu = ids(&h2.manu);
    assert!(
        bound.iter().all(|room| h1_manu.contains(&room.to_string()))
            || bound.iter().all(|room| h2_manu.contains(&room.to_string())),
        "multi-room bind was split: h1={:?}, h2={:?}",
        h1_manu,
        h2_manu
    );
}

#[test]
fn split_rejects_bind_member_missing_from_peak() {
    let blueprint = blueprint_243();
    let peak = BaseAssignment::default();
    let bind = RuntimeShiftBind {
        operators: vec!["不存在".into(), "也不存在".into()],
        on_shifts: 2,
        off_shifts: 1,
    };
    let error = split_production_facilities(&blueprint, &peak, &vec![bind]).unwrap_err();
    assert!(error.message().contains("missing from peak"));
    match error {
        SplitError::MissingFromPeak { operator } => assert_eq!(operator, "不存在"),
    }
}

#[test]
fn split_without_binds_alternates_rooms_by_load() {
    let blueprint = blueprint_243();
    let peak = BaseAssignment::default();
    let [h1, h2] = split_production_facilities(&blueprint, &peak, &Vec::new()).unwrap();
    // Singletons in blueprint order; each kind alternates, the first half first.
    assert_eq!(ids(&h1.trade), vec!["trade_1"]);
    assert_eq!(ids(&h2.trade), vec!["trade_2"]);
    assert_eq!(ids(&h1.manu), vec!["manu_1", "manu_3"]);
    assert_eq!(ids(&h2.manu), vec!["manu_2", "manu_4"]);
    assert_eq!(ids(&h1.power), vec!["power_1", "power_3"]);
    assert_eq!(ids(&h2.power), vec!["power_2"]);
}

#[test]
fn split_places_merged_component_first() {
    let blueprint = blueprint_243();
    let mut peak = BaseAssignment::default();
    peak.set_room("trade_2", vec![AssignedOperator::new("甲", 2)]);
    peak.set_room("power_3", vec![AssignedOperator::new("乙", 2)]);
    let bind = RuntimeShiftBind {
        operators: vec!["甲".into(), "乙".into()],
        on_shifts: 2,
        off_shifts: 1,
    };
    let [h1, h2] = split_production_facilities(&blueprint, &peak, &vec![bind]).unwrap();
    // The merged pair is the longest component and goes to the first half.
    assert!(ids(&h1.trade).contains(&"trade_2".to_string()));
    assert!(ids(&h1.power).contains(&"power_3".to_string()));
    let total = h1.trade.len() + h1.manu.len() + h1.power.len() + h2.trade.len() + h2.manu.len() + h2.power.len();
    assert_eq!(total, 9);
}

#[test]
fn split_places_bound_rooms_whole_then_alternates() {
    let blueprint = blueprint_243();
    let mut peak = BaseAssignment::default();
    peak.set_room("trade_1", vec![AssignedOperator::new("甲", 2)]);
    peak.set_room("manu_1", vec![AssignedOperator::new("乙", 2)]);
    peak.set_room("manu_2", vec![AssignedOperator::new("丙", 2)]);
    peak.set_room("manu_3", vec![AssignedOperator::new("丁", 2)]);
    let bind = RuntimeShiftBind {
        operators: vec!["丁".into(), "甲".into(), "丙".into(), "乙".into()],
        on_shifts: 2,
        off_shifts: 1,
    };
    let [h1, h2] = split_production_facilities(&blueprint, &peak, &vec![bind]).unwrap();
    // The four bound rooms go first, whole, to the first half; each single
    // room then goes to the half with fewer rooms of its kind, the first half
    // on a tie.
    assert_eq!(ids(&h1.trade), vec!["trade_1"]);
    assert_eq!(ids(&h1.manu), vec!["manu_1", "manu_2", "manu_3"]);
    assert_eq!(ids(&h1.power), vec!["power_1", "power_3"]);
    assert_eq!(ids(&h2.trade), vec!["trade_2"]);
    assert_eq!(ids(&h2.manu), vec!["manu_4"]);
    assert_eq!(ids(&h2.power), vec!["power_2"]);
}

#[test]
fn split_alternates_rooms_of_each_kind() {
    let blueprint = BaseBlueprint {
        rooms: vec![
            room("t1", FacilityKind::TradePost, 3, None),
            room("m1", FacilityKind::Factory, 3, None),
            room("t2", FacilityKind::TradePost, 3, None),
            room("m2", FacilityKind::Factory, 3, None),
        ],
    };
    let peak = BaseAssignment::default();
    let [h0, h1] = split_production_facilities(&blueprint, &peak, &Vec::new()).unwrap();
    assert_eq!(ids(&h0.trade), vec!["t1"]);
    assert_eq!(ids(&h1.trade), vec!["t2"]);
    assert_eq!(ids(&h0.manu), vec!["m1"]);
    assert_eq!(ids(&h1.manu), vec!["m2"]);
}

#[test]
fn control_coverage_does_not_count_production_or_shared_members() {
    let by_team = TeamControlMap {
        alpha: vec![
            "可用甲".to_string(),
            "生产占用".to_string(),
            "共享占用".to_string(),
        ],
        beta: vec!["可用乙".to_string(), "绑定办公室".to_string()],
        gamma: Vec::new(),
    };
    let unavailable = vec![
        "生产占用".to_string(),
        "共享占用".to_string(),
        "绑定办公室".to_string(),
    ];

    assert_eq!(
        active_control_candidate_count(
            &by_team,
            &vec![TeamLabel::Alpha, TeamLabel::Beta],
            &unavailable,
        ),
        2
    );
}

#[test]
fn control_filler_targets_least_available_not_shortest_raw_roster() {
    let by_team = TeamControlMap {
        alpha: vec![
            "占用甲".to_string(),
            "占用乙".to_string(),
            "占用丙".to_string(),
        ],
        beta: vec!["可用乙".to_string()],
        gamma: vec!["可用丙".to_string()],
    };
    let unavailable = vec![
        "占用甲".to_string(),
        "占用乙".to_string(),
        "占用丙".to_string(),
    ];

    assert_eq!(
        least_available_control_team(&by_team, &unavailable),
        TeamLabel::Alpha,
    );
}
