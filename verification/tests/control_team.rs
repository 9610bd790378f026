use infra_core::layout::{ActivatedSystem, AssignedOperator, AssignmentPlan, FacilityKind, PlanAnchor, RoomId, SlotFill};
use infra_core::pool::control::ControlPoolEntry;
use infra_core::roster::OperatorProgress;
use infra_core::schedule::control_team::{
    build_team_control_map, control_entry_manu_inject, control_entry_trade_inject, control_replace_rank,
    control_room_has_class, entry_by_name, entry_has_class, move_control_operator_to_team,
    normalize_control_team_membership, pairs_contain, pick_control_plugin_team, system_control_operators,
    system_control_team, team_control_class_count, InjectClass, TeamControlMap,
};
use infra_core::schedule::team_rotation::{FacilityHalf, TeamLabel};
use infra_core::tier::OperatorTier;

fn entry(name: &str, buffs: &[&str]) -> ControlPoolEntry {
    ControlPoolEntry {
        name: name.to_string(),
        elite: 2,
        progress: OperatorProgress::new(2, 1, 6),
        buff_ids: buffs.iter().map(|b| b.to_string()).collect(),
        tags: vec![],
        tier: OperatorTier::Standalone,
    }
}

fn strings(v: &[&str]) -> Vec<String> {
    v.iter().map(|s| s.to_string()).collect()
}

fn entries() -> Vec<ControlPoolEntry> {
    vec![
        entry("贸易注入", &["control_tra_spd[010]"]),
        entry("制造注入", &["control_prod_spd[000]"]),
        entry("双注入", &["control_prod_tra_spd[000]"]),
        entry("无注入", &["control_mp_cost[000]"]),
    ]
}

#[test]
fn inject_classes_follow_skill_ids() {
    let e = entries();
    assert!(control_entry_trade_inject(&e[0]));
    assert!(!control_entry_manu_inject(&e[0]));
    assert!(control_entry_manu_inject(&e[1]));
    assert!(control_entry_manu_inject(&e[2]));
    assert!(!control_entry_trade_inject(&e[2]));
    assert!(!entry_has_class(&e[3], InjectClass::Trade));
    assert!(entry_has_class(&e[0], InjectClass::Trade));
    assert!(control_entry_trade_inject(&entry("代币", &["control_token_tra_spd[000]"])));
    assert!(control_entry_manu_inject(&entry("宿舍", &["control_bd_spd[000]"])));
}

#[test]
fn entry_lookup_takes_last_entry_of_a_name() {
    let mut e = entries();
    e.push(entry("贸易注入", &[]));
    assert!(entry_by_name(&e, "贸易注入").unwrap().buff_ids.is_empty());
    assert!(entry_by_name(&e, "不存在").is_none());
}

#[test]
fn control_room_classes_and_counts() {
    let e = entries();
    let room = vec![AssignedOperator::new("无注入", 2), AssignedOperator::new("贸易注入", 2)];
    assert!(control_room_has_class(&room, &e, InjectClass::Trade));
    assert!(!control_room_has_class(&room, &e, InjectClass::Manu));

    let mut map = TeamControlMap::new();
    map.push(TeamLabel::Alpha, "制造注入".to_string());
    map.push(TeamLabel::Alpha, "双注入".to_string());
    map.push(TeamLabel::Beta, "贸易注入".to_string());
    assert_eq!(team_control_class_count(&map, &e, TeamLabel::Alpha, InjectClass::Manu), 2);
    assert_eq!(team_control_class_count(&map, &e, TeamLabel::Beta, InjectClass::Manu), 0);
    assert_eq!(team_control_class_count(&map, &e, TeamLabel::Beta, InjectClass::Trade), 1);
}

#[test]
fn plugin_team_balances_class_then_size() {
    let e = entries();
    let mut map = TeamControlMap::new();
    map.push(TeamLabel::Alpha, "制造注入".to_string());
    map.push(TeamLabel::Beta, "无注入".to_string());
    map.push(TeamLabel::Beta, "甲".to_string());
    // A factory injector goes to the first team without one, then the smaller.
    assert_eq!(pick_control_plugin_team(&e[2], &map, &e), TeamLabel::Gamma);
    map.push(TeamLabel::Gamma, "双注入".to_string());
    map.push(TeamLabel::Gamma, "乙".to_string());
    assert_eq!(pick_control_plugin_team(&e[1], &map, &e), TeamLabel::Beta);
    // Without a class the smallest team wins, alpha first on ties.
    assert_eq!(pick_control_plugin_team(&e[3], &map, &e), TeamLabel::Alpha);
}

#[test]
fn replace_rank_order() {
    let e = entries();
    let systems = strings(&["体系中枢"]);
    let rank = |n: &str| control_replace_rank(&AssignedOperator::new(n, 2), &systems, &e);
    assert_eq!(rank("歌蕾蒂娅"), -1);
    assert_eq!(rank("戴菲恩"), -1);
    assert_eq!(rank("八幡海铃"), 3);
    assert_eq!(rank("体系中枢"), -1);
    assert_eq!(rank("贸易注入"), 1);
    assert_eq!(rank("无注入"), 3);
    assert_eq!(rank("无条目"), 0);
}

#[test]
fn moving_operator_between_teams() {
    let mut map = TeamControlMap::new();
    map.push(TeamLabel::Alpha, "甲".to_string());
    map.push(TeamLabel::Alpha, "乙".to_string());
    map.push(TeamLabel::Gamma, "甲".to_string());
    move_control_operator_to_team(&mut map, "甲", TeamLabel::Beta);
    assert_eq!(map.alpha, strings(&["乙"]));
    assert_eq!(map.beta, strings(&["甲"]));
    assert!(map.gamma.is_empty());
    assert_eq!(map.names(TeamLabel::Beta), &strings(&["甲"]));
}

#[test]
fn membership_is_normalized_to_one_team() {
    let mut map = TeamControlMap::new();
    map.push(TeamLabel::Alpha, "甲".to_string());
    map.push(TeamLabel::Alpha, "乙".to_string());
    map.push(TeamLabel::Beta, "甲".to_string());
    map.push(TeamLabel::Gamma, "丙".to_string());
    let production = vec![("乙".to_string(), TeamLabel::Gamma)];
    assert!(pairs_contain(&production, "乙"));
    assert!(!pairs_contain(&production, "甲"));
    normalize_control_team_membership(&mut map, &production);
    assert_eq!(map.alpha, strings(&["甲"]));
    assert!(map.beta.is_empty());
    assert_eq!(map.gamma, strings(&["乙", "丙"]));
}

fn system_plan() -> AssignmentPlan {
    AssignmentPlan {
        anchors: vec![PlanAnchor { facility: FacilityKind::ControlCenter, operator: "锚定中枢".to_string() }],
        activated: vec![ActivatedSystem {
            slots: vec![
                SlotFill::Fixed {
                    facility: FacilityKind::TradePost,
                    room_id: Some(RoomId::from_str("trade_2")),
                    operator: "贸易核".to_string(),
                },
                SlotFill::Fixed { facility: FacilityKind::ControlCenter, room_id: None, operator: "中枢核".to_string() },
                SlotFill::PickOne {
                    facility: FacilityKind::ControlCenter,
                    room_id: None,
                    candidates: strings(&["候选甲", "候选乙"]),
                },
            ],
        }],
        shift_binds: vec![],
    }
}

#[test]
fn system_control_names_and_team() {
    let plan = system_plan();
    let mut names = system_control_operators(&plan);
    names.sort();
    let mut expected = strings(&["锚定中枢", "中枢核", "候选甲", "候选乙"]);
    expected.sort();
    assert_eq!(names, expected);

    let h1 = FacilityHalf { trade: vec![RoomId::from_str("trade_1")], manu: vec![], power: vec![] };
    assert_eq!(system_control_team(&plan.activated[0], &h1), Some(TeamLabel::Beta));
    let h1b = FacilityHalf { trade: vec![RoomId::from_str("trade_2")], manu: vec![], power: vec![] };
    assert_eq!(system_control_team(&plan.activated[0], &h1b), Some(TeamLabel::Alpha));
    let control_only = ActivatedSystem {
        slots: vec![SlotFill::OptionalFixed { facility: FacilityKind::ControlCenter, operator: "x".to_string() }],
    };
    assert_eq!(system_control_team(&control_only, &h1), None);
}

#[test]
fn team_control_map_places_systems_then_fillers() {
    let plan = system_plan();
    let h1 = FacilityHalf { trade: vec![RoomId::from_str("trade_1")], manu: vec![], power: vec![] };
    let peak = strings(&["中枢核", "候选乙", "散1", "散2", "散3"]);
    let map = build_team_control_map(&peak, &plan, &h1);
    assert_eq!(map.alpha, strings(&["散1", "散3"]));
    assert_eq!(map.beta, strings(&["中枢核", "候选乙"]));
    assert_eq!(map.gamma, strings(&["散2"]));
}
