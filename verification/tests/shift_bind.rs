use infra_core::layout::{AssignedOperator, BaseAssignment};
use infra_core::schedule::shift_bind::{
    bound_operator_names, check_shift_bind, resting_shift_index, room_for_operator, team_of_operator,
    verify_shift_binds, RuntimeShiftBind, ShiftBindViolation,
};
use infra_core::schedule::team_rotation::{TeamAssignment, TeamLabel};

fn shift_with(names: &[&str]) -> BaseAssignment {
    let mut a = BaseAssignment::default();
    a.set_room(
        "trade_1",
        names.iter().map(|n| AssignedOperator::new(n, 2)).collect(),
    );
    a
}

fn pair_bind(on_shifts: u8) -> RuntimeShiftBind {
    RuntimeShiftBind {
        operators: vec!["甲".to_string(), "乙".to_string(), "不在场".to_string()],
        on_shifts,
        off_shifts: 1,
    }
}

fn team(label: TeamLabel, names: &[&str]) -> TeamAssignment {
    TeamAssignment {
        label,
        operators: names.iter().map(|n| n.to_string()).collect(),
    }
}

#[test]
fn resting_shifts_follow_gamma_alpha_beta() {
    assert_eq!(resting_shift_index(TeamLabel::Gamma), 0);
    assert_eq!(resting_shift_index(TeamLabel::Alpha), 1);
    assert_eq!(resting_shift_index(TeamLabel::Beta), 2);
}

#[test]
fn room_and_team_lookups() {
    let peak = shift_with(&["甲", "乙"]);
    assert_eq!(room_for_operator(&peak, "乙").unwrap().0, "trade_1");
    assert!(room_for_operator(&peak, "丙").is_none());
    let teams = vec![team(TeamLabel::Beta, &["乙"]), team(TeamLabel::Alpha, &["甲", "乙"])];
    assert_eq!(team_of_operator(&teams, "乙"), Some(TeamLabel::Beta));
    assert_eq!(team_of_operator(&teams, "甲"), Some(TeamLabel::Alpha));
    assert_eq!(team_of_operator(&teams, "丙"), None);
}

#[test]
fn bound_names_keep_only_binds_fully_at_peak() {
    let peak = shift_with(&["甲", "乙", "丙"]);
    let binds = vec![
        RuntimeShiftBind { operators: vec!["甲".into(), "乙".into()], on_shifts: 2, off_shifts: 1 },
        RuntimeShiftBind { operators: vec!["丙".into(), "缺席".into()], on_shifts: 2, off_shifts: 1 },
        RuntimeShiftBind { operators: vec!["乙".into()], on_shifts: 2, off_shifts: 1 },
    ];
    let mut names = bound_operator_names(&binds, &peak);
    names.sort();
    let mut expected = vec!["甲".to_string(), "乙".to_string()];
    expected.sort();
    assert_eq!(names, expected);
}

#[test]
fn verify_accepts_bind_that_rotates_together() {
    let peak = shift_with(&["甲", "乙"]);
    let shifts = vec![shift_with(&["甲", "乙"]), shift_with(&[]), shift_with(&["甲", "乙"])];
    let teams = vec![team(TeamLabel::Alpha, &["甲", "乙"])];
    assert!(verify_shift_binds(&shifts, &teams, &vec![pair_bind(2)], &peak).is_ok());
}

#[test]
fn verify_reports_first_split_shift() {
    let peak = shift_with(&["甲", "乙"]);
    let shifts = vec![shift_with(&["甲", "乙"]), shift_with(&["乙"]), shift_with(&["甲"])];
    let teams = vec![team(TeamLabel::Alpha, &["甲", "乙"])];
    match verify_shift_binds(&shifts, &teams, &vec![pair_bind(2)], &peak) {
        Err(ShiftBindViolation::NotTogether { bind, shift }) => {
            assert_eq!(shift, 1);
            assert_eq!(bind.len(), 3);
        },
        other => panic!("unexpected {:?}", other),
    }
}

#[test]
fn verify_reports_member_without_team() {
    let peak = shift_with(&["甲", "乙"]);
    let shifts = vec![shift_with(&["甲", "乙"]), shift_with(&[]), shift_with(&["甲", "乙"])];
    let teams = vec![team(TeamLabel::Alpha, &["乙"])];
    match verify_shift_binds(&shifts, &teams, &vec![pair_bind(2)], &peak) {
        Err(ShiftBindViolation::NoTeam { operator, .. }) => assert_eq!(operator, "甲"),
        other => panic!("unexpected {:?}", other),
    }
}

#[test]
fn verify_reports_work_in_rest_shift() {
    let peak = shift_with(&["甲", "乙"]);
    let shifts = vec![shift_with(&["甲", "乙"]), shift_with(&[]), shift_with(&["甲", "乙"])];
    let teams = vec![team(TeamLabel::Gamma, &["甲", "乙"])];
    match verify_shift_binds(&shifts, &teams, &vec![pair_bind(2)], &peak) {
        Err(ShiftBindViolation::OnRestShift { operator, shift, .. }) => {
            assert_eq!(operator, "甲");
            assert_eq!(shift, 0);
        },
        other => panic!("unexpected {:?}", other),
    }
}

#[test]
fn verify_reports_wrong_number_of_duty_shifts() {
    let peak = shift_with(&["甲", "乙"]);
    let shifts = vec![shift_with(&["甲", "乙"]), shift_with(&[]), shift_with(&["甲", "乙"])];
    let teams = vec![team(TeamLabel::Alpha, &["甲", "乙"])];
    match check_shift_bind(&pair_bind(3), &shifts, &teams, &peak) {
        Err(ShiftBindViolation::WrongShiftCount { expected, actual, .. }) => {
            assert_eq!(expected, 3);
            assert_eq!(actual, 2);
        },
        other => panic!("unexpected {:?}", other),
    }
}

#[test]
fn verify_skips_bind_with_one_member_at_peak() {
    let peak = shift_with(&["甲"]);
    let shifts = vec![shift_with(&["甲"]), shift_with(&["甲"]), shift_with(&["甲"])];
    let teams: Vec<TeamAssignment> = Vec::new();
    assert!(verify_shift_binds(&shifts, &teams, &vec![pair_bind(2)], &peak).is_ok());
}

use infra_core::layout::{AssignmentPlan, BaseBlueprint, BlueprintRoom, FacilityKind, RoomId, ShiftBindDecl};
use infra_core::schedule::offices::{bound_office_operators, operator_team_map};
use infra_core::schedule::shift_bind::{
    align_shift_binds_in_halves, half_contains_room, shift_binds_from_plan, swap_room_across_halves,
};
use infra_core::schedule::team_rotation::FacilityHalf;

fn ids(v: &[RoomId]) -> Vec<String> {
    v.iter().map(|r| r.0.clone()).collect()
}

fn rid(s: &str) -> RoomId {
    RoomId::from_str(s)
}

fn halves() -> (FacilityHalf, FacilityHalf) {
    (
        FacilityHalf { trade: vec![rid("t1")], manu: vec![rid("m1"), rid("m2")], power: vec![] },
        FacilityHalf { trade: vec![rid("t2")], manu: vec![rid("m3"), rid("m4")], power: vec![] },
    )
}

#[test]
fn swap_moves_wanderer_into_anchor_half() {
    let (mut h1, mut h2) = halves();
    assert!(swap_room_across_halves(&mut h1, &mut h2, true, &rid("m1"), &rid("m3")));
    assert_eq!(ids(&h1.manu), vec!["m1".to_string(), "m3".to_string()]);
    assert_eq!(ids(&h2.manu), vec!["m4".to_string(), "m2".to_string()]);
    assert!(half_contains_room(&h1, &rid("m3")));
    assert!(!half_contains_room(&h2, &rid("m3")));
    // Rooms of different kinds are never exchanged.
    assert!(!swap_room_across_halves(&mut h1, &mut h2, true, &rid("t1"), &rid("m4")));
    assert_eq!(ids(&h1.trade), vec!["t1".to_string()]);
}

#[test]
fn align_keeps_bind_rooms_in_one_half() {
    let (mut h1, mut h2) = halves();
    let mut peak = BaseAssignment::default();
    peak.set_room("m3", vec![AssignedOperator::new("甲", 2)]);
    peak.set_room("m1", vec![AssignedOperator::new("乙", 2)]);
    let binds = vec![RuntimeShiftBind {
        operators: vec!["甲".to_string(), "乙".to_string()],
        on_shifts: 2,
        off_shifts: 1,
    }];
    align_shift_binds_in_halves(&peak, &binds, &mut h1, &mut h2);
    // 甲's room m3 anchors in the second half; 乙's room m1 joins it.
    assert_eq!(ids(&h2.manu), vec!["m3".to_string(), "m1".to_string()]);
    assert_eq!(ids(&h1.manu), vec!["m2".to_string(), "m4".to_string()]);
    let _ = h1;
}

#[test]
fn align_gives_up_lone_anchor_room() {
    let mut h1 = FacilityHalf { trade: vec![rid("ra")], manu: vec![], power: vec![] };
    let mut h2 = FacilityHalf { trade: vec![rid("rw"), rid("rx")], manu: vec![], power: vec![] };
    let mut peak = BaseAssignment::default();
    peak.set_room("ra", vec![AssignedOperator::new("锚", 2)]);
    peak.set_room("rw", vec![AssignedOperator::new("游", 2)]);
    let binds = vec![RuntimeShiftBind {
        operators: vec!["锚".to_string(), "游".to_string()],
        on_shifts: 2,
        off_shifts: 1,
    }];
    align_shift_binds_in_halves(&peak, &binds, &mut h1, &mut h2);
    // The anchor's half has no other trade post to give up: the anchor's own
    // room is exchanged for the wanderer's.
    assert_eq!(ids(&h1.trade), vec!["rw".to_string()]);
    assert_eq!(ids(&h2.trade), vec!["rx".to_string(), "ra".to_string()]);

    let mut h1 = FacilityHalf { trade: vec![rid("ra"), rid("rb")], manu: vec![], power: vec![] };
    let mut h2 = FacilityHalf { trade: vec![rid("rw")], manu: vec![], power: vec![] };
    align_shift_binds_in_halves(&peak, &binds, &mut h1, &mut h2);
    assert_eq!(ids(&h1.trade), vec!["ra".to_string(), "rw".to_string()]);
    assert_eq!(ids(&h2.trade), vec!["rb".to_string()]);
}

#[test]
fn plan_binds_become_runtime_binds() {
    let plan = AssignmentPlan {
        anchors: vec![],
        activated: vec![],
        shift_binds: vec![ShiftBindDecl { operators: vec!["甲".to_string(), "乙".to_string()], on_shifts: 2, off_shifts: 1 }],
    };
    let binds = shift_binds_from_plan(&plan);
    assert_eq!(binds.len(), 1);
    assert_eq!(binds[0].operators, vec!["甲".to_string(), "乙".to_string()]);
    assert_eq!((binds[0].on_shifts, binds[0].off_shifts), (2, 1));
}

#[test]
fn office_binds_and_team_map() {
    let blueprint = BaseBlueprint {
        rooms: vec![
            BlueprintRoom { id: rid("office"), kind: FacilityKind::Office, level: 3, product: None },
            BlueprintRoom { id: rid("trade_1"), kind: FacilityKind::TradePost, level: 3, product: None },
        ],
    };
    let mut peak = BaseAssignment::default();
    peak.set_room("office", vec![AssignedOperator::new("办公", 2)]);
    peak.set_room("trade_1", vec![AssignedOperator::new("贸易", 2)]);
    let binds = vec![RuntimeShiftBind {
        operators: vec!["办公".to_string(), "贸易".to_string(), "办公".to_string()],
        on_shifts: 2,
        off_shifts: 1,
    }];
    assert_eq!(bound_office_operators(&blueprint, &peak, &binds), vec!["办公".to_string()]);

    let teams = vec![team(TeamLabel::Alpha, &["甲", "乙"]), team(TeamLabel::Beta, &["乙"])];
    let mut map = operator_team_map(&teams);
    map.sort_by(|a, b| a.0.cmp(&b.0));
    let mut expected = vec![("甲".to_string(), TeamLabel::Alpha), ("乙".to_string(), TeamLabel::Beta)];
    expected.sort_by(|a, b| a.0.cmp(&b.0));
    assert_eq!(map, expected);
}
