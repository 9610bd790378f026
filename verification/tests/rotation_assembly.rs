use infra_core::layout::{
    AssignedOperator, AssignmentPlan, BaseAssignment, BaseBlueprint, BlueprintRoom, Efficiency, FacilityKind, RoomId,
};
use infra_core::schedule::assembly::{
    apply_fiammetta_return, assemble_team_rotation, best_return_slot, fiammetta_return_candidates,
    fiammetta_return_priority, shift_base_assignment, working_names_of, RotationError, TeamShiftResult,
};
use infra_core::schedule::base_rotation::{
    evaluate_base_assignment_efficiencies, weighted_for_minutes, RoomEvaluation, RoomScore, ShiftEfficiencies,
};
use infra_core::schedule::team_rotation::{FiammettaShiftAction, TeamAssignment, TeamLabel};

fn room(id: &str, kind: FacilityKind) -> BlueprintRoom {
    BlueprintRoom { id: RoomId::from_str(id), kind, level: 3, product: None }
}

fn blueprint() -> BaseBlueprint {
    BaseBlueprint {
        rooms: vec![
            room("trade_1", FacilityKind::TradePost),
            room("manu_1", FacilityKind::Factory),
            room("power_1", FacilityKind::PowerPlant),
            room("dorm_1", FacilityKind::Dormitory),
            room("office", FacilityKind::Office),
        ],
    }
}

fn plan() -> AssignmentPlan {
    AssignmentPlan { anchors: vec![], activated: vec![], shift_binds: vec![] }
}

fn team(label: TeamLabel, names: &[&str]) -> TeamAssignment {
    TeamAssignment { label, operators: names.iter().map(|n| n.to_string()).collect() }
}

fn teams() -> Vec<TeamAssignment> {
    vec![
        team(TeamLabel::Alpha, &["a1", "a2"]),
        team(TeamLabel::Beta, &["b1", "b2"]),
        team(TeamLabel::Gamma, &["g1", "g2"]),
    ]
}

fn shift(trade: &str, manu: &str, power: &str, dorm: &[&str]) -> BaseAssignment {
    let mut a = BaseAssignment::default();
    a.set_room("trade_1", vec![AssignedOperator::new(trade, 2)]);
    a.set_room("manu_1", vec![AssignedOperator::new(manu, 2)]);
    a.set_room("power_1", vec![AssignedOperator::new(power, 2)]);
    a.set_room("dorm_1", dorm.iter().map(|n| AssignedOperator::new(n, 2)).collect());
    a
}

fn effs(trade: i64, manu: i64, power: i64) -> ShiftEfficiencies {
    ShiftEfficiencies {
        trade_efficiency: Efficiency { milli: trade },
        manufacture_efficiency: Efficiency { milli: manu },
        power_efficiency: Efficiency { milli: power },
        room_lines: vec![],
    }
}

fn valid_shifts() -> Vec<BaseAssignment> {
    vec![
        shift("a1", "b1", "a2", &["g1", "g2"]),
        shift("g1", "b1", "b2", &["a1"]),
        shift("a1", "g2", "a2", &["b1"]),
    ]
}

fn valid_effs() -> Vec<ShiftEfficiencies> {
    vec![effs(1440, 2880, 720), effs(2880, 1440, 0), effs(1000, 1000, 1000)]
}

#[test]
fn rotation_shifts_have_their_place_and_daily_sums() {
    let report = assemble_team_rotation(&blueprint(), plan(), teams(), valid_shifts(), valid_effs(), None).unwrap();
    assert_eq!(report.shifts.len(), 3);
    let minutes: Vec<u32> = report.shifts.iter().map(|s| s.duration_minutes).collect();
    assert_eq!(minutes, vec![720, 360, 360]);
    let resting: Vec<TeamLabel> = report.shifts.iter().map(|s| s.resting_team).collect();
    assert_eq!(resting, vec![TeamLabel::Gamma, TeamLabel::Alpha, TeamLabel::Beta]);
    assert_eq!(report.shifts[0].active_teams, vec![TeamLabel::Alpha, TeamLabel::Beta]);
    assert_eq!(report.shifts[1].active_teams, vec![TeamLabel::Beta, TeamLabel::Gamma]);
    assert_eq!(report.shifts[2].active_teams, vec![TeamLabel::Gamma, TeamLabel::Alpha]);
    assert_eq!(report.shifts[0].weighted_trade.milli, 720);
    assert_eq!(report.shifts[1].weighted_trade.milli, 720);
    assert_eq!(report.shifts[2].weighted_trade.milli, 250);
    assert_eq!(report.daily.trade.milli, 720 + 720 + 250);
    assert_eq!(report.daily.manufacture.milli, 1440 + 360 + 250);
    assert_eq!(report.daily.power.milli, 360 + 0 + 250);
    assert!(report.shifts.iter().all(|s| s.fiammetta.is_none()));
}

#[test]
fn rotation_refuses_resting_worker_and_double_post() {
    let mut shifts = valid_shifts();
    shifts[0] = shift("g1", "b1", "a2", &["g2"]);
    let err = assemble_team_rotation(&blueprint(), plan(), teams(), shifts, valid_effs(), None).unwrap_err();
    assert_eq!(err, RotationError::RestingWorks { shift: 0, name: "g1".to_string() });

    let mut shifts = valid_shifts();
    shifts[1] = shift("b1", "b1", "b2", &[]);
    let err = assemble_team_rotation(&blueprint(), plan(), teams(), shifts, valid_effs(), None).unwrap_err();
    assert_eq!(err, RotationError::DoublePost { shift: 1, name: "b1".to_string() });
}

#[test]
fn rotation_refuses_empty_facility_and_bad_counts() {
    let mut shifts = valid_shifts();
    shifts[2].set_room("power_1", vec![]);
    let err = assemble_team_rotation(&blueprint(), plan(), teams(), shifts, valid_effs(), None).unwrap_err();
    assert_eq!(err, RotationError::EmptyFacility { shift: 2, room: "power_1".to_string() });

    let err = assemble_team_rotation(&blueprint(), plan(), teams(), valid_shifts(), vec![], None).unwrap_err();
    assert_eq!(err, RotationError::ShiftCount);

    let mut swapped = teams();
    swapped.swap(0, 1);
    let err = assemble_team_rotation(&blueprint(), plan(), swapped, valid_shifts(), valid_effs(), None).unwrap_err();
    assert_eq!(err, RotationError::TeamsMalformed);
}

#[test]
fn rotation_lets_the_returned_operator_work_while_its_team_rests() {
    let mut shifts = valid_shifts();
    // Gamma rests in the first shift; g1 returns to the trade post.
    shifts[0] = shift("g1", "b1", "a2", &["g2", "a1"]);
    let action = FiammettaShiftAction {
        target: "g1".to_string(),
        displaced: "a1".to_string(),
        room_id: RoomId::from_str("trade_1"),
    };
    let report = assemble_team_rotation(&blueprint(), plan(), teams(), shifts, valid_effs(), Some(action)).unwrap();
    assert_eq!(report.shifts[0].fiammetta.as_ref().unwrap().target, "g1");
    assert!(report.shifts[1].fiammetta.is_none() && report.shifts[2].fiammetta.is_none());

    let stranger = FiammettaShiftAction {
        target: "zz".to_string(),
        displaced: "a1".to_string(),
        room_id: RoomId::from_str("trade_1"),
    };
    let err = assemble_team_rotation(&blueprint(), plan(), teams(), valid_shifts(), valid_effs(), Some(stranger))
        .unwrap_err();
    assert_eq!(err, RotationError::UnknownReturnTarget);
}

#[test]
fn working_names_skip_dormitories_and_offices() {
    let mut a = shift("x", "y", "z", &["d"]);
    a.set_room("office", vec![AssignedOperator::new("o", 2)]);
    a.set_room("elsewhere", vec![AssignedOperator::new("w", 2)]);
    assert_eq!(working_names_of(&blueprint(), &a), vec!["x", "y", "z", "w"]);
}

fn score(f: i64, s: i64) -> RoomScore {
    RoomScore { final_efficiency: Efficiency { milli: f }, skill_efficiency: Efficiency { milli: s } }
}

#[test]
fn shift_efficiencies_sum_by_kind_with_snapshots_first() {
    let rooms = vec![
        RoomEvaluation {
            room_id: "power_1".to_string(),
            kind: FacilityKind::PowerPlant,
            occupied: true,
            snapshot: Some(score(900, 50)),
            solved: score(100, 60),
        },
        RoomEvaluation {
            room_id: "trade_1".to_string(),
            kind: FacilityKind::TradePost,
            occupied: true,
            snapshot: None,
            solved: score(1200, 300),
        },
        RoomEvaluation {
            room_id: "manu_1".to_string(),
            kind: FacilityKind::Factory,
            occupied: true,
            snapshot: Some(score(3330, 300)),
            solved: score(1, 1),
        },
        RoomEvaluation {
            room_id: "trade_2".to_string(),
            kind: FacilityKind::TradePost,
            occupied: false,
            snapshot: None,
            solved: score(999, 999),
        },
    ];
    let e = evaluate_base_assignment_efficiencies(&rooms);
    assert_eq!(e.trade_efficiency.milli, 1200);
    assert_eq!(e.manufacture_efficiency.milli, 3330);
    assert_eq!(e.power_efficiency.milli, 900);
    let ids: Vec<&str> = e.room_lines.iter().map(|l| l.room_id.as_str()).collect();
    assert_eq!(ids, vec!["trade_1", "trade_2", "manu_1", "power_1"]);
    assert_eq!(e.room_lines[1].trade_efficiency.milli, 0);
    assert_eq!(e.room_lines[2].manufacture_skill_efficiency.milli, 300);
    assert_eq!(e.room_lines[3].power_skill_efficiency.milli, 60);
}

#[test]
fn weighting_rounds_toward_zero() {
    assert_eq!(weighted_for_minutes(Efficiency { milli: 1000 }, 360).milli, 250);
    assert_eq!(weighted_for_minutes(Efficiency { milli: 1001 }, 720).milli, 500);
    assert_eq!(weighted_for_minutes(Efficiency { milli: -1001 }, 720).milli, -500);
}

fn assembled_shifts() -> Vec<TeamShiftResult> {
    assemble_team_rotation(&blueprint(), plan(), teams(), valid_shifts(), valid_effs(), None).unwrap().shifts
}

#[test]
fn return_candidates_follow_priority_and_need_the_swapper() {
    let names = fiammetta_return_priority();
    assert_eq!(names, vec!["但书", "巫恋", "龙舌兰", "清流", "可露希尔"]);
    let mut peak = shift("巫恋", "但书", "a2", &[]);
    peak.set_room("trade_1", vec![AssignedOperator::new("巫恋", 2)]);
    let teams = vec![
        team(TeamLabel::Alpha, &["a1", "a2"]),
        team(TeamLabel::Beta, &["b1", "b2"]),
        team(TeamLabel::Gamma, &["g1", "g2", "但书", "巫恋"]),
    ];
    let shifts = assembled_shifts();
    let cands = fiammetta_return_candidates(true, &blueprint(), &peak, &teams, &shifts);
    let targets: Vec<&str> = cands.iter().map(|c| c.target.as_str()).collect();
    assert_eq!(targets, vec!["但书", "巫恋"]);
    assert_eq!(cands[0].shift, 0);
    assert_eq!(cands[0].room_id.0, "manu_1");
    assert_eq!(cands[0].slots, 1);
    assert!(fiammetta_return_candidates(false, &blueprint(), &peak, &teams, &shifts).is_empty());
}

#[test]
fn return_takes_the_best_place_of_the_first_evaluated_candidate() {
    let peak = shift("x", "但书", "a2", &[]);
    let teams = vec![
        team(TeamLabel::Alpha, &["a1", "a2"]),
        team(TeamLabel::Beta, &["b1", "b2"]),
        team(TeamLabel::Gamma, &["g1", "g2", "但书"]),
    ];
    let shifts = assembled_shifts();
    let cands = fiammetta_return_candidates(true, &blueprint(), &peak, &teams, &shifts);
    assert_eq!(cands.len(), 1);
    let scores = vec![vec![Some(effs(0, 5000, 0))]];
    let (shifts, applied) = apply_fiammetta_return(shifts, &cands, scores);
    assert_eq!(applied, Some(0));
    let s0 = &shifts[0];
    let action = s0.fiammetta.as_ref().unwrap();
    assert_eq!(action.target, "但书");
    assert_eq!(action.displaced, "b1");
    assert_eq!(s0.assignment.operators_in(&RoomId::from_str("manu_1"))[0].name, "但书");
    assert_eq!(s0.efficiencies.manufacture_efficiency.milli, 5000);
    assert_eq!(s0.weighted_manufacture.milli, 2500);

    let (same, none) = apply_fiammetta_return(assembled_shifts(), &cands, vec![vec![None]]);
    assert_eq!(none, None);
    assert!(same[0].fiammetta.is_none());
}

#[test]
fn best_slot_is_the_first_highest() {
    let scores = vec![Some(effs(5, 0, 0)), None, Some(effs(9, 0, 0)), Some(effs(9, 0, 0))];
    assert_eq!(best_return_slot(FacilityKind::TradePost, &scores), Some(2));
    assert_eq!(best_return_slot(FacilityKind::Factory, &scores), Some(0));
    assert_eq!(best_return_slot(FacilityKind::TradePost, &vec![None, None]), None);
}

fn half(rooms: &[(&str, &str)]) -> BaseAssignment {
    let mut a = BaseAssignment::default();
    for (room, name) in rooms {
        a.set_room(room, vec![AssignedOperator::new(name, 2)]);
    }
    a
}

#[test]
fn shifts_lay_their_two_halves_over_the_shared_rooms() {
    let shared = half(&[("control", "c1"), ("office", "o1")]);
    let alpha = half(&[("trade_1", "a1")]);
    let beta = half(&[("manu_1", "b1")]);
    let gamma_h1 = half(&[("trade_1", "g1")]);
    let gamma_h2 = half(&[("manu_1", "g2"), ("trade_1", "g3")]);
    let names = |a: &BaseAssignment| -> Vec<(String, String)> {
        a.rooms.iter().map(|r| (r.room_id.0.clone(), r.operators[0].name.clone())).collect()
    };
    let s0 = shift_base_assignment(0, &shared, &alpha, &beta, &gamma_h1, &gamma_h2);
    assert_eq!(
        names(&s0),
        vec![
            ("control".to_string(), "c1".to_string()),
            ("office".to_string(), "o1".to_string()),
            ("trade_1".to_string(), "a1".to_string()),
            ("manu_1".to_string(), "b1".to_string()),
        ]
    );
    let s1 = shift_base_assignment(1, &shared, &alpha, &beta, &gamma_h1, &gamma_h2);
    assert_eq!(s1.operators_in(&RoomId::from_str("trade_1"))[0].name, "g1");
    assert_eq!(s1.operators_in(&RoomId::from_str("manu_1"))[0].name, "b1");
    // In the third shift alpha's half is laid last: its trade post wins.
    let s2 = shift_base_assignment(2, &shared, &alpha, &beta, &gamma_h1, &gamma_h2);
    assert_eq!(s2.operators_in(&RoomId::from_str("trade_1"))[0].name, "a1");
    assert_eq!(s2.operators_in(&RoomId::from_str("manu_1"))[0].name, "g2");
}
