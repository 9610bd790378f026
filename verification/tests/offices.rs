use infra_core::layout::{AssignedOperator, BaseAssignment, BaseBlueprint, BlueprintRoom, FacilityKind, RoomId};
use infra_core::schedule::offices::{assign_rotating_offices, OfficeFillError};
use infra_core::schedule::team_rotation::TeamLabel;

fn office_blueprint() -> BaseBlueprint {
    BaseBlueprint {
        rooms: vec![BlueprintRoom {
            id: RoomId::from_str("office_any"),
            kind: FacilityKind::Office,
            level: 3,
            product: None,
        }],
    }
}

#[test]
fn rotating_office_uses_bound_member_then_replacement() {
    let blueprint = office_blueprint();
    let candidates = vec![
        AssignedOperator::new("体系办公室", 2),
        AssignedOperator::new("办公室替补", 2),
    ];
    let teams = vec![
        ("体系办公室".to_string(), TeamLabel::Alpha),
        ("办公室替补".to_string(), TeamLabel::Beta),
    ];
    let bound = vec!["体系办公室".to_string()];

    let mut active = BaseAssignment::default();
    assign_rotating_offices(
        &mut active,
        &blueprint,
        &vec![TeamLabel::Alpha, TeamLabel::Beta],
        &teams,
        &bound,
        &candidates,
    )
    .expect("active office");
    assert_eq!(
        active.operators_in(&RoomId::from_str("office_any"))[0].name,
        "体系办公室"
    );

    let mut resting = BaseAssignment::default();
    assign_rotating_offices(
        &mut resting,
        &blueprint,
        &vec![TeamLabel::Beta, TeamLabel::Gamma],
        &teams,
        &bound,
        &candidates,
    )
    .expect("replacement office");
    assert_eq!(
        resting.operators_in(&RoomId::from_str("office_any"))[0].name,
        "办公室替补"
    );
}

#[test]
fn rotating_office_without_legal_operator_reports_room() {
    let blueprint = office_blueprint();
    let candidates = vec![AssignedOperator::new("只在阿尔法", 2)];
    let teams = vec![("只在阿尔法".to_string(), TeamLabel::Alpha)];
    let bound: Vec<String> = Vec::new();

    let mut resting = BaseAssignment::default();
    let err = assign_rotating_offices(
        &mut resting,
        &blueprint,
        &vec![TeamLabel::Beta, TeamLabel::Gamma],
        &teams,
        &bound,
        &candidates,
    )
    .unwrap_err();
    match &err {
        OfficeFillError::NoLegalOperator { room } => assert_eq!(room, "office_any"),
    }
    assert!(err.message().contains("office_any"));
}
