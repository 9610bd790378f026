use infra_core::response_dependency::{action_dependency, target_facility, DependencyScope};
use infra_core::types::{Action, AtomScope, MoodDrainScope};

#[test]
fn global_inject_targets_production_facility() {
    assert_eq!(
        target_facility(
            "control",
            &Action::GlobalInjectTradeEff { value_milli: 7000 },
            AtomScope::Room,
        ),
        "trade"
    );
    assert_eq!(
        target_facility(
            "control",
            &Action::GlobalInjectManuEff {
                value_milli: 2000,
                recipe: None,
            },
            AtomScope::Room,
        ),
        "manufacture"
    );
    let injects = [
        Action::GlobalInjectTradeEff { value_milli: 7000 },
        Action::GlobalInjectManuEff {
            value_milli: 2000,
            recipe: None,
        },
        Action::GlobalInjectManuTaggedEff {
            value_milli: 3000,
            target_tag: "test".to_string(),
            recipe: None,
        },
        Action::GlobalInjectKarlanPrecision {
            eff_per_karlan_milli: 5000,
            limit_per_karlan: 1,
        },
    ];
    for action in injects {
        assert_eq!(
            action_dependency(&action, AtomScope::Room).1,
            DependencyScope::CrossFacility
        );
    }
}

#[test]
fn action_implicit_inputs_are_never_false_local() {
    assert_eq!(
        action_dependency(&Action::AddPerGapEff { rate_milli: 1000 }, AtomScope::Room).1,
        DependencyScope::RuntimeState
    );
    assert_eq!(
        action_dependency(
            &Action::StateConsumeToEff {
                key: "Matatabi".to_string(),
                div_milli: 1000,
                multiplier_milli: None,
            },
            AtomScope::Room,
        )
        .1,
        DependencyScope::RuntimeState
    );
    let implicit_state_readers = [
        Action::AddLimitFromState {
            key: "Perception".to_string(),
            multiplier_milli: 1000,
        },
        Action::MoodDrainPerStateStep {
            key: "HumanFireworks".to_string(),
            step_size_milli: 1000,
            delta_per_step_milli: -100,
            scope: MoodDrainScope::SelfOp,
        },
        Action::StateConsume {
            key: "Perception".to_string(),
            div_milli: 1000,
        },
        Action::StateConvert {
            from: "Perception".to_string(),
            to: "SilentEcho".to_string(),
            ratio_milli: 1000,
        },
    ];
    for action in implicit_state_readers {
        assert_eq!(
            action_dependency(&action, AtomScope::Room).1,
            DependencyScope::RuntimeState
        );
    }
    assert_eq!(
        target_facility(
            "dorm",
            &Action::StateProduce {
                key: "MonsterCuisine".to_string(),
                amount_milli: 1000,
            },
            AtomScope::Global,
        ),
        "global_resource"
    );
    assert_eq!(
        target_facility(
            "trade",
            &Action::StateConsumeToEff {
                key: "SilentEcho".to_string(),
                div_milli: 2000,
                multiplier_milli: None,
            },
            AtomScope::Room,
        ),
        "trade"
    );
}
