use infra_core::response_dependency::{
    closure_response_field, condition_dependency, default_off_shifts, default_on_shifts,
    default_producer_rules_path, deferred_producer_rules_for_buffs, dynamic_workforce_selector, response_field,
    selector_dependency, validate_producer_rule_catalog, DependencyScope, ProducerAdmission, ProducerCatalogError,
    ProducerRule, ProducerRuleCatalog, ResponseField, ScheduleDependencyRelation,
};
use infra_core::skill_table::{Skill, SkillTable};
use infra_core::types::{Action, AtomScope, Condition, EffectAtom, Phase, RecipeKind, Selector};

fn inject_atom(value_milli: i64) -> EffectAtom {
    EffectAtom {
        phase: Phase::Constant,
        tag: None,
        selector: Some(Selector::TaggedCountInTradeSum { tag: "cc.g.abyssal".to_string() }),
        condition: None,
        action: Action::GlobalInjectTradeEff { value_milli },
        scope: AtomScope::Global,
    }
}

fn table() -> SkillTable {
    SkillTable {
        skills: vec![
            Skill { id: "control_inject[000]".to_string(), facility: "control".to_string(), atoms: vec![inject_atom(50)] },
            Skill {
                id: "control_plain[000]".to_string(),
                facility: "control".to_string(),
                atoms: vec![EffectAtom {
                    phase: Phase::Constant,
                    tag: None,
                    selector: None,
                    condition: None,
                    action: Action::AddFlatEff { value_milli: 100, recipe: None },
                    scope: AtomScope::Room,
                }],
            },
            Skill { id: "control_negative[000]".to_string(), facility: "control".to_string(), atoms: vec![inject_atom(-5)] },
        ],
    }
}

fn rule(id: &str, buff: &str, target: &str, admission: ProducerAdmission) -> ProducerRule {
    ProducerRule {
        id: id.to_string(),
        source_buff_id: buff.to_string(),
        admission,
        target_facility: target.to_string(),
        schedule_relation: ScheduleDependencyRelation::Unrelated,
        on_shifts: default_on_shifts(),
        off_shifts: default_off_shifts(),
    }
}

#[test]
fn catalog_covering_every_inject_is_accepted() {
    let mut t = table();
    t.skills.pop();
    let catalog = ProducerRuleCatalog {
        version: 1,
        rules: vec![rule("r1", "control_inject[000]", "trade", ProducerAdmission::DeferredOptional)],
    };
    assert_eq!(validate_producer_rule_catalog(&catalog, &t), Ok(()));
}

#[test]
fn defaults() {
    assert_eq!(default_on_shifts(), 2);
    assert_eq!(default_off_shifts(), 1);
    assert_eq!(default_producer_rules_path(), "producer_rules.json");
}

#[test]
fn catalog_with_unsupported_version_is_rejected() {
    let t = table();
    let catalog = ProducerRuleCatalog { version: 2, rules: vec![] };
    assert_eq!(validate_producer_rule_catalog(&catalog, &t), Err(ProducerCatalogError::UnsupportedVersion(2)));
}

#[test]
fn catalog_with_duplicates_is_rejected() {
    let t = table();
    let rules = vec![
        rule("r1", "control_inject[000]", "trade", ProducerAdmission::DeferredOptional),
        rule("r1", "control_plain[000]", "trade", ProducerAdmission::PlanRequired),
    ];
    let catalog = ProducerRuleCatalog { version: 1, rules };
    assert_eq!(
        validate_producer_rule_catalog(&catalog, &t),
        Err(ProducerCatalogError::DuplicateRuleId("r1".to_string()))
    );
    let catalog = ProducerRuleCatalog {
        version: 1,
        rules: vec![
            rule("a", "control_inject[000]", "trade", ProducerAdmission::PlanRequired),
            rule("b", "control_inject[000]", "trade", ProducerAdmission::PlanRequired),
        ],
    };
    assert_eq!(
        validate_producer_rule_catalog(&catalog, &t),
        Err(ProducerCatalogError::DuplicateSourceBuff("control_inject[000]".to_string()))
    );
}

#[test]
fn catalog_rules_must_match_the_table() {
    let t = table();
    let unknown = ProducerRuleCatalog {
        version: 1,
        rules: vec![rule("u", "nowhere[000]", "trade", ProducerAdmission::PlanRequired)],
    };
    assert_eq!(
        validate_producer_rule_catalog(&unknown, &t),
        Err(ProducerCatalogError::UnknownBuff { rule: "u".to_string(), buff: "nowhere[000]".to_string() })
    );
    let plain = ProducerRuleCatalog {
        version: 1,
        rules: vec![rule("p", "control_plain[000]", "trade", ProducerAdmission::PlanRequired)],
    };
    assert_eq!(
        validate_producer_rule_catalog(&plain, &t),
        Err(ProducerCatalogError::NoDynamicWorkforceAtom { rule: "p".to_string(), target: "trade".to_string() })
    );
    let negative = ProducerRuleCatalog {
        version: 1,
        rules: vec![rule("n", "control_negative[000]", "trade", ProducerAdmission::PlanRequired)],
    };
    assert_eq!(
        validate_producer_rule_catalog(&negative, &t),
        Err(ProducerCatalogError::NegativeDynamicInject("n".to_string()))
    );
}

#[test]
fn catalog_must_cover_every_dynamic_inject() {
    let t = table();
    let partial = ProducerRuleCatalog {
        version: 1,
        rules: vec![rule("r1", "control_inject[000]", "trade", ProducerAdmission::DeferredOptional)],
    };
    assert_eq!(
        validate_producer_rule_catalog(&partial, &t),
        Err(ProducerCatalogError::CoverageMismatch { missing: vec!["control_negative[000]".to_string()], extra: vec![] })
    );
}

#[test]
fn deferred_rules_follow_catalog_order() {
    let catalog = ProducerRuleCatalog {
        version: 1,
        rules: vec![
            rule("r1", "control_inject[000]", "trade", ProducerAdmission::DeferredOptional),
            rule("r2", "control_inject[000]", "manufacture", ProducerAdmission::DeferredOptional),
            rule("r3", "control_other[000]", "trade", ProducerAdmission::DeferredOptional),
            rule("r4", "control_inject[000]", "trade", ProducerAdmission::PlanRequired),
        ],
    };
    let got = deferred_producer_rules_for_buffs(
        &catalog,
        &vec!["control_inject[000]".to_string(), "control_other[000]".to_string()],
        "trade",
    );
    let ids: Vec<String> = got.iter().map(|r| r.id.clone()).collect();
    assert_eq!(ids, vec!["r1".to_string(), "r3".to_string()]);
}

#[test]
fn classification_of_actions_selectors_and_conditions() {
    assert_eq!(response_field(&Action::AddLimitDelta { delta: 2, recipe: None }), ResponseField::LimitOrStorage);
    assert_eq!(response_field(&Action::TagOrder), ResponseField::UnitOutput);
    assert_eq!(
        response_field(&Action::GlobalInjectManuEff { value_milli: 1, recipe: Some(RecipeKind::Gold) }),
        ResponseField::GlobalInject
    );
    assert_eq!(closure_response_field(ResponseField::GlobalInject), ResponseField::Efficiency);
    assert_eq!(closure_response_field(ResponseField::Mood), ResponseField::Mood);
    assert_eq!(selector_dependency(&Selector::GoldDeliveryCount), ("gold_delivery_count", DependencyScope::RuntimeState));
    assert_eq!(condition_dependency(&Condition::PlatformCountGte), ("platform_count_gte", DependencyScope::CrossFacility));
    let s = Selector::TradeStationsWithTaggedGte { tag: "t".to_string(), min: 2 };
    assert_eq!(dynamic_workforce_selector(Some(&s)), Some(("t", Some(2))));
    assert_eq!(dynamic_workforce_selector(Some(&Selector::OrderGap)), None);
    assert_eq!(dynamic_workforce_selector(None), None);
}

use infra_core::instances::{FacilityBinding, OperatorInstance, OperatorInstances};
use infra_core::layout::{AssignedOperator, BaseAssignment, BaseBlueprint, BlueprintRoom, FacilityKind, RoomId};
use infra_core::response_dependency::{resolve_assignment_producer_dependencies, ProducerResolveError};
use infra_core::tier::PromotionTier;

fn dyn_atom(selector: Selector, action: Action) -> EffectAtom {
    EffectAtom {
        phase: Phase::Constant,
        tag: None,
        selector: Some(selector),
        condition: None,
        action,
        scope: AtomScope::Global,
    }
}

fn producer_table() -> SkillTable {
    SkillTable {
        skills: vec![
            Skill {
                id: "control_inject[000]".to_string(),
                facility: "control".to_string(),
                atoms: vec![dyn_atom(
                    Selector::TaggedCountInTradeSum { tag: "tag.a".to_string() },
                    Action::GlobalInjectTradeEff { value_milli: 50 },
                )],
            },
            Skill {
                id: "control_thresh[000]".to_string(),
                facility: "control".to_string(),
                atoms: vec![dyn_atom(
                    Selector::TradeStationsWithTaggedGte { tag: "tag.b".to_string(), min: 2 },
                    Action::GlobalInjectManuEff { value_milli: 100, recipe: None },
                )],
            },
        ],
    }
}

fn operator(name: &str, tags: &[&str], control: &[&str]) -> OperatorInstance {
    OperatorInstance {
        name: name.to_string(),
        tier: PromotionTier::TierUp,
        tags: tags.iter().map(|t| t.to_string()).collect(),
        facilities: vec![FacilityBinding {
            facility: "control".to_string(),
            buff_ids: control.iter().map(|b| b.to_string()).collect(),
        }],
    }
}

fn producer_world() -> (OperatorInstances, BaseBlueprint, BaseAssignment) {
    let instances = OperatorInstances {
        instances: vec![
            operator("中枢甲", &[], &["control_inject[000]"]),
            operator("中枢乙", &[], &["control_inject[000]", "control_thresh[000]"]),
            operator("甲", &["tag.a"], &[]),
            operator("乙", &["tag.a"], &[]),
            operator("丙", &["tag.b"], &[]),
            operator("丁", &["tag.b"], &[]),
        ],
    };
    let room = |id: &str, kind| BlueprintRoom { id: RoomId::from_str(id), kind, level: 3, product: None };
    let blueprint = BaseBlueprint {
        rooms: vec![
            room("control", FacilityKind::ControlCenter),
            room("trade_2", FacilityKind::TradePost),
            room("trade_1", FacilityKind::TradePost),
            room("manu_1", FacilityKind::Factory),
        ],
    };
    let ops = |names: &[&str]| names.iter().map(|n| AssignedOperator::new(n, 2)).collect::<Vec<_>>();
    let mut assignment = BaseAssignment::default();
    assignment.set_room("control", ops(&["中枢甲", "中枢乙"]));
    assignment.set_room("trade_1", ops(&["甲", "无标签"]));
    assignment.set_room("trade_2", ops(&["乙", "甲"]));
    assignment.set_room("manu_1", ops(&["丙", "丁"]));
    (instances, blueprint, assignment)
}

#[test]
fn producers_resolve_to_tagged_consumers() {
    let (instances, blueprint, assignment) = producer_world();
    let catalog = ProducerRuleCatalog {
        version: 1,
        rules: vec![
            rule("r_b", "control_thresh[000]", "manufacture", ProducerAdmission::PlanRequired),
            rule("r_a", "control_inject[000]", "trade", ProducerAdmission::DeferredOptional),
        ],
    };
    let resolved =
        resolve_assignment_producer_dependencies(&catalog, &blueprint, &assignment, &instances, &producer_table())
            .unwrap();
    assert_eq!(resolved.len(), 2);
    let a = &resolved[0];
    assert_eq!(a.rule_id, "r_a");
    assert_eq!(a.producers, vec!["中枢乙".to_string()]);
    assert_eq!(a.consumers, vec!["乙".to_string(), "甲".to_string()]);
    let rooms: Vec<String> = a.target_rooms.iter().map(|r| r.0.clone()).collect();
    assert_eq!(rooms, vec!["trade_1".to_string(), "trade_2".to_string()]);
    assert_eq!(a.effective_contribution_milli, Some(150));
    assert_eq!(a.on_shifts, 2);
    let b = &resolved[1];
    assert_eq!(b.rule_id, "r_b");
    assert_eq!(b.producers, vec!["中枢乙".to_string()]);
    assert_eq!(b.consumers, vec!["丁".to_string(), "丙".to_string()]);
    assert_eq!(b.effective_contribution_milli, Some(100));
}

#[test]
fn producers_without_enough_tagged_workers_are_dropped() {
    let (instances, blueprint, mut assignment) = producer_world();
    assignment.set_room("manu_1", vec![AssignedOperator::new("丙", 2)]);
    assignment.set_room("control", vec![AssignedOperator::new("中枢乙", 2)]);
    let catalog = ProducerRuleCatalog {
        version: 1,
        rules: vec![
            rule("r_b", "control_thresh[000]", "manufacture", ProducerAdmission::PlanRequired),
            rule("r_a", "control_inject[000]", "trade", ProducerAdmission::DeferredOptional),
        ],
    };
    let resolved =
        resolve_assignment_producer_dependencies(&catalog, &blueprint, &assignment, &instances, &producer_table())
            .unwrap();
    let ids: Vec<String> = resolved.iter().map(|d| d.rule_id.clone()).collect();
    assert_eq!(ids, vec!["r_a".to_string()]);

    let mut no_producer = BaseAssignment::default();
    no_producer.set_room("trade_1", vec![AssignedOperator::new("甲", 2)]);
    let none =
        resolve_assignment_producer_dependencies(&catalog, &blueprint, &no_producer, &instances, &producer_table())
            .unwrap();
    assert!(none.is_empty());
}

#[test]
fn producer_resolution_errors() {
    let (instances, blueprint, assignment) = producer_world();
    let invalid = ProducerRuleCatalog { version: 3, rules: vec![] };
    assert_eq!(
        resolve_assignment_producer_dependencies(&invalid, &blueprint, &assignment, &instances, &producer_table())
            .unwrap_err(),
        ProducerResolveError::InvalidCatalog(ProducerCatalogError::UnsupportedVersion(3))
    );

    let mut table = producer_table();
    table.skills[0].atoms.push(EffectAtom {
        phase: Phase::Constant,
        tag: None,
        selector: Some(Selector::TaggedCountInTradeSum { tag: "tag.a".to_string() }),
        condition: None,
        action: Action::StateProduce { key: "x".to_string(), amount_milli: 1000 },
        scope: AtomScope::Room,
    });
    let catalog = ProducerRuleCatalog {
        version: 1,
        rules: vec![
            rule("r_a", "control_inject[000]", "control", ProducerAdmission::PlanRequired),
            rule("r_b", "control_thresh[000]", "manufacture", ProducerAdmission::PlanRequired),
        ],
    };
    assert_eq!(
        resolve_assignment_producer_dependencies(&catalog, &blueprint, &assignment, &instances, &table).unwrap_err(),
        ProducerResolveError::UnsupportedTarget { rule: "r_a".to_string(), target: "control".to_string() }
    );
}
