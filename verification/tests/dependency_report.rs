use infra_core::dependency_rows::{
    build_resource_value_domains, build_response_dependency_report, build_response_dependency_rows,
    normalize_resource, ResourceReadFormula,
};
use infra_core::response_dependency::{DependencyScope, ResponseField};
use infra_core::skill_table::{Skill, SkillTable};
use infra_core::types::{Action, AtomScope, Condition, EffectAtom, Phase, Selector};

fn atom(selector: Option<Selector>, condition: Option<Condition>, action: Action, scope: AtomScope) -> EffectAtom {
    EffectAtom { phase: Phase::Constant, tag: None, selector, condition, action, scope }
}

fn table() -> SkillTable {
    SkillTable {
        skills: vec![
            Skill {
                id: "trade_flat[000]".to_string(),
                facility: "trade".to_string(),
                atoms: vec![atom(None, None, Action::AddFlatEff { value_milli: 300, recipe: None }, AtomScope::Room)],
            },
            Skill {
                id: "control_state[000]".to_string(),
                facility: "control".to_string(),
                atoms: vec![
                    atom(
                        None,
                        None,
                        Action::StateProduce { key: "Gold_Pool".to_string(), amount_milli: 1000 },
                        AtomScope::Global,
                    ),
                    atom(
                        Some(Selector::StatePoolFloored { key: "pool".to_string(), div_milli: 2000 }),
                        None,
                        Action::StateConsumeToEff { key: "Pool".to_string(), div_milli: 4000, multiplier_milli: None },
                        AtomScope::Room,
                    ),
                    atom(
                        Some(Selector::PowerStationCount),
                        None,
                        Action::AddFlatEffFromSelector { multiplier_milli: 50, recipe: None },
                        AtomScope::Room,
                    ),
                ],
            },
        ],
    }
}

fn aliases() -> Vec<(String, String)> {
    vec![("pool".to_string(), "shared_pool".to_string())]
}

#[test]
fn resource_keys_normalize_through_aliases_then_lower_case() {
    assert_eq!(normalize_resource(&aliases(), "pool"), "shared_pool");
    assert_eq!(normalize_resource(&aliases(), "Gold_Pool"), "gold_pool");
    assert_eq!(normalize_resource(&vec![], "ÄBC"), "Äbc");
}

#[test]
fn one_row_per_atom_in_table_order() {
    let rows = build_response_dependency_rows(&table(), &aliases());
    assert_eq!(rows.len(), 4);
    let ids: Vec<(&str, usize)> = rows.iter().map(|r| (r.skill_id.as_str(), r.atom_index)).collect();
    assert_eq!(
        ids,
        vec![("trade_flat[000]", 0), ("control_state[000]", 0), ("control_state[000]", 1), ("control_state[000]", 2)]
    );
    assert!(!rows[0].requires_external_state);
    assert_eq!(rows[0].atom_scope, "room");
    assert_eq!(rows[1].target_facility, "global_resource");
    assert_eq!(rows[1].writes_resources, vec!["gold_pool"]);
    assert!(rows[1].requires_external_state);
    assert_eq!(rows[2].reads_resources, vec!["shared_pool", "pool"]);
    assert_eq!(rows[3].reads_resources, vec!["virtual_power"]);
    assert!(rows[3].selector.is_some());
}

#[test]
fn report_counts_rows_by_target_scope_and_field() {
    let report = build_response_dependency_report(&table(), &aliases());
    assert_eq!(report.skill_count, 2);
    assert_eq!(report.atom_count, 4);
    assert_eq!(report.external_atom_count, report.rows.iter().filter(|r| r.requires_external_state).count());
    let targets: Vec<&str> = report.by_target_facility.iter().map(|(t, _)| t.as_str()).collect();
    let mut sorted = targets.clone();
    sorted.sort();
    assert_eq!(targets, sorted);
    let total: usize = report.by_target_facility.iter().map(|(_, c)| *c).sum();
    assert_eq!(total, 4);
    let fields: usize = report.by_response_field.iter().map(|(_, c)| *c).sum();
    assert_eq!(fields, 4);
    assert!(report.by_response_field.iter().all(|(_, c)| *c > 0));
    let edges: u128 = report.dependency_edges_by_scope.iter().map(|(_, c)| *c).sum();
    let expected: u128 = report
        .rows
        .iter()
        .map(|r| 1 + r.selector_scope.is_some() as u128 + r.condition_scope.is_some() as u128)
        .sum();
    assert_eq!(edges, expected);
    assert!(report.dependency_edges_by_scope.iter().any(|(s, _)| *s == DependencyScope::RoomLocal));
    assert!(report.by_response_field.iter().any(|(f, _)| *f == ResponseField::Efficiency));
}

#[test]
fn value_domains_list_reads_then_power_counts() {
    let facts = build_resource_value_domains(&table(), &aliases());
    let resources: Vec<&str> = facts.iter().map(|f| f.resource.as_str()).collect();
    assert_eq!(resources, vec!["shared_pool", "pool", "virtual_power"]);
    assert_eq!(
        facts[0].formula,
        ResourceReadFormula::FloorDivideMultiplier { div_milli: 2000, multiplier_milli: 1000 }
    );
    assert_eq!(
        facts[1].formula,
        ResourceReadFormula::FloorDivideMultiplier { div_milli: 4000, multiplier_milli: 1000 }
    );
    assert_eq!(
        facts[2].formula,
        ResourceReadFormula::IntegerTruncateSaturatingAdd {
            cap: 255,
            action_multiplier_milli: 50,
            requires_physical_base: true
        }
    );
    assert!(facts.iter().all(|f| f.requires_producer_range_analysis));
    assert_eq!(facts[2].atom_index, 2);
}
