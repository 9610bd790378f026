use infra_core::resource_closure::{build_resource_reverse_closures, closure_of_seeds, ResourceConversionLink};
use infra_core::response_dependency::{DependencyScope, ResourceClosureEdgeKind, ResponseDependencyRow, ResponseField};

fn row(skill: &str, target: &str, field: ResponseField, reads: &[&str], writes: &[&str]) -> ResponseDependencyRow {
    ResponseDependencyRow {
        skill_id: skill.to_string(),
        source_facility: "control".to_string(),
        target_facility: target.to_string(),
        atom_index: 0,
        selector: None,
        selector_scope: None,
        condition: None,
        condition_scope: None,
        action_dependency: "state".to_string(),
        action_scope: DependencyScope::RuntimeState,
        reads_resources: reads.iter().map(|s| s.to_string()).collect(),
        writes_resources: writes.iter().map(|s| s.to_string()).collect(),
        atom_scope: "room".to_string(),
        response_field: field,
        requires_external_state: true,
    }
}

fn strings(v: &[&str]) -> Vec<String> {
    v.iter().map(|s| s.to_string()).collect()
}

fn rows() -> Vec<ResponseDependencyRow> {
    vec![
        row("trade_a", "trade", ResponseField::Efficiency, &["x"], &[]),
        row("power_p", "global_resource", ResponseField::StateResource, &[], &["y"]),
        row("conv_c", "manufacture", ResponseField::StateResource, &["y"], &["x"]),
        row("trade_inject", "trade", ResponseField::GlobalInject, &["z"], &[]),
        row("pool_reader", "global_resource", ResponseField::Efficiency, &["w"], &[]),
    ]
}

fn conversions() -> Vec<ResourceConversionLink> {
    vec![ResourceConversionLink {
        from: "v".to_string(),
        to: "z".to_string(),
        provider_buff_id: "pb".to_string(),
        converter_buff_id: "cb".to_string(),
    }]
}

#[test]
fn closures_group_by_facility_and_field() {
    let closures = build_resource_reverse_closures(&rows(), &conversions());
    assert_eq!(closures.len(), 2);

    let manu = &closures[0];
    assert_eq!(manu.target_facility, "manufacture");
    assert_eq!(manu.response_field, ResponseField::StateResource);
    assert_eq!(manu.seed_resources, strings(&["y"]));
    assert_eq!(manu.resources, strings(&["y"]));
    assert_eq!(manu.edges.len(), 1);
    assert_eq!(manu.edges[0].kind, ResourceClosureEdgeKind::AtomProduce);
    assert_eq!(manu.edges[0].from, None);
    assert_eq!(manu.edges[0].skill_id.as_deref(), Some("power_p"));

    let trade = &closures[1];
    assert_eq!(trade.target_facility, "trade");
    assert_eq!(trade.response_field, ResponseField::Efficiency);
    assert_eq!(trade.seed_resources, strings(&["x", "z"]));
    assert_eq!(trade.resources, strings(&["v", "x", "y", "z"]));
    let kinds: Vec<ResourceClosureEdgeKind> = trade.edges.iter().map(|e| e.kind).collect();
    assert_eq!(
        kinds,
        vec![
            ResourceClosureEdgeKind::AtomProduce,
            ResourceClosureEdgeKind::AtomConvert,
            ResourceClosureEdgeKind::RegistryConversion
        ]
    );
    assert_eq!(trade.edges[1].from.as_deref(), Some("y"));
    assert_eq!(trade.edges[1].to, "x");
    assert_eq!(trade.edges[2].from.as_deref(), Some("v"));
    assert!(trade.edges[2].requires_same_shift_activation);
    assert_eq!(trade.edges[2].provider_buff_id.as_deref(), Some("pb"));
}

#[test]
fn closure_follows_cycles_once() {
    let cyc = vec![
        row("a", "trade", ResponseField::Efficiency, &["p"], &["q"]),
        row("b", "trade", ResponseField::Efficiency, &["q"], &["p"]),
        row("c", "trade", ResponseField::Efficiency, &["q"], &["p"]),
    ];
    let (resources, edges) = closure_of_seeds(&cyc, &Vec::new(), &strings(&["p"]));
    assert_eq!(resources, strings(&["p", "q"]));
    let skills: Vec<String> = edges.iter().map(|e| e.skill_id.clone().unwrap()).collect();
    assert_eq!(skills, strings(&["a", "b", "c"]));
    assert_eq!(edges[0].from.as_deref(), Some("p"));
    assert_eq!(edges[2].from.as_deref(), Some("q"));
}

#[test]
fn no_reads_no_closures() {
    let only_writers = vec![row("w", "trade", ResponseField::Efficiency, &[], &["x"])];
    assert!(build_resource_reverse_closures(&only_writers, &Vec::new()).is_empty());
}

#[test]
fn closure_edge_keeps_first_row_source_facility() {
    let mut first = row("maker", "global_resource", ResponseField::StateResource, &[], &["y"]);
    first.source_facility = "power".to_string();
    let mut second = row("maker", "global_resource", ResponseField::StateResource, &[], &["y"]);
    second.source_facility = "manufacture".to_string();
    let rows = vec![first, second];
    let (resources, edges) = closure_of_seeds(&rows, &Vec::new(), &strings(&["y"]));
    assert_eq!(resources, strings(&["y"]));
    assert_eq!(edges.len(), 1);
    assert_eq!(edges[0].source_facility.as_deref(), Some("power"));
}
