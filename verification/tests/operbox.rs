use infra_core::instances::{FacilityBinding, OperatorInstance, OperatorInstances};
use infra_core::operbox::{owned_operator_has_tag, OperBox, OperBoxEntry, TAG_DURIN};
use infra_core::roster::{OperatorProgress, Roster, RosterTableError};
use infra_core::tier::PromotionTier;

fn entry(name: &str, elite: u8, level: u32, own: bool, rarity: u8) -> OperBoxEntry {
    OperBoxEntry {
        id: format!("id_{name}"),
        name: name.to_string(),
        elite,
        level,
        own,
        potential: 1,
        rarity,
    }
}

fn instance(name: &str, tier: PromotionTier, tags: &[&str], facilities: &[(&str, &[&str])]) -> OperatorInstance {
    OperatorInstance {
        name: name.to_string(),
        tier,
        tags: tags.iter().map(|t| t.to_string()).collect(),
        facilities: facilities
            .iter()
            .map(|(f, buffs)| FacilityBinding {
                facility: f.to_string(),
                buff_ids: buffs.iter().map(|b| b.to_string()).collect(),
            })
            .collect(),
    }
}

fn sample_box() -> OperBox {
    OperBox::from_entries(vec![
        entry("巫恋", 1, 50, true, 5),
        entry("巫恋", 2, 30, true, 5),
        entry("巫恋", 1, 80, true, 5),
        entry("龙舌兰", 2, 40, true, 5),
        entry("能天使", 2, 90, true, 6),
        entry("凯尔希", 2, 90, true, 6),
        entry("未招募", 2, 90, false, 6),
    ])
}

fn sample_instances() -> OperatorInstances {
    OperatorInstances {
        instances: vec![
            instance("巫恋", PromotionTier::TierUp, &[], &[("trade", &["trade_ord_spd[000]"])]),
            instance("龙舌兰", PromotionTier::TierUp, &[], &[("trade", &["trade_ord_spd[010]"])]),
            instance("能天使", PromotionTier::TierUp, &[], &[("power", &["power_rec_spd[000]"])]),
            instance("凯尔希", PromotionTier::TierUp, &[], &[("control", &["control_mp_cost[000]"])]),
        ],
    }
}

#[test]
fn duplicate_rows_keep_highest_elite() {
    let b = sample_box();
    assert_eq!(b.elite_of("巫恋"), Some(2));
    let p = b.progress_of("巫恋").unwrap();
    assert_eq!(p, OperatorProgress::new(2, 30, 5));
    assert_eq!(b.owned_count(), 4);
    assert!(!b.owns("未招募"));
    assert!(b.owns(" 能天使 "));
    assert_eq!(b.entries.len(), 7);
}

#[test]
fn roster_excluding_removes_workers() {
    let b = sample_box();
    let r = b.roster_excluding(&vec!["巫恋".to_string(), "龙舌兰".to_string()]);
    assert!(r.elite("巫恋").is_none());
    assert!(r.elite("能天使").is_some());
    assert_eq!(r.len(), 2);

    let pruned = b.excluding(&vec!["巫恋".to_string()]);
    assert_eq!(pruned.entries.len(), 4);
    assert!(!pruned.owns("巫恋"));
    assert!(pruned.owns("龙舌兰"));
}

#[test]
fn trade_roster_filters_to_trade_bindings() {
    let b = sample_box();
    let instances = sample_instances();
    let trade = b.trade_roster(&instances);
    assert!(trade.len() < b.owned_count());
    assert!(trade.elite("巫恋").is_some());
    assert!(trade.elite("凯尔希").is_none());
    assert_eq!(b.control_roster(&instances).len(), 1);
    assert_eq!(b.power_roster(&instances).elite("能天使"), Some(2));
    assert!(b.manufacture_roster(&instances).is_empty());
}

#[test]
fn durin_dorm_planning_count_caps_at_four() {
    let names = ["杜林甲", "杜林乙", "杜林丙", "杜林丁", "杜林戊"];
    let b = OperBox::from_entries(names.iter().map(|n| entry(n, 0, 1, true, 3)).collect());
    let instances = OperatorInstances {
        instances: names.iter().map(|n| instance(n, PromotionTier::Tier0, &[TAG_DURIN], &[])).collect(),
    };
    assert_eq!(b.durin_dorm_planning_count(&instances), 4);

    let fewer = OperBox::from_entries(names[..2].iter().map(|n| entry(n, 0, 1, true, 3)).collect());
    assert_eq!(fewer.durin_dorm_planning_count(&instances), 2);
    assert!(owned_operator_has_tag(&fewer, &instances, "杜林甲", TAG_DURIN));
    assert!(!owned_operator_has_tag(&fewer, &instances, "杜林丙", TAG_DURIN));
}

#[test]
fn instance_lookups_follow_tier() {
    let instances = OperatorInstances {
        instances: vec![
            instance("清流", PromotionTier::Tier0, &["t0"], &[("manufacture", &["manu_a"])]),
            instance("清流", PromotionTier::TierUp, &["t1"], &[("manufacture", &["manu_b"]), ("office", &[])]),
        ],
    };
    assert_eq!(instances.resolve_buff_ids("清流", PromotionTier::TierUp, "manufacture"), vec!["manu_b".to_string()]);
    assert_eq!(instances.resolve_buff_ids("清流", PromotionTier::Tier0, "manufacture"), vec!["manu_a".to_string()]);
    assert!(instances.resolve_buff_ids("清流", PromotionTier::Tier0, "office").is_empty());
    assert!(instances.has_facility("清流", PromotionTier::TierUp, "office"));
    assert!(!instances.has_facility("清流", PromotionTier::Tier0, "office"));
    assert_eq!(instances.tags_for("清流", PromotionTier::Tier0), vec!["t0".to_string()]);
    assert!(instances.get("无名", PromotionTier::Tier0).is_none());
}

#[test]
fn tier_follows_elite_and_rarity() {
    assert_eq!(PromotionTier::from_progress(OperatorProgress::new(1, 1, 4)), PromotionTier::TierUp);
    assert_eq!(PromotionTier::from_progress(OperatorProgress::new(1, 1, 5)), PromotionTier::Tier0);
    assert_eq!(PromotionTier::from_progress(OperatorProgress::new(2, 1, 6)), PromotionTier::TierUp);
    assert_eq!(PromotionTier::from_progress(OperatorProgress::new(1, 1, 0)), PromotionTier::Tier0);
    assert_eq!(PromotionTier::from_elite(2), PromotionTier::TierUp);
    assert_eq!(PromotionTier::from_elite(1), PromotionTier::Tier0);
}

fn table(rows: &[[&str; 3]]) -> Vec<Vec<String>> {
    rows.iter().map(|r| r.iter().map(|c| c.to_string()).collect()).collect()
}

#[test]
fn load_trade_roster_takes_max_elite() {
    let headers = vec!["name".to_string(), "facility".to_string(), "elite".to_string()];
    let rows = table(&[
        ["但书", "trade", "1"],
        ["但书", "trade", " 2 "],
        ["龙舌兰", "trade", "2"],
        ["但书", "trade", "0"],
        ["能天使", "power", "2"],
        ["  ", "trade", "x"],
    ]);
    let roster = Roster::from_table_for_facility(&headers, &rows, "trade").unwrap();
    assert_eq!(roster.elite("但书"), Some(2));
    assert_eq!(roster.elite("龙舌兰"), Some(2));
    assert_eq!(roster.elite("能天使"), None);
    assert_eq!(roster.len(), 2);
    assert_eq!(roster.progress("但书"), Some(OperatorProgress::elite_only(2)));
}

#[test]
fn roster_table_errors() {
    let headers = vec!["name".to_string(), "facility".to_string()];
    let rows: Vec<Vec<String>> = vec![vec!["但书".to_string(), "trade".to_string()]];
    assert_eq!(
        Roster::from_table_for_facility(&headers, &rows, "trade").unwrap_err(),
        RosterTableError::MissingColumn("elite".to_string())
    );
    let headers = vec!["facility".to_string(), "name".to_string(), "elite".to_string()];
    let rows = table(&[["trade", " 但书 ", "精二"]]);
    assert_eq!(
        Roster::from_table_for_facility(&headers, &rows, "trade").unwrap_err(),
        RosterTableError::InvalidElite("但书".to_string())
    );
}

#[test]
fn roster_insert_replaces_and_lists_names() {
    let mut r = Roster::new();
    assert!(r.is_empty());
    r.insert("甲".to_string(), OperatorProgress::elite_only(1));
    r.insert("乙".to_string(), OperatorProgress::elite_only(0));
    r.insert("甲".to_string(), OperatorProgress::elite_only(2));
    assert_eq!(r.len(), 2);
    assert_eq!(r.elite("甲"), Some(2));
    let mut names = r.names();
    names.sort();
    assert_eq!(names, vec!["乙".to_string(), "甲".to_string()]);
    let m = Roster::from_elite_map(vec![("丙".to_string(), 1), ("丙".to_string(), 2)]);
    assert_eq!(m.elite("丙"), Some(2));
    let p = Roster::from_progress_map(vec![("丁".to_string(), OperatorProgress::new(2, 60, 6))]);
    assert_eq!(p.progress("丁").unwrap().level, 60);
}

#[test]
fn lookups_ignore_surrounding_white_space() {
    let b = sample_box();
    let name = b.entries[0].name.clone();
    let padded = format!(" \u{3000}{name}\t");
    assert_eq!(b.owns(&padded), b.owns(&name));
    assert!(b.owns(&padded));
    assert_eq!(b.progress_of(&padded), b.progress_of(&name));
}

#[test]
fn excluding_twice_equals_excluding_both() {
    let b = sample_box();
    let first = b.entries[0].name.clone();
    let second = b.entries[3].name.clone();
    let twice = b.excluding(&vec![first.clone()]).excluding(&vec![second.clone()]);
    let once = b.excluding(&vec![first, second]);
    let names = |x: &OperBox| x.entries.iter().map(|e| e.name.clone()).collect::<Vec<_>>();
    assert_eq!(names(&twice), names(&once));
    assert_eq!(twice.owned_count(), once.owned_count());
}
