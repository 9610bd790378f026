use infra_core::instances::{FacilityBinding, OperatorInstance, OperatorInstances};
use infra_core::layout::FacilityKind;
use infra_core::operbox::{OperBox, OperBoxEntry};
use infra_core::pool::base::{n_choose_k_u64, PoolCore, PoolSkip};
use infra_core::pool::control::{
    build_control_pool, build_control_pool_with_fillers, filter_control_pool, ControlPoolEntry, CONTROL_FILLER_CAP,
};
use infra_core::pool::standalone::{facility_label, try_filter_standalone_with, StandaloneRoster};
use infra_core::roster::{OperatorProgress, Roster};
use infra_core::skill_table::{Skill, SkillTable};
use infra_core::tier::{OperatorTier, PromotionTier};

fn instance(name: &str, tier: PromotionTier, facilities: &[(&str, &[&str])]) -> OperatorInstance {
    OperatorInstance {
        name: name.to_string(),
        tier,
        tags: vec![format!("tag_{name}")],
        facilities: facilities
            .iter()
            .map(|(f, buffs)| FacilityBinding {
                facility: f.to_string(),
                buff_ids: buffs.iter().map(|b| b.to_string()).collect(),
            })
            .collect(),
    }
}

fn skill(id: &str, facility: &str) -> Skill {
    Skill { id: id.to_string(), facility: facility.to_string(), atoms: Vec::new() }
}

fn control_entry(name: &str) -> ControlPoolEntry {
    ControlPoolEntry {
        name: name.to_string(),
        elite: 2,
        progress: OperatorProgress::new(2, 1, 6),
        buff_ids: Vec::new(),
        tags: Vec::new(),
        tier: OperatorTier::Standalone,
    }
}

fn pool_of(names: &[&str]) -> PoolCore<ControlPoolEntry> {
    PoolCore { entries: names.iter().map(|n| control_entry(n)).collect(), skipped: vec![] }
}

fn names(pool: &PoolCore<ControlPoolEntry>) -> Vec<String> {
    pool.entries.iter().map(|e| e.name.clone()).collect()
}

fn control_world() -> (OperatorInstances, SkillTable) {
    let instances = OperatorInstances {
        instances: vec![
            instance("阿米娅", PromotionTier::TierUp, &[("control", &["control_tra_spd[000]"])]),
            instance("凯尔希", PromotionTier::TierUp, &[("control", &["control_unknown[000]"])]),
            instance("琴柳", PromotionTier::TierUp, &[("control", &["control_mp_cost[000]"])]),
            instance("空弦", PromotionTier::TierUp, &[("trade", &["trade_ord_spd[000]"])]),
        ],
    };
    let table = SkillTable {
        skills: vec![
            skill("control_tra_spd[000]", "control"),
            skill("control_mp_cost[000]", "control"),
            skill("trade_ord_spd[000]", "trade"),
        ],
    };
    (instances, table)
}

#[test]
fn control_pool_is_sorted_and_skips_unmodeled_skills() {
    let (instances, table) = control_world();
    let roster = Roster::from_elite_map(vec![
        ("阿米娅".to_string(), 2),
        ("凯尔希".to_string(), 2),
        ("琴柳".to_string(), 2),
    ]);
    let pool = build_control_pool(&roster, &instances, &table);
    let mut expected = vec!["琴柳".to_string(), "阿米娅".to_string()];
    expected.sort();
    assert_eq!(names(&pool), expected);
    assert_eq!(pool.skipped.len(), 1);
    assert_eq!(pool.skipped[0].0, "凯尔希");
    assert_eq!(pool.skipped[0].2, PoolSkip::UnmodeledBuff("control_unknown[000]".to_string()));
    let amiya = pool.entry("阿米娅").unwrap();
    assert_eq!(amiya.buff_ids, vec!["control_tra_spd[000]".to_string()]);
    assert_eq!(amiya.tags, vec!["tag_阿米娅".to_string()]);
    assert_eq!(amiya.to_control_operator().name, "阿米娅");
    let stats = pool.stats(3);
    assert_eq!(stats.ready, 2);
    assert_eq!(stats.skipped, 1);
    assert_eq!(stats.combinations_3, 0);
}

#[test]
fn account_control_pool_adds_bounded_skillless_fillers() {
    let (instances, table) = control_world();
    let owned = ["阿米娅", "琴柳", "空弦", "甲", "乙", "丙", "丁", "戊", "己"];
    let operbox = OperBox::from_entries(
        owned
            .iter()
            .map(|n| OperBoxEntry {
                id: n.to_string(),
                name: n.to_string(),
                elite: 2,
                level: 1,
                own: true,
                potential: 1,
                rarity: 6,
            })
            .collect(),
    );
    let skilled = build_control_pool(&operbox.control_roster(&instances), &instances, &table);
    let with_fillers = build_control_pool_with_fillers(&operbox, &instances, &table);
    assert_eq!(skilled.entries.len(), 2);
    assert_eq!(with_fillers.entries.len(), skilled.entries.len() + CONTROL_FILLER_CAP);
    assert!(with_fillers.entries.iter().any(|entry| entry.buff_ids.is_empty()));
    let mut seen = names(&with_fillers);
    seen.sort();
    seen.dedup();
    assert_eq!(seen.len(), with_fillers.entries.len());
}

#[test]
fn control_pool_filter_drops_excluded() {
    let pool = pool_of(&["甲", "乙", "丙"]);
    let kept = filter_control_pool(&pool, &vec!["乙".to_string()]);
    assert_eq!(names(&kept), vec!["甲".to_string(), "丙".to_string()]);
}

#[test]
fn tag_tier_respects_precedence() {
    let mut pool = pool_of(&["甲", "乙"]);
    pool.tag_tier(&vec!["甲".to_string()], OperatorTier::System);
    pool.tag_tier(&vec!["甲".to_string(), "乙".to_string()], OperatorTier::CrossStation);
    assert_eq!(pool.entries[0].tier, OperatorTier::System);
    assert_eq!(pool.entries[1].tier, OperatorTier::CrossStation);
    assert_eq!(OperatorTier::System.priority(), 2);
}

#[test]
fn binomial_counts() {
    assert_eq!(n_choose_k_u64(5, 3), 10);
    assert_eq!(n_choose_k_u64(90, 3), 117480);
    assert_eq!(n_choose_k_u64(3, 5), 0);
    assert_eq!(n_choose_k_u64(7, 0), 1);
}

fn trade_whitelist() -> StandaloneRoster {
    StandaloneRoster {
        trade_post: vec!["空弦".to_string(), "吉星".to_string(), "石英".to_string()],
        factory: vec![],
        power_plant: vec![],
        control_center: vec![],
    }
}

#[test]
fn filter_preserves_whitelisted_entries() {
    let pool = pool_of(&["空弦", "吉星", "无关干员A", "石英", "无关干员B"]);
    let roster = trade_whitelist();
    let result = try_filter_standalone_with(&pool, roster.get(FacilityKind::TradePost), 3);
    let kept = names(&result);
    assert!(kept.contains(&"空弦".to_string()));
    assert!(kept.contains(&"吉星".to_string()));
    assert!(kept.contains(&"石英".to_string()));
    assert!(!kept.contains(&"无关干员A".to_string()));
    assert!(!kept.contains(&"无关干员B".to_string()));
}

#[test]
fn filter_falls_back_when_too_few() {
    let pool = pool_of(&["无关干员A", "无关干员B"]);
    let roster = trade_whitelist();
    let result = try_filter_standalone_with(&pool, roster.get(FacilityKind::TradePost), 3);
    assert_eq!(result.entries.len(), 2);
    assert_eq!(result.entries[0].name, "无关干员A");
}

#[test]
fn filter_falls_back_when_no_roster_for_facility() {
    let pool = pool_of(&["a", "b", "c"]);
    let roster = trade_whitelist();
    assert!(roster.get(FacilityKind::Dormitory).is_none());
    let result = try_filter_standalone_with(&pool, roster.get(FacilityKind::Dormitory), 1);
    assert_eq!(result.entries.len(), 3);
    assert_eq!(facility_label(FacilityKind::TradePost), "贸易站");
    assert_eq!(facility_label(FacilityKind::MeetingRoom), "其他");
}

#[test]
fn binomial_outside_the_table() {
    assert_eq!(n_choose_k_u64(3, usize::MAX), 0);
    assert_eq!(n_choose_k_u64(usize::MAX, usize::MAX), 1);
    assert_eq!(n_choose_k_u64(5, 6), 0);
    assert_eq!(pool_of(&["a", "b"]).stats(usize::MAX).combinations_3, 0);
}

#[test]
fn filtering_twice_keeps_what_filtering_by_both_keeps() {
    let pool = pool_of(&["甲", "乙", "丙", "丁"]);
    let a = vec!["乙".to_string()];
    let b = vec!["丁".to_string(), "戊".to_string()];
    let twice = filter_control_pool(&filter_control_pool(&pool, &a), &b);
    let both: Vec<String> = a.iter().chain(b.iter()).cloned().collect();
    let once = filter_control_pool(&pool, &both);
    assert_eq!(names(&twice), names(&once));
    assert_eq!(names(&twice), vec!["甲".to_string(), "丙".to_string()]);
    assert_eq!(names(&filter_control_pool(&pool, &vec![])), names(&pool));
}
