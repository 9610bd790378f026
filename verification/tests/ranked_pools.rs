use infra_core::instances::{FacilityBinding, OperatorInstance, OperatorInstances};
use infra_core::operbox::{OperBox, OperBoxEntry};
use infra_core::pool::base::PoolSkip;
use infra_core::pool::manufacture::{
    build_manufacture_pool, expand_manufacture_candidate_pool, filter_general_manufacture_search_pool,
    filter_manufacture_pool, is_manufacture_candidate_extension, ManuPool, ManuPoolEntry,
};
use infra_core::pool::power::build_power_pool;
use infra_core::roster::{OperatorProgress, Roster};
use infra_core::schedule::abyssal::abyssal_manu_entry;
use infra_core::layout::Efficiency;
use infra_core::search::{
    atom_can_contribute_prod_for_recipe, atom_condition_can_match_recipe, filter_recipe_productive_pool,
    low_priority_power_name, power_hit_precedes, recipe_filter_matches, skill_has_productive_eff_for_recipe,
    PowerHitRank,
};
use infra_core::skill_table::{Skill, SkillTable};
use infra_core::tier::{OperatorTier, PromotionTier};
use infra_core::types::{Action, AtomScope, Condition, EffectAtom, Phase, RecipeKind};

fn test_entry(name: &str, buff_ids: &[&str], flat_eff_hint_milli: i64) -> ManuPoolEntry {
    ManuPoolEntry {
        name: name.to_string(),
        elite: 0,
        progress: OperatorProgress::elite_only(0),
        buff_ids: buff_ids.iter().map(|id| (*id).to_string()).collect(),
        tags: vec![],
        flat_eff_hint_milli,
        has_l2_delegate: false,
        tier: OperatorTier::Standalone,
    }
}

fn instance(name: &str, facilities: &[(&str, &[&str])]) -> OperatorInstance {
    OperatorInstance {
        name: name.to_string(),
        tier: PromotionTier::TierUp,
        tags: vec![format!("tag_{name}")],
        facilities: facilities
            .iter()
            .map(|(f, buffs)| FacilityBinding {
                facility: f.to_string(),
                buff_ids: buffs.iter().map(|b| b.to_string()).collect(),
            })
            .collect(),
    }
}

fn atom(phase: Phase, tag: Option<&str>, action: Action) -> EffectAtom {
    EffectAtom {
        phase,
        tag: tag.map(|t| t.to_string()),
        selector: None,
        condition: None,
        action,
        scope: AtomScope::Room,
    }
}

fn flat(value_milli: i64, recipe: Option<RecipeKind>) -> Action {
    Action::AddFlatEff { value_milli, recipe }
}

fn skill(id: &str, facility: &str, atoms: Vec<EffectAtom>) -> Skill {
    Skill { id: id.to_string(), facility: facility.to_string(), atoms }
}

fn names(pool: &ManuPool) -> Vec<String> {
    pool.entries.iter().map(|e| e.name.clone()).collect()
}

#[test]
fn manufacture_candidate_extension_adds_standard_beta_and_ramps() {
    let primary = ManuPool {
        entries: vec![
            test_entry("褐果", &["manu_prod_spd[000]"], 20000),
            test_entry("雪猎", &["manu_prod_spd&limit&cost[101]"], 20000),
            test_entry("卡达", &["manu_formula_cost[000]"], 0),
        ],
        skipped: vec![],
    };
    let full = ManuPool {
        entries: vec![
            primary.entries[0].clone(),
            primary.entries[1].clone(),
            primary.entries[2].clone(),
            test_entry("史都华德", &["manu_prod_spd[010]"], 25000),
            test_entry("芬", &["manu_prod_spd_addition[030]"], 0),
            test_entry("克洛丝", &["manu_prod_spd_addition[040]"], 0),
            test_entry("低效非候选", &["manu_prod_spd[999]"], 5000),
        ],
        skipped: vec![],
    };

    let expanded = expand_manufacture_candidate_pool(&primary, &full);
    assert!(expanded.entry("史都华德").is_some());
    assert!(expanded.entry("芬").is_some());
    assert!(expanded.entry("克洛丝").is_some());
    assert!(expanded.entry("低效非候选").is_none());
}

#[test]
fn general_manufacture_search_pool_excludes_system_only_automation_ops() {
    let pool = ManuPool {
        entries: vec![
            test_entry("冬时", &["manu_prod_spd&manu[100]"], 30000),
            test_entry("温蒂", &["manu_prod_spd&power[020]"], 45000),
            test_entry("芬", &["manu_prod_spd_addition[030]"], 0),
            test_entry("克洛丝", &["manu_prod_spd_addition[040]"], 0),
        ],
        skipped: vec![],
    };

    let filtered = filter_general_manufacture_search_pool(&pool);
    assert!(pool.entry("冬时").is_some(), "体系路径仍可显式取冬时");
    assert!(pool.entry("温蒂").is_some(), "体系路径仍可显式取温蒂");
    assert!(filtered.entry("冬时").is_none());
    assert!(filtered.entry("温蒂").is_none());
    assert!(filtered.entry("芬").is_some());
    assert!(filtered.entry("克洛丝").is_some());
}

#[test]
fn expanded_pool_is_sorted_by_hint_then_name() {
    let primary = ManuPool {
        entries: vec![test_entry("x", &["a"], 5000), test_entry("y", &["b"], 10000)],
        skipped: vec![],
    };
    let full = ManuPool {
        entries: vec![
            test_entry("y", &["manu_prod_spd[010]"], 99000),
            test_entry("z", &["manu_prod_spd_addition[041]"], 10000),
            test_entry("w", &["manu_prod_spd[000]"], 50000),
            test_entry("z", &["manu_prod_spd_addition[031]"], 70000),
        ],
        skipped: vec![("q".to_string(), 1, PoolSkip::NoTradeBinding)],
    };
    let expanded = expand_manufacture_candidate_pool(&primary, &full);
    assert_eq!(names(&expanded), vec!["y", "z", "x"]);
    assert_eq!(expanded.entries[0].flat_eff_hint_milli, 10000);
    assert_eq!(expanded.entries[1].flat_eff_hint_milli, 10000);
    assert_eq!(expanded.skipped.len(), 1);
    assert!(is_manufacture_candidate_extension(&full.entries[1]));
    assert!(!is_manufacture_candidate_extension(&full.entries[2]));
}

fn factory_world() -> (OperatorInstances, SkillTable) {
    let instances = OperatorInstances {
        instances: vec![
            instance("amber", &[("manufacture", &["m_flat"])]),
            instance("birch", &[("manufacture", &["m_station"])]),
            instance("cedar", &[("manufacture", &["m_trade"])]),
            instance("dune", &[("trade", &["t_x"])]),
            instance("echo", &[("manufacture", &["m_empty"])]),
            instance("fang", &[("manufacture", &["m_flat"])]),
            instance("gale", &[("manufacture", &["m_missing"])]),
        ],
    };
    let table = SkillTable {
        skills: vec![
            skill("m_flat", "manufacture", vec![atom(Phase::Constant, None, flat(25000, None))]),
            skill(
                "m_station",
                "manufacture",
                vec![
                    atom(
                        Phase::EffVar,
                        Some("station"),
                        Action::AddFlatEffFromSelector { multiplier_milli: 5000, recipe: None },
                    ),
                    atom(Phase::Constant, None, flat(10000, Some(RecipeKind::Gold))),
                ],
            ),
            skill("m_trade", "trade", vec![atom(Phase::Constant, None, flat(1000, None))]),
            skill("m_empty", "manufacture", vec![]),
        ],
    };
    (instances, table)
}

#[test]
fn manufacture_pool_ranks_by_flat_bonus_then_name() {
    let (instances, table) = factory_world();
    let roster = Roster::from_elite_map(
        ["amber", "birch", "cedar", "dune", "echo", "fang", "gale"].iter().map(|n| (n.to_string(), 2)).collect(),
    );
    let pool = build_manufacture_pool(&roster, &instances, &table);
    assert_eq!(names(&pool), vec!["amber", "fang", "birch", "echo"]);
    assert_eq!(pool.entries[0].flat_eff_hint_milli, 25000);
    assert_eq!(pool.entries[2].flat_eff_hint_milli, 15000);
    assert_eq!(pool.entries[3].flat_eff_hint_milli, 0);
    assert!(pool.entries[3].has_l2_delegate);
    assert!(!pool.entries[0].has_l2_delegate);
    assert_eq!(pool.entries[0].tags, vec!["tag_amber".to_string()]);
    assert_eq!(pool.entries[0].to_manu_operator().buff_ids, vec!["m_flat".to_string()]);

    let mut skipped: Vec<(String, PoolSkip)> = pool.skipped.iter().map(|s| (s.0.clone(), s.2.clone())).collect();
    skipped.sort_by(|a, b| a.0.cmp(&b.0));
    assert_eq!(
        skipped,
        vec![
            ("cedar".to_string(), PoolSkip::UnmodeledBuff("m_trade".to_string())),
            ("dune".to_string(), PoolSkip::NoTradeBinding),
            ("gale".to_string(), PoolSkip::UnmodeledBuff("m_missing".to_string())),
        ]
    );

    let without = filter_manufacture_pool(&pool, &vec!["fang".to_string()]);
    assert_eq!(names(&without), vec!["amber", "birch", "echo"]);
    assert_eq!(without.skipped.len(), 3);
}

#[test]
fn power_pool_sums_constant_charge_bonus() {
    let instances = OperatorInstances {
        instances: vec![
            instance("volt", &[("power", &["p_a", "p_b"])]),
            instance("watt", &[("power", &["p_c"])]),
            instance("ohm", &[("power", &[])]),
        ],
    };
    let table = SkillTable {
        skills: vec![
            skill(
                "p_a",
                "power",
                vec![
                    atom(Phase::Constant, None, flat(10000, Some(RecipeKind::Gold))),
                    atom(Phase::EffVar, None, flat(5000, None)),
                ],
            ),
            skill("p_b", "power", vec![atom(Phase::Constant, None, flat(15000, None))]),
            skill("p_c", "power", vec![atom(Phase::Constant, None, flat(20000, None))]),
        ],
    };
    let roster = Roster::from_elite_map(["volt", "watt", "ohm"].iter().map(|n| (n.to_string(), 2)).collect());
    let pool = build_power_pool(&roster, &instances, &table);
    let order: Vec<String> = pool.entries.iter().map(|e| e.name.clone()).collect();
    assert_eq!(order, vec!["volt", "watt"]);
    assert_eq!(pool.entries[0].flat_charge_hint_milli, 25000);
    assert_eq!(pool.entries[1].flat_charge_hint_milli, 20000);
    assert_eq!(pool.entries[1].to_power_operator().name, "watt");
    assert_eq!(pool.skipped.len(), 1);
    assert_eq!(pool.skipped[0].0, "ohm");
    assert_eq!(pool.skipped[0].2, PoolSkip::NoTradeBinding);
}

#[test]
fn abyssal_entry_carries_the_abyssal_tag() {
    let instances = OperatorInstances {
        instances: vec![
            instance("斯卡蒂", &[("manufacture", &["m_flat"])]),
            instance("幽灵鲨", &[("manufacture", &["m_missing"])]),
        ],
    };
    let (_, table) = factory_world();
    let operbox = OperBox::from_entries(
        ["斯卡蒂", "幽灵鲨"]
            .iter()
            .map(|n| OperBoxEntry {
                id: n.to_string(),
                name: n.to_string(),
                elite: 2,
                level: 1,
                own: true,
                potential: 1,
                rarity: 6,
            })
            .collect(),
    );
    let entry = abyssal_manu_entry("斯卡蒂", &operbox, &instances, &table).unwrap();
    assert_eq!(entry.tags, vec!["tag_斯卡蒂".to_string(), "cc.g.abyssal".to_string()]);
    assert_eq!(entry.tier, OperatorTier::CrossStation);
    assert_eq!(entry.flat_eff_hint_milli, 0);
    assert_eq!(entry.buff_ids, vec!["m_flat".to_string()]);
    assert!(abyssal_manu_entry("幽灵鲨", &operbox, &instances, &table).is_none());
    assert!(abyssal_manu_entry("安哲拉", &operbox, &instances, &table).is_none());
}

#[test]
fn recipe_productive_pool_keeps_candidates_that_raise_the_recipe() {
    let mut conditioned = atom(Phase::Constant, None, flat(10000, None));
    conditioned.condition = Some(Condition::ActiveRecipe { kind: RecipeKind::BattleRecord });
    let table = SkillTable {
        skills: vec![
            skill("m_gold", "manufacture", vec![atom(Phase::Constant, None, flat(10000, Some(RecipeKind::Gold)))]),
            skill("m_record_only", "manufacture", vec![conditioned]),
            skill(
                "m_ramp",
                "manufacture",
                vec![atom(
                    Phase::EffVar,
                    None,
                    Action::AddEffRamp { initial_milli: 0, per_hour_milli: 1000, cap_milli: 5000 },
                )],
            ),
            skill("m_zero", "manufacture", vec![atom(Phase::Constant, None, flat(0, None))]),
            skill("t_trade", "trade", vec![atom(Phase::Constant, None, flat(10000, None))]),
        ],
    };
    let pool = ManuPool {
        entries: vec![
            test_entry("a", &["m_gold"], 0),
            test_entry("b", &["m_record_only"], 0),
            test_entry("c", &["m_zero", "m_ramp"], 0),
            test_entry("d", &["m_zero"], 0),
            test_entry("e", &["t_trade"], 0),
            test_entry("f", &["missing"], 0),
        ],
        skipped: vec![("g".to_string(), 0, PoolSkip::NoTradeBinding)],
    };
    let gold = filter_recipe_productive_pool(&pool, &table, RecipeKind::Gold);
    assert_eq!(names(&gold), vec!["a", "c"]);
    assert_eq!(gold.skipped.len(), 1);
    let record = filter_recipe_productive_pool(&pool, &table, RecipeKind::BattleRecord);
    assert_eq!(names(&record), vec!["b", "c"]);
    assert!(!skill_has_productive_eff_for_recipe(&table.skills[4], RecipeKind::Gold));
}

#[test]
fn productive_atoms_follow_action_and_condition() {
    let consume = |multiplier_milli| {
        atom(
            Phase::EffVar,
            None,
            Action::StateConsumeToEff { key: "k".to_string(), div_milli: 1000, multiplier_milli },
        )
    };
    assert!(atom_can_contribute_prod_for_recipe(&consume(None), RecipeKind::Gold));
    assert!(!atom_can_contribute_prod_for_recipe(&consume(Some(0)), RecipeKind::Gold));
    let tiered = atom(
        Phase::EffVar,
        None,
        Action::AddEffFromLimitContribTiered { low_rate_milli: 0, high_rate_milli: 20 },
    );
    assert!(atom_can_contribute_prod_for_recipe(&tiered, RecipeKind::Originium));
    let bucket = atom(
        Phase::EffVar,
        None,
        Action::AddBucketEffFromSelector { ret_per_step_milli: 50, cap_milli: 0 },
    );
    assert!(!atom_can_contribute_prod_for_recipe(&bucket, RecipeKind::Gold));
    assert!(recipe_filter_matches(Some(RecipeKind::All), RecipeKind::Gold));
    assert!(recipe_filter_matches(None, RecipeKind::Gold));
    assert!(!recipe_filter_matches(Some(RecipeKind::BattleRecord), RecipeKind::Gold));
    assert!(atom_condition_can_match_recipe(&None, RecipeKind::Gold));
    assert!(!atom_condition_can_match_recipe(
        &Some(Condition::ActiveRecipe { kind: RecipeKind::Originium }),
        RecipeKind::Gold
    ));
}

fn hit(name: &str, milli: i64) -> PowerHitRank {
    PowerHitRank { name: name.to_string(), final_efficiency: Efficiency { milli } }
}

#[test]
fn power_hits_rank_by_charge_then_plain_chargers_then_name() {
    assert!(low_priority_power_name("Friston-3"));
    assert!(!low_priority_power_name("凯尔希"));
    assert!(power_hit_precedes(&hit("Friston-3", 20000), &hit("凯尔希", 15000)));
    assert!(power_hit_precedes(&hit("凯尔希", 15000), &hit("Friston-3", 15000)));
    assert!(!power_hit_precedes(&hit("Friston-3", 15000), &hit("凯尔希", 15000)));
    assert!(power_hit_precedes(&hit("a", 15000), &hit("b", 15000)));
    assert!(!power_hit_precedes(&hit("a", 15000), &hit("a", 15000)));
}

#[test]
fn four_star_e1_enters_manufacture_pool_at_tier_up() {
    let entries = vec![OperBoxEntry {
        id: "test".into(),
        name: "清流".into(),
        elite: 1,
        level: 1,
        own: true,
        potential: 1,
        rarity: 4,
    }];
    let operbox = OperBox::from_entries(entries);
    let instances = OperatorInstances {
        instances: vec![
            OperatorInstance {
                name: "清流".to_string(),
                tier: PromotionTier::Tier0,
                tags: vec![],
                facilities: vec![FacilityBinding {
                    facility: "manufacture".to_string(),
                    buff_ids: vec!["manu_prod_spd[000]".to_string()],
                }],
            },
            OperatorInstance {
                name: "清流".to_string(),
                tier: PromotionTier::TierUp,
                tags: vec![],
                facilities: vec![FacilityBinding {
                    facility: "manufacture".to_string(),
                    buff_ids: vec!["manu_prod_spd&trade[000]".to_string()],
                }],
            },
        ],
    };
    let table = SkillTable {
        skills: vec![
            skill("manu_prod_spd[000]", "manufacture", vec![atom(Phase::Constant, None, flat(15000, None))]),
            skill("manu_prod_spd&trade[000]", "manufacture", vec![atom(Phase::Constant, None, flat(20000, None))]),
        ],
    };
    let roster = operbox.manufacture_roster(&instances);
    let pool = build_manufacture_pool(&roster, &instances, &table);
    let q = pool.entry("清流").expect("清流 4★e1 should use tier_up manufacture");
    assert!(q.buff_ids.iter().any(|id| id.contains("manu_prod_spd&trade")));
}
