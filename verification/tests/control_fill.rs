use infra_core::control::ControlOperator;
use infra_core::pool::control::ControlPoolEntry;
use infra_core::roster::OperatorProgress;
use infra_core::search::{
    control_efficiency_fill_sort_weight, control_entry_core_inject_fill, control_entry_layered_fill,
    control_entry_mood_cost_fill, control_entry_plugin_fill, control_layered_fill_scores, control_passion_chain_buff,
};
use infra_core::skill_table::{Skill, SkillTable};
use infra_core::tier::OperatorTier;

fn entry(name: &str, buffs: &[&str]) -> ControlPoolEntry {
    ControlPoolEntry {
        name: name.to_string(),
        elite: 2,
        progress: OperatorProgress::new(2, 1, 6),
        buff_ids: buffs.iter().map(|b| b.to_string()).collect(),
        tags: vec![],
        tier: OperatorTier::Standalone,
    }
}

/// The skill data of the bundled tables is not part of this crate, so each
/// operator carries a skill of the class it has there.
#[test]
fn control_plugin_fill_excludes_unclaimed_system_producers() {
    let fillers = [
        entry("阿米娅", &["control_tra_spd[000]"]),
        entry("诗怀雅", &["control_tra_spd[010]"]),
        entry("八幡海铃", &["control_hire_spd&bd[000]"]),
        entry("焰尾", &["control_mp_cost[010]"]),
        entry("薇薇安娜", &["control_prod_spd[000]"]),
    ];
    for e in &fillers {
        assert!(control_entry_plugin_fill(e), "{} should be allowed as control plugin fill", e.name);
    }
    let producers = [
        entry("三角初华", &["control_mp_bd[000]", "control_tra_spd[000]"]),
        entry("若叶睦", &["control_mp_bd&trade[000]"]),
        entry("丰川祥子", &["control_prod_bd_spd[010]", "control_mp_cost[000]"]),
    ];
    for e in &producers {
        assert!(!control_entry_plugin_fill(e), "{} is a system producer", e.name);
    }
}

#[test]
fn control_layered_fill_allows_haru_as_loose_piece_but_not_resource_producer() {
    let haru = entry("八幡海铃", &["control_hire_spd&bd[000]"]);
    assert!(control_entry_layered_fill(&haru));
    assert!(control_entry_plugin_fill(&haru));
    assert!(!control_entry_core_inject_fill(&haru));
    let producer = entry("三角初华", &["control_mp_bd2[000]"]);
    assert!(!control_entry_layered_fill(&producer));
    assert!(!control_entry_plugin_fill(&producer));
}

#[test]
fn fill_classes_follow_skill_ids() {
    assert!(control_passion_chain_buff("control_dorm_bd[000]"));
    assert!(!control_passion_chain_buff("control_mp_bd[000]"));
    // 琴柳 never fills by class.
    assert!(!control_entry_plugin_fill(&entry("琴柳", &["control_tra_spd[000]"])));
    assert!(!control_entry_core_inject_fill(&entry("琴柳", &["control_tra_spd[000]"])));
    // Mood-cost skills: plain `control_mp_cost[...]` counts, a combined one does not.
    assert!(control_entry_mood_cost_fill(&entry("甲", &["control_mp_cost[000]"])));
    assert!(!control_entry_mood_cost_fill(&entry("乙", &["control_mp_cost&bd2[000]"])));
    assert!(control_entry_mood_cost_fill(&entry("丙", &["control_mp_cost&faction[000]"])));
    assert!(!control_entry_mood_cost_fill(&entry("丁", &["control_mp_cost[000]", "control_mp_bd[010]"])));
    // Layered fill refuses efficiency injectors.
    assert!(!control_entry_layered_fill(&entry("戊", &["control_mp_psk[000]", "control_bd_spd[000]"])));
    assert!(control_entry_layered_fill(&entry("己", &["control_mp_lonely[000]"])));
}

#[test]
fn efficiency_fill_weights() {
    let e = entry(
        "甲",
        &[
            "control_tra_spd[000]",
            "control_token_prod_spd[000]",
            "control_prod_tra_spd[000]",
            "control_hire_spd&bd[000]",
            "control_mp_cost[000]",
        ],
    );
    assert_eq!(control_efficiency_fill_sort_weight(&e), 250);
    assert_eq!(control_efficiency_fill_sort_weight(&entry("乙", &[])), 0);
}

#[test]
fn layered_fill_scores_rank_loose_pieces_over_mood() {
    let op = |name: &str, buffs: &[&str]| ControlOperator {
        name: name.to_string(),
        elite: 2,
        buff_ids: buffs.iter().map(|b| b.to_string()).collect(),
        tags: Vec::new(),
    };
    let table = SkillTable {
        skills: vec![
            Skill { id: "control_mp_cost[003]".to_string(), facility: "control".to_string(), atoms: Vec::new() },
            Skill {
                id: "control_mp_cost&faction[000]".to_string(),
                facility: "control".to_string(),
                atoms: Vec::new(),
            },
        ],
    };
    let operators = vec![
        op("甲", &["control_tra_limit&spd[000]", "control_mp_cost[003]"]),
        op("乙", &["control_dorm_rec2[000]", "control_mp_cost&faction[000]", "unknown[000]"]),
    ];
    let scores = control_layered_fill_scores(&operators, &table);
    assert_eq!(scores.loose_piece, 8);
    assert_eq!(scores.mood, 7);
    assert_eq!(scores.clue, 0);
    assert_eq!(scores.layered_sort_bonus(), 80700);
    let lone = control_layered_fill_scores(&vec![op("丙", &["control_hire_spd&bd[000]"])], &table);
    assert!(lone.layered_sort_bonus() < scores.layered_sort_bonus());
    assert_eq!(lone.loose_piece, 1);
}
