use infra_core::layout::{Efficiency, FacilityKind};
use infra_core::combos::{manufacture_search_combos, trade_search_combos};
use infra_core::ranking::{
    combine_split_station_reports, rank_trade_hits, trade_search_must_positions, TradeSearchError, TradeSearchHit,
};
use infra_core::power_assign::{assign_power_stations, power_top};
use infra_core::search::PowerHitRank;
use infra_core::support::{evaluate_meeting, evaluate_office, SupportError};

#[test]
fn combos_are_increasing_tuples_in_lexicographic_order() {
    let all = trade_search_combos(4, 3, &vec![]);
    assert_eq!(all, vec![vec![0, 1, 2], vec![0, 1, 3], vec![0, 2, 3], vec![1, 2, 3]]);
    let with_two = trade_search_combos(4, 3, &vec![2]);
    assert_eq!(with_two, vec![vec![0, 1, 2], vec![0, 2, 3], vec![1, 2, 3]]);
    assert_eq!(trade_search_combos(3, 0, &vec![]), vec![vec![0], vec![1], vec![2]]);
    assert_eq!(trade_search_combos(3, 9, &vec![]).len(), 1);
    assert_eq!(trade_search_combos(2, 3, &vec![]), Vec::<Vec<usize>>::new());
    assert_eq!(manufacture_search_combos(4, 2, Some(3)), vec![vec![0, 3], vec![1, 3], vec![2, 3]]);
}

fn hit(names: &[&str], eff: i64) -> TradeSearchHit {
    TradeSearchHit {
        names: names.iter().map(|n| n.to_string()).collect(),
        gold_names: vec![],
        originium_names: vec![],
        final_efficiency: Efficiency { milli: eff },
        mechanic_equivalent_efficiency: Efficiency { milli: 0 },
        rule_id: None,
    }
}

#[test]
fn ranking_orders_by_efficiency_keeping_ties_in_order() {
    let hits = vec![hit(&["a", "b"], 100), hit(&["c", "d"], 300), hit(&["e", "f"], 100), hit(&["g", "h"], 200)];
    let report = rank_trade_hits(hits, &vec![], &vec![], false, 3, 6).unwrap();
    assert_eq!(report.top_positions, vec![1, 3, 0]);
    assert_eq!(report.best.names, vec!["c", "d"]);
    assert_eq!(report.top[2].names, vec!["a", "b"]);
    assert_eq!(report.evaluated, 4);
    assert_eq!(report.combinations, 6);

    let hits = vec![hit(&["a", "b"], 100), hit(&["c", "d"], 300)];
    let report = rank_trade_hits(hits, &vec![], &vec![], false, 0, 1).unwrap();
    assert!(report.top.is_empty());
    assert_eq!(report.best.names, vec!["c", "d"]);
}

#[test]
fn ranking_filters_must_names_and_forbidden_pairs() {
    let hits = vec![hit(&["a", "b"], 500), hit(&["a", "c"], 400), hit(&["x", "c"], 900)];
    let forbidden = vec![("a".to_string(), "b".to_string())];
    let report = rank_trade_hits(hits, &vec!["a".to_string()], &forbidden, false, 5, 3).unwrap();
    assert_eq!(report.top_positions, vec![1]);
    assert_eq!(report.evaluated, 1);

    let hits = vec![hit(&["a", "b"], 500)];
    let err = rank_trade_hits(hits, &vec![], &forbidden, false, 5, 1).unwrap_err();
    assert_eq!(err, TradeSearchError::NoMatch);
    let err = rank_trade_hits(vec![], &vec![], &vec![], false, 5, 0).unwrap_err();
    assert_eq!(err, TradeSearchError::TooFewOperators);
    let err = rank_trade_hits(vec![], &vec![], &vec![], true, 5, 0).unwrap_err();
    assert_eq!(err, TradeSearchError::NoMatch);
}

#[test]
fn must_positions_and_their_errors() {
    let names: Vec<String> = ["a", "b", "c", "b"].iter().map(|n| n.to_string()).collect();
    let must: Vec<String> = ["b", "b", "a"].iter().map(|n| n.to_string()).collect();
    assert_eq!(trade_search_must_positions(&names, &must, None, 3), Ok(vec![1, 0]));
    let stand_in = "z".to_string();
    assert_eq!(
        trade_search_must_positions(&names, &vec!["z".to_string()], Some(&stand_in), 3),
        Ok(vec![0])
    );
    assert_eq!(
        trade_search_must_positions(&names, &vec!["q".to_string()], None, 3),
        Err(TradeSearchError::MissingMust { name: "q".to_string() })
    );
    assert_eq!(
        trade_search_must_positions(&names[..2].to_vec(), &vec![], None, 3),
        Err(TradeSearchError::PoolTooSmall { capacity: 3 })
    );
    let four: Vec<String> = ["a", "b", "c", "d"].iter().map(|n| n.to_string()).collect();
    assert_eq!(
        trade_search_must_positions(&names, &four, None, 7),
        Err(TradeSearchError::TooManyMust { must: 4, capacity: 3 })
    );
}

#[test]
fn support_evaluators_check_the_room() {
    assert_eq!(evaluate_meeting(FacilityKind::MeetingRoom, 7u32), Ok(7));
    assert_eq!(evaluate_meeting(FacilityKind::Office, 7u32), Err(SupportError::NotMeetingRoom));
    assert_eq!(evaluate_office(FacilityKind::Office, "r"), Ok("r"));
    assert_eq!(evaluate_office(FacilityKind::MeetingRoom, "r"), Err(SupportError::NotOffice));
}

#[test]
fn ranking_of_the_same_hits_is_the_same() {
    let make = || vec![hit(&["a"], 7), hit(&["b"], 9), hit(&["c"], 7), hit(&["d"], 9)];
    let first = rank_trade_hits(make(), &vec![], &vec![], false, 3, 4).unwrap();
    let second = rank_trade_hits(make(), &vec![], &vec![], false, 3, 4).unwrap();
    assert_eq!(first.top_positions, second.top_positions);
    assert_eq!(first.top_positions, vec![1, 3, 0]);
}

#[test]
fn power_stations_take_the_best_free_operator_in_turn() {
    let rank = |name: &str, milli: i64| PowerHitRank { name: name.to_string(), final_efficiency: Efficiency { milli } };
    let hits = vec![rank("Castle-3", 1200), rank("X", 1200), rank("Y", 1000), rank("X", 1100)];
    let (picks, total) = assign_power_stations(&hits, 3);
    assert_eq!(picks, vec![1, 0, 2]);
    assert_eq!(total, 3400);
    let (picks, total) = assign_power_stations(&hits, 5);
    assert_eq!(picks, vec![1, 0, 2]);
    assert_eq!(total, 3400);
    let (picks, total) = assign_power_stations(&hits, 0);
    assert!(picks.is_empty());
    assert_eq!(total, 0);
}

#[test]
fn split_stations_weigh_each_line_by_its_stations() {
    let gold = rank_trade_hits(vec![hit(&["a", "b"], 1500)], &vec![], &vec![], false, 1, 10).unwrap();
    let ori = rank_trade_hits(vec![hit(&["c", "d"], 1200), hit(&["e"], 900)], &vec![], &vec![], false, 1, 20).unwrap();
    let report = combine_split_station_reports(gold, ori, 2, 1);
    assert_eq!(report.best.final_efficiency.milli, 1500 * 2 + 1200);
    assert_eq!(report.best.gold_names, vec!["a", "b"]);
    assert_eq!(report.best.originium_names, vec!["c", "d"]);
    assert!(report.best.names.is_empty());
    assert_eq!(report.top.len(), 1);
    assert_eq!(report.combinations, 30);
    assert_eq!(report.evaluated, 3);
    assert_eq!(report.gold_order_line.unwrap().names, vec!["a", "b"]);
}

#[test]
fn power_top_lists_the_fastest_first_ties_in_order() {
    let rank = |name: &str, milli: i64| PowerHitRank { name: name.to_string(), final_efficiency: Efficiency { milli } };
    let hits = vec![rank("Castle-3", 1200), rank("X", 1200), rank("Y", 1000), rank("X", 1200), rank("A", 1300)];
    assert_eq!(power_top(&hits, 3), vec![4, 1, 3]);
    assert_eq!(power_top(&hits, 9), vec![4, 1, 3, 0, 2]);
    assert!(power_top(&hits, 0).is_empty());
}
