use infra_core::text::{
    clone_strings, contains_name, insert_sorted_unique, parse_decimal, push_unique, starts_with, str_eq, str_lt,
    trim_owned,
};
use infra_core::xlsx::{
    column_map, parse_bool_str, parse_u32_str, parse_u8_str, ColumnMap, COL_ELITE, COL_LEVEL, COL_NAME, COL_OWN,
    COL_POTENTIAL, COL_RARITY,
};

#[test]
fn trim_and_prefix_follow_str() {
    assert_eq!(trim_owned("  但书\t"), "但书");
    assert_eq!(trim_owned("\u{3000}巫恋\u{a0} "), "巫恋");
    assert_eq!(trim_owned(" \t "), "");
    assert!(starts_with("abc", ""));
    assert!(starts_with("manu_prod_spd[000]", "manu_"));
    assert!(!starts_with("manu", "manu_"));
}

#[test]
fn decimal_parsing_follows_str_parse() {
    assert_eq!(parse_decimal("90", 255), Some(90));
    assert_eq!(parse_decimal("+7", 255), Some(7));
    assert_eq!(parse_decimal("007", 255), Some(7));
    assert_eq!(parse_decimal("256", 255), None);
    assert_eq!(parse_decimal("", 255), None);
    assert_eq!(parse_decimal("-1", 255), None);
    assert_eq!(parse_decimal("1 ", 255), None);
}

#[test]
fn cell_text_parsing() {
    assert_eq!(parse_u8_str("2"), 2);
    assert_eq!(parse_u8_str("300"), 0);
    assert_eq!(parse_u8_str("二"), 0);
    assert_eq!(parse_u32_str("90"), 90);
    assert_eq!(parse_u32_str("4294967296"), 0);
    assert!(parse_bool_str("是"));
    assert!(parse_bool_str("YES"));
    assert!(parse_bool_str("1"));
    assert!(!parse_bool_str("否"));
    assert!(!parse_bool_str("0"));
    assert!(!parse_bool_str(""));
}

#[test]
fn column_map_finds_required_columns() {
    let labels: Vec<Option<String>> = vec![
        Some(COL_NAME.to_string()),
        None,
        Some(COL_OWN.to_string()),
        Some(COL_RARITY.to_string()),
        Some(COL_LEVEL.to_string()),
        Some(COL_ELITE.to_string()),
        Some(COL_POTENTIAL.to_string()),
        Some(COL_NAME.to_string()),
    ];
    assert_eq!(
        column_map(&labels).unwrap(),
        ColumnMap { name: 7, own: 2, rarity: 3, level: 4, elite: 5, potential: 6 }
    );
}

#[test]
fn column_map_lists_missing_columns_in_order() {
    let labels: Vec<Option<String>> = vec![Some(COL_NAME.to_string()), Some(COL_LEVEL.to_string())];
    let err = column_map(&labels).unwrap_err();
    assert_eq!(err.missing, vec![COL_OWN, COL_RARITY, COL_ELITE, COL_POTENTIAL]);
}

#[test]
fn name_lists() {
    let mut v = vec!["乙".to_string()];
    push_unique(&mut v, "甲".to_string());
    push_unique(&mut v, "乙".to_string());
    assert_eq!(v, vec!["乙".to_string(), "甲".to_string()]);
    assert!(contains_name(&v, "甲"));
    assert!(!contains_name(&v, "丙"));
    assert_eq!(clone_strings(&v), v);
    assert!(str_eq("a", "a"));
    assert!(!str_eq("a", "b"));
    assert!(str_lt("a", "b"));
    assert!(str_lt("ab", "abc"));
    assert!(!str_lt("b", "a"));
    assert!(!str_lt("a", "a"));

    let mut sorted: Vec<String> = Vec::new();
    for n in ["c", "a", "b", "a"] {
        insert_sorted_unique(&mut sorted, n.to_string());
    }
    assert_eq!(sorted, vec!["a".to_string(), "b".to_string(), "c".to_string()]);
}
