use std::collections::HashMap;

use ffxiv_tools::ex::exd_map::Language;
use ffxiv_tools::name_compare::{display_result, is_displayable, merge_names, AppState, Msg};

#[test]
fn update_asks_to_display_then_stores_data() {
    let mut app = AppState::create();
    assert!(app.data.is_none());
    assert_eq!(app.update(Msg::OnDisplay("classjob")), (true, Some("classjob")));
    assert!(app.data.is_none());
    let mut data = HashMap::new();
    data.insert(1u32, vec!["Gladiator".to_string()]);
    assert_eq!(app.update(Msg::OnDataReady(data)), (true, None));
    assert_eq!(app.data.as_ref().unwrap()[&1], vec!["Gladiator".to_string()]);
}

#[test]
fn merge_appends_names_per_row() {
    let mut result: HashMap<u32, Vec<String>> = HashMap::new();
    result.insert(1, vec!["a".to_string()]);
    merge_names(
        &mut result,
        vec![(1, vec!["b".to_string(), "c".to_string()]), (2, vec!["x".to_string()]), (1, vec!["d".to_string()])],
    );
    assert_eq!(result[&1], vec!["a", "b", "c", "d"]);
    assert_eq!(result[&2], vec!["x"]);
    assert_eq!(result.len(), 2);
}

#[test]
fn merge_of_nothing_changes_nothing() {
    let mut result: HashMap<u32, Vec<String>> = HashMap::new();
    result.insert(3, vec!["z".to_string()]);
    merge_names(&mut result, Vec::new());
    assert_eq!(result[&3], vec!["z"]);
    assert_eq!(result.len(), 1);
}

#[test]
fn only_the_class_job_sheet_is_displayable() {
    assert!(is_displayable("classjob"));
    assert!(!is_displayable("item"));
    assert!(!is_displayable("classjob "));
}

#[test]
fn class_job_names_come_from_three_regions() {
    let regions = display_result("classjob");
    assert_eq!(regions.len(), 3);
    assert_eq!(regions[0].0, "global_525");
    assert_eq!(regions[0].1, vec![Language::Japanese, Language::English, Language::Deutsch, Language::French]);
    assert_eq!(regions[1].0, "chn_511");
    assert_eq!(regions[1].1, vec![Language::ChineseSimplified]);
    assert_eq!(regions[2].0, "kor_510");
    assert_eq!(regions[2].1, vec![Language::Korean]);
}
