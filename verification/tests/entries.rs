use chrono::{Datelike, NaiveDate};
use worklog::db::log_entry::{
    duplicate_groups, duplicate_groups_folded, find_merge_target, first_same_work, fold_description, list_log_entries, log_entries_in_range,
    plan_entry_save, EntryRecord, SavePlan, JOURNAL_LIMIT,
};

fn entry(id: i64, day: i32, project_id: i64, code: &str, desc: &str, is_dev: bool) -> EntryRecord {
    EntryRecord {
        id,
        work_date: day,
        project_id,
        description: desc.to_string(),
        is_dev,
        task_id: None,
        project_code: code.to_string(),
    }
}

fn d(s: &str) -> i32 {
    s.parse::<NaiveDate>().unwrap().num_days_from_ce()
}

fn descs(rows: &[EntryRecord], order: &[usize]) -> Vec<String> {
    order.iter().map(|&i| rows[i].description.clone()).collect()
}

#[test]
fn range_query_dev_filter_and_order() {
    // 2026-03-02 = 739677, 2026-03-01 = 739676
    let rows = vec![
        entry(1, 739_677, 1, "BBB-002", "b later", true),
        entry(2, 739_676, 1, "BBB-002", "b earlier", true),
        entry(3, 739_676, 2, "AAA-001", "a not dev", false),
    ];
    let order = log_entries_in_range(&rows, 739_617, 739_981, true);
    // dev only, grouped by project code, chronological within project
    assert_eq!(order.len(), 2);
    assert_eq!(descs(&rows, &order), vec!["b earlier", "b later"]);
}

#[test]
fn range_query_orders_by_code_then_day_then_entry() {
    let rows = vec![
        entry(1, 10, 1, "BBB", "b1", false),
        entry(2, 9, 2, "AAA", "a2", false),
        entry(3, 9, 2, "AAA", "a3", false),
        entry(4, 20, 1, "BBB", "out of range", false),
    ];
    let order = log_entries_in_range(&rows, 1, 15, false);
    assert_eq!(descs(&rows, &order), vec!["a2", "a3", "b1"]);
}

#[test]
fn log_entry_crud_and_filters() {
    let (p1, p2) = (1, 2);
    let mut rows = vec![
        entry(1, d("2026-06-29"), p1, "AAA-001", "alpha work", true),
        entry(2, d("2026-06-30"), p2, "BBB-002", "beta work", false),
        entry(3, d("2026-05-01"), p1, "AAA-001", "old work", false),
    ];

    assert_eq!(list_log_entries(&rows, None, None, "").len(), 3);
    assert_eq!(list_log_entries(&rows, Some(p1), None, "").len(), 2);
    assert_eq!(list_log_entries(&rows, None, Some(d("2026-06-01")), "").len(), 2);
    // newest work first
    let all = list_log_entries(&rows, None, None, "");
    assert_eq!(rows[all[0]].work_date, d("2026-06-30"));

    rows[2] = entry(3, d("2026-05-02"), p2, "BBB-002", "moved", true);
    let moved = list_log_entries(&rows, Some(p2), None, "");
    assert_eq!(moved.len(), 2);

    rows.remove(2);
    assert_eq!(list_log_entries(&rows, None, None, "").len(), 2);
}

#[test]
fn log_entry_search_and_daily_total() {
    let (p1, p2) = (1, 2);
    let rows = vec![
        entry(1, d("2026-07-04"), p1, "AAA-001", "fixed authentication bug", true),
        entry(2, d("2026-07-04"), p2, "BBB-002", "wrote auth docs", false),
        entry(3, d("2026-07-03"), p2, "BBB-002", "design review", false),
    ];
    // words match description or project code, any order, case-insensitive
    assert_eq!(list_log_entries(&rows, None, None, "auth").len(), 2);
    assert_eq!(list_log_entries(&rows, None, None, "AUTH bbb").len(), 1);
    assert_eq!(list_log_entries(&rows, None, None, "nope").len(), 0);
    // composes with the other filters
    assert_eq!(list_log_entries(&rows, Some(p1), None, "auth").len(), 1);
    assert_eq!(list_log_entries(&rows, None, Some(d("2026-07-04")), "").len(), 2);
    // newest work first, then newest entry
    assert_eq!(
        descs(&rows, &list_log_entries(&rows, None, None, "")),
        vec!["wrote auth docs", "fixed authentication bug", "design review"]
    );
}

#[test]
fn log_entry_remembers_its_task() {
    let (p, t) = (1, 7);
    let mut rows = vec![
        entry(1, d("2026-07-18"), p, "AAA-001", "from the bridge", false),
        entry(2, d("2026-07-18"), p, "AAA-001", "typed by hand", false),
    ];
    rows[0].task_id = Some(t);
    let entries = list_log_entries(&rows, None, None, "");
    assert_eq!(entries.len(), 2);
    let by_desc = |s: &str| rows[*entries.iter().find(|&&i| rows[i].description == s).unwrap()].task_id;
    assert_eq!(by_desc("from the bridge"), Some(t));
    assert_eq!(by_desc("typed by hand"), None);
}

#[test]
fn annual_export_dev_only() {
    let rows = vec![
        entry(1, d("2026-06-29"), 1, "AAA-001", "wired the panel", false),
        entry(2, d("2026-07-01"), 1, "AAA-001", "PLC logic, v2", true),
        entry(3, d("2026-07-02"), 2, "BBB-002", "site \"visit\"", false),
        entry(4, d("2026-07-10"), 1, "AAA-001", "next week, excluded", true),
    ];
    let year = log_entries_in_range(&rows, d("2026-01-01"), d("2026-12-31"), true);
    assert_eq!(year.len(), 2);
    assert_eq!(rows[year[0]].work_date, d("2026-07-01"));
    assert_eq!(rows[year[0]].project_code, "AAA-001");
    assert_eq!(rows[year[1]].work_date, d("2026-07-10"));
    assert_eq!(rows[year[1]].project_code, "AAA-001");
    assert_eq!(log_entries_in_range(&rows, d("2025-01-01"), d("2025-12-31"), true).len(), 0);
}

#[test]
fn journal_search_takes_wildcards_literally() {
    let rows = vec![
        entry(1, 1, 1, "AAA", "100% done", false),
        entry(2, 1, 1, "AAA", "1000 done", false),
        entry(3, 1, 1, "AAA", "snake_case", false),
        entry(4, 1, 1, "AAA", "snakeXcase", false),
    ];
    assert_eq!(descs(&rows, &list_log_entries(&rows, None, None, "0%")), vec!["100% done"]);
    assert_eq!(descs(&rows, &list_log_entries(&rows, None, None, "e_c")), vec!["snake_case"]);
}

#[test]
fn journal_list_is_capped() {
    let rows: Vec<EntryRecord> = (0..(JOURNAL_LIMIT as i64 + 20)).map(|i| entry(i, 1, 1, "AAA", "x", false)).collect();
    let order = list_log_entries(&rows, None, None, "");
    assert_eq!(order.len(), JOURNAL_LIMIT);
    assert_eq!(rows[order[0]].id, JOURNAL_LIMIT as i64 + 19);
}

#[test]
fn descriptions_fold_case_and_surrounding_space() {
    assert_eq!(fold_description("  Fixed the ÉTÉ bug \n").iter().collect::<String>(), "fixed the été bug");
}

#[test]
fn merge_finds_the_first_entry_of_the_same_work() {
    let mut rows = vec![
        entry(5, 10, 1, "AAA", "Wired the panel", false),
        entry(3, 10, 1, "AAA", "wired the panel  ", false),
        entry(7, 10, 1, "AAA", "wired the panel", true),
        entry(8, 11, 1, "AAA", "wired the panel", false),
    ];
    assert_eq!(find_merge_target(&rows, 10, 1, false, " WIRED THE PANEL"), Some(1));
    assert_eq!(find_merge_target(&rows, 10, 2, false, "wired the panel"), None);
    match plan_entry_save(&rows, 10, 1, "wired the panel", false, Some(9)) {
        SavePlan::Merge { index, task_id } => {
            assert_eq!(index, 1);
            assert_eq!(task_id, Some(9));
        }
        SavePlan::Insert => panic!("expected a merge"),
    }
    rows[1].task_id = Some(4);
    match plan_entry_save(&rows, 10, 1, "wired the panel", false, Some(9)) {
        SavePlan::Merge { task_id, .. } => assert_eq!(task_id, Some(4)),
        SavePlan::Insert => panic!("expected a merge"),
    }
    assert!(matches!(plan_entry_save(&rows, 12, 1, "wired the panel", false, None), SavePlan::Insert));
}

#[test]
fn duplicates_fold_into_the_first_entry() {
    let mut rows = vec![
        entry(1, 10, 1, "AAA", "Review", false),
        entry(2, 10, 1, "AAA", "other", false),
        entry(3, 10, 1, "AAA", " review ", false),
        entry(4, 10, 1, "AAA", "REVIEW", false),
        entry(5, 10, 1, "AAA", "other", true),
        entry(6, 11, 1, "AAA", "other", false),
    ];
    rows[3].task_id = Some(42);
    let groups = duplicate_groups(&rows);
    assert_eq!(groups.len(), 1);
    assert_eq!(groups[0].keeper, 0);
    assert_eq!(groups[0].folded_away, vec![2, 3]);
    assert_eq!(groups[0].task_id, Some(42));
    let none = duplicate_groups(&rows[..2].to_vec());
    assert!(none.is_empty());
}

#[test]
fn same_work_is_found_by_its_folded_text() {
    let rows = vec![
        entry(5, 10, 1, "AAA", "ignored", false),
        entry(3, 10, 1, "AAA", "ignored", false),
        entry(7, 10, 1, "AAA", "ignored", true),
    ];
    let w = |s: &str| s.chars().collect::<Vec<char>>();
    let folds = vec![w("wired"), w("wired"), w("wired")];
    assert_eq!(first_same_work(&rows, &folds, 10, 1, false, &w("wired")), Some(1));
    assert_eq!(first_same_work(&rows, &folds, 10, 1, true, &w("wired")), Some(2));
    assert_eq!(first_same_work(&rows, &folds, 10, 1, false, &w("other")), None);
}

#[test]
fn a_second_cleanup_folds_nothing() {
    let rows = vec![
        entry(1, 10, 1, "AAA", "Review", false),
        entry(2, 10, 1, "AAA", "review ", false),
        entry(3, 10, 1, "AAA", "other", false),
    ];
    let groups = duplicate_groups(&rows);
    assert_eq!(groups.len(), 1);
    let gone: Vec<usize> = groups.iter().flat_map(|g| g.folded_away.clone()).collect();
    let kept: Vec<EntryRecord> =
        rows.iter().enumerate().filter(|(i, _)| !gone.contains(i)).map(|(_, e)| e.clone()).collect();
    assert_eq!(rows.len() - kept.len(), 1);
    assert!(duplicate_groups(&kept).is_empty());
}

#[test]
fn duplicates_are_found_by_their_folded_text() {
    let rows = vec![
        entry(1, 10, 1, "AAA", "A", false),
        entry(2, 10, 1, "AAA", "B", false),
        entry(3, 10, 1, "AAA", "C", false),
    ];
    let w = |s: &str| s.chars().collect::<Vec<char>>();
    let groups = duplicate_groups_folded(&rows, &vec![w("x"), w("y"), w("x")]);
    assert_eq!(groups.len(), 1);
    assert_eq!(groups[0].keeper, 0);
    assert_eq!(groups[0].folded_away, vec![2]);
    assert!(duplicate_groups_folded(&rows, &vec![w("x"), w("y"), w("z")]).is_empty());
}
