use chrono::{Datelike, NaiveDate};
use worklog::db::log_entry::{log_entries_in_range, EntryRecord};
use worklog::report::{
    byline, csv_row, day_slots, fmt_duration, group_runs, join_texts, notes_plan, NotesChoice,
};

#[test]
fn durations_round_to_the_minute() {
    assert_eq!(fmt_duration(0), "less than a minute");
    assert_eq!(fmt_duration(29), "less than a minute");
    assert_eq!(fmt_duration(30), "1 min");
    assert_eq!(fmt_duration(45 * 60), "45 min");
    assert_eq!(fmt_duration(3600), "1 h 00");
    assert_eq!(fmt_duration(2 * 3600 + 5 * 60), "2 h 05");
    assert_eq!(fmt_duration(2 * 3600 + 5 * 60 + 31), "2 h 06");
    assert_eq!(fmt_duration(10 * 3600 + 45 * 60), "10 h 45");
}

#[test]
fn negative_durations_count_toward_zero() {
    assert_eq!(fmt_duration(-100), "-1 min");
    assert_eq!(fmt_duration(-7200), "-1 h -59");
}

#[test]
fn csv_fields_are_quoted_only_when_needed() {
    assert_eq!(csv_row(&["2026-07-01", "AAA-001", "Alpha", "2.5", "yes", "PLC logic, v2"]),
        "2026-07-01,AAA-001,Alpha,2.5,yes,\"PLC logic, v2\"\n");
    // comma in description gets quoted, quotes get doubled
    let line = csv_row(&["2026-07-02", "BBB-002", "Beta", "4", "no", "site \"visit\""]);
    assert!(line.contains("\"site \"\"visit\"\"\""));
    assert_eq!(csv_row(&["two\nlines"]), "\"two\nlines\"\n");
    assert_eq!(csv_row(&[]), "\n");
    assert_eq!(csv_row(&["", ""]), ",\n");
}

#[test]
fn runs_group_consecutive_projects() {
    let codes: Vec<String> = ["AAA-001", "AAA-001", "BBB-002", "AAA-001"].iter().map(|s| s.to_string()).collect();
    assert_eq!(group_runs(&codes), vec![(0, 2), (2, 3), (3, 4)]);
    assert!(group_runs(&Vec::new()).is_empty());
}

#[test]
fn week_grid_places_entries_by_day() {
    // Mon: Alpha; Wed: Alpha; Thu: Beta; next week: excluded
    let week_start = 739_796; // 2026-06-29
    let dates = vec![739_796, 739_798, 739_799, 739_807];
    let slots = day_slots(&dates, week_start);
    assert_eq!(slots.len(), 7);
    assert_eq!(slots[0], vec![0]);
    assert!(slots[1].is_empty());
    assert_eq!(slots[2], vec![1]);
    assert_eq!(slots[3], vec![2]);
    assert!(slots[4..].iter().all(|s| s.is_empty()));
}

#[test]
fn week_grid_merges_same_day_descriptions() {
    let week_start = 739_796;
    let slots = day_slots(&vec![739_796, 739_796], week_start);
    assert_eq!(slots[0], vec![0, 1]);
    let parts = vec!["morning fix".to_string(), "afternoon docs".to_string()];
    assert_eq!(join_texts(&parts, "; "), "morning fix; afternoon docs");
    assert_eq!(join_texts(&vec!["wired the panel".to_string()], "; "), "wired the panel");
    assert_eq!(join_texts(&Vec::new(), "; "), "");
}

#[test]
fn notes_print_once_per_task() {
    let ids = vec![Some(1), None, Some(1), Some(2), Some(3)];
    let has = vec![true, false, true, true, false];
    assert_eq!(
        notes_plan(true, &ids, &has),
        vec![NotesChoice::Show, NotesChoice::Skip, NotesChoice::ShownAbove, NotesChoice::Show, NotesChoice::Skip]
    );
    assert!(notes_plan(false, &ids, &has).iter().all(|c| *c == NotesChoice::Skip));
}

#[test]
fn byline_names_the_author_when_set() {
    assert_eq!(byline(Some("  Jo Doe "), "2026-07-04"), "Prepared by Jo Doe — generated 2026-07-04");
    assert_eq!(byline(Some("   "), "2026-07-04"), "Generated 2026-07-04");
    assert_eq!(byline(None, "2026-07-04"), "Generated 2026-07-04");
}

fn d(s: &str) -> i32 {
    s.parse::<NaiveDate>().unwrap().num_days_from_ce()
}

/// The week the report tests share: two projects, one entry next week.
fn seeded_rows() -> Vec<EntryRecord> {
    let row = |id: i64, day: &str, project_id: i64, code: &str, desc: &str, is_dev: bool| EntryRecord {
        id,
        work_date: d(day),
        project_id,
        description: desc.to_string(),
        is_dev,
        task_id: None,
        project_code: code.to_string(),
    };
    vec![
        row(1, "2026-06-29", 1, "AAA-001", "wired the panel", false),
        row(2, "2026-07-01", 1, "AAA-001", "PLC logic, v2", true),
        row(3, "2026-07-02", 2, "BBB-002", "site \"visit\"", false),
        row(4, "2026-07-10", 1, "AAA-001", "next week, excluded", true),
    ]
}

#[test]
fn weekly_groups_and_totals() {
    let rows = seeded_rows();
    let week = log_entries_in_range(&rows, d("2026-06-29"), d("2026-07-05"), false);
    let codes: Vec<String> = week.iter().map(|&i| rows[i].project_code.clone()).collect();
    let groups = group_runs(&codes);
    assert_eq!(groups.len(), 2);
    assert_eq!(codes[groups[0].0], "AAA-001");
    assert_eq!(rows[week[groups[0].0]].description, "wired the panel");
    assert!(week.iter().all(|&i| rows[i].description != "next week, excluded"));
}

#[test]
fn weekly_csv_escapes() {
    let rows = seeded_rows();
    let week = log_entries_in_range(&rows, d("2026-06-29"), d("2026-07-05"), false);
    let csv: String = week
        .iter()
        .map(|&i| csv_row(&["2026-07-01", &rows[i].project_code, "Alpha", "1", "no", &rows[i].description]))
        .collect();
    // comma in description gets quoted, quotes get doubled
    assert!(csv.contains("\"PLC logic, v2\""));
    assert!(csv.contains("\"site \"\"visit\"\"\""));
}
