use worklog::db::project::{Project, ProjectStatus};
use worklog::db::task::{Priority, Task, TaskSort, TaskStatus};
use worklog::session::{
    search_query, search_snippet, search_status_word, EntryForm, PendingLog,
    done_empty_message, editor_selection, project_sections, row_buttons, section_starts, status_section_label,
    task_hover, RowButton,
    active_first, active_still_doing, bridge_title, chip_title, default_project, integrity_problem,
    plan_task_action, plan_undo_complete, reorder_ids, sort_setting, startup_prefs, stretch_is_suspect,
    vacuum_due, Effect, FilterRange, PendingKind, ProjectForm, TaskAction, TaskDetails, LONG_STRETCH_SECS,
};

fn project(id: i64, code: &str, status: ProjectStatus) -> Project {
    Project { id, code: code.to_string(), name: "n".to_string(), client: None, status }
}

#[test]
fn ranges_label_and_reach_back() {
    let labels: Vec<&str> = FilterRange::all().iter().map(|r| r.label()).collect();
    assert_eq!(labels, vec!["last 7 days", "last 30 days", "last 90 days", "all"]);
    assert_eq!(FilterRange::Days7.since(1000), Some(993));
    assert_eq!(FilterRange::Days90.since(1000), Some(910));
    assert_eq!(FilterRange::All.since(1000), None);
}

#[test]
fn dragging_moves_only_the_dragged_task() {
    let ids = vec![1, 2, 3, 4];
    assert_eq!(reorder_ids(&ids, 4, 2, true), Some(vec![1, 4, 2, 3]));
    assert_eq!(reorder_ids(&ids, 1, 3, false), Some(vec![2, 3, 1, 4]));
    assert_eq!(reorder_ids(&ids, 2, 2, true), None);
    assert_eq!(reorder_ids(&ids, 9, 2, true), None);
    assert_eq!(reorder_ids(&ids, 2, 9, true), None);
}

#[test]
fn active_task_jumps_to_the_top() {
    let ids = vec![5, 6, 7, 8];
    assert_eq!(active_first(&ids, Some(7)), vec![2, 0, 1, 3]);
    assert_eq!(active_first(&ids, None), vec![0, 1, 2, 3]);
    assert_eq!(active_first(&ids, Some(99)), vec![0, 1, 2, 3]);
}

#[test]
fn active_task_survives_only_while_in_progress() {
    let ids = vec![1, 2];
    let st = vec![TaskStatus::Doing, TaskStatus::Todo];
    assert!(active_still_doing(&ids, &st, 1));
    assert!(!active_still_doing(&ids, &st, 2));
    assert!(!active_still_doing(&ids, &st, 3));
}

#[test]
fn capture_form_starts_on_the_last_active_project() {
    let ps = vec![
        project(1, "OLD", ProjectStatus::Archived),
        project(2, "AAA", ProjectStatus::Active),
        project(3, "BBB", ProjectStatus::Active),
    ];
    assert_eq!(default_project(&ps, Some(3)), Some(3));
    assert_eq!(default_project(&ps, Some(1)), Some(2)); // archived: first active instead
    assert_eq!(default_project(&ps, None), Some(2));
    assert_eq!(default_project(&ps[..1].to_vec(), Some(1)), None);
}

#[test]
fn chip_titles_are_cut_at_forty() {
    let long: String = std::iter::repeat('é').take(41).collect();
    let cut = chip_title(&long);
    assert_eq!(cut.chars().count(), 40);
    assert!(cut.ends_with('…'));
    let exact: String = std::iter::repeat('x').take(40).collect();
    assert_eq!(chip_title(&exact), exact);
}

#[test]
fn bridge_warns_on_long_stretches() {
    assert_eq!(LONG_STRETCH_SECS, 5 * 3600);
    assert!(stretch_is_suspect(5 * 3600));
    assert!(!stretch_is_suspect(5 * 3600 - 1));
    let k = PendingKind::Completed { prev_status: TaskStatus::Doing, was_active: true };
    assert_eq!(bridge_title(k, "ship it"), "Done: “ship it” — log the time?");
    assert_eq!(bridge_title(PendingKind::Midway, "ship it"), "“ship it” — log the time so far? (stays open)");
}

#[test]
fn notes_window_opens_in_the_right_mode() {
    let mut t = Task {
        id: 3,
        project_id: 1,
        title: "titled".to_string(),
        status: TaskStatus::Todo,
        priority: Priority::Normal,
        created_at: 0,
        completed_at: None,
        completed_on: None,
        started_at: None,
        spent_secs: 0,
        sort_order: 0,
        details: "  \n".to_string(),
        project_code: "AAA".to_string(),
    };
    let d = TaskDetails::for_task(&t);
    assert!(!d.preview);
    assert!(!d.unsaved());
    assert!(!d.writes_on(true, true));
    t.details = "## plan".to_string();
    let mut d = TaskDetails::for_task(&t);
    assert!(d.preview);
    assert_eq!(d.task_title, "titled");
    d.text.push_str("\nmore");
    assert!(d.unsaved());
    assert!(d.writes_on(false, false));
    assert!(!d.writes_on(false, true));
    let f = ProjectForm::default();
    assert!(f.id.is_none() && f.code.is_empty());
}

#[test]
fn completing_and_cancelling_restore_the_task() {
    let done = plan_task_action(TaskAction::Complete { id: 4, status: TaskStatus::Doing }, Some(4));
    assert!(matches!(done[0], Effect::SetStatus(4, TaskStatus::Done)));
    assert!(matches!(done[1], Effect::StopTimer(4)));
    assert!(matches!(done[2], Effect::SetActive(None)));
    let kind = match done[3] {
        Effect::OpenBridge(4, k) => k,
        _ => panic!("bridge expected"),
    };
    assert_eq!(kind, PendingKind::Completed { prev_status: TaskStatus::Doing, was_active: true });
    let undo = plan_undo_complete(4, kind);
    assert_eq!(undo.len(), 4);
    assert!(matches!(undo[0], Effect::SetStatus(4, TaskStatus::Doing)));
    assert!(matches!(undo[1], Effect::StartTimer(4)));
    assert!(matches!(undo[2], Effect::Refresh));
    assert!(matches!(undo[3], Effect::SetActive(Some(4))));
    assert!(plan_undo_complete(4, PendingKind::Midway).is_empty());
}

#[test]
fn pausing_the_active_task_deactivates_it() {
    let e = plan_task_action(TaskAction::SetStatus(2, TaskStatus::Todo), Some(2));
    assert_eq!(e.len(), 4);
    assert!(matches!(e[1], Effect::SetActive(None)));
    assert!(matches!(e[2], Effect::StopTimer(2)));
    let e = plan_task_action(TaskAction::SetStatus(2, TaskStatus::Doing), Some(2));
    assert_eq!(e.len(), 2);
    let e = plan_task_action(TaskAction::Activate(5), None);
    assert!(matches!(e[3], Effect::SetActive(Some(5))));
    let e = plan_task_action(TaskAction::Rename(5, "new".to_string()), None);
    match &e[0] {
        Effect::Rename(5, t) => assert_eq!(t, "new"),
        _ => panic!("rename expected"),
    }
}

#[test]
fn settings_restore_preferences() {
    let p = startup_prefs(Some("1"), None, Some("0"), Some("manual"));
    assert!(p.group_tasks && !p.show_notes_panel && !p.pdf_include_notes);
    assert_eq!(p.task_sort, TaskSort::Manual);
    let p = startup_prefs(None, Some("1"), None, Some("auto"));
    assert!(!p.group_tasks && p.show_notes_panel && p.pdf_include_notes);
    assert_eq!(p.task_sort, TaskSort::Auto);
    assert_eq!(sort_setting(TaskSort::Manual), "manual");
    assert!(vacuum_due(None, "2026-07"));
    assert!(!vacuum_due(Some("2026-07"), "2026-07"));
    assert_eq!(integrity_problem("ok".to_string()), None);
    assert_eq!(integrity_problem("bad page".to_string()), Some("bad page".to_string()));
}

#[test]
fn grouped_list_sections_by_code() {
    let codes: Vec<String> = ["BBB", "AAA", "BBB", "CCC", "AAA"].iter().map(|s| s.to_string()).collect();
    let secs = project_sections(&codes);
    let got: Vec<(String, Vec<usize>)> = secs;
    assert_eq!(
        got,
        vec![
            ("AAA".to_string(), vec![1, 4]),
            ("BBB".to_string(), vec![0, 2]),
            ("CCC".to_string(), vec![3]),
        ]
    );
    assert!(project_sections(&Vec::new()).is_empty());
}

#[test]
fn list_subheaders_and_row_controls() {
    assert_eq!(section_starts(&vec![5, 5, 4, 4, 5]), vec![true, false, true, false, true]);
    assert_eq!(status_section_label(TaskStatus::Doing), "In progress");
    assert_eq!(status_section_label(TaskStatus::Todo), "To do");
    assert_eq!(done_empty_message("", FilterRange::All), "Nothing completed yet.");
    assert_eq!(done_empty_message(" api ", FilterRange::All), "No match.");
    assert_eq!(done_empty_message("", FilterRange::Days30), "No match.");
    assert_eq!(row_buttons(TaskStatus::Todo, false), vec![RowButton::Start]);
    assert_eq!(row_buttons(TaskStatus::Doing, true), vec![RowButton::Pause, RowButton::LogSoFar]);
    assert_eq!(row_buttons(TaskStatus::Doing, false), vec![RowButton::Pause, RowButton::LogSoFar, RowButton::Focus]);
    assert!(row_buttons(TaskStatus::Done, false).is_empty());
    assert_eq!(task_hover("2026-07-04", 0), "added 2026-07-04\ndouble-click to edit");
    assert_eq!(task_hover("2026-07-04", 3900), "added 2026-07-04\n⏱ 1 h 05 tracked\ndouble-click to edit");
    assert_eq!(editor_selection(Some((9, 3)), 20), (3, 9));
    assert_eq!(editor_selection(None, 20), (20, 20));
}

#[test]
fn project_form_trims_and_validates() {
    let p = Project { id: 7, code: "AAA".to_string(), name: "Alpha".to_string(), client: Some("ACME".to_string()), status: ProjectStatus::Active };
    let f = ProjectForm::for_project(&p);
    assert_eq!(f.id, Some(7));
    assert_eq!(f.client, "ACME");
    assert!(f.is_valid());
    let blank = ProjectForm { id: None, code: "  ".to_string(), name: "x".to_string(), client: " ".to_string() };
    assert!(!blank.is_valid());
    let d = ProjectForm { id: None, code: " BBB ".to_string(), name: " Beta ".to_string(), client: "  ".to_string() }.draft();
    assert_eq!((d.code.as_str(), d.name.as_str(), d.client), ("BBB", "Beta", None));
}

#[test]
fn maintenance_check_and_monthly_vacuum() {
    assert_eq!(integrity_problem("ok".to_string()), None);
    let mut last: Option<String> = None;
    let mut vacuum_monthly = |this_month: &str| {
        if !vacuum_due(last.as_deref(), this_month) {
            return false;
        }
        last = Some(this_month.to_string());
        true
    };
    assert!(vacuum_monthly("2026-07")); // first run this month
    assert!(!vacuum_monthly("2026-07")); // second is a no-op
}

#[test]
fn form_validation() {
    // hours text "2" reads as hours
    let mut f = EntryForm::new(Some(1), 739_801);
    f.hours_text = "2".to_string();
    assert!(!f.is_valid(true)); // no description
    f.description = "did things".to_string();
    assert!(f.is_valid(true));
    f.project_id = None;
    assert!(!f.is_valid(true));
    f.project_id = Some(1);
    assert!(!f.is_valid(false)); // hours that do not read
    f.description = "   ".to_string();
    assert!(!f.is_valid(true));
}

#[test]
fn completing_prefills_the_bridge_form() {
    let task = Task {
        id: 7,
        project_id: 3,
        title: "wire the panel".to_string(),
        status: TaskStatus::Doing,
        priority: Priority::Normal,
        created_at: 1,
        completed_at: None,
        completed_on: None,
        started_at: None,
        spent_secs: 5400,
        sort_order: 0,
        details: String::new(),
        project_code: "AAA-001".to_string(),
    };
    let kind = PendingKind::Completed { prev_status: TaskStatus::Doing, was_active: true };
    let p = PendingLog::open(&task, kind, (5400, 3600), 739_801);
    assert_eq!(p.task_id, 7);
    assert_eq!(p.task_title, "wire the panel");
    assert_eq!((p.tracked_secs, p.longest_stretch_secs), (5400, 3600));
    assert_eq!(p.kind, kind);
    assert_eq!(p.form.project_id, Some(3));
    assert_eq!(p.form.description, "wire the panel");
    assert_eq!(p.form.task_id, Some(7));
    assert_eq!(p.form.hours_text, "");
    assert_eq!(p.form.work_date, 739_801);
    assert!(!p.form.is_dev);
}

#[test]
fn global_search_needs_two_characters_and_cuts_long_lines() {
    assert_eq!(search_query("  a "), None);
    assert_eq!(search_query("  ab "), Some("ab".to_string()));
    assert_eq!(search_status_word(TaskStatus::Doing), "in progress");
    assert_eq!(search_status_word(TaskStatus::Todo), "to-do");
    assert_eq!(search_status_word(TaskStatus::Done), "done");
    let long: String = "x".repeat(81);
    let cut = search_snippet(&long);
    assert_eq!(cut.chars().count(), 80);
    assert!(cut.ends_with('…'));
    assert_eq!(search_snippet(&"y".repeat(80)), "y".repeat(80));
}
