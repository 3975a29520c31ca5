use worklog::db::backup::backups_to_prune;
use worklog::db::project::{list_projects, project_matches, words_match, Project, ProjectStatus};

fn project(id: i64, code: &str, name: &str, client: Option<&str>, status: ProjectStatus) -> Project {
    Project { id, code: code.to_string(), name: name.to_string(), client: client.map(|c| c.to_string()), status }
}

#[test]
fn project_list_puts_archived_last() {
    let ps = vec![
        project(1, "CCC", "c", None, ProjectStatus::Active),
        project(2, "AAA", "a", None, ProjectStatus::Archived),
        project(3, "BBB", "b", None, ProjectStatus::Active),
    ];
    assert_eq!(list_projects(&ps), vec![2, 0, 1]);
}

#[test]
fn project_filter_matches_every_word_somewhere() {
    let p = project(1, "BBB-002", "Beta Rollout", Some("ACME Corp"), ProjectStatus::Active);
    assert!(project_matches(&p, ""));
    assert!(project_matches(&p, "bbb"));
    assert!(project_matches(&p, "rollout acme"));
    assert!(!project_matches(&p, "rollout zeta"));
    let q = project(2, "ÉTÉ", "summer", None, ProjectStatus::Active);
    assert!(project_matches(&q, "été"));
    assert!(!project_matches(&q, "acme"));
}

#[test]
fn labels_and_statuses() {
    let p = project(1, "AAA-001", "Alpha", None, ProjectStatus::Active);
    assert_eq!(p.label(), "AAA-001 — Alpha");
    assert_eq!(ProjectStatus::parse(ProjectStatus::Archived.as_str()), ProjectStatus::Archived);
    assert_eq!(ProjectStatus::parse("active"), ProjectStatus::Active);
    assert_eq!(ProjectStatus::parse("whatever"), ProjectStatus::Active);
}

#[test]
fn only_the_newest_snapshots_are_kept() {
    let names: Vec<String> = [
        "worklog-2020-01-03.db",
        "notes.txt",
        "worklog-2020-01-01.db",
        "worklog-2020-01-02.db",
        "worklog-.db.bak",
    ]
    .iter()
    .map(|s| s.to_string())
    .collect();
    assert_eq!(backups_to_prune(&names, 1), vec![2, 3]);
    assert_eq!(backups_to_prune(&names, 2), vec![2]);
    assert!(backups_to_prune(&names, 10).is_empty());
}

#[test]
fn backup_snapshots_once_a_day_and_prunes() {
    // pruning keeps only the newest N: three seeded older snapshots, today's
    // fresh one, and the sidecars an opened copy leaves behind
    let names: Vec<String> = [
        "worklog-2020-01-02.db",
        "worklog-2026-07-04.db",
        "worklog-2020-01-01.db-wal",
        "worklog-2020-01-01.db",
        "worklog-2020-01-03.db",
    ]
    .iter()
    .map(|s| s.to_string())
    .collect();
    let pruned = backups_to_prune(&names, 2);
    let mut kept: Vec<&String> = names
        .iter()
        .enumerate()
        .filter(|(i, n)| !pruned.contains(i) && n.ends_with(".db"))
        .map(|(_, n)| n)
        .collect();
    kept.sort();
    assert_eq!(kept.len(), 2);
    assert_eq!(kept[1], "worklog-2026-07-04.db");
}

#[test]
fn filters_combine_word_by_word() {
    let p = project(1, "BBB-002", "Beta", Some("ACME"), ProjectStatus::Active);
    assert!(project_matches(&p, ""));
    assert!(project_matches(&p, "acme"));
    assert!(project_matches(&p, "beta"));
    assert!(project_matches(&p, "acme beta") == (project_matches(&p, "acme") && project_matches(&p, "beta")));
    assert!(!project_matches(&p, "acme gamma"));
    assert_eq!(project_matches(&p, "Acme"), project_matches(&p, "ACME"));
}

#[test]
fn words_match_looks_in_every_field() {
    let w = |s: &str| s.chars().collect::<Vec<char>>();
    let ws = vec![w("acme"), w("bbb")];
    assert!(words_match(&ws, &w("bbb-002"), &w("beta"), &Some(w("acme corp"))));
    assert!(!words_match(&ws, &w("bbb-002"), &w("beta"), &None));
    assert!(words_match(&vec![], &w(""), &w(""), &None));
}

#[test]
fn filter_case_does_not_matter() {
    let p = project(1, "BBB-002", "Beta", Some("Acme"), ProjectStatus::Active);
    for f in ["acme beta", "bbb", "gamma", "ac me", ""] {
        assert_eq!(project_matches(&p, f), project_matches(&p, &f.to_ascii_uppercase()));
    }
    assert!(project_matches(&p, "ACME BETA"));
}
