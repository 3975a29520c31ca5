use chrono::{DateTime, Utc};
use worklog::db::task::{
    list_done_tasks, list_open_tasks, restart_doing_timers, status_update, stop_all_timers,
    top_sort_order, Priority, Task, TaskSort, TaskStatus, TaskTimer,
};

fn task(id: i64, title: &str, priority: Priority, created_at: i64) -> Task {
    Task {
        id,
        project_id: 1,
        title: title.to_string(),
        status: TaskStatus::Todo,
        priority,
        created_at,
        completed_at: None,
        completed_on: None,
        started_at: None,
        spent_secs: 0,
        sort_order: -id,
        details: String::new(),
        project_code: "AAA-001".to_string(),
    }
}

fn ids(tasks: &[Task], order: &[usize]) -> Vec<i64> {
    order.iter().map(|&i| tasks[i].id).collect()
}

fn secs(s: &str) -> i64 {
    s.parse::<DateTime<Utc>>().unwrap().timestamp()
}

fn idle_timer() -> TaskTimer {
    TaskTimer { started_at: None, spent_secs: 0, max_stretch_secs: 0 }
}

#[test]
fn task_timer_accumulates_across_pauses() {
    let mut t = idle_timer();
    let t0 = secs("2026-07-04T09:00:00Z");
    let at = |mins: i64| t0 + mins * 60;

    // stop without start is a no-op
    t.stop(at(1));
    assert_eq!(t.totals().0, 0);

    t.start(t0);
    // starting again while running must not reset the stretch
    t.start(at(5));
    t.stop(at(10));
    assert_eq!(t.totals().0, 600);

    // a second stretch accumulates
    t.start(at(60));
    t.stop(at(75));
    assert_eq!(t.totals().0, 1500);

    // stopping twice doesn't double-count
    t.stop(at(90));
    assert_eq!(t.totals().0, 1500);

    // longest single stretch is remembered (10 min, then 15 min)
    assert_eq!(t.totals().1, 900);

    // once logged, both counters restart from zero
    t.reset_spent();
    assert_eq!(t.totals(), (0, 0));
}

#[test]
fn timers_bank_on_shutdown_and_resume_for_doing() {
    let t0 = secs("2026-07-04T09:00:00Z");
    let at = |mins: i64| t0 + mins * 60;
    // [doing, todo]
    let statuses = vec![TaskStatus::Doing, TaskStatus::Todo];
    let mut timers = vec![idle_timer(), idle_timer()];

    timers[0].start(t0);
    stop_all_timers(&mut timers, at(30)); // app exit
    assert_eq!(timers[0].totals().0, 1800);

    // next launch: only the doing task resumes; the overnight gap
    // between stop and restart is not counted
    restart_doing_timers(&mut timers, &statuses, at(600));
    assert_eq!(timers[0].started_at, Some(at(600)));
    assert_eq!(timers[1].started_at, None);
    let mut d = task(1, "doing", Priority::Normal, 1);
    d.status = TaskStatus::Doing;
    d.started_at = timers[0].started_at;
    d.spent_secs = timers[0].spent_secs;
    assert_eq!(d.tracked_secs(at(660)), 1800 + 3600);
}

#[test]
fn priority_orders_within_status() {
    let mut tasks = vec![
        task(1, "low", Priority::Low, 1),
        task(2, "normal", Priority::Normal, 2),
        task(3, "high", Priority::High, 3),
        task(4, "doing low", Priority::Low, 4),
    ];
    // a doing task still outranks a high-priority todo
    tasks[3].status = TaskStatus::Doing;
    let order = list_open_tasks(&tasks, TaskSort::Auto);
    assert_eq!(ids(&tasks, &order), vec![4, 3, 2, 1]);

    // bump `low` to high: both high-priority todos now outrank `normal`,
    // newest-first between them
    tasks[0].priority = Priority::High;
    let order = list_open_tasks(&tasks, TaskSort::Auto);
    assert_eq!(ids(&tasks, &order), vec![4, 3, 1, 2]);
}

#[test]
fn manual_order_and_new_tasks_on_top() {
    let mut tasks: Vec<Task> = Vec::new();
    for (id, title, p) in [(1, "a", Priority::Normal), (2, "b", Priority::High), (3, "c", Priority::Low)] {
        let orders: Vec<i64> = tasks.iter().map(|t| t.sort_order).collect();
        let mut t = task(id, title, p, id);
        t.sort_order = top_sort_order(&orders);
        tasks.push(t);
    }
    // newest insert lands on top of the manual order, priority ignored
    let order = list_open_tasks(&tasks, TaskSort::Manual);
    assert_eq!(ids(&tasks, &order), vec![3, 2, 1]);

    // persist an arbitrary drag result and read it back
    for (pos, id) in [1i64, 3, 2].iter().enumerate() {
        tasks.iter_mut().find(|t| t.id == *id).unwrap().sort_order = pos as i64;
    }
    let order = list_open_tasks(&tasks, TaskSort::Manual);
    assert_eq!(ids(&tasks, &order), vec![1, 3, 2]);

    // auto sort is unaffected by manual order
    let order = list_open_tasks(&tasks, TaskSort::Auto);
    assert_eq!(ids(&tasks, &order), vec![2, 1, 3]); // high, normal, low
}

#[test]
fn done_tasks_filter_by_date_and_search() {
    let mut old = task(1, "fix api endpoint", Priority::Normal, 1);
    let mut recent = task(2, "update api docs", Priority::Normal, 2);
    let mut other = task(3, "review design", Priority::Normal, 3);
    recent.project_code = "BBB-002".to_string();
    other.project_code = "BBB-002".to_string();
    let now = secs("2026-07-04T09:00:00Z");
    for (i, t) in [&mut old, &mut recent, &mut other].into_iter().enumerate() {
        let (status, at) = status_update(TaskStatus::Done, now + i as i64);
        t.status = status;
        t.completed_at = at;
        t.completed_on = Some(739_801); // 2026-07-04
    }
    // backdate one completion well past any range window
    old.completed_at = Some(secs("2020-01-15T12:00:00+00:00"));
    old.completed_on = Some(737_439);
    let tasks = vec![old, recent, other];
    let (old, recent) = (1, 2);

    // no filters: everything, newest completion first
    assert_eq!(list_done_tasks(&tasks, 10, None, "").len(), 3);
    assert_eq!(*ids(&tasks, &list_done_tasks(&tasks, 10, None, "")).last().unwrap(), old);

    // date range excludes the backdated task
    let since = Some(739_617); // 2026-01-01
    assert_eq!(ids(&tasks, &list_done_tasks(&tasks, 10, since, "")).len(), 2);

    // search: words match title or project code, any order
    assert_eq!(ids(&tasks, &list_done_tasks(&tasks, 10, None, "api")), vec![recent, old]);
    assert_eq!(ids(&tasks, &list_done_tasks(&tasks, 10, None, "api BBB")), vec![recent]);
    assert_eq!(ids(&tasks, &list_done_tasks(&tasks, 10, None, "API")).len(), 2); // case-insensitive
    assert!(list_done_tasks(&tasks, 10, None, "nope").is_empty());

    // both combined
    assert_eq!(ids(&tasks, &list_done_tasks(&tasks, 10, since, "api")), vec![recent]);
}

#[test]
fn task_details_roundtrip_and_search() {
    let mut tasks = vec![task(1, "titled", Priority::Normal, 1)];
    let open = list_open_tasks(&tasks, TaskSort::Auto);
    assert_eq!(tasks[open[0]].details, "");

    tasks[0].details = "## plan\nwatch the **edge case**".to_string();
    let open = list_open_tasks(&tasks, TaskSort::Auto);
    assert_eq!(tasks[open[0]].details, "## plan\nwatch the **edge case**");

    // the completed-section search also looks inside the notes
    let (status, at) = status_update(TaskStatus::Done, 10);
    tasks[0].status = status;
    tasks[0].completed_at = at;
    assert_eq!(list_done_tasks(&tasks, 10, None, "edge case").len(), 1);
    assert!(list_done_tasks(&tasks, 10, None, "unrelated").is_empty());
}

#[test]
fn task_lifecycle_and_sorting() {
    let mut tasks = vec![
        task(1, "older todo", Priority::Normal, 1),
        task(2, "newer doing", Priority::Normal, 2),
    ];
    let (older, newer) = (1, 2);
    tasks[1].status = status_update(TaskStatus::Doing, 5).0;

    tasks[0].title = "older todo, refined".to_string();
    let open = list_open_tasks(&tasks, TaskSort::Auto);
    assert_eq!(tasks[*open.iter().find(|&&i| tasks[i].id == older).unwrap()].title, "older todo, refined");

    let open = list_open_tasks(&tasks, TaskSort::Auto);
    assert_eq!(open.len(), 2);
    // doing sorts above todo regardless of age
    assert_eq!(tasks[open[0]].id, newer);
    assert_eq!(tasks[open[0]].status, TaskStatus::Doing);

    let (status, at) = status_update(TaskStatus::Done, 100);
    tasks[0].status = status;
    tasks[0].completed_at = at;
    let done = list_done_tasks(&tasks, 10, None, "");
    assert_eq!(done.len(), 1);
    assert!(tasks[done[0]].completed_at.is_some());

    // reopening clears completed_at
    let (status, at) = status_update(TaskStatus::Todo, 200);
    tasks[0].status = status;
    tasks[0].completed_at = at;
    assert!(list_done_tasks(&tasks, 10, None, "").is_empty());
    let reopened = list_open_tasks(&tasks, TaskSort::Auto);
    assert!(reopened.iter().all(|&i| tasks[i].completed_at.is_none()));
}

#[test]
fn done_list_respects_its_limit_and_skips_open_tasks() {
    let mut tasks: Vec<Task> = (1..=5).map(|i| task(i, "t", Priority::Normal, i)).collect();
    for t in tasks.iter_mut().take(4) {
        t.status = TaskStatus::Done;
        t.completed_at = Some(100 + t.id);
    }
    assert_eq!(ids(&tasks, &list_done_tasks(&tasks, 2, None, "")), vec![4, 3]);
    assert_eq!(list_done_tasks(&tasks, 10, None, "").len(), 4);
}

#[test]
fn done_tasks_leave_the_open_list() {
    let mut tasks = vec![task(1, "a", Priority::Normal, 1), task(2, "b", Priority::Normal, 2)];
    tasks[0].status = TaskStatus::Done;
    assert_eq!(ids(&tasks, &list_open_tasks(&tasks, TaskSort::Auto)), vec![2]);
}

#[test]
fn status_update_stamps_completion_only_when_done() {
    assert_eq!(status_update(TaskStatus::Done, 42), (TaskStatus::Done, Some(42)));
    assert_eq!(status_update(TaskStatus::Todo, 42), (TaskStatus::Todo, None));
    assert_eq!(status_update(TaskStatus::Doing, 42), (TaskStatus::Doing, None));
}

#[test]
fn top_sort_order_goes_above_everything() {
    assert_eq!(top_sort_order(&vec![]), -1);
    assert_eq!(top_sort_order(&vec![3, -7, 2]), -8);
}

#[test]
fn statuses_and_priorities_read_back() {
    for s in [TaskStatus::Todo, TaskStatus::Doing, TaskStatus::Done] {
        assert_eq!(TaskStatus::parse(s.as_str()), s);
    }
    assert_eq!(TaskStatus::parse("weird"), TaskStatus::Todo);
    for p in [Priority::Low, Priority::Normal, Priority::High] {
        assert_eq!(Priority::from_i64(p.as_i64()), p);
        assert_ne!(p.cycled(), p);
        assert_eq!(p.cycled().cycled().cycled(), p);
    }
    assert_eq!(Priority::from_i64(7), Priority::Normal);
    assert_eq!(Priority::Normal.cycled(), Priority::High);
    assert_eq!(Priority::High.cycled(), Priority::Low);
    assert_eq!(Priority::High.label(), "high");
}

#[test]
fn tracked_time_never_counts_backwards() {
    let mut t = task(1, "t", Priority::Normal, 1);
    t.spent_secs = 100;
    t.started_at = Some(1000);
    assert_eq!(t.tracked_secs(900), 100);
    assert_eq!(t.tracked_secs(1060), 160);
    t.started_at = None;
    assert_eq!(t.tracked_secs(5000), 100);
}
