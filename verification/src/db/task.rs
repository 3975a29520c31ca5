//! Tasks: status, priority, the stopwatch each task carries, and the
//! orders the open and completed lists take.
use vstd::prelude::*;
use crate::like::{like, like_match};
use crate::order::{Ranked, before, count_true, lemma_listing_len, listing, min_int, select_sorted, stable_order};
use crate::text::{chars_of, split_words, str_is, words};

verus! {

/// Where a task stands.
#[derive(Clone, Copy, PartialEq, Eq, Structural, Debug)]
pub enum TaskStatus {
    Todo,
    Doing,
    Done,
}

/// The stored text of a status.
pub open spec fn task_status_text(s: TaskStatus) -> Seq<char> {
    match s {
        TaskStatus::Todo => "todo"@,
        TaskStatus::Doing => "doing"@,
        TaskStatus::Done => "done"@,
    }
}

/// The status a stored text stands for: unknown text reads as to-do.
pub open spec fn task_status_of(s: Seq<char>) -> TaskStatus {
    if s == "doing"@ {
        TaskStatus::Doing
    } else if s == "done"@ {
        TaskStatus::Done
    } else {
        TaskStatus::Todo
    }
}

impl TaskStatus {
    /// The text stored for this status.
    pub fn as_str(self) -> (s: &'static str)
        ensures
            s@ == task_status_text(self),
    {
        match self {
            TaskStatus::Todo => "todo",
            TaskStatus::Doing => "doing",
            TaskStatus::Done => "done",
        }
    }

    /// The status a stored text stands for.
    pub fn parse(s: &str) -> (r: TaskStatus)
        ensures
            r == task_status_of(s@),
    {
        if str_is(s, "doing") {
            TaskStatus::Doing
        } else if str_is(s, "done") {
            TaskStatus::Done
        } else {
            TaskStatus::Todo
        }
    }
}

/// How the open-task list orders itself.
#[derive(Clone, Copy, PartialEq, Eq, Structural, Debug)]
pub enum TaskSort {
    /// Status, then priority, then recency — the list sorts itself.
    Auto,
    /// User-dragged order (`sort_order`).
    Manual,
}

/// A task's priority; stored as 0 (low), 1 (normal), 2 (high).
#[derive(Clone, Copy, PartialEq, Eq, Structural, Debug)]
pub enum Priority {
    Low,
    Normal,
    High,
}

/// The stored number of a priority.
pub open spec fn priority_value(p: Priority) -> i64 {
    match p {
        Priority::Low => 0,
        Priority::Normal => 1,
        Priority::High => 2,
    }
}

/// The priority a stored number stands for: anything but 0 and 2 is normal.
pub open spec fn priority_of(v: i64) -> Priority {
    if v == 0 {
        Priority::Low
    } else if v == 2 {
        Priority::High
    } else {
        Priority::Normal
    }
}

/// The label shown for a priority.
pub open spec fn priority_label(p: Priority) -> Seq<char> {
    match p {
        Priority::Low => "low"@,
        Priority::Normal => "normal"@,
        Priority::High => "high"@,
    }
}

/// The next priority on a click: normal → high → low → normal.
pub open spec fn priority_next(p: Priority) -> Priority {
    match p {
        Priority::Normal => Priority::High,
        Priority::High => Priority::Low,
        Priority::Low => Priority::Normal,
    }
}

impl Priority {
    /// The priority a stored number stands for.
    pub fn from_i64(v: i64) -> (r: Priority)
        ensures
            r == priority_of(v),
    {
        match v {
            0 => Priority::Low,
            2 => Priority::High,
            _ => Priority::Normal,
        }
    }

    /// The stored number of this priority.
    pub fn as_i64(self) -> (v: i64)
        ensures
            v == priority_value(self),
    {
        match self {
            Priority::Low => 0,
            Priority::Normal => 1,
            Priority::High => 2,
        }
    }

    /// The label shown for this priority.
    pub fn label(self) -> (s: &'static str)
        ensures
            s@ == priority_label(self),
    {
        match self {
            Priority::Low => "low",
            Priority::Normal => "normal",
            Priority::High => "high",
        }
    }

    /// Click-to-cycle order: normal → high → low → normal.
    pub fn cycled(self) -> (r: Priority)
        ensures
            r == priority_next(self),
    {
        match self {
            Priority::Normal => Priority::High,
            Priority::High => Priority::Low,
            Priority::Low => Priority::Normal,
        }
    }
}

/// Whether a total fits in an `i64`.
pub open spec fn fits_i64(x: int) -> bool {
    i64::MIN <= x <= i64::MAX
}

/// A to-do item. Instants are seconds since the Unix epoch (UTC), except
/// `created_at` and `completed_at`, which keep nanoseconds so that tasks
/// created in the same second still order by age.
#[derive(Clone, Debug)]
pub struct Task {
    pub id: i64,
    pub project_id: i64,
    pub title: String,
    pub status: TaskStatus,
    pub priority: Priority,
    pub created_at: i64,
    pub completed_at: Option<i64>,
    /// The local calendar day of `completed_at` (see `calendar`).
    pub completed_on: Option<i32>,
    /// Timer running since this instant (while the task is `doing`).
    pub started_at: Option<i64>,
    /// Tracked seconds from previous start→pause stretches.
    pub spent_secs: i64,
    /// Position in the user's manual order (smaller first).
    pub sort_order: i64,
    /// Freeform markdown notes.
    pub details: String,
    /// The project's code, for display and search.
    pub project_code: String,
}

/// Seconds of the running stretch at `now`: none when stopped, never
/// negative.
pub open spec fn running_secs(started_at: Option<i64>, now: int) -> int {
    match started_at {
        Some(s) => if now - s > 0 { now - s } else { 0 },
        None => 0,
    }
}

/// Total tracked time at `now`: banked stretches plus the running one.
pub open spec fn tracked_total(spent: int, started_at: Option<i64>, now: int) -> int {
    spent + running_secs(started_at, now)
}

impl Task {
    /// Total tracked time: banked stretches plus the running one, if any.
    pub fn tracked_secs(&self, now: i64) -> (r: i64)
        requires
            match self.started_at {
                Some(s) => fits_i64(now - s),
                None => true,
            },
            fits_i64(tracked_total(self.spent_secs as int, self.started_at, now as int)),
        ensures
            r == tracked_total(self.spent_secs as int, self.started_at, now as int),
    {
        let running: i64 = match self.started_at {
            Some(s) => {
                let d = now - s;
                if d > 0 {
                    d
                } else {
                    0
                }
            },
            None => 0,
        };
        self.spent_secs + running
    }
}

/// Reading back the stored text of a status gives the status.
pub proof fn law_task_status_roundtrip(s: TaskStatus)
    ensures
        task_status_of(task_status_text(s)) == s,
{
    reveal_strlit("todo");
    reveal_strlit("doing");
    reveal_strlit("done");
    assert("todo"@.len() != "doing"@.len());
    assert("doing"@.len() != "done"@.len());
    assert("todo"@[0] != "done"@[0]);
}

/// Reading back the stored number of a priority gives the priority.
pub proof fn law_priority_roundtrip(p: Priority)
    ensures
        priority_of(priority_value(p)) == p,
{
}

/// Clicking the priority always changes it, and three clicks bring it back.
pub proof fn law_priority_cycle(p: Priority)
    ensures
        priority_next(p) != p,
        priority_next(priority_next(priority_next(p))) == p,
{
}

// ---------------------------------------------------------------- stopwatch

/// A task's stopwatch: the instant the running stretch began (if running),
/// the seconds banked from finished stretches, and the longest single
/// stretch among them.
#[derive(Clone, Copy, PartialEq, Eq, Structural, Debug)]
pub struct TaskTimer {
    pub started_at: Option<i64>,
    pub spent_secs: i64,
    pub max_stretch_secs: i64,
}

/// The stopwatch after starting at `now`: a running stretch is left alone.
pub open spec fn timer_started(t: TaskTimer, now: i64) -> TaskTimer {
    match t.started_at {
        Some(_) => t,
        None => TaskTimer { started_at: Some(now), ..t },
    }
}

/// The stopwatch after stopping at `now`: the running stretch (never less
/// than zero) is banked, the longest stretch remembered, the timer stopped.
/// A stopped timer is left alone.
pub open spec fn timer_stopped(t: TaskTimer, now: i64) -> TaskTimer {
    match t.started_at {
        None => t,
        Some(s) => TaskTimer {
            started_at: None,
            spent_secs: (t.spent_secs + running_secs(Some(s), now as int)) as i64,
            max_stretch_secs: if now - s > t.max_stretch_secs {
                (now - s) as i64
            } else {
                t.max_stretch_secs
            },
        },
    }
}

/// Stopping at `now` keeps every total within `i64`.
pub open spec fn can_stop(t: TaskTimer, now: i64) -> bool {
    match t.started_at {
        None => true,
        Some(s) => fits_i64(now - s) && fits_i64(t.spent_secs + running_secs(Some(s), now as int)),
    }
}

impl TaskTimer {
    /// Start the timer if it isn't already running (so re-focusing a task
    /// that's already in progress never resets the current stretch).
    pub fn start(&mut self, now: i64)
        ensures
            *final(self) == timer_started(*old(self), now),
    {
        if self.started_at.is_none() {
            self.started_at = Some(now);
        }
    }

    /// Fold the running stretch into `spent_secs`, remember it if it's the
    /// longest so far, and stop the timer. No-op when the timer isn't running.
    pub fn stop(&mut self, now: i64)
        requires
            can_stop(*old(self), now),
        ensures
            *final(self) == timer_stopped(*old(self), now),
    {
        if let Some(s) = self.started_at {
            let d = now - s;
            let running = if d > 0 {
                d
            } else {
                0
            };
            self.spent_secs = self.spent_secs + running;
            if d > self.max_stretch_secs {
                self.max_stretch_secs = d;
            }
            self.started_at = None;
        }
    }

    /// Restart for an in-progress task at app start: whatever `started_at`
    /// was left (a crash) is replaced rather than counted.
    pub fn restart(&mut self, now: i64)
        ensures
            *final(self) == (TaskTimer { started_at: Some(now), ..*old(self) }),
    {
        self.started_at = Some(now);
    }

    /// Zero the tracked counters once the time has been logged; a running
    /// stretch keeps running.
    pub fn reset_spent(&mut self)
        ensures
            *final(self) == (TaskTimer { spent_secs: 0, max_stretch_secs: 0, ..*old(self) }),
    {
        self.spent_secs = 0;
        self.max_stretch_secs = 0;
    }

    /// Banked seconds and the longest single stretch.
    pub fn totals(&self) -> (r: (i64, i64))
        ensures
            r == (self.spent_secs, self.max_stretch_secs),
    {
        (self.spent_secs, self.max_stretch_secs)
    }
}

/// Stops every running stopwatch at `now` (the app is closing, so time
/// with the app closed isn't tracked).
pub fn stop_all_timers(timers: &mut Vec<TaskTimer>, now: i64)
    requires
        forall|i: int| 0 <= i < old(timers).len() ==> can_stop(#[trigger] old(timers)@[i], now),
    ensures
        final(timers).len() == old(timers).len(),
        forall|i: int|
            0 <= i < final(timers).len() ==> #[trigger] final(timers)@[i] == timer_stopped(
                old(timers)@[i],
                now,
            ),
{
    let ghost start = timers@;
    let mut i: usize = 0;
    while i < timers.len()
        invariant
            timers.len() == start.len(),
            i <= timers.len(),
            forall|k: int| 0 <= k < start.len() ==> can_stop(#[trigger] start[k], now),
            forall|k: int| 0 <= k < i ==> #[trigger] timers@[k] == timer_stopped(start[k], now),
            forall|k: int| i <= k < timers.len() ==> #[trigger] timers@[k] == start[k],
        decreases timers.len() - i,
    {
        let mut t = timers[i];
        t.stop(now);
        timers.set(i, t);
        i = i + 1;
    }
}

/// Restarts the stopwatch of every task in progress at `now` (the app is
/// starting); a `started_at` left by a crash is replaced, not counted.
/// Other tasks' stopwatches are left alone.
pub fn restart_doing_timers(timers: &mut Vec<TaskTimer>, statuses: &Vec<TaskStatus>, now: i64)
    requires
        old(timers).len() == statuses.len(),
    ensures
        final(timers).len() == old(timers).len(),
        forall|i: int|
            0 <= i < final(timers).len() ==> #[trigger] final(timers)@[i] == (if statuses@[i]
                == TaskStatus::Doing {
                TaskTimer { started_at: Some(now), ..old(timers)@[i] }
            } else {
                old(timers)@[i]
            }),
{
    let ghost start = timers@;
    let mut i: usize = 0;
    while i < timers.len()
        invariant
            timers.len() == start.len(),
            statuses.len() == start.len(),
            i <= timers.len(),
            forall|k: int|
                0 <= k < i ==> #[trigger] timers@[k] == (if statuses@[k] == TaskStatus::Doing {
                    TaskTimer { started_at: Some(now), ..start[k] }
                } else {
                    start[k]
                }),
            forall|k: int| i <= k < timers.len() ==> #[trigger] timers@[k] == start[k],
        decreases timers.len() - i,
    {
        if statuses[i] == TaskStatus::Doing {
            let mut t = timers[i];
            t.restart(now);
            timers.set(i, t);
        }
        i = i + 1;
    }
}

/// A status change: the new status and the completion instant, stamped
/// with `now` when the task becomes done and cleared otherwise.
pub fn status_update(status: TaskStatus, now: i64) -> (r: (TaskStatus, Option<i64>))
    ensures
        r.0 == status,
        r.1 == (if status == TaskStatus::Done { Some(now) } else { None::<i64> }),
{
    let completed_at = if status == TaskStatus::Done {
        Some(now)
    } else {
        None
    };
    (status, completed_at)
}

/// The manual-order position for a new task: one above the topmost task,
/// so new tasks land on top (-1 in an empty list).
pub fn top_sort_order(orders: &Vec<i64>) -> (r: i64)
    requires
        forall|i: int| 0 <= i < orders.len() ==> orders@[i] > i64::MIN,
    ensures
        forall|i: int| 0 <= i < orders.len() ==> r < orders@[i],
        orders.len() == 0 ==> r == -1,
        orders.len() > 0 ==> exists|i: int| 0 <= i < orders.len() && r == orders@[i] - 1,
{
    if orders.len() == 0 {
        return -1;
    }
    let mut m = orders[0];
    let mut at: usize = 0;
    let mut i: usize = 1;
    while i < orders.len()
        invariant
            1 <= i <= orders.len(),
            at < i,
            m == orders@[at as int],
            forall|k: int| 0 <= k < orders.len() ==> orders@[k] > i64::MIN,
            forall|k: int| 0 <= k < i ==> m <= orders@[k],
        decreases orders.len() - i,
    {
        if orders[i] < m {
            m = orders[i];
            at = i;
        }
        i = i + 1;
    }
    m - 1
}

/// Starting a running timer again changes nothing.
pub proof fn law_start_is_idempotent(t: TaskTimer, now1: i64, now2: i64)
    ensures
        timer_started(timer_started(t, now1), now2) == timer_started(t, now1),
{
}

/// Stopping a stopped timer changes nothing: stopping twice does not
/// double-count.
pub proof fn law_stop_is_idempotent(t: TaskTimer, now1: i64, now2: i64)
    ensures
        timer_stopped(timer_stopped(t, now1), now2) == timer_stopped(t, now1),
{
}

/// A start followed by a stop banks exactly the time in between (never
/// less than zero) on top of what was banked before.
pub proof fn law_stretch_accumulates(t: TaskTimer, start: i64, stop: i64)
    requires
        t.started_at is None,
        fits_i64(stop - start),
        fits_i64(t.spent_secs + running_secs(Some(start), stop as int)),
    ensures
        timer_stopped(timer_started(t, start), stop).spent_secs == t.spent_secs + running_secs(
            Some(start),
            stop as int,
        ),
        timer_stopped(timer_started(t, start), stop).started_at is None,
        timer_stopped(timer_started(t, start), stop).max_stretch_secs >= stop - start,
        timer_stopped(timer_started(t, start), stop).max_stretch_secs >= t.max_stretch_secs,
{
}

/// Stopping at `now` banks exactly what `tracked_secs` showed at `now`.
pub proof fn law_stop_banks_tracked(t: TaskTimer, now: i64)
    requires
        can_stop(t, now),
    ensures
        timer_stopped(t, now).spent_secs == tracked_total(t.spent_secs as int, t.started_at, now as int),
        timer_stopped(t, now).started_at is None,
{
}

// ---------------------------------------------------------------- orders

/// The automatic open-list key: in progress first, then higher priority,
/// then newer.
#[derive(Clone, Copy)]
pub struct AutoKey {
    pub doing: bool,
    pub priority: i64,
    pub created_at: i64,
}

impl Ranked for AutoKey {
    open spec fn precedes(self, other: Self) -> bool {
        (self.doing && !other.doing) || (self.doing == other.doing && (self.priority
            > other.priority || (self.priority == other.priority && self.created_at
            > other.created_at)))
    }

    proof fn precedes_irreflexive(a: Self) {
    }

    proof fn precedes_transitive(a: Self, b: Self, c: Self) {
    }

    proof fn ties_transitive(a: Self, b: Self, c: Self) {
    }

    fn check_precedes(&self, other: &Self) -> (r: bool) {
        (self.doing && !other.doing) || (self.doing == other.doing && (self.priority
            > other.priority || (self.priority == other.priority && self.created_at
            > other.created_at)))
    }
}

/// The manual open-list key: the dragged position.
#[derive(Clone, Copy)]
pub struct ManualKey {
    pub sort_order: i64,
}

impl Ranked for ManualKey {
    open spec fn precedes(self, other: Self) -> bool {
        self.sort_order < other.sort_order
    }

    proof fn precedes_irreflexive(a: Self) {
    }

    proof fn precedes_transitive(a: Self, b: Self, c: Self) {
    }

    proof fn ties_transitive(a: Self, b: Self, c: Self) {
    }

    fn check_precedes(&self, other: &Self) -> (r: bool) {
        self.sort_order < other.sort_order
    }
}

/// The completed-list key: most recently finished first; a missing
/// completion stamp sorts last.
#[derive(Clone, Copy)]
pub struct DoneKey {
    pub completed_at: Option<i64>,
}

impl Ranked for DoneKey {
    open spec fn precedes(self, other: Self) -> bool {
        match (self.completed_at, other.completed_at) {
            (Some(a), Some(b)) => a > b,
            (Some(_), None) => true,
            _ => false,
        }
    }

    proof fn precedes_irreflexive(a: Self) {
    }

    proof fn precedes_transitive(a: Self, b: Self, c: Self) {
    }

    proof fn ties_transitive(a: Self, b: Self, c: Self) {
    }

    fn check_precedes(&self, other: &Self) -> (r: bool) {
        match (self.completed_at, other.completed_at) {
            (Some(a), Some(b)) => a > b,
            (Some(_), None) => true,
            _ => false,
        }
    }
}

/// The key a task sorts by in the open list.
pub open spec fn auto_key(t: Task) -> AutoKey {
    AutoKey { doing: t.status == TaskStatus::Doing, priority: priority_value(t.priority), created_at: t.created_at }
}

/// The indices of the tasks that are not done, in input order.
pub open spec fn open_indices(tasks: Seq<Task>) -> Seq<usize>
    decreases tasks.len(),
{
    if tasks.len() == 0 {
        Seq::empty()
    } else {
        let rest = open_indices(tasks.drop_last());
        if tasks.last().status != TaskStatus::Done {
            rest.push((tasks.len() - 1) as usize)
        } else {
            rest
        }
    }
}

proof fn lemma_open_indices(tasks: Seq<Task>)
    requires
        tasks.len() <= usize::MAX,
    ensures
        forall|k: int| 0 <= k < open_indices(tasks).len() ==> open_indices(tasks)[k] < tasks.len()
            && tasks[open_indices(tasks)[k] as int].status != TaskStatus::Done,
        forall|a: int, b: int|
            0 <= a < b < open_indices(tasks).len() ==> open_indices(tasks)[a] < open_indices(tasks)[b],
        forall|k: usize|
            k < tasks.len() && tasks[k as int].status != TaskStatus::Done ==> #[trigger] open_indices(tasks).contains(k),
        open_indices(tasks).len() <= tasks.len(),
    decreases tasks.len(),
{
    if tasks.len() > 0 {
        let t = tasks.drop_last();
        lemma_open_indices(t);
        assert forall|k: int| 0 <= k < t.len() implies t[k] == tasks[k] by {}
        let rest = open_indices(t);
        let all = open_indices(tasks);
        if tasks.last().status != TaskStatus::Done {
            assert(all == rest.push((tasks.len() - 1) as usize));
        } else {
            assert(all == rest);
        }
        assert forall|k: int| 0 <= k < all.len() implies all[k] < tasks.len()
            && tasks[all[k] as int].status != TaskStatus::Done by {
            if k < rest.len() {
                assert(all[k] == rest[k]);
                assert(t[rest[k] as int] == tasks[rest[k] as int]);
            }
        }
        assert forall|a: int, b: int| 0 <= a < b < all.len() implies all[a] < all[b] by {
            if b < rest.len() {
                assert(all[a] == rest[a] && all[b] == rest[b]);
            } else {
                assert(all[a] == rest[a]);
            }
        }
        assert forall|k: usize|
            k < tasks.len() && tasks[k as int].status != TaskStatus::Done implies #[trigger] open_indices(tasks).contains(k) by {
            if k < t.len() {
                assert(t[k as int] == tasks[k as int]);
                assert(rest.contains(k));
                let i = choose|i: int| 0 <= i < rest.len() && rest[i] == k;
                assert(open_indices(tasks)[i] == k);
            } else {
                assert(open_indices(tasks)[rest.len() as int] == k);
            }
        }
    }
}

/// Task `i` is listed before task `j` under `sort`: its key sorts first,
/// or the keys tie and `i` came first.
pub open spec fn task_before(tasks: Seq<Task>, sort: TaskSort, i: int, j: int) -> bool {
    match sort {
        TaskSort::Auto => auto_key(tasks[i]).precedes(auto_key(tasks[j])) || (!auto_key(
            tasks[j],
        ).precedes(auto_key(tasks[i])) && i < j),
        TaskSort::Manual => tasks[i].sort_order < tasks[j].sort_order || (tasks[i].sort_order
            == tasks[j].sort_order && i < j),
    }
}

/// `order` lists every task that is not done (by index into `tasks`), each
/// once, in the display order of `sort`: for `Auto`, in progress first,
/// then priority (high → low), then newest first; for `Manual`, the user's
/// dragged order. Equal keys keep their input order.
pub open spec fn open_task_order(tasks: Seq<Task>, sort: TaskSort, order: Seq<usize>) -> bool {
    &&& forall|a: int|
        0 <= a < order.len() ==> order[a] < tasks.len() && tasks[order[a] as int].status
            != TaskStatus::Done
    &&& forall|k: usize|
        k < tasks.len() && tasks[k as int].status != TaskStatus::Done ==> #[trigger] order.contains(k)
    &&& forall|a: int, b: int|
        0 <= a < b < order.len() ==> task_before(tasks, sort, #[trigger] order[a] as int, #[trigger] order[b] as int)
}

/// The completed list shows the most recently finished first: a task
/// listed after another finished no later (or has no finishing time).
pub proof fn law_done_lists_latest_first(
    tasks: Seq<Task>,
    keep: Seq<bool>,
    limit: int,
    r: Seq<usize>,
    p: int,
    q: int,
)
    requires
        listing(tasks.map_values(|t: Task| done_key(t)), keep, limit, r),
        0 <= p < q < r.len(),
    ensures
        ({
            let (x, y) = (tasks[r[p] as int], tasks[r[q] as int]);
            y.completed_at matches Some(cy) ==> (x.completed_at matches Some(cx) && cy <= cx)
        }),
{
    let keys = tasks.map_values(|t: Task| done_key(t));
    let (i, j) = (r[p] as int, r[q] as int);
    assert(before(keys, i, j));
    assert(keys[i] == done_key(tasks[i]) && keys[j] == done_key(tasks[j]));
}

/// The completed list's range filter takes its first day: a task finished
/// on `since` passes it.
pub proof fn law_done_since_takes_its_day(t: Task, day: i32)
    requires
        t.status == TaskStatus::Done,
        t.completed_on == Some(day),
    ensures
        done_matches(t, Some(day), Seq::empty()),
{
}

/// Open task `t` ranks above open task `u` in the automatic order: in
/// progress over to-do; with the same status, higher priority; with the
/// same status and priority, created later.
pub open spec fn ranks_above(t: Task, u: Task) -> bool {
    ||| (t.status == TaskStatus::Doing && u.status != TaskStatus::Doing)
    ||| (t.status == u.status && priority_value(t.priority) > priority_value(u.priority))
    ||| (t.status == u.status && t.priority == u.priority && t.created_at > u.created_at)
}

/// The automatic open list never shows a task below one it ranks above:
/// tasks in progress come first, and among tasks of the same status
/// (in progress or to-do alike) higher priority comes first, then the
/// newer task.
pub proof fn law_auto_order_follows_rank(tasks: Seq<Task>, order: Seq<usize>, p: int, q: int)
    requires
        open_task_order(tasks, TaskSort::Auto, order),
        0 <= p < q < order.len(),
    ensures
        !ranks_above(tasks[order[q] as int], tasks[order[p] as int]),
{
    let i = order[p] as int;
    let j = order[q] as int;
    assert(task_before(tasks, TaskSort::Auto, i, j));
    let (ki, kj) = (auto_key(tasks[i]), auto_key(tasks[j]));
    if ranks_above(tasks[j], tasks[i]) {
        assert(tasks[i].status != TaskStatus::Done && tasks[j].status != TaskStatus::Done);
        if tasks[j].priority == tasks[i].priority {
            assert(priority_value(tasks[j].priority) == priority_value(tasks[i].priority));
        }
        assert(kj.precedes(ki));
        AutoKey::precedes_transitive(ki, kj, ki);
        AutoKey::precedes_irreflexive(ki);
    }
}

/// The indices of the tasks that are not done, in input order.
fn open_task_indices(tasks: &Vec<Task>) -> (r: Vec<usize>)
    ensures
        r@ == open_indices(tasks@),
{
    let mut r: Vec<usize> = Vec::new();
    let mut i: usize = 0;
    while i < tasks.len()
        invariant
            i <= tasks.len(),
            r@ == open_indices(tasks@.subrange(0, i as int)),
        decreases tasks.len() - i,
    {
        assert(tasks@.subrange(0, i + 1).drop_last() =~= tasks@.subrange(0, i as int));
        if tasks[i].status != TaskStatus::Done {
            r.push(i);
        }
        i += 1;
    }
    assert(tasks@.subrange(0, tasks.len() as int) =~= tasks@);
    r
}

/// The open tasks (by index into `tasks`) in the order the list shows
/// them: `Auto` — in progress first, then priority (high → low), then
/// newest first; `Manual` — the user's dragged order.
pub fn list_open_tasks(tasks: &Vec<Task>, sort: TaskSort) -> (order: Vec<usize>)
    ensures
        open_task_order(tasks@, sort, order@),
{
    let sel = open_task_indices(tasks);
    proof {
        assert(tasks@.len() == tasks.len());
        lemma_open_indices(tasks@);
    }
    let perm = match sort {
        TaskSort::Auto => {
            let mut keys: Vec<AutoKey> = Vec::new();
            let mut i: usize = 0;
            while i < sel.len()
                invariant
                    i <= sel.len(),
                    sel@ == open_indices(tasks@),
                    forall|k: int| 0 <= k < sel.len() ==> sel@[k] < tasks.len(),
                    keys@ == sel@.subrange(0, i as int).map_values(|k: usize| auto_key(tasks@[k as int])),
                decreases sel.len() - i,
            {
                let t = &tasks[sel[i]];
                keys.push(AutoKey { doing: t.status == TaskStatus::Doing, priority: t.priority.as_i64(), created_at: t.created_at });
                i += 1;
                assert(keys@ =~= sel@.subrange(0, i as int).map_values(|k: usize| auto_key(tasks@[k as int])));
            }
            assert(sel@.subrange(0, sel.len() as int) =~= sel@);
            stable_order(&keys)
        },
        TaskSort::Manual => {
            let mut keys: Vec<ManualKey> = Vec::new();
            let mut i: usize = 0;
            while i < sel.len()
                invariant
                    i <= sel.len(),
                    sel@ == open_indices(tasks@),
                    forall|k: int| 0 <= k < sel.len() ==> sel@[k] < tasks.len(),
                    keys@ == sel@.subrange(0, i as int).map_values(|k: usize| ManualKey { sort_order: tasks@[k as int].sort_order }),
                decreases sel.len() - i,
            {
                keys.push(ManualKey { sort_order: tasks[sel[i]].sort_order });
                i += 1;
                assert(keys@ =~= sel@.subrange(0, i as int).map_values(|k: usize| ManualKey { sort_order: tasks@[k as int].sort_order }));
            }
            assert(sel@.subrange(0, sel.len() as int) =~= sel@);
            stable_order(&keys)
        },
    };
    let mut order: Vec<usize> = Vec::new();
    let mut i: usize = 0;
    while i < perm.len()
        invariant
            i <= perm.len(),
            perm.len() == sel.len(),
            forall|k: int| 0 <= k < perm.len() ==> perm@[k] < sel.len(),
            order@ == perm@.subrange(0, i as int).map_values(|k: usize| sel@[k as int]),
        decreases perm.len() - i,
    {
        order.push(sel[perm[i]]);
        i += 1;
        assert(order@ =~= perm@.subrange(0, i as int).map_values(|k: usize| sel@[k as int]));
    }
    assert(perm@.subrange(0, perm.len() as int) =~= perm@);
    assert(order@ == perm@.map_values(|k: usize| sel@[k as int]));
    proof {
        assert forall|k: usize|
            k < tasks.len() && tasks@[k as int].status != TaskStatus::Done implies #[trigger] order@.contains(k) by {
            assert(sel@.contains(k));
            let x = choose|x: int| 0 <= x < sel.len() && sel@[x] == k;
            assert(perm@.contains(x as usize));
            let a = choose|a: int| 0 <= a < perm.len() && perm@[a] == x as usize;
            assert(order@[a] == k);
        }
        assert forall|a: int, b: int|
            0 <= a < b < order.len() implies task_before(tasks@, sort, #[trigger] order@[a] as int, #[trigger] order@[b] as int) by {
            let (pa, pb) = (perm@[a] as int, perm@[b] as int);
            match sort {
                TaskSort::Auto => {
                    let keys = sel@.map_values(|k: usize| auto_key(tasks@[k as int]));
                    assert(crate::order::before(keys, pa, pb));
                },
                TaskSort::Manual => {
                    let keys = sel@.map_values(|k: usize| ManualKey { sort_order: tasks@[k as int].sort_order });
                    assert(crate::order::before(keys, pa, pb));
                },
            }
        }
    }
    order
}


// ---------------------------------------------------------------- completed

/// The LIKE pattern `%word%` (no escape character, so `%` and `_` in the
/// word stay wildcards).
pub open spec fn term_pattern(w: Seq<char>) -> Seq<char> {
    seq!['%'] + w + seq!['%']
}

/// A completed task passes the Completed section's filters: completed on
/// or after `since` (local day), and every search word found (LIKE
/// `%word%`) in its title, its project code or its notes.
pub open spec fn done_matches(t: Task, since: Option<i32>, terms: Seq<Seq<char>>) -> bool {
    &&& t.status == TaskStatus::Done
    &&& match since {
        Some(d) => match t.completed_on {
            Some(c) => c >= d,
            None => false,
        },
        None => true,
    }
    &&& forall|k: int|
        0 <= k < terms.len() ==> like(term_pattern(terms[k]), t.title@, None) || like(
            term_pattern(terms[k]),
            t.project_code@,
            None,
        ) || like(term_pattern(terms[k]), t.details@, None)
}

/// The key a task sorts by in the Completed section.
pub open spec fn done_key(t: Task) -> DoneKey {
    DoneKey { completed_at: t.completed_at }
}

/// How many rows a `LIMIT` of `limit` lets through: SQLite reads the limit
/// as an `i64`, and a negative limit means no limit.
pub open spec fn effective_limit(limit: usize) -> int {
    if limit > i64::MAX {
        usize::MAX as int
    } else {
        limit as int
    }
}

fn build_pattern(w: &Vec<char>) -> (p: Vec<char>)
    ensures
        p@ == term_pattern(w@),
{
    let mut p: Vec<char> = Vec::new();
    p.push('%');
    crate::text::append_chars(&mut p, w);
    p.push('%');
    assert(p@ =~= term_pattern(w@));
    p
}

/// Whether every word's pattern matches `a` or `b`.
pub fn all_terms_match(patterns: &Vec<Vec<char>>, a: &Vec<char>, b: &Vec<char>, esc: Option<char>) -> (r: bool)
    ensures
        r == forall|k: int|
            0 <= k < patterns.len() ==> like(#[trigger] patterns@[k]@, a@, esc) || like(patterns@[k]@, b@, esc),
{
    let mut k: usize = 0;
    while k < patterns.len()
        invariant
            k <= patterns.len(),
            forall|j: int| 0 <= j < k ==> like(#[trigger] patterns@[j]@, a@, esc) || like(patterns@[j]@, b@, esc),
        decreases patterns.len() - k,
    {
        if !(like_match(&patterns[k], a, esc) || like_match(&patterns[k], b, esc)) {
            return false;
        }
        k += 1;
    }
    true
}

/// Whether every word's pattern matches `a`, `b` or `c`.
fn all_terms_in(patterns: &Vec<Vec<char>>, a: &Vec<char>, b: &Vec<char>, c: &Vec<char>) -> (r: bool)
    ensures
        r == forall|k: int|
            0 <= k < patterns.len() ==> like(#[trigger] patterns@[k]@, a@, None) || like(patterns@[k]@, b@, None)
                || like(patterns@[k]@, c@, None),
{
    let mut k: usize = 0;
    while k < patterns.len()
        invariant
            k <= patterns.len(),
            forall|j: int|
                0 <= j < k ==> like(#[trigger] patterns@[j]@, a@, None) || like(patterns@[j]@, b@, None)
                    || like(patterns@[j]@, c@, None),
        decreases patterns.len() - k,
    {
        if !(like_match(&patterns[k], a, None) || like_match(&patterns[k], b, None) || like_match(
            &patterns[k],
            c,
            None,
        )) {
            return false;
        }
        k += 1;
    }
    true
}

/// Completed tasks (by index into `tasks`), most recently finished first,
/// at most `limit` of them. `since` bounds the completion day (local);
/// every white-space separated word of `search` must appear (LIKE
/// `%word%`) in the title, the project code or the notes, in any order.
pub fn list_done_tasks(tasks: &Vec<Task>, limit: usize, since: Option<i32>, search: &str) -> (r: Vec<usize>)
    ensures
        listing(
            tasks@.map_values(|t: Task| done_key(t)),
            tasks@.map_values(|t: Task| done_matches(t, since, words(search@))),
            effective_limit(limit),
            r@,
        ),
        r.len() == min_int(
            effective_limit(limit),
            count_true(tasks@.map_values(|t: Task| done_matches(t, since, words(search@)))) as int,
        ),
{
    let terms = split_words(&chars_of(search));
    let mut patterns: Vec<Vec<char>> = Vec::new();
    let mut k: usize = 0;
    while k < terms.len()
        invariant
            k <= terms.len(),
            terms.len() == words(search@).len(),
            forall|i: int| 0 <= i < terms.len() ==> #[trigger] terms@[i]@ == words(search@)[i],
            patterns.len() == k,
            forall|i: int| 0 <= i < k ==> #[trigger] patterns@[i]@ == term_pattern(words(search@)[i]),
        decreases terms.len() - k,
    {
        patterns.push(build_pattern(&terms[k]));
        k += 1;
    }
    let mut keys: Vec<DoneKey> = Vec::new();
    let mut keep: Vec<bool> = Vec::new();
    let mut i: usize = 0;
    while i < tasks.len()
        invariant
            i <= tasks.len(),
            patterns.len() == words(search@).len(),
            forall|j: int| 0 <= j < patterns.len() ==> #[trigger] patterns@[j]@ == term_pattern(words(search@)[j]),
            keys@ == tasks@.subrange(0, i as int).map_values(|t: Task| done_key(t)),
            keep@ == tasks@.subrange(0, i as int).map_values(|t: Task| done_matches(t, since, words(search@))),
        decreases tasks.len() - i,
    {
        let t = &tasks[i];
        keys.push(DoneKey { completed_at: t.completed_at });
        let in_range = match since {
            Some(d) => match t.completed_on {
                Some(c) => c >= d,
                None => false,
            },
            None => true,
        };
        let m = t.status == TaskStatus::Done && in_range && all_terms_in(
            &patterns,
            &chars_of(t.title.as_str()),
            &chars_of(t.project_code.as_str()),
            &chars_of(t.details.as_str()),
        );
        proof {
            let ws = words(search@);
            let tt = tasks@[i as int];
            assert(tt == *t);
            if m {
                assert forall|k: int| 0 <= k < ws.len() implies like(term_pattern(ws[k]), tt.title@, None) || like(
                    term_pattern(ws[k]), tt.project_code@, None) || like(term_pattern(ws[k]), tt.details@, None) by {
                    assert(patterns@[k]@ == term_pattern(ws[k]));
                }
            } else if t.status == TaskStatus::Done && in_range {
                let k = choose|k: int| 0 <= k < patterns.len() && !(like(#[trigger] patterns@[k]@, t.title@, None) || like(patterns@[k]@, t.project_code@, None) || like(patterns@[k]@, t.details@, None));
                assert(patterns@[k]@ == term_pattern(ws[k]));
            }
            assert(m == done_matches(tt, since, ws));
        }
        keep.push(m);
        i += 1;
        assert(keys@ =~= tasks@.subrange(0, i as int).map_values(|t: Task| done_key(t)));
        assert(keep@ =~= tasks@.subrange(0, i as int).map_values(|t: Task| done_matches(t, since, words(search@))));
    }
    assert(tasks@.subrange(0, tasks.len() as int) =~= tasks@);
    let eff: usize = if (limit as u64) > (i64::MAX as u64) {
        usize::MAX
    } else {
        limit
    };
    let r = select_sorted(&keys, &keep, eff);
    proof {
        lemma_listing_len(keys@, keep@, eff as int, r@);
    }
    r
}

} // verus!
