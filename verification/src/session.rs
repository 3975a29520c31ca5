//! The decisions the app's screens make: tabs and list ranges, the
//! task-to-log bridge, the notes window, the manual task order, which task
//! stays active, and what each task action does to the stored data.
use vstd::prelude::*;

use crate::calendar::valid_day;
use crate::db::project::{Project, ProjectStatus};
use crate::db::task::{Task, TaskSort, TaskStatus, Priority};
use crate::order::{TextKey, before, lemma_text_lt_irreflexive, lemma_text_lt_total, stable_order, stably_sorted, text_lt};
use crate::report::{duration_text, fmt_duration};
use crate::text::{append_chars, chars_of, str_is, string_of, trim, trim_chars};

verus! {

// ---------------------------------------------------------------- tabs

/// The three screens.
#[derive(Clone, Copy, PartialEq, Eq, Structural, Debug)]
pub enum Tab {
    Journal,
    Tasks,
    Reports,
}

/// How far back the journal list (and the completed tasks) look.
#[derive(Clone, Copy, PartialEq, Eq, Structural, Debug)]
pub enum FilterRange {
    Days7,
    Days30,
    Days90,
    All,
}

/// The label shown for a range.
pub open spec fn filter_label(r: FilterRange) -> Seq<char> {
    match r {
        FilterRange::Days7 => "last 7 days"@,
        FilterRange::Days30 => "last 30 days"@,
        FilterRange::Days90 => "last 90 days"@,
        FilterRange::All => "all"@,
    }
}

/// How many days a range looks back; `None` for no limit.
pub open spec fn filter_days(r: FilterRange) -> Option<int> {
    match r {
        FilterRange::Days7 => Some(7),
        FilterRange::Days30 => Some(30),
        FilterRange::Days90 => Some(90),
        FilterRange::All => None,
    }
}

/// A range reaches back as far as its label says: the last 7, 30 or 90
/// days, and "all" has no limit; the wider the range, the further back it
/// reaches.
pub proof fn law_ranges_reach_back_as_labelled()
    ensures
        filter_days(FilterRange::Days7) == Some(7int),
        filter_days(FilterRange::Days30) == Some(30int),
        filter_days(FilterRange::Days90) == Some(90int),
        filter_days(FilterRange::All) is None,
        filter_label(FilterRange::Days7) == "last 7 days"@,
        filter_label(FilterRange::Days30) == "last 30 days"@,
        filter_label(FilterRange::Days90) == "last 90 days"@,
        filter_label(FilterRange::All) == "all"@,
{
}

impl FilterRange {
    /// Every range, in the order the pickers offer them.
    pub fn all() -> (r: [FilterRange; 4])
        ensures
            r@ == seq![FilterRange::Days7, FilterRange::Days30, FilterRange::Days90, FilterRange::All],
    {
        let r = [FilterRange::Days7, FilterRange::Days30, FilterRange::Days90, FilterRange::All];
        assert(r@ =~= seq![FilterRange::Days7, FilterRange::Days30, FilterRange::Days90, FilterRange::All]);
        r
    }

    /// The label shown for this range.
    pub fn label(self) -> (s: &'static str)
        ensures
            s@ == filter_label(self),
    {
        match self {
            FilterRange::Days7 => "last 7 days",
            FilterRange::Days30 => "last 30 days",
            FilterRange::Days90 => "last 90 days",
            FilterRange::All => "all",
        }
    }

    /// The first day the range shows, counted back from `today`; `None`
    /// when it shows everything.
    pub fn since(self, today: i32) -> (r: Option<i32>)
        requires
            match filter_days(self) {
                Some(n) => valid_day(today - n),
                None => true,
            },
        ensures
            match filter_days(self) {
                Some(n) => r == Some((today - n) as i32),
                None => r is None,
            },
    {
        let days: i32 = match self {
            FilterRange::Days7 => 7,
            FilterRange::Days30 => 30,
            FilterRange::Days90 => 90,
            FilterRange::All => {
                return None;
            },
        };
        Some(today - days)
    }
}

// ---------------------------------------------------------------- bridge

/// What put the task-to-log bridge on screen — decides the wording and the
/// buttons.
#[derive(Clone, Copy, PartialEq, Eq, Structural, Debug)]
pub enum PendingKind {
    /// Task was just completed; "Cancel" restores status, activity and,
    /// if it was running, the timer.
    Completed { prev_status: TaskStatus, was_active: bool },
    /// "Log time so far" on a still-open task; it keeps running.
    Midway,
}

/// A single unbroken timer stretch this long probably means the timer was
/// forgotten (lunch, overnight) — the bridge flags the total as suspect.
pub const LONG_STRETCH_SECS: i64 = 18000;

/// Whether the bridge warns that the timer was probably left running.
pub fn stretch_is_suspect(longest_stretch_secs: i64) -> (r: bool)
    ensures
        r == (longest_stretch_secs >= LONG_STRETCH_SECS),
{
    longest_stretch_secs >= LONG_STRETCH_SECS
}

/// The bridge's heading for a task titled `title`.
pub open spec fn bridge_title_text(kind: PendingKind, title: Seq<char>) -> Seq<char> {
    match kind {
        PendingKind::Completed { .. } => "Done: “"@ + title + "” — log the time?"@,
        PendingKind::Midway => "“"@ + title + "” — log the time so far? (stays open)"@,
    }
}

/// The bridge's heading.
pub fn bridge_title(kind: PendingKind, title: &str) -> (r: String)
    ensures
        r@ == bridge_title_text(kind, title@),
{
    let (head, tail) = match kind {
        PendingKind::Completed { .. } => ("Done: “", "” — log the time?"),
        PendingKind::Midway => ("“", "” — log the time so far? (stays open)"),
    };
    let mut v = chars_of(head);
    let t = chars_of(title);
    append_chars(&mut v, &t);
    let e = chars_of(tail);
    append_chars(&mut v, &e);
    string_of(&v)
}

// ---------------------------------------------------------------- entry form

/// A journal entry being typed: shared by the capture strip, the entry
/// editor and the task-to-log bridge. The hours stay text until saved.
#[derive(Clone, Debug)]
pub struct EntryForm {
    pub project_id: Option<i64>,
    pub description: String,
    pub hours_text: String,
    pub is_dev: bool,
    /// The day the work was done (see `calendar`).
    pub work_date: i32,
    /// The task this entry is logged from (set by the bridge), so the
    /// journal can pull up the task's notes later.
    pub task_id: Option<i64>,
}

impl EntryForm {
    /// An empty form for `project_id` on `work_date`.
    pub fn new(project_id: Option<i64>, work_date: i32) -> (r: EntryForm)
        ensures
            r.project_id == project_id,
            r.description@.len() == 0,
            r.hours_text@.len() == 0,
            !r.is_dev,
            r.work_date == work_date,
            r.task_id is None,
    {
        EntryForm {
            project_id,
            description: String::new(),
            hours_text: String::new(),
            is_dev: false,
            work_date,
            task_id: None,
        }
    }

    /// The form can be saved: it has a project and a description that is
    /// not blank, and its hours text reads as hours (`hours_ok`, which the
    /// caller decides: hours are floating point).
    pub fn is_valid(&self, hours_ok: bool) -> (r: bool)
        ensures
            r == (self.project_id is Some && trim(self.description@).len() > 0 && hours_ok),
    {
        self.project_id.is_some() && trim_chars(&chars_of(self.description.as_str())).len() > 0 && hours_ok
    }
}

/// The task-to-log bridge while it is on screen: the task, its tracked
/// time, what opened it, and the entry form it offers.
#[derive(Clone, Debug)]
pub struct PendingLog {
    pub task_title: String,
    pub tracked_secs: i64,
    pub longest_stretch_secs: i64,
    pub task_id: i64,
    pub kind: PendingKind,
    pub form: EntryForm,
}

impl PendingLog {
    /// The bridge opened on `task` for `kind`, with the timer's banked time
    /// and longest stretch in `totals`: the form is pre-filled with the
    /// task's project, its title as the description and a link to the task,
    /// dated `today`, hours left empty for the user.
    pub fn open(task: &Task, kind: PendingKind, totals: (i64, i64), today: i32) -> (r: PendingLog)
        ensures
            r.task_title@ == task.title@,
            r.tracked_secs == totals.0,
            r.longest_stretch_secs == totals.1,
            r.task_id == task.id,
            r.kind == kind,
            r.form.project_id == Some(task.project_id),
            r.form.description@ == task.title@,
            r.form.hours_text@.len() == 0,
            !r.form.is_dev,
            r.form.work_date == today,
            r.form.task_id == Some(task.id),
    {
        let mut form = EntryForm::new(Some(task.project_id), today);
        form.description = string_of(&chars_of(task.title.as_str()));
        form.task_id = Some(task.id);
        PendingLog {
            task_title: string_of(&chars_of(task.title.as_str())),
            tracked_secs: totals.0,
            longest_stretch_secs: totals.1,
            task_id: task.id,
            kind,
            form,
        }
    }
}

// ---------------------------------------------------------------- notes window

/// State of the task-notes window: one task's markdown details being
/// viewed or edited. Closing the window saves.
#[derive(Clone, Debug)]
pub struct TaskDetails {
    pub task_id: i64,
    pub task_title: String,
    pub text: String,
    /// Last saved copy — drives the "unsaved" hint.
    pub saved: String,
    /// Rendered view vs the raw-markdown editor.
    pub preview: bool,
}

impl TaskDetails {
    /// The notes window opened on `task`: it starts in the rendered view
    /// when there's something to read, in the editor when the notes are
    /// empty.
    pub fn for_task(task: &Task) -> (r: TaskDetails)
        ensures
            r.task_id == task.id,
            r.task_title@ == task.title@,
            r.text@ == task.details@,
            r.saved@ == task.details@,
            r.preview == (trim(task.details@).len() > 0),
    {
        let d = chars_of(task.details.as_str());
        let trimmed = trim_chars(&d);
        TaskDetails {
            task_id: task.id,
            task_title: string_of(&chars_of(task.title.as_str())),
            text: string_of(&d),
            saved: string_of(&d),
            preview: trimmed.len() > 0,
        }
    }

    /// Whether the text differs from the last saved copy.
    pub fn unsaved(&self) -> (r: bool)
        ensures
            r == (self.text@ != self.saved@),
    {
        let a = chars_of(self.text.as_str());
        let b = chars_of(self.saved.as_str());
        !crate::text::chars_eq(&a, &b)
    }

    /// Whether the window writes the notes now: on Save or on closing,
    /// and only when something changed.
    pub fn writes_on(&self, save_clicked: bool, still_open: bool) -> (r: bool)
        ensures
            r == ((save_clicked || !still_open) && self.text@ != self.saved@),
    {
        (save_clicked || !still_open) && self.unsaved()
    }
}

// ---------------------------------------------------------------- projects form

/// Add/edit form state for the Projects window (`id` is `None` while
/// creating).
#[derive(Clone, Debug)]
pub struct ProjectForm {
    pub id: Option<i64>,
    pub code: String,
    pub name: String,
    pub client: String,
}

impl Default for ProjectForm {
    fn default() -> (r: ProjectForm)
        ensures
            r.id is None,
            r.code@.len() == 0,
            r.name@.len() == 0,
            r.client@.len() == 0,
    {
        ProjectForm { id: None, code: String::new(), name: String::new(), client: String::new() }
    }
}

// ---------------------------------------------------------------- manual order

/// `ids` with `src` moved next to `target`, just above it when `before`
/// and just below it otherwise; `None` when nothing moves (`src` is
/// `target`, or either is not listed).
pub open spec fn reordered(ids: Seq<i64>, src: i64, target: i64, before: bool) -> Option<Seq<i64>> {
    if src == target {
        None
    } else {
        match ids.index_of_first(src) {
            None => None,
            Some(from) => {
                let rest = ids.remove(from);
                match rest.index_of_first(target) {
                    None => None,
                    Some(at) => Some(rest.insert(if before { at } else { at + 1 }, src)),
                }
            },
        }
    }
}

/// Position of the first `x` in `v`.
fn position_of(v: &Vec<i64>, x: i64) -> (r: Option<usize>)
    ensures
        match r {
            Some(i) => v@.index_of_first(x) == Some(i as int),
            None => v@.index_of_first(x) is None,
        },
        r matches Some(i) ==> i < v.len(),
{
    proof {
        v@.index_of_first_ensures(x);
    }
    let mut i: usize = 0;
    while i < v.len()
        invariant
            i <= v.len(),
            forall|k: int| 0 <= k < i ==> v@[k] != x,
            match v@.index_of_first(x) {
                Some(index) => {
                    &&& v@.contains(x)
                    &&& 0 <= index < v.len()
                    &&& v@[index] == x
                    &&& forall|j: int| 0 <= j < index < v.len() ==> v@[j] != x
                },
                None => !v@.contains(x),
            },
        decreases v.len() - i,
    {
        if v[i] == x {
            return Some(i);
        }
        i = i + 1;
    }
    None
}

/// The manual order after dragging task `src_id` next to `target_id`
/// (above it if `before`), or `None` when the drop changes nothing.
pub fn reorder_ids(ids: &Vec<i64>, src_id: i64, target_id: i64, before: bool) -> (r: Option<Vec<i64>>)
    ensures
        match r {
            Some(v) => reordered(ids@, src_id, target_id, before) == Some(v@),
            None => reordered(ids@, src_id, target_id, before) is None,
        },
{
    if src_id == target_id {
        return None;
    }
    let from = match position_of(ids, src_id) {
        Some(i) => i,
        None => {
            return None;
        },
    };
    let mut rest = ids.clone();
    rest.remove(from);
    proof {
        assert(rest@ =~= ids@.remove(from as int));
    }
    let at = match position_of(&rest, target_id) {
        Some(i) => i,
        None => {
            return None;
        },
    };
    let pos = if before {
        at
    } else {
        at + 1
    };
    rest.insert(pos, src_id);
    Some(rest)
}

/// Dragging a task moves only that task: the same tasks stay listed, and
/// the dragged one lands right above the target when dropped above it and
/// right below it otherwise.
pub proof fn law_reorder_moves_only_the_dragged_task(ids: Seq<i64>, src: i64, target: i64, before: bool)
    requires
        reordered(ids, src, target, before) is Some,
    ensures
        ({
            let r = reordered(ids, src, target, before)->0;
            &&& r.len() == ids.len()
            &&& r.to_multiset() == ids.to_multiset()
            &&& exists|k: int|
                0 <= k && k + 1 < r.len() && if before {
                    #[trigger] r[k] == src && r[k + 1] == target
                } else {
                    r[k] == target && r[k + 1] == src
                }
        }),
{
    ids.index_of_first_ensures(src);
    let from = ids.index_of_first(src)->0;
    let rest = ids.remove(from);
    ids.remove_ensures(from);
    rest.index_of_first_ensures(target);
    let at = rest.index_of_first(target)->0;
    let pos = if before { at } else { at + 1 };
    let r = rest.insert(pos, src);
    rest.insert_ensures(pos, src);
    vstd::seq_lib::to_multiset_remove(ids, from);
    vstd::seq_lib::to_multiset_insert(rest, pos, src);
    assert(ids.to_multiset().remove(src).insert(src) =~= ids.to_multiset()) by {
        broadcast use vstd::multiset::group_multiset_axioms;
        ids.to_multiset_ensures();
        assert(ids.to_multiset().count(src) > 0);
    }
    if before {
        assert(r[at] == src && r[at + 1] == target);
    } else {
        assert(r[at] == target && r[at + 1] == src);
    }
}

// ---------------------------------------------------------------- active task

/// Position `i` holds task `a`.
pub open spec fn holds_task(ids: Seq<i64>, a: i64) -> spec_fn(usize) -> bool {
    |i: usize| ids[i as int] == a
}

/// Position `i` holds another task than `a`.
pub open spec fn holds_other(ids: Seq<i64>, a: i64) -> spec_fn(usize) -> bool {
    |i: usize| ids[i as int] != a
}

/// The open-task list with the active task moved to the very top; the
/// order of everything else stays as it was (a stable partition).
pub open spec fn active_first_order(ids: Seq<i64>, active: i64) -> Seq<usize> {
    let all = Seq::new(ids.len(), |i: int| i as usize);
    all.filter(holds_task(ids, active)) + all.filter(holds_other(ids, active))
}

/// Positions of `ids` in display order once the active task `active` (if
/// any) is lifted to the top.
pub fn active_first(ids: &Vec<i64>, active: Option<i64>) -> (r: Vec<usize>)
    ensures
        match active {
            Some(a) => r@ == active_first_order(ids@, a),
            None => r@ == Seq::new(ids.len() as nat, |i: int| i as usize),
        },
{
    let n = ids.len();
    let ghost all = Seq::new(n as nat, |i: int| i as usize);
    let mut top: Vec<usize> = Vec::new();
    let mut rest: Vec<usize> = Vec::new();
    let mut i: usize = 0;
    while i < n
        invariant
            n == ids.len(),
            all == Seq::new(n as nat, |i: int| i as usize),
            i <= n,
            match active {
                Some(a) => {
                    &&& top@ == all.take(i as int).filter(holds_task(ids@, a))
                    &&& rest@ == all.take(i as int).filter(holds_other(ids@, a))
                },
                None => rest@ == all.take(i as int) && top@.len() == 0,
            },
        decreases n - i,
    {
        proof {
            assert(all.take(i + 1) =~= all.take(i as int).push(i));
            reveal(Seq::filter);
            if let Some(a) = active {
                assert(all.take(i + 1).drop_last() =~= all.take(i as int));
            }
        }
        let lift = match active {
            Some(a) => ids[i] == a,
            None => false,
        };
        if lift {
            top.push(i);
        } else {
            rest.push(i);
        }
        i = i + 1;
    }
    proof {
        assert(all.take(n as int) =~= all);
    }
    append_usizes(&mut top, &rest);
    proof {
        if active is None {
            assert(top@ =~= all);
        }
    }
    top
}

/// Appends `v` to `dst`.
fn append_usizes(dst: &mut Vec<usize>, v: &Vec<usize>)
    ensures
        final(dst)@ == old(dst)@ + v@,
{
    let mut i: usize = 0;
    while i < v.len()
        invariant
            i <= v.len(),
            dst@ == old(dst)@ + v@.take(i as int),
        decreases v.len() - i,
    {
        dst.push(v[i]);
        proof {
            assert(v@.take(i + 1) =~= v@.take(i as int).push(v@[i as int]));
        }
        i = i + 1;
    }
    proof {
        assert(v@.take(v.len() as int) =~= v@);
    }
}

/// Whether the saved active task may stay active: only while it is still
/// open and in progress.
pub fn active_still_doing(open_ids: &Vec<i64>, open_statuses: &Vec<TaskStatus>, id: i64) -> (r: bool)
    requires
        open_ids.len() == open_statuses.len(),
    ensures
        r == exists|i: int|
            0 <= i < open_ids.len() && open_ids@[i] == id && open_statuses@[i] == TaskStatus::Doing,
{
    let mut i: usize = 0;
    while i < open_ids.len()
        invariant
            open_ids.len() == open_statuses.len(),
            i <= open_ids.len(),
            forall|k: int| 0 <= k < i ==> !(open_ids@[k] == id && open_statuses@[k] == TaskStatus::Doing),
        decreases open_ids.len() - i,
    {
        if open_ids[i] == id && open_statuses[i] == TaskStatus::Doing {
            return true;
        }
        i = i + 1;
    }
    false
}

// ---------------------------------------------------------------- defaults

/// The project the capture form starts on: the last one used while it is
/// still active, else the first active project, else none.
pub open spec fn default_project_spec(projects: Seq<Project>, last: Option<i64>) -> Option<i64> {
    let active = projects.filter(|p: Project| p.status == ProjectStatus::Active);
    if last matches Some(l) && exists|i: int| 0 <= i < active.len() && active[i].id == l {
        last
    } else if active.len() > 0 {
        Some(active[0].id)
    } else {
        None
    }
}

/// The project the capture form starts on.
pub fn default_project(projects: &Vec<Project>, last: Option<i64>) -> (r: Option<i64>)
    ensures
        r == default_project_spec(projects@, last),
{
    let ghost active = projects@.filter(|p: Project| p.status == ProjectStatus::Active);
    let mut first: Option<i64> = None;
    let mut found = false;
    let mut i: usize = 0;
    while i < projects.len()
        invariant
            active == projects@.filter(|p: Project| p.status == ProjectStatus::Active),
            i <= projects.len(),
            ({
                let seen = projects@.take(i as int).filter(|p: Project| p.status == ProjectStatus::Active);
                &&& (first is None <==> seen.len() == 0)
                &&& seen.len() > 0 ==> first == Some(seen[0].id)
                &&& found == (last matches Some(l) && exists|k: int| 0 <= k < seen.len() && seen[k].id == l)
            }),
        decreases projects.len() - i,
    {
        let ghost seen = projects@.take(i as int).filter(|p: Project| p.status == ProjectStatus::Active);
        let p = &projects[i];
        proof {
            reveal(Seq::filter);
            assert(projects@.take(i + 1).drop_last() =~= projects@.take(i as int));
            assert(projects@.take(i + 1).last() == projects@[i as int]);
        }
        if p.status == ProjectStatus::Active {
            let ghost seen2 = projects@.take(i + 1).filter(|p: Project| p.status == ProjectStatus::Active);
            proof {
                assert(seen2 == seen.push(*p));
                if found {
                    let k = choose|k: int| 0 <= k < seen.len() && seen[k].id == last->0;
                    assert(seen2[k] == seen[k]);
                }
                if last == Some(p.id) {
                    assert(seen2[seen.len() as int].id == p.id);
                }
                if !found && !(last matches Some(l) && p.id == l) {
                    assert forall|k: int| 0 <= k < seen2.len() implies !(last matches Some(l) && (#[trigger] seen2[k]).id == l) by {
                        if k < seen.len() {
                            assert(seen2[k] == seen[k]);
                        }
                    }
                }
                if seen.len() > 0 {
                    assert(seen2[0] == seen[0]);
                }
            }
            if first.is_none() {
                first = Some(p.id);
            }
            match last {
                Some(l) => {
                    if p.id == l {
                        found = true;
                    }
                },
                None => {},
            }
        }
        i = i + 1;
    }
    proof {
        assert(projects@.take(projects.len() as int) =~= projects@);
    }
    if found {
        last
    } else {
        first
    }
}

/// `s` cut to at most `max` characters: its first `max - 1` and an
/// ellipsis when it is longer.
pub open spec fn cut_to(s: Seq<char>, max: nat) -> Seq<char> {
    if s.len() > max {
        s.take(max - 1).push('…')
    } else {
        s
    }
}

/// The active-task chip's title: at most 40 characters, cut to 39 and an
/// ellipsis when longer.
pub open spec fn chip_title_text(title: Seq<char>) -> Seq<char> {
    cut_to(title, 40)
}

/// `s` cut to at most `max` characters.
fn cut_text(s: &str, max: usize) -> (r: String)
    requires
        max >= 1,
    ensures
        r@ == cut_to(s@, max as nat),
{
    let v = chars_of(s);
    if v.len() > max {
        let mut w: Vec<char> = Vec::new();
        let mut i: usize = 0;
        while i < max - 1
            invariant
                v.len() > max >= 1,
                i <= max - 1,
                w@ == v@.take(i as int),
            decreases max - 1 - i,
        {
            w.push(v[i]);
            proof {
                assert(v@.take(i + 1) =~= v@.take(i as int).push(v@[i as int]));
            }
            i = i + 1;
        }
        w.push('…');
        string_of(&w)
    } else {
        string_of(&v)
    }
}

/// The active-task chip's title.
pub fn chip_title(title: &str) -> (r: String)
    ensures
        r@ == chip_title_text(title@),
{
    cut_text(title, 40)
}

// ---------------------------------------------------------------- global search

/// The query the global search runs: the typed text trimmed, once it has
/// at least two characters.
pub fn search_query(typed: &str) -> (r: Option<String>)
    ensures
        match r {
            Some(q) => trim(typed@).len() >= 2 && q@ == trim(typed@),
            None => trim(typed@).len() < 2,
        },
{
    let q = trim_chars(&chars_of(typed));
    if q.len() >= 2 {
        Some(string_of(&q))
    } else {
        None
    }
}

/// How a search result names a task's status.
pub open spec fn search_status_text(s: TaskStatus) -> Seq<char> {
    match s {
        TaskStatus::Doing => "in progress"@,
        TaskStatus::Done => "done"@,
        TaskStatus::Todo => "to-do"@,
    }
}

/// How a search result names a task's status.
pub fn search_status_word(s: TaskStatus) -> (r: &'static str)
    ensures
        r@ == search_status_text(s),
{
    match s {
        TaskStatus::Doing => "in progress",
        TaskStatus::Done => "done",
        TaskStatus::Todo => "to-do",
    }
}

/// A journal entry's description as a search result shows it: at most 80
/// characters.
pub fn search_snippet(description: &str) -> (r: String)
    ensures
        r@ == cut_to(description@, 80),
{
    cut_text(description, 80)
}

// ---------------------------------------------------------------- task actions

/// A user action on a task row.
#[derive(Debug)]
pub enum TaskAction {
    /// Tick the done box of a task that had status `status`.
    Complete { id: i64, status: TaskStatus },
    /// "Log time so far" on a task in progress.
    LogSoFar(i64),
    SetStatus(i64, TaskStatus),
    SetPriority(i64, Priority),
    Rename(i64, String),
    /// Start a task and make it the active one.
    Activate(i64),
    Delete(i64),
    /// Move task `.0` above (`.2`) or below task `.1` in the manual order.
    Reorder(i64, i64, bool),
}

/// One step the app takes, in order, to carry out an action.
#[derive(Debug)]
pub enum Effect {
    SetStatus(i64, TaskStatus),
    StopTimer(i64),
    StartTimer(i64),
    SetActive(Option<i64>),
    /// Open the task-to-log bridge on the task.
    OpenBridge(i64, PendingKind),
    SetPriority(i64, Priority),
    Rename(i64, String),
    Delete(i64),
    /// Offer to undo the deletion of the task.
    OfferUndo(i64),
    Reorder(i64, i64, bool),
    /// Reload the visible lists.
    Refresh,
}

/// `e` when `c` holds, nothing otherwise.
pub open spec fn only_if(c: bool, e: Effect) -> Seq<Effect> {
    if c {
        seq![e]
    } else {
        Seq::empty()
    }
}

/// The steps an action takes while `active` is the active task: completing
/// stops the timer, drops the active mark and opens the bridge; leaving
/// "in progress" stops the timer and drops the active mark; activating
/// starts the task and its timer.
pub open spec fn task_effects(action: TaskAction, active: Option<i64>) -> Seq<Effect> {
    match action {
        TaskAction::Complete { id, status } => seq![Effect::SetStatus(id, TaskStatus::Done), Effect::StopTimer(id)]
            + only_if(active == Some(id), Effect::SetActive(None)) + seq![
            Effect::OpenBridge(id, PendingKind::Completed { prev_status: status, was_active: active == Some(id) }),
            Effect::Refresh,
        ],
        TaskAction::LogSoFar(id) => seq![
            Effect::StopTimer(id),
            Effect::StartTimer(id),
            Effect::OpenBridge(id, PendingKind::Midway),
            Effect::Refresh,
        ],
        TaskAction::SetStatus(id, status) => seq![Effect::SetStatus(id, status)] + only_if(
            status != TaskStatus::Doing && active == Some(id),
            Effect::SetActive(None),
        ) + only_if(status != TaskStatus::Doing, Effect::StopTimer(id)) + seq![Effect::Refresh],
        TaskAction::SetPriority(id, p) => seq![Effect::SetPriority(id, p), Effect::Refresh],
        TaskAction::Rename(id, title) => seq![Effect::Rename(id, title), Effect::Refresh],
        TaskAction::Activate(id) => seq![
            Effect::SetStatus(id, TaskStatus::Doing),
            Effect::StartTimer(id),
            Effect::Refresh,
            Effect::SetActive(Some(id)),
        ],
        TaskAction::Delete(id) => seq![Effect::Delete(id), Effect::OfferUndo(id)] + only_if(
            active == Some(id),
            Effect::SetActive(None),
        ) + seq![Effect::Refresh],
        TaskAction::Reorder(src, target, before) => seq![Effect::Reorder(src, target, before)],
    }
}

/// The steps that carry out `action` while `active` is the active task.
pub fn plan_task_action(action: TaskAction, active: Option<i64>) -> (r: Vec<Effect>)
    ensures
        r@ == task_effects(action, active),
{
    let ghost a = action;
    let mut r: Vec<Effect> = Vec::new();
    match action {
        TaskAction::Complete { id, status } => {
            let was_active = active == Some(id);
            r.push(Effect::SetStatus(id, TaskStatus::Done));
            r.push(Effect::StopTimer(id));
            if was_active {
                r.push(Effect::SetActive(None));
            }
            r.push(Effect::OpenBridge(id, PendingKind::Completed { prev_status: status, was_active }));
            r.push(Effect::Refresh);
        },
        TaskAction::LogSoFar(id) => {
            r.push(Effect::StopTimer(id));
            r.push(Effect::StartTimer(id));
            r.push(Effect::OpenBridge(id, PendingKind::Midway));
            r.push(Effect::Refresh);
        },
        TaskAction::SetStatus(id, status) => {
            r.push(Effect::SetStatus(id, status));
            if status != TaskStatus::Doing && active == Some(id) {
                r.push(Effect::SetActive(None));
            }
            if status != TaskStatus::Doing {
                r.push(Effect::StopTimer(id));
            }
            r.push(Effect::Refresh);
        },
        TaskAction::SetPriority(id, p) => {
            r.push(Effect::SetPriority(id, p));
            r.push(Effect::Refresh);
        },
        TaskAction::Rename(id, title) => {
            r.push(Effect::Rename(id, title));
            r.push(Effect::Refresh);
        },
        TaskAction::Activate(id) => {
            r.push(Effect::SetStatus(id, TaskStatus::Doing));
            r.push(Effect::StartTimer(id));
            r.push(Effect::Refresh);
            r.push(Effect::SetActive(Some(id)));
        },
        TaskAction::Delete(id) => {
            r.push(Effect::Delete(id));
            r.push(Effect::OfferUndo(id));
            if active == Some(id) {
                r.push(Effect::SetActive(None));
            }
            r.push(Effect::Refresh);
        },
        TaskAction::Reorder(src, target, before) => {
            r.push(Effect::Reorder(src, target, before));
        },
    }
    proof {
        assert(r@ =~= task_effects(a, active));
    }
    r
}

/// The steps that undo a completion from the bridge ("Cancel"): the task
/// goes back to its status, its timer restarts if it was in progress, and
/// it becomes the active task again if it was. Nothing for a bridge opened
/// midway.
pub open spec fn undo_effects(id: i64, kind: PendingKind) -> Seq<Effect> {
    match kind {
        PendingKind::Completed { prev_status, was_active } => seq![Effect::SetStatus(id, prev_status)]
            + only_if(prev_status == TaskStatus::Doing, Effect::StartTimer(id)) + seq![Effect::Refresh]
            + only_if(was_active, Effect::SetActive(Some(id))),
        PendingKind::Midway => Seq::empty(),
    }
}

/// The steps that undo a completion from the bridge.
pub fn plan_undo_complete(id: i64, kind: PendingKind) -> (r: Vec<Effect>)
    ensures
        r@ == undo_effects(id, kind),
{
    let mut r: Vec<Effect> = Vec::new();
    match kind {
        PendingKind::Completed { prev_status, was_active } => {
            r.push(Effect::SetStatus(id, prev_status));
            if prev_status == TaskStatus::Doing {
                r.push(Effect::StartTimer(id));
            }
            r.push(Effect::Refresh);
            if was_active {
                r.push(Effect::SetActive(Some(id)));
            }
        },
        PendingKind::Midway => {},
    }
    proof {
        assert(r@ =~= undo_effects(id, kind));
    }
    r
}

/// What the steps do to one task: its status, whether its timer runs,
/// and which task is the active one.
pub struct TaskState {
    pub status: TaskStatus,
    pub timer_running: bool,
    pub active: Option<i64>,
}

/// One step applied to the state of task `id`.
pub open spec fn effect_step(st: TaskState, id: i64, e: Effect) -> TaskState {
    match e {
        Effect::SetStatus(i, s) => if i == id {
            TaskState { status: s, ..st }
        } else {
            st
        },
        Effect::StopTimer(i) => if i == id {
            TaskState { timer_running: false, ..st }
        } else {
            st
        },
        Effect::StartTimer(i) => if i == id {
            TaskState { timer_running: true, ..st }
        } else {
            st
        },
        Effect::SetActive(a) => TaskState { active: a, ..st },
        _ => st,
    }
}

/// The steps `es`, in order, applied to the state of task `id`.
pub open spec fn effects_run(st: TaskState, id: i64, es: Seq<Effect>) -> TaskState
    decreases es.len(),
{
    if es.len() == 0 {
        st
    } else {
        effects_run(effect_step(st, id, es[0]), id, es.drop_first())
    }
}

proof fn lemma_effects_run_concat(st: TaskState, id: i64, a: Seq<Effect>, b: Seq<Effect>)
    ensures
        effects_run(st, id, a + b) == effects_run(effects_run(st, id, a), id, b),
    decreases a.len(),
{
    if a.len() == 0 {
        assert(a + b =~= b);
    } else {
        assert((a + b).drop_first() =~= a.drop_first() + b);
        assert((a + b)[0] == a[0]);
        lemma_effects_run_concat(effect_step(st, id, a[0]), id, a.drop_first(), b);
    }
}

proof fn lemma_effects_run_one(st: TaskState, id: i64, e: Effect)
    ensures
        effects_run(st, id, seq![e]) == effect_step(st, id, e),
{
    assert(seq![e].drop_first() =~= Seq::<Effect>::empty());
    assert(seq![e][0] == e);
    assert(effects_run(effect_step(st, id, e), id, Seq::<Effect>::empty()) == effect_step(st, id, e));
}

proof fn lemma_effects_run_cons(st: TaskState, id: i64, e: Effect, rest: Seq<Effect>)
    ensures
        effects_run(st, id, seq![e] + rest) == effects_run(effect_step(st, id, e), id, rest),
{
    assert((seq![e] + rest).drop_first() =~= rest);
    assert((seq![e] + rest)[0] == e);
}

/// Starting a task ("▶ start") puts it in progress, starts its stopwatch
/// and makes it the active task, whatever state it was in.
pub proof fn law_activate_starts_the_stopwatch(st: TaskState, id: i64, active: Option<i64>)
    ensures
        ({
            let after = effects_run(st, id, task_effects(TaskAction::Activate(id), active));
            &&& after.status == TaskStatus::Doing
            &&& after.timer_running
            &&& after.active == Some(id)
        }),
{
    let e = Effect::SetActive(Some(id));
    let s3 = seq![e];
    let s2 = seq![Effect::Refresh] + s3;
    let s1 = seq![Effect::StartTimer(id)] + s2;
    let s0 = seq![Effect::SetStatus(id, TaskStatus::Doing)] + s1;
    assert(task_effects(TaskAction::Activate(id), active) =~= s0);
    let a = effect_step(st, id, Effect::SetStatus(id, TaskStatus::Doing));
    let b = effect_step(a, id, Effect::StartTimer(id));
    let c = effect_step(b, id, Effect::Refresh);
    lemma_effects_run_cons(st, id, Effect::SetStatus(id, TaskStatus::Doing), s1);
    lemma_effects_run_cons(a, id, Effect::StartTimer(id), s2);
    lemma_effects_run_cons(b, id, Effect::Refresh, s3);
    lemma_effects_run_one(c, id, e);
}

/// Pausing or reopening a task (any status but "in progress") stops its
/// stopwatch, and it stops being the active task.
pub proof fn law_leaving_progress_stops_the_stopwatch(st: TaskState, id: i64, status: TaskStatus)
    requires
        status != TaskStatus::Doing,
    ensures
        ({
            let after = effects_run(st, id, task_effects(TaskAction::SetStatus(id, status), st.active));
            &&& after.status == status
            &&& !after.timer_running
            &&& after.active != Some(id)
        }),
{
    let was = st.active == Some(id);
    let tail = seq![Effect::StopTimer(id)] + seq![Effect::Refresh];
    let a = effect_step(st, id, Effect::SetStatus(id, status));
    if was {
        let es = seq![Effect::SetStatus(id, status)] + (seq![Effect::SetActive(None)] + tail);
        assert(task_effects(TaskAction::SetStatus(id, status), st.active) =~= es);
        lemma_effects_run_cons(st, id, Effect::SetStatus(id, status), seq![Effect::SetActive(None)] + tail);
        let b = effect_step(a, id, Effect::SetActive(None));
        lemma_effects_run_cons(a, id, Effect::SetActive(None), tail);
        let c = effect_step(b, id, Effect::StopTimer(id));
        lemma_effects_run_cons(b, id, Effect::StopTimer(id), seq![Effect::Refresh]);
        lemma_effects_run_one(c, id, Effect::Refresh);
    } else {
        let es = seq![Effect::SetStatus(id, status)] + tail;
        assert(task_effects(TaskAction::SetStatus(id, status), st.active) =~= es);
        lemma_effects_run_cons(st, id, Effect::SetStatus(id, status), tail);
        let c = effect_step(a, id, Effect::StopTimer(id));
        lemma_effects_run_cons(a, id, Effect::StopTimer(id), seq![Effect::Refresh]);
        lemma_effects_run_one(c, id, Effect::Refresh);
    }
}

/// Completing a task marks it done, stops its stopwatch and ends its
/// being the active task.
pub proof fn law_complete_stops_the_stopwatch(st: TaskState, id: i64)
    ensures
        ({
            let after = effects_run(st, id, task_effects(TaskAction::Complete { id, status: st.status }, st.active));
            &&& after.status == TaskStatus::Done
            &&& !after.timer_running
            &&& after.active != Some(id)
        }),
{
    let was = st.active == Some(id);
    let k = PendingKind::Completed { prev_status: st.status, was_active: was };
    let tail = seq![Effect::OpenBridge(id, k)] + seq![Effect::Refresh];
    let a = effect_step(st, id, Effect::SetStatus(id, TaskStatus::Done));
    let b = effect_step(a, id, Effect::StopTimer(id));
    if was {
        let mid = seq![Effect::SetActive(None)] + tail;
        let es = seq![Effect::SetStatus(id, TaskStatus::Done)] + (seq![Effect::StopTimer(id)] + mid);
        assert(task_effects(TaskAction::Complete { id, status: st.status }, st.active) =~= es);
        lemma_effects_run_cons(st, id, Effect::SetStatus(id, TaskStatus::Done), seq![Effect::StopTimer(id)] + mid);
        lemma_effects_run_cons(a, id, Effect::StopTimer(id), mid);
        let c = effect_step(b, id, Effect::SetActive(None));
        lemma_effects_run_cons(b, id, Effect::SetActive(None), tail);
        lemma_effects_run_cons(c, id, Effect::OpenBridge(id, k), seq![Effect::Refresh]);
        lemma_effects_run_one(c, id, Effect::Refresh);
    } else {
        let es = seq![Effect::SetStatus(id, TaskStatus::Done)] + (seq![Effect::StopTimer(id)] + tail);
        assert(task_effects(TaskAction::Complete { id, status: st.status }, st.active) =~= es);
        lemma_effects_run_cons(st, id, Effect::SetStatus(id, TaskStatus::Done), seq![Effect::StopTimer(id)] + tail);
        lemma_effects_run_cons(a, id, Effect::StopTimer(id), tail);
        lemma_effects_run_cons(b, id, Effect::OpenBridge(id, k), seq![Effect::Refresh]);
        lemma_effects_run_one(b, id, Effect::Refresh);
    }
}

/// "Cancel" on the bridge puts a just-completed task back exactly as it
/// was: its status, its active mark and, since a timer runs exactly while
/// its task is in progress, its running timer.
pub proof fn law_cancel_restores_the_task(st: TaskState, id: i64)
    requires
        st.status != TaskStatus::Done,
        st.timer_running == (st.status == TaskStatus::Doing),
    ensures
        ({
            let done = effects_run(
                st,
                id,
                task_effects(TaskAction::Complete { id, status: st.status }, st.active),
            );
            let kind = PendingKind::Completed { prev_status: st.status, was_active: st.active == Some(id) };
            effects_run(done, id, undo_effects(id, kind)) == st
        }),
{
    let was = st.active == Some(id);
    let s1 = TaskState { status: TaskStatus::Done, timer_running: false, active: if was { None } else { st.active } };
    let head = seq![Effect::SetStatus(id, TaskStatus::Done), Effect::StopTimer(id)];
    let mid = only_if(was, Effect::SetActive(None));
    let tail = seq![
        Effect::OpenBridge(id, PendingKind::Completed { prev_status: st.status, was_active: was }),
        Effect::Refresh,
    ];
    assert(task_effects(TaskAction::Complete { id, status: st.status }, st.active) == head + mid + tail);
    lemma_effects_run_concat(st, id, head + mid, tail);
    lemma_effects_run_concat(st, id, head, mid);
    assert(head == seq![Effect::SetStatus(id, TaskStatus::Done)] + seq![Effect::StopTimer(id)]);
    lemma_effects_run_concat(st, id, seq![Effect::SetStatus(id, TaskStatus::Done)], seq![Effect::StopTimer(id)]);
    lemma_effects_run_one(st, id, Effect::SetStatus(id, TaskStatus::Done));
    lemma_effects_run_one(TaskState { status: TaskStatus::Done, ..st }, id, Effect::StopTimer(id));
    if was {
        lemma_effects_run_one(TaskState { status: TaskStatus::Done, timer_running: false, ..st }, id, Effect::SetActive(None));
    } else {
        assert(mid =~= Seq::<Effect>::empty());
        assert(effects_run(TaskState { status: TaskStatus::Done, timer_running: false, ..st }, id, mid) == TaskState { status: TaskStatus::Done, timer_running: false, ..st });
    }
    assert(effects_run(st, id, head + mid) == s1);
    assert(tail == seq![tail[0]] + seq![Effect::Refresh]);
    lemma_effects_run_concat(s1, id, seq![tail[0]], seq![Effect::Refresh]);
    lemma_effects_run_one(s1, id, tail[0]);
    lemma_effects_run_one(s1, id, Effect::Refresh);
    assert(effects_run(st, id, head + mid + tail) == s1);
    // the undo
    let kind = PendingKind::Completed { prev_status: st.status, was_active: was };
    let u1 = seq![Effect::SetStatus(id, st.status)];
    let u2 = only_if(st.status == TaskStatus::Doing, Effect::StartTimer(id));
    let u3 = seq![Effect::Refresh];
    let u4 = only_if(was, Effect::SetActive(Some(id)));
    assert(undo_effects(id, kind) == u1 + u2 + u3 + u4);
    lemma_effects_run_concat(s1, id, u1 + u2 + u3, u4);
    lemma_effects_run_concat(s1, id, u1 + u2, u3);
    lemma_effects_run_concat(s1, id, u1, u2);
    lemma_effects_run_one(s1, id, Effect::SetStatus(id, st.status));
    let s2 = TaskState { status: st.status, ..s1 };
    let s3 = TaskState { timer_running: st.status == TaskStatus::Doing, ..s2 };
    if st.status == TaskStatus::Doing {
        lemma_effects_run_one(s2, id, Effect::StartTimer(id));
    } else {
        assert(u2 =~= Seq::<Effect>::empty());
        assert(effects_run(s2, id, u2) == s2);
    }
    lemma_effects_run_one(s3, id, Effect::Refresh);
    if was {
        lemma_effects_run_one(s3, id, Effect::SetActive(Some(id)));
    } else {
        assert(u4 =~= Seq::<Effect>::empty());
        assert(effects_run(s3, id, u4) == s3);
    }
}

// ---------------------------------------------------------------- settings

/// The stored text of a list sort.
pub open spec fn sort_setting_text(sort: TaskSort) -> Seq<char> {
    match sort {
        TaskSort::Auto => "auto"@,
        TaskSort::Manual => "manual"@,
    }
}

/// The text stored for a list sort.
pub fn sort_setting(sort: TaskSort) -> (r: &'static str)
    ensures
        r@ == sort_setting_text(sort),
{
    match sort {
        TaskSort::Auto => "auto",
        TaskSort::Manual => "manual",
    }
}

/// The preferences restored at startup from the stored settings.
#[derive(Clone, Copy, PartialEq, Eq, Structural, Debug)]
pub struct StartupPrefs {
    pub group_tasks: bool,
    pub show_notes_panel: bool,
    pub pdf_include_notes: bool,
    pub task_sort: TaskSort,
}

/// A stored setting equals `lit`.
pub open spec fn setting_is(v: Option<Seq<char>>, lit: Seq<char>) -> bool {
    v == Some(lit)
}

/// Whether a stored setting equals `lit`.
fn setting_equals(v: Option<&str>, lit: &str) -> (r: bool)
    ensures
        r == setting_is(
            match v {
                Some(s) => Some(s@),
                None => None,
            },
            lit@,
        ),
{
    match v {
        Some(s) => str_is(s, lit),
        None => false,
    }
}

/// The view of an optional setting.
pub open spec fn opt_view(v: Option<&str>) -> Option<Seq<char>> {
    match v {
        Some(s) => Some(s@),
        None => None,
    }
}

/// The preferences for the stored `group_tasks`, `notes_panel`,
/// `pdf_notes` and `task_sort` settings: the two panels are off unless set
/// to "1", PDF notes are on unless set to "0", and the list sorts itself
/// unless set to "manual".
pub fn startup_prefs(
    group_tasks: Option<&str>,
    notes_panel: Option<&str>,
    pdf_notes: Option<&str>,
    task_sort: Option<&str>,
) -> (r: StartupPrefs)
    ensures
        r.group_tasks == setting_is(opt_view(group_tasks), "1"@),
        r.show_notes_panel == setting_is(opt_view(notes_panel), "1"@),
        r.pdf_include_notes == !setting_is(opt_view(pdf_notes), "0"@),
        r.task_sort == (if setting_is(opt_view(task_sort), "manual"@) {
            TaskSort::Manual
        } else {
            TaskSort::Auto
        }),
{
    StartupPrefs {
        group_tasks: setting_equals(group_tasks, "1"),
        show_notes_panel: setting_equals(notes_panel, "1"),
        pdf_include_notes: !setting_equals(pdf_notes, "0"),
        task_sort: if setting_equals(task_sort, "manual") {
            TaskSort::Manual
        } else {
            TaskSort::Auto
        },
    }
}

/// A stored list sort reads back as itself.
pub proof fn law_sort_setting_roundtrip(sort: TaskSort)
    ensures
        (if setting_is(Some(sort_setting_text(sort)), "manual"@) {
            TaskSort::Manual
        } else {
            TaskSort::Auto
        }) == sort,
{
    reveal_strlit("auto");
    reveal_strlit("manual");
    assert("auto"@.len() != "manual"@.len());
}

/// The monthly vacuum is due unless it already ran this month (`last` is
/// the month it last ran, `this_month` the current one, as `YYYY-MM`).
pub fn vacuum_due(last: Option<&str>, this_month: &str) -> (r: bool)
    ensures
        r == !setting_is(opt_view(last), this_month@),
{
    !setting_equals(last, this_month)
}

/// What the database's quick check reported: nothing when it said "ok",
/// else its report.
pub fn integrity_problem(report: String) -> (r: Option<String>)
    ensures
        match r {
            Some(t) => report@ != "ok"@ && t@ == report@,
            None => report@ == "ok"@,
        },
{
    if str_is(report.as_str(), "ok") {
        None
    } else {
        Some(report)
    }
}

// ---------------------------------------------------------------- project form

/// What the project form saves: trimmed code and name, and the trimmed
/// client unless it is blank.
pub struct ProjectDraft {
    pub code: String,
    pub name: String,
    pub client: Option<String>,
}

impl ProjectForm {
    /// The form filled in from `p`, for editing it.
    pub fn for_project(p: &Project) -> (r: ProjectForm)
        ensures
            r.id == Some(p.id),
            r.code@ == p.code@,
            r.name@ == p.name@,
            r.client@ == (match p.client {
                Some(c) => c@,
                None => Seq::empty(),
            }),
    {
        ProjectForm {
            id: Some(p.id),
            code: string_of(&chars_of(p.code.as_str())),
            name: string_of(&chars_of(p.name.as_str())),
            client: match &p.client {
                Some(c) => string_of(&chars_of(c.as_str())),
                None => String::new(),
            },
        }
    }

    /// The form can be saved: code and name are not blank.
    pub fn is_valid(&self) -> (r: bool)
        ensures
            r == (trim(self.code@).len() > 0 && trim(self.name@).len() > 0),
    {
        trim_chars(&chars_of(self.code.as_str())).len() > 0 && trim_chars(&chars_of(self.name.as_str())).len() > 0
    }

    /// What saving the form stores.
    pub fn draft(&self) -> (r: ProjectDraft)
        ensures
            r.code@ == trim(self.code@),
            r.name@ == trim(self.name@),
            match r.client {
                Some(c) => trim(self.client@).len() > 0 && c@ == trim(self.client@),
                None => trim(self.client@).len() == 0,
            },
    {
        let client = trim_chars(&chars_of(self.client.as_str()));
        ProjectDraft {
            code: string_of(&trim_chars(&chars_of(self.code.as_str()))),
            name: string_of(&trim_chars(&chars_of(self.name.as_str()))),
            client: if client.len() > 0 {
                Some(string_of(&client))
            } else {
                None
            },
        }
    }
}

// ---------------------------------------------------------------- lists

/// Where a list shows a subheader: at its first row and wherever the key
/// (the day of a journal entry, the status of a task) changes.
pub fn section_starts(keys: &Vec<i64>) -> (r: Vec<bool>)
    ensures
        r.len() == keys.len(),
        forall|i: int| 0 <= i < r.len() ==> #[trigger] r@[i] == (i == 0 || keys@[i] != keys@[i - 1]),
{
    let mut r: Vec<bool> = Vec::new();
    let mut i: usize = 0;
    while i < keys.len()
        invariant
            i <= keys.len(),
            r.len() == i,
            forall|k: int| 0 <= k < i ==> #[trigger] r@[k] == (k == 0 || keys@[k] != keys@[k - 1]),
        decreases keys.len() - i,
    {
        r.push(i == 0 || keys[i] != keys[i - 1]);
        i = i + 1;
    }
    r
}

/// The subheader over a run of open tasks with status `s`.
pub fn status_section_label(s: TaskStatus) -> (r: &'static str)
    ensures
        r@ == (if s == TaskStatus::Doing {
            "In progress"@
        } else {
            "To do"@
        }),
{
    match s {
        TaskStatus::Doing => "In progress",
        _ => "To do",
    }
}

/// The note shown when the Completed section lists nothing: a filter is
/// hiding tasks, or nothing was ever completed.
pub fn done_empty_message(filter: &str, range: FilterRange) -> (r: &'static str)
    ensures
        r@ == (if trim(filter@).len() > 0 || range != FilterRange::All {
            "No match."@
        } else {
            "Nothing completed yet."@
        }),
{
    let filtered = trim_chars(&chars_of(filter)).len() > 0 || range != FilterRange::All;
    if filtered {
        "No match."
    } else {
        "Nothing completed yet."
    }
}

// ---------------------------------------------------------------- task rows

/// A button on an open task's row.
#[derive(Clone, Copy, PartialEq, Eq, Structural, Debug)]
pub enum RowButton {
    /// Mark in progress and make it the active task.
    Start,
    /// Back to to-do.
    Pause,
    /// Log the time tracked so far; the task stays open.
    LogSoFar,
    /// Make this in-progress task the active one.
    Focus,
}

/// The status buttons a row offers: start a to-do task; pause or log an
/// in-progress one, and focus it unless it is already the active task.
pub open spec fn row_buttons_spec(status: TaskStatus, is_active: bool) -> Seq<RowButton> {
    match status {
        TaskStatus::Todo => seq![RowButton::Start],
        TaskStatus::Doing => if is_active {
            seq![RowButton::Pause, RowButton::LogSoFar]
        } else {
            seq![RowButton::Pause, RowButton::LogSoFar, RowButton::Focus]
        },
        TaskStatus::Done => Seq::empty(),
    }
}

/// What a row lets you do follows its status: a to-do can be started; a
/// task in progress can be paused and have its time so far logged, and
/// can be made the active task unless it is already; a done task offers
/// none of these.
pub proof fn law_row_buttons_follow_the_status(is_active: bool)
    ensures
        row_buttons_spec(TaskStatus::Todo, is_active).contains(RowButton::Start),
        !row_buttons_spec(TaskStatus::Todo, is_active).contains(RowButton::Pause),
        row_buttons_spec(TaskStatus::Doing, is_active).contains(RowButton::Pause),
        row_buttons_spec(TaskStatus::Doing, is_active).contains(RowButton::LogSoFar),
        !row_buttons_spec(TaskStatus::Doing, is_active).contains(RowButton::Start),
        row_buttons_spec(TaskStatus::Doing, is_active).contains(RowButton::Focus) == !is_active,
        row_buttons_spec(TaskStatus::Done, is_active).len() == 0,
{
    let d = row_buttons_spec(TaskStatus::Doing, is_active);
    assert(d[0] == RowButton::Pause && d[1] == RowButton::LogSoFar);
    assert(row_buttons_spec(TaskStatus::Todo, is_active)[0] == RowButton::Start);
    if !is_active {
        assert(d[2] == RowButton::Focus);
    }
}

/// The status buttons a row offers.
pub fn row_buttons(status: TaskStatus, is_active: bool) -> (r: Vec<RowButton>)
    ensures
        r@ == row_buttons_spec(status, is_active),
{
    let mut r: Vec<RowButton> = Vec::new();
    match status {
        TaskStatus::Todo => r.push(RowButton::Start),
        TaskStatus::Doing => {
            r.push(RowButton::Pause);
            r.push(RowButton::LogSoFar);
            if !is_active {
                r.push(RowButton::Focus);
            }
        },
        TaskStatus::Done => {},
    }
    proof {
        assert(r@ =~= row_buttons_spec(status, is_active));
    }
    r
}

/// The hover text of a task's title: when it was added, its tracked time
/// when there is any, and the edit hint.
pub open spec fn task_hover_text(added: Seq<char>, tracked_secs: int) -> Seq<char> {
    "added "@ + added + (if tracked_secs > 0 {
        "\n⏱ "@ + duration_text(tracked_secs) + " tracked"@
    } else {
        Seq::empty()
    }) + "\ndouble-click to edit"@
}

/// The hover text of a task's title (`added` is its creation day).
pub fn task_hover(added: &str, tracked_secs: i64) -> (r: String)
    requires
        tracked_secs <= i64::MAX - 30,
    ensures
        r@ == task_hover_text(added@, tracked_secs as int),
{
    let mut v = chars_of("added ");
    let a = chars_of(added);
    append_chars(&mut v, &a);
    let mut mid: Vec<char> = Vec::new();
    if tracked_secs > 0 {
        mid = chars_of("\n⏱ ");
        let d = fmt_duration(tracked_secs);
        let dv = chars_of(d.as_str());
        append_chars(&mut mid, &dv);
        let t = chars_of(" tracked");
        append_chars(&mut mid, &t);
    }
    append_chars(&mut v, &mid);
    let tail = chars_of("\ndouble-click to edit");
    append_chars(&mut v, &tail);
    proof {
        if tracked_secs <= 0 {
            assert(mid@ =~= Seq::<char>::empty());
        }
    }
    string_of(&v)
}

/// The selection a notes toolbar action applies to: the editor's cursor
/// range in order, or the end of the text when the editor was never
/// focused.
pub fn editor_selection(cursor: Option<(usize, usize)>, text_chars: usize) -> (r: (usize, usize))
    ensures
        match cursor {
            Some((x, y)) => r == (if x <= y { (x, y) } else { (y, x) }),
            None => r == (text_chars, text_chars),
        },
        r.0 <= r.1,
{
    match cursor {
        Some((x, y)) => if x <= y {
            (x, y)
        } else {
            (y, x)
        },
        None => (text_chars, text_chars),
    }
}

// ---------------------------------------------------------------- grouped list

/// `sections` is the by-project view of tasks with project codes `codes`:
/// one section per code, codes in text order, each listing the positions
/// of its tasks in their list order, every task in its project's section.
pub open spec fn sections_of(codes: Seq<Seq<char>>, sections: Seq<(Seq<char>, Seq<usize>)>) -> bool {
    &&& forall|k: int| 0 <= k < sections.len() ==> (#[trigger] sections[k]).1.len() > 0
    &&& forall|k: int, a: int|
        0 <= k < sections.len() && 0 <= a < sections[k].1.len() ==> (#[trigger] sections[k].1[a]) < codes.len()
            && codes[sections[k].1[a] as int] == sections[k].0
    &&& forall|k: int, a: int, b: int|
        0 <= k < sections.len() && 0 <= a < b < sections[k].1.len() ==> #[trigger] sections[k].1[a]
            < #[trigger] sections[k].1[b]
    &&& forall|k: int| 0 <= k < sections.len() - 1 ==> text_lt(#[trigger] sections[k].0, sections[k + 1].0)
    &&& forall|i: usize|
        #![trigger codes[i as int]]
        i < codes.len() ==> exists|k: int|
            0 <= k < sections.len() && sections[k].0 == codes[i as int] && (#[trigger] sections[k].1).contains(i)
}

/// The sections' codes and positions, as plain values.
pub open spec fn sections_view(v: Seq<(String, Vec<usize>)>) -> Seq<(Seq<char>, Seq<usize>)> {
    v.map_values(|s: (String, Vec<usize>)| (s.0@, s.1@))
}

/// The open tasks grouped by project: for each project code, in text
/// order, the positions (into `codes`) of its tasks in list order.
pub fn project_sections(codes: &Vec<String>) -> (r: Vec<(String, Vec<usize>)>)
    ensures
        sections_of(codes@.map_values(|c: String| c@), sections_view(r@)),
{
    let ghost cs = codes@.map_values(|c: String| c@);
    let mut keys: Vec<TextKey> = Vec::new();
    let mut i: usize = 0;
    while i < codes.len()
        invariant
            i <= codes.len(),
            keys@ == codes@.take(i as int).map_values(|c: String| TextKey { text: c }),
        decreases codes.len() - i,
    {
        keys.push(TextKey { text: codes[i].clone() });
        proof {
            assert(codes@.take(i + 1) =~= codes@.take(i as int).push(codes@[i as int]));
            assert(keys@ =~= codes@.take(i + 1).map_values(|c: String| TextKey { text: c }));
        }
        i = i + 1;
    }
    proof {
        assert(codes@.take(codes.len() as int) =~= codes@);
    }
    let order = stable_order(&keys);
    let ghost ks = keys@;
    let mut r: Vec<(String, Vec<usize>)> = Vec::new();
    let mut p: usize = 0;
    while p < order.len()
        invariant
            cs == codes@.map_values(|c: String| c@),
            ks == keys@,
            keys@ == codes@.map_values(|c: String| TextKey { text: c }),
            stably_sorted(ks, order@),
            order.len() == codes.len(),
            p <= order.len(),
            p == 0 <==> r.len() == 0,
            p > 0 ==> r@.last().0@ == cs[order@[p - 1] as int] && r@.last().1@.len() > 0 && r@.last().1@.last()
                == order@[p - 1],
            ({
                let sv = sections_view(r@);
                &&& forall|k: int| 0 <= k < sv.len() ==> (#[trigger] sv[k]).1.len() > 0
                &&& forall|k: int, a: int|
                    0 <= k < sv.len() && 0 <= a < sv[k].1.len() ==> (#[trigger] sv[k].1[a]) < cs.len() && cs[sv[k].1[a] as int] == sv[k].0
                &&& forall|k: int, a: int, b: int|
                    0 <= k < sv.len() && 0 <= a < b < sv[k].1.len() ==> #[trigger] sv[k].1[a] < #[trigger] sv[k].1[b]
                &&& forall|k: int| 0 <= k < sv.len() - 1 ==> text_lt(#[trigger] sv[k].0, sv[k + 1].0)
                &&& forall|q: int|
                    #![trigger order@[q]]
                    0 <= q < p ==> exists|k: int|
                        0 <= k < sv.len() && sv[k].0 == cs[order@[q] as int] && (#[trigger] sv[k].1).contains(order@[q])
            }),
        decreases order.len() - p,
    {
        let x = order[p];
        let ghost sv0 = sections_view(r@);
        proof {
            assert(ks[x as int] == TextKey { text: codes@[x as int] });
        }
        let same = if p > 0 {
            let a = crate::text::chars_of(codes[order[p - 1]].as_str());
            let b = crate::text::chars_of(codes[x].as_str());
            crate::text::chars_eq(&a, &b)
        } else {
            false
        };
        if same {
            proof {
                let y = order@[p - 1];
                assert(before(ks, y as int, x as int));
                assert(ks[y as int].text@ == ks[x as int].text@);
                lemma_text_lt_irreflexive(ks[x as int].text@);
                assert(y < x);
            }
            let (c, mut v) = r.pop().unwrap();
            v.push(x);
            r.push((c, v));
            proof {
                let sv = sections_view(r@);
                let last = sv.len() - 1;
                assert(sv.drop_last() =~= sv0.drop_last());
                assert(sv[last].1 == sv0[last].1.push(x));
                assert(sv[last].0 == sv0[last].0);
                assert forall|k: int, a: int, b: int|
                    0 <= k < sv.len() && 0 <= a < b < sv[k].1.len() implies #[trigger] sv[k].1[a] < #[trigger] sv[k].1[b] by {
                    if k < last {
                        assert(sv[k] == sv0[k]);
                    } else if b < sv0[k].1.len() {
                        assert(sv0[k].1[a] < sv0[k].1[b]);
                    } else {
                        if a < sv0[k].1.len() - 1 {
                            assert(sv0[k].1[a] < sv0[k].1[sv0[k].1.len() - 1]);
                        }
                    }
                }
                assert forall|k: int, a: int|
                    0 <= k < sv.len() && 0 <= a < sv[k].1.len() implies (#[trigger] sv[k].1[a]) < cs.len() && cs[sv[k].1[a] as int] == sv[k].0 by {
                    if k < last {
                        assert(sv[k] == sv0[k]);
                    } else if a < sv0[k].1.len() {
                        assert(sv[k].1[a] == sv0[k].1[a]);
                    }
                }
                assert forall|k: int| 0 <= k < sv.len() - 1 implies text_lt(#[trigger] sv[k].0, sv[k + 1].0) by {
                    assert(sv[k] == sv0[k]);
                    if k + 1 < last {
                        assert(sv[k + 1] == sv0[k + 1]);
                    }
                }
                assert forall|k: int| 0 <= k < sv.len() implies (#[trigger] sv[k]).1.len() > 0 by {
                    if k < last {
                        assert(sv[k] == sv0[k]);
                    }
                }
                assert forall|q: int|
                    #![trigger order@[q]]
                    0 <= q < p + 1 implies exists|k: int|
                        0 <= k < sv.len() && sv[k].0 == cs[order@[q] as int] && (#[trigger] sv[k].1).contains(order@[q]) by {
                    if q < p {
                        let k = choose|k: int|
                            0 <= k < sv0.len() && sv0[k].0 == cs[order@[q] as int] && (#[trigger] sv0[k].1).contains(order@[q]);
                        let a = choose|a: int| 0 <= a < sv0[k].1.len() && sv0[k].1[a] == order@[q];
                        if k < last {
                            assert(sv[k] == sv0[k]);
                        } else {
                            assert(sv[k].1[a] == order@[q]);
                        }
                    } else {
                        assert(sv[last].1[sv[last].1.len() - 1] == x);
                    }
                }
            }
        } else {
            let c = codes[x].clone();
            let mut v: Vec<usize> = Vec::new();
            v.push(x);
            r.push((c, v));
            proof {
                let sv = sections_view(r@);
                let last = sv.len() - 1;
                assert(sv.drop_last() =~= sv0);
                assert(sv[last].1 =~= seq![x]);
                if p > 0 {
                    let y = order@[p - 1];
                    assert(before(ks, y as int, x as int));
                    lemma_text_lt_total(ks[y as int].text@, ks[x as int].text@);
                    assert(cs[y as int] != cs[x as int]);
                    assert(text_lt(cs[y as int], cs[x as int]));
                }
                assert forall|k: int, a: int, b: int|
                    0 <= k < sv.len() && 0 <= a < b < sv[k].1.len() implies #[trigger] sv[k].1[a] < #[trigger] sv[k].1[b] by {
                    if k < last {
                        assert(sv[k] == sv0[k]);
                    }
                }
                assert forall|k: int, a: int|
                    0 <= k < sv.len() && 0 <= a < sv[k].1.len() implies (#[trigger] sv[k].1[a]) < cs.len() && cs[sv[k].1[a] as int] == sv[k].0 by {
                    if k < last {
                        assert(sv[k] == sv0[k]);
                    }
                }
                assert forall|k: int| 0 <= k < sv.len() - 1 implies text_lt(#[trigger] sv[k].0, sv[k + 1].0) by {
                    assert(sv[k] == sv0[k]);
                    if k + 1 < last {
                        assert(sv[k + 1] == sv0[k + 1]);
                    }
                }
                assert forall|k: int| 0 <= k < sv.len() implies (#[trigger] sv[k]).1.len() > 0 by {
                    if k < last {
                        assert(sv[k] == sv0[k]);
                    }
                }
                assert forall|q: int|
                    #![trigger order@[q]]
                    0 <= q < p + 1 implies exists|k: int|
                        0 <= k < sv.len() && sv[k].0 == cs[order@[q] as int] && (#[trigger] sv[k].1).contains(order@[q]) by {
                    if q < p {
                        let k = choose|k: int|
                            0 <= k < sv0.len() && sv0[k].0 == cs[order@[q] as int] && (#[trigger] sv0[k].1).contains(order@[q]);
                        assert(sv[k] == sv0[k]);
                    } else {
                        assert(sv[last].1[0] == x);
                    }
                }
            }
        }
        p = p + 1;
    }
    proof {
        let sv = sections_view(r@);
        assert forall|i: usize| #![trigger cs[i as int]] i < cs.len() implies exists|k: int|
            0 <= k < sv.len() && sv[k].0 == cs[i as int] && (#[trigger] sv[k].1).contains(i) by {
            assert(order@.contains(i));
            let q = choose|q: int| 0 <= q < order.len() && order@[q] == i;
        }
    }
    r
}

} // verus!
