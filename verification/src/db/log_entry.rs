//! Journal entries: the filters and orders of the journal list and the
//! report queries, and the rule that folds re-logged work into the entry
//! already made for it.
use vstd::prelude::*;
use crate::db::task::all_terms_match;
use crate::like::{like, like_pattern, like_pattern_of};
use crate::order::{Ranked, before, count_true, lemma_listing_len, listing, min_int, select_sorted, text_lt, chars_lt, lemma_text_lt_irreflexive, lemma_text_lt_transitive, lemma_text_lt_total};
use crate::text::{chars_eq, chars_of, lowercase, split_words, to_lowercase, trim, trim_chars, words, string_of};

verus! {

/// The journal list is capped at this many rows; the UI shows a hint when
/// the cap is hit so old entries don't look deleted.
pub const JOURNAL_LIMIT: usize = 500;

/// A journal entry as the filters, orders and merges see it: every field
/// but the hours, joined with its project's code. Days are day numbers
/// (see `calendar`).
#[derive(Clone, Debug)]
pub struct EntryRecord {
    pub id: i64,
    pub work_date: i32,
    pub project_id: i64,
    pub description: String,
    pub is_dev: bool,
    /// The task this entry was logged from (via the bridge), if any.
    pub task_id: Option<i64>,
    pub project_code: String,
}

// ---------------------------------------------------------------- journal list

/// Journal order: newest work first, then newest entry first.
#[derive(Clone, Copy)]
pub struct JournalKey {
    pub work_date: i32,
    pub id: i64,
}

impl Ranked for JournalKey {
    open spec fn precedes(self, other: Self) -> bool {
        self.work_date > other.work_date || (self.work_date == other.work_date && self.id > other.id)
    }

    proof fn precedes_irreflexive(a: Self) {
    }

    proof fn precedes_transitive(a: Self, b: Self, c: Self) {
    }

    proof fn ties_transitive(a: Self, b: Self, c: Self) {
    }

    fn check_precedes(&self, other: &Self) -> (r: bool) {
        self.work_date > other.work_date || (self.work_date == other.work_date && self.id > other.id)
    }
}

/// The key an entry sorts by in the journal.
pub open spec fn journal_key(e: EntryRecord) -> JournalKey {
    JournalKey { work_date: e.work_date, id: e.id }
}

/// An entry passes the journal filters: its project (when one is chosen),
/// on or after `since` (when given), and every search word found literally
/// (ASCII case ignored) in the description or the project code.
pub open spec fn journal_matches(
    e: EntryRecord,
    project_id: Option<i64>,
    since: Option<i32>,
    terms: Seq<Seq<char>>,
) -> bool {
    &&& match project_id {
        Some(p) => e.project_id == p,
        None => true,
    }
    &&& match since {
        Some(d) => e.work_date >= d,
        None => true,
    }
    &&& forall|k: int|
        0 <= k < terms.len() ==> like(like_pattern_of(terms[k]), e.description@, Some('\\'))
            || like(like_pattern_of(terms[k]), e.project_code@, Some('\\'))
}

/// The LIKE patterns (escape `\`) of the words of `search`.
fn word_patterns(search: &str) -> (patterns: Vec<Vec<char>>)
    ensures
        patterns.len() == words(search@).len(),
        forall|i: int| 0 <= i < patterns.len() ==> #[trigger] patterns@[i]@ == like_pattern_of(words(search@)[i]),
{
    let terms = split_words(&chars_of(search));
    let mut patterns: Vec<Vec<char>> = Vec::new();
    let mut k: usize = 0;
    while k < terms.len()
        invariant
            k <= terms.len(),
            terms.len() == words(search@).len(),
            forall|i: int| 0 <= i < terms.len() ==> #[trigger] terms@[i]@ == words(search@)[i],
            patterns.len() == k,
            forall|i: int| 0 <= i < k ==> #[trigger] patterns@[i]@ == like_pattern_of(words(search@)[i]),
        decreases terms.len() - k,
    {
        patterns.push(like_pattern(&terms[k]));
        k += 1;
    }
    patterns
}

/// Journal list (by index into `rows`): newest work first, at most
/// `JOURNAL_LIMIT` rows, optionally filtered by project and/or a minimum
/// work date. Every white-space separated word of `search` must appear in
/// the description or project code, in any order.
pub fn list_log_entries(
    rows: &Vec<EntryRecord>,
    project_id: Option<i64>,
    since: Option<i32>,
    search: &str,
) -> (r: Vec<usize>)
    ensures
        listing(
            rows@.map_values(|e: EntryRecord| journal_key(e)),
            rows@.map_values(|e: EntryRecord| journal_matches(e, project_id, since, words(search@))),
            JOURNAL_LIMIT as int,
            r@,
        ),
        r.len() == min_int(
            JOURNAL_LIMIT as int,
            count_true(rows@.map_values(|e: EntryRecord| journal_matches(e, project_id, since, words(search@)))) as int,
        ),
{
    let patterns = word_patterns(search);
    let mut keys: Vec<JournalKey> = Vec::new();
    let mut keep: Vec<bool> = Vec::new();
    let mut i: usize = 0;
    while i < rows.len()
        invariant
            i <= rows.len(),
            patterns.len() == words(search@).len(),
            forall|j: int| 0 <= j < patterns.len() ==> #[trigger] patterns@[j]@ == like_pattern_of(words(search@)[j]),
            keys@ == rows@.subrange(0, i as int).map_values(|e: EntryRecord| journal_key(e)),
            keep@ == rows@.subrange(0, i as int).map_values(
                |e: EntryRecord| journal_matches(e, project_id, since, words(search@)),
            ),
        decreases rows.len() - i,
    {
        let e = &rows[i];
        keys.push(JournalKey { work_date: e.work_date, id: e.id });
        let in_project = match project_id {
            Some(p) => e.project_id == p,
            None => true,
        };
        let in_range = match since {
            Some(d) => e.work_date >= d,
            None => true,
        };
        let m = in_project && in_range && all_terms_match(
            &patterns,
            &chars_of(e.description.as_str()),
            &chars_of(e.project_code.as_str()),
            Some('\\'),
        );
        proof {
            let ws = words(search@);
            let ee = rows@[i as int];
            assert(ee == *e);
            if m {
                assert forall|k: int| 0 <= k < ws.len() implies like(like_pattern_of(ws[k]), ee.description@, Some('\\'))
                    || like(like_pattern_of(ws[k]), ee.project_code@, Some('\\')) by {
                    assert(patterns@[k]@ == like_pattern_of(ws[k]));
                }
            } else if in_project && in_range {
                let k = choose|k: int| 0 <= k < patterns.len() && !(like(#[trigger] patterns@[k]@, e.description@, Some('\\')) || like(patterns@[k]@, e.project_code@, Some('\\')));
                assert(patterns@[k]@ == like_pattern_of(ws[k]));
            }
            assert(m == journal_matches(ee, project_id, since, ws));
        }
        keep.push(m);
        i += 1;
        assert(keys@ =~= rows@.subrange(0, i as int).map_values(|e: EntryRecord| journal_key(e)));
        assert(keep@ =~= rows@.subrange(0, i as int).map_values(
            |e: EntryRecord| journal_matches(e, project_id, since, words(search@)),
        ));
    }
    assert(rows@.subrange(0, rows.len() as int) =~= rows@);
    let r = select_sorted(&keys, &keep, JOURNAL_LIMIT);
    proof {
        lemma_listing_len(keys@, keep@, JOURNAL_LIMIT as int, r@);
    }
    r
}

// ---------------------------------------------------------------- date range

/// Report order: by project code, then chronological, then by entry.
#[derive(Clone)]
pub struct RangeKey {
    pub code: String,
    pub work_date: i32,
    pub id: i64,
}

impl Ranked for RangeKey {
    open spec fn precedes(self, other: Self) -> bool {
        text_lt(self.code@, other.code@) || (self.code@ == other.code@ && (self.work_date
            < other.work_date || (self.work_date == other.work_date && self.id < other.id)))
    }

    proof fn precedes_irreflexive(a: Self) {
        lemma_text_lt_irreflexive(a.code@);
    }

    proof fn precedes_transitive(a: Self, b: Self, c: Self) {
        if text_lt(a.code@, b.code@) && text_lt(b.code@, c.code@) {
            lemma_text_lt_transitive(a.code@, b.code@, c.code@);
        }
    }

    proof fn ties_transitive(a: Self, b: Self, c: Self) {
        lemma_text_lt_total(a.code@, b.code@);
        lemma_text_lt_total(b.code@, c.code@);
        lemma_text_lt_total(a.code@, c.code@);
    }

    fn check_precedes(&self, other: &Self) -> (r: bool) {
        let a = chars_of(self.code.as_str());
        let b = chars_of(other.code.as_str());
        chars_lt(&a, &b) || (chars_eq(&a, &b) && (self.work_date
            < other.work_date || (self.work_date == other.work_date && self.id < other.id)))
    }
}

/// The key an entry sorts by in the reports.
pub open spec fn range_key(e: EntryRecord) -> RangeKey {
    RangeKey { code: e.project_code, work_date: e.work_date, id: e.id }
}


/// An entry falls in the report range: worked `from..=to`, and flagged dev
/// when only dev entries are wanted.
pub open spec fn in_report_range(e: EntryRecord, from: i32, to: i32, dev_only: bool) -> bool {
    from <= e.work_date <= to && (!dev_only || e.is_dev)
}

/// All entries (by index into `rows`) worked in `[from, to]` inclusive,
/// only dev ones when `dev_only`, ordered by project code, then date, then
/// entry — the shape both reports want.
pub fn log_entries_in_range(rows: &Vec<EntryRecord>, from: i32, to: i32, dev_only: bool) -> (r: Vec<usize>)
    ensures
        listing(
            rows@.map_values(|e: EntryRecord| range_key(e)),
            rows@.map_values(|e: EntryRecord| in_report_range(e, from, to, dev_only)),
            usize::MAX as int,
            r@,
        ),
        r.len() == count_true(rows@.map_values(|e: EntryRecord| in_report_range(e, from, to, dev_only))),
        forall|a: int|
            0 <= a < r.len() ==> {
                let e = rows@[#[trigger] r@[a] as int];
                from <= e.work_date && e.work_date <= to && (!dev_only || e.is_dev)
            },
        r.len() < usize::MAX ==> forall|i: int|
            0 <= i < rows.len() && from <= #[trigger] rows@[i].work_date && rows@[i].work_date <= to && (!dev_only
                || rows@[i].is_dev) ==> r@.contains(i as usize),
{
    let mut keys: Vec<RangeKey> = Vec::new();
    let mut keep: Vec<bool> = Vec::new();
    let mut i: usize = 0;
    while i < rows.len()
        invariant
            i <= rows.len(),
            keys@ == rows@.subrange(0, i as int).map_values(|e: EntryRecord| range_key(e)),
            keep@ == rows@.subrange(0, i as int).map_values(
                |e: EntryRecord| in_report_range(e, from, to, dev_only),
            ),
        decreases rows.len() - i,
    {
        let e = &rows[i];
        keys.push(RangeKey { code: e.project_code.clone(), work_date: e.work_date, id: e.id });
        keep.push(from <= e.work_date && e.work_date <= to && (!dev_only || e.is_dev));
        i += 1;
        assert(keys@ =~= rows@.subrange(0, i as int).map_values(|e: EntryRecord| range_key(e)));
        assert(keep@ =~= rows@.subrange(0, i as int).map_values(
            |e: EntryRecord| in_report_range(e, from, to, dev_only),
        ));
    }
    assert(rows@.subrange(0, rows.len() as int) =~= rows@);
    let r = select_sorted(&keys, &keep, usize::MAX);
    proof {
        lemma_listing_len(keys@, keep@, usize::MAX as int, r@);
        lemma_count_true_le(keep@);
        assert forall|a: int| 0 <= a < r.len() implies {
            let e = rows@[#[trigger] r@[a] as int];
            from <= e.work_date && e.work_date <= to && (!dev_only || e.is_dev)
        } by {
            assert(keep@[r@[a] as int]);
        }
        if r.len() < usize::MAX {
            assert forall|i: int|
                0 <= i < rows.len() && from <= #[trigger] rows@[i].work_date && rows@[i].work_date <= to && (!dev_only
                    || rows@[i].is_dev) implies r@.contains(i as usize) by {
                assert(keep@[(i as usize) as int]);
            }
        }
    }
    r
}

/// The weekly and annual reports list entries grouped by project code:
/// an entry listed after another never has the other's code and a later
/// day with it, and within one code the days never go backwards.
pub proof fn law_report_lists_by_code_then_day(
    rows: Seq<EntryRecord>,
    keep: Seq<bool>,
    limit: int,
    r: Seq<usize>,
    p: int,
    q: int,
)
    requires
        listing(rows.map_values(|e: EntryRecord| range_key(e)), keep, limit, r),
        0 <= p < q < r.len(),
    ensures
        ({
            let (x, y) = (rows[r[p] as int], rows[r[q] as int]);
            &&& !text_lt(y.project_code@, x.project_code@)
            &&& y.project_code@ == x.project_code@ ==> x.work_date <= y.work_date
        }),
{
    let keys = rows.map_values(|e: EntryRecord| range_key(e));
    let (i, j) = (r[p] as int, r[q] as int);
    assert(before(keys, i, j));
    let (x, y) = (rows[i], rows[j]);
    assert(keys[i] == range_key(x) && keys[j] == range_key(y));
    if text_lt(y.project_code@, x.project_code@) {
        lemma_text_lt_irreflexive(x.project_code@);
        if text_lt(x.project_code@, y.project_code@) {
            lemma_text_lt_transitive(x.project_code@, y.project_code@, x.project_code@);
        }
        assert(keys[j].precedes(keys[i]));
        if keys[i].precedes(keys[j]) {
            RangeKey::precedes_transitive(keys[i], keys[j], keys[i]);
            RangeKey::precedes_irreflexive(keys[i]);
        }
    }
    if y.project_code@ == x.project_code@ && x.work_date > y.work_date {
        lemma_text_lt_irreflexive(x.project_code@);
        assert(keys[j].precedes(keys[i]));
        if keys[i].precedes(keys[j]) {
            RangeKey::precedes_transitive(keys[i], keys[j], keys[i]);
            RangeKey::precedes_irreflexive(keys[i]);
        }
    }
}

/// The journal lists the newest work first: an entry listed after another
/// was never worked on a later day, and on the same day it was logged
/// earlier.
pub proof fn law_journal_lists_newest_first(
    rows: Seq<EntryRecord>,
    keep: Seq<bool>,
    limit: int,
    r: Seq<usize>,
    p: int,
    q: int,
)
    requires
        listing(rows.map_values(|e: EntryRecord| journal_key(e)), keep, limit, r),
        0 <= p < q < r.len(),
    ensures
        ({
            let (x, y) = (rows[r[p] as int], rows[r[q] as int]);
            &&& y.work_date <= x.work_date
            &&& y.work_date == x.work_date ==> y.id <= x.id
        }),
{
    let keys = rows.map_values(|e: EntryRecord| journal_key(e));
    let (i, j) = (r[p] as int, r[q] as int);
    assert(before(keys, i, j));
    assert(keys[i] == journal_key(rows[i]) && keys[j] == journal_key(rows[j]));
}

/// The journal's range filter takes its first day: an entry worked on
/// `since` passes it.
pub proof fn law_journal_since_takes_its_day(e: EntryRecord)
    ensures
        journal_matches(e, None, Some(e.work_date), Seq::empty()),
{
}

/// The report range takes both of its ends: an entry worked on the first
/// or the last day of a range (and dev when only dev entries are wanted)
/// is in the report, so Sunday's work is in its week and December 31 in its
/// year.
pub proof fn law_report_range_takes_both_ends(e: EntryRecord, from: i32, to: i32, dev_only: bool)
    requires
        from <= to,
        e.work_date == from || e.work_date == to,
        !dev_only || e.is_dev,
    ensures
        in_report_range(e, from, to, dev_only),
{
}


// ---------------------------------------------------------------- merging

/// A description as merging compares it: surrounding white space dropped,
/// then lower-cased.
pub open spec fn folded(s: Seq<char>) -> Seq<char> {
    lowercase(trim(s))
}

/// The folded form of a description.
pub fn fold_description(s: &str) -> (r: Vec<char>)
    ensures
        r@ == folded(s@),
{
    let trimmed = string_of(&trim_chars(&chars_of(s)));
    let lower = to_lowercase(trimmed.as_str());
    chars_of(lower.as_str())
}

/// Entry `e` is the same work as a new entry for `work_date`, `project_id`
/// and `is_dev` whose folded description is `wanted`.
pub open spec fn same_work(e: EntryRecord, work_date: i32, project_id: i64, is_dev: bool, wanted: Seq<char>) -> bool {
    e.work_date == work_date && e.project_id == project_id && e.is_dev == is_dev && folded(
        e.description@,
    ) == wanted
}

/// Row `i` was logged before row `j`: smaller id (the row order breaks
/// ties).
pub open spec fn logged_before(rows: Seq<EntryRecord>, i: int, j: int) -> bool {
    rows[i].id < rows[j].id || (rows[i].id == rows[j].id && i <= j)
}

/// Entry `e`, whose folded description is `fold`, is the same work as a
/// new entry for `work_date`, `project_id` and `is_dev` whose folded
/// description is `wanted`.
pub open spec fn same_folded_work(
    e: EntryRecord,
    fold: Seq<char>,
    work_date: i32,
    project_id: i64,
    is_dev: bool,
    wanted: Seq<char>,
) -> bool {
    e.work_date == work_date && e.project_id == project_id && e.is_dev == is_dev && fold == wanted
}

/// Among `rows`, whose folded descriptions are `folds` (one per row), the
/// first logged entry of the same work as a new entry for `work_date`,
/// `project_id` and `is_dev` with folded description `wanted`; `None` when
/// there is none.
pub fn first_same_work(
    rows: &Vec<EntryRecord>,
    folds: &Vec<Vec<char>>,
    work_date: i32,
    project_id: i64,
    is_dev: bool,
    wanted: &Vec<char>,
) -> (r: Option<usize>)
    requires
        folds.len() == rows.len(),
    ensures
        match r {
            Some(i) => i < rows.len() && same_folded_work(rows@[i as int], folds@[i as int]@, work_date, project_id, is_dev, wanted@)
                && forall|j: int|
                0 <= j < rows.len() && same_folded_work(rows@[j], folds@[j]@, work_date, project_id, is_dev, wanted@)
                    ==> logged_before(rows@, i as int, j),
            None => forall|j: int|
                0 <= j < rows.len() ==> !same_folded_work(rows@[j], folds@[j]@, work_date, project_id, is_dev, wanted@),
        },
{
    let mut best: Option<usize> = None;
    let mut i: usize = 0;
    while i < rows.len()
        invariant
            i <= rows.len(),
            folds.len() == rows.len(),
            match best {
                Some(b) => b < i && same_folded_work(rows@[b as int], folds@[b as int]@, work_date, project_id, is_dev, wanted@)
                    && forall|j: int|
                    0 <= j < i && same_folded_work(rows@[j], folds@[j]@, work_date, project_id, is_dev, wanted@)
                        ==> logged_before(rows@, b as int, j),
                None => forall|j: int|
                    0 <= j < i ==> !same_folded_work(rows@[j], folds@[j]@, work_date, project_id, is_dev, wanted@),
            },
        decreases rows.len() - i,
    {
        let e = &rows[i];
        assert(*e == rows@[i as int]);
        if e.work_date == work_date && e.project_id == project_id && e.is_dev == is_dev && chars_eq(&folds[i], wanted) {
            match best {
                Some(b) => {
                    if e.id < rows[b].id {
                        best = Some(i);
                        assert forall|j: int|
                            0 <= j < i + 1 && same_folded_work(rows@[j], folds@[j]@, work_date, project_id, is_dev, wanted@)
                                implies logged_before(rows@, i as int, j) by {
                            if j < i {
                                assert(logged_before(rows@, b as int, j));
                            }
                        }
                    }
                },
                None => {
                    best = Some(i);
                },
            }
        }
        i += 1;
    }
    best
}

/// The folded descriptions of `rows`, in order.
fn folds_of(rows: &Vec<EntryRecord>) -> (r: Vec<Vec<char>>)
    ensures
        r.len() == rows.len(),
        forall|k: int| 0 <= k < rows.len() ==> (#[trigger] r@[k])@ == folded(rows@[k].description@),
{
    let mut folds: Vec<Vec<char>> = Vec::new();
    let mut f: usize = 0;
    while f < rows.len()
        invariant
            f <= rows.len(),
            folds.len() == f,
            forall|k: int| 0 <= k < f ==> (#[trigger] folds@[k])@ == folded(rows@[k].description@),
        decreases rows.len() - f,
    {
        folds.push(fold_description(rows[f].description.as_str()));
        f = f + 1;
    }
    folds
}

/// The entry a new one should fold into (by index into `rows`): the first
/// logged entry with the same date, project and dev flag and the same
/// description ignoring case and surrounding white space; `None` when the
/// work is new.
pub fn find_merge_target(
    rows: &Vec<EntryRecord>,
    work_date: i32,
    project_id: i64,
    is_dev: bool,
    description: &str,
) -> (r: Option<usize>)
    ensures
        match r {
            Some(i) => i < rows.len() && same_work(rows@[i as int], work_date, project_id, is_dev, folded(description@))
                && forall|j: int|
                0 <= j < rows.len() && same_work(rows@[j], work_date, project_id, is_dev, folded(description@))
                    ==> logged_before(rows@, i as int, j),
            None => forall|j: int|
                0 <= j < rows.len() ==> !same_work(rows@[j], work_date, project_id, is_dev, folded(description@)),
        },
{
    let wanted = fold_description(description);
    let folds = folds_of(rows);
    let r = first_same_work(rows, &folds, work_date, project_id, is_dev, &wanted);
    proof {
        assert forall|j: int| 0 <= j < rows.len() implies same_folded_work(rows@[j], folds@[j]@, work_date, project_id, is_dev, wanted@)
            == same_work(rows@[j], work_date, project_id, is_dev, folded(description@)) by {
            assert(folds@[j]@ == folded(rows@[j].description@));
        }
    }
    r
}

/// What saving a new entry does: insert it, or fold it into the existing
/// entry at `index` (its hours add up there), which then links to `task_id`.
#[derive(Clone, Copy, Debug)]
pub enum SavePlan {
    Insert,
    Merge { index: usize, task_id: Option<i64> },
}

/// Decides how a new entry is saved among `rows` (the rows already logged):
/// folded into the first logged entry of the same work, whose task link is
/// kept when it has one and set to the new entry's otherwise; inserted when
/// the work is new.
pub fn plan_entry_save(
    rows: &Vec<EntryRecord>,
    work_date: i32,
    project_id: i64,
    description: &str,
    is_dev: bool,
    task_id: Option<i64>,
) -> (r: SavePlan)
    ensures
        match r {
            SavePlan::Merge { index, task_id: link } => {
                &&& index < rows.len()
                &&& same_work(rows@[index as int], work_date, project_id, is_dev, folded(description@))
                &&& forall|j: int|
                    0 <= j < rows.len() && same_work(rows@[j], work_date, project_id, is_dev, folded(description@))
                        ==> logged_before(rows@, index as int, j)
                &&& link == (if rows@[index as int].task_id is Some {
                    rows@[index as int].task_id
                } else {
                    task_id
                })
            },
            SavePlan::Insert => forall|j: int|
                0 <= j < rows.len() ==> !same_work(rows@[j], work_date, project_id, is_dev, folded(description@)),
        },
{
    match find_merge_target(rows, work_date, project_id, is_dev, description) {
        Some(i) => {
            let link = match rows[i].task_id {
                Some(t) => Some(t),
                None => task_id,
            };
            SavePlan::Merge { index: i, task_id: link }
        },
        None => SavePlan::Insert,
    }
}

// ---------------------------------------------------------------- duplicates

/// Two entries record the same work: same day, project and dev flag, and
/// the same description ignoring case and surrounding white space.
pub open spec fn same_entry_key(a: EntryRecord, b: EntryRecord) -> bool {
    a.work_date == b.work_date && a.project_id == b.project_id && a.is_dev == b.is_dev && folded(
        a.description@,
    ) == folded(b.description@)
}

/// Row `i` is the first of its kind: no earlier row records the same work.
pub open spec fn first_of_kind(rows: Seq<EntryRecord>, i: int) -> bool {
    forall|j: int| 0 <= j < i ==> !same_entry_key(#[trigger] rows[j], rows[i])
}

/// The later rows, among `rows[..n]`, that record the same work as row `i`,
/// in order.
pub open spec fn later_same(rows: Seq<EntryRecord>, i: int, n: int) -> Seq<usize>
    decreases n - i,
{
    if n <= i + 1 {
        Seq::empty()
    } else {
        let m = later_same(rows, i, n - 1);
        if same_entry_key(rows[n - 1], rows[i]) {
            m.push((n - 1) as usize)
        } else {
            m
        }
    }
}

/// The first task link among row `i` and the later rows, among `rows[..n]`,
/// that record the same work.
pub open spec fn first_task_link(rows: Seq<EntryRecord>, i: int, n: int) -> Option<i64>
    decreases n - i,
{
    if n <= i {
        None
    } else {
        let prev = first_task_link(rows, i, n - 1);
        if prev is Some {
            prev
        } else if n - 1 == i || same_entry_key(rows[n - 1], rows[i]) {
            rows[n - 1].task_id
        } else {
            None
        }
    }
}

/// One fold of the duplicate cleanup: the first entry of a kind is kept
/// and takes the hours of the later ones, which go; it keeps the first task
/// link found among them all.
#[derive(Clone, Debug)]
pub struct DupGroup {
    pub keeper: usize,
    pub folded_away: Vec<usize>,
    pub task_id: Option<i64>,
}

/// The folded descriptions, as characters.
pub open spec fn fold_views(folds: Seq<Vec<char>>) -> Seq<Seq<char>> {
    folds.map_values(|v: Vec<char>| v@)
}

/// Rows `a` and `b`, whose folded descriptions are in `f`, record the same
/// work: same day, project and dev flag, and the same folded description.
pub open spec fn same_kind(rows: Seq<EntryRecord>, f: Seq<Seq<char>>, a: int, b: int) -> bool {
    rows[a].work_date == rows[b].work_date && rows[a].project_id == rows[b].project_id && rows[a].is_dev
        == rows[b].is_dev && f[a] == f[b]
}

/// Row `i` is the first of its kind, by the folded descriptions `f`.
pub open spec fn first_of_kind_in(rows: Seq<EntryRecord>, f: Seq<Seq<char>>, i: int) -> bool {
    forall|j: int| 0 <= j < i ==> !#[trigger] same_kind(rows, f, j, i)
}

/// The later rows, among `rows[..n]`, of the same kind as row `i`, by the
/// folded descriptions `f`, in order.
pub open spec fn later_same_in(rows: Seq<EntryRecord>, f: Seq<Seq<char>>, i: int, n: int) -> Seq<usize>
    decreases n - i,
{
    if n <= i + 1 {
        Seq::empty()
    } else {
        let m = later_same_in(rows, f, i, n - 1);
        if same_kind(rows, f, n - 1, i) {
            m.push((n - 1) as usize)
        } else {
            m
        }
    }
}

/// The first task link among row `i` and the later rows, among `rows[..n]`,
/// of the same kind, by the folded descriptions `f`.
pub open spec fn first_task_link_in(rows: Seq<EntryRecord>, f: Seq<Seq<char>>, i: int, n: int) -> Option<i64>
    decreases n - i,
{
    if n <= i {
        None
    } else {
        let prev = first_task_link_in(rows, f, i, n - 1);
        if prev is Some {
            prev
        } else if n - 1 == i || same_kind(rows, f, n - 1, i) {
            rows[n - 1].task_id
        } else {
            None
        }
    }
}

proof fn lemma_kinds_agree(rows: Seq<EntryRecord>, f: Seq<Seq<char>>, i: int, n: int)
    requires
        f.len() == rows.len(),
        forall|x: int| 0 <= x < rows.len() ==> #[trigger] f[x] == folded(rows[x].description@),
        0 <= i < rows.len(),
        i <= n <= rows.len(),
    ensures
        first_of_kind_in(rows, f, i) == first_of_kind(rows, i),
        later_same_in(rows, f, i, n) == later_same(rows, i, n),
        first_task_link_in(rows, f, i, n) == first_task_link(rows, i, n),
    decreases n - i,
{
    assert(f[i] == folded(rows[i].description@));
    if first_of_kind_in(rows, f, i) {
        assert forall|j: int| 0 <= j < i implies !same_entry_key(#[trigger] rows[j], rows[i]) by {
            assert(f[j] == folded(rows[j].description@));
            assert(!same_kind(rows, f, j, i));
        }
    }
    if first_of_kind(rows, i) {
        assert forall|j: int| 0 <= j < i implies !#[trigger] same_kind(rows, f, j, i) by {
            assert(f[j] == folded(rows[j].description@));
            assert(!same_entry_key(rows[j], rows[i]));
        }
    }
    if n > i {
        lemma_kinds_agree(rows, f, i, n - 1);
        assert(f[n - 1] == folded(rows[n - 1].description@));
        assert(f[i] == folded(rows[i].description@));
    }
}

/// The folds that remove duplicate entries from `rows`, whose folded
/// descriptions are `folds` (one per row): one per kind of work recorded
/// more than once, keeping its first entry, in the order of the kept
/// entries.
pub fn duplicate_groups_folded(rows: &Vec<EntryRecord>, folds: &Vec<Vec<char>>) -> (r: Vec<DupGroup>)
    requires
        folds.len() == rows.len(),
    ensures
        forall|g: int|
            0 <= g < r.len() ==> {
                let k = (#[trigger] r@[g]).keeper as int;
                &&& k < rows.len()
                &&& first_of_kind_in(rows@, fold_views(folds@), k)
                &&& r@[g].folded_away@ == later_same_in(rows@, fold_views(folds@), k, rows.len() as int)
                &&& r@[g].folded_away@.len() > 0
                &&& r@[g].task_id == first_task_link_in(rows@, fold_views(folds@), k, rows.len() as int)
            },
        forall|a: int, b: int| 0 <= a < b < r.len() ==> r@[a].keeper < r@[b].keeper,
        forall|k: int|
            0 <= k < rows.len() && first_of_kind_in(rows@, fold_views(folds@), k) && later_same_in(rows@, fold_views(folds@), k, rows.len() as int).len() > 0 ==> exists|g: int| 0 <= g < r.len() && (#[trigger] r@[g]).keeper == k,
{
    let n = rows.len();
    let ghost f = fold_views(folds@);
    let mut out: Vec<DupGroup> = Vec::new();
    let mut i: usize = 0;
    while i < n
        invariant
            n == rows.len(),
            folds.len() == n,
            f == fold_views(folds@),
            i <= n,
            forall|g: int|
                0 <= g < out.len() ==> {
                    let k = (#[trigger] out@[g]).keeper as int;
                    &&& k < i
                    &&& first_of_kind_in(rows@, f, k)
                    &&& out@[g].folded_away@ == later_same_in(rows@, f, k, n as int)
                    &&& out@[g].folded_away@.len() > 0
                    &&& out@[g].task_id == first_task_link_in(rows@, f, k, n as int)
                },
            forall|a: int, b: int| 0 <= a < b < out.len() ==> out@[a].keeper < out@[b].keeper,
            forall|k: int|
                0 <= k < i && first_of_kind_in(rows@, f, k) && later_same_in(rows@, f, k, n as int).len() > 0
                    ==> exists|g: int| 0 <= g < out.len() && (#[trigger] out@[g]).keeper == k,
        decreases n - i,
    {
        let ri = &rows[i];
        let mut first = true;
        let mut j: usize = 0;
        while j < i
            invariant
                n == rows.len(),
                folds.len() == n,
                f == fold_views(folds@),
                i < n,
                *ri == rows@[i as int],
                j <= i,
                first == forall|k: int| 0 <= k < j ==> !same_kind(rows@, f, k, i as int),
            decreases i - j,
        {
            let rj = &rows[j];
            let same = rj.work_date == ri.work_date && rj.project_id == ri.project_id && rj.is_dev
                == ri.is_dev && chars_eq(&folds[j], &folds[i]);
            proof {
                assert(same == same_kind(rows@, f, j as int, i as int));
            }
            first = first && !same;
            j = j + 1;
        }
        if first {
            let mut members: Vec<usize> = Vec::new();
            let mut task = ri.task_id;
            let mut k = i + 1;
            proof {
                assert(members@ =~= later_same_in(rows@, f, i as int, (i + 1) as int));
                assert(first_task_link_in(rows@, f, i as int, i as int) is None);
            }
            while k < n
                invariant
                    n == rows.len(),
                    folds.len() == n,
                    f == fold_views(folds@),
                    i < n,
                    *ri == rows@[i as int],
                    i + 1 <= k <= n,
                    members@ == later_same_in(rows@, f, i as int, k as int),
                    task == first_task_link_in(rows@, f, i as int, k as int),
                decreases n - k,
            {
                let rk = &rows[k];
                let same = rk.work_date == ri.work_date && rk.project_id == ri.project_id && rk.is_dev
                    == ri.is_dev && chars_eq(&folds[k], &folds[i]);
                proof {
                    assert(same == same_kind(rows@, f, k as int, i as int));
                }
                if same {
                    members.push(k);
                    if task.is_none() {
                        task = rk.task_id;
                    }
                }
                k = k + 1;
            }
            if members.len() > 0 {
                let ghost before = out@;
                out.push(DupGroup { keeper: i, folded_away: members, task_id: task });
                proof {
                    assert forall|x: int|
                        0 <= x < i + 1 && first_of_kind_in(rows@, f, x) && later_same_in(rows@, f, x, n as int).len()
                            > 0 implies exists|g: int| 0 <= g < out.len() && (#[trigger] out@[g]).keeper
                        == x by {
                        if x < i {
                            let g = choose|g: int| 0 <= g < before.len() && (#[trigger] before[g]).keeper == x;
                            assert(out@[g] == before[g]);
                        } else {
                            assert(out@[before.len() as int].keeper == x);
                        }
                    }
                }
            }
        }
        i = i + 1;
    }
    out
}

/// The folds that remove duplicate entries from `rows` (in id order): one
/// per kind of work recorded more than once, keeping its first entry.
/// Folds come in the order of their kept entries.
pub fn duplicate_groups(rows: &Vec<EntryRecord>) -> (r: Vec<DupGroup>)
    ensures
        forall|g: int|
            0 <= g < r.len() ==> {
                let k = (#[trigger] r@[g]).keeper as int;
                &&& k < rows.len()
                &&& first_of_kind(rows@, k)
                &&& r@[g].folded_away@ == later_same(rows@, k, rows.len() as int)
                &&& r@[g].folded_away@.len() > 0
                &&& r@[g].task_id == first_task_link(rows@, k, rows.len() as int)
            },
        forall|a: int, b: int| 0 <= a < b < r.len() ==> r@[a].keeper < r@[b].keeper,
        forall|k: int|
            0 <= k < rows.len() && first_of_kind(rows@, k) && later_same(
                rows@,
                k,
                rows.len() as int,
            ).len() > 0 ==> exists|g: int| 0 <= g < r.len() && (#[trigger] r@[g]).keeper == k,
{
    let folds = folds_of(rows);
    let r = duplicate_groups_folded(rows, &folds);
    proof {
        let f = fold_views(folds@);
        assert forall|x: int| 0 <= x < rows.len() implies #[trigger] f[x] == folded(rows@[x].description@) by {
            assert(folds@[x]@ == folded(rows@[x].description@));
        }
        assert forall|k: int| 0 <= k < rows.len() implies first_of_kind_in(rows@, f, k) == first_of_kind(rows@, k)
            && #[trigger] later_same_in(rows@, f, k, rows.len() as int) == later_same(rows@, k, rows.len() as int)
            && first_task_link_in(rows@, f, k, rows.len() as int) == first_task_link(rows@, k, rows.len() as int) by {
            lemma_kinds_agree(rows@, f, k, rows.len() as int);
        }
        assert forall|k: int|
            0 <= k < rows.len() && first_of_kind(rows@, k) && #[trigger] later_same(rows@, k, rows.len() as int).len() > 0
                implies exists|g: int| 0 <= g < r.len() && (#[trigger] r@[g]).keeper == k by {
            lemma_kinds_agree(rows@, f, k, rows.len() as int);
        }
        assert forall|g: int| 0 <= g < r.len() implies first_of_kind(rows@, (#[trigger] r@[g]).keeper as int) by {
            let k = r@[g].keeper as int;
            lemma_kinds_agree(rows@, f, k, rows.len() as int);
        }
    }
    r
}

proof fn lemma_later_same_contains(rows: Seq<EntryRecord>, i: int, n: int, x: int)
    requires
        0 <= i < x < n <= rows.len(),
        rows.len() <= usize::MAX,
        same_entry_key(rows[x], rows[i]),
    ensures
        later_same(rows, i, n).contains(x as usize),
    decreases n - i,
{
    if n - 1 == x {
        assert(later_same(rows, i, n).last() == x as usize);
    } else {
        lemma_later_same_contains(rows, i, n - 1, x);
        let m = later_same(rows, i, n - 1);
        let w = choose|w: int| 0 <= w < m.len() && m[w] == x as usize;
        if same_entry_key(rows[n - 1], rows[i]) {
            assert(m.push((n - 1) as usize)[w] == x as usize);
        }
    }
}

proof fn lemma_no_later_same(rows: Seq<EntryRecord>, k: int, n: int)
    requires
        forall|i: int, j: int| 0 <= i < j < rows.len() ==> !same_entry_key(#[trigger] rows[i], #[trigger] rows[j]),
        0 <= k,
        n <= rows.len(),
    ensures
        later_same(rows, k, n).len() == 0,
    decreases n - k,
{
    if n > k + 1 {
        lemma_no_later_same(rows, k, n - 1);
        assert(!same_entry_key(rows[k], rows[n - 1]));
    }
}

/// Once no two entries record the same work, as after the cleanup, the
/// cleanup finds nothing more to fold: a second run folds nothing.
pub proof fn law_cleanup_second_run_folds_nothing(rows: Seq<EntryRecord>, k: int)
    requires
        forall|i: int, j: int| 0 <= i < j < rows.len() ==> !same_entry_key(#[trigger] rows[i], #[trigger] rows[j]),
        0 <= k < rows.len(),
    ensures
        later_same(rows, k, rows.len() as int).len() == 0,
{
    lemma_no_later_same(rows, k, rows.len() as int);
}

/// The duplicate cleanup leaves one entry per kind of work: the entries it
/// keeps (the first of each kind) never record the same work, and every
/// other entry is folded into the first entry of its kind.
pub proof fn law_cleanup_leaves_one_entry_per_work(rows: Seq<EntryRecord>, x: int, y: int)
    requires
        0 <= x < rows.len(),
        0 <= y < rows.len(),
        rows.len() <= usize::MAX,
    ensures
        x != y && first_of_kind(rows, x) && first_of_kind(rows, y) ==> !same_entry_key(rows[x], rows[y]),
        !first_of_kind(rows, x) ==> exists|k: int|
            0 <= k < x && first_of_kind(rows, k) && #[trigger] later_same(rows, k, rows.len() as int).contains(
                x as usize,
            ),
    decreases x,
{
    if x != y && first_of_kind(rows, x) && first_of_kind(rows, y) {
        if x < y {
            assert(!same_entry_key(rows[x], rows[y]));
        } else {
            assert(!same_entry_key(rows[y], rows[x]));
        }
    }
    if !first_of_kind(rows, x) {
        let j = choose|j: int| 0 <= j < x && same_entry_key(#[trigger] rows[j], rows[x]);
        if first_of_kind(rows, j) {
            lemma_later_same_contains(rows, j, rows.len() as int, x);
        } else {
            law_cleanup_leaves_one_entry_per_work(rows, j, y);
            let k = choose|k: int|
                0 <= k < j && first_of_kind(rows, k) && #[trigger] later_same(rows, k, rows.len() as int).contains(
                    j as usize,
                );
            let m = later_same(rows, k, rows.len() as int);
            let w = choose|w: int| 0 <= w < m.len() && m[w] == j as usize;
            lemma_later_same_members(rows, k, rows.len() as int);
            assert(same_entry_key(rows[j], rows[k]));
            lemma_later_same_contains(rows, k, rows.len() as int, x);
        }
    }
}

proof fn lemma_later_same_members(rows: Seq<EntryRecord>, i: int, n: int)
    requires
        0 <= i < n <= rows.len(),
        rows.len() <= usize::MAX,
    ensures
        forall|w: int|
            0 <= w < later_same(rows, i, n).len() ==> i < #[trigger] later_same(rows, i, n)[w] < n
                && same_entry_key(rows[later_same(rows, i, n)[w] as int], rows[i]),
    decreases n - i,
{
    if n > i + 1 {
        lemma_later_same_members(rows, i, n - 1);
        let m = later_same(rows, i, n - 1);
        let r = later_same(rows, i, n);
        assert forall|w: int| 0 <= w < r.len() implies i < #[trigger] r[w] < n && same_entry_key(
            rows[r[w] as int],
            rows[i],
        ) by {
            if w < m.len() {
                assert(r[w] == m[w]);
            }
        }
    }
}

proof fn lemma_count_true_le(b: Seq<bool>)
    ensures
        count_true(b) <= b.len(),
    decreases b.len(),
{
    if b.len() > 0 {
        lemma_count_true_le(b.drop_last());
    }
}

} // verus!
