//! Projects: every log entry and task belongs to one.
use vstd::prelude::*;
use crate::order::{Ranked, chars_lt, lemma_text_lt_irreflexive, lemma_text_lt_total, lemma_text_lt_transitive, stable_order, stably_sorted, text_lt};
use crate::text::{ascii_upper_text, chars_of, lemma_words_ascii_upper, lemma_words_join, contains_chars, contains_seq, lowercase, split_words, string_of, str_is, to_lowercase, words};

verus! {

/// Whether a project is offered in the pickers.
#[derive(Clone, Copy, PartialEq, Eq, Structural, Debug)]
pub enum ProjectStatus {
    Active,
    Archived,
}

/// The stored text of a status.
pub open spec fn project_status_text(s: ProjectStatus) -> Seq<char> {
    match s {
        ProjectStatus::Active => "active"@,
        ProjectStatus::Archived => "archived"@,
    }
}

/// The status a stored text stands for: anything but `archived` is active.
pub open spec fn project_status_of(s: Seq<char>) -> ProjectStatus {
    if s == "archived"@ {
        ProjectStatus::Archived
    } else {
        ProjectStatus::Active
    }
}

impl ProjectStatus {
    /// The text stored for this status.
    pub fn as_str(self) -> (s: &'static str)
        ensures
            s@ == project_status_text(self),
    {
        match self {
            ProjectStatus::Active => "active",
            ProjectStatus::Archived => "archived",
        }
    }

    /// The status a stored text stands for (unknown text reads as active).
    pub fn parse(s: &str) -> (r: ProjectStatus)
        ensures
            r == project_status_of(s@),
    {
        if str_is(s, "archived") {
            ProjectStatus::Archived
        } else {
            ProjectStatus::Active
        }
    }
}

/// A project: short code, name, optional client.
#[derive(Clone, Debug)]
pub struct Project {
    pub id: i64,
    pub code: String,
    pub name: String,
    pub client: Option<String>,
    pub status: ProjectStatus,
}

/// "CODE — Name".
pub open spec fn project_label(code: Seq<char>, name: Seq<char>) -> Seq<char> {
    code + " — "@ + name
}

impl Project {
    /// "CODE — Name", the standard way a project is shown in pickers.
    pub fn label(&self) -> (s: String)
        ensures
            s@ == project_label(self.code@, self.name@),
    {
        let mut s = String::from_str(self.code.as_str());
        s.append(" — ");
        s.append(self.name.as_str());
        s
    }
}

/// Reading back the stored text of a status gives the status.
pub proof fn law_project_status_roundtrip(s: ProjectStatus)
    ensures
        project_status_of(project_status_text(s)) == s,
{
    reveal_strlit("active");
    reveal_strlit("archived");
    assert("active"@.len() != "archived"@.len());
}

// ---------------------------------------------------------------- listing

/// The project list order: active projects first, then by code.
#[derive(Clone)]
pub struct ProjectKey {
    pub archived: bool,
    pub code: String,
}

impl Ranked for ProjectKey {
    open spec fn precedes(self, other: Self) -> bool {
        (!self.archived && other.archived) || (self.archived == other.archived && text_lt(
            self.code@,
            other.code@,
        ))
    }

    proof fn precedes_irreflexive(a: Self) {
        lemma_text_lt_irreflexive(a.code@);
    }

    proof fn precedes_transitive(a: Self, b: Self, c: Self) {
        if text_lt(a.code@, b.code@) && text_lt(b.code@, c.code@) {
            lemma_text_lt_transitive(a.code@, b.code@, c.code@);
        }
    }

    proof fn ties_transitive(a: Self, b: Self, c: Self) {
        lemma_text_lt_total(a.code@, b.code@);
        lemma_text_lt_total(b.code@, c.code@);
        lemma_text_lt_total(a.code@, c.code@);
    }

    fn check_precedes(&self, other: &Self) -> (r: bool) {
        let a = chars_of(self.code.as_str());
        let b = chars_of(other.code.as_str());
        (!self.archived && other.archived) || (self.archived == other.archived && chars_lt(&a, &b))
    }
}

/// The key a project sorts by in the project list.
pub open spec fn project_key(p: Project) -> ProjectKey {
    ProjectKey { archived: p.status == ProjectStatus::Archived, code: p.code }
}

/// The project list (by index into `projects`): active projects before
/// archived ones, each part by code.
pub fn list_projects(projects: &Vec<Project>) -> (r: Vec<usize>)
    ensures
        stably_sorted(projects@.map_values(|p: Project| project_key(p)), r@),
{
    let mut keys: Vec<ProjectKey> = Vec::new();
    let mut i: usize = 0;
    while i < projects.len()
        invariant
            i <= projects.len(),
            keys@ == projects@.take(i as int).map_values(|p: Project| project_key(p)),
        decreases projects.len() - i,
    {
        let p = &projects[i];
        keys.push(ProjectKey { archived: p.status == ProjectStatus::Archived, code: p.code.clone() });
        proof {
            assert(projects@.take(i + 1) =~= projects@.take(i as int).push(projects@[i as int]));
            assert(keys@ =~= projects@.take(i + 1).map_values(|p: Project| project_key(p)));
        }
        i = i + 1;
    }
    proof {
        assert(projects@.take(projects.len() as int) =~= projects@);
    }
    stable_order(&keys)
}

// ---------------------------------------------------------------- search

/// Every word of `filter` occurs, ignoring case, in the project's code,
/// name or client.
pub open spec fn project_matches_spec(p: Project, filter: Seq<char>) -> bool {
    forall|k: int|
        0 <= k < words(filter).len() ==> {
            let w = lowercase(#[trigger] words(filter)[k]);
            ||| contains_seq(lowercase(p.code@), w)
            ||| contains_seq(lowercase(p.name@), w)
            ||| (p.client matches Some(c) && contains_seq(lowercase(c@), w))
        }
}

/// The lower-cased characters of `s`.
fn lower_chars(s: &str) -> (r: Vec<char>)
    ensures
        r@ == lowercase(s@),
        r@ == lowercase(ascii_upper_text(s@)),
{
    let l = to_lowercase(s);
    chars_of(l.as_str())
}

/// Every word of `ws` occurs in `code`, in `name` or in `client` when
/// there is one.
pub open spec fn words_match_spec(ws: Seq<Seq<char>>, code: Seq<char>, name: Seq<char>, client: Option<Seq<char>>) -> bool {
    forall|k: int|
        0 <= k < ws.len() ==> {
            ||| contains_seq(code, #[trigger] ws[k])
            ||| contains_seq(name, ws[k])
            ||| (client matches Some(c) && contains_seq(c, ws[k]))
        }
}

/// The characters of each of `ws`.
pub open spec fn char_views(ws: Seq<Vec<char>>) -> Seq<Seq<char>> {
    ws.map_values(|w: Vec<char>| w@)
}

/// The characters of `c`, if any.
pub open spec fn opt_chars(c: Option<Vec<char>>) -> Option<Seq<char>> {
    match c {
        Some(v) => Some(v@),
        None => None,
    }
}

/// Whether every word of `ws` occurs in the code, the name or the client
/// (all already lower-cased by the caller).
pub fn words_match(ws: &Vec<Vec<char>>, code: &Vec<char>, name: &Vec<char>, client: &Option<Vec<char>>) -> (r: bool)
    ensures
        r == words_match_spec(char_views(ws@), code@, name@, opt_chars(*client)),
{
    let mut k: usize = 0;
    while k < ws.len()
        invariant
            k <= ws.len(),
            forall|x: int| 0 <= x < k ==> {
                ||| contains_seq(code@, #[trigger] char_views(ws@)[x])
                ||| contains_seq(name@, char_views(ws@)[x])
                ||| (opt_chars(*client) matches Some(c) && contains_seq(c, char_views(ws@)[x]))
            },
        decreases ws.len() - k,
    {
        assert(char_views(ws@)[k as int] == ws@[k as int]@);
        let hit = contains_chars(code, &ws[k]) || contains_chars(name, &ws[k]) || match client {
            Some(c) => contains_chars(c, &ws[k]),
            None => false,
        };
        if !hit {
            return false;
        }
        k = k + 1;
    }
    true
}

/// Case-insensitive "every word matches somewhere" test against a
/// project's code, name and client — the same contract as the journal
/// search. The filter's ASCII case does not matter: upper-casing its ASCII
/// letters matches the same projects.
pub fn project_matches(p: &Project, filter: &str) -> (r: bool)
    ensures
        r == project_matches_spec(*p, filter@),
        r == project_matches_spec(*p, ascii_upper_text(filter@)),
{
    let raw = split_words(&chars_of(filter));
    let mut ws: Vec<Vec<char>> = Vec::new();
    let mut i: usize = 0;
    while i < raw.len()
        invariant
            i <= raw.len(),
            raw.len() == words(filter@).len(),
            forall|x: int| 0 <= x < raw.len() ==> #[trigger] raw@[x]@ == words(filter@)[x],
            ws.len() == i,
            forall|x: int| 0 <= x < i ==> #[trigger] ws@[x]@ == lowercase(words(filter@)[x]),
            forall|x: int| 0 <= x < i ==> #[trigger] ws@[x]@ == lowercase(ascii_upper_text(words(filter@)[x])),
        decreases raw.len() - i,
    {
        let w = lower_chars(string_of(&raw[i]).as_str());
        proof {
            assert(raw@[i as int]@ == words(filter@)[i as int]);
        }
        ws.push(w);
        i = i + 1;
    }
    let code = lower_chars(p.code.as_str());
    let name = lower_chars(p.name.as_str());
    let client: Option<Vec<char>> = match &p.client {
        Some(c) => Some(lower_chars(c.as_str())),
        None => None,
    };
    let r = words_match(&ws, &code, &name, &client);
    proof {
        assert forall|k: int| 0 <= k < ws.len() implies #[trigger] char_views(ws@)[k] == lowercase(words(filter@)[k]) by {
            assert(ws@[k]@ == lowercase(words(filter@)[k]));
        }
        if r {
            assert forall|k: int| 0 <= k < words(filter@).len() implies {
                let w = lowercase(#[trigger] words(filter@)[k]);
                ||| contains_seq(lowercase(p.code@), w)
                ||| contains_seq(lowercase(p.name@), w)
                ||| (p.client matches Some(c) && contains_seq(lowercase(c@), w))
            } by {
                assert(char_views(ws@)[k] == lowercase(words(filter@)[k]));
            }
        } else {
            let k = choose|k: int| 0 <= k < ws.len() && !({
                ||| contains_seq(code@, #[trigger] char_views(ws@)[k])
                ||| contains_seq(name@, char_views(ws@)[k])
                ||| (opt_chars(client) matches Some(c) && contains_seq(c, char_views(ws@)[k]))
            });
            assert(char_views(ws@)[k] == lowercase(words(filter@)[k]));
        }
        // the upper-cased filter has the upper-cased words, which lower-case
        // to the same
        lemma_words_ascii_upper(filter@);
        let uw = words(ascii_upper_text(filter@));
        assert(uw.len() == words(filter@).len());
        assert forall|k: int| 0 <= k < uw.len() implies lowercase(#[trigger] uw[k]) == lowercase(words(filter@)[k]) by {
            assert(uw[k] == ascii_upper_text(words(filter@)[k]));
            assert(ws@[k]@ == lowercase(ascii_upper_text(words(filter@)[k])));
            assert(ws@[k]@ == lowercase(words(filter@)[k]));
        }
        if project_matches_spec(*p, filter@) {
            assert forall|k: int| 0 <= k < uw.len() implies {
                let w = lowercase(#[trigger] uw[k]);
                ||| contains_seq(lowercase(p.code@), w)
                ||| contains_seq(lowercase(p.name@), w)
                ||| (p.client matches Some(c) && contains_seq(lowercase(c@), w))
            } by {
                assert(lowercase(uw[k]) == lowercase(words(filter@)[k]));
            }
        } else {
            let k = choose|k: int| 0 <= k < words(filter@).len() && !({
                let w = lowercase(#[trigger] words(filter@)[k]);
                ||| contains_seq(lowercase(p.code@), w)
                ||| contains_seq(lowercase(p.name@), w)
                ||| (p.client matches Some(c) && contains_seq(lowercase(c@), w))
            });
            assert(lowercase(uw[k]) == lowercase(words(filter@)[k]));
        }
    }
    r
}

/// An empty filter matches every project.
pub proof fn law_empty_filter_matches(p: Project)
    ensures
        project_matches_spec(p, Seq::empty()),
{
    assert(words(Seq::<char>::empty()).len() == 0);
}

/// A filter of two parts joined by a space matches exactly the projects
/// that both parts match.
pub proof fn law_filter_parts_combine(p: Project, f1: Seq<char>, f2: Seq<char>)
    ensures
        project_matches_spec(p, f1 + seq![' '] + f2) == (project_matches_spec(p, f1) && project_matches_spec(p, f2)),
{
    lemma_words_join(f1, f2);
    let w = words(f1 + seq![' '] + f2);
    assert(w == words(f1) + words(f2));
    if project_matches_spec(p, f1) && project_matches_spec(p, f2) {
        assert forall|k: int| 0 <= k < w.len() implies {
            let x = lowercase(#[trigger] w[k]);
            ||| contains_seq(lowercase(p.code@), x)
            ||| contains_seq(lowercase(p.name@), x)
            ||| (p.client matches Some(c) && contains_seq(lowercase(c@), x))
        } by {
            if k < words(f1).len() {
                assert(w[k] == words(f1)[k]);
            } else {
                assert(w[k] == words(f2)[k - words(f1).len()]);
            }
        }
    }
    if project_matches_spec(p, f1 + seq![' '] + f2) {
        assert forall|k: int| 0 <= k < words(f1).len() implies {
            let x = lowercase(#[trigger] words(f1)[k]);
            ||| contains_seq(lowercase(p.code@), x)
            ||| contains_seq(lowercase(p.name@), x)
            ||| (p.client matches Some(c) && contains_seq(lowercase(c@), x))
        } by {
            assert(w[k] == words(f1)[k]);
        }
        assert forall|k: int| 0 <= k < words(f2).len() implies {
            let x = lowercase(#[trigger] words(f2)[k]);
            ||| contains_seq(lowercase(p.code@), x)
            ||| contains_seq(lowercase(p.name@), x)
            ||| (p.client matches Some(c) && contains_seq(lowercase(c@), x))
        } by {
            assert(w[k + words(f1).len()] == words(f2)[k]);
        }
    }
}

} // verus!
