//! SQL `LIKE` matching as SQLite does it by default: `%` matches any run
//! of characters, `_` exactly one, an optional escape character makes the
//! next pattern character literal, and letters compare case-insensitively
//! in the ASCII range only.
use vstd::prelude::*;
use crate::text::{append_chars, ascii_lower, to_ascii_lower};

verus! {

/// Characters equal under SQLite's ASCII-only case folding.
pub open spec fn fold_eq(a: char, b: char) -> bool {
    ascii_lower(a) == ascii_lower(b)
}

/// Whether `s` matches the LIKE pattern `p` with escape character `esc`.
pub open spec fn like(p: Seq<char>, s: Seq<char>, esc: Option<char>) -> bool
    decreases p.len(), s.len(),
{
    if p.len() == 0 {
        s.len() == 0
    } else if esc == Some(p[0]) {
        p.len() >= 2 && s.len() > 0 && fold_eq(p[1], s[0]) && like(
            p.subrange(2, p.len() as int),
            s.drop_first(),
            esc,
        )
    } else if p[0] == '%' {
        like(p.drop_first(), s, esc) || (s.len() > 0 && like(p, s.drop_first(), esc))
    } else if p[0] == '_' {
        s.len() > 0 && like(p.drop_first(), s.drop_first(), esc)
    } else {
        s.len() > 0 && fold_eq(p[0], s[0]) && like(p.drop_first(), s.drop_first(), esc)
    }
}

/// `like` of the pattern and text suffixes starting at `i` and `j`.
pub open spec fn like_from(p: Seq<char>, s: Seq<char>, esc: Option<char>, i: int, j: int) -> bool {
    like(p.subrange(i, p.len() as int), s.subrange(j, s.len() as int), esc)
}

proof fn lemma_like_step(p: Seq<char>, s: Seq<char>, esc: Option<char>, i: int, j: int)
    requires
        0 <= i < p.len(),
        0 <= j <= s.len(),
    ensures
        like_from(p, s, esc, i, j) == if esc == Some(p[i]) {
            i + 1 < p.len() && j < s.len() && fold_eq(p[i + 1], s[j]) && like_from(
                p,
                s,
                esc,
                i + 2,
                j + 1,
            )
        } else if p[i] == '%' {
            like_from(p, s, esc, i + 1, j) || (j < s.len() && like_from(p, s, esc, i, j + 1))
        } else if p[i] == '_' {
            j < s.len() && like_from(p, s, esc, i + 1, j + 1)
        } else {
            j < s.len() && fold_eq(p[i], s[j]) && like_from(p, s, esc, i + 1, j + 1)
        },
{
    let ps = p.subrange(i, p.len() as int);
    let ss = s.subrange(j, s.len() as int);
    assert(ps.drop_first() =~= p.subrange(i + 1, p.len() as int));
    if j < s.len() {
        assert(ss.drop_first() =~= s.subrange(j + 1, s.len() as int));
    }
    if i + 1 < p.len() {
        assert(ps.subrange(2, ps.len() as int) =~= p.subrange(i + 2, p.len() as int));
    }
}

/// Entry `j` of a table row whose last entry (`j == row.len()`) is kept
/// apart in `last`.
pub open spec fn row_at(row: Seq<bool>, last: bool, j: int) -> bool {
    if j < row.len() {
        row[j]
    } else {
        last
    }
}

fn row_get(row: &Vec<bool>, last: bool, j: usize) -> (r: bool)
    requires
        j <= row.len(),
    ensures
        r == row_at(row@, last, j as int),
{
    if j < row.len() {
        row[j]
    } else {
        last
    }
}

/// Whether `s` matches the LIKE pattern `p` (escape character `esc`).
pub fn like_match(p: &Vec<char>, s: &Vec<char>, esc: Option<char>) -> (r: bool)
    ensures
        r == like(p@, s@, esc),
{
    let np = p.len();
    let ns = s.len();
    // the row for pattern position i holds like_from(.., i, j) for j in 0..=ns
    let mut next2: Vec<bool> = Vec::new();
    let mut last2 = false;
    let mut next1: Vec<bool> = Vec::new();
    let mut k: usize = 0;
    while k < ns
        invariant
            ns == s.len(),
            np == p.len(),
            k <= ns,
            next1.len() == k,
            forall|j: int| 0 <= j < k ==> next1@[j] == like_from(p@, s@, esc, np as int, j),
        decreases ns - k,
    {
        proof {
            assert(p@.subrange(np as int, np as int).len() == 0);
        }
        next1.push(false);
        k += 1;
    }
    let mut last1 = true;
    proof {
        assert(p@.subrange(np as int, np as int).len() == 0);
        assert(s@.subrange(ns as int, ns as int).len() == 0);
    }
    let mut i: usize = np;
    while i > 0
        invariant
            ns == s.len(),
            np == p.len(),
            i <= np,
            next1.len() == ns,
            forall|j: int| 0 <= j <= ns ==> row_at(next1@, last1, j) == like_from(p@, s@, esc, i as int, j),
            i + 1 <= np ==> next2.len() == ns,
            i + 1 <= np ==> forall|j: int|
                0 <= j <= ns ==> row_at(next2@, last2, j) == like_from(p@, s@, esc, i + 1, j),
        decreases i,
    {
        let ii = i - 1;
        let c = p[ii];
        let mut row: Vec<bool> = Vec::new();
        let mut f: usize = 0;
        while f < ns
            invariant
                f <= ns,
                row.len() == f,
            decreases ns - f,
        {
            row.push(false);
            f += 1;
        }
        proof {
            lemma_like_step(p@, s@, esc, ii as int, ns as int);
        }
        let last = esc != Some(c) && c == '%' && last1;
        assert(row_at(next1@, last1, ns as int) == like_from(p@, s@, esc, i as int, ns as int));
        assert(row_at(row@, last, ns as int) == like_from(p@, s@, esc, ii as int, ns as int));
        let mut j: usize = ns;
        while j > 0
            invariant
                ns == s.len(),
                np == p.len(),
                ii < np,
                ii + 1 == i,
                c == p@[ii as int],
                j <= ns,
                row.len() == ns,
                next1.len() == ns,
                forall|jj: int| 0 <= jj <= ns ==> row_at(next1@, last1, jj) == like_from(p@, s@, esc, i as int, jj),
                i + 1 <= np ==> next2.len() == ns,
                i + 1 <= np ==> forall|jj: int|
                    0 <= jj <= ns ==> row_at(next2@, last2, jj) == like_from(p@, s@, esc, i + 1, jj),
                forall|jj: int| j <= jj <= ns ==> row_at(row@, last, jj) == like_from(p@, s@, esc, ii as int, jj),
            decreases j,
        {
            let jj = j - 1;
            proof {
                lemma_like_step(p@, s@, esc, ii as int, jj as int);
            }
            let val = if esc == Some(c) {
                if i < np {
                    let eq = to_ascii_lower(p[i]) == to_ascii_lower(s[jj]);
                    eq && row_get(&next2, last2, jj + 1)
                } else {
                    false
                }
            } else if c == '%' {
                row_get(&next1, last1, jj) || row_get(&row, last, jj + 1)
            } else if c == '_' {
                row_get(&next1, last1, jj + 1)
            } else {
                to_ascii_lower(c) == to_ascii_lower(s[jj]) && row_get(&next1, last1, jj + 1)
            };
            assert(val == like_from(p@, s@, esc, ii as int, jj as int)) by {
                assert(row_at(next1@, last1, jj as int) == like_from(p@, s@, esc, i as int, jj as int));
                assert(row_at(next1@, last1, jj + 1) == like_from(p@, s@, esc, i as int, jj + 1));
                assert(row_at(row@, last, jj + 1) == like_from(p@, s@, esc, ii as int, jj + 1));
                if i + 1 <= np {
                    assert(row_at(next2@, last2, jj + 1) == like_from(p@, s@, esc, i + 1, jj + 1));
                }
            }
            let ghost old_row = row@;
            row.set(jj, val);
            assert forall|k: int| jj <= k <= ns implies row_at(row@, last, k) == like_from(p@, s@, esc, ii as int, k) by {
                if k > jj {
                    assert(row_at(old_row, last, k) == like_from(p@, s@, esc, ii as int, k));
                }
            }
            j = jj;
        }
        next2 = next1;
        last2 = last1;
        next1 = row;
        last1 = last;
        i = ii;
    }
    proof {
        assert(p@.subrange(0, np as int) =~= p@);
        assert(s@.subrange(0, ns as int) =~= s@);
    }
    row_get(&next1, last1, 0)
}

/// The LIKE pattern that finds `term` anywhere, literally: `%`, `_` and
/// `\` in the term are escaped with `\`.
pub open spec fn escape_like(term: Seq<char>) -> Seq<char>
    decreases term.len(),
{
    if term.len() == 0 {
        Seq::empty()
    } else {
        let c = term.last();
        let rest = escape_like(term.drop_last());
        if c == '%' || c == '_' || c == '\\' {
            rest.push('\\').push(c)
        } else {
            rest.push(c)
        }
    }
}

/// `%` + escaped term + `%`.
pub open spec fn like_pattern_of(term: Seq<char>) -> Seq<char> {
    seq!['%'] + escape_like(term) + seq!['%']
}

/// The LIKE pattern (escape character `\`) matching any text that
/// contains `term` literally.
pub fn like_pattern(term: &Vec<char>) -> (r: Vec<char>)
    ensures
        r@ == like_pattern_of(term@),
{
    let mut body: Vec<char> = Vec::new();
    let mut i: usize = 0;
    while i < term.len()
        invariant
            i <= term.len(),
            body@ == escape_like(term@.subrange(0, i as int)),
        decreases term.len() - i,
    {
        let c = term[i];
        assert(term@.subrange(0, i + 1).drop_last() =~= term@.subrange(0, i as int));
        if c == '%' || c == '_' || c == '\\' {
            body.push('\\');
        }
        body.push(c);
        i += 1;
    }
    assert(term@.subrange(0, term.len() as int) =~= term@);
    let mut r: Vec<char> = Vec::new();
    r.push('%');
    append_chars(&mut r, &body);
    r.push('%');
    assert(r@ =~= like_pattern_of(term@));
    r
}

// ---------------------------------------------------------------- literal search

/// `t` occurs in `s` at position `i`, letters compared ignoring ASCII case.
pub open spec fn folds_at(s: Seq<char>, t: Seq<char>, i: int) -> bool {
    0 <= i && i + t.len() <= s.len() && forall|k: int| 0 <= k < t.len() ==> fold_eq(t[k], s[i + k])
}

/// One character of a term as the search pattern writes it.
pub open spec fn escaped_char(c: char) -> Seq<char> {
    if c == '%' || c == '_' || c == '\\' {
        seq!['\\', c]
    } else {
        seq![c]
    }
}

proof fn lemma_escape_concat(a: Seq<char>, b: Seq<char>)
    ensures
        escape_like(a + b) == escape_like(a) + escape_like(b),
    decreases b.len(),
{
    if b.len() == 0 {
        assert(a + b =~= a);
        assert(escape_like(a) + escape_like(b) =~= escape_like(a));
    } else {
        let b0 = b.drop_last();
        lemma_escape_concat(a, b0);
        assert((a + b).drop_last() =~= a + b0);
        assert((a + b).last() == b.last());
        let c = b.last();
        if c == '%' || c == '_' || c == '\\' {
            assert(escape_like(a + b) =~= escape_like(a) + escape_like(b));
        } else {
            assert(escape_like(a + b) =~= escape_like(a) + escape_like(b));
        }
    }
}

proof fn lemma_escape_first(t: Seq<char>)
    requires
        t.len() > 0,
    ensures
        escape_like(t) == escaped_char(t[0]) + escape_like(t.drop_first()),
{
    let a = seq![t[0]];
    assert(t =~= a + t.drop_first());
    lemma_escape_concat(a, t.drop_first());
    assert(a.drop_last() =~= Seq::<char>::empty());
    assert(escape_like(Seq::<char>::empty()) =~= Seq::<char>::empty());
    assert(escape_like(a) =~= escaped_char(t[0]));
}

/// A literal term, escaped, followed by `rest`: it matches exactly the
/// texts that begin with the term (ignoring ASCII case) and go on with a
/// match of `rest`.
proof fn lemma_literal_prefix(t: Seq<char>, rest: Seq<char>, s: Seq<char>)
    ensures
        like(escape_like(t) + rest, s, Some('\\')) == (folds_at(s, t, 0) && like(
            rest,
            s.skip(t.len() as int),
            Some('\\'),
        )),
    decreases t.len(),
{
    let esc = Some('\\');
    if t.len() == 0 {
        assert(escape_like(t) + rest =~= rest);
        assert(s.skip(0) =~= s);
    } else {
        let c = t[0];
        let t1 = t.drop_first();
        lemma_escape_first(t);
        let p = escape_like(t) + rest;
        assert(p =~= escaped_char(c) + (escape_like(t1) + rest));
        if s.len() > 0 {
            lemma_literal_prefix(t1, rest, s.drop_first());
            if t.len() <= s.len() {
                assert(s.drop_first().skip(t1.len() as int) =~= s.skip(t.len() as int));
            }
            if folds_at(s, t, 0) {
                assert forall|k: int| 0 <= k < t1.len() implies fold_eq(t1[k], s.drop_first()[0 + k]) by {
                    assert(fold_eq(t[k + 1], s[0 + k + 1]));
                }
            }
            if fold_eq(c, s[0]) && folds_at(s.drop_first(), t1, 0) {
                assert forall|k: int| 0 <= k < t.len() implies fold_eq(t[k], s[0 + k]) by {
                    if k > 0 {
                        assert(fold_eq(t1[k - 1], s.drop_first()[0 + k - 1]));
                    }
                }
            }
        }
        if c == '%' || c == '_' || c == '\\' {
            assert(p[0] == '\\' && p[1] == c);
            assert(p.subrange(2, p.len() as int) =~= escape_like(t1) + rest);
        } else {
            assert(p[0] == c);
            assert(p.drop_first() =~= escape_like(t1) + rest);
        }
    }
}

/// A leading `%` matches any text that has a suffix matching the rest.
proof fn lemma_leading_percent(q: Seq<char>, s: Seq<char>)
    ensures
        like(seq!['%'] + q, s, Some('\\')) == exists|i: int|
            0 <= i <= s.len() && #[trigger] like(q, s.skip(i), Some('\\')),
    decreases s.len(),
{
    let p = seq!['%'] + q;
    assert(p[0] == '%');
    assert(p.drop_first() =~= q);
    assert(p.len() > 0);
    assert(Some('\\') != Some(p[0]));
    assert(like(p, s, Some('\\')) == (like(q, s, Some('\\')) || (s.len() > 0 && like(p, s.drop_first(), Some('\\')))));
    assert(s.skip(0) =~= s);
    if s.len() > 0 {
        lemma_leading_percent(q, s.drop_first());
        if exists|i: int| 0 <= i <= s.drop_first().len() && #[trigger] like(q, s.drop_first().skip(i), Some('\\')) {
            let i = choose|i: int| 0 <= i <= s.drop_first().len() && #[trigger] like(q, s.drop_first().skip(i), Some('\\'));
            assert(s.drop_first().skip(i) =~= s.skip(i + 1));
        }
        if exists|i: int| 0 <= i <= s.len() && #[trigger] like(q, s.skip(i), Some('\\')) {
            let i = choose|i: int| 0 <= i <= s.len() && #[trigger] like(q, s.skip(i), Some('\\'));
            if i > 0 {
                assert(s.drop_first().skip(i - 1) =~= s.skip(i));
            }
        }
    } else {
        if exists|i: int| 0 <= i <= s.len() && #[trigger] like(q, s.skip(i), Some('\\')) {
            let i = choose|i: int| 0 <= i <= s.len() && #[trigger] like(q, s.skip(i), Some('\\'));
            assert(i == 0);
        }
    }
}

proof fn lemma_percent_matches_all(s: Seq<char>)
    ensures
        like(seq!['%'], s, Some('\\')),
    decreases s.len(),
{
    assert(seq!['%'].drop_first() =~= Seq::<char>::empty());
    assert(seq!['%'][0] == '%');
    assert(like(Seq::<char>::empty(), Seq::<char>::empty(), Some('\\')));
    assert(like(seq!['%'], s, Some('\\')) == (like(Seq::<char>::empty(), s, Some('\\')) || (s.len() > 0 && like(seq!['%'], s.drop_first(), Some('\\')))));
    if s.len() > 0 {
        lemma_percent_matches_all(s.drop_first());
    }
}

/// A search word matches a text exactly when the word occurs in it
/// literally (`%`, `_` and `\` included), letters compared ignoring ASCII
/// case.
pub proof fn law_search_word_matches_literally(t: Seq<char>, s: Seq<char>)
    ensures
        like(like_pattern_of(t), s, Some('\\')) == exists|i: int| #[trigger] folds_at(s, t, i),
{
    let q = escape_like(t) + seq!['%'];
    assert(like_pattern_of(t) =~= seq!['%'] + q);
    lemma_leading_percent(q, s);
    if exists|i: int| 0 <= i <= s.len() && #[trigger] like(q, s.skip(i), Some('\\')) {
        let i = choose|i: int| 0 <= i <= s.len() && #[trigger] like(q, s.skip(i), Some('\\'));
        lemma_literal_prefix(t, seq!['%'], s.skip(i));
        assert forall|k: int| 0 <= k < t.len() implies fold_eq(t[k], s[i + k]) by {
            assert(fold_eq(t[k], s.skip(i)[0 + k]));
        }
        assert(folds_at(s, t, i));
    }
    if exists|i: int| #[trigger] folds_at(s, t, i) {
        let i = choose|i: int| #[trigger] folds_at(s, t, i);
        lemma_literal_prefix(t, seq!['%'], s.skip(i));
        lemma_percent_matches_all(s.skip(i).skip(t.len() as int));
        assert forall|k: int| 0 <= k < t.len() implies fold_eq(t[k], s.skip(i)[0 + k]) by {
            assert(fold_eq(t[k], s[i + k]));
        }
        assert(like(q, s.skip(i), Some('\\')));
    }
}

} // verus!
