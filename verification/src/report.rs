//! Report shaping: the tracked-duration label, CSV lines, the grouping of
//! a report's entries into per-project runs and the placement of entries
//! into the days of a week grid. Hours are summed by the caller.
use vstd::prelude::*;

use crate::text::{append_chars, chars_eq, chars_of, i64_text, int_text, string_of, trim, trim_chars};

verus! {

// ---------------------------------------------------------------- durations

/// Integer division rounding toward zero, as Rust's `/` does (`y > 0`).
pub open spec fn tdiv(x: int, y: int) -> int {
    if x >= 0 {
        x / y
    } else {
        -((-x) / y)
    }
}

/// The remainder that goes with `tdiv`, as Rust's `%` does.
pub open spec fn trem(x: int, y: int) -> int {
    x - y * tdiv(x, y)
}

/// `{m:02}`: at least two characters, zero padded after any sign.
pub open spec fn two_digits(m: int) -> Seq<char> {
    if 0 <= m < 10 {
        seq!['0'] + int_text(m)
    } else {
        int_text(m)
    }
}

/// The label of a tracked duration of `secs` seconds, rounded to the
/// nearest minute: "less than a minute", "45 min" or "2 h 05".
pub open spec fn duration_text(secs: int) -> Seq<char> {
    let mins = tdiv(secs + 30, 60);
    let h = tdiv(mins, 60);
    let m = trem(mins, 60);
    if h == 0 && m == 0 {
        "less than a minute"@
    } else if h == 0 {
        int_text(m) + " min"@
    } else {
        int_text(h) + " h "@ + two_digits(m)
    }
}

/// A tracked duration reads as the nearest whole minute: any time within
/// half a minute of `h` hours and `m` minutes (not both zero) reads
/// "`m` min" under an hour and "`h` h `mm`" from an hour on; less than half
/// a minute reads "less than a minute".
pub proof fn law_duration_reads_the_nearest_minute(secs: int, h: int, m: int)
    requires
        h >= 0,
        0 <= m < 60,
        60 * (60 * h + m) - 30 <= secs < 60 * (60 * h + m) + 30,
    ensures
        duration_text(secs) == if h == 0 && m == 0 {
            "less than a minute"@
        } else if h == 0 {
            int_text(m) + " min"@
        } else {
            int_text(h) + " h "@ + two_digits(m)
        },
{
    let total = 60 * h + m;
    assert(secs + 30 >= 0) by (nonlinear_arith)
        requires
            60 * (60 * h + m) - 30 <= secs,
            h >= 0,
            m >= 0,
    ;
    assert((secs + 30) / 60 == total) by (nonlinear_arith)
        requires
            60 * total <= secs + 30 < 60 * total + 60,
    ;
    assert(total >= 0) by (nonlinear_arith)
        requires
            total == 60 * h + m,
            h >= 0,
            m >= 0,
    ;
    assert(total / 60 == h) by (nonlinear_arith)
        requires
            total == 60 * h + m,
            0 <= m < 60,
    ;
    assert(tdiv(secs + 30, 60) == total);
    assert(tdiv(total, 60) == h);
    assert(trem(total, 60) == m);
}

/// `x / y` rounding toward zero.
fn div_toward_zero(x: i64, y: i64) -> (r: i64)
    requires
        y > 0,
        x > i64::MIN,
    ensures
        r == tdiv(x as int, y as int),
{
    if x >= 0 {
        x / y
    } else {
        -((-x) / y)
    }
}

/// Human-readable tracked duration: "45 min", "2 h 05".
pub fn fmt_duration(secs: i64) -> (r: String)
    requires
        secs <= i64::MAX - 30,
    ensures
        r@ == duration_text(secs as int),
{
    let mins = div_toward_zero(secs + 30, 60);
    let h = div_toward_zero(mins, 60);
    let m = mins - 60 * h;
    let mut out: Vec<char>;
    if h == 0 && m == 0 {
        out = chars_of("less than a minute");
    } else if h == 0 {
        out = i64_text(m);
        let unit = chars_of(" min");
        append_chars(&mut out, &unit);
    } else {
        out = i64_text(h);
        let unit = chars_of(" h ");
        append_chars(&mut out, &unit);
        let mut mm: Vec<char> = Vec::new();
        if 0 <= m && m < 10 {
            mm.push('0');
        }
        let digits = i64_text(m);
        append_chars(&mut mm, &digits);
        proof {
            if 0 <= m < 10 {
                assert(mm@ =~= seq!['0'] + int_text(m as int));
            } else {
                assert(mm@ =~= int_text(m as int));
            }
        }
        append_chars(&mut out, &mm);
    }
    string_of(&out)
}

// ---------------------------------------------------------------- CSV

/// A CSV field must be quoted when it holds a comma, a quote or a newline.
pub open spec fn needs_quotes(f: Seq<char>) -> bool {
    f.contains(',') || f.contains('"') || f.contains('\n')
}

/// `f` with every quote doubled.
pub open spec fn doubled_quotes(f: Seq<char>) -> Seq<char>
    decreases f.len(),
{
    if f.len() == 0 {
        Seq::empty()
    } else {
        let r = doubled_quotes(f.drop_last());
        if f.last() == '"' {
            r + seq!['"', '"']
        } else {
            r.push(f.last())
        }
    }
}

/// One CSV field: quoted, with quotes doubled, when it needs quotes;
/// as it is otherwise.
pub open spec fn csv_field(f: Seq<char>) -> Seq<char> {
    if needs_quotes(f) {
        seq!['"'] + doubled_quotes(f) + seq!['"']
    } else {
        f
    }
}

/// Doubling quotes goes character by character: the doubled text of two
/// pieces is the two pieces doubled, a quote becomes two quotes and any
/// other character stays itself.
pub proof fn law_quotes_double_one_by_one(a: Seq<char>, b: Seq<char>, c: char)
    ensures
        doubled_quotes(a + b) == doubled_quotes(a) + doubled_quotes(b),
        doubled_quotes(seq![c]) == if c == '"' { seq!['"', '"'] } else { seq![c] },
    decreases b.len(),
{
    assert(seq![c].drop_last() =~= Seq::<char>::empty());
    assert(doubled_quotes(Seq::<char>::empty()) == Seq::<char>::empty());
    assert(seq![c].last() == c);
    if c == '"' {
        assert(Seq::<char>::empty() + seq!['"', '"'] =~= seq!['"', '"']);
    } else {
        assert(Seq::<char>::empty().push(c) =~= seq![c]);
    }
    if b.len() == 0 {
        assert(a + b =~= a);
        assert(doubled_quotes(a) + doubled_quotes(b) =~= doubled_quotes(a));
    } else {
        law_quotes_double_one_by_one(a, b.drop_last(), c);
        assert((a + b).drop_last() =~= a + b.drop_last());
        assert((a + b).last() == b.last());
        let x = doubled_quotes(a);
        let y = doubled_quotes(b.drop_last());
        if b.last() == '"' {
            assert((x + y) + seq!['"', '"'] =~= x + (y + seq!['"', '"']));
        } else {
            assert((x + y).push(b.last()) =~= x + y.push(b.last()));
        }
    }
}

/// A CSV field is quoted exactly when it holds a comma, a quote or a line
/// break, and then it is the field, quotes doubled, between two quotes;
/// otherwise it is written as it is.
pub proof fn law_csv_field_quotes_when_needed(f: Seq<char>)
    ensures
        (exists|i: int| 0 <= i < f.len() && (f[i] == ',' || f[i] == '"' || f[i] == '\n')) ==> csv_field(f)
            == seq!['"'] + doubled_quotes(f) + seq!['"'],
        (forall|i: int| 0 <= i < f.len() ==> f[i] != ',' && f[i] != '"' && f[i] != '\n') ==> csv_field(f) == f,
{
    if exists|i: int| 0 <= i < f.len() && (f[i] == ',' || f[i] == '"' || f[i] == '\n') {
        let i = choose|i: int| 0 <= i < f.len() && (f[i] == ',' || f[i] == '"' || f[i] == '\n');
        assert(f.contains(f[i]));
    }
    if forall|i: int| 0 <= i < f.len() ==> f[i] != ',' && f[i] != '"' && f[i] != '\n' {
        assert(!f.contains(','));
        assert(!f.contains('"'));
        assert(!f.contains('\n'));
    }
}

/// The fields `fs` as CSV, separated by commas.
pub open spec fn csv_fields(fs: Seq<Seq<char>>) -> Seq<char>
    decreases fs.len(),
{
    if fs.len() == 0 {
        Seq::empty()
    } else if fs.len() == 1 {
        csv_field(fs[0])
    } else {
        csv_fields(fs.drop_last()) + seq![','] + csv_field(fs.last())
    }
}

/// The characters of each string slice.
pub open spec fn str_views(fs: Seq<&str>) -> Seq<Seq<char>> {
    fs.map_values(|f: &str| f@)
}

/// Whether `c` occurs in `v`.
fn has_char(v: &Vec<char>, c: char) -> (r: bool)
    ensures
        r == v@.contains(c),
{
    let mut i: usize = 0;
    while i < v.len()
        invariant
            i <= v.len(),
            forall|k: int| 0 <= k < i ==> v@[k] != c,
        decreases v.len() - i,
    {
        if v[i] == c {
            assert(v@[i as int] == c);
            return true;
        }
        i = i + 1;
    }
    false
}

/// One CSV field.
fn csv_field_of(f: &Vec<char>) -> (r: Vec<char>)
    ensures
        r@ == csv_field(f@),
{
    let quote = has_char(f, ',') || has_char(f, '"') || has_char(f, '\n');
    if !quote {
        let mut r: Vec<char> = Vec::new();
        append_chars(&mut r, f);
        return r;
    }
    let mut r: Vec<char> = Vec::new();
    r.push('"');
    let mut j: usize = 0;
    while j < f.len()
        invariant
            j <= f.len(),
            r@ == seq!['"'] + doubled_quotes(f@.take(j as int)),
        decreases f.len() - j,
    {
        let c = f[j];
        proof {
            assert(f@.take(j + 1).drop_last() =~= f@.take(j as int));
        }
        if c == '"' {
            r.push('"');
            r.push('"');
        } else {
            r.push(c);
        }
        proof {
            if c == '"' {
                assert(seq!['"'] + doubled_quotes(f@.take(j + 1)) =~= seq!['"'] + doubled_quotes(
                    f@.take(j as int),
                ) + seq!['"', '"']);
            } else {
                assert(seq!['"'] + doubled_quotes(f@.take(j + 1)) =~= (seq!['"'] + doubled_quotes(
                    f@.take(j as int),
                )).push(c));
            }
        }
        j = j + 1;
    }
    proof {
        assert(f@.take(f.len() as int) =~= f@);
    }
    r.push('"');
    r
}

/// One CSV line: the fields, escaped where needed, comma separated and
/// ended by a newline.
pub fn csv_row(fields: &[&str]) -> (r: String)
    ensures
        r@ == csv_fields(str_views(fields@)).push('\n'),
{
    let mut out: Vec<char> = Vec::new();
    let mut i: usize = 0;
    while i < fields.len()
        invariant
            i <= fields.len(),
            out@ == csv_fields(str_views(fields@).take(i as int)),
        decreases fields.len() - i,
    {
        if i > 0 {
            out.push(',');
        }
        let f = chars_of(fields[i]);
        let e = csv_field_of(&f);
        append_chars(&mut out, &e);
        proof {
            let vs = str_views(fields@);
            assert(vs.take(i + 1).drop_last() =~= vs.take(i as int));
            assert(vs.take(i + 1).last() == fields@[i as int]@);
            if i == 0 {
                assert(vs.take(0) =~= Seq::<Seq<char>>::empty());
            }
        }
        i = i + 1;
    }
    proof {
        assert(str_views(fields@).take(fields.len() as int) =~= str_views(fields@));
    }
    out.push('\n');
    string_of(&out)
}

// ---------------------------------------------------------------- grouping

/// The runs of equal codes in `cs`, as index ranges `(start, end)`, in
/// order: an entry joins the run before it when its code is the code of
/// the entry before it, and opens a new run otherwise.
pub open spec fn code_runs(cs: Seq<Seq<char>>) -> Seq<(int, int)>
    decreases cs.len(),
{
    if cs.len() == 0 {
        Seq::empty()
    } else {
        let n = cs.len() as int;
        let r = code_runs(cs.drop_last());
        if n >= 2 && cs[n - 1] == cs[n - 2] {
            r.update(r.len() - 1, (r.last().0, n))
        } else {
            r.push((n - 1, n))
        }
    }
}

proof fn lemma_code_runs_shape(cs: Seq<Seq<char>>)
    ensures
        cs.len() > 0 ==> code_runs(cs).len() > 0 && code_runs(cs).last().1 == cs.len(),
        code_runs(cs).len() <= cs.len(),
        forall|k: int| 0 <= k < code_runs(cs).len() ==> 0 <= (#[trigger] code_runs(cs)[k]).0 < code_runs(cs)[k].1 <= cs.len(),
    decreases cs.len(),
{
    if cs.len() > 0 {
        lemma_code_runs_shape(cs.drop_last());
    }
}

/// Run `k` of `runs` is a proper piece of `cs`: non-empty, starting where
/// the previous run ended (or at 0), every entry in it sharing its first
/// entry's code, and that code differing from the previous run's.
pub open spec fn run_ok(cs: Seq<Seq<char>>, runs: Seq<(int, int)>, k: int) -> bool {
    &&& 0 <= runs[k].0 < runs[k].1 <= cs.len()
    &&& k == 0 ==> runs[k].0 == 0
    &&& k > 0 ==> runs[k].0 == runs[k - 1].1 && cs[runs[k].0] != cs[runs[k].0 - 1]
    &&& forall|i: int| runs[k].0 <= i < runs[k].1 ==> #[trigger] cs[i] == cs[runs[k].0]
}

/// The report's project groups cut its entries into consecutive pieces,
/// in order and with nothing left out, each a maximal run of one project:
/// entries of a group share its code, and neighbouring groups differ.
pub proof fn law_groups_partition_the_entries(cs: Seq<Seq<char>>)
    ensures
        (cs.len() == 0) == (code_runs(cs).len() == 0),
        code_runs(cs).len() > 0 ==> code_runs(cs).last().1 == cs.len(),
        forall|k: int| 0 <= k < code_runs(cs).len() ==> #[trigger] run_ok(cs, code_runs(cs), k),
    decreases cs.len(),
{
    if cs.len() > 0 {
        let cs0 = cs.drop_last();
        let n = cs.len() as int;
        let r0 = code_runs(cs0);
        law_groups_partition_the_entries(cs0);
        let r = code_runs(cs);
        if n >= 2 && cs[n - 1] == cs[n - 2] {
            let last = r0.len() - 1;
            assert(r == r0.update(last, (r0[last].0, n)));
            assert forall|k: int| 0 <= k < r.len() implies #[trigger] run_ok(cs, r, k) by {
                assert(run_ok(cs0, r0, k));
                if k < last {
                    assert(r[k] == r0[k]);
                    if k > 0 {
                        assert(r[k - 1] == r0[k - 1]);
                        assert(run_ok(cs0, r0, k - 1));
                        assert(cs[r[k].0] == cs0[r[k].0]);
                        assert(cs[r[k].0 - 1] == cs0[r[k].0 - 1]);
                    }
                    assert forall|i: int| r[k].0 <= i < r[k].1 implies #[trigger] cs[i] == cs[r[k].0] by {
                        assert(cs0[i] == cs0[r0[k].0]);
                    }
                } else {
                    assert(k == last);
                    assert(r0[last].1 == n - 1);
                    assert(0 <= r[k].0 < r[k].1 <= cs.len());
                    if k > 0 {
                        assert(r[k - 1] == r0[k - 1]);
                        assert(r[k].0 == r[k - 1].1);
                        assert(run_ok(cs0, r0, k - 1));
                        assert(cs[r[k].0] == cs0[r[k].0]);
                        assert(cs[r[k].0 - 1] == cs0[r[k].0 - 1]);
                    }
                    assert forall|i: int| r[k].0 <= i < r[k].1 implies #[trigger] cs[i] == cs[r[k].0] by {
                        if i < n - 1 {
                            assert(cs0[i] == cs0[r0[k].0]);
                        } else {
                            assert(cs0[n - 2] == cs0[r0[k].0]);
                        }
                    }
                }
            }
        } else {
            assert(r == r0.push((n - 1, n)));
            assert forall|k: int| 0 <= k < r.len() implies #[trigger] run_ok(cs, r, k) by {
                if k < r0.len() {
                    assert(run_ok(cs0, r0, k));
                    assert(r[k] == r0[k]);
                    if k > 0 {
                        assert(r[k - 1] == r0[k - 1]);
                        assert(run_ok(cs0, r0, k - 1));
                        assert(cs[r[k].0] == cs0[r[k].0]);
                        assert(cs[r[k].0 - 1] == cs0[r[k].0 - 1]);
                    }
                    assert forall|i: int| r[k].0 <= i < r[k].1 implies #[trigger] cs[i] == cs[r[k].0] by {
                        assert(cs0[i] == cs0[r0[k].0]);
                    }
                } else {
                    assert(r[k] == (n - 1, n));
                    if k > 0 {
                        assert(r[k - 1] == r0[k - 1]);
                        assert(r0[k - 1].1 == n - 1);
                        assert(cs[n - 1] != cs[n - 2]);
                    } else {
                        assert(r0.len() == 0);
                        assert(cs0.len() == 0);
                    }
                }
            }
        }
    }
}

/// The index ranges of the entries of each project, for a report whose
/// entries come ordered by project.
pub fn group_runs(codes: &Vec<String>) -> (r: Vec<(usize, usize)>)
    ensures
        r@.map_values(|p: (usize, usize)| (p.0 as int, p.1 as int)) == code_runs(
            codes@.map_values(|c: String| c@),
        ),
{
    let ghost cs = codes@.map_values(|c: String| c@);
    let mut r: Vec<(usize, usize)> = Vec::new();
    let mut i: usize = 0;
    proof {
        assert(r@.map_values(|p: (usize, usize)| (p.0 as int, p.1 as int)) =~= code_runs(
            cs.take(0),
        ));
    }
    while i < codes.len()
        invariant
            cs == codes@.map_values(|c: String| c@),
            i <= codes.len(),
            r@.map_values(|p: (usize, usize)| (p.0 as int, p.1 as int)) == code_runs(
                cs.take(i as int),
            ),
        decreases codes.len() - i,
    {
        let ghost rs = r@.map_values(|p: (usize, usize)| (p.0 as int, p.1 as int));
        proof {
            lemma_code_runs_shape(cs.take(i as int));
            assert(cs.take(i + 1).drop_last() =~= cs.take(i as int));
        }
        let same = if i > 0 {
            let a = chars_of(codes[i - 1].as_str());
            let b = chars_of(codes[i].as_str());
            chars_eq(&a, &b)
        } else {
            false
        };
        proof {
            if i > 0 {
                assert(cs.take(i + 1)[i as int] == codes@[i as int]@);
                assert(cs.take(i + 1)[i - 1] == codes@[i - 1]@);
            }
        }
        if same {
            let last = r.len() - 1;
            let start = r[last].0;
            r.set(last, (start, i + 1));
            proof {
                assert(r@.map_values(|p: (usize, usize)| (p.0 as int, p.1 as int)) =~= rs.update(
                    rs.len() - 1,
                    (rs.last().0, i + 1),
                ));
            }
        } else {
            r.push((i, i + 1));
            proof {
                assert(r@.map_values(|p: (usize, usize)| (p.0 as int, p.1 as int)) =~= rs.push(
                    (i as int, i + 1),
                ));
            }
        }
        i = i + 1;
    }
    proof {
        assert(cs.take(codes.len() as int) =~= cs);
    }
    r
}

// ---------------------------------------------------------------- week grid

/// The positions, in order, of the entries among `dates[..n]` that fall
/// `day` days after `week_start`.
pub open spec fn entries_on(dates: Seq<i32>, week_start: int, day: int, n: int) -> Seq<int>
    decreases n,
{
    if n <= 0 {
        Seq::empty()
    } else {
        let r = entries_on(dates, week_start, day, n - 1);
        if dates[n - 1] - week_start == day {
            r.push(n - 1)
        } else {
            r
        }
    }
}

/// For each day of the week starting at `week_start`, the positions of the
/// entries dated that day; entries outside the week go nowhere.
pub fn day_slots(dates: &Vec<i32>, week_start: i32) -> (r: Vec<Vec<usize>>)
    ensures
        r.len() == 7,
        forall|d: int|
            0 <= d < 7 ==> (#[trigger] r@[d])@.map_values(|i: usize| i as int) == entries_on(
                dates@,
                week_start as int,
                d,
                dates.len() as int,
            ),
{
    let mut r: Vec<Vec<usize>> = Vec::new();
    let mut d: usize = 0;
    while d < 7
        invariant
            d <= 7,
            r.len() == d,
            forall|k: int| 0 <= k < d ==> (#[trigger] r@[k])@.len() == 0,
        decreases 7 - d,
    {
        r.push(Vec::new());
        d = d + 1;
    }
    let mut i: usize = 0;
    while i < dates.len()
        invariant
            i <= dates.len(),
            r.len() == 7,
            forall|k: int|
                0 <= k < 7 ==> (#[trigger] r@[k])@.map_values(|x: usize| x as int) == entries_on(
                    dates@,
                    week_start as int,
                    k,
                    i as int,
                ),
        decreases dates.len() - i,
    {
        let off: i64 = dates[i] as i64 - week_start as i64;
        if 0 <= off && off < 7 {
            let day = off as usize;
            let ghost before = r@;
            let mut cell = r[day].clone();
            cell.push(i);
            r.set(day, cell);
            proof {
                assert forall|k: int| 0 <= k < 7 implies (#[trigger] r@[k])@.map_values(
                    |x: usize| x as int,
                ) == entries_on(dates@, week_start as int, k, i + 1) by {
                    if k == day {
                        assert(r@[k]@.map_values(|x: usize| x as int) =~= before[k]@.map_values(
                            |x: usize| x as int,
                        ).push(i as int));
                    } else {
                        assert(r@[k] == before[k]);
                    }
                }
            }
        }
        i = i + 1;
    }
    r
}

/// `parts` joined with `sep` between each two.
pub open spec fn joined(parts: Seq<Seq<char>>, sep: Seq<char>) -> Seq<char>
    decreases parts.len(),
{
    if parts.len() == 0 {
        Seq::empty()
    } else if parts.len() == 1 {
        parts[0]
    } else {
        joined(parts.drop_last(), sep) + sep + parts.last()
    }
}

/// The strings `parts` joined with `sep` between each two (the text a
/// grid cell copies: its descriptions joined with `"; "`).
pub fn join_texts(parts: &Vec<String>, sep: &str) -> (r: String)
    ensures
        r@ == joined(parts@.map_values(|p: String| p@), sep@),
{
    let ghost ps = parts@.map_values(|p: String| p@);
    let sv = chars_of(sep);
    let mut out: Vec<char> = Vec::new();
    let mut i: usize = 0;
    while i < parts.len()
        invariant
            ps == parts@.map_values(|p: String| p@),
            sv@ == sep@,
            i <= parts.len(),
            out@ == joined(ps.take(i as int), sep@),
        decreases parts.len() - i,
    {
        if i > 0 {
            append_chars(&mut out, &sv);
        }
        let pc = chars_of(parts[i].as_str());
        append_chars(&mut out, &pc);
        proof {
            assert(ps.take(i + 1).drop_last() =~= ps.take(i as int));
            assert(ps.take(i + 1).last() == parts@[i as int]@);
            if i == 0 {
                assert(out@ =~= pc@);
            }
        }
        i = i + 1;
    }
    proof {
        assert(ps.take(parts.len() as int) =~= ps);
    }
    string_of(&out)
}

// ---------------------------------------------------------------- PDF notes

/// What goes under one entry of a PDF report.
#[derive(Clone, Copy, PartialEq, Eq, Structural, Debug)]
pub enum NotesChoice {
    /// Nothing: notes not wanted, no linked task, or the task has none.
    Skip,
    /// The linked task's notes.
    Show,
    /// A short pointer: the same task's notes were shown above already.
    ShownAbove,
}

/// Entry `i` could show notes: notes are wanted, it links a task, and that
/// task has notes.
pub open spec fn has_printable_notes(wanted: bool, task_ids: Seq<Option<i64>>, has_notes: Seq<bool>, i: int) -> bool {
    wanted && task_ids[i] is Some && has_notes[i]
}

/// What goes under entry `i`: a task's notes are printed once, under its
/// first entry; later entries of the same task get a pointer.
pub open spec fn notes_choice(wanted: bool, task_ids: Seq<Option<i64>>, has_notes: Seq<bool>, i: int) -> NotesChoice {
    if !has_printable_notes(wanted, task_ids, has_notes, i) {
        NotesChoice::Skip
    } else if exists|j: int|
        0 <= j < i && has_printable_notes(wanted, task_ids, has_notes, j) && #[trigger] task_ids[j]
            == task_ids[i] {
        NotesChoice::ShownAbove
    } else {
        NotesChoice::Show
    }
}

/// A task's notes print once per report, under the first of its entries:
/// an entry whose task has notes (when notes are wanted) never goes
/// without them, the first such entry of a task shows them, and no two
/// entries of one task both show them.
pub proof fn law_notes_print_once_per_task(
    task_ids: Seq<Option<i64>>,
    has_notes: Seq<bool>,
    i: int,
    j: int,
)
    requires
        0 <= i < j < task_ids.len(),
        task_ids.len() == has_notes.len(),
    ensures
        task_ids[j] is Some && has_notes[j] ==> notes_choice(true, task_ids, has_notes, j) != NotesChoice::Skip,
        !(notes_choice(true, task_ids, has_notes, i) == NotesChoice::Show && notes_choice(true, task_ids, has_notes, j)
            == NotesChoice::Show && task_ids[i] == task_ids[j]),
        task_ids[j] is Some && has_notes[j] && (forall|k: int| 0 <= k < j && has_notes[k] ==> task_ids[k] != task_ids[j])
            ==> notes_choice(true, task_ids, has_notes, j) == NotesChoice::Show,
        notes_choice(false, task_ids, has_notes, j) == NotesChoice::Skip,
{
    if notes_choice(true, task_ids, has_notes, i) == NotesChoice::Show && task_ids[i] == task_ids[j] {
        assert(has_printable_notes(true, task_ids, has_notes, i));
        assert(task_ids[i] == task_ids[j]);
    }
}

/// For each entry of a report, in order, what goes under it: `task_ids`
/// are the entries' task links and `has_notes[i]` says whether entry `i`'s
/// task exists and has notes.
pub fn notes_plan(wanted: bool, task_ids: &Vec<Option<i64>>, has_notes: &Vec<bool>) -> (r: Vec<NotesChoice>)
    requires
        task_ids.len() == has_notes.len(),
    ensures
        r.len() == task_ids.len(),
        forall|i: int| 0 <= i < r.len() ==> #[trigger] r@[i] == notes_choice(wanted, task_ids@, has_notes@, i),
{
    let mut seen: Vec<i64> = Vec::new();
    let mut r: Vec<NotesChoice> = Vec::new();
    let mut i: usize = 0;
    while i < task_ids.len()
        invariant
            task_ids.len() == has_notes.len(),
            i <= task_ids.len(),
            r.len() == i,
            forall|k: int| 0 <= k < i ==> #[trigger] r@[k] == notes_choice(wanted, task_ids@, has_notes@, k),
            forall|x: i64| seen@.contains(x) <==> exists|j: int|
                0 <= j < i && has_printable_notes(wanted, task_ids@, has_notes@, j) && #[trigger] task_ids@[j]
                    == Some(x),
        decreases task_ids.len() - i,
    {
        let choice = if !wanted || !has_notes[i] {
            NotesChoice::Skip
        } else {
            match task_ids[i] {
                None => NotesChoice::Skip,
                Some(id) => {
                    let dup = contains_i64(&seen, id);
                    if dup {
                        NotesChoice::ShownAbove
                    } else {
                        NotesChoice::Show
                    }
                },
            }
        };
        proof {
            if has_printable_notes(wanted, task_ids@, has_notes@, i as int) {
                let id = task_ids@[i as int]->0;
                if seen@.contains(id) {
                    let j = choose|j: int|
                        0 <= j < i && has_printable_notes(wanted, task_ids@, has_notes@, j) && #[trigger] task_ids@[j]
                            == Some(id);
                    assert(task_ids@[j] == task_ids@[i as int]);
                } else {
                    assert forall|j: int|
                        0 <= j < i && has_printable_notes(wanted, task_ids@, has_notes@, j) implies #[trigger] task_ids@[j]
                        != task_ids@[i as int] by {
                        if task_ids@[j] == task_ids@[i as int] {
                            assert(seen@.contains(id));
                        }
                    }
                }
            }
        }
        let ghost old_seen = seen@;
        if choice == NotesChoice::Show {
            match task_ids[i] {
                Some(id) => seen.push(id),
                None => {},
            }
        }
        r.push(choice);
        proof {
            assert forall|x: i64| seen@.contains(x) <==> exists|j: int|
                0 <= j < i + 1 && has_printable_notes(wanted, task_ids@, has_notes@, j) && #[trigger] task_ids@[j]
                    == Some(x) by {
                let p = has_printable_notes(wanted, task_ids@, has_notes@, i as int);
                if choice == NotesChoice::Show {
                    let id = task_ids@[i as int]->0;
                    assert(seen@ == old_seen.push(id));
                    if seen@.contains(x) {
                        let w = choose|w: int| 0 <= w < seen@.len() && seen@[w] == x;
                        if w < old_seen.len() {
                            assert(old_seen[w] == x);
                            assert(old_seen.contains(x));
                        } else {
                            assert(task_ids@[i as int] == Some(x));
                        }
                    }
                    if exists|j: int|
                        0 <= j < i + 1 && has_printable_notes(wanted, task_ids@, has_notes@, j) && #[trigger] task_ids@[j]
                            == Some(x) {
                        let j = choose|j: int|
                            0 <= j < i + 1 && has_printable_notes(wanted, task_ids@, has_notes@, j) && #[trigger] task_ids@[j]
                                == Some(x);
                        if j == i {
                            assert(seen@[old_seen.len() as int] == x);
                        } else {
                            assert(old_seen.contains(x));
                            let w = choose|w: int| 0 <= w < old_seen.len() && old_seen[w] == x;
                            assert(seen@[w] == x);
                        }
                    }
                } else {
                    assert(seen@ == old_seen);
                    if exists|j: int|
                        0 <= j < i + 1 && has_printable_notes(wanted, task_ids@, has_notes@, j) && #[trigger] task_ids@[j]
                            == Some(x) {
                        let j = choose|j: int|
                            0 <= j < i + 1 && has_printable_notes(wanted, task_ids@, has_notes@, j) && #[trigger] task_ids@[j]
                                == Some(x);
                        if j == i {
                            assert(choice == NotesChoice::ShownAbove);
                            assert(old_seen.contains(x));
                        }
                    }
                }
            }
        }
        i = i + 1;
    }
    r
}

/// The "prepared by" line under a report's title: the author's name,
/// trimmed, when one is set and not blank.
pub open spec fn byline_text(author: Option<Seq<char>>, today: Seq<char>) -> Seq<char> {
    match author {
        Some(a) if trim(a).len() > 0 => "Prepared by "@ + trim(a) + " — generated "@ + today,
        _ => "Generated "@ + today,
    }
}

/// The "prepared by" line, for the `report_author` setting and today's
/// date text.
pub fn byline(author: Option<&str>, today: &str) -> (r: String)
    ensures
        r@ == byline_text(
            match author {
                Some(a) => Some(a@),
                None => None,
            },
            today@,
        ),
{
    let t = chars_of(today);
    match author {
        Some(a) => {
            let trimmed = trim_chars(&chars_of(a));
            if trimmed.len() > 0 {
                let mut v = chars_of("Prepared by ");
                append_chars(&mut v, &trimmed);
                let mid = chars_of(" — generated ");
                append_chars(&mut v, &mid);
                append_chars(&mut v, &t);
                return string_of(&v);
            }
        },
        None => {},
    }
    let mut v = chars_of("Generated ");
    append_chars(&mut v, &t);
    string_of(&v)
}

/// Whether `x` occurs in `v`.
fn contains_i64(v: &Vec<i64>, x: i64) -> (r: bool)
    ensures
        r == v@.contains(x),
{
    let mut i: usize = 0;
    while i < v.len()
        invariant
            i <= v.len(),
            forall|k: int| 0 <= k < i ==> v@[k] != x,
        decreases v.len() - i,
    {
        if v[i] == x {
            assert(v@[i as int] == x);
            return true;
        }
        i = i + 1;
    }
    false
}

} // verus!
