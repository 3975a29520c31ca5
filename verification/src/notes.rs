//! Markdown formatting for the task notes editor: the toolbar actions that
//! wrap a selection in markers, toggle line prefixes, number lines, fence a
//! code block or insert a rule or a table, all over character indices.
use vstd::prelude::*;
use vstd::utf8::{encode_scalar, encode_utf8};

use crate::text::{append_chars, chars_of, digit_char, has_at, nat_text, starts_with, string_of, u64_text};

verus! {

// ---------------------------------------------------------------- offsets

/// UTF-8 encoding distributes over concatenation.
pub proof fn lemma_encode_utf8_concat(x: Seq<char>, y: Seq<char>)
    ensures
        encode_utf8(x + y) == encode_utf8(x) + encode_utf8(y),
    decreases x.len(),
{
    if x.len() == 0 {
        assert(x + y =~= y);
        assert(encode_utf8(x) =~= Seq::<u8>::empty());
        assert(encode_utf8(x) + encode_utf8(y) =~= encode_utf8(y));
    } else {
        assert((x + y).drop_first() =~= x.drop_first() + y);
        assert((x + y)[0] == x[0]);
        lemma_encode_utf8_concat(x.drop_first(), y);
        assert(encode_utf8(x + y) =~= encode_scalar(x[0] as u32) + (encode_utf8(x.drop_first())
            + encode_utf8(y)));
    }
}

/// Number of UTF-8 bytes of the first `i` characters of `s`.
pub open spec fn byte_offset(s: Seq<char>, i: int) -> nat {
    encode_utf8(s.take(if i < s.len() { i } else { s.len() as int })).len()
}

/// The byte offset at which character `char_idx` of `s` starts, or the byte
/// length of `s` when `s` has no such character.
pub fn byte_of(s: &str, char_idx: usize) -> (r: usize)
    requires
        encode_utf8(s@).len() <= usize::MAX,
    ensures
        r == byte_offset(s@, char_idx as int),
{
    broadcast use vstd::utf8::char_is_scalar;

    let n = s.unicode_len();
    let end = if char_idx < n {
        char_idx
    } else {
        n
    };
    let mut r: usize = 0;
    let mut i: usize = 0;
    while i < end
        invariant
            n == s@.len(),
            end <= n,
            i <= end,
            r == encode_utf8(s@.take(i as int)).len(),
            encode_utf8(s@).len() <= usize::MAX,
        decreases end - i,
    {
        let c = s.get_char(i);
        let u = c as u32;
        let w: usize = if u < 0x80 {
            1
        } else if u < 0x800 {
            2
        } else if u < 0x10000 {
            3
        } else {
            4
        };
        proof {
            assert(s@.take(i + 1) =~= s@.take(i as int) + seq![c]);
            lemma_encode_utf8_concat(s@.take(i as int), seq![c]);
            assert(seq![c].drop_first() =~= Seq::<char>::empty());
            assert(encode_utf8(Seq::<char>::empty()) =~= Seq::<u8>::empty());
            assert(seq![c][0] == c);
            assert(encode_utf8(seq![c]) =~= encode_scalar(c as u32));
            assert(s@ =~= s@.take(i + 1) + s@.skip(i + 1));
            lemma_encode_utf8_concat(s@.take(i + 1), s@.skip(i + 1));
        }
        r = r + w;
        i = i + 1;
    }
    r
}


// ---------------------------------------------------------------- lines

/// Where the line holding position `i` of `s` starts: just past the last
/// newline before `i`, or 0.
pub open spec fn line_start(s: Seq<char>, i: int) -> int
    decreases i,
{
    if i <= 0 {
        0
    } else if s[i - 1] == '\n' {
        i
    } else {
        line_start(s, i - 1)
    }
}

/// Where the line holding position `j` of `s` ends: at the first newline at
/// or after `j`, or at the end of `s`.
pub open spec fn line_end(s: Seq<char>, j: int) -> int
    decreases s.len() - j,
{
    if j >= s.len() {
        s.len() as int
    } else if s[j] == '\n' {
        j
    } else {
        line_end(s, j + 1)
    }
}

proof fn lemma_line_start_bounds(s: Seq<char>, i: int)
    requires
        0 <= i <= s.len(),
    ensures
        0 <= line_start(s, i) <= i,
    decreases i,
{
    if i > 0 && s[i - 1] != '\n' {
        lemma_line_start_bounds(s, i - 1);
    }
}

proof fn lemma_line_end_bounds(s: Seq<char>, j: int)
    requires
        0 <= j <= s.len(),
    ensures
        j <= line_end(s, j) <= s.len(),
    decreases s.len() - j,
{
    if j < s.len() && s[j] != '\n' {
        lemma_line_end_bounds(s, j + 1);
    }
}

/// Start of the line holding position `i`.
fn find_line_start(s: &Vec<char>, i: usize) -> (r: usize)
    requires
        i <= s.len(),
    ensures
        r == line_start(s@, i as int),
        r <= i,
{
    proof {
        lemma_line_start_bounds(s@, i as int);
    }
    let mut k = i;
    while k > 0 && s[k - 1] != '\n'
        invariant
            k <= i <= s.len(),
            line_start(s@, i as int) == line_start(s@, k as int),
        decreases k,
    {
        k = k - 1;
    }
    k
}

/// End of the line holding position `j`.
fn find_line_end(s: &Vec<char>, j: usize) -> (r: usize)
    requires
        j <= s.len(),
    ensures
        r == line_end(s@, j as int),
        j <= r <= s.len(),
{
    let mut k = j;
    while k < s.len() && s[k] != '\n'
        invariant
            j <= k <= s.len(),
            line_end(s@, j as int) == line_end(s@, k as int),
        decreases s.len() - k,
    {
        k = k + 1;
    }
    k
}

/// The lines of `t`, split at each newline (always at least one line).
pub open spec fn split_lines(t: Seq<char>) -> Seq<Seq<char>>
    decreases t.len(),
{
    if t.len() == 0 {
        seq![Seq::<char>::empty()]
    } else {
        let w = split_lines(t.drop_last());
        if t.last() == '\n' {
            w.push(Seq::<char>::empty())
        } else {
            w.update(w.len() - 1, w.last().push(t.last()))
        }
    }
}

proof fn lemma_split_lines_nonempty(t: Seq<char>)
    ensures
        split_lines(t).len() >= 1,
    decreases t.len(),
{
    if t.len() > 0 {
        lemma_split_lines_nonempty(t.drop_last());
    }
}

/// The lines `ls` joined with newlines.
pub open spec fn join_lines(ls: Seq<Seq<char>>) -> Seq<char>
    decreases ls.len(),
{
    if ls.len() == 0 {
        Seq::empty()
    } else if ls.len() == 1 {
        ls[0]
    } else {
        join_lines(ls.drop_last()) + seq!['\n'] + ls.last()
    }
}

/// The character sequences held by a vector of character vectors.
pub open spec fn views(v: Seq<Vec<char>>) -> Seq<Seq<char>> {
    v.map_values(|x: Vec<char>| x@)
}

/// The lines of `t`.
pub fn split_lines_of(t: &Vec<char>) -> (r: Vec<Vec<char>>)
    ensures
        views(r@) == split_lines(t@),
{
    let mut r: Vec<Vec<char>> = Vec::new();
    let mut cur: Vec<char> = Vec::new();
    let mut i: usize = 0;
    proof {
        assert(t@.subrange(0, 0) =~= Seq::<char>::empty());
    }
    while i < t.len()
        invariant
            i <= t.len(),
            views(r@).push(cur@) == split_lines(t@.subrange(0, i as int)),
        decreases t.len() - i,
    {
        let c = t[i];
        let ghost pre = t@.subrange(0, i as int);
        proof {
            assert(t@.subrange(0, i + 1).drop_last() =~= pre);
            lemma_split_lines_nonempty(pre);
        }
        if c == '\n' {
            let ghost old_r = r@;
            r.push(cur);
            cur = Vec::new();
            proof {
                assert(views(r@) =~= views(old_r).push(views(r@).last()));
                assert(views(r@).push(cur@) =~= split_lines(pre).push(Seq::<char>::empty()));
            }
        } else {
            let ghost old_cur = cur@;
            cur.push(c);
            proof {
                assert(views(r@).push(cur@) =~= split_lines(pre).update(
                    split_lines(pre).len() - 1,
                    old_cur.push(c),
                ));
            }
        }
        i = i + 1;
    }
    let ghost old_r = r@;
    r.push(cur);
    proof {
        assert(t@.subrange(0, t.len() as int) =~= t@);
        assert(views(r@) =~= views(old_r).push(views(r@).last()));
    }
    r
}

/// The lines `ls` joined with newlines.
fn join_lines_of(ls: &Vec<Vec<char>>) -> (r: Vec<char>)
    ensures
        r@ == join_lines(views(ls@)),
{
    let mut r: Vec<char> = Vec::new();
    if ls.len() == 0 {
        proof {
            assert(views(ls@) =~= Seq::<Seq<char>>::empty());
        }
        return r;
    }
    append_chars(&mut r, &ls[0]);
    let mut k: usize = 1;
    proof {
        assert(views(ls@).take(1).len() == 1);
        assert(r@ == join_lines(views(ls@).take(1)));
    }
    while k < ls.len()
        invariant
            1 <= k <= ls.len(),
            r@ == join_lines(views(ls@).take(k as int)),
        decreases ls.len() - k,
    {
        r.push('\n');
        append_chars(&mut r, &ls[k]);
        proof {
            assert(views(ls@).take(k + 1).drop_last() =~= views(ls@).take(k as int));
        }
        k = k + 1;
    }
    proof {
        assert(views(ls@).take(ls.len() as int) =~= views(ls@));
    }
    r
}

/// `t` holds no newline.
pub open spec fn no_newline(t: Seq<char>) -> bool {
    forall|i: int| 0 <= i < t.len() ==> t[i] != '\n'
}

proof fn lemma_line_start_shape(s: Seq<char>, i: int)
    requires
        0 <= i <= s.len(),
    ensures
        line_start(s, i) == 0 || s[line_start(s, i) - 1] == '\n',
    decreases i,
{
    if i > 0 && s[i - 1] != '\n' {
        lemma_line_start_shape(s, i - 1);
    }
}

proof fn lemma_line_end_shape(s: Seq<char>, j: int)
    requires
        0 <= j <= s.len(),
    ensures
        line_end(s, j) == s.len() || s[line_end(s, j)] == '\n',
    decreases s.len() - j,
{
    if j < s.len() && s[j] != '\n' {
        lemma_line_end_shape(s, j + 1);
    }
}

proof fn lemma_split_lines_no_newline(t: Seq<char>)
    ensures
        split_lines(t).len() >= 1,
        forall|i: int| 0 <= i < split_lines(t).len() ==> no_newline(#[trigger] split_lines(t)[i]),
    decreases t.len(),
{
    if t.len() > 0 {
        lemma_split_lines_no_newline(t.drop_last());
        let w = split_lines(t.drop_last());
        let c = t.last();
        if c != '\n' {
            let x = w.last().push(c);
            assert(no_newline(w[w.len() - 1]));
            assert(no_newline(x));
            assert forall|i: int| 0 <= i < split_lines(t).len() implies no_newline(
                #[trigger] split_lines(t)[i],
            ) by {
                if i < w.len() - 1 {
                    assert(split_lines(t)[i] == w[i]);
                }
            }
        } else {
            assert forall|i: int| 0 <= i < split_lines(t).len() implies no_newline(
                #[trigger] split_lines(t)[i],
            ) by {
                if i < w.len() {
                    assert(split_lines(t)[i] == w[i]);
                }
            }
        }
    }
}

/// Joining the lines of `t` gives back `t`.
proof fn lemma_join_split(t: Seq<char>)
    ensures
        join_lines(split_lines(t)) == t,
    decreases t.len(),
{
    if t.len() > 0 {
        let u = t.drop_last();
        let c = t.last();
        let w = split_lines(u);
        lemma_join_split(u);
        lemma_split_lines_nonempty(u);
        if c == '\n' {
            assert(w.push(Seq::<char>::empty()).drop_last() =~= w);
            assert(t =~= u + seq!['\n'] + Seq::<char>::empty());
        } else {
            let w2 = w.update(w.len() - 1, w.last().push(c));
            if w.len() == 1 {
                assert(t =~= w[0].push(c));
            } else {
                assert(w2.drop_last() =~= w.drop_last());
                assert(u == join_lines(w.drop_last()) + seq!['\n'] + w.last());
                assert(t =~= u.push(c));
                assert((join_lines(w.drop_last()) + seq!['\n'] + w.last()).push(c) =~= join_lines(
                    w.drop_last(),
                ) + seq!['\n'] + w.last().push(c));
                assert(t =~= join_lines(w.drop_last()) + seq!['\n'] + w.last().push(c));
            }
        }
    }
}

proof fn lemma_split_single_line(x: Seq<char>)
    requires
        no_newline(x),
    ensures
        split_lines(x) == seq![x],
    decreases x.len(),
{
    if x.len() > 0 {
        assert(no_newline(x.drop_last()));
        lemma_split_single_line(x.drop_last());
        assert(x.drop_last().push(x.last()) =~= x);
        assert(seq![x.drop_last()].update(0, x.drop_last().push(x.last())) =~= seq![x]);
    } else {
        assert(x =~= Seq::<char>::empty());
    }
}

proof fn lemma_split_after_newline(u: Seq<char>, x: Seq<char>)
    requires
        no_newline(x),
    ensures
        split_lines(u + seq!['\n'] + x) == split_lines(u).push(x),
    decreases x.len(),
{
    let v = u + seq!['\n'] + x;
    if x.len() == 0 {
        assert(v.drop_last() =~= u);
        assert(x =~= Seq::<char>::empty());
    } else {
        let x0 = x.drop_last();
        assert(no_newline(x0));
        lemma_split_after_newline(u, x0);
        assert(v.drop_last() =~= u + seq!['\n'] + x0);
        assert(v.last() == x.last());
        assert(x0.push(x.last()) =~= x);
        assert(split_lines(u).push(x0).update(split_lines(u).len() as int, x0.push(x.last()))
            =~= split_lines(u).push(x));
    }
}

/// Splitting lines that hold no newline after joining them gives them back.
proof fn lemma_split_join(m: Seq<Seq<char>>)
    requires
        m.len() >= 1,
        forall|i: int| 0 <= i < m.len() ==> no_newline(#[trigger] m[i]),
    ensures
        split_lines(join_lines(m)) == m,
    decreases m.len(),
{
    if m.len() == 1 {
        assert(no_newline(m[0]));
        lemma_split_single_line(m[0]);
        assert(m =~= seq![m[0]]);
    } else {
        let m0 = m.drop_last();
        assert forall|i: int| 0 <= i < m0.len() implies no_newline(#[trigger] m0[i]) by {
            assert(m0[i] == m[i]);
        }
        lemma_split_join(m0);
        assert(no_newline(m[m.len() - 1]));
        lemma_split_after_newline(join_lines(m0), m.last());
        assert(m0.push(m.last()) =~= m);
    }
}

/// Toggling a line prefix undoes itself: when a prefix that holds no
/// newline and is no heading was put on the selected lines, toggling it
/// again on the selection it returned gives back the text, with the whole
/// lines selected.
pub proof fn law_prefix_toggles_back(s: Seq<char>, a: int, b: int, p: &'static str)
    requires
        0 <= a <= b <= s.len(),
        no_newline(p@),
        !(p@.len() > 0 && p@[0] == '#'),
        !all_prefixed(s.subrange(line_start(s, a), line_end(s, b)), p@),
    ensures
        ({
            let (t, x, y) = md_applied(s, a, b, Md::LinePrefix(p));
            md_applied(t, x, y, Md::LinePrefix(p)) == (s, line_start(s, a), line_end(s, b))
        }),
{
    let lo = line_start(s, a);
    let hi = line_end(s, b);
    lemma_line_start_bounds(s, a);
    lemma_line_end_bounds(s, b);
    lemma_line_start_shape(s, a);
    lemma_line_end_shape(s, b);
    let block = s.subrange(lo, hi);
    let pv = p@;
    let ls = split_lines(block);
    lemma_split_lines_no_newline(block);
    let m = ls.map_values(|l: Seq<char>| prefixed_line(pv, l, false));
    let nb = join_lines(m);
    assert(prefixed_block(pv, block) == nb);
    let t = s.take(lo) + nb + s.skip(hi);
    let y = lo + nb.len();
    assert(md_applied(s, a, b, Md::LinePrefix(p)) == (t, lo, y));
    lemma_block_found_again(s, a, b, nb);
    // and its lines are those put in
    assert forall|i: int| 0 <= i < m.len() implies no_newline(#[trigger] m[i]) by {
        assert(m[i] == pv + ls[i]);
        assert(no_newline(ls[i]));
    }
    lemma_split_join(m);
    assert forall|i: int| 0 <= i < split_lines(nb).len() implies starts_with(
        #[trigger] split_lines(nb)[i],
        pv,
    ) by {
        assert(split_lines(nb)[i] == pv + ls[i]);
        assert((pv + ls[i]).subrange(0, pv.len() as int) =~= pv);
    }
    assert(all_prefixed(nb, pv));
    let back = split_lines(nb).map_values(|l: Seq<char>| prefixed_line(pv, l, true));
    assert(back =~= ls) by {
        assert forall|i: int| 0 <= i < ls.len() implies back[i] == ls[i] by {
            assert((pv + ls[i]).skip(pv.len() as int) =~= ls[i]);
        }
    }
    lemma_join_split(block);
    assert(prefixed_block(pv, nb) == block);
}

/// After the lines touched by `[a, b)` were replaced by `nb`, the lines
/// touched by the selection that covers `nb` are `nb` again, and putting
/// the old lines back gives back `s`.
proof fn lemma_block_found_again(s: Seq<char>, a: int, b: int, nb: Seq<char>)
    requires
        0 <= a <= b <= s.len(),
    ensures
        ({
            let lo = line_start(s, a);
            let hi = line_end(s, b);
            let t = s.take(lo) + nb + s.skip(hi);
            let y = lo + nb.len();
            &&& 0 <= lo <= hi <= s.len()
            &&& y <= t.len()
            &&& line_start(t, lo) == lo
            &&& line_end(t, y) == y
            &&& t.subrange(lo, y) == nb
            &&& t.take(lo) + s.subrange(lo, hi) + t.skip(y) == s
        }),
{
    let lo = line_start(s, a);
    let hi = line_end(s, b);
    lemma_line_start_bounds(s, a);
    lemma_line_end_bounds(s, b);
    lemma_line_start_shape(s, a);
    lemma_line_end_shape(s, b);
    let t = s.take(lo) + nb + s.skip(hi);
    let y = lo + nb.len();
    assert(t.len() == lo + nb.len() + (s.len() - hi));
    if lo > 0 {
        assert(t[lo - 1] == s[lo - 1]);
    }
    assert(line_start(t, lo) == lo);
    if y < t.len() {
        assert(t[y] == s[hi]);
    }
    assert(line_end(t, y) == y);
    assert(t.subrange(lo, y) =~= nb);
    assert(t.take(lo) + s.subrange(lo, hi) + t.skip(y) =~= s);
}

proof fn lemma_digits_end(w: Seq<char>, d: int, k: int)
    requires
        0 <= k <= d < w.len(),
        forall|i: int| 0 <= i < d ==> '0' <= #[trigger] w[i] && w[i] <= '9',
        w[d] == '.',
    ensures
        digits_end(w, k) == d,
    decreases d - k,
{
    if k < d {
        lemma_digits_end(w, d, k + 1);
    }
}

/// A line numbered `n` opens with a list marker as long as `n`'s digits
/// plus two, and dropping it gives back the line.
proof fn lemma_numbered_marker(n: nat, l: Seq<char>)
    ensures
        numbered_len(nat_text(n) + seq!['.', ' '] + l) == Some((nat_text(n).len() + 2) as nat),
        (nat_text(n) + seq!['.', ' '] + l).skip(nat_text(n).len() + 2int) == l,
        no_newline(l) ==> no_newline(nat_text(n) + seq!['.', ' '] + l),
{
    let d = nat_text(n);
    let w = d + seq!['.', ' '] + l;
    lemma_nat_text_digits(n);
    assert forall|i: int| 0 <= i < d.len() implies '0' <= #[trigger] w[i] && w[i] <= '9' by {
        assert(w[i] == d[i]);
    }
    lemma_digits_end(w, d.len() as int, 0);
    assert(w.skip(d.len() as int).subrange(0, 2) =~= seq!['.', ' ']);
    assert(w.skip(d.len() + 2int) =~= l);
    if no_newline(l) {
        assert forall|i: int| 0 <= i < w.len() implies w[i] != '\n' by {
            if i < d.len() {
                assert(w[i] == d[i]);
            } else if i >= d.len() + 2 {
                assert(w[i] == l[i - d.len() - 2]);
            }
        }
    }
}

/// Toggling the numbering undoes itself: when numbers were put on the
/// selected lines, toggling again on the selection it returned gives back
/// the text, with the whole lines selected.
pub proof fn law_numbering_toggles_back(s: Seq<char>, a: int, b: int)
    requires
        0 <= a <= b <= s.len(),
        !all_numbered(s.subrange(line_start(s, a), line_end(s, b))),
    ensures
        ({
            let (t, x, y) = md_applied(s, a, b, Md::Numbered);
            md_applied(t, x, y, Md::Numbered) == (s, line_start(s, a), line_end(s, b))
        }),
{
    let lo = line_start(s, a);
    let hi = line_end(s, b);
    lemma_line_start_bounds(s, a);
    lemma_line_end_bounds(s, b);
    let block = s.subrange(lo, hi);
    let ls = split_lines(block);
    lemma_split_lines_no_newline(block);
    let m = ls.map(|i: int, l: Seq<char>| numbered_line(i, l, false));
    let nb = join_lines(m);
    assert(numbered_block(block) == nb);
    let t = s.take(lo) + nb + s.skip(hi);
    let y = lo + nb.len();
    assert(md_applied(s, a, b, Md::Numbered) == (t, lo, y));
    lemma_block_found_again(s, a, b, nb);
    assert forall|i: int| 0 <= i < m.len() implies no_newline(#[trigger] m[i]) by {
        assert(no_newline(ls[i]));
        lemma_numbered_marker((i + 1) as nat, ls[i]);
    }
    lemma_split_join(m);
    assert forall|i: int| 0 <= i < split_lines(nb).len() implies (#[trigger] numbered_len(
        split_lines(nb)[i],
    )) is Some by {
        lemma_numbered_marker((i + 1) as nat, ls[i]);
    }
    assert(all_numbered(nb));
    let back = split_lines(nb).map(|i: int, l: Seq<char>| numbered_line(i, l, true));
    assert(back =~= ls) by {
        assert forall|i: int| 0 <= i < ls.len() implies back[i] == ls[i] by {
            lemma_numbered_marker((i + 1) as nat, ls[i]);
        }
    }
    lemma_join_split(block);
    assert(numbered_block(nb) == block);
}

proof fn lemma_nat_text_digits(n: nat)
    ensures
        nat_text(n).len() >= 1,
        forall|i: int| 0 <= i < nat_text(n).len() ==> '0' <= #[trigger] nat_text(n)[i] && nat_text(n)[i] <= '9',
    decreases n,
{
    if n >= 10 {
        lemma_nat_text_digits(n / 10);
    }
    let d = digit_char(n % 10);
    assert('0' <= d && d <= '9');
}

// ---------------------------------------------------------------- pieces

/// The characters `v[lo..hi]`.
fn sub_chars(v: &Vec<char>, lo: usize, hi: usize) -> (r: Vec<char>)
    requires
        lo <= hi <= v.len(),
    ensures
        r@ == v@.subrange(lo as int, hi as int),
{
    let mut r: Vec<char> = Vec::new();
    let mut i = lo;
    while i < hi
        invariant
            lo <= i <= hi <= v.len(),
            r@ == v@.subrange(lo as int, i as int),
        decreases hi - i,
    {
        r.push(v[i]);
        proof {
            assert(v@.subrange(lo as int, i + 1) =~= v@.subrange(lo as int, i as int).push(v@[i as int]));
        }
        i = i + 1;
    }
    r
}

/// `v` with `v[lo..hi]` replaced by `mid`.
fn splice(v: &Vec<char>, lo: usize, hi: usize, mid: &Vec<char>) -> (r: Vec<char>)
    requires
        lo <= hi <= v.len(),
    ensures
        r@ == v@.take(lo as int) + mid@ + v@.skip(hi as int),
{
    let mut r = sub_chars(v, 0, lo);
    append_chars(&mut r, mid);
    let tail = sub_chars(v, hi, v.len());
    append_chars(&mut r, &tail);
    proof {
        assert(v@.subrange(0, lo as int) =~= v@.take(lo as int));
        assert(v@.subrange(hi as int, v.len() as int) =~= v@.skip(hi as int));
    }
    r
}

/// Index of the first character at or after `k` in `l` that is not `c`.
pub open spec fn run_end(l: Seq<char>, c: char, k: int) -> int
    decreases l.len() - k,
{
    if 0 <= k < l.len() && l[k] == c {
        run_end(l, c, k + 1)
    } else {
        k
    }
}

/// Index of the first character at or after `k` in `l` that is not an
/// ASCII digit.
pub open spec fn digits_end(l: Seq<char>, k: int) -> int
    decreases l.len() - k,
{
    if 0 <= k < l.len() && '0' <= l[k] && l[k] <= '9' {
        digits_end(l, k + 1)
    } else {
        k
    }
}

/// Length of the `N. ` list marker that opens `l` (one or more ASCII
/// digits, a dot and a space), if `l` has one.
pub open spec fn numbered_len(l: Seq<char>) -> Option<nat> {
    let d = digits_end(l, 0);
    if d > 0 && starts_with(l.skip(d), seq!['.', ' ']) {
        Some((d + 2) as nat)
    } else {
        None
    }
}

/// Length of the list marker opening `l`.
fn numbered_len_of(l: &Vec<char>) -> (r: Option<usize>)
    ensures
        r matches Some(n) ==> numbered_len(l@) == Some(n as nat) && n <= l.len(),
        r is None ==> numbered_len(l@) is None,
{
    let mut d: usize = 0;
    while d < l.len() && '0' <= l[d] && l[d] <= '9'
        invariant
            d <= l.len(),
            digits_end(l@, 0) == digits_end(l@, d as int),
        decreases l.len() - d,
    {
        d = d + 1;
    }
    if d == 0 {
        return None;
    }
    let mut dot: Vec<char> = Vec::new();
    dot.push('.');
    dot.push(' ');
    if has_at(l, d, &dot) {
        proof {
            assert(l@.subrange(d as int, l.len() as int) =~= l@.skip(d as int));
            assert(dot@ =~= seq!['.', ' ']);
        }
        Some(d + 2)
    } else {
        proof {
            assert(l@.subrange(d as int, l.len() as int) =~= l@.skip(d as int));
            assert(dot@ =~= seq!['.', ' ']);
        }
        None
    }
}

/// Length of the `N. ` list marker that opens `line`, if it has one; the
/// marker is ASCII, so this is its length in bytes as well as in characters.
pub fn numbered_prefix(line: &str) -> (r: Option<usize>)
    ensures
        r matches Some(n) ==> numbered_len(line@) == Some(n as nat),
        r is None ==> numbered_len(line@) is None,
{
    let l = chars_of(line);
    numbered_len_of(&l)
}

// ---------------------------------------------------------------- line actions

/// `l` without its heading marks: the leading `#`s and one space after them.
pub open spec fn strip_heading(l: Seq<char>) -> Seq<char> {
    let bare = l.skip(run_end(l, '#', 0));
    if bare.len() > 0 && bare[0] == ' ' {
        bare.skip(1)
    } else {
        bare
    }
}

/// One line of a prefix toggle: the prefix comes off when every line had
/// it; a heading prefix replaces any heading level already there; any
/// other prefix is put in front.
pub open spec fn prefixed_line(p: Seq<char>, l: Seq<char>, all_have: bool) -> Seq<char> {
    if all_have {
        l.skip(p.len() as int)
    } else if p.len() > 0 && p[0] == '#' {
        p + strip_heading(l)
    } else {
        p + l
    }
}

/// Whether every line of `t` starts with `p`.
pub open spec fn all_prefixed(t: Seq<char>, p: Seq<char>) -> bool {
    forall|i: int| 0 <= i < split_lines(t).len() ==> starts_with(#[trigger] split_lines(t)[i], p)
}

/// The block `t` after toggling the line prefix `p` on each of its lines.
pub open spec fn prefixed_block(p: Seq<char>, t: Seq<char>) -> Seq<char> {
    let all_have = all_prefixed(t, p);
    join_lines(split_lines(t).map_values(|l: Seq<char>| prefixed_line(p, l, all_have)))
}

/// Whether every line of `t` opens with a `N. ` marker.
pub open spec fn all_numbered(t: Seq<char>) -> bool {
    forall|i: int| 0 <= i < split_lines(t).len() ==> (#[trigger] numbered_len(split_lines(t)[i])) is Some
}

/// Line `i` (from 0) of a numbering toggle: the marker comes off when every
/// line had one, else `i + 1`, a dot and a space go in front.
pub open spec fn numbered_line(i: int, l: Seq<char>, all_have: bool) -> Seq<char> {
    if all_have {
        l.skip(numbered_len(l).unwrap() as int)
    } else {
        nat_text((i + 1) as nat) + seq!['.', ' '] + l
    }
}

/// The block `t` after toggling the numbering of its lines.
pub open spec fn numbered_block(t: Seq<char>) -> Seq<char> {
    let all_have = all_numbered(t);
    join_lines(split_lines(t).map(|i: int, l: Seq<char>| numbered_line(i, l, all_have)))
}

/// Heading marks of `l` removed.
fn strip_heading_of(l: &Vec<char>) -> (r: Vec<char>)
    ensures
        r@ == strip_heading(l@),
{
    let mut k: usize = 0;
    while k < l.len() && l[k] == '#'
        invariant
            k <= l.len(),
            run_end(l@, '#', 0) == run_end(l@, '#', k as int),
        decreases l.len() - k,
    {
        k = k + 1;
    }
    if k < l.len() && l[k] == ' ' {
        let r = sub_chars(l, k + 1, l.len());
        proof {
            assert(l@.skip(k as int).skip(1) =~= l@.subrange(k + 1, l.len() as int));
        }
        r
    } else {
        let r = sub_chars(l, k, l.len());
        proof {
            assert(l@.skip(k as int) =~= l@.subrange(k as int, l.len() as int));
        }
        r
    }
}

/// The block `t` after toggling the line prefix `p`.
fn prefixed_block_of(p: &Vec<char>, t: &Vec<char>) -> (r: Vec<char>)
    ensures
        r@ == prefixed_block(p@, t@),
{
    let ls = split_lines_of(t);
    let mut all_have = true;
    let mut i: usize = 0;
    while i < ls.len()
        invariant
            views(ls@) == split_lines(t@),
            i <= ls.len(),
            all_have == forall|k: int| 0 <= k < i ==> starts_with(#[trigger] split_lines(t@)[k], p@),
        decreases ls.len() - i,
    {
        let h = has_at(&ls[i], 0, p);
        proof {
            assert(views(ls@)[i as int] == ls@[i as int]@);
            assert(ls@[i as int]@.subrange(0, ls@[i as int]@.len() as int) =~= ls@[i as int]@);
        }
        all_have = all_have && h;
        i = i + 1;
    }
    let heading = p.len() > 0 && p[0] == '#';
    let mut out: Vec<Vec<char>> = Vec::new();
    let mut j: usize = 0;
    let ghost want = split_lines(t@).map_values(|l: Seq<char>| prefixed_line(p@, l, all_have));
    while j < ls.len()
        invariant
            views(ls@) == split_lines(t@),
            all_have == all_prefixed(t@, p@),
            heading == (p@.len() > 0 && p@[0] == '#'),
            want == split_lines(t@).map_values(|l: Seq<char>| prefixed_line(p@, l, all_have)),
            j <= ls.len(),
            views(out@) == want.take(j as int),
        decreases ls.len() - j,
    {
        let l = &ls[j];
        proof {
            assert(views(ls@)[j as int] == l@);
        }
        let line = if all_have {
            let n = if p.len() <= l.len() { p.len() } else { l.len() };
            proof {
                assert(starts_with(split_lines(t@)[j as int], p@));
            }
            sub_chars(l, n, l.len())
        } else if heading {
            let mut v: Vec<char> = Vec::new();
            append_chars(&mut v, p);
            let bare = strip_heading_of(l);
            append_chars(&mut v, &bare);
            v
        } else {
            let mut v: Vec<char> = Vec::new();
            append_chars(&mut v, p);
            append_chars(&mut v, l);
            v
        };
        proof {
            if all_have {
                assert(l@.subrange(p@.len() as int, l@.len() as int) =~= l@.skip(p@.len() as int));
            }
            assert(line@ == want[j as int]);
        }
        let ghost old_out = out@;
        out.push(line);
        proof {
            assert(views(out@) =~= views(old_out).push(line@));
            assert(want.take(j + 1) =~= want.take(j as int).push(want[j as int]));
        }
        j = j + 1;
    }
    proof {
        assert(want.take(ls.len() as int) =~= want);
    }
    join_lines_of(&out)
}

/// The block `t` after toggling the numbering of its lines.
fn numbered_block_of(t: &Vec<char>) -> (r: Vec<char>)
    ensures
        r@ == numbered_block(t@),
{
    let ls = split_lines_of(t);
    let mut all_have = true;
    let mut i: usize = 0;
    while i < ls.len()
        invariant
            views(ls@) == split_lines(t@),
            i <= ls.len(),
            all_have == forall|k: int| 0 <= k < i ==> (#[trigger] numbered_len(split_lines(t@)[k])) is Some,
        decreases ls.len() - i,
    {
        let h = numbered_len_of(&ls[i]);
        proof {
            assert(views(ls@)[i as int] == ls@[i as int]@);
        }
        all_have = all_have && h.is_some();
        i = i + 1;
    }
    let mut out: Vec<Vec<char>> = Vec::new();
    let mut j: usize = 0;
    let ghost want = split_lines(t@).map(|i: int, l: Seq<char>| numbered_line(i, l, all_have));
    while j < ls.len()
        invariant
            views(ls@) == split_lines(t@),
            all_have == all_numbered(t@),
            want == split_lines(t@).map(|i: int, l: Seq<char>| numbered_line(i, l, all_have)),
            j <= ls.len(),
            views(out@) == want.take(j as int),
        decreases ls.len() - j,
    {
        let l = &ls[j];
        proof {
            assert(views(ls@)[j as int] == l@);
        }
        let line = if all_have {
            proof {
                assert(numbered_len(split_lines(t@)[j as int]) is Some);
            }
            match numbered_len_of(l) {
                Some(n) => sub_chars(l, n, l.len()),
                None => Vec::new(),
            }
        } else {
            let mut v = u64_text((j + 1) as u64);
            v.push('.');
            v.push(' ');
            append_chars(&mut v, l);
            v
        };
        proof {
            if all_have {
                let n = numbered_len(l@).unwrap() as int;
                assert(l@.subrange(n, l@.len() as int) =~= l@.skip(n));
            } else {
                assert(nat_text((j + 1) as nat) + seq!['.', ' '] + l@ =~= line@);
            }
            assert(line@ == want[j as int]);
        }
        let ghost old_out = out@;
        out.push(line);
        proof {
            assert(views(out@) =~= views(old_out).push(line@));
            assert(want.take(j + 1) =~= want.take(j as int).push(want[j as int]));
        }
        j = j + 1;
    }
    proof {
        assert(want.take(ls.len() as int) =~= want);
    }
    join_lines_of(&out)
}

// ---------------------------------------------------------------- actions

/// A formatting action from the notes toolbar.
#[derive(Clone, Copy, Debug)]
pub enum Md {
    /// Wrap the selection in a symmetric marker (`**`, `*`, `~~`, `` ` ``).
    Wrap(&'static str),
    /// Toggle a prefix on every selected line (`# `, `- `, `> `, `- [ ] `).
    LinePrefix(&'static str),
    /// Number the selected lines `1. 2. 3.` (or strip the numbers).
    Numbered,
    /// Fence the selected lines as a code block.
    CodeBlock,
    /// Insert a horizontal rule after the selected lines.
    Rule,
    /// Insert an empty two-column table after the selected lines.
    Table,
}

/// `i` limited to `n`.
pub open spec fn clamp(i: int, n: int) -> int {
    if i < n {
        i
    } else {
        n
    }
}

/// The selection `sel` begins and ends with the marker `m`, two copies
/// that do not overlap.
pub open spec fn marked_inside(sel: Seq<char>, m: Seq<char>) -> bool {
    sel.len() >= 2 * m.len() && starts_with(sel, m) && sel.subrange(
        sel.len() - m.len(),
        sel.len() as int,
    ) == m
}

/// The marker `m` stands just before position `ca` and just after
/// position `cb` of `s`.
pub open spec fn marked_around(s: Seq<char>, ca: int, cb: int, m: Seq<char>) -> bool {
    ca >= m.len() && s.subrange(ca - m.len(), ca) == m && starts_with(s.skip(cb), m)
}

/// Toggling the marker `m` around the selection `[a, b)` of `s`: markers
/// inside the selection come off, markers just around it come off, else
/// markers go in. Gives the new text and the new selection.
pub open spec fn wrapped(s: Seq<char>, a: int, b: int, m: Seq<char>) -> (Seq<char>, int, int) {
    let ca = clamp(a, s.len() as int);
    let cb = clamp(b, s.len() as int);
    let ml = m.len() as int;
    let sel = s.subrange(ca, cb);
    if marked_inside(sel, m) {
        (s.take(ca) + sel.subrange(ml, sel.len() - ml) + s.skip(cb), a, b - 2 * ml)
    } else if marked_around(s, ca, cb, m) {
        (s.take(ca - ml) + sel + s.skip(cb + ml), a - ml, b - ml)
    } else {
        (s.take(ca) + m + sel + m + s.skip(cb), a + ml, b + ml)
    }
}

/// Wrapping undoes itself: when toggling a marker on a selection put the
/// markers in, toggling it again on the selection it returned gives back
/// the text and the selection.
pub proof fn law_wrap_toggles_back(s: Seq<char>, a: int, b: int, m: Seq<char>)
    requires
        0 <= a <= b <= s.len(),
        !marked_inside(s.subrange(a, b), m),
        !marked_around(s, a, b, m),
    ensures
        ({
            let (t, x, y) = wrapped(s, a, b, m);
            wrapped(t, x, y, m) == (s, a, b)
        }),
{
    let ml = m.len() as int;
    let sel = s.subrange(a, b);
    let t = s.take(a) + m + sel + m + s.skip(b);
    assert(wrapped(s, a, b, m) == (t, a + ml, b + ml));
    assert(t.len() == s.len() + 2 * ml);
    assert(t.subrange(a + ml, b + ml) =~= sel);
    assert(t.subrange(a, a + ml) =~= m);
    assert(t.skip(b + ml).subrange(0, ml) =~= m);
    assert(marked_around(t, a + ml, b + ml, m));
    assert(t.take(a) + sel + t.skip(b + 2 * ml) =~= s);
}

/// `s` with `s[lo..hi]` replaced by `block`, and the selection covering
/// the new block.
pub open spec fn replaced(s: Seq<char>, lo: int, hi: int, block: Seq<char>) -> (Seq<char>, int, int) {
    (s.take(lo) + block + s.skip(hi), lo, lo + block.len())
}

/// `ins` inserted into `s` at `at`, with the cursor just after it.
pub open spec fn inserted(s: Seq<char>, at: int, ins: Seq<char>) -> (Seq<char>, int, int) {
    (s.take(at) + ins + s.skip(at), at + ins.len(), at + ins.len())
}

/// What a horizontal rule inserts.
pub open spec fn rule_text() -> Seq<char> {
    "\n\n---\n"@
}

/// What an empty table inserts.
pub open spec fn table_text() -> Seq<char> {
    "\n\n| Col 1 | Col 2 |\n| --- | --- |\n|  |  |\n"@
}

/// The text and the selection after applying `md` to `s` at the character
/// selection `[a, b)`. Line actions act on the whole lines the selection
/// touches; positions past the end count as the end.
pub open spec fn md_applied(s: Seq<char>, a: int, b: int, md: Md) -> (Seq<char>, int, int) {
    let lo = line_start(s, clamp(a, s.len() as int));
    let hi = line_end(s, clamp(b, s.len() as int));
    let block = s.subrange(lo, hi);
    match md {
        Md::Wrap(m) => wrapped(s, a, b, m@),
        Md::LinePrefix(p) => replaced(s, lo, hi, prefixed_block(p@, block)),
        Md::Numbered => replaced(s, lo, hi, numbered_block(block)),
        Md::CodeBlock => replaced(s, lo, hi, "```\n"@ + block + "\n```"@),
        Md::Rule => inserted(s, hi, rule_text()),
        Md::Table => inserted(s, hi, table_text()),
    }
}

/// The toolbar's wrap button undoes itself: when pressing it on a
/// selection put the markers in, pressing it again on the selection it
/// returned is a call `apply_md` accepts (its selection end plus the marker
/// still fits a `usize` when the first end plus two markers did), and it
/// gives back the text and the selection.
pub proof fn law_wrap_button_round_trip(s: Seq<char>, a: usize, b: usize, m: &'static str)
    requires
        a <= b <= s.len(),
        b + 2 * m@.len() <= usize::MAX,
        !marked_inside(s.subrange(a as int, b as int), m@),
        !marked_around(s, a as int, b as int, m@),
    ensures
        ({
            let (t, x, y) = md_applied(s, a as int, b as int, Md::Wrap(m));
            &&& 0 <= x <= y
            &&& y + m@.len() <= usize::MAX
            &&& md_applied(t, x, y, Md::Wrap(m)) == (s, a as int, b as int)
        }),
{
    law_wrap_toggles_back(s, a as int, b as int, m@);
}

proof fn lemma_line_start_no_newline(s: Seq<char>, i: int)
    requires
        0 <= i <= s.len(),
    ensures
        forall|k: int| line_start(s, i) <= k < i ==> s[k] != '\n',
    decreases i,
{
    if i > 0 && s[i - 1] != '\n' {
        lemma_line_start_no_newline(s, i - 1);
    }
}

proof fn lemma_line_end_no_newline(s: Seq<char>, j: int)
    requires
        0 <= j <= s.len(),
    ensures
        forall|k: int| j <= k < line_end(s, j) ==> s[k] != '\n',
    decreases s.len() - j,
{
    if j < s.len() && s[j] != '\n' {
        lemma_line_end_no_newline(s, j + 1);
    }
}

/// `lo..hi` spans whole lines of `s` around `a..b`: `lo` is where the line
/// holding `a` starts and `hi` where the line holding `b` ends.
pub open spec fn whole_lines(s: Seq<char>, a: int, b: int, lo: int, hi: int) -> bool {
    &&& 0 <= lo <= a
    &&& b <= hi <= s.len()
    &&& lo == 0 || s[lo - 1] == '\n'
    &&& forall|k: int| lo <= k < a ==> s[k] != '\n'
    &&& hi == s.len() || s[hi] == '\n'
    &&& forall|k: int| b <= k < hi ==> s[k] != '\n'
}

/// The code-block button fences every line the selection touches: the
/// whole lines from the one holding the selection's start to the one
/// holding its end go between a "```" line and a closing "```", the rest
/// of the text stays as it was, and the fenced block is selected.
pub proof fn law_code_block_fences_every_selected_line(s: Seq<char>, a: int, b: int)
    requires
        0 <= a <= b <= s.len(),
    ensures
        exists|lo: int, hi: int|
            #[trigger] whole_lines(s, a, b, lo, hi) && md_applied(s, a, b, Md::CodeBlock) == (
                s.take(lo) + "```\n"@ + s.subrange(lo, hi) + "\n```"@ + s.skip(hi),
                lo,
                lo + (hi - lo) + 8,
            ),
{
    let lo = line_start(s, a);
    let hi = line_end(s, b);
    lemma_line_start_bounds(s, a);
    lemma_line_end_bounds(s, b);
    lemma_line_start_shape(s, a);
    lemma_line_end_shape(s, b);
    lemma_line_start_no_newline(s, a);
    lemma_line_end_no_newline(s, b);
    reveal_strlit("```\n");
    reveal_strlit("\n```");
    assert(whole_lines(s, a, b, lo, hi));
    let block = "```\n"@ + s.subrange(lo, hi) + "\n```"@;
    assert(block.len() == (hi - lo) + 8);
    assert(s.take(lo) + block + s.skip(hi) =~= s.take(lo) + "```\n"@ + s.subrange(lo, hi) + "\n```"@ + s.skip(hi));
}

/// The line buttons (a prefix on each line, numbering) rewrite whole
/// lines: from the start of the line holding the selection's start to the
/// end of the line holding its end. The text before and after those lines
/// stays as it was, and the rewritten lines are selected.
pub proof fn law_line_buttons_rewrite_whole_lines(s: Seq<char>, a: int, b: int, md: Md)
    requires
        0 <= a <= b <= s.len(),
        md is LinePrefix || md is Numbered,
    ensures
        exists|lo: int, hi: int|
            #[trigger] whole_lines(s, a, b, lo, hi) && ({
                let (t, x, y) = md_applied(s, a, b, md);
                &&& x == lo
                &&& lo <= y <= t.len()
                &&& t.take(lo) == s.take(lo)
                &&& t.skip(y) == s.skip(hi)
            }),
{
    let lo = line_start(s, a);
    let hi = line_end(s, b);
    lemma_line_start_bounds(s, a);
    lemma_line_end_bounds(s, b);
    lemma_line_start_shape(s, a);
    lemma_line_end_shape(s, b);
    lemma_line_start_no_newline(s, a);
    lemma_line_end_no_newline(s, b);
    assert(whole_lines(s, a, b, lo, hi));
    let (t, x, y) = md_applied(s, a, b, md);
    let block = match md {
        Md::LinePrefix(p) => prefixed_block(p@, s.subrange(lo, hi)),
        _ => numbered_block(s.subrange(lo, hi)),
    };
    assert(t == s.take(lo) + block + s.skip(hi));
    assert(t.take(lo) =~= s.take(lo));
    assert(t.skip(y) =~= s.skip(hi));
}

/// `hi` is where the line holding position `b` of `s` ends.
pub open spec fn ends_line(s: Seq<char>, b: int, hi: int) -> bool {
    &&& b <= hi <= s.len()
    &&& hi == s.len() || s[hi] == '\n'
    &&& forall|k: int| b <= k < hi ==> s[k] != '\n'
}

/// The rule button inserts after the line holding the selection's end,
/// leaves the text around as it was, and puts the cursor just after what
/// it inserted: a blank line and "---".
pub proof fn law_rule_goes_after_the_selected_lines(s: Seq<char>, a: int, b: int)
    requires
        0 <= a <= b <= s.len(),
    ensures
        exists|hi: int|
            #[trigger] ends_line(s, b, hi) && md_applied(s, a, b, Md::Rule) == (
                s.take(hi) + seq!['\n', '\n', '-', '-', '-', '\n'] + s.skip(hi),
                hi + 6,
                hi + 6,
            ),
{
    let hi = line_end(s, b);
    lemma_line_end_bounds(s, b);
    lemma_line_end_shape(s, b);
    lemma_line_end_no_newline(s, b);
    reveal_strlit("\n\n---\n");
    assert(rule_text() =~= seq!['\n', '\n', '-', '-', '-', '\n']);
    assert(ends_line(s, b, hi));
    assert(md_applied(s, a, b, Md::Rule) == (
        s.take(hi) + seq!['\n', '\n', '-', '-', '-', '\n'] + s.skip(hi),
        hi + 6,
        hi + 6,
    ));
}

/// Wrapping an unmarked selection puts the marker right before and right
/// after it, leaves the rest of the text as it was, and keeps the same
/// words selected.
pub proof fn law_wrap_puts_markers_around(s: Seq<char>, a: int, b: int, m: &'static str)
    requires
        0 <= a <= b <= s.len(),
        !marked_inside(s.subrange(a, b), m@),
        !marked_around(s, a, b, m@),
    ensures
        md_applied(s, a, b, Md::Wrap(m)) == (
            s.take(a) + m@ + s.subrange(a, b) + m@ + s.skip(b),
            a + m@.len(),
            b + m@.len(),
        ),
{
}

/// The list and quote buttons put their prefix in front of every selected
/// line when not all of them had it already: the lines of the rewritten
/// block are the selected lines, each with the prefix in front.
pub proof fn law_prefix_button_prefixes_every_line(s: Seq<char>, a: int, b: int, p: &'static str)
    requires
        0 <= a <= b <= s.len(),
        no_newline(p@),
        !(p@.len() > 0 && p@[0] == '#'),
        !all_prefixed(s.subrange(line_start(s, a), line_end(s, b)), p@),
    ensures
        ({
            let (t, x, y) = md_applied(s, a, b, Md::LinePrefix(p));
            split_lines(t.subrange(x, y)) == split_lines(s.subrange(line_start(s, a), line_end(s, b))).map_values(
                |l: Seq<char>| p@ + l,
            )
        }),
{
    let lo = line_start(s, a);
    let hi = line_end(s, b);
    lemma_line_start_bounds(s, a);
    lemma_line_end_bounds(s, b);
    let block = s.subrange(lo, hi);
    let ls = split_lines(block);
    let nls = ls.map_values(|l: Seq<char>| prefixed_line(p@, l, false));
    let want = ls.map_values(|l: Seq<char>| p@ + l);
    assert(nls =~= want);
    lemma_split_lines_no_newline(block);
    assert forall|i: int| 0 <= i < want.len() implies no_newline(#[trigger] want[i]) by {
        assert(no_newline(ls[i]));
        assert(want[i] == p@ + ls[i]);
    }
    lemma_split_join(want);
    let nb = prefixed_block(p@, block);
    let (t, x, y) = md_applied(s, a, b, Md::LinePrefix(p));
    assert(t == s.take(lo) + nb + s.skip(hi));
    assert(t.subrange(x, y) =~= nb);
}

/// The numbering button numbers every selected line 1., 2., … when not all
/// of them were numbered already: the lines of the rewritten block are the
/// selected lines, the `i`-th (from 0) with "`i + 1`. " in front.
pub proof fn law_numbering_button_numbers_every_line(s: Seq<char>, a: int, b: int)
    requires
        0 <= a <= b <= s.len(),
        !all_numbered(s.subrange(line_start(s, a), line_end(s, b))),
    ensures
        ({
            let (t, x, y) = md_applied(s, a, b, Md::Numbered);
            split_lines(t.subrange(x, y)) == split_lines(s.subrange(line_start(s, a), line_end(s, b))).map(
                |i: int, l: Seq<char>| nat_text((i + 1) as nat) + seq!['.', ' '] + l,
            )
        }),
{
    let lo = line_start(s, a);
    let hi = line_end(s, b);
    lemma_line_start_bounds(s, a);
    lemma_line_end_bounds(s, b);
    let block = s.subrange(lo, hi);
    let ls = split_lines(block);
    let nls = ls.map(|i: int, l: Seq<char>| numbered_line(i, l, false));
    let want = ls.map(|i: int, l: Seq<char>| nat_text((i + 1) as nat) + seq!['.', ' '] + l);
    assert(nls =~= want);
    lemma_split_lines_no_newline(block);
    assert forall|i: int| 0 <= i < want.len() implies no_newline(#[trigger] want[i]) by {
        assert(no_newline(ls[i]));
        lemma_numbered_marker((i + 1) as nat, ls[i]);
    }
    lemma_split_join(want);
    let nb = numbered_block(block);
    let (t, x, y) = md_applied(s, a, b, Md::Numbered);
    assert(t == s.take(lo) + nb + s.skip(hi));
    assert(t.subrange(x, y) =~= nb);
}

/// Toggles the marker `m` around the selection.
fn wrap_chars(s: &Vec<char>, a: usize, b: usize, m: &Vec<char>) -> (r: (Vec<char>, usize, usize))
    requires
        a <= b,
        b + m.len() <= usize::MAX,
    ensures
        (r.0@, r.1 as int, r.2 as int) == wrapped(s@, a as int, b as int, m@),
{
    let n = s.len();
    let ca = if a < n {
        a
    } else {
        n
    };
    let cb = if b < n {
        b
    } else {
        n
    };
    let ml = m.len();
    let sel = sub_chars(s, ca, cb);
    let inside = ml <= sel.len() && sel.len() - ml >= ml && has_at(&sel, 0, m) && has_at(
        &sel,
        sel.len() - ml,
        m,
    );
    assert(inside == marked_inside(sel@, m@)) by {
        assert(sel@.subrange(0, sel@.len() as int) =~= sel@);
        if sel.len() >= 2 * ml {
            assert(sel@.subrange(sel.len() - ml, sel.len() as int).subrange(0, ml as int)
                =~= sel@.subrange(sel.len() - ml, sel.len() as int));
        }
    }
    if inside {
        let inner = sub_chars(&sel, ml, sel.len() - ml);
        let t = splice(s, ca, cb, &inner);
        return (t, a, b - 2 * ml);
    }
    let around = ca >= ml && has_at(s, ca - ml, m) && has_at(s, cb, m);
    assert(around == marked_around(s@, ca as int, cb as int, m@)) by {
        assert(s@.subrange(cb as int, n as int) =~= s@.skip(cb as int));
        if ca >= ml {
            assert(s@.subrange(ca - ml, n as int).subrange(0, ml as int) =~= s@.subrange(
                ca - ml,
                ca as int,
            ));
        }
    }
    if around {
        let mut t = sub_chars(s, 0, ca - ml);
        append_chars(&mut t, &sel);
        let tail = sub_chars(s, cb + ml, n);
        append_chars(&mut t, &tail);
        proof {
            assert(s@.subrange(0, ca - ml) =~= s@.take(ca - ml));
            assert(s@.subrange(cb + ml, n as int) =~= s@.skip(cb + ml));
        }
        return (t, a - ml, b - ml);
    }
    let mut mid: Vec<char> = Vec::new();
    append_chars(&mut mid, m);
    append_chars(&mut mid, &sel);
    append_chars(&mut mid, m);
    let t = splice(s, ca, cb, &mid);
    proof {
        assert(s@.take(ca as int) + mid@ + s@.skip(cb as int) =~= s@.take(ca as int) + m@ + sel@
            + m@ + s@.skip(cb as int));
    }
    (t, a + ml, b + ml)
}

/// Applies the toolbar action `md` to `text` at the (sorted, char-indexed)
/// selection `sel`. Wrap toggles off when the markers are already there;
/// line prefixes toggle per block, and a heading replaces whatever heading
/// level was in place. Returns the new selection, again in chars.
pub fn apply_md(text: &mut String, sel: (usize, usize), md: &Md) -> (r: (usize, usize))
    requires
        sel.0 <= sel.1,
        md matches Md::Wrap(m) ==> sel.1 + m@.len() <= usize::MAX,
    ensures
        (final(text)@, r.0 as int, r.1 as int) == md_applied(
            old(text)@,
            sel.0 as int,
            sel.1 as int,
            *md,
        ),
{
    let s = chars_of(text.as_str());
    let (a, b) = sel;
    let n = s.len();
    let ca = if a < n {
        a
    } else {
        n
    };
    let cb = if b < n {
        b
    } else {
        n
    };
    let lo = find_line_start(&s, ca);
    let hi = find_line_end(&s, cb);
    let (t, ra, rb) = match md {
        Md::Wrap(m) => {
            let mc = chars_of(m);
            wrap_chars(&s, a, b, &mc)
        },
        Md::LinePrefix(p) => {
            let block = sub_chars(&s, lo, hi);
            let pc = chars_of(p);
            let nb = prefixed_block_of(&pc, &block);
            let t = splice(&s, lo, hi, &nb);
            let end = t.len() - (n - hi);
            (t, lo, end)
        },
        Md::Numbered => {
            let block = sub_chars(&s, lo, hi);
            let nb = numbered_block_of(&block);
            let t = splice(&s, lo, hi, &nb);
            let end = t.len() - (n - hi);
            (t, lo, end)
        },
        Md::CodeBlock => {
            let block = sub_chars(&s, lo, hi);
            let mut nb = chars_of("```\n");
            append_chars(&mut nb, &block);
            let close = chars_of("\n```");
            append_chars(&mut nb, &close);
            let t = splice(&s, lo, hi, &nb);
            let end = t.len() - (n - hi);
            (t, lo, end)
        },
        Md::Rule => {
            let ins = chars_of("\n\n---\n");
            let t = splice(&s, hi, hi, &ins);
            let p = t.len() - (n - hi);
            (t, p, p)
        },
        Md::Table => {
            let ins = chars_of("\n\n| Col 1 | Col 2 |\n| --- | --- |\n|  |  |\n");
            let t = splice(&s, hi, hi, &ins);
            let p = t.len() - (n - hi);
            (t, p, p)
        },
    };
    *text = string_of(&t);
    (ra, rb)
}

} // verus!
