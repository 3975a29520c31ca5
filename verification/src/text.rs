//! Character-level text helpers shared by the search, export and editor
//! code: whitespace, trimming, word splitting, case folding, substring
//! search and decimal rendering, all over `Seq<char>` models of strings.
use vstd::prelude::*;

verus! {

// ---------------------------------------------------------------- whitespace

/// The Unicode `White_Space` property, which `char::is_whitespace`,
/// `str::trim` and `str::split_whitespace` go by.
pub open spec fn is_white_space(c: char) -> bool {
    ||| ('\u{9}' <= c && c <= '\u{D}')
    ||| c == ' '
    ||| c == '\u{85}'
    ||| c == '\u{A0}'
    ||| c == '\u{1680}'
    ||| ('\u{2000}' <= c && c <= '\u{200A}')
    ||| c == '\u{2028}'
    ||| c == '\u{2029}'
    ||| c == '\u{202F}'
    ||| c == '\u{205F}'
    ||| c == '\u{3000}'
}

/// Whether `c` is Unicode white space.
pub fn is_whitespace(c: char) -> (b: bool)
    ensures
        b == is_white_space(c),
{
    ('\u{9}' <= c && c <= '\u{D}') || c == ' ' || c == '\u{85}' || c == '\u{A0}' || c
        == '\u{1680}' || ('\u{2000}' <= c && c <= '\u{200A}') || c == '\u{2028}' || c
        == '\u{2029}' || c == '\u{202F}' || c == '\u{205F}' || c == '\u{3000}'
}

// ---------------------------------------------------------------- conversions

/// `String::push`: appends one character at the end.
#[verifier::external_body]
fn push_char(s: &mut String, c: char)
    ensures
        final(s)@ == old(s)@.push(c),
{
    s.push(c);
}

/// The characters of `s`, in order.
pub fn chars_of(s: &str) -> (v: Vec<char>)
    ensures
        v@ == s@,
{
    let n = s.unicode_len();
    let mut v: Vec<char> = Vec::new();
    let mut i: usize = 0;
    while i < n
        invariant
            n == s@.len(),
            i <= n,
            v@ == s@.subrange(0, i as int),
        decreases n - i,
    {
        v.push(s.get_char(i));
        i += 1;
    }
    assert(v@ =~= s@);
    v
}

/// The string made of the characters `v`, in order.
pub fn string_of(v: &Vec<char>) -> (s: String)
    ensures
        s@ == v@,
{
    let mut s = String::new();
    let mut i: usize = 0;
    while i < v.len()
        invariant
            i <= v.len(),
            s@ == v@.subrange(0, i as int),
        decreases v.len() - i,
    {
        push_char(&mut s, v[i]);
        i += 1;
    }
    assert(s@ =~= v@);
    s
}

/// Appends all of `v` to `dst`.
pub fn append_chars(dst: &mut Vec<char>, v: &Vec<char>)
    ensures
        final(dst)@ == old(dst)@ + v@,
{
    let mut i: usize = 0;
    while i < v.len()
        invariant
            i <= v.len(),
            dst@ == old(dst)@ + v@.subrange(0, i as int),
        decreases v.len() - i,
    {
        dst.push(v[i]);
        i += 1;
        assert(v@.subrange(0, i as int) =~= v@.subrange(0, i - 1 as int).push(v@[i - 1]));
    }
    assert(v@.subrange(0, v.len() as int) =~= v@);
}


// ---------------------------------------------------------------- equality

/// Whether two character sequences are equal.
pub fn chars_eq(a: &Vec<char>, b: &Vec<char>) -> (r: bool)
    ensures
        r == (a@ == b@),
{
    if a.len() != b.len() {
        return false;
    }
    let mut i: usize = 0;
    while i < a.len()
        invariant
            a.len() == b.len(),
            i <= a.len(),
            forall|k: int| 0 <= k < i ==> a@[k] == b@[k],
        decreases a.len() - i,
    {
        if a[i] != b[i] {
            return false;
        }
        i += 1;
    }
    assert(a@ =~= b@);
    true
}

/// Whether `s` holds exactly the characters of `lit`.
pub fn str_is(s: &str, lit: &str) -> (r: bool)
    ensures
        r == (s@ == lit@),
{
    let a = chars_of(s);
    let b = chars_of(lit);
    chars_eq(&a, &b)
}

/// Whether `s` begins with `prefix`.
pub open spec fn starts_with(s: Seq<char>, prefix: Seq<char>) -> bool {
    prefix.len() <= s.len() && s.subrange(0, prefix.len() as int) == prefix
}

/// Whether `s` ends with `suffix`.
pub open spec fn ends_with(s: Seq<char>, suffix: Seq<char>) -> bool {
    suffix.len() <= s.len() && s.subrange(s.len() - suffix.len(), s.len() as int) == suffix
}

/// Whether `s[at..]` begins with `p`.
pub fn has_at(s: &Vec<char>, at: usize, p: &Vec<char>) -> (r: bool)
    requires
        at <= s.len(),
    ensures
        r == starts_with(s@.subrange(at as int, s.len() as int), p@),
{
    if p.len() > s.len() - at {
        return false;
    }
    let mut i: usize = 0;
    while i < p.len()
        invariant
            at <= s.len(),
            p.len() <= s.len() - at,
            i <= p.len(),
            forall|k: int| 0 <= k < i ==> s@[at + k] == p@[k],
        decreases p.len() - i,
    {
        if s[at + i] != p[i] {
            assert(s@.subrange(at as int, s.len() as int).subrange(0, p.len() as int)[i as int]
                != p@[i as int]);
            return false;
        }
        i += 1;
    }
    assert(s@.subrange(at as int, s.len() as int).subrange(0, p.len() as int) =~= p@);
    true
}

// ---------------------------------------------------------------- substring

/// `needle` occurs in `hay` starting at position `at`.
pub open spec fn occurs_at(hay: Seq<char>, needle: Seq<char>, at: int) -> bool {
    0 <= at && at + needle.len() <= hay.len() && hay.subrange(at, at + needle.len()) == needle
}

/// `needle` occurs somewhere in `hay` (what `str::contains` answers).
pub open spec fn contains_seq(hay: Seq<char>, needle: Seq<char>) -> bool {
    exists|at: int| occurs_at(hay, needle, at)
}

/// Whether `needle` occurs in `hay`.
pub fn contains_chars(hay: &Vec<char>, needle: &Vec<char>) -> (r: bool)
    ensures
        r == contains_seq(hay@, needle@),
{
    if needle.len() > hay.len() {
        assert(forall|at: int| !occurs_at(hay@, needle@, at));
        return false;
    }
    let last = hay.len() - needle.len();
    let mut at: usize = 0;
    loop
        invariant
            needle.len() <= hay.len(),
            last == hay.len() - needle.len(),
            at <= last,
            forall|k: int| 0 <= k < at ==> !occurs_at(hay@, needle@, k),
        decreases last - at,
    {
        assert(hay@.subrange(at as int, hay.len() as int).subrange(0, needle.len() as int)
            =~= hay@.subrange(at as int, at + needle.len()));
        if has_at(hay, at, needle) {
            assert(occurs_at(hay@, needle@, at as int));
            return true;
        }
        if at == last {
            assert(forall|k: int| !occurs_at(hay@, needle@, k)) by {
                assert(forall|k: int| 0 <= k <= at ==> !occurs_at(hay@, needle@, k));
            }
            return false;
        }
        at += 1;
    }
}

// ---------------------------------------------------------------- trimming

/// Index of the first character at or after `i` that is not white space
/// (`s.len()` when there is none).
pub open spec fn trim_lo(s: Seq<char>, i: int) -> int
    decreases s.len() - i,
{
    if i < 0 || i >= s.len() {
        s.len() as int
    } else if is_white_space(s[i]) {
        trim_lo(s, i + 1)
    } else {
        i
    }
}

/// End of `s[..j]` once trailing white space is dropped.
pub open spec fn trim_hi(s: Seq<char>, j: int) -> int
    decreases j,
{
    if j <= 0 || j > s.len() {
        0
    } else if is_white_space(s[j - 1]) {
        trim_hi(s, j - 1)
    } else {
        j
    }
}

/// `s` without leading and trailing white space (what `str::trim` gives).
pub open spec fn trim(s: Seq<char>) -> Seq<char> {
    let a = trim_lo(s, 0);
    let b = trim_hi(s, s.len() as int);
    if b <= a {
        Seq::empty()
    } else {
        s.subrange(a, b)
    }
}

proof fn lemma_trim_hi_le(s: Seq<char>, j: int)
    ensures
        trim_hi(s, j) <= if j < 0 { 0 } else { j },
        trim_hi(s, j) >= 0,
    decreases j,
{
    if j > 0 && j <= s.len() && is_white_space(s[j - 1]) {
        lemma_trim_hi_le(s, j - 1);
    }
}

/// `v` without leading and trailing white space.
pub fn trim_chars(v: &Vec<char>) -> (r: Vec<char>)
    ensures
        r@ == trim(v@),
{
    let n = v.len();
    let mut a: usize = 0;
    while a < n && is_whitespace(v[a])
        invariant
            n == v.len(),
            a <= n,
            trim_lo(v@, 0) == trim_lo(v@, a as int),
        decreases n - a,
    {
        a += 1;
    }
    let mut b: usize = n;
    while b > a && is_whitespace(v[b - 1])
        invariant
            n == v.len(),
            a <= b <= n,
            trim_hi(v@, n as int) == trim_hi(v@, b as int),
        decreases b,
    {
        b -= 1;
    }
    proof {
        lemma_trim_hi_le(v@, b as int);
    }
    let mut r: Vec<char> = Vec::new();
    let mut i = a;
    while i < b
        invariant
            a <= i <= b <= n,
            n == v.len(),
            r@ == v@.subrange(a as int, i as int),
        decreases b - i,
    {
        r.push(v[i]);
        i += 1;
    }
    if a < b {
        assert(r@ =~= trim(v@));
    } else {
        assert(r@ =~= trim(v@));
    }
    r
}

// ---------------------------------------------------------------- words

/// The white-space separated words of `s`, in order (what
/// `str::split_whitespace` yields).
pub open spec fn words(s: Seq<char>) -> Seq<Seq<char>>
    decreases s.len(),
{
    if s.len() == 0 {
        Seq::empty()
    } else {
        let t = s.drop_last();
        let c = s.last();
        let w = words(t);
        if is_white_space(c) {
            w
        } else if t.len() == 0 || is_white_space(t.last()) {
            w.push(seq![c])
        } else {
            w.update(w.len() - 1, w.last().push(c))
        }
    }
}

proof fn lemma_words_nonempty(s: Seq<char>)
    requires
        s.len() > 0,
        !is_white_space(s.last()),
    ensures
        words(s).len() > 0,
    decreases s.len(),
{
    let t = s.drop_last();
    if t.len() > 0 && !is_white_space(t.last()) {
        lemma_words_nonempty(t);
    }
}

/// The words of two texts joined by a space are the words of the first
/// followed by those of the second.
pub proof fn lemma_words_join(a: Seq<char>, b: Seq<char>)
    ensures
        words(a + seq![' '] + b) == words(a) + words(b),
    decreases b.len(),
{
    let s = a + seq![' '] + b;
    if b.len() == 0 {
        assert(s.drop_last() =~= a);
        assert(s.last() == ' ');
        assert(words(a) + words(b) =~= words(a));
    } else {
        let b1 = b.drop_last();
        lemma_words_join(a, b1);
        let t = a + seq![' '] + b1;
        assert(s.drop_last() =~= t);
        assert(s.last() == b.last());
        let c = b.last();
        let wa = words(a);
        let wb1 = words(b1);
        if is_white_space(c) {
        } else if b1.len() == 0 {
            assert(t.last() == ' ');
            assert((wa + wb1).push(seq![c]) =~= wa + wb1.push(seq![c]));
        } else if is_white_space(b1.last()) {
            assert(t.last() == b1.last());
            assert((wa + wb1).push(seq![c]) =~= wa + wb1.push(seq![c]));
        } else {
            assert(t.last() == b1.last());
            lemma_words_nonempty(b1);
            let w = wa + wb1;
            assert(w.last() == wb1.last());
            assert(w.update(w.len() - 1, w.last().push(c)) =~= wa + wb1.update(wb1.len() - 1, wb1.last().push(c)));
        }
    }
}

/// The white-space separated words of `v`.
pub fn split_words(v: &Vec<char>) -> (r: Vec<Vec<char>>)
    ensures
        r.len() == words(v@).len(),
        forall|i: int| 0 <= i < r.len() ==> #[trigger] r@[i]@ == words(v@)[i],
{
    let mut r: Vec<Vec<char>> = Vec::new();
    let mut cur: Vec<char> = Vec::new();
    let mut in_word = false;
    let mut i: usize = 0;
    while i < v.len()
        invariant
            i <= v.len(),
            in_word == (i > 0 && !is_white_space(v@[i - 1])),
            in_word ==> words(v@.subrange(0, i as int)).len() > 0,
            in_word ==> r.len() + 1 == words(v@.subrange(0, i as int)).len() && cur@ == words(
                v@.subrange(0, i as int),
            ).last(),
            !in_word ==> r.len() == words(v@.subrange(0, i as int)).len() && cur@.len() == 0,
            forall|k: int| 0 <= k < r.len() ==> #[trigger] r@[k]@ == words(
                v@.subrange(0, i as int),
            )[k],
        decreases v.len() - i,
    {
        let c = v[i];
        let ghost t = v@.subrange(0, i as int);
        let ghost s = v@.subrange(0, i + 1);
        assert(s.drop_last() =~= t);
        if is_whitespace(c) {
            if in_word {
                r.push(cur);
                cur = Vec::new();
            }
            in_word = false;
        } else {
            cur.push(c);
            if !in_word {
                assert(cur@ =~= seq![c]);
            }
            in_word = true;
        }
        i += 1;
    }
    if in_word {
        r.push(cur);
    }
    assert(v@.subrange(0, v.len() as int) =~= v@);
    r
}

// ---------------------------------------------------------------- case

/// ASCII lower case of `c`; other characters unchanged.
pub open spec fn ascii_lower(c: char) -> char {
    if 'A' <= c && c <= 'Z' {
        ((c as u32) + 32) as char
    } else {
        c
    }
}

/// ASCII lower case of `c`.
pub fn to_ascii_lower(c: char) -> (r: char)
    ensures
        r == ascii_lower(c),
{
    if 'A' <= c && c <= 'Z' {
        ((c as u8) + 32u8) as char
    } else {
        c
    }
}

/// `c` with an ASCII lower-case letter made upper case (what
/// `char::to_ascii_uppercase` gives).
pub open spec fn ascii_upper(c: char) -> char {
    if 'a' <= c && c <= 'z' {
        ((c as u32) - 32) as char
    } else {
        c
    }
}

/// `s` with its ASCII letters upper-cased (what `str::to_ascii_uppercase`
/// gives).
pub open spec fn ascii_upper_text(s: Seq<char>) -> Seq<char> {
    s.map_values(|c: char| ascii_upper(c))
}

proof fn lemma_ascii_upper_white(c: char)
    ensures
        is_white_space(ascii_upper(c)) == is_white_space(c),
{
    if 'a' <= c && c <= 'z' {
        assert(65 <= (c as u32) - 32 <= 90);
    }
}

/// Upper-casing ASCII letters keeps the words apart where they were: the
/// words of the upper-cased text are the upper-cased words.
pub proof fn lemma_words_ascii_upper(s: Seq<char>)
    ensures
        words(ascii_upper_text(s)) == words(s).map_values(|w: Seq<char>| ascii_upper_text(w)),
    decreases s.len(),
{
    let u = ascii_upper_text(s);
    if s.len() == 0 {
        assert(words(s).map_values(|w: Seq<char>| ascii_upper_text(w)) =~= Seq::<Seq<char>>::empty());
    } else {
        let t = s.drop_last();
        let c = s.last();
        lemma_words_ascii_upper(t);
        assert(u.drop_last() =~= ascii_upper_text(t));
        assert(u.last() == ascii_upper(c));
        lemma_ascii_upper_white(c);
        if t.len() > 0 {
            lemma_ascii_upper_white(t.last());
            assert(ascii_upper_text(t).last() == ascii_upper(t.last()));
        }
        let w = words(t);
        let f = |x: Seq<char>| ascii_upper_text(x);
        if is_white_space(c) {
        } else if t.len() == 0 || is_white_space(t.last()) {
            assert(ascii_upper_text(seq![c]) =~= seq![ascii_upper(c)]);
            assert(w.push(seq![c]).map_values(f) =~= w.map_values(f).push(seq![ascii_upper(c)]));
        } else {
            lemma_words_nonempty(t);
            assert(ascii_upper_text(w.last().push(c)) =~= ascii_upper_text(w.last()).push(ascii_upper(c)));
            assert(w.update(w.len() - 1, w.last().push(c)).map_values(f) =~= w.map_values(f).update(
                w.len() - 1,
                w.map_values(f).last().push(ascii_upper(c)),
            ));
        }
    }
}

/// Full Unicode lower case of a string (what `str::to_lowercase` gives).
pub uninterp spec fn lowercase(s: Seq<char>) -> Seq<char>;

/// `str::to_lowercase`. Claimed: the result is `lowercase` of `s`, and the
/// same as for `s` with its ASCII letters upper-cased (an ASCII capital
/// lower-cases to the same letter as its small form, and both count alike
/// as cased letters for the context rules).
#[verifier::external_body]
pub(crate) fn to_lowercase(s: &str) -> (r: String)
    ensures
        r@ == lowercase(s@),
        r@ == lowercase(ascii_upper_text(s@)),
{
    s.to_lowercase()
}

// ---------------------------------------------------------------- decimal text

/// The ASCII digit for `d` (0..=9).
pub open spec fn digit_char(d: nat) -> char {
    ((d + 48) as u32) as char
}

/// Decimal rendering of a natural number, without leading zeros.
pub open spec fn nat_text(n: nat) -> Seq<char>
    decreases n,
{
    if n < 10 {
        seq![digit_char(n)]
    } else {
        nat_text(n / 10).push(digit_char(n % 10))
    }
}

/// Decimal rendering of an integer, with a leading `-` when negative
/// (what `{}` prints for an integer).
pub open spec fn int_text(i: int) -> Seq<char> {
    if i < 0 {
        seq!['-'] + nat_text((-i) as nat)
    } else {
        nat_text(i as nat)
    }
}

/// Decimal text of `n`.
pub fn u64_text(n: u64) -> (v: Vec<char>)
    ensures
        v@ == nat_text(n as nat),
    decreases n,
{
    if n < 10 {
        let c = ((n as u8) + 48u8) as char;
        assert(c == digit_char(n as nat));
        let mut v: Vec<char> = Vec::new();
        v.push(c);
        assert(v@ =~= seq![digit_char(n as nat)]);
        v
    } else {
        let mut v = u64_text(n / 10);
        let d = n % 10;
        let c = ((d as u8) + 48u8) as char;
        assert(c == digit_char((n % 10) as nat));
        v.push(c);
        v
    }
}

/// Decimal text of `i`, `-` first when negative.
pub fn i64_text(i: i64) -> (v: Vec<char>)
    ensures
        v@ == int_text(i as int),
{
    if i < 0 {
        let m: u64 = if i == i64::MIN {
            9223372036854775808u64
        } else {
            (-i) as u64
        };
        let digits = u64_text(m);
        let mut v: Vec<char> = Vec::new();
        v.push('-');
        append_chars(&mut v, &digits);
        assert(v@ =~= seq!['-'] + nat_text((-i) as nat));
        v
    } else {
        u64_text(i as u64)
    }
}

} // verus!
