//! Ordering rows the way the database's `ORDER BY` clauses do: keys that
//! rank rows, a stable sort over them, and the byte-wise text order used
//! for codes.
use vstd::prelude::*;

verus! {

/// A key that ranks rows: `precedes` is a strict weak order (rows whose
/// keys are tied keep their input order).
pub trait Ranked: Sized {
    /// `self` sorts strictly before `other`.
    spec fn precedes(self, other: Self) -> bool;

    proof fn precedes_irreflexive(a: Self)
        ensures
            !a.precedes(a),
    ;

    proof fn precedes_transitive(a: Self, b: Self, c: Self)
        requires
            a.precedes(b),
            b.precedes(c),
        ensures
            a.precedes(c),
    ;

    proof fn ties_transitive(a: Self, b: Self, c: Self)
        requires
            !a.precedes(b),
            !b.precedes(a),
            !b.precedes(c),
            !c.precedes(b),
        ensures
            !a.precedes(c),
            !c.precedes(a),
    ;

    /// Whether `self` sorts strictly before `other`.
    fn check_precedes(&self, other: &Self) -> (r: bool)
        ensures
            r == self.precedes(*other),
    ;
}

/// Row `i` comes before row `j`: its key sorts first, or the keys tie and
/// `i` came first.
pub open spec fn before<T: Ranked>(keys: Seq<T>, i: int, j: int) -> bool {
    keys[i].precedes(keys[j]) || (!keys[j].precedes(keys[i]) && i < j)
}

/// `order` is the stable sort of rows `0..keys.len()` by their keys.
pub open spec fn stably_sorted<T: Ranked>(keys: Seq<T>, order: Seq<usize>) -> bool {
    &&& order.len() == keys.len()
    &&& forall|a: int| 0 <= a < order.len() ==> order[a] < keys.len()
    &&& forall|x: usize| x < keys.len() ==> #[trigger] order.contains(x)
    &&& forall|a: int, b: int|
        0 <= a < b < order.len() ==> before(keys, #[trigger] order[a] as int, #[trigger] order[b] as int)
}

proof fn lemma_before_total<T: Ranked>(keys: Seq<T>, i: int, j: int)
    requires
        0 <= i < keys.len(),
        0 <= j < keys.len(),
        i != j,
    ensures
        before(keys, i, j) || before(keys, j, i),
{
}

proof fn lemma_before_irreflexive<T: Ranked>(keys: Seq<T>, i: int)
    requires
        0 <= i < keys.len(),
    ensures
        !before(keys, i, i),
{
    T::precedes_irreflexive(keys[i]);
}

proof fn lemma_before_transitive<T: Ranked>(keys: Seq<T>, i: int, j: int, k: int)
    requires
        0 <= i < keys.len(),
        0 <= j < keys.len(),
        0 <= k < keys.len(),
        before(keys, i, j),
        before(keys, j, k),
    ensures
        before(keys, i, k),
{
    let (a, b, c) = (keys[i], keys[j], keys[k]);
    if a.precedes(b) && b.precedes(c) {
        T::precedes_transitive(a, b, c);
    } else if a.precedes(b) {
        // b ties c
        if !a.precedes(c) {
            if c.precedes(a) {
                T::precedes_transitive(c, a, b);
            } else {
                T::ties_transitive(a, c, b);
            }
        }
    } else if b.precedes(c) {
        // a ties b
        if !a.precedes(c) {
            if c.precedes(a) {
                T::precedes_transitive(b, c, a);
            } else {
                T::ties_transitive(b, a, c);
            }
        }
    } else {
        T::ties_transitive(a, b, c);
    }
}

/// The stable sort of rows `0..keys.len()` by key: the row indices, in
/// order.
pub fn stable_order<T: Ranked>(keys: &Vec<T>) -> (order: Vec<usize>)
    ensures
        stably_sorted(keys@, order@),
{
    let n = keys.len();
    let mut order: Vec<usize> = Vec::new();
    let mut k: usize = 0;
    while k < n
        invariant
            n == keys.len(),
            k <= n,
            order.len() == k,
            forall|a: int| 0 <= a < order.len() ==> order@[a] < k,
            forall|x: usize| x < k ==> #[trigger] order@.contains(x),
            forall|a: int, b: int|
                0 <= a < b < order.len() ==> before(keys@, #[trigger] order@[a] as int, #[trigger] order@[b] as int),
        decreases n - k,
    {
        let mut p: usize = 0;
        while p < order.len() && before_exec(keys, order[p], k)
            invariant
                n == keys.len(),
                k < n,
                p <= order.len(),
                order.len() == k,
                forall|a: int| 0 <= a < order.len() ==> order@[a] < k,
                forall|a: int| 0 <= a < p ==> before(keys@, #[trigger] order@[a] as int, k as int),
            decreases order.len() - p,
        {
            p += 1;
        }
        let ghost old_order = order@;
        proof {
            if p < old_order.len() {
                lemma_before_total(keys@, old_order[p as int] as int, k as int);
                assert(before(keys@, k as int, old_order[p as int] as int));
                assert forall|b: int| p <= b < old_order.len() implies before(keys@, k as int, #[trigger] old_order[b] as int) by {
                    if b > p {
                        lemma_before_transitive(keys@, k as int, old_order[p as int] as int, old_order[b] as int);
                    }
                }
            }
        }
        order.insert(p, k);
        assert forall|x: usize| x < k + 1 implies #[trigger] order@.contains(x) by {
            if x == k {
                assert(order@[p as int] == k);
            } else {
                assert(old_order.contains(x));
                let i = choose|i: int| 0 <= i < old_order.len() && old_order[i] == x;
                if i < p as int {
                    assert(order@[i] == x);
                } else {
                    assert(order@[i + 1] == x);
                }
            }
        }
        assert forall|a: int, b: int|
            0 <= a < b < order.len() implies before(keys@, #[trigger] order@[a] as int, #[trigger] order@[b] as int) by {
            if a < p as int && b < p as int {
                assert(order@[a] == old_order[a] && order@[b] == old_order[b]);
            } else if a < p as int && b == p as int {
            } else if a < p as int {
                assert(order@[b] == old_order[b - 1]);
            } else if a == p as int {
                assert(order@[b] == old_order[b - 1]);
            } else {
                assert(order@[a] == old_order[a - 1] && order@[b] == old_order[b - 1]);
            }
        }
        k += 1;
    }
    order
}

fn before_exec<T: Ranked>(keys: &Vec<T>, i: usize, j: usize) -> (r: bool)
    requires
        i < keys.len(),
        j < keys.len(),
    ensures
        r == before(keys@, i as int, j as int),
{
    if keys[i].check_precedes(&keys[j]) {
        true
    } else {
        !keys[j].check_precedes(&keys[i]) && i < j
    }
}

/// Every index in `order` is distinct, as a stable sort guarantees.
pub proof fn lemma_sorted_distinct<T: Ranked>(keys: Seq<T>, order: Seq<usize>, a: int, b: int)
    requires
        stably_sorted(keys, order),
        0 <= a < b < order.len(),
    ensures
        order[a] != order[b],
{
    lemma_before_irreflexive(keys, order[a] as int);
}


/// `r` lists the rows whose `keep` flag is set, in `before` order, cut off
/// after `limit` rows: every listed row is kept, rows are listed in order,
/// and a kept row is left out only when the list is full and every listed
/// row comes before it.
pub open spec fn listing<T: Ranked>(keys: Seq<T>, keep: Seq<bool>, limit: int, r: Seq<usize>) -> bool {
    &&& r.len() <= limit
    &&& forall|a: int| 0 <= a < r.len() ==> r[a] < keys.len() && keep[r[a] as int]
    &&& forall|a: int, b: int|
        0 <= a < b < r.len() ==> before(keys, #[trigger] r[a] as int, #[trigger] r[b] as int)
    &&& forall|k: usize|
        k < keys.len() && keep[k as int] && !r.contains(k) ==> r.len() == limit && forall|a: int|
            0 <= a < r.len() ==> before(keys, #[trigger] r[a] as int, k as int)
}

/// The kept rows (`keep[i]`), sorted stably by key, at most `limit` of
/// them.
pub fn select_sorted<T: Ranked>(keys: &Vec<T>, keep: &Vec<bool>, limit: usize) -> (r: Vec<usize>)
    requires
        keep.len() == keys.len(),
    ensures
        listing(keys@, keep@, limit as int, r@),
        r.len() <= keys.len(),
{
    let order = stable_order(keys);
    let mut r: Vec<usize> = Vec::new();
    let mut i: usize = 0;
    // positions in `order` of the rows listed so far
    let ghost mut pos: Seq<int> = Seq::empty();
    while i < order.len() && r.len() < limit
        invariant
            keep.len() == keys.len(),
            stably_sorted(keys@, order@),
            i <= order.len(),
            r.len() <= limit,
            r.len() <= i,
            order.len() == keys.len(),
            pos.len() == r.len(),
            forall|a: int| 0 <= a < pos.len() ==> 0 <= #[trigger] pos[a] < i && r@[a] == order@[pos[a]],
            forall|a: int, b: int| 0 <= a < b < pos.len() ==> #[trigger] pos[a] < #[trigger] pos[b],
            forall|a: int| 0 <= a < r.len() ==> r@[a] < keys.len() && keep@[r@[a] as int],
            forall|p: int| 0 <= p < i && keep@[order@[p] as int] ==> #[trigger] r@.contains(order@[p]),
        decreases order.len() - i,
    {
        let x = order[i];
        let ghost old_r = r@;
        if keep[x] {
            r.push(x);
            proof {
                pos = pos.push(i as int);
                assert(r@[r.len() - 1] == x);
            }
        }
        assert forall|p: int| 0 <= p < i + 1 && keep@[order@[p] as int] implies #[trigger] r@.contains(order@[p]) by {
            if p == i as int {
                assert(r@[r.len() - 1] == x);
            } else {
                assert(old_r.contains(order@[p]));
                let a = choose|a: int| 0 <= a < old_r.len() && old_r[a] == order@[p];
                assert(r@[a] == order@[p]);
            }
        }
        i += 1;
    }
    proof {
        assert forall|a: int, b: int| 0 <= a < b < r.len() implies before(keys@, #[trigger] r@[a] as int, #[trigger] r@[b] as int) by {
            assert(pos[a] < pos[b]);
            assert(before(keys@, order@[pos[a]] as int, order@[pos[b]] as int));
        }
        assert forall|k: usize| k < keys.len() && keep@[k as int] && !r@.contains(k) implies r.len() == limit && forall|a: int|
            0 <= a < r.len() ==> before(keys@, #[trigger] r@[a] as int, k as int) by {
            assert(order@.contains(k));
            let p = choose|p: int| 0 <= p < order.len() && order@[p] == k;
            if p < i {
                assert(r@.contains(order@[p]));
            }
            assert(p >= i);
            assert forall|a: int| 0 <= a < r.len() implies before(keys@, #[trigger] r@[a] as int, k as int) by {
                assert(pos[a] < p);
                assert(before(keys@, order@[pos[a]] as int, order@[p] as int));
            }
        }
    }
    r
}

/// The smaller of `a` and `b`.
pub open spec fn min_int(a: int, b: int) -> int {
    if a <= b {
        a
    } else {
        b
    }
}

/// How many flags are set.
pub open spec fn count_true(b: Seq<bool>) -> nat
    decreases b.len(),
{
    if b.len() == 0 {
        0
    } else {
        count_true(b.drop_last()) + if b.last() {
            1nat
        } else {
            0nat
        }
    }
}

/// The indices whose flag is set.
pub open spec fn kept_set(keep: Seq<bool>) -> Set<usize> {
    Set::new(|i: usize| i < keep.len() && keep[i as int])
}

proof fn lemma_kept_set_len(keep: Seq<bool>)
    requires
        keep.len() <= usize::MAX,
    ensures
        kept_set(keep).finite(),
        kept_set(keep).len() == count_true(keep),
    decreases keep.len(),
{
    if keep.len() == 0 {
        assert(kept_set(keep) =~= Set::<usize>::empty());
    } else {
        let k0 = keep.drop_last();
        lemma_kept_set_len(k0);
        let last = (keep.len() - 1) as usize;
        if keep.last() {
            assert(kept_set(keep) =~= kept_set(k0).insert(last));
            assert(!kept_set(k0).contains(last));
        } else {
            assert(kept_set(keep) =~= kept_set(k0));
        }
    }
}

/// A listing cut off at `limit` lists `limit` rows when at least that many
/// are kept, and every kept row otherwise.
pub proof fn lemma_listing_len<T: Ranked>(keys: Seq<T>, keep: Seq<bool>, limit: int, r: Seq<usize>)
    requires
        keep.len() == keys.len(),
        keys.len() <= usize::MAX,
        listing(keys, keep, limit, r),
        0 <= limit,
    ensures
        r.len() == if limit <= count_true(keep) {
            limit
        } else {
            count_true(keep) as int
        },
{
    lemma_kept_set_len(keep);
    let k = kept_set(keep);
    assert(r.no_duplicates()) by {
        assert forall|a: int, b: int| 0 <= a < r.len() && 0 <= b < r.len() && a != b implies r[a] != r[b] by {
            if a < b {
                lemma_before_irreflexive(keys, r[a] as int);
            } else {
                lemma_before_irreflexive(keys, r[b] as int);
            }
        }
    }
    r.unique_seq_to_set();
    assert(r.to_set().subset_of(k)) by {
        assert forall|x: usize| r.to_set().contains(x) implies k.contains(x) by {
            let a = choose|a: int| 0 <= a < r.len() && r[a] == x;
        }
    }
    vstd::set_lib::lemma_len_subset(r.to_set(), k);
    if r.len() < limit {
        assert(k.subset_of(r.to_set())) by {
            assert forall|x: usize| k.contains(x) implies r.to_set().contains(x) by {
                assert(keep[x as int]);
            }
        }
        vstd::set_lib::lemma_len_subset(k, r.to_set());
    }
}

// ---------------------------------------------------------------- text order

/// Byte-wise (code point) order of two texts, as SQLite's default
/// collation compares them: `a` sorts strictly before `b`.
pub open spec fn text_lt(a: Seq<char>, b: Seq<char>) -> bool
    decreases a.len(),
{
    if a.len() == 0 {
        b.len() > 0
    } else if b.len() == 0 {
        false
    } else if a[0] != b[0] {
        (a[0] as int) < (b[0] as int)
    } else {
        text_lt(a.drop_first(), b.drop_first())
    }
}

pub proof fn lemma_text_lt_irreflexive(a: Seq<char>)
    ensures
        !text_lt(a, a),
    decreases a.len(),
{
    if a.len() > 0 {
        lemma_text_lt_irreflexive(a.drop_first());
    }
}

pub proof fn lemma_text_lt_transitive(a: Seq<char>, b: Seq<char>, c: Seq<char>)
    requires
        text_lt(a, b),
        text_lt(b, c),
    ensures
        text_lt(a, c),
    decreases a.len(),
{
    if a.len() > 0 && b.len() > 0 && c.len() > 0 && a[0] == b[0] && b[0] == c[0] {
        lemma_text_lt_transitive(a.drop_first(), b.drop_first(), c.drop_first());
    }
}

pub proof fn lemma_text_lt_total(a: Seq<char>, b: Seq<char>)
    ensures
        text_lt(a, b) || text_lt(b, a) || a == b,
    decreases a.len(),
{
    if a.len() > 0 && b.len() > 0 {
        if a[0] == b[0] {
            lemma_text_lt_total(a.drop_first(), b.drop_first());
            if a.drop_first() == b.drop_first() {
                assert(a =~= seq![a[0]] + a.drop_first());
                assert(b =~= seq![b[0]] + b.drop_first());
            }
        } else {
            assert((a[0] as int) != (b[0] as int));
        }
    } else if a.len() == 0 && b.len() == 0 {
        assert(a =~= b);
    }
}

/// Whether `a` sorts strictly before `b` in code point order.
pub fn chars_lt(a: &Vec<char>, b: &Vec<char>) -> (r: bool)
    ensures
        r == text_lt(a@, b@),
{
    let mut i: usize = 0;
    assert(a@.subrange(0, a.len() as int) =~= a@);
    assert(b@.subrange(0, b.len() as int) =~= b@);
    while i < a.len() && i < b.len() && a[i] == b[i]
        invariant
            i <= a.len(),
            i <= b.len(),
            text_lt(a@, b@) == text_lt(a@.subrange(i as int, a.len() as int), b@.subrange(i as int, b.len() as int)),
        decreases a.len() - i,
    {
        let ghost sa = a@.subrange(i as int, a.len() as int);
        let ghost sb = b@.subrange(i as int, b.len() as int);
        assert(sa.drop_first() =~= a@.subrange(i + 1, a.len() as int));
        assert(sb.drop_first() =~= b@.subrange(i + 1, b.len() as int));
        i += 1;
    }
    let ghost sa = a@.subrange(i as int, a.len() as int);
    let ghost sb = b@.subrange(i as int, b.len() as int);
    if i == a.len() {
        i < b.len()
    } else if i == b.len() {
        false
    } else {
        assert(sa[0] == a@[i as int] && sb[0] == b@[i as int]);
        a[i] < b[i]
    }
}

/// A text, ordered as text.
#[derive(Clone)]
pub struct TextKey {
    pub text: String,
}

impl Ranked for TextKey {
    open spec fn precedes(self, other: Self) -> bool {
        text_lt(self.text@, other.text@)
    }

    proof fn precedes_irreflexive(a: Self) {
        lemma_text_lt_irreflexive(a.text@);
    }

    proof fn precedes_transitive(a: Self, b: Self, c: Self) {
        lemma_text_lt_transitive(a.text@, b.text@, c.text@);
    }

    proof fn ties_transitive(a: Self, b: Self, c: Self) {
        lemma_text_lt_total(a.text@, b.text@);
        lemma_text_lt_total(b.text@, c.text@);
        lemma_text_lt_total(a.text@, c.text@);
    }

    fn check_precedes(&self, other: &Self) -> (r: bool) {
        let a = crate::text::chars_of(self.text.as_str());
        let b = crate::text::chars_of(other.text.as_str());
        chars_lt(&a, &b)
    }
}

} // verus!
