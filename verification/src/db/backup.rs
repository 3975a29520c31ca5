//! The daily snapshots kept next to the live database: which old ones go
//! when there are more than the number to keep.
use vstd::prelude::*;
use crate::order::{TextKey, before, lemma_text_lt_irreflexive, lemma_text_lt_transitive, text_lt, count_true, lemma_listing_len, listing, select_sorted};
use crate::text::{chars_of, ends_with, has_at, starts_with};

verus! {

/// A file name is one of the snapshots: `worklog-….db`.
pub open spec fn is_snapshot_name(n: Seq<char>) -> bool {
    starts_with(n, "worklog-"@) && ends_with(n, ".db"@)
}

/// How many of `names` are snapshots.
pub open spec fn snapshot_count(names: Seq<String>) -> nat
    decreases names.len(),
{
    if names.len() == 0 {
        0
    } else {
        snapshot_count(names.drop_last()) + if is_snapshot_name(names.last()@) {
            1nat
        } else {
            0nat
        }
    }
}

proof fn lemma_snapshot_count(names: Seq<String>)
    ensures
        snapshot_count(names) == count_true(names.map_values(|n: String| is_snapshot_name(n@))),
    decreases names.len(),
{
    if names.len() > 0 {
        lemma_snapshot_count(names.drop_last());
        assert(names.map_values(|n: String| is_snapshot_name(n@)).drop_last() =~= names.drop_last().map_values(
            |n: String| is_snapshot_name(n@),
        ));
    }
}

/// Whether `n` is a snapshot's file name.
fn snapshot_name(n: &str) -> (r: bool)
    ensures
        r == is_snapshot_name(n@),
{
    let v = chars_of(n);
    let pre = chars_of("worklog-");
    let suf = chars_of(".db");
    let starts = has_at(&v, 0, &pre);
    proof {
        assert(v@.subrange(0, v@.len() as int) =~= v@);
    }
    if !starts || v.len() < suf.len() {
        return false;
    }
    let at = v.len() - suf.len();
    let ends = has_at(&v, at, &suf);
    proof {
        assert(v@.subrange(at as int, v@.len() as int).subrange(0, suf@.len() as int) =~= v@.subrange(
            v@.len() - suf@.len(),
            v@.len() as int,
        ));
    }
    ends
}

/// The snapshots to delete (by index into `names`, oldest first) so that
/// only the `keep` newest remain: the snapshot names in text order, all but
/// the last `keep` of them (none when there are no more than `keep`).
pub fn backups_to_prune(names: &Vec<String>, keep: usize) -> (r: Vec<usize>)
    ensures
        listing(
            names@.map_values(|n: String| TextKey { text: n }),
            names@.map_values(|n: String| is_snapshot_name(n@)),
            if snapshot_count(names@) > keep {
                snapshot_count(names@) - keep
            } else {
                0
            },
            r@,
        ),
        r.len() == if snapshot_count(names@) > keep {
            snapshot_count(names@) - keep
        } else {
            0
        },
{
    let mut keys: Vec<TextKey> = Vec::new();
    let mut flags: Vec<bool> = Vec::new();
    let mut m: usize = 0;
    let mut i: usize = 0;
    while i < names.len()
        invariant
            i <= names.len(),
            keys@ == names@.take(i as int).map_values(|n: String| TextKey { text: n }),
            flags@ == names@.take(i as int).map_values(|n: String| is_snapshot_name(n@)),
            m == snapshot_count(names@.take(i as int)),
            m <= i,
        decreases names.len() - i,
    {
        let snap = snapshot_name(names[i].as_str());
        keys.push(TextKey { text: names[i].clone() });
        flags.push(snap);
        proof {
            assert(names@.take(i + 1) =~= names@.take(i as int).push(names@[i as int]));
            assert(names@.take(i + 1).drop_last() =~= names@.take(i as int));
            assert(keys@ =~= names@.take(i + 1).map_values(|n: String| TextKey { text: n }));
            assert(flags@ =~= names@.take(i + 1).map_values(|n: String| is_snapshot_name(n@)));
        }
        if snap {
            m = m + 1;
        }
        i = i + 1;
    }
    proof {
        assert(names@.take(names.len() as int) =~= names@);
    }
    let limit = if m > keep {
        m - keep
    } else {
        0
    };
    let r = select_sorted(&keys, &flags, limit);
    proof {
        lemma_snapshot_count(names@);
        lemma_listing_len(keys@, flags@, limit as int, r@);
    }
    r
}

/// Pruning keeps the newest snapshots: everything it deletes is a
/// snapshot, and every snapshot it leaves is no older (by its dated name)
/// than any it deletes.
pub proof fn law_prune_keeps_the_newest(names: Seq<String>, limit: int, r: Seq<usize>, k: int, a: int)
    requires
        listing(
            names.map_values(|n: String| TextKey { text: n }),
            names.map_values(|n: String| is_snapshot_name(n@)),
            limit,
            r,
        ),
        0 <= k < names.len() <= usize::MAX,
        is_snapshot_name(names[k]@),
        !r.contains(k as usize),
        0 <= a < r.len(),
    ensures
        is_snapshot_name(names[r[a] as int]@),
        !text_lt(names[k]@, names[r[a] as int]@),
{
    let keys = names.map_values(|n: String| TextKey { text: n });
    let flags = names.map_values(|n: String| is_snapshot_name(n@));
    assert(flags[r[a] as int]);
    assert(flags[(k as usize) as int]);
    assert(before(keys, r[a] as int, (k as usize) as int));
    let (x, y) = (names[r[a] as int]@, names[k]@);
    assert(keys[r[a] as int].text@ == x && keys[k].text@ == y);
    if text_lt(y, x) && text_lt(x, y) {
        lemma_text_lt_transitive(x, y, x);
        lemma_text_lt_irreflexive(x);
    }
}

} // verus!
