//! Order of log entries by (time, node digest, uid) and the stable sort by that order.

use vstd::prelude::*;
use std::collections::VecDeque;
use crate::logger::entry::{LogEntry, LogEntryView};

verus! {

broadcast use vstd::std_specs::vecdeque::group_vec_dequeue_axioms;

/// Whether `a` comes strictly before `b` by time, then node digest, then uid.
pub open spec fn key_lt(a: LogEntryView, b: LogEntryView) -> bool {
    a.time < b.time || (a.time == b.time && (a.node_digest < b.node_digest || (a.node_digest
        == b.node_digest && a.uid < b.uid)))
}

/// Inserts `e` into `s` behind every element that does not come after it.
pub open spec fn insert_sorted(s: Seq<LogEntryView>, e: LogEntryView) -> Seq<LogEntryView>
    decreases s.len(),
{
    if s.len() == 0 {
        seq![e]
    } else if key_lt(e, s.last()) {
        insert_sorted(s.drop_last(), e).push(s.last())
    } else {
        s.push(e)
    }
}

/// Stable sort by (time, node digest, uid): equal keys keep their order.
pub open spec fn sort_spec(s: Seq<LogEntryView>) -> Seq<LogEntryView>
    decreases s.len(),
{
    if s.len() == 0 {
        s
    } else {
        insert_sorted(sort_spec(s.drop_last()), s.last())
    }
}

/// No element comes strictly before an earlier one.
pub open spec fn key_sorted(s: Seq<LogEntryView>) -> bool {
    forall|i: int, j: int| 0 <= i < j < s.len() ==> !key_lt(#[trigger] s[j], #[trigger] s[i])
}

/// Inserting at the position found from the back gives `insert_sorted`.
pub proof fn lemma_insert_at(s: Seq<LogEntryView>, e: LogEntryView, j: int)
    requires
        0 <= j <= s.len(),
        forall|k: int| j <= k < s.len() ==> key_lt(e, #[trigger] s[k]),
        j == 0 || !key_lt(e, s[j - 1]),
    ensures
        insert_sorted(s, e) == s.insert(j, e),
    decreases s.len(),
{
    if s.len() == j {
        assert(s.push(e) =~= s.insert(j, e));
    } else {
        assert(key_lt(e, s[s.len() - 1]));
        lemma_insert_at(s.drop_last(), e, j);
        assert(s.drop_last().insert(j, e).push(s.last()) =~= s.insert(j, e));
    }
}

/// `insert_sorted` inserts at some position, behind the elements that do not come after `e`.
pub proof fn lemma_insert_pos(s: Seq<LogEntryView>, e: LogEntryView) -> (j: int)
    ensures
        0 <= j <= s.len(),
        insert_sorted(s, e) == s.insert(j, e),
        forall|k: int| j <= k < s.len() ==> key_lt(e, #[trigger] s[k]),
        j == 0 || !key_lt(e, s[j - 1]),
    decreases s.len(),
{
    if s.len() == 0 {
        assert(seq![e] =~= s.insert(0, e));
        0
    } else if key_lt(e, s.last()) {
        let j = lemma_insert_pos(s.drop_last(), e);
        assert(s.drop_last().insert(j, e).push(s.last()) =~= s.insert(j, e));
        assert forall|k: int| j <= k < s.len() implies key_lt(e, #[trigger] s[k]) by {
            if k < s.len() - 1 {
                assert(s[k] == s.drop_last()[k]);
            }
        }
        if j > 0 {
            assert(s[j - 1] == s.drop_last()[j - 1]);
        }
        j
    } else {
        assert(s.push(e) =~= s.insert(s.len() as int, e));
        s.len() as int
    }
}

/// Sorting keeps the elements with their multiplicities.
pub proof fn lemma_sort_perm(s: Seq<LogEntryView>)
    ensures
        sort_spec(s).to_multiset() == s.to_multiset(),
        sort_spec(s).len() == s.len(),
    decreases s.len(),
{
    broadcast use vstd::seq_lib::group_to_multiset_ensures;

    if s.len() > 0 {
        lemma_sort_perm(s.drop_last());
        let t = sort_spec(s.drop_last());
        let j = lemma_insert_pos(t, s.last());
        vstd::seq_lib::to_multiset_insert(t, j, s.last());
        assert(s.drop_last().push(s.last()) =~= s);
        s.drop_last().to_multiset_ensures();
    }
}

/// Sorting gives a sequence in key order.
pub proof fn lemma_sort_sorted(s: Seq<LogEntryView>)
    ensures
        key_sorted(sort_spec(s)),
    decreases s.len(),
{
    if s.len() > 0 {
        lemma_sort_sorted(s.drop_last());
        let t = sort_spec(s.drop_last());
        let e = s.last();
        let j = lemma_insert_pos(t, e);
        let u = t.insert(j, e);
        t.insert_ensures(j, e);
        assert forall|a: int, b: int| 0 <= a < b < u.len() implies !key_lt(#[trigger] u[b], #[trigger] u[a]) by {
            if b < j {
                assert(u[a] == t[a] && u[b] == t[b]);
            } else if b == j {
                assert(u[a] == t[a]);
                assert(!key_lt(e, t[j - 1]));
                if a < j - 1 {
                    assert(!key_lt(t[j - 1], t[a]));
                }
            } else if a == j {
                assert(u[b] == t[b - 1]);
            } else if a < j {
                assert(u[a] == t[a] && u[b] == t[b - 1]);
            } else {
                assert(u[a] == t[a - 1] && u[b] == t[b - 1]);
            }
        }
    }
}

/// Whether `a` comes strictly before `b` by time, then node digest, then uid.
pub fn key_less(a: &LogEntry, b: &LogEntry) -> (r: bool)
    ensures
        r == key_lt(a@, b@),
{
    a.time < b.time || (a.time == b.time && (a.node_digest < b.node_digest || (a.node_digest
        == b.node_digest && a.uid < b.uid)))
}

/// Copies of the entries, stably sorted by (time, node digest, uid).
pub fn sorted_copies(entries: &VecDeque<LogEntry>) -> (r: Vec<LogEntry>)
    ensures
        r@.map_values(|e: LogEntry| e@) == sort_spec(entries@.map_values(|e: LogEntry| e@)),
{
    let ghost src = entries@.map_values(|e: LogEntry| e@);
    let mut out: Vec<LogEntry> = Vec::new();
    let mut i: usize = 0;
    assert(src.take(0) =~= Seq::<LogEntryView>::empty());
    assert(out@.map_values(|e: LogEntry| e@) =~= Seq::<LogEntryView>::empty());
    while i < entries.len()
        invariant
            i <= entries@.len(),
            src == entries@.map_values(|e: LogEntry| e@),
            out@.map_values(|e: LogEntry| e@) == sort_spec(src.take(i as int)),
        decreases entries@.len() - i,
    {
        let e = entries[i].clone();
        let ghost ov = out@.map_values(|e: LogEntry| e@);
        let mut j: usize = out.len();
        while j > 0 && key_less(&e, &out[j - 1])
            invariant
                j <= out@.len(),
                ov == out@.map_values(|e: LogEntry| e@),
                forall|k: int| j <= k < ov.len() ==> key_lt(e@, #[trigger] ov[k]),
            decreases j,
        {
            j = j - 1;
        }
        proof {
            if j > 0 {
                assert(ov[j - 1] == out@[j - 1]@);
            }
            lemma_insert_at(ov, e@, j as int);
        }
        let ghost ev = e@;
        out.insert(j, e);
        proof {
            assert(out@.map_values(|e: LogEntry| e@) =~= ov.insert(j as int, ev));
            assert(src.take(i + 1).drop_last() =~= src.take(i as int));
            assert(src.take(i + 1).last() == ev);
        }
        i = i + 1;
    }
    assert(src.take(i as int) =~= src);
    out
}

} // verus!
