//! Cluster-wide log: a ring buffer of entries with per-node deduplication, merging of the
//! logs of several nodes, and the binary state exchanged between nodes.

use vstd::prelude::*;
use std::collections::HashMap;
use crate::wire::WireError;
use crate::logger::entry::{LogEntry, LogEntryView, UidCounter, pack_outcome, log_size, aligned, entry_roundtrips, CLOG_MAX_ENTRY_SIZE};
use crate::logger::order::{key_lt, key_less, key_sorted, insert_sorted, sort_spec, lemma_insert_at, lemma_insert_pos};
use crate::logger::ring_buffer::{
    RingBuffer, RingBufferView, CLOG_DEFAULT_SIZE, add_spec, add_all, total_aligned, effective_capacity,
    fits_machine, log_views, ring_bytes, ring_from_binary, decoded_fits, lemma_add_bounded,
    lemma_add_all_newest_first, lemma_sorted_newest_first, lemma_fitted_roundtrip, lemma_fitted, fitted, key_descending,
};

verus! {

broadcast use vstd::std_specs::hash::group_hash_axioms;

/// Latest (time, uid) seen from a node.
#[derive(Clone, Copy, Debug, PartialEq, Eq, Structural)]
pub struct DedupEntry {
    /// Latest uid seen from the node
    pub uid: u32,
    /// Latest time seen from the node
    pub time: u32,
}

/// Whether an entry is newer, by (time, uid), than the latest one recorded for its node.
pub open spec fn accepts(dedup: Map<u64, DedupEntry>, e: LogEntryView) -> bool {
    if dedup.contains_key(e.node_digest) {
        let d = dedup[e.node_digest];
        e.time > d.time || (e.time == d.time && e.uid > d.uid)
    } else {
        true
    }
}

/// The record after seeing `e`: its (time, uid) when it is accepted.
pub open spec fn dedup_record(dedup: Map<u64, DedupEntry>, e: LogEntryView) -> Map<u64, DedupEntry> {
    if accepts(dedup, e) {
        dedup.insert(e.node_digest, DedupEntry { uid: e.uid, time: e.time })
    } else {
        dedup
    }
}

/// Whether two entries have the same (time, node digest, uid) key.
pub open spec fn same_key(a: LogEntryView, b: LogEntryView) -> bool {
    a.time == b.time && a.node_digest == b.node_digest && a.uid == b.uid
}

/// Whether some entry of `s` has the key of `e`.
pub open spec fn has_key(s: Seq<LogEntryView>, e: LogEntryView) -> bool {
    exists|i: int| 0 <= i < s.len() && same_key(#[trigger] s[i], e)
}

/// Strictly increasing by key.
pub open spec fn strictly_sorted(s: Seq<LogEntryView>) -> bool {
    forall|i: int, j: int| 0 <= i < j < s.len() ==> key_lt(#[trigger] s[i], #[trigger] s[j])
}

/// One step of a merge: an entry whose key was already taken is dropped; otherwise it
/// joins the entries in key order and the deduplication record.
pub open spec fn merge_step(
    st: (Seq<LogEntryView>, Map<u64, DedupEntry>),
    e: LogEntryView,
) -> (Seq<LogEntryView>, Map<u64, DedupEntry>) {
    if has_key(st.0, e) {
        st
    } else {
        (insert_sorted(st.0, e), dedup_record(st.1, e))
    }
}

/// Merge of the entries of `s` in turn, the first of each key kept.
pub open spec fn merge_fold(
    st: (Seq<LogEntryView>, Map<u64, DedupEntry>),
    s: Seq<LogEntryView>,
) -> (Seq<LogEntryView>, Map<u64, DedupEntry>)
    decreases s.len(),
{
    if s.len() == 0 {
        st
    } else {
        merge_step(merge_fold(st, s.drop_last()), s.last())
    }
}

/// The entries of the buffers, one buffer after the other.
pub open spec fn all_entries(bs: Seq<RingBufferView>) -> Seq<LogEntryView>
    decreases bs.len(),
{
    if bs.len() == 0 {
        Seq::empty()
    } else {
        all_entries(bs.drop_last()) + bs.last().entries
    }
}

/// The largest capacity of the buffers, or `dflt` when there is none.
pub open spec fn max_capacity(bs: Seq<RingBufferView>, dflt: usize) -> usize
    decreases bs.len(),
{
    if bs.len() == 0 {
        dflt
    } else {
        let m = max_capacity(bs.drop_last(), dflt);
        let c = bs.last().capacity;
        if bs.len() == 1 || c > m {
            c
        } else {
            m
        }
    }
}

/// Entries a merge considers: the local ones first when they are included, then those of
/// each remote buffer in turn.
pub open spec fn merge_candidates(local: RingBufferView, remote: Seq<RingBufferView>, include_local: bool) -> Seq<
    LogEntryView,
> {
    if include_local {
        all_entries(seq![local] + remote)
    } else {
        all_entries(remote)
    }
}

/// Capacity a merge works with: the largest of the capacities considered, the default
/// capacity when there is none.
pub open spec fn merge_capacity(local: RingBufferView, remote: Seq<RingBufferView>, include_local: bool) -> usize {
    if include_local {
        max_capacity(seq![local] + remote, CLOG_DEFAULT_SIZE)
    } else {
        max_capacity(remote, CLOG_DEFAULT_SIZE)
    }
}

/// Views of a sequence of buffers.
pub open spec fn buffer_views(bs: Seq<RingBuffer>) -> Seq<RingBufferView> {
    bs.map_values(|b: RingBuffer| b@)
}

/// A buffer sorted the way `RingBuffer::sort` sorts it.
pub open spec fn sorted_view(v: RingBufferView) -> RingBufferView {
    RingBufferView {
        capacity: effective_capacity(v.capacity),
        entries: add_all(Seq::empty(), sort_spec(v.entries), effective_capacity(v.capacity) as int),
    }
}

impl Default for ClusterLog {
    /// An empty log with the default capacity.
    fn default() -> (r: Self)
        ensures
            r.wf(),
            r@.buffer == (RingBufferView { capacity: CLOG_DEFAULT_SIZE, entries: Seq::empty() }),
            r@.dedup == Map::<u64, DedupEntry>::empty(),
    {
        ClusterLog::new()
    }
}

/// Entry sizes small enough that sums of two of them fit a `usize`.
pub open spec fn fits_entries(es: Seq<LogEntryView>) -> bool {
    forall|i: int| 0 <= i < es.len() ==> aligned(log_size(#[trigger] es[i])) <= usize::MAX / 2
}

/// In a strictly sorted sequence the key of `e` can only be at the place found from the back.
proof fn lemma_has_key_at(s: Seq<LogEntryView>, e: LogEntryView, j: int)
    requires
        strictly_sorted(s),
        0 <= j <= s.len(),
        forall|k: int| j <= k < s.len() ==> key_lt(e, #[trigger] s[k]),
        j == 0 || !key_lt(e, s[j - 1]),
    ensures
        has_key(s, e) <==> (j > 0 && same_key(s[j - 1], e)),
{
    if has_key(s, e) {
        let i = choose|i: int| 0 <= i < s.len() && same_key(#[trigger] s[i], e);
        if i >= j {
            assert(key_lt(e, s[i]));
        } else if i < j - 1 {
            assert(key_lt(s[i], s[j - 1]));
        }
    }
    if j > 0 && same_key(s[j - 1], e) {
        assert(same_key(s[j - 1], e));
    }
}

/// Inserting between the smaller and the larger keys keeps a sequence strictly sorted.
proof fn lemma_insert_strict(s: Seq<LogEntryView>, e: LogEntryView, j: int)
    requires
        strictly_sorted(s),
        0 <= j <= s.len(),
        forall|k: int| j <= k < s.len() ==> key_lt(e, #[trigger] s[k]),
        j == 0 || key_lt(s[j - 1], e),
    ensures
        strictly_sorted(s.insert(j, e)),
{
    let u = s.insert(j, e);
    s.insert_ensures(j, e);
    assert forall|a: int, b: int| 0 <= a < b < u.len() implies key_lt(#[trigger] u[a], #[trigger] u[b]) by {
        if b < j {
            assert(u[a] == s[a] && u[b] == s[b]);
        } else if b == j {
            assert(u[a] == s[a]);
            if a < j - 1 {
                assert(key_lt(s[a], s[j - 1]));
            }
        } else if a == j {
            assert(u[b] == s[b - 1]);
        } else if a < j {
            assert(u[a] == s[a] && u[b] == s[b - 1]);
        } else {
            assert(u[a] == s[a - 1] && u[b] == s[b - 1]);
        }
    }
}

/// The entries of consecutive groups of buffers.
proof fn lemma_all_entries_concat(a: Seq<RingBufferView>, b: Seq<RingBufferView>)
    ensures
        all_entries(a + b) == all_entries(a) + all_entries(b),
    decreases b.len(),
{
    if b.len() == 0 {
        assert(a + b =~= a);
        assert(all_entries(a) + Seq::<LogEntryView>::empty() =~= all_entries(a));
    } else {
        lemma_all_entries_concat(a, b.drop_last());
        assert((a + b).drop_last() =~= a + b.drop_last());
        assert((a + b).last() == b.last());
        assert(all_entries(a) + all_entries(b.drop_last()) + b.last().entries =~= all_entries(a) + (all_entries(
            b.drop_last(),
        ) + b.last().entries));
    }
}

/// Adds `entry` to the strictly sorted `merged` unless its key is taken; records it in
/// `dedup` when it joins.
fn merge_one(merged: &mut Vec<LogEntry>, dedup: &mut HashMap<u64, DedupEntry>, entry: &LogEntry)
    requires
        strictly_sorted(log_views(old(merged)@)),
        forall|x: int| 0 <= x < old(merged)@.len() ==> aligned(log_size(#[trigger] old(merged)@[x]@)) <= usize::MAX / 2,
        aligned(log_size(entry@)) <= usize::MAX / 2,
    ensures
        strictly_sorted(log_views(final(merged)@)),
        forall|x: int| 0 <= x < final(merged)@.len() ==> aligned(log_size(#[trigger] final(merged)@[x]@)) <= usize::MAX / 2,
        (log_views(final(merged)@), final(dedup)@) == merge_step((log_views(old(merged)@), old(dedup)@), entry@),
{
    let ghost ov = log_views(merged@);
    let mut j: usize = merged.len();
    while j > 0 && key_less(entry, &merged[j - 1])
        invariant
            j <= merged@.len(),
            ov == log_views(merged@),
            forall|k: int| j <= k < ov.len() ==> key_lt(entry@, #[trigger] ov[k]),
        decreases j,
    {
        j = j - 1;
    }
    let taken = j > 0 && merged[j - 1].time == entry.time && merged[j - 1].node_digest == entry.node_digest
        && merged[j - 1].uid == entry.uid;
    proof {
        if j > 0 {
            assert(ov[j - 1] == merged@[j - 1]@);
        }
        lemma_has_key_at(ov, entry@, j as int);
    }
    if !taken {
        proof {
            lemma_insert_at(ov, entry@, j as int);
            lemma_insert_strict(ov, entry@, j as int);
        }
        is_not_duplicate(dedup, entry);
        let ghost mv = merged@;
        let c = entry.clone();
        merged.insert(j, c);
        assert(log_views(merged@) =~= ov.insert(j as int, entry@));
        assert forall|x: int| 0 <= x < merged@.len() implies aligned(log_size(#[trigger] merged@[x]@)) <= usize::MAX / 2 by {
            if x < j {
                assert(merged@[x] == mv[x]);
            } else if x > j {
                assert(merged@[x] == mv[x - 1]);
            }
        }
    }
}

/// Cluster log: the ring buffer and the latest (time, uid) seen from each node.
pub struct ClusterLog {
    buffer: RingBuffer,
    dedup: HashMap<u64, DedupEntry>,
}

/// Mathematical view of a cluster log.
pub struct ClusterLogView {
    pub buffer: RingBufferView,
    pub dedup: Map<u64, DedupEntry>,
}

impl View for ClusterLog {
    type V = ClusterLogView;

    closed spec fn view(&self) -> ClusterLogView {
        ClusterLogView { buffer: self.buffer@, dedup: self.dedup@ }
    }
}

/// Whether the entry is new for its node; records its (time, uid) when it is.
fn is_not_duplicate(dedup: &mut HashMap<u64, DedupEntry>, entry: &LogEntry) -> (r: bool)
    ensures
        r == accepts(old(dedup)@, entry@),
        final(dedup)@ == dedup_record(old(dedup)@, entry@),
{
    let cur: Option<DedupEntry> = match dedup.get(&entry.node_digest) {
        Some(d) => Some(*d),
        None => None,
    };
    match cur {
        None => {
            dedup.insert(entry.node_digest, DedupEntry { uid: entry.uid, time: entry.time });
            true
        },
        Some(d) => {
            if entry.time > d.time || (entry.time == d.time && entry.uid > d.uid) {
                dedup.insert(entry.node_digest, DedupEntry { uid: entry.uid, time: entry.time });
                true
            } else {
                false
            }
        },
    }
}

impl ClusterLog {
    /// The buffer is well formed.
    pub closed spec fn wf(&self) -> bool {
        self.buffer.wf()
    }

    /// An empty log with the default capacity.
    pub fn new() -> (r: ClusterLog)
        ensures
            r.wf(),
            r@.buffer == (RingBufferView { capacity: CLOG_DEFAULT_SIZE, entries: Seq::empty() }),
            r@.dedup == Map::<u64, DedupEntry>::empty(),
    {
        Self::with_capacity(CLOG_DEFAULT_SIZE)
    }

    /// An empty log whose buffer is `RingBuffer::new(capacity)`.
    pub fn with_capacity(capacity: usize) -> (r: ClusterLog)
        ensures
            r.wf(),
            r@.buffer == (RingBufferView { capacity: effective_capacity(capacity), entries: Seq::empty() }),
            r@.dedup == Map::<u64, DedupEntry>::empty(),
    {
        ClusterLog { buffer: RingBuffer::new(capacity), dedup: HashMap::new() }
    }

    /// Packs an entry with the next id of `counter` and inserts it.
    pub fn add(
        &mut self,
        counter: &mut UidCounter,
        node: &str,
        ident: &str,
        tag: &str,
        pid: u32,
        priority: u8,
        time: u32,
        message: &str,
    ) -> (r: Result<(), WireError>)
        requires
            old(self).wf(),
            total_aligned(old(self)@.buffer.entries) + CLOG_MAX_ENTRY_SIZE <= usize::MAX,
        ensures
            final(self).wf(),
            match pack_outcome(old(counter)@, node@, ident@, tag@, pid, time, priority, message@) {
                Ok((e, c)) => r is Ok && final(counter)@ == c && final(self)@ == (ClusterLogView {
                    buffer: if accepts(old(self)@.dedup, e) {
                        RingBufferView {
                            capacity: old(self)@.buffer.capacity,
                            entries: add_spec(old(self)@.buffer.entries, e, old(self)@.buffer.capacity as int),
                        }
                    } else {
                        old(self)@.buffer
                    },
                    dedup: dedup_record(old(self)@.dedup, e),
                }),
                Err(err) => r == Err::<(), WireError>(err) && final(counter)@ == old(counter)@ && final(self)@
                    == old(self)@,
            },
    {
        let entry = match LogEntry::pack(counter, node, ident, tag, pid, time, priority, message) {
            Ok(e) => e,
            Err(err) => return Err(err),
        };
        proof {
            assert(aligned(log_size(entry@)) <= CLOG_MAX_ENTRY_SIZE) by (nonlinear_arith)
                requires
                    0 <= log_size(entry@) <= CLOG_MAX_ENTRY_SIZE,
                    CLOG_MAX_ENTRY_SIZE == 4096,
            ;
        }
        self.insert(&entry)
    }

    /// Inserts an entry unless it is not newer than the latest one seen from its node.
    pub fn insert(&mut self, entry: &LogEntry) -> (r: Result<(), WireError>)
        requires
            old(self).wf(),
            accepts(old(self)@.dedup, entry@) ==> log_size(entry@) + 7 <= usize::MAX && total_aligned(
                old(self)@.buffer.entries,
            ) + aligned(log_size(entry@)) <= usize::MAX,
        ensures
            final(self).wf(),
            r is Ok,
            final(self)@ == (ClusterLogView {
                buffer: if accepts(old(self)@.dedup, entry@) {
                    RingBufferView {
                        capacity: old(self)@.buffer.capacity,
                        entries: add_spec(old(self)@.buffer.entries, entry@, old(self)@.buffer.capacity as int),
                    }
                } else {
                    old(self)@.buffer
                },
                dedup: dedup_record(old(self)@.dedup, entry@),
            }),
    {
        if is_not_duplicate(&mut self.dedup, entry) {
            let _ = self.buffer.add_entry(entry);
        }
        Ok(())
    }

    /// Copies of the newest `max` entries, newest first.
    pub fn get_entries(&self, max: usize) -> (r: Vec<LogEntry>)
        ensures
            log_views(r@) == self@.buffer.entries.take(
                if max < self@.buffer.entries.len() {
                    max as int
                } else {
                    self@.buffer.entries.len() as int
                },
            ),
    {
        let n = if max < self.buffer.len() { max } else { self.buffer.len() };
        let ghost es = self@.buffer.entries;
        let mut out: Vec<LogEntry> = Vec::new();
        let mut i: usize = 0;
        while i < n
            invariant
                i <= n <= es.len(),
                es == self@.buffer.entries,
                log_views(out@) == es.take(i as int),
            decreases n - i,
        {
            let e = self.buffer.entry_at(i).clone();
            let ghost prev = log_views(out@);
            out.push(e);
            assert(log_views(out@) =~= prev.push(es[i as int]));
            assert(es.take(i + 1) =~= es.take(i as int).push(es[i as int]));
            i = i + 1;
        }
        out
    }

    /// A copy of the buffer.
    pub fn get_buffer(&self) -> (r: RingBuffer)
        requires
            self.wf(),
        ensures
            r.wf(),
            r@ == self@.buffer,
    {
        self.buffer.clone()
    }

    /// The record of the latest (time, uid) seen from the node with this digest.
    pub fn dedup_entry(&self, node_digest: u64) -> (r: Option<DedupEntry>)
        ensures
            r == self@.dedup.get(node_digest),
    {
        match self.dedup.get(&node_digest) {
            Some(d) => Some(*d),
            None => None,
        }
    }

    /// Number of entries.
    pub fn len(&self) -> (r: usize)
        ensures
            r == self@.buffer.entries.len(),
    {
        self.buffer.len()
    }

    /// Capacity of the buffer.
    pub fn capacity(&self) -> (r: usize)
        ensures
            r == self@.buffer.capacity,
    {
        self.buffer.capacity()
    }

    /// Whether the log holds no entry.
    pub fn is_empty(&self) -> (r: bool)
        ensures
            r == (self@.buffer.entries.len() == 0),
    {
        self.buffer.is_empty()
    }

    /// Removes all entries and forgets what was seen from each node.
    pub fn clear(&mut self)
        ensures
            final(self).wf(),
            final(self)@.buffer == (RingBufferView {
                capacity: effective_capacity(old(self)@.buffer.capacity),
                entries: Seq::empty(),
            }),
            final(self)@.dedup == Map::<u64, DedupEntry>::empty(),
    {
        let capacity = self.buffer.capacity();
        self.buffer = RingBuffer::new(capacity);
        self.dedup.clear();
    }

    /// The buffer sorted by (time, node digest, uid), newest first.
    pub fn sort(&self) -> (r: Result<RingBuffer, WireError>)
        requires
            self.wf(),
            fits_machine(self@.buffer.capacity, self@.buffer.entries),
        ensures
            r matches Ok(b) && b.wf() && b@ == sorted_view(self@.buffer),
    {
        self.buffer.sort()
    }

    /// The binary state of the log: the sorted buffer in its binary format, with the entries
/// that fit after the header.
    pub fn get_state(&self) -> (r: Result<Vec<u8>, WireError>)
        requires
            self.wf(),
            fits_machine(self@.buffer.capacity, self@.buffer.entries),
        ensures
            r matches Ok(bytes) && bytes@ == ring_bytes(fitted(sorted_view(self@.buffer))),
    {
        let sorted = match self.sort() {
            Ok(b) => b,
            Err(err) => return Err(err),
        };
        Ok(sorted.serialize_binary())
    }

    /// Merges the local entries (when `include_local`) and those of the remote buffers:
    /// the first entry of each (time, node digest, uid) key is kept, the entries are added
    /// oldest first to a new buffer of the largest capacity considered, and the
    /// deduplication record is rebuilt from the kept entries in the order they came.
    pub fn merge(&mut self, remote_logs: Vec<RingBuffer>, include_local: bool) -> (r: Result<(), WireError>)
        requires
            old(self).wf(),
            include_local ==> fits_entries(old(self)@.buffer.entries),
            forall|i: int| 0 <= i < remote_logs@.len() ==> fits_entries(#[trigger] remote_logs@[i]@.entries),
            merge_capacity(old(self)@.buffer, buffer_views(remote_logs@), include_local) <= usize::MAX / 2,
        ensures
            final(self).wf(),
            r is Ok,
            ({
                let st = merge_fold(
                    (Seq::empty(), Map::empty()),
                    merge_candidates(old(self)@.buffer, buffer_views(remote_logs@), include_local),
                );
                let cap = effective_capacity(merge_capacity(old(self)@.buffer, buffer_views(remote_logs@), include_local));
                final(self)@ == (ClusterLogView {
                    buffer: RingBufferView { capacity: cap, entries: add_all(Seq::empty(), st.0, cap as int) },
                    dedup: st.1,
                })
            }),
    {
        let ghost local = self@.buffer;
        let ghost rv = buffer_views(remote_logs@);
        let ghost bs = if include_local { seq![local] + rv } else { rv };
        let ghost off: int = if include_local { 1 } else { 0 };
        // Largest capacity considered.
        let mut max_size: usize = CLOG_DEFAULT_SIZE;
        let mut first = true;
        if include_local {
            max_size = self.buffer.capacity();
            first = false;
            assert(bs.take(1).drop_last().len() == 0);
            assert(bs.take(1).last() == local);
        }
        assert(bs.take(off) =~= bs.take(0) || off == 1);
        let mut i: usize = 0;
        while i < remote_logs.len()
            invariant
                i <= remote_logs@.len(),
                rv == buffer_views(remote_logs@),
                bs == (if include_local { seq![local] + rv } else { rv }),
                off == (if include_local { 1int } else { 0int }),
                first == (off + i == 0),
                max_size == max_capacity(bs.take(off + i), CLOG_DEFAULT_SIZE),
            decreases remote_logs@.len() - i,
        {
            let c = remote_logs[i].capacity();
            proof {
                assert(bs.take(off + i + 1).drop_last() =~= bs.take(off + i));
                assert(bs.take(off + i + 1).last() == rv[i as int]);
                assert(bs.take(off + i + 1).len() == off + i + 1);
            }
            if first || c > max_size {
                max_size = c;
            }
            first = false;
            i = i + 1;
        }
        assert(bs.take(off + i) =~= bs);
        // Keep the first entry of each key, in key order.
        let mut merged: Vec<LogEntry> = Vec::new();
        let mut dedup: HashMap<u64, DedupEntry> = HashMap::new();
        let ghost empty_st = (Seq::<LogEntryView>::empty(), Map::<u64, DedupEntry>::empty());
        let ghost pre: Seq<LogEntryView> = if include_local { local.entries } else { Seq::empty() };
        assert(log_views(merged@) =~= Seq::<LogEntryView>::empty());
        assert(dedup@ =~= Map::<u64, DedupEntry>::empty());
        if include_local {
            let mut k: usize = 0;
            assert(local.entries.take(0) =~= Seq::<LogEntryView>::empty());
            while k < self.buffer.len()
                invariant
                    k <= local.entries.len(),
                    local == self@.buffer,
                    fits_entries(local.entries),
                    strictly_sorted(log_views(merged@)),
                    (log_views(merged@), dedup@) == merge_fold(empty_st, local.entries.take(k as int)),
                    forall|x: int| 0 <= x < merged@.len() ==> aligned(log_size(#[trigger] merged@[x]@)) <= usize::MAX / 2,
                decreases local.entries.len() - k,
            {
                let e = self.buffer.entry_at(k);
                assert(local.entries.take(k + 1).drop_last() =~= local.entries.take(k as int));
                assert(local.entries.take(k + 1).last() == e@);
                merge_one(&mut merged, &mut dedup, e);
                k = k + 1;
            }
            assert(local.entries.take(k as int) =~= pre);
        } else {
            assert(pre =~= Seq::<LogEntryView>::empty());
        }
        let mut i: usize = 0;
        assert(rv.take(0) =~= Seq::<RingBufferView>::empty());
        assert(pre + all_entries(rv.take(0)) =~= pre);
        while i < remote_logs.len()
            invariant
                i <= remote_logs@.len(),
                rv == buffer_views(remote_logs@),
                forall|q: int| 0 <= q < remote_logs@.len() ==> fits_entries(#[trigger] remote_logs@[q]@.entries),
                strictly_sorted(log_views(merged@)),
                (log_views(merged@), dedup@) == merge_fold(empty_st, pre + all_entries(rv.take(i as int))),
                forall|x: int| 0 <= x < merged@.len() ==> aligned(log_size(#[trigger] merged@[x]@)) <= usize::MAX / 2,
            decreases remote_logs@.len() - i,
        {
            let b = &remote_logs[i];
            let ghost bes = b@.entries;
            let ghost base = pre + all_entries(rv.take(i as int));
            assert(rv[i as int] == b@);
            let mut k: usize = 0;
            assert(base + bes.take(0) =~= base);
            while k < b.len()
                invariant
                    k <= bes.len(),
                    bes == b@.entries,
                    fits_entries(bes),
                    strictly_sorted(log_views(merged@)),
                    (log_views(merged@), dedup@) == merge_fold(empty_st, base + bes.take(k as int)),
                    forall|x: int| 0 <= x < merged@.len() ==> aligned(log_size(#[trigger] merged@[x]@)) <= usize::MAX / 2,
                decreases bes.len() - k,
            {
                let e = b.entry_at(k);
                assert((base + bes.take(k + 1)).drop_last() =~= base + bes.take(k as int));
                assert((base + bes.take(k + 1)).last() == e@);
                merge_one(&mut merged, &mut dedup, e);
                k = k + 1;
            }
            proof {
                assert(bes.take(k as int) =~= bes);
                assert(rv.take(i + 1).drop_last() =~= rv.take(i as int));
                assert(rv.take(i + 1).last() == b@);
                assert(base + bes =~= pre + all_entries(rv.take(i + 1)));
            }
            i = i + 1;
        }
        proof {
            assert(rv.take(i as int) =~= rv);
            if include_local {
                lemma_all_entries_concat(seq![local], rv);
                assert(seq![local].drop_last() =~= Seq::<RingBufferView>::empty());
                assert(all_entries(seq![local]) =~= local.entries);
            }
        }
        // Add the kept entries oldest first.
        let ghost ms = log_views(merged@);
        let mut result = RingBuffer::new(max_size);
        let ghost cap = effective_capacity(max_size);
        let mut k: usize = 0;
        while k < merged.len()
            invariant
                k <= merged@.len(),
                result.wf(),
                result@.capacity == cap,
                cap <= usize::MAX / 2,
                ms == log_views(merged@),
                forall|x: int| 0 <= x < merged@.len() ==> aligned(log_size(#[trigger] merged@[x]@)) <= usize::MAX / 2,
                result@.entries == add_all(Seq::empty(), ms.take(k as int), cap as int),
                total_aligned(result@.entries) <= usize::MAX / 2,
            decreases merged@.len() - k,
        {
            let ghost e = merged@[k as int]@;
            assert(ms[k as int] == e);
            assert(aligned(log_size(e)) <= usize::MAX / 2);
            let ghost before = result@.entries;
            let _ = result.add_entry(&merged[k]);
            proof {
                assert(ms.take(k + 1).drop_last() =~= ms.take(k as int));
                assert(ms.take(k + 1).last() == e);
                lemma_add_bounded(before, e, cap as int);
            }
            k = k + 1;
        }
        assert(ms.take(k as int) =~= ms);
        self.buffer = result;
        self.dedup = dedup;
        Ok(())
    }

    /// Decodes a binary state into a buffer.
    pub fn deserialize_state(data: &[u8]) -> (r: Result<RingBuffer, WireError>)
        requires
            decoded_fits(data@),
        ensures
            match r {
                Ok(b) => b.wf() && ring_from_binary(data@) == Ok::<RingBufferView, WireError>(b@),
                Err(err) => ring_from_binary(data@) == Err::<RingBufferView, WireError>(err),
            },
    {
        RingBuffer::deserialize_binary(data)
    }
}

/// The record of a node only moves forward in (time, uid) order, and an accepted entry
/// becomes the record of its node.
pub proof fn lemma_dedup_monotone(dedup: Map<u64, DedupEntry>, e: LogEntryView)
    ensures
        forall|k: u64| #[trigger] dedup.contains_key(k) ==> dedup_record(dedup, e).contains_key(k) && (
        dedup_record(dedup, e)[k].time > dedup[k].time || (dedup_record(dedup, e)[k].time == dedup[k].time
            && dedup_record(dedup, e)[k].uid >= dedup[k].uid)),
        accepts(dedup, e) ==> dedup_record(dedup, e)[e.node_digest] == (DedupEntry { uid: e.uid, time: e.time }),
        !accepts(dedup, e) ==> dedup_record(dedup, e) == dedup,
{
}

/// A merge keeps its entries strictly increasing by key; every candidate's key is present
/// and every kept entry is a candidate.
pub proof fn lemma_merge_keys(s: Seq<LogEntryView>)
    ensures
        strictly_sorted(merge_fold((Seq::empty(), Map::empty()), s).0),
        forall|i: int| 0 <= i < s.len() ==> has_key(merge_fold((Seq::empty(), Map::empty()), s).0, #[trigger] s[i]),
        forall|x: LogEntryView| merge_fold((Seq::empty(), Map::empty()), s).0.contains(x) ==> s.contains(x),
    decreases s.len(),
{
    let st = merge_fold((Seq::<LogEntryView>::empty(), Map::<u64, DedupEntry>::empty()), s);
    if s.len() > 0 {
        let t = s.drop_last();
        let e = s.last();
        lemma_merge_keys(t);
        let prev = merge_fold((Seq::<LogEntryView>::empty(), Map::<u64, DedupEntry>::empty()), t).0;
        if has_key(prev, e) {
            assert forall|i: int| 0 <= i < s.len() implies has_key(st.0, #[trigger] s[i]) by {
                if i < s.len() - 1 {
                    assert(s[i] == t[i]);
                }
            }
            assert forall|x: LogEntryView| st.0.contains(x) implies s.contains(x) by {
                assert(st.0 == prev);
                assert(prev.contains(x));
                assert(t.contains(x));
                let k = choose|k: int| 0 <= k < t.len() && t[k] == x;
                assert(s[k] == x);
            }
        } else {
            let j = lemma_insert_pos(prev, e);
            let u = prev.insert(j, e);
            prev.insert_ensures(j, e);
            assert(st.0 == u);
            if j > 0 {
                assert(!same_key(prev[j - 1], e));
                assert(key_lt(prev[j - 1], e));
            }
            lemma_insert_strict(prev, e, j);
            assert forall|i: int| 0 <= i < s.len() implies has_key(st.0, #[trigger] s[i]) by {
                if i < s.len() - 1 {
                    assert(s[i] == t[i]);
                    assert(has_key(prev, t[i]));
                    let k = choose|k: int| 0 <= k < prev.len() && same_key(#[trigger] prev[k], t[i]);
                    if k < j {
                        assert(same_key(u[k], s[i]));
                    } else {
                        assert(same_key(u[k + 1], s[i]));
                    }
                } else {
                    assert(same_key(u[j], s[i]));
                }
            }
            assert forall|x: LogEntryView| st.0.contains(x) implies s.contains(x) by {
                let k = choose|k: int| 0 <= k < u.len() && u[k] == x;
                if k < j {
                    assert(u[k] == prev[k]);
                    assert(prev.contains(x));
                    assert(t.contains(x));
                    let q = choose|q: int| 0 <= q < t.len() && t[q] == x;
                    assert(s[q] == x);
                } else if k > j {
                    assert(u[k] == prev[k - 1]);
                    assert(prev.contains(x));
                    assert(t.contains(x));
                    let q = choose|q: int| 0 <= q < t.len() && t[q] == x;
                    assert(s[q] == x);
                } else {
                    assert(s[s.len() - 1] == x);
                }
            }
        }
    }
}

/// A merged log holds its entries newest first.
pub proof fn lemma_merge_newest_first(s: Seq<LogEntryView>, capacity: int)
    ensures
        key_descending(add_all(Seq::empty(), merge_fold((Seq::empty(), Map::empty()), s).0, capacity)),
{
    let m = merge_fold((Seq::<LogEntryView>::empty(), Map::<u64, DedupEntry>::empty()), s).0;
    lemma_merge_keys(s);
    assert(key_sorted(m)) by {
        assert forall|i: int, j: int| 0 <= i < j < m.len() implies !key_lt(#[trigger] m[j], #[trigger] m[i]) by {
            assert(key_lt(m[i], m[j]));
        }
    }
    lemma_add_all_newest_first(m, capacity);
}

/// The state of a log reads back as its sorted buffer, as far as it fits after the header,
/// when each entry reads back on its own.
pub proof fn lemma_state_roundtrip(v: RingBufferView)
    requires
        forall|i: int| 0 <= i < v.entries.len() ==> entry_roundtrips(#[trigger] v.entries[i]),
        sorted_view(v).capacity <= u32::MAX,
    ensures
        ring_from_binary(ring_bytes(fitted(sorted_view(v)))) == Ok::<RingBufferView, WireError>(
            fitted(sorted_view(v)),
        ),
        8 + total_aligned(sorted_view(v).entries) <= sorted_view(v).capacity ==> fitted(sorted_view(v))
            == sorted_view(v),
{
    let sv = sorted_view(v);
    lemma_sorted_newest_first(v.entries, sv.capacity as int);
    assert forall|i: int| 0 <= i < sv.entries.len() implies entry_roundtrips(#[trigger] sv.entries[i]) by {
        assert(sv.entries.contains(sv.entries[i]));
        assert(v.entries.contains(sv.entries[i]));
        let k = choose|k: int| 0 <= k < v.entries.len() && v.entries[k] == sv.entries[i];
        assert(entry_roundtrips(v.entries[k]));
    }
    lemma_fitted_roundtrip(sv);
    lemma_fitted(sv);
    assert(effective_capacity(sv.capacity) == sv.capacity);
}

} // verus!
