//! Ring buffer of recent log entries (newest first), bounded by the total aligned size of
//! its entries, and its binary format: `[size u32][cpos u32]` followed by the entries,
//! each padded to a multiple of 8 bytes.

use vstd::prelude::*;
use vstd::bytes::*;
use vstd::slice::slice_subrange;
use vstd::utf8::encode_utf8;
use std::collections::VecDeque;
use crate::wire::{WireError, push_u32, push_bytes, read_u32};
use crate::logger::entry::{LogEntry, LogEntryView, log_size, entry_len, aligned, entry_bytes, parse_entry, parsed_view, entry_roundtrips, lemma_entry_roundtrip};
use crate::logger::hash::{fnv_spec, fnv_64a_str, FNV1A_64_INIT};
use crate::logger::order::{key_lt, sort_spec, key_sorted, sorted_copies, lemma_sort_perm, lemma_sort_sorted};

verus! {

broadcast use vstd::std_specs::vecdeque::group_vec_dequeue_axioms;

/// Default capacity of a ring buffer in bytes.
pub const CLOG_DEFAULT_SIZE: usize = 131072;

/// Smallest capacity that is kept; smaller requests get the default capacity.
pub const CLOG_MIN_SIZE: usize = 40960;

/// Views of a sequence of entries.
pub open spec fn log_views(s: Seq<LogEntry>) -> Seq<LogEntryView> {
    s.map_values(|e: LogEntry| e@)
}

/// Total aligned size of the entries.
pub open spec fn total_aligned(es: Seq<LogEntryView>) -> int
    decreases es.len(),
{
    if es.len() == 0 {
        0
    } else {
        aligned(log_size(es[0])) + total_aligned(es.drop_first())
    }
}

/// Number of entries at the front of `es` that fit, one after the other from offset `off`,
/// in a buffer of `capacity` bytes: counting stops at the first entry that does not fit.
pub open spec fn fit_count(es: Seq<LogEntryView>, off: int, capacity: int) -> int
    decreases es.len(),
{
    if es.len() == 0 || off + aligned(log_size(es[0])) > capacity {
        0
    } else {
        1 + fit_count(es.drop_first(), off + aligned(log_size(es[0])), capacity)
    }
}

/// The buffer as far as it fits its capacity after the 8-byte header: the newest entries
/// up to the first one that does not fit.
pub open spec fn fitted(v: RingBufferView) -> RingBufferView {
    RingBufferView { entries: v.entries.take(fit_count(v.entries, 8, v.capacity as int)), ..v }
}

proof fn lemma_fit_count(es: Seq<LogEntryView>, off: int, capacity: int)
    requires
        off <= capacity,
    ensures
        0 <= fit_count(es, off, capacity) <= es.len(),
        off + total_aligned(es.take(fit_count(es, off, capacity))) <= capacity,
    decreases es.len(),
{
    if es.len() > 0 && off + aligned(log_size(es[0])) <= capacity {
        let a = aligned(log_size(es[0]));
        lemma_aligned_nonneg(es[0]);
        lemma_fit_count(es.drop_first(), off + a, capacity);
        let k = fit_count(es.drop_first(), off + a, capacity);
        assert(es.take(k + 1)[0] == es[0]);
        assert(es.take(k + 1).drop_first() =~= es.drop_first().take(k));
    } else {
        assert(es.take(0).len() == 0);
    }
}

proof fn lemma_fit_all(es: Seq<LogEntryView>, off: int, capacity: int)
    requires
        off + total_aligned(es) <= capacity,
    ensures
        fit_count(es, off, capacity) == es.len(),
    decreases es.len(),
{
    if es.len() > 0 {
        let a = aligned(log_size(es[0]));
        lemma_total_nonneg(es.drop_first());
        lemma_fit_all(es.drop_first(), off + a, capacity);
    }
}

/// Entries whose sizes can be computed without overflow.
pub open spec fn sizes_ok(es: Seq<LogEntryView>) -> bool {
    forall|i: int| 0 <= i < es.len() ==> log_size(#[trigger] es[i]) + 7 <= usize::MAX
}

/// Capacity given to a requested capacity.
pub open spec fn effective_capacity(capacity: usize) -> usize {
    if capacity < CLOG_MIN_SIZE {
        CLOG_DEFAULT_SIZE
    } else {
        capacity
    }
}

/// The entries left after evicting the oldest ones until an entry of `size` fits
/// `capacity` or none is left.
pub open spec fn evict(es: Seq<LogEntryView>, size: int, capacity: int) -> Seq<LogEntryView>
    decreases es.len(),
{
    if total_aligned(es) + size > capacity && es.len() > 0 {
        evict(es.drop_last(), size, capacity)
    } else {
        es
    }
}

/// Entries after adding `e` as the newest entry.
pub open spec fn add_spec(es: Seq<LogEntryView>, e: LogEntryView, capacity: int) -> Seq<LogEntryView> {
    seq![e] + evict(es, aligned(log_size(e)), capacity)
}

/// Entries after adding each of `ps` in turn.
pub open spec fn add_all(es: Seq<LogEntryView>, ps: Seq<LogEntryView>, capacity: int) -> Seq<LogEntryView>
    decreases ps.len(),
{
    if ps.len() == 0 {
        es
    } else {
        add_spec(add_all(es, ps.drop_last(), capacity), ps.last(), capacity)
    }
}

proof fn lemma_total_nonneg(es: Seq<LogEntryView>)
    ensures
        total_aligned(es) >= 0,
    decreases es.len(),
{
    if es.len() > 0 {
        lemma_total_nonneg(es.drop_first());
        assert(aligned(log_size(es[0])) >= 0);
    }
}

/// The total without the oldest entry.
pub proof fn lemma_total_drop_last(es: Seq<LogEntryView>)
    requires
        es.len() > 0,
    ensures
        total_aligned(es) == total_aligned(es.drop_last()) + aligned(log_size(es.last())),
    decreases es.len(),
{
    if es.len() > 1 {
        lemma_total_drop_last(es.drop_first());
        assert(es.drop_first().drop_last() =~= es.drop_last().drop_first());
        assert(es.drop_first().last() == es.last());
        assert(es.drop_last()[0] == es[0]);
        assert(total_aligned(es.drop_last()) == aligned(log_size(es[0])) + total_aligned(es.drop_last().drop_first()));
    } else {
        assert(es.drop_last().len() == 0);
        assert(es.drop_first().len() == 0);
        assert(total_aligned(es.drop_first()) == 0);
        assert(total_aligned(es.drop_last()) == 0);
    }
}

/// Eviction keeps a prefix of the entries, and the sizes check.
proof fn lemma_evict(es: Seq<LogEntryView>, size: int, capacity: int)
    requires
        size >= 0,
    ensures
        evict(es, size, capacity).len() <= es.len(),
        evict(es, size, capacity) == es.take(evict(es, size, capacity).len() as int),
        evict(es, size, capacity).len() == 0 || total_aligned(evict(es, size, capacity)) + size <= capacity,
        total_aligned(evict(es, size, capacity)) <= total_aligned(es),
    decreases es.len(),
{
    lemma_total_nonneg(es);
    if total_aligned(es) + size > capacity && es.len() > 0 {
        lemma_evict(es.drop_last(), size, capacity);
        lemma_total_drop_last(es);
        let r = evict(es.drop_last(), size, capacity);
        assert(es.drop_last().take(r.len() as int) =~= es.take(r.len() as int));
    } else {
        assert(es.take(es.len() as int) =~= es);
    }
}

/// Capacity and entry sizes small enough that sums of two of them fit a `usize`.
pub open spec fn fits_machine(capacity: usize, es: Seq<LogEntryView>) -> bool {
    &&& capacity <= usize::MAX / 2
    &&& forall|i: int| 0 <= i < es.len() ==> aligned(log_size(#[trigger] es[i])) <= usize::MAX / 2
}

/// No entry comes strictly before a later one: newest first.
pub open spec fn key_descending(s: Seq<LogEntryView>) -> bool {
    forall|i: int, j: int| 0 <= i < j < s.len() ==> !key_lt(#[trigger] s[i], #[trigger] s[j])
}

proof fn lemma_aligned_nonneg(e: LogEntryView)
    ensures
        aligned(log_size(e)) >= log_size(e) >= 48,
{
    let n = log_size(e);
    assert(((n + 7) / 8) * 8 >= n) by (nonlinear_arith)
        requires
            n >= 0,
    ;
}

/// After an addition the entries take at most the capacity, or only the new entry is left.
pub proof fn lemma_add_bounded(es: Seq<LogEntryView>, e: LogEntryView, capacity: int)
    ensures
        total_aligned(add_spec(es, e, capacity)) <= capacity || add_spec(es, e, capacity) == seq![e],
        total_aligned(add_spec(es, e, capacity)) <= (if capacity >= aligned(log_size(e)) {
            capacity
        } else {
            aligned(log_size(e))
        }),
{
    lemma_aligned_nonneg(e);
    let size = aligned(log_size(e));
    lemma_evict(es, size, capacity);
    let ev = evict(es, size, capacity);
    let r = seq![e] + ev;
    assert(r.drop_first() =~= ev);
    assert(r[0] == e);
    if ev.len() == 0 {
        assert(r =~= seq![e]);
        assert(total_aligned(ev) == 0);
    }
}

/// Adding entries one by one to an empty buffer keeps the newest of them, newest first.
proof fn lemma_add_all_suffix(p: Seq<LogEntryView>, capacity: int) -> (k: int)
    ensures
        0 <= k <= p.len(),
        add_all(Seq::empty(), p, capacity) == p.subrange(k, p.len() as int).reverse(),
    decreases p.len(),
{
    if p.len() == 0 {
        assert(p.subrange(0, 0).reverse() =~= Seq::<LogEntryView>::empty());
        0
    } else {
        let k0 = lemma_add_all_suffix(p.drop_last(), capacity);
        let m = p.len() - 1;
        let prev = p.drop_last().subrange(k0, m).reverse();
        let size = aligned(log_size(p.last()));
        lemma_aligned_nonneg(p.last());
        lemma_evict(prev, size, capacity);
        let n = evict(prev, size, capacity).len() as int;
        assert(prev.take(n) =~= p.subrange(m - n, m).reverse());
        assert(seq![p.last()] + p.subrange(m - n, m).reverse() =~= p.subrange(m - n, p.len() as int).reverse());
        m - n
    }
}

/// Adding entries in key order leaves them newest first.
pub proof fn lemma_add_all_newest_first(p: Seq<LogEntryView>, capacity: int)
    requires
        key_sorted(p),
    ensures
        key_descending(add_all(Seq::empty(), p, capacity)),
        forall|x: LogEntryView| add_all(Seq::empty(), p, capacity).contains(x) ==> p.contains(x),
{
    let k = lemma_add_all_suffix(p, capacity);
    let r = add_all(Seq::empty(), p, capacity);
    let n = p.len() as int;
    assert forall|i: int, j: int| 0 <= i < j < r.len() implies !key_lt(#[trigger] r[i], #[trigger] r[j]) by {
        assert(r[i] == p[n - 1 - i]);
        assert(r[j] == p[n - 1 - j]);
        assert(k <= n - 1 - j < n - 1 - i < n);
    }
    assert forall|x: LogEntryView| r.contains(x) implies p.contains(x) by {
        let i = choose|i: int| 0 <= i < r.len() && r[i] == x;
        assert(r[i] == p[n - 1 - i]);
    }
}

/// A sorted buffer holds its entries newest first, each of them one of the entries sorted.
pub proof fn lemma_sorted_newest_first(es: Seq<LogEntryView>, capacity: int)
    ensures
        key_descending(add_all(Seq::empty(), sort_spec(es), capacity)),
        forall|x: LogEntryView| add_all(Seq::empty(), sort_spec(es), capacity).contains(x) ==> es.contains(x),
{
    lemma_sort_sorted(es);
    lemma_sort_perm(es);
    lemma_add_all_newest_first(sort_spec(es), capacity);
    broadcast use vstd::seq_lib::group_to_multiset_ensures;
    assert forall|x: LogEntryView| add_all(Seq::empty(), sort_spec(es), capacity).contains(x) implies es.contains(x) by {
        assert(sort_spec(es).contains(x));
        assert(sort_spec(es).to_multiset().count(x) > 0);
    }
}

/// Digest that an ident filter selects: FNV-1a of its text and a NUL.
pub open spec fn filter_digest(filter: Option<Seq<char>>) -> Option<u64> {
    match filter {
        Some(f) => Some(fnv_spec(encode_utf8(f).push(0u8), FNV1A_64_INIT)),
        None => None,
    }
}

/// The first `max` entries, in order, whose ident digest is `digest` (all entries when
/// there is no digest).
pub open spec fn dump_select(es: Seq<LogEntryView>, digest: Option<u64>, max: nat) -> Seq<LogEntryView>
    decreases es.len(),
{
    if es.len() == 0 || max == 0 {
        Seq::empty()
    } else if digest matches Some(d) && d != es[0].ident_digest {
        dump_select(es.drop_first(), digest, max)
    } else {
        seq![es[0]] + dump_select(es.drop_first(), digest, (max - 1) as nat)
    }
}

/// `n` zero bytes.
pub open spec fn zeros(n: int) -> Seq<u8> {
    Seq::new(n as nat, |i: int| 0u8)
}

/// The entries laid out from offset `off`, newest first: each in its binary format, padded
/// with zeros to its aligned size, its `prev` link the offset of the next older entry (0 for
/// the oldest) and its `next` link its own end.
pub open spec fn ring_body(es: Seq<LogEntryView>, off: int) -> Seq<u8>
    decreases es.len(),
{
    if es.len() == 0 {
        Seq::empty()
    } else {
        let a = aligned(log_size(es[0]));
        let end = (off + a) as u32;
        let prev = if es.len() > 1 {
            end
        } else {
            0u32
        };
        entry_bytes(es[0], prev, end) + zeros(a - entry_len(es[0])) + ring_body(es.drop_first(), off + a)
    }
}

/// Binary format of a ring buffer: its capacity, the offset of the newest entry (0 when
/// there is none), the entries from offset 8, and zeros up to the capacity.
pub open spec fn ring_bytes(v: RingBufferView) -> Seq<u8> {
    let body = ring_body(v.entries, 8);
    spec_u32_to_le_bytes(v.capacity as u32) + spec_u32_to_le_bytes(
        if v.entries.len() == 0 {
            0u32
        } else {
            8u32
        },
    ) + body + zeros(v.capacity - 8 - body.len())
}

proof fn lemma_entry_bytes_len(e: LogEntryView, prev: u32, next: u32)
    ensures
        entry_bytes(e, prev, next).len() == entry_len(e),
{
    crate::wire::lemma_le_roundtrips();
}

proof fn lemma_body_len(es: Seq<LogEntryView>, off: int)
    ensures
        ring_body(es, off).len() == total_aligned(es),
    decreases es.len(),
{
    if es.len() > 0 {
        let a = aligned(log_size(es[0]));
        lemma_aligned_nonneg(es[0]);
        lemma_entry_bytes_len(es[0], if es.len() > 1 { (off + a) as u32 } else { 0u32 }, (off + a) as u32);
        lemma_body_len(es.drop_first(), off + a);
    }
}

proof fn lemma_total_take(es: Seq<LogEntryView>, i: int)
    requires
        0 <= i < es.len(),
    ensures
        total_aligned(es.take(i + 1)) == total_aligned(es.take(i)) + aligned(log_size(es[i])),
        total_aligned(es.take(i)) + total_aligned(es.skip(i)) == total_aligned(es),
    decreases es.len(),
{
    lemma_total_drop_last(es.take(i + 1));
    assert(es.take(i + 1).drop_last() =~= es.take(i));
    lemma_total_split(es, i);
}

proof fn lemma_total_split(es: Seq<LogEntryView>, i: int)
    requires
        0 <= i <= es.len(),
    ensures
        total_aligned(es.take(i)) + total_aligned(es.skip(i)) == total_aligned(es),
    decreases i,
{
    if i == 0 {
        assert(es.take(0).len() == 0);
        assert(es.skip(0) =~= es);
    } else {
        lemma_total_split(es.drop_first(), i - 1);
        assert(es.drop_first().take(i - 1) =~= es.take(i).drop_first());
        assert(es.drop_first().skip(i - 1) =~= es.skip(i));
        assert(es.take(i)[0] == es[0]);
    }
}

/// Number of `false` entries.
pub open spec fn count_false(s: Seq<bool>) -> nat
    decreases s.len(),
{
    if s.len() == 0 {
        0
    } else {
        (if s.last() {
            0nat
        } else {
            1nat
        }) + count_false(s.drop_last())
    }
}

pub proof fn lemma_count_false_update(s: Seq<bool>, i: int)
    requires
        0 <= i < s.len(),
        !s[i],
    ensures
        count_false(s.update(i, true)) + 1 == count_false(s),
    decreases s.len(),
{
    let u = s.update(i, true);
    if i == s.len() - 1 {
        assert(u.drop_last() =~= s.drop_last());
    } else {
        lemma_count_false_update(s.drop_last(), i);
        assert(u.drop_last() =~= s.drop_last().update(i, true));
    }
}

/// Entries read from the binary format from offset `pos`, following the `prev` links
/// towards older entries: the walk stops at offset 0, past the end, at an offset already
/// visited (marked in `seen`), and after an entry whose link wraps around to at most the
/// offset `init` of the newest entry. An entry that does not decode is an error.
pub open spec fn walk(d: Seq<u8>, pos: int, init: int, seen: Seq<bool>) -> Result<Seq<LogEntryView>, WireError>
    decreases count_false(seen),
{
    if pos <= 0 || pos >= seen.len() || pos >= d.len() || seen[pos] {
        Ok(Seq::empty())
    } else {
        match parse_entry(d.subrange(pos, d.len() as int)) {
            Err(err) => Err(err),
            Ok((e, prev, _next)) => {
                if pos < prev && prev <= init {
                    Ok(seq![e])
                } else {
                    proof {
                        lemma_count_false_update(seen, pos);
                    }
                    match walk(d, prev as int, init, seen.update(pos, true)) {
                        Ok(rest) => Ok(seq![e] + rest),
                        Err(err) => Err(err),
                    }
                }
            },
        }
    }
}

/// Decoding of the binary format of a ring buffer: the header's size must be the length
/// of the data; offset 0 of the newest entry means no entry; the capacity is that of a
/// new buffer of the given size.
pub open spec fn ring_from_binary(d: Seq<u8>) -> Result<RingBufferView, WireError> {
    if d.len() < 8 {
        Err(WireError::TooShort)
    } else {
        let size = spec_u32_from_le_bytes(d.subrange(0, 4)) as int;
        let cpos = spec_u32_from_le_bytes(d.subrange(4, 8)) as int;
        if size != d.len() {
            Err(WireError::SizeMismatch)
        } else if cpos == 0 {
            Ok(RingBufferView { capacity: effective_capacity(size as usize), entries: Seq::empty() })
        } else if cpos < 8 || cpos >= size {
            Err(WireError::InvalidPosition)
        } else {
            match walk(d, cpos, cpos, Seq::new(size as nat, |i: int| false)) {
                Ok(es) => Ok(RingBufferView { capacity: effective_capacity(size as usize), entries: es }),
                Err(err) => Err(err),
            }
        }
    }
}

/// The decoded entries, if any, have sizes whose sum fits a `usize`.
pub open spec fn decoded_fits(d: Seq<u8>) -> bool {
    match ring_from_binary(d) {
        Ok(v) => sizes_ok(v.entries) && total_aligned(v.entries) <= usize::MAX,
        Err(_) => true,
    }
}

/// Appends the entries of a walk to those read before it.
pub open spec fn walk_after(
    done: Seq<LogEntryView>,
    rest: Result<Seq<LogEntryView>, WireError>,
) -> Result<Seq<LogEntryView>, WireError> {
    match rest {
        Ok(r) => Ok(done + r),
        Err(err) => Err(err),
    }
}

/// Ring buffer of log entries, newest first.
pub struct RingBuffer {
    capacity: usize,
    current_size: usize,
    entries: VecDeque<LogEntry>,
}

/// Mathematical view of a ring buffer.
pub struct RingBufferView {
    pub capacity: usize,
    pub entries: Seq<LogEntryView>,
}

impl View for RingBuffer {
    type V = RingBufferView;

    closed spec fn view(&self) -> RingBufferView {
        RingBufferView { capacity: self.capacity, entries: log_views(self.entries@) }
    }
}

impl RingBuffer {
    /// The size counter is the total aligned size of the entries, and all sizes can be computed.
    pub closed spec fn wf(&self) -> bool {
        &&& self.current_size == total_aligned(log_views(self.entries@))
        &&& sizes_ok(log_views(self.entries@))
    }

    /// An empty ring buffer; capacities below the minimum get the default capacity.
    pub fn new(capacity: usize) -> (r: RingBuffer)
        ensures
            r.wf(),
            r@ == (RingBufferView { capacity: effective_capacity(capacity), entries: Seq::empty() }),
    {
        let capacity = if capacity < CLOG_MIN_SIZE { CLOG_DEFAULT_SIZE } else { capacity };
        let r = RingBuffer { capacity, current_size: 0, entries: VecDeque::new() };
        assert(log_views(r.entries@) =~= Seq::<LogEntryView>::empty());
        r
    }

    /// Total aligned size of the entries.
    pub fn current_size(&self) -> (r: usize)
        requires
            self.wf(),
        ensures
            r == total_aligned(self@.entries),
    {
        self.current_size
    }

    /// Adds an entry as the newest, first evicting the oldest entries until it fits.
    pub fn add_entry(&mut self, entry: &LogEntry) -> (r: Result<(), WireError>)
        requires
            old(self).wf(),
            log_size(entry@) + 7 <= usize::MAX,
            total_aligned(old(self)@.entries) + aligned(log_size(entry@)) <= usize::MAX,
        ensures
            final(self).wf(),
            r is Ok,
            final(self)@ == (RingBufferView {
                capacity: old(self)@.capacity,
                entries: add_spec(old(self)@.entries, entry@, old(self)@.capacity as int),
            }),
    {
        let entry_size = entry.aligned_size();
        let ghost es0 = self@.entries;
        proof {
            lemma_evict(es0, entry_size as int, self.capacity as int);
        }
        while self.current_size + entry_size > self.capacity && self.entries.len() > 0
            invariant
                self.wf(),
                self.capacity == old(self).capacity,
                entry_size == aligned(log_size(entry@)),
                self.current_size + entry_size <= total_aligned(es0) + entry_size <= usize::MAX,
                evict(es0, entry_size as int, self.capacity as int) == evict(self@.entries, entry_size as int, self.capacity as int),
            decreases self.entries@.len(),
        {
            let ghost es = self@.entries;
            proof {
                lemma_total_drop_last(es);
                lemma_total_nonneg(es.drop_last());
            }
            match self.entries.pop_back() {
                Some(old_entry) => {
                    assert(log_views(self.entries@) =~= es.drop_last());
                    assert(old_entry@ == es.last());
                    let s = old_entry.aligned_size();
                    self.current_size = if self.current_size >= s { self.current_size - s } else { 0 };
                },
                None => {},
            }
        }
        let ghost kept = self@.entries;
        assert(kept == evict(es0, entry_size as int, self.capacity as int));
        self.entries.push_front(entry.clone());
        assert(log_views(self.entries@) =~= seq![entry@] + kept);
        self.current_size = self.current_size + entry_size;
        proof {
            let n = seq![entry@] + kept;
            assert(n.drop_first() =~= kept);
            assert forall|i: int| 0 <= i < n.len() implies log_size(#[trigger] n[i]) + 7 <= usize::MAX by {
                if i > 0 {
                    assert(n[i] == kept[i - 1]);
                }
            }
        }
        Ok(())
    }

    /// A new buffer of the same capacity holding the entries stably sorted by (time, node
    /// digest, uid) and added oldest first, so that they stand newest first.
    pub fn sort(&self) -> (r: Result<RingBuffer, WireError>)
        requires
            self.wf(),
            fits_machine(self@.capacity, self@.entries),
        ensures
            r matches Ok(b) && b.wf() && b@ == (RingBufferView {
                capacity: effective_capacity(self@.capacity),
                entries: add_all(Seq::empty(), sort_spec(self@.entries), effective_capacity(self@.capacity) as int),
            }),
    {
        let sorted = sorted_copies(&self.entries);
        let ghost ps = sort_spec(self@.entries);
        proof {
            lemma_sort_perm(self@.entries);
            broadcast use vstd::seq_lib::group_to_multiset_ensures;
            assert forall|i: int| 0 <= i < ps.len() implies aligned(log_size(#[trigger] ps[i])) <= usize::MAX / 2 by {
                assert(ps.to_multiset().count(ps[i]) > 0);
                assert(self@.entries.contains(ps[i]));
            }
        }
        let mut b = RingBuffer::new(self.capacity);
        let ghost cap = effective_capacity(self@.capacity);
        let mut i: usize = 0;
        while i < sorted.len()
            invariant
                i <= sorted@.len(),
                b.wf(),
                b@.capacity == cap,
                cap <= usize::MAX / 2,
                sorted@.map_values(|e: LogEntry| e@) == ps,
                forall|k: int| 0 <= k < ps.len() ==> aligned(log_size(#[trigger] ps[k])) <= usize::MAX / 2,
                b@.entries == add_all(Seq::empty(), ps.take(i as int), cap as int),
                total_aligned(b@.entries) <= usize::MAX / 2,
            decreases sorted@.len() - i,
        {
            let ghost e = sorted@[i as int]@;
            assert(ps[i as int] == e);
            proof {
                lemma_aligned_nonneg(e);
            }
            let ghost before = b@.entries;
            let _ = b.add_entry(&sorted[i]);
            proof {
                assert(ps.take(i + 1).drop_last() =~= ps.take(i as int));
                assert(ps.take(i + 1).last() == e);
                lemma_add_bounded(before, e, cap as int);
            }
            i = i + 1;
        }
        assert(ps.take(i as int) =~= ps);
        Ok(b)
    }

    /// Copies of the entries that a dump shows: newest first, those whose ident digest is
    /// that of `ident_filter` when one is given, at most `max_entries` of them.
    pub fn select_for_dump(&self, ident_filter: Option<&str>, max_entries: usize) -> (r: Vec<LogEntry>)
        ensures
            log_views(r@) == dump_select(
                self@.entries,
                filter_digest(
                    match ident_filter {
                        Some(f) => Some(f@),
                        None => None,
                    },
                ),
                max_entries as nat,
            ),
    {
        let digest: Option<u64> = match ident_filter {
            Some(f) => Some(fnv_64a_str(f)),
            None => None,
        };
        let ghost es = self@.entries;
        let ghost target = dump_select(es, digest, max_entries as nat);
        let mut out: Vec<LogEntry> = Vec::new();
        let mut count: usize = 0;
        let mut i: usize = 0;
        assert(es.skip(0) =~= es);
        assert(log_views(out@) =~= Seq::<LogEntryView>::empty());
        while i < self.entries.len() && count < max_entries
            invariant
                i <= self.entries@.len(),
                count <= max_entries,
                es == log_views(self.entries@),
                target == dump_select(es, digest, max_entries as nat),
                target == log_views(out@) + dump_select(es.skip(i as int), digest, (max_entries - count) as nat),
            decreases self.entries@.len() - i,
        {
            let e = &self.entries[i];
            let ghost rest = es.skip(i as int);
            assert(rest[0] == e@);
            assert(rest.drop_first() =~= es.skip(i + 1));
            let keep = match digest {
                Some(d) => d == e.ident_digest,
                None => true,
            };
            if keep {
                let ghost prev = log_views(out@);
                out.push(e.clone());
                assert(log_views(out@) =~= prev.push(e@));
                assert(prev + (seq![e@] + dump_select(es.skip(i + 1), digest, (max_entries - count - 1) as nat))
                    =~= prev.push(e@) + dump_select(es.skip(i + 1), digest, (max_entries - count - 1) as nat));
                count = count + 1;
            }
            i = i + 1;
        }
        assert(dump_select(es.skip(i as int), digest, (max_entries - count) as nat) =~= Seq::<LogEntryView>::empty());
        assert(log_views(out@) + Seq::<LogEntryView>::empty() =~= log_views(out@));
        out
    }

    /// The binary format of the buffer, as long as the capacity: the entries that fit, newest
    /// first from offset 8, each linked to the next older one that fits (see `fitted`).
    #[verifier::rlimit(40)]
    pub fn serialize_binary(&self) -> (r: Vec<u8>)
        requires
            self.wf(),
            8 <= self@.capacity,
        ensures
            r@ == ring_bytes(fitted(self@)),
            r@.len() == self@.capacity,
            8 + total_aligned(self@.entries) <= self@.capacity ==> fitted(self@) == self@,
    {
        let n = self.fitting_count();
        let ghost all = self@.entries;
        let ghost es = all.take(n as int);
        proof {
            lemma_fit_count(all, 8, self@.capacity as int);
            if 8 + total_aligned(all) <= self@.capacity {
                lemma_fit_all(all, 8, self@.capacity as int);
                assert(all.take(all.len() as int) =~= all);
            }
            assert(fitted(self@).entries == es);
        }
        let ghost full = ring_body(es, 8);
        proof {
            lemma_body_len(es, 8);
            lemma_total_nonneg(es);
        }
        let mut buf: Vec<u8> = Vec::new();
        push_u32(&mut buf, self.capacity as u32);
        push_u32(&mut buf, if n == 0 { 0u32 } else { 8u32 });
        let ghost header = buf@;
        proof {
            crate::wire::lemma_le_roundtrips();
            assert(es.skip(0) =~= es);
            assert(es.take(0).len() == 0);
        }
        let mut off: usize = 8;
        let mut i: usize = 0;
        assert(header + Seq::<u8>::empty() =~= header);
        while i < n
            invariant
                self.wf(),
                all == self@.entries,
                n <= all.len(),
                es == all.take(n as int),
                i <= es.len(),
                header.len() == 8,
                off == 8 + total_aligned(es.take(i as int)),
                8 + total_aligned(es) <= self.capacity,
                full == ring_body(es, 8),
                exists|done: Seq<u8>| #![auto]
                    buf@ == header + done && full == done + ring_body(es.skip(i as int), off as int),
                buf@.len() == off,
            decreases es.len() - i,
        {
            let ghost done = choose|done: Seq<u8>| #![auto] buf@ == header + done && full == done + ring_body(es.skip(i as int), off as int);
            let e = &self.entries[i];
            proof {
                lemma_total_take(es, i as int);
                lemma_total_nonneg(es.skip(i as int));
                lemma_total_nonneg(es.skip(i + 1));
                lemma_total_split(es, i + 1);
                assert(e@ == all[i as int]);
                assert(e@ == es[i as int]);
                assert(log_size(e@) + 7 <= usize::MAX);
                lemma_aligned_nonneg(e@);
            }
            let a = e.aligned_size();
            let end = off + a;
            let prev: u32 = if i + 1 < n { end as u32 } else { 0u32 };
            let ghost before = buf@;
            let mut eb = e.serialize_binary(prev, end as u32);
            proof {
                lemma_entry_bytes_len(e@, prev, end as u32);
            }
            let size = eb.len();
            assert(size <= a);
            buf.append(&mut eb);
            let mut k: usize = size;
            while k < a
                invariant
                    size <= k <= a,
                    buf@ == before + entry_bytes(e@, prev, end as u32) + zeros(k - size),
                decreases a - k,
            {
                buf.push(0u8);
                assert(zeros(k - size).push(0u8) =~= zeros(k + 1 - size));
                k = k + 1;
            }
            proof {
                let rest = es.skip(i as int);
                assert(rest[0] == e@);
                assert(rest.drop_first() =~= es.skip(i + 1));
                assert(rest.len() > 1 <==> i + 1 < es.len());
                let piece = entry_bytes(e@, prev, end as u32) + zeros(a - size);
                assert(ring_body(rest, off as int) == piece + ring_body(es.skip(i + 1), end as int));
                assert(buf@ =~= header + (done + piece));
                assert(full =~= (done + piece) + ring_body(es.skip(i + 1), end as int));
            }
            off = end;
            i = i + 1;
        }
        proof {
            let done = choose|done: Seq<u8>| #![auto] buf@ == header + done && full == done + ring_body(es.skip(i as int), off as int);
            assert(es.skip(i as int).len() == 0);
            assert(full =~= done);
            assert(es.take(i as int) =~= es);
        }
        let ghost body_end = buf@;
        while buf.len() < self.capacity
            invariant
                body_end.len() <= buf@.len() <= self.capacity,
                buf@ == body_end + zeros(buf@.len() - body_end.len()),
            decreases self.capacity - buf@.len(),
        {
            let ghost b0 = buf@;
            buf.push(0u8);
            assert(zeros(b0.len() - body_end.len()).push(0u8) =~= zeros(buf@.len() - body_end.len()));
        }
        assert(buf@ =~= ring_bytes(fitted(self@)));
        buf
    }

    /// Number of entries, newest first, that fit after the header (see `fit_count`).
    fn fitting_count(&self) -> (n: usize)
        requires
            self.wf(),
            8 <= self@.capacity,
        ensures
            n == fit_count(self@.entries, 8, self@.capacity as int),
    {
        let ghost es = self@.entries;
        let mut n: usize = 0;
        let mut off: usize = 8;
        let mut done = false;
        proof {
            assert(es.skip(0) =~= es);
            assert(es.take(0).len() == 0);
        }
        while !done && n < self.entries.len()
            invariant
                self.wf(),
                es == self@.entries,
                n <= es.len(),
                off <= self.capacity,
                fit_count(es, 8, self.capacity as int) == n + fit_count(es.skip(n as int), off as int, self.capacity as int),
                done ==> fit_count(es.skip(n as int), off as int, self.capacity as int) == 0,
            decreases es.len() - n, if done { 0int } else { 1int },
        {
            let e = &self.entries[n];
            proof {
                assert(e@ == es[n as int]);
                assert(log_size(e@) + 7 <= usize::MAX);
                let rest = es.skip(n as int);
                assert(rest[0] == es[n as int]);
                assert(rest.drop_first() =~= es.skip(n + 1));
            }
            let a = e.aligned_size();
            if a > self.capacity - off {
                done = true;
            } else {
                off = off + a;
                n = n + 1;
            }
        }
        proof {
            if !done {
                assert(es.skip(n as int).len() == 0);
            }
        }
        n
    }

    /// Decodes the binary format: entries newest first, read from the header's offset along
    /// the `prev` links.
    pub fn deserialize_binary(data: &[u8]) -> (r: Result<RingBuffer, WireError>)
        requires
            decoded_fits(data@),
        ensures
            match r {
                Ok(b) => b.wf() && ring_from_binary(data@) == Ok::<RingBufferView, WireError>(b@),
                Err(err) => ring_from_binary(data@) == Err::<RingBufferView, WireError>(err),
            },
    {
        if data.len() < 8 {
            return Err(WireError::TooShort);
        }
        let size = read_u32(data, 0) as usize;
        let cpos = read_u32(data, 4) as usize;
        if size != data.len() {
            return Err(WireError::SizeMismatch);
        }
        if cpos == 0 {
            let b = RingBuffer::new(size);
            return Ok(b);
        }
        if cpos < 8 || cpos >= size {
            return Err(WireError::InvalidPosition);
        }
        let ghost d = data@;
        let mut seen: Vec<bool> = Vec::new();
        while seen.len() < size
            invariant
                seen@.len() <= size,
                forall|k: int| 0 <= k < seen@.len() ==> !seen@[k],
            decreases size - seen@.len(),
        {
            seen.push(false);
        }
        let ghost seen0 = seen@;
        assert(seen0 =~= Seq::new(size as nat, |i: int| false));
        let ghost target = walk(d, cpos as int, cpos as int, seen0);
        let mut entries: VecDeque<LogEntry> = VecDeque::new();
        let mut pos: usize = cpos;
        let mut stop = false;
        assert(log_views(entries@) =~= Seq::<LogEntryView>::empty());
        assert(walk_after(Seq::empty(), target) == target) by {
            match target {
                Ok(t) => {
                    assert(Seq::<LogEntryView>::empty() + t =~= t);
                },
                Err(_) => {},
            }
        }
        while !stop && pos != 0 && pos < size && !seen[pos]
            invariant
                seen@.len() == size,
                size == d.len(),
                d == data@,
                8 <= cpos < size,
                size as int == spec_u32_from_le_bytes(d.subrange(0, 4)) as int,
                cpos as int == spec_u32_from_le_bytes(d.subrange(4, 8)) as int,
                target == walk(d, cpos as int, cpos as int, Seq::new(size as nat, |i: int| false)),
                !stop ==> target == walk_after(log_views(entries@), walk(d, pos as int, cpos as int, seen@)),
                stop ==> target == Ok::<Seq<LogEntryView>, WireError>(log_views(entries@)),
            decreases count_false(seen@),
        {
            let ghost s0 = seen@;
            let ghost before = log_views(entries@);
            proof {
                lemma_count_false_update(s0, pos as int);
            }
            seen.set(pos, true);
            let tail = slice_subrange(data, pos, size);
            assert(tail@ =~= d.subrange(pos as int, d.len() as int));
            let res = LogEntry::deserialize_binary(tail);
            match res {
                Err(err) => {
                    assert(parse_entry(d.subrange(pos as int, d.len() as int)) == Err::<(LogEntryView, u32, u32), WireError>(err));
                    assert(walk(d, pos as int, cpos as int, s0) == Err::<Seq<LogEntryView>, WireError>(err));
                    assert(target == Err::<Seq<LogEntryView>, WireError>(err));
                    return Err(err);
                },
                Ok((e, prev, _next)) => {
                    let ghost ev = e@;
                    entries.push_back(e);
                    assert(log_views(entries@) =~= before.push(ev));
                    if pos < prev as usize && prev as usize <= cpos {
                        stop = true;
                        assert(before + seq![ev] =~= before.push(ev));
                    } else {
                        proof {
                            match walk(d, prev as int, cpos as int, seen@) {
                                Ok(rest) => {
                                    assert(before + (seq![ev] + rest) =~= before.push(ev) + rest);
                                },
                                Err(_) => {},
                            }
                        }
                        pos = prev as usize;
                    }
                },
            }
        }
        proof {
            if !stop {
                assert(log_views(entries@) + Seq::<LogEntryView>::empty() =~= log_views(entries@));
            }
        }
        let ghost es = log_views(entries@);
        let mut total: usize = 0;
        let mut i: usize = 0;
        while i < entries.len()
            invariant
                i <= entries@.len(),
                es == log_views(entries@),
                sizes_ok(es),
                total_aligned(es) <= usize::MAX,
                total == total_aligned(es.take(i as int)),
            decreases entries@.len() - i,
        {
            proof {
                lemma_total_take(es, i as int);
                lemma_total_split(es, i + 1);
                lemma_total_nonneg(es.skip(i + 1));
                assert(es[i as int] == entries@[i as int]@);
            }
            total = total + entries[i].aligned_size();
            i = i + 1;
        }
        assert(es.take(i as int) =~= es);
        let mut b = RingBuffer::new(size);
        b.entries = entries;
        b.current_size = total;
        Ok(b)
    }

    /// Whether more than 90% of the capacity is used.
    pub fn is_near_full(&self) -> (r: bool)
        requires
            self.wf(),
            self@.capacity * 9 <= usize::MAX,
        ensures
            r == (total_aligned(self@.entries) > self@.capacity * 9 / 10),
    {
        self.current_size > (self.capacity * 9 / 10)
    }

    /// Whether the buffer holds no entry.
    pub fn is_empty(&self) -> (r: bool)
        ensures
            r == (self@.entries.len() == 0),
    {
        self.entries.len() == 0
    }

    /// Number of entries.
    pub fn len(&self) -> (r: usize)
        ensures
            r == self@.entries.len(),
    {
        self.entries.len()
    }

    /// Capacity in bytes.
    pub fn capacity(&self) -> (r: usize)
        ensures
            r == self@.capacity,
    {
        self.capacity
    }

    /// The entry at position `i` (0 is the newest).
    pub fn entry_at(&self, i: usize) -> (r: &LogEntry)
        requires
            i < self@.entries.len(),
        ensures
            r@ == self@.entries[i as int],
    {
        &self.entries[i]
    }

    /// Copies of the entries, newest first.
    pub fn to_vec(&self) -> (r: Vec<LogEntry>)
        ensures
            log_views(r@) == self@.entries,
    {
        let mut out: Vec<LogEntry> = Vec::new();
        let mut i: usize = 0;
        while i < self.entries.len()
            invariant
                i <= self.entries@.len(),
                log_views(out@) == log_views(self.entries@).take(i as int),
            decreases self.entries@.len() - i,
        {
            let c = self.entries[i].clone();
            let ghost prev = out@;
            out.push(c);
            assert(log_views(out@) =~= log_views(prev).push(c@));
            assert(log_views(self.entries@).take(i + 1) =~= log_views(self.entries@).take(i as int).push(c@));
            i += 1;
        }
        assert(log_views(self.entries@).take(i as int) =~= log_views(self.entries@));
        out
    }
}

impl Default for RingBuffer {
    /// An empty buffer of the default capacity.
    fn default() -> (r: Self)
        ensures
            r.wf(),
            r@ == (RingBufferView { capacity: CLOG_DEFAULT_SIZE, entries: Seq::empty() }),
    {
        RingBuffer::new(CLOG_DEFAULT_SIZE)
    }
}

impl Clone for RingBuffer {
    fn clone(&self) -> (r: Self)
        ensures
            r@ == self@,
            self.wf() ==> r.wf(),
    {
        let mut entries: VecDeque<LogEntry> = VecDeque::new();
        let mut i: usize = 0;
        while i < self.entries.len()
            invariant
                i <= self.entries@.len(),
                log_views(entries@) == log_views(self.entries@).take(i as int),
            decreases self.entries@.len() - i,
        {
            let c = self.entries[i].clone();
            let ghost prev = entries@;
            entries.push_back(c);
            assert(log_views(entries@) =~= log_views(prev).push(c@));
            assert(log_views(self.entries@).take(i + 1) =~= log_views(self.entries@).take(i as int).push(c@));
            i += 1;
        }
        assert(log_views(self.entries@).take(i as int) =~= log_views(self.entries@));
        RingBuffer { capacity: self.capacity, current_size: self.current_size, entries }
    }
}

} // verus!

verus! {

/// The entry format is read from the start of longer data just as from its own bytes.
proof fn lemma_parse_prefix(x: Seq<u8>, e: LogEntryView, prev: u32, next: u32)
    requires
        entry_roundtrips(e),
        x.len() >= entry_len(e),
        x.take(entry_len(e)) == entry_bytes(e, prev, next),
    ensures
        parse_entry(x) == Ok::<(LogEntryView, u32, u32), WireError>((e, prev, next)),
{
    lemma_entry_roundtrip(e, prev, next);
    lemma_entry_bytes_len(e, prev, next);
    let k = entry_len(e);
    let y = x.take(k);
    assert(y.len() >= 48);
    let nl = y[37] as int;
    let il = y[38] as int;
    let tl = y[39] as int;
    assert(x[37] == y[37] && x[38] == y[38] && x[39] == y[39] && x[36] == y[36]);
    assert(x.subrange(40, 44) =~= y.subrange(40, 44));
    let ml = spec_u32_from_le_bytes(y.subrange(40, 44)) as int;
    assert(44 + nl + il + tl + ml <= k);
    assert(x.subrange(0, 4) =~= y.subrange(0, 4));
    assert(x.subrange(4, 8) =~= y.subrange(4, 8));
    assert(x.subrange(8, 12) =~= y.subrange(8, 12));
    assert(x.subrange(12, 16) =~= y.subrange(12, 16));
    assert(x.subrange(16, 24) =~= y.subrange(16, 24));
    assert(x.subrange(24, 32) =~= y.subrange(24, 32));
    assert(x.subrange(32, 36) =~= y.subrange(32, 36));
    assert(x.subrange(44, 44 + nl) =~= y.subrange(44, 44 + nl));
    assert(x.subrange(44 + nl, 44 + nl + il) =~= y.subrange(44 + nl, 44 + nl + il));
    assert(x.subrange(44 + nl + il, 44 + nl + il + tl) =~= y.subrange(44 + nl + il, 44 + nl + il + tl));
    assert(x.subrange(44 + nl + il + tl, 44 + nl + il + tl + ml) =~= y.subrange(
        44 + nl + il + tl,
        44 + nl + il + tl + ml,
    ));
}

/// Walking the laid-out entries from the first one's offset reads them all back.
#[verifier::rlimit(80)]
#[verifier::spinoff_prover]
proof fn lemma_walk_body(d: Seq<u8>, es: Seq<LogEntryView>, off: int, seen: Seq<bool>)
    requires
        es.len() > 0,
        forall|i: int| 0 <= i < es.len() ==> entry_roundtrips(#[trigger] es[i]),
        8 <= off,
        off + total_aligned(es) <= d.len(),
        d.len() == seen.len(),
        d.len() <= u32::MAX,
        d.subrange(off, off + total_aligned(es)) == ring_body(es, off),
        forall|p: int| off <= p < d.len() ==> !#[trigger] seen[p],
    ensures
        walk(d, off, 8, seen) == Ok::<Seq<LogEntryView>, WireError>(es),
    decreases es.len(),
{
    let e = es[0];
    let a = aligned(log_size(e));
    let end = (off + a) as u32;
    let prev = if es.len() > 1 { end } else { 0u32 };
    let rest = es.drop_first();
    lemma_aligned_nonneg(e);
    lemma_total_nonneg(rest);
    lemma_entry_bytes_len(e, prev, end);
    lemma_body_len(rest, off + a);
    assert(total_aligned(es) == a + total_aligned(rest));
    assert(off + a <= u32::MAX);
    assert(end == off + a);
    let tail = d.subrange(off, d.len() as int);
    let body = ring_body(es, off);
    assert(body == entry_bytes(e, prev, end) + zeros(a - entry_len(e)) + ring_body(rest, off + a));
    assert(tail.take(entry_len(e)) =~= body.take(entry_len(e)));
    assert(body.take(entry_len(e)) =~= entry_bytes(e, prev, end));
    assert(entry_roundtrips(es[0]));
    lemma_parse_prefix(tail, e, prev, end);
    let seen2 = seen.update(off, true);
    if es.len() == 1 {
        assert(walk(d, 0, 8, seen2) == Ok::<Seq<LogEntryView>, WireError>(Seq::empty()));
        assert(seq![e] + Seq::<LogEntryView>::empty() =~= es);
    } else {
        assert(d.subrange(off + a, off + a + total_aligned(rest)) =~= body.subrange(a, body.len() as int));
        assert(body.subrange(a, body.len() as int) =~= ring_body(rest, off + a));
        assert forall|i: int| 0 <= i < rest.len() implies entry_roundtrips(#[trigger] rest[i]) by {
            assert(rest[i] == es[i + 1]);
        }
        lemma_walk_body(d, rest, off + a, seen2);
        assert(seq![e] + rest =~= es);
    }
}

/// A ring buffer reads back from its binary format, with the capacity that a new buffer of
/// that size gets, when its entries fit after the header and read back on their own.
pub proof fn lemma_ring_roundtrip(v: RingBufferView)
    requires
        forall|i: int| 0 <= i < v.entries.len() ==> entry_roundtrips(#[trigger] v.entries[i]),
        8 + total_aligned(v.entries) <= v.capacity <= u32::MAX,
    ensures
        ring_from_binary(ring_bytes(v)) == Ok::<RingBufferView, WireError>(
            RingBufferView { capacity: effective_capacity(v.capacity), entries: v.entries },
        ),
{
    crate::wire::lemma_le_roundtrips();
    let es = v.entries;
    let body = ring_body(es, 8);
    lemma_body_len(es, 8);
    lemma_total_nonneg(es);
    let d = ring_bytes(v);
    let cpos: u32 = if es.len() == 0 { 0u32 } else { 8u32 };
    assert(d.len() == v.capacity);
    assert(d.subrange(0, 4) =~= spec_u32_to_le_bytes(v.capacity as u32));
    assert(d.subrange(4, 8) =~= spec_u32_to_le_bytes(cpos));
    assert(v.capacity as u32 == v.capacity);
    if es.len() > 0 {
        lemma_aligned_nonneg(es[0]);
        lemma_total_nonneg(es.drop_first());
        assert(total_aligned(es) >= 48);
        let seen = Seq::new(v.capacity as nat, |i: int| false);
        assert(d.subrange(8, 8 + total_aligned(es)) =~= body);
        lemma_walk_body(d, es, 8, seen);
        let size = spec_u32_from_le_bytes(d.subrange(0, 4)) as int;
        let c = spec_u32_from_le_bytes(d.subrange(4, 8)) as int;
        assert(size == v.capacity);
        assert(c == 8);
        assert(Seq::new(size as nat, |i: int| false) == seen);
        assert(size as usize == v.capacity);
        assert(walk(d, c, c, Seq::new(size as nat, |i: int| false)) == Ok::<Seq<LogEntryView>, WireError>(es));
    } else {
        assert(spec_u32_from_le_bytes(d.subrange(4, 8)) == 0);
        assert(es =~= Seq::<LogEntryView>::empty());
    }
}

/// What fits of a buffer: the newest entries up to the first that does not fit, taking
/// at most the capacity after the header, and the whole buffer when all fit.
pub proof fn lemma_fitted(v: RingBufferView)
    requires
        8 <= v.capacity,
    ensures
        fitted(v).capacity == v.capacity,
        fitted(v).entries.len() <= v.entries.len(),
        fitted(v).entries == v.entries.take(fitted(v).entries.len() as int),
        8 + total_aligned(fitted(v).entries) <= v.capacity,
        8 + total_aligned(v.entries) <= v.capacity ==> fitted(v) == v,
{
    lemma_fit_count(v.entries, 8, v.capacity as int);
    if 8 + total_aligned(v.entries) <= v.capacity {
        lemma_fit_all(v.entries, 8, v.capacity as int);
        assert(v.entries.take(v.entries.len() as int) =~= v.entries);
    }
}

/// The binary format of any buffer reads back as the entries that fit in it, when each
/// entry reads back on its own.
pub proof fn lemma_fitted_roundtrip(v: RingBufferView)
    requires
        forall|i: int| 0 <= i < v.entries.len() ==> entry_roundtrips(#[trigger] v.entries[i]),
        8 <= v.capacity <= u32::MAX,
    ensures
        ring_from_binary(ring_bytes(fitted(v))) == Ok::<RingBufferView, WireError>(
            RingBufferView { capacity: effective_capacity(v.capacity), entries: fitted(v).entries },
        ),
{
    lemma_fitted(v);
    let f = fitted(v);
    assert forall|i: int| 0 <= i < f.entries.len() implies entry_roundtrips(#[trigger] f.entries[i]) by {
        assert(f.entries[i] == v.entries[i]);
    }
    lemma_ring_roundtrip(f);
}

/// Whether an entry has the ident digest `d`.
pub open spec fn ident_is(d: u64) -> spec_fn(LogEntryView) -> bool {
    |e: LogEntryView| e.ident_digest == d
}

proof fn lemma_filter_cons(x: LogEntryView, rest: Seq<LogEntryView>, pred: spec_fn(LogEntryView) -> bool)
    ensures
        (seq![x] + rest).filter(pred) == (if pred(x) { seq![x] + rest.filter(pred) } else { rest.filter(pred) }),
{
    Seq::filter_distributes_over_add(seq![x], rest, pred);
    reveal_with_fuel(Seq::filter, 2);
    assert(seq![x].drop_last() =~= Seq::<LogEntryView>::empty());
    if pred(x) {
        assert(seq![x].filter(pred) =~= seq![x]);
    } else {
        assert(seq![x].filter(pred) =~= Seq::<LogEntryView>::empty());
    }
    assert(Seq::<LogEntryView>::empty() + rest.filter(pred) =~= rest.filter(pred));
}

/// What a dump selects: with an ident filter, the first `max` (or all, when fewer) of the
/// entries with that ident digest, in order; entries of other idents do not count against
/// `max`. Without a filter, the first `max` (or all) entries.
pub proof fn lemma_dump_selects(es: Seq<LogEntryView>, digest: Option<u64>, max: nat)
    ensures
        ({
            let f = match digest {
                Some(d) => es.filter(ident_is(d)),
                None => es,
            };
            dump_select(es, digest, max) == f.take(if max < f.len() { max as int } else { f.len() as int })
        }),
    decreases es.len(),
{
    let f = match digest {
        Some(d) => es.filter(ident_is(d)),
        None => es,
    };
    if es.len() == 0 {
        if let Some(d) = digest {
            reveal_with_fuel(Seq::filter, 1);
        }
        assert(f.len() == 0);
        assert(f.take(0) =~= Seq::<LogEntryView>::empty());
    } else {
        let x = es[0];
        let rest = es.drop_first();
        assert(es =~= seq![x] + rest);
        lemma_dump_selects(rest, digest, max);
        if max > 0 {
            lemma_dump_selects(rest, digest, (max - 1) as nat);
        }
        let fr = match digest {
            Some(d) => rest.filter(ident_is(d)),
            None => rest,
        };
        let keep = match digest {
            Some(d) => ident_is(d)(x),
            None => true,
        };
        if let Some(d) = digest {
            lemma_filter_cons(x, rest, ident_is(d));
        }
        assert(f == (if keep { seq![x] + fr } else { fr }));
        if max == 0 {
            assert(f.take(0) =~= Seq::<LogEntryView>::empty());
        } else if keep {
            let m1 = if (max - 1) < fr.len() { (max - 1) as int } else { fr.len() as int };
            assert(dump_select(es, digest, max) == seq![x] + fr.take(m1));
            assert(seq![x] + fr.take(m1) =~= f.take(if max < f.len() { max as int } else { f.len() as int }));
        } else {
            assert(dump_select(es, digest, max) == dump_select(rest, digest, max));
        }
    }
}

} // verus!
