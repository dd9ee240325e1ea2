//! Database index (inode and digest of every entry) exchanged during state synchronization.

use vstd::prelude::*;
use vstd::bytes::*;
use vstd::slice::slice_subrange;
use vstd::utf8::encode_utf8;
use crate::wire::{WireError, push_u64, push_u32, push_bytes, read_u64, read_u32, lemma_le_roundtrips};
use crate::digest::{ByteOrder, ne_u64, ne_u32, push_ne_u64, push_ne_u32, sha256, sha256_spec, native_byte_order};

verus! {

broadcast use vstd::seq_lib::group_to_multiset_ensures;

/// Size of the index header in bytes.
pub const MEMDB_INDEX_HEADER_SIZE: u32 = 32;

/// Size of one index entry in bytes.
pub const MEMDB_INDEX_ENTRY_SIZE: u32 = 40;

/// Index entry: inode and SHA-256 digest of the entry (40 bytes on the wire).
#[derive(Debug, Clone, Copy, PartialEq, Eq)]
pub struct IndexEntry {
    pub inode: u64,
    pub digest: [u8; 32],
}

/// Mathematical view of an index entry.
pub struct IndexEntryView {
    pub inode: u64,
    pub digest: Seq<u8>,
}

impl View for IndexEntry {
    type V = IndexEntryView;

    open spec fn view(&self) -> IndexEntryView {
        IndexEntryView { inode: self.inode, digest: self.digest@ }
    }
}

/// Wire encoding of an index entry.
pub open spec fn index_entry_bytes(e: IndexEntryView) -> Seq<u8> {
    spec_u64_to_le_bytes(e.inode) + e.digest
}

/// Decoding of the first 40 bytes as an index entry.
pub open spec fn parse_index_entry(b: Seq<u8>) -> Result<IndexEntryView, WireError> {
    if b.len() < 40 {
        Err(WireError::TooShort)
    } else {
        Ok(IndexEntryView { inode: spec_u64_from_le_bytes(b.subrange(0, 8)), digest: b.subrange(8, 40) })
    }
}

/// Copies 32 bytes into a digest array.
pub fn digest_from_slice(b: &[u8]) -> (r: [u8; 32])
    requires
        b@.len() == 32,
    ensures
        r@ == b@,
{
    let r = [
        b[0], b[1], b[2], b[3], b[4], b[5], b[6], b[7], b[8], b[9], b[10], b[11], b[12], b[13], b[14], b[15],
        b[16], b[17], b[18], b[19], b[20], b[21], b[22], b[23], b[24], b[25], b[26], b[27], b[28], b[29], b[30], b[31],
    ];
    assert(r@ =~= b@);
    r
}

impl IndexEntry {
    /// Serialize to the 40-byte wire format.
    pub fn serialize(&self) -> (r: Vec<u8>)
        ensures
            r@ == index_entry_bytes(self@),
    {
        let mut data = Vec::new();
        push_u64(&mut data, self.inode);
        push_bytes(&mut data, &self.digest);
        data
    }

    /// Deserialize from the wire format (extra bytes after the first 40 are ignored).
    pub fn deserialize(data: &[u8]) -> (r: Result<IndexEntry, WireError>)
        ensures
            crate::wire::view_result(r) == parse_index_entry(data@),
    {
        if data.len() < 40 {
            return Err(WireError::TooShort);
        }
        let inode = read_u64(data, 0);
        let digest = digest_from_slice(slice_subrange(data, 8, 40));
        Ok(IndexEntry { inode, digest })
    }
}

/// Database index: header fields and the entries.
#[derive(Debug, Clone, PartialEq, Eq)]
pub struct MemDbIndex {
    pub version: u64,
    pub last_inode: u64,
    pub writer: u32,
    pub mtime: u32,
    /// number of entries
    pub size: u32,
    /// total bytes (header plus 40 per entry)
    pub bytes: u32,
    pub entries: Vec<IndexEntry>,
}

/// Mathematical view of an index.
pub struct MemDbIndexView {
    pub version: u64,
    pub last_inode: u64,
    pub writer: u32,
    pub mtime: u32,
    pub size: u32,
    pub bytes: u32,
    pub entries: Seq<IndexEntryView>,
}

impl View for MemDbIndex {
    type V = MemDbIndexView;

    open spec fn view(&self) -> MemDbIndexView {
        MemDbIndexView {
            version: self.version,
            last_inode: self.last_inode,
            writer: self.writer,
            mtime: self.mtime,
            size: self.size,
            bytes: self.bytes,
            entries: self.entries@.map_values(|e: IndexEntry| e@),
        }
    }
}

/// Entries ordered by inode (not decreasing).
pub open spec fn sorted_by_inode(s: Seq<IndexEntry>) -> bool {
    forall|i: int, j: int| 0 <= i <= j < s.len() ==> s[i].inode <= s[j].inode
}

/// Encoding of a sequence of index entries, one after the other.
pub open spec fn entries_bytes(es: Seq<IndexEntryView>) -> Seq<u8>
    decreases es.len(),
{
    if es.len() == 0 {
        Seq::empty()
    } else {
        entries_bytes(es.drop_last()) + index_entry_bytes(es.last())
    }
}

/// Wire encoding of an index: a 32-byte header then the entries.
pub open spec fn index_bytes(x: MemDbIndexView) -> Seq<u8> {
    spec_u64_to_le_bytes(x.version) + spec_u64_to_le_bytes(x.last_inode) + spec_u32_to_le_bytes(
        x.writer,
    ) + spec_u32_to_le_bytes(x.mtime) + spec_u32_to_le_bytes(x.size) + spec_u32_to_le_bytes(x.bytes)
        + entries_bytes(x.entries)
}

/// The `n` entries stored after the header of `b`.
pub open spec fn parse_entries(b: Seq<u8>, n: nat) -> Seq<IndexEntryView> {
    Seq::new(
        n,
        |i: int|
            IndexEntryView {
                inode: spec_u64_from_le_bytes(b.subrange(32 + 40 * i, 32 + 40 * i + 8)),
                digest: b.subrange(32 + 40 * i + 8, 32 + 40 * i + 40),
            },
    )
}

/// Decoding of the index wire format.
pub open spec fn parse_index(b: Seq<u8>) -> Result<MemDbIndexView, WireError> {
    if b.len() < 32 {
        Err(WireError::TooShort)
    } else {
        let size = spec_u32_from_le_bytes(b.subrange(24, 28));
        let bytes = spec_u32_from_le_bytes(b.subrange(28, 32));
        if bytes != 32 + size * 40 {
            Err(WireError::SizeMismatch)
        } else if b.len() < bytes {
            Err(WireError::TooShort)
        } else {
            Ok(
                MemDbIndexView {
                    version: spec_u64_from_le_bytes(b.subrange(0, 8)),
                    last_inode: spec_u64_from_le_bytes(b.subrange(8, 16)),
                    writer: spec_u32_from_le_bytes(b.subrange(16, 20)),
                    mtime: spec_u32_from_le_bytes(b.subrange(20, 24)),
                    size,
                    bytes,
                    entries: parse_entries(b, size as nat),
                },
            )
        }
    }
}

/// The inodes of `master` that the merge walk over `other` reports as differing:
/// for each master entry the slave position advances to the first entry whose
/// inode is not below the master inode; the entry matches only if that slave
/// entry has the same inode and digest.
pub open spec fn walk_differences(master: Seq<IndexEntry>, other: Seq<IndexEntry>, j: int) -> Seq<u64>
    decreases master.len(),
{
    if master.len() == 0 {
        Seq::empty()
    } else {
        let m = master[0];
        let j2 = advance(other, j, m.inode);
        let rest = walk_differences(master.drop_first(), other, j2);
        if j2 < other.len() && other[j2].inode == m.inode && other[j2].digest@ == m.digest@ {
            rest
        } else {
            seq![m.inode] + rest
        }
    }
}

/// First position at or after `j` whose inode is not below `inode` (or the end).
pub open spec fn advance(other: Seq<IndexEntry>, j: int, inode: u64) -> int
    decreases other.len() - j,
{
    if j < 0 || j >= other.len() {
        if j < 0 { 0 } else { j }
    } else if other[j].inode < inode {
        advance(other, j + 1, inode)
    } else {
        j
    }
}

/// Bytes hashed for an index digest: version, writer, mtime, size (32 bits), type, parent,
/// name and, for a regular file of non-zero size, the data. The inode is not part of it.
pub open spec fn entry_digest_input(
    o: ByteOrder,
    parent: u64,
    version: u64,
    writer: u32,
    mtime: u32,
    size: usize,
    entry_type: u8,
    name: Seq<char>,
    data: Seq<u8>,
) -> Seq<u8> {
    ne_u64(o, version) + ne_u32(o, writer) + ne_u32(o, mtime) + ne_u32(o, size as u32) + seq![entry_type]
        + ne_u64(o, parent) + encode_utf8(name) + (if entry_type == 8 && size > 0 {
        data
    } else {
        Seq::<u8>::empty()
    })
}

impl MemDbIndex {
    /// Create a new index from entries, sorted by inode; entries with equal inodes keep
    /// their order.
    pub fn new(version: u64, last_inode: u64, writer: u32, mtime: u32, entries: Vec<IndexEntry>) -> (r: MemDbIndex)
        requires
            entries@.len() <= 107374181,
        ensures
            r.version == version,
            r.last_inode == last_inode,
            r.writer == writer,
            r.mtime == mtime,
            r.size == entries@.len(),
            r.bytes == 32 + 40 * entries@.len(),
            sorted_by_inode(r.entries@),
            r.entries@.to_multiset() == entries@.to_multiset(),
            exists|p: Seq<int>| stable_sort_witness(r.entries@, entries@, p),
    {
        let sorted = sort_by_inode(entries);
        let size = sorted.len() as u32;
        let bytes = MEMDB_INDEX_HEADER_SIZE + size * MEMDB_INDEX_ENTRY_SIZE;
        MemDbIndex { version, last_inode, writer, mtime, size, bytes, entries: sorted }
    }

    /// Digest of an entry for the index, integers in byte order `o`.
    pub fn compute_entry_digest_in(
        o: ByteOrder,
        parent: u64,
        version: u64,
        writer: u32,
        mtime: u32,
        size: usize,
        entry_type: u8,
        name: &str,
        data: &[u8],
    ) -> (r: [u8; 32])
        ensures
            r@ == sha256_spec(entry_digest_input(o, parent, version, writer, mtime, size, entry_type, name@, data@)),
    {
        let mut buf: Vec<u8> = Vec::new();
        push_ne_u64(&mut buf, version, o);
        push_ne_u32(&mut buf, writer, o);
        push_ne_u32(&mut buf, mtime, o);
        push_ne_u32(&mut buf, size as u32, o);
        buf.push(entry_type);
        push_ne_u64(&mut buf, parent, o);
        push_bytes(&mut buf, name.as_bytes());
        if entry_type == 8 && size > 0 {
            push_bytes(&mut buf, data);
        }
        assert(buf@ =~= entry_digest_input(o, parent, version, writer, mtime, size, entry_type, name@, data@));
        sha256(buf.as_slice())
    }

    /// Digest of an entry for the index, integers in the byte order of this machine;
    /// the inode is not hashed.
    pub fn compute_entry_digest(
        inode: u64,
        parent: u64,
        version: u64,
        writer: u32,
        mtime: u32,
        size: usize,
        entry_type: u8,
        name: &str,
        data: &[u8],
    ) -> (r: [u8; 32])
        ensures
            exists|o: ByteOrder| r@ == sha256_spec(entry_digest_input(o, parent, version, writer, mtime, size, entry_type, name@, data@)),
    {
        Self::compute_entry_digest_in(native_byte_order(), parent, version, writer, mtime, size, entry_type, name, data)
    }

    /// Serialize to the wire format.
    pub fn serialize(&self) -> (r: Vec<u8>)
        ensures
            r@ == index_bytes(self@),
    {
        let mut data = Vec::new();
        push_u64(&mut data, self.version);
        push_u64(&mut data, self.last_inode);
        push_u32(&mut data, self.writer);
        push_u32(&mut data, self.mtime);
        push_u32(&mut data, self.size);
        push_u32(&mut data, self.bytes);
        let ghost head = data@;
        let mut i: usize = 0;
        while i < self.entries.len()
            invariant
                i <= self.entries@.len(),
                data@ == head + entries_bytes(self@.entries.subrange(0, i as int)),
            decreases self.entries@.len() - i,
        {
            let mut b = self.entries[i].serialize();
            data.append(&mut b);
            proof {
                let es = self@.entries.subrange(0, i + 1);
                assert(es.drop_last() =~= self@.entries.subrange(0, i as int));
            }
            i += 1;
        }
        assert(self@.entries.subrange(0, self.entries@.len() as int) =~= self@.entries);
        data
    }

    /// Deserialize from the wire format.
    pub fn deserialize(data: &[u8]) -> (r: Result<MemDbIndex, WireError>)
        ensures
            crate::wire::view_result(r) == parse_index(data@),
    {
        if data.len() < 32 {
            return Err(WireError::TooShort);
        }
        let version = read_u64(data, 0);
        let last_inode = read_u64(data, 8);
        let writer = read_u32(data, 16);
        let mtime = read_u32(data, 20);
        let size = read_u32(data, 24);
        let bytes = read_u32(data, 28);
        if (bytes as u64) != 32 + (size as u64) * 40 {
            return Err(WireError::SizeMismatch);
        }
        if data.len() < bytes as usize {
            return Err(WireError::TooShort);
        }
        let mut entries: Vec<IndexEntry> = Vec::new();
        let mut k: usize = 0;
        let n = data.len();
        while k < size as usize
            invariant
                n == data@.len(),
                k <= size,
                32 + 40 * (size as int) <= data@.len(),
                entries@.len() == k,
                forall|i: int| 0 <= i < k ==> #[trigger] entries@[i]@ == parse_entries(data@, size as nat)[i],
            decreases size - k,
        {
            let off = 32 + 40 * k;
            let inode = read_u64(data, off);
            let digest = digest_from_slice(slice_subrange(data, off + 8, off + 40));
            entries.push(IndexEntry { inode, digest });
            k += 1;
        }
        let r = MemDbIndex { version, last_inode, writer, mtime, size, bytes, entries };
        assert(r@.entries =~= parse_entries(data@, size as nat));
        Ok(r)
    }

    /// Inodes of this (master) index whose entries are missing or different in `other`.
    pub fn find_differences(&self, other: &MemDbIndex) -> (r: Vec<u64>)
        ensures
            r@ == walk_differences(self.entries@, other.entries@, 0),
    {
        let mut differences: Vec<u64> = Vec::new();
        let mut j: usize = 0;
        let mut i: usize = 0;
        assert(self.entries@.subrange(0, self.entries@.len() as int) =~= self.entries@);
        assert(differences@ + walk_differences(self.entries@, other.entries@, 0) =~= walk_differences(self.entries@, other.entries@, 0));
        while i < self.entries.len()
            invariant
                i <= self.entries@.len(),
                j <= other.entries@.len(),
                differences@ + walk_differences(self.entries@.subrange(i as int, self.entries@.len() as int), other.entries@, j as int)
                    == walk_differences(self.entries@, other.entries@, 0),
            decreases self.entries@.len() - i,
        {
            let ghost rest = self.entries@.subrange(i as int, self.entries@.len() as int);
            let inode = self.entries[i].inode;
            let ghost j0 = j as int;
            while j < other.entries.len() && other.entries[j].inode < inode
                invariant
                    j0 <= j <= other.entries@.len(),
                    advance(other.entries@, j0, inode) == advance(other.entries@, j as int, inode),
                decreases other.entries@.len() - j,
            {
                j += 1;
            }
            assert(advance(other.entries@, j as int, inode) == j);
            assert(rest.drop_first() =~= self.entries@.subrange(i + 1, self.entries@.len() as int));
            let mut matched = false;
            if j < other.entries.len() {
                if other.entries[j].inode == inode && digest_eq(&other.entries[j].digest, &self.entries[i].digest) {
                    matched = true;
                }
            }
            if !matched {
                proof {
                    let w = walk_differences(rest.drop_first(), other.entries@, j as int);
                    assert(differences@.push(inode) + w =~= differences@ + (seq![inode] + w));
                }
                differences.push(inode);
            }
            i += 1;
        }
        assert(self.entries@.subrange(self.entries@.len() as int, self.entries@.len() as int) =~= Seq::<IndexEntry>::empty());
        assert(differences@ + Seq::<u64>::empty() =~= differences@);
        differences
    }
}

/// Byte-wise comparison of two digests.
pub fn digest_eq(a: &[u8; 32], b: &[u8; 32]) -> (r: bool)
    ensures
        r == (a@ == b@),
{
    let mut i: usize = 0;
    while i < 32
        invariant
            i <= 32,
            a@.len() == 32,
            b@.len() == 32,
            forall|k: int| 0 <= k < i ==> a@[k] == b@[k],
        decreases 32 - i,
    {
        if a[i] != b[i] {
            return false;
        }
        i += 1;
    }
    assert(a@ =~= b@);
    true
}

/// `p` takes each position of `r` to a distinct position of `s` holding the same entry,
/// and entries of `r` with equal inodes come from positions of `s` in the same order:
/// with `r` sorted by inode, `r` is `s` sorted by a stable sort.
pub open spec fn stable_sort_witness(r: Seq<IndexEntry>, s: Seq<IndexEntry>, p: Seq<int>) -> bool {
    &&& r.len() == s.len()
    &&& p.len() == s.len()
    &&& forall|i: int| 0 <= i < r.len() ==> 0 <= #[trigger] p[i] < s.len() && r[i] == s[p[i]]
    &&& forall|i: int, j: int| 0 <= i < j < r.len() ==> #[trigger] p[i] != #[trigger] p[j]
    &&& forall|i: int, j: int|
        #![trigger p[i], p[j]]
        0 <= i < j < r.len() && r[i].inode == r[j].inode ==> p[i] < p[j]
}

/// Stable insertion sort of index entries by inode.
pub fn sort_by_inode(entries: Vec<IndexEntry>) -> (r: Vec<IndexEntry>)
    ensures
        sorted_by_inode(r@),
        r@.to_multiset() == entries@.to_multiset(),
        r@.len() == entries@.len(),
        exists|p: Seq<int>| stable_sort_witness(r@, entries@, p),
{
    let mut out: Vec<IndexEntry> = Vec::new();
    let ghost mut perm: Seq<int> = Seq::empty();
    let mut i: usize = 0;
    while i < entries.len()
        invariant
            i <= entries@.len(),
            sorted_by_inode(out@),
            out@.to_multiset() == entries@.subrange(0, i as int).to_multiset(),
            out@.len() == i,
            perm.len() == i,
            forall|a: int| 0 <= a < i ==> 0 <= #[trigger] perm[a] < i && out@[a] == entries@[perm[a]],
            forall|a: int, b: int| 0 <= a < b < i ==> #[trigger] perm[a] != #[trigger] perm[b],
            forall|a: int, b: int|
                #![trigger perm[a], perm[b]]
                0 <= a < b < i && out@[a].inode == out@[b].inode ==> perm[a] < perm[b],
        decreases entries@.len() - i,
    {
        let x = entries[i];
        let mut pos: usize = out.len();
        while pos > 0 && out[pos - 1].inode > x.inode
            invariant
                pos <= out@.len(),
                forall|k: int| pos <= k < out@.len() ==> out@[k].inode > x.inode,
            decreases pos,
        {
            pos -= 1;
        }
        let ghost before = out@;
        let ghost pb = perm;
        out.insert(pos, x);
        proof {
            perm = pb.insert(pos as int, i as int);
            vstd::seq_lib::to_multiset_insert(before, pos as int, x);
            assert(entries@.subrange(0, i + 1) =~= entries@.subrange(0, i as int).push(x));
            assert forall|a: int, b: int| 0 <= a <= b < out@.len() implies out@[a].inode <= out@[b].inode by {
                if a < pos && b > pos {
                    assert(out@[a] == before[a]);
                    assert(out@[b] == before[b - 1]);
                }
            }
            assert forall|a: int| 0 <= a < i + 1 implies 0 <= #[trigger] perm[a] < i + 1 && out@[a] == entries@[perm[a]] by {
                if a < pos {
                    assert(perm[a] == pb[a]);
                } else if a > pos {
                    assert(perm[a] == pb[a - 1]);
                }
            }
            assert forall|a: int, b: int| 0 <= a < b < i + 1 implies #[trigger] perm[a] != #[trigger] perm[b] by {
                if a < pos {
                    assert(perm[a] == pb[a]);
                } else if a > pos {
                    assert(perm[a] == pb[a - 1]);
                }
                if b < pos {
                    assert(perm[b] == pb[b]);
                } else if b > pos {
                    assert(perm[b] == pb[b - 1]);
                }
            }
            assert forall|a: int, b: int|
                #![trigger perm[a], perm[b]]
                0 <= a < b < i + 1 && out@[a].inode == out@[b].inode implies perm[a] < perm[b] by {
                if a == pos {
                    assert(out@[b] == before[b - 1]);
                } else if b == pos {
                    assert(perm[a] == pb[a]);
                } else if b < pos {
                    assert(perm[a] == pb[a] && perm[b] == pb[b]);
                    assert(out@[a] == before[a] && out@[b] == before[b]);
                } else if a < pos {
                    assert(perm[a] == pb[a] && perm[b] == pb[b - 1]);
                    assert(out@[a] == before[a] && out@[b] == before[b - 1]);
                } else {
                    assert(perm[a] == pb[a - 1] && perm[b] == pb[b - 1]);
                    assert(out@[a] == before[a - 1] && out@[b] == before[b - 1]);
                }
            }
        }
        i += 1;
    }
    assert(entries@.subrange(0, entries@.len() as int) =~= entries@);
    assert(stable_sort_witness(out@, entries@, perm));
    out
}

/// Decoding the encoding of an index gives it back when its header is consistent.
pub proof fn lemma_index_roundtrip(x: MemDbIndexView)
    requires
        x.size == x.entries.len(),
        x.bytes == 32 + 40 * x.size,
        forall|i: int| 0 <= i < x.entries.len() ==> #[trigger] x.entries[i].digest.len() == 32,
    ensures
        parse_index(index_bytes(x)) == Ok::<MemDbIndexView, WireError>(x),
{
    lemma_le_roundtrips();
    let b = index_bytes(x);
    let head = spec_u64_to_le_bytes(x.version) + spec_u64_to_le_bytes(x.last_inode) + spec_u32_to_le_bytes(
        x.writer,
    ) + spec_u32_to_le_bytes(x.mtime) + spec_u32_to_le_bytes(x.size) + spec_u32_to_le_bytes(x.bytes);
    assert(head.len() == 32);
    assert(b =~= head + entries_bytes(x.entries));
    lemma_entries_bytes_layout(x.entries);
    assert(b.subrange(0, 8) =~= spec_u64_to_le_bytes(x.version));
    assert(b.subrange(8, 16) =~= spec_u64_to_le_bytes(x.last_inode));
    assert(b.subrange(16, 20) =~= spec_u32_to_le_bytes(x.writer));
    assert(b.subrange(20, 24) =~= spec_u32_to_le_bytes(x.mtime));
    assert(b.subrange(24, 28) =~= spec_u32_to_le_bytes(x.size));
    assert(b.subrange(28, 32) =~= spec_u32_to_le_bytes(x.bytes));
    let p = parse_entries(b, x.size as nat);
    assert forall|i: int| 0 <= i < x.entries.len() implies p[i] == x.entries[i] by {
        let eb = entries_bytes(x.entries);
        assert(b.subrange(32 + 40 * i, 32 + 40 * i + 8) =~= eb.subrange(40 * i, 40 * i + 8));
        assert(b.subrange(32 + 40 * i + 8, 32 + 40 * i + 40) =~= eb.subrange(40 * i + 8, 40 * i + 40));
    }
    assert(p =~= x.entries);
}

/// Layout of encoded entries: entry `i` occupies bytes `40 i` to `40 i + 40`.
pub proof fn lemma_entries_bytes_layout(es: Seq<IndexEntryView>)
    requires
        forall|i: int| 0 <= i < es.len() ==> #[trigger] es[i].digest.len() == 32,
    ensures
        entries_bytes(es).len() == 40 * es.len(),
        forall|i: int|
            0 <= i < es.len() ==> {
                &&& spec_u64_from_le_bytes(#[trigger] entries_bytes(es).subrange(40 * i, 40 * i + 8)) == es[i].inode
                &&& entries_bytes(es).subrange(40 * i + 8, 40 * i + 40) =~= es[i].digest
            },
    decreases es.len(),
{
    lemma_le_roundtrips();
    if es.len() > 0 {
        let init = es.drop_last();
        assert forall|i: int| 0 <= i < init.len() implies #[trigger] init[i].digest.len() == 32 by {
            assert(init[i] == es[i]);
        }
        lemma_entries_bytes_layout(init);
        let a = entries_bytes(init);
        let e = es.last();
        assert(e == es[es.len() - 1]);
        assert(e.digest.len() == 32);
        let t = index_entry_bytes(e);
        assert(t.len() == 40);
        assert(entries_bytes(es) == a + t);
        assert forall|i: int| 0 <= i < es.len() implies {
            &&& spec_u64_from_le_bytes(#[trigger] entries_bytes(es).subrange(40 * i, 40 * i + 8)) == es[i].inode
            &&& entries_bytes(es).subrange(40 * i + 8, 40 * i + 40) =~= es[i].digest
        } by {
            if i < init.len() {
                assert((a + t).subrange(40 * i, 40 * i + 8) =~= a.subrange(40 * i, 40 * i + 8));
                assert((a + t).subrange(40 * i + 8, 40 * i + 40) =~= a.subrange(40 * i + 8, 40 * i + 40));
                assert(init[i] == es[i]);
            } else {
                assert((a + t).subrange(40 * i, 40 * i + 8) =~= spec_u64_to_le_bytes(e.inode));
                assert((a + t).subrange(40 * i + 8, 40 * i + 40) =~= e.digest);
            }
        }
    }
}

} // verus!

verus! {

/// Entries ordered by strictly increasing inode (no inode twice).
pub open spec fn strictly_sorted_by_inode(s: Seq<IndexEntry>) -> bool {
    forall|i: int, j: int| 0 <= i < j < s.len() ==> s[i].inode < s[j].inode
}

/// Whether `other` holds an entry with the inode and digest of `m`.
pub open spec fn has_same_entry(other: Seq<IndexEntry>, m: IndexEntry) -> bool {
    exists|k: int| 0 <= k < other.len() && other[k].inode == m.inode && other[k].digest@ == m.digest@
}

/// Inodes of the entries of `master`, in order, for which `other` holds no entry with
/// the same inode and digest.
pub open spec fn missing_or_changed(master: Seq<IndexEntry>, other: Seq<IndexEntry>) -> Seq<u64>
    decreases master.len(),
{
    if master.len() == 0 {
        Seq::empty()
    } else {
        let rest = missing_or_changed(master.drop_first(), other);
        if has_same_entry(other, master[0]) {
            rest
        } else {
            seq![master[0].inode] + rest
        }
    }
}

proof fn lemma_advance(other: Seq<IndexEntry>, j: int, inode: u64)
    requires
        0 <= j <= other.len(),
    ensures
        j <= advance(other, j, inode) <= other.len(),
        forall|k: int| j <= k < advance(other, j, inode) ==> other[k].inode < inode,
        advance(other, j, inode) < other.len() ==> other[advance(other, j, inode)].inode >= inode,
    decreases other.len() - j,
{
    if j < other.len() && other[j].inode < inode {
        lemma_advance(other, j + 1, inode);
    }
}

proof fn lemma_walk_differences(master: Seq<IndexEntry>, other: Seq<IndexEntry>, j: int)
    requires
        sorted_by_inode(master),
        strictly_sorted_by_inode(other),
        0 <= j <= other.len(),
        master.len() > 0 ==> forall|k: int| 0 <= k < j ==> other[k].inode < master[0].inode,
    ensures
        walk_differences(master, other, j) == missing_or_changed(master, other),
    decreases master.len(),
{
    if master.len() > 0 {
        let m = master[0];
        let j2 = advance(other, j, m.inode);
        lemma_advance(other, j, m.inode);
        let hit = j2 < other.len() && other[j2].inode == m.inode && other[j2].digest@ == m.digest@;
        assert(has_same_entry(other, m) == hit) by {
            if has_same_entry(other, m) {
                let k = choose|k: int| 0 <= k < other.len() && other[k].inode == m.inode && other[k].digest@ == m.digest@;
                assert(k >= j2);
                if k > j2 {
                    assert(other[j2].inode < other[k].inode);
                }
            }
        }
        let rest = master.drop_first();
        if rest.len() > 0 {
            assert(rest[0].inode >= m.inode);
            assert forall|k: int| 0 <= k < j2 implies other[k].inode < rest[0].inode by {
                if k >= j {
                } else {
                }
            }
        }
        lemma_walk_differences(rest, other, j2);
    }
}

/// The differences found against another index are exactly the inodes of this index's
/// entries, in order, that the other index lacks or holds with a different digest.
pub proof fn lemma_find_differences_exact(master: Seq<IndexEntry>, other: Seq<IndexEntry>)
    requires
        sorted_by_inode(master),
        strictly_sorted_by_inode(other),
    ensures
        walk_differences(master, other, 0) == missing_or_changed(master, other),
{
    lemma_walk_differences(master, other, 0);
}

/// The native representation of a `u64` takes 8 bytes and tells the number.
proof fn lemma_ne_u64(o: ByteOrder, x: u64, y: u64)
    ensures
        ne_u64(o, x).len() == 8,
        ne_u64(o, x) == ne_u64(o, y) ==> x == y,
{
    lemma_le_roundtrips();
    if ne_u64(o, x) == ne_u64(o, y) {
        if o == ByteOrder::Big {
            assert(spec_u64_to_le_bytes(x) =~= ne_u64(o, x).reverse());
            assert(spec_u64_to_le_bytes(y) =~= ne_u64(o, y).reverse());
        }
        assert(spec_u64_to_le_bytes(x) == spec_u64_to_le_bytes(y));
        vstd::bytes::lemma_auto_spec_u64_to_from_le_bytes();
        assert(spec_u64_from_le_bytes(spec_u64_to_le_bytes(x)) == x);
        assert(spec_u64_from_le_bytes(spec_u64_to_le_bytes(y)) == y);
    }
}

/// The native representation of a `u32` takes 4 bytes and tells the number.
proof fn lemma_ne_u32(o: ByteOrder, x: u32, y: u32)
    ensures
        ne_u32(o, x).len() == 4,
        ne_u32(o, x) == ne_u32(o, y) ==> x == y,
{
    lemma_le_roundtrips();
    if ne_u32(o, x) == ne_u32(o, y) {
        if o == ByteOrder::Big {
            assert(spec_u32_to_le_bytes(x) =~= ne_u32(o, x).reverse());
            assert(spec_u32_to_le_bytes(y) =~= ne_u32(o, y).reverse());
        }
        assert(spec_u32_to_le_bytes(x) == spec_u32_to_le_bytes(y));
        vstd::bytes::lemma_auto_spec_u32_to_from_le_bytes();
        assert(spec_u32_to_le_bytes(x).len() == 4);
        assert(spec_u32_to_le_bytes(y).len() == 4);
        assert(spec_u32_from_le_bytes(spec_u32_to_le_bytes(x)) == x);
        assert(spec_u32_from_le_bytes(spec_u32_to_le_bytes(y)) == y);
    }
}

/// Layout of the bytes hashed for an entry's index digest: the version in bytes 0 to 8,
/// the writer in 8 to 12, the mtime in 12 to 16, the size (32 bits) in 16 to 20, all in
/// byte order `o`, the type at 20, the parent in 21 to 29, then the name's bytes and, for a
/// regular file of non-zero size, its data.
pub proof fn lemma_entry_digest_layout(
    o: ByteOrder,
    parent: u64,
    version: u64,
    writer: u32,
    mtime: u32,
    size: usize,
    entry_type: u8,
    name: Seq<char>,
    data: Seq<u8>,
)
    ensures
        ({
            let b = entry_digest_input(o, parent, version, writer, mtime, size, entry_type, name, data);
            let n = encode_utf8(name).len() as int;
            &&& b.subrange(0, 8) == ne_u64(o, version)
            &&& b.subrange(8, 12) == ne_u32(o, writer)
            &&& b.subrange(12, 16) == ne_u32(o, mtime)
            &&& b.subrange(16, 20) == ne_u32(o, size as u32)
            &&& b[20] == entry_type
            &&& b.subrange(21, 29) == ne_u64(o, parent)
            &&& b.subrange(29, 29 + n) == encode_utf8(name)
            &&& b.skip(29 + n) == (if entry_type == 8 && size > 0 { data } else { Seq::<u8>::empty() })
        }),
{
    lemma_ne_u64(o, version, version);
    lemma_ne_u64(o, parent, parent);
    lemma_ne_u32(o, writer, writer);
    lemma_ne_u32(o, mtime, mtime);
    lemma_ne_u32(o, size as u32, size as u32);
    let b = entry_digest_input(o, parent, version, writer, mtime, size, entry_type, name, data);
    let n = encode_utf8(name).len() as int;
    let tail = if entry_type == 8 && size > 0 { data } else { Seq::<u8>::empty() };
    assert(b == ne_u64(o, version) + ne_u32(o, writer) + ne_u32(o, mtime) + ne_u32(o, size as u32) + seq![entry_type]
        + ne_u64(o, parent) + encode_utf8(name) + tail);
    assert(b.subrange(0, 8) =~= ne_u64(o, version));
    assert(b.subrange(8, 12) =~= ne_u32(o, writer));
    assert(b.subrange(12, 16) =~= ne_u32(o, mtime));
    assert(b.subrange(16, 20) =~= ne_u32(o, size as u32));
    assert(b.subrange(21, 29) =~= ne_u64(o, parent));
    assert(b.subrange(29, 29 + n) =~= encode_utf8(name));
    assert(b.skip(29 + n) =~= tail);
}

/// The bytes hashed for an index digest tell the version, writer, mtime, size (32 bits),
/// type and parent of the entry: entries that differ in any of them, in particular only
/// in mtime, hash different bytes.
pub proof fn lemma_entry_digest_input_fields(
    o: ByteOrder,
    parent: u64,
    version: u64,
    writer: u32,
    mtime: u32,
    size: usize,
    entry_type: u8,
    name: Seq<char>,
    data: Seq<u8>,
    parent2: u64,
    version2: u64,
    writer2: u32,
    mtime2: u32,
    size2: usize,
    entry_type2: u8,
    name2: Seq<char>,
    data2: Seq<u8>,
)
    requires
        entry_digest_input(o, parent, version, writer, mtime, size, entry_type, name, data) == entry_digest_input(
            o,
            parent2,
            version2,
            writer2,
            mtime2,
            size2,
            entry_type2,
            name2,
            data2,
        ),
    ensures
        version == version2,
        writer == writer2,
        mtime == mtime2,
        size as u32 == size2 as u32,
        entry_type == entry_type2,
        parent == parent2,
{
    lemma_entry_digest_layout(o, parent, version, writer, mtime, size, entry_type, name, data);
    lemma_entry_digest_layout(o, parent2, version2, writer2, mtime2, size2, entry_type2, name2, data2);
    lemma_ne_u64(o, version, version2);
    lemma_ne_u64(o, parent, parent2);
    lemma_ne_u32(o, writer, writer2);
    lemma_ne_u32(o, mtime, mtime2);
    lemma_ne_u32(o, size as u32, size2 as u32);
}

} // verus!
