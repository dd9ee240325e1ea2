//! Tree entries of the configuration database and their update wire format.

use vstd::prelude::*;
use vstd::bytes::*;
use vstd::utf8::*;
use crate::wire::{
    WireError, push_u64, push_u32, push_bytes, read_u64, read_u32, copy_range, len_field,
    lemma_le_roundtrips,
};
use crate::text::{string_from_utf8, lemma_utf8_roundtrip};
use crate::digest::{ByteOrder, ne_u64, ne_u32, push_ne_u64, push_ne_u32, sha256, sha256_spec, native_byte_order};

verus! {

/// Maximum size of a single file.
pub const MEMDB_MAX_FILE_SIZE: usize = 1048576;

/// Maximum total size of all files.
pub const MEMDB_MAX_FSSIZE: usize = 134217728;

/// Maximum number of inodes.
pub const MEMDB_MAX_INODES: usize = 262144;

/// Lock timeout in seconds.
pub const LOCK_TIMEOUT: u64 = 120;

/// Directory entry type.
pub const DT_DIR: u8 = 4;

/// Regular file entry type.
pub const DT_REG: u8 = 8;

/// Root inode number of the database.
pub const ROOT_INODE: u64 = 0;

/// Name under which the root metadata is stored.
pub const VERSION_FILENAME: &'static str = "__version__";

/// Lock directory path (where cluster resource locks are stored).
pub const LOCK_DIR_PATH: &'static str = "priv/lock";

/// Tree entry representing a file or directory.
#[derive(Debug)]
pub struct TreeEntry {
    pub inode: u64,
    pub parent: u64,
    pub version: u64,
    pub writer: u32,
    pub mtime: u32,
    pub size: usize,
    /// `DT_DIR` or `DT_REG`
    pub entry_type: u8,
    pub name: String,
    /// File data (empty for directories)
    pub data: Vec<u8>,
}

/// Mathematical view of a tree entry.
pub struct TreeEntryView {
    pub inode: u64,
    pub parent: u64,
    pub version: u64,
    pub writer: u32,
    pub mtime: u32,
    pub size: usize,
    pub entry_type: u8,
    pub name: Seq<char>,
    pub data: Seq<u8>,
}

impl View for TreeEntry {
    type V = TreeEntryView;

    open spec fn view(&self) -> TreeEntryView {
        TreeEntryView {
            inode: self.inode,
            parent: self.parent,
            version: self.version,
            writer: self.writer,
            mtime: self.mtime,
            size: self.size,
            entry_type: self.entry_type,
            name: self.name@,
            data: self.data@,
        }
    }
}

impl Clone for TreeEntry {
    fn clone(&self) -> (r: Self)
        ensures
            r@ == self@,
    {
        TreeEntry {
            inode: self.inode,
            parent: self.parent,
            version: self.version,
            writer: self.writer,
            mtime: self.mtime,
            size: self.size,
            entry_type: self.entry_type,
            name: self.name.clone(),
            data: self.data.clone(),
        }
    }
}

/// Update wire format of an entry:
/// `[parent: u64][inode: u64][version: u64][writer: u32][mtime: u32][size: u32][namelen: u32][type: u8][name + NUL][data]`,
/// where the data is present only for regular files with data.
pub open spec fn update_bytes(e: TreeEntryView) -> Seq<u8> {
    spec_u64_to_le_bytes(e.parent) + spec_u64_to_le_bytes(e.inode) + spec_u64_to_le_bytes(e.version)
        + spec_u32_to_le_bytes(e.writer) + spec_u32_to_le_bytes(e.mtime) + spec_u32_to_le_bytes(
        e.size as u32,
    ) + spec_u32_to_le_bytes((encode_utf8(e.name).len() + 1) as u32) + seq![e.entry_type]
        + encode_utf8(e.name) + seq![0u8] + (if e.entry_type == DT_REG && e.data.len() > 0 {
        e.data
    } else {
        Seq::<u8>::empty()
    })
}

/// Bytes hashed for an entry's checksum: inode, version, writer, mtime, size (32 bits),
/// type, parent, name and, when present, the data.
pub open spec fn checksum_input(o: ByteOrder, e: TreeEntryView) -> Seq<u8> {
    ne_u64(o, e.inode) + ne_u64(o, e.version) + ne_u32(o, e.writer) + ne_u32(o, e.mtime) + ne_u32(
        o,
        e.size as u32,
    ) + seq![e.entry_type] + ne_u64(o, e.parent) + encode_utf8(e.name) + (if e.data.len() > 0 {
        e.data
    } else {
        Seq::<u8>::empty()
    })
}

/// Decoding of the update wire format.
pub open spec fn parse_update(b: Seq<u8>) -> Result<TreeEntryView, WireError> {
    if b.len() < 41 {
        Err(WireError::TooShort)
    } else {
        let parent = spec_u64_from_le_bytes(b.subrange(0, 8));
        let inode = spec_u64_from_le_bytes(b.subrange(8, 16));
        let version = spec_u64_from_le_bytes(b.subrange(16, 24));
        let writer = spec_u32_from_le_bytes(b.subrange(24, 28));
        let mtime = spec_u32_from_le_bytes(b.subrange(28, 32));
        let size = spec_u32_from_le_bytes(b.subrange(32, 36));
        let namelen = spec_u32_from_le_bytes(b.subrange(36, 40));
        let entry_type = b[40];
        if entry_type != DT_REG && entry_type != DT_DIR {
            Err(WireError::InvalidEntryType(entry_type))
        } else if b.len() < 41 + namelen + size {
            Err(WireError::TooShort)
        } else if namelen == 0 || b[41 + namelen - 1] != 0 {
            Err(WireError::NameNotNullTerminated)
        } else if !valid_utf8(b.subrange(41, 41 + namelen - 1)) {
            Err(WireError::InvalidUtf8)
        } else {
            Ok(
                TreeEntryView {
                    inode,
                    parent,
                    version,
                    writer,
                    mtime,
                    size: size as usize,
                    entry_type,
                    name: decode_utf8(b.subrange(41, 41 + namelen - 1)),
                    data: if entry_type == DT_REG && size > 0 {
                        b.subrange(41 + namelen, 41 + namelen + size)
                    } else {
                        Seq::<u8>::empty()
                    },
                },
            )
        }
    }
}

/// Entries that the update format carries without loss: a directory without size
/// or data, or a regular file whose size is its data length; all lengths fit 32 bits.
pub open spec fn update_roundtrips(e: TreeEntryView) -> bool {
    &&& (e.entry_type == DT_DIR && e.size == 0 && e.data.len() == 0) || (e.entry_type == DT_REG
        && e.data.len() == e.size)
    &&& e.size <= u32::MAX
    &&& encode_utf8(e.name).len() + 1 <= u32::MAX
}

impl TreeEntry {
    pub open spec fn spec_is_dir(&self) -> bool {
        self.entry_type == DT_DIR
    }

    /// Whether this entry is a directory.
    pub fn is_dir(&self) -> (r: bool)
        ensures
            r == (self.entry_type == DT_DIR),
    {
        self.entry_type == DT_DIR
    }

    /// Whether this entry is a regular file.
    pub fn is_file(&self) -> (r: bool)
        ensures
            r == (self.entry_type == DT_REG),
    {
        self.entry_type == DT_REG
    }

    /// The bytes whose digest is an entry's checksum, integers in byte order `o`.
    pub fn checksum_input(&self, o: ByteOrder) -> (r: Vec<u8>)
        ensures
            r@ == checksum_input(o, self@),
    {
        let mut buf: Vec<u8> = Vec::new();
        push_ne_u64(&mut buf, self.inode, o);
        push_ne_u64(&mut buf, self.version, o);
        push_ne_u32(&mut buf, self.writer, o);
        push_ne_u32(&mut buf, self.mtime, o);
        push_ne_u32(&mut buf, self.size as u32, o);
        buf.push(self.entry_type);
        push_ne_u64(&mut buf, self.parent, o);
        push_bytes(&mut buf, self.name.as_str().as_bytes());
        if self.data.len() > 0 {
            push_bytes(&mut buf, self.data.as_slice());
        }
        assert(buf@ =~= checksum_input(o, self@));
        buf
    }

    /// SHA-256 checksum of the entry with integers in byte order `o`.
    pub fn compute_checksum_in(&self, o: ByteOrder) -> (r: [u8; 32])
        ensures
            r@ == sha256_spec(checksum_input(o, self@)),
    {
        let input = self.checksum_input(o);
        sha256(input.as_slice())
    }

    /// SHA-256 checksum of the entry, integers in the byte order of this machine.
    pub fn compute_checksum(&self) -> (r: [u8; 32])
        ensures
            exists|o: ByteOrder| r@ == sha256_spec(checksum_input(o, self@)),
    {
        self.compute_checksum_in(native_byte_order())
    }

    /// Serialize to the update wire format.
    pub fn serialize_for_update(&self) -> (r: Vec<u8>)
        ensures
            r@ == update_bytes(self@),
    {
        let name_bytes = self.name.as_str().as_bytes();
        let namelen = len_field(name_bytes.len());
        let mut buf: Vec<u8> = Vec::new();
        push_u64(&mut buf, self.parent);
        push_u64(&mut buf, self.inode);
        push_u64(&mut buf, self.version);
        push_u32(&mut buf, self.writer);
        push_u32(&mut buf, self.mtime);
        push_u32(&mut buf, self.size as u32);
        push_u32(&mut buf, namelen);
        buf.push(self.entry_type);
        push_bytes(&mut buf, name_bytes);
        buf.push(0);
        let ghost head = buf@;
        if self.entry_type == DT_REG && self.data.len() > 0 {
            push_bytes(&mut buf, self.data.as_slice());
        }
        assert(buf@ =~= update_bytes(self@));
        buf
    }

    /// Deserialize from the update wire format.
    pub fn deserialize_from_update(data: &[u8]) -> (r: Result<TreeEntry, WireError>)
        ensures
            crate::wire::view_result(r) == parse_update(data@),
    {
        if data.len() < 41 {
            return Err(WireError::TooShort);
        }
        let parent = read_u64(data, 0);
        let inode = read_u64(data, 8);
        let version = read_u64(data, 16);
        let writer = read_u32(data, 24);
        let mtime = read_u32(data, 28);
        let size = read_u32(data, 32);
        let namelen = read_u32(data, 36);
        let entry_type = data[40];
        if entry_type != DT_REG && entry_type != DT_DIR {
            return Err(WireError::InvalidEntryType(entry_type));
        }
        if (data.len() as u64) < 41 + (namelen as u64) + (size as u64) {
            return Err(WireError::TooShort);
        }
        let nl = namelen as usize;
        let sz = size as usize;
        if nl == 0 || data[41 + nl - 1] != 0 {
            return Err(WireError::NameNotNullTerminated);
        }
        let name = match string_from_utf8(vstd::slice::slice_subrange(data, 41, 41 + nl - 1)) {
            Some(s) => s,
            None => return Err(WireError::InvalidUtf8),
        };
        let data_vec = if entry_type == DT_REG && sz > 0 {
            copy_range(data, 41 + nl, 41 + nl + sz)
        } else {
            Vec::new()
        };
        let r = TreeEntry {
            inode,
            parent,
            version,
            writer,
            mtime,
            size: sz,
            entry_type,
            name,
            data: data_vec,
        };
        assert(r@ == parse_update(data@)->Ok_0);
        Ok(r)
    }
}

/// Decoding the update encoding of an entry gives the entry back.
pub proof fn lemma_update_roundtrip(e: TreeEntryView)
    requires
        update_roundtrips(e),
    ensures
        parse_update(update_bytes(e)) == Ok::<TreeEntryView, WireError>(e),
{
    lemma_le_roundtrips();
    lemma_utf8_roundtrip(e.name);
    let nb = encode_utf8(e.name);
    let b = update_bytes(e);
    let nl: int = nb.len() as int + 1;
    assert(b.subrange(0, 8) =~= spec_u64_to_le_bytes(e.parent));
    assert(b.subrange(8, 16) =~= spec_u64_to_le_bytes(e.inode));
    assert(b.subrange(16, 24) =~= spec_u64_to_le_bytes(e.version));
    assert(b.subrange(24, 28) =~= spec_u32_to_le_bytes(e.writer));
    assert(b.subrange(28, 32) =~= spec_u32_to_le_bytes(e.mtime));
    assert(b.subrange(32, 36) =~= spec_u32_to_le_bytes(e.size as u32));
    assert(b.subrange(36, 40) =~= spec_u32_to_le_bytes(nl as u32));
    assert(b[40] == e.entry_type);
    assert(b.subrange(41, 41 + nl - 1) =~= nb);
    assert(b[41 + nl - 1] == 0);
    if e.entry_type == DT_REG && e.size > 0 {
        assert(b.subrange(41 + nl, 41 + nl + e.size) =~= e.data);
    }
    let p = parse_update(b)->Ok_0;
    assert(p.data =~= e.data);
}

} // verus!
