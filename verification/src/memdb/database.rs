//! The in-memory configuration database: entries by inode, the directory tree,
//! the version counter, the lock cache, and the journal of changes that the
//! persistent store has to replay.

use vstd::prelude::*;
use vstd::utf8::*;
use crate::memdb::assoc::{
    unique_keys, has_key, assoc_map, key_pos, assoc_put, assoc_del, lemma_assoc_index,
    lemma_assoc_absent, lemma_assoc_empty, lemma_assoc_push, lemma_assoc_update, lemma_assoc_remove,
    lemma_key_pos, lemma_assoc_put, lemma_assoc_del,
};
use crate::memdb::path::{
    SLASH, DOT, is_root_alias, components, byte_views, split_components, dirname, basename,
    split_path, bytes_eq, starts_with, trim_start, trim_leading_slashes, is_root_alias_exec,
};
use crate::memdb::types::{
    TreeEntry, TreeEntryView, DT_DIR, DT_REG, ROOT_INODE, MEMDB_MAX_FILE_SIZE, MEMDB_MAX_FSSIZE,
    MEMDB_MAX_INODES, LOCK_TIMEOUT, VERSION_FILENAME, LOCK_DIR_PATH, checksum_input,
};

verus! {

/// Mode bit of a directory (`S_IFDIR`).
pub const S_IFDIR: u32 = 16384;

/// Errors of database operations.
#[derive(Debug, Clone, Copy, PartialEq, Eq, Structural)]
pub enum MemDbError {
    /// An earlier change could not be stored; changes are refused.
    DatabaseErrors,
    /// The path exists already.
    AlreadyExists,
    /// The path does not exist.
    NotFound,
    /// The path is empty or its last segment is not valid text.
    InvalidPath,
    /// The operation is not permitted on this path (`EACCES`).
    PermissionDenied,
    /// The parent directory does not exist.
    ParentNotFound,
    /// A directory was expected.
    NotADirectory,
    /// A regular file was expected.
    IsADirectory,
    /// The inode limit is reached.
    TooManyInodes,
    /// Offset plus length overflows.
    OffsetOverflow,
    /// The file would exceed the maximum file size.
    FileTooLarge,
    /// The total size of all files overflows.
    FsSizeOverflow,
    /// The file system would exceed its maximum size.
    FsTooLarge,
    /// The root directory cannot be changed this way.
    RootDirectory,
    /// A lock directory cannot get an older modification time.
    LockMtimeOlder,
    /// A lock directory belongs to another writer.
    LockOtherWriter,
    /// The directory is not empty.
    DirectoryNotEmpty,
    /// The directory has no children table.
    Corrupted,
    /// The root entry is missing.
    RootMissing,
    /// The lock is held with another checksum.
    LockHeld,
    /// The lock name is empty or climbs out of the lock directory.
    InvalidLockName,
    /// No lock is held on the path.
    LockNotFound,
    /// The lock is held with another checksum and cannot be released.
    LockChecksumMismatch,
    /// A guest id is configured under two different nodes.
    DuplicateVmid,
}

/// Human-readable description of a database error.
pub open spec fn db_error_text(x: MemDbError) -> Seq<char> {
    match x {
        MemDbError::DatabaseErrors => "Database has errors, refusing operation"@,
        MemDbError::AlreadyExists => "File already exists"@,
        MemDbError::NotFound => "File not found"@,
        MemDbError::InvalidPath => "Invalid path"@,
        MemDbError::PermissionDenied => "Permission denied"@,
        MemDbError::ParentNotFound => "Parent directory not found"@,
        MemDbError::NotADirectory => "Not a directory"@,
        MemDbError::IsADirectory => "Is a directory"@,
        MemDbError::TooManyInodes => "Maximum inode count exceeded"@,
        MemDbError::OffsetOverflow => "Offset overflow"@,
        MemDbError::FileTooLarge => "Write would exceed maximum file size"@,
        MemDbError::FsSizeOverflow => "Filesystem size overflow"@,
        MemDbError::FsTooLarge => "Write would exceed maximum filesystem size"@,
        MemDbError::RootDirectory => "Cannot change root directory"@,
        MemDbError::LockMtimeOlder => "Cannot set older mtime on locked directory (dir is locked)"@,
        MemDbError::LockOtherWriter => "Lock owned by different writer (cannot hijack lock)"@,
        MemDbError::DirectoryNotEmpty => "Directory not empty"@,
        MemDbError::Corrupted => "Directory structure corrupted"@,
        MemDbError::RootMissing => "Root entry not found"@,
        MemDbError::LockHeld => "Lock already held by another process"@,
        MemDbError::InvalidLockName => "Invalid lock name"@,
        MemDbError::LockNotFound => "No lock found on path"@,
        MemDbError::LockChecksumMismatch => "Cannot release lock: checksum mismatch"@,
        MemDbError::DuplicateVmid => "Duplicate VMID found"@,
    }
}

impl MemDbError {
    /// Human-readable description of the error.
    pub fn to_string(&self) -> (r: String)
        ensures
            r@ == db_error_text(*self),
    {
        match self {
            MemDbError::DatabaseErrors => "Database has errors, refusing operation".to_owned(),
            MemDbError::AlreadyExists => "File already exists".to_owned(),
            MemDbError::NotFound => "File not found".to_owned(),
            MemDbError::InvalidPath => "Invalid path".to_owned(),
            MemDbError::PermissionDenied => "Permission denied".to_owned(),
            MemDbError::ParentNotFound => "Parent directory not found".to_owned(),
            MemDbError::NotADirectory => "Not a directory".to_owned(),
            MemDbError::IsADirectory => "Is a directory".to_owned(),
            MemDbError::TooManyInodes => "Maximum inode count exceeded".to_owned(),
            MemDbError::OffsetOverflow => "Offset overflow".to_owned(),
            MemDbError::FileTooLarge => "Write would exceed maximum file size".to_owned(),
            MemDbError::FsSizeOverflow => "Filesystem size overflow".to_owned(),
            MemDbError::FsTooLarge => "Write would exceed maximum filesystem size".to_owned(),
            MemDbError::RootDirectory => "Cannot change root directory".to_owned(),
            MemDbError::LockMtimeOlder => "Cannot set older mtime on locked directory (dir is locked)".to_owned(),
            MemDbError::LockOtherWriter => "Lock owned by different writer (cannot hijack lock)".to_owned(),
            MemDbError::DirectoryNotEmpty => "Directory not empty".to_owned(),
            MemDbError::Corrupted => "Directory structure corrupted".to_owned(),
            MemDbError::RootMissing => "Root entry not found".to_owned(),
            MemDbError::LockHeld => "Lock already held by another process".to_owned(),
            MemDbError::InvalidLockName => "Invalid lock name".to_owned(),
            MemDbError::LockNotFound => "No lock found on path".to_owned(),
            MemDbError::LockChecksumMismatch => "Cannot release lock: checksum mismatch".to_owned(),
            MemDbError::DuplicateVmid => "Duplicate VMID found".to_owned(),
        }
    }
}

/// Link from a directory to a child, by name.
#[derive(Debug)]
pub struct ChildLink {
    pub name: String,
    pub inode: u64,
}

/// The children of one directory.
#[derive(Debug)]
pub struct DirNode {
    pub inode: u64,
    pub children: Vec<ChildLink>,
}

/// A cached lock: when it was last seen and the checksum it is held with.
#[derive(Debug)]
pub struct LockRecord {
    pub key: String,
    pub ltime: u64,
    pub csum: [u8; 32],
}

/// Mathematical view of a cached lock.
pub struct LockView {
    pub ltime: u64,
    pub csum: Seq<u8>,
}

/// A change that the persistent store has to apply, in order.
#[derive(Debug)]
pub enum PersistOp {
    /// Store version, writer and mtime in the root metadata row.
    SetVersion { version: u64, writer: u32, mtime: u32 },
    /// Store the root version alone.
    SetRootVersion { version: u64 },
    /// Insert a new row.
    Insert { entry: TreeEntry },
    /// Insert a row or replace the row of the same inode.
    Upsert { entry: TreeEntry },
    /// Rewrite the row of the entry's inode.
    Update { entry: TreeEntry },
    /// Delete the row of an inode.
    Delete { inode: u64 },
    /// Replace all rows.
    ReplaceAll { entries: Vec<TreeEntry> },
}

/// Mathematical view of a change to store.
pub enum PersistOpView {
    SetVersion { version: u64, writer: u32, mtime: u32 },
    SetRootVersion { version: u64 },
    Insert { entry: TreeEntryView },
    Upsert { entry: TreeEntryView },
    Update { entry: TreeEntryView },
    Delete { inode: u64 },
    ReplaceAll { entries: Seq<TreeEntryView> },
}

impl View for PersistOp {
    type V = PersistOpView;

    open spec fn view(&self) -> PersistOpView {
        match self {
            PersistOp::SetVersion { version, writer, mtime } => PersistOpView::SetVersion {
                version: *version,
                writer: *writer,
                mtime: *mtime,
            },
            PersistOp::SetRootVersion { version } => PersistOpView::SetRootVersion { version: *version },
            PersistOp::Insert { entry } => PersistOpView::Insert { entry: entry@ },
            PersistOp::Upsert { entry } => PersistOpView::Upsert { entry: entry@ },
            PersistOp::Update { entry } => PersistOpView::Update { entry: entry@ },
            PersistOp::Delete { inode } => PersistOpView::Delete { inode: *inode },
            PersistOp::ReplaceAll { entries } => PersistOpView::ReplaceAll {
                entries: entries@.map_values(|e: TreeEntry| e@),
            },
        }
    }
}

/// In-memory configuration database.
pub struct MemDb {
    entries: Vec<TreeEntry>,
    dirs: Vec<DirNode>,
    version: u64,
    locks: Vec<LockRecord>,
    errors: bool,
    pending: Vec<PersistOp>,
}

/// Mathematical view of the database.
pub struct MemDbView {
    /// All entries, each inode once, in storage order.
    pub entries: Seq<TreeEntryView>,
    /// Children of each directory that has a children table: (name bytes, inode), in order.
    pub tree: Map<u64, Seq<(Seq<u8>, u64)>>,
    /// Version counter.
    pub version: u64,
    /// Lock cache by lock key.
    pub locks: Map<Seq<char>, LockView>,
    /// Set once a change could not be stored.
    pub errors: bool,
    /// Changes not yet handed to the persistent store.
    pub pending: Seq<PersistOpView>,
}

/// Entries keyed by inode.
pub open spec fn entry_pairs(s: Seq<TreeEntryView>) -> Seq<(u64, TreeEntryView)> {
    s.map_values(|e: TreeEntryView| (e.inode, e))
}

/// The entries as a map from inode to entry.
pub open spec fn index_of(s: Seq<TreeEntryView>) -> Map<u64, TreeEntryView> {
    assoc_map(entry_pairs(s))
}

/// Children keyed by the bytes of their names.
pub open spec fn child_pairs(c: Seq<ChildLink>) -> Seq<(Seq<u8>, u64)> {
    c.map_values(|l: ChildLink| (encode_utf8(l.name@), l.inode))
}

/// Directories keyed by inode, with their children lists.
pub open spec fn dir_pairs(d: Seq<DirNode>) -> Seq<(u64, Seq<(Seq<u8>, u64)>)> {
    d.map_values(|n: DirNode| (n.inode, child_pairs(n.children@)))
}

/// Locks keyed by lock key.
pub open spec fn lock_pairs(l: Seq<LockRecord>) -> Seq<(Seq<char>, LockView)> {
    l.map_values(|r: LockRecord| (r.key@, LockView { ltime: r.ltime, csum: r.csum@ }))
}

/// Views of a vector of entries.
pub open spec fn entry_views(v: Seq<TreeEntry>) -> Seq<TreeEntryView> {
    v.map_values(|e: TreeEntry| e@)
}

/// Views of a vector of changes.
pub open spec fn op_views(v: Seq<PersistOp>) -> Seq<PersistOpView> {
    v.map_values(|o: PersistOp| o@)
}

impl View for MemDb {
    type V = MemDbView;

    closed spec fn view(&self) -> MemDbView {
        MemDbView {
            entries: entry_views(self.entries@),
            tree: assoc_map(dir_pairs(self.dirs@)),
            version: self.version,
            locks: assoc_map(lock_pairs(self.locks@)),
            errors: self.errors,
            pending: op_views(self.pending@),
        }
    }
}

impl MemDbView {
    /// The entries by inode.
    pub open spec fn index(self) -> Map<u64, TreeEntryView> {
        index_of(self.entries)
    }
}

/// Position of the first entry with the inode, at or after `i` (-1 when there is none).
pub open spec fn pos_from(s: Seq<TreeEntryView>, inode: u64, i: int) -> int
    decreases s.len() - i,
{
    if i < 0 || i >= s.len() {
        -1
    } else if s[i].inode == inode {
        i
    } else {
        pos_from(s, inode, i + 1)
    }
}

/// Position of the entry with the inode (-1 when there is none).
pub open spec fn entry_pos(s: Seq<TreeEntryView>, inode: u64) -> int {
    pos_from(s, inode, 0)
}

/// The entries with `e` stored: replacing the entry of its inode, or appended.
pub open spec fn put_entry(s: Seq<TreeEntryView>, e: TreeEntryView) -> Seq<TreeEntryView> {
    let k = entry_pos(s, e.inode);
    if k >= 0 {
        s.update(k, e)
    } else {
        s.push(e)
    }
}

/// The entries without the entry of an inode.
pub open spec fn drop_entry(s: Seq<TreeEntryView>, inode: u64) -> Seq<TreeEntryView> {
    let k = entry_pos(s, inode);
    if k >= 0 {
        s.remove(k)
    } else {
        s
    }
}

/// No inode occurs twice.
pub open spec fn unique_inodes(s: Seq<TreeEntryView>) -> bool {
    forall|i: int, j: int| 0 <= i < j < s.len() ==> s[i].inode != s[j].inode
}

/// The tree with a link from directory `parent` to `inode` under `name` (replacing a link
/// of that name in place, else appended), the children table of `parent` created when missing.
pub open spec fn tree_link(t: Map<u64, Seq<(Seq<u8>, u64)>>, parent: u64, name: Seq<u8>, inode: u64) -> Map<u64, Seq<(Seq<u8>, u64)>> {
    let c = if t.contains_key(parent) {
        t[parent]
    } else {
        Seq::empty()
    };
    t.insert(parent, assoc_put(c, name, inode))
}

/// The tree without the link `name` of directory `parent` (unchanged when there is no such table).
pub open spec fn tree_unlink(t: Map<u64, Seq<(Seq<u8>, u64)>>, parent: u64, name: Seq<u8>) -> Map<u64, Seq<(Seq<u8>, u64)>> {
    if t.contains_key(parent) {
        t.insert(parent, assoc_del(t[parent], name))
    } else {
        t
    }
}

/// The tree with an (empty) children table for `inode` when it has none.
pub open spec fn tree_ensure(t: Map<u64, Seq<(Seq<u8>, u64)>>, inode: u64) -> Map<u64, Seq<(Seq<u8>, u64)>> {
    if t.contains_key(inode) {
        t
    } else {
        t.insert(inode, Seq::empty())
    }
}

/// The entries with the root's version, writer and mtime set (unchanged without a root).
pub open spec fn with_root_meta(s: Seq<TreeEntryView>, version: u64, writer: u32, mtime: u32) -> Seq<TreeEntryView> {
    let k = entry_pos(s, ROOT_INODE);
    if k >= 0 {
        s.update(k, TreeEntryView { version, writer, mtime, ..s[k] })
    } else {
        s
    }
}

/// The version after `v` (wrapping).
pub open spec fn next_version(v: u64) -> u64 {
    if v == u64::MAX {
        0
    } else {
        (v + 1) as u64
    }
}

proof fn lemma_pos_from(s: Seq<TreeEntryView>, inode: u64, i: int)
    requires
        0 <= i <= s.len(),
    ensures
        pos_from(s, inode, i) == -1 || (i <= pos_from(s, inode, i) < s.len() && s[pos_from(s, inode, i)].inode == inode),
        pos_from(s, inode, i) == -1 ==> forall|k: int| i <= k < s.len() ==> s[k].inode != inode,
        pos_from(s, inode, i) >= 0 ==> forall|k: int| i <= k < pos_from(s, inode, i) ==> s[k].inode != inode,
    decreases s.len() - i,
{
    if i < s.len() && s[i].inode != inode {
        lemma_pos_from(s, inode, i + 1);
    }
}

/// What the position of an inode says about the index.
pub proof fn lemma_entry_pos(s: Seq<TreeEntryView>, inode: u64)
    requires
        unique_inodes(s),
    ensures
        entry_pos(s, inode) >= 0 ==> entry_pos(s, inode) < s.len() && s[entry_pos(s, inode)].inode == inode
            && index_of(s).contains_key(inode) && index_of(s)[inode] == s[entry_pos(s, inode)],
        entry_pos(s, inode) < 0 ==> entry_pos(s, inode) == -1 && !index_of(s).contains_key(inode)
            && forall|k: int| 0 <= k < s.len() ==> s[k].inode != inode,
{
    lemma_pos_from(s, inode, 0);
    lemma_unique_pairs(s);
    let k = entry_pos(s, inode);
    if k >= 0 {
        lemma_assoc_index(entry_pairs(s), k);
    } else {
        lemma_assoc_absent(entry_pairs(s), inode);
    }
}

proof fn lemma_unique_pairs(s: Seq<TreeEntryView>)
    requires
        unique_inodes(s),
    ensures
        unique_keys(entry_pairs(s)),
        entry_pairs(s).len() == s.len(),
{
}

/// Storing an entry inserts it into the index and keeps inodes unique.
pub proof fn lemma_put_entry(s: Seq<TreeEntryView>, e: TreeEntryView)
    requires
        unique_inodes(s),
    ensures
        unique_inodes(put_entry(s, e)),
        index_of(put_entry(s, e)) == index_of(s).insert(e.inode, e),
        put_entry(s, e).len() == s.len() + (if index_of(s).contains_key(e.inode) { 0int } else { 1int }),
{
    lemma_entry_pos(s, e.inode);
    lemma_unique_pairs(s);
    let k = entry_pos(s, e.inode);
    if k >= 0 {
        lemma_assoc_update(entry_pairs(s), k, e);
        assert(entry_pairs(s.update(k, e)) =~= entry_pairs(s).update(k, (entry_pairs(s)[k].0, e)));
    } else {
        assert(!has_key(entry_pairs(s), e.inode));
        lemma_assoc_push(entry_pairs(s), e.inode, e);
        assert(entry_pairs(s.push(e)) =~= entry_pairs(s).push((e.inode, e)));
    }
}

/// Dropping an inode removes it from the index and keeps inodes unique.
pub proof fn lemma_drop_entry(s: Seq<TreeEntryView>, inode: u64)
    requires
        unique_inodes(s),
    ensures
        unique_inodes(drop_entry(s, inode)),
        index_of(drop_entry(s, inode)) == index_of(s).remove(inode),
        drop_entry(s, inode).len() == s.len() - (if index_of(s).contains_key(inode) { 1int } else { 0int }),
{
    lemma_entry_pos(s, inode);
    lemma_unique_pairs(s);
    let k = entry_pos(s, inode);
    if k >= 0 {
        lemma_assoc_remove(entry_pairs(s), k);
        assert(entry_pairs(s.remove(k)) =~= entry_pairs(s).remove(k));
        let t = s.remove(k);
        assert forall|a: int, b: int| 0 <= a < b < t.len() implies t[a].inode != t[b].inode by {
            let a2 = if a < k { a } else { a + 1 };
            let b2 = if b < k { b } else { b + 1 };
            assert(t[a] == s[a2]);
            assert(t[b] == s[b2]);
        }
    } else {
        assert(index_of(s).remove(inode) =~= index_of(s));
    }
}

impl MemDb {
    /// Internal consistency: no inode, directory, child name or lock key occurs twice.
    pub closed spec fn wf(&self) -> bool {
        &&& unique_inodes(entry_views(self.entries@))
        &&& unique_keys(dir_pairs(self.dirs@))
        &&& forall|i: int| 0 <= i < self.dirs@.len() ==> unique_keys(#[trigger] child_pairs(self.dirs@[i].children@))
        &&& unique_keys(lock_pairs(self.locks@))
    }

    /// Position of the entry with an inode.
    fn find_entry(&self, inode: u64) -> (r: Option<usize>)
        requires
            self.wf(),
        ensures
            r is Some <==> entry_pos(self@.entries, inode) >= 0,
            r matches Some(i) ==> i as int == entry_pos(self@.entries, inode) && i < self.entries@.len()
                && self.entries@[i as int]@ == self@.index()[inode] && self@.index().contains_key(inode),
            r is None ==> !self@.index().contains_key(inode),
    {
        proof {
            lemma_entry_pos(self@.entries, inode);
        }
        let mut i: usize = 0;
        while i < self.entries.len()
            invariant
                i <= self.entries@.len(),
                self.wf(),
                self@.entries == entry_views(self.entries@),
                pos_from(self@.entries, inode, 0) == pos_from(self@.entries, inode, i as int),
            decreases self.entries@.len() - i,
        {
            assert(self@.entries[i as int] == self.entries@[i as int]@);
            if self.entries[i].inode == inode {
                proof {
                    lemma_entry_pos(self@.entries, inode);
                }
                return Some(i);
            }
            i += 1;
        }
        None
    }

    /// Stores an entry, replacing the entry of its inode.
    fn store_entry(&mut self, e: TreeEntry)
        requires
            old(self).wf(),
        ensures
            final(self).wf(),
            final(self)@ == (MemDbView { entries: put_entry(old(self)@.entries, e@), ..old(self)@ }),
    {
        proof {
            lemma_put_entry(self@.entries, e@);
        }
        let ghost ev = e@;
        match self.find_entry(e.inode) {
            Some(i) => {
                self.entries.set(i, e);
                assert(entry_views(self.entries@) =~= put_entry(old(self)@.entries, ev));
            },
            None => {
                self.entries.push(e);
                assert(entry_views(self.entries@) =~= put_entry(old(self)@.entries, ev));
            },
        }
    }

    /// Removes the entry of an inode.
    fn discard_entry(&mut self, inode: u64)
        requires
            old(self).wf(),
        ensures
            final(self).wf(),
            final(self)@ == (MemDbView { entries: drop_entry(old(self)@.entries, inode), ..old(self)@ }),
    {
        proof {
            lemma_drop_entry(self@.entries, inode);
        }
        match self.find_entry(inode) {
            Some(i) => {
                self.entries.remove(i);
                assert(entry_views(self.entries@) =~= drop_entry(old(self)@.entries, inode));
            },
            None => {},
        }
    }

    /// Sets version, writer and mtime of the root entry, if there is one.
    fn set_root_meta(&mut self, version: u64, writer: u32, mtime: u32)
        requires
            old(self).wf(),
        ensures
            final(self).wf(),
            final(self)@ == (MemDbView {
                entries: with_root_meta(old(self)@.entries, version, writer, mtime),
                ..old(self)@
            }),
    {
        match self.find_entry(ROOT_INODE) {
            Some(i) => {
                let old_e = &self.entries[i];
                let e = TreeEntry {
                    inode: old_e.inode,
                    parent: old_e.parent,
                    version,
                    writer,
                    mtime,
                    size: old_e.size,
                    entry_type: old_e.entry_type,
                    name: old_e.name.clone(),
                    data: old_e.data.clone(),
                };
                proof {
                    let s = old(self)@.entries;
                    let k = entry_pos(s, ROOT_INODE);
                    let t = s.update(k, TreeEntryView { version, writer, mtime, ..s[k] });
                    assert(forall|a: int| 0 <= a < s.len() ==> t[a].inode == s[a].inode);
                }
                self.entries.set(i, e);
                assert(entry_views(self.entries@) =~= with_root_meta(old(self)@.entries, version, writer, mtime));
            },
            None => {},
        }
    }

    /// Appends a change for the persistent store.
    fn journal(&mut self, op: PersistOp)
        ensures
            final(self)@ == (MemDbView { pending: old(self)@.pending.push(op@), ..old(self)@ }),
            final(self).wf() == old(self).wf(),
    {
        self.pending.push(op);
        assert(op_views(self.pending@) =~= old(self)@.pending.push(op@));
    }
}

} // verus!

verus! {

impl MemDb {
    /// Position of the children table of a directory.
    fn find_dir(&self, inode: u64) -> (r: Option<usize>)
        requires
            self.wf(),
        ensures
            r is Some <==> self@.tree.contains_key(inode),
            r matches Some(i) ==> i < self.dirs@.len() && self.dirs@[i as int].inode == inode
                && self@.tree[inode] == child_pairs(self.dirs@[i as int].children@),
    {
        let mut i: usize = 0;
        while i < self.dirs.len()
            invariant
                i <= self.dirs@.len(),
                self.wf(),
                forall|k: int| 0 <= k < i ==> self.dirs@[k].inode != inode,
            decreases self.dirs@.len() - i,
        {
            if self.dirs[i].inode == inode {
                proof {
                    lemma_assoc_index(dir_pairs(self.dirs@), i as int);
                }
                return Some(i);
            }
            i += 1;
        }
        proof {
            lemma_assoc_absent(dir_pairs(self.dirs@), inode);
        }
        None
    }

    /// Takes the directory table at position `i` out of the tree.
    fn take_dir(&mut self, i: usize) -> (node: DirNode)
        requires
            old(self).wf(),
            i < old(self).dirs@.len(),
        ensures
            final(self).wf(),
            node == old(self).dirs@[i as int],
            unique_keys(child_pairs(node.children@)),
            final(self)@ == (MemDbView { tree: old(self)@.tree.remove(node.inode), ..old(self)@ }),
    {
        proof {
            lemma_assoc_remove(dir_pairs(self.dirs@), i as int);
        }
        let node = self.dirs.remove(i);
        proof {
            let od = old(self).dirs@;
            assert(dir_pairs(self.dirs@) =~= dir_pairs(od).remove(i as int));
            assert(unique_keys(child_pairs(od[i as int].children@)));
            assert forall|k: int| 0 <= k < self.dirs@.len() implies unique_keys(#[trigger] child_pairs(self.dirs@[k].children@)) by {
                let k2 = if k < i { k } else { k + 1 };
                assert(self.dirs@[k] == od[k2]);
            }
        }
        node
    }

    /// Appends a new directory table.
    fn push_dir(&mut self, node: DirNode)
        requires
            old(self).wf(),
            !old(self)@.tree.contains_key(node.inode),
            unique_keys(child_pairs(node.children@)),
        ensures
            final(self).wf(),
            final(self)@ == (MemDbView {
                tree: old(self)@.tree.insert(node.inode, child_pairs(node.children@)),
                ..old(self)@
            }),
    {
        let ghost cp = child_pairs(node.children@);
        let ghost inode = node.inode;
        self.dirs.push(node);
        proof {
            let od = old(self).dirs@;
            assert(dir_pairs(self.dirs@) =~= dir_pairs(od).push((inode, cp)));
            lemma_assoc_push(dir_pairs(od), inode, cp);
            assert forall|k: int| 0 <= k < self.dirs@.len() implies unique_keys(#[trigger] child_pairs(self.dirs@[k].children@)) by {
                if k < od.len() {
                    assert(self.dirs@[k] == od[k]);
                }
            }
        }
    }

    /// Links `name` in directory `parent` to `inode`, creating the children table when missing.
    fn link_child(&mut self, parent: u64, name: String, inode: u64)
        requires
            old(self).wf(),
        ensures
            final(self).wf(),
            final(self)@ == (MemDbView { tree: tree_link(old(self)@.tree, parent, encode_utf8(name@), inode), ..old(self)@ }),
    {
        let ghost key = encode_utf8(name@);
        match self.find_dir(parent) {
            Some(i) => {
                let ghost oc = self.dirs@[i as int].children@;
                proof {
                    assert(unique_keys(child_pairs(oc)));
                }
                let mut j: usize = 0;
                let mut found = false;
                while j < self.dirs[i].children.len() && !found
                    invariant
                        i < self.dirs@.len(),
                        j <= self.dirs@[i as int].children@.len(),
                        self.dirs@[i as int].children@ == oc,
                        key == encode_utf8(name@),
                        !found ==> forall|k: int| 0 <= k < j ==> child_pairs(oc)[k].0 != key,
                        found ==> j < oc.len() && child_pairs(oc)[j as int].0 == key,
                    decreases oc.len() - j + (if found { 0int } else { 1int }),
                {
                    if bytes_eq(self.dirs[i].children[j].name.as_str().as_bytes(), name.as_str().as_bytes()) {
                        found = true;
                    } else {
                        j += 1;
                    }
                }
                let node = self.take_dir(i);
                let mut children = node.children;
                if found {
                    proof {
                        lemma_key_pos(child_pairs(oc), j as int);
                        lemma_assoc_update(child_pairs(oc), j as int, inode);
                    }
                    children.set(j, ChildLink { name, inode });
                    assert(child_pairs(children@) =~= assoc_put(child_pairs(oc), key, inode));
                } else {
                    proof {
                        assert(!has_key(child_pairs(oc), key));
                        lemma_assoc_push(child_pairs(oc), key, inode);
                    }
                    children.push(ChildLink { name, inode });
                    assert(child_pairs(children@) =~= assoc_put(child_pairs(oc), key, inode));
                }
                proof {
                    lemma_assoc_put(child_pairs(oc), key, inode);
                }
                self.push_dir(DirNode { inode: parent, children });
                assert(self@.tree =~= tree_link(old(self)@.tree, parent, key, inode));
            },
            None => {
                let mut children: Vec<ChildLink> = Vec::new();
                children.push(ChildLink { name, inode });
                proof {
                    lemma_assoc_empty::<Seq<u8>, u64>();
                    assert(child_pairs(children@) =~= assoc_put(Seq::<(Seq<u8>, u64)>::empty(), key, inode));
                }
                self.push_dir(DirNode { inode: parent, children });
            },
        }
    }

    /// Removes the link `name` from directory `parent`, if it has a children table.
    fn unlink_child(&mut self, parent: u64, name: &[u8])
        requires
            old(self).wf(),
        ensures
            final(self).wf(),
            final(self)@ == (MemDbView { tree: tree_unlink(old(self)@.tree, parent, name@), ..old(self)@ }),
    {
        match self.find_dir(parent) {
            Some(i) => {
                let ghost oc = self.dirs@[i as int].children@;
                proof {
                    assert(unique_keys(child_pairs(oc)));
                }
                let mut j: usize = 0;
                let mut found = false;
                while j < self.dirs[i].children.len() && !found
                    invariant
                        i < self.dirs@.len(),
                        j <= self.dirs@[i as int].children@.len(),
                        self.dirs@[i as int].children@ == oc,
                        !found ==> forall|k: int| 0 <= k < j ==> child_pairs(oc)[k].0 != name@,
                        found ==> j < oc.len() && child_pairs(oc)[j as int].0 == name@,
                    decreases oc.len() - j + (if found { 0int } else { 1int }),
                {
                    if bytes_eq(self.dirs[i].children[j].name.as_str().as_bytes(), name) {
                        found = true;
                    } else {
                        j += 1;
                    }
                }
                let node = self.take_dir(i);
                let mut children = node.children;
                if found {
                    proof {
                        lemma_key_pos(child_pairs(oc), j as int);
                        lemma_assoc_remove(child_pairs(oc), j as int);
                    }
                    children.remove(j);
                    assert(child_pairs(children@) =~= assoc_del(child_pairs(oc), name@));
                } else {
                    assert(!has_key(child_pairs(oc), name@));
                    assert(child_pairs(children@) =~= assoc_del(child_pairs(oc), name@));
                }
                proof {
                    lemma_assoc_del(child_pairs(oc), name@);
                }
                self.push_dir(DirNode { inode: parent, children });
                assert(self@.tree =~= tree_unlink(old(self)@.tree, parent, name@));
            },
            None => {},
        }
    }

    /// Gives `inode` an empty children table, replacing any it had.
    fn reset_dir(&mut self, inode: u64)
        requires
            old(self).wf(),
        ensures
            final(self).wf(),
            final(self)@ == (MemDbView { tree: old(self)@.tree.insert(inode, Seq::empty()), ..old(self)@ }),
    {
        let children: Vec<ChildLink> = Vec::new();
        assert(child_pairs(children@) =~= Seq::<(Seq<u8>, u64)>::empty());
        match self.find_dir(inode) {
            Some(i) => {
                let _ = self.take_dir(i);
                self.push_dir(DirNode { inode, children });
                assert(self@.tree =~= old(self)@.tree.insert(inode, Seq::empty()));
            },
            None => {
                self.push_dir(DirNode { inode, children });
            },
        }
    }

    /// Gives `inode` an empty children table when it has none.
    fn ensure_dir(&mut self, inode: u64)
        requires
            old(self).wf(),
        ensures
            final(self).wf(),
            final(self)@ == (MemDbView { tree: tree_ensure(old(self)@.tree, inode), ..old(self)@ }),
    {
        if self.find_dir(inode).is_none() {
            self.reset_dir(inode);
        }
    }

    /// Removes the children table of `inode`.
    fn remove_dir(&mut self, inode: u64)
        requires
            old(self).wf(),
        ensures
            final(self).wf(),
            final(self)@ == (MemDbView { tree: old(self)@.tree.remove(inode), ..old(self)@ }),
    {
        match self.find_dir(inode) {
            Some(i) => {
                proof {
                    lemma_assoc_remove(dir_pairs(self.dirs@), i as int);
                }
                self.dirs.remove(i);
                proof {
                    let od = old(self).dirs@;
                    assert(dir_pairs(self.dirs@) =~= dir_pairs(od).remove(i as int));
                    assert forall|k: int| 0 <= k < self.dirs@.len() implies unique_keys(#[trigger] child_pairs(self.dirs@[k].children@)) by {
                        let k2 = if k < i { k } else { k + 1 };
                        assert(self.dirs@[k] == od[k2]);
                    }
                }
            },
            None => {
                assert(old(self)@.tree.remove(inode) =~= old(self)@.tree);
            },
        }
    }
}

} // verus!

verus! {

/// The inode reached from `cur` by following the named links `cs`, if all exist.
pub open spec fn resolve(tree: Map<u64, Seq<(Seq<u8>, u64)>>, cur: u64, cs: Seq<Seq<u8>>) -> Option<u64>
    decreases cs.len(),
{
    if cs.len() == 0 {
        Some(cur)
    } else if tree.contains_key(cur) && has_key(tree[cur], cs[0]) {
        resolve(tree, assoc_map(tree[cur])[cs[0]], cs.drop_first())
    } else {
        None
    }
}

/// The inode a path names: the root for the root aliases, else the walk along its segments.
pub open spec fn lookup_inode(db: MemDbView, p: Seq<u8>) -> Option<u64> {
    if is_root_alias(p) {
        Some(ROOT_INODE)
    } else {
        resolve(db.tree, ROOT_INODE, components(p))
    }
}

/// The entry a path names, if the path resolves to an inode that has an entry.
pub open spec fn lookup(db: MemDbView, p: Seq<u8>) -> Option<TreeEntryView> {
    match lookup_inode(db, p) {
        Some(i) => if db.index().contains_key(i) {
            Some(db.index()[i])
        } else {
            None
        },
        None => None,
    }
}

/// An optional entry, taken by its view.
pub open spec fn entry_option(r: Option<TreeEntry>) -> Option<TreeEntryView> {
    match r {
        Some(e) => Some(e@),
        None => None,
    }
}

/// Position of the child named `name`.
fn find_child(children: &Vec<ChildLink>, name: &[u8]) -> (r: Option<usize>)
    ensures
        r is Some <==> has_key(child_pairs(children@), name@),
        r matches Some(j) ==> j < children@.len() && child_pairs(children@)[j as int].0 == name@,
{
    let mut j: usize = 0;
    while j < children.len()
        invariant
            j <= children@.len(),
            forall|k: int| 0 <= k < j ==> child_pairs(children@)[k].0 != name@,
        decreases children@.len() - j,
    {
        if bytes_eq(children[j].name.as_str().as_bytes(), name) {
            assert(child_pairs(children@)[j as int].0 == name@);
            assert(has_key(child_pairs(children@), name@));
            return Some(j);
        }
        j += 1;
    }
    None
}

impl MemDb {
    /// The inode a path names.
    fn resolve_path(&self, p: &[u8]) -> (r: Option<u64>)
        requires
            self.wf(),
        ensures
            r == lookup_inode(self@, p@),
    {
        if is_root_alias_exec(p) {
            return Some(ROOT_INODE);
        }
        let comps = split_components(p);
        let ghost cs = components(p@);
        let mut cur: u64 = ROOT_INODE;
        let mut k: usize = 0;
        assert(cs.skip(0) =~= cs);
        while k < comps.len()
            invariant
                self.wf(),
                k <= comps@.len(),
                byte_views(comps@) == cs,
                cs == components(p@),
                lookup_inode(self@, p@) == resolve(self@.tree, cur, cs.skip(k as int)),
            decreases comps@.len() - k,
        {
            let ghost rest = cs.skip(k as int);
            assert(rest[0] == comps@[k as int]@);
            assert(rest.drop_first() =~= cs.skip(k + 1));
            let d = match self.find_dir(cur) {
                Some(d) => d,
                None => return None,
            };
            let j = match find_child(&self.dirs[d].children, comps[k].as_slice()) {
                Some(j) => j,
                None => return None,
            };
            proof {
                lemma_assoc_index(child_pairs(self.dirs@[d as int].children@), j as int);
            }
            cur = self.dirs[d].children[j].inode;
            k += 1;
        }
        assert(cs.skip(k as int) =~= Seq::<Seq<u8>>::empty());
        Some(cur)
    }

    /// Entry of an inode.
    pub fn get_entry_by_inode(&self, inode: u64) -> (r: Option<TreeEntry>)
        requires
            self.wf(),
        ensures
            entry_option(r) == (if self@.index().contains_key(inode) {
                Some(self@.index()[inode])
            } else {
                None
            }),
    {
        match self.find_entry(inode) {
            Some(i) => Some(self.entries[i].clone()),
            None => None,
        }
    }

    /// Entry that a path names.
    pub fn lookup_path(&self, path: &str) -> (r: Option<TreeEntry>)
        requires
            self.wf(),
        ensures
            entry_option(r) == lookup(self@, encode_utf8(path@)),
    {
        match self.resolve_path(path.as_bytes()) {
            Some(i) => self.get_entry_by_inode(i),
            None => None,
        }
    }

    /// Whether a path names an entry.
    pub fn path_exists(&self, path: &str) -> (r: bool)
        requires
            self.wf(),
        ensures
            r == lookup(self@, encode_utf8(path@)) is Some,
    {
        self.lookup_path(path).is_some()
    }

    /// Current version counter.
    pub fn get_version(&self) -> (r: u64)
        ensures
            r == self@.version,
    {
        self.version
    }

    /// All entries, in storage order.
    pub fn get_all_entries(&self) -> (r: Vec<TreeEntry>)
        ensures
            entry_views(r@) == self@.entries,
    {
        let mut out: Vec<TreeEntry> = Vec::new();
        let mut i: usize = 0;
        while i < self.entries.len()
            invariant
                i <= self.entries@.len(),
                entry_views(out@) == entry_views(self.entries@).take(i as int),
            decreases self.entries@.len() - i,
        {
            let c = self.entries[i].clone();
            assert(c@ == self.entries@[i as int]@);
            let ghost prev = out@;
            out.push(c);
            assert(entry_views(out@) =~= entry_views(prev).push(c@));
            assert(entry_views(self.entries@).take(i + 1) =~= entry_views(self.entries@).take(i as int).push(c@));
            i += 1;
        }
        assert(entry_views(self.entries@).take(i as int) =~= entry_views(self.entries@));
        out
    }

    /// Whether an earlier change could not be stored.
    pub fn has_errors(&self) -> (r: bool)
        ensures
            r == self@.errors,
    {
        self.errors
    }

    /// Records that a change could not be stored; later changes are refused.
    pub fn set_errors(&mut self)
        requires
            old(self).wf(),
        ensures
            final(self).wf(),
            final(self)@ == (MemDbView { errors: true, ..old(self)@ }),
    {
        self.errors = true;
    }

    /// Hands out the changes not yet stored, oldest first.
    pub fn take_pending(&mut self) -> (r: Vec<PersistOp>)
        requires
            old(self).wf(),
        ensures
            final(self).wf(),
            op_views(r@) == old(self)@.pending,
            final(self)@ == (MemDbView { pending: Seq::empty(), ..old(self)@ }),
    {
        let mut r: Vec<PersistOp> = Vec::new();
        std::mem::swap(&mut r, &mut self.pending);
        assert(op_views(self.pending@) =~= Seq::<PersistOpView>::empty());
        r
    }
}

} // verus!

verus! {

/// An optional list of entries, taken by their views.
pub open spec fn entries_result(r: Result<Vec<TreeEntry>, MemDbError>) -> Result<Seq<TreeEntryView>, MemDbError> {
    match r {
        Ok(v) => Ok(entry_views(v@)),
        Err(e) => Err(e),
    }
}

/// Inputs on which reading would overflow the end position.
pub open spec fn read_overflows(db: MemDbView, p: Seq<u8>, offset: u64, size: usize) -> bool {
    match lookup(db, p) {
        Some(e) => e.entry_type != DT_DIR && (offset as usize) < e.data.len() && (offset as usize) + size > usize::MAX,
        None => false,
    }
}

/// Result of reading `size` bytes at `offset` from the file at a path.
pub open spec fn read_outcome(db: MemDbView, p: Seq<u8>, offset: u64, size: usize) -> Result<Seq<u8>, MemDbError> {
    match lookup(db, p) {
        None => Err(MemDbError::NotFound),
        Some(e) => if e.entry_type == DT_DIR {
            Err(MemDbError::IsADirectory)
        } else {
            let off = (offset as usize) as int;
            if off >= e.data.len() {
                Ok(Seq::empty())
            } else {
                let end = if off + size < e.data.len() { off + size } else { e.data.len() as int };
                Ok(e.data.subrange(off, end))
            }
        },
    }
}

/// The entries of the children in `c` that have an entry, in order.
pub open spec fn present_children(index: Map<u64, TreeEntryView>, c: Seq<(Seq<u8>, u64)>) -> Seq<TreeEntryView>
    decreases c.len(),
{
    if c.len() == 0 {
        Seq::empty()
    } else {
        let r = present_children(index, c.drop_last());
        if index.contains_key(c.last().1) {
            r.push(index[c.last().1])
        } else {
            r
        }
    }
}

/// Result of listing the directory at a path.
pub open spec fn readdir_outcome(db: MemDbView, p: Seq<u8>) -> Result<Seq<TreeEntryView>, MemDbError> {
    match lookup(db, p) {
        None => Err(MemDbError::NotFound),
        Some(e) => if e.entry_type != DT_DIR {
            Err(MemDbError::NotADirectory)
        } else if !db.tree.contains_key(e.inode) {
            Err(MemDbError::Corrupted)
        } else {
            Ok(present_children(db.index(), db.tree[e.inode]))
        },
    }
}

/// Entry type that a creation mode asks for.
pub open spec fn mode_entry_type(mode: u32) -> u8 {
    if mode & S_IFDIR != 0 {
        DT_DIR
    } else {
        DT_REG
    }
}

/// Whether a last path segment may not be created (empty, `.` or `..`).
pub open spec fn is_reserved_name(b: Seq<u8>) -> bool {
    b.len() == 0 || b == seq![DOT] || b == seq![DOT, DOT]
}

/// Result of creating a file or directory at a path: the new state, or the error.
pub open spec fn create_outcome(db: MemDbView, p: Seq<u8>, mode: u32, writer: u32, mtime: u32) -> Result<MemDbView, MemDbError> {
    let base = basename(p);
    let parent = lookup(db, dirname(p));
    if db.errors {
        Err(MemDbError::DatabaseErrors)
    } else if lookup(db, p) is Some {
        Err(MemDbError::AlreadyExists)
    } else if p.len() == 0 {
        Err(MemDbError::InvalidPath)
    } else if is_reserved_name(base) {
        Err(MemDbError::PermissionDenied)
    } else if parent is None {
        Err(MemDbError::ParentNotFound)
    } else if parent->Some_0.entry_type != DT_DIR {
        Err(MemDbError::NotADirectory)
    } else if db.entries.len() >= MEMDB_MAX_INODES {
        Err(MemDbError::TooManyInodes)
    } else if !valid_utf8(base) {
        Err(MemDbError::InvalidPath)
    } else {
        let nv = next_version(db.version);
        let pe = parent->Some_0;
        let e = TreeEntryView {
            inode: nv,
            parent: pe.inode,
            version: nv,
            writer,
            mtime,
            size: 0,
            entry_type: mode_entry_type(mode),
            name: decode_utf8(base),
            data: Seq::empty(),
        };
        let t = tree_link(db.tree, pe.inode, base, nv);
        Ok(
            MemDbView {
                entries: put_entry(with_root_meta(db.entries, nv, writer, mtime), e),
                tree: if e.entry_type == DT_DIR {
                    t.insert(nv, Seq::empty())
                } else {
                    t
                },
                version: nv,
                pending: db.pending + seq![
                    PersistOpView::SetVersion { version: nv, writer, mtime },
                    PersistOpView::Insert { entry: e },
                ],
                ..db
            },
        )
    }
}

/// Total size of all regular files.
pub open spec fn file_total(s: Seq<TreeEntryView>) -> int
    decreases s.len(),
{
    if s.len() == 0 {
        0
    } else {
        file_total(s.drop_last()) + (if s.last().entry_type == DT_REG {
            s.last().size as int
        } else {
            0
        })
    }
}

/// File contents after writing `d` at `off` (truncating first when asked), zero-filling any gap.
pub open spec fn written_data(old: Seq<u8>, off: int, d: Seq<u8>, truncate: bool) -> Seq<u8> {
    let end = off + d.len();
    let d0 = if truncate && off < old.len() {
        old.take(off)
    } else {
        old
    };
    let d1 = if end > d0.len() {
        d0 + Seq::new((end - d0.len()) as nat, |i: int| 0u8)
    } else {
        d0
    };
    d1.take(off) + d + d1.skip(end)
}

/// Whether a write reaches the total size computation.
pub open spec fn write_sums(db: MemDbView, p: Seq<u8>, offset: u64, d: Seq<u8>) -> bool {
    match lookup(db, p) {
        Some(e) => {
            let end = (offset as usize) + d.len();
            &&& !db.errors
            &&& e.entry_type != DT_DIR
            &&& end <= MEMDB_MAX_FILE_SIZE
            &&& end > e.data.len()
        },
        None => false,
    }
}

/// Result of writing `d` at `offset` into the file at a path: the new state, or the error.
pub open spec fn write_outcome(
    db: MemDbView,
    p: Seq<u8>,
    offset: u64,
    writer: u32,
    mtime: u32,
    d: Seq<u8>,
    truncate: bool,
) -> Result<MemDbView, MemDbError> {
    match lookup(db, p) {
        None => if db.errors {
            Err(MemDbError::DatabaseErrors)
        } else {
            Err(MemDbError::NotFound)
        },
        Some(e) => {
            let off = (offset as usize) as int;
            let end = off + d.len();
            let delta = if end > e.data.len() { end - e.data.len() } else { 0 };
            if db.errors {
                Err(MemDbError::DatabaseErrors)
            } else if e.entry_type == DT_DIR {
                Err(MemDbError::IsADirectory)
            } else if end > usize::MAX {
                Err(MemDbError::OffsetOverflow)
            } else if end > MEMDB_MAX_FILE_SIZE {
                Err(MemDbError::FileTooLarge)
            } else if delta > 0 && file_total(db.entries) + delta > usize::MAX {
                Err(MemDbError::FsSizeOverflow)
            } else if delta > 0 && file_total(db.entries) + delta > MEMDB_MAX_FSSIZE {
                Err(MemDbError::FsTooLarge)
            } else {
                let nv = next_version(db.version);
                let nd = written_data(e.data, off, d, truncate);
                let ne = TreeEntryView { version: nv, writer, mtime, size: nd.len() as usize, data: nd, ..e };
                Ok(
                    MemDbView {
                        entries: put_entry(with_root_meta(db.entries, nv, writer, mtime), ne),
                        version: nv,
                        pending: db.pending + seq![
                            PersistOpView::SetVersion { version: nv, writer, mtime },
                            PersistOpView::Update { entry: ne },
                        ],
                        ..db
                    },
                )
            }
        },
    }
}

proof fn lemma_file_total_prefix(s: Seq<TreeEntryView>, i: int)
    requires
        0 <= i <= s.len(),
    ensures
        0 <= file_total(s.take(i)) <= file_total(s),
    decreases s.len() - i,
{
    if i < s.len() {
        lemma_file_total_prefix(s, i + 1);
        assert(s.take(i + 1).drop_last() =~= s.take(i));
    } else {
        assert(s.take(i) =~= s);
    }
    lemma_file_total_nonneg(s.take(i));
}

proof fn lemma_file_total_nonneg(s: Seq<TreeEntryView>)
    ensures
        file_total(s) >= 0,
    decreases s.len(),
{
    if s.len() > 0 {
        lemma_file_total_nonneg(s.drop_last());
    }
}

fn next_version_of(v: u64) -> (r: u64)
    ensures
        r == next_version(v),
{
    if v == u64::MAX {
        0
    } else {
        v + 1
    }
}

impl MemDb {
    /// Entry that a path, given as bytes, names.
    fn lookup_bytes(&self, p: &[u8]) -> (r: Option<TreeEntry>)
        requires
            self.wf(),
        ensures
            entry_option(r) == lookup(self@, p@),
    {
        match self.resolve_path(p) {
            Some(i) => self.get_entry_by_inode(i),
            None => None,
        }
    }

    /// Reads up to `size` bytes at `offset` of the file at a path.
    pub fn read(&self, path: &str, offset: u64, size: usize) -> (r: Result<Vec<u8>, MemDbError>)
        requires
            self.wf(),
            !read_overflows(self@, encode_utf8(path@), offset, size),
        ensures
            crate::wire::view_result(r) == read_outcome(self@, encode_utf8(path@), offset, size),
    {
        let e = match self.lookup_bytes(path.as_bytes()) {
            Some(e) => e,
            None => return Err(MemDbError::NotFound),
        };
        if e.is_dir() {
            return Err(MemDbError::IsADirectory);
        }
        let off = offset as usize;
        if off >= e.data.len() {
            return Ok(Vec::new());
        }
        let end = if off + size < e.data.len() { off + size } else { e.data.len() };
        Ok(crate::wire::copy_range(e.data.as_slice(), off, end))
    }

    /// Lists the entries of the directory at a path, in the order of its children table.
    pub fn readdir(&self, path: &str) -> (r: Result<Vec<TreeEntry>, MemDbError>)
        requires
            self.wf(),
        ensures
            entries_result(r) == readdir_outcome(self@, encode_utf8(path@)),
    {
        self.readdir_bytes(path.as_bytes())
    }

    /// Lists the entries of the directory at a path given as bytes.
    pub fn readdir_bytes(&self, path: &[u8]) -> (r: Result<Vec<TreeEntry>, MemDbError>)
        requires
            self.wf(),
        ensures
            entries_result(r) == readdir_outcome(self@, path@),
    {
        let e = match self.lookup_bytes(path) {
            Some(e) => e,
            None => return Err(MemDbError::NotFound),
        };
        if !e.is_dir() {
            return Err(MemDbError::NotADirectory);
        }
        let d = match self.find_dir(e.inode) {
            Some(d) => d,
            None => return Err(MemDbError::Corrupted),
        };
        let ghost c = child_pairs(self.dirs@[d as int].children@);
        let mut out: Vec<TreeEntry> = Vec::new();
        let mut k: usize = 0;
        while k < self.dirs[d].children.len()
            invariant
                self.wf(),
                d < self.dirs@.len(),
                c == child_pairs(self.dirs@[d as int].children@),
                k <= c.len(),
                entry_views(out@) == present_children(self@.index(), c.take(k as int)),
            decreases c.len() - k,
        {
            let child = self.dirs[d].children[k].inode;
            assert(c.take(k + 1).drop_last() =~= c.take(k as int));
            let ghost prev = out@;
            match self.get_entry_by_inode(child) {
                Some(ce) => {
                    out.push(ce);
                    assert(entry_views(out@) =~= entry_views(prev).push(ce@));
                },
                None => {},
            }
            k += 1;
        }
        assert(c.take(k as int) =~= c);
        Ok(out)
    }

    /// Total size of all regular files.
    fn total_file_size(&self) -> (r: usize)
        requires
            self.wf(),
            file_total(self@.entries) <= usize::MAX,
        ensures
            r == file_total(self@.entries),
    {
        let ghost s = self@.entries;
        let mut total: usize = 0;
        let mut i: usize = 0;
        while i < self.entries.len()
            invariant
                s == self@.entries,
                s == entry_views(self.entries@),
                i <= s.len(),
                total == file_total(s.take(i as int)),
                file_total(s) <= usize::MAX,
            decreases s.len() - i,
        {
            proof {
                lemma_file_total_prefix(s, i + 1);
                assert(s.take(i + 1).drop_last() =~= s.take(i as int));
                assert(s.take(i + 1).last() == self.entries@[i as int]@);
            }
            if self.entries[i].is_file() {
                total = total + self.entries[i].size;
            }
            i += 1;
        }
        assert(s.take(i as int) =~= s);
        total
    }
}

} // verus!

verus! {

impl MemDb {
    /// Creates a file, or a directory when `mode` has the directory bit, at a path.
    ///
    /// The new entry's inode is the new version; the root records version, writer and mtime.
    pub fn create(&mut self, path: &str, mode: u32, writer: u32, mtime: u32) -> (r: Result<(), MemDbError>)
        requires
            old(self).wf(),
        ensures
            final(self).wf(),
            match create_outcome(old(self)@, encode_utf8(path@), mode, writer, mtime) {
                Ok(db) => r is Ok && final(self)@ == db,
                Err(e) => r == Err::<(), MemDbError>(e) && final(self)@ == old(self)@,
            },
    {
        if self.errors {
            return Err(MemDbError::DatabaseErrors);
        }
        let p = path.as_bytes();
        if self.lookup_bytes(p).is_some() {
            return Err(MemDbError::AlreadyExists);
        }
        if p.len() == 0 {
            return Err(MemDbError::InvalidPath);
        }
        let (dir, base) = split_path(p);
        if base.len() == 0 || (base.len() == 1 && base[0] == DOT) || (base.len() == 2 && base[0] == DOT && base[1] == DOT) {
            assert(base@.len() == 1 ==> base@ =~= seq![base@[0]]);
            assert(base@.len() == 2 ==> base@ =~= seq![base@[0], base@[1]]);
            return Err(MemDbError::PermissionDenied);
        }
        assert(!is_reserved_name(base@));
        let parent = match self.lookup_bytes(dir.as_slice()) {
            Some(e) => e,
            None => return Err(MemDbError::ParentNotFound),
        };
        if !parent.is_dir() {
            return Err(MemDbError::NotADirectory);
        }
        if self.entries.len() >= MEMDB_MAX_INODES {
            return Err(MemDbError::TooManyInodes);
        }
        let name = match crate::text::string_from_utf8(base.as_slice()) {
            Some(s) => s,
            None => return Err(MemDbError::InvalidPath),
        };
        proof {
            decode_utf8_encode_utf8(base@);
        }
        let nv = next_version_of(self.version);
        let entry_type = if mode & S_IFDIR != 0 { DT_DIR } else { DT_REG };
        let e = TreeEntry {
            inode: nv,
            parent: parent.inode,
            version: nv,
            writer,
            mtime,
            size: 0,
            entry_type,
            name: name.clone(),
            data: Vec::new(),
        };
        let ghost ev = e@;
        self.version = nv;
        self.journal(PersistOp::SetVersion { version: nv, writer, mtime });
        self.journal(PersistOp::Insert { entry: e.clone() });
        self.set_root_meta(nv, writer, mtime);
        self.store_entry(e);
        self.link_child(parent.inode, name, nv);
        if entry_type == DT_DIR {
            self.reset_dir(nv);
        }
        proof {
            let db = create_outcome(old(self)@, encode_utf8(path@), mode, writer, mtime)->Ok_0;
            assert(self@.pending =~= db.pending);
            assert(self@.entries =~= db.entries);
            assert(self@.tree =~= db.tree);
        }
        Ok(())
    }

    /// Writes `data` at `offset` into the file at a path (first cutting it at `offset`
    /// when `truncate` is set); returns the number of bytes written.
    pub fn write(&mut self, path: &str, offset: u64, writer: u32, mtime: u32, data: &[u8], truncate: bool) -> (r: Result<usize, MemDbError>)
        requires
            old(self).wf(),
            write_sums(old(self)@, encode_utf8(path@), offset, data@) ==> file_total(old(self)@.entries) <= usize::MAX,
        ensures
            final(self).wf(),
            match write_outcome(old(self)@, encode_utf8(path@), offset, writer, mtime, data@, truncate) {
                Ok(db) => r == Ok::<usize, MemDbError>(data@.len() as usize) && final(self)@ == db,
                Err(e) => r == Err::<usize, MemDbError>(e) && final(self)@ == old(self)@,
            },
    {
        if self.errors {
            return Err(MemDbError::DatabaseErrors);
        }
        let e = match self.lookup_bytes(path.as_bytes()) {
            Some(e) => e,
            None => return Err(MemDbError::NotFound),
        };
        if e.is_dir() {
            return Err(MemDbError::IsADirectory);
        }
        let off = offset as usize;
        if off > usize::MAX - data.len() {
            return Err(MemDbError::OffsetOverflow);
        }
        let end = off + data.len();
        if end > MEMDB_MAX_FILE_SIZE {
            return Err(MemDbError::FileTooLarge);
        }
        let delta = if end > e.data.len() { end - e.data.len() } else { 0 };
        if delta > 0 {
            let total = self.total_file_size();
            if total > usize::MAX - delta {
                return Err(MemDbError::FsSizeOverflow);
            }
            if total + delta > MEMDB_MAX_FSSIZE {
                return Err(MemDbError::FsTooLarge);
            }
        }
        let ghost od = e.data@;
        let mut nd = e.data.clone();
        assert(nd@ == od);
        let ghost nd_init = nd@;
        if truncate && off < nd.len() {
            nd.truncate(off);
        }
        let ghost d0 = nd@;
        assert(d0 == (if truncate && off < od.len() { od.take(off as int) } else { od }));
        while nd.len() < end
            invariant
                d0.len() <= nd@.len(),
                nd@.len() > d0.len() ==> nd@.len() <= end,
                nd@ == d0 + Seq::new((nd@.len() - d0.len()) as nat, |i: int| 0u8),
            decreases end - nd@.len(),
        {
            let ghost prev = nd@;
            nd.push(0);
            assert(nd@ =~= d0 + Seq::new((nd@.len() - d0.len()) as nat, |i: int| 0u8));
        }
        let ghost d1 = nd@;
        assert(d1 == (if end > d0.len() { d0 + Seq::new((end - d0.len()) as nat, |i: int| 0u8) } else { d0 })) by {
            if end <= d0.len() {
                assert(d1 =~= d0);
            }
        }
        let mut k: usize = 0;
        while k < data.len()
            invariant
                k <= data@.len(),
                off + data@.len() == end <= d1.len(),
                nd@.len() == d1.len(),
                nd@ == d1.take(off as int) + data@.take(k as int) + d1.skip(off + k),
            decreases data@.len() - k,
        {
            nd.set(off + k, data[k]);
            assert(nd@ =~= d1.take(off as int) + data@.take(k + 1) + d1.skip(off + k + 1));
            k += 1;
        }
        assert(data@.take(k as int) =~= data@);
        let nv = next_version_of(self.version);
        let size = nd.len();
        let ne = TreeEntry {
            inode: e.inode,
            parent: e.parent,
            version: nv,
            writer,
            mtime,
            size,
            entry_type: e.entry_type,
            name: e.name.clone(),
            data: nd,
        };
        self.version = nv;
        self.journal(PersistOp::SetVersion { version: nv, writer, mtime });
        self.journal(PersistOp::Update { entry: ne.clone() });
        self.set_root_meta(nv, writer, mtime);
        self.store_entry(ne);
        proof {
            let db = write_outcome(old(self)@, encode_utf8(path@), offset, writer, mtime, data@, truncate)->Ok_0;
            assert(self@.pending =~= db.pending);
            assert(self@.entries =~= db.entries);
        }
        Ok(data.len())
    }
}

} // verus!

verus! {

/// The bytes of the lock directory path `priv/lock`.
pub open spec fn lock_dir_bytes() -> Seq<u8> {
    seq![112u8, 114u8, 105u8, 118u8, 47u8, 108u8, 111u8, 99u8, 107u8]
}

/// The bytes of `priv/lock/`.
pub open spec fn lock_prefix_bytes() -> Seq<u8> {
    lock_dir_bytes().push(SLASH)
}

/// The bytes of `priv/lock`.
pub fn lock_dir_vec() -> (r: Vec<u8>)
    ensures
        r@ == lock_dir_bytes(),
{
    let r = vec![112u8, 114u8, 105u8, 118u8, 47u8, 108u8, 111u8, 99u8, 107u8];
    assert(r@ =~= lock_dir_bytes());
    r
}

/// Whether a path names something inside the lock directory: after its leading slashes
/// it starts with `priv/lock/` and has more after that.
pub open spec fn is_lock_dir_path(p: Seq<u8>) -> bool {
    let t = trim_start(p);
    t.len() > 10 && t.subrange(0, 10) == lock_prefix_bytes()
}

/// Whether a directory at this path is a lock: its parent, without leading slashes, is `priv/lock`.
pub open spec fn parent_is_lock_dir(p: Seq<u8>) -> bool {
    trim_start(dirname(p)) == lock_dir_bytes()
}

/// Result of setting the mtime of the entry at a path; a lock directory's cache entry
/// is renewed with time `now` and the checksum in byte order `o`.
pub open spec fn set_mtime_outcome(
    db: MemDbView,
    pc: Seq<char>,
    writer: u32,
    mtime: u32,
    now: u64,
    o: crate::digest::ByteOrder,
) -> Result<MemDbView, MemDbError> {
    let p = encode_utf8(pc);
    match lookup(db, p) {
        None => Err(MemDbError::NotFound),
        Some(e) => {
            let is_lock = parent_is_lock_dir(p) && e.entry_type == DT_DIR;
            if e.inode == ROOT_INODE {
                Err(MemDbError::RootDirectory)
            } else if p.len() == 0 {
                Err(MemDbError::InvalidPath)
            } else if is_lock && mtime < e.mtime {
                Err(MemDbError::LockMtimeOlder)
            } else if is_lock && e.writer != writer {
                Err(MemDbError::LockOtherWriter)
            } else if db.errors {
                Err(MemDbError::DatabaseErrors)
            } else {
                let nv = next_version(db.version);
                let ne = TreeEntryView { version: nv, writer, mtime, ..e };
                Ok(
                    MemDbView {
                        entries: put_entry(with_root_meta(db.entries, nv, writer, mtime), ne),
                        version: nv,
                        pending: db.pending + seq![
                            PersistOpView::SetVersion { version: nv, writer, mtime },
                            PersistOpView::Update { entry: ne },
                        ],
                        locks: if is_lock {
                            db.locks.insert(
                                pc,
                                LockView {
                                    ltime: now,
                                    csum: crate::digest::sha256_spec(checksum_input(o, ne)),
                                },
                            )
                        } else {
                            db.locks
                        },
                        ..db
                    },
                )
            }
        },
    }
}

/// Result of deleting the entry at a path.
pub open spec fn delete_outcome(db: MemDbView, pc: Seq<char>, writer: u32, mtime: u32) -> Result<MemDbView, MemDbError> {
    let p = encode_utf8(pc);
    match lookup(db, p) {
        None => Err(MemDbError::NotFound),
        Some(e) => {
            let is_dir = e.entry_type == DT_DIR;
            if e.inode == ROOT_INODE {
                Err(MemDbError::RootDirectory)
            } else if is_dir && db.tree.contains_key(e.inode) && db.tree[e.inode].len() > 0 {
                Err(MemDbError::DirectoryNotEmpty)
            } else if db.errors {
                Err(MemDbError::DatabaseErrors)
            } else {
                let nv = next_version(db.version);
                let t = tree_unlink(db.tree, e.parent, encode_utf8(e.name));
                Ok(
                    MemDbView {
                        entries: drop_entry(with_root_meta(db.entries, nv, writer, mtime), e.inode),
                        tree: if is_dir {
                            t.remove(e.inode)
                        } else {
                            t
                        },
                        version: nv,
                        pending: db.pending + seq![
                            PersistOpView::SetVersion { version: nv, writer, mtime },
                            PersistOpView::Delete { inode: e.inode },
                        ],
                        locks: if is_dir {
                            db.locks.remove(pc)
                        } else {
                            db.locks
                        },
                        ..db
                    },
                )
            }
        },
    }
}

/// Result of renaming the entry at `po` to `pn`; another entry at `pn` is replaced, and an
/// entry renamed onto itself stays in place.
pub open spec fn rename_outcome(db: MemDbView, po: Seq<u8>, pn: Seq<u8>, writer: u32, mtime: u32) -> Result<MemDbView, MemDbError> {
    match lookup(db, po) {
        None => Err(MemDbError::NotFound),
        Some(e) => {
            let target = match lookup(db, pn) {
                Some(t) => if t.inode == e.inode {
                    None
                } else {
                    Some(t)
                },
                None => None,
            };
            let np = lookup(db, dirname(pn));
            let base = basename(pn);
            if e.inode == ROOT_INODE {
                Err(MemDbError::RootDirectory)
            } else if e.entry_type == DT_DIR && is_lock_dir_path(po) {
                Err(MemDbError::PermissionDenied)
            } else if pn.len() == 0 {
                Err(MemDbError::InvalidPath)
            } else if np is None {
                Err(MemDbError::ParentNotFound)
            } else if np->Some_0.entry_type != DT_DIR {
                Err(MemDbError::NotADirectory)
            } else if !valid_utf8(base) {
                Err(MemDbError::InvalidPath)
            } else if db.errors {
                Err(MemDbError::DatabaseErrors)
            } else {
                let nv = next_version(db.version);
                let ne = TreeEntryView {
                    parent: np->Some_0.inode,
                    name: decode_utf8(base),
                    writer,
                    mtime,
                    version: nv,
                    ..e
                };
                let s1 = with_root_meta(db.entries, nv, writer, mtime);
                let s2 = match target {
                    Some(t) => drop_entry(s1, t.inode),
                    None => s1,
                };
                Ok(
                    MemDbView {
                        entries: put_entry(s2, ne),
                        tree: tree_link(
                            tree_unlink(db.tree, e.parent, encode_utf8(e.name)),
                            ne.parent,
                            base,
                            e.inode,
                        ),
                        version: nv,
                        pending: db.pending + seq![PersistOpView::SetVersion { version: nv, writer, mtime }]
                            + (match target {
                            Some(t) => seq![PersistOpView::Delete { inode: t.inode }],
                            None => Seq::<PersistOpView>::empty(),
                        }) + seq![PersistOpView::Update { entry: ne }],
                        ..db
                    },
                )
            }
        },
    }
}

impl MemDb {
    /// Position of the lock cache entry with the key.
    fn find_lock(&self, key: &String) -> (r: Option<usize>)
        requires
            self.wf(),
        ensures
            r is Some <==> self@.locks.contains_key(key@),
            r matches Some(i) ==> i < self.locks@.len() && self.locks@[i as int].key@ == key@
                && self@.locks[key@] == (LockView { ltime: self.locks@[i as int].ltime, csum: self.locks@[i as int].csum@ }),
    {
        let mut i: usize = 0;
        while i < self.locks.len()
            invariant
                i <= self.locks@.len(),
                self.wf(),
                forall|k: int| 0 <= k < i ==> self.locks@[k].key@ != key@,
            decreases self.locks@.len() - i,
        {
            if self.locks[i].key == *key {
                proof {
                    lemma_assoc_index(lock_pairs(self.locks@), i as int);
                }
                return Some(i);
            }
            i += 1;
        }
        proof {
            lemma_assoc_absent(lock_pairs(self.locks@), key@);
        }
        None
    }

    /// Stores a lock cache entry, replacing the one with the same key.
    fn put_lock(&mut self, key: String, ltime: u64, csum: [u8; 32])
        requires
            old(self).wf(),
        ensures
            final(self).wf(),
            final(self)@ == (MemDbView {
                locks: old(self)@.locks.insert(key@, LockView { ltime, csum: csum@ }),
                ..old(self)@
            }),
    {
        let ghost kv = key@;
        let ghost lv = LockView { ltime, csum: csum@ };
        match self.find_lock(&key) {
            Some(i) => {
                proof {
                    lemma_assoc_update(lock_pairs(self.locks@), i as int, lv);
                }
                self.locks.set(i, LockRecord { key, ltime, csum });
                assert(lock_pairs(self.locks@) =~= lock_pairs(old(self).locks@).update(i as int, (kv, lv)));
            },
            None => {
                proof {
                    assert(!has_key(lock_pairs(self.locks@), kv));
                    lemma_assoc_push(lock_pairs(self.locks@), kv, lv);
                }
                self.locks.push(LockRecord { key, ltime, csum });
                assert(lock_pairs(self.locks@) =~= lock_pairs(old(self).locks@).push((kv, lv)));
            },
        }
    }

    /// Removes the lock cache entry with the key.
    fn drop_lock(&mut self, key: &String)
        requires
            old(self).wf(),
        ensures
            final(self).wf(),
            final(self)@ == (MemDbView { locks: old(self)@.locks.remove(key@), ..old(self)@ }),
    {
        match self.find_lock(key) {
            Some(i) => {
                proof {
                    lemma_assoc_remove(lock_pairs(self.locks@), i as int);
                }
                self.locks.remove(i);
                assert(lock_pairs(self.locks@) =~= lock_pairs(old(self).locks@).remove(i as int));
            },
            None => {
                assert(old(self)@.locks.remove(key@) =~= old(self)@.locks);
            },
        }
    }

    /// Sets the modification time of the entry at a path, stamping lock cache renewals
    /// with time `now` and checksums in byte order `o`.
    pub fn set_mtime_at(&mut self, path: &str, writer: u32, mtime: u32, now: u64, o: crate::digest::ByteOrder) -> (r: Result<(), MemDbError>)
        requires
            old(self).wf(),
        ensures
            final(self).wf(),
            match set_mtime_outcome(old(self)@, path@, writer, mtime, now, o) {
                Ok(db) => r is Ok && final(self)@ == db,
                Err(e) => r == Err::<(), MemDbError>(e) && final(self)@ == old(self)@,
            },
    {
        let p = path.as_bytes();
        let e = match self.lookup_bytes(p) {
            Some(e) => e,
            None => return Err(MemDbError::NotFound),
        };
        if e.inode == ROOT_INODE {
            return Err(MemDbError::RootDirectory);
        }
        if p.len() == 0 {
            return Err(MemDbError::InvalidPath);
        }
        let (dir, _base) = split_path(p);
        let trimmed = trim_leading_slashes(dir.as_slice());
        let lock_dir = lock_dir_vec();
        let is_lock = bytes_eq(trimmed.as_slice(), lock_dir.as_slice()) && e.is_dir();
        if is_lock && mtime < e.mtime {
            return Err(MemDbError::LockMtimeOlder);
        }
        if is_lock && e.writer != writer {
            return Err(MemDbError::LockOtherWriter);
        }
        if self.errors {
            return Err(MemDbError::DatabaseErrors);
        }
        let nv = next_version_of(self.version);
        let ne = TreeEntry {
            inode: e.inode,
            parent: e.parent,
            version: nv,
            writer,
            mtime,
            size: e.size,
            entry_type: e.entry_type,
            name: e.name.clone(),
            data: e.data.clone(),
        };
        let csum = ne.compute_checksum_in(o);
        self.version = nv;
        self.journal(PersistOp::SetVersion { version: nv, writer, mtime });
        self.journal(PersistOp::Update { entry: ne.clone() });
        self.set_root_meta(nv, writer, mtime);
        self.store_entry(ne);
        if is_lock {
            let key = path.to_owned();
            self.drop_lock(&key);
            self.put_lock(key, now, csum);
            assert(self@.locks =~= old(self)@.locks.insert(path@, LockView { ltime: now, csum: csum@ }));
        }
        proof {
            let db = set_mtime_outcome(old(self)@, path@, writer, mtime, now, o)->Ok_0;
            assert(self@.pending =~= db.pending);
        }
        Ok(())
    }

    /// Sets the modification time of the entry at a path.
    pub fn set_mtime(&mut self, path: &str, writer: u32, mtime: u32) -> (r: Result<(), MemDbError>)
        requires
            old(self).wf(),
        ensures
            final(self).wf(),
            exists|now: u64, o: crate::digest::ByteOrder| match #[trigger] set_mtime_outcome(old(self)@, path@, writer, mtime, now, o) {
                Ok(db) => r is Ok && final(self)@ == db,
                Err(e) => r == Err::<(), MemDbError>(e) && final(self)@ == old(self)@,
            },
    {
        let now = crate::clock::unix_time_secs();
        let o = crate::digest::native_byte_order();
        self.set_mtime_at(path, writer, mtime, now, o)
    }

    /// Deletes the entry at a path; a directory must be empty.
    pub fn delete(&mut self, path: &str, writer: u32, mtime: u32) -> (r: Result<(), MemDbError>)
        requires
            old(self).wf(),
        ensures
            final(self).wf(),
            match delete_outcome(old(self)@, path@, writer, mtime) {
                Ok(db) => r is Ok && final(self)@ == db,
                Err(e) => r == Err::<(), MemDbError>(e) && final(self)@ == old(self)@,
            },
    {
        let e = match self.lookup_bytes(path.as_bytes()) {
            Some(e) => e,
            None => return Err(MemDbError::NotFound),
        };
        if e.inode == ROOT_INODE {
            return Err(MemDbError::RootDirectory);
        }
        let is_dir = e.is_dir();
        if is_dir {
            match self.find_dir(e.inode) {
                Some(d) => {
                    if self.dirs[d].children.len() > 0 {
                        return Err(MemDbError::DirectoryNotEmpty);
                    }
                },
                None => {},
            }
        }
        if self.errors {
            return Err(MemDbError::DatabaseErrors);
        }
        let nv = next_version_of(self.version);
        self.version = nv;
        self.journal(PersistOp::SetVersion { version: nv, writer, mtime });
        self.journal(PersistOp::Delete { inode: e.inode });
        self.set_root_meta(nv, writer, mtime);
        self.discard_entry(e.inode);
        self.unlink_child(e.parent, e.name.as_str().as_bytes());
        if is_dir {
            self.remove_dir(e.inode);
            let key = path.to_owned();
            self.drop_lock(&key);
        }
        proof {
            let db = delete_outcome(old(self)@, path@, writer, mtime)->Ok_0;
            assert(self@.pending =~= db.pending);
        }
        Ok(())
    }

    /// Renames the entry at `old_path` to `new_path`, replacing an entry there.
    pub fn rename(&mut self, old_path: &str, new_path: &str, writer: u32, mtime: u32) -> (r: Result<(), MemDbError>)
        requires
            old(self).wf(),
        ensures
            final(self).wf(),
            match rename_outcome(old(self)@, encode_utf8(old_path@), encode_utf8(new_path@), writer, mtime) {
                Ok(db) => r is Ok && final(self)@ == db,
                Err(e) => r == Err::<(), MemDbError>(e) && final(self)@ == old(self)@,
            },
    {
        let po = old_path.as_bytes();
        let pn = new_path.as_bytes();
        let e = match self.lookup_bytes(po) {
            Some(e) => e,
            None => return Err(MemDbError::NotFound),
        };
        if e.inode == ROOT_INODE {
            return Err(MemDbError::RootDirectory);
        }
        if e.is_dir() {
            let t = trim_leading_slashes(po);
            let mut prefix = lock_dir_vec();
            prefix.push(SLASH);
            if t.len() > 10 && starts_with(t.as_slice(), prefix.as_slice()) {
                return Err(MemDbError::PermissionDenied);
            }
        }
        let target = match self.lookup_bytes(pn) {
            Some(t) => if t.inode == e.inode {
                None
            } else {
                Some(t)
            },
            None => None,
        };
        if pn.len() == 0 {
            return Err(MemDbError::InvalidPath);
        }
        let (dir, base) = split_path(pn);
        let np = match self.lookup_bytes(dir.as_slice()) {
            Some(x) => x,
            None => return Err(MemDbError::ParentNotFound),
        };
        if !np.is_dir() {
            return Err(MemDbError::NotADirectory);
        }
        let name = match crate::text::string_from_utf8(base.as_slice()) {
            Some(s) => s,
            None => return Err(MemDbError::InvalidPath),
        };
        proof {
            decode_utf8_encode_utf8(base@);
        }
        if self.errors {
            return Err(MemDbError::DatabaseErrors);
        }
        let nv = next_version_of(self.version);
        let ne = TreeEntry {
            inode: e.inode,
            parent: np.inode,
            version: nv,
            writer,
            mtime,
            size: e.size,
            entry_type: e.entry_type,
            name: name.clone(),
            data: e.data.clone(),
        };
        self.version = nv;
        self.journal(PersistOp::SetVersion { version: nv, writer, mtime });
        match &target {
            Some(t) => {
                self.journal(PersistOp::Delete { inode: t.inode });
            },
            None => {},
        }
        self.journal(PersistOp::Update { entry: ne.clone() });
        self.set_root_meta(nv, writer, mtime);
        match &target {
            Some(t) => {
                self.discard_entry(t.inode);
            },
            None => {},
        }
        self.store_entry(ne);
        self.unlink_child(e.parent, e.name.as_str().as_bytes());
        self.link_child(np.inode, name, e.inode);
        proof {
            let db = rename_outcome(old(self)@, encode_utf8(old_path@), encode_utf8(new_path@), writer, mtime)->Ok_0;
            assert(self@.pending =~= db.pending);
        }
        Ok(())
    }
}

} // verus!

verus! {

/// Largest version among the entries (0 for none).
pub open spec fn max_version(es: Seq<TreeEntryView>) -> u64
    decreases es.len(),
{
    if es.len() == 0 {
        0
    } else {
        let m = max_version(es.drop_last());
        if es.last().version > m {
            es.last().version
        } else {
            m
        }
    }
}

/// The entries after storing each of `es` in turn into an empty database.
pub open spec fn rebuilt_entries(es: Seq<TreeEntryView>) -> Seq<TreeEntryView>
    decreases es.len(),
{
    if es.len() == 0 {
        Seq::empty()
    } else {
        put_entry(rebuilt_entries(es.drop_last()), es.last())
    }
}

/// The tree after linking each of `es` in turn (with a children table for each directory),
/// starting from `t`.
pub open spec fn linked_tree(t: Map<u64, Seq<(Seq<u8>, u64)>>, es: Seq<TreeEntryView>) -> Map<u64, Seq<(Seq<u8>, u64)>>
    decreases es.len(),
{
    if es.len() == 0 {
        t
    } else {
        let e = es.last();
        let t1 = tree_link(linked_tree(t, es.drop_last()), e.parent, encode_utf8(e.name), e.inode);
        if e.entry_type == DT_DIR {
            tree_ensure(t1, e.inode)
        } else {
            t1
        }
    }
}

/// State after replacing all entries with `es`.
pub open spec fn replace_all_outcome(db: MemDbView, es: Seq<TreeEntryView>) -> MemDbView {
    MemDbView {
        entries: rebuilt_entries(es),
        tree: linked_tree(Map::empty(), es),
        version: max_version(es),
        pending: db.pending.push(PersistOpView::ReplaceAll { entries: es }),
        ..db
    }
}

/// State after applying an entry received from the synchronization leader.
pub open spec fn apply_outcome(db: MemDbView, e: TreeEntryView) -> MemDbView {
    let key = encode_utf8(e.name);
    let t1 = if db.index().contains_key(e.inode) {
        let o = db.index()[e.inode];
        if o.parent != e.parent || o.name != e.name {
            tree_link(tree_unlink(db.tree, o.parent, encode_utf8(o.name)), e.parent, key, e.inode)
        } else {
            db.tree
        }
    } else {
        tree_link(db.tree, e.parent, key, e.inode)
    };
    let s1 = put_entry(db.entries, e);
    MemDbView {
        entries: if e.inode != ROOT_INODE {
            with_root_meta(s1, e.version, e.writer, e.mtime)
        } else {
            s1
        },
        tree: if e.entry_type == DT_DIR {
            tree_ensure(t1, e.inode)
        } else {
            t1
        },
        version: if e.version > db.version {
            e.version
        } else {
            db.version
        },
        pending: db.pending.push(PersistOpView::Upsert { entry: e }) + (if e.inode != ROOT_INODE {
            seq![PersistOpView::SetVersion { version: e.version, writer: e.writer, mtime: e.mtime }]
        } else {
            Seq::empty()
        }),
        ..db
    }
}

/// The bytes of the root metadata row name `__version__`.
pub open spec fn version_name_bytes() -> Seq<u8> {
    seq![95u8, 95u8, 118u8, 101u8, 114u8, 115u8, 105u8, 111u8, 110u8, 95u8, 95u8]
}

/// State while loading stored rows: entries and tree so far, the largest version seen,
/// and the root metadata found so far.
pub struct LoadAcc {
    pub entries: Seq<TreeEntryView>,
    pub tree: Map<u64, Seq<(Seq<u8>, u64)>>,
    pub max_version: u64,
    pub root_version: u64,
    pub root_writer: u32,
    pub root_mtime: u32,
}

/// Loading state after the stored rows `rows`, starting with the root mtime `now`.
pub open spec fn load_fold(rows: Seq<TreeEntryView>, now: u32) -> LoadAcc
    decreases rows.len(),
{
    if rows.len() == 0 {
        LoadAcc { entries: Seq::empty(), tree: Map::empty(), max_version: 0, root_version: 0, root_writer: 0, root_mtime: now }
    } else {
        let a = load_fold(rows.drop_last(), now);
        let e = rows.last();
        let mv = if e.version > a.max_version { e.version } else { a.max_version };
        if e.inode == ROOT_INODE {
            if encode_utf8(e.name) == version_name_bytes() {
                LoadAcc { root_version: e.version, root_writer: e.writer, root_mtime: e.mtime, max_version: mv, ..a }
            } else {
                a
            }
        } else {
            let t1 = tree_link(a.tree, e.parent, encode_utf8(e.name), e.inode);
            LoadAcc {
                entries: put_entry(a.entries, e),
                tree: if e.entry_type == DT_DIR {
                    tree_ensure(t1, e.inode)
                } else {
                    t1
                },
                max_version: mv,
                ..a
            }
        }
    }
}

/// The database loaded from stored rows: the rows other than the root metadata row, and a
/// root directory carrying that row's version, writer and mtime (version 1 and `now` without it).
pub open spec fn load_outcome(rows: Seq<TreeEntryView>, now: u32) -> MemDbView {
    let a = load_fold(rows, now);
    let rv = if a.root_version == 0 { 1 } else { a.root_version };
    let root = TreeEntryView {
        inode: ROOT_INODE,
        parent: ROOT_INODE,
        version: rv,
        writer: a.root_writer,
        mtime: a.root_mtime,
        size: 0,
        entry_type: DT_DIR,
        name: Seq::empty(),
        data: Seq::empty(),
    };
    MemDbView {
        entries: put_entry(a.entries, root),
        tree: tree_ensure(a.tree, ROOT_INODE),
        version: if a.root_version == 0 { 1 } else { a.max_version },
        locks: Map::empty(),
        errors: false,
        pending: Seq::empty(),
    }
}

/// File system statistics: total and free blocks of 4096 bytes, blocks available,
/// total and free inodes.
pub open spec fn statfs_of(db: MemDbView) -> (u64, u64, u64, u64, u64) {
    let used = (file_total(db.entries) + 4095) / 4096;
    let bfree = if used >= 32768 { 0 } else { 32768 - used };
    let ffree = if db.entries.len() >= 262144 { 0 } else { 262144 - db.entries.len() };
    (32768, bfree as u64, bfree as u64, 262144, ffree as u64)
}

fn version_name_vec() -> (r: Vec<u8>)
    ensures
        r@ == version_name_bytes(),
{
    let r = vec![95u8, 95u8, 118u8, 101u8, 114u8, 115u8, 105u8, 111u8, 110u8, 95u8, 95u8];
    assert(r@ =~= version_name_bytes());
    r
}

impl MemDb {
    /// An empty database, without a root entry.
    fn blank() -> (r: MemDb)
        ensures
            r.wf(),
            r@ == (MemDbView {
                entries: Seq::empty(),
                tree: Map::empty(),
                version: 0,
                locks: Map::empty(),
                errors: false,
                pending: Seq::empty(),
            }),
    {
        let r = MemDb { entries: Vec::new(), dirs: Vec::new(), version: 0, locks: Vec::new(), errors: false, pending: Vec::new() };
        proof {
            lemma_assoc_empty::<u64, Seq<(Seq<u8>, u64)>>();
            lemma_assoc_empty::<Seq<char>, LockView>();
            assert(dir_pairs(r.dirs@) =~= Seq::<(u64, Seq<(Seq<u8>, u64)>)>::empty());
            assert(lock_pairs(r.locks@) =~= Seq::<(Seq<char>, LockView)>::empty());
            assert(entry_views(r.entries@) =~= Seq::<TreeEntryView>::empty());
            assert(op_views(r.pending@) =~= Seq::<PersistOpView>::empty());
        }
        r
    }

    /// The database loaded from its stored rows; `now` is the root's mtime when no row
    /// carries root metadata.
    pub fn load(rows: Vec<TreeEntry>, now: u32) -> (r: MemDb)
        ensures
            r.wf(),
            r@ == load_outcome(entry_views(rows@), now),
    {
        let ghost rs = entry_views(rows@);
        let mut db = MemDb::blank();
        let vname = version_name_vec();
        let mut max_version: u64 = 0;
        let mut root_version: u64 = 0;
        let mut root_writer: u32 = 0;
        let mut root_mtime: u32 = now;
        let mut i: usize = 0;
        while i < rows.len()
            invariant
                i <= rows@.len(),
                rs == entry_views(rows@),
                vname@ == version_name_bytes(),
                db.wf(),
                db@.locks == Map::<Seq<char>, LockView>::empty(),
                !db@.errors,
                db@.pending == Seq::<PersistOpView>::empty(),
                db@.version == 0,
                ({
                    let a = load_fold(rs.take(i as int), now);
                    &&& db@.entries == a.entries
                    &&& db@.tree == a.tree
                    &&& max_version == a.max_version
                    &&& root_version == a.root_version
                    &&& root_writer == a.root_writer
                    &&& root_mtime == a.root_mtime
                }),
            decreases rows@.len() - i,
        {
            let e = rows[i].clone();
            assert(rs.take(i + 1).drop_last() =~= rs.take(i as int));
            assert(rs.take(i + 1).last() == e@);
            let mv = if e.version > max_version { e.version } else { max_version };
            if e.inode == ROOT_INODE {
                if bytes_eq(e.name.as_str().as_bytes(), vname.as_slice()) {
                    root_version = e.version;
                    root_writer = e.writer;
                    root_mtime = e.mtime;
                    max_version = mv;
                }
            } else {
                max_version = mv;
                let is_dir = e.is_dir();
                let parent = e.parent;
                let inode = e.inode;
                let name = e.name.clone();
                db.link_child(parent, name, inode);
                if is_dir {
                    db.ensure_dir(inode);
                }
                db.store_entry(e);
            }
            i += 1;
        }
        assert(rs.take(i as int) =~= rs);
        let rv = if root_version == 0 { 1 } else { root_version };
        let root = TreeEntry {
            inode: ROOT_INODE,
            parent: ROOT_INODE,
            version: rv,
            writer: root_writer,
            mtime: root_mtime,
            size: 0,
            entry_type: DT_DIR,
            name: String::new(),
            data: Vec::new(),
        };
        db.version = if root_version == 0 { 1 } else { max_version };
        db.store_entry(root);
        db.ensure_dir(ROOT_INODE);
        db
    }

    /// Replaces all entries (full state synchronization); the version becomes the largest entry version.
    pub fn replace_all_entries(&mut self, entries: Vec<TreeEntry>) -> (r: Result<(), MemDbError>)
        requires
            old(self).wf(),
        ensures
            final(self).wf(),
            r is Ok,
            final(self)@ == replace_all_outcome(old(self)@, entry_views(entries@)),
    {
        let ghost es = entry_views(entries@);
        let mut fresh = MemDb::blank();
        let mut copies: Vec<TreeEntry> = Vec::new();
        let mut max_v: u64 = 0;
        let mut i: usize = 0;
        while i < entries.len()
            invariant
                i <= entries@.len(),
                es == entry_views(entries@),
                fresh.wf(),
                fresh@.entries == rebuilt_entries(es.take(i as int)),
                fresh@.tree == linked_tree(Map::empty(), es.take(i as int)),
                max_v == max_version(es.take(i as int)),
                entry_views(copies@) == es.take(i as int),
            decreases entries@.len() - i,
        {
            let e = entries[i].clone();
            assert(es.take(i + 1).drop_last() =~= es.take(i as int));
            assert(es.take(i + 1).last() == e@);
            let ghost prev = copies@;
            copies.push(entries[i].clone());
            assert(entry_views(copies@) =~= es.take(i + 1));
            if e.version > max_v {
                max_v = e.version;
            }
            let is_dir = e.is_dir();
            let inode = e.inode;
            fresh.link_child(e.parent, e.name.clone(), inode);
            if is_dir {
                fresh.ensure_dir(inode);
            }
            fresh.store_entry(e);
            i += 1;
        }
        assert(es.take(i as int) =~= es);
        self.journal(PersistOp::ReplaceAll { entries: copies });
        self.entries = fresh.entries;
        self.dirs = fresh.dirs;
        self.version = max_v;
        proof {
            assert(self@.entries == replace_all_outcome(old(self)@, es).entries);
            assert(self@.tree == replace_all_outcome(old(self)@, es).tree);
            assert(self@.pending =~= replace_all_outcome(old(self)@, es).pending);
        }
        Ok(())
    }

    /// Applies one entry received from the synchronization leader.
    pub fn apply_tree_entry(&mut self, entry: TreeEntry) -> (r: Result<(), MemDbError>)
        requires
            old(self).wf(),
        ensures
            final(self).wf(),
            r is Ok,
            final(self)@ == apply_outcome(old(self)@, entry@),
    {
        let ghost ev = entry@;
        self.journal(PersistOp::Upsert { entry: entry.clone() });
        if entry.inode != ROOT_INODE {
            self.journal(PersistOp::SetVersion { version: entry.version, writer: entry.writer, mtime: entry.mtime });
        }
        let old_entry = self.get_entry_by_inode(entry.inode);
        match old_entry {
            Some(o) => {
                if o.parent != entry.parent || o.name != entry.name {
                    self.unlink_child(o.parent, o.name.as_str().as_bytes());
                    self.link_child(entry.parent, entry.name.clone(), entry.inode);
                }
            },
            None => {
                self.link_child(entry.parent, entry.name.clone(), entry.inode);
            },
        }
        if entry.is_dir() {
            self.ensure_dir(entry.inode);
        }
        let inode = entry.inode;
        let version = entry.version;
        let writer = entry.writer;
        let mtime = entry.mtime;
        self.store_entry(entry);
        if inode != ROOT_INODE {
            self.set_root_meta(version, writer, mtime);
        }
        if version > self.version {
            self.version = version;
        }
        proof {
            assert(self@.pending =~= apply_outcome(old(self)@, ev).pending);
        }
        Ok(())
    }

    /// File system statistics `(blocks, bfree, bavail, files, ffree)` in blocks of 4096 bytes.
    pub fn statfs(&self) -> (r: (u64, u64, u64, u64, u64))
        requires
            self.wf(),
            file_total(self@.entries) + 4095 <= u64::MAX,
            file_total(self@.entries) <= usize::MAX,
        ensures
            r == statfs_of(self@),
    {
        let total = self.total_file_size() as u64;
        let blocks: u64 = 134217728 / 4096;
        let used = (total + 4095) / 4096;
        let bfree = if used >= blocks { 0 } else { blocks - used };
        let files: u64 = 262144;
        let n = self.entries.len() as u64;
        let ffree = if n >= files { 0 } else { files - n };
        (blocks, bfree, bfree, files, ffree)
    }

    /// The root metadata row as sent to other nodes: inode 0 named `__version__` with the
    /// root's version, writer and mtime.
    pub fn get_version_entry(&self) -> (r: Result<TreeEntry, MemDbError>)
        requires
            self.wf(),
        ensures
            match r {
                Ok(e) => self@.index().contains_key(ROOT_INODE) && e@ == (TreeEntryView {
                    inode: ROOT_INODE,
                    parent: ROOT_INODE,
                    version: self@.index()[ROOT_INODE].version,
                    writer: self@.index()[ROOT_INODE].writer,
                    mtime: self@.index()[ROOT_INODE].mtime,
                    size: 0,
                    entry_type: DT_REG,
                    name: e.name@,
                    data: Seq::empty(),
                }) && encode_utf8(e.name@) == version_name_bytes(),
                Err(err) => !self@.index().contains_key(ROOT_INODE) && err == MemDbError::RootMissing,
            },
    {
        let root = match self.get_entry_by_inode(ROOT_INODE) {
            Some(r) => r,
            None => return Err(MemDbError::RootMissing),
        };
        let vname = version_name_vec();
        let name = crate::text::ascii_to_string(&vname);
        Ok(TreeEntry {
            inode: ROOT_INODE,
            parent: ROOT_INODE,
            version: root.version,
            writer: root.writer,
            mtime: root.mtime,
            size: 0,
            entry_type: DT_REG,
            name,
            data: Vec::new(),
        })
    }
}

} // verus!

verus! {

/// Digest of an entry for the index, integers in byte order `o`.
pub open spec fn entry_digest_of(o: crate::digest::ByteOrder, e: TreeEntryView) -> Seq<u8> {
    crate::digest::sha256_spec(
        crate::memdb::index::entry_digest_input(o, e.parent, e.version, e.writer, e.mtime, e.size, e.entry_type, e.name, e.data),
    )
}

/// `ix` holds, position by position, the inode and digest of each entry of `s`.
pub open spec fn digests_match(ix: Seq<crate::memdb::index::IndexEntry>, s: Seq<TreeEntryView>, o: crate::digest::ByteOrder) -> bool {
    &&& ix.len() == s.len()
    &&& forall|i: int| 0 <= i < s.len() ==> ix[i].inode == s[i].inode && ix[i].digest@ == entry_digest_of(o, #[trigger] s[i])
}

/// Largest inode among the entries (1 when there are none).
pub open spec fn max_inode(s: Seq<TreeEntryView>) -> u64
    decreases s.len(),
{
    if s.len() == 0 {
        1
    } else if s.len() == 1 {
        s[0].inode
    } else {
        let m = max_inode(s.drop_last());
        if s.last().inode > m {
            s.last().inode
        } else {
            m
        }
    }
}

/// The entries with the root's version set to `v`.
pub open spec fn with_root_version(s: Seq<TreeEntryView>, v: u64) -> Seq<TreeEntryView> {
    let k = entry_pos(s, ROOT_INODE);
    if k >= 0 {
        s.update(k, TreeEntryView { version: v, ..s[k] })
    } else {
        s
    }
}

/// State after encoding the index: the root's version brought to the version counter,
/// stored when it changed.
pub open spec fn encode_index_state(db: MemDbView) -> MemDbView {
    let root = db.index()[ROOT_INODE];
    if root.version != db.version {
        MemDbView {
            entries: with_root_version(db.entries, db.version),
            pending: db.pending.push(PersistOpView::SetRootVersion { version: db.version }),
            ..db
        }
    } else {
        db
    }
}

impl MemDb {
    /// Encodes the index of all entries (inode and digest, sorted by inode) for state
    /// synchronization, digests computed with integers in byte order `o`.
    pub fn encode_index_in(&mut self, o: crate::digest::ByteOrder) -> (r: Result<crate::memdb::index::MemDbIndex, MemDbError>)
        requires
            old(self).wf(),
            old(self)@.entries.len() <= 107374181,
        ensures
            final(self).wf(),
            !old(self)@.index().contains_key(ROOT_INODE) ==> r == Err::<crate::memdb::index::MemDbIndex, MemDbError>(MemDbError::RootMissing)
                && final(self)@ == old(self)@,
            old(self)@.index().contains_key(ROOT_INODE) ==> final(self)@ == encode_index_state(old(self)@) && (r matches Ok(x) && {
                let db = final(self)@;
                &&& x.version == db.version
                &&& x.last_inode == max_inode(db.entries)
                &&& x.writer == db.index()[ROOT_INODE].writer
                &&& x.mtime == db.index()[ROOT_INODE].mtime
                &&& x.size == db.entries.len()
                &&& x.bytes == 32 + 40 * db.entries.len()
                &&& crate::memdb::index::strictly_sorted_by_inode(x.entries@)
                &&& exists|ix: Seq<crate::memdb::index::IndexEntry>| digests_match(ix, db.entries, o) && x.entries@.to_multiset() == ix.to_multiset()
            }),
    {
        let k = match self.find_entry(ROOT_INODE) {
            Some(k) => k,
            None => return Err(MemDbError::RootMissing),
        };
        if self.entries[k].version != self.version {
            let v = self.version;
            self.journal(PersistOp::SetRootVersion { version: v });
            let old_e = &self.entries[k];
            let e = TreeEntry {
                inode: old_e.inode,
                parent: old_e.parent,
                version: v,
                writer: old_e.writer,
                mtime: old_e.mtime,
                size: old_e.size,
                entry_type: old_e.entry_type,
                name: old_e.name.clone(),
                data: old_e.data.clone(),
            };
            proof {
                lemma_entry_pos(old(self)@.entries, ROOT_INODE);
                lemma_put_entry(old(self)@.entries, e@);
            }
            self.store_entry(e);
            assert(self@.entries =~= with_root_version(old(self)@.entries, v));
        }
        let (rw, rm) = match self.find_entry(ROOT_INODE) {
            Some(k2) => (self.entries[k2].writer, self.entries[k2].mtime),
            None => (0, 0),
        };
        assert(self@.index().contains_key(ROOT_INODE));
        let ghost s = self@.entries;
        let mut ix: Vec<crate::memdb::index::IndexEntry> = Vec::new();
        let mut last: u64 = 1;
        let mut i: usize = 0;
        while i < self.entries.len()
            invariant
                i <= s.len(),
                self.wf(),
                s == self@.entries,
                s == entry_views(self.entries@),
                digests_match(ix@, s.take(i as int), o),
                last == max_inode(s.take(i as int)),
            decreases s.len() - i,
        {
            let e = &self.entries[i];
            let digest = crate::memdb::index::MemDbIndex::compute_entry_digest_in(
                o,
                e.parent,
                e.version,
                e.writer,
                e.mtime,
                e.size,
                e.entry_type,
                e.name.as_str(),
                e.data.as_slice(),
            );
            ix.push(crate::memdb::index::IndexEntry { inode: e.inode, digest });
            assert(s.take(i + 1).drop_last() =~= s.take(i as int));
            if i == 0 || e.inode > last {
                last = e.inode;
            }
            i += 1;
        }
        assert(s.take(i as int) =~= s);
        let ghost ixs = ix@;
        let x = crate::memdb::index::MemDbIndex::new(self.version, last, rw, rm, ix);
        assert(digests_match(ixs, self@.entries, o));
        proof {
            let p = choose|p: Seq<int>| crate::memdb::index::stable_sort_witness(x.entries@, ixs, p);
            let r = x.entries@;
            assert forall|a: int, b: int| 0 <= a < b < r.len() implies r[a].inode < r[b].inode by {
                assert(r[a].inode <= r[b].inode);
                assert(p[a] != p[b]);
                assert(r[a] == ixs[p[a]] && r[b] == ixs[p[b]]);
                assert(ixs[p[a]].inode == s[p[a]].inode);
                assert(ixs[p[b]].inode == s[p[b]].inode);
                if p[a] < p[b] {
                    assert(s[p[a]].inode != s[p[b]].inode);
                } else {
                    assert(s[p[b]].inode != s[p[a]].inode);
                }
            }
        }
        Ok(x)
    }

    /// Encodes the index of all entries for state synchronization, digests computed with
    /// integers in the byte order of this machine.
    pub fn encode_index(&mut self) -> (r: Result<crate::memdb::index::MemDbIndex, MemDbError>)
        requires
            old(self).wf(),
            old(self)@.entries.len() <= 107374181,
        ensures
            final(self).wf(),
            !old(self)@.index().contains_key(ROOT_INODE) ==> r == Err::<crate::memdb::index::MemDbIndex, MemDbError>(MemDbError::RootMissing)
                && final(self)@ == old(self)@,
            old(self)@.index().contains_key(ROOT_INODE) ==> final(self)@ == encode_index_state(old(self)@) && (r matches Ok(x) && {
                let db = final(self)@;
                &&& x.version == db.version
                &&& x.last_inode == max_inode(db.entries)
                &&& x.writer == db.index()[ROOT_INODE].writer
                &&& x.mtime == db.index()[ROOT_INODE].mtime
                &&& x.size == db.entries.len()
                &&& x.bytes == 32 + 40 * db.entries.len()
                &&& crate::memdb::index::strictly_sorted_by_inode(x.entries@)
                &&& exists|o: crate::digest::ByteOrder, ix: Seq<crate::memdb::index::IndexEntry>| digests_match(ix, db.entries, o) && x.entries@.to_multiset() == ix.to_multiset()
            }),
    {
        let o = crate::digest::native_byte_order();
        self.encode_index_in(o)
    }
}

} // verus!

verus! {

/// Lock cache key of a path, as text.
pub open spec fn lock_key(pc: Seq<char>) -> Seq<char> {
    decode_utf8(crate::memdb::locks::lock_key_bytes(encode_utf8(pc)))
}

/// `a - b`, or zero when `b` is larger.
pub open spec fn sat_sub(a: u64, b: u64) -> u64 {
    if a >= b {
        (a - b) as u64
    } else {
        0
    }
}

/// Result of checking whether the lock on a path expired at time `now`, and the state after:
/// an unknown lock, or one cached with another checksum, is (re)cached with `csum` and time
/// `now` and is not expired; a known one is expired when more than the timeout has passed.
pub open spec fn lock_expired_outcome(db: MemDbView, pc: Seq<char>, csum: Seq<u8>, now: u64) -> (bool, MemDbView) {
    let k = lock_key(pc);
    let renewed = MemDbView { locks: db.locks.insert(k, LockView { ltime: now, csum }), ..db };
    if db.locks.contains_key(k) {
        let l = db.locks[k];
        if l.csum != csum {
            (false, renewed)
        } else {
            (sat_sub(now, l.ltime) > LOCK_TIMEOUT, db)
        }
    } else {
        (false, renewed)
    }
}

/// Whether the lock on a path is held at time `now`: cached and not older than the timeout.
pub open spec fn is_locked_at_spec(db: MemDbView, pc: Seq<char>, now: u64) -> bool {
    let k = lock_key(pc);
    db.locks.contains_key(k) && sat_sub(now, db.locks[k].ltime) <= LOCK_TIMEOUT
}

/// The text of a lock key, as bytes, holds `..`.
pub open spec fn has_dot_dot(b: Seq<u8>) -> bool {
    exists|i: int| 0 <= i < b.len() - 1 && #[trigger] b[i] == DOT && b[i + 1] == DOT
}

/// Mode of a new lock directory: a directory with permissions 0755.
pub const LOCK_DIR_MODE: u32 = 16877;

/// The absolute path of the lock directory, `/priv/lock`, as text.
pub open spec fn lock_dir_abs() -> Seq<char> {
    seq!['/', 'p', 'r', 'i', 'v', '/', 'l', 'o', 'c', 'k']
}

/// Result of acquiring the lock on a path with checksum `csum` at time `now`: the state
/// after, or the error and the state it left (the lock directory may have been created).
pub open spec fn acquire_outcome(db: MemDbView, pc: Seq<char>, csum: Seq<u8>, now: u64) -> Result<MemDbView, (MemDbError, MemDbView)> {
    let k = lock_key(pc);
    let kb = crate::memdb::locks::lock_key_bytes(encode_utf8(pc));
    let lp = seq!['/'] + k;
    let name = if kb.len() >= 10 && kb.subrange(0, 10) == lock_prefix_bytes() { kb.skip(10) } else { kb };
    let m = now as u32;
    let cached = |d: MemDbView| MemDbView { locks: d.locks.insert(k, LockView { ltime: now, csum }), ..d };
    if db.locks.contains_key(k) && sat_sub(now, db.locks[k].ltime) <= LOCK_TIMEOUT && db.locks[k].csum != csum {
        Err((MemDbError::LockHeld, db))
    } else if kb == lock_dir_bytes() || name.len() == 0 || has_dot_dot(name) {
        Err((MemDbError::InvalidLockName, db))
    } else if lookup(db, encode_utf8(lp)) is Some {
        Ok(cached(db))
    } else {
        let first = if lookup(db, encode_utf8(lock_dir_abs())) is None {
            create_outcome(db, encode_utf8(lock_dir_abs()), LOCK_DIR_MODE, 0, m)
        } else {
            Ok(db)
        };
        match first {
            Err(e) => Err((e, db)),
            Ok(db1) => match create_outcome(db1, encode_utf8(lp), LOCK_DIR_MODE, 0, m) {
                Err(e) => Err((e, db1)),
                Ok(db2) => Ok(cached(db2)),
            },
        }
    }
}

/// Result of releasing the lock on a path held with `csum`, at time `now`.
pub open spec fn release_outcome(db: MemDbView, pc: Seq<char>, csum: Seq<u8>, now: u64) -> Result<MemDbView, (MemDbError, MemDbView)> {
    let k = lock_key(pc);
    let lp = seq!['/'] + k;
    if !db.locks.contains_key(k) {
        Err((MemDbError::LockNotFound, db))
    } else if db.locks[k].csum != csum {
        Err((MemDbError::LockChecksumMismatch, db))
    } else if lookup(db, encode_utf8(lp)) is Some {
        match delete_outcome(db, lp, 0, now as u32) {
            Err(e) => Err((e, db)),
            Ok(db1) => Ok(MemDbView { locks: db1.locks.remove(k), ..db1 }),
        }
    } else {
        Ok(MemDbView { locks: db.locks.remove(k), ..db })
    }
}

/// Outcome of a state-changing step that may fail after changing state, taken by views.
pub open spec fn outcome_holds(r: Result<(), MemDbError>, before: MemDbView, after: MemDbView, o: Result<MemDbView, (MemDbError, MemDbView)>) -> bool {
    match o {
        Ok(db) => r is Ok && after == db,
        Err((e, db)) => r == Err::<(), MemDbError>(e) && after == db,
    }
}

proof fn lemma_encode_slash_prefix(k: Seq<char>)
    ensures
        encode_utf8(seq!['/'] + k) == seq![SLASH] + encode_utf8(k),
{
    let c = seq!['/'] + k;
    assert(c.drop_first() =~= k);
    assert(('/' as u32) == 47u32);
    assert((47u32 & 0x7F) as u8 == 47u8) by (bit_vector);
}

/// Whether the bytes hold `..`.
fn dot_dot_in(b: &[u8]) -> (r: bool)
    ensures
        r == has_dot_dot(b@),
{
    if b.len() < 2 {
        return false;
    }
    let mut j: usize = 0;
    while j < b.len() - 1
        invariant
            b@.len() >= 2,
            j <= b@.len() - 1,
            forall|i: int| 0 <= i < j ==> !(#[trigger] b@[i] == DOT && b@[i + 1] == DOT),
        decreases b@.len() - 1 - j,
    {
        if b[j] == DOT && b[j + 1] == DOT {
            return true;
        }
        j += 1;
    }
    false
}

impl MemDb {
    /// Checks whether the lock on a path expired at time `now`, caching it as described.
    pub fn lock_expired_at(&mut self, path: &str, csum: &[u8; 32], now: u64) -> (r: bool)
        requires
            old(self).wf(),
        ensures
            final(self).wf(),
            (r, final(self)@) == lock_expired_outcome(old(self)@, path@, csum@, now),
    {
        let key = crate::memdb::locks::lock_cache_key(path);
        proof {
            encode_utf8_decode_utf8(key@);
        }
        match self.find_lock(&key) {
            Some(i) => {
                if !crate::memdb::index::digest_eq(&self.locks[i].csum, csum) {
                    self.put_lock(key, now, *csum);
                    return false;
                }
                let ltime = self.locks[i].ltime;
                let elapsed = if now >= ltime { now - ltime } else { 0 };
                elapsed > LOCK_TIMEOUT
            },
            None => {
                self.put_lock(key, now, *csum);
                false
            },
        }
    }

    /// Checks whether the lock on a path expired, caching it as described.
    pub fn lock_expired(&mut self, path: &str, csum: &[u8; 32]) -> (r: bool)
        requires
            old(self).wf(),
        ensures
            final(self).wf(),
            exists|now: u64| (r, final(self)@) == #[trigger] lock_expired_outcome(old(self)@, path@, csum@, now),
    {
        let now = crate::clock::unix_time_secs();
        self.lock_expired_at(path, csum, now)
    }

    /// Whether the lock on a path is held at time `now`.
    pub fn is_locked_at(&self, path: &str, now: u64) -> (r: bool)
        requires
            self.wf(),
        ensures
            r == is_locked_at_spec(self@, path@, now),
    {
        let key = crate::memdb::locks::lock_cache_key(path);
        proof {
            encode_utf8_decode_utf8(key@);
        }
        match self.find_lock(&key) {
            Some(i) => {
                let ltime = self.locks[i].ltime;
                let elapsed = if now >= ltime { now - ltime } else { 0 };
                elapsed <= LOCK_TIMEOUT
            },
            None => false,
        }
    }

    /// Whether the lock on a path is held now.
    pub fn is_locked(&self, path: &str) -> (r: bool)
        requires
            self.wf(),
        ensures
            exists|now: u64| r == #[trigger] is_locked_at_spec(self@, path@, now),
    {
        let now = crate::clock::unix_time_secs();
        self.is_locked_at(path, now)
    }

    /// Acquires the lock on a path at time `now`, creating its lock directory when missing.
    pub fn acquire_lock_at(&mut self, path: &str, csum: &[u8; 32], now: u64) -> (r: Result<(), MemDbError>)
        requires
            old(self).wf(),
        ensures
            final(self).wf(),
            outcome_holds(r, old(self)@, final(self)@, acquire_outcome(old(self)@, path@, csum@, now)),
    {
        let (key, lock_path) = crate::memdb::locks::lock_paths(path);
        proof {
            encode_utf8_decode_utf8(key@);
            lemma_encode_slash_prefix(key@);
        }
        let ghost kb = crate::memdb::locks::lock_key_bytes(encode_utf8(path@));
        match self.find_lock(&key) {
            Some(i) => {
                let ltime = self.locks[i].ltime;
                let age = if now >= ltime { now - ltime } else { 0 };
                if age <= LOCK_TIMEOUT && !crate::memdb::index::digest_eq(&self.locks[i].csum, csum) {
                    return Err(MemDbError::LockHeld);
                }
            },
            None => {},
        }
        let kbytes = key.as_str().as_bytes();
        let mut prefix = lock_dir_vec();
        prefix.push(SLASH);
        assert(prefix@ =~= lock_prefix_bytes());
        let name: &[u8] = if kbytes.len() >= 10 && starts_with(kbytes, prefix.as_slice()) {
            vstd::slice::slice_subrange(kbytes, 10, kbytes.len())
        } else {
            kbytes
        };
        assert(name@ == (if kb.len() >= 10 && kb.subrange(0, 10) == lock_prefix_bytes() { kb.skip(10) } else { kb }));
        let lock_dir = lock_dir_vec();
        if bytes_eq(kbytes, lock_dir.as_slice()) || name.len() == 0 {
            return Err(MemDbError::InvalidLockName);
        }
        if dot_dot_in(name) {
            return Err(MemDbError::InvalidLockName);
        }
        assert(!has_dot_dot(name@));
        if self.lookup_bytes(lock_path.as_str().as_bytes()).is_none() {
            let m = now as u32;
            let mut dir_path = String::new();
            dir_path.append("/priv/lock");
            proof {
                reveal_strlit("/priv/lock");
            }
            assert(dir_path@ =~= lock_dir_abs());
            if self.lookup_bytes(dir_path.as_str().as_bytes()).is_none() {
                match self.create(dir_path.as_str(), LOCK_DIR_MODE, 0, m) {
                    Ok(()) => {},
                    Err(e) => return Err(e),
                }
            }
            let ghost db1 = self@;
            match self.create(lock_path.as_str(), LOCK_DIR_MODE, 0, m) {
                Ok(()) => {},
                Err(e) => return Err(e),
            }
        }
        self.put_lock(key, now, *csum);
        Ok(())
    }

    /// Acquires the lock on a path, creating its lock directory when missing.
    pub fn acquire_lock(&mut self, path: &str, csum: &[u8; 32]) -> (r: Result<(), MemDbError>)
        requires
            old(self).wf(),
        ensures
            final(self).wf(),
            exists|now: u64| outcome_holds(r, old(self)@, final(self)@, #[trigger] acquire_outcome(old(self)@, path@, csum@, now)),
    {
        let now = crate::clock::unix_time_secs();
        self.acquire_lock_at(path, csum, now)
    }

    /// Releases the lock on a path held with `csum`, deleting its lock directory, at time `now`.
    pub fn release_lock_at(&mut self, path: &str, csum: &[u8; 32], now: u64) -> (r: Result<(), MemDbError>)
        requires
            old(self).wf(),
        ensures
            final(self).wf(),
            outcome_holds(r, old(self)@, final(self)@, release_outcome(old(self)@, path@, csum@, now)),
    {
        let (key, lock_path) = crate::memdb::locks::lock_paths(path);
        proof {
            encode_utf8_decode_utf8(key@);
            lemma_encode_slash_prefix(key@);
        }
        match self.find_lock(&key) {
            Some(i) => {
                if !crate::memdb::index::digest_eq(&self.locks[i].csum, csum) {
                    return Err(MemDbError::LockChecksumMismatch);
                }
            },
            None => return Err(MemDbError::LockNotFound),
        }
        if self.lookup_bytes(lock_path.as_str().as_bytes()).is_some() {
            match self.delete(lock_path.as_str(), 0, now as u32) {
                Ok(()) => {},
                Err(e) => return Err(e),
            }
        }
        self.drop_lock(&key);
        Ok(())
    }

    /// Releases the lock on a path held with `csum`, deleting its lock directory.
    pub fn release_lock(&mut self, path: &str, csum: &[u8; 32]) -> (r: Result<(), MemDbError>)
        requires
            old(self).wf(),
        ensures
            final(self).wf(),
            exists|now: u64| outcome_holds(r, old(self)@, final(self)@, #[trigger] release_outcome(old(self)@, path@, csum@, now)),
    {
        let now = crate::clock::unix_time_secs();
        self.release_lock_at(path, csum, now)
    }
}

} // verus!

verus! {

/// Lock cache rebuilt from the lock directories `cs` (entries that are not directories are
/// skipped): a lock keeps its cached time when its checksum is unchanged, else gets `now`.
pub open spec fn rebuilt_locks(old: Map<Seq<char>, LockView>, cs: Seq<TreeEntryView>, now: u64, o: crate::digest::ByteOrder) -> Map<Seq<char>, LockView>
    decreases cs.len(),
{
    if cs.len() == 0 {
        Map::empty()
    } else {
        let m = rebuilt_locks(old, cs.drop_last(), now, o);
        let e = cs.last();
        if e.entry_type != DT_DIR {
            m
        } else {
            let k = decode_utf8(lock_prefix_bytes() + encode_utf8(e.name));
            let csum = crate::digest::sha256_spec(checksum_input(o, e));
            let ltime = if old.contains_key(k) && old[k].csum == csum { old[k].ltime } else { now };
            m.insert(k, LockView { ltime, csum })
        }
    }
}

/// State after rebuilding the lock cache from the lock directory at time `now`, checksums
/// in byte order `o`: emptied when there is no lock directory, unchanged when it cannot be listed.
pub open spec fn update_locks_outcome(db: MemDbView, now: u64, o: crate::digest::ByteOrder) -> MemDbView {
    match lookup(db, lock_dir_bytes()) {
        Some(e) => if e.entry_type == DT_DIR {
            match readdir_outcome(db, lock_dir_bytes()) {
                Ok(cs) => MemDbView { locks: rebuilt_locks(db.locks, cs, now, o), ..db },
                Err(_) => db,
            }
        } else {
            MemDbView { locks: Map::empty(), ..db }
        },
        None => MemDbView { locks: Map::empty(), ..db },
    }
}

impl MemDb {
    /// Empties the lock cache.
    fn clear_locks(&mut self)
        requires
            old(self).wf(),
        ensures
            final(self).wf(),
            final(self)@ == (MemDbView { locks: Map::empty(), ..old(self)@ }),
    {
        self.locks = Vec::new();
        proof {
            lemma_assoc_empty::<Seq<char>, LockView>();
            assert(lock_pairs(self.locks@) =~= Seq::<(Seq<char>, LockView)>::empty());
        }
    }

    /// Rebuilds the lock cache from the lock directory at time `now`, checksums in byte order `o`.
    pub fn update_locks_at(&mut self, now: u64, o: crate::digest::ByteOrder)
        requires
            old(self).wf(),
        ensures
            final(self).wf(),
            final(self)@ == update_locks_outcome(old(self)@, now, o),
    {
        let dir_bytes = lock_dir_vec();
        proof {
            assert(crate::text::all_ascii(dir_bytes@));
        }
        let dir = crate::text::ascii_to_string(&dir_bytes);
        match self.lookup_bytes(dir_bytes.as_slice()) {
            Some(e) => {
                if !e.is_dir() {
                    self.clear_locks();
                    return;
                }
            },
            None => {
                self.clear_locks();
                return;
            },
        }
        let children = match self.readdir(dir.as_str()) {
            Ok(c) => c,
            Err(_) => return,
        };
        let ghost cs = entry_views(children@);
        let ghost old_locks = self@.locks;
        let mut fresh = MemDb::blank();
        let mut i: usize = 0;
        while i < children.len()
            invariant
                self.wf(),
                self@ == old(self)@,
                old_locks == old(self)@.locks,
                fresh.wf(),
                i <= children@.len(),
                cs == entry_views(children@),
                fresh@.locks == rebuilt_locks(old_locks, cs.take(i as int), now, o),
            decreases children@.len() - i,
        {
            let e = &children[i];
            assert(cs.take(i + 1).drop_last() =~= cs.take(i as int));
            assert(cs.take(i + 1).last() == e@);
            if e.is_dir() {
                let mut kb = lock_dir_vec();
                kb.push(SLASH);
                assert(kb@ =~= lock_prefix_bytes());
                proof {
                    assert(crate::text::all_ascii(kb@));
                    crate::text::lemma_ascii_valid_utf8(kb@);
                    encode_utf8_valid_utf8(e.name@);
                    valid_utf8_concat(kb@, encode_utf8(e.name@));
                }
                let ghost head = kb@;
                crate::wire::push_bytes(&mut kb, e.name.as_str().as_bytes());
                assert(kb@ =~= lock_prefix_bytes() + encode_utf8(e.name@));
                let key = match crate::text::string_from_utf8(kb.as_slice()) {
                    Some(s) => s,
                    None => String::new(),
                };
                let csum = e.compute_checksum_in(o);
                let ltime = match self.find_lock(&key) {
                    Some(j) => if crate::memdb::index::digest_eq(&self.locks[j].csum, &csum) {
                        self.locks[j].ltime
                    } else {
                        now
                    },
                    None => now,
                };
                fresh.put_lock(key, ltime, csum);
            }
            i += 1;
        }
        assert(cs.take(i as int) =~= cs);
        self.locks = fresh.locks;
    }

    /// Rebuilds the lock cache from the lock directory.
    pub fn update_locks(&mut self)
        requires
            old(self).wf(),
        ensures
            final(self).wf(),
            exists|now: u64, o: crate::digest::ByteOrder| final(self)@ == #[trigger] update_locks_outcome(old(self)@, now, o),
    {
        let now = crate::clock::unix_time_secs();
        let o = crate::digest::native_byte_order();
        self.update_locks_at(now, o);
    }
}

} // verus!

verus! {

/// Setting the root's metadata keeps inodes unique.
pub proof fn lemma_with_root_meta_unique(s: Seq<TreeEntryView>, version: u64, writer: u32, mtime: u32)
    requires
        unique_inodes(s),
    ensures
        unique_inodes(with_root_meta(s, version, writer, mtime)),
{
    lemma_entry_pos(s, ROOT_INODE);
}

/// The written bytes sit at the offset of the new contents.
proof fn lemma_written_data(old: Seq<u8>, off: int, d: Seq<u8>, truncate: bool)
    requires
        off >= 0,
    ensures
        written_data(old, off, d, truncate).len() >= off + d.len(),
        written_data(old, off, d, truncate).subrange(off, off + d.len()) == d,
{
    let end = off + d.len();
    let d0 = if truncate && off < old.len() { old.take(off) } else { old };
    let d1 = if end > d0.len() { d0 + Seq::new((end - d0.len()) as nat, |i: int| 0u8) } else { d0 };
    assert(d1.len() >= end);
    let r = d1.take(off) + d + d1.skip(end);
    assert(r.subrange(off, end) =~= d);
}

/// What a read gives back of a write: after writing `d` at `offset` into a file, reading
/// `d.len()` bytes at that offset returns `d`.
pub proof fn lemma_read_after_write(
    db: MemDbView,
    p: Seq<u8>,
    offset: u64,
    writer: u32,
    mtime: u32,
    d: Seq<u8>,
    truncate: bool,
)
    requires
        unique_inodes(db.entries),
        write_outcome(db, p, offset, writer, mtime, d, truncate) is Ok,
    ensures
        read_outcome(write_outcome(db, p, offset, writer, mtime, d, truncate)->Ok_0, p, offset, d.len() as usize)
            == Ok::<Seq<u8>, MemDbError>(d),
{
    let e = lookup(db, p)->Some_0;
    let off = (offset as usize) as int;
    let nv = next_version(db.version);
    let nd = written_data(e.data, off, d, truncate);
    let ne = TreeEntryView { version: nv, writer, mtime, size: nd.len() as usize, data: nd, ..e };
    let rm = with_root_meta(db.entries, nv, writer, mtime);
    lemma_with_root_meta_unique(db.entries, nv, writer, mtime);
    lemma_put_entry(rm, ne);
    lemma_written_data(e.data, off, d, truncate);
    let db2 = write_outcome(db, p, offset, writer, mtime, d, truncate)->Ok_0;
    assert(db2.tree == db.tree);
    assert(lookup_inode(db2, p) == lookup_inode(db, p));
    assert(db2.index() == index_of(rm).insert(e.inode, ne));
    assert(lookup(db2, p) == Some(ne));
    if off < nd.len() {
        assert(nd.subrange(off, off + d.len()) == d);
    } else {
        assert(d.len() == 0);
        assert(d =~= Seq::<u8>::empty());
    }
}

/// Contents after writing `d` at `off` into `old`: the bytes before `off` are the old
/// ones (zero past the old end), then `d`; with `truncate` nothing follows, without it the
/// old bytes past the written ones remain.
proof fn lemma_written_data_contents(old: Seq<u8>, off: int, d: Seq<u8>, truncate: bool)
    requires
        off >= 0,
    ensures
        ({
            let nd = written_data(old, off, d, truncate);
            &&& truncate ==> nd.len() == off + d.len()
            &&& !truncate ==> nd.len() == (if old.len() > off + d.len() { old.len() as int } else { off + d.len() })
            &&& forall|i: int| 0 <= i < off ==> #[trigger] nd[i] == (if i < old.len() { old[i] } else { 0u8 })
            &&& forall|i: int| 0 <= i < d.len() ==> #[trigger] nd[off + i] == d[i]
            &&& !truncate ==> forall|i: int| off + d.len() <= i < old.len() ==> #[trigger] nd[i] == old[i]
        }),
{
    let end = off + d.len();
    let kept = if truncate && off < old.len() { old.take(off) } else { old };
    let d1 = if end > kept.len() { kept + Seq::new((end - kept.len()) as nat, |i: int| 0u8) } else { kept };
    let nd = d1.take(off) + d + d1.skip(end);
    assert(nd == written_data(old, off, d, truncate));
    assert(d1.len() >= end);
    assert forall|i: int| 0 <= i < off implies #[trigger] nd[i] == (if i < old.len() { old[i] } else { 0u8 }) by {
        assert(nd[i] == d1[i]);
        if i < kept.len() {
            assert(d1[i] == kept[i]);
        }
    }
    assert forall|i: int| 0 <= i < d.len() implies #[trigger] nd[off + i] == d[i] by {
        assert(nd[off + i] == d[i]);
    }
    if !truncate {
        assert forall|i: int| end <= i < old.len() implies #[trigger] nd[i] == old[i] by {
            assert(nd[i] == d1.skip(end)[i - end]);
            assert(d1[i] == kept[i]);
        }
    } else if off < old.len() {
        assert(kept.len() == off);
    }
}

/// What a write leaves in the file: the file keeps its inode; before the offset it holds
/// its old bytes (zero past its old end), then the written bytes; a truncating write ends
/// there, so the file has exactly offset plus written bytes, whatever the offset (0 too);
/// a write without truncation keeps the old bytes past the written ones.
pub proof fn lemma_write_contents(
    db: MemDbView,
    p: Seq<u8>,
    offset: u64,
    writer: u32,
    mtime: u32,
    d: Seq<u8>,
    truncate: bool,
)
    requires
        unique_inodes(db.entries),
        write_outcome(db, p, offset, writer, mtime, d, truncate) is Ok,
    ensures
        ({
            let e = lookup(db, p)->Some_0;
            let off = (offset as usize) as int;
            let after = lookup(write_outcome(db, p, offset, writer, mtime, d, truncate)->Ok_0, p);
            let nd = after->Some_0.data;
            &&& after is Some
            &&& after->Some_0.inode == e.inode
            &&& after->Some_0.mtime == mtime
            &&& after->Some_0.writer == writer
            &&& truncate ==> nd.len() == off + d.len()
            &&& !truncate ==> nd.len() == (if e.data.len() > off + d.len() { e.data.len() as int } else { off + d.len() })
            &&& forall|i: int| 0 <= i < off ==> #[trigger] nd[i] == (if i < e.data.len() { e.data[i] } else { 0u8 })
            &&& forall|i: int| 0 <= i < d.len() ==> #[trigger] nd[off + i] == d[i]
            &&& !truncate ==> forall|i: int| off + d.len() <= i < e.data.len() ==> #[trigger] nd[i] == e.data[i]
        }),
{
    let e = lookup(db, p)->Some_0;
    let off = (offset as usize) as int;
    let nv = next_version(db.version);
    let nd = written_data(e.data, off, d, truncate);
    let ne = TreeEntryView { version: nv, writer, mtime, size: nd.len() as usize, data: nd, ..e };
    let rm = with_root_meta(db.entries, nv, writer, mtime);
    lemma_with_root_meta_unique(db.entries, nv, writer, mtime);
    lemma_put_entry(rm, ne);
    lemma_written_data_contents(e.data, off, d, truncate);
    let db2 = write_outcome(db, p, offset, writer, mtime, d, truncate)->Ok_0;
    assert(db2.tree == db.tree);
    assert(lookup_inode(db2, p) == lookup_inode(db, p));
    assert(db2.index() == index_of(rm).insert(e.inode, ne));
    assert(lookup(db2, p) == Some(ne));
}

/// What a change of modification time leaves: the entry keeps its inode, parent, name,
/// type, size and data, and takes the given mtime and writer, whether it is a lock
/// directory or not.
pub proof fn lemma_set_mtime_sets(
    db: MemDbView,
    pc: Seq<char>,
    writer: u32,
    mtime: u32,
    now: u64,
    o: crate::digest::ByteOrder,
)
    requires
        unique_inodes(db.entries),
        set_mtime_outcome(db, pc, writer, mtime, now, o) is Ok,
    ensures
        ({
            let e = lookup(db, encode_utf8(pc))->Some_0;
            let after = lookup(set_mtime_outcome(db, pc, writer, mtime, now, o)->Ok_0, encode_utf8(pc));
            &&& after is Some
            &&& after->Some_0.mtime == mtime
            &&& after->Some_0.writer == writer
            &&& after->Some_0.inode == e.inode
            &&& after->Some_0.parent == e.parent
            &&& after->Some_0.name == e.name
            &&& after->Some_0.entry_type == e.entry_type
            &&& after->Some_0.size == e.size
            &&& after->Some_0.data == e.data
        }),
{
    let p = encode_utf8(pc);
    let e = lookup(db, p)->Some_0;
    let nv = next_version(db.version);
    let ne = TreeEntryView { version: nv, writer, mtime, ..e };
    let rm = with_root_meta(db.entries, nv, writer, mtime);
    lemma_with_root_meta_unique(db.entries, nv, writer, mtime);
    lemma_put_entry(rm, ne);
    let db2 = set_mtime_outcome(db, pc, writer, mtime, now, o)->Ok_0;
    assert(db2.tree == db.tree);
    assert(lookup_inode(db2, p) == lookup_inode(db, p));
    assert(db2.index() == index_of(rm).insert(e.inode, ne));
    assert(lookup(db2, p) == Some(ne));
}

/// What a lock gives after it is taken: the path counts as locked from `now` until the
/// timeout has passed and not after, and another holder (another checksum) is refused
/// with `LockHeld` until then.
pub proof fn lemma_acquire_then_locked(db: MemDbView, pc: Seq<char>, csum: Seq<u8>, now: u64, later: u64, other: Seq<u8>)
    requires
        acquire_outcome(db, pc, csum, now) is Ok,
    ensures
        ({
            let db2 = acquire_outcome(db, pc, csum, now)->Ok_0;
            &&& (now <= later <= now + LOCK_TIMEOUT ==> is_locked_at_spec(db2, pc, later))
            &&& (later > now + LOCK_TIMEOUT ==> !is_locked_at_spec(db2, pc, later))
            &&& (now <= later <= now + LOCK_TIMEOUT && other != csum ==> acquire_outcome(db2, pc, other, later)
                == Err::<MemDbView, (MemDbError, MemDbView)>((MemDbError::LockHeld, db2)))
        }),
{
    let k = lock_key(pc);
    let db2 = acquire_outcome(db, pc, csum, now)->Ok_0;
    assert(db2.locks.contains_key(k) && db2.locks[k] == (LockView { ltime: now, csum }));
}

} // verus!
