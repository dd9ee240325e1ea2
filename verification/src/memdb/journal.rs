//! Laws of the change journal and of reopening: replaying the changes a mutation journals
//! on the stored rows gives exactly the entries the mutation leaves in memory, and loading
//! stored rows gives them back.

use vstd::prelude::*;
use crate::memdb::database::{
    MemDbView, PersistOpView, apply_outcome, create_outcome, delete_outcome, drop_entry, encode_index_state, entry_pos,
    index_of, lemma_entry_pos, lemma_put_entry, lemma_drop_entry, lemma_with_root_meta_unique, lookup, lookup_inode,
    put_entry, rebuilt_entries, rename_outcome, replace_all_outcome, set_mtime_outcome, unique_inodes, with_root_meta,
    with_root_version, write_outcome, load_outcome, load_fold, version_name_bytes,
};
use crate::memdb::types::DT_DIR;
use vstd::utf8::encode_utf8;
use crate::memdb::types::{TreeEntryView, ROOT_INODE};

verus! {

/// Stored rows by inode after one journaled change: the version changes touch the root
/// row (when there is one), an insert stores a row, an update rewrites an existing row, a
/// delete removes one, and a full replacement stores the given entries in turn.
pub open spec fn apply_op(rows: Map<u64, TreeEntryView>, op: PersistOpView) -> Map<u64, TreeEntryView> {
    match op {
        PersistOpView::SetVersion { version, writer, mtime } => if rows.contains_key(ROOT_INODE) {
            rows.insert(ROOT_INODE, TreeEntryView { version, writer, mtime, ..rows[ROOT_INODE] })
        } else {
            rows
        },
        PersistOpView::SetRootVersion { version } => if rows.contains_key(ROOT_INODE) {
            rows.insert(ROOT_INODE, TreeEntryView { version, ..rows[ROOT_INODE] })
        } else {
            rows
        },
        PersistOpView::Insert { entry } => rows.insert(entry.inode, entry),
        PersistOpView::Upsert { entry } => rows.insert(entry.inode, entry),
        PersistOpView::Update { entry } => if rows.contains_key(entry.inode) {
            rows.insert(entry.inode, entry)
        } else {
            rows
        },
        PersistOpView::Delete { inode } => rows.remove(inode),
        PersistOpView::ReplaceAll { entries } => rows_of(entries),
    }
}

/// Rows after storing each of `es` in turn into an empty table.
pub open spec fn rows_of(es: Seq<TreeEntryView>) -> Map<u64, TreeEntryView>
    decreases es.len(),
{
    if es.len() == 0 {
        Map::empty()
    } else {
        rows_of(es.drop_last()).insert(es.last().inode, es.last())
    }
}

/// Stored rows after the changes `ops` in order.
pub open spec fn apply_ops(rows: Map<u64, TreeEntryView>, ops: Seq<PersistOpView>) -> Map<u64, TreeEntryView>
    decreases ops.len(),
{
    if ops.len() == 0 {
        rows
    } else {
        apply_op(apply_ops(rows, ops.drop_last()), ops.last())
    }
}

/// `after` keeps the journal of `before` and adds changes that, replayed on the entries of
/// `before`, give the entries of `after`.
pub open spec fn journaled(before: MemDbView, after: MemDbView) -> bool {
    &&& before.pending.len() <= after.pending.len()
    &&& after.pending.take(before.pending.len() as int) == before.pending
    &&& after.index() == apply_ops(before.index(), after.pending.skip(before.pending.len() as int))
}

/// Replaying one change.
proof fn lemma_apply_one(rows: Map<u64, TreeEntryView>, a: PersistOpView)
    ensures
        apply_ops(rows, seq![a]) == apply_op(rows, a),
{
    assert(seq![a].drop_last() =~= Seq::<PersistOpView>::empty());
    assert(apply_ops(rows, Seq::<PersistOpView>::empty()) == rows);
}

/// Replaying two changes.
proof fn lemma_apply_two(rows: Map<u64, TreeEntryView>, a: PersistOpView, b: PersistOpView)
    ensures
        apply_ops(rows, seq![a, b]) == apply_op(apply_op(rows, a), b),
{
    assert(seq![a, b].drop_last() =~= seq![a]);
    assert(seq![a].drop_last() =~= Seq::<PersistOpView>::empty());
    assert(apply_ops(rows, Seq::<PersistOpView>::empty()) == rows);
    assert(apply_ops(rows, seq![a]) == apply_op(rows, a));
}

/// Replaying three changes.
proof fn lemma_apply_three(rows: Map<u64, TreeEntryView>, a: PersistOpView, b: PersistOpView, c: PersistOpView)
    ensures
        apply_ops(rows, seq![a, b, c]) == apply_op(apply_op(apply_op(rows, a), b), c),
{
    assert(seq![a, b, c].drop_last() =~= seq![a, b]);
    lemma_apply_two(rows, a, b);
}

/// Setting the root's metadata in memory is the version change on the rows.
proof fn lemma_root_meta_rows(s: Seq<TreeEntryView>, version: u64, writer: u32, mtime: u32)
    requires
        unique_inodes(s),
    ensures
        unique_inodes(with_root_meta(s, version, writer, mtime)),
        index_of(with_root_meta(s, version, writer, mtime)) == apply_op(
            index_of(s),
            PersistOpView::SetVersion { version, writer, mtime },
        ),
{
    lemma_with_root_meta_unique(s, version, writer, mtime);
    lemma_entry_pos(s, ROOT_INODE);
    let k = entry_pos(s, ROOT_INODE);
    if k >= 0 {
        let r = TreeEntryView { version, writer, mtime, ..s[k] };
        lemma_put_entry(s, r);
        assert(put_entry(s, r) == with_root_meta(s, version, writer, mtime));
    } else {
        assert(with_root_meta(s, version, writer, mtime) == s);
    }
}

/// The entry that a lookup finds is stored under its own inode.
proof fn lemma_lookup_stored(db: MemDbView, p: Seq<u8>)
    requires
        unique_inodes(db.entries),
        lookup(db, p) is Some,
    ensures
        db.index().contains_key(lookup(db, p)->Some_0.inode),
        db.index()[lookup(db, p)->Some_0.inode] == lookup(db, p)->Some_0,
{
    let i = lookup_inode(db, p)->Some_0;
    crate::memdb::tree_laws::lemma_index_inode(db.entries, i);
}

/// The journal of a new entry: replaying it stores the created entry and the root's new
/// metadata, exactly as in memory.
pub proof fn lemma_create_journaled(db: MemDbView, p: Seq<u8>, mode: u32, writer: u32, mtime: u32)
    requires
        unique_inodes(db.entries),
        create_outcome(db, p, mode, writer, mtime) is Ok,
    ensures
        journaled(db, create_outcome(db, p, mode, writer, mtime)->Ok_0),
{
    let db2 = create_outcome(db, p, mode, writer, mtime)->Ok_0;
    let n = db.pending.len() as int;
    let ops = db2.pending.skip(n);
    assert(db2.pending.take(n) =~= db.pending);
    assert(ops =~= seq![ops[0], ops[1]]);
    lemma_apply_two(db.index(), ops[0], ops[1]);
    let nv = db2.version;
    lemma_root_meta_rows(db.entries, nv, writer, mtime);
    let e = ops[1]->Insert_entry;
    lemma_put_entry(with_root_meta(db.entries, nv, writer, mtime), e);
}

/// The journal of a write: replaying it rewrites the file's row and the root's metadata,
/// exactly as in memory.
pub proof fn lemma_write_journaled(
    db: MemDbView,
    p: Seq<u8>,
    offset: u64,
    writer: u32,
    mtime: u32,
    d: Seq<u8>,
    truncate: bool,
)
    requires
        unique_inodes(db.entries),
        write_outcome(db, p, offset, writer, mtime, d, truncate) is Ok,
    ensures
        journaled(db, write_outcome(db, p, offset, writer, mtime, d, truncate)->Ok_0),
{
    let db2 = write_outcome(db, p, offset, writer, mtime, d, truncate)->Ok_0;
    let n = db.pending.len() as int;
    let ops = db2.pending.skip(n);
    assert(db2.pending.take(n) =~= db.pending);
    assert(ops =~= seq![ops[0], ops[1]]);
    lemma_apply_two(db.index(), ops[0], ops[1]);
    lemma_lookup_stored(db, p);
    let nv = db2.version;
    lemma_root_meta_rows(db.entries, nv, writer, mtime);
    let ne = ops[1]->Update_entry;
    lemma_put_entry(with_root_meta(db.entries, nv, writer, mtime), ne);
}

/// The journal of a deletion: replaying it removes the entry's row and sets the root's
/// metadata, exactly as in memory.
pub proof fn lemma_delete_journaled(db: MemDbView, pc: Seq<char>, writer: u32, mtime: u32)
    requires
        unique_inodes(db.entries),
        delete_outcome(db, pc, writer, mtime) is Ok,
    ensures
        journaled(db, delete_outcome(db, pc, writer, mtime)->Ok_0),
{
    let db2 = delete_outcome(db, pc, writer, mtime)->Ok_0;
    let n = db.pending.len() as int;
    let ops = db2.pending.skip(n);
    assert(db2.pending.take(n) =~= db.pending);
    assert(ops =~= seq![ops[0], ops[1]]);
    lemma_apply_two(db.index(), ops[0], ops[1]);
    let nv = db2.version;
    lemma_root_meta_rows(db.entries, nv, writer, mtime);
    lemma_drop_entry(with_root_meta(db.entries, nv, writer, mtime), ops[1]->Delete_inode);
}

/// The journal of a change of modification time: replaying it rewrites the entry's row
/// and the root's metadata, exactly as in memory.
pub proof fn lemma_set_mtime_journaled(
    db: MemDbView,
    pc: Seq<char>,
    writer: u32,
    mtime: u32,
    now: u64,
    o: crate::digest::ByteOrder,
)
    requires
        unique_inodes(db.entries),
        set_mtime_outcome(db, pc, writer, mtime, now, o) is Ok,
    ensures
        journaled(db, set_mtime_outcome(db, pc, writer, mtime, now, o)->Ok_0),
{
    let db2 = set_mtime_outcome(db, pc, writer, mtime, now, o)->Ok_0;
    let n = db.pending.len() as int;
    let ops = db2.pending.skip(n);
    assert(db2.pending.take(n) =~= db.pending);
    assert(ops =~= seq![ops[0], ops[1]]);
    lemma_apply_two(db.index(), ops[0], ops[1]);
    lemma_lookup_stored(db, vstd::utf8::encode_utf8(pc));
    let nv = db2.version;
    lemma_root_meta_rows(db.entries, nv, writer, mtime);
    lemma_put_entry(with_root_meta(db.entries, nv, writer, mtime), ops[1]->Update_entry);
}

/// The journal of a rename: replaying it sets the root's metadata, removes the row of an
/// entry replaced at the new path and rewrites the moved entry's row, exactly as in memory
/// (also when an entry is renamed onto itself).
pub proof fn lemma_rename_journaled(db: MemDbView, po: Seq<u8>, pn: Seq<u8>, writer: u32, mtime: u32)
    requires
        unique_inodes(db.entries),
        rename_outcome(db, po, pn, writer, mtime) is Ok,
    ensures
        journaled(db, rename_outcome(db, po, pn, writer, mtime)->Ok_0),
{
    let db2 = rename_outcome(db, po, pn, writer, mtime)->Ok_0;
    let n = db.pending.len() as int;
    let ops = db2.pending.skip(n);
    assert(db2.pending.take(n) =~= db.pending);
    lemma_lookup_stored(db, po);
    let e = lookup(db, po)->Some_0;
    let nv = db2.version;
    let s1 = with_root_meta(db.entries, nv, writer, mtime);
    lemma_root_meta_rows(db.entries, nv, writer, mtime);
    let replaced = match lookup(db, pn) {
        Some(t) => t.inode != e.inode,
        None => false,
    };
    if replaced {
        let ti = lookup(db, pn)->Some_0.inode;
        assert(ops =~= seq![ops[0], ops[1], ops[2]]);
        lemma_apply_three(db.index(), ops[0], ops[1], ops[2]);
        lemma_drop_entry(s1, ti);
        let ne = ops[2]->Update_entry;
        assert(ne.inode == e.inode);
        lemma_put_entry(drop_entry(s1, ti), ne);
    } else {
        assert(ops =~= seq![ops[0], ops[1]]);
        lemma_apply_two(db.index(), ops[0], ops[1]);
        let ne = ops[1]->Update_entry;
        assert(ne.inode == e.inode);
        lemma_put_entry(s1, ne);
    }
}

/// The journal of an entry received from the synchronization leader: replaying it stores
/// the entry and, for an entry other than the root, the root's metadata, exactly as in
/// memory.
pub proof fn lemma_apply_journaled(db: MemDbView, e: TreeEntryView)
    requires
        unique_inodes(db.entries),
    ensures
        journaled(db, apply_outcome(db, e)),
{
    let db2 = apply_outcome(db, e);
    let n = db.pending.len() as int;
    let ops = db2.pending.skip(n);
    assert(db2.pending.take(n) =~= db.pending);
    lemma_put_entry(db.entries, e);
    let s1 = put_entry(db.entries, e);
    if e.inode != ROOT_INODE {
        assert(ops =~= seq![ops[0], ops[1]]);
        lemma_apply_two(db.index(), ops[0], ops[1]);
        lemma_root_meta_rows(s1, e.version, e.writer, e.mtime);
    } else {
        assert(ops =~= seq![ops[0]]);
        lemma_apply_one(db.index(), ops[0]);
    }
}

proof fn lemma_rebuilt_rows(es: Seq<TreeEntryView>)
    ensures
        unique_inodes(rebuilt_entries(es)),
        index_of(rebuilt_entries(es)) == rows_of(es),
    decreases es.len(),
{
    if es.len() == 0 {
        assert(index_of(Seq::<TreeEntryView>::empty()) =~= Map::<u64, TreeEntryView>::empty()) by {
            crate::memdb::assoc::lemma_assoc_empty::<u64, TreeEntryView>();
            assert(crate::memdb::database::entry_pairs(Seq::<TreeEntryView>::empty()) =~= Seq::<(u64, TreeEntryView)>::empty());
        }
    } else {
        lemma_rebuilt_rows(es.drop_last());
        lemma_put_entry(rebuilt_entries(es.drop_last()), es.last());
    }
}

/// The journal of a full synchronization: replaying it stores exactly the given entries,
/// as in memory.
pub proof fn lemma_replace_all_journaled(db: MemDbView, es: Seq<TreeEntryView>)
    ensures
        journaled(db, replace_all_outcome(db, es)),
{
    let db2 = replace_all_outcome(db, es);
    let n = db.pending.len() as int;
    let ops = db2.pending.skip(n);
    assert(db2.pending.take(n) =~= db.pending);
    assert(ops =~= seq![ops[0]]);
    lemma_apply_one(db.index(), ops[0]);
    lemma_rebuilt_rows(es);
}

/// The journal of encoding the index: replaying it brings the root's version to the
/// version counter, as in memory.
pub proof fn lemma_encode_index_journaled(db: MemDbView)
    requires
        unique_inodes(db.entries),
    ensures
        journaled(db, encode_index_state(db)),
{
    let db2 = encode_index_state(db);
    let n = db.pending.len() as int;
    let ops = db2.pending.skip(n);
    assert(db2.pending.take(n) =~= db.pending);
    if db.index()[ROOT_INODE].version != db.version {
        assert(ops =~= seq![ops[0]]);
        lemma_apply_one(db.index(), ops[0]);
        lemma_entry_pos(db.entries, ROOT_INODE);
        let k = entry_pos(db.entries, ROOT_INODE);
        if k >= 0 {
            let r = TreeEntryView { version: db.version, ..db.entries[k] };
            lemma_put_entry(db.entries, r);
            assert(put_entry(db.entries, r) == with_root_version(db.entries, db.version));
        }
    } else {
        assert(ops =~= Seq::<PersistOpView>::empty());
        assert(db2 == db);
    }
}

/// Whether the rows hold the root metadata row (the root inode under the name `__version__`).
pub open spec fn has_meta_row(rows: Map<u64, TreeEntryView>) -> bool {
    rows.contains_key(ROOT_INODE) && encode_utf8(rows[ROOT_INODE].name) == version_name_bytes()
}

/// The root directory that loading makes of the stored rows: version, writer and mtime of
/// the root metadata row (version 1 in place of 0), or version 1, writer 0 and mtime `now`
/// without that row.
pub open spec fn loaded_root(rows: Map<u64, TreeEntryView>, now: u32) -> TreeEntryView {
    let v: u64 = if has_meta_row(rows) { rows[ROOT_INODE].version } else { 0 };
    TreeEntryView {
        inode: ROOT_INODE,
        parent: ROOT_INODE,
        version: if v == 0 { 1 } else { v },
        writer: if has_meta_row(rows) { rows[ROOT_INODE].writer } else { 0 },
        mtime: if has_meta_row(rows) { rows[ROOT_INODE].mtime } else { now },
        size: 0,
        entry_type: DT_DIR,
        name: Seq::empty(),
        data: Seq::empty(),
    }
}

proof fn lemma_load_fold_rows(rows: Seq<TreeEntryView>, now: u32)
    requires
        unique_inodes(rows),
    ensures
        unique_inodes(load_fold(rows, now).entries),
        index_of(load_fold(rows, now).entries) == index_of(rows).remove(ROOT_INODE),
        load_fold(rows, now).root_version == (if has_meta_row(index_of(rows)) { index_of(rows)[ROOT_INODE].version } else { 0 }),
        load_fold(rows, now).root_writer == (if has_meta_row(index_of(rows)) { index_of(rows)[ROOT_INODE].writer } else { 0 }),
        load_fold(rows, now).root_mtime == (if has_meta_row(index_of(rows)) { index_of(rows)[ROOT_INODE].mtime } else { now }),
    decreases rows.len(),
{
    if rows.len() == 0 {
        crate::memdb::assoc::lemma_assoc_empty::<u64, TreeEntryView>();
        assert(crate::memdb::database::entry_pairs(Seq::<TreeEntryView>::empty()) =~= Seq::<(u64, TreeEntryView)>::empty());
        assert(index_of(rows) =~= Map::<u64, TreeEntryView>::empty());
        assert(index_of(rows).remove(ROOT_INODE) =~= Map::<u64, TreeEntryView>::empty());
    } else {
        let d = rows.drop_last();
        let e = rows.last();
        assert(unique_inodes(d));
        lemma_load_fold_rows(d, now);
        lemma_entry_pos(d, e.inode);
        if entry_pos(d, e.inode) >= 0 {
            let k = entry_pos(d, e.inode);
            assert(rows[k].inode == rows[rows.len() - 1].inode);
        }
        assert(put_entry(d, e) =~= rows);
        lemma_put_entry(d, e);
        assert(index_of(rows) == index_of(d).insert(e.inode, e));
        if e.inode == ROOT_INODE {
            assert(!index_of(d).contains_key(ROOT_INODE));
            assert(index_of(rows).remove(ROOT_INODE) =~= index_of(d).remove(ROOT_INODE));
        } else {
            lemma_put_entry(load_fold(d, now).entries, e);
            assert(index_of(rows).remove(ROOT_INODE) =~= index_of(d).remove(ROOT_INODE).insert(e.inode, e));
            assert(index_of(rows).contains_key(ROOT_INODE) == index_of(d).contains_key(ROOT_INODE));
            assert(index_of(rows)[ROOT_INODE] == index_of(d)[ROOT_INODE]);
        }
    }
}

/// Reopening: loading stored rows, each inode once and in any order, gives back every row
/// other than the root's as it was stored, and the root directory that the root metadata
/// row describes.
pub proof fn lemma_load_rows(rows: Seq<TreeEntryView>, now: u32)
    requires
        unique_inodes(rows),
    ensures
        load_outcome(rows, now).index() == index_of(rows).insert(ROOT_INODE, loaded_root(index_of(rows), now)),
{
    lemma_load_fold_rows(rows, now);
    let a = load_fold(rows, now);
    let root = loaded_root(index_of(rows), now);
    lemma_put_entry(a.entries, root);
    assert(index_of(rows).remove(ROOT_INODE).insert(ROOT_INODE, root) =~= index_of(rows).insert(ROOT_INODE, root));
}

/// Reopening gives back the entries in memory: when the stored rows hold each entry as in
/// memory, the root's under the name `__version__`, and the root in memory is a plain
/// directory with a version other than 0, loading the rows gives the entries in memory.
pub proof fn lemma_reload_index(db: MemDbView, rows: Seq<TreeEntryView>, now: u32)
    requires
        unique_inodes(rows),
        db.index().contains_key(ROOT_INODE),
        db.index()[ROOT_INODE].parent == ROOT_INODE,
        db.index()[ROOT_INODE].size == 0,
        db.index()[ROOT_INODE].entry_type == DT_DIR,
        db.index()[ROOT_INODE].name.len() == 0,
        db.index()[ROOT_INODE].data.len() == 0,
        db.index()[ROOT_INODE].version != 0,
        index_of(rows) == db.index().insert(
            ROOT_INODE,
            TreeEntryView { name: vstd::utf8::decode_utf8(version_name_bytes()), ..db.index()[ROOT_INODE] },
        ),
    ensures
        load_outcome(rows, now).index() == db.index(),
{
    lemma_load_rows(rows, now);
    let b = version_name_bytes();
    assert(crate::text::all_ascii(b)) by {
        assert forall|k: int| 0 <= k < b.len() implies #[trigger] b[k] < 128 by {}
    }
    crate::text::lemma_ascii_valid_utf8(b);
    vstd::utf8::decode_utf8_encode_utf8(b);
    let r = db.index()[ROOT_INODE];
    assert(r.name =~= Seq::<char>::empty());
    assert(r.data =~= Seq::<u8>::empty());
    assert(has_meta_row(index_of(rows)));
    assert(loaded_root(index_of(rows), now) == r);
    assert(index_of(rows).insert(ROOT_INODE, r) =~= db.index());
}

/// The stored form of entries by inode: the root's row carries the name `__version__`.
pub open spec fn stored_rows(m: Map<u64, TreeEntryView>) -> Map<u64, TreeEntryView> {
    if m.contains_key(ROOT_INODE) {
        m.insert(ROOT_INODE, TreeEntryView { name: vstd::utf8::decode_utf8(version_name_bytes()), ..m[ROOT_INODE] })
    } else {
        m
    }
}

/// A change that touches the root's row at most in its version, writer and mtime.
pub open spec fn keeps_root_row(op: PersistOpView) -> bool {
    match op {
        PersistOpView::Insert { entry } => entry.inode != ROOT_INODE,
        PersistOpView::Upsert { entry } => entry.inode != ROOT_INODE,
        PersistOpView::Update { entry } => entry.inode != ROOT_INODE,
        PersistOpView::Delete { inode } => inode != ROOT_INODE,
        PersistOpView::ReplaceAll { .. } => false,
        _ => true,
    }
}

proof fn lemma_stored_op(m: Map<u64, TreeEntryView>, op: PersistOpView)
    requires
        keeps_root_row(op),
    ensures
        apply_op(stored_rows(m), op) == stored_rows(apply_op(m, op)),
{
    let a = apply_op(stored_rows(m), op);
    let b = stored_rows(apply_op(m, op));
    assert(a =~= b);
}

proof fn lemma_stored_ops(m: Map<u64, TreeEntryView>, ops: Seq<PersistOpView>)
    requires
        forall|i: int| 0 <= i < ops.len() ==> keeps_root_row(#[trigger] ops[i]),
    ensures
        apply_ops(stored_rows(m), ops) == stored_rows(apply_ops(m, ops)),
    decreases ops.len(),
{
    if ops.len() > 0 {
        let d = ops.drop_last();
        assert forall|i: int| 0 <= i < d.len() implies keeps_root_row(#[trigger] d[i]) by {
            assert(d[i] == ops[i]);
        }
        lemma_stored_ops(m, d);
        assert(keeps_root_row(ops[ops.len() - 1]));
        lemma_stored_op(apply_ops(m, d), ops.last());
    }
}

/// Reopening after journaled changes gives the entries after them: when the stored rows
/// held the entries before (the root's row named `__version__`) and the store has replayed
/// the changes journaled since, changes that touch the root's row at most in its
/// metadata, loading the stored rows (each inode once, in any order) gives the entries
/// after the changes, whose root is a plain directory with a version other than 0.
pub proof fn lemma_reopen_after_changes(before: MemDbView, after: MemDbView, rows: Seq<TreeEntryView>, now: u32)
    requires
        journaled(before, after),
        forall|i: int|
            0 <= i < after.pending.skip(before.pending.len() as int).len() ==> keeps_root_row(
                #[trigger] after.pending.skip(before.pending.len() as int)[i],
            ),
        unique_inodes(rows),
        index_of(rows) == apply_ops(stored_rows(before.index()), after.pending.skip(before.pending.len() as int)),
        after.index().contains_key(ROOT_INODE),
        after.index()[ROOT_INODE].parent == ROOT_INODE,
        after.index()[ROOT_INODE].size == 0,
        after.index()[ROOT_INODE].entry_type == DT_DIR,
        after.index()[ROOT_INODE].name.len() == 0,
        after.index()[ROOT_INODE].data.len() == 0,
        after.index()[ROOT_INODE].version != 0,
    ensures
        load_outcome(rows, now).index() == after.index(),
{
    let ops = after.pending.skip(before.pending.len() as int);
    lemma_stored_ops(before.index(), ops);
    assert(index_of(rows) == stored_rows(after.index()));
    lemma_reload_index(after, rows, now);
}

/// What an update from the synchronization leader does, in full: the entry of its inode
/// is the entry sent, the version becomes the larger of the two, the journal replays to
/// the new entries; a walk reaching the entry's parent, then its name, reaches the entry
/// (when that walk follows neither the link to the entry's old place nor the link its name
/// replaces, and an entry that stays in place is linked there); and a moved entry's old
/// place reaches nothing (under the same conditions on the walk to the old parent).
pub proof fn lemma_apply_tree_entry_law(db: MemDbView, e: TreeEntryView, cs: Seq<Seq<u8>>, old_cs: Seq<Seq<u8>>)
    requires
        unique_inodes(db.entries),
        crate::memdb::tree_laws::tables_unique(db.tree),
    ensures
        apply_outcome(db, e).index().contains_key(e.inode),
        apply_outcome(db, e).index()[e.inode] == e,
        apply_outcome(db, e).version == (if e.version > db.version { e.version } else { db.version }),
        journaled(db, apply_outcome(db, e)),
        ({
            let key = encode_utf8(e.name);
            let t = db.tree;
            &&& crate::memdb::database::resolve(t, ROOT_INODE, cs) == Some(e.parent)
            &&& !crate::memdb::tree_laws::walk_uses(t, ROOT_INODE, cs, e.parent, key)
            &&& (db.index().contains_key(e.inode) ==> !crate::memdb::tree_laws::walk_uses(
                t,
                ROOT_INODE,
                cs,
                db.index()[e.inode].parent,
                encode_utf8(db.index()[e.inode].name),
            ))
            &&& (db.index().contains_key(e.inode) && db.index()[e.inode].parent == e.parent
                && db.index()[e.inode].name == e.name ==> crate::memdb::tree_laws::linked_at(t, e.parent, key, e.inode))
        }) ==> crate::memdb::database::resolve(apply_outcome(db, e).tree, ROOT_INODE, cs.push(encode_utf8(e.name)))
            == Some(e.inode),
        ({
            let t = db.tree;
            &&& db.index().contains_key(e.inode)
            &&& (db.index()[e.inode].parent != e.parent || db.index()[e.inode].name != e.name)
            &&& crate::memdb::database::resolve(t, ROOT_INODE, old_cs) == Some(db.index()[e.inode].parent)
            &&& !crate::memdb::tree_laws::walk_uses(t, ROOT_INODE, old_cs, db.index()[e.inode].parent, encode_utf8(db.index()[e.inode].name))
            &&& !crate::memdb::tree_laws::walk_uses(t, ROOT_INODE, old_cs, e.parent, encode_utf8(e.name))
        }) ==> crate::memdb::database::resolve(
            apply_outcome(db, e).tree,
            ROOT_INODE,
            old_cs.push(encode_utf8(db.index()[e.inode].name)),
        ) is None,
{
    crate::memdb::tree_laws::lemma_apply_installs(db, e);
    lemma_apply_journaled(db, e);
    let key = encode_utf8(e.name);
    let t = db.tree;
    if crate::memdb::database::resolve(t, ROOT_INODE, cs) == Some(e.parent)
        && !crate::memdb::tree_laws::walk_uses(t, ROOT_INODE, cs, e.parent, key)
        && (db.index().contains_key(e.inode) ==> !crate::memdb::tree_laws::walk_uses(
            t,
            ROOT_INODE,
            cs,
            db.index()[e.inode].parent,
            encode_utf8(db.index()[e.inode].name),
        ))
        && (db.index().contains_key(e.inode) && db.index()[e.inode].parent == e.parent
            && db.index()[e.inode].name == e.name ==> crate::memdb::tree_laws::linked_at(t, e.parent, key, e.inode)) {
        crate::memdb::tree_laws::lemma_apply_then_resolve(db, e, cs);
    }
    if db.index().contains_key(e.inode)
        && (db.index()[e.inode].parent != e.parent || db.index()[e.inode].name != e.name)
        && crate::memdb::database::resolve(t, ROOT_INODE, old_cs) == Some(db.index()[e.inode].parent)
        && !crate::memdb::tree_laws::walk_uses(t, ROOT_INODE, old_cs, db.index()[e.inode].parent, encode_utf8(db.index()[e.inode].name))
        && !crate::memdb::tree_laws::walk_uses(t, ROOT_INODE, old_cs, e.parent, encode_utf8(e.name)) {
        crate::memdb::tree_laws::lemma_apply_unlinks_old_place(db, e, old_cs);
    }
}

} // verus!
