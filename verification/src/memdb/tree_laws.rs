//! Laws of the directory tree and of locks: what a lookup finds after a change.

use vstd::prelude::*;
use vstd::utf8::*;
use crate::memdb::assoc::{assoc_del, assoc_map, assoc_put, has_key, lemma_assoc_del, lemma_assoc_empty, lemma_assoc_put, unique_keys};
use crate::memdb::database::{
    MemDbView, create_outcome, delete_outcome, drop_entry, index_of, lemma_drop_entry, lemma_entry_pos, lemma_put_entry,
    lemma_with_root_meta_unique, lookup, lookup_inode, mode_entry_type, next_version, put_entry, rename_outcome, resolve,
    tree_link, tree_unlink, unique_inodes, with_root_meta, rebuilt_entries, replace_all_outcome, apply_outcome, entry_pos,
    acquire_outcome, release_outcome, lock_key, LockView, is_locked_at_spec, MemDbError,
};
use crate::memdb::path::{SLASH, basename, components, dirname, is_root_alias, lemma_components_parent, lemma_last_slash, normalized};
use crate::memdb::types::{TreeEntryView, DT_DIR, LOCK_TIMEOUT, ROOT_INODE};

verus! {

/// Every children table belongs to an existing entry and names no child twice, and every
/// link leads to an existing entry.
pub open spec fn tree_sound(db: MemDbView) -> bool {
    &&& forall|k: u64| #[trigger] db.tree.contains_key(k) ==> db.index().contains_key(k) && unique_keys(db.tree[k])
    &&& forall|k: u64, n: Seq<u8>|
        db.tree.contains_key(k) && #[trigger] has_key(db.tree[k], n) ==> db.index().contains_key(
            assoc_map(db.tree[k])[n],
        )
}

/// Every link of `t1` is in `t2`, leading to the same inode.
pub open spec fn links_kept(t1: Map<u64, Seq<(Seq<u8>, u64)>>, t2: Map<u64, Seq<(Seq<u8>, u64)>>) -> bool {
    forall|k: u64, n: Seq<u8>|
        t1.contains_key(k) && #[trigger] has_key(t1[k], n) ==> t2.contains_key(k) && has_key(t2[k], n) && assoc_map(
            t2[k],
        )[n] == assoc_map(t1[k])[n]
}

/// A walk that succeeds uses links only, so it succeeds alike in a tree that keeps them.
pub proof fn lemma_resolve_kept(
    t1: Map<u64, Seq<(Seq<u8>, u64)>>,
    t2: Map<u64, Seq<(Seq<u8>, u64)>>,
    cur: u64,
    cs: Seq<Seq<u8>>,
)
    requires
        links_kept(t1, t2),
        resolve(t1, cur, cs) is Some,
    ensures
        resolve(t2, cur, cs) == resolve(t1, cur, cs),
    decreases cs.len(),
{
    if cs.len() > 0 {
        assert(has_key(t1[cur], cs[0]));
        lemma_resolve_kept(t1, t2, assoc_map(t1[cur])[cs[0]], cs.drop_first());
    }
}

/// Walking a path and then one more segment.
pub proof fn lemma_resolve_push(t: Map<u64, Seq<(Seq<u8>, u64)>>, cur: u64, a: Seq<Seq<u8>>, x: Seq<u8>)
    ensures
        resolve(t, cur, a.push(x)) == (match resolve(t, cur, a) {
            Some(i) => resolve(t, i, seq![x]),
            None => None,
        }),
    decreases a.len(),
{
    if a.len() == 0 {
        assert(a.push(x) =~= seq![x]);
    } else {
        assert(a.push(x)[0] == a[0]);
        assert(a.push(x).drop_first() =~= a.drop_first().push(x));
        if t.contains_key(cur) && has_key(t[cur], a[0]) {
            lemma_resolve_push(t, assoc_map(t[cur])[a[0]], a.drop_first(), x);
        }
    }
}

/// An inode in the index maps to the entry of that inode.
pub proof fn lemma_index_inode(s: Seq<TreeEntryView>, i: u64)
    requires
        unique_inodes(s),
        index_of(s).contains_key(i),
    ensures
        index_of(s)[i].inode == i,
{
    lemma_entry_pos(s, i);
}

/// The parent directory of a path is walked like any path, the root included.
proof fn lemma_parent_inode(db: MemDbView, p: Seq<u8>)
    requires
        !is_root_alias(p),
        basename(p).len() > 0,
    ensures
        lookup_inode(db, dirname(p)) == resolve(db.tree, ROOT_INODE, components(dirname(p))),
        lookup_inode(db, p) == resolve(db.tree, ROOT_INODE, components(dirname(p)).push(basename(p))),
{
    lemma_components_parent(p);
    if dirname(p) == seq![SLASH] {
        assert(components(seq![SLASH]) =~= Seq::<Seq<u8>>::empty()) by {
            crate::memdb::path::lemma_comps_shift(seq![SLASH], 1, 0, 0);
            assert(seq![SLASH].subrange(1, 1) =~= Seq::<u8>::empty());
        }
    }
}

/// What a lookup finds after a create: the path names the new entry, with the inode of
/// the next version, in the parent directory, with the name, type and times given. This
/// holds in a sound tree whose next version is no inode yet.
pub proof fn lemma_create_then_lookup(db: MemDbView, p: Seq<u8>, mode: u32, writer: u32, mtime: u32)
    requires
        unique_inodes(db.entries),
        tree_sound(db),
        !db.index().contains_key(next_version(db.version)),
        create_outcome(db, p, mode, writer, mtime) is Ok,
    ensures
        lookup(create_outcome(db, p, mode, writer, mtime)->Ok_0, p) == Some(
            TreeEntryView {
                inode: next_version(db.version),
                parent: lookup(db, dirname(p))->Some_0.inode,
                version: next_version(db.version),
                writer,
                mtime,
                size: 0,
                entry_type: mode_entry_type(mode),
                name: decode_utf8(basename(p)),
                data: Seq::empty(),
            },
        ),
{
    let base = basename(p);
    let dir = dirname(p);
    let nv = next_version(db.version);
    let t = db.tree;
    let db2 = create_outcome(db, p, mode, writer, mtime)->Ok_0;
    if is_root_alias(p) {
        assert(normalized(p) == seq![SLASH]);
        lemma_last_slash(seq![SLASH], 0);
        assert(dir == seq![SLASH]);
        assert(lookup(db, p) == lookup(db, dir));
        assert(false);
    }
    lemma_parent_inode(db, p);
    let pi = lookup_inode(db, dir)->Some_0;
    let pe = lookup(db, dir)->Some_0;
    lemma_index_inode(db.entries, pi);
    assert(pe.inode == pi);
    assert(pi != nv);
    let cs = components(dir);
    lemma_resolve_push(t, ROOT_INODE, cs, base);
    if t.contains_key(pi) && has_key(t[pi], base) {
        let y = assoc_map(t[pi])[base];
        assert(resolve(t, y, Seq::<Seq<u8>>::empty()) == Some(y));
        assert(seq![base].drop_first() =~= Seq::<Seq<u8>>::empty());
        assert(lookup_inode(db, p) == Some(y));
        assert(false);
    }
    let c = if t.contains_key(pi) {
        t[pi]
    } else {
        Seq::<(Seq<u8>, u64)>::empty()
    };
    lemma_assoc_empty::<Seq<u8>, u64>();
    lemma_assoc_put(c, base, nv);
    let t1 = tree_link(t, pi, base, nv);
    assert(t1[pi] == assoc_put(c, base, nv));
    let e = TreeEntryView {
        inode: nv,
        parent: pi,
        version: nv,
        writer,
        mtime,
        size: 0,
        entry_type: mode_entry_type(mode),
        name: decode_utf8(base),
        data: Seq::empty(),
    };
    let t2 = db2.tree;
    assert(!t.contains_key(nv));
    assert(t2 == if e.entry_type == DT_DIR {
        t1.insert(nv, Seq::empty())
    } else {
        t1
    });
    assert(t2[pi] == t1[pi]);
    assert forall|k: u64, n: Seq<u8>| t.contains_key(k) && #[trigger] has_key(t[k], n) implies t2.contains_key(k)
        && has_key(t2[k], n) && assoc_map(t2[k])[n] == assoc_map(t[k])[n] by {
        if k == pi {
            assert(n != base);
            assert(assoc_map(c).dom().contains(n));
            assert(assoc_map(t2[k]).dom().contains(n));
        }
    }
    lemma_resolve_kept(t, t2, ROOT_INODE, cs);
    assert(assoc_map(t2[pi]).dom().contains(base));
    assert(has_key(t2[pi], base));
    lemma_resolve_push(t2, ROOT_INODE, cs, base);
    assert(seq![base].drop_first() =~= Seq::<Seq<u8>>::empty());
    assert(assoc_map(t2[pi])[base] == nv);
    assert(resolve(t2, nv, Seq::<Seq<u8>>::empty()) == Some(nv));
    assert(resolve(t2, pi, seq![base]) == Some(nv));
    assert(resolve(t2, ROOT_INODE, cs) == Some(pi));
    assert(lookup_inode(db2, p) == Some(nv)) by {
        lemma_parent_inode(db2, p);
    }
    let rm = with_root_meta(db.entries, nv, writer, mtime);
    lemma_with_root_meta_unique(db.entries, nv, writer, mtime);
    lemma_put_entry(rm, e);
    assert(db2.entries == put_entry(rm, e));
    assert(db2.index() == index_of(rm).insert(nv, e));
}

/// No children table names a child twice.
pub open spec fn tables_unique(t: Map<u64, Seq<(Seq<u8>, u64)>>) -> bool {
    forall|k: u64| #[trigger] t.contains_key(k) ==> unique_keys(t[k])
}

/// What a lookup finds after a delete: nothing. This holds where no children table names
/// a child twice.
pub proof fn lemma_delete_then_lookup(db: MemDbView, pc: Seq<char>, writer: u32, mtime: u32)
    requires
        unique_inodes(db.entries),
        tables_unique(db.tree),
        delete_outcome(db, pc, writer, mtime) is Ok,
    ensures
        lookup(delete_outcome(db, pc, writer, mtime)->Ok_0, encode_utf8(pc)) is None,
{
    let p = encode_utf8(pc);
    let e = lookup(db, p)->Some_0;
    let ei = lookup_inode(db, p)->Some_0;
    lemma_index_inode(db.entries, ei);
    assert(e.inode == ei);
    let db2 = delete_outcome(db, pc, writer, mtime)->Ok_0;
    let nv = next_version(db.version);
    let t = db.tree;
    let name = encode_utf8(e.name);
    let t1 = tree_unlink(t, e.parent, name);
    let t2 = db2.tree;
    assert(t2 == if e.entry_type == DT_DIR {
        t1.remove(ei)
    } else {
        t1
    });
    if t.contains_key(e.parent) {
        lemma_assoc_del(t[e.parent], name);
    }
    assert forall|k: u64, n: Seq<u8>| t2.contains_key(k) && #[trigger] has_key(t2[k], n) implies t.contains_key(k)
        && has_key(t[k], n) && assoc_map(t[k])[n] == assoc_map(t2[k])[n] by {
        if k == e.parent {
            assert(t2[k] == assoc_del(t[k], name));
            assert(assoc_map(t2[k]).dom().contains(n));
            assert(assoc_map(t[k]).dom().contains(n));
        } else {
            assert(t2[k] == t[k]);
        }
    }
    let rm = with_root_meta(db.entries, nv, writer, mtime);
    lemma_with_root_meta_unique(db.entries, nv, writer, mtime);
    lemma_drop_entry(rm, ei);
    assert(db2.entries == drop_entry(rm, ei));
    assert(!db2.index().contains_key(ei));
    if is_root_alias(p) {
        assert(ei == ROOT_INODE);
        assert(false);
    }
    if lookup_inode(db2, p) is Some {
        lemma_resolve_kept(t2, t, ROOT_INODE, components(p));
        assert(lookup_inode(db2, p) == Some(ei));
    }
}

/// The walk along `cs` from `cur` follows the link named `n` of directory `k`.
pub open spec fn walk_uses(t: Map<u64, Seq<(Seq<u8>, u64)>>, cur: u64, cs: Seq<Seq<u8>>, k: u64, n: Seq<u8>) -> bool
    decreases cs.len(),
{
    if cs.len() == 0 {
        false
    } else if cur == k && cs[0] == n {
        true
    } else if t.contains_key(cur) && has_key(t[cur], cs[0]) {
        walk_uses(t, assoc_map(t[cur])[cs[0]], cs.drop_first(), k, n)
    } else {
        false
    }
}

/// The two trees have the same links, leading to the same inodes, except perhaps the
/// links named `n1` of `k1` and `n2` of `k2`.
pub open spec fn links_agree_except(
    t1: Map<u64, Seq<(Seq<u8>, u64)>>,
    t2: Map<u64, Seq<(Seq<u8>, u64)>>,
    k1: u64,
    n1: Seq<u8>,
    k2: u64,
    n2: Seq<u8>,
) -> bool {
    forall|k: u64, n: Seq<u8>|
        !((k == k1 && n == n1) || (k == k2 && n == n2)) && t1.contains_key(k) && #[trigger] has_key(t1[k], n)
            ==> t2.contains_key(k) && has_key(t2[k], n) && assoc_map(t2[k])[n] == assoc_map(t1[k])[n]
}

/// A successful walk that follows neither of the changed links goes alike in both trees.
pub proof fn lemma_resolve_agree(
    t1: Map<u64, Seq<(Seq<u8>, u64)>>,
    t2: Map<u64, Seq<(Seq<u8>, u64)>>,
    k1: u64,
    n1: Seq<u8>,
    k2: u64,
    n2: Seq<u8>,
    cur: u64,
    cs: Seq<Seq<u8>>,
)
    requires
        links_agree_except(t1, t2, k1, n1, k2, n2),
        resolve(t1, cur, cs) is Some,
        !walk_uses(t1, cur, cs, k1, n1),
        !walk_uses(t1, cur, cs, k2, n2),
    ensures
        resolve(t2, cur, cs) == resolve(t1, cur, cs),
    decreases cs.len(),
{
    if cs.len() > 0 {
        assert(has_key(t1[cur], cs[0]));
        lemma_resolve_agree(t1, t2, k1, n1, k2, n2, assoc_map(t1[cur])[cs[0]], cs.drop_first());
    }
}

/// What a lookup finds after a rename: the new path names the moved entry, now in the
/// new parent directory under the new base name, with the new version, writer and
/// mtime. This holds when the walk to the new parent directory follows neither the link
/// the rename removes nor the one it replaces (else the directory would be moved into
/// itself), and when the new path is not the root.
pub proof fn lemma_rename_then_lookup(db: MemDbView, po: Seq<u8>, pn: Seq<u8>, writer: u32, mtime: u32)
    requires
        unique_inodes(db.entries),
        tables_unique(db.tree),
        !is_root_alias(pn),
        basename(pn).len() > 0,
        rename_outcome(db, po, pn, writer, mtime) is Ok,
        !walk_uses(
            db.tree,
            ROOT_INODE,
            components(dirname(pn)),
            lookup(db, po)->Some_0.parent,
            encode_utf8(lookup(db, po)->Some_0.name),
        ),
        !walk_uses(db.tree, ROOT_INODE, components(dirname(pn)), lookup(db, dirname(pn))->Some_0.inode, basename(pn)),
    ensures
        lookup(rename_outcome(db, po, pn, writer, mtime)->Ok_0, pn) == Some(
            TreeEntryView {
                parent: lookup(db, dirname(pn))->Some_0.inode,
                name: decode_utf8(basename(pn)),
                writer,
                mtime,
                version: next_version(db.version),
                ..lookup(db, po)->Some_0
            },
        ),
{
    let e = lookup(db, po)->Some_0;
    let ei = lookup_inode(db, po)->Some_0;
    lemma_index_inode(db.entries, ei);
    assert(e.inode == ei);
    let dir = dirname(pn);
    let base = basename(pn);
    lemma_parent_inode(db, pn);
    let npi = lookup_inode(db, dir)->Some_0;
    let np = lookup(db, dir)->Some_0;
    lemma_index_inode(db.entries, npi);
    assert(np.inode == npi);
    let t = db.tree;
    let en = encode_utf8(e.name);
    let t1 = tree_unlink(t, e.parent, en);
    let db2 = rename_outcome(db, po, pn, writer, mtime)->Ok_0;
    let t2 = db2.tree;
    assert(t2 == tree_link(t1, npi, base, ei));
    if t.contains_key(e.parent) {
        lemma_assoc_del(t[e.parent], en);
        assert(unique_keys(t1[e.parent]));
    }
    assert(forall|k: u64| #[trigger] t1.contains_key(k) ==> unique_keys(t1[k]));
    let c = if t1.contains_key(npi) {
        t1[npi]
    } else {
        Seq::<(Seq<u8>, u64)>::empty()
    };
    lemma_assoc_empty::<Seq<u8>, u64>();
    lemma_assoc_put(c, base, ei);
    assert(t2[npi] == assoc_put(c, base, ei));
    assert forall|k: u64, n: Seq<u8>|
        !((k == e.parent && n == en) || (k == npi && n == base)) && t.contains_key(k) && #[trigger] has_key(t[k], n)
        implies t2.contains_key(k) && has_key(t2[k], n) && assoc_map(t2[k])[n] == assoc_map(t[k])[n] by {
        if k == e.parent {
            assert(t1[k] == assoc_del(t[k], en));
            assert(assoc_map(t[k]).dom().contains(n));
            assert(assoc_map(t1[k]).dom().contains(n));
        }
        if k == npi {
            assert(assoc_map(c).dom().contains(n)) by {
                if k != e.parent {
                    assert(t1[k] == t[k]);
                }
            }
            assert(assoc_map(t2[k]).dom().contains(n));
        }
    }
    let cs = components(dir);
    lemma_resolve_agree(t, t2, e.parent, en, npi, base, ROOT_INODE, cs);
    assert(assoc_map(t2[npi]).dom().contains(base));
    assert(assoc_map(t2[npi])[base] == ei);
    assert(resolve(t2, ei, Seq::<Seq<u8>>::empty()) == Some(ei));
    assert(seq![base].drop_first() =~= Seq::<Seq<u8>>::empty());
    assert(resolve(t2, npi, seq![base]) == Some(ei));
    lemma_resolve_push(t2, ROOT_INODE, cs, base);
    assert(lookup_inode(db2, pn) == Some(ei)) by {
        lemma_parent_inode(db2, pn);
    }
    let nv = next_version(db.version);
    let ne = TreeEntryView { parent: npi, name: decode_utf8(base), writer, mtime, version: nv, ..e };
    let s1 = with_root_meta(db.entries, nv, writer, mtime);
    lemma_with_root_meta_unique(db.entries, nv, writer, mtime);
    let s2 = match lookup(db, pn) {
        Some(tg) => if tg.inode == e.inode {
            s1
        } else {
            drop_entry(s1, tg.inode)
        },
        None => s1,
    };
    if let Some(tg) = lookup(db, pn) {
        if tg.inode != e.inode {
            lemma_drop_entry(s1, tg.inode);
        }
    }
    lemma_put_entry(s2, ne);
    assert(db2.entries == put_entry(s2, ne));
    assert(db2.index() == index_of(s2).insert(ei, ne));
}

proof fn lemma_rebuilt_unique(es: Seq<TreeEntryView>)
    requires
        unique_inodes(es),
    ensures
        rebuilt_entries(es) == es,
    decreases es.len(),
{
    if es.len() > 0 {
        let d = es.drop_last();
        assert(unique_inodes(d));
        lemma_rebuilt_unique(d);
        lemma_entry_pos(d, es.last().inode);
        assert(forall|k: int| 0 <= k < d.len() ==> d[k] == es[k]);
        assert(entry_pos(d, es.last().inode) < 0);
        assert(d.push(es.last()) =~= es);
    }
}

/// What a full synchronization installs is what was sent: with each inode sent once, the
/// stored entries are exactly the entries given, in their order.
pub proof fn lemma_replace_all_installs(db: MemDbView, es: Seq<TreeEntryView>)
    requires
        unique_inodes(es),
    ensures
        replace_all_outcome(db, es).entries == es,
        replace_all_outcome(db, es).index() == index_of(es),
{
    lemma_rebuilt_unique(es);
}

/// Setting the root's metadata leaves the entries of other inodes as they are.
proof fn lemma_with_root_meta_other(s: Seq<TreeEntryView>, version: u64, writer: u32, mtime: u32, i: u64)
    requires
        unique_inodes(s),
        i != ROOT_INODE,
    ensures
        index_of(with_root_meta(s, version, writer, mtime)).contains_key(i) == index_of(s).contains_key(i),
        index_of(s).contains_key(i) ==> index_of(with_root_meta(s, version, writer, mtime))[i] == index_of(s)[i],
{
    let w = with_root_meta(s, version, writer, mtime);
    lemma_with_root_meta_unique(s, version, writer, mtime);
    lemma_entry_pos(s, ROOT_INODE);
    lemma_entry_pos(s, i);
    lemma_entry_pos(w, i);
    assert(w.len() == s.len());
    assert(forall|k: int| 0 <= k < s.len() ==> #[trigger] w[k].inode == s[k].inode);
    let p = entry_pos(s, i);
    let q = entry_pos(w, i);
    if p >= 0 {
        assert(w[p].inode == i);
        if q < 0 {
            assert(false);
        }
        assert(q == p) by {
            if q != p {
                assert(s[q].inode == i);
            }
        }
        assert(w[p] == s[p]);
    } else if q >= 0 {
        assert(s[q].inode == i);
        assert(false);
    }
}

/// What an update from the synchronization leader installs: afterwards the entry of its
/// inode is the entry sent.
pub proof fn lemma_apply_installs(db: MemDbView, e: TreeEntryView)
    requires
        unique_inodes(db.entries),
    ensures
        apply_outcome(db, e).index().contains_key(e.inode),
        apply_outcome(db, e).index()[e.inode] == e,
{
    let s1 = put_entry(db.entries, e);
    lemma_put_entry(db.entries, e);
    if e.inode != ROOT_INODE {
        lemma_with_root_meta_other(s1, e.version, e.writer, e.mtime, e.inode);
    }
}

/// Whether directory `k` links the name `n` to inode `i`.
pub open spec fn linked_at(t: Map<u64, Seq<(Seq<u8>, u64)>>, k: u64, n: Seq<u8>, i: u64) -> bool {
    t.contains_key(k) && has_key(t[k], n) && assoc_map(t[k])[n] == i
}

/// Linking a name changes no other link, and the name then leads to the inode.
proof fn lemma_link_changes(t: Map<u64, Seq<(Seq<u8>, u64)>>, k1: u64, n1: Seq<u8>, k2: u64, n2: Seq<u8>, i: u64)
    requires
        tables_unique(t),
    ensures
        links_agree_except(t, tree_link(t, k2, n2, i), k1, n1, k2, n2),
        linked_at(tree_link(t, k2, n2, i), k2, n2, i),
        tables_unique(tree_link(t, k2, n2, i)),
{
    let t2 = tree_link(t, k2, n2, i);
    let c = if t.contains_key(k2) {
        t[k2]
    } else {
        Seq::<(Seq<u8>, u64)>::empty()
    };
    lemma_assoc_empty::<Seq<u8>, u64>();
    lemma_assoc_put(c, n2, i);
    assert(t2[k2] == assoc_put(c, n2, i));
    assert(assoc_map(t2[k2]).dom().contains(n2));
    assert forall|k: u64, n: Seq<u8>|
        !((k == k1 && n == n1) || (k == k2 && n == n2)) && t.contains_key(k) && #[trigger] has_key(t[k], n)
        implies t2.contains_key(k) && has_key(t2[k], n) && assoc_map(t2[k])[n] == assoc_map(t[k])[n] by {
        if k == k2 {
            assert(assoc_map(c).dom().contains(n));
            assert(assoc_map(t2[k]).dom().contains(n));
        }
    }
}

/// Moving a link from one place to another changes no other link, and the new name then
/// leads to the inode.
proof fn lemma_relink_changes(t: Map<u64, Seq<(Seq<u8>, u64)>>, k1: u64, n1: Seq<u8>, k2: u64, n2: Seq<u8>, i: u64)
    requires
        tables_unique(t),
    ensures
        links_agree_except(t, tree_link(tree_unlink(t, k1, n1), k2, n2, i), k1, n1, k2, n2),
        linked_at(tree_link(tree_unlink(t, k1, n1), k2, n2, i), k2, n2, i),
{
    let t1 = tree_unlink(t, k1, n1);
    if t.contains_key(k1) {
        lemma_assoc_del(t[k1], n1);
    }
    assert(tables_unique(t1));
    lemma_link_changes(t1, k1, n1, k2, n2, i);
    let t2 = tree_link(t1, k2, n2, i);
    assert forall|k: u64, n: Seq<u8>|
        !((k == k1 && n == n1) || (k == k2 && n == n2)) && t.contains_key(k) && #[trigger] has_key(t[k], n)
        implies t2.contains_key(k) && has_key(t2[k], n) && assoc_map(t2[k])[n] == assoc_map(t[k])[n] by {
        if k == k1 {
            assert(t1[k] == assoc_del(t[k], n1));
            assert(assoc_map(t[k]).dom().contains(n));
            assert(assoc_map(t1[k]).dom().contains(n));
        }
        assert(t1.contains_key(k) && has_key(t1[k], n) && assoc_map(t1[k])[n] == assoc_map(t[k])[n]);
    }
}

/// Where an update from the synchronization leader places its entry: a walk that reaches
/// the entry's parent directory, followed by the entry's name, reaches the entry. This
/// holds where no children table names a child twice, when that walk follows neither the
/// link to the entry's old place nor the link that its name replaces in the parent, and,
/// for an entry that stays in its place, when that place links to it.
pub proof fn lemma_apply_then_resolve(db: MemDbView, e: TreeEntryView, cs: Seq<Seq<u8>>)
    requires
        unique_inodes(db.entries),
        tables_unique(db.tree),
        resolve(db.tree, ROOT_INODE, cs) == Some(e.parent),
        !walk_uses(db.tree, ROOT_INODE, cs, e.parent, encode_utf8(e.name)),
        db.index().contains_key(e.inode) ==> !walk_uses(
            db.tree,
            ROOT_INODE,
            cs,
            db.index()[e.inode].parent,
            encode_utf8(db.index()[e.inode].name),
        ),
        db.index().contains_key(e.inode) && db.index()[e.inode].parent == e.parent && db.index()[e.inode].name == e.name
            ==> linked_at(db.tree, e.parent, encode_utf8(e.name), e.inode),
    ensures
        resolve(apply_outcome(db, e).tree, ROOT_INODE, cs.push(encode_utf8(e.name))) == Some(e.inode),
        apply_outcome(db, e).index()[e.inode] == e,
{
    lemma_apply_installs(db, e);
    let t = db.tree;
    let key = encode_utf8(e.name);
    let t1 = if db.index().contains_key(e.inode) {
        let o = db.index()[e.inode];
        if o.parent != e.parent || o.name != e.name {
            tree_link(tree_unlink(t, o.parent, encode_utf8(o.name)), e.parent, key, e.inode)
        } else {
            t
        }
    } else {
        tree_link(t, e.parent, key, e.inode)
    };
    if db.index().contains_key(e.inode) {
        let o = db.index()[e.inode];
        if o.parent != e.parent || o.name != e.name {
            lemma_relink_changes(t, o.parent, encode_utf8(o.name), e.parent, key, e.inode);
            lemma_resolve_agree(t, t1, o.parent, encode_utf8(o.name), e.parent, key, ROOT_INODE, cs);
        }
    } else {
        lemma_link_changes(t, e.parent, key, e.parent, key, e.inode);
        lemma_resolve_agree(t, t1, e.parent, key, e.parent, key, ROOT_INODE, cs);
    }
    assert(resolve(t1, ROOT_INODE, cs) == Some(e.parent));
    assert(linked_at(t1, e.parent, key, e.inode));
    let t2 = apply_outcome(db, e).tree;
    assert(t2 == (if e.entry_type == DT_DIR {
        crate::memdb::database::tree_ensure(t1, e.inode)
    } else {
        t1
    }));
    assert(links_kept(t1, t2));
    lemma_resolve_kept(t1, t2, ROOT_INODE, cs);
    assert(linked_at(t2, e.parent, key, e.inode));
    lemma_resolve_push(t2, ROOT_INODE, cs, key);
    assert(seq![key].drop_first() =~= Seq::<Seq<u8>>::empty());
    assert(resolve(t2, e.inode, Seq::<Seq<u8>>::empty()) == Some(e.inode));
}

/// An update from the synchronization leader that moves its entry leaves nothing at the
/// entry's old place: a walk that reaches the old parent directory, followed by the old
/// name, reaches nothing. This holds where no children table names a child twice, when
/// that walk follows neither the link to the old place nor the link that the entry's new
/// name replaces.
pub proof fn lemma_apply_unlinks_old_place(db: MemDbView, e: TreeEntryView, cs: Seq<Seq<u8>>)
    requires
        unique_inodes(db.entries),
        tables_unique(db.tree),
        db.index().contains_key(e.inode),
        db.index()[e.inode].parent != e.parent || db.index()[e.inode].name != e.name,
        resolve(db.tree, ROOT_INODE, cs) == Some(db.index()[e.inode].parent),
        !walk_uses(db.tree, ROOT_INODE, cs, db.index()[e.inode].parent, encode_utf8(db.index()[e.inode].name)),
        !walk_uses(db.tree, ROOT_INODE, cs, e.parent, encode_utf8(e.name)),
    ensures
        resolve(apply_outcome(db, e).tree, ROOT_INODE, cs.push(encode_utf8(db.index()[e.inode].name))) is None,
{
    let t = db.tree;
    let o = db.index()[e.inode];
    let on = encode_utf8(o.name);
    let key = encode_utf8(e.name);
    crate::text::lemma_utf8_roundtrip(o.name);
    crate::text::lemma_utf8_roundtrip(e.name);
    assert(o.parent != e.parent || on != key);
    let t0 = tree_unlink(t, o.parent, on);
    let t1 = tree_link(t0, e.parent, key, e.inode);
    lemma_relink_changes(t, o.parent, on, e.parent, key, e.inode);
    lemma_resolve_agree(t, t1, o.parent, on, e.parent, key, ROOT_INODE, cs);
    if t.contains_key(o.parent) {
        lemma_assoc_del(t[o.parent], on);
        assert(!assoc_map(t0[o.parent]).dom().contains(on));
    }
    if o.parent == e.parent {
        let c = if t0.contains_key(e.parent) {
            t0[e.parent]
        } else {
            Seq::<(Seq<u8>, u64)>::empty()
        };
        lemma_assoc_empty::<Seq<u8>, u64>();
        if t0.contains_key(e.parent) {
            lemma_assoc_del(t[o.parent], on);
        }
        lemma_assoc_put(c, key, e.inode);
        assert(!assoc_map(c).dom().contains(on));
        assert(!assoc_map(t1[o.parent]).dom().contains(on));
    }
    assert(!(t1.contains_key(o.parent) && has_key(t1[o.parent], on)));
    let t2 = apply_outcome(db, e).tree;
    assert(t2 == (if e.entry_type == DT_DIR {
        crate::memdb::database::tree_ensure(t1, e.inode)
    } else {
        t1
    }));
    assert(links_kept(t1, t2));
    lemma_resolve_kept(t1, t2, ROOT_INODE, cs);
    assert(!(t2.contains_key(o.parent) && has_key(t2[o.parent], on))) by {
        if t2.contains_key(o.parent) && !t1.contains_key(o.parent) {
            assert(t2[o.parent] =~= Seq::<(Seq<u8>, u64)>::empty());
        }
    }
    lemma_resolve_push(t2, ROOT_INODE, cs, on);
}

/// Laws of a lock acquired at `now` with checksum `csum`: within its window another
/// checksum is refused and changes nothing; once the lock's entry exists, the same
/// checksum is granted again and restarts the window at `later`; after the window another
/// checksum is granted (the lock's entry existing) and then holds the lock.
pub proof fn lemma_acquire_laws(db: MemDbView, pc: Seq<char>, csum: Seq<u8>, now: u64, later: u64, other: Seq<u8>)
    requires
        acquire_outcome(db, pc, csum, now) is Ok,
    ensures
        ({
            let db2 = acquire_outcome(db, pc, csum, now)->Ok_0;
            let k = lock_key(pc);
            let lp = encode_utf8(seq!['/'] + k);
            &&& (now <= later <= now + LOCK_TIMEOUT && other != csum ==> acquire_outcome(db2, pc, other, later)
                == Err::<MemDbView, (MemDbError, MemDbView)>((MemDbError::LockHeld, db2)))
            &&& (lookup(db2, lp) is Some ==> acquire_outcome(db2, pc, csum, later) == Ok::<MemDbView, (MemDbError, MemDbView)>(
                MemDbView { locks: db2.locks.insert(k, LockView { ltime: later, csum }), ..db2 },
            ))
            &&& (later > now + LOCK_TIMEOUT && lookup(db2, lp) is Some ==> acquire_outcome(db2, pc, other, later)
                == Ok::<MemDbView, (MemDbError, MemDbView)>(
                MemDbView { locks: db2.locks.insert(k, LockView { ltime: later, csum: other }), ..db2 },
            ) && is_locked_at_spec(acquire_outcome(db2, pc, other, later)->Ok_0, pc, later))
        }),
{
    let k = lock_key(pc);
    let db2 = acquire_outcome(db, pc, csum, now)->Ok_0;
    assert(db2.locks.contains_key(k) && db2.locks[k] == (LockView { ltime: now, csum }));
}

/// Laws of releasing a lock acquired at `now` with checksum `csum`: another checksum is
/// refused and changes nothing, so the lock stays; a granted release with `csum` leaves
/// the path unlocked at any time, a further release (at `t2`) finds no lock, and, where inodes and
/// child names are unique, the lock's entry is gone.
pub proof fn lemma_release_laws(db: MemDbView, pc: Seq<char>, csum: Seq<u8>, now: u64, t: u64, t2: u64, other: Seq<u8>)
    requires
        acquire_outcome(db, pc, csum, now) is Ok,
    ensures
        ({
            let db2 = acquire_outcome(db, pc, csum, now)->Ok_0;
            let k = lock_key(pc);
            let lp = encode_utf8(seq!['/'] + k);
            &&& (other != csum ==> release_outcome(db2, pc, other, t)
                == Err::<MemDbView, (MemDbError, MemDbView)>((MemDbError::LockChecksumMismatch, db2)))
            &&& (release_outcome(db2, pc, csum, t) matches Ok(db3) ==> {
                &&& forall|x: u64| !is_locked_at_spec(db3, pc, x)
                &&& release_outcome(db3, pc, csum, t2) == Err::<MemDbView, (MemDbError, MemDbView)>((MemDbError::LockNotFound, db3))
                &&& (unique_inodes(db2.entries) && tables_unique(db2.tree) ==> lookup(db3, lp) is None)
            })
        }),
{
    let k = lock_key(pc);
    let db2 = acquire_outcome(db, pc, csum, now)->Ok_0;
    let lpc = seq!['/'] + k;
    let lp = encode_utf8(lpc);
    assert(db2.locks.contains_key(k) && db2.locks[k] == (LockView { ltime: now, csum }));
    if release_outcome(db2, pc, csum, t) is Ok {
        let db3 = release_outcome(db2, pc, csum, t)->Ok_0;
        if lookup(db2, lp) is Some {
            let db1 = delete_outcome(db2, lpc, 0, t as u32)->Ok_0;
            assert(db3 == MemDbView { locks: db1.locks.remove(k), ..db1 });
            if unique_inodes(db2.entries) && tables_unique(db2.tree) {
                lemma_delete_then_lookup(db2, lpc, 0, t as u32);
                assert(lookup(db1, lp) is None);
                assert(lookup(db3, lp) == lookup(db1, lp));
            }
        } else {
            assert(lookup(db3, lp) == lookup(db2, lp));
        }
    }
}

/// A rename of an entry onto its own path keeps it: the entry keeps its inode, type, size
/// and data under the new version, writer and mtime, and no row is deleted.
pub proof fn lemma_rename_onto_itself(db: MemDbView, p: Seq<u8>, writer: u32, mtime: u32)
    requires
        unique_inodes(db.entries),
        rename_outcome(db, p, p, writer, mtime) is Ok,
    ensures
        ({
            let e = lookup(db, p)->Some_0;
            let db2 = rename_outcome(db, p, p, writer, mtime)->Ok_0;
            &&& db2.index().contains_key(e.inode)
            &&& db2.index()[e.inode].inode == e.inode
            &&& db2.index()[e.inode].entry_type == e.entry_type
            &&& db2.index()[e.inode].size == e.size
            &&& db2.index()[e.inode].data == e.data
            &&& db2.index()[e.inode].version == next_version(db.version)
            &&& db2.pending == db.pending + seq![
                crate::memdb::database::PersistOpView::SetVersion { version: next_version(db.version), writer, mtime },
                crate::memdb::database::PersistOpView::Update { entry: db2.index()[e.inode] },
            ]
        }),
{
    let e = lookup(db, p)->Some_0;
    let ei = lookup_inode(db, p)->Some_0;
    lemma_index_inode(db.entries, ei);
    let nv = next_version(db.version);
    let s1 = with_root_meta(db.entries, nv, writer, mtime);
    lemma_with_root_meta_unique(db.entries, nv, writer, mtime);
    let db2 = rename_outcome(db, p, p, writer, mtime)->Ok_0;
    let ne = TreeEntryView {
        parent: lookup(db, dirname(p))->Some_0.inode,
        name: decode_utf8(basename(p)),
        writer,
        mtime,
        version: nv,
        ..e
    };
    lemma_put_entry(s1, ne);
    assert(db2.entries == put_entry(s1, ne));
    assert(db2.index()[e.inode] == ne);
}

} // verus!
