use pmxcfs::memdb::database::MemDb;
use pmxcfs::memdb::index::MemDbIndex;
use pmxcfs::memdb::sync::{contains_bytes, CorosyncSync};
use pmxcfs::memdb::types::{TreeEntry, ROOT_INODE};

const NOW: u32 = 1_700_000_000;

fn create_test_db() -> MemDb {
    MemDb::load(Vec::new(), NOW)
}

#[test]
fn test_encode_index_empty_db() {
    let mut memdb = create_test_db();
    let index = memdb.encode_index().unwrap();
    assert_eq!(index.version, 1);
    assert_eq!(index.size, 1);
    assert_eq!(index.entries.len(), 1);
    assert_eq!(index.entries[0].inode, 0);
}

#[test]
fn test_encode_index_with_entries() {
    let mut memdb = create_test_db();
    memdb.create("/file1.txt", 0, 0, 1000).unwrap();
    memdb.create("/dir1", libc::S_IFDIR, 0, 1001).unwrap();
    memdb.create("/dir1/file2.txt", 0, 0, 1002).unwrap();
    let index = memdb.encode_index().unwrap();
    assert_eq!(index.size, 4);
    assert_eq!(index.entries.len(), 4);
    for i in 1..index.entries.len() {
        assert!(index.entries[i].inode > index.entries[i - 1].inode, "Entries not sorted");
    }
    assert!(index.version >= 4);
}

#[test]
fn test_apply_tree_entry_new() {
    let mut memdb = create_test_db();
    let entry = TreeEntry {
        inode: 10,
        parent: ROOT_INODE,
        version: 100,
        writer: 2,
        mtime: 5000,
        size: 13,
        entry_type: 8,
        name: "applied.txt".to_string(),
        data: b"applied data!".to_vec(),
    };
    memdb.apply_tree_entry(entry.clone()).unwrap();
    let retrieved = memdb.lookup_path("/applied.txt");
    assert!(retrieved.is_some());
    let retrieved = retrieved.unwrap();
    assert_eq!(retrieved.inode, 10);
    assert_eq!(retrieved.name, "applied.txt");
    assert_eq!(retrieved.version, 100);
    assert_eq!(retrieved.writer, 2);
    assert_eq!(retrieved.mtime, 5000);
    assert_eq!(retrieved.data, b"applied data!");
    assert!(memdb.get_version() >= 100);
}

#[test]
fn test_apply_tree_entry_update() {
    let mut memdb = create_test_db();
    memdb.create("/update.txt", 0, 0, 1000).unwrap();
    memdb.write("/update.txt", 0, 0, 1001, b"original", false).unwrap();
    let initial = memdb.lookup_path("/update.txt").unwrap();
    let initial_inode = initial.inode;
    let updated = TreeEntry {
        inode: initial_inode,
        parent: ROOT_INODE,
        version: 200,
        writer: 3,
        mtime: 2000,
        size: 7,
        entry_type: 8,
        name: "update.txt".to_string(),
        data: b"updated".to_vec(),
    };
    memdb.apply_tree_entry(updated).unwrap();
    let retrieved = memdb.lookup_path("/update.txt").unwrap();
    assert_eq!(retrieved.inode, initial_inode);
    assert_eq!(retrieved.version, 200);
    assert_eq!(retrieved.writer, 3);
    assert_eq!(retrieved.mtime, 2000);
    assert_eq!(retrieved.data, b"updated");
}

#[test]
fn test_apply_tree_entry_directory() {
    let mut memdb = create_test_db();
    let dir_entry = TreeEntry {
        inode: 20,
        parent: ROOT_INODE,
        version: 50,
        writer: 1,
        mtime: 3000,
        size: 0,
        entry_type: 4,
        name: "newdir".to_string(),
        data: Vec::new(),
    };
    memdb.apply_tree_entry(dir_entry).unwrap();
    let retrieved = memdb.lookup_path("/newdir").unwrap();
    assert_eq!(retrieved.inode, 20);
    assert!(retrieved.is_dir());
    assert_eq!(retrieved.name, "newdir");
}

#[test]
fn test_apply_tree_entry_move() {
    let mut memdb = create_test_db();
    memdb.create("/olddir", libc::S_IFDIR, 0, 1000).unwrap();
    memdb.create("/newdir", libc::S_IFDIR, 0, 1001).unwrap();
    memdb.create("/olddir/file.txt", 0, 0, 1002).unwrap();
    let file = memdb.lookup_path("/olddir/file.txt").unwrap();
    let file_inode = file.inode;
    let newdir = memdb.lookup_path("/newdir").unwrap();
    let moved = TreeEntry {
        inode: file_inode,
        parent: newdir.inode,
        version: 100,
        writer: 2,
        mtime: 2000,
        size: 0,
        entry_type: 8,
        name: "file.txt".to_string(),
        data: Vec::new(),
    };
    memdb.apply_tree_entry(moved).unwrap();
    assert!(memdb.lookup_path("/olddir/file.txt").is_none());
    assert!(memdb.lookup_path("/newdir/file.txt").is_some());
    let retrieved = memdb.lookup_path("/newdir/file.txt").unwrap();
    assert_eq!(retrieved.inode, file_inode);
}

#[test]
fn test_apply_multiple_entries() {
    let mut memdb = create_test_db();
    let entries = vec![
        TreeEntry {
            inode: 10,
            parent: ROOT_INODE,
            version: 100,
            writer: 2,
            mtime: 5000,
            size: 0,
            entry_type: 4,
            name: "configs".to_string(),
            data: Vec::new(),
        },
        TreeEntry {
            inode: 11,
            parent: 10,
            version: 101,
            writer: 2,
            mtime: 5001,
            size: 12,
            entry_type: 8,
            name: "config1.txt".to_string(),
            data: b"config data1".to_vec(),
        },
        TreeEntry {
            inode: 12,
            parent: 10,
            version: 102,
            writer: 2,
            mtime: 5002,
            size: 12,
            entry_type: 8,
            name: "config2.txt".to_string(),
            data: b"config data2".to_vec(),
        },
    ];
    for entry in entries {
        memdb.apply_tree_entry(entry).unwrap();
    }
    assert!(memdb.lookup_path("/configs").is_some());
    assert!(memdb.lookup_path("/configs/config1.txt").is_some());
    assert!(memdb.lookup_path("/configs/config2.txt").is_some());
    let config1 = memdb.lookup_path("/configs/config1.txt").unwrap();
    assert_eq!(config1.data, b"config data1");
    let config2 = memdb.lookup_path("/configs/config2.txt").unwrap();
    assert_eq!(config2.data, b"config data2");
    assert_eq!(memdb.get_version(), 102);
}

#[test]
fn test_encode_decode_round_trip() {
    let mut memdb = create_test_db();
    memdb.create("/file1.txt", 0, 0, 1000).unwrap();
    memdb.write("/file1.txt", 0, 0, 1001, b"data1", false).unwrap();
    memdb.create("/dir1", libc::S_IFDIR, 0, 1002).unwrap();
    memdb.create("/dir1/file2.txt", 0, 0, 1003).unwrap();
    memdb.write("/dir1/file2.txt", 0, 0, 1004, b"data2", false).unwrap();
    let index = memdb.encode_index().unwrap();
    let serialized = index.serialize();
    let deserialized = MemDbIndex::deserialize(&serialized).unwrap();
    assert_eq!(deserialized.version, index.version);
    assert_eq!(deserialized.last_inode, index.last_inode);
    assert_eq!(deserialized.writer, index.writer);
    assert_eq!(deserialized.mtime, index.mtime);
    assert_eq!(deserialized.size, index.size);
    assert_eq!(deserialized.entries.len(), index.entries.len());
    for (orig, deser) in index.entries.iter().zip(deserialized.entries.iter()) {
        assert_eq!(deser.inode, orig.inode);
        assert_eq!(deser.digest, orig.digest);
    }
}

#[test]
fn test_apply_tree_entry_persistence() {
    let stored = {
        let mut memdb = create_test_db();
        let entry = TreeEntry {
            inode: 15,
            parent: ROOT_INODE,
            version: 75,
            writer: 3,
            mtime: 7000,
            size: 9,
            entry_type: 8,
            name: "persist.txt".to_string(),
            data: b"persisted".to_vec(),
        };
        memdb.apply_tree_entry(entry).unwrap();
        memdb.get_all_entries()
    };
    let memdb = MemDb::load(stored, NOW);
    let retrieved = memdb.lookup_path("/persist.txt");
    assert!(retrieved.is_some());
    let retrieved = retrieved.unwrap();
    assert_eq!(retrieved.inode, 15);
    assert_eq!(retrieved.version, 75);
    assert_eq!(retrieved.data, b"persisted");
}

#[test]
fn test_index_digest_stability() {
    let mut memdb = create_test_db();
    memdb.create("/stable.txt", 0, 0, 1000).unwrap();
    memdb.write("/stable.txt", 0, 0, 1001, b"stable data", false).unwrap();
    let index1 = memdb.encode_index().unwrap();
    let index2 = memdb.encode_index().unwrap();
    assert_eq!(index1.entries.len(), index2.entries.len());
    for (e1, e2) in index1.entries.iter().zip(index2.entries.iter()) {
        assert_eq!(e1.inode, e2.inode);
        assert_eq!(e1.digest, e2.digest, "Digests should be stable");
    }
}

#[test]
fn test_index_digest_changes_on_modification() {
    let mut memdb = create_test_db();
    memdb.create("/change.txt", 0, 0, 1000).unwrap();
    memdb.write("/change.txt", 0, 0, 1001, b"original", false).unwrap();
    let index1 = memdb.encode_index().unwrap();
    let original_digest = index1.entries.iter().find(|e| e.inode != 1).unwrap().digest;
    memdb.write("/change.txt", 0, 0, 1002, b"modified", false).unwrap();
    let index2 = memdb.encode_index().unwrap();
    let modified_digest = index2.entries.iter().find(|e| e.inode != 1).unwrap().digest;
    assert_ne!(original_digest, modified_digest, "Digest should change after modification");
}

#[test]
fn corosync_sync_not_stored() {
    let db = create_test_db();
    assert!(matches!(db.corosync_sync_action(None, false), CorosyncSync::NotStored));
}

#[test]
fn corosync_sync_directory_is_refused() {
    let mut db = create_test_db();
    db.create("/corosync.conf", libc::S_IFDIR, 0, 1000).unwrap();
    assert!(matches!(db.corosync_sync_action(None, false), CorosyncSync::NotAFile));
}

#[test]
fn corosync_sync_unchanged_and_forced() {
    let mut db = create_test_db();
    let conf = b"totem {\n}\nnodelist {\n}\n";
    db.create("/corosync.conf", 0, 0, 1000).unwrap();
    db.write("/corosync.conf", 0, 0, 1001, conf, false).unwrap();
    assert!(matches!(db.corosync_sync_action(Some(conf), false), CorosyncSync::Unchanged));
    match db.corosync_sync_action(Some(conf), true) {
        CorosyncSync::Write { data, missing_totem, missing_nodelist } => {
            assert_eq!(data, conf.to_vec());
            assert!(!missing_totem);
            assert!(!missing_nodelist);
        }
        other => panic!("unexpected {:?}", other),
    }
}

#[test]
fn corosync_sync_changed_reports_missing_sections() {
    let mut db = create_test_db();
    db.create("/corosync.conf", 0, 0, 1000).unwrap();
    db.write("/corosync.conf", 0, 0, 1001, b"totem { version: 2 }", false).unwrap();
    match db.corosync_sync_action(Some(b"old"), false) {
        CorosyncSync::Write { missing_totem, missing_nodelist, .. } => {
            assert!(!missing_totem);
            assert!(missing_nodelist);
        }
        other => panic!("unexpected {:?}", other),
    }
    assert!(matches!(db.corosync_sync_action(None, false), CorosyncSync::Write { .. }));
}

#[test]
fn corosync_sync_invalid_utf8() {
    let mut db = create_test_db();
    db.create("/corosync.conf", 0, 0, 1000).unwrap();
    db.write("/corosync.conf", 0, 0, 1001, &[0xff, 0xfe, 0x74], false).unwrap();
    assert!(matches!(db.corosync_sync_action(None, false), CorosyncSync::InvalidUtf8));
    assert!(matches!(db.corosync_sync_action(Some(&[0xff, 0xfe, 0x74]), false), CorosyncSync::Unchanged));
}

#[test]
fn contains_bytes_cases() {
    assert!(contains_bytes(b"abc", b""));
    assert!(contains_bytes(b"hello totem", b"totem"));
    assert!(contains_bytes(b"totem", b"totem"));
    assert!(!contains_bytes(b"tote", b"totem"));
    assert!(!contains_bytes(b"abcabd", b"abe"));
}

fn entry(inode: u64, parent: u64, version: u64, entry_type: u8, name: &str, data: &[u8]) -> TreeEntry {
    TreeEntry {
        inode,
        parent,
        version,
        writer: 1,
        mtime: 4000,
        size: data.len(),
        entry_type,
        name: name.to_string(),
        data: data.to_vec(),
    }
}

#[test]
fn replace_all_installs_what_was_sent() {
    let mut db = create_test_db();
    db.create("/old.txt", 0, 0, 1000).unwrap();
    let sent = vec![
        entry(ROOT_INODE, ROOT_INODE, 7, 4, "", b""),
        entry(5, ROOT_INODE, 6, 4, "etc", b""),
        entry(9, 5, 7, 8, "a.conf", b"x=1"),
    ];
    db.replace_all_entries(sent.clone()).unwrap();
    let stored = db.get_all_entries();
    assert_eq!(stored.len(), sent.len());
    for (a, b) in stored.iter().zip(sent.iter()) {
        assert_eq!(a.inode, b.inode);
        assert_eq!(a.name, b.name);
        assert_eq!(a.data, b.data);
    }
    assert_eq!(db.get_version(), 7);
    assert!(db.lookup_path("/old.txt").is_none());
    assert_eq!(db.lookup_path("/etc/a.conf").unwrap().data, b"x=1");
}

#[test]
fn apply_installs_the_entry_sent() {
    let mut db = create_test_db();
    let sent = entry(12, ROOT_INODE, 40, 8, "f", b"payload");
    db.apply_tree_entry(sent.clone()).unwrap();
    let got = db.get_entry_by_inode(12).unwrap();
    assert_eq!(got.version, 40);
    assert_eq!(got.name, "f");
    assert_eq!(got.data, b"payload");
    assert_eq!(db.get_entry_by_inode(ROOT_INODE).unwrap().version, 40);
}

#[test]
fn apply_tree_entry_moves_entry_to_new_place() {
    let mut memdb = create_test_db();
    memdb.create("/dir", libc::S_IFDIR, 0, 1000).unwrap();
    memdb.create("/old.txt", 0, 0, 1001).unwrap();
    let dir = memdb.lookup_path("/dir").unwrap().inode;
    let inode = memdb.lookup_path("/old.txt").unwrap().inode;
    let moved = TreeEntry {
        inode,
        parent: dir,
        version: 300,
        writer: 4,
        mtime: 3000,
        size: 2,
        entry_type: 8,
        name: "new.txt".to_string(),
        data: b"hi".to_vec(),
    };
    memdb.apply_tree_entry(moved).unwrap();
    assert!(memdb.lookup_path("/old.txt").is_none());
    let e = memdb.lookup_path("/dir/new.txt").unwrap();
    assert_eq!(e.inode, inode);
    assert_eq!(e.version, 300);
    assert_eq!(e.data, b"hi".to_vec());
    assert_eq!(memdb.get_version(), 300);
}

#[test]
fn encode_index_header_counts_entries() {
    let mut memdb = create_test_db();
    memdb.create("/a", 0, 0, 1000).unwrap();
    memdb.create("/b", 0, 0, 1000).unwrap();
    let a = memdb.lookup_path("/a").unwrap().inode;
    let b = memdb.lookup_path("/b").unwrap().inode;
    let index = memdb.encode_index().unwrap();
    assert_eq!(index.size, 3);
    assert_eq!(index.bytes, 32 + 40 * 3);
    let inodes: Vec<u64> = index.entries.iter().map(|e| e.inode).collect();
    assert_eq!(inodes, vec![0, a, b]);
    assert!(a < b);
}
