use pmxcfs::api_types::VmType;
use pmxcfs::memdb::index::{IndexEntry, MemDbIndex};
use pmxcfs::memdb::types::{TreeEntry, DT_DIR, DT_REG};
use pmxcfs::memdb::vmlist::{is_valid_nodename, parse_vm_config_name, parse_vm_config_path};
use std::cmp::Ordering;

#[test]
fn test_tree_entry_serialize_file_with_data() {
    let data = b"test file content".to_vec();
    let entry = TreeEntry {
        inode: 42,
        parent: 0,
        version: 1,
        writer: 100,
        name: "testfile.txt".to_string(),
        mtime: 1234567890,
        size: data.len(),
        entry_type: DT_REG,
        data: data.clone(),
    };
    let serialized = entry.serialize_for_update();
    let expected_size = 41 + entry.name.len() + 1 + data.len();
    assert_eq!(serialized.len(), expected_size);
    let deserialized = TreeEntry::deserialize_from_update(&serialized).unwrap();
    assert_eq!(deserialized.inode, entry.inode);
    assert_eq!(deserialized.name, entry.name);
    assert_eq!(deserialized.size, entry.size);
    assert_eq!(deserialized.data, entry.data);
}

#[test]
fn test_tree_entry_serialize_directory() {
    let entry = TreeEntry {
        inode: 10,
        parent: 0,
        version: 1,
        writer: 50,
        name: "mydir".to_string(),
        mtime: 1234567890,
        size: 0,
        entry_type: DT_DIR,
        data: Vec::new(),
    };
    let serialized = entry.serialize_for_update();
    let expected_size = 41 + entry.name.len() + 1;
    assert_eq!(serialized.len(), expected_size);
    let deserialized = TreeEntry::deserialize_from_update(&serialized).unwrap();
    assert_eq!(deserialized.inode, entry.inode);
    assert_eq!(deserialized.name, entry.name);
    assert_eq!(deserialized.entry_type, DT_DIR);
    assert!(deserialized.data.is_empty(), "Directories should have no data");
}

#[test]
fn test_tree_entry_deserialize_truncated_header() {
    let data = vec![0u8; 40];
    let result = TreeEntry::deserialize_from_update(&data);
    assert!(result.is_err());
    assert!(result.unwrap_err().to_string().contains("too short"));
}

#[test]
fn test_tree_entry_deserialize_invalid_type() {
    let mut data = vec![0u8; 100];
    data[40] = 99;
    let result = TreeEntry::deserialize_from_update(&data);
    assert!(result.is_err());
    assert!(result.unwrap_err().to_string().contains("Invalid entry type"));
}

#[test]
fn test_tree_entry_deserialize_missing_name_terminator() {
    let mut data = vec![0u8; 100];
    data[40] = DT_REG;
    data[32..36].copy_from_slice(&5u32.to_le_bytes());
    data[41..46].copy_from_slice(b"test!");
    let result = TreeEntry::deserialize_from_update(&data);
    assert!(result.is_err());
    assert!(result.unwrap_err().to_string().contains("not null-terminated"));
}

#[test]
fn test_parse_vm_config_name() {
    assert_eq!(parse_vm_config_name("100.conf"), Some(100));
    assert_eq!(parse_vm_config_name("999.conf"), Some(999));
    assert_eq!(parse_vm_config_name("123"), None);
    assert_eq!(parse_vm_config_name("abc.conf"), None);
    assert_eq!(parse_vm_config_name(""), None);
    assert_eq!(parse_vm_config_name("0.conf"), None);
    assert_eq!(parse_vm_config_name("00.conf"), None);
    assert_eq!(parse_vm_config_name("001.conf"), None);
}

#[test]
fn config_name_requires_leading_nonzero_digit() {
    assert_eq!(parse_vm_config_name("+100.conf"), None);
    assert_eq!(parse_vm_config_name("+0.conf"), None);
    assert_eq!(parse_vm_config_name("-1.conf"), None);
    assert_eq!(parse_vm_config_name(".conf"), None);
    assert_eq!(parse_vm_config_name("1.conf"), Some(1));
}

#[test]
fn test_is_valid_nodename() {
    assert!(is_valid_nodename("node1"));
    assert!(is_valid_nodename("pve-node-01"));
    assert!(is_valid_nodename("a"));
    assert!(is_valid_nodename("node123"));
    assert!(!is_valid_nodename(""));
    assert!(!is_valid_nodename("-invalid"));
    assert!(!is_valid_nodename("invalid-"));
    assert!(!is_valid_nodename("node_1"));
    assert!(!is_valid_nodename("server.example.com"));
    assert!(!is_valid_nodename(".invalid"));
}

#[test]
fn test_parse_vm_config_path() {
    assert_eq!(
        parse_vm_config_path("/nodes/node1/qemu-server/100.conf"),
        Some(("node1".to_string(), VmType::Qemu, 100))
    );
    assert_eq!(parse_vm_config_path("nodes/node1/lxc/200.conf"), Some(("node1".to_string(), VmType::Lxc, 200)));
    assert_eq!(parse_vm_config_path("/nodes/node1/qemu-server/0.conf"), None);
    assert_eq!(parse_vm_config_path("/nodes/node1/qemu-server/abc.conf"), None);
    assert_eq!(parse_vm_config_path("/nodes/node1/other/100.conf"), None);
    assert_eq!(parse_vm_config_path("/other/node1/qemu-server/100.conf"), None);
    assert_eq!(parse_vm_config_path("/nodes/node1/qemu-server/100.txt"), None);
}

#[test]
fn vm_config_name_overflow_is_rejected() {
    assert_eq!(parse_vm_config_name("4294967295.conf"), Some(4294967295));
    assert_eq!(parse_vm_config_name("4294967296.conf"), None);
}

#[test]
fn test_index_entry_roundtrip() {
    let entry = IndexEntry { inode: 0x123456789ABCDEF0, digest: [42u8; 32] };
    let serialized = entry.serialize();
    assert_eq!(serialized.len(), 40);
    let deserialized = IndexEntry::deserialize(&serialized).unwrap();
    assert_eq!(deserialized, entry);
}

#[test]
fn test_memdb_index_roundtrip() {
    let entries = vec![IndexEntry { inode: 1, digest: [1u8; 32] }, IndexEntry { inode: 2, digest: [2u8; 32] }];
    let index = MemDbIndex::new(100, 1000, 1, 123456, entries);
    let serialized = index.serialize();
    assert_eq!(serialized.len(), 32 + 2 * 40);
    let deserialized = MemDbIndex::deserialize(&serialized).unwrap();
    assert_eq!(deserialized.version, 100);
    assert_eq!(deserialized.last_inode, 1000);
    assert_eq!(deserialized.size, 2);
    assert_eq!(deserialized.entries.len(), 2);
}

#[test]
fn test_index_comparison() {
    let idx1 = MemDbIndex::new(100, 0, 1, 1000, vec![]);
    let idx2 = MemDbIndex::new(100, 0, 1, 2000, vec![]);
    let idx3 = MemDbIndex::new(101, 0, 1, 500, vec![]);
    assert!(idx1 < idx2);
    assert_eq!(idx1.cmp(&idx2), Ordering::Less);
    assert!(idx2 > idx1);
    assert_eq!(idx2.cmp(&idx1), Ordering::Greater);
    assert!(idx3 > idx2);
    assert_eq!(idx3.cmp(&idx2), Ordering::Greater);
    let idx4 = MemDbIndex::new(100, 0, 1, 1000, vec![]);
    assert_eq!(idx1, idx4);
    assert_eq!(idx1.cmp(&idx4), Ordering::Equal);
}

#[test]
fn test_find_differences() {
    let master_entries = vec![
        IndexEntry { inode: 1, digest: [1u8; 32] },
        IndexEntry { inode: 2, digest: [2u8; 32] },
        IndexEntry { inode: 3, digest: [3u8; 32] },
    ];
    let slave_entries = vec![IndexEntry { inode: 1, digest: [1u8; 32] }, IndexEntry { inode: 2, digest: [99u8; 32] }];
    let master = MemDbIndex::new(100, 3, 1, 1000, master_entries);
    let slave = MemDbIndex::new(100, 2, 1, 900, slave_entries);
    let diffs = master.find_differences(&slave);
    assert_eq!(diffs, vec![2, 3]);
}

#[test]
fn test_memdb_index_serialization() {
    let entries = vec![
        IndexEntry { inode: 1, digest: [0u8; 32] },
        IndexEntry { inode: 2, digest: [1u8; 32] },
        IndexEntry { inode: 3, digest: [2u8; 32] },
    ];
    let index = MemDbIndex::new(100, 3, 1, 12345, entries);
    let serialized = index.serialize();
    assert_eq!(serialized.len(), 32 + 3 * 40);
    assert_eq!(serialized.len(), index.bytes as usize);
    let deserialized = MemDbIndex::deserialize(&serialized).expect("Failed to deserialize");
    assert_eq!(deserialized.version, index.version);
    assert_eq!(deserialized.last_inode, index.last_inode);
    assert_eq!(deserialized.writer, index.writer);
    assert_eq!(deserialized.mtime, index.mtime);
    assert_eq!(deserialized.size, index.size);
    assert_eq!(deserialized.bytes, index.bytes);
    assert_eq!(deserialized.entries.len(), index.entries.len());
    for (i, (orig, deser)) in index.entries.iter().zip(deserialized.entries.iter()).enumerate() {
        assert_eq!(deser.inode, orig.inode, "Entry {i} inode mismatch");
        assert_eq!(deser.digest, orig.digest, "Entry {i} digest mismatch");
    }
}

#[test]
fn test_leader_election_by_version() {
    let index1 = MemDbIndex::new(100, 1, 1, 1000, vec![IndexEntry { inode: 1, digest: [0u8; 32] }]);
    let index2 = MemDbIndex::new(150, 1, 2, 1000, vec![IndexEntry { inode: 1, digest: [0u8; 32] }]);
    let index3 = MemDbIndex::new(120, 1, 3, 1000, vec![IndexEntry { inode: 1, digest: [0u8; 32] }]);
    assert_eq!(index2.cmp(&index1), Ordering::Greater);
    assert_eq!(index2.cmp(&index3), Ordering::Greater);
    assert_eq!(index1.cmp(&index2), Ordering::Less);
    assert_eq!(index3.cmp(&index2), Ordering::Less);
}

#[test]
fn test_leader_election_by_mtime_tiebreaker() {
    let index1 = MemDbIndex::new(100, 1, 1, 1000, vec![IndexEntry { inode: 1, digest: [0u8; 32] }]);
    let index2 = MemDbIndex::new(100, 1, 2, 2000, vec![IndexEntry { inode: 1, digest: [0u8; 32] }]);
    assert_eq!(index2.cmp(&index1), Ordering::Greater);
    assert_eq!(index1.cmp(&index2), Ordering::Less);
}

#[test]
fn test_leader_election_equal_indices() {
    let index1 = MemDbIndex::new(100, 1, 1, 1000, vec![IndexEntry { inode: 1, digest: [0u8; 32] }]);
    let index2 = MemDbIndex::new(100, 1, 2, 1000, vec![IndexEntry { inode: 1, digest: [0u8; 32] }]);
    assert_eq!(index1.cmp(&index2), Ordering::Equal);
    assert_eq!(index2.cmp(&index1), Ordering::Equal);
}

#[test]
fn test_index_find_differences() {
    let leader = MemDbIndex::new(
        100,
        3,
        1,
        1000,
        vec![
            IndexEntry { inode: 1, digest: [0u8; 32] },
            IndexEntry { inode: 2, digest: [1u8; 32] },
            IndexEntry { inode: 3, digest: [2u8; 32] },
        ],
    );
    let follower = MemDbIndex::new(
        90,
        2,
        2,
        900,
        vec![IndexEntry { inode: 1, digest: [0u8; 32] }, IndexEntry { inode: 2, digest: [99u8; 32] }],
    );
    let diffs = leader.find_differences(&follower);
    assert_eq!(diffs.len(), 2);
    assert!(diffs.contains(&2));
    assert!(diffs.contains(&3));
}

#[test]
fn test_index_find_differences_no_diffs() {
    let e = vec![IndexEntry { inode: 1, digest: [0u8; 32] }, IndexEntry { inode: 2, digest: [1u8; 32] }];
    let index1 = MemDbIndex::new(100, 2, 1, 1000, e.clone());
    let index2 = MemDbIndex::new(100, 2, 2, 1000, e);
    let diffs = index1.find_differences(&index2);
    assert_eq!(diffs.len(), 0);
}

#[test]
fn test_index_find_differences_follower_has_extra() {
    let leader = MemDbIndex::new(
        100,
        2,
        1,
        1000,
        vec![IndexEntry { inode: 1, digest: [0u8; 32] }, IndexEntry { inode: 2, digest: [1u8; 32] }],
    );
    let follower = MemDbIndex::new(
        90,
        3,
        2,
        900,
        vec![
            IndexEntry { inode: 1, digest: [0u8; 32] },
            IndexEntry { inode: 2, digest: [1u8; 32] },
            IndexEntry { inode: 3, digest: [2u8; 32] },
        ],
    );
    let diffs = leader.find_differences(&follower);
    assert_eq!(diffs.len(), 0);
}

#[test]
fn test_tree_entry_update_serialization() {
    let entry = TreeEntry {
        inode: 42,
        parent: 1,
        version: 100,
        writer: 2,
        mtime: 12345,
        size: 11,
        entry_type: 8,
        name: "test.conf".to_string(),
        data: b"hello world".to_vec(),
    };
    let serialized = entry.serialize_for_update();
    assert_eq!(serialized.len(), 41 + 10 + 11);
    let deserialized = TreeEntry::deserialize_from_update(&serialized).unwrap();
    assert_eq!(deserialized.inode, entry.inode);
    assert_eq!(deserialized.parent, entry.parent);
    assert_eq!(deserialized.version, entry.version);
    assert_eq!(deserialized.writer, entry.writer);
    assert_eq!(deserialized.mtime, entry.mtime);
    assert_eq!(deserialized.size, entry.size);
    assert_eq!(deserialized.entry_type, entry.entry_type);
    assert_eq!(deserialized.name, entry.name);
    assert_eq!(deserialized.data, entry.data);
}

#[test]
fn test_tree_entry_directory_serialization() {
    let entry = TreeEntry {
        inode: 10,
        parent: 1,
        version: 50,
        writer: 1,
        mtime: 10000,
        size: 0,
        entry_type: 4,
        name: "configs".to_string(),
        data: Vec::new(),
    };
    let serialized = entry.serialize_for_update();
    assert_eq!(serialized.len(), 41 + 8);
    let deserialized = TreeEntry::deserialize_from_update(&serialized).unwrap();
    assert_eq!(deserialized.inode, entry.inode);
    assert_eq!(deserialized.name, entry.name);
    assert_eq!(deserialized.entry_type, 4);
    assert_eq!(deserialized.data.len(), 0);
}

#[test]
fn test_tree_entry_empty_file_serialization() {
    let entry = TreeEntry {
        inode: 20,
        parent: 1,
        version: 75,
        writer: 3,
        mtime: 20000,
        size: 0,
        entry_type: 8,
        name: "empty.txt".to_string(),
        data: Vec::new(),
    };
    let serialized = entry.serialize_for_update();
    assert_eq!(serialized.len(), 41 + 10);
    let deserialized = TreeEntry::deserialize_from_update(&serialized).unwrap();
    assert_eq!(deserialized.inode, entry.inode);
    assert_eq!(deserialized.name, entry.name);
    assert_eq!(deserialized.size, 0);
    assert_eq!(deserialized.data.len(), 0);
}

#[test]
fn test_index_digest_computation() {
    let digest1 = MemDbIndex::compute_entry_digest(1, 0, 100, 1, 1000, 0, 4, "dir1", &[]);
    let digest2 = MemDbIndex::compute_entry_digest(2, 0, 100, 1, 1000, 0, 4, "dir2", &[]);
    assert_ne!(digest1, digest2);
    let digest3 = MemDbIndex::compute_entry_digest(1, 0, 100, 1, 1000, 0, 4, "dir1", &[]);
    assert_eq!(digest1, digest3);
    let digest4 = MemDbIndex::compute_entry_digest(1, 0, 100, 1, 1000, 5, 8, "file", b"hello");
    let digest5 = MemDbIndex::compute_entry_digest(1, 0, 100, 1, 1000, 5, 8, "file", b"world");
    assert_ne!(digest4, digest5);
}

#[test]
fn test_index_sorted_entries() {
    let entries = vec![
        IndexEntry { inode: 5, digest: [5u8; 32] },
        IndexEntry { inode: 2, digest: [2u8; 32] },
        IndexEntry { inode: 8, digest: [8u8; 32] },
        IndexEntry { inode: 1, digest: [1u8; 32] },
    ];
    let index = MemDbIndex::new(100, 8, 1, 1000, entries);
    assert_eq!(index.entries[0].inode, 1);
    assert_eq!(index.entries[1].inode, 2);
    assert_eq!(index.entries[2].inode, 5);
    assert_eq!(index.entries[3].inode, 8);
}

#[test]
fn test_large_index_serialization() {
    let mut entries = Vec::new();
    for i in 1..=100 {
        entries.push(IndexEntry { inode: i, digest: [(i % 256) as u8; 32] });
    }
    let index = MemDbIndex::new(1000, 100, 1, 50000, entries);
    let serialized = index.serialize();
    let deserialized = MemDbIndex::deserialize(&serialized).expect("Failed to deserialize large index");
    assert_eq!(deserialized.version, index.version);
    assert_eq!(deserialized.size, 100);
    assert_eq!(deserialized.entries.len(), 100);
    for i in 0..100 {
        assert_eq!(deserialized.entries[i].inode, (i + 1) as u64);
    }
}

#[test]
fn index_deserialize_rejects_short_data() {
    assert!(MemDbIndex::deserialize(&[0u8; 31]).is_err());
    assert!(IndexEntry::deserialize(&[0u8; 39]).is_err());
}

#[test]
fn index_sort_keeps_order_of_equal_inodes() {
    let entries = vec![
        IndexEntry { inode: 3, digest: [1u8; 32] },
        IndexEntry { inode: 1, digest: [2u8; 32] },
        IndexEntry { inode: 3, digest: [3u8; 32] },
        IndexEntry { inode: 1, digest: [4u8; 32] },
    ];
    let index = MemDbIndex::new(1, 3, 0, 0, entries);
    let got: Vec<(u64, u8)> = index.entries.iter().map(|e| (e.inode, e.digest[0])).collect();
    assert_eq!(got, vec![(1, 2), (1, 4), (3, 1), (3, 3)]);
    assert_eq!(index.bytes, 32 + 40 * 4);
}

#[test]
fn config_path_reads_back() {
    for node in ["node1", "a", "pve-2", "X9"] {
        for (dir, t) in [("qemu-server", VmType::Qemu), ("lxc", VmType::Lxc)] {
            for id in [1u32, 9, 10, 100, 4294967295] {
                let p = format!("nodes/{node}/{dir}/{id}.conf");
                assert_eq!(parse_vm_config_path(&p), Some((node.to_string(), t, id)));
                assert_eq!(parse_vm_config_path(&format!("/{p}")), Some((node.to_string(), t, id)));
            }
        }
    }
}
