use pmxcfs::api_types::NodeSyncInfo;
use pmxcfs::memdb::database::MemDb;
use pmxcfs::memdb::index::{IndexEntry, MemDbIndex};
use pmxcfs::memdb::types::{TreeEntry, ROOT_INODE};
use std::sync::Mutex;

const NOW: u32 = 1_700_000_000;

/// A node's side of synchronization, as the application's callbacks do it.
struct MockNode {
    memdb: Mutex<MemDb>,
    updates_received: Mutex<Vec<TreeEntry>>,
}

impl MockNode {
    fn new() -> Self {
        Self { memdb: Mutex::new(MemDb::load(Vec::new(), NOW)), updates_received: Mutex::new(Vec::new()) }
    }

    fn get_state(&self) -> Vec<u8> {
        self.memdb.lock().unwrap().encode_index().unwrap().serialize()
    }

    fn process_state_update(&self, states: &[NodeSyncInfo]) -> bool {
        let mut indices: Vec<MemDbIndex> = Vec::new();
        for node in states {
            if let Some(state_data) = &node.state {
                if let Ok(index) = MemDbIndex::deserialize(state_data) {
                    indices.push(index);
                }
            }
        }
        if indices.is_empty() {
            return true;
        }
        let mut leader_idx = 0;
        for i in 1..indices.len() {
            if indices[i] > indices[leader_idx] {
                leader_idx = i;
            }
        }
        let leader_index = &indices[leader_idx];
        let our_index = self.memdb.lock().unwrap().encode_index().unwrap();
        our_index.version == leader_index.version
            && our_index.mtime == leader_index.mtime
            && our_index.size == leader_index.size
            && our_index.entries.len() == leader_index.entries.len()
            && our_index
                .entries
                .iter()
                .zip(leader_index.entries.iter())
                .all(|(a, b)| a.inode == b.inode && a.digest == b.digest)
    }

    fn process_update(&self, data: &[u8]) {
        let tree_entry = TreeEntry::deserialize_from_update(data).unwrap();
        self.updates_received.lock().unwrap().push(tree_entry.clone());
        self.memdb.lock().unwrap().apply_tree_entry(tree_entry).unwrap();
    }

    fn db(&self) -> std::sync::MutexGuard<'_, MemDb> {
        self.memdb.lock().unwrap()
    }
}

fn states(parts: &[(u32, u32, Vec<u8>)]) -> Vec<NodeSyncInfo> {
    parts
        .iter()
        .map(|(node_id, pid, state)| NodeSyncInfo { node_id: *node_id, pid: *pid, state: Some(state.clone()), synced: false })
        .collect()
}

#[test]
fn test_two_node_empty_sync() {
    let node1 = MockNode::new();
    let node2 = MockNode::new();
    let s = states(&[(1, 1000, node1.get_state()), (2, 2000, node2.get_state())]);
    assert!(node1.process_state_update(&s), "Node 1 should be synced");
    assert!(node2.process_state_update(&s), "Node 2 should be synced");
}

#[test]
fn test_two_node_leader_election() {
    let node1 = MockNode::new();
    let node2 = MockNode::new();
    node1.db().create("/file1.txt", 0, 0, 1000).unwrap();
    node1.db().write("/file1.txt", 0, 0, 1001, b"data from node 1", false).unwrap();
    let state1 = node1.get_state();
    let state2 = node2.get_state();
    let index1 = MemDbIndex::deserialize(&state1).unwrap();
    let index2 = MemDbIndex::deserialize(&state2).unwrap();
    assert!(index1.version > index2.version);
    let s = states(&[(1, 1000, state1), (2, 2000, state2)]);
    assert!(node1.process_state_update(&s), "Node 1 (leader) should be synced");
    assert!(!node2.process_state_update(&s), "Node 2 (follower) should not be synced");
}

#[test]
fn test_incremental_update_transfer() {
    let leader = MockNode::new();
    let follower = MockNode::new();
    leader.db().create("/config", libc::S_IFDIR, 0, 1000).unwrap();
    leader.db().create("/config/node.conf", 0, 0, 1001).unwrap();
    leader.db().write("/config/node.conf", 0, 0, 1002, b"hostname=pve1", false).unwrap();
    let leader_entries = leader.db().get_all_entries();
    for entry in leader_entries {
        if entry.inode == ROOT_INODE {
            continue;
        }
        follower.process_update(&entry.serialize_for_update());
    }
    let config_dir = follower.db().lookup_path("/config");
    assert!(config_dir.is_some(), "Follower should have /config directory");
    assert!(config_dir.unwrap().is_dir());
    assert!(follower.db().lookup_path("/config/node.conf").is_some());
    let config_data = follower.db().read("/config/node.conf", 0, 1024).unwrap();
    assert_eq!(config_data, b"hostname=pve1");
    assert_eq!(follower.updates_received.lock().unwrap().len(), 2);
}

#[test]
fn test_three_node_sync() {
    let node1 = MockNode::new();
    let node2 = MockNode::new();
    let node3 = MockNode::new();
    node1.db().create("/cluster.conf", 0, 0, 5000).unwrap();
    node1.db().write("/cluster.conf", 0, 0, 5001, b"version=3", false).unwrap();
    node2.db().create("/cluster.conf", 0, 0, 4000).unwrap();
    node2.db().write("/cluster.conf", 0, 0, 4001, b"version=2", false).unwrap();
    let state1 = node1.get_state();
    let state2 = node2.get_state();
    let state3 = node3.get_state();
    let s = states(&[(1, 1000, state1.clone()), (2, 2000, state2.clone()), (3, 3000, state3.clone())]);
    assert!(node1.process_state_update(&s), "Node 1 (leader) should be synced");
    assert!(!node2.process_state_update(&s), "Node 2 should need updates");
    assert!(!node3.process_state_update(&s), "Node 3 should need updates");
    let index1 = MemDbIndex::deserialize(&state1).unwrap();
    let index2 = MemDbIndex::deserialize(&state2).unwrap();
    let index3 = MemDbIndex::deserialize(&state3).unwrap();
    assert!(index1.version >= index2.version);
    assert!(index1.version >= index3.version);
}

#[test]
fn test_update_message_wire_format_compatibility() {
    let entry = TreeEntry {
        inode: 42,
        parent: 1,
        version: 100,
        writer: 2,
        mtime: 12345,
        size: 11,
        entry_type: 8,
        name: "test.conf".to_string(),
        data: b"hello world".to_vec(),
    };
    let serialized = entry.serialize_for_update();
    let expected_header_size = 8 + 8 + 8 + 4 + 4 + 4 + 4 + 1;
    assert_eq!(expected_header_size, 41);
    let namelen = "test.conf".len() + 1;
    let expected_total = expected_header_size + namelen + 11;
    assert_eq!(serialized.len(), expected_total);
    let deserialized = TreeEntry::deserialize_from_update(&serialized).unwrap();
    assert_eq!(deserialized.inode, entry.inode);
    assert_eq!(deserialized.parent, entry.parent);
    assert_eq!(deserialized.version, entry.version);
    assert_eq!(deserialized.writer, entry.writer);
    assert_eq!(deserialized.mtime, entry.mtime);
    assert_eq!(deserialized.size, entry.size);
    assert_eq!(deserialized.entry_type, entry.entry_type);
    assert_eq!(deserialized.name, entry.name);
    assert_eq!(deserialized.data, entry.data);
}

#[test]
fn test_index_wire_format_compatibility() {
    let entries = vec![IndexEntry { inode: 1, digest: [0u8; 32] }, IndexEntry { inode: 2, digest: [1u8; 32] }];
    let index = MemDbIndex::new(100, 2, 1, 12345, entries);
    let serialized = index.serialize();
    let expected_header_size = 8 + 8 + 4 + 4 + 4 + 4;
    assert_eq!(expected_header_size, 32);
    let expected_entry_size = 8 + 32;
    assert_eq!(expected_entry_size, 40);
    let expected_total = expected_header_size + 2 * expected_entry_size;
    assert_eq!(serialized.len(), expected_total);
    assert_eq!(serialized.len(), index.bytes as usize);
    let deserialized = MemDbIndex::deserialize(&serialized).unwrap();
    assert_eq!(deserialized.version, index.version);
    assert_eq!(deserialized.last_inode, index.last_inode);
    assert_eq!(deserialized.writer, index.writer);
    assert_eq!(deserialized.mtime, index.mtime);
    assert_eq!(deserialized.size, index.size);
    assert_eq!(deserialized.bytes, index.bytes);
    assert_eq!(deserialized.entries.len(), 2);
}

#[test]
fn test_sync_with_conflicts() {
    let node1 = MockNode::new();
    let node2 = MockNode::new();
    node1.db().create("/base.conf", 0, 0, 1000).unwrap();
    node1.db().write("/base.conf", 0, 0, 1001, b"shared", false).unwrap();
    node2.db().create("/base.conf", 0, 0, 1000).unwrap();
    node2.db().write("/base.conf", 0, 0, 1001, b"shared", false).unwrap();
    node1.db().create("/file1.txt", 0, 0, 2000).unwrap();
    node1.db().write("/file1.txt", 0, 0, 2001, b"from node 1", false).unwrap();
    node2.db().create("/file2.txt", 0, 0, 2000).unwrap();
    node2.db().write("/file2.txt", 0, 0, 2001, b"from node 2", false).unwrap();
    let index1 = node1.db().encode_index().unwrap();
    let index2 = node2.db().encode_index().unwrap();
    let diffs_1_vs_2 = index1.find_differences(&index2);
    let diffs_2_vs_1 = index2.find_differences(&index1);
    assert!(!diffs_1_vs_2.is_empty(), "Node 1 should have entries node 2 doesn't have");
    assert!(!diffs_2_vs_1.is_empty(), "Node 2 should have entries node 1 doesn't have");
}

#[test]
fn test_large_file_update() {
    let leader = MockNode::new();
    let follower = MockNode::new();
    let large_data: Vec<u8> = (0..10240).map(|i| (i % 256) as u8).collect();
    leader.db().create("/large.bin", 0, 0, 1000).unwrap();
    leader.db().write("/large.bin", 0, 0, 1001, &large_data, false).unwrap();
    let entry = leader.db().lookup_path("/large.bin").unwrap();
    follower.process_update(&entry.serialize_for_update());
    let follower_entry = follower.db().lookup_path("/large.bin").unwrap();
    assert_eq!(follower_entry.size, large_data.len());
    assert_eq!(follower_entry.data, large_data);
}

#[test]
fn test_directory_hierarchy_sync() {
    let leader = MockNode::new();
    let follower = MockNode::new();
    leader.db().create("/etc", libc::S_IFDIR, 0, 1000).unwrap();
    leader.db().create("/etc/pve", libc::S_IFDIR, 0, 1001).unwrap();
    leader.db().create("/etc/pve/nodes", libc::S_IFDIR, 0, 1002).unwrap();
    leader.db().create("/etc/pve/nodes/pve1", libc::S_IFDIR, 0, 1003).unwrap();
    leader.db().create("/etc/pve/nodes/pve1/config", 0, 0, 1004).unwrap();
    leader.db().write("/etc/pve/nodes/pve1/config", 0, 0, 1005, b"cpu: 2\nmem: 4096", false).unwrap();
    let entries = leader.db().get_all_entries();
    for entry in entries {
        if entry.inode == ROOT_INODE {
            continue;
        }
        follower.process_update(&entry.serialize_for_update());
    }
    assert!(follower.db().lookup_path("/etc").is_some());
    assert!(follower.db().lookup_path("/etc/pve").is_some());
    assert!(follower.db().lookup_path("/etc/pve/nodes").is_some());
    assert!(follower.db().lookup_path("/etc/pve/nodes/pve1").is_some());
    let config = follower.db().lookup_path("/etc/pve/nodes/pve1/config");
    assert!(config.is_some());
    assert_eq!(config.unwrap().data, b"cpu: 2\nmem: 4096");
}
