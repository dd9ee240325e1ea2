use pmxcfs::logger::cluster_log::ClusterLog;
use pmxcfs::logger::entry::{LogEntry, UidCounter, CLOG_MAX_ENTRY_SIZE};
use pmxcfs::logger::hash::fnv_64a_str;
use pmxcfs::logger::ring_buffer::{RingBuffer, CLOG_DEFAULT_SIZE};
use pmxcfs::wire::WireError;

fn pack(c: &mut UidCounter, node: &str, ident: &str, tag: &str, pid: u32, time: u32, pri: u8, msg: &str) -> LogEntry {
    LogEntry::pack(c, node, ident, tag, pid, time, pri, msg).unwrap()
}

#[test]
fn test_ring_buffer_creation() {
    let buffer = RingBuffer::new(CLOG_DEFAULT_SIZE);
    assert_eq!(buffer.capacity(), CLOG_DEFAULT_SIZE);
    assert_eq!(buffer.len(), 0);
    assert!(buffer.is_empty());
}

#[test]
fn ring_buffer_test_add_entry() {
    let mut c = UidCounter::new();
    let mut buffer = RingBuffer::new(CLOG_DEFAULT_SIZE);
    let entry = pack(&mut c, "node1", "root", "tag", 0, 1000, 6, "message");
    let result = buffer.add_entry(&entry);
    assert!(result.is_ok());
    assert_eq!(buffer.len(), 1);
    assert!(!buffer.is_empty());
}

#[test]
fn test_ring_buffer_wraparound() {
    let mut c = UidCounter::new();
    let mut buffer = RingBuffer::new(CLOG_MAX_ENTRY_SIZE * 10);
    let initial_count = 50_usize;
    for i in 0..initial_count {
        let entry = pack(&mut c, "node1", "root", "tag", 0, 1000 + i as u32, 6, "msg");
        let _ = buffer.add_entry(&entry);
    }
    let count_before = buffer.len();
    assert_eq!(count_before, initial_count);
    let large_msg = "x".repeat(7000);
    let large_entries_count = 20_usize;
    for i in 0..large_entries_count {
        let entry = pack(&mut c, "node1", "root", "tag", 0, 2000 + i as u32, 6, &large_msg);
        let _ = buffer.add_entry(&entry);
    }
    assert!(buffer.len() < count_before + large_entries_count);
    let newest = buffer.entry_at(0);
    assert_eq!(newest.time, 2000 + large_entries_count as u32 - 1);
}

#[test]
fn test_sort_by_time() {
    let mut c = UidCounter::new();
    let mut buffer = RingBuffer::new(CLOG_DEFAULT_SIZE);
    let _ = buffer.add_entry(&pack(&mut c, "node1", "root", "tag", 0, 1002, 6, "c"));
    let _ = buffer.add_entry(&pack(&mut c, "node1", "root", "tag", 0, 1000, 6, "a"));
    let _ = buffer.add_entry(&pack(&mut c, "node1", "root", "tag", 0, 1001, 6, "b"));
    let sorted = buffer.sort().unwrap();
    let times: Vec<u32> = sorted.to_vec().iter().map(|e| e.time).collect();
    let mut times_sorted = times.clone();
    times_sorted.sort();
    times_sorted.reverse();
    assert_eq!(times, times_sorted);
}

#[test]
fn test_sort_by_node_digest() {
    let mut c = UidCounter::new();
    let mut buffer = RingBuffer::new(CLOG_DEFAULT_SIZE);
    let _ = buffer.add_entry(&pack(&mut c, "node3", "root", "tag", 0, 1000, 6, "c"));
    let _ = buffer.add_entry(&pack(&mut c, "node1", "root", "tag", 0, 1000, 6, "a"));
    let _ = buffer.add_entry(&pack(&mut c, "node2", "root", "tag", 0, 1000, 6, "b"));
    let sorted = buffer.sort().unwrap();
    for entries in sorted.to_vec().windows(2) {
        if entries[0].time == entries[1].time {
            assert!(entries[0].node_digest >= entries[1].node_digest);
        }
    }
}

#[test]
fn test_iterator() {
    let mut c = UidCounter::new();
    let mut buffer = RingBuffer::new(CLOG_DEFAULT_SIZE);
    let _ = buffer.add_entry(&pack(&mut c, "node1", "root", "tag", 0, 1000, 6, "a"));
    let _ = buffer.add_entry(&pack(&mut c, "node1", "root", "tag", 0, 1001, 6, "b"));
    let _ = buffer.add_entry(&pack(&mut c, "node1", "root", "tag", 0, 1002, 6, "c"));
    let messages: Vec<String> = buffer.to_vec().iter().map(|e| e.message.clone()).collect();
    assert_eq!(messages, vec!["c", "b", "a"]);
}

#[test]
fn ring_buffer_test_binary_serialization_roundtrip() {
    let mut c = UidCounter::new();
    let mut buffer = RingBuffer::new(CLOG_DEFAULT_SIZE);
    let _ = buffer.add_entry(&pack(&mut c, "node1", "root", "cluster", 123, 1000, 6, "Entry 1"));
    let _ = buffer.add_entry(&pack(&mut c, "node2", "admin", "system", 456, 1001, 5, "Entry 2"));
    let binary = buffer.serialize_binary();
    let deserialized = RingBuffer::deserialize_binary(&binary).unwrap();
    assert_eq!(deserialized.len(), buffer.len());
    for (orig, deser) in buffer.to_vec().iter().zip(deserialized.to_vec().iter()) {
        assert_eq!(deser.uid, orig.uid);
        assert_eq!(deser.time, orig.time);
        assert_eq!(deser.node, orig.node);
        assert_eq!(deser.message, orig.message);
    }
}

#[test]
fn test_binary_format_header() {
    let mut c = UidCounter::new();
    let mut buffer = RingBuffer::new(CLOG_DEFAULT_SIZE);
    let _ = buffer.add_entry(&pack(&mut c, "n", "u", "t", 1, 1000, 6, "m"));
    let binary = buffer.serialize_binary();
    assert!(binary.len() >= 8);
    let size = u32::from_le_bytes(binary[0..4].try_into().unwrap()) as usize;
    let cpos = u32::from_le_bytes(binary[4..8].try_into().unwrap());
    assert_eq!(size, binary.len());
    assert_eq!(cpos, 8);
}

#[test]
fn test_binary_empty_buffer() {
    let buffer = RingBuffer::new(CLOG_DEFAULT_SIZE);
    let binary = buffer.serialize_binary();
    assert_eq!(binary.len(), CLOG_DEFAULT_SIZE);
    let size = u32::from_le_bytes(binary[0..4].try_into().unwrap()) as usize;
    let cpos = u32::from_le_bytes(binary[4..8].try_into().unwrap());
    assert_eq!(size, CLOG_DEFAULT_SIZE);
    assert_eq!(cpos, 0);
    let deserialized = RingBuffer::deserialize_binary(&binary).unwrap();
    assert_eq!(deserialized.len(), 0);
    assert_eq!(deserialized.capacity(), CLOG_DEFAULT_SIZE);
}

#[test]
fn small_capacity_gets_default() {
    assert_eq!(RingBuffer::new(100).capacity(), CLOG_DEFAULT_SIZE);
    assert_eq!(RingBuffer::new(40960).capacity(), 40960);
    assert_eq!(RingBuffer::new(40959).capacity(), CLOG_DEFAULT_SIZE);
}

#[test]
fn buffer_never_exceeds_capacity() {
    let mut c = UidCounter::new();
    let mut buffer = RingBuffer::new(40960);
    for i in 0..2000u32 {
        let _ = buffer.add_entry(&pack(&mut c, "node1", "root", "tag", 0, i, 6, "some message text"));
        assert!(buffer.current_size() <= buffer.capacity());
    }
    assert_eq!(buffer.entry_at(0).time, 1999);
}

#[test]
fn select_for_dump_filters_and_limits() {
    let mut c = UidCounter::new();
    let mut buffer = RingBuffer::new(CLOG_DEFAULT_SIZE);
    let _ = buffer.add_entry(&pack(&mut c, "node1", "root", "tag", 0, 1000, 6, "msg1"));
    let _ = buffer.add_entry(&pack(&mut c, "node1", "admin", "tag", 0, 1001, 6, "msg2"));
    let _ = buffer.add_entry(&pack(&mut c, "node1", "root", "tag", 0, 1002, 6, "msg3"));
    let root = buffer.select_for_dump(Some("root"), 50);
    let msgs: Vec<&str> = root.iter().map(|e| e.message.as_str()).collect();
    assert_eq!(msgs, vec!["msg3", "msg1"]);
    let all = buffer.select_for_dump(None, 2);
    let msgs: Vec<&str> = all.iter().map(|e| e.message.as_str()).collect();
    assert_eq!(msgs, vec!["msg3", "msg2"]);
    assert!(buffer.select_for_dump(Some("nobody"), 50).is_empty());
    assert!(buffer.select_for_dump(None, 0).is_empty());
}

#[test]
fn near_full_threshold() {
    let mut c = UidCounter::new();
    let mut buffer = RingBuffer::new(40960);
    assert!(!buffer.is_near_full());
    while buffer.current_size() <= 40960 * 9 / 10 {
        let _ = buffer.add_entry(&pack(&mut c, "node1", "root", "tag", 0, 1, 6, "fill"));
    }
    assert!(buffer.is_near_full());
}

#[test]
fn deserialize_stops_at_visited_offset() {
    // one entry whose prev link points to itself
    let mut c = UidCounter::new();
    let entry = pack(&mut c, "node1", "root", "test", 1, 1000, 6, "loop");
    let bytes = entry.serialize_binary(8, 0);
    let total = 8 + bytes.len();
    let mut blob = vec![0u8; total];
    blob[0..4].copy_from_slice(&(total as u32).to_le_bytes());
    blob[4..8].copy_from_slice(&8u32.to_le_bytes());
    blob[8..].copy_from_slice(&bytes);
    let buffer = RingBuffer::deserialize_binary(&blob).unwrap();
    assert_eq!(buffer.len(), 1);
}

#[test]
fn test_deserialize_minimal_c_blob() {
    let mut c = UidCounter::new();
    let entry = pack(&mut c, "node1", "root", "test", 123, 1000, 6, "msg");
    let entry_bytes = entry.serialize_binary(0, 0);
    let entry_size = entry_bytes.len();
    let total_size = 8 + entry_size;
    let mut blob = vec![0u8; total_size];
    blob[0..4].copy_from_slice(&(total_size as u32).to_le_bytes());
    blob[4..8].copy_from_slice(&8u32.to_le_bytes());
    blob[8..8 + entry_size].copy_from_slice(&entry_bytes);
    let buffer = RingBuffer::deserialize_binary(&blob).expect("Should deserialize");
    assert_eq!(buffer.len(), 1, "Should have 1 entry");
    let entries = buffer.to_vec();
    assert_eq!(entries[0].node, "node1");
    assert_eq!(entries[0].message, "msg");
}

#[test]
fn test_roundtrip_single_entry() {
    let mut c = UidCounter::new();
    let mut buffer = RingBuffer::new(8192 * 16);
    let entry = pack(&mut c, "node1", "root", "cluster", 123, 1000, 6, "Test message");
    buffer.add_entry(&entry).unwrap();
    let blob = buffer.serialize_binary();
    let size = u32::from_le_bytes(blob[0..4].try_into().unwrap()) as usize;
    let cpos = u32::from_le_bytes(blob[4..8].try_into().unwrap()) as usize;
    assert_eq!(size, blob.len(), "Size should match blob length");
    assert_eq!(cpos, 8, "First entry should be at offset 8");
    let deserialized = RingBuffer::deserialize_binary(&blob).expect("Should deserialize");
    assert_eq!(deserialized.len(), 1);
    let entries = deserialized.to_vec();
    assert_eq!(entries[0].node, "node1");
    assert_eq!(entries[0].ident, "root");
    assert_eq!(entries[0].message, "Test message");
}

#[test]
fn test_roundtrip_multiple_entries() {
    let mut c = UidCounter::new();
    let mut buffer = RingBuffer::new(8192 * 16);
    for i in 0..3 {
        let entry = pack(&mut c, "node1", "root", "test", 100 + i, 1000 + i, 6, &format!("Message {}", i));
        buffer.add_entry(&entry).unwrap();
    }
    let blob = buffer.serialize_binary();
    let deserialized = RingBuffer::deserialize_binary(&blob).expect("Should deserialize");
    assert_eq!(deserialized.len(), 3);
    let entries = deserialized.to_vec();
    assert_eq!(entries[0].message, "Message 2");
    assert_eq!(entries[1].message, "Message 1");
    assert_eq!(entries[2].message, "Message 0");
}

#[test]
fn test_empty_buffer_format() {
    let buffer = RingBuffer::new(8192 * 16);
    let blob = buffer.serialize_binary();
    assert_eq!(blob.len(), 8192 * 16, "Should be full capacity");
    let size = u32::from_le_bytes(blob[0..4].try_into().unwrap()) as usize;
    let cpos = u32::from_le_bytes(blob[4..8].try_into().unwrap()) as usize;
    assert_eq!(size, 8192 * 16, "Size should match capacity");
    assert_eq!(cpos, 0, "Empty buffer should have cpos=0");
    let deserialized = RingBuffer::deserialize_binary(&blob).expect("Should deserialize");
    assert_eq!(deserialized.len(), 0, "Should be empty");
}

#[test]
fn test_entry_alignment() {
    let mut c = UidCounter::new();
    let entry = pack(&mut c, "n", "u", "t", 1, 1000, 6, "m");
    let aligned_size = entry.aligned_size();
    assert_eq!(aligned_size % 8, 0, "Aligned size should be multiple of 8");
    assert!(aligned_size >= entry.size());
    assert!(aligned_size - entry.size() < 8);
}

#[test]
fn test_string_length_capping() {
    let mut c = UidCounter::new();
    let long_node = "a".repeat(300);
    let long_ident = "b".repeat(300);
    let long_tag = "c".repeat(300);
    let entry = pack(&mut c, &long_node, &long_ident, &long_tag, 1, 1000, 6, "msg");
    let blob = entry.serialize_binary(0, 0);
    let node_len = blob[32];
    let ident_len = blob[33];
    let tag_len = blob[34];
    assert!(node_len <= 255, "node_len should be capped at 255");
    assert!(ident_len <= 255, "ident_len should be capped at 255");
    assert!(tag_len <= 255, "tag_len should be capped at 255");
}

#[test]
fn test_cluster_log_state_format() {
    let mut c = UidCounter::new();
    let mut log = ClusterLog::new();
    log.add(&mut c, "node1", "root", "cluster", 123, 6, 1000, "Entry 1").unwrap();
    log.add(&mut c, "node2", "admin", "system", 456, 6, 1001, "Entry 2").unwrap();
    let state = log.get_state().expect("Should serialize");
    assert!(state.len() >= 8, "Should have at least header");
    let size = u32::from_le_bytes(state[0..4].try_into().unwrap()) as usize;
    let cpos = u32::from_le_bytes(state[4..8].try_into().unwrap()) as usize;
    assert_eq!(size, state.len(), "Size should match blob length");
    assert!(cpos >= 8, "cpos should point into data section");
    assert!(cpos < size, "cpos should be within buffer");
    let deserialized = ClusterLog::deserialize_state(&state).expect("Should deserialize");
    assert_eq!(deserialized.len(), 2, "Should have 2 entries");
}

#[test]
fn test_wraparound_detection() {
    let mut c = UidCounter::new();
    let mut buffer = RingBuffer::new(8192 * 16);
    for i in 0..5 {
        let entry = pack(&mut c, "node1", "root", "test", 100 + i, 1000 + i, 6, "msg");
        buffer.add_entry(&entry).unwrap();
    }
    let blob = buffer.serialize_binary();
    let deserialized = RingBuffer::deserialize_binary(&blob).expect("Should deserialize");
    assert_eq!(deserialized.len(), 5);
}

#[test]
fn test_invalid_binary_data() {
    let too_small = vec![0u8; 4];
    assert!(RingBuffer::deserialize_binary(&too_small).is_err());
    let mut size_mismatch = vec![0u8; 100];
    size_mismatch[0..4].copy_from_slice(&200u32.to_le_bytes());
    assert!(RingBuffer::deserialize_binary(&size_mismatch).is_err());
    let mut invalid_cpos = vec![0u8; 100];
    invalid_cpos[0..4].copy_from_slice(&100u32.to_le_bytes());
    invalid_cpos[4..8].copy_from_slice(&200u32.to_le_bytes());
    assert!(RingBuffer::deserialize_binary(&invalid_cpos).is_err());
}

#[test]
fn invalid_binary_errors_name_the_problem() {
    assert!(matches!(RingBuffer::deserialize_binary(&[0u8; 4]), Err(WireError::TooShort)));
    let mut mismatch = vec![0u8; 100];
    mismatch[0..4].copy_from_slice(&200u32.to_le_bytes());
    assert!(matches!(RingBuffer::deserialize_binary(&mismatch), Err(WireError::SizeMismatch)));
    let mut low = vec![0u8; 100];
    low[0..4].copy_from_slice(&100u32.to_le_bytes());
    low[4..8].copy_from_slice(&4u32.to_le_bytes());
    assert!(matches!(RingBuffer::deserialize_binary(&low), Err(WireError::InvalidPosition)));
    let mut bad_entry = vec![0u8; 100];
    bad_entry[0..4].copy_from_slice(&100u32.to_le_bytes());
    bad_entry[4..8].copy_from_slice(&90u32.to_le_bytes());
    assert!(matches!(RingBuffer::deserialize_binary(&bad_entry), Err(WireError::TooShort)));
}

#[test]
fn test_hash_consistency() {
    let mut c = UidCounter::new();
    let entry1 = pack(&mut c, "node1", "root", "test", 1, 1000, 6, "msg1");
    let entry2 = pack(&mut c, "node1", "root", "test", 2, 1001, 6, "msg2");
    let entry3 = pack(&mut c, "node2", "admin", "test", 3, 1002, 6, "msg3");
    assert_eq!(entry1.node_digest, entry2.node_digest);
    assert_eq!(entry1.ident_digest, entry2.ident_digest);
    assert_ne!(entry1.node_digest, entry3.node_digest);
    assert_ne!(entry1.ident_digest, entry3.ident_digest);
}

#[test]
fn test_priority_validation() {
    let mut c = UidCounter::new();
    for pri in 0..=7 {
        let result = LogEntry::pack(&mut c, "node1", "root", "test", 1, 1000, pri, "msg");
        assert!(result.is_ok(), "Priority {} should be valid", pri);
    }
    let result = LogEntry::pack(&mut c, "node1", "root", "test", 1, 1000, 8, "msg");
    assert!(result.is_err(), "Priority 8 should be invalid");
}

#[test]
fn test_utf8_escaping() {
    let mut c = UidCounter::new();
    let entry = pack(&mut c, "node1", "root", "test", 1, 1000, 6, "Hello\x07World");
    assert!(entry.message.contains("#007"), "BEL should be escaped as #007");
    let entry = pack(&mut c, "node1", "root", "test", 1, 1000, 6, "Hello 世界");
    assert!(entry.message.contains("\\u4e16"));
    assert!(entry.message.contains("\\u754c"));
    let entry = pack(&mut c, "node1", "root", "test", 1, 1000, 6, "Test\x01\n世");
    assert!(entry.message.contains("#001"), "SOH should be escaped");
    assert!(entry.message.contains("#010"), "LF should be escaped");
    assert!(entry.message.contains("\\u4e16"), "Unicode should be escaped");
}

#[test]
fn test_cluster_log_creation() {
    let log = ClusterLog::new();
    assert!(log.get_buffer().is_empty());
}

#[test]
fn cluster_log_test_add_entry() {
    let mut c = UidCounter::new();
    let mut log = ClusterLog::new();
    let result = log.add(&mut c, "node1", "root", "cluster", 12345, 6, 1234567890, "Test message");
    assert!(result.is_ok());
    assert!(!log.get_buffer().is_empty());
}

#[test]
fn test_deduplication() {
    let mut c = UidCounter::new();
    let mut log = ClusterLog::new();
    let _ = log.add(&mut c, "node1", "root", "cluster", 123, 6, 1000, "Message 1");
    let _ = log.add(&mut c, "node1", "root", "cluster", 123, 6, 1000, "Message 1");
    assert_eq!(log.get_buffer().len(), 2);
}

#[test]
fn test_newer_entry_replaces() {
    let mut c = UidCounter::new();
    let mut log = ClusterLog::new();
    let _ = log.add(&mut c, "node1", "root", "cluster", 123, 6, 1000, "Old message");
    let _ = log.add(&mut c, "node1", "root", "cluster", 123, 6, 1001, "New message");
    assert_eq!(log.get_buffer().len(), 2);
}

#[test]
fn duplicate_entry_is_ignored() {
    let mut c = UidCounter::new();
    let mut log = ClusterLog::new();
    let e = pack(&mut c, "node1", "root", "cluster", 1, 1000, 6, "once");
    log.insert(&e).unwrap();
    log.insert(&e).unwrap();
    assert_eq!(log.len(), 1);
    let older = pack(&mut c, "node1", "root", "cluster", 1, 999, 6, "older");
    log.insert(&older).unwrap();
    assert_eq!(log.len(), 1);
    let d = log.dedup_entry(fnv_64a_str("node1")).unwrap();
    assert_eq!(d.time, 1000);
    assert_eq!(d.uid, e.uid);
}

#[test]
fn test_merge_logs() {
    let mut c = UidCounter::new();
    let mut log1 = ClusterLog::new();
    let mut log2 = ClusterLog::new();
    let _ = log1.add(&mut c, "node1", "root", "cluster", 123, 6, 1000, "Message from node1");
    let _ = log2.add(&mut c, "node2", "root", "cluster", 456, 6, 1001, "Message from node2");
    let log2_buffer = log2.get_buffer();
    log1.merge(vec![log2_buffer], true).unwrap();
    assert!(log1.get_buffer().len() >= 2);
}

#[test]
fn test_merge_empty_logs() {
    let mut c = UidCounter::new();
    let mut log = ClusterLog::new();
    let _ = log.add(&mut c, "node1", "root", "cluster", 123, 6, 1000, "Local entry");
    log.merge(vec![], true).unwrap();
    let buffer = log.get_buffer();
    assert_eq!(buffer.len(), 1);
    assert_eq!(buffer.entry_at(0).node, "node1");
}

#[test]
fn test_merge_single_node_only() {
    let mut c = UidCounter::new();
    let mut log = ClusterLog::new();
    let _ = log.add(&mut c, "node1", "root", "cluster", 123, 6, 1000, "Entry 1");
    let _ = log.add(&mut c, "node1", "root", "cluster", 124, 6, 1001, "Entry 2");
    let _ = log.add(&mut c, "node1", "root", "cluster", 125, 6, 1002, "Entry 3");
    log.merge(vec![], true).unwrap();
    let buffer = log.get_buffer();
    assert_eq!(buffer.len(), 3);
    let times: Vec<u32> = buffer.to_vec().iter().map(|e| e.time).collect();
    let mut expected = vec![1002, 1001, 1000];
    expected.sort();
    expected.reverse();
    let mut actual = times.clone();
    actual.sort();
    actual.reverse();
    assert_eq!(actual, expected);
}

#[test]
fn test_merge_all_duplicates() {
    let mut c = UidCounter::new();
    let mut log1 = ClusterLog::new();
    let mut log2 = ClusterLog::new();
    let _ = log1.add(&mut c, "node1", "root", "cluster", 123, 6, 1000, "Entry 1");
    let _ = log1.add(&mut c, "node1", "root", "cluster", 124, 6, 1001, "Entry 2");
    let _ = log2.add(&mut c, "node1", "root", "cluster", 125, 6, 1000, "Entry 1");
    let _ = log2.add(&mut c, "node1", "root", "cluster", 126, 6, 1001, "Entry 2");
    let log2_buffer = log2.get_buffer();
    log1.merge(vec![log2_buffer], true).unwrap();
    assert_eq!(log1.get_buffer().len(), 4);
}

#[test]
fn test_merge_exceeding_capacity() {
    let mut c = UidCounter::new();
    let mut log = ClusterLog::with_capacity(50_000);
    for i in 0..100 {
        let _ = log.add(&mut c, "node1", "root", "cluster", 100 + i, 6, 1000 + i, &format!("Entry {}", i));
    }
    let mut remote = ClusterLog::with_capacity(50_000);
    for i in 0..100 {
        let _ = remote.add(&mut c, "node2", "root", "cluster", 200 + i, 6, 1000 + i, &format!("Remote {}", i));
    }
    let remote_buffer = remote.get_buffer();
    log.merge(vec![remote_buffer], true).unwrap();
    let buffer = log.get_buffer();
    assert!(!buffer.is_empty(), "Should have some entries");
    assert!(buffer.len() <= 200, "Should not exceed total available entries");
}

#[test]
fn test_merge_preserves_dedup_state() {
    let mut c = UidCounter::new();
    let mut log = ClusterLog::new();
    let _ = log.add(&mut c, "node1", "root", "cluster", 123, 6, 1000, "Entry 1");
    let _ = log.add(&mut c, "node1", "root", "cluster", 124, 6, 1001, "Entry 2");
    let mut remote = ClusterLog::new();
    let _ = remote.add(&mut c, "node1", "root", "cluster", 125, 6, 1002, "Entry 3");
    let remote_buffer = remote.get_buffer();
    log.merge(vec![remote_buffer], true).unwrap();
    let node1_digest = fnv_64a_str("node1");
    let dedup_entry = log.dedup_entry(node1_digest).unwrap();
    assert_eq!(dedup_entry.time, 1002);
    assert!(dedup_entry.uid > 0);
}

#[test]
fn merge_without_local_uses_remote_only() {
    let mut c = UidCounter::new();
    let mut log = ClusterLog::with_capacity(50_000);
    let _ = log.add(&mut c, "node1", "root", "cluster", 1, 6, 1000, "local");
    let mut remote = ClusterLog::new();
    let _ = remote.add(&mut c, "node2", "root", "cluster", 2, 6, 1001, "remote");
    log.merge(vec![remote.get_buffer()], false).unwrap();
    let buffer = log.get_buffer();
    assert_eq!(buffer.len(), 1);
    assert_eq!(buffer.entry_at(0).message, "remote");
    assert_eq!(log.capacity(), CLOG_DEFAULT_SIZE);
    assert!(log.dedup_entry(fnv_64a_str("node1")).is_none());
}

#[test]
fn merge_keeps_first_copy_of_a_key() {
    let mut c = UidCounter::new();
    let mut log = ClusterLog::new();
    let e = pack(&mut c, "node1", "root", "cluster", 1, 1000, 6, "first");
    let mut copy = e.clone();
    copy.message = "second".to_string();
    log.insert(&e).unwrap();
    let mut remote = RingBuffer::new(CLOG_DEFAULT_SIZE);
    remote.add_entry(&copy).unwrap();
    log.merge(vec![remote], true).unwrap();
    let buffer = log.get_buffer();
    assert_eq!(buffer.len(), 1);
    assert_eq!(buffer.entry_at(0).message, "first");
}

#[test]
fn merge_takes_largest_capacity() {
    let mut log = ClusterLog::with_capacity(50_000);
    let remote = RingBuffer::new(200_000);
    log.merge(vec![remote], true).unwrap();
    assert_eq!(log.capacity(), 200_000);
}

#[test]
fn test_get_state_binary_format() {
    let mut c = UidCounter::new();
    let mut log = ClusterLog::new();
    let _ = log.add(&mut c, "node1", "root", "cluster", 123, 6, 1000, "Entry 1");
    let _ = log.add(&mut c, "node2", "admin", "system", 456, 6, 1001, "Entry 2");
    let state = log.get_state().unwrap();
    assert!(state.len() >= 8);
    let size = u32::from_le_bytes(state[0..4].try_into().unwrap()) as usize;
    let cpos = u32::from_le_bytes(state[4..8].try_into().unwrap());
    assert_eq!(size, state.len());
    assert_eq!(cpos, 8);
    let deserialized = ClusterLog::deserialize_state(&state).unwrap();
    assert_eq!(deserialized.len(), 2);
}

#[test]
fn test_state_roundtrip() {
    let mut c = UidCounter::new();
    let mut log = ClusterLog::new();
    let _ = log.add(&mut c, "node1", "root", "cluster", 123, 6, 1000, "Test 1");
    let _ = log.add(&mut c, "node2", "admin", "system", 456, 6, 1001, "Test 2");
    let state = log.get_state().unwrap();
    let deserialized = ClusterLog::deserialize_state(&state).unwrap();
    assert_eq!(deserialized.len(), 2);
    let entries = deserialized.to_vec();
    assert_eq!(entries[0].node, "node2");
    assert_eq!(entries[0].message, "Test 2");
    assert_eq!(entries[1].node, "node1");
    assert_eq!(entries[1].message, "Test 1");
}

#[test]
fn get_entries_takes_newest() {
    let mut c = UidCounter::new();
    let mut log = ClusterLog::new();
    for i in 0..5 {
        let _ = log.add(&mut c, "node1", "root", "cluster", 1, 6, 1000 + i, "m");
    }
    let es = log.get_entries(2);
    assert_eq!(es.len(), 2);
    assert_eq!(es[0].time, 1004);
    assert_eq!(es[1].time, 1003);
    assert_eq!(log.get_entries(100).len(), 5);
}

#[test]
fn clear_forgets_entries_and_nodes() {
    let mut c = UidCounter::new();
    let mut log = ClusterLog::with_capacity(60_000);
    let _ = log.add(&mut c, "node1", "root", "cluster", 1, 6, 1000, "m");
    log.clear();
    assert!(log.is_empty());
    assert_eq!(log.capacity(), 60_000);
    assert!(log.dedup_entry(fnv_64a_str("node1")).is_none());
}

#[test]
fn test_large_log_merge_performance() {
    let mut c = UidCounter::new();
    let mut node1 = ClusterLog::new();
    let mut node2 = ClusterLog::new();
    let mut node3 = ClusterLog::new();
    for i in 0..1000 {
        let _ = node1.add(&mut c, "node1", "root", "cluster", 1000 + i, 6, 1000000 + i, &format!("Node1 entry {}", i));
        let _ = node2.add(&mut c, "node2", "admin", "system", 2000 + i, 6, 1000000 + i, &format!("Node2 entry {}", i));
        let _ = node3.add(&mut c, "node3", "user", "service", 3000 + i, 6, 1000000 + i, &format!("Node3 entry {}", i));
    }
    let node2_buffer = node2.get_buffer();
    let node3_buffer = node3.get_buffer();
    let start = std::time::Instant::now();
    node1.merge(vec![node2_buffer, node3_buffer], true).expect("Merge should succeed");
    let duration = start.elapsed();
    let merged_count = node1.len();
    assert!(merged_count > 0, "Should have some entries after merge (got {})", merged_count);
    assert!(duration.as_millis() < 1000, "Large merge took too long: {:?}", duration);
}

#[test]
fn test_deduplication_performance() {
    let mut c = UidCounter::new();
    let mut log = ClusterLog::new();
    for i in 0..500 {
        let _ = log.add(&mut c, "node1", "root", "cluster", 1000 + i, 6, 1000 + (i / 10), &format!("Entry {}", i));
    }
    let mut remote = ClusterLog::new();
    for i in 0..500 {
        let _ = remote.add(&mut c, "node1", "root", "cluster", 2000 + i, 6, 1000 + (i / 10), &format!("Remote entry {}", i));
    }
    let remote_buffer = remote.get_buffer();
    let start = std::time::Instant::now();
    log.merge(vec![remote_buffer], true).expect("Merge should succeed");
    let duration = start.elapsed();
    let final_count = log.len();
    assert!(final_count > 0, "Should have entries after deduplication");
    assert!(duration.as_millis() < 500, "Deduplication took too long: {:?}", duration);
}

#[test]
fn test_memory_bounded() {
    let mut c = UidCounter::new();
    let mut log = ClusterLog::new();
    for i in 0..10000 {
        let _ = log.add(&mut c, "node1", "root", "cluster", 1000 + i, 6, 1000000 + i, &format!("Entry with some message content {}", i));
    }
    let entry_count = log.len();
    let capacity = log.capacity();
    assert!(entry_count < 10000, "Buffer should not store all 10000 entries (got {})", entry_count);
    assert!(capacity > 0, "Capacity should be set (got {})", capacity);
}

#[test]
fn test_binary_serialization_performance() {
    let mut c = UidCounter::new();
    let mut log = ClusterLog::new();
    for i in 0..500 {
        let _ = log.add(&mut c, "node1", "root", "cluster", 1000 + i, 6, 1000000 + i, &format!("Entry {}", i));
    }
    let start = std::time::Instant::now();
    let state = log.get_state().expect("Should serialize");
    let serialize_duration = start.elapsed();
    let start = std::time::Instant::now();
    let deserialized = ClusterLog::deserialize_state(&state).expect("Should deserialize");
    let deserialize_duration = start.elapsed();
    assert_eq!(deserialized.len(), 500, "Should preserve entry count");
    assert!(serialize_duration.as_millis() < 200, "Serialization took too long: {:?}", serialize_duration);
    assert!(deserialize_duration.as_millis() < 200, "Deserialization took too long: {:?}", deserialize_duration);
}

#[test]
fn full_buffer_serializes_entries_that_fit() {
    let mut c = UidCounter::new();
    let mut buffer = RingBuffer::new(131072);
    for i in 0..2048u32 {
        let e = pack(&mut c, "n", "u", "t", 0, 1000 + i, 6, "abcdefghi");
        assert_eq!(e.aligned_size(), 64);
        buffer.add_entry(&e).unwrap();
    }
    assert_eq!(buffer.len(), 2048);
    assert_eq!(buffer.current_size(), 131072);
    let blob = buffer.serialize_binary();
    assert_eq!(blob.len(), 131072);
    assert_eq!(&blob[0..4], &131072u32.to_le_bytes());
    assert_eq!(&blob[4..8], &8u32.to_le_bytes());
    // all but the oldest entry fit after the 8-byte header
    let back = RingBuffer::deserialize_binary(&blob).unwrap();
    assert_eq!(back.len(), 2047);
    let newest = buffer.to_vec();
    let read = back.to_vec();
    for k in 0..2047 {
        assert_eq!(read[k].uid, newest[k].uid);
        assert_eq!(read[k].time, newest[k].time);
    }
}

#[test]
fn full_log_state_is_available() {
    let mut log = ClusterLog::new();
    let mut c = UidCounter::new();
    for i in 0..2048u32 {
        let e = pack(&mut c, "n", "u", "t", 0, 1000 + i, 6, "abcdefghi");
        log.insert(&e).unwrap();
    }
    let state = log.get_state().unwrap();
    assert_eq!(state.len(), CLOG_DEFAULT_SIZE);
}
