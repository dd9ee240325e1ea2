use pmxcfs::logger::entry::{reset_uid_counter, LogEntry, UidCounter, CLOG_MAX_ENTRY_SIZE};
use pmxcfs::logger::hash::fnv_64a_str;

fn pack(c: &mut UidCounter, node: &str, ident: &str, tag: &str, pid: u32, time: u32, pri: u8, msg: &str) -> LogEntry {
    LogEntry::pack(c, node, ident, tag, pid, time, pri, msg).unwrap()
}

#[test]
fn test_pack_entry() {
    let mut c = UidCounter::new();
    reset_uid_counter(&mut c);
    let entry = LogEntry::pack(&mut c, "node1", "root", "cluster", 12345, 1234567890, 6, "Test message").unwrap();
    assert_eq!(entry.uid, 1);
    assert_eq!(entry.time, 1234567890);
    assert_eq!(entry.node, "node1");
    assert_eq!(entry.ident, "root");
    assert_eq!(entry.tag, "cluster");
    assert_eq!(entry.pid, 12345);
    assert_eq!(entry.priority, 6);
    assert_eq!(entry.message, "Test message");
}

#[test]
fn test_uid_increment() {
    let mut c = UidCounter::new();
    reset_uid_counter(&mut c);
    let entry1 = pack(&mut c, "node1", "root", "tag", 0, 1000, 6, "msg1");
    let entry2 = pack(&mut c, "node1", "root", "tag", 0, 1001, 6, "msg2");
    assert_eq!(entry1.uid, 1);
    assert_eq!(entry2.uid, 2);
}

#[test]
fn test_invalid_priority() {
    let mut c = UidCounter::new();
    let result = LogEntry::pack(&mut c, "node1", "root", "tag", 0, 1000, 8, "message");
    assert!(result.is_err());
}

#[test]
fn test_node_digest() {
    let mut c = UidCounter::new();
    let entry1 = pack(&mut c, "node1", "root", "tag", 0, 1000, 6, "msg");
    let entry2 = pack(&mut c, "node1", "root", "tag", 0, 1001, 6, "msg");
    let entry3 = pack(&mut c, "node2", "root", "tag", 0, 1000, 6, "msg");
    assert_eq!(entry1.node_digest, entry2.node_digest);
    assert_ne!(entry1.node_digest, entry3.node_digest);
}

#[test]
fn test_ident_digest() {
    let mut c = UidCounter::new();
    let entry1 = pack(&mut c, "node1", "root", "tag", 0, 1000, 6, "msg");
    let entry2 = pack(&mut c, "node1", "root", "tag", 0, 1001, 6, "msg");
    let entry3 = pack(&mut c, "node1", "admin", "tag", 0, 1000, 6, "msg");
    assert_eq!(entry1.ident_digest, entry2.ident_digest);
    assert_ne!(entry1.ident_digest, entry3.ident_digest);
}

#[test]
fn test_utf8_to_ascii() {
    let mut c = UidCounter::new();
    let entry = pack(&mut c, "node1", "root", "tag", 0, 1000, 6, "Hello 世界");
    assert!(entry.message.is_ascii());
    assert!(entry.message.contains("\\u4e16"));
    assert!(entry.message.contains("\\u754c"));
}

#[test]
fn test_utf8_control_chars() {
    let mut c = UidCounter::new();
    let entry = pack(&mut c, "node1", "root", "tag", 0, 1000, 6, "Hello\x07World");
    assert!(entry.message.is_ascii());
    assert!(entry.message.contains("#007"));
}

#[test]
fn test_utf8_mixed_content() {
    let mut c = UidCounter::new();
    let entry = pack(&mut c, "node1", "root", "tag", 0, 1000, 6, "Test\x01\nUnicode世\ttab");
    assert!(entry.message.is_ascii());
    assert!(entry.message.contains("#001"));
    assert!(entry.message.contains("#010"));
    assert!(entry.message.contains("\\u4e16"));
    assert!(entry.message.contains("#009"));
}

#[test]
fn test_string_truncation() {
    let mut c = UidCounter::new();
    let long_node = "a".repeat(300);
    let entry = pack(&mut c, &long_node, "root", "tag", 0, 1000, 6, "msg");
    assert!(entry.node.len() <= 255);
}

#[test]
fn test_truncate_multibyte_utf8() {
    let mut c = UidCounter::new();
    let s = "x".repeat(253) + "世";
    let entry = pack(&mut c, &s, "root", "tag", 0, 1000, 6, "msg");
    assert_eq!(entry.node.len(), 253);
    assert_eq!(entry.node, "x".repeat(253));
}

#[test]
fn test_message_truncation() {
    let mut c = UidCounter::new();
    let long_message = "a".repeat(CLOG_MAX_ENTRY_SIZE);
    let entry = pack(&mut c, "node1", "root", "tag", 0, 1000, 6, &long_message);
    assert!(entry.size() <= CLOG_MAX_ENTRY_SIZE);
}

#[test]
fn test_aligned_size() {
    let mut c = UidCounter::new();
    let entry = pack(&mut c, "node1", "root", "tag", 0, 1000, 6, "msg");
    let aligned = entry.aligned_size();
    assert_eq!(aligned % 8, 0);
    assert!(aligned >= entry.size());
    assert!(aligned - entry.size() < 8);
}

#[test]
fn entry_test_binary_serialization_roundtrip() {
    let mut c = UidCounter::new();
    let entry = pack(&mut c, "node1", "root", "cluster", 12345, 1234567890, 6, "Test message");
    let binary = entry.serialize_binary(100, 200);
    let (deserialized, prev, next) = LogEntry::deserialize_binary(&binary).unwrap();
    assert_eq!(prev, 100);
    assert_eq!(next, 200);
    assert_eq!(deserialized.uid, entry.uid);
    assert_eq!(deserialized.time, entry.time);
    assert_eq!(deserialized.node_digest, entry.node_digest);
    assert_eq!(deserialized.ident_digest, entry.ident_digest);
    assert_eq!(deserialized.pid, entry.pid);
    assert_eq!(deserialized.priority, entry.priority);
    assert_eq!(deserialized.node, entry.node);
    assert_eq!(deserialized.ident, entry.ident);
    assert_eq!(deserialized.tag, entry.tag);
    assert_eq!(deserialized.message, entry.message);
}

#[test]
fn test_binary_format_header_size() {
    let mut c = UidCounter::new();
    let entry = pack(&mut c, "n", "u", "t", 1, 1000, 6, "m");
    let binary = entry.serialize_binary(0, 0);
    assert!(binary.len() >= 48);
    assert_eq!(&binary[0..4], &0u32.to_le_bytes());
    assert_eq!(&binary[4..8], &0u32.to_le_bytes());
}

#[test]
fn test_binary_deserialize_invalid_size() {
    let too_small = vec![0u8; 40];
    let result = LogEntry::deserialize_binary(&too_small);
    assert!(result.is_err());
}

#[test]
fn test_binary_null_terminators() {
    let mut c = UidCounter::new();
    let entry = pack(&mut c, "node1", "root", "tag", 123, 1000, 6, "message");
    let binary = entry.serialize_binary(0, 0);
    let data_section = &binary[48..];
    let null_count = data_section.iter().filter(|&&b| b == 0).count();
    assert_eq!(null_count, 4);
}

#[test]
fn test_length_field_overflow_prevention() {
    let mut c = UidCounter::new();
    let long_string = "a".repeat(255);
    let entry = pack(&mut c, &long_string, &long_string, &long_string, 123, 1000, 6, "msg");
    assert_eq!(entry.node.len(), 254);
    assert_eq!(entry.ident.len(), 254);
    assert_eq!(entry.tag.len(), 254);
    let binary = entry.serialize_binary(0, 0);
    assert_eq!(binary[37], 255);
    assert_eq!(binary[38], 255);
    assert_eq!(binary[39], 255);
}

#[test]
fn test_length_field_no_wraparound() {
    let mut c = UidCounter::new();
    let mut entry = pack(&mut c, "node", "ident", "tag", 123, 1000, 6, "msg");
    entry.node = "x".repeat(254);
    let binary = entry.serialize_binary(0, 0);
    let node_len = binary[37];
    assert_eq!(node_len, 255);
    assert_ne!(node_len, 0);
}

#[test]
fn pack_digests_are_fnv_of_names() {
    let mut c = UidCounter::new();
    let entry = pack(&mut c, "node1", "root", "tag", 0, 1, 6, "m");
    assert_eq!(entry.node_digest, fnv_64a_str("node1"));
    assert_eq!(entry.ident_digest, fnv_64a_str("root"));
}

#[test]
fn reset_sets_counter_to_zero() {
    let mut c = UidCounter::new();
    assert_eq!(c.current(), 0);
    pack(&mut c, "n", "u", "t", 0, 1, 6, "m");
    assert_eq!(c.current(), 1);
    reset_uid_counter(&mut c);
    assert_eq!(c.current(), 0);
}

#[test]
fn pack_invalid_priority_keeps_counter() {
    let mut c = UidCounter::new();
    assert!(LogEntry::pack(&mut c, "n", "u", "t", 0, 1, 9, "m").is_err());
    assert_eq!(c.current(), 0);
}

#[test]
fn entry_size_formula() {
    let mut c = UidCounter::new();
    let entry = pack(&mut c, "node1", "root", "tag", 0, 1, 6, "msg");
    // the 48-byte entry structure, then each string with its terminator
    assert_eq!(entry.size(), 48 + 6 + 5 + 4 + 4);
    assert_eq!(entry.size(), 67);
    assert_eq!(entry.aligned_size(), 72);
    // the binary format itself has a 44-byte header
    assert_eq!(entry.serialize_binary(0, 0).len(), 44 + 6 + 5 + 4 + 4);
}

#[test]
fn deserialize_rejects_lengths_past_end() {
    let mut c = UidCounter::new();
    let entry = pack(&mut c, "node1", "root", "tag", 0, 1, 6, "msg");
    let mut binary = entry.serialize_binary(0, 0);
    binary[40] = 200;
    assert!(LogEntry::deserialize_binary(&binary).is_err());
}

#[test]
fn long_message_fills_entry_exactly() {
    let mut c = UidCounter::new();
    let long_message = "a".repeat(2 * CLOG_MAX_ENTRY_SIZE);
    let entry = pack(&mut c, "node1", "root", "tag", 0, 1, 6, &long_message);
    assert_eq!(entry.size(), CLOG_MAX_ENTRY_SIZE);
}
