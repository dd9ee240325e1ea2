use pmxcfs::dfsm::dfsm_message::{DfsmMessage, DEFAULT_PROTOCOL_VERSION};
use pmxcfs::dfsm::fuse_message::FuseMessage;
use pmxcfs::dfsm::kv_store_message::{KvStoreMessage, KvStoreMessageType};
use pmxcfs::dfsm::message::Message;
use pmxcfs::dfsm::types::{DfsmMessageType, SyncEpoch};
use pmxcfs::dfsm::wire_format::{CFuseMessage, CMessageType};
use pmxcfs::wire::WireError;
use pmxcfs::memdb::types::TreeEntry;

#[test]
fn test_sync_start_roundtrip() {
    let sync_epoch = SyncEpoch { epoch: 1, time: 1234567890, nodeid: 1, pid: 1000 };
    let msg: DfsmMessage<FuseMessage> = DfsmMessage::SyncStart { sync_epoch };
    let serialized = msg.serialize();
    let deserialized = DfsmMessage::<FuseMessage>::deserialize(&serialized).unwrap();
    assert!(matches!(deserialized, DfsmMessage::SyncStart { sync_epoch: e } if e == sync_epoch));
}

#[test]
fn test_normal_roundtrip() {
    let fuse_msg = FuseMessage::Create { path: "/test/file".to_string() };
    let msg: DfsmMessage<FuseMessage> = DfsmMessage::Normal {
        msg_count: 42,
        timestamp: 1234567890,
        protocol_version: DEFAULT_PROTOCOL_VERSION,
        message: fuse_msg.clone(),
    };
    let serialized = msg.serialize();
    let deserialized = DfsmMessage::<FuseMessage>::deserialize(&serialized).unwrap();
    match deserialized {
        DfsmMessage::Normal { msg_count, timestamp, protocol_version, message } => {
            assert_eq!(msg_count, 42);
            assert_eq!(timestamp, 1234567890);
            assert_eq!(protocol_version, DEFAULT_PROTOCOL_VERSION);
            assert_eq!(message, fuse_msg);
        }
        _ => panic!("Wrong message type"),
    }
}

#[test]
fn test_verify_request_roundtrip() {
    let sync_epoch = SyncEpoch { epoch: 2, time: 1234567891, nodeid: 2, pid: 2000 };
    let msg: DfsmMessage<FuseMessage> = DfsmMessage::VerifyRequest { sync_epoch, csum_id: 0x123456789ABCDEF0 };
    let serialized = msg.serialize();
    let deserialized = DfsmMessage::<FuseMessage>::deserialize(&serialized).unwrap();
    match deserialized {
        DfsmMessage::VerifyRequest { sync_epoch: e, csum_id } => {
            assert_eq!(e, sync_epoch);
            assert_eq!(csum_id, 0x123456789ABCDEF0);
        }
        _ => panic!("Wrong message type"),
    }
}

#[test]
fn test_verify_roundtrip() {
    let sync_epoch = SyncEpoch { epoch: 3, time: 1234567892, nodeid: 3, pid: 3000 };
    let checksum = [42u8; 32];
    let msg: DfsmMessage<FuseMessage> = DfsmMessage::Verify { sync_epoch, csum_id: 0x1122334455667788, checksum };
    let serialized = msg.serialize();
    let deserialized = DfsmMessage::<FuseMessage>::deserialize(&serialized).unwrap();
    match deserialized {
        DfsmMessage::Verify { sync_epoch: e, csum_id, checksum: recv_checksum } => {
            assert_eq!(e, sync_epoch);
            assert_eq!(csum_id, 0x1122334455667788);
            assert_eq!(recv_checksum, checksum);
        }
        _ => panic!("Wrong message type"),
    }
}

#[test]
fn test_invalid_magic() {
    let data = vec![0xAA, 0x00, 0x01, 0x02];
    assert!(DfsmMessage::<FuseMessage>::deserialize(&data).is_err());
}

#[test]
fn test_too_short() {
    let data = vec![0xFF];
    assert!(DfsmMessage::<FuseMessage>::deserialize(&data).is_err());
}

#[test]
fn test_state_message_too_short() {
    let mut data = vec![0u8; 31];
    data[0..2].copy_from_slice(&2u16.to_le_bytes());
    let result = DfsmMessage::<FuseMessage>::deserialize(&data);
    assert!(result.is_err(), "State message with 31 bytes should fail");
    assert!(result.unwrap_err().to_string().contains("too short"));
}

#[test]
fn test_normal_message_missing_count() {
    let mut data = vec![0u8; 20];
    data[0..2].copy_from_slice(&0u16.to_le_bytes());
    let result = DfsmMessage::<FuseMessage>::deserialize(&data);
    assert!(result.is_err(), "Normal message without full count field should fail");
}

#[test]
fn test_verify_message_truncated_checksum() {
    let sync_epoch = SyncEpoch { epoch: 1, time: 123, nodeid: 1, pid: 100 };
    let mut data = Vec::new();
    data.extend_from_slice(&6u16.to_le_bytes());
    data.extend_from_slice(&0u16.to_le_bytes());
    data.extend_from_slice(&1u32.to_le_bytes());
    data.extend_from_slice(&123u32.to_le_bytes());
    data.extend_from_slice(&0u32.to_le_bytes());
    data.extend_from_slice(&sync_epoch.serialize());
    data.extend_from_slice(&0x12345678u64.to_le_bytes());
    data.extend_from_slice(&[0u8; 31]);
    let result = DfsmMessage::<FuseMessage>::deserialize(&data);
    assert!(result.is_err(), "Verify message with truncated checksum should fail");
}

#[test]
fn test_update_message_with_tree_entry() {
    let data = vec![1, 2, 3, 4, 5];
    let tree_entry = TreeEntry {
        inode: 42,
        parent: 0,
        version: 1,
        writer: 0,
        name: "testfile".to_string(),
        mtime: 1234567890,
        size: data.len(),
        entry_type: 8,
        data,
    };
    let sync_epoch = SyncEpoch { epoch: 5, time: 999, nodeid: 2, pid: 200 };
    let msg: DfsmMessage<FuseMessage> = DfsmMessage::Update { sync_epoch, tree_entry: tree_entry.clone() };
    let serialized = msg.serialize();
    let deserialized = DfsmMessage::<FuseMessage>::deserialize(&serialized).unwrap();
    match deserialized {
        DfsmMessage::Update { sync_epoch: e, tree_entry: recv_entry } => {
            assert_eq!(e, sync_epoch);
            assert_eq!(recv_entry.inode, tree_entry.inode);
            assert_eq!(recv_entry.name, tree_entry.name);
            assert_eq!(recv_entry.size, tree_entry.size);
        }
        _ => panic!("Wrong message type"),
    }
}

#[test]
fn test_update_complete_roundtrip() {
    let sync_epoch = SyncEpoch { epoch: 10, time: 5555, nodeid: 3, pid: 300 };
    let msg: DfsmMessage<FuseMessage> = DfsmMessage::UpdateComplete { sync_epoch };
    let serialized = msg.serialize();
    assert_eq!(serialized.len(), 32, "UpdateComplete should be exactly 32 bytes (header + epoch)");
    let deserialized = DfsmMessage::<FuseMessage>::deserialize(&serialized).unwrap();
    assert!(matches!(deserialized, DfsmMessage::UpdateComplete { sync_epoch: e } if e == sync_epoch));
}

#[test]
fn test_state_message_with_large_payload() {
    let sync_epoch = SyncEpoch { epoch: 7, time: 7777, nodeid: 4, pid: 400 };
    let large_data = vec![0xAB; 1024 * 1024];
    let msg: DfsmMessage<FuseMessage> = DfsmMessage::State { sync_epoch, data: large_data.clone() };
    let serialized = msg.serialize();
    assert_eq!(serialized.len(), 32 + 1024 * 1024);
    let deserialized = DfsmMessage::<FuseMessage>::deserialize(&serialized).unwrap();
    match deserialized {
        DfsmMessage::State { sync_epoch: e, data } => {
            assert_eq!(e, sync_epoch);
            assert_eq!(data.len(), large_data.len());
            assert_eq!(data, large_data);
        }
        _ => panic!("Wrong message type"),
    }
}

#[test]
fn test_message_type_detection() {
    let sync_epoch = SyncEpoch { epoch: 1, time: 100, nodeid: 1, pid: 50 };
    let sync_start: DfsmMessage<FuseMessage> = DfsmMessage::SyncStart { sync_epoch };
    assert_eq!(sync_start.message_type(), DfsmMessageType::SyncStart);
    let state: DfsmMessage<FuseMessage> = DfsmMessage::State { sync_epoch, data: vec![1, 2, 3] };
    assert_eq!(state.message_type(), DfsmMessageType::State);
    let update_complete: DfsmMessage<FuseMessage> = DfsmMessage::UpdateComplete { sync_epoch };
    assert_eq!(update_complete.message_type(), DfsmMessageType::UpdateComplete);
}

#[test]
fn test_from_message_helper() {
    let fuse_msg = FuseMessage::Mkdir { path: "/new/dir".to_string() };
    let msg_count = 123;
    let protocol_version = DEFAULT_PROTOCOL_VERSION;
    let dfsm_msg = DfsmMessage::from_message(msg_count, fuse_msg.clone(), protocol_version);
    match dfsm_msg {
        DfsmMessage::Normal { msg_count: count, timestamp: _, protocol_version: pv, message } => {
            assert_eq!(count, msg_count);
            assert_eq!(pv, protocol_version);
            assert_eq!(message, fuse_msg);
        }
        _ => panic!("from_message should create Normal variant"),
    }
}

#[test]
fn test_verify_request_with_max_csum_id() {
    let sync_epoch = SyncEpoch { epoch: 99, time: 9999, nodeid: 5, pid: 500 };
    let max_csum_id = u64::MAX;
    let msg: DfsmMessage<FuseMessage> = DfsmMessage::VerifyRequest { sync_epoch, csum_id: max_csum_id };
    let serialized = msg.serialize();
    let deserialized = DfsmMessage::<FuseMessage>::deserialize(&serialized).unwrap();
    match deserialized {
        DfsmMessage::VerifyRequest { sync_epoch: e, csum_id } => {
            assert_eq!(e, sync_epoch);
            assert_eq!(csum_id, max_csum_id);
        }
        _ => panic!("Wrong message type"),
    }
}

#[test]
fn serialize_at_writes_header_fields() {
    let sync_epoch = SyncEpoch { epoch: 1, time: 2, nodeid: 3, pid: 4 };
    let msg: DfsmMessage<FuseMessage> = DfsmMessage::SyncStart { sync_epoch };
    let bytes = msg.serialize_at(77);
    assert_eq!(&bytes[0..2], &1u16.to_le_bytes());
    assert_eq!(&bytes[8..12], &77u32.to_le_bytes());
    assert_eq!(&bytes[16..32], &sync_epoch.serialize());
}

#[test]
fn unknown_message_type_is_rejected() {
    let mut data = vec![0u8; 32];
    data[0..2].copy_from_slice(&9u16.to_le_bytes());
    assert!(DfsmMessage::<FuseMessage>::deserialize(&data).is_err());
}

#[test]
fn test_fuse_message_create() {
    let msg = FuseMessage::Create { path: "/test/file".to_string() };
    assert_eq!(msg.message_type(), CMessageType::Create.code());
    let serialized = msg.serialize();
    let deserialized = FuseMessage::deserialize(msg.message_type(), &serialized).unwrap();
    assert_eq!(msg, deserialized);
}

#[test]
fn test_fuse_message_write() {
    let msg = FuseMessage::Write { path: "/test/file".to_string(), offset: 100, data: vec![1, 2, 3, 4, 5] };
    assert_eq!(msg.message_type(), CMessageType::Write.code());
    let serialized = msg.serialize();
    let deserialized = FuseMessage::deserialize(msg.message_type(), &serialized).unwrap();
    assert_eq!(msg, deserialized);
}

#[test]
fn test_fuse_message_rename() {
    let msg = FuseMessage::Rename { from: "/old/path".to_string(), to: "/new/path".to_string() };
    assert_eq!(msg.message_type(), CMessageType::Rename.code());
    let serialized = msg.serialize();
    let deserialized = FuseMessage::deserialize(msg.message_type(), &serialized).unwrap();
    assert_eq!(msg, deserialized);
}

#[test]
fn fuse_codes_match_wire_values() {
    assert_eq!(CMessageType::Write.code(), 1);
    assert_eq!(CMessageType::Unlock.code(), 8);
    assert!(CMessageType::try_from(0).is_err());
    assert!(CMessageType::try_from(9).is_err());
}

#[test]
fn test_kvstore_message_update_serialization() {
    let msg = KvStoreMessage::Update { key: "test_key".to_string(), value: vec![1, 2, 3, 4, 5] };
    let serialized = msg.serialize();
    assert_eq!(serialized.len(), 256 + 5);
    assert_eq!(&serialized[..8], b"test_key");
    assert_eq!(serialized[8], 0);
    assert_eq!(&serialized[256..], &[1, 2, 3, 4, 5]);
    let deserialized = KvStoreMessage::deserialize(1, &serialized).unwrap();
    assert_eq!(msg, deserialized);
}

#[test]
fn test_kvstore_message_log_serialization() {
    let msg = KvStoreMessage::Log {
        time: 1234567890,
        priority: 5,
        node: "node1".to_string(),
        ident: "pmxcfs".to_string(),
        tag: "info".to_string(),
        message: "test message".to_string(),
    };
    let serialized = msg.serialize();
    let deserialized = KvStoreMessage::deserialize(3, &serialized).unwrap();
    assert_eq!(msg, deserialized);
}

#[test]
fn test_kvstore_message_type() {
    assert_eq!(KvStoreMessage::Update { key: "".into(), value: vec![] }.message_type(), 1);
    assert_eq!(KvStoreMessage::UpdateComplete.message_type(), 2);
    assert_eq!(
        KvStoreMessage::Log {
            time: 0,
            priority: 0,
            node: "".into(),
            ident: "".into(),
            tag: "".into(),
            message: "".into()
        }
        .message_type(),
        3
    );
}

#[test]
fn test_kvstore_message_type_roundtrip() {
    assert_eq!(u16::from(KvStoreMessageType::Update), 1);
    assert_eq!(u16::from(KvStoreMessageType::UpdateComplete), 2);
    assert_eq!(u16::from(KvStoreMessageType::Log), 3);
    assert_eq!(KvStoreMessageType::try_from(1).unwrap(), KvStoreMessageType::Update);
    assert_eq!(KvStoreMessageType::try_from(2).unwrap(), KvStoreMessageType::UpdateComplete);
    assert_eq!(KvStoreMessageType::try_from(3).unwrap(), KvStoreMessageType::Log);
    assert!(KvStoreMessageType::try_from(0).is_err());
    assert!(KvStoreMessageType::try_from(4).is_err());
}

#[test]
fn kv_update_with_short_data_fails() {
    assert!(KvStoreMessage::deserialize(1, &[0u8; 10]).is_err());
    assert!(KvStoreMessage::deserialize(9, &[]).is_err());
}

#[test]
fn test_serialize_deserialize_write() {
    let msg = CFuseMessage {
        size: 13,
        offset: 0,
        flags: 0,
        path: "/test.txt".to_string(),
        to: None,
        data: b"Hello, World!".to_vec(),
    };
    let serialized = msg.serialize();
    let parsed = CFuseMessage::parse(&serialized).unwrap();
    assert_eq!(parsed.size, msg.size);
    assert_eq!(parsed.offset, msg.offset);
    assert_eq!(parsed.flags, msg.flags);
    assert_eq!(parsed.path, msg.path);
    assert_eq!(parsed.to, msg.to);
    assert_eq!(parsed.data, msg.data);
}

#[test]
fn test_serialize_deserialize_rename() {
    let msg = CFuseMessage {
        size: 0,
        offset: 0,
        flags: 0,
        path: "/old.txt".to_string(),
        to: Some("/new.txt".to_string()),
        data: Vec::new(),
    };
    let serialized = msg.serialize();
    let parsed = CFuseMessage::parse(&serialized).unwrap();
    assert_eq!(parsed.path, msg.path);
    assert_eq!(parsed.to, msg.to);
}

#[test]
fn kv_log_shorter_than_header_is_error() {
    assert_eq!(KvStoreMessage::deserialize(3, &[0u8; 20]).unwrap_err(), WireError::TooShort);
    assert_eq!(KvStoreMessage::deserialize(3, &[0u8; 23]).unwrap_err(), WireError::TooShort);
    assert!(<KvStoreMessage as Message>::deserialize(3, &[0u8; 22]).is_err());
}

#[test]
fn kv_log_zero_length_field_is_error() {
    assert_eq!(KvStoreMessage::deserialize(3, &[0u8; 24]).unwrap_err(), WireError::TooShort);
    // node of length 1 (just the terminator), the other lengths 0
    let mut d = vec![0u8; 25];
    d[8] = 1;
    assert_eq!(KvStoreMessage::deserialize(3, &d).unwrap_err(), WireError::TooShort);
}

#[test]
fn kv_log_empty_strings_roundtrip() {
    let msg = KvStoreMessage::Log {
        time: 7,
        priority: 3,
        node: String::new(),
        ident: String::new(),
        tag: String::new(),
        message: String::new(),
    };
    let d = msg.serialize();
    assert_eq!(d.len(), 28);
    assert_eq!(KvStoreMessage::deserialize(3, &d).unwrap(), msg);
}

#[test]
fn cfuse_message_at_size_limit_without_target_roundtrips() {
    // path field "/a" plus terminator: 3 bytes; no rename target field
    let size: u32 = 16 * 1024 * 1024 - 3;
    let msg = CFuseMessage {
        size,
        offset: 0,
        flags: 0,
        path: "/a".to_string(),
        to: None,
        data: vec![7u8; size as usize],
    };
    let parsed = CFuseMessage::parse(&msg.serialize()).unwrap();
    assert_eq!(parsed.size, size);
    assert_eq!(parsed.path, "/a");
    assert_eq!(parsed.to, None);
    assert_eq!(parsed.data.len(), size as usize);
    let over = CFuseMessage { size: size + 1, data: vec![7u8; size as usize + 1], ..msg };
    assert!(CFuseMessage::parse(&over.serialize()).is_err());
}
