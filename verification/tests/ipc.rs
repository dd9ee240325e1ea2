use pmxcfs::ipc::connection::{
    flow_control_for, granted_msg_size, parse_request, read_only_access, response_bytes, validate_connection_request,
    Permissions, EAGAIN, EINVAL, EPERM, FC_OK, FC_SLOW_DOWN, FC_STOP,
};
use pmxcfs::ipc::protocol::{
    Align8, ConnectionRequest, ConnectionResponse, Request, RequestHeader, Response, ResponseHeader, PATH_MAX,
};
use pmxcfs::ipc::server::ServerStats;
use pmxcfs::ipc::shm::{
    check_chunk, chunk_fits, chunk_step, data_offset, magic_offset, real_size, space_free_words, wrap_split, ChunkFault,
    CHUNK_MAGIC, CHUNK_MAGIC_DEAD,
};

#[test]
fn protocol_test_header_sizes() {
    assert_eq!(std::mem::size_of::<RequestHeader>(), 16);
    assert_eq!(std::mem::align_of::<RequestHeader>(), 8);
    assert_eq!(std::mem::size_of::<ResponseHeader>(), 24);
    assert_eq!(std::mem::align_of::<ResponseHeader>(), 8);
    assert_eq!(std::mem::size_of::<ConnectionRequest>(), 24);
    println!("ConnectionResponse size: {}", std::mem::size_of::<ConnectionResponse>());
    println!("ConnectionResponse align: {}", std::mem::align_of::<ConnectionResponse>());
    println!("PATH_MAX: {PATH_MAX}");
    assert_eq!(std::mem::size_of::<ConnectionResponse>(), 12328);
}

#[test]
fn server_test_header_sizes() {
    assert_eq!(std::mem::size_of::<RequestHeader>(), 16);
    assert_eq!(std::mem::align_of::<RequestHeader>(), 8);
    assert_eq!(std::mem::size_of::<ResponseHeader>(), 24);
    assert_eq!(std::mem::align_of::<ResponseHeader>(), 8);
}

#[test]
fn test_align8_size_and_alignment() {
    assert_eq!(std::mem::size_of::<Align8>(), 8);
    assert_eq!(std::mem::align_of::<Align8>(), 8);
}

#[test]
fn test_align8_creation_and_value_access() {
    let a = Align8::new(42);
    assert_eq!(a.value, 42);
    assert_eq!(*a, 42);
}

#[test]
fn test_align8_from_i32() {
    let a: Align8 = (-100).into();
    assert_eq!(a.value, -100);
}

#[test]
fn test_align8_default() {
    let a = Align8::default();
    assert_eq!(a.value, 0);
}

#[test]
fn test_align8_deref_mut() {
    let mut a = Align8::new(10);
    *a = 20;
    assert_eq!(a.value, 20);
}

#[test]
fn test_align8_padding_is_zero() {
    let a = Align8::new(123);
    assert_eq!(a._pad, 0);
}

#[test]
fn test_response_ok_creation() {
    let data = b"test data".to_vec();
    let resp = Response::ok(data.clone());
    assert_eq!(resp.error_code, 0);
    assert_eq!(resp.data, data);
}

#[test]
fn test_response_err_creation() {
    let resp = Response::err(-5);
    assert_eq!(resp.error_code, -5);
    assert!(resp.data.is_empty());
}

#[test]
fn test_response_with_error_and_data() {
    let data = b"error details".to_vec();
    let resp = Response::with_error(-22, data.clone());
    assert_eq!(resp.error_code, -22);
    assert_eq!(resp.data, data);
}

#[test]
fn test_response_error_codes() {
    let test_cases = vec![(0, "success"), (-1, "EPERM"), (-2, "ENOENT"), (-13, "EACCES"), (-22, "EINVAL")];
    for (code, _name) in test_cases {
        let resp = Response::err(code);
        assert_eq!(resp.error_code, code);
    }
}

#[test]
fn test_request_creation() {
    let req = Request {
        msg_id: 100,
        data: b"payload".to_vec(),
        is_read_only: false,
        conn_id: 12345,
        uid: 0,
        gid: 0,
        pid: 999,
    };
    assert_eq!(req.msg_id, 100);
    assert_eq!(req.data, b"payload");
    assert!(!req.is_read_only);
    assert_eq!(req.conn_id, 12345);
    assert_eq!(req.uid, 0);
    assert_eq!(req.gid, 0);
    assert_eq!(req.pid, 999);
}

#[test]
fn test_request_read_only_flag() {
    let req_ro = Request { msg_id: 1, data: vec![], is_read_only: true, conn_id: 1, uid: 33, gid: 33, pid: 1000 };
    let req_rw = Request { msg_id: 1, data: vec![], is_read_only: false, conn_id: 2, uid: 0, gid: 0, pid: 1001 };
    assert!(req_ro.is_read_only);
    assert!(!req_rw.is_read_only);
}

#[test]
fn test_malformed_request_size_validation() {
    let header_size = std::mem::size_of::<RequestHeader>();
    assert_eq!(header_size, 16, "RequestHeader should be 16 bytes");
    let too_small_data = [0x01, 0x02, 0x03];
    assert!(too_small_data.len() < header_size);
    let test_cases = vec![(vec![0u8; 0], 0), (vec![0u8; 1], 1), (vec![0u8; 8], 8), (vec![0u8; 15], 15)];
    for (data, expected_len) in test_cases {
        assert_eq!(data.len(), expected_len);
        assert!(data.len() < header_size);
        assert!(parse_request(&data, false, 1, 0, 0, 0).is_none());
    }
    let valid_cases = vec![vec![0u8; 16], vec![0u8; 32], vec![0u8; 1024]];
    for data in valid_cases {
        assert!(data.len() >= header_size);
        assert!(parse_request(&data, false, 1, 0, 0, 0).is_some());
    }
}

#[test]
fn test_malformed_header_structure() {
    let header_size = std::mem::size_of::<RequestHeader>();
    let patterns = vec![vec![0x00; header_size], vec![0xFF; header_size], vec![0xAA; header_size]];
    for pattern in patterns {
        assert_eq!(pattern.len(), header_size);
        let header = RequestHeader::from_bytes(&pattern);
        let _id = *header.id;
        let _size = *header.size;
    }
}

#[test]
fn test_request_header_alignment() {
    let header_size = std::mem::size_of::<RequestHeader>();
    let mut buffer = vec![0u8; header_size + 1];
    buffer[1..].fill(0x42);
    let header = RequestHeader::from_bytes(&buffer[1..]);
    let _id = *header.id;
    let _size = *header.size;
}

#[test]
fn test_connection_request_structure() {
    let conn_req_size = std::mem::size_of::<ConnectionRequest>();
    assert!(conn_req_size > std::mem::size_of::<RequestHeader>());
    let data = vec![0u8; conn_req_size];
    let conn_req = ConnectionRequest::from_bytes(&data);
    let _id = *conn_req.hdr.id;
    let _size = *conn_req.hdr.size;
    let _max_msg_size = conn_req.max_msg_size;
}

#[test]
fn request_header_reads_little_endian_fields() {
    let mut data = vec![0u8; 16];
    data[0..4].copy_from_slice(&(-7i32).to_le_bytes());
    data[8..12].copy_from_slice(&40i32.to_le_bytes());
    let h = RequestHeader::from_bytes(&data);
    assert_eq!(*h.id, -7);
    assert_eq!(*h.size, 40);
    assert_eq!(h.to_bytes(), data);
}

#[test]
fn connection_request_validation() {
    let mut data = vec![0u8; 24];
    data[8..12].copy_from_slice(&24i32.to_le_bytes());
    data[16..20].copy_from_slice(&1024u32.to_le_bytes());
    let req = ConnectionRequest::from_bytes(&data);
    assert_eq!(req.max_msg_size, 1024);
    assert_eq!(validate_connection_request(&req), Ok(()));
    let mut bad_size = req;
    bad_size.hdr.size = Align8::new(16);
    assert_eq!(validate_connection_request(&bad_size), Err(-EINVAL));
    let mut small = req;
    small.max_msg_size = 127;
    assert_eq!(validate_connection_request(&small), Err(-EINVAL));
    let mut large = req;
    large.max_msg_size = 16 * 1024 * 1024 + 1;
    assert_eq!(validate_connection_request(&large), Err(-EINVAL));
    large.max_msg_size = 16 * 1024 * 1024;
    assert_eq!(validate_connection_request(&large), Ok(()));
}

#[test]
fn access_from_permissions() {
    assert_eq!(read_only_access(Some(Permissions::ReadWrite)), Ok(false));
    assert_eq!(read_only_access(Some(Permissions::ReadOnly)), Ok(true));
    assert_eq!(read_only_access(None), Err(-EPERM));
}

#[test]
fn granted_size_has_floor() {
    assert_eq!(granted_msg_size(128), 8192);
    assert_eq!(granted_msg_size(8192), 8192);
    assert_eq!(granted_msg_size(100000), 100000);
}

#[test]
fn flow_control_thresholds() {
    assert_eq!(flow_control_for(0), FC_OK);
    assert_eq!(flow_control_for(5), FC_OK);
    assert_eq!(flow_control_for(6), FC_SLOW_DOWN);
    assert_eq!(flow_control_for(7), FC_SLOW_DOWN);
    assert_eq!(flow_control_for(8), FC_STOP);
    assert_eq!(flow_control_for(100), FC_STOP);
}

#[test]
fn parse_request_carries_context() {
    let mut data = vec![0u8; 20];
    data[0..4].copy_from_slice(&5i32.to_le_bytes());
    data[8..12].copy_from_slice(&20i32.to_le_bytes());
    data[16..20].copy_from_slice(b"abcd");
    let (h, req) = parse_request(&data, true, 9, 1, 2, 3).unwrap();
    assert_eq!(*h.id, 5);
    assert_eq!(req.msg_id, 5);
    assert_eq!(req.data, b"abcd");
    assert!(req.is_read_only);
    assert_eq!((req.conn_id, req.uid, req.gid, req.pid), (9, 1, 2, 3));
}

#[test]
fn response_bytes_layout() {
    let h = RequestHeader::from_bytes(&[3, 0, 0, 0, 0, 0, 0, 0, 16, 0, 0, 0, 0, 0, 0, 0]);
    let r = Response::with_error(-2, b"xy".to_vec());
    let bytes = response_bytes(&h, &r);
    assert_eq!(bytes.len(), 26);
    assert_eq!(&bytes[0..4], &3i32.to_le_bytes());
    assert_eq!(&bytes[4..8], &[0, 0, 0, 0]);
    assert_eq!(&bytes[8..12], &26i32.to_le_bytes());
    assert_eq!(&bytes[16..20], &(-2i32).to_le_bytes());
    assert_eq!(&bytes[24..], b"xy");
    let full = pmxcfs::ipc::connection::queue_full_response();
    assert_eq!(full.error_code, -EAGAIN);
}

#[test]
fn connection_response_layout() {
    let r = ConnectionResponse::new(0, 7, 8192, "req", "resp", "evt");
    let bytes = r.to_bytes();
    assert_eq!(bytes.len(), 12328);
    assert_eq!(&bytes[0..4], &(-1i32).to_le_bytes());
    assert_eq!(&bytes[8..12], &12328i32.to_le_bytes());
    assert_eq!(&bytes[16..20], &0i32.to_le_bytes());
    assert_eq!(&bytes[24..28], &1u32.to_le_bytes());
    assert_eq!(&bytes[28..32], &8192u32.to_le_bytes());
    assert_eq!(&bytes[32..40], &7u64.to_le_bytes());
    assert_eq!(&bytes[40..43], b"req");
    assert_eq!(bytes[43], 0);
    assert_eq!(&bytes[40 + 4096..40 + 4096 + 4], b"resp");
    assert_eq!(&bytes[40 + 8192..40 + 8192 + 3], b"evt");
    let long = "p".repeat(5000);
    let r = ConnectionResponse::new(-22, 1, 0, &long, "", "");
    assert_eq!(r.request[4094], b'p');
    assert_eq!(r.request[4095], 0);
    assert_eq!(r.hdr.error.value, -22);
}

#[test]
fn server_stats_counts() {
    let mut s = ServerStats::new();
    assert_eq!(s.get(), (0, 0));
    s.connection_created();
    s.connection_created();
    s.connection_closed();
    assert_eq!(s.get(), (1, 1));
}

#[test]
fn shm_arithmetic() {
    assert_eq!(real_size(8192), Some(12288));
    assert_eq!(real_size(4096 - 13), Some(4096));
    assert_eq!(real_size(4096 - 12), Some(8192));
    assert_eq!(real_size(usize::MAX), None);
    assert_eq!(chunk_step(1024, 0, 5), 4);
    assert_eq!(chunk_step(1024, 1020, 8), 0);
    assert_eq!(space_free_words(0, 0, 1024), 1024);
    assert_eq!(space_free_words(10, 5, 1024), 1018);
    assert_eq!(space_free_words(5, 10, 1024), 4);
    assert!(chunk_fits(4, 4, 12));
    assert!(!chunk_fits(4, 5, 12));
}

#[test]
fn shm_chunk_checks() {
    // 1024 words: at most 4096 - 8 - 64 = 4024 bytes per chunk
    assert_eq!(check_chunk(100, CHUNK_MAGIC, 1024), Ok(()));
    assert_eq!(check_chunk(4024, CHUNK_MAGIC, 1024), Ok(()));
    assert_eq!(check_chunk(4025, CHUNK_MAGIC, 1024), Err(ChunkFault::BadSize));
    assert_eq!(check_chunk(0, CHUNK_MAGIC, 1024), Err(ChunkFault::BadSize));
    assert_eq!(check_chunk(100, CHUNK_MAGIC_DEAD, 1024), Err(ChunkFault::BadMagic));
    assert_eq!(check_chunk(0, CHUNK_MAGIC_DEAD, 1024), Err(ChunkFault::BadSize));
    assert_eq!(check_chunk(1, CHUNK_MAGIC, 10), Err(ChunkFault::BadSize));
}

#[test]
fn shm_offsets_and_wrap() {
    assert_eq!(data_offset(0, 1024), 2);
    assert_eq!(data_offset(1023, 1024), 1);
    assert_eq!(magic_offset(1023, 1024), 0);
    assert_eq!(magic_offset(5, 1024), 6);
    assert_eq!(wrap_split(1020, 1024, 10), (10, 0));
    assert_eq!(wrap_split(1020, 1024, 16), (16, 0));
    assert_eq!(wrap_split(1020, 1024, 20), (16, 4));
}

#[test]
fn request_header_roundtrip() {
    for (id, size) in [(0i32, 16i32), (-1, 24), (i32::MAX, i32::MIN), (7, 4096)] {
        let h = RequestHeader { id: Align8::new(id), size: Align8::new(size) };
        let bytes = h.to_bytes();
        assert_eq!(bytes.len(), 16);
        let back = RequestHeader::from_bytes(&bytes);
        assert_eq!(back.id.value, id);
        assert_eq!(back.size.value, size);
    }
}
