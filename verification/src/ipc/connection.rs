//! Decisions taken while accepting a connection and while queueing its requests.

use vstd::prelude::*;
use crate::ipc::protocol::{
    ConnectionRequest, RequestHeader, Request, Response, ResponseHeader, Align8, CONNECTION_REQUEST_SIZE,
    REQUEST_HEADER_SIZE, RESPONSE_HEADER_SIZE, response_header_bytes, le_i32,
};
use crate::wire::copy_range;
pub use crate::errno::{EAGAIN, EINVAL, EPERM};

verus! {

/// Smallest message size a client may ask for.
pub const MIN_MSG_SIZE: u32 = 128;

/// Largest message size a client may ask for (16 MiB).
pub const MAX_REASONABLE_MSG_SIZE: u32 = 16777216;

/// Smallest message size granted to a connection.
pub const MIN_GRANTED_MSG_SIZE: u32 = 8192;

/// Requests queued per connection before the client is told to stop.
pub const MAX_PENDING_REQUESTS: usize = 8;

/// Queue length from which the client is told to slow down.
pub const FC_WARNING_THRESHOLD: usize = 6;

/// Flow control: the client may send.
pub const FC_OK: i32 = 0;

/// Flow control: the client should slow down.
pub const FC_SLOW_DOWN: i32 = 1;

/// Flow control: the client must stop.
pub const FC_STOP: i32 = 2;

/// Access granted to a connection.
#[derive(Debug, Clone, Copy, PartialEq, Eq, Structural)]
pub enum Permissions {
    /// Read-only access
    ReadOnly,
    /// Read-write access
    ReadWrite,
}

/// Checks a connection request: its header must give the request's own size, and the
/// message size must lie between 128 bytes and 16 MiB; otherwise `-EINVAL`.
pub fn validate_connection_request(req: &ConnectionRequest) -> (r: Result<(), i32>)
    ensures
        r == (if req.hdr.size.value != CONNECTION_REQUEST_SIZE as i32 || req.max_msg_size < MIN_MSG_SIZE
            || req.max_msg_size > MAX_REASONABLE_MSG_SIZE {
            Err::<(), i32>((-EINVAL) as i32)
        } else {
            Ok(())
        }),
{
    if req.hdr.size.value != 24 {
        return Err(-EINVAL);
    }
    if req.max_msg_size < MIN_MSG_SIZE || req.max_msg_size > MAX_REASONABLE_MSG_SIZE {
        return Err(-EINVAL);
    }
    Ok(())
}

/// Read-only flag of a connection from the access its handler grants; `-EPERM` when the
/// handler rejects the client.
pub fn read_only_access(perms: Option<Permissions>) -> (r: Result<bool, i32>)
    ensures
        r == (match perms {
            Some(Permissions::ReadWrite) => Ok::<bool, i32>(false),
            Some(Permissions::ReadOnly) => Ok::<bool, i32>(true),
            None => Err((-EPERM) as i32),
        }),
{
    match perms {
        Some(Permissions::ReadWrite) => Ok(false),
        Some(Permissions::ReadOnly) => Ok(true),
        None => Err(-EPERM),
    }
}

/// Message size granted to a connection: what the client asked for, at least 8192.
pub fn granted_msg_size(requested: u32) -> (r: u32)
    ensures
        r == (if requested >= MIN_GRANTED_MSG_SIZE {
            requested
        } else {
            MIN_GRANTED_MSG_SIZE
        }),
{
    if requested >= MIN_GRANTED_MSG_SIZE { requested } else { MIN_GRANTED_MSG_SIZE }
}

/// Flow control value for a queue holding `queue_len` requests: stop when full, slow down
/// from 6 requests, otherwise go on.
pub fn flow_control_for(queue_len: usize) -> (r: i32)
    ensures
        r == (if queue_len >= MAX_PENDING_REQUESTS {
            FC_STOP
        } else if queue_len >= FC_WARNING_THRESHOLD {
            FC_SLOW_DOWN
        } else {
            FC_OK
        }),
{
    if queue_len >= MAX_PENDING_REQUESTS {
        FC_STOP
    } else if queue_len >= FC_WARNING_THRESHOLD {
        FC_SLOW_DOWN
    } else {
        FC_OK
    }
}

/// Splits a received request into its header and the request for the handler, with the
/// context of the connection; `None` when it is shorter than a header.
pub fn parse_request(data: &[u8], is_read_only: bool, conn_id: u64, uid: u32, gid: u32, pid: u32) -> (r: Option<
    (RequestHeader, Request),
>)
    ensures
        data@.len() < REQUEST_HEADER_SIZE ==> r is None,
        data@.len() >= REQUEST_HEADER_SIZE ==> (r matches Some((h, req)) && h.id.value == le_i32(data@.subrange(0, 4))
            && h.size.value == le_i32(data@.subrange(8, 12)) && req.msg_id == h.id.value && req.data@
            == data@.subrange(16, data@.len() as int) && req.is_read_only == is_read_only && req.conn_id == conn_id
            && req.uid == uid && req.gid == gid && req.pid == pid),
{
    if data.len() < REQUEST_HEADER_SIZE {
        return None;
    }
    let header = RequestHeader::from_bytes(data);
    let request = Request {
        msg_id: header.id.value,
        data: copy_range(data, REQUEST_HEADER_SIZE, data.len()),
        is_read_only,
        conn_id,
        uid,
        gid,
        pid,
    };
    Some((header, request))
}

/// The response to a request: a header with the request's id, the total size and the
/// handler's error code, followed by the handler's payload.
pub fn response_bytes(header: &RequestHeader, response: &Response) -> (r: Vec<u8>)
    requires
        RESPONSE_HEADER_SIZE + response.data@.len() <= i32::MAX,
    ensures
        r@ == response_header_bytes(
            ResponseHeader {
                id: header.id,
                size: Align8 { value: (RESPONSE_HEADER_SIZE + response.data@.len()) as i32, _pad: 0, _align: [] },
                error: Align8 { value: response.error_code, _pad: 0, _align: [] },
            },
        ) + response.data@,
{
    let size = RESPONSE_HEADER_SIZE + response.data.len();
    let h = ResponseHeader {
        id: header.id,
        size: Align8 { value: size as i32, _pad: 0, _align: [] },
        error: Align8 { value: response.error_code, _pad: 0, _align: [] },
    };
    let mut buf = h.to_bytes();
    crate::wire::push_bytes(&mut buf, response.data.as_slice());
    buf
}

/// Error response for a request that finds the queue full.
pub fn queue_full_response() -> (r: Response)
    ensures
        r.error_code == (-EAGAIN) as i32,
        r.data@ == Seq::<u8>::empty(),
{
    Response::err(-EAGAIN)
}

} // verus!
