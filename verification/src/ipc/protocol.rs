//! Wire structures of the IPC protocol, laid out as their C counterparts: each 32-bit field
//! of a header takes 8 bytes.

use vstd::prelude::*;
use vstd::std_specs::convert::FromSpecImpl;
use vstd::bytes::*;
use crate::wire::{push_u32, push_u64, read_u32};

verus! {

/// Message id of the authentication exchange.
pub const MSG_AUTHENTICATE: i32 = -1;

/// Connection type of the shared-memory transport.
pub const CONNECTION_TYPE_SHM: u32 = 1;

/// Length of the path fields of a connection response.
pub const PATH_MAX: usize = 4096;

/// A 32-bit value that takes 8 bytes, 8-aligned: the value, then zero padding.
#[derive(Debug, Copy, Clone, PartialEq, Eq)]
pub struct Align8 {
    /// The value
    pub value: i32,
    /// Padding, always zero
    pub _pad: u32,
    /// Zero-sized field that gives the 8-byte alignment
    pub _align: [u64; 0],
}

impl Align8 {
    /// The value with zero padding.
    pub fn new(value: i32) -> (r: Align8)
        ensures
            r.value == value,
            r._pad == 0,
    {
        Align8 { value, _pad: 0, _align: [] }
    }
}

impl std::ops::Deref for Align8 {
    type Target = i32;

    fn deref(&self) -> (r: &i32)
        ensures
            *r == self.value,
    {
        &self.value
    }
}

impl std::ops::DerefMut for Align8 {
    fn deref_mut(&mut self) -> (r: &mut i32)
        ensures
            *r == old(self).value,
            *final(self) == (Align8 { value: *final(r), ..*old(self) }),
    {
        &mut self.value
    }
}

impl From<i32> for Align8 {
    fn from(value: i32) -> (r: Align8) {
        Align8 { value, _pad: 0, _align: [] }
    }
}

impl FromSpecImpl<i32> for Align8 {
    open spec fn obeys_from_spec() -> bool {
        true
    }

    open spec fn from_spec(value: i32) -> Align8 {
        Align8 { value, _pad: 0, _align: [] }
    }
}

impl Default for Align8 {
    /// Zero.
    fn default() -> (r: Align8)
        ensures
            r.value == 0,
            r._pad == 0,
    {
        Align8::new(0)
    }
}

/// The 32-bit value of a little-endian field, as a signed value.
pub open spec fn le_i32(b: Seq<u8>) -> i32 {
    spec_u32_from_le_bytes(b) as i32
}

/// Bytes of an 8-byte field holding `v`: its little-endian bytes and zero padding.
pub open spec fn align8_bytes(v: i32) -> Seq<u8> {
    spec_u32_to_le_bytes(v as u32) + seq![0u8, 0u8, 0u8, 0u8]
}

/// Appends an 8-byte field holding `v`.
fn push_align8(buf: &mut Vec<u8>, v: i32)
    ensures
        final(buf)@ == old(buf)@ + align8_bytes(v),
{
    push_u32(buf, v as u32);
    buf.push(0u8);
    buf.push(0u8);
    buf.push(0u8);
    buf.push(0u8);
    assert(final(buf)@ =~= old(buf)@ + align8_bytes(v));
}

/// Header of a request: message id and total size.
#[derive(Debug, Copy, Clone)]
pub struct RequestHeader {
    /// Message id
    pub id: Align8,
    /// Size of the request, header included
    pub size: Align8,
}

/// Header of a response: message id, total size and error code.
#[derive(Debug, Copy, Clone)]
pub struct ResponseHeader {
    /// Message id
    pub id: Align8,
    /// Size of the response, header included
    pub size: Align8,
    /// Error code: 0 or a negative errno
    pub error: Align8,
}

/// Connection request of the handshake.
#[derive(Debug, Copy, Clone)]
pub struct ConnectionRequest {
    /// Header
    pub hdr: RequestHeader,
    /// Largest message the client will send
    pub max_msg_size: u32,
}

/// Connection response of the handshake.
#[derive(Debug)]
pub struct ConnectionResponse {
    /// Header
    pub hdr: ResponseHeader,
    /// Transport: shared memory
    pub connection_type: u32,
    /// Largest message size agreed
    pub max_msg_size: u32,
    /// Connection id
    pub connection: usize,
    /// Name of the request ring buffer, NUL padded
    pub request: [u8; PATH_MAX],
    /// Name of the response ring buffer, NUL padded
    pub response: [u8; PATH_MAX],
    /// Name of the event ring buffer, NUL padded
    pub event: [u8; PATH_MAX],
}

/// Size of a request header in bytes.
pub const REQUEST_HEADER_SIZE: usize = 16;

/// Size of a response header in bytes.
pub const RESPONSE_HEADER_SIZE: usize = 24;

/// Size of a connection request in bytes.
pub const CONNECTION_REQUEST_SIZE: usize = 24;

/// Size of a connection response in bytes.
pub const CONNECTION_RESPONSE_SIZE: usize = 12328;

/// Binary format of a request header.
pub open spec fn request_header_bytes(h: RequestHeader) -> Seq<u8> {
    align8_bytes(h.id.value) + align8_bytes(h.size.value)
}

impl RequestHeader {
    /// Reads a header from the first 16 bytes: the id from bytes 0..4, the size from
    /// bytes 8..12, both little-endian.
    pub fn from_bytes(data: &[u8]) -> (r: RequestHeader)
        requires
            data@.len() >= REQUEST_HEADER_SIZE,
        ensures
            r.id.value == le_i32(data@.subrange(0, 4)),
            r.size.value == le_i32(data@.subrange(8, 12)),
            r.id._pad == 0 && r.size._pad == 0,
    {
        let id = read_u32(data, 0) as i32;
        let size = read_u32(data, 8) as i32;
        RequestHeader { id: Align8::new(id), size: Align8::new(size) }
    }

    /// The 16 bytes of the header.
    pub fn to_bytes(&self) -> (r: Vec<u8>)
        ensures
            r@ == request_header_bytes(*self),
    {
        let mut buf: Vec<u8> = Vec::new();
        push_align8(&mut buf, self.id.value);
        push_align8(&mut buf, self.size.value);
        assert(buf@ =~= request_header_bytes(*self));
        buf
    }
}

/// Binary format of a response header.
pub open spec fn response_header_bytes(h: ResponseHeader) -> Seq<u8> {
    align8_bytes(h.id.value) + align8_bytes(h.size.value) + align8_bytes(h.error.value)
}

impl ResponseHeader {
    /// The 24 bytes of the header.
    pub fn to_bytes(&self) -> (r: Vec<u8>)
        ensures
            r@ == response_header_bytes(*self),
    {
        let mut buf: Vec<u8> = Vec::new();
        push_align8(&mut buf, self.id.value);
        push_align8(&mut buf, self.size.value);
        push_align8(&mut buf, self.error.value);
        assert(buf@ =~= response_header_bytes(*self));
        buf
    }
}

impl ConnectionRequest {
    /// Reads a connection request from the first 24 bytes: the header, then the largest
    /// message size at bytes 16..20.
    pub fn from_bytes(data: &[u8]) -> (r: ConnectionRequest)
        requires
            data@.len() >= CONNECTION_REQUEST_SIZE,
        ensures
            r.hdr.id.value == le_i32(data@.subrange(0, 4)),
            r.hdr.size.value == le_i32(data@.subrange(8, 12)),
            r.max_msg_size == spec_u32_from_le_bytes(data@.subrange(16, 20)),
    {
        let hdr = RequestHeader::from_bytes(data);
        let max_msg_size = read_u32(data, 16);
        ConnectionRequest { hdr, max_msg_size }
    }
}

/// A path field: the first `PATH_MAX - 1` bytes of the name at most, then zeros.
pub open spec fn path_field(name: Seq<u8>) -> Seq<u8> {
    let n = if name.len() < PATH_MAX - 1 {
        name.len() as int
    } else {
        PATH_MAX - 1
    };
    name.take(n) + Seq::new((PATH_MAX - n) as nat, |i: int| 0u8)
}

/// Fills a path field from a name.
fn path_array(name: &[u8]) -> (r: [u8; PATH_MAX])
    ensures
        r@ == path_field(name@),
{
    let mut a: [u8; PATH_MAX] = [0u8; PATH_MAX];
    let n = if name.len() < PATH_MAX - 1 { name.len() } else { PATH_MAX - 1 };
    let mut i: usize = 0;
    while i < n
        invariant
            i <= n,
            n <= name@.len(),
            n < PATH_MAX,
            a@.len() == PATH_MAX,
            forall|k: int| 0 <= k < i ==> a@[k] == name@[k],
            forall|k: int| i <= k < PATH_MAX ==> a@[k] == 0u8,
        decreases n - i,
    {
        a[i] = name[i];
        i = i + 1;
    }
    assert(a@ =~= path_field(name@));
    a
}

/// Binary format of a connection response.
pub open spec fn connection_response_bytes(r: ConnectionResponse) -> Seq<u8> {
    response_header_bytes(r.hdr) + spec_u32_to_le_bytes(r.connection_type) + spec_u32_to_le_bytes(r.max_msg_size)
        + spec_u64_to_le_bytes(r.connection as u64) + r.request@ + r.response@ + r.event@
}

impl ConnectionResponse {
    /// The response of the handshake: authentication id, its own size, the error code,
    /// shared memory, and the names of the three ring buffers cut to fit their fields.
    pub fn new(error: i32, conn_id: u64, max_msg_size: u32, request_path: &str, response_path: &str, event_path: &str) -> (r: ConnectionResponse)
        ensures
            r.hdr.id.value == MSG_AUTHENTICATE,
            r.hdr.size.value == CONNECTION_RESPONSE_SIZE as i32,
            r.hdr.error.value == error,
            r.connection_type == CONNECTION_TYPE_SHM,
            r.max_msg_size == max_msg_size,
            r.connection == conn_id as usize,
            r.request@ == path_field(vstd::utf8::encode_utf8(request_path@)),
            r.response@ == path_field(vstd::utf8::encode_utf8(response_path@)),
            r.event@ == path_field(vstd::utf8::encode_utf8(event_path@)),
    {
        ConnectionResponse {
            hdr: ResponseHeader {
                id: Align8::new(MSG_AUTHENTICATE),
                size: Align8::new(12328),
                error: Align8::new(error),
            },
            connection_type: CONNECTION_TYPE_SHM,
            max_msg_size,
            connection: conn_id as usize,
            request: path_array(request_path.as_bytes()),
            response: path_array(response_path.as_bytes()),
            event: path_array(event_path.as_bytes()),
        }
    }

    /// The 12328 bytes of the response.
    pub fn to_bytes(&self) -> (r: Vec<u8>)
        ensures
            r@ == connection_response_bytes(*self),
    {
        let mut buf = self.hdr.to_bytes();
        push_u32(&mut buf, self.connection_type);
        push_u32(&mut buf, self.max_msg_size);
        push_u64(&mut buf, self.connection as u64);
        let mut i: usize = 0;
        let ghost start = buf@;
        while i < PATH_MAX
            invariant
                i <= PATH_MAX,
                self.request@.len() == PATH_MAX,
                buf@ == start + self.request@.take(i as int),
            decreases PATH_MAX - i,
        {
            buf.push(self.request[i]);
            assert(self.request@.take(i + 1) =~= self.request@.take(i as int).push(self.request@[i as int]));
            i = i + 1;
        }
        assert(self.request@.take(PATH_MAX as int) =~= self.request@);
        let ghost start = buf@;
        let mut i: usize = 0;
        while i < PATH_MAX
            invariant
                i <= PATH_MAX,
                self.response@.len() == PATH_MAX,
                buf@ == start + self.response@.take(i as int),
            decreases PATH_MAX - i,
        {
            buf.push(self.response[i]);
            assert(self.response@.take(i + 1) =~= self.response@.take(i as int).push(self.response@[i as int]));
            i = i + 1;
        }
        assert(self.response@.take(PATH_MAX as int) =~= self.response@);
        let ghost start = buf@;
        let mut i: usize = 0;
        while i < PATH_MAX
            invariant
                i <= PATH_MAX,
                self.event@.len() == PATH_MAX,
                buf@ == start + self.event@.take(i as int),
            decreases PATH_MAX - i,
        {
            buf.push(self.event[i]);
            assert(self.event@.take(i + 1) =~= self.event@.take(i as int).push(self.event@[i as int]));
            i = i + 1;
        }
        assert(self.event@.take(PATH_MAX as int) =~= self.event@);
        assert(buf@ =~= connection_response_bytes(*self));
        buf
    }
}

/// A request as handed to a handler, with the context of its connection.
#[derive(Debug, Clone)]
pub struct Request {
    /// Message id
    pub msg_id: i32,
    /// Payload
    pub data: Vec<u8>,
    /// Whether the connection has read-only access
    pub is_read_only: bool,
    /// Connection id
    pub conn_id: u64,
    /// Client user id
    pub uid: u32,
    /// Client group id
    pub gid: u32,
    /// Client process id
    pub pid: u32,
}

/// A response of a handler: error code (0 or a negative errno) and payload.
#[derive(Debug, Clone)]
pub struct Response {
    /// Error code: 0 for success, a negative errno otherwise
    pub error_code: i32,
    /// Payload
    pub data: Vec<u8>,
}

impl Response {
    /// Success with a payload.
    pub fn ok(data: Vec<u8>) -> (r: Response)
        ensures
            r.error_code == 0,
            r.data@ == data@,
    {
        Response { error_code: 0, data }
    }

    /// An error code without payload.
    pub fn err(error_code: i32) -> (r: Response)
        ensures
            r.error_code == error_code,
            r.data@ == Seq::<u8>::empty(),
    {
        Response { error_code, data: Vec::new() }
    }

    /// An error code with a payload.
    pub fn with_error(error_code: i32, data: Vec<u8>) -> (r: Response)
        ensures
            r.error_code == error_code,
            r.data@ == data@,
    {
        Response { error_code, data }
    }
}

/// A request header read back from its own bytes has the same id and size.
pub proof fn lemma_request_header_roundtrip(h: RequestHeader)
    ensures
        request_header_bytes(h).len() == REQUEST_HEADER_SIZE,
        le_i32(request_header_bytes(h).subrange(0, 4)) == h.id.value,
        le_i32(request_header_bytes(h).subrange(8, 12)) == h.size.value,
{
    let b = request_header_bytes(h);
    let id = h.id.value;
    let size = h.size.value;
    crate::wire::lemma_le_roundtrips();
    assert(b.subrange(0, 4) =~= spec_u32_to_le_bytes(id as u32));
    assert(b.subrange(8, 12) =~= spec_u32_to_le_bytes(size as u32));
    assert((id as u32) as i32 == id) by (bit_vector);
    assert((size as u32) as i32 == size) by (bit_vector);
}

} // verus!
