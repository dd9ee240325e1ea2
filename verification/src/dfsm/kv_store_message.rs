//! Key-value status messages (update, update complete, cluster log entry).

use vstd::prelude::*;
use vstd::bytes::*;
use vstd::utf8::*;
use vstd::slice::slice_subrange;
use vstd::std_specs::convert::FromSpecImpl;
use crate::wire::{WireError, push_u32, push_bytes, read_u32, copy_range, len_field, lemma_le_roundtrips, view_result};
use crate::text::{string_from_utf8, lemma_utf8_roundtrip, lemma_encode_nul_free, nul_free};
use crate::dfsm::message::Message;
use crate::dfsm::wire_format::{cstr_field, first_nul};

verus! {

/// Size of the key field of an update message.
pub const KV_KEY_SIZE: usize = 256;

/// Size of the fixed header of a log message.
pub const KV_LOG_HEADER_SIZE: usize = 24;

/// Key-value message type identifiers.
#[derive(Debug, Clone, Copy, PartialEq, Eq, Structural)]
pub enum KvStoreMessageType {
    Update,
    UpdateComplete,
    Log,
}

/// Wire value of a key-value message type (1 to 3).
pub open spec fn kv_type_code(t: KvStoreMessageType) -> u16 {
    match t {
        KvStoreMessageType::Update => 1,
        KvStoreMessageType::UpdateComplete => 2,
        KvStoreMessageType::Log => 3,
    }
}

/// Key-value message type of a wire value, if it names one.
pub open spec fn kv_type_of_code(v: u16) -> Option<KvStoreMessageType> {
    if v == 1 {
        Some(KvStoreMessageType::Update)
    } else if v == 2 {
        Some(KvStoreMessageType::UpdateComplete)
    } else if v == 3 {
        Some(KvStoreMessageType::Log)
    } else {
        None
    }
}

impl KvStoreMessageType {
    /// Message type of a wire value; the value itself is returned when it names none.
    pub fn try_from(v: u16) -> (r: Result<KvStoreMessageType, u16>)
        ensures
            match r {
                Ok(t) => kv_type_of_code(v) == Some(t),
                Err(e) => kv_type_of_code(v) is None && e == v,
            },
    {
        if v == 1 {
            Ok(KvStoreMessageType::Update)
        } else if v == 2 {
            Ok(KvStoreMessageType::UpdateComplete)
        } else if v == 3 {
            Ok(KvStoreMessageType::Log)
        } else {
            Err(v)
        }
    }
}

impl From<KvStoreMessageType> for u16 {
    fn from(t: KvStoreMessageType) -> (r: u16) {
        match t {
            KvStoreMessageType::Update => 1,
            KvStoreMessageType::UpdateComplete => 2,
            KvStoreMessageType::Log => 3,
        }
    }
}

impl FromSpecImpl<KvStoreMessageType> for u16 {
    open spec fn obeys_from_spec() -> bool {
        true
    }

    open spec fn from_spec(t: KvStoreMessageType) -> u16 {
        kv_type_code(t)
    }
}

/// Status message of the key-value state machine.
#[derive(Debug, Clone, PartialEq)]
pub enum KvStoreMessage {
    /// Update key-value data from a node (key field of 256 bytes, then the value)
    Update { key: String, value: Vec<u8> },
    /// Cluster log entry
    Log { time: u32, priority: u8, node: String, ident: String, tag: String, message: String },
    /// Update complete signal
    UpdateComplete,
}

/// Mathematical view of a key-value message.
pub enum KvStoreMessageView {
    Update { key: Seq<char>, value: Seq<u8> },
    Log {
        time: u32,
        priority: u8,
        node: Seq<char>,
        ident: Seq<char>,
        tag: Seq<char>,
        message: Seq<char>,
    },
    UpdateComplete,
}

impl View for KvStoreMessage {
    type V = KvStoreMessageView;

    open spec fn view(&self) -> KvStoreMessageView {
        match self {
            KvStoreMessage::Update { key, value } => KvStoreMessageView::Update {
                key: key@,
                value: value@,
            },
            KvStoreMessage::Log { time, priority, node, ident, tag, message } => KvStoreMessageView::Log {
                time: *time,
                priority: *priority,
                node: node@,
                ident: ident@,
                tag: tag@,
                message: message@,
            },
            KvStoreMessage::UpdateComplete => KvStoreMessageView::UpdateComplete,
        }
    }
}

/// Type identifier of a key-value message.
pub open spec fn kv_message_type(v: KvStoreMessageView) -> u16 {
    match v {
        KvStoreMessageView::Update { .. } => 1,
        KvStoreMessageView::UpdateComplete => 2,
        KvStoreMessageView::Log { .. } => 3,
    }
}

/// The key field of an update: the first 255 bytes of the key at most, zero-padded to 256.
pub open spec fn key_field(key: Seq<char>) -> Seq<u8> {
    let kb = encode_utf8(key);
    let n: int = if kb.len() < 255 { kb.len() as int } else { 255 };
    kb.take(n) + Seq::new((256 - n) as nat, |i: int| 0u8)
}

/// A NUL-terminated string field of a log message.
pub open spec fn log_str_bytes(s: Seq<char>) -> Seq<u8> {
    encode_utf8(s) + seq![0u8]
}

/// Length field of a NUL-terminated string of a log message.
pub open spec fn log_len(s: Seq<char>) -> u32 {
    (encode_utf8(s).len() + 1) as u32
}

/// Wire encoding of a key-value message.
pub open spec fn kv_bytes(v: KvStoreMessageView) -> Seq<u8> {
    match v {
        KvStoreMessageView::Update { key, value } => key_field(key) + value,
        KvStoreMessageView::Log { time, priority, node, ident, tag, message } => spec_u32_to_le_bytes(
            time,
        ) + seq![priority, 0u8, 0u8, 0u8] + spec_u32_to_le_bytes(log_len(node)) + spec_u32_to_le_bytes(
            log_len(ident),
        ) + spec_u32_to_le_bytes(log_len(tag)) + spec_u32_to_le_bytes(log_len(message)) + log_str_bytes(
            node,
        ) + log_str_bytes(ident) + log_str_bytes(tag) + log_str_bytes(message),
        KvStoreMessageView::UpdateComplete => Seq::empty(),
    }
}

/// The little-endian `u32` at `off`.
pub open spec fn le32_at(d: Seq<u8>, off: int) -> u32 {
    spec_u32_from_le_bytes(d.subrange(off, off + 4))
}

/// A string of a log message: the `l - 1` bytes at `off`, the terminator position not examined.
pub open spec fn log_str_at(d: Seq<u8>, off: int, l: int) -> Result<Seq<char>, WireError> {
    let b = d.subrange(off, off + l - 1);
    if valid_utf8(b) {
        Ok(decode_utf8(b))
    } else {
        Err(WireError::InvalidUtf8)
    }
}

/// Total length that the four length fields of a log header announce.
pub open spec fn log_expected_len(d: Seq<u8>) -> int {
    24 + le32_at(d, 8) + le32_at(d, 12) + le32_at(d, 16) + le32_at(d, 20)
}

/// Decoding of a log message: a 24-byte header (time, priority, padding, four length
/// fields), then four NUL-terminated strings whose lengths, terminators included, are at
/// least 1 and add up to the rest of the data.
pub open spec fn parse_kv_log(d: Seq<u8>) -> Result<KvStoreMessageView, WireError> {
    let nl = le32_at(d, 8) as int;
    let il = le32_at(d, 12) as int;
    let tl = le32_at(d, 16) as int;
    let ml = le32_at(d, 20) as int;
    if d.len() < 24 {
        Err(WireError::TooShort)
    } else if d.len() != log_expected_len(d) {
        Err(WireError::SizeMismatch)
    } else if nl == 0 || il == 0 || tl == 0 || ml == 0 {
        Err(WireError::TooShort)
    } else {
        match log_str_at(d, 24, nl) {
            Err(e) => Err(e),
            Ok(node) => match log_str_at(d, 24 + nl, il) {
                Err(e) => Err(e),
                Ok(ident) => match log_str_at(d, 24 + nl + il, tl) {
                    Err(e) => Err(e),
                    Ok(tag) => match log_str_at(d, 24 + nl + il + tl, ml) {
                        Err(e) => Err(e),
                        Ok(message) => Ok(
                            KvStoreMessageView::Log {
                                time: le32_at(d, 0),
                                priority: d[4],
                                node,
                                ident,
                                tag,
                                message,
                            },
                        ),
                    },
                },
            },
        }
    }
}

/// Decoding of a key-value message of the given type.
pub open spec fn parse_kv(t: u16, d: Seq<u8>) -> Result<KvStoreMessageView, WireError> {
    if t == 1 {
        if d.len() < 256 {
            Err(WireError::TooShort)
        } else {
            match cstr_field(d.take(256)) {
                Err(e) => Err(e),
                Ok(key) => Ok(KvStoreMessageView::Update { key, value: d.skip(256) }),
            }
        }
    } else if t == 2 {
        Ok(KvStoreMessageView::UpdateComplete)
    } else if t == 3 {
        parse_kv_log(d)
    } else {
        Err(WireError::InvalidMessageType(t))
    }
}

/// Messages that decode back from their encoding: a key of at most 255 bytes without
/// NUL characters, and log strings whose lengths with terminator fit 32 bits.
pub open spec fn kv_roundtrips(v: KvStoreMessageView) -> bool {
    match v {
        KvStoreMessageView::Update { key, value } => !key.contains('\0') && encode_utf8(key).len()
            <= 255,
        KvStoreMessageView::Log { node, ident, tag, message, .. } => {
            &&& encode_utf8(node).len() < u32::MAX
            &&& encode_utf8(ident).len() < u32::MAX
            &&& encode_utf8(tag).len() < u32::MAX
            &&& encode_utf8(message).len() < u32::MAX
        },
        KvStoreMessageView::UpdateComplete => true,
    }
}

/// Reads the `l - 1` bytes at `off` as a UTF-8 string.
fn read_log_str(data: &[u8], off: usize, l: usize) -> (r: Result<String, WireError>)
    requires
        0 < l,
        off + l <= data@.len(),
    ensures
        match r {
            Ok(s) => log_str_at(data@, off as int, l as int) == Ok::<Seq<char>, WireError>(s@),
            Err(e) => log_str_at(data@, off as int, l as int) == Err::<Seq<char>, WireError>(e),
        },
{
    let _n = data.len();
    match string_from_utf8(slice_subrange(data, off, off + l - 1)) {
        Some(s) => Ok(s),
        None => Err(WireError::InvalidUtf8),
    }
}

impl KvStoreMessage {
    /// Get the message type identifier.
    pub fn message_type(&self) -> (r: u16)
        ensures
            r == kv_message_type(self@),
    {
        let t = match self {
            KvStoreMessage::Update { .. } => KvStoreMessageType::Update,
            KvStoreMessage::UpdateComplete => KvStoreMessageType::UpdateComplete,
            KvStoreMessage::Log { .. } => KvStoreMessageType::Log,
        };
        u16::from(t)
    }

    /// Serialize to the wire format.
    pub fn serialize(&self) -> (r: Vec<u8>)
        ensures
            r@ == kv_bytes(self@),
    {
        match self {
            KvStoreMessage::Update { key, value } => {
                let kb = key.as_str().as_bytes();
                let n: usize = if kb.len() < 255 { kb.len() } else { 255 };
                let mut buf: Vec<u8> = Vec::new();
                push_bytes(&mut buf, slice_subrange(kb, 0, n));
                let mut i: usize = n;
                while i < 256
                    invariant
                        n <= i <= 256,
                        buf@ =~= kb@.take(n as int) + Seq::new((i - n) as nat, |j: int| 0u8),
                    decreases 256 - i,
                {
                    buf.push(0);
                    i += 1;
                }
                push_bytes(&mut buf, value.as_slice());
                assert(buf@ =~= kv_bytes(self@));
                buf
            },
            KvStoreMessage::Log { time, priority, node, ident, tag, message } => {
                let nb = node.as_str().as_bytes();
                let ib = ident.as_str().as_bytes();
                let tb = tag.as_str().as_bytes();
                let mb = message.as_str().as_bytes();
                let mut buf: Vec<u8> = Vec::new();
                push_u32(&mut buf, *time);
                buf.push(*priority);
                buf.push(0);
                buf.push(0);
                buf.push(0);
                push_u32(&mut buf, len_field(nb.len()));
                push_u32(&mut buf, len_field(ib.len()));
                push_u32(&mut buf, len_field(tb.len()));
                push_u32(&mut buf, len_field(mb.len()));
                push_bytes(&mut buf, nb);
                buf.push(0);
                push_bytes(&mut buf, ib);
                buf.push(0);
                push_bytes(&mut buf, tb);
                buf.push(0);
                push_bytes(&mut buf, mb);
                buf.push(0);
                assert(buf@ =~= kv_bytes(self@));
                buf
            },
            KvStoreMessage::UpdateComplete => Vec::new(),
        }
    }

    /// Deserialize a payload of the given message type.
    pub fn deserialize(msg_type: u16, data: &[u8]) -> (r: Result<KvStoreMessage, WireError>)
        ensures
            view_result(r) == parse_kv(msg_type, data@),
    {
        let t = match KvStoreMessageType::try_from(msg_type) {
            Ok(t) => t,
            Err(_) => return Err(WireError::InvalidMessageType(msg_type)),
        };
        match t {
            KvStoreMessageType::Update => {
                if data.len() < KV_KEY_SIZE {
                    return Err(WireError::TooShort);
                }
                let field = slice_subrange(data, 0, KV_KEY_SIZE);
                assert(field@ =~= data@.take(256));
                let mut z: usize = 0;
                while z < KV_KEY_SIZE && field[z] != 0
                    invariant
                        z <= 256,
                        field@.len() == 256,
                        first_nul(field@, 0) == first_nul(field@, z as int),
                    decreases 256 - z,
                {
                    z += 1;
                }
                if z >= KV_KEY_SIZE {
                    return Err(WireError::MissingNulTerminator);
                }
                let key = match string_from_utf8(slice_subrange(field, 0, z)) {
                    Some(s) => s,
                    None => return Err(WireError::InvalidUtf8),
                };
                let value = copy_range(data, KV_KEY_SIZE, data.len());
                assert(value@ =~= data@.skip(256));
                Ok(KvStoreMessage::Update { key, value })
            },
            KvStoreMessageType::UpdateComplete => Ok(KvStoreMessage::UpdateComplete),
            KvStoreMessageType::Log => {
                if data.len() < 24 {
                    return Err(WireError::TooShort);
                }
                let time = read_u32(data, 0);
                let priority = data[4];
                let nl = read_u32(data, 8) as usize;
                let il = read_u32(data, 12) as usize;
                let tl = read_u32(data, 16) as usize;
                let ml = read_u32(data, 20) as usize;
                let expected: u64 = 24 + nl as u64 + il as u64 + tl as u64 + ml as u64;
                if data.len() as u64 != expected {
                    return Err(WireError::SizeMismatch);
                }
                if nl == 0 || il == 0 || tl == 0 || ml == 0 {
                    return Err(WireError::TooShort);
                }
                let node = match read_log_str(data, 24, nl) {
                    Ok(s) => s,
                    Err(e) => return Err(e),
                };
                let ident = match read_log_str(data, 24 + nl, il) {
                    Ok(s) => s,
                    Err(e) => return Err(e),
                };
                let tag = match read_log_str(data, 24 + nl + il, tl) {
                    Ok(s) => s,
                    Err(e) => return Err(e),
                };
                let message = match read_log_str(data, 24 + nl + il + tl, ml) {
                    Ok(s) => s,
                    Err(e) => return Err(e),
                };
                Ok(KvStoreMessage::Log { time, priority, node, ident, tag, message })
            },
        }
    }
}

/// The update key field read back: the key itself when it fits and holds no NUL.
proof fn lemma_key_field_roundtrip(key: Seq<char>, value: Seq<u8>)
    requires
        !key.contains('\0'),
        encode_utf8(key).len() <= 255,
    ensures
        cstr_field((key_field(key) + value).take(256)) == Ok::<Seq<char>, WireError>(key),
{
    let kb = encode_utf8(key);
    lemma_encode_nul_free(key);
    lemma_utf8_roundtrip(key);
    let f = (key_field(key) + value).take(256);
    assert(kb.take(kb.len() as int) =~= kb);
    assert forall|k: int| 0 <= k <= kb.len() implies first_nul(f, k) == kb.len() by {
        lemma_first_nul_at(f, k, kb.len() as int);
    }
    assert(f.subrange(0, kb.len() as int) =~= kb);
}

proof fn lemma_first_nul_at(f: Seq<u8>, k: int, z: int)
    requires
        0 <= k <= z < f.len(),
        f[z] == 0,
        forall|i: int| 0 <= i < z ==> f[i] != 0,
    ensures
        first_nul(f, k) == z,
    decreases z - k,
{
    if k < z {
        lemma_first_nul_at(f, k + 1, z);
    }
}

/// A log string read back from its NUL-terminated encoding.
proof fn lemma_log_str_roundtrip(d: Seq<u8>, off: int, s: Seq<char>)
    requires
        0 <= off,
        off + encode_utf8(s).len() + 1 <= d.len(),
        d.subrange(off, off + encode_utf8(s).len() + 1) == log_str_bytes(s),
    ensures
        log_str_at(d, off, encode_utf8(s).len() + 1int) == Ok::<Seq<char>, WireError>(s),
{
    lemma_utf8_roundtrip(s);
    let n = encode_utf8(s).len() as int;
    assert(d.subrange(off, off + n) =~= d.subrange(off, off + n + 1).take(n));
    assert(log_str_bytes(s).take(n) =~= encode_utf8(s));
}

/// A log message read back from its encoding.
proof fn lemma_log_roundtrip(
    time: u32,
    priority: u8,
    node: Seq<char>,
    ident: Seq<char>,
    tag: Seq<char>,
    message: Seq<char>,
)
    requires
        kv_roundtrips(KvStoreMessageView::Log { time, priority, node, ident, tag, message }),
    ensures
        parse_kv(3, kv_bytes(KvStoreMessageView::Log { time, priority, node, ident, tag, message }))
            == Ok::<KvStoreMessageView, WireError>(
            KvStoreMessageView::Log { time, priority, node, ident, tag, message },
        ),
{
    lemma_le_roundtrips();
    let d = kv_bytes(KvStoreMessageView::Log { time, priority, node, ident, tag, message });
    let nl: int = encode_utf8(node).len() + 1int;
    let il: int = encode_utf8(ident).len() + 1int;
    let tl: int = encode_utf8(tag).len() + 1int;
    let ml: int = encode_utf8(message).len() + 1int;
    assert(log_len(node) == nl);
    assert(log_len(ident) == il);
    assert(log_len(tag) == tl);
    assert(log_len(message) == ml);
    assert(d.subrange(0, 4) =~= spec_u32_to_le_bytes(time));
    assert(d.subrange(8, 12) =~= spec_u32_to_le_bytes(log_len(node)));
    assert(d.subrange(12, 16) =~= spec_u32_to_le_bytes(log_len(ident)));
    assert(d.subrange(16, 20) =~= spec_u32_to_le_bytes(log_len(tag)));
    assert(d.subrange(20, 24) =~= spec_u32_to_le_bytes(log_len(message)));
    assert(d.len() == 24 + nl + il + tl + ml);
    assert(d.subrange(24, 24 + nl) =~= log_str_bytes(node));
    assert(d.subrange(24 + nl, 24 + nl + il) =~= log_str_bytes(ident));
    assert(d.subrange(24 + nl + il, 24 + nl + il + tl) =~= log_str_bytes(tag));
    assert(d.subrange(24 + nl + il + tl, 24 + nl + il + tl + ml) =~= log_str_bytes(message));
    lemma_log_str_roundtrip(d, 24, node);
    lemma_log_str_roundtrip(d, 24 + nl, ident);
    lemma_log_str_roundtrip(d, 24 + nl + il, tag);
    lemma_log_str_roundtrip(d, 24 + nl + il + tl, message);
}

impl Message for KvStoreMessage {
    open spec fn spec_message_type(v: KvStoreMessageView) -> u16 {
        kv_message_type(v)
    }

    open spec fn spec_serialize(v: KvStoreMessageView) -> Seq<u8> {
        kv_bytes(v)
    }

    open spec fn spec_deserialize(message_type: u16, data: Seq<u8>) -> Result<KvStoreMessageView, WireError> {
        parse_kv(message_type, data)
    }

    open spec fn spec_roundtrips(v: KvStoreMessageView) -> bool {
        kv_roundtrips(v)
    }

    fn message_type(&self) -> (r: u16) {
        KvStoreMessage::message_type(self)
    }

    fn serialize(&self) -> (r: Vec<u8>) {
        KvStoreMessage::serialize(self)
    }

    fn deserialize(message_type: u16, data: &[u8]) -> (r: Result<KvStoreMessage, WireError>) {
        KvStoreMessage::deserialize(message_type, data)
    }

    proof fn lemma_roundtrip(v: KvStoreMessageView) {
        lemma_le_roundtrips();
        let d = kv_bytes(v);
        match v {
            KvStoreMessageView::Update { key, value } => {
                lemma_key_field_roundtrip(key, value);
                let kb = encode_utf8(key);
                assert(key_field(key).len() == 256);
                assert(d.skip(256) =~= value);
            },
            KvStoreMessageView::Log { time, priority, node, ident, tag, message } => {
                lemma_log_roundtrip(time, priority, node, ident, tag, message);
            },
            KvStoreMessageView::UpdateComplete => {},
        }
    }
}

} // verus!
