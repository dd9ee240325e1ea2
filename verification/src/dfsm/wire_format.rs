//! Wire format of file-system operation messages (header of five 32-bit fields,
//! then the NUL-terminated path, the NUL-terminated rename target and the data).

use vstd::prelude::*;
use vstd::bytes::*;
use vstd::utf8::*;
use vstd::slice::slice_subrange;
use crate::wire::{WireError, push_u32, push_bytes, read_u32, copy_range, len_field, lemma_le_roundtrips};
use crate::text::{string_from_utf8, nul_free, lemma_utf8_roundtrip, lemma_encode_nul_free};

verus! {

/// Largest total of path, target and data lengths that a message may announce.
pub const MAX_MESSAGE_SIZE: u32 = 16777216;

/// Size of the message header in bytes.
pub const CFUSE_HEADER_SIZE: usize = 20;

/// File-system operation codes.
#[derive(Debug, Clone, Copy, PartialEq, Eq, Structural)]
pub enum CMessageType {
    Write,
    Mkdir,
    Delete,
    Rename,
    Create,
    Mtime,
    UnlockRequest,
    Unlock,
}

/// Wire value of an operation code (1 to 8).
pub open spec fn cmsg_code(t: CMessageType) -> u16 {
    match t {
        CMessageType::Write => 1,
        CMessageType::Mkdir => 2,
        CMessageType::Delete => 3,
        CMessageType::Rename => 4,
        CMessageType::Create => 5,
        CMessageType::Mtime => 6,
        CMessageType::UnlockRequest => 7,
        CMessageType::Unlock => 8,
    }
}

/// Operation code of a wire value, if it names one.
pub open spec fn cmsg_of_code(v: u16) -> Option<CMessageType> {
    if v == 1 {
        Some(CMessageType::Write)
    } else if v == 2 {
        Some(CMessageType::Mkdir)
    } else if v == 3 {
        Some(CMessageType::Delete)
    } else if v == 4 {
        Some(CMessageType::Rename)
    } else if v == 5 {
        Some(CMessageType::Create)
    } else if v == 6 {
        Some(CMessageType::Mtime)
    } else if v == 7 {
        Some(CMessageType::UnlockRequest)
    } else if v == 8 {
        Some(CMessageType::Unlock)
    } else {
        None
    }
}

impl CMessageType {
    /// Wire value of this operation code.
    pub fn code(&self) -> (r: u16)
        ensures
            r == cmsg_code(*self),
    {
        match self {
            CMessageType::Write => 1,
            CMessageType::Mkdir => 2,
            CMessageType::Delete => 3,
            CMessageType::Rename => 4,
            CMessageType::Create => 5,
            CMessageType::Mtime => 6,
            CMessageType::UnlockRequest => 7,
            CMessageType::Unlock => 8,
        }
    }

    /// Operation code of a wire value; the value itself is returned when it names none.
    pub fn try_from(v: u16) -> (r: Result<CMessageType, u16>)
        ensures
            match r {
                Ok(t) => cmsg_of_code(v) == Some(t),
                Err(e) => cmsg_of_code(v) is None && e == v,
            },
    {
        if v == 1 {
            Ok(CMessageType::Write)
        } else if v == 2 {
            Ok(CMessageType::Mkdir)
        } else if v == 3 {
            Ok(CMessageType::Delete)
        } else if v == 4 {
            Ok(CMessageType::Rename)
        } else if v == 5 {
            Ok(CMessageType::Create)
        } else if v == 6 {
            Ok(CMessageType::Mtime)
        } else if v == 7 {
            Ok(CMessageType::UnlockRequest)
        } else if v == 8 {
            Ok(CMessageType::Unlock)
        } else {
            Err(v)
        }
    }
}

/// Parsed file-system operation message.
#[derive(Debug, Clone)]
pub struct CFuseMessage {
    pub size: u32,
    pub offset: u32,
    pub flags: u32,
    pub path: String,
    pub to: Option<String>,
    pub data: Vec<u8>,
}

/// Mathematical view of an operation message.
pub struct CFuseMessageView {
    pub size: u32,
    pub offset: u32,
    pub flags: u32,
    pub path: Seq<char>,
    pub to: Option<Seq<char>>,
    pub data: Seq<u8>,
}

impl View for CFuseMessage {
    type V = CFuseMessageView;

    open spec fn view(&self) -> CFuseMessageView {
        CFuseMessageView {
            size: self.size,
            offset: self.offset,
            flags: self.flags,
            path: self.path@,
            to: match self.to {
                Some(t) => Some(t@),
                None => None,
            },
            data: self.data@,
        }
    }
}

/// Position of the first zero byte at or after `i`, or the length when there is none.
pub open spec fn first_nul(b: Seq<u8>, i: int) -> int
    decreases b.len() - i,
{
    if i < 0 {
        first_nul(b, 0)
    } else if i >= b.len() {
        b.len() as int
    } else if b[i] == 0 {
        i
    } else {
        first_nul(b, i + 1)
    }
}

/// The C string at the start of a field: the text before the first zero byte.
pub open spec fn cstr_field(field: Seq<u8>) -> Result<Seq<char>, WireError> {
    let z = first_nul(field, 0);
    if z >= field.len() {
        Err(WireError::MissingNulTerminator)
    } else if !valid_utf8(field.subrange(0, z)) {
        Err(WireError::InvalidUtf8)
    } else {
        Ok(decode_utf8(field.subrange(0, z)))
    }
}

/// Length field of an optional string: zero when absent or empty, else bytes plus one.
pub open spec fn str_len_field(b: Seq<u8>) -> u32 {
    if b.len() == 0 {
        0
    } else {
        (b.len() + 1) as u32
    }
}

/// Bytes of the rename target (empty when absent).
pub open spec fn target_bytes(to: Option<Seq<char>>) -> Seq<u8> {
    match to {
        Some(t) => encode_utf8(t),
        None => Seq::empty(),
    }
}

/// A string field on the wire: its bytes and a zero byte, or nothing when its length field is zero.
pub open spec fn str_field_bytes(b: Seq<u8>) -> Seq<u8> {
    if str_len_field(b) > 0 {
        b + seq![0u8]
    } else {
        Seq::empty()
    }
}

/// Wire encoding of an operation message.
pub open spec fn cfuse_bytes(m: CFuseMessageView) -> Seq<u8> {
    let pb = encode_utf8(m.path);
    let tb = target_bytes(m.to);
    spec_u32_to_le_bytes(m.size) + spec_u32_to_le_bytes(m.offset) + spec_u32_to_le_bytes(
        str_len_field(pb),
    ) + spec_u32_to_le_bytes(str_len_field(tb)) + spec_u32_to_le_bytes(m.flags) + str_field_bytes(pb)
        + str_field_bytes(tb) + (if m.size > 0 {
        m.data
    } else {
        Seq::empty()
    })
}

/// Decoding of the data part once the header is read and the strings are parsed.
pub open spec fn parse_cfuse_data(
    b: Seq<u8>,
    size: u32,
    offset: u32,
    flags: u32,
    path: Seq<char>,
    to: Option<Seq<char>>,
    o3: int,
) -> Result<CFuseMessageView, WireError> {
    if o3 + size > b.len() {
        Err(WireError::LengthExceedsMessage)
    } else {
        Ok(
            CFuseMessageView {
                size,
                offset,
                flags,
                path,
                to,
                data: if size > 0 {
                    b.subrange(o3, o3 + size)
                } else {
                    Seq::empty()
                },
            },
        )
    }
}

/// Decoding of the rename target and data once the path is parsed.
pub open spec fn parse_cfuse_target(
    b: Seq<u8>,
    size: u32,
    offset: u32,
    flags: u32,
    tolen: u32,
    path: Seq<char>,
    o2: int,
) -> Result<CFuseMessageView, WireError> {
    if o2 + tolen > b.len() {
        Err(WireError::LengthExceedsMessage)
    } else if tolen > 0 {
        match cstr_field(b.subrange(o2, o2 + tolen)) {
            Err(e) => Err(e),
            Ok(t) => parse_cfuse_data(b, size, offset, flags, path, Some(t), o2 + tolen),
        }
    } else {
        parse_cfuse_data(b, size, offset, flags, path, None, o2)
    }
}

/// Decoding of the operation message wire format.
pub open spec fn parse_cfuse(b: Seq<u8>) -> Result<CFuseMessageView, WireError> {
    if b.len() < 20 {
        Err(WireError::TooShort)
    } else {
        let size = spec_u32_from_le_bytes(b.subrange(0, 4));
        let offset = spec_u32_from_le_bytes(b.subrange(4, 8));
        let pathlen = spec_u32_from_le_bytes(b.subrange(8, 12));
        let tolen = spec_u32_from_le_bytes(b.subrange(12, 16));
        let flags = spec_u32_from_le_bytes(b.subrange(16, 20));
        if pathlen + tolen + size > u32::MAX {
            Err(WireError::SizeOverflow)
        } else if pathlen + tolen + size > MAX_MESSAGE_SIZE {
            Err(WireError::MessageTooLarge)
        } else if 20 + pathlen > b.len() {
            Err(WireError::LengthExceedsMessage)
        } else if pathlen > 0 {
            match cstr_field(b.subrange(20, 20 + pathlen)) {
                Err(e) => Err(e),
                Ok(p) => parse_cfuse_target(b, size, offset, flags, tolen, p, 20 + pathlen),
            }
        } else {
            parse_cfuse_target(b, size, offset, flags, tolen, Seq::empty(), 20)
        }
    }
}

/// Messages that decode back from their encoding: strings without NUL characters,
/// no empty rename target, data of the announced size and lengths within the limit.
pub open spec fn cfuse_roundtrips(m: CFuseMessageView) -> bool {
    &&& !m.path.contains('\0')
    &&& m.to matches Some(t) ==> !t.contains('\0') && t.len() > 0
    &&& m.data.len() == m.size
    &&& field_len(encode_utf8(m.path)) + field_len(target_bytes(m.to)) + m.size <= MAX_MESSAGE_SIZE
}

/// Bytes a string field takes on the wire: none when empty, else its bytes and a zero byte.
pub open spec fn field_len(b: Seq<u8>) -> int {
    if b.len() == 0 {
        0int
    } else {
        b.len() + 1int
    }
}

/// Reads the C string at the start of `field`.
fn read_cstr(field: &[u8]) -> (r: Result<String, WireError>)
    ensures
        match r {
            Ok(s) => cstr_field(field@) == Ok::<Seq<char>, WireError>(s@),
            Err(e) => cstr_field(field@) == Err::<Seq<char>, WireError>(e),
        },
{
    let mut z: usize = 0;
    while z < field.len() && field[z] != 0
        invariant
            z <= field@.len(),
            first_nul(field@, 0) == first_nul(field@, z as int),
        decreases field@.len() - z,
    {
        z += 1;
    }
    if z >= field.len() {
        return Err(WireError::MissingNulTerminator);
    }
    match string_from_utf8(slice_subrange(field, 0, z)) {
        Some(s) => Ok(s),
        None => Err(WireError::InvalidUtf8),
    }
}

impl CFuseMessage {
    /// Parse an operation message from raw bytes.
    pub fn parse(data: &[u8]) -> (r: Result<CFuseMessage, WireError>)
        ensures
            crate::wire::view_result(r) == parse_cfuse(data@),
    {
        if data.len() < 20 {
            return Err(WireError::TooShort);
        }
        let size = read_u32(data, 0);
        let offset = read_u32(data, 4);
        let pathlen = read_u32(data, 8);
        let tolen = read_u32(data, 12);
        let flags = read_u32(data, 16);
        let total = pathlen as u64 + tolen as u64 + size as u64;
        if total > u32::MAX as u64 {
            return Err(WireError::SizeOverflow);
        }
        if total > MAX_MESSAGE_SIZE as u64 {
            return Err(WireError::MessageTooLarge);
        }
        let mut pos: usize = 20;
        if pos + pathlen as usize > data.len() {
            return Err(WireError::LengthExceedsMessage);
        }
        let path = if pathlen > 0 {
            let end = pos + pathlen as usize;
            let p = read_cstr(slice_subrange(data, pos, end));
            pos = end;
            match p {
                Ok(s) => s,
                Err(e) => return Err(e),
            }
        } else {
            String::new()
        };
        if pos + tolen as usize > data.len() {
            return Err(WireError::LengthExceedsMessage);
        }
        let to = if tolen > 0 {
            let end = pos + tolen as usize;
            let t = read_cstr(slice_subrange(data, pos, end));
            pos = end;
            match t {
                Ok(s) => Some(s),
                Err(e) => return Err(e),
            }
        } else {
            None
        };
        if pos + size as usize > data.len() {
            return Err(WireError::LengthExceedsMessage);
        }
        let buf_data = if size > 0 {
            copy_range(data, pos, pos + size as usize)
        } else {
            Vec::new()
        };
        let r = CFuseMessage { size, offset, flags, path, to, data: buf_data };
        assert(r@.to == parse_cfuse(data@)->Ok_0.to);
        Ok(r)
    }

    /// Serialize to the wire format.
    pub fn serialize(&self) -> (r: Vec<u8>)
        ensures
            r@ == cfuse_bytes(self@),
    {
        let path_bytes = self.path.as_str().as_bytes();
        let pathlen: u32 = if path_bytes.len() == 0 {
            0
        } else {
            len_field(path_bytes.len())
        };
        let empty: Vec<u8> = Vec::new();
        let to_bytes: &[u8] = match &self.to {
            Some(s) => s.as_str().as_bytes(),
            None => empty.as_slice(),
        };
        let tolen: u32 = if to_bytes.len() == 0 {
            0
        } else {
            len_field(to_bytes.len())
        };
        let mut result: Vec<u8> = Vec::new();
        push_u32(&mut result, self.size);
        push_u32(&mut result, self.offset);
        push_u32(&mut result, pathlen);
        push_u32(&mut result, tolen);
        push_u32(&mut result, self.flags);
        if pathlen > 0 {
            push_bytes(&mut result, path_bytes);
            result.push(0);
        }
        if tolen > 0 {
            push_bytes(&mut result, to_bytes);
            result.push(0);
        }
        if self.size > 0 {
            push_bytes(&mut result, self.data.as_slice());
        }
        assert(to_bytes@ == target_bytes(self@.to));
        assert(result@ =~= cfuse_bytes(self@));
        result
    }
}

/// The C string read back from a string written with its terminator.
proof fn lemma_cstr_roundtrip(s: Seq<char>, rest: Seq<u8>)
    requires
        !s.contains('\0'),
    ensures
        cstr_field(encode_utf8(s) + seq![0u8] + rest) == Ok::<Seq<char>, WireError>(s),
{
    lemma_encode_nul_free(s);
    lemma_utf8_roundtrip(s);
    let b = encode_utf8(s);
    let f = b + seq![0u8] + rest;
    assert forall|k: int| 0 <= k <= b.len() implies first_nul(f, k) == b.len() by {
        lemma_first_nul_skip(f, k, b.len() as int);
    }
    assert(f.subrange(0, b.len() as int) =~= b);
}

proof fn lemma_first_nul_skip(f: Seq<u8>, k: int, z: int)
    requires
        0 <= k <= z < f.len(),
        f[z] == 0,
        forall|i: int| 0 <= i < z ==> f[i] != 0,
    ensures
        first_nul(f, k) == z,
    decreases z - k,
{
    if k < z {
        lemma_first_nul_skip(f, k + 1, z);
    }
}

/// A non-empty string has a non-empty encoding.
proof fn lemma_encode_nonempty(s: Seq<char>)
    requires
        s.len() > 0,
    ensures
        encode_utf8(s).len() > 0,
{
    lemma_utf8_roundtrip(s);
    if encode_utf8(s).len() == 0 {
        assert(encode_utf8(s) =~= Seq::<u8>::empty());
        assert(decode_utf8(Seq::<u8>::empty()) =~= Seq::<char>::empty());
    }
}

/// Decoding the encoding of an operation message gives it back.
pub proof fn lemma_cfuse_roundtrip(m: CFuseMessageView)
    requires
        cfuse_roundtrips(m),
    ensures
        parse_cfuse(cfuse_bytes(m)) == Ok::<CFuseMessageView, WireError>(m),
{
    lemma_le_roundtrips();
    let pb = encode_utf8(m.path);
    let tb = target_bytes(m.to);
    let b = cfuse_bytes(m);
    let pf = str_field_bytes(pb);
    let tf = str_field_bytes(tb);
    let df = if m.size > 0 { m.data } else { Seq::<u8>::empty() };
    let head = spec_u32_to_le_bytes(m.size) + spec_u32_to_le_bytes(m.offset) + spec_u32_to_le_bytes(
        str_len_field(pb),
    ) + spec_u32_to_le_bytes(str_len_field(tb)) + spec_u32_to_le_bytes(m.flags);
    assert(b =~= head + pf + tf + df);
    assert(b.subrange(0, 4) =~= spec_u32_to_le_bytes(m.size));
    assert(b.subrange(4, 8) =~= spec_u32_to_le_bytes(m.offset));
    assert(b.subrange(8, 12) =~= spec_u32_to_le_bytes(str_len_field(pb)));
    assert(b.subrange(12, 16) =~= spec_u32_to_le_bytes(str_len_field(tb)));
    assert(b.subrange(16, 20) =~= spec_u32_to_le_bytes(m.flags));
    assert(pf.len() == str_len_field(pb));
    assert(tf.len() == str_len_field(tb));
    if let Some(t) = m.to {
        lemma_encode_nonempty(t);
    }
    let o2: int = 20 + pf.len() as int;
    let o3: int = o2 + tf.len() as int;
    if pb.len() > 0 {
        lemma_cstr_roundtrip(m.path, Seq::<u8>::empty());
        assert(b.subrange(20, o2) =~= pb + seq![0u8] + Seq::<u8>::empty());
    } else {
        lemma_utf8_roundtrip(m.path);
        assert(pb =~= Seq::<u8>::empty());
        assert(m.path =~= decode_utf8(Seq::<u8>::empty()));
    }
    if tb.len() > 0 {
        let t = m.to->Some_0;
        lemma_cstr_roundtrip(t, Seq::<u8>::empty());
        assert(b.subrange(o2, o3) =~= tb + seq![0u8] + Seq::<u8>::empty());
    }
    if m.size > 0 {
        assert(b.subrange(o3, o3 + m.size) =~= m.data);
    } else {
        assert(m.data =~= Seq::<u8>::empty());
    }
    let p = parse_cfuse(b)->Ok_0;
    assert(p.data =~= m.data);
}

} // verus!
