//! Little-endian integer encoding and byte-buffer helpers shared by all wire formats.

use vstd::prelude::*;
use vstd::bytes::*;
use vstd::slice::*;

verus! {

/// Appends the little-endian encoding of a `u16`.
pub fn push_u16(buf: &mut Vec<u8>, x: u16)
    ensures
        final(buf)@ == old(buf)@ + spec_u16_to_le_bytes(x),
{
    let mut b = u16_to_le_bytes(x);
    buf.append(&mut b);
}

/// Appends the little-endian encoding of a `u32`.
pub fn push_u32(buf: &mut Vec<u8>, x: u32)
    ensures
        final(buf)@ == old(buf)@ + spec_u32_to_le_bytes(x),
{
    let mut b = u32_to_le_bytes(x);
    buf.append(&mut b);
}

/// Appends the little-endian encoding of a `u64`.
pub fn push_u64(buf: &mut Vec<u8>, x: u64)
    ensures
        final(buf)@ == old(buf)@ + spec_u64_to_le_bytes(x),
{
    let mut b = u64_to_le_bytes(x);
    buf.append(&mut b);
}

/// Appends a copy of `bytes`.
pub fn push_bytes(buf: &mut Vec<u8>, bytes: &[u8])
    ensures
        final(buf)@ == old(buf)@ + bytes@,
{
    let mut b = slice_to_vec(bytes);
    buf.append(&mut b);
}

/// Reads a little-endian `u16` at `off`.
pub fn read_u16(data: &[u8], off: usize) -> (r: u16)
    requires
        off + 2 <= data@.len(),
    ensures
        r == spec_u16_from_le_bytes(data@.subrange(off as int, off + 2)),
{
    let _n = data.len();
    u16_from_le_bytes(slice_subrange(data, off, off + 2))
}

/// Reads a little-endian `u32` at `off`.
pub fn read_u32(data: &[u8], off: usize) -> (r: u32)
    requires
        off + 4 <= data@.len(),
    ensures
        r == spec_u32_from_le_bytes(data@.subrange(off as int, off + 4)),
{
    let _n = data.len();
    u32_from_le_bytes(slice_subrange(data, off, off + 4))
}

/// Reads a little-endian `u64` at `off`.
pub fn read_u64(data: &[u8], off: usize) -> (r: u64)
    requires
        off + 8 <= data@.len(),
    ensures
        r == spec_u64_from_le_bytes(data@.subrange(off as int, off + 8)),
{
    let _n = data.len();
    u64_from_le_bytes(slice_subrange(data, off, off + 8))
}

/// Copies `data[from..to]` into a new vector.
pub fn copy_range(data: &[u8], from: usize, to: usize) -> (r: Vec<u8>)
    requires
        from <= to <= data@.len(),
    ensures
        r@ == data@.subrange(from as int, to as int),
{
    slice_to_vec(slice_subrange(data, from, to))
}

/// The little-endian codecs of vstd are inverse to each other.
pub proof fn lemma_le_roundtrips()
    ensures
        forall|x: u16| #[trigger] spec_u16_to_le_bytes(x).len() == 2 && spec_u16_from_le_bytes(spec_u16_to_le_bytes(x)) == x,
        forall|x: u32| #[trigger] spec_u32_to_le_bytes(x).len() == 4 && spec_u32_from_le_bytes(spec_u32_to_le_bytes(x)) == x,
        forall|x: u64| #[trigger] spec_u64_to_le_bytes(x).len() == 8 && spec_u64_from_le_bytes(spec_u64_to_le_bytes(x)) == x,
{
    lemma_auto_spec_u16_to_from_le_bytes();
    lemma_auto_spec_u32_to_from_le_bytes();
    lemma_auto_spec_u64_to_from_le_bytes();
}

} // verus!

verus! {

/// Errors of the wire-format decoders.
#[derive(Debug, Clone, Copy, PartialEq, Eq, Structural)]
pub enum WireError {
    /// The input ends before a required field.
    TooShort,
    /// A message type value that names no message type.
    InvalidMessageType(u16),
    /// A tree entry type that is neither a directory nor a regular file.
    InvalidEntryType(u8),
    /// A name field whose last byte is not zero.
    NameNotNullTerminated,
    /// A C string without terminating zero byte.
    MissingNulTerminator,
    /// Bytes that are not valid UTF-8.
    InvalidUtf8,
    /// Length fields whose sum overflows.
    SizeOverflow,
    /// A message larger than the protocol allows.
    MessageTooLarge,
    /// A length field that points past the end of the message.
    LengthExceedsMessage,
    /// A total length that differs from the one the header announces.
    SizeMismatch,
    /// A length field of zero where at least the terminator is required.
    ZeroLength,
    /// A log priority outside 0 to 7.
    InvalidPriority(u8),
    /// A ring buffer position outside the buffer.
    InvalidPosition,
}

/// Human-readable description of a decoding error.
pub open spec fn wire_error_text(x: WireError) -> Seq<char> {
    match x {
        WireError::TooShort => "message too short"@,
        WireError::InvalidMessageType(_) => "Invalid message type"@,
        WireError::InvalidEntryType(_) => "Invalid entry type"@,
        WireError::NameNotNullTerminated => "Name not null-terminated"@,
        WireError::MissingNulTerminator => "string not null-terminated"@,
        WireError::InvalidUtf8 => "Invalid UTF-8"@,
        WireError::SizeOverflow => "Integer overflow in message size calculation"@,
        WireError::MessageTooLarge => "Message size exceeds maximum"@,
        WireError::LengthExceedsMessage => "length exceeds message size"@,
        WireError::SizeMismatch => "size mismatch"@,
        WireError::ZeroLength => "length field is zero"@,
        WireError::InvalidPriority(_) => "Invalid priority (must be 0-7)"@,
        WireError::InvalidPosition => "Invalid position"@,
    }
}

impl WireError {
    /// Human-readable description of the error.
    pub fn to_string(&self) -> (r: String)
        ensures
            r@ == wire_error_text(*self),
    {
        match self {
            WireError::TooShort => "message too short".to_owned(),
            WireError::InvalidMessageType(_) => "Invalid message type".to_owned(),
            WireError::InvalidEntryType(_) => "Invalid entry type".to_owned(),
            WireError::NameNotNullTerminated => "Name not null-terminated".to_owned(),
            WireError::MissingNulTerminator => "string not null-terminated".to_owned(),
            WireError::InvalidUtf8 => "Invalid UTF-8".to_owned(),
            WireError::SizeOverflow => "Integer overflow in message size calculation".to_owned(),
            WireError::MessageTooLarge => "Message size exceeds maximum".to_owned(),
            WireError::LengthExceedsMessage => "length exceeds message size".to_owned(),
            WireError::SizeMismatch => "size mismatch".to_owned(),
            WireError::ZeroLength => "length field is zero".to_owned(),
            WireError::InvalidPriority(_) => "Invalid priority (must be 0-7)".to_owned(),
            WireError::InvalidPosition => "Invalid position".to_owned(),
        }
    }
}

/// A decoded result, with the value taken by its view.
pub open spec fn view_result<T: View, E>(r: Result<T, E>) -> Result<T::V, E> {
    match r {
        Ok(t) => Ok(t@),
        Err(e) => Err(e),
    }
}

} // verus!

verus! {

/// A C-style length field: byte length plus one for the terminating zero, kept to 32 bits.
pub fn len_field(n: usize) -> (r: u32)
    ensures
        r == ((n + 1) as u32),
{
    let t = n as u32;
    let r: u32 = if t == 0xffff_ffff { 0 } else { t + 1 };
    assert(r == ((n + 1) as u32)) by (bit_vector)
        requires
            t == n as u32,
            r == (if t == 0xffff_ffffu32 { 0u32 } else { (t + 1) as u32 }),
    ;
    r
}

} // verus!
