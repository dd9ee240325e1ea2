//! SHA-256 digests and the native byte order that entry digests are computed in.

use vstd::prelude::*;
use vstd::bytes::*;
use crate::wire::push_bytes;

verus! {

/// The SHA-256 digest of a byte string (FIPS 180-4), as computed by the `sha2` crate.
pub uninterp spec fn sha256_spec(data: Seq<u8>) -> Seq<u8>;

/// `sha2::Sha256::digest`: the 32-byte SHA-256 digest of `data`.
///
/// Claimed: the result is `sha256_spec` of the input, a function of the bytes alone.
#[verifier::external_body]
fn sha256_digest(data: &[u8]) -> (r: [u8; 32])
    ensures
        r@ == sha256_spec(data@),
{
    <sha2::Sha256 as sha2::Digest>::digest(data).into()
}

/// SHA-256 digest of a byte string.
pub fn sha256(data: &[u8]) -> (r: [u8; 32])
    ensures
        r@ == sha256_spec(data@),
{
    sha256_digest(data)
}

/// Byte order of integers in memory.
#[derive(Debug, Clone, Copy, PartialEq, Eq, Structural)]
pub enum ByteOrder {
    Little,
    Big,
}

/// `u16::to_ne_bytes` of one: `[1, 0]` on a little-endian machine, `[0, 1]` on a big-endian one.
#[verifier::external_body]
fn one_ne_bytes() -> (r: [u8; 2])
    ensures
        r@ == seq![1u8, 0u8] || r@ == seq![0u8, 1u8],
{
    1u16.to_ne_bytes()
}

/// The byte order of this machine.
pub fn native_byte_order() -> ByteOrder {
    let b = one_ne_bytes();
    if b[0] == 1 {
        ByteOrder::Little
    } else {
        ByteOrder::Big
    }
}

/// Memory representation of a `u64` in the given byte order.
pub open spec fn ne_u64(o: ByteOrder, x: u64) -> Seq<u8> {
    match o {
        ByteOrder::Little => spec_u64_to_le_bytes(x),
        ByteOrder::Big => spec_u64_to_le_bytes(x).reverse(),
    }
}

/// Memory representation of a `u32` in the given byte order.
pub open spec fn ne_u32(o: ByteOrder, x: u32) -> Seq<u8> {
    match o {
        ByteOrder::Little => spec_u32_to_le_bytes(x),
        ByteOrder::Big => spec_u32_to_le_bytes(x).reverse(),
    }
}

/// Appends `b`, reversed when the order is big-endian.
fn push_ordered(buf: &mut Vec<u8>, b: &Vec<u8>, o: ByteOrder)
    ensures
        final(buf)@ == old(buf)@ + (match o {
            ByteOrder::Little => b@,
            ByteOrder::Big => b@.reverse(),
        }),
{
    match o {
        ByteOrder::Little => push_bytes(buf, b.as_slice()),
        ByteOrder::Big => {
            let ghost start = buf@;
            let n = b.len();
            let mut i: usize = n;
            while i > 0
                invariant
                    i <= n == b@.len(),
                    buf@ == start + b@.reverse().take((n - i) as int),
                decreases i,
            {
                i -= 1;
                buf.push(b[i]);
                assert(b@.reverse().take((n - i) as int) =~= b@.reverse().take((n - i - 1) as int).push(b@[i as int]));
            }
            assert(b@.reverse().take(n as int) =~= b@.reverse());
        },
    }
}

/// Appends the memory representation of a `u64`.
pub fn push_ne_u64(buf: &mut Vec<u8>, x: u64, o: ByteOrder)
    ensures
        final(buf)@ == old(buf)@ + ne_u64(o, x),
{
    let b = u64_to_le_bytes(x);
    push_ordered(buf, &b, o);
}

/// Appends the memory representation of a `u32`.
pub fn push_ne_u32(buf: &mut Vec<u8>, x: u32, o: ByteOrder)
    ensures
        final(buf)@ == old(buf)@ + ne_u32(o, x),
{
    let b = u32_to_le_bytes(x);
    push_ordered(buf, &b, o);
}

} // verus!
