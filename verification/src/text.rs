//! Text helpers: UTF-8 decoding of byte ranges and facts about UTF-8 encodings.

use vstd::prelude::*;
use vstd::utf8::*;

verus! {

broadcast use vstd::utf8::group_utf8_lib;

/// UTF-8 validation of a byte slice.
///
/// Calls `std::str::from_utf8`, whose documentation promises `Ok` exactly when
/// the bytes are valid UTF-8, and then a string slice holding exactly those bytes.
#[verifier::external_body]
fn str_from_utf8(bytes: &[u8]) -> (r: Option<&str>)
    ensures
        r is Some <==> valid_utf8(bytes@),
        r matches Some(s) ==> s@ == decode_utf8(bytes@),
{
    std::str::from_utf8(bytes).ok()
}

/// Decodes `bytes` as UTF-8 into an owned string; `None` when they are not valid UTF-8.
pub fn string_from_utf8(bytes: &[u8]) -> (r: Option<String>)
    ensures
        r is Some <==> valid_utf8(bytes@),
        r matches Some(s) ==> s@ == decode_utf8(bytes@),
{
    match str_from_utf8(bytes) {
        Some(s) => Some(s.to_owned()),
        None => None,
    }
}

/// The UTF-8 bytes of a string.
pub open spec fn utf8_bytes(s: Seq<char>) -> Seq<u8> {
    encode_utf8(s)
}

/// A byte sequence holds no zero byte.
pub open spec fn nul_free(b: Seq<u8>) -> bool {
    forall|i: int| 0 <= i < b.len() ==> b[i] != 0
}

/// A byte sequence is plain 7-bit ASCII.
pub open spec fn all_ascii(b: Seq<u8>) -> bool {
    forall|i: int| 0 <= i < b.len() ==> b[i] < 128
}

/// Encoding then decoding gives the characters back, and encodings are valid UTF-8.
pub proof fn lemma_utf8_roundtrip(s: Seq<char>)
    ensures
        valid_utf8(encode_utf8(s)),
        decode_utf8(encode_utf8(s)) == s,
{
}

/// The encoding of a string without NUL characters holds no zero byte.
pub proof fn lemma_encode_nul_free(s: Seq<char>)
    requires
        !s.contains('\0'),
    ensures
        nul_free(encode_utf8(s)),
    decreases s.len(),
{
    if s.len() > 0 {
        let c = s[0] as u32;
        char_is_scalar(s[0]);
        assert(s[0] != '\0');
        assert(c != 0) by {
            if c == 0 {
                char_u32_cast(s[0], c);
                assert((0u32 as char) == '\0');
            }
        }
        let rest = s.drop_first();
        assert(!rest.contains('\0')) by {
            if rest.contains('\0') {
                let i = choose|i: int| 0 <= i < rest.len() && rest[i] == '\0';
                assert(s[i + 1] == '\0');
            }
        }
        lemma_encode_nul_free(rest);
        lemma_scalar_nul_free(c);
        let e = encode_scalar(c);
        let t = encode_utf8(rest);
        assert(encode_utf8(s) == e + t);
        assert forall|i: int| 0 <= i < (e + t).len() implies (e + t)[i] != 0 by {
            if i < e.len() {
            } else {
                assert((e + t)[i] == t[i - e.len()]);
            }
        }
    }
}

proof fn lemma_scalar_nul_free(c: u32)
    requires
        c != 0,
        is_scalar(c),
    ensures
        nul_free(encode_scalar(c)),
{
    assert(c != 0 && c <= 0x7f ==> (c & 0x7f) as u8 != 0) by (bit_vector);
    assert(forall|x: u32| #![auto] (0xC0u8 | ((x >> 6) & 0x1F) as u8) != 0) by (bit_vector);
    assert(forall|x: u32| #![auto] (0xE0u8 | ((x >> 12) & 0x0F) as u8) != 0) by (bit_vector);
    assert(forall|x: u32| #![auto] (0xF0u8 | ((x >> 18) & 0x7) as u8) != 0) by (bit_vector);
    assert(forall|x: u32| #![auto] (0x80u8 | (x & 0x3F) as u8) != 0) by (bit_vector);
    assert(forall|x: u32| #![auto] (0x80u8 | ((x >> 6) & 0x3F) as u8) != 0) by (bit_vector);
    assert(forall|x: u32| #![auto] (0x80u8 | ((x >> 12) & 0x3F) as u8) != 0) by (bit_vector);
}

/// An ASCII byte sequence is valid UTF-8.
pub proof fn lemma_ascii_valid_utf8(b: Seq<u8>)
    requires
        all_ascii(b),
    ensures
        valid_utf8(b),
    decreases b.len(),
{
    if b.len() > 0 {
        assert(is_leading_byte_width_1(b[0]));
        assert(pop_first_scalar(b) =~= b.drop_first());
        lemma_ascii_valid_utf8(b.drop_first());
    }
}

/// Turns a vector of ASCII bytes into a string with exactly those bytes.
pub fn ascii_to_string(b: &Vec<u8>) -> (r: String)
    requires
        all_ascii(b@),
    ensures
        encode_utf8(r@) == b@,
{
    proof {
        lemma_ascii_valid_utf8(b@);
    }
    match string_from_utf8(b.as_slice()) {
        Some(s) => s,
        None => String::new(),
    }
}

} // verus!
