//! FNV-1a 64-bit hash of byte strings, used for node and ident digests.

use vstd::prelude::*;

verus! {

/// FNV-1a 64-bit initial basis.
pub const FNV1A_64_INIT: u64 = 0xcbf29ce484222325;

/// FNV 64-bit prime.
pub const FNV_64_PRIME: u64 = 0x100000001b3;

/// One FNV-1a step: xor the byte in, then multiply by the prime (modulo 2^64).
pub open spec fn fnv_step(h: u64, b: u8) -> u64 {
    (((h ^ (b as u64)) as nat * FNV_64_PRIME as nat) % 0x1_0000_0000_0000_0000nat) as u64
}

/// FNV-1a hash of `data` starting from `init`.
pub open spec fn fnv_spec(data: Seq<u8>, init: u64) -> u64
    decreases data.len(),
{
    if data.len() == 0 {
        init
    } else {
        fnv_step(fnv_spec(data.drop_last(), init), data.last())
    }
}

/// Multiplication by the prime, modulo 2^64.
fn mul_prime(h: u64) -> (r: u64)
    ensures
        r == ((h as nat * FNV_64_PRIME as nat) % 0x1_0000_0000_0000_0000nat) as u64,
{
    h.wrapping_mul(FNV_64_PRIME)
}

/// FNV-1a hash of `data` starting from `init`.
pub fn fnv_64a(data: &[u8], init: u64) -> (r: u64)
    ensures
        r == fnv_spec(data@, init),
{
    let mut h = init;
    let mut i: usize = 0;
    while i < data.len()
        invariant
            i <= data@.len(),
            h == fnv_spec(data@.take(i as int), init),
        decreases data@.len() - i,
    {
        assert(data@.take(i + 1).drop_last() =~= data@.take(i as int));
        h = mul_prime(h ^ (data[i] as u64));
        i += 1;
    }
    assert(data@.take(i as int) =~= data@);
    h
}

/// FNV-1a hash of a string's bytes followed by its NUL terminator.
pub fn fnv_64a_str(s: &str) -> (r: u64)
    ensures
        r == fnv_spec(vstd::utf8::encode_utf8(s@).push(0u8), FNV1A_64_INIT),
{
    let h = fnv_64a(s.as_bytes(), FNV1A_64_INIT);
    let r = mul_prime(h);
    proof {
        let b = vstd::utf8::encode_utf8(s@);
        assert(b.push(0u8).drop_last() =~= b);
        assert(h ^ 0u64 == h) by (bit_vector);
    }
    r
}

/// Hashing `a` then `b` from the hash of `a` is hashing `a + b`.
pub proof fn lemma_fnv_chain(a: Seq<u8>, b: Seq<u8>, init: u64)
    ensures
        fnv_spec(b, fnv_spec(a, init)) == fnv_spec(a + b, init),
    decreases b.len(),
{
    if b.len() == 0 {
        assert(a + b =~= a);
    } else {
        lemma_fnv_chain(a, b.drop_last(), init);
        assert((a + b).drop_last() =~= a + b.drop_last());
    }
}

} // verus!
