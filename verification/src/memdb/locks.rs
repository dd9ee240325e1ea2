//! Lock paths: locks are directories below `priv/lock`, cached by their key `priv/lock/<name>`.

use vstd::prelude::*;
use vstd::utf8::*;
use crate::memdb::path::{SLASH, trim_start, starts_with, trim_leading_slashes};
use crate::memdb::database::{lock_dir_bytes, lock_prefix_bytes, lock_dir_vec, is_lock_dir_path};
use crate::text::{string_from_utf8, all_ascii, lemma_ascii_valid_utf8};
use crate::wire::push_bytes;

verus! {

broadcast use vstd::utf8::group_utf8_lib;

/// Dropping leading slashes from valid UTF-8 leaves valid UTF-8.
pub proof fn lemma_valid_after_slashes(p: Seq<u8>, a: int)
    requires
        valid_utf8(p),
        0 <= a <= p.len(),
        forall|i: int| 0 <= i < a ==> p[i] == SLASH,
    ensures
        valid_utf8(p.subrange(a, p.len() as int)),
    decreases a,
{
    if a == 0 {
        assert(p.subrange(0, p.len() as int) =~= p);
    } else {
        lemma_valid_after_slashes(p, a - 1);
        let q = p.subrange(a - 1, p.len() as int);
        assert(q[0] == SLASH);
        assert(is_leading_byte_width_1(q[0]));
        assert(pop_first_scalar(q) =~= q.drop_first());
        assert(q.drop_first() =~= p.subrange(a, p.len() as int));
    }
}

proof fn lemma_trim_start_suffix(p: Seq<u8>)
    ensures
        exists|a: int| 0 <= a <= p.len() && (forall|i: int| 0 <= i < a ==> p[i] == SLASH) && trim_start(p) == p.subrange(a, p.len() as int),
    decreases p.len(),
{
    if p.len() > 0 && p[0] == SLASH {
        lemma_trim_start_suffix(p.drop_first());
        let a = choose|a: int| 0 <= a <= p.drop_first().len() && (forall|i: int| 0 <= i < a ==> p.drop_first()[i] == SLASH) && trim_start(p.drop_first()) == p.drop_first().subrange(a, p.drop_first().len() as int);
        assert(p.drop_first().subrange(a, p.drop_first().len() as int) =~= p.subrange(a + 1, p.len() as int));
        assert(forall|i: int| 0 <= i < a + 1 ==> p[i] == SLASH) by {
            assert forall|i: int| 0 <= i < a + 1 implies p[i] == SLASH by {
                if i > 0 {
                    assert(p[i] == p.drop_first()[i - 1]);
                }
            }
        }
    } else {
        assert(p.subrange(0, p.len() as int) =~= p);
    }
}

/// The path without leading slashes is valid UTF-8 when the path is.
pub proof fn lemma_trim_start_valid(p: Seq<u8>)
    requires
        valid_utf8(p),
    ensures
        valid_utf8(trim_start(p)),
{
    lemma_trim_start_suffix(p);
    let a = choose|a: int| 0 <= a <= p.len() && (forall|i: int| 0 <= i < a ==> p[i] == SLASH) && trim_start(p) == p.subrange(a, p.len() as int);
    lemma_valid_after_slashes(p, a);
}

/// Lock cache key of a path, as bytes: the path without leading slashes when it starts
/// with `priv/lock`, else that path below `priv/lock/`.
pub open spec fn lock_key_bytes(p: Seq<u8>) -> Seq<u8> {
    let t = trim_start(p);
    if t.len() >= 9 && t.subrange(0, 9) == lock_dir_bytes() {
        t
    } else {
        lock_prefix_bytes() + t
    }
}

/// Whether a path names something inside the lock directory (with or without leading slash).
pub fn is_lock_path(path: &str) -> (r: bool)
    ensures
        r == is_lock_dir_path(encode_utf8(path@)),
{
    let t = trim_leading_slashes(path.as_bytes());
    let mut prefix = lock_dir_vec();
    prefix.push(SLASH);
    assert(prefix@ =~= lock_prefix_bytes());
    starts_with(t.as_slice(), prefix.as_slice()) && t.len() > 10
}

/// Lock cache key of a path.
pub fn lock_cache_key(path: &str) -> (r: String)
    ensures
        encode_utf8(r@) == lock_key_bytes(encode_utf8(path@)),
{
    let p = path.as_bytes();
    let t = trim_leading_slashes(p);
    let lock_dir = lock_dir_vec();
    let mut key: Vec<u8> = Vec::new();
    proof {
        lemma_trim_start_valid(p@);
    }
    if !starts_with(t.as_slice(), lock_dir.as_slice()) {
        push_bytes(&mut key, lock_dir.as_slice());
        key.push(SLASH);
        proof {
            assert(key@ =~= lock_prefix_bytes());
            assert(all_ascii(key@));
            lemma_ascii_valid_utf8(key@);
        }
    }
    let ghost head = key@;
    push_bytes(&mut key, t.as_slice());
    assert(key@ =~= lock_key_bytes(p@)) by {
        if head.len() == 0 {
            assert(key@ =~= t@);
        }
    }
    proof {
        if head.len() > 0 {
            valid_utf8_concat(head, t@);
        } else {
            assert(key@ =~= t@);
        }
    }
    match string_from_utf8(key.as_slice()) {
        Some(s) => {
            proof {
                decode_utf8_encode_utf8(key@);
            }
            s
        },
        None => String::new(),
    }
}

/// Lock cache key of a path and the absolute path of its lock directory.
pub fn lock_paths(path: &str) -> (r: (String, String))
    ensures
        encode_utf8(r.0@) == lock_key_bytes(encode_utf8(path@)),
        r.1@ == seq!['/'] + r.0@,
{
    let key = lock_cache_key(path);
    let mut full = String::new();
    full.append("/");
    full.append(key.as_str());
    proof {
        reveal_strlit("/");
    }
    assert(full@ =~= seq!['/'] + key@);
    (key, full)
}

} // verus!
