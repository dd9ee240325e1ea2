//! Database paths as byte strings: components, normalization, parent and base name.

use vstd::prelude::*;
use crate::wire::{copy_range, push_bytes};

verus! {

/// The byte of `/`.
pub const SLASH: u8 = 47;

/// The byte of `.`.
pub const DOT: u8 = 46;

/// Paths that name the root directory: empty, `/` and `.`.
pub open spec fn is_root_alias(p: Seq<u8>) -> bool {
    p.len() == 0 || p == seq![SLASH] || p == seq![DOT]
}

/// Non-empty segments between slashes, scanning from `i` with the current segment starting at `start`.
pub open spec fn comps_scan(p: Seq<u8>, i: int, start: int) -> Seq<Seq<u8>>
    decreases p.len() - i,
{
    if i >= p.len() {
        if 0 <= start < p.len() {
            seq![p.subrange(start, p.len() as int)]
        } else {
            Seq::empty()
        }
    } else if i < 0 {
        Seq::empty()
    } else if p[i] == SLASH {
        (if start < i {
            seq![p.subrange(start, i)]
        } else {
            Seq::<Seq<u8>>::empty()
        }) + comps_scan(p, i + 1, i + 1)
    } else {
        comps_scan(p, i + 1, start)
    }
}

/// The non-empty segments of a path between slashes.
pub open spec fn components(p: Seq<u8>) -> Seq<Seq<u8>> {
    comps_scan(p, 0, 0)
}

/// Views of a vector of byte vectors.
pub open spec fn byte_views(v: Seq<Vec<u8>>) -> Seq<Seq<u8>> {
    v.map_values(|x: Vec<u8>| x@)
}

/// Splits a path into its non-empty segments between slashes.
pub fn split_components(p: &[u8]) -> (r: Vec<Vec<u8>>)
    ensures
        byte_views(r@) == components(p@),
{
    let mut acc: Vec<Vec<u8>> = Vec::new();
    let mut start: usize = 0;
    let mut i: usize = 0;
    while i < p.len()
        invariant
            start <= i <= p@.len(),
            byte_views(acc@) + comps_scan(p@, i as int, start as int) == components(p@),
        decreases p@.len() - i,
    {
        if p[i] == SLASH {
            if start < i {
                let c = copy_range(p, start, i);
                let ghost before = acc@;
                acc.push(c);
                assert(byte_views(acc@) =~= byte_views(before) + seq![p@.subrange(start as int, i as int)]);
            }
            assert(byte_views(acc@) + comps_scan(p@, i + 1, i + 1) =~= components(p@));
            start = i + 1;
        }
        i += 1;
    }
    if start < p.len() {
        let c = copy_range(p, start, p.len());
        let ghost before = acc@;
        acc.push(c);
        assert(byte_views(acc@) =~= byte_views(before) + seq![p@.subrange(start as int, p@.len() as int)]);
    }
    assert(byte_views(acc@) =~= components(p@));
    acc
}

/// The path without leading slashes.
pub open spec fn trim_start(p: Seq<u8>) -> Seq<u8>
    decreases p.len(),
{
    if p.len() > 0 && p[0] == SLASH {
        trim_start(p.drop_first())
    } else {
        p
    }
}

/// The path without trailing slashes.
pub open spec fn trim_end(p: Seq<u8>) -> Seq<u8>
    decreases p.len(),
{
    if p.len() > 0 && p.last() == SLASH {
        trim_end(p.drop_last())
    } else {
        p
    }
}

/// Normal form of a path: a single leading slash and no trailing one (`/` for the root).
pub open spec fn normalized(p: Seq<u8>) -> Seq<u8> {
    let t = trim_end(trim_start(p));
    if is_root_alias(p) || t.len() == 0 {
        seq![SLASH]
    } else {
        seq![SLASH] + t
    }
}

/// Position of the last slash at or before `i` (-1 when there is none).
pub open spec fn last_slash(q: Seq<u8>, i: int) -> int
    decreases i + 1,
{
    if i < 0 || i >= q.len() {
        -1
    } else if q[i] == SLASH {
        i
    } else {
        last_slash(q, i - 1)
    }
}

/// Parent directory of a path: the normal form up to its last slash (`/` when that is the first byte).
pub open spec fn dirname(p: Seq<u8>) -> Seq<u8> {
    let q = normalized(p);
    let pos = last_slash(q, q.len() - 1);
    if pos <= 0 {
        seq![SLASH]
    } else {
        q.subrange(0, pos)
    }
}

/// Last segment of a path: the normal form after its last slash (empty for the root).
pub open spec fn basename(p: Seq<u8>) -> Seq<u8> {
    let q = normalized(p);
    let pos = last_slash(q, q.len() - 1);
    q.subrange(pos + 1, q.len() as int)
}

/// Whether the path names the root directory.
pub fn is_root_alias_exec(p: &[u8]) -> (r: bool)
    ensures
        r == is_root_alias(p@),
{
    if p.len() == 0 {
        return true;
    }
    if p.len() == 1 && (p[0] == SLASH || p[0] == DOT) {
        assert(p@ =~= seq![p[0]]);
        return true;
    }
    assert(p@.len() == 1 ==> p@ != seq![SLASH] && p@ != seq![DOT]);
    false
}

/// Index of the first byte that is not a slash.
fn first_non_slash(p: &[u8]) -> (a: usize)
    ensures
        a <= p@.len(),
        trim_start(p@) == p@.subrange(a as int, p@.len() as int),
{
    let mut a: usize = 0;
    assert(p@.subrange(0, p@.len() as int) =~= p@);
    while a < p.len() && p[a] == SLASH
        invariant
            a <= p@.len(),
            trim_start(p@) == trim_start(p@.subrange(a as int, p@.len() as int)),
        decreases p@.len() - a,
    {
        assert(p@.subrange(a as int, p@.len() as int).drop_first() =~= p@.subrange(a + 1, p@.len() as int));
        a += 1;
    }
    if a < p.len() {
        assert(p@.subrange(a as int, p@.len() as int)[0] == p@[a as int]);
    } else {
        assert(p@.subrange(a as int, p@.len() as int).len() == 0);
    }
    a
}

/// Index after the last byte that is not a slash, scanning down to `a`.
fn end_non_slash(p: &[u8], a: usize) -> (b: usize)
    requires
        a <= p@.len(),
    ensures
        a <= b <= p@.len(),
        trim_end(p@.subrange(a as int, p@.len() as int)) == p@.subrange(a as int, b as int),
{
    let mut b: usize = p.len();
    while b > a && p[b - 1] == SLASH
        invariant
            a <= b <= p@.len(),
            trim_end(p@.subrange(a as int, p@.len() as int)) == trim_end(p@.subrange(a as int, b as int)),
        decreases b,
    {
        assert(p@.subrange(a as int, b as int).drop_last() =~= p@.subrange(a as int, b - 1));
        b -= 1;
    }
    if b > a {
        assert(p@.subrange(a as int, b as int).last() == p@[b - 1]);
    }
    b
}

/// The normal form of a path.
pub fn normalize(p: &[u8]) -> (r: Vec<u8>)
    ensures
        r@ == normalized(p@),
{
    let a = first_non_slash(p);
    let b = end_non_slash(p, a);
    let mut r: Vec<u8> = Vec::new();
    r.push(SLASH);
    if is_root_alias_exec(p) || a == b {
        assert(r@ =~= seq![SLASH]);
        return r;
    }
    push_bytes(&mut r, vstd::slice::slice_subrange(p, a, b));
    assert(r@ =~= seq![SLASH] + p@.subrange(a as int, b as int));
    r
}

/// Position of the last slash in `q`, which starts with a slash.
fn find_last_slash(q: &Vec<u8>) -> (pos: usize)
    requires
        q@.len() > 0,
        q@[0] == SLASH,
    ensures
        pos < q@.len(),
        pos as int == last_slash(q@, q@.len() - 1),
{
    let mut i: usize = q.len() - 1;
    while q[i] != SLASH
        invariant
            i < q@.len(),
            q@[0] == SLASH,
            last_slash(q@, q@.len() - 1) == last_slash(q@, i as int),
        decreases i,
    {
        i -= 1;
    }
    i
}

/// Splits a path into its parent directory and its last segment.
pub fn split_path(p: &[u8]) -> (r: (Vec<u8>, Vec<u8>))
    ensures
        r.0@ == dirname(p@),
        r.1@ == basename(p@),
{
    let q = normalize(p);
    let pos = find_last_slash(&q);
    let dir = if pos == 0 {
        let mut d: Vec<u8> = Vec::new();
        d.push(SLASH);
        assert(d@ =~= seq![SLASH]);
        d
    } else {
        copy_range(q.as_slice(), 0, pos)
    };
    let n = q.len();
    let base = copy_range(q.as_slice(), pos + 1, n);
    (dir, base)
}

/// Byte-wise equality of two byte strings.
pub fn bytes_eq(a: &[u8], b: &[u8]) -> (r: bool)
    ensures
        r == (a@ == b@),
{
    if a.len() != b.len() {
        return false;
    }
    let mut i: usize = 0;
    while i < a.len()
        invariant
            i <= a@.len() == b@.len(),
            a@.subrange(0, i as int) == b@.subrange(0, i as int),
        decreases a@.len() - i,
    {
        if a[i] != b[i] {
            return false;
        }
        assert(a@.subrange(0, i + 1) =~= a@.subrange(0, i as int).push(a@[i as int]));
        assert(b@.subrange(0, i + 1) =~= b@.subrange(0, i as int).push(b@[i as int]));
        i += 1;
    }
    assert(a@ =~= a@.subrange(0, i as int));
    assert(b@ =~= b@.subrange(0, i as int));
    true
}

/// Whether `p` begins with `prefix`.
pub fn starts_with(p: &[u8], prefix: &[u8]) -> (r: bool)
    ensures
        r == (prefix@.len() <= p@.len() && p@.subrange(0, prefix@.len() as int) == prefix@),
{
    if prefix.len() > p.len() {
        return false;
    }
    bytes_eq(vstd::slice::slice_subrange(p, 0, prefix.len()), prefix)
}

/// The path without leading slashes.
pub fn trim_leading_slashes(p: &[u8]) -> (r: Vec<u8>)
    ensures
        r@ == trim_start(p@),
{
    let a = first_non_slash(p);
    copy_range(p, a, p.len())
}

/// Scanning a suffix of a path gives the same segments as scanning the path from the
/// same place.
pub proof fn lemma_comps_shift(p: Seq<u8>, off: int, j: int, s: int)
    requires
        0 <= off <= p.len(),
        0 <= s <= j,
    ensures
        comps_scan(p, j + off, s + off) == comps_scan(p.subrange(off, p.len() as int), j, s),
    decreases p.len() - (j + off),
{
    let b = p.subrange(off, p.len() as int);
    if j + off >= p.len() {
        if 0 <= s < b.len() {
            assert(p.subrange(s + off, p.len() as int) =~= b.subrange(s, b.len() as int));
        }
    } else {
        assert(b[j] == p[j + off]);
        if p[j + off] == SLASH {
            lemma_comps_shift(p, off, j + 1, j + 1);
            if s < j {
                assert(p.subrange(s + off, j + off) =~= b.subrange(s, j));
            }
        } else {
            lemma_comps_shift(p, off, j + 1, s);
        }
    }
}

/// Scanning up to a slash at `k` splits into the segments before it and those after it.
proof fn lemma_comps_split_scan(p: Seq<u8>, i: int, start: int, k: int)
    requires
        0 <= start <= i <= k < p.len(),
        p[k] == SLASH,
    ensures
        comps_scan(p, i, start) == comps_scan(p.subrange(0, k), i, start) + comps_scan(
            p.subrange(k + 1, p.len() as int),
            0,
            0,
        ),
    decreases k - i,
{
    let a = p.subrange(0, k);
    let b = p.subrange(k + 1, p.len() as int);
    lemma_comps_shift(p, k + 1, 0, 0);
    if i == k {
        if start < k {
            assert(a.subrange(start, a.len() as int) =~= p.subrange(start, k));
        }
    } else {
        assert(a[i] == p[i]);
        if p[i] == SLASH {
            lemma_comps_split_scan(p, i + 1, i + 1, k);
            if start < i {
                assert(a.subrange(start, i) =~= p.subrange(start, i));
            }
            let x = if start < i {
                seq![p.subrange(start, i)]
            } else {
                Seq::<Seq<u8>>::empty()
            };
            assert(x + (comps_scan(a, i + 1, i + 1) + comps_scan(b, 0, 0)) =~= (x + comps_scan(a, i + 1, i + 1))
                + comps_scan(b, 0, 0));
        } else {
            lemma_comps_split_scan(p, i + 1, start, k);
        }
    }
}

/// The segments of a path with a slash at `k`: those before it, then those after it.
pub proof fn lemma_comps_split(p: Seq<u8>, k: int)
    requires
        0 <= k < p.len(),
        p[k] == SLASH,
    ensures
        components(p) == components(p.subrange(0, k)) + components(p.subrange(k + 1, p.len() as int)),
{
    lemma_comps_split_scan(p, 0, 0, k);
}

/// A non-empty run of bytes without a slash is a single segment.
pub proof fn lemma_comps_single(b: Seq<u8>)
    requires
        b.len() > 0,
        forall|k: int| 0 <= k < b.len() ==> b[k] != SLASH,
    ensures
        components(b) == seq![b],
{
    lemma_comps_single_from(b, 0);
    assert(b.subrange(0, b.len() as int) =~= b);
}

proof fn lemma_comps_single_from(b: Seq<u8>, i: int)
    requires
        b.len() > 0,
        0 <= i <= b.len(),
        forall|k: int| 0 <= k < b.len() ==> b[k] != SLASH,
    ensures
        comps_scan(b, i, 0) == seq![b.subrange(0, b.len() as int)],
    decreases b.len() - i,
{
    if i < b.len() {
        lemma_comps_single_from(b, i + 1);
    }
}

/// Leading slashes do not change the segments.
pub proof fn lemma_comps_trim_start(p: Seq<u8>)
    ensures
        components(trim_start(p)) == components(p),
    decreases p.len(),
{
    if p.len() > 0 && p[0] == SLASH {
        lemma_comps_shift(p, 1, 0, 0);
        assert(p.subrange(1, p.len() as int) =~= p.drop_first());
        lemma_comps_trim_start(p.drop_first());
    }
}

/// Trailing slashes do not change the segments.
pub proof fn lemma_comps_trim_end(p: Seq<u8>)
    ensures
        components(trim_end(p)) == components(p),
    decreases p.len(),
{
    if p.len() > 0 && p.last() == SLASH {
        lemma_comps_split(p, p.len() - 1);
        assert(p.subrange(0, p.len() - 1) =~= p.drop_last());
        assert(p.subrange(p.len() as int, p.len() as int) =~= Seq::<u8>::empty());
        assert(components(Seq::<u8>::empty()) =~= Seq::<Seq<u8>>::empty());
        assert(components(p) =~= components(p.drop_last()));
        lemma_comps_trim_end(p.drop_last());
    }
}

/// `last_slash` finds a slash, and no slash comes after it up to `i`.
pub proof fn lemma_last_slash(q: Seq<u8>, i: int)
    requires
        -1 <= i < q.len(),
    ensures
        -1 <= last_slash(q, i) <= i,
        last_slash(q, i) >= 0 ==> q[last_slash(q, i)] == SLASH,
        forall|k: int| last_slash(q, i) < k <= i ==> q[k] != SLASH,
        (0 <= i && q[0] == SLASH) ==> last_slash(q, i) >= 0,
    decreases i + 1,
{
    if i >= 0 && q[i] != SLASH {
        lemma_last_slash(q, i - 1);
    }
}

/// Trimming leading slashes leaves no leading slash.
pub proof fn lemma_trim_start_head(p: Seq<u8>)
    ensures
        trim_start(p).len() > 0 ==> trim_start(p)[0] != SLASH,
    decreases p.len(),
{
    if p.len() > 0 && p[0] == SLASH {
        lemma_trim_start_head(p.drop_first());
    }
}

/// Trimming trailing slashes keeps a prefix, so a first byte other than a slash stays.
pub proof fn lemma_trim_end_prefix(p: Seq<u8>)
    ensures
        trim_end(p).len() <= p.len(),
        forall|k: int| 0 <= k < trim_end(p).len() ==> trim_end(p)[k] == p[k],
    decreases p.len(),
{
    if p.len() > 0 && p.last() == SLASH {
        lemma_trim_end_prefix(p.drop_last());
        assert forall|k: int| 0 <= k < trim_end(p).len() implies trim_end(p)[k] == p[k] by {
            assert(p.drop_last()[k] == p[k]);
        }
    }
}

/// Outside the root aliases, a path with a non-empty base name has the segments of its
/// parent directory followed by its base name.
pub proof fn lemma_components_parent(p: Seq<u8>)
    requires
        !is_root_alias(p),
        basename(p).len() > 0,
    ensures
        components(p) == components(dirname(p)).push(basename(p)),
        !is_root_alias(dirname(p)) || dirname(p) == seq![SLASH],
{
    let t = trim_end(trim_start(p));
    let q = normalized(p);
    lemma_comps_trim_start(p);
    lemma_comps_trim_end(trim_start(p));
    lemma_trim_start_head(p);
    lemma_trim_end_prefix(trim_start(p));
    if t.len() == 0 {
        assert(q == seq![SLASH]);
        lemma_last_slash(q, q.len() - 1);
        assert(basename(p).len() == 0);
    } else {
        assert(q == seq![SLASH] + t);
        assert(q[0] == SLASH);
        assert(q.drop_first() =~= t);
        lemma_comps_shift(q, 1, 0, 0);
        assert(q.subrange(1, q.len() as int) =~= t);
        assert(components(q) == components(t));
        let pos = last_slash(q, q.len() - 1);
        lemma_last_slash(q, q.len() - 1);
        let base = q.subrange(pos + 1, q.len() as int);
        assert(basename(p) == base);
        lemma_comps_split(q, pos);
        assert forall|k: int| 0 <= k < base.len() implies base[k] != SLASH by {
            assert(base[k] == q[pos + 1 + k]);
        }
        lemma_comps_single(base);
        if pos == 0 {
            assert(q.subrange(0, 0) =~= Seq::<u8>::empty());
            assert(components(Seq::<u8>::empty()) =~= Seq::<Seq<u8>>::empty());
            assert(dirname(p) == seq![SLASH]);
            lemma_comps_shift(seq![SLASH], 1, 0, 0);
            assert(seq![SLASH].subrange(1, 1) =~= Seq::<u8>::empty());
            assert(components(seq![SLASH]) =~= Seq::<Seq<u8>>::empty());
        } else {
            assert(dirname(p) == q.subrange(0, pos));
            assert(q.subrange(0, pos)[0] == SLASH);
            assert(q[1] == t[0]);
            if pos == 1 {
                assert(q[1] != SLASH);
            }
            assert(q.subrange(0, pos).len() >= 2);
        }
    }
}

} // verus!
