//! Node configuration rules: the RFC 1123 check applied to a node name.

use vstd::prelude::*;
use vstd::utf8::*;

verus! {

/// The longest host name accepted, in bytes.
pub const HOSTNAME_MAX_LEN: usize = 253;

/// The longest label (dot-separated part) of a host name, in bytes.
pub const HOSTNAME_LABEL_MAX_LEN: usize = 63;

/// Why a host name is not a valid RFC 1123 host name; a label is given by its bytes.
#[derive(Debug, Clone)]
pub enum HostnameError {
    Empty,
    TooLong { len: usize },
    EmptyLabel,
    LabelTooLong { label: Vec<u8>, len: usize },
    HyphenEdge { label: Vec<u8> },
    InvalidChars { label: Vec<u8> },
}

/// The mathematical form of [`HostnameError`].
pub enum HostnameFault {
    Empty,
    TooLong(nat),
    EmptyLabel,
    LabelTooLong(Seq<u8>),
    HyphenEdge(Seq<u8>),
    InvalidChars(Seq<u8>),
}

impl View for HostnameError {
    type V = HostnameFault;

    open spec fn view(&self) -> HostnameFault {
        match self {
            HostnameError::Empty => HostnameFault::Empty,
            HostnameError::TooLong { len } => HostnameFault::TooLong(*len as nat),
            HostnameError::EmptyLabel => HostnameFault::EmptyLabel,
            HostnameError::LabelTooLong { label, len: _ } => HostnameFault::LabelTooLong(label@),
            HostnameError::HyphenEdge { label } => HostnameFault::HyphenEdge(label@),
            HostnameError::InvalidChars { label } => HostnameFault::InvalidChars(label@),
        }
    }
}

/// A byte allowed inside a label: an ASCII letter or digit, or a hyphen.
pub open spec fn label_byte(b: u8) -> bool {
    (0x30 <= b <= 0x39) || (0x41 <= b <= 0x5a) || (0x61 <= b <= 0x7a) || b == 0x2d
}

/// The end of the label that starts at `i`: the index of the next dot, or the length.
pub open spec fn label_end(s: Seq<u8>, i: int) -> int
    decreases s.len() - i,
{
    if i >= s.len() || s[i] == 0x2e {
        i
    } else {
        label_end(s, i + 1)
    }
}

/// What is wrong with one label, if anything; the checks are made in this order.
pub open spec fn label_fault(l: Seq<u8>) -> Option<HostnameFault> {
    if l.len() == 0 {
        Some(HostnameFault::EmptyLabel)
    } else if l.len() > HOSTNAME_LABEL_MAX_LEN {
        Some(HostnameFault::LabelTooLong(l))
    } else if l[0] == 0x2d || l.last() == 0x2d {
        Some(HostnameFault::HyphenEdge(l))
    } else if exists|k: int| 0 <= k < l.len() && !label_byte(#[trigger] l[k]) {
        Some(HostnameFault::InvalidChars(l))
    } else {
        None
    }
}

pub proof fn lemma_label_end_bounds(s: Seq<u8>, i: int)
    requires
        0 <= i <= s.len(),
    ensures
        i <= label_end(s, i) <= s.len(),
        label_end(s, i) < s.len() ==> s[label_end(s, i)] == 0x2e,
        forall|k: int| i <= k < label_end(s, i) ==> s[k] != 0x2e,
    decreases s.len() - i,
{
    if i < s.len() && s[i] != 0x2e {
        lemma_label_end_bounds(s, i + 1);
    }
}

/// The fault of the first faulty label from position `i` on, labels taken left to right.
pub open spec fn labels_fault(s: Seq<u8>, i: int) -> Option<HostnameFault>
    decreases s.len() - i,
    when 0 <= i <= s.len()
{
    let j = label_end(s, i);
    match label_fault(s.subrange(i, j)) {
        Some(f) => Some(f),
        None => if j >= s.len() {
            None
        } else {
            proof {
                lemma_label_end_bounds(s, i);
            }
            labels_fault(s, j + 1)
        },
    }
}

/// The fault of a host name given by its bytes, or `None` when it is valid.
pub open spec fn hostname_fault(h: Seq<u8>) -> Option<HostnameFault> {
    if h.len() == 0 {
        Some(HostnameFault::Empty)
    } else if h.len() > HOSTNAME_MAX_LEN {
        Some(HostnameFault::TooLong(h.len()))
    } else {
        labels_fault(h, 0)
    }
}

fn copy_range(b: &[u8], start: usize, end: usize) -> (r: Vec<u8>)
    requires
        start <= end <= b@.len(),
    ensures
        r@ == b@.subrange(start as int, end as int),
{
    let mut r: Vec<u8> = Vec::new();
    let mut k = start;
    while k < end
        invariant
            start <= k <= end <= b@.len(),
            r@ == b@.subrange(start as int, k as int),
        decreases end - k,
    {
        r.push(b[k]);
        k += 1;
    }
    r
}

/// Checks one label `b[start..end]`.
fn check_label(b: &[u8], start: usize, end: usize) -> (r: Result<(), HostnameError>)
    requires
        start <= end <= b@.len(),
    ensures
        match label_fault(b@.subrange(start as int, end as int)) {
            None => r is Ok,
            Some(f) => r matches Err(e) && e@ == f,
        },
{
    let ghost l = b@.subrange(start as int, end as int);
    let n = end - start;
    if n == 0 {
        return Err(HostnameError::EmptyLabel);
    }
    if n > HOSTNAME_LABEL_MAX_LEN {
        return Err(HostnameError::LabelTooLong { label: copy_range(b, start, end), len: n });
    }
    if b[start] == 0x2d || b[end - 1] == 0x2d {
        assert(l[0] == b@[start as int]);
        assert(l.last() == b@[end - 1]);
        return Err(HostnameError::HyphenEdge { label: copy_range(b, start, end) });
    }
    assert(l[0] == b@[start as int]);
    assert(l.last() == b@[end - 1]);
    let mut k = start;
    while k < end
        invariant
            start <= k <= end <= b@.len(),
            l == b@.subrange(start as int, end as int),
            0 < l.len() <= HOSTNAME_LABEL_MAX_LEN,
            l[0] != 0x2d,
            l.last() != 0x2d,
            forall|m: int| 0 <= m < k - start ==> label_byte(#[trigger] l[m]),
        decreases end - k,
    {
        let c = b[k];
        let ok = (0x30 <= c && c <= 0x39) || (0x41 <= c && c <= 0x5a) || (0x61 <= c && c <= 0x7a) || c == 0x2d;
        if !ok {
            assert(!label_byte(l[k - start]));
            return Err(HostnameError::InvalidChars { label: copy_range(b, start, end) });
        }
        k += 1;
    }
    Ok(())
}

/// Validates a host name as RFC 1123 asks: 1 to 253 bytes, made of dot-separated labels
/// of 1 to 63 ASCII letters, digits and hyphens that neither begin nor end with a hyphen.
/// The first fault found, labels taken left to right, is returned.
pub fn validate_hostname(hostname: &str) -> (r: Result<(), HostnameError>)
    ensures
        match hostname_fault(encode_utf8(hostname@)) {
            None => r is Ok,
            Some(f) => r matches Err(e) && e@ == f,
        },
{
    let b = hostname.as_bytes();
    let ghost s = b@;
    assert(s == encode_utf8(hostname@));
    let len = b.len();
    if len == 0 {
        return Err(HostnameError::Empty);
    }
    if len > HOSTNAME_MAX_LEN {
        return Err(HostnameError::TooLong { len });
    }
    let mut i: usize = 0;
    loop
        invariant
            s == b@,
            s == encode_utf8(hostname@),
            len == s.len(),
            0 < len <= HOSTNAME_MAX_LEN,
            i <= len,
            hostname_fault(s) == labels_fault(s, i as int),
        decreases len - i,
    {
        let mut j = i;
        while j < len && b[j] != 0x2e
            invariant
                i <= j <= len,
                len == b@.len(),
                forall|k: int| i <= k < j ==> b@[k] != 0x2e,
            decreases len - j,
        {
            j += 1;
        }
        proof {
            lemma_label_end_bounds(s, i as int);
            lemma_label_end_at(s, i as int, j as int);
        }
        match check_label(b, i, j) {
            Err(e) => {
                assert(labels_fault(s, i as int) == Some(e@));
                return Err(e);
            },
            Ok(()) => {},
        }
        if j >= len {
            return Ok(());
        }
        i = j + 1;
    }
}

proof fn lemma_label_end_at(s: Seq<u8>, i: int, j: int)
    requires
        0 <= i <= j <= s.len(),
        j == s.len() || s[j] == 0x2e,
        forall|k: int| i <= k < j ==> s[k] != 0x2e,
    ensures
        label_end(s, i) == j,
    decreases j - i,
{
    if i < j {
        lemma_label_end_at(s, i + 1, j);
    }
}

} // verus!
