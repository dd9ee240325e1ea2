//! Cluster log entries: packing (truncation and ASCII escaping), sizes, and the binary
//! entry format `[prev u32][next u32][uid u32][time u32][node_digest u64][ident_digest u64]
//! [pid u32][priority u8][node_len u8][ident_len u8][tag_len u8][msg_len u32]` followed by
//! the four NUL-terminated strings.

use vstd::prelude::*;
use vstd::bytes::*;
use vstd::utf8::*;
use vstd::slice::slice_subrange;
use crate::wire::{WireError, push_u32, push_u64, push_bytes, read_u32, read_u64};
use crate::text::{string_from_utf8, ascii_to_string, all_ascii};
use crate::logger::hash::{fnv_spec, fnv_64a_str, FNV1A_64_INIT};
use crate::dfsm::wire_format::first_nul;

verus! {

broadcast use vstd::string::group_string_axioms;

/// Largest size of one entry in bytes.
pub const CLOG_MAX_ENTRY_SIZE: usize = 4096;

/// Size of the fixed entry header in bytes (the strings follow it).
pub const CLOG_ENTRY_HEADER_SIZE: usize = 44;

/// Size of the entry structure, its header padded to a multiple of 8 bytes; entry sizes
/// count it in place of the header.
pub const CLOG_ENTRY_STRUCT_SIZE: usize = 48;

/// Counter of entry ids; each packed entry gets the next id (wrapping).
pub struct UidCounter {
    value: u32,
}

impl View for UidCounter {
    type V = u32;

    closed spec fn view(&self) -> u32 {
        self.value
    }
}

impl UidCounter {
    /// A counter whose next id is 1.
    pub fn new() -> (r: UidCounter)
        ensures
            r@ == 0,
    {
        UidCounter { value: 0 }
    }

    /// The last id handed out (0 before the first).
    pub fn current(&self) -> (r: u32)
        ensures
            r == self@,
    {
        self.value
    }
}

/// Resets a counter so that the next id is 1.
pub fn reset_uid_counter(counter: &mut UidCounter)
    ensures
        final(counter)@ == 0,
{
    counter.value = 0;
}

/// Cluster log entry.
#[derive(Debug)]
pub struct LogEntry {
    /// Unique id of the entry on its node
    pub uid: u32,
    /// Unix time stamp
    pub time: u32,
    /// FNV-1a hash of the node name
    pub node_digest: u64,
    /// FNV-1a hash of the ident
    pub ident_digest: u64,
    /// Process id
    pub pid: u32,
    /// Syslog priority (0-7)
    pub priority: u8,
    /// Node name
    pub node: String,
    /// Identity (user)
    pub ident: String,
    /// Tag
    pub tag: String,
    /// Message
    pub message: String,
}

/// Mathematical view of a log entry.
pub struct LogEntryView {
    pub uid: u32,
    pub time: u32,
    pub node_digest: u64,
    pub ident_digest: u64,
    pub pid: u32,
    pub priority: u8,
    pub node: Seq<char>,
    pub ident: Seq<char>,
    pub tag: Seq<char>,
    pub message: Seq<char>,
}

impl View for LogEntry {
    type V = LogEntryView;

    open spec fn view(&self) -> LogEntryView {
        LogEntryView {
            uid: self.uid,
            time: self.time,
            node_digest: self.node_digest,
            ident_digest: self.ident_digest,
            pid: self.pid,
            priority: self.priority,
            node: self.node@,
            ident: self.ident@,
            tag: self.tag@,
            message: self.message@,
        }
    }
}

impl Clone for LogEntry {
    fn clone(&self) -> (r: Self)
        ensures
            r@ == self@,
    {
        LogEntry {
            uid: self.uid,
            time: self.time,
            node_digest: self.node_digest,
            ident_digest: self.ident_digest,
            pid: self.pid,
            priority: self.priority,
            node: self.node.clone(),
            ident: self.ident.clone(),
            tag: self.tag.clone(),
            message: self.message.clone(),
        }
    }
}

/// Three decimal digits of a value below 1000.
pub open spec fn dec3(v: u32) -> Seq<u8> {
    seq![(48 + v / 100) as u8, (48 + (v / 10) % 10) as u8, (48 + v % 10) as u8]
}

/// Lower-case hexadecimal digit.
pub open spec fn hex_digit(d: u32) -> u8 {
    if d < 10 {
        (48 + d) as u8
    } else {
        (87 + d) as u8
    }
}

/// Four lower-case hexadecimal digits of a value below 65536.
pub open spec fn hex4(v: u32) -> Seq<u8> {
    seq![hex_digit((v / 4096) % 16), hex_digit((v / 256) % 16), hex_digit((v / 16) % 16), hex_digit(v % 16)]
}

/// ASCII form of one character: control characters as `#` and three decimal digits, `"`
/// as `\"`, other ASCII unchanged, characters up to U+FFFF as `\u` and four hex digits,
/// and nothing for characters above U+FFFF.
pub open spec fn escape_char(c: char) -> Seq<u8> {
    let v = c as u32;
    if v <= 0x1f || v == 0x7f {
        seq![35u8] + dec3(v)
    } else if v == 34 {
        seq![92u8, 34u8]
    } else if v < 0x80 {
        seq![v as u8]
    } else if v < 0x10000 {
        seq![92u8, 117u8] + hex4(v)
    } else {
        Seq::empty()
    }
}

/// ASCII form of a text, character by character.
pub open spec fn ascii_escape(cs: Seq<char>) -> Seq<u8>
    decreases cs.len(),
{
    if cs.len() == 0 {
        Seq::empty()
    } else {
        ascii_escape(cs.drop_last()) + escape_char(cs.last())
    }
}

/// Largest position at most `max` that is the end of the bytes or not inside a character
/// (not a continuation byte).
pub open spec fn floor_boundary(b: Seq<u8>, max: int) -> int
    decreases max,
{
    if max <= 0 {
        0
    } else if max >= b.len() {
        b.len() as int
    } else if !is_continuation_byte(b[max]) {
        max
    } else {
        floor_boundary(b, max - 1)
    }
}

/// The longest prefix of the bytes of at most `max` bytes that ends on a character boundary.
pub open spec fn truncated_bytes(b: Seq<u8>, max: int) -> Seq<u8> {
    b.take(floor_boundary(b, max))
}

/// Length of an entry in its binary format: header and the four strings with terminators.
pub open spec fn entry_len(e: LogEntryView) -> int {
    44int + encode_utf8(e.node).len() + 1 + encode_utf8(e.ident).len() + 1 + encode_utf8(e.tag).len() + 1
        + encode_utf8(e.message).len() + 1
}

/// Size of an entry as the log counts it: the padded entry structure and the four strings
/// with terminators (four bytes more than its binary format).
pub open spec fn log_size(e: LogEntryView) -> int {
    48int + encode_utf8(e.node).len() + 1 + encode_utf8(e.ident).len() + 1 + encode_utf8(e.tag).len() + 1
        + encode_utf8(e.message).len() + 1
}

/// The size rounded up to a multiple of 8.
pub open spec fn aligned(n: int) -> int {
    ((n + 7) / 8) * 8
}

/// `a - b`, or zero when `b` is larger.
pub open spec fn sat_sub(a: int, b: int) -> int {
    if a >= b {
        a - b
    } else {
        0
    }
}

/// Result of packing an entry with the id counter at `counter`: the entry and the new
/// counter value, or the error. Node, ident and tag are cut to 254 bytes, the message is
/// escaped to ASCII and cut so that the entry fits the maximum entry size.
pub open spec fn pack_outcome(
    counter: u32,
    node: Seq<char>,
    ident: Seq<char>,
    tag: Seq<char>,
    pid: u32,
    time: u32,
    priority: u8,
    message: Seq<char>,
) -> Result<(LogEntryView, u32), WireError> {
    let nb = truncated_bytes(encode_utf8(node), 254);
    let ib = truncated_bytes(encode_utf8(ident), 254);
    let tb = truncated_bytes(encode_utf8(tag), 254);
    let m = ascii_escape(message);
    let total: int = 48int + nb.len() + 1 + ib.len() + 1 + tb.len() + 1 + m.len() + 1;
    let uid = if counter == u32::MAX { 0u32 } else { (counter + 1) as u32 };
    if priority >= 8 {
        Err(WireError::InvalidPriority(priority))
    } else if total > usize::MAX {
        Err(WireError::SizeOverflow)
    } else {
        Ok(
            (
                LogEntryView {
                    uid,
                    time,
                    node_digest: fnv_spec(nb.push(0u8), FNV1A_64_INIT),
                    ident_digest: fnv_spec(ib.push(0u8), FNV1A_64_INIT),
                    pid,
                    priority,
                    node: decode_utf8(nb),
                    ident: decode_utf8(ib),
                    tag: decode_utf8(tb),
                    message: decode_utf8(m.take(kept_len(48int + nb.len() + 1 + ib.len() + 1 + tb.len() + 1, m.len() as int))),
                },
                uid,
            ),
        )
    }
}

/// Bytes of an escaped message of `mlen` bytes that are kept when the rest of the entry
/// takes `fixed` bytes: all of them when the entry fits the maximum entry size, else as
/// many fewer as it exceeds it by.
pub open spec fn kept_len(fixed: int, mlen: int) -> int {
    let total = fixed + mlen + 1;
    let ml = if total > CLOG_MAX_ENTRY_SIZE { sat_sub(mlen + 1, total - CLOG_MAX_ENTRY_SIZE) } else { mlen + 1 };
    sat_sub(ml, 1)
}

/// Length field of a string of at most 254 bytes: bytes plus terminator, at most 255.
pub open spec fn len_u8(n: int) -> u8 {
    if n + 1 < 255 {
        (n + 1) as u8
    } else {
        255u8
    }
}

/// Binary format of an entry with the given links.
pub open spec fn entry_bytes(e: LogEntryView, prev: u32, next: u32) -> Seq<u8> {
    let nb = encode_utf8(e.node);
    let ib = encode_utf8(e.ident);
    let tb = encode_utf8(e.tag);
    let mb = encode_utf8(e.message);
    spec_u32_to_le_bytes(prev) + spec_u32_to_le_bytes(next) + spec_u32_to_le_bytes(e.uid) + spec_u32_to_le_bytes(
        e.time,
    ) + spec_u64_to_le_bytes(e.node_digest) + spec_u64_to_le_bytes(e.ident_digest) + spec_u32_to_le_bytes(e.pid)
        + seq![e.priority, len_u8(nb.len() as int), len_u8(ib.len() as int), len_u8(tb.len() as int)]
        + spec_u32_to_le_bytes((mb.len() + 1) as u32) + nb + seq![0u8] + ib + seq![0u8] + tb + seq![0u8] + mb
        + seq![0u8]
}

/// Text of a field: the bytes before the first NUL (all of them when there is none),
/// with invalid UTF-8 replaced.
pub open spec fn field_text(b: Seq<u8>) -> Seq<char> {
    lossy_text(b.take(first_nul(b, 0)))
}

/// Bytes as text: decoded when valid UTF-8, else with invalid sequences replaced.
pub open spec fn lossy_text(b: Seq<u8>) -> Seq<char> {
    if valid_utf8(b) {
        decode_utf8(b)
    } else {
        utf8_lossy(b)
    }
}

/// Decoding of the binary format: the entry and its `prev` and `next` links.
pub open spec fn parse_entry(d: Seq<u8>) -> Result<(LogEntryView, u32, u32), WireError> {
    if d.len() < 48 {
        Err(WireError::TooShort)
    } else {
        let nl = d[37] as int;
        let il = d[38] as int;
        let tl = d[39] as int;
        let ml = spec_u32_from_le_bytes(d.subrange(40, 44)) as int;
        if 44 + nl + il + tl + ml > d.len() {
            Err(WireError::LengthExceedsMessage)
        } else {
            Ok(
                (
                    LogEntryView {
                        uid: spec_u32_from_le_bytes(d.subrange(8, 12)),
                        time: spec_u32_from_le_bytes(d.subrange(12, 16)),
                        node_digest: spec_u64_from_le_bytes(d.subrange(16, 24)),
                        ident_digest: spec_u64_from_le_bytes(d.subrange(24, 32)),
                        pid: spec_u32_from_le_bytes(d.subrange(32, 36)),
                        priority: d[36],
                        node: field_text(d.subrange(44, 44 + nl)),
                        ident: field_text(d.subrange(44 + nl, 44 + nl + il)),
                        tag: field_text(d.subrange(44 + nl + il, 44 + nl + il + tl)),
                        message: field_text(d.subrange(44 + nl + il + tl, 44 + nl + il + tl + ml)),
                    },
                    spec_u32_from_le_bytes(d.subrange(0, 4)),
                    spec_u32_from_le_bytes(d.subrange(4, 8)),
                ),
            )
        }
    }
}

/// Text that `String::from_utf8_lossy` makes of a byte string that is not valid UTF-8.
pub uninterp spec fn utf8_lossy(b: Seq<u8>) -> Seq<char>;

/// `String::from_utf8_lossy`: the bytes as text, each invalid sequence replaced by U+FFFD.
///
/// Claimed: for valid UTF-8 the result is the decoded text, as the documentation states;
/// otherwise it is `utf8_lossy` of the bytes (the replacement rules are left unstated).
#[verifier::external_body]
fn from_utf8_lossy(b: &[u8]) -> (r: String)
    ensures
        r@ == (if valid_utf8(b@) {
            decode_utf8(b@)
        } else {
            utf8_lossy(b@)
        }),
{
    String::from_utf8_lossy(b).into_owned()
}

/// Reads the text before the first NUL byte (all bytes when there is none).
pub fn read_null_terminated(data: &[u8]) -> (r: Result<String, WireError>)
    ensures
        r matches Ok(s) && s@ == field_text(data@),
{
    let mut z: usize = 0;
    while z < data.len() && data[z] != 0
        invariant
            z <= data@.len(),
            first_nul(data@, 0) == first_nul(data@, z as int),
        decreases data@.len() - z,
    {
        z += 1;
    }
    Ok(from_utf8_lossy(slice_subrange(data, 0, z)))
}

/// Appends the three decimal digits of `v`.
fn push_dec3(out: &mut Vec<u8>, v: u32)
    requires
        v < 1000,
    ensures
        final(out)@ == old(out)@ + dec3(v),
{
    out.push((48 + v / 100) as u8);
    out.push((48 + (v / 10) % 10) as u8);
    out.push((48 + v % 10) as u8);
    assert(final(out)@ =~= old(out)@ + dec3(v));
}

fn hex_digit_exec(d: u32) -> (r: u8)
    requires
        d < 16,
    ensures
        r == hex_digit(d),
        r < 128,
{
    if d < 10 {
        (48 + d) as u8
    } else {
        (87 + d) as u8
    }
}

/// Appends the four hexadecimal digits of `v`.
fn push_hex4(out: &mut Vec<u8>, v: u32)
    ensures
        final(out)@ == old(out)@ + hex4(v),
{
    out.push(hex_digit_exec((v / 4096) % 16));
    out.push(hex_digit_exec((v / 256) % 16));
    out.push(hex_digit_exec((v / 16) % 16));
    out.push(hex_digit_exec(v % 16));
    assert(final(out)@ =~= old(out)@ + hex4(v));
}

proof fn lemma_escape_ascii(c: char)
    ensures
        all_ascii(escape_char(c)),
{
    let v = c as u32;
    if v < 0x10000 && v >= 0x80 {
        assert(hex_digit((v / 4096) % 16) < 128);
        assert(hex_digit((v / 256) % 16) < 128);
        assert(hex_digit((v / 16) % 16) < 128);
        assert(hex_digit(v % 16) < 128);
    }
}

impl LogEntry {
    /// ASCII form of a text (see `escape_char`).
    pub fn utf8_to_ascii(s: &str) -> (r: String)
        ensures
            encode_utf8(r@) == ascii_escape(s@),
            all_ascii(ascii_escape(s@)),
    {
        let mut out: Vec<u8> = Vec::new();
        for c in it: s.chars()
            invariant
                it.seq() == s@,
                out@ == ascii_escape(s@.take(it.index() as int)),
                all_ascii(out@),
        {
            let ghost i = it.index();
            let ghost before = out@;
            let v = c as u32;
            if v <= 0x1f || v == 0x7f {
                out.push(35u8);
                push_dec3(&mut out, v);
            } else if v == 34 {
                out.push(92u8);
                out.push(34u8);
            } else if v < 0x80 {
                out.push(v as u8);
            } else if v < 0x10000 {
                out.push(92u8);
                out.push(117u8);
                push_hex4(&mut out, v);
            }
            proof {
                assert(s@.take(i + 1).drop_last() =~= s@.take(i as int));
                assert(out@ =~= before + escape_char(c));
                lemma_escape_ascii(c);
            }
        }
        assert(s@.take(s@.len() as int) =~= s@);
        ascii_to_string(&out)
    }

    /// The longest prefix of a text of at most `max_len` bytes that ends on a character boundary.
    pub fn truncate_string(s: &str, max_len: usize) -> (r: String)
        ensures
            encode_utf8(r@) == truncated_bytes(encode_utf8(s@), max_len as int),
    {
        let b = s.as_bytes();
        proof {
            encode_utf8_valid_utf8(s@);
        }
        if b.len() <= max_len {
            assert(b@.take(b@.len() as int) =~= b@);
            return s.to_owned();
        }
        let mut k: usize = max_len;
        while k > 0 && b[k] >= 0x80 && b[k] <= 0xbf
            invariant
                k <= max_len < b@.len(),
                floor_boundary(b@, max_len as int) == floor_boundary(b@, k as int),
            decreases k,
        {
            k -= 1;
        }
        proof {
            is_char_boundary_start_end_of_seq(b@);
            if k > 0 {
                is_char_boundary_iff_not_is_continuation_byte(b@, k as int);
            }
            valid_utf8_split(b@, k as int);
        }
        match string_from_utf8(slice_subrange(b, 0, k)) {
            Some(t) => {
                proof {
                    decode_utf8_encode_utf8(b@.subrange(0, k as int));
                }
                t
            },
            None => String::new(),
        }
    }
}

} // verus!

verus! {

/// A triple of an entry and its links, taken by views.
pub open spec fn parsed_view(r: Result<(LogEntry, u32, u32), WireError>) -> Result<(LogEntryView, u32, u32), WireError> {
    match r {
        Ok((e, p, n)) => Ok((e@, p, n)),
        Err(e) => Err(e),
    }
}

/// The boundary lies between zero and both the limit and the length.
pub proof fn lemma_floor_boundary(b: Seq<u8>, max: int)
    ensures
        0 <= floor_boundary(b, max) <= b.len(),
        max >= 0 ==> floor_boundary(b, max) <= max,
        truncated_bytes(b, max).len() == floor_boundary(b, max),
    decreases max,
{
    if max > 0 && max < b.len() && is_continuation_byte(b[max]) {
        lemma_floor_boundary(b, max - 1);
    }
}

proof fn lemma_take_ascii(b: Seq<u8>, k: int)
    requires
        all_ascii(b),
        0 <= k <= b.len(),
    ensures
        all_ascii(b.take(k)),
{
}

/// The kept part of an escaped message (see `kept_len`), or `None` when the entry size overflows.
fn cut_message(mb: &[u8], fixed: usize) -> (r: Option<String>)
    requires
        all_ascii(mb@),
        fixed <= 1000,
    ensures
        match r {
            Some(s) => fixed + mb@.len() + 1 <= usize::MAX && encode_utf8(s@) == mb@.take(kept_len(fixed as int, mb@.len() as int)),
            None => fixed + mb@.len() + 1 > usize::MAX,
        },
{
    if mb.len() > usize::MAX - 1 - fixed {
        return None;
    }
    let ml = mb.len() + 1;
    let total = fixed + ml;
    let msg_len = if total > CLOG_MAX_ENTRY_SIZE {
        let diff = total - CLOG_MAX_ENTRY_SIZE;
        if ml >= diff { ml - diff } else { 0 }
    } else {
        ml
    };
    let keep = if msg_len >= 1 { msg_len - 1 } else { 0 };
    let kept = crate::wire::copy_range(mb, 0, keep);
    proof {
        lemma_take_ascii(mb@, keep as int);
        assert(kept@ =~= mb@.take(keep as int));
    }
    Some(ascii_to_string(&kept))
}

impl LogEntry {
    /// Packs an entry, taking the next id from `counter`: node, ident and tag are cut to
    /// 254 bytes, the message is escaped to ASCII and cut so that the entry fits 4096 bytes.
    pub fn pack(
        counter: &mut UidCounter,
        node: &str,
        ident: &str,
        tag: &str,
        pid: u32,
        time: u32,
        priority: u8,
        message: &str,
    ) -> (r: Result<LogEntry, WireError>)
        ensures
            match pack_outcome(old(counter)@, node@, ident@, tag@, pid, time, priority, message@) {
                Ok((e, c)) => r matches Ok(x) && x@ == e && final(counter)@ == c,
                Err(err) => r == Err::<LogEntry, WireError>(err) && final(counter)@ == old(counter)@,
            },
            r matches Ok(x) ==> log_size(x@) <= CLOG_MAX_ENTRY_SIZE,
    {
        if priority >= 8 {
            return Err(WireError::InvalidPriority(priority));
        }
        let node_in = node;
        let ident_in = ident;
        let tag_in = tag;
        let node = Self::truncate_string(node_in, 254);
        let ident = Self::truncate_string(ident_in, 254);
        let tag = Self::truncate_string(tag_in, 254);
        let message = Self::utf8_to_ascii(message);
        proof {
            encode_utf8_decode_utf8(node@);
            encode_utf8_decode_utf8(ident@);
            encode_utf8_decode_utf8(tag@);
            lemma_floor_boundary(encode_utf8(node_in@), 254);
            lemma_floor_boundary(encode_utf8(ident_in@), 254);
            lemma_floor_boundary(encode_utf8(tag_in@), 254);
        }
        let nl = node.as_str().as_bytes().len() + 1;
        let il = ident.as_str().as_bytes().len() + 1;
        let tl = tag.as_str().as_bytes().len() + 1;
        let msg = match cut_message(message.as_str().as_bytes(), CLOG_ENTRY_STRUCT_SIZE + nl + il + tl) {
            Some(m) => m,
            None => return Err(WireError::SizeOverflow),
        };
        proof {
            encode_utf8_decode_utf8(msg@);
        }
        let node_digest = fnv_64a_str(node.as_str());
        let ident_digest = fnv_64a_str(ident.as_str());
        let uid = if counter.value == u32::MAX { 0 } else { counter.value + 1 };
        counter.value = uid;
        Ok(LogEntry { uid, time, node_digest, ident_digest, pid, priority, node, ident, tag, message: msg })
    }

    /// Size of the entry in its binary format.
    pub fn size(&self) -> (r: usize)
        requires
            log_size(self@) <= usize::MAX,
        ensures
            r == log_size(self@),
    {
        CLOG_ENTRY_STRUCT_SIZE + self.node.as_str().as_bytes().len() + 1 + self.ident.as_str().as_bytes().len() + 1
            + self.tag.as_str().as_bytes().len() + 1 + self.message.as_str().as_bytes().len() + 1
    }

    /// Size rounded up to a multiple of 8.
    pub fn aligned_size(&self) -> (r: usize)
        requires
            log_size(self@) + 7 <= usize::MAX,
        ensures
            r == aligned(log_size(self@)),
    {
        let size = self.size();
        let x = size + 7;
        let r = x & !7usize;
        assert(r == (x / 8) * 8) by (bit_vector)
            requires
                r == x & !7usize,
        ;
        r
    }

    /// Serializes to the binary entry format with the given links.
    pub fn serialize_binary(&self, prev: u32, next: u32) -> (r: Vec<u8>)
        requires
            encode_utf8(self.message@).len() < usize::MAX,
        ensures
            r@ == entry_bytes(self@, prev, next),
    {
        let nb = self.node.as_str().as_bytes();
        let ib = self.ident.as_str().as_bytes();
        let tb = self.tag.as_str().as_bytes();
        let mb = self.message.as_str().as_bytes();
        let mut buf: Vec<u8> = Vec::new();
        push_u32(&mut buf, prev);
        push_u32(&mut buf, next);
        push_u32(&mut buf, self.uid);
        push_u32(&mut buf, self.time);
        push_u64(&mut buf, self.node_digest);
        push_u64(&mut buf, self.ident_digest);
        push_u32(&mut buf, self.pid);
        buf.push(self.priority);
        buf.push(if nb.len() < 254 { (nb.len() + 1) as u8 } else { 255u8 });
        buf.push(if ib.len() < 254 { (ib.len() + 1) as u8 } else { 255u8 });
        buf.push(if tb.len() < 254 { (tb.len() + 1) as u8 } else { 255u8 });
        push_u32(&mut buf, (mb.len() + 1) as u32);
        push_bytes(&mut buf, nb);
        buf.push(0);
        push_bytes(&mut buf, ib);
        buf.push(0);
        push_bytes(&mut buf, tb);
        buf.push(0);
        push_bytes(&mut buf, mb);
        buf.push(0);
        assert(buf@ =~= entry_bytes(self@, prev, next));
        buf
    }

    /// Deserializes the binary entry format; returns the entry and its `prev` and `next` links.
    pub fn deserialize_binary(data: &[u8]) -> (r: Result<(LogEntry, u32, u32), WireError>)
        ensures
            parsed_view(r) == parse_entry(data@),
    {
        if data.len() < CLOG_ENTRY_STRUCT_SIZE {
            return Err(WireError::TooShort);
        }
        let prev = read_u32(data, 0);
        let next = read_u32(data, 4);
        let uid = read_u32(data, 8);
        let time = read_u32(data, 12);
        let node_digest = read_u64(data, 16);
        let ident_digest = read_u64(data, 24);
        let pid = read_u32(data, 32);
        let priority = data[36];
        let nl = data[37] as usize;
        let il = data[38] as usize;
        let tl = data[39] as usize;
        let ml = read_u32(data, 40) as usize;
        if CLOG_ENTRY_HEADER_SIZE + nl + il + tl > data.len() || ml > data.len() - CLOG_ENTRY_HEADER_SIZE - nl - il - tl {
            return Err(WireError::LengthExceedsMessage);
        }
        let o1 = 44 + nl;
        let o2 = o1 + il;
        let o3 = o2 + tl;
        let o4 = o3 + ml;
        let node = match read_null_terminated(slice_subrange(data, 44, o1)) {
            Ok(s) => s,
            Err(e) => return Err(e),
        };
        let ident = match read_null_terminated(slice_subrange(data, o1, o2)) {
            Ok(s) => s,
            Err(e) => return Err(e),
        };
        let tag = match read_null_terminated(slice_subrange(data, o2, o3)) {
            Ok(s) => s,
            Err(e) => return Err(e),
        };
        let message = match read_null_terminated(slice_subrange(data, o3, o4)) {
            Ok(s) => s,
            Err(e) => return Err(e),
        };
        Ok((LogEntry { uid, time, node_digest, ident_digest, pid, priority, node, ident, tag, message }, prev, next))
    }
}

/// Entries that read back from their binary format: node, ident and tag of at most 254
/// bytes, no NUL in any string, and a message length that fits 32 bits.
pub open spec fn entry_roundtrips(e: LogEntryView) -> bool {
    &&& encode_utf8(e.node).len() <= 254
    &&& encode_utf8(e.ident).len() <= 254
    &&& encode_utf8(e.tag).len() <= 254
    &&& encode_utf8(e.message).len() + 1 <= u32::MAX
    &&& !e.node.contains('\0')
    &&& !e.ident.contains('\0')
    &&& !e.tag.contains('\0')
    &&& !e.message.contains('\0')
}

proof fn lemma_field_roundtrip(s: Seq<char>, d: Seq<u8>, off: int)
    requires
        !s.contains('\0'),
        0 <= off,
        off + encode_utf8(s).len() + 1 <= d.len(),
        d.subrange(off, off + encode_utf8(s).len() + 1) == encode_utf8(s) + seq![0u8],
    ensures
        field_text(d.subrange(off, off + encode_utf8(s).len() + 1)) == s,
{
    let b = encode_utf8(s);
    let f = b + seq![0u8];
    crate::text::lemma_encode_nul_free(s);
    assert forall|k: int| 0 <= k <= b.len() implies first_nul(f, k) == b.len() by {
        lemma_first_nul_at(f, k, b.len() as int);
    }
    assert(f.take(b.len() as int) =~= b);
    encode_utf8_valid_utf8(s);
    encode_utf8_decode_utf8(s);
}

proof fn lemma_first_nul_at(f: Seq<u8>, k: int, z: int)
    requires
        0 <= k <= z < f.len(),
        f[z] == 0,
        forall|i: int| 0 <= i < z ==> f[i] != 0,
    ensures
        first_nul(f, k) == z,
    decreases z - k,
{
    if k < z {
        lemma_first_nul_at(f, k + 1, z);
    }
}

} // verus!

verus! {

/// An entry reads back from its binary format, with the links it was written with.
#[verifier::rlimit(80)]
pub proof fn lemma_entry_roundtrip(e: LogEntryView, prev: u32, next: u32)
    requires
        entry_roundtrips(e),
    ensures
        parse_entry(entry_bytes(e, prev, next)) == Ok::<(LogEntryView, u32, u32), WireError>((e, prev, next)),
{
    crate::wire::lemma_le_roundtrips();
    let d = entry_bytes(e, prev, next);
    let nb = encode_utf8(e.node);
    let ib = encode_utf8(e.ident);
    let tb = encode_utf8(e.tag);
    let mb = encode_utf8(e.message);
    let nl: int = nb.len() + 1int;
    let il: int = ib.len() + 1int;
    let tl: int = tb.len() + 1int;
    let ml: int = mb.len() + 1int;
    assert(d.subrange(0, 4) =~= spec_u32_to_le_bytes(prev));
    assert(d.subrange(4, 8) =~= spec_u32_to_le_bytes(next));
    assert(d.subrange(8, 12) =~= spec_u32_to_le_bytes(e.uid));
    assert(d.subrange(12, 16) =~= spec_u32_to_le_bytes(e.time));
    assert(d.subrange(16, 24) =~= spec_u64_to_le_bytes(e.node_digest));
    assert(d.subrange(24, 32) =~= spec_u64_to_le_bytes(e.ident_digest));
    assert(d.subrange(32, 36) =~= spec_u32_to_le_bytes(e.pid));
    assert(d[36] == e.priority);
    assert(d[37] == nl);
    assert(d[38] == il);
    assert(d[39] == tl);
    assert(d.subrange(40, 44) =~= spec_u32_to_le_bytes(ml as u32));
    assert(spec_u32_to_le_bytes(prev).len() == 4);
    assert(spec_u32_to_le_bytes(next).len() == 4);
    assert(spec_u32_to_le_bytes(e.uid).len() == 4);
    assert(spec_u32_to_le_bytes(e.time).len() == 4);
    assert(spec_u64_to_le_bytes(e.node_digest).len() == 8);
    assert(spec_u64_to_le_bytes(e.ident_digest).len() == 8);
    assert(spec_u32_to_le_bytes(e.pid).len() == 4);
    assert(spec_u32_to_le_bytes(ml as u32).len() == 4);
    let h = spec_u32_to_le_bytes(prev) + spec_u32_to_le_bytes(next) + spec_u32_to_le_bytes(e.uid)
        + spec_u32_to_le_bytes(e.time) + spec_u64_to_le_bytes(e.node_digest) + spec_u64_to_le_bytes(e.ident_digest)
        + spec_u32_to_le_bytes(e.pid) + seq![e.priority, len_u8(nb.len() as int), len_u8(ib.len() as int), len_u8(tb.len() as int)]
        + spec_u32_to_le_bytes(ml as u32);
    let body = nb + seq![0u8] + ib + seq![0u8] + tb + seq![0u8] + mb + seq![0u8];
    assert(d =~= h + body);
    assert(h.len() == 44);
    assert(body.len() == nl + il + tl + ml);
    assert(d.len() == 44 + nl + il + tl + ml);
    assert(d.subrange(44, 44 + nl) =~= nb + seq![0u8]);
    assert(d.subrange(44 + nl, 44 + nl + il) =~= ib + seq![0u8]);
    assert(d.subrange(44 + nl + il, 44 + nl + il + tl) =~= tb + seq![0u8]);
    assert(d.subrange(44 + nl + il + tl, 44 + nl + il + tl + ml) =~= mb + seq![0u8]);
    lemma_field_roundtrip(e.node, d, 44);
    lemma_field_roundtrip(e.ident, d, 44 + nl);
    lemma_field_roundtrip(e.tag, d, 44 + nl + il);
    lemma_field_roundtrip(e.message, d, 44 + nl + il + tl);
}

} // verus!
