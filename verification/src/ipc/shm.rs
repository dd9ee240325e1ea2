//! Arithmetic of the shared-memory ring buffers: sizes, free space and chunk steps, in
//! 32-bit words.

use vstd::prelude::*;

verus! {

/// Words of a chunk header: size and magic.
pub const CHUNK_HEADER_WORDS: usize = 2;

/// Bytes kept free around a chunk: its header and one alignment word.
pub const CHUNK_MARGIN: usize = 12;

/// Page size the data area is rounded up to.
pub const PAGE_SIZE: usize = 4096;

/// `ceil(a / b)`.
pub open spec fn div_ceil(a: int, b: int) -> int {
    (a + b - 1) / b
}

/// Size in bytes of the data area for messages of `size_bytes`: the size plus the margin
/// and one byte, rounded up to whole pages; `None` when that overflows.
pub open spec fn real_size_spec(size_bytes: int) -> Option<int> {
    let size = size_bytes + CHUNK_MARGIN + 1;
    if size > usize::MAX {
        None
    } else if div_ceil(size, PAGE_SIZE as int) * PAGE_SIZE > usize::MAX {
        None
    } else {
        Some(div_ceil(size, PAGE_SIZE as int) * PAGE_SIZE)
    }
}

/// Size in bytes of the data area for messages of `size_bytes`.
pub fn real_size(size_bytes: usize) -> (r: Option<usize>)
    ensures
        match r {
            Some(n) => real_size_spec(size_bytes as int) == Some(n as int),
            None => real_size_spec(size_bytes as int) is None,
        },
{
    let size = match size_bytes.checked_add(CHUNK_MARGIN + 1) {
        Some(s) => s,
        None => return None,
    };
    let pages = size / PAGE_SIZE + if size % PAGE_SIZE == 0 { 0 } else { 1 };
    assert(pages == div_ceil(size as int, PAGE_SIZE as int)) by (nonlinear_arith)
        requires
            pages == size / 4096 + if size % 4096 == 0 { 0int } else { 1int },
            PAGE_SIZE == 4096,
    ;
    match pages.checked_mul(PAGE_SIZE) {
        Some(n) => Some(n),
        None => None,
    }
}

/// Position after a chunk of `data_size_bytes` that starts at `current_pt`: its header
/// and its data rounded up to words, wrapped around the ring.
pub fn chunk_step(word_size: u32, current_pt: u32, data_size_bytes: usize) -> (r: u32)
    requires
        word_size > 0,
        current_pt + CHUNK_HEADER_WORDS + div_ceil(data_size_bytes as int, 4) <= usize::MAX,
    ensures
        r == (current_pt + CHUNK_HEADER_WORDS + div_ceil(data_size_bytes as int, 4)) % (word_size as int),
{
    let data_words = data_size_bytes / 4 + if data_size_bytes % 4 == 0 { 0 } else { 1 };
    assert(data_words == div_ceil(data_size_bytes as int, 4)) by (nonlinear_arith)
        requires
            data_words == data_size_bytes / 4 + if data_size_bytes % 4 == 0 { 0int } else { 1int },
    ;
    let new_pt = (current_pt as usize + CHUNK_HEADER_WORDS + data_words) % (word_size as usize);
    new_pt as u32
}

/// Free words of a ring with the given write and read positions: all of them when the
/// positions meet, otherwise the words between them less one.
pub fn space_free_words(write_pt: u32, read_pt: u32, word_size: u32) -> (r: usize)
    requires
        write_pt < word_size,
        read_pt < word_size,
        read_pt + word_size <= usize::MAX,
    ensures
        r == (if write_pt == read_pt {
            word_size as int
        } else if write_pt > read_pt {
            read_pt + word_size - write_pt - 1
        } else {
            read_pt - write_pt - 1
        }),
{
    if write_pt >= read_pt {
        if write_pt == read_pt {
            word_size as usize
        } else {
            (read_pt as usize + word_size as usize - write_pt as usize) - 1
        }
    } else {
        (read_pt as usize - write_pt as usize) - 1
    }
}

/// Whether a message of `message_size` bytes and its margin fit in `free_words` words.
pub fn chunk_fits(free_words: usize, message_size: usize, chunk_margin: usize) -> (r: bool)
    requires
        free_words * 4 <= usize::MAX,
        message_size + chunk_margin <= usize::MAX,
    ensures
        r == (free_words * 4 >= message_size + chunk_margin),
{
    free_words * 4 >= message_size + chunk_margin
}

/// Magic of a chunk holding a message.
pub const CHUNK_MAGIC: u32 = 0xA1A1A1A1;

/// Magic of a chunk whose message was read.
pub const CHUNK_MAGIC_DEAD: u32 = 0xD0D0D0D0;

/// Magic of a chunk being written.
pub const CHUNK_MAGIC_ALLOC: u32 = 0xA110CED0;

/// Why a chunk found at the read position is refused.
#[derive(Debug, Clone, Copy, PartialEq, Eq, Structural)]
pub enum ChunkFault {
    /// Its size is zero or larger than the ring allows
    BadSize,
    /// Its magic is not that of a chunk holding a message
    BadMagic,
}

/// Largest chunk size accepted on reading: the data area less a chunk header and 64 bytes
/// (zero for a smaller area).
pub open spec fn max_chunk_size_spec(word_size: int) -> int {
    if word_size * 4 >= CHUNK_HEADER_WORDS * 4 + 64 {
        word_size * 4 - (CHUNK_HEADER_WORDS * 4 + 64)
    } else {
        0
    }
}

/// Checks the header of the chunk at the read position: its size first, then its magic.
pub fn check_chunk(chunk_size: u32, magic: u32, word_size: u32) -> (r: Result<(), ChunkFault>)
    requires
        word_size * 4 <= usize::MAX,
    ensures
        (chunk_size == 0 || chunk_size > max_chunk_size_spec(word_size as int)) ==> r == Err::<(), ChunkFault>(ChunkFault::BadSize),
        (chunk_size != 0 && chunk_size <= max_chunk_size_spec(word_size as int) && magic != CHUNK_MAGIC) ==> r == Err::<(), ChunkFault>(ChunkFault::BadMagic),
        (chunk_size != 0 && chunk_size <= max_chunk_size_spec(word_size as int) && magic == CHUNK_MAGIC) ==> r is Ok,
{
    let total = word_size as usize * 4;
    let overhead = CHUNK_HEADER_WORDS * 4 + 64;
    let max = if total >= overhead { total - overhead } else { 0 };
    if chunk_size == 0 || chunk_size as usize > max {
        return Err(ChunkFault::BadSize);
    }
    if magic != CHUNK_MAGIC {
        return Err(ChunkFault::BadMagic);
    }
    Ok(())
}

/// Word index where the data of the chunk at `pt` begins, after its header.
pub fn data_offset(pt: u32, word_size: u32) -> (r: usize)
    requires
        word_size > 0,
    ensures
        r == (pt + CHUNK_HEADER_WORDS) % (word_size as int),
        r < word_size,
{
    let r = (pt as u64 + 2) % (word_size as u64);
    r as usize
}

/// Word index of the magic of the chunk at `pt`.
pub fn magic_offset(pt: u32, word_size: u32) -> (r: usize)
    requires
        word_size > 0,
    ensures
        r == (pt + 1) % (word_size as int),
        r < word_size,
{
    let r = (pt as u64 + 1) % (word_size as u64);
    r as usize
}

/// How a message of `len` bytes starting at word `offset` is laid out: the bytes before
/// the end of the data area, then the bytes that wrap around to its start.
pub fn wrap_split(offset: usize, word_size: usize, len: usize) -> (r: (usize, usize))
    requires
        offset < word_size,
        word_size * 4 <= usize::MAX,
    ensures
        ({
            let room = (word_size - offset) * 4;
            if len <= room {
                r == (len, 0usize)
            } else {
                r.0 == room && r.1 == len - room
            }
        }),
{
    let room = (word_size - offset) * 4;
    if len <= room {
        (len, 0)
    } else {
        (room, len - room)
    }
}

} // verus!
