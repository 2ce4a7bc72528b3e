//! How far a zstd frame can make a decoder go.
//!
//! A decoder takes a block of a frame whole: it adds up the lengths of all that the
//! sequences of the block copy before it hands anything out. Here the headers of a
//! frame's blocks are read to see that such a sum fits a `u32`. What the blocks hold
//! is for the decoder to read.

use vstd::prelude::*;

verus! {

/// The most bytes that a block may be stored in.
pub const MAX_BLOCK_BYTES: u64 = 0x2_0000;

/// The longest copy that a sequence can ask for.
pub const LONGEST_COPY: u64 = 131_074;

/// The longest copy that a sequence can ask for without a bit of the stream that says
/// how long it is.
pub const FREE_COPY: u64 = 34;

/// How much further than [`FREE_COPY`] a byte of that stream can make the copies go: 16
/// bits ask for the longest copy, and no length takes fewer bits for what it is longer.
pub const COPY_PER_BYTE: u64 = 65_536;

/// How many bytes the dictionary id of a frame takes that is described by `d`.
pub open spec fn dictionary_id_bytes(d: u8) -> int {
    if d % 4 == 3 {
        4
    } else {
        d as int % 4
    }
}

/// How many bytes the content size of a frame takes that is described by `d`.
pub open spec fn content_size_bytes(d: u8) -> int {
    if d / 64 == 0 {
        d as int / 32 % 2
    } else if d / 64 == 1 {
        2
    } else if d / 64 == 2 {
        4
    } else {
        8
    }
}

/// Where the first block of the frame `data` starts, if it is a frame.
pub open spec fn first_block(data: Seq<u8>) -> Option<int> {
    if data.len() >= 5 && data[0] == 0x28 && data[1] == 0xb5 && data[2] == 0x2f && data[3] == 0xfd {
        let d = data[4];
        let window = 1 - d as int / 32 % 2;
        Some(5 + window + dictionary_id_bytes(d) + content_size_bytes(d))
    } else {
        None
    }
}

/// What the headers in a compressed block say.
pub struct Announced {
    /// How many bytes its literals are.
    pub literals: int,
    /// How many sequences there are.
    pub sequences: int,
    /// How many bytes are left for what they say.
    pub stream: int,
}

/// What the headers of the compressed block `b` say; that there are no sequences, if
/// they are not whole.
pub open spec fn announced(b: Seq<u8>) -> Announced {
    if b.len() < 5 {
        Announced { literals: 0, sequences: 0, stream: 0 }
    } else {
        let at = literals_end(b);
        let left = b.len() - at;
        let (sequences, head) = if left < 2 || b[at] == 0 {
            (0int, 1int)
        } else if b[at] < 128 {
            (b[at] as int, 2int)
        } else if b[at] < 255 && left >= 3 {
            ((b[at] - 128) * 256 + b[at + 1], 3int)
        } else if b[at] == 255 && left >= 4 {
            (b[at + 1] + b[at + 2] * 256 + 0x7f00, 4int)
        } else {
            (0int, 1int)
        };
        Announced { literals: literals_size(b), sequences, stream: left - head }
    }
}

/// How many bytes the literals of the compressed block `b` are, which starts with them.
pub open spec fn literals_size(b: Seq<u8>) -> int {
    let kind = b[0] as int % 4;
    let format = b[0] as int / 4 % 4;
    if kind < 2 {
        if format == 1 {
            b[0] as int / 16 + b[1] * 16
        } else if format == 3 {
            b[0] as int / 16 + b[1] * 16 + b[2] * 4096
        } else {
            b[0] as int / 8
        }
    } else if format < 2 {
        b[0] as int / 16 + b[1] as int % 64 * 16
    } else if format == 2 {
        b[0] as int / 16 + b[1] * 16 + b[2] as int % 4 * 4096
    } else {
        b[0] as int / 16 + b[1] * 16 + b[2] as int % 64 * 4096
    }
}

/// Where the literals of the compressed block `b` end.
pub open spec fn literals_end(b: Seq<u8>) -> int {
    let kind = b[0] as int % 4;
    let format = b[0] as int / 4 % 4;
    if kind < 2 {
        let head = if format == 1 {
            2int
        } else if format == 3 {
            3
        } else {
            1
        };
        if kind == 0 {
            head + literals_size(b)
        } else {
            head + 1
        }
    } else if format < 2 {
        3 + b[1] as int / 64 + b[2] * 4
    } else if format == 2 {
        4 + b[2] as int / 4 + b[3] * 64
    } else {
        5 + b[2] as int / 64 + b[3] * 4 + b[4] * 1024
    }
}

/// What the compressed block `b` copies cannot add up to 2^32 bytes, by how many
/// sequences it announces and by how many bytes they have to say it in.
pub open spec fn block_bounded(b: Seq<u8>) -> bool {
    let x = announced(b);
    ||| x.literals + x.sequences * LONGEST_COPY <= u32::MAX
    ||| x.literals + x.sequences * FREE_COPY + x.stream * COPY_PER_BYTE <= u32::MAX
}

/// The three bytes at the head of a block that starts at `at`.
pub open spec fn block_head(data: Seq<u8>, at: int) -> int {
    data[at] + data[at + 1] * 256 + data[at + 2] * 65536
}

/// Every compressed block of the frame `data`, from the one at `at` on, copies less
/// than 2^32 bytes. The last block that a decoder comes to is the one that says so, or
/// one that it refuses: of no kind, too large, or cut off.
pub open spec fn blocks_bounded(data: Seq<u8>, at: int) -> bool
    decreases data.len() - at,
{
    if at < 0 || at + 3 > data.len() {
        true
    } else {
        let head = block_head(data, at);
        let kind = head / 2 % 4;
        let size = head / 8;
        let stored = if kind == 1 {
            1
        } else {
            size
        };
        if kind == 3 || size > MAX_BLOCK_BYTES || at + 3 + stored > data.len() {
            true
        } else if kind == 2 && !block_bounded(data.subrange(at + 3, at + 3 + stored)) {
            false
        } else if head % 2 == 1 {
            true
        } else {
            blocks_bounded(data, at + 3 + stored)
        }
    }
}

/// Every compressed block of the frame `data` copies less than 2^32 bytes.
pub open spec fn frame_bounded(data: Seq<u8>) -> bool {
    match first_block(data) {
        Some(at) => blocks_bounded(data, at),
        None => true,
    }
}

/// How many bytes the literals of a compressed block are, and where they end.
fn find_literals(b: &[u8]) -> (r: (u64, usize))
    requires
        b@.len() >= 5,
    ensures
        r.0 == literals_size(b@),
        r.1 == literals_end(b@),
        r.0 <= 0xf_ffff,
{
    let kind: u8 = b[0] % 4;
    let format: u8 = b[0] / 4 % 4;
    let b0: usize = b[0] as usize;
    let b1: usize = b[1] as usize;
    let b2: usize = b[2] as usize;
    if kind < 2 {
        let (head, size): (usize, usize) = if format == 1 {
            (2, b0 / 16 + b1 * 16)
        } else if format == 3 {
            (3, b0 / 16 + b1 * 16 + b2 * 4096)
        } else {
            (1, b0 / 8)
        };
        if kind == 0 {
            (size as u64, head + size)
        } else {
            (size as u64, head + 1)
        }
    } else if format < 2 {
        ((b0 / 16 + b1 % 64 * 16) as u64, 3 + b1 / 64 + b2 * 4)
    } else if format == 2 {
        ((b0 / 16 + b1 * 16 + b2 % 4 * 4096) as u64, 4 + b2 / 4 + b[3] as usize * 64)
    } else {
        (
            (b0 / 16 + b1 * 16 + b2 % 64 * 4096) as u64,
            5 + b2 / 64 + b[3] as usize * 4 + b[4] as usize * 1024,
        )
    }
}

/// Whether what a compressed block copies cannot add up to 2^32 bytes.
pub fn check_block(b: &[u8]) -> (ok: bool)
    requires
        b@.len() <= MAX_BLOCK_BYTES,
    ensures
        ok == block_bounded(b@),
{
    if b.len() < 5 {
        return true;
    }
    let (literals, at): (u64, usize) = find_literals(b);
    let len: usize = b.len();
    if at >= len || len - at < 2 || b[at] == 0 {
        return true;
    }
    let left: usize = len - at;
    let (sequences, head): (u64, usize) = if b[at] < 128 {
        (b[at] as u64, 2)
    } else if b[at] < 255 && left >= 3 {
        ((b[at] as u64 - 128) * 256 + b[at + 1] as u64, 3)
    } else if b[at] == 255 && left >= 4 {
        (b[at + 1] as u64 + b[at + 2] as u64 * 256 + 0x7f00, 4)
    } else {
        (0, 1)
    };
    let stream: u64 = (left - head) as u64;
    literals + sequences * LONGEST_COPY <= u32::MAX as u64 || literals + sequences * FREE_COPY
        + stream * COPY_PER_BYTE <= u32::MAX as u64
}

/// Where the first block of a frame starts, if it is a frame.
fn find_first_block(data: &[u8]) -> (r: Option<usize>)
    ensures
        match r {
            Some(at) => first_block(data@) == Some(at as int) && at <= 18,
            None => first_block(data@) is None,
        },
{
    if data.len() < 5 || data[0] != 0x28 || data[1] != 0xb5 || data[2] != 0x2f || data[3] != 0xfd {
        return None;
    }
    let d: u8 = data[4];
    let window: usize = 1 - d as usize / 32 % 2;
    let dictionary: usize = if d % 4 == 3 {
        4
    } else {
        d as usize % 4
    };
    let content: usize = if d / 64 == 0 {
        d as usize / 32 % 2
    } else if d / 64 == 1 {
        2
    } else if d / 64 == 2 {
        4
    } else {
        8
    };
    Some(5 + window + dictionary + content)
}

/// Whether every compressed block of the frame `data` copies less than 2^32 bytes.
pub fn check_frame(data: &[u8]) -> (ok: bool)
    ensures
        ok == frame_bounded(data@),
{
    let mut at: usize = match find_first_block(data) {
        Some(at) => at,
        None => {
            return true;
        },
    };
    let end: usize = data.len();
    while at <= end && end - at >= 3
        invariant
            end == data@.len(),
            frame_bounded(data@) == blocks_bounded(data@, at as int),
            at <= end || at <= 18,
        decreases end - at,
    {
        let head: usize = data[at] as usize + data[at + 1] as usize * 256 + data[at + 2] as usize
            * 65536;
        let kind: usize = head / 2 % 4;
        let size: usize = head / 8;
        let stored: usize = if kind == 1 {
            1
        } else {
            size
        };
        if kind == 3 || size as u64 > MAX_BLOCK_BYTES || stored > end - at - 3 {
            return true;
        }
        if kind == 2 {
            let block: &[u8] = vstd::slice::slice_subrange(data, at + 3, at + 3 + stored);
            if !check_block(block) {
                return false;
            }
        }
        if head % 2 == 1 {
            return true;
        }
        at = at + 3 + stored;
    }
    true
}

} // verus!
