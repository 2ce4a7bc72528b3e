//! How compressed clusters are decoded, and which zstd frames are let through to the
//! decoder.

use crate::codec::{decoded, inflated, zstd_prefix, Decoded};
use crate::zstd::{
    announced, block_bounded, block_head, blocks_bounded, first_block, frame_bounded, literals_end,
    literals_size,
};
use vstd::prelude::*;

verus! {

/// The number that the bytes `b` spell, the least significant one first.
pub open spec fn spelled_backwards(b: Seq<u8>) -> int
    decreases b.len(),
{
    if b.len() == 0 {
        0
    } else {
        b[0] + 256 * spelled_backwards(b.subrange(1, b.len() as int))
    }
}

/// A number of five bytes.
proof fn lemma_five_bytes(b: Seq<u8>)
    requires
        b.len() >= 5,
    ensures
        spelled_backwards(b.subrange(0, 5)) == b[0] + 256 * b[1] + 0x1_0000 * b[2] + 0x100_0000
            * b[3] + 0x1_0000_0000 * b[4],
{
    let s0 = b.subrange(0, 5);
    let s1 = b.subrange(1, 5);
    let s2 = b.subrange(2, 5);
    let s3 = b.subrange(3, 5);
    let s4 = b.subrange(4, 5);
    let s5 = b.subrange(5, 5);
    assert(s0.subrange(1, 5) =~= s1);
    assert(s1.subrange(1, 4) =~= s2);
    assert(s2.subrange(1, 3) =~= s3);
    assert(s3.subrange(1, 2) =~= s4);
    assert(s4.subrange(1, 1) =~= s5);
    assert(spelled_backwards(s5) == 0);
    assert(spelled_backwards(s4) == b[4]);
    assert(spelled_backwards(s3) == b[3] + 256 * b[4]);
    assert(spelled_backwards(s2) == b[2] + 256 * (b[3] + 256 * b[4]));
    assert(spelled_backwards(s1) == b[1] + 256 * (b[2] + 256 * (b[3] + 256 * b[4])));
}

/// The fields of a literals header, told by its bytes.
proof fn lemma_bit_fields(x: u64, b0: u64, b1: u64, b2: u64, b3: u64, b4: u64)
    requires
        b0 < 256,
        b1 < 256,
        b2 < 256,
        b3 < 256,
        b4 < 256,
        x == b0 + 256 * b1 + 0x1_0000 * b2 + 0x100_0000 * b3 + 0x1_0000_0000 * b4,
    ensures
        x % 4 == b0 % 4,
        x / 4 % 4 == b0 / 4 % 4,
        x / 8 % 32 == b0 / 8,
        x / 16 % 0x1000 == b0 / 16 + b1 * 16,
        x / 16 % 0x10_0000 == b0 / 16 + b1 * 16 + b2 * 4096,
        x / 16 % 0x400 == b0 / 16 + b1 % 64 * 16,
        x / 16 % 0x4000 == b0 / 16 + b1 * 16 + b2 % 4 * 4096,
        x / 16 % 0x4_0000 == b0 / 16 + b1 * 16 + b2 % 64 * 4096,
        x / 0x4000 % 0x400 == b1 / 64 + b2 * 4,
        x / 0x4_0000 % 0x4000 == b2 / 4 + b3 * 64,
        x / 0x40_0000 % 0x4_0000 == b2 / 64 + b3 * 4 + b4 * 1024,
{
    assert(x % 4 == b0 % 4 && x / 4 % 4 == b0 / 4 % 4 && x / 8 % 32 == b0 / 8 && x / 16 % 0x1000
        == b0 / 16 + b1 * 16 && x / 16 % 0x10_0000 == b0 / 16 + b1 * 16 + b2 * 4096 && x / 16
        % 0x400 == b0 / 16 + b1 % 64 * 16 && x / 16 % 0x4000 == b0 / 16 + b1 * 16 + b2 % 4 * 4096
        && x / 16 % 0x4_0000 == b0 / 16 + b1 * 16 + b2 % 64 * 4096 && x / 0x4000 % 0x400 == b1 / 64
        + b2 * 4 && x / 0x4_0000 % 0x4000 == b2 / 4 + b3 * 64 && x / 0x40_0000 % 0x4_0000 == b2 / 64
        + b3 * 4 + b4 * 1024) by (bit_vector)
        requires
            b0 < 256,
            b1 < 256,
            b2 < 256,
            b3 < 256,
            b4 < 256,
            x == b0 + 256 * b1 + 0x1_0000 * b2 + 0x100_0000 * b3 + 0x1_0000_0000 * b4,
    ;
}

/// The literals of a zstd block are as its header says, read as one number with the least
/// significant byte first. Two bits are the kind: stored as they are, one byte for all,
/// or compressed in either of two ways. Two more bits, or one, are for how many bits the
/// sizes have. Then come the size of the literals and, if they are compressed, how many
/// bytes they are stored in.
pub proof fn literals_are_as_announced(b: Seq<u8>)
    requires
        b.len() >= 5,
    ensures
        ({
            let x = spelled_backwards(b.subrange(0, 5));
            let kind = x % 4;
            let format = x / 4 % 4;
            let (head, size) = if format == 1 {
                (2int, x / 16 % 0x1000)
            } else if format == 3 {
                (3int, x / 16 % 0x10_0000)
            } else {
                (1int, x / 8 % 32)
            };
            &&& kind == 0 ==> literals_size(b) == size && literals_end(b) == head + size
            &&& kind == 1 ==> literals_size(b) == size && literals_end(b) == head + 1
            &&& kind >= 2 && format < 2 ==> literals_size(b) == x / 16 % 0x400 && literals_end(b)
                == 3 + x / 0x4000 % 0x400
            &&& kind >= 2 && format == 2 ==> literals_size(b) == x / 16 % 0x4000 && literals_end(b)
                == 4 + x / 0x4_0000 % 0x4000
            &&& kind >= 2 && format == 3 ==> literals_size(b) == x / 16 % 0x4_0000 && literals_end(
                b,
            ) == 5 + x / 0x40_0000 % 0x4_0000
        }),
{
    lemma_five_bytes(b);
    let b0 = b[0] as u64;
    let b1 = b[1] as u64;
    let b2 = b[2] as u64;
    let b3 = b[3] as u64;
    let b4 = b[4] as u64;
    let x = (b0 + 256 * b1 + 0x1_0000 * b2 + 0x100_0000 * b3 + 0x1_0000_0000 * b4) as u64;
    assert(x == spelled_backwards(b.subrange(0, 5)));
    lemma_bit_fields(x, b0, b1, b2, b3, b4);
}

/// Behind its literals a zstd block says how many sequences there are: in one byte below
/// 128, in two below 0x7f00, else in three. A byte for how they are coded follows, and then
/// the sequences.
pub proof fn sequences_are_as_announced(b: Seq<u8>, lits: Seq<u8>, tail: Seq<u8>, n: int)
    requires
        b.len() >= 5,
        lits.len() == literals_end(b),
        0 <= n,
        ({
            ||| 1 <= n < 128 && b == lits + seq![n as u8] + tail
            ||| 128 <= n < 0x7f00 && b == lits + seq![(128 + n / 256) as u8, (n % 256) as u8] + tail
            ||| 0x7f00 <= n <= 0x7f00 + 0xffff && b == lits + seq![
                255u8,
                ((n - 0x7f00) % 256) as u8,
                ((n - 0x7f00) / 256) as u8,
            ] + tail
        }),
        tail.len() >= 1,
    ensures
        announced(b).literals == literals_size(b),
        announced(b).sequences == n,
        announced(b).stream == tail.len() - 1,
{
    let at = literals_end(b);
    if 1 <= n < 128 {
        assert(b[at] == n);
    } else if n < 0x7f00 {
        assert(b[at] == 128 + n / 256 && b[at + 1] == n % 256);
    } else {
        assert(b[at] == 255 && b[at + 1] == (n - 0x7f00) % 256 && b[at + 2] == (n - 0x7f00) / 256);
    }
}

/// A zstd block is let through if and only if what it copies cannot come to 2^32 bytes:
/// either with the longest copy, of 131074 bytes, for each sequence, or with 34 bytes for
/// each and 65536 more for each byte that the sequences are told in.
pub proof fn block_is_let_through_exactly(b: Seq<u8>)
    ensures
        ({
            let x = announced(b);
            block_bounded(b) <==> x.literals + 131_074 * x.sequences < 0x1_0000_0000 || x.literals
                + 34 * x.sequences + 65_536 * x.stream < 0x1_0000_0000
        }),
{
}

/// What a block announces is bounded by its length and by the width of its fields.
proof fn lemma_announced(b: Seq<u8>)
    ensures
        ({
            let x = announced(b);
            &&& 0 <= x.literals < 0x10_0000
            &&& 0 <= x.sequences <= 0x7f00 + 0xffff
            &&& x.sequences > 0 ==> x.stream <= b.len()
        }),
{
}

/// A zstd block of up to 65469 bytes is always let through, and so is one with fewer than
/// 32760 sequences.
pub proof fn ordinary_blocks_are_let_through(b: Seq<u8>)
    requires
        b.len() <= 65_469 || announced(b).sequences < 32_760,
    ensures
        block_bounded(b),
{
    lemma_announced(b);
}

/// Blocks that are part of a short frame are short.
proof fn lemma_short_frame(data: Seq<u8>, at: int)
    requires
        data.len() <= 65_469,
    ensures
        blocks_bounded(data, at),
    decreases data.len() - at,
{
    if 0 <= at && at + 3 <= data.len() {
        let head = block_head(data, at);
        let kind = head / 2 % 4;
        let size = head / 8;
        let stored = if kind == 1 {
            1
        } else {
            size
        };
        if at + 3 + stored <= data.len() {
            let b = data.subrange(at + 3, at + 3 + stored);
            ordinary_blocks_are_let_through(b);
            lemma_short_frame(data, at + 3 + stored);
        }
    }
}

/// A zstd frame of up to 65469 bytes is always let through to the decoder.
pub proof fn short_frames_are_let_through(data: Seq<u8>)
    requires
        data.len() <= 65_469,
    ensures
        frame_bounded(data),
{
    if let Some(at) = first_block(data) {
        lemma_short_frame(data, at);
    }
}

/// A frame is let through if and only if its first block is, and the frame goes on from
/// there, block after block: each starts with three bytes, the least significant one
/// first, which say whether it is the last one, of which of four kinds it is, and how
/// long. A block that is one byte over and over is stored as that byte.
pub proof fn frame_is_let_through_block_by_block(data: Seq<u8>, at: int)
    requires
        0 <= at,
        at + 3 <= data.len(),
    ensures
        ({
            let head = spelled_backwards(data.subrange(at, at + 3));
            let last = head % 2 == 1;
            let kind = head / 2 % 4;
            let size = head / 8;
            let end = at + 3 + (if kind == 1 {
                1
            } else {
                size
            });
            let readable = kind != 3 && size <= 0x2_0000 && end <= data.len();
            let block = data.subrange(at + 3, end);
            &&& !readable ==> blocks_bounded(data, at)
            &&& readable && kind == 2 && !block_bounded(block) ==> !blocks_bounded(data, at)
            &&& readable && (kind != 2 || block_bounded(block)) && last ==> blocks_bounded(data, at)
            &&& readable && (kind != 2 || block_bounded(block)) && !last ==> blocks_bounded(data, at)
                == blocks_bounded(data, end)
        }),
{
    let s0 = data.subrange(at, at + 3);
    let s1 = data.subrange(at + 1, at + 3);
    let s2 = data.subrange(at + 2, at + 3);
    let s3 = data.subrange(at + 3, at + 3);
    assert(s0.subrange(1, 3) =~= s1);
    assert(s1.subrange(1, 2) =~= s2);
    assert(s2.subrange(1, 1) =~= s3);
    assert(spelled_backwards(s3) == 0);
    assert(spelled_backwards(s2) == data[at + 2]);
    assert(spelled_backwards(s1) == data[at + 1] + 256 * data[at + 2]);
    assert(spelled_backwards(s0) == block_head(data, at));
}

/// Where the first block of a frame starts: behind the magic, the byte that describes the
/// frame, the window unless bit 5 of that byte is set, the dictionary's id by its bits 0
/// and 1, and the content size by its bits 6 and 7.
pub proof fn first_block_follows_the_frame_header(data: Seq<u8>)
    requires
        data.len() >= 5,
    ensures
        first_block(data) is Some <==> data[0] == 0x28 && data[1] == 0xb5 && data[2] == 0x2f
            && data[3] == 0xfd,
        first_block(data) matches Some(at) ==> {
            let d = data[4] as int;
            let single = d / 32 % 2;
            let id = if d % 4 == 0 {
                0int
            } else if d % 4 == 1 {
                1
            } else if d % 4 == 2 {
                2
            } else {
                4
            };
            let size = if d / 64 == 3 {
                8int
            } else if d / 64 == 2 {
                4
            } else if d / 64 == 1 {
                2
            } else {
                single
            };
            at == 4 + 1 + (1 - single) + id + size
        },
{
}

/// A compressed cluster is decoded by its image's type: 0 is a raw deflate stream that
/// gives at least a cluster, 1 a zstd frame that gives exactly one. Nothing else decodes.
pub proof fn cluster_is_decoded_by_its_type(data: Seq<u8>, ty: u8, cs: nat, s: Seq<u8>)
    ensures
        decoded(data, ty, cs) == Decoded::Cluster(s) <==> {
            ||| ty == 0 && inflated(data, cs) == Some(s)
            ||| ty == 1 && frame_bounded(data) && zstd_prefix(data, cs + 1) == Some(s) && s.len()
                == cs
        },
        decoded(data, ty, cs) is UnknownType <==> ty > 1,
{
}

} // verus!
