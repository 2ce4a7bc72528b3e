//! Big-endian integers and byte ranges.
//!
//! Every multi-byte field of a QCOW2 image is big-endian. The functions here
//! read and write such fields in byte slices; their specifications speak of the
//! slice as a mathematical sequence.

use vstd::prelude::*;

verus! {

/// The big-endian `u16` whose first byte is at `off`.
pub open spec fn be16(s: Seq<u8>, off: int) -> u16 {
    (s[off] * 0x100 + s[off + 1]) as u16
}

/// The big-endian `u32` whose first byte is at `off`.
pub open spec fn be32(s: Seq<u8>, off: int) -> u32 {
    (s[off] * 0x100_0000 + s[off + 1] * 0x1_0000 + s[off + 2] * 0x100 + s[off + 3]) as u32
}

/// The big-endian `u64` whose first byte is at `off`.
pub open spec fn be64(s: Seq<u8>, off: int) -> u64 {
    (be32(s, off) * 0x1_0000_0000 + be32(s, off + 4)) as u64
}

/// The two bytes of `x`, most significant first.
pub open spec fn be16_bytes(x: u16) -> Seq<u8> {
    seq![(x / 0x100) as u8, (x % 0x100) as u8]
}

/// The four bytes of `x`, most significant first.
pub open spec fn be32_bytes(x: u32) -> Seq<u8> {
    seq![
        (x / 0x100_0000) as u8,
        (x / 0x1_0000 % 0x100) as u8,
        (x / 0x100 % 0x100) as u8,
        (x % 0x100) as u8,
    ]
}

/// The eight bytes of `x`, most significant first.
pub open spec fn be64_bytes(x: u64) -> Seq<u8> {
    be32_bytes((x / 0x1_0000_0000) as u32) + be32_bytes((x % 0x1_0000_0000) as u32)
}

/// `n` zero bytes.
pub open spec fn zeros(n: int) -> Seq<u8> {
    Seq::new(n as nat, |i: int| 0u8)
}

/// `s` with `data` laid over it from `off` on. Bytes between the end of `s` and
/// `off` become zero, and the result is long enough to hold all of `data`.
pub open spec fn overwrite(s: Seq<u8>, off: int, data: Seq<u8>) -> Seq<u8> {
    if data.len() == 0 {
        s
    } else {
        Seq::new(
            (if off + data.len() > s.len() { off + data.len() } else { s.len() as int }) as nat,
            |i: int|
                if off <= i < off + data.len() {
                    data[i - off]
                } else if i < s.len() {
                    s[i]
                } else {
                    0u8
                },
        )
    }
}

/// The bytes of `v` are those of `s` from `off` on.
pub open spec fn found_at(s: Seq<u8>, off: int, v: Seq<u8>) -> bool {
    &&& v.len() > 0 ==> off + v.len() <= s.len()
    &&& forall|i: int| 0 <= i < v.len() ==> #[trigger] v[i] == s[off + i]
}

/// To change some bytes of a block and write the whole block back is to change
/// those bytes where they are.
pub(crate) proof fn lemma_overwrite_patch(s: Seq<u8>, off: int, block: Seq<u8>, at: int, data: Seq<u8>)
    requires
        off >= 0,
        found_at(s, off, block),
        0 <= at,
        at + data.len() <= block.len(),
    ensures
        overwrite(s, off, overwrite(block, at, data)) == overwrite(s, off + at, data),
{
    let patched = overwrite(block, at, data);
    if block.len() > 0 {
        assert(patched.len() == block.len());
        let a = overwrite(s, off, patched);
        let b = overwrite(s, off + at, data);
        assert forall|i: int| 0 <= i < s.len() implies a[i] == b[i] by {
            if off <= i < off + block.len() {
                assert(a[i] == patched[i - off]);
                assert(block[i - off] == s[off + (i - off)]);
            }
        }
        assert(a =~= b);
    }
}

/// A `u16` in a part of `s` is the one in `s`.
pub(crate) proof fn lemma_found_be16(s: Seq<u8>, off: int, v: Seq<u8>, at: int)
    requires
        found_at(s, off, v),
        0 <= at,
        at + 2 <= v.len(),
    ensures
        be16(v, at) == be16(s, off + at),
{
    assert(v[at] == s[off + at]);
    assert(v[at + 1] == s[off + (at + 1)]);
}

/// A `u64` in a part of `s` is the one in `s`.
pub(crate) proof fn lemma_found_be64(s: Seq<u8>, off: int, v: Seq<u8>, at: int)
    requires
        found_at(s, off, v),
        0 <= at,
        at + 8 <= v.len(),
    ensures
        be64(v, at) == be64(s, off + at),
{
    assert forall|k: int| 0 <= k < 8 implies #[trigger] v[at + k] == s[off + at + k] by {
        assert(v[at + k] == s[off + (at + k)]);
    }
    assert(v[at + 0] == s[off + at + 0]);
    assert(v[at + 4] == s[off + at + 4]);
}

/// What `be32_bytes` writes, `be32` reads back.
proof fn lemma_be32_round_trip(s: Seq<u8>, off: int, x: u32)
    requires
        forall|i: int| 0 <= i < 4 ==> s[off + i] == #[trigger] be32_bytes(x)[i],
    ensures
        be32(s, off) == x,
{
    let b = be32_bytes(x);
    assert(s[off + 0] == b[0] && s[off + 1] == b[1] && s[off + 2] == b[2] && s[off + 3] == b[3]);
    assert(x == x / 0x100_0000 * 0x100_0000 + x / 0x1_0000 % 0x100 * 0x1_0000 + x / 0x100 % 0x100
        * 0x100 + x % 0x100) by (bit_vector);
}

/// What `be64_bytes` writes, `be64` reads back.
pub(crate) proof fn lemma_be64_round_trip(s: Seq<u8>, off: int, x: u64)
    requires
        forall|i: int| 0 <= i < 8 ==> s[off + i] == #[trigger] be64_bytes(x)[i],
    ensures
        be64(s, off) == x,
{
    let hi: u32 = (x / 0x1_0000_0000) as u32;
    let lo: u32 = (x % 0x1_0000_0000) as u32;
    assert forall|i: int| 0 <= i < 4 implies s[off + i] == #[trigger] be32_bytes(hi)[i] by {
        assert(s[off + i] == be64_bytes(x)[i]);
    }
    assert forall|i: int| 0 <= i < 4 implies s[off + 4 + i] == #[trigger] be32_bytes(lo)[i] by {
        assert(s[off + (i + 4)] == be64_bytes(x)[i + 4]);
    }
    lemma_be32_round_trip(s, off, hi);
    lemma_be32_round_trip(s, off + 4, lo);
}

/// What `be16_bytes` writes, `be16` reads back.
pub(crate) proof fn lemma_be16_round_trip(s: Seq<u8>, off: int, x: u16)
    requires
        s[off] == be16_bytes(x)[0],
        s[off + 1] == be16_bytes(x)[1],
    ensures
        be16(s, off) == x,
{
}

/// Reads the big-endian `u16` at `off`.
pub fn read_u16(b: &[u8], off: usize) -> (x: u16)
    requires
        off + 2 <= b@.len(),
    ensures
        x == be16(b@, off as int),
{
    (b[off] as u16) * 0x100 + (b[off + 1] as u16)
}

/// Reads the big-endian `u32` at `off`.
pub fn read_u32(b: &[u8], off: usize) -> (x: u32)
    requires
        off + 4 <= b@.len(),
    ensures
        x == be32(b@, off as int),
{
    (b[off] as u32) * 0x100_0000 + (b[off + 1] as u32) * 0x1_0000 + (b[off + 2] as u32) * 0x100
        + (b[off + 3] as u32)
}

/// Reads the big-endian `u64` at `off`.
pub fn read_u64(b: &[u8], off: usize) -> (x: u64)
    requires
        off + 8 <= b@.len(),
    ensures
        x == be64(b@, off as int),
{
    assert(off + 8 <= b.len());
    (read_u32(b, off) as u64) * 0x1_0000_0000 + (read_u32(b, off + 4) as u64)
}

/// The two bytes of `x`, most significant first.
pub fn u16_to_bytes(x: u16) -> (b: Vec<u8>)
    ensures
        b@ == be16_bytes(x),
{
    let b: Vec<u8> = vec![(x / 0x100) as u8, (x % 0x100) as u8];
    assert(b@ =~= be16_bytes(x));
    b
}

/// The eight bytes of `x`, most significant first.
pub fn u64_to_bytes(x: u64) -> (b: Vec<u8>)
    ensures
        b@ == be64_bytes(x),
{
    let hi: u32 = (x / 0x1_0000_0000) as u32;
    let lo: u32 = (x % 0x1_0000_0000) as u32;
    let b: Vec<u8> = vec![
        (hi / 0x100_0000) as u8,
        (hi / 0x1_0000 % 0x100) as u8,
        (hi / 0x100 % 0x100) as u8,
        (hi % 0x100) as u8,
        (lo / 0x100_0000) as u8,
        (lo / 0x1_0000 % 0x100) as u8,
        (lo / 0x100 % 0x100) as u8,
        (lo % 0x100) as u8,
    ];
    assert(b@ =~= be64_bytes(x));
    b
}

/// A buffer of `n` zero bytes.
pub fn zero_vec(n: usize) -> (v: Vec<u8>)
    ensures
        v@ == zeros(n as int),
{
    let v: Vec<u8> = vec![0u8; n];
    assert(v@ =~= zeros(n as int));
    v
}

/// Copies all of `src` into `dst`, starting at `at`.
pub fn copy_into(dst: &mut [u8], at: usize, src: &[u8])
    requires
        at + src@.len() <= old(dst)@.len(),
    ensures
        final(dst)@ == overwrite(old(dst)@, at as int, src@),
{
    let n: usize = src.len();
    let mut i: usize = 0;
    let ghost before = dst@;
    assert(before.len() == dst.len());
    while i < n
        invariant
            n == src@.len(),
            i <= n,
            at + n <= before.len(),
            before.len() <= usize::MAX,
            dst@.len() == before.len(),
            forall|j: int| 0 <= j < before.len() ==> #[trigger] dst@[j] == (if at <= j < at + i {
                src@[j - at]
            } else {
                before[j]
            }),
        decreases n - i,
    {
        dst[at + i] = src[i];
        i = i + 1;
    }
    assert(dst@ =~= overwrite(before, at as int, src@));
}

} // verus!
