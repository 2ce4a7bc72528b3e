//! What the bytes of an image mean, told from the published layout: which bytes spell
//! which field, which bits of an entry say what, and where a count lies.
//!
//! The numbers here are those of the format itself. Bytes are put together to numbers by
//! [`spelled`], and bits are told apart by division.

use crate::bytes::{be16, be16_bytes, be32, be64, be64_bytes, found_at, overwrite};
use crate::entry::{
    compressed_extra_sectors, compressed_span, compressed_start, fresh_entry, map_of_entry,
    ClusterMap, L2_FLAG_COPIED, OFFSET_MASK,
};
use crate::error::Error;
use crate::header::{header_fields, header_refusal, incompat, Header};
use crate::laws::compressed_entry;
use vstd::arithmetic::power2::{lemma2_to64, lemma2_to64_rest, pow2};
use vstd::prelude::*;

verus! {

/// The number that the bytes `b` spell, the most significant one first.
pub open spec fn spelled(b: Seq<u8>) -> int
    decreases b.len(),
{
    if b.len() == 0 {
        0
    } else {
        spelled(b.drop_last()) * 256 + b.last()
    }
}

/// The number that the `width` bytes of `b` from `at` on spell.
pub open spec fn field(b: Seq<u8>, at: int, width: int) -> int {
    spelled(b.subrange(at, at + width))
}

/// A field with one more byte.
proof fn lemma_one_byte_more(b: Seq<u8>, at: int, width: int)
    requires
        0 <= at,
        0 < width,
        at + width <= b.len(),
    ensures
        field(b, at, width) == field(b, at, width - 1) * 256 + b[at + width - 1],
{
    let s = b.subrange(at, at + width);
    assert(s.drop_last() =~= b.subrange(at, at + width - 1));
    assert(s.last() == b[at + width - 1]);
}

/// A field of two bytes.
proof fn lemma_field_2(b: Seq<u8>, at: int)
    requires
        0 <= at,
        at + 2 <= b.len(),
    ensures
        field(b, at, 2) == b[at] * 256 + b[at + 1],
{
    assert(field(b, at, 0) == 0);
    lemma_one_byte_more(b, at, 1);
    lemma_one_byte_more(b, at, 2);
}

/// A field of four bytes.
proof fn lemma_field_4(b: Seq<u8>, at: int)
    requires
        0 <= at,
        at + 4 <= b.len(),
    ensures
        field(b, at, 4) == b[at] * 0x100_0000 + b[at + 1] * 0x1_0000 + b[at + 2] * 0x100 + b[at
            + 3],
{
    lemma_field_2(b, at);
    lemma_one_byte_more(b, at, 3);
    lemma_one_byte_more(b, at, 4);
}

/// A field of eight bytes.
proof fn lemma_field_8(b: Seq<u8>, at: int)
    requires
        0 <= at,
        at + 8 <= b.len(),
    ensures
        field(b, at, 8) == field(b, at, 4) * 0x1_0000_0000 + field(b, at + 4, 4),
{
    lemma_field_4(b, at);
    lemma_field_4(b, at + 4);
    lemma_one_byte_more(b, at, 5);
    lemma_one_byte_more(b, at, 6);
    lemma_one_byte_more(b, at, 7);
    lemma_one_byte_more(b, at, 8);
}

/// Numbers are big-endian: two, four or eight bytes are read as the number that they
/// spell.
pub proof fn numbers_are_read_as_spelled(b: Seq<u8>, at: int)
    requires
        0 <= at,
    ensures
        at + 2 <= b.len() ==> be16(b, at) == field(b, at, 2),
        at + 4 <= b.len() ==> be32(b, at) == field(b, at, 4),
        at + 8 <= b.len() ==> be64(b, at) == field(b, at, 8),
{
    if at + 2 <= b.len() {
        lemma_field_2(b, at);
    }
    if at + 4 <= b.len() {
        lemma_field_4(b, at);
    }
    if at + 8 <= b.len() {
        lemma_field_4(b, at + 4);
        lemma_field_8(b, at);
    }
}

/// A number that is stored in two or eight bytes is the one that they spell.
pub proof fn numbers_are_stored_as_spelled(x: u16, y: u64)
    ensures
        be16_bytes(x).len() == 2,
        spelled(be16_bytes(x)) == x,
        be64_bytes(y).len() == 8,
        spelled(be64_bytes(y)) == y,
{
    let b = be16_bytes(x);
    lemma_field_2(b, 0);
    assert(b.subrange(0, 2) =~= b);
    let c = be64_bytes(y);
    lemma_field_4(c, 0);
    lemma_field_4(c, 4);
    lemma_field_8(c, 0);
    assert(c.subrange(0, 8) =~= c);
    crate::bytes::lemma_be64_round_trip(c, 0, y);
}

/// Bytes that are laid over others are found where they were laid; every other byte is
/// what it was, and zero where there was none.
pub proof fn bytes_laid_over_are_found(s: Seq<u8>, off: int, data: Seq<u8>, i: int)
    requires
        0 <= off,
        0 < data.len(),
    ensures
        ({
            let t = overwrite(s, off, data);
            &&& t.len() >= s.len() && t.len() >= off + data.len()
            &&& t.len() == s.len() || t.len() == off + data.len()
            &&& t.subrange(off, off + data.len()) == data
            &&& 0 <= i < s.len() && i < off ==> t[i] == s[i]
            &&& off + data.len() <= i < s.len() ==> t[i] == s[i]
            &&& s.len() <= i < off ==> t[i] == 0
            &&& found_at(t, off, data)
        }),
        overwrite(s, off, Seq::empty()) == s,
{
    let t = overwrite(s, off, data);
    assert(t.subrange(off, off + data.len()) =~= data);
}

/// What is found at a place is what lies there.
pub proof fn what_is_found_lies_there(s: Seq<u8>, off: int, v: Seq<u8>)
    requires
        0 <= off,
        off + v.len() <= s.len(),
    ensures
        found_at(s, off, v) <==> v == s.subrange(off, off + v.len()),
{
    let u = s.subrange(off, off + v.len());
    assert(forall|i: int| 0 <= i < v.len() ==> u[i] == s[off + i]);
    if found_at(s, off, v) {
        assert(v =~= u);
    }
}

/// A cluster is two to the power of `cluster_bits` bytes long.
pub(crate) proof fn lemma_cluster_is_power(bits: u32)
    requires
        9 <= bits <= 21,
    ensures
        1u64 << bits == pow2(bits as nat),
        512 <= pow2(bits as nat) <= 0x20_0000,
{
    lemma2_to64();
    lemma2_to64_rest();
    assert((1u64 << bits) == 0x200 || (1u64 << bits) == 0x400 || (1u64 << bits) == 0x800 || (1u64
        << bits) == 0x1000 || (1u64 << bits) == 0x2000 || (1u64 << bits) == 0x4000 || (1u64 << bits)
        == 0x8000 || (1u64 << bits) == 0x1_0000 || (1u64 << bits) == 0x2_0000 || (1u64 << bits)
        == 0x4_0000 || (1u64 << bits) == 0x8_0000 || (1u64 << bits) == 0x10_0000 || (1u64 << bits)
        == 0x20_0000) by (bit_vector)
        requires
            9 <= bits <= 21,
    ;
    vstd::bits::lemma_u64_pow2_no_overflow(bits as nat);
    vstd::bits::lemma_u64_mul_pow2_le_max_iff_max_shr(1, bits as u64, u64::MAX);
    vstd::bits::lemma_u64_shl_is_mul(1, bits as u64);
}

/// The fields of `h` are the numbers that the bytes `b` spell, each at its offset and in
/// its width.
pub open spec fn header_spelled(b: Seq<u8>, h: Header) -> bool {
    &&& field(b, 4, 4) == h.version
    &&& field(b, 8, 8) == h.backing_file_offset
    &&& field(b, 16, 4) == h.backing_file_size
    &&& field(b, 20, 4) == h.cluster_bits
    &&& field(b, 24, 8) == h.virtual_size
    &&& field(b, 32, 4) == h.crypt_method
    &&& field(b, 36, 4) == h.l1_size
    &&& field(b, 40, 8) == h.l1_table_offset
    &&& field(b, 48, 8) == h.refcount_table_offset
    &&& field(b, 56, 4) == h.refcount_table_clusters
    &&& field(b, 60, 4) == h.nb_snapshots
    &&& field(b, 64, 8) == h.snapshots_offset
    &&& h.cluster_size == pow2(h.cluster_bits as nat)
    &&& h.version == 3 ==> {
        &&& field(b, 72, 8) == h.incompatible_features
        &&& field(b, 80, 8) == h.compatible_features
        &&& field(b, 88, 8) == h.autoclear_features
        &&& field(b, 96, 4) == h.refcount_order
        &&& field(b, 100, 4) == h.header_length
    }
}

/// A header is read as it was written: every field of a header that is accepted is the
/// number that its bytes spell.
pub proof fn header_is_read_as_written(b: Seq<u8>)
    requires
        header_refusal(b) is None,
    ensures
        header_spelled(b, header_fields(b)),
{
    let h = header_fields(b);
    numbers_are_read_as_spelled(b, 4);
    numbers_are_read_as_spelled(b, 8);
    numbers_are_read_as_spelled(b, 16);
    numbers_are_read_as_spelled(b, 20);
    numbers_are_read_as_spelled(b, 24);
    numbers_are_read_as_spelled(b, 32);
    numbers_are_read_as_spelled(b, 36);
    numbers_are_read_as_spelled(b, 40);
    numbers_are_read_as_spelled(b, 48);
    numbers_are_read_as_spelled(b, 56);
    numbers_are_read_as_spelled(b, 60);
    numbers_are_read_as_spelled(b, 64);
    lemma_cluster_is_power(h.cluster_bits);
    if h.version == 3 {
        numbers_are_read_as_spelled(b, 72);
        numbers_are_read_as_spelled(b, 80);
        numbers_are_read_as_spelled(b, 88);
        numbers_are_read_as_spelled(b, 96);
        numbers_are_read_as_spelled(b, 100);
    }
}

/// The fields that only version 3 has are read as they were written, too. In version 2
/// there are no features, counts are two to the power of four bits wide, the header is
/// 72 bytes long, and clusters are compressed with zlib.
pub proof fn later_fields_are_read_as_written(b: Seq<u8>)
    requires
        header_refusal(b) is None,
    ensures
        ({
            let h = header_fields(b);
            &&& h.version == 2 || h.version == 3
            &&& h.version == 3 ==> {
                &&& field(b, 72, 8) == h.incompatible_features
                &&& field(b, 80, 8) == h.compatible_features
                &&& field(b, 88, 8) == h.autoclear_features
                &&& field(b, 96, 4) == h.refcount_order
                &&& field(b, 100, 4) == h.header_length
                &&& field(b, 100, 4) > 104 && b.len() > 104 ==> h.compression_type == b[104]
                &&& field(b, 100, 4) <= 104 || b.len() <= 104 ==> h.compression_type == 0
            }
            &&& h.version == 2 ==> {
                &&& h.incompatible_features == 0
                &&& h.compatible_features == 0
                &&& h.autoclear_features == 0
                &&& pow2(h.refcount_order as nat) == 16
                &&& h.header_length == 72
                &&& h.compression_type == 0
            }
        }),
{
    let h = header_fields(b);
    if h.version == 3 {
        numbers_are_read_as_spelled(b, 72);
        numbers_are_read_as_spelled(b, 80);
        numbers_are_read_as_spelled(b, 88);
        numbers_are_read_as_spelled(b, 96);
        numbers_are_read_as_spelled(b, 100);
    } else {
        lemma2_to64();
    }
}

/// Which bytes are a header: those that start with the magic, say version 2 or 3 and a
/// cluster size from 512 bytes to 2 MiB, are as long as that version asks for, and have
/// an L1 table that reaches the end of the disk, one entry for each eighth of a cluster's
/// length of clusters.
pub proof fn header_is_accepted_exactly(b: Seq<u8>)
    ensures
        header_refusal(b) is None <==> {
            let span = pow2(field(b, 20, 4) as nat) * (pow2(field(b, 20, 4) as nat) / 8);
            &&& b.len() >= 72
            &&& b[0] == 0x51 && b[1] == 0x46 && b[2] == 0x49 && b[3] == 0xfb
            &&& field(b, 4, 4) == 2 || field(b, 4, 4) == 3 && b.len() >= 104
            &&& 9 <= field(b, 20, 4) <= 21
            &&& field(b, 24, 8) <= field(b, 36, 4) * span
        },
{
    if b.len() >= 72 {
        numbers_are_read_as_spelled(b, 4);
        numbers_are_read_as_spelled(b, 20);
        numbers_are_read_as_spelled(b, 24);
        numbers_are_read_as_spelled(b, 36);
        if 9 <= be32(b, 20) <= 21 {
            lemma_cluster_is_power(be32(b, 20));
        }
    }
}

/// What is no header is refused for the first thing that is wrong with it.
pub proof fn header_is_refused_for_a_reason(b: Seq<u8>)
    ensures
        b.len() < 72 ==> header_refusal(b) == Some(Error::Corrupt("header shorter than 72 bytes")),
        b.len() >= 72 && !(b[0] == 0x51 && b[1] == 0x46 && b[2] == 0x49 && b[3] == 0xfb)
            ==> header_refusal(b) == Some(Error::NotQcow2),
        b.len() >= 72 && b[0] == 0x51 && b[1] == 0x46 && b[2] == 0x49 && b[3] == 0xfb ==> {
            let version = field(b, 4, 4);
            let bits = field(b, 20, 4);
            &&& version != 2 && version != 3 ==> header_refusal(b) == Some(
                Error::UnsupportedVersion(version as u32),
            )
            &&& (version == 2 || version == 3) && !(9 <= bits <= 21) ==> header_refusal(b) == Some(
                Error::InvalidClusterBits(bits as u32),
            )
            &&& version == 3 && 9 <= bits <= 21 && b.len() < 104 ==> header_refusal(b) == Some(
                Error::Corrupt("v3 header shorter than 104 bytes"),
            )
            &&& (version == 2 || version == 3 && b.len() >= 104) && 9 <= bits <= 21 ==> (
            header_refusal(b) matches Some(e) ==> e == Error::Corrupt(
                "l1_size too small for virtual_size",
            ))
        },
{
    if b.len() >= 72 {
        numbers_are_read_as_spelled(b, 4);
        numbers_are_read_as_spelled(b, 20);
    }
}

/// Whatever follows the first 72 bytes means nothing to a header of version 2.
pub proof fn version_2_ends_at_72(b: Seq<u8>, c: Seq<u8>)
    requires
        b.len() >= 72,
        c.len() >= 72,
        b.subrange(0, 72) == c.subrange(0, 72),
        field(b, 4, 4) == 2,
    ensures
        header_refusal(b) == header_refusal(c),
        header_fields(b) == header_fields(c),
{
    assert forall|i: int| 0 <= i < 72 implies b[i] == #[trigger] c[i] by {
        assert(b[i] == b.subrange(0, 72)[i]);
        assert(c[i] == c.subrange(0, 72)[i]);
    }
    numbers_are_read_as_spelled(b, 4);
    assert(be32(b, 4) == 2);
    assert(be32(c, 4) == 2);
    assert(header_fields(b) == header_fields(c));
}

/// Bit `n` of `x`.
pub open spec fn bit(x: u64, n: nat) -> bool {
    x as int / pow2(n) as int % 2 == 1
}

/// The bits that are looked at, told apart by division.
pub(crate) proof fn lemma_bits(x: u64)
    ensures
        bit(x, 0) <==> x & 0x1 != 0,
        bit(x, 1) <==> x & 0x2 != 0,
        bit(x, 2) <==> x & 0x4 != 0,
        bit(x, 4) <==> x & 0x10 != 0,
        bit(x, 62) <==> x & 0x4000_0000_0000_0000 != 0,
        bit(x, 63) <==> x & 0x8000_0000_0000_0000 != 0,
{
    lemma2_to64();
    lemma2_to64_rest();
    assert((x & 0x1 != 0) == (x / 1 % 2 == 1) && (x & 0x2 != 0) == (x / 2 % 2 == 1) && (x & 0x4
        != 0) == (x / 4 % 2 == 1) && (x & 0x10 != 0) == (x / 16 % 2 == 1) && (x
        & 0x4000_0000_0000_0000 != 0) == (x / 0x4000_0000_0000_0000 % 2 == 1) && (x
        & 0x8000_0000_0000_0000 != 0) == (x / 0x8000_0000_0000_0000 % 2 == 1)) by (bit_vector);
}

/// Which images can be read: those that are not encrypted and, from version 3 on, have no
/// incompatible feature but dirty counts (bit 0), damage (bit 1) and a compression type
/// (bit 3), which is zlib or zstd.
pub proof fn image_is_supported_exactly(h: Header)
    ensures
        h.support_refusal() is None <==> h.crypt_method == 0 && (h.version >= 3 ==> {
            &&& h.incompatible_features < 16
            &&& !bit(h.incompatible_features, 2)
            &&& h.compression_type == 0 || h.compression_type == 1
        }),
        h.support_refusal() matches Some(e) ==> e is Unsupported,
        h.crypt_method != 0 ==> h.support_refusal() == Some(
            Error::Unsupported("encryption (AES or LUKS)"),
        ),
        h.crypt_method == 0 && h.version >= 3 && bit(h.incompatible_features, 2)
            ==> h.support_refusal() == Some(Error::Unsupported("external data file")),
        h.crypt_method == 0 && h.version >= 3 && !bit(h.incompatible_features, 2) && bit(
            h.incompatible_features,
            4,
        ) ==> h.support_refusal() == Some(Error::Unsupported("extended L2 entries")),
        h.crypt_method == 0 && h.version >= 3 && !bit(h.incompatible_features, 2) && !bit(
            h.incompatible_features,
            4,
        ) && h.incompatible_features >= 16 ==> h.support_refusal() == Some(
            Error::Unsupported("unknown incompatible_features bit"),
        ),
        h.crypt_method == 0 && h.version >= 3 && !bit(h.incompatible_features, 2)
            && h.incompatible_features < 16 && h.compression_type > 1 ==> h.support_refusal()
            == Some(Error::Unsupported("unknown compression_type")),
{
    let x = h.incompatible_features;
    lemma_bits(x);
    assert((x & !(0x1u64 | 0x2u64 | 0x8u64) == 0) == (x < 16 && x & 0x4 == 0) && (x & 0x10 != 0
        ==> x >= 16)) by (bit_vector);
}

/// Which images can be written: those that are marked neither dirty (bit 0) nor corrupt
/// (bit 1).
pub proof fn image_is_writable_exactly(h: Header)
    ensures
        h.write_refusal() is None <==> !bit(h.incompatible_features, 0) && !bit(
            h.incompatible_features,
            1,
        ),
        bit(h.incompatible_features, 1) ==> h.write_refusal() == Some(
            Error::Unsupported("writing to an image that is marked corrupt"),
        ),
        bit(h.incompatible_features, 0) && !bit(h.incompatible_features, 1) ==> h.write_refusal()
            == Some(Error::Unsupported("writing to an image whose refcounts are marked dirty")),
        h.incompatible_features & incompat::CORRUPT != 0 <==> bit(h.incompatible_features, 1),
        h.incompatible_features & incompat::DIRTY != 0 <==> bit(h.incompatible_features, 0),
{
    lemma_bits(h.incompatible_features);
}

/// Which tables can lie where the header says: the L1 table, of eight bytes for each
/// entry, and the refcount table, of whole clusters; both start at a cluster, and end on
/// the device if there is anything in them.
pub proof fn tables_are_accepted_exactly(h: Header, size: int)
    requires
        h.geometry_ok(),
    ensures
        h.layout_refusal(size) is None <==> {
            let cs = pow2(h.cluster_bits as nat) as int;
            &&& h.l1_table_offset as int % cs == 0
            &&& h.refcount_table_offset as int % cs == 0
            &&& h.l1_size == 0 || h.l1_table_offset + 8 * h.l1_size <= size
            &&& h.refcount_table_clusters == 0 || h.refcount_table_offset
                + h.refcount_table_clusters * cs <= size
        },
        h.layout_refusal(size) matches Some(e) ==> {
            let cs = pow2(h.cluster_bits as nat) as int;
            ||| h.l1_table_offset as int % cs != 0 && e == Error::Corrupt(
                "l1_table_offset is not cluster-aligned",
            )
            ||| h.refcount_table_offset as int % cs != 0 && e == Error::Corrupt(
                "refcount_table_offset is not cluster-aligned",
            )
            ||| h.l1_table_offset + 8 * h.l1_size > size && e == Error::Corrupt(
                "l1 table runs past the end of the image",
            )
            ||| h.refcount_table_offset + h.refcount_table_clusters * cs > size && e
                == Error::Corrupt("refcount table runs past the end of the image")
        },
{
    lemma_cluster_is_power(h.cluster_bits);
}

/// An image has a file behind it if both the place and the length of its name are given.
/// The name is at most 1024 bytes long and starts in the first cluster.
pub proof fn backing_name_is_accepted_exactly(h: Header)
    requires
        h.geometry_ok(),
    ensures
        h.names_backing() <==> h.backing_file_offset > 0 && h.backing_file_size > 0,
        h.backing_name_refusal() is None <==> h.backing_file_size <= 1024 && h.backing_file_offset
            < pow2(h.cluster_bits as nat),
        h.backing_file_size > 1024 ==> h.backing_name_refusal() == Some(
            Error::Corrupt("backing_file_size > 1024 bytes"),
        ),
        h.backing_file_size <= 1024 && h.backing_file_offset >= pow2(h.cluster_bits as nat)
            ==> h.backing_name_refusal() == Some(
            Error::Corrupt("backing file name is not within the first cluster"),
        ),
{
    lemma_cluster_is_power(h.cluster_bits);
}

/// The host offset in an entry: its bits 9 to 55.
pub open spec fn host_bits(e: u64) -> int {
    e as int / 512 % 0x8000_0000_0000 * 512
}

/// The offset in an entry, told by division.
pub(crate) proof fn lemma_host_bits(e: u64)
    ensures
        e & OFFSET_MASK == host_bits(e),
        0 <= host_bits(e) < 0x100_0000_0000_0000,
        host_bits(e) % 512 == 0,
{
    assert(e & OFFSET_MASK == e / 512 % 0x8000_0000_0000 * 512 && e / 512 % 0x8000_0000_0000
        < 0x8000_0000_0000) by (bit_vector);
}

/// What an L2 entry says, bit by bit. Bit 62 is for a compressed cluster. Without it,
/// bit 0 is for one that reads as zeros, from version 3 on; then bits 9 to 55 are where
/// the cluster lies, and bit 63 says that nothing else refers to it. There is no cluster
/// if those bits are zero, and no meaning if they do not name the start of one.
pub proof fn entry_means_what_its_bits_say(h: Header, e: u64)
    requires
        h.geometry_ok(),
    ensures
        bit(e, 62) <==> (map_of_entry(h, e) matches Some(m) && m is Compressed),
        !bit(e, 62) && h.version >= 3 && bit(e, 0) <==> map_of_entry(h, e) == Some(
            ClusterMap::Zero,
        ),
        !bit(e, 62) && !(h.version >= 3 && bit(e, 0)) ==> {
            let cs = pow2(h.cluster_bits as nat) as int;
            map_of_entry(h, e) == if host_bits(e) == 0 {
                Some(ClusterMap::Unallocated)
            } else if host_bits(e) % cs != 0 {
                None
            } else {
                Some(ClusterMap::Plain { host_off: host_bits(e) as u64, copied: bit(e, 63) })
            }
        },
{
    lemma_bits(e);
    lemma_host_bits(e);
    lemma_cluster_is_power(h.cluster_bits);
}

/// The L2 entry of a data cluster is read as it was written: the offset, and one bit that
/// says whether the cluster is the image's alone.
pub proof fn data_entry_is_read_as_written(h: Header, host_off: u64, copied: bool, e: u64)
    requires
        h.geometry_ok(),
        0 < host_off < 0x100_0000_0000_0000,
        host_off as int % pow2(h.cluster_bits as nat) as int == 0,
        e == host_off + (if copied {
            0x8000_0000_0000_0000int
        } else {
            0
        }),
    ensures
        map_of_entry(h, e) == Some(ClusterMap::Plain { host_off, copied }),
{
    lemma_cluster_is_power(h.cluster_bits);
    let cs = h.cluster_size as int;
    let m = cs / 512;
    let q = host_off as int / cs;
    crate::header::lemma_cluster_size(h.cluster_bits);
    vstd::arithmetic::div_mod::lemma_fundamental_div_mod(host_off as int, cs);
    assert(host_off == 512 * (m * q)) by (nonlinear_arith)
        requires
            host_off == cs * q,
            cs == 512 * m,
    ;
    let top: u64 = if copied {
        0x8000_0000_0000_0000
    } else {
        0
    };
    assert(e & 0x00ff_ffff_ffff_fe00 == host_off && e & 0x4000_0000_0000_0000 == 0 && e & 0x1 == 0
        && (e & 0x8000_0000_0000_0000 != 0) == (top != 0)) by (bit_vector)
        requires
            host_off % 512 == 0,
            host_off < 0x100_0000_0000_0000,
            top == 0 || top == 0x8000_0000_0000_0000,
            e == host_off + top,
    ;
}

/// The entry that is written for a new cluster is its offset, with the bit that says that
/// nothing else refers to it.
pub proof fn new_entry_is_the_offset_with_a_flag(host_off: u64)
    requires
        host_off < 0x100_0000_0000_0000,
        host_off % 512 == 0,
    ensures
        fresh_entry(host_off) == 0x8000_0000_0000_0000 + host_off,
{
    assert((host_off & OFFSET_MASK) | L2_FLAG_COPIED == 0x8000_0000_0000_0000 + host_off)
        by (bit_vector)
        requires
            host_off < 0x100_0000_0000_0000,
            host_off % 512 == 0,
    ;
}

/// The L2 entry of a compressed cluster is read as it was written, at every cluster size:
/// the lower bits, fewer where clusters are larger, are where it starts; those above them
/// are how many sectors of 512 bytes it reaches into after its first one. It is read up
/// to the end of its last sector.
pub proof fn compressed_entry_is_read_as_written(h: Header, start: u64, extra: u64, e: u64)
    requires
        h.geometry_ok(),
        start < pow2((70 - h.cluster_bits) as nat),
        extra < pow2((h.cluster_bits - 8) as nat),
        e == 0x4000_0000_0000_0000 + extra * pow2((70 - h.cluster_bits) as nat) + start,
    ensures
        map_of_entry(h, e) == Some(
            ClusterMap::Compressed {
                host_off: start,
                byte_len: (start as int / 512 * 512 + (extra + 1) * 512 - start) as usize,
            },
        ),
        0 < start as int / 512 * 512 + (extra + 1) * 512 - start <= usize::MAX,
{
    let bits = h.cluster_bits;
    let ob: u32 = (70 - bits) as u32;
    let eb: u32 = (bits - 8) as u32;
    let unit: u64 = 1u64 << ob;
    vstd::bits::lemma_u64_pow2_no_overflow(ob as nat);
    vstd::bits::lemma_u64_shl_is_mul(1, ob as u64);
    vstd::bits::lemma_u64_pow2_no_overflow(eb as nat);
    vstd::bits::lemma_u64_shl_is_mul(1, eb as u64);
    assert(unit == pow2(ob as nat));
    assert(1u64 << eb == pow2(eb as nat));
    vstd::arithmetic::power2::lemma_pow2_adds(ob as nat, eb as nat);
    lemma2_to64();
    lemma2_to64_rest();
    assert(pow2(62) == 0x4000_0000_0000_0000);
    let d = extra * unit + start;
    assert(0 <= d < 0x4000_0000_0000_0000) by (nonlinear_arith)
        requires
            d == extra * unit + start,
            0 <= start < unit,
            0 <= extra,
            extra + 1 <= pow2(eb as nat),
            unit == pow2(ob as nat),
            pow2(ob as nat) * pow2(eb as nat) == 0x4000_0000_0000_0000,
    ;
    let du = d as u64;
    assert(e & 0x4000_0000_0000_0000 != 0 && e & 0x3fff_ffff_ffff_ffff == du) by (bit_vector)
        requires
            e == 0x4000_0000_0000_0000u64 + du,
            du < 0x4000_0000_0000_0000,
    ;
    vstd::arithmetic::div_mod::lemma_fundamental_div_mod_converse(
        d,
        unit as int,
        extra as int,
        start as int,
    );
    assert(extra < 0x2000) by {
        assert(1u64 << eb <= 0x2000) by (bit_vector)
            requires
                1 <= eb <= 13,
        ;
    }
}

/// The L2 entry that is put together for a compressed cluster is read as that cluster, at
/// every cluster size.
pub proof fn compressed_cluster_is_found_again(h: Header, start: u64, extra: u64)
    requires
        h.geometry_ok(),
        start < pow2((70 - h.cluster_bits) as nat),
        extra < pow2((h.cluster_bits - 8) as nat),
    ensures
        map_of_entry(h, compressed_entry(start, extra, h.cluster_bits)) == Some(
            ClusterMap::Compressed {
                host_off: start,
                byte_len: (start as int / 512 * 512 + (extra + 1) * 512 - start) as usize,
            },
        ),
{
    let ob: u32 = (70 - h.cluster_bits) as u32;
    let eb: u32 = (h.cluster_bits - 8) as u32;
    vstd::bits::lemma_u64_pow2_no_overflow(ob as nat);
    vstd::bits::lemma_u64_shl_is_mul(1, ob as u64);
    vstd::bits::lemma_u64_pow2_no_overflow(eb as nat);
    vstd::bits::lemma_u64_shl_is_mul(1, eb as u64);
    let e = compressed_entry(start, extra, h.cluster_bits);
    assert(e == 0x4000_0000_0000_0000 + (extra << ob) + start && extra <= u64::MAX >> (ob as u64))
        by (bit_vector)
        requires
            49 <= ob <= 61,
            eb == 62 - ob,
            start < 1u64 << ob,
            extra < 1u64 << eb,
            e == (extra << ob) | start | 0x4000_0000_0000_0000,
    ;
    vstd::bits::lemma_u64_mul_pow2_le_max_iff_max_shr(extra, ob as u64, u64::MAX);
    vstd::bits::lemma_u64_shl_is_mul(extra, ob as u64);
    compressed_entry_is_read_as_written(h, start, extra, e);
}

/// The descriptor of a compressed cluster, the lower 62 bits of its entry, is split in two
/// where the start of the cluster ends: after as many bits as the cluster size leaves of
/// 70. Above them is the number of sectors after the first one.
pub proof fn descriptor_is_split_at_its_width(e: u64, cluster_bits: u32)
    requires
        8 <= cluster_bits <= 62,
    ensures
        ({
            let d = e as int % 0x4000_0000_0000_0000;
            let unit = pow2((70 - cluster_bits) as nat) as int;
            let start = d % unit;
            &&& compressed_start(e, cluster_bits) == start
            &&& compressed_extra_sectors(e, cluster_bits) == d / unit
            &&& compressed_span(e, cluster_bits) == start / 512 * 512 + 512 * (d / unit + 1)
                - start
        }),
{
    let ob: u32 = (70 - cluster_bits) as u32;
    vstd::bits::lemma_u64_pow2_no_overflow(ob as nat);
    vstd::bits::lemma_u64_shl_is_mul(1, ob as u64);
    assert(1u64 << ob == pow2(ob as nat));
    assert(e & 0x3fff_ffff_ffff_ffff == e % 0x4000_0000_0000_0000) by (bit_vector);
}

} // verus!
