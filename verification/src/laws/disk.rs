//! Where the bytes of the virtual disk and the counts of host clusters lie, told from the
//! published layout.

use crate::bytes::{be16_bytes, be64_bytes, overwrite};
use crate::codec::{inflated, zstd_prefix};
use crate::device::{BlockDevice, Call, Request};
use crate::entry::{address_of, lemma_same_cluster, map_of_entry, ClusterMap};
use crate::error::Error;
use crate::extents::{status_known, status_unknown, ClusterStatus, Extent};
use crate::header::{header_fields, header_refusal, Header};
use crate::image::{Fault, Image};
use crate::laws::lemma_run_of;
use crate::laws::format::{
    bit, bytes_laid_over_are_found, field, host_bits, lemma_bits, lemma_cluster_is_power,
    lemma_host_bits, numbers_are_read_as_spelled, numbers_are_stored_as_spelled, spelled,
};
use crate::open::{
    chained, head_of, is_head, layer_added, layer_opens_as, lone_image, names, open_refusal, opens_alone_as,
    whole_head, HEAD_BYTES, MAX_BACKING_DEPTH, MIN_HEAD_BYTES,
};
use crate::reader::{read_refusal, Qcow2Reader};
use crate::room::room;
use crate::writer::{goes_in_place, plan_for, write_refusal, ClusterSeed, WritePlan};
use crate::writer::needs::{can_be_written, clusters_needed};
use crate::writer::order::{in_one, put_in_place, table_is_own};
use crate::zstd::frame_bounded;
use vstd::arithmetic::power2::pow2;
use vstd::prelude::*;
use vstd::utf8::{decode_utf8, valid_utf8};

verus! {

/// Byte `d` of entry `j` of row `i` is the byte of the disk that comes after `i` rows of
/// as many clusters as an L2 table has entries, `j` clusters, and `d` bytes; a table has
/// an entry for each eight bytes of a cluster.
proof fn lemma_parts(cs: int, i: int, j: int, d: int)
    requires
        cs >= 512,
        0 <= i,
        0 <= j < cs / 8,
        0 <= d < cs,
    ensures
        ((i * (cs / 8) + j) * cs + d) / cs == i * (cs / 8) + j,
        ((i * (cs / 8) + j) * cs + d) % cs == d,
        (i * (cs / 8) + j) / (cs / 8) == i,
        (i * (cs / 8) + j) % (cs / 8) == j,
        0 <= i * (cs / 8) + j,
{
    let n = cs / 8;
    let q = i * n + j;
    assert(q >= 0) by (nonlinear_arith)
        requires
            q == i * n + j,
            i >= 0,
            n > 0,
            j >= 0,
    ;
    vstd::arithmetic::div_mod::lemma_fundamental_div_mod_converse(q * cs + d, cs, q, d);
    vstd::arithmetic::div_mod::lemma_fundamental_div_mod_converse(q, n, i, j);
}

/// The address of a byte is made of the numbers that it is put together from.
pub proof fn address_is_made_of_its_parts(h: Header, i: int, j: int, d: int, v: u64)
    requires
        h.geometry_ok(),
        ({
            let cs = pow2(h.cluster_bits as nat) as int;
            &&& 0 <= i <= u32::MAX
            &&& 0 <= j < cs / 8
            &&& 0 <= d < cs
            &&& v == (i * (cs / 8) + j) * cs + d
        }),
    ensures
        ({
            let cs = pow2(h.cluster_bits as nat) as int;
            let a = address_of(h, v);
            &&& a.l1_index == i
            &&& a.l2_index == j
            &&& a.offset_in_cluster == d
            &&& a.virt_cluster == i * (cs / 8) + j
        }),
{
    lemma_cluster_is_power(h.cluster_bits);
    let cs = h.cluster_size as int;
    lemma_parts(cs, i, j, d);
    let q = i * (cs / 8) + j;
    assert(q <= v) by (nonlinear_arith)
        requires
            v == q * cs + d,
            cs >= 1,
            d >= 0,
            q >= 0,
    ;
}

/// A byte of the disk is found through two tables: L1 entry `i` says where the L2 table
/// lies, and the eight bytes of entry `j` of that table spell what is known of the
/// cluster. A row without a table has no clusters.
pub proof fn cluster_is_found_through_two_tables(img: Image, i: int, j: int, d: int)
    requires
        img.header.geometry_ok(),
        0 <= i < img.l1.len(),
        0 <= j < pow2(img.header.cluster_bits as nat) as int / 8,
        0 <= d < pow2(img.header.cluster_bits as nat),
    ensures
        ({
            let cs = pow2(img.header.cluster_bits as nat) as int;
            let v = (i * (cs / 8) + j) * cs + d;
            let table = host_bits(img.l1[i]);
            let e = field(img.bytes, table + 8 * j, 8) as u64;
            img.cluster_map(v) == if table == 0 {
                Ok::<ClusterMap, Fault>(ClusterMap::Unallocated)
            } else if table + cs > img.bytes.len() {
                Err::<ClusterMap, Fault>(Fault::OutsideDevice)
            } else {
                match map_of_entry(img.header, e) {
                    Some(m) => Ok::<ClusterMap, Fault>(m),
                    None => Err::<ClusterMap, Fault>(
                        Fault::Corrupt("l2 entry points into the middle of a cluster"),
                    ),
                }
            }
        }),
{
    lemma_cluster_is_power(img.header.cluster_bits);
    lemma_host_bits(img.l1[i]);
    let cs = img.cs();
    lemma_parts(cs, i, j, d);
    let table = host_bits(img.l1[i]);
    if table != 0 && table + cs <= img.bytes.len() {
        numbers_are_read_as_spelled(img.bytes, table + 8 * j);
    }
}

/// What a cluster holds, byte for byte: the bytes from its host offset on, or what its
/// stored bytes decode to; zeros if it is marked so; and else what the image behind
/// holds there, or zeros where there is none or it has ended.
pub proof fn cluster_holds_its_bytes_in_order(img: Image, v: int, m: ClusterMap, d: int)
    requires
        img.header.geometry_ok(),
        0 <= v,
        v % pow2(img.header.cluster_bits as nat) as int == 0,
        0 <= d < pow2(img.header.cluster_bits as nat),
        img.cluster_map(v) == Ok::<ClusterMap, Fault>(m),
    ensures
        img.cluster_map(v + d) == Ok::<ClusterMap, Fault>(m),
        match m {
            ClusterMap::Plain { host_off, .. } => if host_off + d < img.bytes.len() {
                img.guest_byte(v + d) == Ok::<u8, Fault>(img.bytes[host_off + d])
            } else {
                img.guest_byte(v + d) == Err::<u8, Fault>(Fault::OutsideDevice)
            },
            ClusterMap::Compressed { host_off, byte_len } => {
                let cs = pow2(img.header.cluster_bits as nat);
                let data = img.bytes.subrange(host_off as int, host_off + byte_len);
                if host_off + byte_len > img.bytes.len() {
                    img.guest_byte(v + d) == Err::<u8, Fault>(Fault::OutsideDevice)
                } else if img.header.compression_type == 0 {
                    img.guest_byte(v + d) == match inflated(data, cs) {
                        Some(s) => Ok::<u8, Fault>(s[d]),
                        None => Err::<u8, Fault>(Fault::Undecodable),
                    }
                } else if img.header.compression_type == 1 {
                    img.guest_byte(v + d) == match zstd_prefix(data, cs + 1) {
                        Some(s) => if s.len() == cs && frame_bounded(data) {
                            Ok::<u8, Fault>(s[d])
                        } else {
                            Err::<u8, Fault>(Fault::Undecodable)
                        },
                        None => Err::<u8, Fault>(Fault::Undecodable),
                    }
                } else {
                    img.guest_byte(v + d) is Err
                }
            },
            ClusterMap::Zero => img.guest_byte(v + d) == Ok::<u8, Fault>(0),
            ClusterMap::Unallocated => match img.backing {
                Some(b) => img.guest_byte(v + d) == if v + d < b.header.virtual_size {
                    b.guest_byte(v + d)
                } else {
                    Ok::<u8, Fault>(0)
                },
                None => img.guest_byte(v + d) == Ok::<u8, Fault>(0),
            },
        },
{
    lemma_cluster_is_power(img.header.cluster_bits);
    lemma_same_cluster(img.cs(), v, d);
}

/// The status of a cluster is what this image's own tables say of it: it holds data if
/// and only if they name a place for it, stored as it is or compressed. What lies behind
/// the image makes no difference.
pub proof fn status_is_what_the_tables_say(img: Image, v: int, behind: Option<Box<Image>>)
    ensures
        img.status_at(v) == Ok::<ClusterStatus, Fault>(ClusterStatus::Allocated) <==> (
        img.cluster_map(v) matches Ok(m) && (m is Plain || m is Compressed)),
        img.status_at(v) == Ok::<ClusterStatus, Fault>(ClusterStatus::Zero) <==> img.cluster_map(v)
            == Ok::<ClusterMap, Fault>(ClusterMap::Zero),
        img.status_at(v) == Ok::<ClusterStatus, Fault>(ClusterStatus::Unallocated)
            <==> img.cluster_map(v) == Ok::<ClusterMap, Fault>(ClusterMap::Unallocated),
        img.status_at(v) is Err <==> img.cluster_map(v) is Err,
        img.status_at(v) matches Err(f) ==> img.cluster_map(v) == Err::<ClusterMap, Fault>(f),
        (Image { backing: behind, ..img }).status_at(v) == img.status_at(v),
{
    assert((Image { backing: behind, ..img }).cluster_map(v) == img.cluster_map(v));
}

/// What is read from a cluster that holds data or is marked zero does not depend on what
/// lies behind the image; what is read from any other does on nothing else.
pub proof fn own_clusters_hide_what_lies_behind(img: Image, v: int, behind: Option<Box<Image>>)
    requires
        0 <= v,
    ensures
        ({
            let other = Image { backing: behind, ..img };
            &&& img.status_at(v) != Ok::<ClusterStatus, Fault>(ClusterStatus::Unallocated)
                ==> other.guest_byte(v) == img.guest_byte(v)
            &&& img.status_at(v) == Ok::<ClusterStatus, Fault>(ClusterStatus::Unallocated)
                && behind is None ==> other.guest_byte(v) == Ok::<u8, Fault>(0)
        }),
{
    let other = Image { backing: behind, ..img };
    assert(other.cluster_map(v) == img.cluster_map(v));
    if let Ok(ClusterMap::Compressed { host_off, byte_len }) = img.cluster_map(v) {
        assert(other.stored_cluster(host_off as int, byte_len as int) == img.stored_cluster(
            host_off as int,
            byte_len as int,
        ));
    }
}

/// A read is refused if and only if it reaches past the end of the disk, and so is a
/// write, which needs an image that was opened for it, too. Nothing is ever too much
/// where no byte is asked for.
pub proof fn ranges_are_accepted_exactly(h: Header, writable: bool, offset: u64, len: int)
    requires
        0 <= len <= u64::MAX,
    ensures
        read_refusal(h, offset as int, len) is None <==> len == 0 || offset + len
            <= h.virtual_size,
        write_refusal(h, writable, offset as int, len) is None <==> writable && (len == 0 || offset
            + len <= h.virtual_size),
        !writable ==> write_refusal(h, writable, offset as int, len) == Some(Error::ReadOnly),
        writable && len > 0 && offset + len > h.virtual_size ==> write_refusal(
            h,
            writable,
            offset as int,
            len,
        ) == Some(Error::OutOfBounds { offset, len: len as u64, size: h.virtual_size }),
        len > 0 && h.virtual_size < offset + len <= u64::MAX ==> read_refusal(
            h,
            offset as int,
            len,
        ) == Some(Error::OutOfBounds { offset, len: len as u64, size: h.virtual_size }),
        offset + len > u64::MAX ==> read_refusal(h, offset as int, len) == Some(
            Error::Corrupt("offset+len overflow"),
        ),
{
}

/// An image is opened on what its device holds: the header is in its first 112 bytes, or
/// in as many as there are; and each entry of the L1 table is the number that eight bytes
/// spell, one after the other.
pub proof fn opened_image_is_what_the_device_holds(s: Seq<u8>, writable: bool, i: int)
    requires
        72 <= s.len() <= u64::MAX,
        open_refusal(whole_head(s), s.len() as int, writable) is None,
        0 <= i < field(s, 36, 4),
    ensures
        ({
            let img = lone_image(s, whole_head(s));
            &&& img.bytes == s
            &&& img.backing is None
            &&& img.l1.len() == field(s, 36, 4)
            &&& img.l1[i] == field(s, field(s, 40, 8) + 8 * i, 8)
            &&& img.header.version == field(s, 4, 4)
            &&& img.header.cluster_bits == field(s, 20, 4)
            &&& img.header.virtual_size == field(s, 24, 8)
        }),
{
    let head = whole_head(s);
    assert forall|k: int| 0 <= k < 72 implies head[k] == #[trigger] s[k] by {}
    crate::laws::format::header_is_read_as_written(head);
    assert(head.subrange(4, 8) =~= s.subrange(4, 8));
    assert(head.subrange(20, 24) =~= s.subrange(20, 24));
    assert(head.subrange(24, 32) =~= s.subrange(24, 32));
    assert(head.subrange(36, 40) =~= s.subrange(36, 40));
    assert(head.subrange(40, 48) =~= s.subrange(40, 48));
    numbers_are_read_as_spelled(s, field(s, 40, 8) + 8 * i);
}

/// The header is looked for at the very start of the device, and is all there if the
/// device has 112 bytes; what is missing of it counts as zeros.
pub proof fn header_is_the_start_of_the_device(s: Seq<u8>, k: int)
    requires
        0 <= k < 112,
    ensures
        whole_head(s).len() == 112,
        whole_head(s)[k] == if k < s.len() {
            s[k]
        } else {
            0
        },
{
}

/// Whatever the device, a header is only ever made of its first bytes, at least 72 of
/// them, and zeros behind.
pub proof fn header_is_never_made_up(s: Seq<u8>, head: Seq<u8>) -> (n: int)
    requires
        is_head(s, head),
    ensures
        72 <= n <= 112,
        n <= s.len(),
        head.len() == 112,
        head.subrange(0, n) == s.subrange(0, n),
        forall|k: int| n <= k < 112 ==> #[trigger] head[k] == 0,
{
    let n = choose|n: int|
        MIN_HEAD_BYTES <= n <= HEAD_BYTES && n <= s.len() && head == #[trigger] head_of(s, n);
    assert(head.subrange(0, n) =~= s.subrange(0, n));
    n
}

/// An image is opened if and only if its header is one, nothing in it is unsupported, its
/// tables can lie where it says, and, for writing, it is marked neither dirty nor corrupt.
pub proof fn image_is_opened_exactly(head: Seq<u8>, size: int, writable: bool)
    ensures
        open_refusal(head, size, writable) is None <==> {
            let h = header_fields(head);
            &&& header_refusal(head) is None
            &&& h.support_refusal() is None
            &&& h.layout_refusal(size) is None
            &&& writable ==> h.write_refusal() is None
        },
        open_refusal(head, size, writable) matches Some(e) ==> {
            let h = header_fields(head);
            ||| header_refusal(head) == Some(e)
            ||| h.support_refusal() == Some(e)
            ||| h.layout_refusal(size) == Some(e)
            ||| writable && h.write_refusal() == Some(e)
        },
{
}

/// How wide the counts of an image are: 16 bits in every image of version 2, and in
/// version 3 if and only if the header says two to the power of four.
pub proof fn counts_are_16_bits_exactly(img: Image, b: Seq<u8>)
    requires
        header_refusal(b) is None,
        img.header == header_fields(b),
    ensures
        field(b, 4, 4) == 2 ==> img.counts_are_u16(),
        field(b, 4, 4) == 3 ==> (img.counts_are_u16() <==> field(b, 96, 4) == 4),
        img.counts_are_u16() <==> img.header.version < 3 || pow2(img.header.refcount_order as nat)
            == 16,
{
    crate::laws::format::header_is_read_as_written(b);
    crate::laws::format::later_fields_are_read_as_written(b);
    vstd::arithmetic::power2::lemma2_to64();
    let x = img.header.refcount_order as nat;
    if x < 4 {
        vstd::arithmetic::power2::lemma_pow2_strictly_increases(x, 4);
    } else if x > 4 {
        vstd::arithmetic::power2::lemma_pow2_strictly_increases(4, x);
    }
}

/// A write to a consistent image of version 2 that has a refcount table is served, if
/// the bytes can be written and as many clusters are free as it takes.
pub proof fn version_2_is_written<D: BlockDevice>(r: Qcow2Reader<D>, v: int, len: int)
    requires
        r@.header.version == 2,
        r@.has_refcount_table(),
        r.sturdy(Set::empty()),
        r.opened_writable(),
        0 <= v,
        0 < len,
        v + len <= r@.header.virtual_size,
        forall|w: int| v <= w < v + len ==> #[trigger] can_be_written(r@, r.cap(), w),
        room(r@, r.cap(), clusters_needed(r@, v, v + len, -1)),
    ensures
        r.write_served(v, len),
{
}

/// Where the count of a host cluster is: in the block that counts it, each of which
/// counts as many clusters as a cluster has pairs of bytes. The eight bytes of the
/// refcount table's entry spell where the block lies, and the two bytes of its place in
/// the block spell the count.
pub proof fn count_lies_in_its_block(img: Image, s: int, e: int)
    requires
        img.header.geometry_ok(),
        0 <= s,
        0 <= e < pow2(img.header.cluster_bits as nat) as int / 2,
        img.bytes.len() <= u64::MAX,
        img.header.refcount_table_offset + 8 * s + 8 <= img.bytes.len(),
        field(img.bytes, img.header.refcount_table_offset + 8 * s, 8) + 2 * e + 2
            <= img.bytes.len(),
    ensures
        ({
            let cs = pow2(img.header.cluster_bits as nat) as int;
            let k = s * (cs / 2) + e;
            let block = field(img.bytes, img.header.refcount_table_offset + 8 * s, 8);
            let n = img.header.refcount_table_clusters * (cs / 8);
            &&& img.refcount_entry(k) == if s < n && block != 0 {
                Some(field(img.bytes, block + 2 * e, 2) as u16)
            } else {
                None
            }
            &&& img.refcount(k) == if s < n && block != 0 {
                field(img.bytes, block + 2 * e, 2)
            } else {
                0
            }
            &&& img.counts_are_u16() && img.has_refcount_table() ==> img.count_read(k * cs) == Ok::<
                u16,
                Fault,
            >(img.refcount(k) as u16)
        }),
{
    lemma_cluster_is_power(img.header.cluster_bits);
    crate::refcount::lemma_refcount_geometry(img.header);
    let cs = img.cs();
    let half = cs / 2;
    let k = s * half + e;
    assert(k >= 0) by (nonlinear_arith)
        requires
            k == s * half + e,
            s >= 0,
            half >= 0,
            e >= 0,
    ;
    vstd::arithmetic::div_mod::lemma_fundamental_div_mod_converse(k, half, s, e);
    vstd::arithmetic::div_mod::lemma_fundamental_div_mod_converse(k * cs, cs, k, 0);
    numbers_are_read_as_spelled(img.bytes, img.header.refcount_table_offset + 8 * s);
    let block = field(img.bytes, img.header.refcount_table_offset + 8 * s, 8);
    numbers_are_read_as_spelled(img.bytes, block + 2 * e);
    let c = img.header.refcount_table_clusters as int;
    let m = cs / 8;
    assert(cs % 8 == 0);
    assert(img.rt_len() == c * m) by {
        assert(c * cs == 8 * (c * m)) by (nonlinear_arith)
            requires
                cs == 8 * m,
        ;
        assert((8 * (c * m)) / 8 == c * m);
    }
}

/// A count is read for every byte of its cluster alike.
pub proof fn count_is_read_for_the_whole_cluster(img: Image, k: int, d: int)
    requires
        img.header.geometry_ok(),
        0 <= k,
        0 <= d < pow2(img.header.cluster_bits as nat),
    ensures
        img.count_read(k * pow2(img.header.cluster_bits as nat) + d) == img.count_read(
            k * pow2(img.header.cluster_bits as nat),
        ),
        img.release(k * pow2(img.header.cluster_bits as nat) + d) == img.release(
            k * pow2(img.header.cluster_bits as nat),
        ),
{
    lemma_cluster_is_power(img.header.cluster_bits);
    let cs = img.cs();
    vstd::arithmetic::div_mod::lemma_fundamental_div_mod_converse(k * cs + d, cs, k, d);
    vstd::arithmetic::div_mod::lemma_fundamental_div_mod_converse(k * cs, cs, k, 0);
}

/// An allocation takes the first host cluster whose count is zero, if there is one.
pub proof fn allocation_takes_the_first_free_cluster(img: Image, k: int, after: Seq<u8>, j: int)
    requires
        img.allocates(k, after),
        0 <= j,
        img.refcount_entry(j) == Some(0u16),
    ensures
        k <= j,
        img.refcount_entry(k) == Some(0u16),
        after == img.claimed(k),
{
    assert(img.is_free(j));
    assert(img.is_free(k));
}

/// A write goes into the cluster where it is, if and only if that holds data which is
/// not compressed, and is the image's alone by its entry or counted no more than once.
pub proof fn written_in_place_exactly(img: Image, v: int)
    ensures
        goes_in_place(img, v) <==> (img.cluster_map(v) matches Ok(
            ClusterMap::Plain { host_off, copied },
        ) && (copied || (img.count_read(host_off as int) matches Ok(c) && c <= 1))),
{
}

/// What becomes of a cluster that is written: where it goes in its place, that is where
/// it was; else a new one starts as what the old one reads as, and the old one, where
/// there is one, loses a count.
pub proof fn plan_keeps_what_is_read(img: Image, m: ClusterMap, p: WritePlan)
    requires
        plan_for(img, m) == Ok::<WritePlan, Fault>(p),
    ensures
        match m {
            ClusterMap::Plain { host_off, copied } => if copied || img.count_read(host_off as int)
                == Ok::<u16, Fault>(0) || img.count_read(host_off as int) == Ok::<u16, Fault>(1) {
                p == (WritePlan::InPlace { host_off })
            } else {
                p == (WritePlan::Reallocate {
                    seed: ClusterSeed::HostCluster(host_off),
                    release: Some(host_off),
                })
            },
            ClusterMap::Compressed { host_off, byte_len } => p == (WritePlan::Reallocate {
                seed: ClusterSeed::Compressed { host_off, byte_len },
                release: Some(host_off),
            }),
            ClusterMap::Zero => p == (WritePlan::Reallocate {
                seed: ClusterSeed::Zeros,
                release: None,
            }),
            ClusterMap::Unallocated => p == (WritePlan::Reallocate {
                seed: ClusterSeed::BackingChain,
                release: None,
            }),
        },
{
}

/// The numbers that a count is found with.
proof fn lemma_count_numbers(img: Image, s: int, e: int)
    requires
        img.header.geometry_ok(),
        0 <= s,
        0 <= e < pow2(img.header.cluster_bits as nat) as int / 2,
    ensures
        ({
            let cs = pow2(img.header.cluster_bits as nat) as int;
            let k = s * (cs / 2) + e;
            &&& img.cs() == cs
            &&& k >= 0
            &&& k / img.epb() == s
            &&& k % img.epb() == e
            &&& (k * cs) / cs == k
            &&& img.rt_len() == img.header.refcount_table_clusters * (cs / 8)
        }),
{
    lemma_cluster_is_power(img.header.cluster_bits);
    crate::refcount::lemma_refcount_geometry(img.header);
    let cs = img.cs();
    let half = cs / 2;
    let k = s * half + e;
    assert(k >= 0) by (nonlinear_arith)
        requires
            k == s * half + e,
            s >= 0,
            half >= 0,
            e >= 0,
    ;
    vstd::arithmetic::div_mod::lemma_fundamental_div_mod_converse(k, half, s, e);
    vstd::arithmetic::div_mod::lemma_fundamental_div_mod_converse(k * cs, cs, k, 0);
    let c = img.header.refcount_table_clusters as int;
    let m = cs / 8;
    assert(c * cs == 8 * (c * m)) by (nonlinear_arith)
        requires
            cs == 8 * m,
    ;
    assert((8 * (c * m)) / 8 == c * m);
}

/// To hand out a cluster that is free is to write a one into the two bytes of its count,
/// and to change nothing else.
pub proof fn claim_writes_a_one(img: Image, s: int, e: int, x: int)
    requires
        img.header.geometry_ok(),
        0 <= s,
        0 <= e < pow2(img.header.cluster_bits as nat) as int / 2,
        img.header.refcount_table_offset + 8 * s + 8 <= img.bytes.len(),
        field(img.bytes, img.header.refcount_table_offset + 8 * s, 8) + 2 * e + 2
            <= img.bytes.len(),
    ensures
        ({
            let k = s * (pow2(img.header.cluster_bits as nat) as int / 2) + e;
            let at = field(img.bytes, img.header.refcount_table_offset + 8 * s, 8) + 2 * e;
            &&& img.claimed(k).len() == img.bytes.len()
            &&& field(img.claimed(k), at, 2) == 1
            &&& 0 <= x < img.bytes.len() && !(at <= x < at + 2) ==> img.claimed(k)[x]
                == img.bytes[x]
        }),
{
    lemma_count_numbers(img, s, e);
    numbers_are_read_as_spelled(img.bytes, img.header.refcount_table_offset + 8 * s);
    let k = s * (img.cs() / 2) + e;
    let at = field(img.bytes, img.header.refcount_table_offset + 8 * s, 8) + 2 * e;
    numbers_are_stored_as_spelled(1, 0);
    bytes_laid_over_are_found(img.bytes, at, be16_bytes(1), x);
    assert(img.claimed(k) == overwrite(img.bytes, at, be16_bytes(1)));
    assert(img.claimed(k).subrange(at, at + 2) =~= be16_bytes(1));
}

/// To take a count from a cluster is to write what is one less into the two bytes of its
/// count. That can be done if and only if the counts can be used, the cluster has a count,
/// its block lies on the device, and the count is not zero.
pub proof fn release_writes_one_less(img: Image, s: int, e: int)
    requires
        img.header.geometry_ok(),
        0 <= s,
        0 <= e < pow2(img.header.cluster_bits as nat) as int / 2,
        img.bytes.len() <= u64::MAX,
        img.header.refcount_table_offset + 8 * s + 8 <= img.bytes.len(),
    ensures
        ({
            let cs = pow2(img.header.cluster_bits as nat) as int;
            let k = s * (cs / 2) + e;
            let block = field(img.bytes, img.header.refcount_table_offset + 8 * s, 8);
            let c = field(img.bytes, block + 2 * e, 2);
            &&& img.release(k * cs) is Ok <==> {
                &&& img.header.version < 3 || img.header.refcount_order == 4
                &&& img.header.refcount_table_offset > 0
                &&& s < img.header.refcount_table_clusters * (cs / 8)
                &&& block > 0 && block + cs <= img.bytes.len()
                &&& c > 0
            }
            &&& img.release(k * cs) matches Ok(w) ==> w.0 == block + 2 * e && w.1.len() == 2
                && spelled(w.1) == c - 1
        }),
{
    lemma_cluster_is_power(img.header.cluster_bits);
    lemma_count_numbers(img, s, e);
    numbers_are_read_as_spelled(img.bytes, img.header.refcount_table_offset + 8 * s);
    let cs = img.cs();
    let k = s * (cs / 2) + e;
    let block = field(img.bytes, img.header.refcount_table_offset + 8 * s, 8);
    if img.header.refcount_table_clusters == 0 {
        assert(0 * (cs / 8) == 0);
    }
    if block + cs <= img.bytes.len() {
        numbers_are_read_as_spelled(img.bytes, block + 2 * e);
        let c = field(img.bytes, block + 2 * e, 2);
        if c > 0 {
            numbers_are_stored_as_spelled((c - 1) as u16, 0);
        }
    }
}

/// A new block counts its first two clusters once, and no other.
proof fn lemma_new_block_fields(img: Image, e: int)
    requires
        img.cs() >= 512,
        0 <= e < img.cs() / 2,
    ensures
        img.new_block().len() == img.cs(),
        field(img.new_block(), 2 * e, 2) == if e <= 1 {
            1int
        } else {
            0
        },
{
    let block = img.new_block();
    assert(block.len() == img.cs());
    assert(block[2 * e] == 0);
    assert(block[2 * e + 1] == if e <= 1 {
        1u8
    } else {
        0
    });
    numbers_are_read_as_spelled(block, 2 * e);
}

/// A new block, and the entry of the refcount table for it, are where they were put.
proof fn lemma_grown_parts(img: Image, s: int, at: int, entry: int)
    requires
        img.cs() >= 512,
        at == img.new_block_off(s),
        0 <= at <= u64::MAX,
        entry == img.rt_off() + 8 * s,
        0 <= entry,
        img.new_block().len() == img.cs(),
    ensures
        field(img.grown(s), entry, 8) == at,
        img.grown(s).len() >= at + img.cs(),
        entry + 8 <= at || at + img.cs() <= entry ==> img.grown(s).subrange(at, at + img.cs())
            == img.new_block(),
{
    let cs = img.cs();
    let block = img.new_block();
    let word = be64_bytes(at as u64);
    let after = img.grown(s);
    numbers_are_stored_as_spelled(0, at as u64);
    bytes_laid_over_are_found(img.bytes, at, block, 0);
    bytes_laid_over_are_found(img.with_block(s), entry, word, 0);
    assert(after.subrange(entry, entry + 8) =~= word);
    if entry + 8 <= at || at + cs <= entry {
        let part = after.subrange(at, at + cs);
        assert forall|d: int| 0 <= d < cs implies part[d] == block[d] by {
            assert(part[d] == after[at + d]);
            assert(img.with_block(s)[at + d] == block[d]);
        }
        assert(part =~= block);
    }
}

/// Where no cluster is free, a block of counts is made for the first entry of the refcount
/// table that has none. The block lies in the first cluster that it counts; it counts
/// itself and the one after it once, and no other. That one is handed out, and the
/// table's entry spells where the block is.
pub proof fn new_block_counts_itself_and_the_next(img: Image, k: int, after: Seq<u8>, e: int) -> (s:
    int)
    requires
        img.header.geometry_ok(),
        img.allocates(k, after),
        img.none_free(),
        k * pow2(img.header.cluster_bits as nat) <= u64::MAX,
        0 <= e < pow2(img.header.cluster_bits as nat) as int / 2,
    ensures
        ({
            let cs = pow2(img.header.cluster_bits as nat) as int;
            let first = s * (cs / 2);
            let entry = img.header.refcount_table_offset + 8 * s;
            &&& 0 < s && img.first_empty(s)
            &&& k == first + 1
            &&& img.new_block_off(s) == first * cs
            &&& img.new_block().len() == cs
            &&& field(img.new_block(), 2 * e, 2) == if e <= 1 {
                1int
            } else {
                0
            }
            &&& field(after, entry, 8) == first * cs
            &&& entry + 8 <= first * cs || first * cs + cs <= entry ==> after.subrange(
                first * cs,
                first * cs + cs,
            ) == img.new_block()
        }),
{
    lemma_cluster_is_power(img.header.cluster_bits);
    if exists|j: int| img.first_free(j) {
        let j = choose|j: int| img.first_free(j);
        assert(img.is_free(j));
    }
    let s = choose|s: int|
        0 < s && img.none_free() && #[trigger] img.first_empty(s) && k == s * img.epb() + 1 && after
            == img.grown(s);
    let cs = img.cs();
    let first = s * (cs / 2);
    assert(0 <= first * cs <= k * cs) by (nonlinear_arith)
        requires
            k == first + 1,
            0 < s,
            first == s * (cs / 2),
            cs >= 2,
    ;
    lemma_new_block_fields(img, e);
    lemma_grown_parts(img, s, first * cs, img.header.refcount_table_offset + 8 * s);
    s
}

/// A write inside one cluster takes no cluster if it goes in its place; else one for the
/// data, and one more if the L2 table is missing or not the image's own.
pub proof fn one_cluster_takes_at_most_two(img: Image, v: int, len: int)
    requires
        img.header.geometry_ok(),
        0 <= v,
        0 < len,
        v % pow2(img.header.cluster_bits as nat) as int + len <= pow2(
            img.header.cluster_bits as nat,
        ),
    ensures
        ({
            let i = v / pow2(img.header.cluster_bits as nat) as int / (pow2(
                img.header.cluster_bits as nat,
            ) as int / 8);
            clusters_needed(img, v, v + len, -1) == if goes_in_place(img, v) {
                0int
            } else if table_is_own(img, i) {
                1
            } else {
                2
            }
        }),
{
    lemma_cluster_is_power(img.header.cluster_bits);
    let cs = img.cs();
    reveal_with_fuel(clusters_needed, 2);
    let i = v / cs / (cs / 8);
    assert(i >= 0) by (nonlinear_arith)
        requires
            v >= 0,
            cs >= 512,
            i == v / cs / (cs / 8),
    ;
}

/// An L2 table is the image's own if and only if there is one, and its L1 entry has the bit
/// that says so, or it is counted no more than once.
pub proof fn table_is_own_exactly(img: Image, i: int)
    requires
        0 <= i < img.l1.len(),
    ensures
        table_is_own(img, i) <==> host_bits(img.l1[i]) != 0 && (bit(img.l1[i], 63) || (
        img.count_read(host_bits(img.l1[i])) matches Ok(c) && c <= 1)),
{
    lemma_host_bits(img.l1[i]);
    lemma_bits(img.l1[i]);
}

/// A chain is its first image, with all the others behind it, one after the other.
pub proof fn chain_is_its_images_in_order(layers: Seq<Image>, i: int)
    requires
        0 <= i < layers.len(),
    ensures
        chained(layers, i).header == layers[i].header,
        chained(layers, i).l1 == layers[i].l1,
        chained(layers, i).bytes == layers[i].bytes,
        i + 1 < layers.len() ==> chained(layers, i).backing == Some(
            Box::new(chained(layers, i + 1)),
        ),
        i + 1 == layers.len() ==> chained(layers, i) == layers[i],
{
}

/// The name of the file behind an image is what the bytes spell that the header points
/// at, all of them and no others.
pub proof fn backing_name_is_what_the_bytes_spell(img: Image, name: String)
    requires
        names(img, Some(name)),
    ensures
        ({
            let at = img.header.backing_file_offset as int;
            let b = img.bytes.subrange(at, at + img.header.backing_file_size);
            valid_utf8(b) && name@ == decode_utf8(b)
        }),
        img.header.backing_file_offset > 0,
        0 < img.header.backing_file_size <= 1024,
{
}

/// A read fails if and only if some byte of the range cannot be had, and says why the first
/// such byte cannot: all bytes before it can.
pub proof fn first_fault_is_reported(img: Image, v: int, n: int, e: Error) -> (x: int)
    requires
        img.faulty(v, n, e),
    ensures
        v <= x < v + n,
        img.guest_byte(x) is Err,
        forall|y: int| v <= y < x ==> #[trigger] img.guest_byte(y) is Ok,
        !img.readable(v, v + n),
        forall|data: Seq<u8>| data.len() == n ==> !#[trigger] img.holds(v, data),
        match img.guest_byte(x)->Err_0 {
            Fault::Corrupt(m) => e == Error::Corrupt(m),
            Fault::Unsupported(m) => e == Error::Unsupported(m),
            Fault::Undecodable => e is Decompress,
            Fault::OutsideDevice => e is Io,
        },
{
    let i = choose|i: int|
        0 <= i < n && img.readable(v, v + i) && (#[trigger] img.guest_byte(v + i) matches Err(f)
            && f.reported_by(e));
    assert forall|data: Seq<u8>| data.len() == n implies !#[trigger] img.holds(v, data) by {
        if img.holds(v, data) {
            assert(img.guest_byte(v + i) == Ok::<u8, Fault>(data[i]));
        }
    }
    v + i
}

/// On a device that serves what it can, an image opens by itself if and only if the device
/// has a header, nothing in it is refused, and no file lies behind it; and it opens as what
/// the device holds.
pub proof fn lone_image_opens_exactly<D: BlockDevice>(
    s: Seq<u8>,
    writable: bool,
    r: Result<Qcow2Reader<D>, Error>,
)
    requires
        opens_alone_as(s, writable, r),
    ensures
        r is Ok <==> {
            let head = whole_head(s);
            let h = header_fields(head);
            &&& s.len() >= 72
            &&& open_refusal(head, s.len() as int, writable) is None
            &&& h.backing_file_offset == 0 || h.backing_file_size == 0
        },
        r matches Ok(x) ==> x@ == lone_image(s, whole_head(s)),
        s.len() < 72 ==> (r matches Err(e) && e is Io),
        s.len() >= 72 && open_refusal(whole_head(s), s.len() as int, writable) is Some ==> (
        r matches Err(e) && open_refusal(whole_head(s), s.len() as int, writable) == Some(e)),
{
}

/// On a device that serves what it can, the next image of a chain is added if and only if
/// it opens, and its name for the file behind it, where it has one, is at most 1024 bytes
/// long, starts in the first cluster, ends on the device, and is text.
pub proof fn layer_is_added_exactly(s: Seq<u8>, writable: bool, r: Result<Option<String>, Error>)
    requires
        layer_opens_as(s, writable, r),
    ensures
        r is Ok <==> {
            let head = whole_head(s);
            let h = header_fields(head);
            let at = h.backing_file_offset as int;
            let end = at + h.backing_file_size;
            &&& s.len() >= 72
            &&& open_refusal(head, s.len() as int, writable) is None
            &&& at == 0 || at == end || (end - at <= 1024 && at < h.cluster_size && end <= s.len()
                && valid_utf8(s.subrange(at, end)))
        },
        r matches Ok(name) ==> {
            let h = header_fields(whole_head(s));
            let at = h.backing_file_offset as int;
            let end = at + h.backing_file_size;
            &&& name is Some <==> at > 0 && end > at
            &&& name matches Some(t) ==> t@ == decode_utf8(s.subrange(at, end))
        },
{
}

/// A chain is at most 16 images long.
pub proof fn chain_is_at_most_16_long(n: int)
    ensures
        n < MAX_BACKING_DEPTH <==> n < 16,
{
}

/// What a write promises, it promises of every consistent image, whatever its version and
/// geometry: that it is written, on a device that tears no write, or that serves what it
/// can and can be written as far as needed, within the 2^56 bytes that an entry reaches;
/// and that it is served, where the counts can be used, and clusters are to be had.
pub proof fn write_promises_hold_exactly<D: BlockDevice>(r: Qcow2Reader<D>, size: int, n: int)
    ensures
        r.orderly(Set::empty(), size) <==> {
            &&& r@.consistent()
            &&& r.device().atomic() || r.dependable() && size <= r.device().write_limit()
            &&& size <= 0x100_0000_0000_0000
        },
        r.sturdy(Set::empty()) <==> {
            &&& r@.consistent()
            &&& r.dependable()
            &&& r@.bytes.len() <= r.device().write_limit()
            &&& r@.bytes.len() <= 0x100_0000_0000_0000
        },
        r.provided(Set::empty(), n) <==> {
            &&& r.sturdy(Set::empty())
            &&& r@.header.version < 3 || r@.header.refcount_order == 4
            &&& r@.header.refcount_table_offset > 0 && r@.header.refcount_table_clusters > 0
            &&& room(r@, r.cap(), n)
        },
{
}

/// A byte can be written in its place if the cluster ends where the device can, and else
/// if its whole cluster can be read, for that is what is copied.
pub proof fn byte_can_be_written_exactly(img: Image, cap: int, v: int)
    requires
        img.header.geometry_ok(),
    ensures
        ({
            let cs = pow2(img.header.cluster_bits as nat) as int;
            can_be_written(img, cap, v) <==> if goes_in_place(img, v) {
                img.cluster_map(v) matches Ok(ClusterMap::Plain { host_off, .. }) && host_off + cs
                    <= cap
            } else {
                img.readable(v - v % cs, v - v % cs + cs)
            }
        }),
{
    lemma_cluster_is_power(img.header.cluster_bits);
}

/// What is put in its place is one write to the device, where the byte lies, and changes
/// nothing but the bytes that are written.
pub proof fn put_in_place_is_one_write(
    a: Image,
    v: int,
    src: Seq<u8>,
    log: Seq<Call>,
    b: Image,
    after: Seq<Call>,
    x: int,
) -> (at: int)
    requires
        a.header.geometry_ok(),
        0 <= v,
        0 < src.len(),
        put_in_place(a, v, src, log, b, after),
    ensures
        a.cluster_map(v) matches Ok(ClusterMap::Plain { host_off, .. }) && at == host_off + v
            % pow2(a.header.cluster_bits as nat) as int,
        after == log.push(Call { request: Request::Write { offset: at, data: src }, served: true }),
        b.header == a.header && b.l1 == a.l1 && b.backing == a.backing,
        b.bytes.subrange(at, at + src.len()) == src,
        0 <= x < a.bytes.len() && !(at <= x < at + src.len()) ==> b.bytes[x] == a.bytes[x],
{
    lemma_cluster_is_power(a.header.cluster_bits);
    let at = a.cluster_map(v)->Ok_0->Plain_host_off + v % a.cs();
    bytes_laid_over_are_found(a.bytes, at, src, x);
    at
}

/// A range lies in one cluster if and only if its first and its last byte do.
pub proof fn range_in_one_cluster_exactly(img: Image, v: int, len: int)
    requires
        img.header.geometry_ok(),
        0 <= v,
        0 < len,
    ensures
        ({
            let cs = pow2(img.header.cluster_bits as nat) as int;
            in_one(img, v, len) <==> v / cs == (v + len - 1) / cs
        }),
{
    lemma_cluster_is_power(img.header.cluster_bits);
    let cs = img.cs();
    if in_one(img, v, len) {
        lemma_same_cluster(cs, v, len - 1);
    } else {
        vstd::arithmetic::div_mod::lemma_fundamental_div_mod(v, cs);
        vstd::arithmetic::div_mod::lemma_fundamental_div_mod(v + len - 1, cs);
    }
}

/// A walk over the disk fails only at a cluster of which the tables say nothing, the first
/// one that it comes to, and says why.
pub proof fn walk_fails_at_the_first_unknown(img: Image, from: int, e: Error) -> (v: int)
    requires
        status_unknown(img, from, e),
    ensures
        from <= v < img.header.virtual_size,
        img.cluster_map(v) matches Err(f) && f.reported_by(e),
        forall|w: int| from <= w < v ==> #[trigger] img.cluster_map(w) is Ok,
        forall|xs: Seq<Extent>| !#[trigger] img.tiled_by(from, xs),
{
    let v = choose|v: int|
        from <= v < img.header.virtual_size && status_known(img, from, v) && (
        #[trigger] img.status_at(v) matches Err(f) && f.reported_by(e));
    assert forall|w: int| from <= w < v implies #[trigger] img.cluster_map(w) is Ok by {
        assert(img.status_at(w) is Ok);
    }
    assert forall|xs: Seq<Extent>| !#[trigger] img.tiled_by(from, xs) by {
        if img.tiled_by(from, xs) {
            let i = lemma_run_of(img, from, xs, xs.len() as int, v);
            assert(img.run_in_place(from, xs, i));
            assert(img.status_at(v) == Ok::<ClusterStatus, Fault>(xs[i].status));
        }
    }
    v
}

/// Free clusters are enough for a write inside one cluster, in version 2 and in version 3
/// alike: one, or two if there is no L2 table that is the image's own. The image is
/// consistent and has a refcount table with 16-bit counts, what is overwritten can be read,
/// and every device serves what it can.
pub proof fn free_clusters_are_enough<D: BlockDevice>(
    r: Qcow2Reader<D>,
    v: int,
    len: int,
    ks: Set<int>,
)
    requires
        r@.header.geometry_ok(),
        r@.header.version == 2 || r@.header.version == 3 && r@.header.refcount_order == 4,
        r@.header.refcount_table_offset > 0,
        r@.header.refcount_table_clusters > 0,
        r.sturdy(Set::empty()),
        r.opened_writable(),
        0 <= v,
        0 < len,
        v + len <= r@.header.virtual_size,
        ({
            let cs = pow2(r@.header.cluster_bits as nat) as int;
            &&& v % cs + len <= cs
            &&& r@.readable(v - v % cs, v - v % cs + cs)
            &&& ks.finite()
            &&& ks.len() >= if table_is_own(r@, v / cs / (cs / 8)) {
                1int
            } else {
                2
            }
            &&& forall|k: int| #[trigger]
                ks.contains(k) ==> 0 < k && r@.refcount_entry(k) == Some(0u16) && k * cs + cs
                    <= r.cap()
        }),
        !goes_in_place(r@, v),
    ensures
        r.write_served(v, len),
{
    let img = r@;
    lemma_cluster_is_power(img.header.cluster_bits);
    let cs = img.cs();
    one_cluster_takes_at_most_two(img, v, len);
    crate::laws::counted::free_clusters_are_to_be_had(img, r.cap(), ks);
    crate::room::lemma_room_less(
        img,
        r.cap(),
        ks.len() as int,
        clusters_needed(img, v, v + len, -1),
    );
    assert forall|w: int| v <= w < v + len implies #[trigger] can_be_written(img, r.cap(), w) by {
        lemma_same_cluster(cs, v, w - v);
        assert(img.cluster_map(w) == img.cluster_map(v));
        assert(!goes_in_place(img, w));
        assert(w - w % cs == v - v % cs);
    }
}

/// A layer that is added comes behind those that are there, which stay as they are.
pub proof fn layer_comes_last(
    before: Seq<Image>,
    after: Seq<Image>,
    img: Image,
    name: Option<String>,
)
    requires
        layer_added(before, after, img, name),
    ensures
        after.len() == before.len() + 1,
        after.last() == img,
        after.drop_last() == before,
        name is Some <==> img.header.backing_file_offset > 0 && img.header.backing_file_size > 0,
{
    assert(after.drop_last() =~= before);
}

/// A reader serves what it can if and only if its own device and every one behind it do.
pub proof fn chain_is_dependable_exactly<D: BlockDevice>(r: Qcow2Reader<D>)
    ensures
        r.dependable() <==> r.device().dependable() && forall|i: int|
            0 <= i < r.devices_behind().len() ==> (#[trigger] r.devices_behind()[i]).dependable(),
    decreases r,
{
    if let Some(b) = r.backing {
        chain_is_dependable_exactly(*b);
        let all = r.devices_behind();
        let rest = b.devices_behind();
        assert(all =~= seq![b.dev] + rest);
        if r.dependable() {
            assert forall|i: int| 0 <= i < all.len() implies (#[trigger] all[i]).dependable() by {
                if i > 0 {
                    assert(all[i] == rest[i - 1]);
                }
            }
        }
        if r.device().dependable() && forall|i: int|
            0 <= i < all.len() ==> (#[trigger] all[i]).dependable() {
            assert(all[0].dependable());
            assert forall|i: int| 0 <= i < rest.len() implies (#[trigger] rest[i]).dependable() by {
                assert(all[i + 1].dependable());
            }
        }
    }
}

/// What can be written ends where the device ends to take writes, and where an entry ends
/// to reach.
pub proof fn writes_end_at_the_limit<D: BlockDevice>(r: Qcow2Reader<D>, x: int)
    ensures
        x <= r.cap() <==> x <= r.device().write_limit() && x <= 0x100_0000_0000_0000,
{
}

/// A cluster that the refcount table does not reach, or has no block for, has no count, and
/// is read as counted zero times.
pub proof fn cluster_without_a_block_is_not_counted(img: Image, s: int, e: int)
    requires
        img.header.geometry_ok(),
        0 <= s,
        0 <= e < pow2(img.header.cluster_bits as nat) as int / 2,
        ({
            let n = img.header.refcount_table_clusters * (pow2(img.header.cluster_bits as nat) as int
                / 8);
            ||| s >= n
            ||| img.header.refcount_table_offset + 8 * s + 8 <= img.bytes.len() && field(
                img.bytes,
                img.header.refcount_table_offset + 8 * s,
                8,
            ) == 0
        }),
    ensures
        ({
            let cs = pow2(img.header.cluster_bits as nat) as int;
            let k = s * (cs / 2) + e;
            &&& img.refcount_entry(k) is None
            &&& img.refcount(k) == 0
            &&& img.counted() ==> img.count_read(k * cs) == Ok::<u16, Fault>(0)
        }),
{
    lemma_cluster_is_power(img.header.cluster_bits);
    lemma_count_numbers(img, s, e);
    if s < img.rt_len() {
        numbers_are_read_as_spelled(img.bytes, img.header.refcount_table_offset + 8 * s);
    }
}

/// Counts that cannot be used are not read: those of another width, and those of an image
/// without a refcount table.
pub proof fn counts_are_unusable_exactly(img: Image, host_off: int)
    ensures
        img.counted() <==> (img.header.version < 3 || img.header.refcount_order == 4)
            && img.header.refcount_table_offset > 0 && img.header.refcount_table_clusters > 0,
        img.header.version >= 3 && img.header.refcount_order != 4 ==> img.count_read(host_off)
            == Err::<u16, Fault>(
            Fault::Unsupported("non-16-bit refcount entries (refcount_order != 4)"),
        ),
        !img.counted() ==> (img.count_read(host_off) matches Err(f) && f is Unsupported),
        !img.counted() ==> img.release(host_off) is Err,
{
}

} // verus!
