//! The entries of L1 and L2 tables, and the address of a byte in them.

use crate::error::Error;
use crate::header::{lemma_cluster_size, Header};
use vstd::prelude::*;

verus! {

/// Bits 9 to 55: the host offset of a cluster, in an L1 entry and in an L2 entry
/// that is not compressed.
pub const OFFSET_MASK: u64 = 0x00ff_ffff_ffff_fe00;

/// Bit 62 of an L2 entry: the cluster is compressed.
pub const L2_FLAG_COMPRESSED: u64 = 0x4000_0000_0000_0000;

/// Version 3: where bit 62 is clear, bit 0 means that the cluster reads as zeros.
pub const L2_FLAG_ZERO: u64 = 0x1;

/// Bit 63 of an L1 or L2 entry: the refcount of the cluster is exactly one, so
/// it can be written without copying it first.
pub const L2_FLAG_COPIED: u64 = 0x8000_0000_0000_0000;

/// The bits of an L2 entry that describe a compressed cluster.
pub const DESCRIPTOR_MASK: u64 = 0x3fff_ffff_ffff_ffff;

/// The unit in which the length of a compressed cluster is counted. It follows
/// neither the cluster size nor the device.
pub const COMPRESSED_SECTOR_SIZE: u64 = 512;

/// Where a byte of the virtual disk is found: one L1 entry selects an L2 table,
/// and one entry of that table selects the cluster.
#[derive(Debug, Clone, Copy, PartialEq, Eq, Structural)]
pub struct ClusterAddress {
    /// The cluster of the virtual disk, counted from its start.
    pub virt_cluster: u64,
    /// The L1 entry, and so the L2 table, that covers that cluster.
    pub l1_index: u32,
    /// The entry of that L2 table.
    pub l2_index: u32,
    /// How far into the cluster the byte lies.
    pub offset_in_cluster: u64,
}

/// What the tables say of a cluster of the virtual disk.
#[derive(Debug, Clone, Copy, PartialEq, Eq, Structural)]
pub enum ClusterMap {
    /// Not in this image: the backing file supplies it, or it is all zeros.
    Unallocated,
    /// All zeros, whatever the backing file holds.
    Zero,
    /// At `host_off`. `copied` is the flag of that name.
    Plain { host_off: u64, copied: bool },
    /// Compressed: `byte_len` bytes from `host_off` on hold it.
    Compressed { host_off: u64, byte_len: usize },
}

/// The number of entries in an L2 table.
pub open spec fn l2_len(h: Header) -> int {
    h.cluster_size as int / 8
}

/// The address of byte `virt` of the virtual disk.
pub open spec fn address_of(h: Header, virt: u64) -> ClusterAddress {
    ClusterAddress {
        virt_cluster: (virt as int / h.cluster_size as int) as u64,
        l1_index: (virt as int / h.cluster_size as int / l2_len(h)) as u32,
        l2_index: (virt as int / h.cluster_size as int % l2_len(h)) as u32,
        offset_in_cluster: (virt as int % h.cluster_size as int) as u64,
    }
}

/// Moving on inside a cluster changes neither the cluster nor its address.
pub(crate) proof fn lemma_same_cluster(cs: int, v: int, d: int)
    requires
        cs > 0,
        v >= 0,
        d >= 0,
        v % cs + d < cs,
    ensures
        (v + d) / cs == v / cs,
        (v + d) % cs == v % cs + d,
{
    vstd::arithmetic::div_mod::lemma_fundamental_div_mod(v, cs);
    assert(cs * (v / cs) == v / cs * cs) by (nonlinear_arith);
    vstd::arithmetic::div_mod::lemma_fundamental_div_mod_converse(
        v + d,
        cs,
        v / cs,
        v % cs + d,
    );
}

/// Every byte of the virtual disk has an L1 entry.
pub(crate) proof fn lemma_l1_reaches(h: Header, virt: int)
    requires
        h.geometry_ok(),
        0 <= virt < h.virtual_size,
    ensures
        0 <= virt / (h.cluster_size as int) / l2_len(h) < h.l1_size,
        0 <= virt / (h.cluster_size as int) % l2_len(h) < l2_len(h),
        0 <= virt / (h.cluster_size as int) <= virt,
        0 <= virt % (h.cluster_size as int) < h.cluster_size,
{
    lemma_cluster_size(h.cluster_bits);
    let cs = h.cluster_size as int;
    let n = l2_len(h);
    vstd::arithmetic::div_mod::lemma_div_denominator(virt, cs, n);
    let span = cs * n;
    assert(span > 0) by (nonlinear_arith)
        requires
            cs > 0,
            n > 0,
            span == cs * n,
    ;
    assert(h.l1_size * span == span * h.l1_size) by (nonlinear_arith);
    vstd::arithmetic::div_mod::lemma_multiply_divide_lt(virt, span, h.l1_size as int);
    assert(0 <= virt / span) by (nonlinear_arith)
        requires
            virt >= 0,
            span > 0,
    ;
    assert(0 <= virt / cs <= virt) by (nonlinear_arith)
        requires
            virt >= 0,
            cs > 0,
    ;
}

/// Splits an offset on the virtual disk into the address that the tables use.
pub fn split_virtual(h: &Header, virt: u64) -> (a: ClusterAddress)
    requires
        h.geometry_ok(),
    ensures
        a == address_of(*h, virt),
{
    proof {
        lemma_cluster_size(h.cluster_bits);
    }
    let cluster_size: u64 = h.cluster_size;
    let l2_entries: u64 = h.l2_entries();
    let virt_cluster: u64 = virt / cluster_size;
    ClusterAddress {
        virt_cluster,
        l1_index: (virt_cluster / l2_entries) as u32,
        l2_index: (virt_cluster % l2_entries) as u32,
        offset_in_cluster: virt % cluster_size,
    }
}

/// The entry that points at a cluster which has just been allocated: such a
/// cluster has one reference, and that is what `COPIED` says.
pub open spec fn fresh_entry(host_off: u64) -> u64 {
    (host_off & OFFSET_MASK) | L2_FLAG_COPIED
}

/// Makes the entry for a cluster that has just been allocated.
pub fn l2_entry_for(host_off: u64) -> (e: u64)
    ensures
        e == fresh_entry(host_off),
{
    (host_off & OFFSET_MASK) | L2_FLAG_COPIED
}

/// Where the compressed cluster that `entry` describes starts. The field is
/// narrower where clusters are larger, for more bits then count sectors.
pub open spec fn compressed_start(entry: u64, cluster_bits: u32) -> int {
    (entry & DESCRIPTOR_MASK) as int % (1u64 << ((70 - cluster_bits) as u32)) as int
}

/// How many sectors after the first one the compressed cluster reaches into.
pub open spec fn compressed_extra_sectors(entry: u64, cluster_bits: u32) -> int {
    (entry & DESCRIPTOR_MASK) as int / (1u64 << ((70 - cluster_bits) as u32)) as int
}

/// How many bytes the compressed cluster takes: up to the end of its last
/// sector, counted from the start of the sector in which it begins.
pub open spec fn compressed_span(entry: u64, cluster_bits: u32) -> int {
    let start = compressed_start(entry, cluster_bits);
    start / 512 * 512 + (compressed_extra_sectors(entry, cluster_bits) + 1) * 512 - start
}

/// The bounds of the two fields of a compressed descriptor.
proof fn lemma_compressed_bounds(entry: u64, cluster_bits: u32)
    requires
        8 <= cluster_bits <= 62,
    ensures
        0 <= compressed_start(entry, cluster_bits) < 0x4000_0000_0000_0000,
        0 <= compressed_extra_sectors(entry, cluster_bits) < 0x40_0000_0000_0000,
        0 < compressed_span(entry, cluster_bits),
        9 <= cluster_bits <= 21 ==> compressed_start(entry, cluster_bits) < 0x2000_0000_0000_0000
            && compressed_span(entry, cluster_bits) <= 0x40_0000,
{
    let ob: u32 = (70 - cluster_bits) as u32;
    let unit: u64 = 1u64 << ob;
    let d: u64 = entry & DESCRIPTOR_MASK;
    assert(256 <= unit && unit <= 0x4000_0000_0000_0000 && (ob >= 49 && ob <= 61 ==> unit
        >= 0x2_0000_0000_0000 && unit <= 0x2000_0000_0000_0000)) by (bit_vector)
        requires
            8 <= ob <= 62,
            unit == 1u64 << ob,
    ;
    assert(d <= 0x3fff_ffff_ffff_ffff) by (bit_vector)
        requires
            d == entry & DESCRIPTOR_MASK,
    ;
    let q = d as int / unit as int;
    let r = d as int % unit as int;
    assert(d == q * unit + r && 0 <= r < unit && q >= 0) by (nonlinear_arith)
        requires
            unit > 0,
            d >= 0,
            q == d as int / unit as int,
            r == d as int % unit as int,
    ;
    assert(q < 0x40_0000_0000_0000) by (nonlinear_arith)
        requires
            unit >= 256,
            q * unit <= d,
            d <= 0x3fff_ffff_ffff_ffff,
    ;
    if 9 <= cluster_bits <= 21 {
        assert(q < 0x2000) by (nonlinear_arith)
            requires
                unit >= 0x2_0000_0000_0000,
                q * unit <= d,
                d <= 0x3fff_ffff_ffff_ffff,
        ;
    }
}

/// Reads the descriptor of a compressed cluster: where the compressed bytes
/// start, and how many there are.
pub fn decode_compressed_descriptor(entry: u64, cluster_bits: u32) -> (r: (u64, usize))
    requires
        8 <= cluster_bits <= 62,
    ensures
        r.0 == compressed_start(entry, cluster_bits),
        r.1 == compressed_span(entry, cluster_bits) as usize,
{
    proof {
        lemma_compressed_bounds(entry, cluster_bits);
        let ob: u32 = (70 - cluster_bits) as u32;
        assert(1u64 << ob > 0) by (bit_vector)
            requires
                8 <= ob <= 62,
        ;
    }
    let descriptor: u64 = entry & DESCRIPTOR_MASK;
    let offset_bits: u32 = 62 - (cluster_bits - 8);
    let unit: u64 = 1u64 << offset_bits;
    let host_off: u64 = descriptor % unit;
    let additional_sectors: u64 = descriptor / unit;

    let first_sector_start: u64 = (host_off / COMPRESSED_SECTOR_SIZE) * COMPRESSED_SECTOR_SIZE;
    let end: u64 = first_sector_start + (additional_sectors + 1) * COMPRESSED_SECTOR_SIZE;
    let span: u64 = end - host_off;
    (host_off, span as usize)
}

/// What the L2 entry `entry` says of its cluster; nothing if the entry points
/// into the middle of one.
pub open spec fn map_of_entry(h: Header, entry: u64) -> Option<ClusterMap> {
    let host = entry & OFFSET_MASK;
    if entry & L2_FLAG_COMPRESSED != 0 {
        Some(
            ClusterMap::Compressed {
                host_off: compressed_start(entry, h.cluster_bits) as u64,
                byte_len: compressed_span(entry, h.cluster_bits) as usize,
            },
        )
    } else if h.version >= 3 && entry & L2_FLAG_ZERO != 0 {
        Some(ClusterMap::Zero)
    } else if host == 0 {
        Some(ClusterMap::Unallocated)
    } else if host as int % h.cluster_size as int != 0 {
        None
    } else {
        Some(ClusterMap::Plain { host_off: host, copied: entry & L2_FLAG_COPIED != 0 })
    }
}

/// How large the numbers in a map can be.
pub open spec fn map_bounded(m: ClusterMap) -> bool {
    match m {
        ClusterMap::Plain { host_off, .. } => host_off < 0x100_0000_0000_0000,
        ClusterMap::Compressed { host_off, byte_len } => host_off < 0x2000_0000_0000_0000 && 0
            < byte_len <= 0x40_0000,
        _ => true,
    }
}

/// The numbers in a map that comes from an L2 entry are bounded.
pub(crate) proof fn lemma_map_bounded(h: Header, entry: u64)
    requires
        9 <= h.cluster_bits <= 21,
    ensures
        map_of_entry(h, entry) matches Some(m) ==> map_bounded(m),
{
    lemma_compressed_bounds(entry, h.cluster_bits);
    assert(entry & OFFSET_MASK < 0x100_0000_0000_0000) by (bit_vector);
}

/// Reads an L2 entry.
pub fn decode_l2_entry(h: &Header, entry: u64) -> (r: Result<ClusterMap, Error>)
    requires
        h.geometry_ok(),
    ensures
        r == match map_of_entry(*h, entry) {
            Some(m) => Ok::<ClusterMap, Error>(m),
            None => Err::<ClusterMap, Error>(
                Error::Corrupt("l2 entry points into the middle of a cluster"),
            ),
        },
{
    proof {
        lemma_cluster_size(h.cluster_bits);
        lemma_compressed_bounds(entry, h.cluster_bits);
    }
    if entry & L2_FLAG_COMPRESSED != 0 {
        let (host_off, byte_len) = decode_compressed_descriptor(entry, h.cluster_bits);
        return Ok(ClusterMap::Compressed { host_off, byte_len });
    }
    if h.version >= 3 && entry & L2_FLAG_ZERO != 0 {
        return Ok(ClusterMap::Zero);
    }
    let host: u64 = entry & OFFSET_MASK;
    if host == 0 {
        return Ok(ClusterMap::Unallocated);
    }
    if host % h.cluster_size != 0 {
        return Err(Error::Corrupt("l2 entry points into the middle of a cluster"));
    }
    Ok(ClusterMap::Plain { host_off: host, copied: entry & L2_FLAG_COPIED != 0 })
}

} // verus!
