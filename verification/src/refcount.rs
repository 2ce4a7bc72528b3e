//! Reference counts of host clusters, and the allocation of a cluster.
//!
//! The refcount table is an array of offsets of refcount blocks; a block is one
//! cluster of 16-bit counts. Only counts of that width are handled.

use crate::bytes::{
    be16, be16_bytes, be64, be64_bytes, copy_into, lemma_found_be16, lemma_found_be64,
    lemma_overwrite_patch, overwrite, read_u16, read_u64, u16_to_bytes, u64_to_bytes, zero_vec,
    zeros,
};
use crate::consistency::frame::lemma_place;
use crate::device::{differs_only_within, settled, with_flush, with_write, BlockDevice, Call};
use crate::error::Error;
use crate::header::{lemma_cluster_size, Header};
use crate::image::{Fault, Image};
use crate::reader::Qcow2Reader;
use vstd::prelude::*;

verus! {

broadcast use {crate::device::lemma_changed_twice, crate::device::lemma_unchanged};

/// Bytes per count in a refcount block.
pub const REFCOUNT_ENTRY_BYTES: u64 = 2;

/// Where the count of a cluster is, or why there is none.
#[derive(Debug, Clone, Copy, PartialEq, Eq, Structural)]
pub enum RefcountEntryLocation {
    /// In the refcount block at `block_off`, `byte_in_block` bytes into it.
    At { block_off: u64, byte_in_block: usize },
    /// The refcount table does not reach the cluster.
    PastTableCoverage,
    /// The table reaches it, but has no block for it.
    BlockNotAllocated,
}

impl Image {
    /// Whether counts are 16 bits wide. Version 2 knows no other width.
    pub open spec fn counts_are_u16(self) -> bool {
        self.header.version < 3 || self.header.refcount_order == 4
    }

    /// Whether there is a refcount table.
    pub open spec fn has_refcount_table(self) -> bool {
        self.header.refcount_table_offset != 0 && self.header.refcount_table_clusters != 0
    }

    /// Where the refcount table starts.
    pub open spec fn rt_off(self) -> int {
        self.header.refcount_table_offset as int
    }

    /// How many counts a refcount block holds.
    pub open spec fn epb(self) -> int {
        self.cs() / 2
    }

    /// How many blocks the refcount table has room for.
    pub open spec fn rt_len(self) -> int {
        self.header.refcount_table_bytes() / 8
    }

    /// Entry `s` of the refcount table: where the block lies, or zero.
    pub open spec fn rt_entry(self, s: int) -> int {
        be64(self.bytes, self.rt_off() + 8 * s) as int
    }

    /// The count at place `e` of block `s`, if the table has that block.
    pub open spec fn count_at(self, s: int, e: int) -> Option<u16> {
        if 0 <= s < self.rt_len() && self.rt_entry(s) != 0 {
            Some(be16(self.bytes, self.rt_entry(s) + 2 * e))
        } else {
            None
        }
    }

    /// The count of host cluster `k`, if there is one.
    pub open spec fn refcount_entry(self, k: int) -> Option<u16> {
        self.count_at(k / self.epb(), k % self.epb())
    }

    /// How often host cluster `k` is counted; a cluster without a count is not
    /// referenced.
    pub open spec fn refcount(self, k: int) -> int {
        match self.refcount_entry(k) {
            Some(c) => c as int,
            None => 0,
        }
    }

    /// Where the count of the cluster that holds `host_off` is.
    pub open spec fn refcount_place(self, host_off: int) -> Result<RefcountEntryLocation, Fault> {
        let k = host_off / self.cs();
        let s = k / self.epb();
        if !self.counts_are_u16() {
            Err(Fault::Unsupported("non-16-bit refcount entries (refcount_order != 4)"))
        } else if !self.has_refcount_table() {
            Err(Fault::Unsupported("no refcount table"))
        } else if s >= self.rt_len() {
            Ok(RefcountEntryLocation::PastTableCoverage)
        } else if self.rt_entry(s) == 0 {
            Ok(RefcountEntryLocation::BlockNotAllocated)
        } else {
            Ok(
                RefcountEntryLocation::At {
                    block_off: self.rt_entry(s) as u64,
                    byte_in_block: (2 * (k % self.epb())) as usize,
                },
            )
        }
    }

    /// The count that a reader finds for the cluster that holds `host_off`.
    pub open spec fn count_read(self, host_off: int) -> Result<u16, Fault> {
        match self.refcount_place(host_off) {
            Err(f) => Err(f),
            Ok(RefcountEntryLocation::At { block_off, byte_in_block }) => if block_off
                + byte_in_block > u64::MAX {
                Err(Fault::Corrupt("refcount block past the addressable range"))
            } else if block_off + byte_in_block + 2 > self.bytes.len() {
                Err(Fault::OutsideDevice)
            } else {
                Ok(be16(self.bytes, block_off + byte_in_block))
            },
            Ok(_) => Ok(0),
        }
    }

    /// Host cluster `k` has a count, and it is zero.
    pub open spec fn is_free(self, k: int) -> bool {
        self.refcount_entry(k) == Some(0u16)
    }

    /// `k` is the first host cluster whose count is zero.
    pub open spec fn first_free(self, k: int) -> bool {
        &&& 0 <= k
        &&& self.is_free(k)
        &&& forall|j: int| 0 <= j < k ==> !#[trigger] self.is_free(j)
    }

    /// No host cluster has a count of zero.
    pub open spec fn none_free(self) -> bool {
        forall|j: int| 0 <= j ==> !#[trigger] self.is_free(j)
    }

    /// `s` is the first entry of the refcount table that has no block.
    pub open spec fn first_empty(self, s: int) -> bool {
        &&& 0 <= s < self.rt_len()
        &&& self.rt_entry(s) == 0
        &&& forall|t: int| 0 <= t < s ==> #[trigger] self.rt_entry(t) != 0
    }

    /// The bytes after host cluster `k` has got its first reference.
    pub open spec fn claimed(self, k: int) -> Seq<u8> {
        overwrite(
            self.bytes,
            self.rt_entry(k / self.epb()) + 2 * (k % self.epb()),
            be16_bytes(1),
        )
    }

    /// A refcount block with one reference each for its first two clusters.
    pub open spec fn new_block(self) -> Seq<u8> {
        overwrite(zeros(self.cs()), 0, seq![0u8, 1u8, 0u8, 1u8])
    }

    /// Where the block for entry `s` of the refcount table is put: at the first
    /// cluster that it counts.
    pub open spec fn new_block_off(self, s: int) -> int {
        s * self.epb() * self.cs()
    }

    /// The bytes after the block for entry `s` has been written.
    pub open spec fn with_block(self, s: int) -> Seq<u8> {
        overwrite(self.bytes, self.new_block_off(s), self.new_block())
    }

    /// The bytes after that block has been put into the refcount table too.
    pub open spec fn grown(self, s: int) -> Seq<u8> {
        overwrite(
            self.with_block(s),
            self.rt_off() + 8 * s,
            be64_bytes(self.new_block_off(s) as u64),
        )
    }

    /// An allocation hands out host cluster `k` and leaves `after` on the device.
    pub open spec fn allocates(self, k: int, after: Seq<u8>) -> bool {
        ||| 0 < k && self.first_free(k) && after == self.claimed(k)
        ||| exists|s: int|
            0 < s && self.none_free() && #[trigger] self.first_empty(s) && k == s * self.epb() + 1
                && after == self.grown(s)
    }

    /// The refcount block that counts host cluster `k`, with `c` for its count.
    pub open spec fn block_with_count(self, k: int, c: u16) -> Seq<u8> {
        let off = self.rt_entry(k / self.epb());
        overwrite(self.bytes.subrange(off, off + self.cs()), 2 * (k % self.epb()), be16_bytes(c))
    }

    /// An allocation hands out host cluster `k`. The device has had the calls `log`
    /// before, and `calls` when it is done; it then holds `after`. The count is on the
    /// medium, and so is a block that had to be made, before the table points at it.
    #[verifier::opaque]
    pub open spec fn claims(
        self,
        k: int,
        log: Seq<Call>,
        after: Seq<u8>,
        calls: Seq<Call>,
    ) -> bool {
        &&& self.counts_are_u16()
        &&& self.has_refcount_table()
        &&& {
            ||| 0 < k && self.first_free(k) && after == self.claimed(k) && calls == settled(
                log,
                self.rt_entry(k / self.epb()),
                self.block_with_count(k, 1),
            )
            ||| exists|s: int|
                0 < s && self.none_free() && #[trigger] self.first_empty(s) && k == s * self.epb()
                    + 1 && after == self.grown(s) && calls == settled(
                    settled(log, self.new_block_off(s), self.new_block()),
                    self.rt_off() + 8 * s,
                    be64_bytes(self.new_block_off(s) as u64),
                )
        }
    }

    /// An allocation that failed half-way may leave `after` on a device whose
    /// writes are atomic.
    pub open spec fn allocation_cut_short(self, after: Seq<u8>) -> bool {
        ||| after == self.bytes
        ||| self.counts_are_u16() && self.has_refcount_table() && (exists|k: int| #[trigger]
            self.first_free(k) && k > 0 && after == self.claimed(k))
        ||| self.counts_are_u16() && self.has_refcount_table() && (exists|s: int|
            0 < s && self.none_free() && #[trigger] self.first_empty(s) && self.new_block_off(s)
                <= u64::MAX && (after == self.with_block(s) || after == self.grown(s)))
    }

    /// The counts have cluster 0, where the header is, for one that can be handed out:
    /// its count is zero, or there is none and a block for it would be put there.
    pub open spec fn header_for_the_taking(self) -> bool {
        ||| self.first_free(0)
        ||| self.none_free() && self.first_empty(0)
    }

    /// The refcount table and its blocks start past the first cluster.
    pub open spec fn counts_past_header(self) -> bool {
        &&& self.cs() <= self.rt_off()
        &&& forall|s: int|
            0 <= s < self.rt_len() && #[trigger] self.rt_entry(s) != 0 ==> self.cs()
                <= self.rt_entry(s)
    }

    /// No count in a block before the one of entry `s` is zero.
    pub open spec fn none_free_before(self, s: int) -> bool {
        forall|j: int| 0 <= j < s * self.epb() ==> !#[trigger] self.is_free(j)
    }

    /// Every block of the refcount table in which an allocation looks for a count of
    /// zero lies on the device: it looks no further than where it finds one.
    pub open spec fn search_on_device(self) -> bool {
        forall|s: int|
            0 <= s < self.rt_len() && self.rt_entry(s) != 0 && #[trigger] self.none_free_before(s)
                ==> self.rt_entry(s) + self.cs() <= self.bytes.len()
    }

    /// Whatever an allocation writes ends no later than `limit`.
    pub open spec fn allocation_fits(self, limit: int) -> bool {
        &&& self.bytes.len() <= limit
        &&& self.none_free() ==> forall|s: int| #[trigger]
            self.first_empty(s) ==> self.new_block_off(s) + self.cs() <= limit
    }

    /// `e` is the error with which an allocation is refused, on a device where
    /// every block can be read.
    pub open spec fn allocation_refused(self, e: Error) -> bool {
        if !self.counts_are_u16() {
            e == Error::Unsupported("non-16-bit refcount entries (refcount_order != 4)")
        } else if !self.has_refcount_table() {
            e == Error::Unsupported("no refcount table (cannot allocate clusters)")
        } else {
            ||| self.header_for_the_taking() && e == Error::Corrupt(
                "refcount table marks host cluster 0 (the header) as free",
            )
            ||| self.none_free() && (forall|s: int|
                0 <= s < self.rt_len() ==> #[trigger] self.rt_entry(s) != 0) && e
                == Error::Unsupported(
                "refcount table is full and every block is full (refcount-table grow not implemented)",
            )
            ||| (exists|k: int| #[trigger] self.first_free(k) && k * self.cs() > u64::MAX)
                && e == Error::Corrupt("host cluster past the addressable range")
            ||| (exists|s: int|
                0 < s && #[trigger] self.first_empty(s) && (s * self.epb() + 1) * self.cs()
                    > u64::MAX) && self.none_free() && e == Error::Corrupt("host cluster past the addressable range")
        }
    }

    /// The cluster that holds `host_off` loses one reference: what is written,
    /// and where, or why it cannot be done.
    pub open spec fn release(self, host_off: int) -> Result<(int, Seq<u8>), Fault> {
        match self.refcount_place(host_off) {
            Err(f) => Err(f),
            Ok(RefcountEntryLocation::PastTableCoverage) => Err(
                Fault::Corrupt("decrement: host cluster past refcount table coverage"),
            ),
            Ok(RefcountEntryLocation::BlockNotAllocated) => Err(
                Fault::Corrupt("decrement: refcount block not allocated for this range"),
            ),
            Ok(RefcountEntryLocation::At { block_off, byte_in_block }) => if block_off + self.cs()
                > self.bytes.len() {
                Err(Fault::OutsideDevice)
            } else if be16(self.bytes, block_off + byte_in_block) == 0 {
                Err(Fault::Corrupt("decrement: refcount already zero (double free?)"))
            } else {
                Ok(
                    (
                        block_off + byte_in_block,
                        be16_bytes((be16(self.bytes, block_off + byte_in_block) - 1) as u16),
                    ),
                )
            },
        }
    }

    /// The cluster that holds `host_off` has lost one reference: the device has had the
    /// calls `log` before, and `calls` when that is done; it then holds `after`.
    pub open spec fn released(
        self,
        host_off: int,
        log: Seq<Call>,
        after: Seq<u8>,
        calls: Seq<Call>,
    ) -> bool {
        let k = host_off / self.cs();
        self.release(host_off) matches Ok(w) && after == overwrite(self.bytes, w.0, w.1) && calls
            == settled(
            log,
            self.rt_entry(k / self.epb()),
            self.block_with_count(k, (self.refcount(k) - 1) as u16),
        )
    }

    /// The cluster that holds `host_off` has not lost its reference for certain: the
    /// device was not asked to, or it did not serve a call.
    pub open spec fn release_failed(
        self,
        host_off: int,
        log: Seq<Call>,
        after: Seq<u8>,
        calls: Seq<Call>,
    ) -> bool {
        let k = host_off / self.cs();
        let off = self.rt_entry(k / self.epb());
        let block = self.block_with_count(k, (self.refcount(k) - 1) as u16);
        ||| after == self.bytes && calls == log
        ||| self.release(host_off) is Ok && differs_only_within(
            self.bytes,
            after,
            off,
            off + self.cs(),
        ) && calls == with_write(log, off, block, false)
        ||| (self.release(host_off) matches Ok(w) && after == overwrite(self.bytes, w.0, w.1))
            && calls == with_flush(with_write(log, off, block, true), false)
    }

    /// The cluster that holds `host_off` is released, as far as the device serves that;
    /// `sure` says that it serves what it can.
    #[verifier::opaque]
    pub open spec fn gives_up(
        self,
        host_off: int,
        log: Seq<Call>,
        after: Seq<u8>,
        calls: Seq<Call>,
        sure: bool,
    ) -> bool {
        if self.release(host_off) is Err {
            after == self.bytes && calls == log
        } else {
            ||| self.released(host_off, log, after, calls)
            ||| !sure && self.release_failed(host_off, log, after, calls)
        }
    }
}

/// The numbers that a refcount table is walked with.
pub(crate) proof fn lemma_refcount_geometry(h: Header)
    requires
        h.geometry_ok(),
    ensures
        512 <= h.cluster_size <= 0x20_0000,
        h.cluster_size % 512 == 0,
        256 <= h.cluster_size as int / 2 <= 0x10_0000,
        0 <= h.refcount_table_bytes() <= 0x1f_ffff_ffe0_0000,
        h.refcount_table_bytes() % 8 == 0,
        h.refcount_table_clusters > 0 ==> h.refcount_table_bytes() / 8 >= 64,
        h.refcount_table_clusters == 0 ==> h.refcount_table_bytes() == 0,
{
    lemma_cluster_size(h.cluster_bits);
    let n = h.refcount_table_clusters as int;
    let cs = h.cluster_size as int;
    let m = cs / 512;
    assert(0 <= n * cs <= 0x1f_ffff_ffe0_0000) by (nonlinear_arith)
        requires
            0 <= n <= 0xffff_ffff,
            0 <= cs <= 0x20_0000,
    ;
    assert(n * cs == 8 * (n * m * 64)) by (nonlinear_arith)
        requires
            cs == 512 * m,
    ;
    if n > 0 {
        assert(n * cs >= 512) by (nonlinear_arith)
            requires
                n >= 1,
                cs >= 512,
        ;
    } else {
        assert(n * cs == 0) by (nonlinear_arith)
            requires
                n == 0,
        ;
    }
}

/// Cluster `s * n + e` is counted at place `e` of block `s`.
proof fn lemma_count_place(n: int, s: int, e: int)
    requires
        n > 0,
        s >= 0,
        0 <= e < n,
    ensures
        (s * n + e) / n == s,
        (s * n + e) % n == e,
        s * n + e >= 0,
{
    vstd::arithmetic::div_mod::lemma_fundamental_div_mod_converse(s * n + e, n, s, e);
    assert(s * n >= 0) by (nonlinear_arith)
        requires
            s >= 0,
            n > 0,
    ;
}

/// A cluster before the one at place `e` of block `s` is counted in an earlier
/// block, or at an earlier place of that one.
proof fn lemma_earlier_place(n: int, s: int, e: int, j: int)
    requires
        n > 0,
        s >= 0,
        0 <= e <= n,
        0 <= j < s * n + e,
    ensures
        0 <= j % n < n,
        0 <= j / n,
        j / n < s || (j / n == s && j % n < e),
{
    vstd::arithmetic::div_mod::lemma_fundamental_div_mod(j, n);
    let q = j / n;
    assert(0 <= q) by (nonlinear_arith)
        requires
            q == j / n,
            j >= 0,
            n > 0,
    ;
    if q > s {
        assert(n * q >= s * n + n) by (nonlinear_arith)
            requires
                q >= s + 1,
                n > 0,
        ;
    } else if q == s {
        assert(n * q == s * n) by (nonlinear_arith)
            requires
                q == s,
        ;
    }
}

/// The first cluster of the device holds in `b` what it holds in `a`.
pub open spec fn first_cluster_kept(a: Image, b: Image) -> bool {
    forall|i: int| 0 <= i < a.cs() && i < a.bytes.len() ==> #[trigger] b.bytes[i] == a.bytes[i]
}

/// The first of the `n` counts in `block` that is zero.
fn find_zero_count(block: &[u8], n: usize) -> (r: Option<usize>)
    requires
        2 * n <= block@.len(),
    ensures
        match r {
            Some(e) => e < n && be16(block@, 2 * e) == 0 && (forall|j: int|
                0 <= j < e ==> #[trigger] be16(block@, 2 * j) != 0),
            None => forall|j: int| 0 <= j < n ==> #[trigger] be16(block@, 2 * j) != 0,
        },
{
    let mut e: usize = 0;
    while e < n
        invariant
            e <= n,
            2 * n <= block@.len(),
            forall|j: int| 0 <= j < e ==> #[trigger] be16(block@, 2 * j) != 0,
        decreases n - e,
    {
        assert(2 * n <= block.len());
        if read_u16(block, 2 * e) == 0 {
            return Some(e);
        }
        e = e + 1;
    }
    None
}

/// The offset of the cluster that is counted at place `e` of block `s`, if a
/// `u64` can hold it.
fn host_cluster_offset(h: &Header, s: u64, e: u64) -> (r: Option<u64>)
    requires
        h.geometry_ok(),
        s < h.refcount_table_bytes() / 8,
        e < h.cluster_size / 2,
    ensures
        match r {
            Some(off) => off == (s * (h.cluster_size as int / 2) + e) * h.cluster_size,
            None => (s * (h.cluster_size as int / 2) + e) * h.cluster_size > u64::MAX,
        },
{
    proof {
        lemma_refcount_geometry(*h);
        let n = h.cluster_size as int / 2;
        let k = s * n + e;
        assert(0 <= s * n <= 0x4_0000_0000_0000 * 0x10_0000) by (nonlinear_arith)
            requires
                0 <= s <= 0x4_0000_0000_0000,
                0 <= n <= 0x10_0000,
        ;
        assert(0 <= k * h.cluster_size <= 0x4_0000_0010_0000 * 0x10_0000 * 0x20_0000)
            by (nonlinear_arith)
            requires
                0 <= k <= 0x4_0000_0010_0000 * 0x10_0000,
                0 <= h.cluster_size <= 0x20_0000,
        ;
    }
    let k: u128 = s as u128 * (h.cluster_size / REFCOUNT_ENTRY_BYTES) as u128 + e as u128;
    let off: u128 = k * h.cluster_size as u128;
    if off > u64::MAX as u128 {
        None
    } else {
        Some(off as u64)
    }
}

impl<D: BlockDevice> Qcow2Reader<D> {
    /// How many counts a refcount block holds. Any width but 16 bits is refused:
    /// walked at the wrong stride, two counts would be read as one.
    pub(crate) fn refcount_entries_per_block(&self) -> (r: Result<u64, Error>)
        requires
            self.inv(),
        ensures
            match r {
                Ok(n) => self@.counts_are_u16() && n == self@.epb(),
                Err(e) => !self@.counts_are_u16() && e == Error::Unsupported(
                    "non-16-bit refcount entries (refcount_order != 4)",
                ),
            },
    {
        if self.header.version >= 3 && self.header.refcount_order != 4 {
            return Err(Error::Unsupported("non-16-bit refcount entries (refcount_order != 4)"));
        }
        Ok(self.header.cluster_size / REFCOUNT_ENTRY_BYTES)
    }

    /// Entry `slot` of the refcount table.
    fn read_rt_entry(&self, slot: u64) -> (r: Result<u64, Error>)
        requires
            self.inv(),
            slot < self@.rt_len(),
        ensures
            r matches Ok(x) ==> x == self@.rt_entry(slot as int),
            self.dependable() ==> r is Ok,
    {
        proof {
            lemma_refcount_geometry(self.header);
        }
        match self.dev_read(self.header.refcount_table_offset + slot * 8, 8) {
            Ok(v) => {
                proof {
                    lemma_found_be64(self.dev.contents(), self@.rt_off() + slot * 8, v@, 0);
                }
                Ok(read_u64(v.as_slice(), 0))
            },
            Err(e) => Err(e),
        }
    }

    /// Where the count of the cluster that holds `host_off` is. What its absence
    /// means is for the caller to say.
    pub(crate) fn locate_refcount_entry(&self, host_off: u64) -> (r: Result<
        RefcountEntryLocation,
        Error,
    >)
        requires
            self.inv(),
        ensures
            r matches Ok(l) ==> self@.refcount_place(host_off as int) == Ok::<
                RefcountEntryLocation,
                Fault,
            >(l),
            r matches Err(e) ==> self.dependable() ==> (self@.refcount_place(host_off as int)
                matches Err(f) && f.reported_by(e)),
    {
        proof {
            lemma_refcount_geometry(self.header);
        }
        let cluster_size: u64 = self.header.cluster_size;
        let entries_per_block: u64 = match self.refcount_entries_per_block() {
            Ok(n) => n,
            Err(e) => {
                return Err(e);
            },
        };
        let host_cluster_idx: u64 = host_off / cluster_size;
        let block_idx: u64 = host_cluster_idx / entries_per_block;
        let entry_idx: u64 = host_cluster_idx % entries_per_block;
        let rt_off: u64 = self.header.refcount_table_offset;
        let rt_clusters: u64 = self.header.refcount_table_clusters as u64;
        if rt_off == 0 || rt_clusters == 0 {
            return Err(Error::Unsupported("no refcount table"));
        }
        if block_idx >= rt_clusters * cluster_size / 8 {
            return Ok(RefcountEntryLocation::PastTableCoverage);
        }
        match self.read_rt_entry(block_idx) {
            Ok(block_off) => {
                if block_off == 0 {
                    return Ok(RefcountEntryLocation::BlockNotAllocated);
                }
                Ok(
                    RefcountEntryLocation::At {
                        block_off,
                        byte_in_block: (entry_idx * REFCOUNT_ENTRY_BYTES) as usize,
                    },
                )
            },
            Err(e) => Err(e),
        }
    }

    /// The count of the cluster that holds `host_off`. No entry means no
    /// references: there is no one to copy the cluster away from.
    pub(crate) fn read_refcount(&self, host_off: u64) -> (r: Result<u16, Error>)
        requires
            self.inv(),
        ensures
            r matches Ok(c) ==> self@.count_read(host_off as int) == Ok::<u16, Fault>(c),
            r matches Err(e) ==> self.dependable() ==> (self@.count_read(host_off as int)
                matches Err(f) && f.reported_by(e)),
    {
        proof {
            lemma_refcount_geometry(self.header);
        }
        match self.locate_refcount_entry(host_off) {
            Ok(RefcountEntryLocation::At { block_off, byte_in_block }) => {
                if byte_in_block as u64 > u64::MAX - block_off {
                    return Err(Error::Corrupt("refcount block past the addressable range"));
                }
                match self.dev_read(block_off + byte_in_block as u64, 2) {
                    Ok(v) => {
                        proof {
                            lemma_found_be16(
                                self.dev.contents(),
                                block_off + byte_in_block,
                                v@,
                                0,
                            );
                        }
                        Ok(read_u16(v.as_slice(), 0))
                    },
                    Err(e) => Err(e),
                }
            },
            Ok(_) => Ok(0),
            Err(e) => Err(e),
        }
    }

    /// The cluster that holds `host_off` loses one reference. To release what
    /// the table does not cover, or what has no reference, is an error: it was
    /// never recorded as taken.
    pub(crate) fn decrement_refcount(&mut self, host_off: u64) -> (r: Result<(), Error>)
        requires
            old(self).inv(),
        ensures
            final(self).inv(),
            final(self).same_but_bytes(&*old(self)),
            r is Ok ==> (old(self)@.release(host_off as int) matches Ok(w) && final(self)@.bytes
                == overwrite(old(self)@.bytes, w.0, w.1)),
            r is Ok ==> final(self).dev.stored() == final(self)@.bytes,
            r is Ok ==> old(self)@.released(
                host_off as int,
                old(self).dev.calls(),
                final(self)@.bytes,
                final(self).dev.calls(),
            ),
            r is Err ==> old(self)@.release_failed(
                host_off as int,
                old(self).dev.calls(),
                final(self)@.bytes,
                final(self).dev.calls(),
            ),
            r is Err && old(self).dev.atomic() ==> final(self)@.bytes == old(self)@.bytes || (old(
                self,
            )@.release(host_off as int) matches Ok(w) && final(self)@.bytes == overwrite(
                old(self)@.bytes,
                w.0,
                w.1,
            )),
            r matches Err(e) ==> old(self).dependable() ==> match old(self)@.release(
                host_off as int,
            ) {
                Err(f) => f.reported_by(e) && final(self)@.bytes == old(self)@.bytes,
                Ok(w) => old(self).dev.write_limit() < old(self)@.bytes.len(),
            },
    {
        proof {
            lemma_refcount_geometry(self.header);
        }
        let cluster_size: usize = self.header.cluster_size as usize;
        let (block_off, off): (u64, usize) = match self.locate_refcount_entry(host_off) {
            Ok(RefcountEntryLocation::At { block_off, byte_in_block }) => (block_off, byte_in_block),
            Ok(RefcountEntryLocation::PastTableCoverage) => {
                return Err(Error::Corrupt("decrement: host cluster past refcount table coverage"));
            },
            Ok(RefcountEntryLocation::BlockNotAllocated) => {
                return Err(Error::Corrupt("decrement: refcount block not allocated for this range"));
            },
            Err(e) => {
                return Err(e);
            },
        };
        let mut block: Vec<u8> = match self.dev_read(block_off, cluster_size) {
            Ok(v) => v,
            Err(e) => {
                return Err(e);
            },
        };
        let ghost read = block@;
        let ghost bytes = self@.bytes;
        let cur: u16 = read_u16(block.as_slice(), off);
        proof {
            lemma_found_be16(bytes, block_off as int, read, off as int);
        }
        if cur == 0 {
            return Err(Error::Corrupt("decrement: refcount already zero (double free?)"));
        }
        let count: Vec<u8> = u16_to_bytes(cur - 1);
        copy_into(block.as_mut_slice(), off, count.as_slice());
        proof {
            lemma_overwrite_patch(bytes, block_off as int, read, off as int, count@);
            assert(read =~= bytes.subrange(block_off as int, block_off + cluster_size));
        }
        match self.dev_write(block_off, block.as_slice()) {
            Ok(()) => {},
            Err(e) => {
                return Err(e);
            },
        }
        self.dev_flush()
    }

    /// Finds a host cluster that is not referenced, gives it its first
    /// reference, and returns its offset.
    ///
    /// Every block of the refcount table is searched for a count of zero, in
    /// order. If there is none, a new block is made for the first entry of the
    /// table that has none. It lies at the first cluster that it counts, so it
    /// counts itself, and the cluster after it is the one handed out.
    ///
    /// Cluster 0 holds the header: counts that have it for free are refused, be it
    /// that its count is zero or that there is no block for it.
    ///
    /// The new block is on the device before the table points at it; a failure
    /// in between leaves it where nothing points at it, and harms nothing.
    #[verifier::rlimit(50)]
    pub(crate) fn allocate_cluster(&mut self) -> (r: Result<u64, Error>)
        requires
            old(self).inv(),
        ensures
            final(self).inv(),
            final(self).same_but_bytes(&*old(self)),
            r matches Ok(off) ==> old(self)@.counts_are_u16() && old(self)@.has_refcount_table() && (
            exists|k: int|
                0 < k && off == k * old(self)@.cs() && #[trigger] old(self)@.allocates(
                    k,
                    final(self)@.bytes,
                )),
            r matches Ok(off) ==> off > 0 && old(self)@.claims(
                off as int / old(self)@.cs(),
                old(self).dev.calls(),
                final(self)@.bytes,
                final(self).dev.calls(),
            ),
            old(self)@.header_for_the_taking() ==> r is Err && final(self).device() == old(
                self,
            ).device(),
            old(self)@.counts_past_header() ==> first_cluster_kept(old(self)@, final(self)@),
            r is Err && old(self).dev.atomic() ==> old(self)@.allocation_cut_short(
                final(self)@.bytes,
            ),
            old(self).dependable() && old(self)@.first_free(0) && old(self)@.counts_are_u16() && old(
                self,
            )@.has_refcount_table() && old(self)@.rt_entry(0) + old(self)@.cs() <= old(
                self,
            )@.bytes.len() ==> r == Err::<u64, Error>(
                Error::Corrupt("refcount table marks host cluster 0 (the header) as free"),
            ),
            old(self).dependable() && old(self)@.search_on_device() ==> match r {
                Ok(_) => forall|e: Error| !#[trigger] old(self)@.allocation_refused(e),
                Err(e) => {
                    ||| old(self)@.allocation_refused(e) && final(self).device() == old(
                        self,
                    ).device()
                    ||| (forall|f: Error| !#[trigger] old(self)@.allocation_refused(f)) && !old(
                        self,
                    )@.allocation_fits(old(self).dev.write_limit())
                },
            },
    {
        proof {
            lemma_refcount_geometry(self.header);
            reveal(Image::claims);
        }
        let ghost img = self@;
        proof {
            lemma_place(img, 0);
            if img.first_free(0) {
                assert(img.is_free(0));
            }
        }
        let cluster_size: usize = self.header.cluster_size as usize;
        let entries_per_block: u64 = match self.refcount_entries_per_block() {
            Ok(n) => n,
            Err(e) => {
                return Err(e);
            },
        };
        let rt_off: u64 = self.header.refcount_table_offset;
        let rt_clusters: u64 = self.header.refcount_table_clusters as u64;
        if rt_off == 0 || rt_clusters == 0 {
            return Err(Error::Unsupported("no refcount table (cannot allocate clusters)"));
        }
        let rt_entries: u64 = rt_clusters * self.header.cluster_size / 8;
        let mut first_empty: Option<u64> = None;
        let mut block_idx: u64 = 0;
        while block_idx < rt_entries
            invariant
                *self == *old(self),
                img == self@,
                self.inv(),
                cluster_size == img.cs(),
                img.counts_are_u16(),
                img.has_refcount_table(),
                img.first_free(0) ==> img.count_at(0, 0) == Some(0u16),
                entries_per_block == img.epb(),
                rt_entries == img.rt_len(),
                block_idx <= rt_entries,
                match first_empty {
                    Some(s) => s < block_idx && img.first_empty(s as int),
                    None => forall|t: int| 0 <= t < block_idx ==> #[trigger] img.rt_entry(t) != 0,
                },
                forall|s: int, e: int|
                    0 <= s < block_idx && 0 <= e < entries_per_block ==> #[trigger] img.count_at(
                        s,
                        e,
                    ) != Some(0u16),
            decreases rt_entries - block_idx,
        {
            proof {
                lemma_refcount_geometry(self.header);
            }
            let block_off: u64 = match self.read_rt_entry(block_idx) {
                Ok(x) => x,
                Err(e) => {
                    return Err(e);
                },
            };
            if block_off == 0 {
                if first_empty.is_none() {
                    first_empty = Some(block_idx);
                }
            } else {
                let mut block: Vec<u8> = match self.dev_read(block_off, cluster_size) {
                    Ok(v) => v,
                    Err(e) => {
                        assert forall|j: int| 0 <= j < block_idx * img.epb() implies !#[trigger] img.is_free(
                            j,
                        ) by {
                            lemma_earlier_place(img.epb(), block_idx as int, 0, j);
                            assert(img.count_at(j / img.epb(), j % img.epb()) != Some(0u16));
                        }
                        assert(img.none_free_before(block_idx as int));
                        return Err(e);
                    },
                };
                let ghost read = block@;
                assert forall|e: int| 0 <= e < entries_per_block implies #[trigger] img.count_at(
                    block_idx as int,
                    e,
                ) == Some(be16(read, 2 * e)) by {
                    lemma_found_be16(img.bytes, block_off as int, read, 2 * e);
                }
                match find_zero_count(block.as_slice(), entries_per_block as usize) {
                    Some(entry_idx) => {
                        let ghost k = block_idx * img.epb() + entry_idx;
                        proof {
                            lemma_count_place(img.epb(), block_idx as int, entry_idx as int);
                            assert forall|j: int| 0 <= j < k implies !#[trigger] img.is_free(
                                j,
                            ) by {
                                lemma_earlier_place(
                                    img.epb(),
                                    block_idx as int,
                                    entry_idx as int,
                                    j,
                                );
                                assert(img.count_at(j / img.epb(), j % img.epb()) != Some(0u16));
                            }
                            assert(img.is_free(k));
                            assert(img.first_free(k));
                        }
                        if block_idx == 0 && entry_idx == 0 {
                            return Err(
                                Error::Corrupt(
                                    "refcount table marks host cluster 0 (the header) as free",
                                ),
                            );
                        }
                        let host_off: u64 = match host_cluster_offset(
                            &self.header,
                            block_idx,
                            entry_idx as u64,
                        ) {
                            Some(off) => off,
                            None => {
                                return Err(
                                    Error::Corrupt("host cluster past the addressable range"),
                                );
                            },
                        };
                        let one: Vec<u8> = u16_to_bytes(1);
                        copy_into(block.as_mut_slice(), 2 * entry_idx, one.as_slice());
                        proof {
                            lemma_overwrite_patch(
                                img.bytes,
                                block_off as int,
                                read,
                                2 * entry_idx,
                                one@,
                            );
                            assert(k > 0) by (nonlinear_arith)
                                requires
                                    k == block_idx * img.epb() + entry_idx,
                                    block_idx > 0 || entry_idx > 0,
                                    block_idx >= 0,
                                    entry_idx >= 0,
                                    img.epb() > 0,
                            ;
                        }
                        proof {
                            reveal(Image::claims);
                            vstd::arithmetic::div_mod::lemma_fundamental_div_mod_converse(
                                host_off as int,
                                img.cs(),
                                k,
                                0,
                            );
                            assert(read =~= img.bytes.subrange(
                                block_off as int,
                                block_off + cluster_size,
                            ));
                        }
                        match self.dev_write(block_off, block.as_slice()) {
                            Ok(()) => {},
                            Err(e) => {
                                return Err(e);
                            },
                        }
                        assert(img.allocates(k, self@.bytes));
                        match self.dev_flush() {
                            Ok(()) => {},
                            Err(e) => {
                                return Err(e);
                            },
                        }
                        return Ok(host_off);
                    },
                    None => {},
                }
            }
            block_idx = block_idx + 1;
        }
        assert forall|j: int| 0 <= j implies !#[trigger] img.is_free(j) by {
            let n = img.epb();
            assert(0 <= j % n < n && 0 <= j / n) by (nonlinear_arith)
                requires
                    j >= 0,
                    n > 0,
            ;
            assert(img.count_at(j / img.epb(), j % img.epb()) != Some(0u16));
        }
        match first_empty {
            Some(0) => Err(
                Error::Corrupt("refcount table marks host cluster 0 (the header) as free"),
            ),
            Some(slot) => {
                let r = self.grow_refcounts(slot);
                proof {
                    let k = slot * img.epb() + 1;
                    assert(slot * img.epb() >= 0) by (nonlinear_arith)
                        requires
                            slot >= 0,
                            img.epb() >= 0,
                    ;
                    assert(img.first_empty(slot as int));
                    assert(r is Ok ==> img.allocates(k, self@.bytes));
                    vstd::arithmetic::div_mod::lemma_fundamental_div_mod_converse(
                        k * img.cs(),
                        img.cs(),
                        k,
                        0,
                    );
                }
                r
            },
            None => Err(
                Error::Unsupported(
                    "refcount table is full and every block is full (refcount-table grow not implemented)",
                ),
            ),
        }
    }

    /// Makes a refcount block for entry `slot` of the refcount table, and returns
    /// the cluster after it.
    fn grow_refcounts(&mut self, slot: u64) -> (r: Result<u64, Error>)
        requires
            old(self).inv(),
            old(self)@.counts_are_u16(),
            old(self)@.has_refcount_table(),
            old(self)@.none_free(),
            old(self)@.first_empty(slot as int),
            slot > 0,
        ensures
            final(self).inv(),
            final(self).same_but_bytes(&*old(self)),
            old(self)@.counts_past_header() ==> first_cluster_kept(old(self)@, final(self)@),
            r matches Ok(off) ==> off > 0 && off == (slot * old(self)@.epb() + 1) * old(self)@.cs()
                && final(self)@.bytes == old(self)@.grown(slot as int),
            r is Ok ==> final(self).dev.calls() == settled(
                settled(
                    old(self).dev.calls(),
                    old(self)@.new_block_off(slot as int),
                    old(self)@.new_block(),
                ),
                old(self)@.rt_off() + 8 * slot,
                be64_bytes(old(self)@.new_block_off(slot as int) as u64),
            ),
            r is Err && old(self).dev.atomic() ==> old(self)@.allocation_cut_short(
                final(self)@.bytes,
            ),
            r matches Err(e) ==> old(self).dependable() ==> {
                ||| (slot * old(self)@.epb() + 1) * old(self)@.cs() > u64::MAX && e
                    == Error::Corrupt("host cluster past the addressable range")
                    && final(self).device() == old(self).device()
                ||| (slot * old(self)@.epb() + 1) * old(self)@.cs() <= u64::MAX && !old(
                    self,
                )@.allocation_fits(old(self).dev.write_limit())
            },
            r is Ok ==> (slot * old(self)@.epb() + 1) * old(self)@.cs() <= u64::MAX,
    {
        let ghost img = self@;
        proof {
            lemma_refcount_geometry(self.header);
        }
        let caller_off: u64 = match host_cluster_offset(&self.header, slot, 1) {
            Some(off) => off,
            None => {
                return Err(Error::Corrupt("host cluster past the addressable range"));
            },
        };
        proof {
            assert((slot * img.epb() + 1) * img.cs() == slot * img.epb() * img.cs() + img.cs())
                by (nonlinear_arith);
            assert(slot * img.epb() * img.cs() >= 0) by (nonlinear_arith)
                requires
                    slot >= 0,
                    img.epb() >= 0,
                    img.cs() >= 0,
            ;
        }
        let new_block_off: u64 = caller_off - self.header.cluster_size;
        assert(new_block_off >= img.cs()) by (nonlinear_arith)
            requires
                new_block_off == slot * img.epb() * img.cs(),
                slot >= 1,
                img.epb() >= 1,
                img.cs() > 0,
        ;
        let mut block: Vec<u8> = zero_vec(self.header.cluster_size as usize);
        let counts: Vec<u8> = vec![0u8, 1u8, 0u8, 1u8];
        assert(counts@ =~= seq![0u8, 1u8, 0u8, 1u8]);
        copy_into(block.as_mut_slice(), 0, counts.as_slice());
        match self.dev_write(new_block_off, block.as_slice()) {
            Ok(()) => {},
            Err(e) => {
                return Err(e);
            },
        }
        assert(self@.bytes == img.with_block(slot as int));
        match self.dev_flush() {
            Ok(()) => {},
            Err(e) => {
                return Err(e);
            },
        }
        let pointer: Vec<u8> = u64_to_bytes(new_block_off);
        match self.dev_write(self.header.refcount_table_offset + slot * 8, pointer.as_slice()) {
            Ok(()) => {},
            Err(e) => {
                return Err(e);
            },
        }
        match self.dev_flush() {
            Ok(()) => {},
            Err(e) => {
                return Err(e);
            },
        }
        Ok(caller_off)
    }
}

} // verus!
