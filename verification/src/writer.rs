//! Writing to an image.
//!
//! The order of the writes is: counts, data, tables, with a flush after each. A
//! failure in between may leave a cluster that is counted and not used; it harms
//! nothing that the image holds.

pub mod effects;
pub mod needs;
pub mod order;
pub mod outcome;

use crate::bytes::{
    be64, be64_bytes, copy_into, lemma_found_be64, lemma_overwrite_patch, overwrite, u64_to_bytes,
    zero_vec, zeros,
};
use crate::consistency::{
    held_elsewhere, lemma_fewer_pins, lemma_keeps_trans, lemma_same_entries_trans, lemma_unharmed,
    lemma_untouched_trans, reopened, step, unharmed,
};
use crate::consistency::counts::{
    lemma_allocates, lemma_allocation_cut_short, lemma_release, lemma_release_possible,
    lemma_release_writes,
};
use crate::consistency::frame::{changed_in, lemma_counted_nonneg, lemma_quiet_change};
use crate::consistency::links::{l1_entry_set, lemma_link_data, lemma_link_table};
use crate::consistency::refs::{lemma_one_reference, lemma_refs_nonneg};
use crate::device::{all_served, settled, with_flush, BlockDevice};
use crate::entry::{
    fresh_entry, l2_entry_for, l2_len, lemma_l1_reaches, map_bounded, split_virtual, ClusterMap,
    L2_FLAG_COPIED, OFFSET_MASK,
};
use crate::error::Error;
use crate::header::{lemma_cluster_size, Header};
use crate::image::{Fault, Image};
use crate::reader::Qcow2Reader;
use crate::room::{lemma_room_kept, lemma_room_less, lemma_room_serves, lemma_room_taken, room};
use crate::writer::effects::{
    lemma_chunk_linked, lemma_chunk_released, lemma_clusters_left, lemma_count_read,
    lemma_count_readable, lemma_linked, lemma_linked_unharmed, lemma_new_cluster_filled,
    lemma_nothing_written, lemma_old_table_released, lemma_plan_ready, lemma_release_ready,
    lemma_table_filled, lemma_table_installed, lemma_table_not_installed, lemma_unharmed_wider,
    lemma_whole_cluster, lemma_written_in_place, lemma_written_then_failed, lemma_written_twice,
    linked, reads_back, table_installed, table_matches, table_owned, taken, written,
};
use crate::writer::needs::{
    can_be_written, cluster_cost, clusters_needed, lemma_cost_covered, lemma_needed_after,
    lemma_place_kept, lemma_still_writable, places_kept, table_cost,
};
use crate::writer::order::{
    chunk_written, chunks_written, cluster_filled, cluster_replaced, cluster_seen, entry_put,
    in_one, lemma_cluster_replaced, lemma_entry_put, lemma_no_chunks, lemma_one_chunk,
    lemma_one_more_chunk, lemma_put_in_place, lemma_table_copied, lemma_table_new,
    lemma_table_own_already, lemma_table_put, put_in_place, table_made_own, table_put,
};
use crate::writer::outcome::{
    counts_moved, in_one_cluster, lemma_chunk_needs, lemma_chunk_outcome, lemma_chunks_outcome,
    lemma_reads_back, lemma_share_kept, surplus_kept,
};
use vstd::prelude::*;

verus! {

broadcast use {crate::device::lemma_changed_twice, crate::device::lemma_unchanged};

/// Where the last byte that an L1 or L2 entry can point at ends.
pub const ADDRESSABLE: u64 = 0x100_0000_0000_0000;

/// What a cluster that has just been allocated has to be filled with before the
/// caller's bytes go into it: what a reader sees there.
#[derive(Debug, Clone, Copy, PartialEq, Eq, Structural)]
pub enum ClusterSeed {
    /// Zeros, whatever the backing image holds.
    Zeros,
    /// What the backing image holds, or zeros without one.
    BackingChain,
    /// A cluster that is shared, and so is copied.
    HostCluster(u64),
    /// A compressed cluster, whose replacement is not compressed.
    Compressed { host_off: u64, byte_len: usize },
}

/// How bytes get into the cluster that holds them.
#[derive(Debug, Clone, Copy, PartialEq, Eq, Structural)]
pub enum WritePlan {
    /// The cluster is there, not compressed, and not shared.
    InPlace { host_off: u64 },
    /// A new cluster takes its place. `release` is the cluster that loses a count
    /// once the tables point at the new one.
    Reallocate { seed: ClusterSeed, release: Option<u64> },
}

/// What a cluster of which the tables say `map` is copied from.
pub open spec fn seed_for(map: ClusterMap) -> ClusterSeed {
    match map {
        ClusterMap::Plain { host_off, .. } => ClusterSeed::HostCluster(host_off),
        ClusterMap::Compressed { host_off, byte_len } => ClusterSeed::Compressed {
            host_off,
            byte_len,
        },
        ClusterMap::Zero => ClusterSeed::Zeros,
        ClusterMap::Unallocated => ClusterSeed::BackingChain,
    }
}

/// How bytes get into a cluster of which the tables say `map`.
pub open spec fn plan_for(img: Image, map: ClusterMap) -> Result<WritePlan, Fault> {
    let anew = WritePlan::Reallocate {
        seed: seed_for(map),
        release: match map {
            ClusterMap::Plain { host_off, .. } => Some(host_off),
            ClusterMap::Compressed { host_off, .. } => Some(host_off),
            _ => None,
        },
    };
    match map {
        ClusterMap::Plain { host_off, copied } => if copied {
            Ok(WritePlan::InPlace { host_off })
        } else {
            match img.count_read(host_off as int) {
                Ok(c) => if c > 1 {
                    Ok(anew)
                } else {
                    Ok(WritePlan::InPlace { host_off })
                },
                Err(f) => Err(f),
            }
        },
        _ => Ok(anew),
    }
}

/// `e` reports why a write to byte `v` cannot even begin: the tables say nothing of
/// the cluster that holds it, or its count cannot be read, or it has to be copied and
/// cannot be read, or there is no cluster to be had for the copy.
pub open spec fn beginning_refused(img: Image, v: int, e: Error) -> bool {
    let base = v - v % img.cs();
    match img.cluster_map(v) {
        Err(f) => f.reported_by(e),
        Ok(m) => match plan_for(img, m) {
            Err(f) => f.reported_by(e),
            Ok(WritePlan::InPlace { .. }) => false,
            Ok(WritePlan::Reallocate { .. }) => if img.readable(base, base + img.cs()) {
                img.allocation_refused(e)
            } else {
                img.faulty(base, img.cs(), e)
            },
        },
    }
}

/// Whether a write to byte `v` cannot even begin.
pub open spec fn cannot_begin(img: Image, v: int) -> bool {
    exists|e: Error| #[trigger] beginning_refused(img, v, e)
}

/// A write to byte `v` goes into the cluster that holds it, in its place.
pub open spec fn goes_in_place(img: Image, v: int) -> bool {
    img.cluster_map(v) matches Ok(m) && (plan_for(img, m) matches Ok(p) && p is InPlace)
}

impl<D: BlockDevice> Qcow2Reader<D> {
    /// No write is torn: the device tears none, or it fails none, as long as no byte
    /// past the first `size` is written.
    pub open spec fn steady(&self, size: int) -> bool {
        ||| self.device().atomic()
        ||| self.certain(size)
    }

    /// Every device serves what it can, and the first `size` bytes can be written.
    pub open spec fn certain(&self, size: int) -> bool {
        self.dependable() && size <= self.device().write_limit()
    }

    /// The image is consistent but for `pins`, its device tears no write, and `size`
    /// bytes can be addressed.
    pub open spec fn orderly(&self, pins: Set<int>, size: int) -> bool {
        &&& self@.consistent_with(pins)
        &&& self.steady(size)
        &&& size <= ADDRESSABLE
    }

    /// Where the last byte that can be both written and addressed ends.
    pub open spec fn cap(&self) -> int {
        if self.device().write_limit() < ADDRESSABLE {
            self.device().write_limit()
        } else {
            ADDRESSABLE as int
        }
    }

    /// The image is consistent but for `pins`, every device serves what it can, and
    /// every byte of the image can be written.
    pub open spec fn sturdy(&self, pins: Set<int>) -> bool {
        &&& self.dependable()
        &&& self@.consistent_with(pins)
        &&& self@.bytes.len() <= self.cap()
    }

    /// Every device serves what it can, and what an allocation reads lies on the device.
    pub open spec fn allocation_decides(&self) -> bool {
        &&& self.dependable()
        &&& self@.search_on_device()
    }

    /// Nothing stands in the way of `n` allocations: `n` clusters are to be had.
    pub open spec fn provided(&self, pins: Set<int>, n: int) -> bool {
        &&& self.sturdy(pins)
        &&& self@.counted()
        &&& room(self@, self.cap(), n)
    }

    /// Every byte from `lo` up to `hi` is written in its place, and can be.
    pub open spec fn all_in_place(&self, lo: int, hi: int) -> bool {
        &&& self.sturdy(Set::empty())
        &&& forall|v: int| lo <= v < hi ==> #[trigger] goes_in_place(self@, v)
    }

    /// Nothing stands in the way of a write of `len` bytes at `v`: it is not refused,
    /// each of its bytes can be written, and either all of them are written in their
    /// places, or as many clusters are to be had as it takes: one for each cluster of the
    /// disk that is not, and one for each L2 table that is missing or shared.
    pub open spec fn write_served(&self, v: int, len: int) -> bool {
        &&& write_refusal(self@.header, self.opened_writable(), v, len) is None
        &&& len > 0 ==> {
            &&& forall|w: int| v <= w < v + len ==> #[trigger] can_be_written(self@, self.cap(), w)
            &&& self.all_in_place(v, v + len) || self.provided(
                Set::empty(),
                clusters_needed(self@, v, v + len, -1),
            )
        }
    }

    /// Sets one L1 entry, on the device and in memory.
    pub(crate) fn update_l1_entry(&mut self, l1_idx: u32, new_entry: u64) -> (r: Result<(), Error>)
        requires
            old(self).inv(),
        ensures
            final(self).inv(),
            final(self).same_but_tables(&*old(self)),
            r is Ok ==> l1_entry_set(old(self)@, final(self)@, l1_idx as int, new_entry),
            r is Ok ==> final(self).dev.calls() == settled(
                old(self).dev.calls(),
                old(self)@.header.l1_table_offset + 8 * l1_idx,
                be64_bytes(new_entry),
            ),
            r is Err ==> final(self)@.l1 == old(self)@.l1,
            r is Err && old(self).dev.atomic() ==> final(self)@.bytes == old(self)@.bytes || (l1_idx
                < old(self)@.l1.len() && final(self)@.bytes == overwrite(
                old(self)@.bytes,
                old(self)@.header.l1_table_offset + 8 * l1_idx,
                be64_bytes(new_entry),
            )),
            r matches Err(e) ==> l1_idx >= old(self)@.l1.len() ==> e == Error::Corrupt(
                "l1_idx out of range",
            ) && final(self)@ == old(self)@,
            l1_idx < old(self)@.l1.len() && old(self).dev.dependable() && old(
                self,
            )@.bytes.len() <= old(self).dev.write_limit() ==> r is Ok,
    {
        if l1_idx as usize >= self.l1.len() {
            return Err(Error::Corrupt("l1_idx out of range"));
        }
        let entry: Vec<u8> = u64_to_bytes(new_entry);
        match self.dev_write(
            self.header.l1_table_offset + l1_idx as u64 * 8,
            entry.as_slice(),
        ) {
            Ok(()) => {},
            Err(e) => {
                return Err(e);
            },
        }
        match self.dev_flush() {
            Ok(()) => {},
            Err(e) => {
                return Err(e);
            },
        }
        self.l1.set(l1_idx as usize, new_entry);
        Ok(())
    }

    /// Takes one count from the cluster that holds `host_off`. If that fails the
    /// cluster stays counted, which wastes it and harms nothing; so the failure is
    /// not reported. It does not fail where the device serves what it can and there is
    /// a count to take.
    #[verifier::rlimit(50)]
    pub(crate) fn release_cluster(&mut self, host_off: u64, Ghost(pins): Ghost<Set<int>>)
        requires
            old(self).inv(),
        ensures
            final(self).inv(),
            final(self).same_but_bytes(&*old(self)),
            forall|sure: bool|
                (sure ==> old(self).certain(final(self)@.bytes.len() as int)) ==> #[trigger] old(
                    self,
                )@.gives_up(
                    host_off as int,
                    old(self).device().calls(),
                    final(self)@.bytes,
                    final(self).device().calls(),
                    sure,
                ),
            old(self).dependable() ==> match old(self)@.release(host_off as int) {
                Ok(_) => old(self)@.bytes.len() <= old(self).device().write_limit() ==> old(
                    self,
                )@.released(
                    host_off as int,
                    old(self).device().calls(),
                    final(self)@.bytes,
                    final(self).device().calls(),
                ) && final(self).device().stored() == final(self)@.bytes,
                Err(_) => final(self)@ == old(self)@,
            },
            old(self).device().atomic() ==> final(self)@ == old(self)@ || (old(self)@.release(
                host_off as int,
            ) matches Ok(w) && final(self)@.bytes == overwrite(old(self)@.bytes, w.0, w.1)),
            ({
                let a = old(self)@;
                let k = host_off as int / a.cs();
                old(self).orderly(pins, a.bytes.len() as int) && a.counted() && a.refs(k)
                    < a.refcount(k) && !a.is_meta(k) && !pins.contains(k) ==> {
                    &&& step(a, pins, final(self)@, pins, -1)
                    &&& forall|kk: int| #[trigger] final(self)@.refs(kk) == a.refs(kk)
                    &&& forall|kk: int| #[trigger] final(self)@.is_meta(kk) == a.is_meta(kk)
                    &&& forall|kk: int|
                        0 <= kk && kk != k ==> #[trigger] final(self)@.refcount(kk) == a.refcount(
                            kk,
                        )
                    &&& a.refcount(k) - 1 <= final(self)@.refcount(k)
                    &&& old(self).dependable() && a.bytes.len() <= old(self).device().write_limit()
                        ==> final(self)@.refcount(k) == a.refcount(k) - 1
                    &&& forall|n: int| #[trigger]
                        old(self).provided(pins, n) ==> final(self).provided(pins, n)
                }
            }),
    {
        let ghost a = self@;
        let _ = self.decrement_refcount(host_off);
        proof {
            reveal(Image::gives_up);
            let b = self@;
            let k = host_off as int / a.cs();
            if old(self).orderly(pins, a.bytes.len() as int) && a.counted() && a.refs(k)
                < a.refcount(k) && !a.is_meta(k) && !pins.contains(k) {
                lemma_refs_nonneg(a, k);
                lemma_release_possible(a, host_off as int, pins);
                let w = a.release(host_off as int)->Ok_0;
                if b.bytes == overwrite(a.bytes, w.0, w.1) {
                    lemma_release_writes(a, b, host_off as int);
                    lemma_release(a, b, k, pins);
                } else {
                    assert(b == a);
                    assert(step(a, pins, b, pins, -1));
                }
                assert forall|n: int| #[trigger] old(self).provided(pins, n) implies self.provided(
                    pins,
                    n,
                ) by {
                    if b.bytes != a.bytes {
                        lemma_room_kept(a, b, self.cap(), n, k);
                    }
                }
            }
        }
    }

    /// Allocates a cluster, which is then counted and not referred to, and returns
    /// where it is.
    #[verifier::rlimit(50)]
    pub(crate) fn take_cluster(
        &mut self,
        Ghost(pins): Ghost<Set<int>>,
        Ghost(n): Ghost<int>,
    ) -> (r: Result<u64, Error>)
        requires
            old(self).inv(),
        ensures
            final(self).inv(),
            final(self).same_but_bytes(&*old(self)),
            r matches Ok(off) ==> off > 0 && off as int % old(self)@.cs() == 0 && old(self)@.claims(
                off as int / old(self)@.cs(),
                old(self).dev.calls(),
                final(self)@.bytes,
                final(self).dev.calls(),
            ),
            old(self).orderly(pins, final(self)@.bytes.len() as int) ==> match r {
                Ok(off) => taken(old(self)@, final(self)@, pins, off as int / old(self)@.cs()),
                Err(_) => old(self).device().atomic() ==> unharmed(
                    old(self)@,
                    pins,
                    final(self)@,
                    0,
                    0,
                ),
            },
            old(self).allocation_decides() && (exists|e: Error| #[trigger]
                old(self)@.allocation_refused(e)) ==> (r matches Err(e) && old(
                self,
            )@.allocation_refused(e) && final(self)@ == old(self)@),
            n >= 1 && old(self).provided(pins, n) ==> (r matches Ok(off) && off + old(
                self,
            )@.cs() <= old(self).cap() && final(self).provided(
                pins.insert(off as int / old(self)@.cs()),
                n - 1,
            )),
    {
        let ghost a = self@;
        let ghost served = n >= 1 && self.provided(pins, n);
        proof {
            lemma_cluster_size(a.header.cluster_bits);
            if served {
                lemma_room_serves(a, pins, self.cap(), self.dev.write_limit(), n);
            }
        }
        let answer = self.allocate_cluster();
        proof {
            let b = self@;
            if answer is Ok {
                let off = answer->Ok_0;
                let k = choose|k: int|
                    0 < k && off == k * a.cs() && #[trigger] a.allocates(k, b.bytes);
                vstd::arithmetic::div_mod::lemma_fundamental_div_mod_converse(
                    off as int,
                    a.cs(),
                    k,
                    0,
                );
                assert(k * a.cs() > 0) by (nonlinear_arith)
                    requires
                        k > 0,
                        a.cs() > 0,
                ;
                if old(self).orderly(pins, 0) {
                    lemma_allocates(a, b, k, pins);
                }
                if served {
                    lemma_room_taken(a, b, pins, self.cap(), n, k);
                }
            } else if old(self).orderly(pins, b.bytes.len() as int) && old(self).dev.atomic() {
                lemma_allocation_cut_short(a, b, pins);
                lemma_unharmed(a, pins, a, pins, b, 0, 0);
            }
        }
        answer
    }

    /// Fills a cluster that has just been allocated.
    #[verifier::rlimit(50)]
    pub(crate) fn fill_cluster(
        &mut self,
        host_off: u64,
        data: &[u8],
        Ghost(k): Ghost<int>,
        Ghost(pins): Ghost<Set<int>>,
    ) -> (r: Result<(), Error>)
        requires
            old(self).inv(),
        ensures
            final(self).inv(),
            final(self).same_but_bytes(&*old(self)),
            r is Ok ==> final(self)@.bytes == overwrite(
                old(self)@.bytes,
                host_off as int,
                data@,
            ) && final(self).dev.calls() == settled(
                old(self).dev.calls(),
                host_off as int,
                data@,
            ),
            old(self).orderly(pins, 0) && pins.contains(k) && host_off == k * old(self)@.cs()
                && data@.len() == old(self)@.cs() ==> {
                &&& step(old(self)@, pins, final(self)@, pins, k)
                &&& forall|kk: int| #[trigger]
                    held_elsewhere(old(self)@, pins, kk) ==> held_elsewhere(
                        final(self)@,
                        pins,
                        kk,
                    )
                &&& forall|kk: int| #[trigger] final(self)@.refs(kk) == old(self)@.refs(kk)
                &&& host_off + data@.len() <= old(self).cap() ==> forall|n: int| #[trigger]
                    old(self).provided(pins, n) ==> r is Ok && final(self).provided(pins, n)
            },
            old(self).dev.dependable() && host_off + data@.len() <= old(self).dev.write_limit()
                ==> r is Ok,
    {
        let ghost a = self@;
        let answer = self.dev_write(host_off, data);
        proof {
            let b = self@;
            if old(self).orderly(pins, 0) && pins.contains(k) && host_off == k * a.cs()
                && data@.len() == a.cs() {
                lemma_cluster_size(a.header.cluster_bits);
                assert((k + 1) * a.cs() == k * a.cs() + a.cs()) by (nonlinear_arith);
                lemma_counted_nonneg(a, k);
                assert(changed_in(a, b, k));
                lemma_quiet_change(a, b, k, pins);
                if host_off + data@.len() <= old(self).cap() {
                    assert forall|n: int| #[trigger] old(self).provided(
                        pins,
                        n,
                    ) implies self.provided(pins, n) by {
                        lemma_room_kept(a, b, self.cap(), n, -1);
                    }
                }
            }
        }
        match answer {
            Ok(()) => {},
            Err(e) => {
                return Err(e);
            },
        }
        self.dev_flush()
    }

    /// Allocates a cluster, makes `table` its contents, and makes it the L2 table
    /// of L1 entry `l1_idx`. Returns where it is.
    #[verifier::rlimit(50)]
    pub(crate) fn allocate_l2_table(
        &mut self,
        l1_idx: u32,
        table: &[u8],
        Ghost(pins): Ghost<Set<int>>,
        Ghost(n): Ghost<int>,
    ) -> (r: Result<u64, Error>)
        requires
            old(self).inv(),
            l1_idx < old(self)@.l1.len(),
        ensures
            final(self).inv(),
            final(self).same_but_tables(&*old(self)),
            r matches Ok(off) ==> table_put(
                old(self)@,
                l1_idx as int,
                table@,
                old(self).dev.calls(),
                final(self)@,
                final(self).dev.calls(),
                off as int,
            ),
            old(self).orderly(pins, final(self)@.bytes.len() as int) && table_matches(
                old(self)@,
                l1_idx as int,
                table@,
            ) ==> match r {
                Ok(off) => table_installed(
                    old(self)@,
                    final(self)@,
                    pins,
                    l1_idx as int,
                    off as int,
                ),
                Err(_) => old(self).device().atomic() ==> unharmed(
                    old(self)@,
                    pins,
                    final(self)@,
                    0,
                    0,
                ),
            },
            n >= 1 && old(self).provided(pins, n) && table_matches(
                old(self)@,
                l1_idx as int,
                table@,
            ) ==> r is Ok && final(self).provided(pins, n - 1),
    {
        let ghost a = self@;
        let ghost i0 = l1_idx as int;
        let ghost served = n >= 1 && self.provided(pins, n) && table_matches(a, i0, table@);
        proof {
            lemma_cluster_size(a.header.cluster_bits);
        }
        let off: u64 = match self.take_cluster(Ghost(pins), Ghost(n)) {
            Ok(off) => off,
            Err(e) => {
                return Err(e);
            },
        };
        let ghost a1 = self@;
        let ghost between = self.dev.calls();
        let ghost k = off as int / a.cs();
        let ghost pins1 = pins.insert(k);
        proof {
            vstd::arithmetic::div_mod::lemma_fundamental_div_mod(off as int, a.cs());
            assert(a.cs() * k == k * a.cs()) by (nonlinear_arith);
        }
        match self.fill_cluster(off, table, Ghost(k), Ghost(pins1)) {
            Ok(()) => {},
            Err(e) => {
                proof {
                    if old(self).orderly(pins, self@.bytes.len() as int) && table@.len() == a.cs() {
                        lemma_fewer_pins(self@, pins1, pins);
                        lemma_unharmed(a, pins, a1, pins1, self@, 0, 0);
                    }
                }
                return Err(e);
            },
        }
        let ghost a2 = self@;
        let answer = self.update_l1_entry(l1_idx, l2_entry_for(off));
        let ghost a3 = self@;
        proof {
            if old(self).orderly(pins, a3.bytes.len() as int) && table_matches(a, i0, table@) {
                lemma_same_entries_trans(a, a1, a2);
                lemma_untouched_trans(a, pins, a1, pins1, a2);
                lemma_table_filled(a, a1, a2, i0, table@, k);
                lemma_keeps_trans(a, a1, a2, 0, 0);
                if answer is Ok {
                    lemma_link_table(a2, a3, i0, fresh_entry(off), k, pins1);
                    lemma_table_installed(a, a1, a2, a3, pins, i0, k);
                    if served {
                        lemma_room_kept(a2, a3, self.cap(), n - 1, -1);
                    }
                } else if old(self).dev.atomic() {
                    lemma_table_not_installed(a, a2, a3, pins, i0, k);
                }
            }
        }
        proof {
            if answer is Ok {
                lemma_table_put(
                    a,
                    i0,
                    table@,
                    old(self).dev.calls(),
                    a1.bytes,
                    between,
                    a3,
                    self.dev.calls(),
                    off as int,
                );
            }
        }
        match answer {
            Ok(()) => Ok(off),
            Err(e) => Err(e),
        }
    }

    /// Makes sure that the L2 table of L1 entry `l1_idx` belongs to this image
    /// alone, and returns where it is. If there is none, an empty one is made; one
    /// that is shared, as with an internal snapshot, is copied first, so that the
    /// other holder goes on seeing what it saw.
    #[verifier::rlimit(50)]
    pub(crate) fn own_l2_table(
        &mut self,
        l1_idx: u32,
        Ghost(pins): Ghost<Set<int>>,
        Ghost(n): Ghost<int>,
    ) -> (r: Result<u64, Error>)
        requires
            old(self).inv(),
            l1_idx < old(self)@.l1.len(),
        ensures
            final(self).inv(),
            final(self).same_but_tables(&*old(self)),
            r matches Ok(off) ==> forall|sure: bool|
                (sure ==> old(self).certain(final(self)@.bytes.len() as int)) ==> #[trigger] table_made_own(
                    old(self)@,
                    l1_idx as int,
                    old(self).dev.calls(),
                    final(self)@,
                    final(self).dev.calls(),
                    off as int,
                    sure,
                ),
            old(self).orderly(pins, final(self)@.bytes.len() as int) ==> match r {
                Ok(off) => table_owned(
                    old(self)@,
                    final(self)@,
                    pins,
                    l1_idx as int,
                    off as int,
                ),
                Err(_) => old(self).device().atomic() ==> unharmed(
                    old(self)@,
                    pins,
                    final(self)@,
                    0,
                    0,
                ),
            },
            n >= table_cost(old(self)@, l1_idx as int) && old(self).provided(pins, n) ==> r is Ok
                && final(self).provided(pins, n - table_cost(old(self)@, l1_idx as int)),
    {
        let ghost a = self@;
        let ghost i0 = l1_idx as int;
        proof {
            lemma_cluster_size(a.header.cluster_bits);
            if a.consistent_with(pins) {
                lemma_unharmed(a, pins, a, pins, a, 0, 0);
            }
        }
        let cluster_size: usize = self.header.cluster_size as usize;
        let entry: u64 = self.l1[l1_idx as usize];
        let table_off: u64 = entry & OFFSET_MASK;
        if table_off == 0 {
            let table: Vec<u8> = zero_vec(cluster_size);
            assert forall|j: int| 0 <= j < l2_len(a.header) implies #[trigger] be64(
                table@,
                8 * j,
            ) == 0 by {}
            let r = self.allocate_l2_table(l1_idx, table.as_slice(), Ghost(pins), Ghost(n));
            proof {
                assert(table@ =~= zeros(a.cs()));
                if r is Ok {
                    let log = old(self).dev.calls();
                    let off = r->Ok_0 as int;
                    assert forall|sure: bool| #[trigger]
                        table_made_own(a, i0, log, self@, self.dev.calls(), off, sure) by {
                        lemma_table_new(a, i0, log, self@, self.dev.calls(), off, sure);
                    }
                }
            }
            return r;
        }
        let ghost t = table_off as int / a.cs();
        assert(a.refers(i0, 0, t));
        proof {
            if self.provided(pins, n) {
                lemma_count_readable(a, pins, table_off as int);
            }
        }
        if entry & L2_FLAG_COPIED == 0 {
            let count: u16 = match self.read_refcount(table_off) {
                Ok(c) => c,
                Err(e) => {
                    return Err(e);
                },
            };
            if count > 1 {
                let table: Vec<u8> = match self.dev_read(table_off, cluster_size) {
                    Ok(v) => v,
                    Err(e) => {
                        return Err(e);
                    },
                };
                assert forall|j: int| 0 <= j < l2_len(a.header) implies #[trigger] be64(
                    table@,
                    8 * j,
                ) == a.l2_entry(i0, j) by {
                    lemma_found_be64(a.bytes, table_off as int, table@, 8 * j);
                }
                assert(table_matches(a, i0, table@));
                let off: u64 = match self.allocate_l2_table(
                    l1_idx,
                    table.as_slice(),
                    Ghost(pins),
                    Ghost(n),
                ) {
                    Ok(off) => off,
                    Err(e) => {
                        return Err(e);
                    },
                };
                let ghost b = self@;
                assert(table@ =~= a.bytes.subrange(table_off as int, table_off + cluster_size));
                let ghost between = self.dev.calls();
                self.release_cluster(table_off, Ghost(pins));
                proof {
                    let log = old(self).dev.calls();
                    let d = self@;
                    assert forall|sure: bool|
                        (sure ==> old(self).certain(
                            d.bytes.len() as int,
                        )) implies #[trigger] table_made_own(
                        a,
                        i0,
                        log,
                        d,
                        self.dev.calls(),
                        off as int,
                        sure,
                    ) by {
                        assert(b.gives_up(
                            table_off as int,
                            between,
                            d.bytes,
                            self.dev.calls(),
                            sure,
                        ));
                        lemma_table_copied(
                            a,
                            i0,
                            log,
                            b,
                            between,
                            d,
                            self.dev.calls(),
                            off as int,
                            sure,
                        );
                    }
                    if old(self).orderly(pins, self@.bytes.len() as int) {
                        lemma_old_table_released(a, b, self@, pins, i0, off as int);
                    }
                }
                return Ok(off);
            }
            proof {
                if a.consistent_with(pins) {
                    lemma_count_read(a, table_off as int, count);
                    lemma_one_reference(a, i0, 0, t);
                    assert(a.refs(t) <= a.refcount(t));
                }
            }
        } else {
            proof {
                if a.consistent_with(pins) {
                    assert(a.l1_copied(i0));
                }
            }
        }
        proof {
            if a.consistent_with(pins) {
                assert(step(a, pins, a, pins, -1));
                assert(table_owned(a, a, pins, i0, table_off as int));
            }
            let log = self.dev.calls();
            assert forall|sure: bool| #[trigger]
                table_made_own(a, i0, log, a, log, table_off as int, sure) by {
                lemma_table_own_already(a, i0, log, sure);
            }
        }
        Ok(table_off)
    }

    /// Sets one entry of an L2 table to point at cluster `k`, which has just been
    /// allocated and filled.
    #[verifier::rlimit(50)]
    pub(crate) fn update_l2_entry(
        &mut self,
        l1_idx: u32,
        l2_idx: u32,
        new_entry: u64,
        Ghost(k): Ghost<int>,
        Ghost(pins): Ghost<Set<int>>,
        Ghost(n): Ghost<int>,
    ) -> (r: Result<(), Error>)
        requires
            old(self).inv(),
            l2_idx < l2_len(old(self)@.header),
        ensures
            final(self).inv(),
            final(self).same_but_tables(&*old(self)),
            l1_idx >= old(self)@.l1.len() ==> r == Err::<(), Error>(
                Error::Corrupt("l1_idx out of range"),
            ) && final(self)@ == old(self)@,
            r is Ok ==> forall|sure: bool|
                (sure ==> old(self).certain(final(self)@.bytes.len() as int)) ==> #[trigger] entry_put(
                    old(self)@,
                    l1_idx as int,
                    l2_idx as int,
                    new_entry,
                    old(self).dev.calls(),
                    final(self)@,
                    final(self).dev.calls(),
                    sure,
                ),
            old(self).orderly(pins, final(self)@.bytes.len() as int) && l1_idx < old(self)@.l1.len()
                && pins.contains(k) && k * old(self)@.cs() + old(self)@.cs() <= old(
                self,
            )@.bytes.len() && new_entry == fresh_entry((k * old(self)@.cs()) as u64) ==> {
                ||| linked(
                    old(self)@,
                    final(self)@,
                    pins,
                    l1_idx as int,
                    l2_idx as int,
                    k,
                    new_entry,
                )
                ||| r is Err && (old(self).device().atomic() ==> unharmed(
                    old(self)@,
                    pins,
                    final(self)@,
                    0,
                    0,
                ))
            },
            n >= table_cost(old(self)@, l1_idx as int) && old(self).provided(pins, n) && l1_idx < old(
                self,
            )@.l1.len() && pins.contains(k) && k * old(self)@.cs() + old(self)@.cs() <= old(
                self,
            )@.bytes.len() && new_entry == fresh_entry((k * old(self)@.cs()) as u64) ==> r is Ok
                && final(self).provided(
                pins.remove(k),
                n - table_cost(old(self)@, l1_idx as int),
            ),
    {
        let ghost a = self@;
        let ghost i0 = l1_idx as int;
        let ghost j0 = l2_idx as int;
        proof {
            lemma_cluster_size(a.header.cluster_bits);
        }
        if l1_idx as usize >= self.l1.len() {
            return Err(Error::Corrupt("l1_idx out of range"));
        }
        let cluster_size: usize = self.header.cluster_size as usize;
        let table_off: u64 = match self.own_l2_table(l1_idx, Ghost(pins), Ghost(n)) {
            Ok(off) => off,
            Err(e) => {
                return Err(e);
            },
        };
        let ghost b = self@;
        let ghost between = self.dev.calls();
        let mut table: Vec<u8> = match self.dev_read(table_off, cluster_size) {
            Ok(v) => v,
            Err(e) => {
                proof {
                    if old(self).orderly(pins, self@.bytes.len() as int) {
                        lemma_unharmed(a, pins, b, pins, b, 0, 0);
                    }
                }
                return Err(e);
            },
        };
        let ghost read = table@;
        let entry: Vec<u8> = u64_to_bytes(new_entry);
        let off: usize = l2_idx as usize * 8;
        copy_into(table.as_mut_slice(), off, entry.as_slice());
        proof {
            lemma_overwrite_patch(b.bytes, table_off as int, read, off as int, entry@);
            assert(read =~= b.bytes.subrange(table_off as int, table_off + cluster_size));
        }
        let answer = self.dev_write(table_off, table.as_slice());
        proof {
            let c = self@;
            if old(self).orderly(pins, c.bytes.len() as int) && pins.contains(k) && k * a.cs()
                + a.cs() <= a.bytes.len() && new_entry == fresh_entry(
                (k * a.cs()) as u64,
            ) {
                if c.bytes == b.bytes && answer is Err {
                    assert(c == b);
                    lemma_unharmed(a, pins, b, pins, b, 0, 0);
                } else {
                    lemma_link_data(b, c, i0, j0, new_entry, k, pins);
                    lemma_linked(a, b, c, pins, i0, j0, k, new_entry);
                    let left = n - table_cost(a, i0);
                    if left >= 0 && old(self).provided(pins, n) {
                        lemma_room_kept(b, c, self.cap(), left, -1);
                    }
                }
            }
        }
        match answer {
            Ok(()) => {},
            Err(e) => {
                return Err(e);
            },
        }
        let flushed = self.dev_flush();
        proof {
            if flushed is Ok {
                let log = old(self).dev.calls();
                let c = self@;
                let after = self.dev.calls();
                assert forall|sure: bool|
                    (sure ==> old(self).certain(c.bytes.len() as int)) implies #[trigger] entry_put(
                    a,
                    i0,
                    j0,
                    new_entry,
                    log,
                    c,
                    after,
                    sure,
                ) by {
                    assert(table_made_own(a, i0, log, b, between, table_off as int, sure));
                    lemma_entry_put(
                        a,
                        i0,
                        j0,
                        new_entry,
                        log,
                        b,
                        between,
                        table_off as int,
                        c,
                        after,
                        sure,
                    );
                }
            }
        }
        flushed
    }

    /// Decides how bytes get into a cluster of which the tables say `map`. A
    /// cluster that is marked `COPIED` is not shared; for another one the count
    /// decides.
    pub(crate) fn plan_write(&self, map: ClusterMap) -> (r: Result<WritePlan, Error>)
        requires
            self.inv(),
        ensures
            r matches Ok(p) ==> plan_for(self@, map) == Ok::<WritePlan, Fault>(p),
            r matches Err(e) ==> self.dependable() ==> (plan_for(self@, map) matches Err(f)
                && f.reported_by(e)),
    {
        match map {
            ClusterMap::Plain { host_off, copied } => {
                if copied {
                    return Ok(WritePlan::InPlace { host_off });
                }
                match self.read_refcount(host_off) {
                    Ok(c) => if c > 1 {
                        Ok(
                            WritePlan::Reallocate {
                                seed: ClusterSeed::HostCluster(host_off),
                                release: Some(host_off),
                            },
                        )
                    } else {
                        Ok(WritePlan::InPlace { host_off })
                    },
                    Err(e) => Err(e),
                }
            },
            ClusterMap::Compressed { host_off, byte_len } => Ok(
                WritePlan::Reallocate {
                    seed: ClusterSeed::Compressed { host_off, byte_len },
                    release: Some(host_off),
                },
            ),
            ClusterMap::Zero => Ok(
                WritePlan::Reallocate { seed: ClusterSeed::Zeros, release: None },
            ),
            ClusterMap::Unallocated => Ok(
                WritePlan::Reallocate { seed: ClusterSeed::BackingChain, release: None },
            ),
        }
    }

    /// The whole cluster that holds byte `virt`, as a reader sees it.
    pub(crate) fn seed_cluster(&mut self, virt: u64, seed: ClusterSeed) -> (r: Result<
        Vec<u8>,
        Error,
    >)
        requires
            old(self).inv(),
            virt < old(self)@.header.virtual_size,
            old(self)@.cluster_map(virt as int) matches Ok(m) && map_bounded(m) && seed == seed_for(
                m,
            ),
        ensures
            final(self).inv(),
            final(self).same_image(&*old(self)),
            ({
                let base = virt as int - virt as int % old(self)@.cs();
                match r {
                    Ok(v) => v@.len() == old(self)@.cs() && old(self)@.holds(base, v@),
                    Err(e) => old(self).dependable() ==> old(self)@.faulty(
                        base,
                        old(self)@.cs(),
                        e,
                    ),
                }
            }),
    {
        let ghost img = self@;
        let ghost cs = img.cs();
        let ghost base = virt as int - virt as int % cs;
        proof {
            lemma_cluster_size(self.header.cluster_bits);
            lemma_whole_cluster(img, virt as int);
        }
        let cluster_size: usize = self.header.cluster_size as usize;
        match seed {
            ClusterSeed::Zeros => {
                let v: Vec<u8> = zero_vec(cluster_size);
                assert forall|d: int| 0 <= d < cs implies img.guest_byte(base + d) == Ok::<
                    u8,
                    Fault,
                >(#[trigger] v@[d]) by {
                    assert(img.cluster_map(base + d) == img.cluster_map(virt as int));
                }
                Ok(v)
            },
            ClusterSeed::HostCluster(host_off) => {
                let r = self.dev_read(host_off, cluster_size);
                proof {
                    if r is Ok {
                        let v = r->Ok_0;
                        assert forall|d: int| 0 <= d < cs implies img.guest_byte(base + d) == Ok::<
                            u8,
                            Fault,
                        >(#[trigger] v@[d]) by {
                            assert(img.cluster_map(base + d) == img.cluster_map(virt as int));
                        }
                    } else {
                        // The first byte that lies past the end of the device.
                        let past = img.bytes.len() - host_off;
                        let d = if past > 0 {
                            past
                        } else {
                            0
                        };
                        if old(self).dependable() {
                            assert(img.cluster_map(base + d) == img.cluster_map(virt as int));
                            assert forall|v: int| base <= v < base + d implies #[trigger] img.guest_byte(
                                v,
                            ) is Ok by {
                                assert(img.cluster_map(base + (v - base)) == img.cluster_map(
                                    virt as int,
                                ));
                            }
                            assert(img.guest_byte(base + d) == Err::<u8, Fault>(
                                Fault::OutsideDevice,
                            ));
                        }
                    }
                }
                r
            },
            ClusterSeed::Compressed { host_off, byte_len } => {
                let r = self.read_decompressed_slice(host_off, byte_len, 0, cluster_size);
                proof {
                    if r is Ok {
                        let v = r->Ok_0;
                        assert forall|d: int| 0 <= d < cs implies img.guest_byte(base + d) == Ok::<
                            u8,
                            Fault,
                        >(#[trigger] v@[d]) by {
                            assert(img.cluster_map(base + d) == img.cluster_map(virt as int));
                        }
                    } else {
                        assert(img.cluster_map(base + 0) == img.cluster_map(virt as int));
                        assert(old(self).dependable() ==> img.guest_byte(base + 0) is Err);
                    }
                }
                r
            },
            ClusterSeed::BackingChain => {
                let r = self.read_unallocated(virt - virt % self.header.cluster_size, cluster_size);
                proof {
                    assert forall|d: int| 0 <= d < cs implies #[trigger] img.guest_byte(base + d)
                        == img.backing_byte(base + d) by {
                        assert(img.cluster_map(base + d) == img.cluster_map(virt as int));
                    }
                    if r is Ok {
                        let v = r->Ok_0;
                        assert forall|d: int| 0 <= d < cs implies img.guest_byte(base + d) == Ok::<
                            u8,
                            Fault,
                        >(#[trigger] v@[d]) by {
                            assert(img.backing_byte(base + d) == Ok::<u8, Fault>(v@[d]));
                        }
                    } else if old(self).dependable() {
                        let e = r->Err_0;
                        let d = choose|d: int|
                            0 <= d < cs && (forall|j: int|
                                0 <= j < d ==> #[trigger] img.backing_byte(base + j) is Ok) && (
                            #[trigger] img.backing_byte(base + d) matches Err(f) && f.reported_by(
                                e,
                            ));
                        assert forall|v: int| base <= v < base + d implies #[trigger] img.guest_byte(
                            v,
                        ) is Ok by {
                            assert(img.backing_byte(base + (v - base)) is Ok);
                            assert(img.guest_byte(base + (v - base)) == img.backing_byte(
                                base + (v - base),
                            ));
                        }
                        assert(img.guest_byte(base + d) is Err);
                    }
                }
                r
            },
        }
    }

    /// Writes `src` into the cluster that holds byte `virt`, from that byte on.
    #[verifier::rlimit(50)]
    pub(crate) fn write_chunk(&mut self, virt: u64, src: &[u8], Ghost(n): Ghost<int>) -> (r: Result<
        (),
        Error,
    >)
        requires
            old(self).inv(),
            virt < old(self)@.header.virtual_size,
            0 < src@.len(),
            virt as int % old(self)@.cs() + src@.len() <= old(self)@.cs(),
        ensures
            final(self).inv(),
            final(self).same_but_tables(&*old(self)),
            r is Ok ==> forall|sure: bool|
                (sure ==> old(self).certain(final(self)@.bytes.len() as int)) ==> #[trigger] chunk_written(
                    old(self)@,
                    virt as int,
                    src@,
                    old(self).dev.calls(),
                    final(self)@,
                    final(self).dev.calls(),
                    sure,
                ),
            old(self).orderly(Set::empty(), final(self)@.bytes.len() as int) ==> match r {
                Ok(()) => written(old(self)@, final(self)@, virt as int, src@),
                Err(_) => old(self).device().atomic() ==> unharmed(
                    old(self)@,
                    Set::empty(),
                    final(self)@,
                    virt as int,
                    virt + src@.len(),
                ),
            },
            n >= cluster_cost(old(self)@, virt as int) && old(self).provided(Set::empty(), n)
                && can_be_written(old(self)@, old(self).cap(), virt as int) ==> r is Ok
                && final(self).provided(
                Set::empty(),
                n - cluster_cost(old(self)@, virt as int),
            ),
            old(self).all_in_place(virt as int, virt + 1) && can_be_written(
                old(self)@,
                old(self).cap(),
                virt as int,
            ) ==> {
                &&& r is Ok
                &&& final(self).sturdy(Set::empty())
                &&& places_kept(old(self)@, final(self)@)
            },
            old(self).allocation_decides() && cannot_begin(old(self)@, virt as int) ==> (r matches Err(
                e,
            ) && beginning_refused(old(self)@, virt as int, e) && final(self)@ == old(self)@),
    {
        let ghost a = self@;
        let ghost cs = a.cs();
        let ghost ready = can_be_written(a, self.cap(), virt as int);
        let ghost served = n >= cluster_cost(a, virt as int) && self.provided(Set::empty(), n)
            && ready;
        let ghost placed = self.all_in_place(virt as int, virt + 1) && ready;
        let ghost none: Set<int> = Set::empty();
        proof {
            lemma_cluster_size(a.header.cluster_bits);
            lemma_l1_reaches(a.header, virt as int);
            if a.consistent() {
                lemma_unharmed(a, none, a, none, a, virt as int, virt + src@.len());
            }
            lemma_whole_cluster(a, virt as int);
            if ready && !goes_in_place(a, virt as int) {
                assert(a.guest_byte(virt as int) is Ok);
            }
            assert(placed ==> goes_in_place(a, virt as int));
        }
        let addr = split_virtual(&self.header, virt);
        let in_cluster: u64 = addr.offset_in_cluster;
        let map = match self.lookup_cluster(virt) {
            Ok(m) => m,
            Err(e) => {
                return Err(e);
            },
        };
        proof {
            if served {
                lemma_plan_ready(a, virt as int, map);
            }
        }
        let plan = match self.plan_write(map) {
            Ok(p) => p,
            Err(e) => {
                return Err(e);
            },
        };
        match plan {
            WritePlan::InPlace { host_off } => {
                proof {
                    reveal(chunk_written);
                }
                let r = self.dev_write(host_off + in_cluster, src);
                proof {
                    let b = self@;
                    if old(self).orderly(none, b.bytes.len() as int) {
                        if r is Ok || (b.bytes != a.bytes && old(self).dev.atomic()) {
                            lemma_written_in_place(a, b, virt as int, src@, map, host_off);
                            lemma_unharmed(a, none, a, none, b, virt as int, virt + src@.len());
                            if served {
                                lemma_room_kept(a, b, self.cap(), n, -1);
                            }
                        } else if old(self).dev.atomic() {
                            assert(b == a);
                        }
                    }
                }
                r
            },
            WritePlan::Reallocate { seed, release } => {
                let r = self.replace_cluster(virt, src, map, seed, release, Ghost(n));
                proof {
                    reveal(chunk_written);
                }
                r
            },
        }
    }

    /// Writes `src` into the cluster that holds byte `virt`, by putting a new cluster
    /// in its place: it is filled with what a reader sees there, overlaid with `src`,
    /// and put into the tables; then `release`, the old one, loses a count.
    #[verifier::rlimit(50)]
    pub(crate) fn replace_cluster(
        &mut self,
        virt: u64,
        src: &[u8],
        map: ClusterMap,
        seed: ClusterSeed,
        release: Option<u64>,
        Ghost(n): Ghost<int>,
    ) -> (r: Result<(), Error>)
        requires
            old(self).inv(),
            virt < old(self)@.header.virtual_size,
            0 < src@.len(),
            virt as int % old(self)@.cs() + src@.len() <= old(self)@.cs(),
            old(self)@.cluster_map(virt as int) == Ok::<ClusterMap, Fault>(map),
            map_bounded(map),
            plan_for(old(self)@, map) == Ok::<WritePlan, Fault>(
                WritePlan::Reallocate { seed, release },
            ),
        ensures
            final(self).inv(),
            final(self).same_but_tables(&*old(self)),
            r is Ok ==> forall|sure: bool|
                (sure ==> old(self).certain(final(self)@.bytes.len() as int)) ==> #[trigger] cluster_replaced(
                    old(self)@,
                    virt as int,
                    src@,
                    release,
                    old(self).dev.calls(),
                    final(self)@,
                    final(self).dev.calls(),
                    sure,
                ),
            old(self).orderly(Set::empty(), final(self)@.bytes.len() as int) ==> match r {
                Ok(()) => written(old(self)@, final(self)@, virt as int, src@),
                Err(_) => old(self).device().atomic() ==> unharmed(
                    old(self)@,
                    Set::empty(),
                    final(self)@,
                    virt as int,
                    virt + src@.len(),
                ),
            },
            n >= cluster_cost(old(self)@, virt as int) && old(self).provided(Set::empty(), n) && old(
                self,
            )@.readable(
                virt as int - virt as int % old(self)@.cs(),
                virt as int - virt as int % old(self)@.cs() + old(self)@.cs(),
            ) ==> r is Ok && final(self).provided(
                Set::empty(),
                n - cluster_cost(old(self)@, virt as int),
            ),
            old(self).allocation_decides() && cannot_begin(old(self)@, virt as int) ==> (r matches Err(
                e,
            ) && beginning_refused(old(self)@, virt as int, e) && final(self)@ == old(self)@),
    {
        let ghost a = self@;
        let ghost cs = a.cs();
        let ghost none: Set<int> = Set::empty();
        let ghost i0 = a.l1_index(virt as int);
        let ghost j0 = a.l2_index(virt as int);
        proof {
            lemma_cluster_size(a.header.cluster_bits);
            lemma_l1_reaches(a.header, virt as int);
            if a.consistent() {
                lemma_unharmed(a, none, a, none, a, virt as int, virt + src@.len());
            }
            lemma_whole_cluster(a, virt as int);
        }
        let addr = split_virtual(&self.header, virt);
        let in_cluster: u64 = addr.offset_in_cluster;
        let ghost stuck = self.allocation_decides() && cannot_begin(a, virt as int);
        let ghost base = virt as int - virt as int % cs;
        let mut full: Vec<u8> = match self.seed_cluster(virt, seed) {
            Ok(v) => v,
            Err(e) => {
                proof {
                    if stuck {
                        assert(!a.readable(base, base + cs));
                        assert(beginning_refused(a, virt as int, e));
                    }
                }
                return Err(e);
            },
        };
        let ghost seen = full@;
        proof {
            assert forall|v: int| base <= v < base + cs implies #[trigger] a.guest_byte(v) is Ok by {
                assert(a.guest_byte(base + (v - base)) == Ok::<u8, Fault>(seen[v - base]));
            }
            if stuck {
                let e = choose|e: Error| #[trigger] beginning_refused(a, virt as int, e);
                assert(a.allocation_refused(e));
            }
        }
        copy_into(full.as_mut_slice(), in_cluster as usize, src);
        let new_host: u64 = match self.take_cluster(Ghost(none), Ghost(n)) {
            Ok(off) => off,
            Err(e) => {
                proof {
                    if old(self).orderly(none, self@.bytes.len() as int) && old(self).dev.atomic() {
                        lemma_unharmed_wider(a, none, self@, virt as int, virt + src@.len());
                    }
                    assert(stuck ==> beginning_refused(a, virt as int, e));
                }
                return Err(e);
            },
        };
        let ghost a1 = self@;
        let ghost l1 = self.dev.calls();
        let ghost k = new_host as int / cs;
        let ghost pins = none.insert(k);
        proof {
            vstd::arithmetic::div_mod::lemma_fundamental_div_mod(new_host as int, cs);
            assert(cs * k == k * cs) by (nonlinear_arith);
            assert(k > 0) by (nonlinear_arith)
                requires
                    k * cs > 0,
                    cs > 0,
            ;
        }
        match self.fill_cluster(new_host, full.as_slice(), Ghost(k), Ghost(pins)) {
            Ok(()) => {},
            Err(e) => {
                proof {
                    if old(self).orderly(none, self@.bytes.len() as int) {
                        lemma_fewer_pins(self@, pins, none);
                        lemma_unharmed(a, none, a1, pins, self@, virt as int, virt + src@.len());
                    }
                }
                return Err(e);
            },
        }
        let ghost a2 = self@;
        let ghost a2_log = self.dev.calls();
        proof {
            if old(self).provided(none, n) && self.provided(pins, n - 1) {
                lemma_share_kept(a, k, old(self).dev.calls(), a1.bytes, l1, full@, a2, i0);
            }
        }
        let answer = self.update_l2_entry(
            addr.l1_index,
            addr.l2_index,
            l2_entry_for(new_host),
            Ghost(k),
            Ghost(pins),
            Ghost(n - 1),
        );
        let ghost c = self@;
        let ghost l2 = self.dev.calls();
        proof {
            if answer is Ok {
                assert(seen =~= cluster_seen(a, virt as int));
                assert(a2 == cluster_filled(a, virt as int, src@, k, a1.bytes));
            }
            if old(self).orderly(none, c.bytes.len() as int) {
                assert(pins.contains(k));
                lemma_keeps_trans(a, a1, a2, 0, 0);
                lemma_untouched_trans(a, none, a1, pins, a2);
                lemma_new_cluster_filled(a1, a2, k, full@);
                let e = fresh_entry(new_host);
                if linked(a2, c, pins, i0, j0, k, e) {
                    lemma_chunk_linked(a, a2, c, pins, virt as int, src@, seen, k);
                    lemma_linked_unharmed(
                        a,
                        a2,
                        c,
                        pins,
                        i0,
                        j0,
                        k,
                        e,
                        virt as int,
                        virt + src@.len(),
                    );
                } else if old(self).dev.atomic() {
                    lemma_keeps_trans(a, a2, c, 0, 0);
                    lemma_keeps_trans(a, a2, reopened(c), 0, 0);
                    lemma_untouched_trans(a, none, a2, pins, c);
                    lemma_fewer_pins(reopened(c), pins, none);
                }
            }
        }
        match answer {
            Ok(()) => {},
            Err(e) => {
                return Err(e);
            },
        }
        let ghost entry = fresh_entry(new_host);
        match release {
            Some(old_host) => {
                proof {
                    if old(self).orderly(none, c.bytes.len() as int) {
                        lemma_release_ready(
                            a,
                            a1,
                            a2,
                            c,
                            pins,
                            virt as int,
                            k,
                            entry,
                            map,
                            old_host,
                        );
                        assert(pins.remove(k) =~= none);
                    }
                }
                self.release_cluster(old_host, Ghost(none));
            },
            None => {},
        }
        proof {
            let d = self@;
            let log = old(self).dev.calls();
            let after = self.dev.calls();
            let v = virt as int;
            assert forall|sure: bool|
                (sure ==> old(self).certain(d.bytes.len() as int)) implies #[trigger] cluster_replaced(
                a,
                v,
                src@,
                release,
                log,
                d,
                after,
                sure,
            ) by {
                assert(entry_put(a2, i0, j0, fresh_entry(new_host), a2_log, c, l2, sure));
                if let Some(old_host) = release {
                    assert(c.gives_up(old_host as int, l2, d.bytes, after, sure));
                }
                lemma_cluster_replaced(
                    a,
                    v,
                    src@,
                    release,
                    log,
                    k,
                    a1.bytes,
                    l1,
                    c,
                    l2,
                    d,
                    after,
                    sure,
                );
            }
            if old(self).orderly(none, d.bytes.len() as int) {
                lemma_chunk_released(
                    a,
                    a1,
                    a2,
                    c,
                    d,
                    virt as int,
                    src@,
                    k,
                    entry,
                    map,
                    release,
                );
            }
        }
        Ok(())
    }

    /// Writes `buf` to the virtual disk, from `offset` on, cluster by cluster.
    #[verifier::rlimit(90)]
    fn write_clusters(&mut self, offset: u64, buf: &[u8]) -> (r: Result<(), Error>)
        requires
            old(self).inv(),
            old(self).writable,
            0 < buf@.len(),
            offset + buf@.len() <= old(self)@.header.virtual_size,
        ensures
            final(self).inv(),
            final(self).same_but_tables(&*old(self)),
            old(self).orderly(Set::empty(), final(self)@.bytes.len() as int) ==> match r {
                Ok(()) => written(old(self)@, final(self)@, offset as int, buf@),
                Err(_) => old(self).device().atomic() ==> unharmed(
                    old(self)@,
                    Set::empty(),
                    final(self)@,
                    offset as int,
                    offset + buf@.len(),
                ),
            },
            r is Ok ==> forall|sure: bool|
                (sure ==> old(self).certain(final(self)@.bytes.len() as int))
                    ==> #[trigger] chunks_written(
                    old(self)@,
                    offset as int,
                    buf@,
                    old(self).dev.calls(),
                    final(self)@,
                    final(self).dev.calls(),
                    sure,
                ),
            old(self).write_served(offset as int, buf@.len() as int) ==> r is Ok,
            old(self).allocation_decides() && cannot_begin(old(self)@, offset as int) ==> (
            r matches Err(e) && beginning_refused(old(self)@, offset as int, e) && final(self)@
                == old(self)@),
    {
        let ghost a = self@;
        let len: u64 = buf.len() as u64;
        proof {
            if a.consistent() {
                lemma_nothing_written(a, offset as int);
            }
            let log = self.dev.calls();
            assert forall|sure: bool| #[trigger]
                chunks_written(a, offset as int, Seq::empty(), log, a, log, sure) by {
                lemma_no_chunks(a, offset as int, log, sure);
            }
        }
        let end: u64 = offset + len;
        let cluster_size: u64 = self.header.cluster_size;
        let mut cursor: u64 = offset;
        let mut done: usize = 0;
        let ghost served = self.write_served(offset as int, len as int);
        let ghost stuck = self.allocation_decides() && cannot_begin(a, offset as int);
        proof {
            lemma_cluster_size(self.header.cluster_bits);
            assert(cursor as int - cursor as int % a.cs() == cursor as int / a.cs() * a.cs())
                by (nonlinear_arith)
                requires
                    a.cs() > 0,
            ;
        }
        assert(buf@.subrange(0, 0) =~= Seq::<u8>::empty());
        while cursor < end
            invariant
                self.inv(),
                self.same_but_tables(&*old(self)),
                old(self).writable,
                a == old(self)@,
                cluster_size == a.cs(),
                buf@.len() == len,
                0 < len <= usize::MAX,
                end == offset + len,
                end <= a.header.virtual_size,
                cursor == offset + done,
                done <= len,
                old(self).orderly(Set::empty(), self@.bytes.len() as int) ==> written(
                    a,
                    self@,
                    offset as int,
                    buf@.subrange(0, done as int),
                ),
                forall|sure: bool|
                    (sure ==> old(self).certain(self@.bytes.len() as int))
                        ==> #[trigger] chunks_written(
                        a,
                        offset as int,
                        buf@.subrange(0, done as int),
                        old(self).dev.calls(),
                        self@,
                        self.dev.calls(),
                        sure,
                    ),
                done == 0 || cursor == end || cursor as int % a.cs() == 0,
                served == old(self).write_served(offset as int, len as int),
                stuck == (old(self).allocation_decides() && cannot_begin(a, offset as int)),
                stuck ==> done == 0,
                done == 0 ==> self@ == a,
                served && cursor < end ==> {
                    &&& forall|w: int|
                        cursor <= w < end ==> #[trigger] can_be_written(self@, self.cap(), w)
                    &&& self.all_in_place(cursor as int, end as int) || self.provided(
                        Set::empty(),
                        clusters_needed(self@, cursor as int, end as int, -1),
                    )
                },
            decreases end - cursor,
        {
            let ghost n = clusters_needed(self@, cursor as int, end as int, -1);
            let ghost b = self@;
            proof {
                lemma_cluster_size(self.header.cluster_bits);
                lemma_clusters_left(a.cs(), cursor as int, end as int);
                assert(served ==> can_be_written(b, self.cap(), cursor as int));
                lemma_cost_covered(b, cursor as int, end as int);
            }
            let ghost placed = served && self.all_in_place(cursor as int, end as int);
            let ghost provided = served && self.provided(Set::empty(), n);
            let ghost between = self.dev.calls();
            let room: u64 = cluster_size - cursor % cluster_size;
            let chunk: u64 = if room < end - cursor {
                room
            } else {
                end - cursor
            };
            let src: &[u8] = vstd::slice::slice_subrange(buf, done, done + chunk as usize);
            match self.write_chunk(cursor, src, Ghost(n)) {
                Ok(()) => {
                    proof {
                        let c = self@;
                        let first = buf@.subrange(0, done as int);
                        assert(first + src@ =~= buf@.subrange(0, done + chunk));
                        let log = old(self).dev.calls();
                        let after = self.dev.calls();
                        let v = offset as int;
                        assert forall|sure: bool|
                            (sure ==> old(self).certain(
                                c.bytes.len() as int,
                            )) implies #[trigger] chunks_written(
                            a,
                            v,
                            first + src@,
                            log,
                            c,
                            after,
                            sure,
                        ) by {
                            assert(chunks_written(a, v, first, log, b, between, sure));
                            assert(chunk_written(b, cursor as int, src@, between, c, after, sure));
                            lemma_one_more_chunk(
                                a,
                                v,
                                first,
                                src@,
                                log,
                                b,
                                between,
                                c,
                                after,
                                sure,
                            );
                        }
                        if old(self).orderly(Set::empty(), c.bytes.len() as int) {
                            lemma_written_twice(a, b, c, offset as int, first, src@);
                        }
                        if served && cursor + chunk < end {
                            let next = cursor + chunk;
                            if placed {
                                assert forall|w: int| next <= w < end implies #[trigger] goes_in_place(
                                    c,
                                    w,
                                ) by {
                                    assert(goes_in_place(b, w));
                                    lemma_place_kept(b, c, w);
                                }
                            }
                            if provided && !placed {
                                assert(old(self).certain(c.bytes.len() as int));
                                assert(chunk_written(
                                    b,
                                    cursor as int,
                                    src@,
                                    between,
                                    c,
                                    after,
                                    true,
                                ));
                                lemma_chunk_needs(b, cursor as int, src@, between, c, after, next);
                                lemma_needed_after(b, c, cursor as int, next, end as int);
                                lemma_room_less(
                                    c,
                                    self.cap(),
                                    n - cluster_cost(b, cursor as int),
                                    clusters_needed(c, next, end as int, -1),
                                );
                            }
                            assert forall|w: int| next <= w < end implies #[trigger] can_be_written(
                                c,
                                self.cap(),
                                w,
                            ) by {
                                assert(can_be_written(b, self.cap(), w));
                                if placed {
                                    lemma_place_kept(b, c, w);
                                } else {
                                    assert(goes_in_place(b, w) ==> goes_in_place(c, w));
                                }
                                lemma_still_writable(
                                    b,
                                    c,
                                    self.cap(),
                                    cursor as int,
                                    next,
                                    w,
                                );
                            }
                        }
                    }
                },
                Err(e) => {
                    proof {
                        let c = self@;
                        if old(self).orderly(Set::empty(), c.bytes.len() as int)
                            && old(self).dev.atomic() {
                            lemma_written_then_failed(
                                a,
                                b,
                                c,
                                offset as int,
                                buf@.subrange(0, done as int),
                                chunk as int,
                                end as int,
                            );
                        }
                    }
                    return Err(e);
                },
            }
            cursor = cursor + chunk;
            done = done + chunk as usize;
        }
        assert(buf@.subrange(0, len as int) =~= buf@);
        Ok(())
    }

    /// Writes `buf` to the virtual disk, from `offset` on.
    ///
    /// A cluster that is there, not compressed and not shared is written in place.
    /// For any other one, a new cluster is allocated, filled with what a reader
    /// sees there, overlaid with the caller's bytes, and put into the tables; then
    /// the old cluster loses a count. [`chunks_written`] says what is asked of the
    /// device for that, in which order.
    ///
    /// Of an image whose tables and counts agree:
    ///
    /// - What was written is there, and all else is as it was. For a range inside one
    ///   cluster that holds on every device. Over more than one it holds where the device
    ///   serves each call, or tears no write: the loss of a count is not reported if it
    ///   fails, and a block of counts that is torn then misleads the next allocation.
    /// - After a failure, all else is as it was, on the device too.
    /// - Every count goes with the references: what the image refers to once less is
    ///   counted once less, and a new cluster once.
    ///
    /// Of every image, on every device, and after a failure too: the device holds what it
    /// held but where one of the calls writes, and no device behind is asked for anything
    /// but reads.
    ///
    /// Where [`Qcow2Reader::write_served`] holds, the write succeeds. Where it cannot
    /// begin, [`beginning_refused`] says with which error, and nothing is changed.
    #[verifier::rlimit(60)]
    pub fn write_at(&mut self, offset: u64, buf: &[u8]) -> (r: Result<(), Error>)
        requires
            old(self).inv(),
        ensures
            final(self).inv(),
            final(self).same_but_tables(&*old(self)),
            match write_refusal(
                old(self)@.header,
                old(self).opened_writable(),
                offset as int,
                buf@.len() as int,
            ) {
                Some(e) => r == Err::<(), Error>(e) && final(self)@ == old(self)@
                    && final(self).device() == old(self).device(),
                None => old(self).orderly(Set::empty(), final(self)@.bytes.len() as int)
                    ==> match r {
                    Ok(()) => written(old(self)@, final(self)@, offset as int, buf@),
                    Err(_) => old(self).device().atomic() ==> unharmed(
                        old(self)@,
                        Set::empty(),
                        final(self)@,
                        offset as int,
                        offset + buf@.len(),
                    ),
                },
            },
            r is Ok ==> forall|sure: bool|
                (sure ==> old(self).certain(final(self)@.bytes.len() as int))
                    ==> #[trigger] chunks_written(
                    old(self)@,
                    offset as int,
                    buf@,
                    old(self).device().calls(),
                    final(self)@,
                    final(self).device().calls(),
                    sure,
                ),
            r is Ok && old(self)@.consistent() && final(self)@.bytes.len() <= ADDRESSABLE
                && all_served(old(self).device().calls(), final(self).device().calls()) ==> written(
                old(self)@,
                final(self)@,
                offset as int,
                buf@,
            ),
            r is Ok && old(self)@.consistent() && final(self)@.bytes.len() <= ADDRESSABLE
                && in_one(old(self)@, offset as int, buf@.len() as int) ==> reads_back(
                old(self)@,
                final(self)@,
                offset as int,
                buf@,
            ),
            r is Ok && in_one(old(self)@, offset as int, buf@.len() as int) && goes_in_place(
                old(self)@,
                offset as int,
            ) ==> put_in_place(
                old(self)@,
                offset as int,
                buf@,
                old(self).device().calls(),
                final(self)@,
                final(self).device().calls(),
            ),
            r is Ok && old(self)@.consistent() && old(self)@.counted() && final(self)@.bytes.len()
                <= ADDRESSABLE && old(self).certain(final(self)@.bytes.len() as int) ==> {
                &&& in_one(old(self)@, offset as int, buf@.len() as int) ==> counts_moved(
                    old(self)@,
                    final(self)@,
                    offset as int,
                ) && surplus_kept(old(self)@, final(self)@, offset as int)
                &&& (forall|w: int|
                    offset <= w < offset + buf@.len() ==> #[trigger] in_one_cluster(old(self)@, w))
                    ==> forall|k: int|
                    0 <= k ==> #[trigger] final(self)@.surplus(k) == old(self)@.surplus(k)
            },
            buf@.len() == 0 ==> final(self)@ == old(self)@ && final(self).device() == old(
                self,
            ).device(),
            old(self).write_served(offset as int, buf@.len() as int) ==> r is Ok,
            write_refusal(
                old(self)@.header,
                old(self).opened_writable(),
                offset as int,
                buf@.len() as int,
            ) is None && 0 < buf@.len() && old(self).allocation_decides() && cannot_begin(
                old(self)@,
                offset as int,
            ) ==> (r matches Err(e) && beginning_refused(old(self)@, offset as int, e)
                && final(self)@ == old(self)@),
    {
        if !self.writable {
            return Err(Error::ReadOnly);
        }
        let ghost a = self@;
        let ghost v = offset as int;
        let ghost log = self.dev.calls();
        let len: u64 = buf.len() as u64;
        if len == 0 {
            proof {
                assert(buf@ =~= Seq::<u8>::empty());
                if a.consistent() {
                    lemma_nothing_written(a, v);
                }
                assert forall|sure: bool| #[trigger]
                    chunks_written(a, v, buf@, log, a, log, sure) by {
                    lemma_no_chunks(a, v, log, sure);
                }
            }
            return Ok(());
        }
        if offset > self.header.virtual_size || len > self.header.virtual_size - offset {
            return Err(Error::OutOfBounds { offset, len, size: self.header.virtual_size });
        }
        let r = self.write_clusters(offset, buf);
        proof {
            let b = self@;
            let after = self.dev.calls();
            lemma_cluster_size(a.header.cluster_bits);
            if r is Ok {
                assert(chunks_written(a, v, buf@, log, b, after, false));
                if in_one(a, v, len as int) {
                    lemma_one_chunk(a, v, buf@, log, b, after, false);
                    lemma_put_in_place(a, v, buf@, log, b, after, false);
                }
                if a.consistent() && b.bytes.len() <= ADDRESSABLE {
                    if all_served(log, after) {
                        lemma_chunks_outcome(a, v, buf@, log, b, after, false);
                    }
                    if in_one(a, v, len as int) {
                        lemma_reads_back(a, v, buf@, log, b, after, false);
                    }
                    if a.counted() && old(self).certain(b.bytes.len() as int) {
                        assert(chunks_written(a, v, buf@, log, b, after, true));
                        lemma_chunks_outcome(a, v, buf@, log, b, after, true);
                        if in_one(a, v, len as int) {
                            lemma_one_chunk(a, v, buf@, log, b, after, true);
                            let x = lemma_chunk_outcome(a, v, buf@, log, b, after, true);
                        }
                    }
                }
            }
        }
        r
    }

    /// Brings what was written to stable storage. There is nothing to do for an
    /// image that was opened read-only.
    pub fn flush(&mut self) -> (r: Result<(), Error>)
        requires
            old(self).inv(),
        ensures
            final(self).inv(),
            final(self).same_but_bytes(&*old(self)),
            final(self)@ == old(self)@,
            old(self).opened_writable() && r is Ok ==> final(self).device().stored()
                == final(self)@.bytes,
            old(self).opened_writable() ==> final(self).device().calls() == with_flush(
                old(self).device().calls(),
                r is Ok,
            ),
            !old(self).opened_writable() ==> r is Ok && final(self).device() == old(self).device(),
            old(self).device().dependable() ==> r is Ok,
    {
        if !self.writable {
            return Ok(());
        }
        self.dev_flush()
    }
}

/// Why a write is not tried at all, if it is not.
pub open spec fn write_refusal(h: Header, writable: bool, offset: int, len: int) -> Option<Error> {
    if !writable {
        Some(Error::ReadOnly)
    } else if len > 0 && offset + len > h.virtual_size {
        Some(Error::OutOfBounds { offset: offset as u64, len: len as u64, size: h.virtual_size })
    } else {
        None
    }
}

} // verus!
