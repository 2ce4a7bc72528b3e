//! When an image's tables and counts agree, and why they go on agreeing.
//!
//! Every cluster of the device that a table points at is a *reference* to it.
//! The image is consistent if no cluster has more references than it is counted,
//! and the structures that are not reached through a table (the header, the L1
//! table, the refcount table and its blocks) are referenced by none.

pub mod counts;
pub mod frame;
pub mod links;
pub mod refs;

use crate::bytes::be64;
use crate::entry::{l2_len, map_of_entry, ClusterMap, L2_FLAG_COPIED};
use crate::image::Image;
use vstd::prelude::*;

verus! {

/// `f(0) + f(1) + .. + f(n - 1)`.
pub open spec fn sum(f: spec_fn(int) -> int, n: int) -> int
    decreases n,
{
    if n <= 0 {
        0
    } else {
        sum(f, n - 1) + f(n - 1)
    }
}

/// The L2 entry `e` makes the bytes of host cluster `k` part of the virtual disk.
pub open spec fn entry_covers(img: Image, e: u64, k: int) -> bool {
    match map_of_entry(img.header, e) {
        Some(ClusterMap::Plain { host_off, .. }) => host_off as int / img.cs() == k,
        Some(ClusterMap::Compressed { host_off, byte_len }) => host_off as int / img.cs() <= k
            <= (host_off + byte_len - 1) / img.cs(),
        _ => false,
    }
}

impl Image {
    /// Place `j` of row `i` refers to host cluster `k`. A row stands for an L1
    /// entry: its place 0 is the L2 table itself, and its place `j` is entry
    /// `j - 1` of that table.
    pub open spec fn refers(self, i: int, j: int, k: int) -> bool {
        if self.l2_table(i) == 0 {
            false
        } else if j == 0 {
            self.l2_table(i) / self.cs() == k
        } else {
            entry_covers(self, self.l2_entry(i, j - 1), k)
        }
    }

    /// How often row `i` refers to host cluster `k`.
    pub open spec fn row_refs(self, i: int, k: int) -> int {
        sum(
            |j: int|
                if self.refers(i, j, k) {
                    1
                } else {
                    0
                },
            l2_len(self.header) + 1,
        )
    }

    /// How often the tables of the image refer to host cluster `k`.
    pub open spec fn refs(self, k: int) -> int {
        sum(|i: int| self.row_refs(i, k), self.l1.len() as int)
    }

    /// The L1 table lies in host cluster `k`, at least in part.
    pub open spec fn l1_in(self, k: int) -> bool {
        self.l1.len() > 0 && self.header.l1_table_offset as int / self.cs() <= k <= (
        self.header.l1_table_offset + 8 * self.l1.len() - 1) / self.cs()
    }

    /// Whether the image has counts that can be used.
    pub open spec fn counted(self) -> bool {
        self.counts_are_u16() && self.has_refcount_table()
    }

    /// The refcount table lies in host cluster `k`.
    pub open spec fn rt_in(self, k: int) -> bool {
        self.rt_off() / self.cs() <= k < self.rt_off() / self.cs()
            + self.header.refcount_table_clusters
    }

    /// The block of entry `s` of the refcount table lies in host cluster `k`.
    pub open spec fn block_in(self, s: int, k: int) -> bool {
        0 <= s < self.rt_len() && self.rt_entry(s) != 0 && self.rt_entry(s) / self.cs() == k
    }

    /// A refcount block lies in host cluster `k`.
    pub open spec fn some_block_in(self, k: int) -> bool {
        exists|s: int| #[trigger] self.block_in(s, k)
    }

    /// Host cluster `k` holds a structure that is not reached through a table.
    pub open spec fn is_meta(self, k: int) -> bool {
        ||| k == 0
        ||| self.l1_in(k)
        ||| self.counted() && (self.rt_in(k) || self.some_block_in(k))
    }

    /// How often host cluster `k` is counted beyond what the image itself accounts for:
    /// by something outside its tables, such as an internal snapshot, or for nothing.
    pub open spec fn surplus(self, k: int) -> int {
        self.refcount(k) - self.refs(k) - (if self.is_meta(k) {
            1int
        } else {
            0
        })
    }

    /// Every L2 table is a cluster of the device.
    pub open spec fn tables_placed(self) -> bool {
        forall|i: int|
            0 <= i < self.l1.len() && #[trigger] self.l2_table(i) != 0 ==> self.l2_table(i)
                % self.cs() == 0 && self.l2_table(i) + self.cs() <= self.bytes.len()
    }

    /// The L1 table on the device is the one in memory.
    pub open spec fn l1_on_device(self) -> bool {
        forall|i: int|
            0 <= i < self.l1.len() ==> be64(self.bytes, self.header.l1_table_offset + 8 * i)
                == #[trigger] self.l1[i]
    }

    /// An L1 entry that is marked `COPIED` is the only reference to its table.
    pub open spec fn l1_copied(self, i: int) -> bool {
        0 <= i < self.l1.len() && self.l2_table(i) != 0 && self.l1[i] & L2_FLAG_COPIED != 0
    }

    /// Entry `j` of table `i` is marked `COPIED` and names host cluster `k`.
    pub open spec fn l2_copied(self, i: int, j: int, k: int) -> bool {
        &&& 0 <= i < self.l1.len()
        &&& 0 <= j < l2_len(self.header)
        &&& self.l2_table(i) != 0
        &&& map_of_entry(self.header, self.l2_entry(i, j)) matches Some(
            ClusterMap::Plain { host_off, copied },
        ) && copied && host_off as int / self.cs() == k
    }

    /// The `COPIED` flags tell the truth.
    pub open spec fn flags_true(self) -> bool {
        &&& forall|i: int| #[trigger]
            self.l1_copied(i) ==> self.refs(self.l2_table(i) / self.cs()) == 1 && (self.counted()
                ==> self.refcount(self.l2_table(i) / self.cs()) == 1)
        &&& forall|i: int, j: int, k: int| #[trigger]
            self.l2_copied(i, j, k) ==> self.refs(k) == 1 && (self.counted() ==> self.refcount(k)
                == 1)
    }

    /// The refcount table and its blocks lie apart from everything else, and
    /// from each other.
    pub open spec fn blocks_placed(self) -> bool {
        &&& self.cs() <= self.rt_off()
        &&& forall|k: int| !(#[trigger] self.l1_in(k) && self.rt_in(k))
        &&& forall|s: int|
            0 <= s < self.rt_len() && #[trigger] self.rt_entry(s) != 0 ==> self.rt_entry(s)
                % self.cs() == 0 && self.cs() <= self.rt_entry(s) && self.rt_entry(s) + self.cs()
                <= self.bytes.len() && !self.l1_in(self.rt_entry(s) / self.cs()) && !self.rt_in(
                self.rt_entry(s) / self.cs(),
            )
        &&& forall|s: int, t: int|
            0 <= s < t < self.rt_len() && self.rt_entry(s) != 0 ==> #[trigger] self.rt_entry(s)
                != #[trigger] self.rt_entry(t)
    }

    /// The tables and the counts agree. `pins` are clusters that have a reference
    /// which is not in any table yet: they have been allocated, and not linked.
    pub open spec fn consistent_with(self, pins: Set<int>) -> bool {
        &&& self.tables_placed()
        &&& self.l1_on_device()
        &&& self.l1.len() > 0 ==> self.cs() <= self.header.l1_table_offset
        &&& forall|k: int| #[trigger] self.is_meta(k) ==> self.refs(k) == 0
        &&& self.flags_true()
        &&& forall|k: int| #[trigger]
            pins.contains(k) ==> self.counted() && self.refs(k) == 0 && !self.is_meta(k)
                && self.refcount(k) == 1
        &&& self.counted() ==> {
            &&& self.blocks_placed()
            &&& forall|k: int| #[trigger] self.is_meta(k) ==> self.refcount(k) == 1
            &&& forall|k: int| 0 <= k ==> #[trigger] self.refs(k) <= self.refcount(k)
        }
    }

    /// The tables and the counts agree.
    pub open spec fn consistent(self) -> bool {
        self.consistent_with(Set::empty())
    }
}

/// The header of the image fits its L1 table and its device.
pub open spec fn sound(img: Image) -> bool {
    &&& img.header.geometry_ok()
    &&& img.header.layout_refusal(img.bytes.len() as int) is None
    &&& img.header.tables_addressable()
    &&& img.l1.len() == img.header.l1_size
}

/// Every byte of the virtual disk that `a` holds, `b` holds too, except perhaps
/// those from `lo` up to `hi`.
pub open spec fn keeps(a: Image, b: Image, lo: int, hi: int) -> bool {
    forall|v: int|
        0 <= v && !(lo <= v < hi) && a.guest_byte(v) is Ok ==> #[trigger] b.guest_byte(v)
            == a.guest_byte(v)
}

/// Host cluster `k` is counted more often than the tables of the image refer to
/// it: something outside them, such as an internal snapshot, holds it too.
pub open spec fn held_elsewhere(img: Image, pins: Set<int>, k: int) -> bool {
    &&& 0 <= k
    &&& img.counted()
    &&& !img.is_meta(k)
    &&& !pins.contains(k)
    &&& img.refs(k) < img.refcount(k)
}

/// Host cluster `k` holds what it held.
pub open spec fn cluster_kept(a: Image, b: Image, k: int) -> bool {
    forall|d: int|
        0 <= d < a.cs() && k * a.cs() + d < a.bytes.len() ==> #[trigger] b.bytes[k * a.cs() + d]
            == a.bytes[k * a.cs() + d]
}

/// Host cluster `k` has the count that it had, if it had one.
pub open spec fn same_count(a: Image, b: Image, k: int) -> bool {
    b.refcount_entry(k) == a.refcount_entry(k)
}

/// Every host cluster has the count that it had.
pub open spec fn same_counts(a: Image, b: Image) -> bool {
    forall|k: int| 0 <= k ==> #[trigger] same_count(a, b, k)
}

/// Every host cluster but `k` has the count that it had.
pub open spec fn same_counts_but(a: Image, b: Image, k: int) -> bool {
    forall|kk: int| 0 <= kk && kk != k ==> #[trigger] same_count(a, b, kk)
}

/// The tables of `b` refer to the clusters of the virtual disk as those of `a` do.
pub open spec fn same_data_refs(a: Image, b: Image) -> bool {
    forall|i: int, j: int, k: int|
        0 <= i < a.l1.len() && 1 <= j <= l2_len(a.header) ==> #[trigger] b.refers(i, j, k)
            == a.refers(i, j, k)
}

/// Every entry but entry `j0` of the table of row `i0` refers to what it referred to.
pub open spec fn other_refs_kept(a: Image, b: Image, i0: int, j0: int) -> bool {
    forall|i: int, j: int, k: int|
        0 <= i < a.l1.len() && 1 <= j <= l2_len(a.header) && !(i == i0 && j == j0 + 1)
            ==> #[trigger] b.refers(i, j, k) == a.refers(i, j, k)
}

/// Every entry of an L2 table of `a` is found in the tables of `b`.
pub open spec fn same_entries(a: Image, b: Image) -> bool {
    &&& forall|i: int|
        0 <= i < a.l1.len() && a.l2_table(i) != 0 ==> #[trigger] b.l2_table(i) != 0
    &&& forall|i: int, j: int|
        0 <= i < a.l1.len() && 0 <= j < l2_len(a.header) && a.l2_table(i) != 0
            ==> #[trigger] b.l2_entry(i, j) == a.l2_entry(i, j)
}

/// Every entry of an L2 table of `a`, but for entry `j0` of the table of row `i0`, is
/// found in the tables of `b`.
pub open spec fn other_entries_kept(a: Image, b: Image, i0: int, j0: int) -> bool {
    &&& forall|i: int|
        0 <= i < a.l1.len() && a.l2_table(i) != 0 ==> #[trigger] b.l2_table(i) != 0
    &&& forall|i: int, j: int|
        0 <= i < a.l1.len() && 0 <= j < l2_len(a.header) && a.l2_table(i) != 0 && !(i == i0 && j
            == j0) ==> #[trigger] b.l2_entry(i, j) == a.l2_entry(i, j)
}

/// What is kept twice is kept.
pub(crate) proof fn lemma_cluster_kept_trans(a: Image, b: Image, c: Image, k: int)
    requires
        cluster_kept(a, b, k),
        cluster_kept(b, c, k),
        a.header == b.header,
        a.bytes.len() <= b.bytes.len(),
    ensures
        cluster_kept(a, c, k),
{
    assert(a.cs() == b.cs());
    assert forall|d: int|
        0 <= d < a.cs() && k * a.cs() + d < a.bytes.len() implies #[trigger] c.bytes[k * a.cs() + d]
        == a.bytes[k * a.cs() + d] by {
        assert(b.bytes[k * a.cs() + d] == a.bytes[k * a.cs() + d]);
        assert(c.bytes[k * b.cs() + d] == b.bytes[k * b.cs() + d]);
    }
}

/// Entries that are found again twice are found again.
pub(crate) proof fn lemma_same_entries_trans(a: Image, b: Image, c: Image)
    requires
        same_entries(a, b),
        same_entries(b, c),
        a.header == b.header,
        a.l1.len() == b.l1.len(),
    ensures
        same_entries(a, c),
{
    assert forall|i: int| 0 <= i < a.l1.len() && a.l2_table(i) != 0 implies #[trigger] c.l2_table(i)
        != 0 by {
        assert(b.l2_table(i) != 0);
    }
    assert forall|i: int, j: int|
        0 <= i < a.l1.len() && 0 <= j < l2_len(a.header) && a.l2_table(i)
            != 0 implies #[trigger] c.l2_entry(i, j) == a.l2_entry(i, j) by {
        assert(b.l2_table(i) != 0);
        assert(b.l2_entry(i, j) == a.l2_entry(i, j));
    }
}

/// `b` comes after `a` on the way from one consistent image to the next: nothing
/// that a reader sees has changed, nor has the header, nor any cluster but perhaps
/// `w` that is pinned or held elsewhere.
pub open spec fn step(a: Image, pa: Set<int>, b: Image, pb: Set<int>, w: int) -> bool {
    &&& sound(b)
    &&& b.consistent_with(pb)
    &&& a.bytes.len() <= b.bytes.len()
    &&& b.header == a.header
    &&& b.backing == a.backing
    &&& b.l1.len() == a.l1.len()
    &&& keeps(a, b, 0, 0)
    &&& same_data_refs(a, b)
    &&& same_entries(a, b)
    &&& cluster_kept(a, b, 0)
    &&& forall|k: int|
        (held_elsewhere(a, pa, k) || pa.contains(k)) && k != w ==> #[trigger] cluster_kept(a, b, k)
}

/// Two steps are a step.
pub(crate) proof fn lemma_step_trans(
    a: Image,
    pa: Set<int>,
    b: Image,
    pb: Set<int>,
    c: Image,
    pc: Set<int>,
    w: int,
)
    requires
        step(a, pa, b, pb, w),
        step(b, pb, c, pc, w),
        pa.subset_of(pb),
        forall|k: int| #[trigger] held_elsewhere(a, pa, k) ==> held_elsewhere(b, pb, k),
    ensures
        step(a, pa, c, pc, w),
{
    assert forall|v: int| 0 <= v && a.guest_byte(v) is Ok implies #[trigger] c.guest_byte(v)
        == a.guest_byte(v) by {
        assert(b.guest_byte(v) == a.guest_byte(v));
    }
    assert forall|i: int, j: int, k: int|
        0 <= i < a.l1.len() && 1 <= j <= l2_len(a.header) implies #[trigger] c.refers(i, j, k)
        == a.refers(i, j, k) by {
        assert(b.refers(i, j, k) == a.refers(i, j, k));
    }
    lemma_same_entries_trans(a, b, c);
    lemma_cluster_kept_trans(a, b, c, 0);
    assert forall|k: int|
        (held_elsewhere(a, pa, k) || pa.contains(k)) && k != w implies #[trigger] cluster_kept(
        a,
        c,
        k,
    ) by {
        assert(held_elsewhere(b, pb, k) || pb.contains(k));
        assert(cluster_kept(a, b, k));
        lemma_cluster_kept_trans(a, b, c, k);
    }
}

/// The image as it would be found if it were opened again: the L1 table is the
/// one on the device.
pub open spec fn reopened(img: Image) -> Image {
    Image {
        l1: Seq::new(
            img.l1.len(),
            |i: int| be64(img.bytes, img.header.l1_table_offset + 8 * i),
        ),
        ..img
    }
}

/// An image whose L1 table on the device is the one in memory is found again as
/// it is.
pub(crate) proof fn lemma_reopened(img: Image)
    requires
        img.l1_on_device(),
    ensures
        reopened(img) == img,
{
    assert(reopened(img).l1 =~= img.l1);
}

/// The header of `a`, and every cluster that something outside its tables holds, is
/// in `b` what it was.
pub open spec fn untouched(a: Image, pins: Set<int>, b: Image) -> bool {
    &&& a.bytes.len() <= b.bytes.len()
    &&& a.header == b.header
    &&& cluster_kept(a, b, 0)
    &&& forall|k: int| #[trigger] held_elsewhere(a, pins, k) ==> cluster_kept(a, b, k)
}

/// What is left untouched twice is left untouched.
pub(crate) proof fn lemma_untouched_trans(a: Image, pa: Set<int>, b: Image, pb: Set<int>, c: Image)
    requires
        untouched(a, pa, b),
        untouched(b, pb, c),
        forall|k: int| #[trigger] held_elsewhere(a, pa, k) ==> held_elsewhere(b, pb, k),
    ensures
        untouched(a, pa, c),
{
    lemma_cluster_kept_trans(a, b, c, 0);
    assert forall|k: int| #[trigger] held_elsewhere(a, pa, k) implies cluster_kept(a, c, k) by {
        assert(held_elsewhere(b, pb, k));
        lemma_cluster_kept_trans(a, b, c, k);
    }
}

/// After a failure at `b`, every byte that `a` held outside the range from `lo` up
/// to `hi` is still there, for this reader and for the next one; and so is what the
/// virtual disk does not show. The next one finds tables and counts that agree: a
/// cluster may be counted and not used, and none is used and not counted.
pub open spec fn unharmed(a: Image, pins: Set<int>, b: Image, lo: int, hi: int) -> bool {
    &&& keeps(a, b, lo, hi)
    &&& keeps(a, reopened(b), lo, hi)
    &&& untouched(a, pins, b)
    &&& reopened(b).consistent_with(pins)
}

/// An image that is consistent but for some clusters is consistent but for fewer.
pub(crate) proof fn lemma_fewer_pins(img: Image, p: Set<int>, q: Set<int>)
    requires
        img.consistent_with(p),
        q.subset_of(p),
    ensures
        img.consistent_with(q),
{
}

/// What is kept twice is kept.
pub(crate) proof fn lemma_keeps_trans(a: Image, b: Image, c: Image, lo: int, hi: int)
    requires
        keeps(a, b, 0, 0),
        keeps(b, c, lo, hi),
    ensures
        keeps(a, c, lo, hi),
{
    assert forall|v: int|
        0 <= v && !(lo <= v < hi) && a.guest_byte(v) is Ok implies #[trigger] c.guest_byte(v)
        == a.guest_byte(v) by {
        assert(b.guest_byte(v) == a.guest_byte(v));
    }
}

/// A consistent image, reached by steps that keep what a reader sees, harms no one.
pub(crate) proof fn lemma_unharmed(
    a: Image,
    pa: Set<int>,
    b: Image,
    pb: Set<int>,
    c: Image,
    lo: int,
    hi: int,
)
    requires
        keeps(a, b, 0, 0),
        keeps(b, c, lo, hi),
        c.consistent_with(pa),
        untouched(a, pa, b),
        untouched(b, pb, c),
        forall|k: int| #[trigger] held_elsewhere(a, pa, k) ==> held_elsewhere(b, pb, k),
    ensures
        unharmed(a, pa, c, lo, hi),
{
    lemma_reopened(c);
    lemma_keeps_trans(a, b, c, lo, hi);
    lemma_untouched_trans(a, pa, b, pb, c);
}

} // verus!
