//! How many clusters a write needs.

use crate::consistency::keeps;
use crate::consistency::frame::lemma_indexes;
use crate::entry::ClusterMap;
use crate::header::lemma_cluster_size;
use crate::image::Image;
use crate::writer::goes_in_place;
use crate::writer::effects::{lemma_in_device, lemma_whole_cluster};
use crate::writer::order::table_is_own;
use vstd::prelude::*;

verus! {

/// How many clusters it takes to have an L2 table of one's own for L1 entry `i`.
pub open spec fn table_cost(a: Image, i: int) -> int {
    if table_is_own(a, i) {
        0
    } else {
        1
    }
}

/// How many clusters it takes to write into the cluster that holds byte `v`: none if it
/// is written in its place, else one for the data, and one for the L2 table where it is
/// missing or shared.
pub open spec fn cluster_cost(a: Image, v: int) -> int {
    if goes_in_place(a, v) {
        0
    } else {
        1 + table_cost(a, a.l1_index(v))
    }
}

/// Byte `v` can be written: the cluster that holds it lies where the device ends or can
/// be made to end, if it is written in its place; it can be read, if it is copied.
pub open spec fn can_be_written(a: Image, cap: int, v: int) -> bool {
    if goes_in_place(a, v) {
        a.cluster_map(v) matches Ok(ClusterMap::Plain { host_off, .. }) && host_off + a.cs() <= cap
    } else {
        a.readable(v - v % a.cs(), v - v % a.cs() + a.cs())
    }
}

/// How many clusters it takes to write the bytes from `at` up to `end`: one for each
/// cluster of the disk that is not written in its place, and one for each L2 table that
/// is missing or shared. The table of row `row` is not counted again.
pub open spec fn clusters_needed(a: Image, at: int, end: int, row: int) -> int
    decreases end - at,
    when a.cs() > 0
{
    if at >= end {
        0
    } else {
        let next = next_cluster(a.cs(), at, end);
        proof {
            assert(0 <= at % a.cs() < a.cs()) by (nonlinear_arith)
                requires
                    a.cs() > 0,
            ;
        }
        let i = a.l1_index(at);
        if goes_in_place(a, at) {
            clusters_needed(a, next, end, row)
        } else {
            1 + (if i == row {
                0
            } else {
                table_cost(a, i)
            }) + clusters_needed(a, next, end, i)
        }
    }
}

/// Where the cluster ends that holds byte `at`, or `end` if that comes first.
pub open spec fn next_cluster(cs: int, at: int, end: int) -> int {
    if at + (cs - at % cs) < end {
        at + (cs - at % cs)
    } else {
        end
    }
}

/// What is written in its place in `a` is written there in `b` too.
#[verifier::opaque]
pub open spec fn places_kept(a: Image, b: Image) -> bool {
    forall|v: int|
        0 <= v < a.header.virtual_size && goes_in_place(a, v) ==> #[trigger] goes_in_place(b, v)
            && b.cluster_map(v) == a.cluster_map(v)
}

/// A byte that is written in its place still is, where all places are kept.
pub(crate) proof fn lemma_place_kept(a: Image, b: Image, v: int)
    requires
        places_kept(a, b),
        0 <= v < a.header.virtual_size,
        goes_in_place(a, v),
    ensures
        goes_in_place(b, v),
        b.cluster_map(v) == a.cluster_map(v),
{
    reveal(places_kept);
    assert(goes_in_place(b, v));
}

/// `b` needs no more for the bytes from `at` on than `a`: what is written in its place
/// there still is, and a table that is the image's own there still is.
pub open spec fn needs_no_more(a: Image, b: Image, at: int) -> bool {
    &&& b.header == a.header
    &&& forall|w: int|
        at <= w < a.header.virtual_size && goes_in_place(a, w) ==> #[trigger] goes_in_place(b, w)
            && b.cluster_map(w) == a.cluster_map(w)
    &&& forall|w: int|
        at <= w < a.header.virtual_size && table_is_own(a, a.l1_index(w))
            ==> #[trigger] table_is_own(b, a.l1_index(w))
}

/// An image that needs no more takes no more clusters.
proof fn lemma_needs_no_more(a: Image, b: Image, at: int, end: int, x: int, y: int)
    requires
        a.cs() > 0,
        needs_no_more(a, b, at),
        end <= a.header.virtual_size,
    ensures
        0 <= clusters_needed(b, at, end, x),
        clusters_needed(b, at, end, x) <= clusters_needed(a, at, end, y) + (if y == x
            || table_is_own(b, y) {
            0int
        } else {
            1
        }),
    decreases end - at,
{
    if at < end {
        let next = next_cluster(a.cs(), at, end);
        assert(0 <= at % a.cs() < a.cs()) by (nonlinear_arith)
            requires
                a.cs() > 0,
        ;
        let i = a.l1_index(at);
        assert(b.l1_index(at) == i);
        assert(goes_in_place(a, at) ==> goes_in_place(b, at));
        assert(table_is_own(a, a.l1_index(at)) ==> table_is_own(b, a.l1_index(at)));
        if goes_in_place(a, at) {
            lemma_needs_no_more(a, b, next, end, x, y);
        } else if goes_in_place(b, at) {
            lemma_needs_no_more(a, b, next, end, x, i);
        } else {
            lemma_needs_no_more(a, b, next, end, i, i);
        }
    }
}

/// What is needed for the rest, when one cluster has been written.
pub(crate) proof fn lemma_needed_after(a: Image, b: Image, at: int, next: int, end: int)
    requires
        a.header.geometry_ok(),
        0 <= at < end <= a.header.virtual_size,
        next == next_cluster(a.cs(), at, end),
        needs_no_more(a, b, next),
        goes_in_place(a, at) || table_is_own(b, a.l1_index(at)),
    ensures
        0 <= clusters_needed(b, next, end, -1),
        clusters_needed(a, at, end, -1) >= cluster_cost(a, at),
        clusters_needed(b, next, end, -1) <= clusters_needed(a, at, end, -1) - cluster_cost(a, at),
{
    lemma_indexes(a, at);
    if goes_in_place(a, at) {
        lemma_needs_no_more(a, b, next, end, -1, -1);
    } else {
        let i = a.l1_index(at);
        lemma_needs_no_more(a, b, next, end, -1, i);
    }
}

/// What a write needs covers what it needs for its first cluster.
pub(crate) proof fn lemma_cost_covered(a: Image, at: int, end: int)
    requires
        a.header.geometry_ok(),
        0 <= at < end <= a.header.virtual_size,
    ensures
        0 <= cluster_cost(a, at) <= clusters_needed(a, at, end, -1),
{
    lemma_indexes(a, at);
    let next = next_cluster(a.cs(), at, end);
    let i = a.l1_index(at);
    assert(needs_no_more(a, a, next));
    if goes_in_place(a, at) {
        lemma_needs_no_more(a, a, next, end, -1, -1);
    } else {
        lemma_needs_no_more(a, a, next, end, i, i);
    }
}

/// What could be written still can, when another cluster has been.
pub(crate) proof fn lemma_still_writable(a: Image, b: Image, cap: int, lo: int, hi: int, w: int)
    requires
        a.header.geometry_ok(),
        b.header == a.header,
        0 <= lo < hi <= w,
        hi % a.cs() == 0,
        keeps(a, b, lo, hi),
        b.bytes.len() <= cap,
        goes_in_place(a, w) ==> goes_in_place(b, w) && b.cluster_map(w) == a.cluster_map(w),
        can_be_written(a, cap, w),
    ensures
        can_be_written(b, cap, w),
{
    lemma_cluster_size(a.header.cluster_bits);
    lemma_whole_cluster(a, w);
    let cs = a.cs();
    let base = w - w % cs;
    assert(hi <= base) by {
        vstd::arithmetic::div_mod::lemma_fundamental_div_mod(w, cs);
        vstd::arithmetic::div_mod::lemma_fundamental_div_mod(hi, cs);
        vstd::arithmetic::div_mod::lemma_div_is_ordered(hi, w, cs);
        let p = hi / cs;
        let q = w / cs;
        assert(cs * p <= cs * q) by (nonlinear_arith)
            requires
                p <= q,
                cs > 0,
        ;
    }
    if !goes_in_place(a, w) {
        assert forall|v: int| base <= v < base + cs implies #[trigger] b.guest_byte(v) is Ok by {
            assert(a.guest_byte(v) is Ok);
        }
        if goes_in_place(b, w) {
            lemma_in_device(b, w, b.cluster_map(w)->Ok_0);
        }
    }
}

} // verus!
