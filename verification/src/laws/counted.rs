//! When clusters are to be had, and which images have tables and counts that agree.

use crate::consistency::{held_elsewhere, sound, sum};
use crate::consistency::refs::lemma_one_reference;
use crate::device::{settled, Call, Request};
use crate::entry::{lemma_l1_reaches, ClusterMap};
use crate::error::Error;
use crate::image::{Fault, Image};
use crate::laws::format::{
    bit, field, host_bits, lemma_bits, lemma_cluster_is_power, lemma_host_bits,
    numbers_are_read_as_spelled,
};
use crate::refcount::lemma_refcount_geometry;
use crate::room::{room, spare, spare_set};
use crate::writer::ADDRESSABLE;
use crate::writer::order::{chunks_written, in_one, lemma_one_chunk};
use crate::writer::outcome::{goes_on_into, in_one_cluster, lemma_chunk_outcome};
use vstd::arithmetic::power2::{lemma2_to64_rest, pow2};
use vstd::prelude::*;

verus! {

/// Nothing adds up to nothing.
proof fn lemma_sum_of_nothing(f: spec_fn(int) -> int, n: int)
    requires
        forall|i: int| 0 <= i < n ==> #[trigger] f(i) == 0,
    ensures
        sum(f, n) == 0,
    decreases n,
{
    if n > 0 {
        lemma_sum_of_nothing(f, n - 1);
    }
}

/// The header, the L1 table, the refcount table or one of its blocks takes some byte of
/// host cluster `k`.
pub open spec fn taken_by_structure(img: Image, k: int) -> bool {
    let cs = pow2(img.header.cluster_bits as nat) as int;
    let l1 = img.header.l1_table_offset as int;
    let rt = img.header.refcount_table_offset as int;
    ||| k == 0
    ||| img.header.l1_size > 0 && l1 < k * cs + cs && k * cs < l1 + 8 * img.header.l1_size
    ||| rt < k * cs + cs && k * cs < rt + img.header.refcount_table_clusters * cs
    ||| exists|s: int| 0 <= s < img.rt_len() && #[trigger] img.rt_entry(s) == k * cs
}

/// The structures of the image lie past the header, at clusters, on the device, and apart
/// from each other.
pub open spec fn structures_apart(img: Image) -> bool {
    let cs = pow2(img.header.cluster_bits as nat) as int;
    let l1 = img.header.l1_table_offset as int;
    let l1_end = l1 + 8 * img.header.l1_size;
    let rt = img.header.refcount_table_offset as int;
    let rt_end = rt + img.header.refcount_table_clusters * cs;
    &&& cs <= l1
    &&& cs <= rt
    &&& l1_end <= rt || rt_end <= l1
    &&& forall|s: int|
        0 <= s < img.rt_len() && #[trigger] img.rt_entry(s) != 0 ==> {
            let b = img.rt_entry(s);
            &&& b % cs == 0
            &&& cs <= b
            &&& b + cs <= img.bytes.len()
            &&& b + cs <= l1 || l1_end <= b
            &&& b + cs <= rt || rt_end <= b
        }
    &&& forall|s: int, t: int|
        0 <= s < t < img.rt_len() && #[trigger] img.rt_entry(s) != 0 ==> img.rt_entry(s)
            != #[trigger] img.rt_entry(t)
}

/// The cluster that holds a place.
proof fn lemma_cluster_of(cs: int, x: int)
    requires
        cs > 0,
        x >= 0,
    ensures
        x / cs * cs <= x < x / cs * cs + cs,
        0 <= x / cs,
{
    vstd::arithmetic::div_mod::lemma_fundamental_div_mod(x, cs);
    assert(cs * (x / cs) == x / cs * cs) by (nonlinear_arith);
    assert(0 <= x / cs) by (nonlinear_arith)
        requires
            x >= 0,
            cs > 0,
    ;
}

/// A later cluster starts no sooner than an earlier one ends.
proof fn lemma_clusters_in_order(cs: int, j: int, k: int)
    requires
        cs > 0,
    ensures
        j < k ==> j * cs + cs <= k * cs,
        j <= k ==> j * cs <= k * cs,
{
    if j < k {
        assert(j * cs + cs <= k * cs) by (nonlinear_arith)
            requires
                j + 1 <= k,
                cs > 0,
        ;
    }
}

/// What the model calls a structure takes the cluster.
proof fn lemma_structure(img: Image, k: int)
    requires
        sound(img),
        img.is_meta(k),
        structures_apart(img),
    ensures
        taken_by_structure(img, k),
{
    lemma_cluster_is_power(img.header.cluster_bits);
    let cs = img.cs();
    let l1 = img.header.l1_table_offset as int;
    let rt = img.header.refcount_table_offset as int;
    if k == 0 {
    } else if img.l1_in(k) {
        let last = l1 + 8 * img.l1.len() - 1;
        lemma_cluster_of(cs, l1);
        lemma_cluster_of(cs, last);
        lemma_clusters_in_order(cs, l1 / cs, k);
        lemma_clusters_in_order(cs, k, last / cs);
    } else if img.rt_in(k) {
        let n = img.header.refcount_table_clusters as int;
        lemma_cluster_of(cs, rt);
        lemma_clusters_in_order(cs, rt / cs, k);
        lemma_clusters_in_order(cs, k, rt / cs + n);
        assert((rt / cs + n) * cs == rt / cs * cs + n * cs) by (nonlinear_arith);
    } else {
        let s = choose|s: int| #[trigger] img.block_in(s, k);
        let b = img.rt_entry(s);
        vstd::arithmetic::div_mod::lemma_fundamental_div_mod(b, cs);
        assert(cs * (b / cs) == b / cs * cs) by (nonlinear_arith);
    }
}

/// Two structures that lie apart share no cluster.
proof fn lemma_apart(img: Image, k: int, lo: int, hi: int)
    requires
        sound(img),
        lo % img.cs() == 0,
        0 <= lo,
        lo / img.cs() <= k,
        k * img.cs() < hi,
        img.header.l1_table_offset + 8 * img.header.l1_size <= lo || hi
            <= img.header.l1_table_offset,
    ensures
        !img.l1_in(k),
{
    lemma_cluster_is_power(img.header.cluster_bits);
    let cs = img.cs();
    let l1 = img.header.l1_table_offset as int;
    let last = l1 + 8 * img.l1.len() - 1;
    if img.l1_in(k) {
        lemma_cluster_of(cs, l1);
        lemma_cluster_of(cs, last);
        lemma_cluster_of(cs, lo);
        lemma_clusters_in_order(cs, l1 / cs, k);
        lemma_clusters_in_order(cs, k, last / cs);
        lemma_clusters_in_order(cs, lo / cs, k);
        vstd::arithmetic::div_mod::lemma_fundamental_div_mod(lo, cs);
        vstd::arithmetic::div_mod::lemma_fundamental_div_mod(l1, cs);
        assert(cs * (lo / cs) == lo / cs * cs) by (nonlinear_arith);
        assert(cs * (l1 / cs) == l1 / cs * cs) by (nonlinear_arith);
    }
}

/// An image without any cluster of the disk is consistent, whatever its version and its
/// geometry, if its L1 table is empty, its structures lie apart, and each cluster that one
/// of them takes is counted once. Every image that is written from there on is consistent,
/// too.
pub proof fn empty_image_is_consistent(img: Image)
    requires
        sound(img),
        structures_apart(img),
        forall|i: int| 0 <= i < img.l1.len() ==> #[trigger] img.l1[i] == 0,
        forall|i: int|
            0 <= i < img.l1.len() ==> #[trigger] field(
                img.bytes,
                img.header.l1_table_offset + 8 * i,
                8,
            ) == 0,
        forall|k: int| 0 <= k && #[trigger] taken_by_structure(img, k) ==> img.refcount(k) == 1,
    ensures
        img.consistent(),
        forall|k: int| 0 <= k ==> #[trigger] img.refs(k) == 0,
{
    lemma_cluster_is_power(img.header.cluster_bits);
    lemma_refcount_geometry(img.header);
    let cs = img.cs();
    let rt = img.header.refcount_table_offset as int;
    assert forall|i: int| 0 <= i < img.l1.len() implies #[trigger] img.l2_table(i) == 0 by {
        assert(img.l1[i] == 0);
        let e = img.l1[i];
        assert(e & crate::entry::OFFSET_MASK == 0) by (bit_vector)
            requires
                e == 0,
        ;
    }
    assert forall|k: int| #[trigger] img.refs(k) == 0 by {
        let rows = |i: int| img.row_refs(i, k);
        assert forall|i: int| 0 <= i < img.l1.len() implies #[trigger] rows(i) == 0 by {
            assert(img.l2_table(i) == 0);
            let places = |j: int|
                if img.refers(i, j, k) {
                    1int
                } else {
                    0
                };
            lemma_sum_of_nothing(places, crate::entry::l2_len(img.header) + 1);
            assert(img.row_refs(i, k) == sum(places, crate::entry::l2_len(img.header) + 1));
        }
        lemma_sum_of_nothing(rows, img.l1.len() as int);
        assert(img.refs(k) == sum(rows, img.l1.len() as int));
    }
    assert forall|i: int| 0 <= i < img.l1.len() implies crate::bytes::be64(
        img.bytes,
        img.header.l1_table_offset + 8 * i,
    ) == #[trigger] img.l1[i] by {
        assert(field(img.bytes, img.header.l1_table_offset + 8 * i, 8) == 0);
        numbers_are_read_as_spelled(img.bytes, img.header.l1_table_offset + 8 * i);
    }
    assert forall|k: int| #[trigger] img.is_meta(k) implies 0 <= k && img.refcount(k) == 1 by {
        lemma_structure(img, k);
        if img.l1_in(k) {
            lemma_cluster_of(cs, img.header.l1_table_offset as int);
        } else if img.rt_in(k) {
            lemma_cluster_of(cs, rt);
        } else if k != 0 {
            let s = choose|s: int| #[trigger] img.block_in(s, k);
            lemma_cluster_of(cs, img.rt_entry(s));
        }
    }
    if img.counted() {
        assert forall|k: int| !(#[trigger] img.l1_in(k) && img.rt_in(k)) by {
            if img.l1_in(k) && img.rt_in(k) {
                let n = img.header.refcount_table_clusters as int;
                lemma_cluster_of(cs, rt);
                lemma_clusters_in_order(cs, k, rt / cs + n);
                assert((rt / cs + n) * cs == rt / cs * cs + n * cs) by (nonlinear_arith);
                lemma_apart(img, k, rt, rt + n * cs);
            }
        }
        assert forall|s: int| 0 <= s < img.rt_len() && #[trigger] img.rt_entry(s) != 0 implies !img.l1_in(
            img.rt_entry(s) / cs,
        ) && !img.rt_in(img.rt_entry(s) / cs) by {
            let b = img.rt_entry(s);
            let k = b / cs;
            let n = img.header.refcount_table_clusters as int;
            lemma_cluster_of(cs, b);
            lemma_cluster_of(cs, rt);
            vstd::arithmetic::div_mod::lemma_fundamental_div_mod(b, cs);
            vstd::arithmetic::div_mod::lemma_fundamental_div_mod(rt, cs);
            assert(cs * (b / cs) == b / cs * cs) by (nonlinear_arith);
            assert(cs * (rt / cs) == rt / cs * cs) by (nonlinear_arith);
            if img.l1_in(k) {
                lemma_apart(img, k, b, b + cs);
            }
            if img.rt_in(k) {
                lemma_clusters_in_order(cs, rt / cs, k);
                lemma_clusters_in_order(cs, k, rt / cs + n);
                assert((rt / cs + n) * cs == rt / cs * cs + n * cs) by (nonlinear_arith);
            }
        }
        assert(img.blocks_placed());
    }
}

/// Clusters that are counted zero times are to be had, as many as there are of them, if
/// they end where the device can be written.
pub proof fn free_clusters_are_to_be_had(img: Image, cap: int, ks: Set<int>)
    requires
        img.header.geometry_ok(),
        ks.finite(),
        forall|k: int| #[trigger]
            ks.contains(k) ==> 0 < k && img.refcount_entry(k) == Some(0u16) && k * pow2(
                img.header.cluster_bits as nat,
            ) + pow2(img.header.cluster_bits as nat) <= cap,
    ensures
        room(img, cap, ks.len() as int),
{
    lemma_cluster_is_power(img.header.cluster_bits);
    assert forall|k: int| #[trigger] ks.contains(k) implies spare(img, cap, k) by {}
    assert(spare_set(img, cap, ks));
}

/// An allocation is not refused where the counts can be used and some cluster but the first
/// is counted zero times, or none is and there is an entry of the refcount table without a
/// block; as long as the first cluster is counted, and what is handed out has an offset.
pub proof fn allocation_is_not_refused_for_nothing(img: Image, j: int, e: Error)
    requires
        img.header.geometry_ok(),
        img.counts_are_u16(),
        img.header.refcount_table_offset > 0,
        img.header.refcount_table_clusters > 0,
        img.refcount(0) > 0,
        0 <= j,
        ({
            let cs = pow2(img.header.cluster_bits as nat) as int;
            ||| img.refcount_entry(j) == Some(0u16) && j * cs <= u64::MAX
            ||| img.none_free() && img.first_empty(j) && (j * (cs / 2) + 1) * cs <= u64::MAX
        }),
    ensures
        !img.allocation_refused(e),
{
    lemma_cluster_is_power(img.header.cluster_bits);
    lemma_refcount_geometry(img.header);
    let cs = img.cs();
    assert(!img.is_free(0));
    crate::consistency::frame::lemma_place(img, 0);
    assert(img.rt_entry(0) != 0);
    if img.refcount_entry(j) == Some(0u16) {
        assert(img.is_free(j));
        assert forall|k: int| #[trigger] img.first_free(k) implies k * cs <= u64::MAX by {
            assert(k <= j);
            lemma_clusters_in_order(cs, k, j);
        }
    } else {
        assert forall|k: int| !#[trigger] img.first_free(k) by {
            if img.first_free(k) {
                assert(img.is_free(k));
            }
        }
        assert forall|s: int| #[trigger] img.first_empty(s) implies s == j by {
            if s < j {
                assert(img.rt_entry(s) != 0);
            } else if j < s {
                assert(img.rt_entry(j) != 0);
            }
        }
    }
}

/// What is settled has been written, and is on stable storage before anything else is
/// asked of the device.
pub proof fn settled_is_written_and_flushed(log: Seq<Call>, offset: int, data: Seq<u8>)
    ensures
        ({
            let after = settled(log, offset, data);
            let n = log.len() as int;
            &&& after.len() == n + 2
            &&& after.subrange(0, n) == log
            &&& after[n].served && after[n + 1].served
            &&& after[n].request == (Request::Write { offset, data })
            &&& after[n + 1].request is Flush
        }),
{
    let after = settled(log, offset, data);
    assert(after.subrange(0, log.len() as int) =~= log);
}

/// An entry of a table reaches the first 2^56 bytes of a device.
pub proof fn entries_reach_56_bits(off: int)
    ensures
        0 <= off < pow2(56) <==> 0 <= off < ADDRESSABLE,
{
    lemma2_to64_rest();
}

/// Something beside the tables of the image, such as a snapshot, holds a cluster if and only
/// if it is counted more often than they refer to it, and holds no structure of the image.
pub proof fn cluster_is_held_elsewhere_exactly(img: Image, k: int)
    requires
        0 <= k,
        img.counted(),
        !img.is_meta(k),
    ensures
        held_elsewhere(img, Set::empty(), k) <==> img.refcount(k) > img.refs(k),
        held_elsewhere(img, Set::empty(), k) <==> img.surplus(k) > 0,
{
}

/// A cluster of the disk lies in one host cluster, unless it is compressed and its last
/// byte lies in another one than its first.
pub proof fn stored_in_one_cluster_exactly(img: Image, v: int)
    requires
        img.header.geometry_ok(),
    ensures
        ({
            let cs = pow2(img.header.cluster_bits as nat) as int;
            in_one_cluster(img, v) <==> !(img.cluster_map(v) matches Ok(
                ClusterMap::Compressed { host_off, byte_len },
            ) && (host_off + byte_len - 1) / cs > host_off as int / cs)
        }),
{
    lemma_cluster_is_power(img.header.cluster_bits);
    if let Ok(ClusterMap::Compressed { host_off, byte_len }) = img.cluster_map(v) {
        let last = (host_off + byte_len - 1) / img.cs();
        if host_off as int / img.cs() < last {
            assert(goes_on_into(img, v, last));
        }
    }
}

/// When a byte is written whose cluster is not there yet, and its L2 table is shared, the
/// table is copied, on a device that serves what it can: the old one loses one count, and
/// every other cluster that was counted is counted as it was.
pub proof fn shared_table_loses_one_count(
    a: Image,
    v: int,
    data: Seq<u8>,
    log: Seq<Call>,
    b: Image,
    after: Seq<Call>,
)
    requires
        sound(a),
        a.consistent(),
        a.counted(),
        0 <= v,
        v + data.len() <= a.header.virtual_size,
        in_one(a, v, data.len() as int),
        chunks_written(a, v, data, log, b, after, true),
        b.bytes.len() <= ADDRESSABLE,
        a.cluster_map(v) == Ok::<ClusterMap, Fault>(ClusterMap::Unallocated) || a.cluster_map(v)
            == Ok::<ClusterMap, Fault>(ClusterMap::Zero),
        host_bits(a.l1[a.l1_index(v)]) != 0,
        !bit(a.l1[a.l1_index(v)], 63),
        a.count_read(host_bits(a.l1[a.l1_index(v)])) matches Ok(c) && c > 1,
    ensures
        ({
            let t = host_bits(a.l1[a.l1_index(v)]) / pow2(a.header.cluster_bits as nat) as int;
            &&& b.refcount(t) == a.refcount(t) - 1
            &&& forall|k: int|
                0 <= k && k != t && a.refcount(k) > 0 ==> #[trigger] b.refcount(k) == a.refcount(k)
        }),
{
    lemma_cluster_is_power(a.header.cluster_bits);
    lemma_one_chunk(a, v, data, log, b, after, true);
    lemma_l1_reaches(a.header, v);
    let x = lemma_chunk_outcome(a, v, data, log, b, after, true);
    let i = a.l1_index(v);
    lemma_host_bits(a.l1[i]);
    lemma_bits(a.l1[i]);
    let t = a.l2_table(i) / a.cs();
    lemma_cluster_of(a.cs(), a.l2_table(i));
    assert(a.refers(i, 0, t));
    lemma_one_reference(a, i, 0, t);
    assert(a.refs(t) <= a.refcount(t));
}

} // verus!
