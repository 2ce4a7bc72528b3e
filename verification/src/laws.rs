//! What holds of the library as a whole.
//!
//! Each function here states one law over the models that the executable functions
//! are specified with: what a read gives back of a write, what a write leaves alone,
//! what is found when the image is opened again, and how the parts of the format fit
//! together.
//!
//! The modules below hold the laws that tell single parts from the published layout of an
//! image: which bytes and bits mean what ([`format`]), where data and counts lie
//! ([`disk`]), when clusters are to be had ([`counted`]), what is asked of the device
//! ([`calls`]), how clusters are decoded ([`stored`]), and what is shown ([`shown`]).

pub mod calls;
pub mod counted;
pub mod disk;
pub mod format;
pub mod shown;
pub mod stored;

use crate::bytes::{be16, be64, lemma_be16_round_trip, overwrite};
use crate::cli::{
    digit_value, digits_value, has_hex_prefix, lemma_digits_spelled, lemma_digits_stop, parsed,
    spells, NumberError,
};
use crate::consistency::{
    cluster_kept, held_elsewhere, keeps, lemma_fewer_pins, reopened, sound, unharmed, untouched,
};
use crate::consistency::counts::{lemma_allocates, lemma_new_block_place};
use crate::consistency::frame::{lemma_be64_same, lemma_indexes, lemma_place};
use crate::consistency::refs::{lemma_one_reference, lemma_refs_nonneg};
use crate::device::{all_served, settled, writes_over, BlockDevice, Call};
use crate::entry::{
    address_of, compressed_extra_sectors, compressed_span, compressed_start, fresh_entry, l2_len,
    lemma_l1_reaches, lemma_map_bounded, lemma_same_cluster, map_of_entry, ClusterMap,
    DESCRIPTOR_MASK, L2_FLAG_COMPRESSED, L2_FLAG_COPIED, L2_FLAG_ZERO, OFFSET_MASK,
};
use crate::extents::{ClusterStatus, Extent};
use crate::header::{lemma_cluster_size, Header};
use crate::image::{Fault, Image};
use crate::open::{chained, l1_table, lone_image, open_refusal, whole_head, HEAD_BYTES};
use crate::reader::Qcow2Reader;
use crate::refcount::{first_cluster_kept, lemma_refcount_geometry};
use crate::text::number_text;
use crate::writer::{goes_in_place, plan_for, ADDRESSABLE, WritePlan};
use crate::writer::effects::{reads_back, written};
use crate::writer::order::{chunks_written, cluster_seen, in_one, lemma_one_chunk};
use crate::writer::outcome::{
    in_one_cluster, lemma_calls_in_order, lemma_chunk_outcome, lemma_chunks_outcome,
    lemma_map_covers, lemma_new_cluster, lemma_reads_back, table_is_shared,
};
use vstd::prelude::*;
use vstd::utf8::*;

verus! {

/// What is read is determined by the image: two reads of the same bytes give the
/// same.
pub proof fn reads_agree(img: Image, v: int, one: Seq<u8>, other: Seq<u8>)
    requires
        img.holds(v, one),
        img.holds(v, other),
        one.len() == other.len(),
    ensures
        one == other,
{
    assert forall|i: int| 0 <= i < one.len() implies one[i] == other[i] by {
        assert(img.guest_byte(v + i) == Ok::<u8, Fault>(other[i]));
    }
    assert(one =~= other);
}

/// A reader that is the same image as before, as it is after every read, has asked none
/// of its devices, its own or one behind, to write or to flush.
pub proof fn reads_ask_for_no_change<D: BlockDevice>(
    before: Qcow2Reader<D>,
    after: Qcow2Reader<D>,
)
    requires
        after.same_image(&before),
    ensures
        after.device().calls() == before.device().calls(),
        after.devices_behind().len() == before.devices_behind().len(),
        forall|i: int|
            0 <= i < before.devices_behind().len()
                ==> (#[trigger] after.devices_behind()[i]).calls() == before.devices_behind()[i].calls(),
{
}

/// A byte of the device that no call of an operation writes over is what it was, on every
/// device, whether the operation succeeds or fails; and the devices behind are as they
/// were.
pub proof fn bytes_change_only_where_asked<D: BlockDevice>(
    before: Qcow2Reader<D>,
    after: Qcow2Reader<D>,
    i: int,
)
    requires
        after.same_but_tables(&before),
        0 <= i < before@.bytes.len(),
        forall|j: int|
            before.device().calls().len() <= j < after.device().calls().len() ==> !#[trigger] writes_over(
                after.device().calls()[j],
                i,
            ),
    ensures
        after@.bytes[i] == before@.bytes[i],
        after.devices_behind() == before.devices_behind(),
{
    reveal(crate::device::changed_by);
}

/// What has been written is read back.
pub proof fn written_is_read_back(a: Image, b: Image, v: int, data: Seq<u8>)
    requires
        written(a, b, v, data),
    ensures
        reads_back(a, b, v, data),
{
}

/// A write inside one cluster that succeeds is read back, on every device; it may fail
/// or tear what it likes of the counts that are given up.
pub proof fn one_cluster_is_read_back(
    a: Image,
    v: int,
    data: Seq<u8>,
    log: Seq<Call>,
    b: Image,
    after: Seq<Call>,
    sure: bool,
)
    requires
        sound(a),
        a.consistent(),
        0 <= v,
        v + data.len() <= a.header.virtual_size,
        in_one(a, v, data.len() as int),
        chunks_written(a, v, data, log, b, after, sure),
        b.bytes.len() <= ADDRESSABLE,
    ensures
        reads_back(a, b, v, data),
{
    lemma_cluster_size(a.header.cluster_bits);
    lemma_one_chunk(a, v, data, log, b, after, sure);
    lemma_reads_back(a, v, data, log, b, after, sure);
}

/// A write that succeeds, of which the device served every call, leaves a consistent
/// image that holds what was written, and elsewhere what it held.
pub proof fn served_write_is_written(
    a: Image,
    v: int,
    data: Seq<u8>,
    log: Seq<Call>,
    b: Image,
    after: Seq<Call>,
    sure: bool,
)
    requires
        sound(a),
        a.consistent(),
        0 <= v,
        v + data.len() <= a.header.virtual_size,
        chunks_written(a, v, data, log, b, after, sure),
        sure || all_served(log, after),
        b.bytes.len() <= ADDRESSABLE,
    ensures
        written(a, b, v, data),
{
    lemma_chunks_outcome(a, v, data, log, b, after, sure);
}

/// On a device that serves what it can, no write leaks a cluster: every cluster is
/// counted as often beyond the references that the image has to it as before. So if the
/// counts were those of the references, they are. What is left out is a compressed
/// cluster that lies in more than one host cluster: only the first one loses a count.
pub proof fn counts_go_with_references(
    a: Image,
    v: int,
    data: Seq<u8>,
    log: Seq<Call>,
    b: Image,
    after: Seq<Call>,
    k: int,
)
    requires
        sound(a),
        a.consistent(),
        a.counted(),
        0 <= v,
        v + data.len() <= a.header.virtual_size,
        chunks_written(a, v, data, log, b, after, true),
        b.bytes.len() <= ADDRESSABLE,
        forall|w: int| v <= w < v + data.len() ==> #[trigger] in_one_cluster(a, w),
        0 <= k,
    ensures
        b.surplus(k) == a.surplus(k),
        a.surplus(k) == 0 ==> b.refcount(k) == b.refs(k) + (if b.is_meta(k) {
            1int
        } else {
            0
        }),
{
    lemma_chunks_outcome(a, v, data, log, b, after, true);
    assert(b.surplus(k) == a.surplus(k));
    assert(b.surplus(k) == b.refcount(k) - b.refs(k) - (if b.is_meta(k) {
        1int
    } else {
        0
    }));
}

/// When a cluster that is shared is written, on a device that serves what it can, it
/// loses one count, the cluster that takes its place is counted once and was not
/// counted before, and every other cluster that was counted is counted as it was. That
/// is where the L2 table is not shared; one that is gives up a count as well, as
/// [`counts_given_up`](counts_given_up) says.
pub proof fn copy_on_write_moves_one_count(
    a: Image,
    v: int,
    data: Seq<u8>,
    log: Seq<Call>,
    b: Image,
    after: Seq<Call>,
    host_off: u64,
) -> (k: int)
    requires
        sound(a),
        a.consistent(),
        a.counted(),
        0 <= v,
        v + data.len() <= a.header.virtual_size,
        in_one(a, v, data.len() as int),
        chunks_written(a, v, data, log, b, after, true),
        b.bytes.len() <= ADDRESSABLE,
        a.cluster_map(v) matches Ok(ClusterMap::Plain { host_off: h, .. }) && h == host_off,
        !goes_in_place(a, v),
        !table_is_shared(a, a.l1_index(v)),
    ensures
        b.cluster_map(v) == Ok::<ClusterMap, Fault>(
            ClusterMap::Plain { host_off: (k * a.cs()) as u64, copied: true },
        ),
        a.refcount(k) == 0,
        b.refcount(k) == 1,
        b.refcount(host_off as int / a.cs()) == a.refcount(host_off as int / a.cs()) - 1,
        forall|kk: int|
            0 <= kk && a.refcount(kk) != 0 && kk != host_off as int / a.cs()
                ==> #[trigger] b.refcount(kk) == a.refcount(kk),
{
    lemma_cluster_size(a.header.cluster_bits);
    lemma_one_chunk(a, v, data, log, b, after, true);
    let x = lemma_chunk_outcome(a, v, data, log, b, after, true);
    let map = a.cluster_map(v)->Ok_0;
    let t = host_off as int / a.cs();
    lemma_map_covers(a, v, map, t);
    assert(t >= 0) by (nonlinear_arith)
        requires
            t == host_off as int / a.cs(),
            host_off >= 0,
            a.cs() > 0,
    ;
    lemma_one_reference(a, a.l1_index(v), a.l2_index(v) + 1, t);
    assert(a.refs(t) <= a.refcount(t));
    lemma_new_cluster(a, v, data, log, b, after)
}

/// When a cluster is replaced, in a table that is the image's own and with a count that
/// is in a block that is there, the device is asked, on one that serves what it can, for
/// four writes with a flush after each: the count of the new cluster, the cluster, the
/// L2 table, and the count of the old cluster.
pub proof fn calls_come_in_order(
    a: Image,
    v: int,
    data: Seq<u8>,
    log: Seq<Call>,
    b: Image,
    after: Seq<Call>,
    k: int,
    host_off: u64,
) -> (c: Image)
    requires
        sound(a),
        a.consistent(),
        a.counted(),
        0 <= v,
        v + data.len() <= a.header.virtual_size,
        in_one(a, v, data.len() as int),
        chunks_written(a, v, data, log, b, after, true),
        b.bytes.len() <= ADDRESSABLE,
        a.cluster_map(v) matches Ok(m) && (plan_for(a, m) matches Ok(
            WritePlan::Reallocate { release, .. },
        ) && release == Some(host_off)),
        a.first_free(k),
        a.l1[a.l1_index(v)] & L2_FLAG_COPIED != 0,
    ensures
        c.l2_entry(a.l1_index(v), a.l2_index(v)) == fresh_entry((k * a.cs()) as u64),
        ({
            let table = a.l2_table(a.l1_index(v));
            let t = host_off as int / a.cs();
            after == settled(
                settled(
                    settled(
                        settled(log, a.rt_entry(k / a.epb()), a.block_with_count(k, 1)),
                        k * a.cs(),
                        overwrite(cluster_seen(a, v), v % a.cs(), data),
                    ),
                    table,
                    c.bytes.subrange(table, table + a.cs()),
                ),
                c.rt_entry(t / a.epb()),
                c.block_with_count(t, (c.refcount(t) - 1) as u16),
            )
        }),
{
    lemma_cluster_size(a.header.cluster_bits);
    lemma_one_chunk(a, v, data, log, b, after, true);
    lemma_calls_in_order(a, v, data, log, b, after, k, host_off)
}

/// An allocation, whether it succeeds or is cut short, leaves the first cluster alone,
/// where the header is, and never hands it out; if the refcount table and its blocks lie
/// past it.
pub proof fn allocation_spares_the_header(a: Image, b: Image, k: int)
    requires
        a.header.geometry_ok(),
        a.counts_past_header(),
        b == (Image { bytes: b.bytes, ..a }),
        a.allocates(k, b.bytes) || a.allocation_cut_short(b.bytes),
    ensures
        a.allocates(k, b.bytes) ==> 0 < k,
        first_cluster_kept(a, b),
{
    lemma_refcount_geometry(a.header);
    if exists|s: int|
        0 < s && #[trigger] a.first_empty(s) && (b.bytes == a.with_block(s) || b.bytes == a.grown(
            s,
        )) {
        let s = choose|s: int|
            0 < s && #[trigger] a.first_empty(s) && (b.bytes == a.with_block(s) || b.bytes
                == a.grown(s));
        assert(a.new_block_off(s) >= a.cs()) by (nonlinear_arith)
            requires
                a.new_block_off(s) == s * a.epb() * a.cs(),
                s >= 1,
                a.epb() >= 1,
                a.cs() > 0,
        ;
    }
    assert forall|j: int| 0 < j && #[trigger] a.first_free(j) implies a.cs() <= a.rt_entry(
        j / a.epb(),
    ) by {
        lemma_place(a, j);
        assert(a.is_free(j));
        assert(a.rt_entry(j / a.epb()) != 0);
    }
    assert forall|s: int| 0 < s && #[trigger] a.first_empty(s) implies s * a.epb() + 1 > 0 by {
        assert(s * a.epb() >= 0) by (nonlinear_arith)
            requires
                s > 0,
                a.epb() >= 0,
        ;
    }
}

/// A read after a write gives the written bytes where they were written, and what a
/// read before the write gave everywhere else.
pub proof fn write_then_read(
    a: Image,
    b: Image,
    at: int,
    data: Seq<u8>,
    v: int,
    before: Seq<u8>,
    after: Seq<u8>,
)
    requires
        reads_back(a, b, at, data),
        0 <= v,
        before.len() == after.len(),
        a.holds(v, before),
        b.holds(v, after),
    ensures
        forall|i: int|
            0 <= i < after.len() ==> #[trigger] after[i] == (if at <= v + i < at + data.len() {
                data[v + i - at]
            } else {
                before[i]
            }),
{
    assert forall|i: int| 0 <= i < after.len() implies #[trigger] after[i] == (if at <= v + i < at
        + data.len() {
        data[v + i - at]
    } else {
        before[i]
    }) by {
        assert(b.guest_byte(v + i) == Ok::<u8, Fault>(after[i]));
        assert(a.guest_byte(v + i) == Ok::<u8, Fault>(before[i]));
        if at <= v + i < at + data.len() {
            assert(b.guest_byte(at + (v + i - at)) == Ok::<u8, Fault>(data[v + i - at]));
        }
    }
}

/// What has been written can be read: every byte that could be read before a write
/// can be read after it, and so can every byte that was written.
pub proof fn write_keeps_readable(a: Image, b: Image, at: int, data: Seq<u8>, lo: int, hi: int)
    requires
        reads_back(a, b, at, data),
        0 <= lo,
        a.readable(lo, hi),
    ensures
        b.readable(lo, hi),
        b.readable(at, at + data.len()),
{
    assert forall|v: int| lo <= v < hi implies #[trigger] b.guest_byte(v) is Ok by {
        assert(a.guest_byte(v) is Ok);
        if at <= v < at + data.len() {
            assert(b.guest_byte(at + (v - at)) == Ok::<u8, Fault>(data[v - at]));
        }
    }
    assert forall|v: int| at <= v < at + data.len() implies #[trigger] b.guest_byte(v) is Ok by {
        assert(b.guest_byte(at + (v - at)) == Ok::<u8, Fault>(data[v - at]));
    }
}

/// Of two writes, one after the other, the later one is seen where both wrote, the
/// earlier one where only it wrote, and neither anywhere else.
pub proof fn last_write_wins(
    a: Image,
    b: Image,
    c: Image,
    v1: int,
    d1: Seq<u8>,
    v2: int,
    d2: Seq<u8>,
    v: int,
)
    requires
        reads_back(a, b, v1, d1),
        reads_back(b, c, v2, d2),
        0 <= v1,
        0 <= v2,
        0 <= v,
        a.guest_byte(v) is Ok,
    ensures
        c.guest_byte(v) == (if v2 <= v < v2 + d2.len() {
            Ok::<u8, Fault>(d2[v - v2])
        } else if v1 <= v < v1 + d1.len() {
            Ok::<u8, Fault>(d1[v - v1])
        } else {
            a.guest_byte(v)
        }),
{
    if v1 <= v < v1 + d1.len() {
        assert(b.guest_byte(v1 + (v - v1)) == Ok::<u8, Fault>(d1[v - v1]));
    }
    if v2 <= v < v2 + d2.len() {
        assert(c.guest_byte(v2 + (v - v2)) == Ok::<u8, Fault>(d2[v - v2]));
    }
}

/// The bytes that a header is read from lie in the first cluster, so where that
/// cluster is kept, the same header is read.
proof fn lemma_same_head(a: Image, b: Image)
    requires
        sound(a),
        a.header.virtual_size > 0,
        a.consistent(),
        b.header == a.header,
        a.bytes.len() <= b.bytes.len(),
        cluster_kept(a, b, 0),
    ensures
        whole_head(b.bytes) == whole_head(a.bytes),
        a.bytes.len() >= HEAD_BYTES,
{
    lemma_cluster_size(a.header.cluster_bits);
    lemma_l1_reaches(a.header, 0);
    assert(a.l1.len() > 0);
    assert forall|d: int| 0 <= d < HEAD_BYTES implies #[trigger] b.bytes[d] == a.bytes[d] by {
        assert(b.bytes[0 * a.cs() + d] == a.bytes[0 * a.cs() + d]);
    }
    assert(whole_head(b.bytes) =~= whole_head(a.bytes));
}

/// The image that is found on a device that holds `s`, with `backing` behind it.
pub open spec fn found_on(s: Seq<u8>, backing: Option<Box<Image>>) -> Image {
    Image { backing, ..lone_image(s, whole_head(s)) }
}

/// What has been written is there when the device is opened again: if `a` is what
/// opening its device gives, and `b` is `a` after a write, then `b` is what opening
/// its device gives.
pub proof fn write_persists(a: Image, b: Image, v: int, data: Seq<u8>, writable: bool)
    requires
        sound(a),
        a.consistent(),
        a.header.virtual_size > 0,
        a == found_on(a.bytes, a.backing),
        open_refusal(whole_head(a.bytes), a.bytes.len() as int, writable) is None,
        reads_back(a, b, v, data),
    ensures
        open_refusal(whole_head(b.bytes), b.bytes.len() as int, writable) is None,
        b == found_on(b.bytes, a.backing),
{
    lemma_same_head(a, b);
    assert(b.l1 =~= l1_table(b.bytes, b.header)) by {
        assert forall|i: int| 0 <= i < b.l1.len() implies b.l1[i] == #[trigger] l1_table(
            b.bytes,
            b.header,
        )[i] by {
            assert(be64(b.bytes, b.header.l1_table_offset + 8 * i) == b.l1[i]);
        }
    }
}

/// A write that fails, or that is cut off when it has come as far as `b`, corrupts
/// nothing: the device can be opened again, what is found there is consistent, and
/// every byte outside the range that was being written is what it was.
pub proof fn failure_corrupts_nothing(a: Image, b: Image, lo: int, hi: int, writable: bool)
    requires
        sound(a),
        a.consistent(),
        a.header.virtual_size > 0,
        a == found_on(a.bytes, a.backing),
        open_refusal(whole_head(a.bytes), a.bytes.len() as int, writable) is None,
        b == (Image { bytes: b.bytes, l1: b.l1, ..a }),
        b.l1.len() == a.l1.len(),
        unharmed(a, Set::empty(), b, lo, hi),
    ensures
        open_refusal(whole_head(b.bytes), b.bytes.len() as int, writable) is None,
        found_on(b.bytes, a.backing).consistent(),
        keeps(a, found_on(b.bytes, a.backing), lo, hi),
{
    lemma_same_head(a, b);
    let c = found_on(b.bytes, a.backing);
    assert(c.l1 =~= reopened(b).l1);
    assert(c == reopened(b));
}

/// `s` is an internal snapshot of the image `a`: it lies on the same device, and
/// every cluster that its tables refer to is counted for it besides what the tables
/// of `a` account for.
pub open spec fn is_snapshot(a: Image, s: Image) -> bool {
    &&& s.header == a.header
    &&& s.bytes == a.bytes
    &&& s.tables_placed()
    &&& forall|i: int, j: int, k: int|
        0 <= i < s.l1.len() && 0 <= j <= l2_len(s.header) && #[trigger] s.refers(i, j, k)
            ==> held_elsewhere(a, Set::empty(), k)
}

/// A byte of a cluster that is kept is kept.
proof fn lemma_byte_kept(a: Image, b: Image, p: int)
    requires
        a.header.geometry_ok(),
        0 <= p < a.bytes.len(),
        cluster_kept(a, b, p / a.cs()),
    ensures
        b.bytes[p] == a.bytes[p],
{
    lemma_cluster_size(a.header.cluster_bits);
    let cs = a.cs();
    vstd::arithmetic::div_mod::lemma_fundamental_div_mod(p, cs);
    let k = p / cs;
    let d = p % cs;
    assert(cs * k == k * cs) by (nonlinear_arith);
    assert(b.bytes[k * cs + d] == a.bytes[k * cs + d]);
}

/// An entry of a table that is kept is kept.
proof fn lemma_table_kept(a: Image, b: Image, t: int, j: int)
    requires
        a.header.geometry_ok(),
        0 < t,
        t % a.cs() == 0,
        t + a.cs() <= a.bytes.len(),
        0 <= j < l2_len(a.header),
        cluster_kept(a, b, t / a.cs()),
    ensures
        be64(b.bytes, t + 8 * j) == be64(a.bytes, t + 8 * j),
{
    lemma_cluster_size(a.header.cluster_bits);
    let cs = a.cs();
    assert forall|d: int| 0 <= d < 8 implies #[trigger] b.bytes[t + 8 * j + d] == a.bytes[t + 8 * j
        + d] by {
        lemma_same_cluster(cs, t, 8 * j + d);
        lemma_byte_kept(a, b, t + 8 * j + d);
    }
    let p = t + 8 * j;
    assert(b.bytes[p + 0] == a.bytes[p + 0] && b.bytes[p + 1] == a.bytes[p + 1] && b.bytes[p + 2]
        == a.bytes[p + 2] && b.bytes[p + 3] == a.bytes[p + 3]);
    assert(b.bytes[p + 4] == a.bytes[p + 4] && b.bytes[p + 5] == a.bytes[p + 5] && b.bytes[p + 6]
        == a.bytes[p + 6] && b.bytes[p + 7] == a.bytes[p + 7]);
}

/// A write leaves an internal snapshot holding what it held, and it is a snapshot
/// still.
pub proof fn write_leaves_snapshot(a: Image, b: Image, at: int, data: Seq<u8>, s: Image)
    requires
        sound(a),
        written(a, b, at, data),
        is_snapshot(a, s),
    ensures
        keeps(s, Image { bytes: b.bytes, ..s }, 0, 0),
        is_snapshot(b, Image { bytes: b.bytes, ..s }),
{
    let t = Image { bytes: b.bytes, ..s };
    lemma_snapshot_untouched(a, b, s);
    assert forall|i: int, j: int, k: int|
        0 <= i < t.l1.len() && 0 <= j <= l2_len(t.header) && #[trigger] t.refers(
            i,
            j,
            k,
        ) implies held_elsewhere(b, Set::empty(), k) by {
        assert(s.refers(i, j, k));
        assert(held_elsewhere(a, Set::empty(), k));
    }
    assert forall|i: int| 0 <= i < t.l1.len() && #[trigger] t.l2_table(i) != 0 implies t.l2_table(i)
        % t.cs() == 0 && t.l2_table(i) + t.cs() <= t.bytes.len() by {
        assert(s.l2_table(i) != 0);
    }
}

/// A write that fails leaves an internal snapshot holding what it held.
pub proof fn failure_leaves_snapshot(a: Image, b: Image, lo: int, hi: int, s: Image)
    requires
        sound(a),
        unharmed(a, Set::empty(), b, lo, hi),
        is_snapshot(a, s),
    ensures
        keeps(s, Image { bytes: b.bytes, ..s }, 0, 0),
{
    lemma_snapshot_untouched(a, b, s);
}

/// Where what is held elsewhere is kept, a snapshot finds what it found.
proof fn lemma_snapshot_untouched(a: Image, b: Image, s: Image)
    requires
        sound(a),
        untouched(a, Set::empty(), b),
        is_snapshot(a, s),
    ensures
        keeps(s, Image { bytes: b.bytes, ..s }, 0, 0),
        forall|i: int, j: int, k: int|
            0 <= i < s.l1.len() && 0 <= j <= l2_len(s.header) ==> #[trigger] (Image {
                bytes: b.bytes,
                ..s
            }).refers(i, j, k) == s.refers(i, j, k),
{
    lemma_cluster_size(a.header.cluster_bits);
    let t = Image { bytes: b.bytes, ..s };
    let cs = a.cs();
    assert forall|i: int, j: int|
        0 <= i < s.l1.len() && 0 <= j < l2_len(s.header) && s.l2_table(i)
            != 0 implies #[trigger] t.l2_entry(i, j) == s.l2_entry(i, j) by {
        let at = s.l2_table(i);
        assert(s.refers(i, 0, at / cs));
        lemma_table_kept(a, b, at, j);
    }
    assert forall|i: int, j: int, k: int|
        0 <= i < s.l1.len() && 0 <= j <= l2_len(s.header) implies #[trigger] t.refers(i, j, k)
        == s.refers(i, j, k) by {
        if j > 0 && s.l2_table(i) != 0 {
            assert(t.l2_entry(i, j - 1) == s.l2_entry(i, j - 1));
        }
    }
    assert forall|v: int| 0 <= v && s.guest_byte(v) is Ok implies #[trigger] t.guest_byte(v)
        == s.guest_byte(v) by {
        lemma_indexes(s, v);
        let i = s.l1_index(v);
        let j = s.l2_index(v);
        if s.l2_table(i) != 0 {
            assert(t.l2_entry(i, j) == s.l2_entry(i, j));
            lemma_data_kept(a, b, s, i, j, v);
        }
    }
}

/// The bytes that an entry of a snapshot's table stands for are kept.
proof fn lemma_data_kept(a: Image, b: Image, s: Image, i: int, j: int, v: int)
    requires
        sound(a),
        untouched(a, Set::empty(), b),
        is_snapshot(a, s),
        0 <= i < s.l1.len(),
        0 <= j < l2_len(s.header),
        s.l2_table(i) != 0,
        0 <= v,
    ensures
        match map_of_entry(s.header, s.l2_entry(i, j)) {
            Some(ClusterMap::Plain { host_off, .. }) => host_off + v % a.cs() < a.bytes.len()
                ==> b.bytes[host_off + v % a.cs()] == a.bytes[host_off + v % a.cs()],
            Some(ClusterMap::Compressed { host_off, byte_len }) => host_off + byte_len
                <= a.bytes.len() ==> b.bytes.subrange(host_off as int, host_off + byte_len)
                == a.bytes.subrange(host_off as int, host_off + byte_len),
            _ => true,
        },
{
    lemma_cluster_size(a.header.cluster_bits);
    let cs = a.cs();
    let e = s.l2_entry(i, j);
    lemma_map_bounded(s.header, e);
    match map_of_entry(s.header, e) {
        Some(ClusterMap::Plain { host_off, copied }) => {
            let d = v % cs;
            assert(0 <= d < cs) by (nonlinear_arith)
                requires
                    d == v % cs,
                    cs > 0,
            ;
            if host_off + d < a.bytes.len() {
                lemma_same_cluster(cs, host_off as int, d);
                assert(s.refers(i, j + 1, host_off as int / cs));
                lemma_byte_kept(a, b, host_off + d);
            }
        },
        Some(ClusterMap::Compressed { host_off, byte_len }) => {
            if host_off + byte_len <= a.bytes.len() {
                let lo = host_off as int;
                let hi = host_off + byte_len;
                assert forall|p: int| lo <= p < hi implies #[trigger] b.bytes[p] == a.bytes[p] by {
                    vstd::arithmetic::div_mod::lemma_div_is_ordered(lo, p, cs);
                    vstd::arithmetic::div_mod::lemma_div_is_ordered(p, hi - 1, cs);
                    assert(s.refers(i, j + 1, p / cs));
                    lemma_byte_kept(a, b, p);
                }
                assert(b.bytes.subrange(lo, hi) =~= a.bytes.subrange(lo, hi));
            }
        },
        _ => {},
    }
}

/// The runs of clusters that cover the virtual disk follow each other: run `i` starts
/// no earlier than `from` and ends no later than run `j`, which follows it, starts.
proof fn lemma_runs_ordered(img: Image, from: int, xs: Seq<Extent>, i: int, j: int)
    requires
        img.tiled_by(from, xs),
        0 <= i <= j < xs.len(),
    ensures
        from <= xs[i].virt_offset,
        0 < xs[i].length,
        i < j ==> xs[i].virt_offset + xs[i].length <= xs[j].virt_offset,
        xs[j].virt_offset + xs[j].length <= img.header.virtual_size,
    decreases j,
{
    assert(img.run_in_place(from, xs, i));
    assert(img.run_in_place(from, xs, j));
    if i < j {
        lemma_runs_ordered(img, from, xs, i, j - 1);
    } else if i > 0 {
        lemma_runs_ordered(img, from, xs, i - 1, j - 1);
        assert(img.run_in_place(from, xs, j - 1));
    }
}

/// The run that byte `v` lies in, among the first `n`.
pub(crate) proof fn lemma_run_of(img: Image, from: int, xs: Seq<Extent>, n: int, v: int) -> (i: int)
    requires
        img.tiled_by(from, xs),
        0 < n <= xs.len(),
        from <= v < xs[n - 1].virt_offset + xs[n - 1].length,
    ensures
        0 <= i < n,
        xs[i].virt_offset <= v < xs[i].virt_offset + xs[i].length,
    decreases n,
{
    assert(img.run_in_place(from, xs, n - 1));
    if xs[n - 1].virt_offset <= v {
        n - 1
    } else {
        assert(n > 1);
        lemma_run_of(img, from, xs, n - 1, v)
    }
}

/// The status changes from run `i` to the next one.
pub open spec fn status_changes(xs: Seq<Extent>, i: int) -> bool {
    xs[i].status != xs[i + 1].status
}

/// The runs of clusters tile the virtual disk: every byte lies in exactly one of
/// them, which tells its status; and runs that touch differ in status.
pub proof fn extents_tile_the_disk(img: Image, xs: Seq<Extent>, v: int)
    requires
        img.tiled_by(0, xs),
        0 <= v < img.header.virtual_size,
    ensures
        exists|i: int|
            0 <= i < xs.len() && (#[trigger] xs[i]).virt_offset <= v < xs[i].virt_offset
                + xs[i].length && img.status_at(v) == Ok::<ClusterStatus, Fault>(
                xs[i].status,
            ),
        forall|i: int, j: int|
            0 <= i < xs.len() && 0 <= j < xs.len() && (#[trigger] xs[i]).virt_offset <= v
                < xs[i].virt_offset + xs[i].length && (#[trigger] xs[j]).virt_offset <= v
                < xs[j].virt_offset + xs[j].length ==> i == j,
        forall|i: int|
            0 <= i && i + 1 < xs.len() ==> #[trigger] status_changes(xs, i),
{
    let i = lemma_run_of(img, 0, xs, xs.len() as int, v);
    assert(img.run_in_place(0, xs, i));
    assert(img.status_at(v) == Ok::<ClusterStatus, Fault>(xs[i].status));
    assert forall|i: int, j: int|
        0 <= i < xs.len() && 0 <= j < xs.len() && (#[trigger] xs[i]).virt_offset <= v
            < xs[i].virt_offset + xs[i].length && (#[trigger] xs[j]).virt_offset <= v
            < xs[j].virt_offset + xs[j].length implies i == j by {
        lemma_one_run(img, xs, i, j, v);
    }
    assert forall|i: int| 0 <= i && i + 1 < xs.len() implies #[trigger] status_changes(xs, i) by {
        lemma_runs_differ(img, xs, i);
    }
}

/// A byte lies in one run only.
proof fn lemma_one_run(img: Image, xs: Seq<Extent>, i: int, j: int, v: int)
    requires
        img.tiled_by(0, xs),
        0 <= i < xs.len(),
        0 <= j < xs.len(),
        xs[i].virt_offset <= v < xs[i].virt_offset + xs[i].length,
        xs[j].virt_offset <= v < xs[j].virt_offset + xs[j].length,
    ensures
        i == j,
{
    if i < j {
        lemma_runs_ordered(img, 0, xs, i, j);
    } else if j < i {
        lemma_runs_ordered(img, 0, xs, j, i);
    }
}

/// A run and the one after it differ in status.
proof fn lemma_runs_differ(img: Image, xs: Seq<Extent>, i: int)
    requires
        img.tiled_by(0, xs),
        0 <= i,
        i + 1 < xs.len(),
    ensures
        xs[i].status != xs[i + 1].status,
{
    assert(img.run_in_place(0, xs, i));
    assert(img.run_in_place(0, xs, i + 1));
    let end = xs[i].virt_offset + xs[i].length;
    assert(img.status_at(end) == Ok::<ClusterStatus, Fault>(xs[i + 1].status));
}

/// The parts of an address put together give the byte that they address.
pub proof fn address_round_trip(h: Header, v: u64)
    requires
        h.geometry_ok(),
        v < h.virtual_size,
    ensures
        ({
            let a = address_of(h, v);
            &&& a.l1_index < h.l1_size
            &&& a.l2_index < l2_len(h)
            &&& a.offset_in_cluster < h.cluster_size
            &&& a.virt_cluster == a.l1_index * l2_len(h) + a.l2_index
            &&& v == a.virt_cluster * h.cluster_size + a.offset_in_cluster
        }),
{
    lemma_cluster_size(h.cluster_bits);
    lemma_l1_reaches(h, v as int);
    let cs = h.cluster_size as int;
    let n = l2_len(h);
    let q = v as int / cs;
    vstd::arithmetic::div_mod::lemma_fundamental_div_mod(v as int, cs);
    vstd::arithmetic::div_mod::lemma_fundamental_div_mod(q, n);
    assert(cs * q == q * cs) by (nonlinear_arith);
    assert(n * (q / n) == q / n * n) by (nonlinear_arith);
}

/// An L2 entry made for a cluster that has just been allocated points at it, and says
/// that it is neither compressed, nor zero, nor shared.
pub proof fn new_entry_points_at_its_cluster(h: Header, host_off: u64)
    requires
        h.geometry_ok(),
        0 < host_off < ADDRESSABLE,
        host_off % h.cluster_size == 0,
    ensures
        map_of_entry(h, fresh_entry(host_off)) == Some(
            ClusterMap::Plain { host_off, copied: true },
        ),
{
    lemma_cluster_size(h.cluster_bits);
    let cs = h.cluster_size;
    assert(host_off % 512 == 0) by {
        let m = cs as int / 512;
        let q = host_off as int / cs as int;
        vstd::arithmetic::div_mod::lemma_fundamental_div_mod(host_off as int, cs as int);
        assert(host_off == 512 * (m * q)) by (nonlinear_arith)
            requires
                host_off == cs * q,
                cs == 512 * m,
        ;
    }
    let e = fresh_entry(host_off);
    assert(e & OFFSET_MASK == host_off && e & L2_FLAG_COMPRESSED == 0
        && e & L2_FLAG_ZERO == 0 && e & L2_FLAG_COPIED != 0)
        by (bit_vector)
        requires
            e == (host_off & OFFSET_MASK) | L2_FLAG_COPIED,
            host_off % 512 == 0,
            host_off < 0x100_0000_0000_0000,
    ;
}

/// The L2 entry of a compressed cluster that starts at `start` and reaches into
/// `extra` sectors after its first one.
pub open spec fn compressed_entry(start: u64, extra: u64, cluster_bits: u32) -> u64 {
    (extra << ((70 - cluster_bits) as u32)) | start | L2_FLAG_COMPRESSED
}

/// A compressed descriptor is read as it was written: the start is the start, and
/// the span runs from there to the end of the last sector, so it covers every payload
/// that ends in that sector.
pub proof fn compressed_descriptor_round_trip(
    start: u64,
    extra: u64,
    cluster_bits: u32,
    payload: int,
)
    requires
        9 <= cluster_bits <= 21,
        start < 1u64 << ((70 - cluster_bits) as u32),
        extra < 1u64 << ((cluster_bits - 8) as u32),
        0 < payload,
        (start + payload - 1) / 512 == start as int / 512 + extra,
    ensures
        ({
            let e = compressed_entry(start, extra, cluster_bits);
            &&& e & L2_FLAG_COMPRESSED != 0
            &&& compressed_start(e, cluster_bits) == start
            &&& compressed_extra_sectors(e, cluster_bits) == extra
            &&& payload <= compressed_span(e, cluster_bits) < payload + 512
        }),
{
    let ob: u32 = (70 - cluster_bits) as u32;
    let eb: u32 = (cluster_bits - 8) as u32;
    let unit: u64 = 1u64 << ob;
    let e = compressed_entry(start, extra, cluster_bits);
    let d = e & DESCRIPTOR_MASK;
    assert(e & L2_FLAG_COMPRESSED != 0 && d == (extra << ob) + start && (extra << ob)
        >> ob == extra && (extra << ob) <= 0x3fff_ffff_ffff_ffff && unit > 0) by (bit_vector)
        requires
            49 <= ob <= 61,
            eb == 62 - ob,
            unit == 1u64 << ob,
            start < 1u64 << ob,
            extra < 1u64 << eb,
            e == (extra << ob) | start | L2_FLAG_COMPRESSED,
            d == e & DESCRIPTOR_MASK,
    ;
    assert(extra <= u64::MAX >> (ob as u64) && 1u64 <= u64::MAX >> (ob as u64)) by (bit_vector)
        requires
            49 <= ob <= 61,
            eb == 62 - ob,
            extra < 1u64 << eb,
    ;
    vstd::bits::lemma_u64_mul_pow2_le_max_iff_max_shr(1, ob as u64, u64::MAX);
    vstd::bits::lemma_u64_mul_pow2_le_max_iff_max_shr(extra, ob as u64, u64::MAX);
    vstd::bits::lemma_u64_shl_is_mul(1, ob as u64);
    vstd::bits::lemma_u64_shl_is_mul(extra, ob as u64);
    vstd::arithmetic::div_mod::lemma_fundamental_div_mod_converse(
        d as int,
        unit as int,
        extra as int,
        start as int,
    );
}

/// An allocation hands out a cluster that nothing used: no table refers to it, it
/// holds no structure of the image (and so is not the header), and its count was
/// zero. Its count is then one, and a reader sees what they saw.
pub proof fn allocation_hands_out_unused(a: Image, b: Image, k: int)
    requires
        sound(a),
        a.consistent(),
        a.counted(),
        a.allocates(k, b.bytes),
        k * a.cs() <= u64::MAX,
        b == (Image { bytes: b.bytes, ..a }),
    ensures
        0 < k,
        a.refs(k) == 0,
        !a.is_meta(k),
        a.refcount(k) == 0,
        b.refcount(k) == 1,
        b.refs(k) == 0,
        b.consistent(),
        keeps(a, b, 0, 0),
{
    let none: Set<int> = Set::empty();
    lemma_allocates(a, b, k, none);
    lemma_fewer_pins(b, none.insert(k), none);
    assert(none.insert(k).contains(k));
    assert(a.is_meta(0));
    assert(a.refcount(0) == 1);
    lemma_refs_nonneg(a, k);
    if a.first_free(k) && b.bytes == a.claimed(k) {
        assert(a.is_free(k));
        assert(a.refs(k) <= a.refcount(k));
    } else {
        let s = choose|s: int|
            0 < s && a.none_free() && #[trigger] a.first_empty(s) && k == s * a.epb() + 1 && b.bytes
                == a.grown(s);
        lemma_new_block_place(a, s, none);
    }
}

/// To give a cluster that has just been allocated back is to undo the allocation, where
/// no refcount block had to be made for it: the device holds what it held. That is so of
/// every image, consistent or not, whose block lies on the device and apart from the
/// table entry that points at it.
pub proof fn release_undoes_allocation(a: Image, b: Image, k: int)
    requires
        sound(a),
        a.counted(),
        a.first_free(k),
        ({
            let s = k / a.epb();
            let at = a.rt_entry(s) + 2 * (k % a.epb());
            &&& a.rt_entry(s) + a.cs() <= a.bytes.len()
            &&& at + 2 <= a.rt_off() + 8 * s || a.rt_off() + 8 * s + 8 <= at
        }),
        b == (Image { bytes: a.claimed(k), ..a }),
    ensures
        b.release(k * a.cs()) matches Ok(w) && overwrite(b.bytes, w.0, w.1) == a.bytes,
{
    lemma_refcount_geometry(a.header);
    lemma_place(a, k);
    let cs = a.cs();
    let s = k / a.epb();
    let e = k % a.epb();
    vstd::arithmetic::div_mod::lemma_fundamental_div_mod_converse(k * cs, cs, k, 0);
    assert(a.is_free(k));
    let at = a.rt_entry(s) + 2 * e;
    let x = a.rt_off() + 8 * s;
    assert(0 <= s < a.rt_len());
    assert(x + 8 <= a.bytes.len());
    assert forall|d: int| 0 <= d < 8 implies #[trigger] b.bytes[x + d] == a.bytes[x + d] by {}
    lemma_be64_same(b.bytes, a.bytes, x);
    assert(b.rt_entry(s) == a.rt_entry(s));
    lemma_be16_round_trip(b.bytes, at, 1);
    assert(be16(a.bytes, at) == 0);
    assert(a.bytes[at] == 0 && a.bytes[at + 1] == 0);
    let w = b.release(k * cs)->Ok_0;
    assert(w.1 =~= seq![0u8, 0u8]);
    assert(overwrite(b.bytes, w.0, w.1) =~= a.bytes);
}

/// A number that is written in decimal is read back.
pub proof fn decimal_is_read_back(n: u64)
    ensures
        parsed(number_text(n as int, 10)) == Ok::<int, NumberError>(n as int),
{
    let t = number_text(n as int, 10);
    lemma_digits_are_ascii(n as int, 10);
    is_ascii_chars_encode_utf8(t);
    let b = encode_utf8(t);
    assert(b.subrange(0, b.len() as int) =~= b);
    lemma_digits_spelled(b, n as int, 10, b.len() as int);
    assert(digit_value(b[0], 10) is Some);
    assert(!has_hex_prefix(b)) by {
        if b.len() >= 2 {
            assert(digit_value(b[1], 10) is Some);
        }
    }
}

/// A number that is written in hexadecimal, after `0x` or `0X` and with its letters in
/// either case, is read back.
pub proof fn hexadecimal_is_read_back(n: u64, text: Seq<char>)
    requires
        is_ascii_chars(text),
        text.len() >= 2,
        text[0] == '0',
        text[1] == 'x' || text[1] == 'X',
        spells(encode_utf8(text.subrange(2, text.len() as int)), number_text(n as int, 16)),
    ensures
        parsed(text) == Ok::<int, NumberError>(n as int),
{
    let rest = text.subrange(2, text.len() as int);
    is_ascii_chars_encode_utf8(text);
    assert forall|i: int| 0 <= i < rest.len() implies '\0' <= #[trigger] rest[i] <= '\u{7f}' by {
        assert(rest[i] == text[i + 2]);
    }
    is_ascii_chars_encode_utf8(rest);
    let b = encode_utf8(text);
    let d = b.subrange(2, b.len() as int);
    assert forall|i: int| 0 <= i < rest.len() implies d[i] == #[trigger] encode_utf8(rest)[i] by {
        assert(rest[i] == text[i + 2]);
        assert(b[i + 2] == text[i + 2] as u8);
    }
    assert(d =~= encode_utf8(rest));
    assert(d.subrange(0, d.len() as int) =~= d);
    assert(b[0] == text[0] as u8 && b[1] == text[1] as u8);
    lemma_digits_spelled(d, n as int, 16, d.len() as int);
    assert(digit_value(d[0], 16) is Some);
}

/// What is no number is refused: nothing at all, a prefix with nothing behind it, a
/// byte that is no digit, and a number that is too large.
pub proof fn no_number_is_refused(text: Seq<char>, n: int, i: int)
    ensures
        text.len() == 0 ==> parsed(text) is Err,
        text =~= seq!['0', 'x'] || text =~= seq!['0', 'X'] ==> parsed(text) is Err,
        0 < i < encode_utf8(text).len() && !has_hex_prefix(encode_utf8(text)) && digit_value(
            encode_utf8(text)[i],
            10,
        ) is None ==> parsed(text) is Err,
        n > u64::MAX ==> parsed(number_text(n, 10)) is Err,
{
    let b = encode_utf8(text);
    if text =~= seq!['0', 'x'] || text =~= seq!['0', 'X'] {
        is_ascii_chars_encode_utf8(text);
        assert(b[0] == text[0] as u8 && b[1] == text[1] as u8);
    }
    if 0 < i < b.len() && !has_hex_prefix(b) && digit_value(b[i], 10) is None {
        let (d, j) = if b[0] == 0x2b {
            (b.subrange(1, b.len() as int), i - 1)
        } else {
            (b, i)
        };
        assert(d[j] == b[i]);
        assert(digits_value(d, 10, j + 1) is Err);
        lemma_digits_stop(d, 10, j + 1, d.len() as int);
    }
    if n > u64::MAX {
        let t = number_text(n, 10);
        lemma_digits_are_ascii(n, 10);
        is_ascii_chars_encode_utf8(t);
        let c = encode_utf8(t);
        assert(c.subrange(0, c.len() as int) =~= c);
        lemma_digits_spelled(c, n, 10, c.len() as int);
        assert(digit_value(c[0], 10) is Some);
        if c.len() >= 2 {
            assert(digit_value(c[1], 10) is Some);
        }
    }
}

/// Digits are ASCII characters.
proof fn lemma_digits_are_ascii(n: int, radix: int)
    requires
        0 <= n,
        radix == 10 || radix == 16,
    ensures
        is_ascii_chars(number_text(n, radix)),
    decreases n,
{
    if n >= radix {
        let q = n / radix;
        let d = n % radix;
        assert(0 <= q < n && 0 <= d < radix) by (nonlinear_arith)
            requires
                q == n / radix,
                d == n % radix,
                n >= radix,
                radix >= 2,
        ;
        lemma_digits_are_ascii(q, radix);
    }
}

/// The status of a cluster tells what is read from it: zeros from one that is marked
/// zero, whatever lies behind the image, and what lies behind it (zeros, where
/// nothing does) from one that is not there.
pub proof fn status_tells_what_is_read(img: Image, v: int)
    requires
        0 <= v,
    ensures
        img.status_at(v) == Ok::<ClusterStatus, Fault>(ClusterStatus::Zero) ==> img.guest_byte(v)
            == Ok::<u8, Fault>(0),
        img.status_at(v) == Ok::<ClusterStatus, Fault>(ClusterStatus::Unallocated)
            ==> img.guest_byte(v) == img.backing_byte(v),
        img.status_at(v) == Ok::<ClusterStatus, Fault>(ClusterStatus::Unallocated) && (
        img.backing is None || v >= img.backing->0.header.virtual_size) ==> img.guest_byte(v)
            == Ok::<u8, Fault>(0),
{
}

/// In a chain of images, a byte comes from the nearest image that has the cluster: if
/// the images before `i` do not have it, and none of those up to `i` has ended, the
/// chain holds what the chain from `i` on holds.
pub proof fn nearest_image_supplies(layers: Seq<Image>, from: int, i: int, v: int)
    requires
        0 <= from <= i < layers.len(),
        0 <= v,
        forall|j: int|
            from <= j < i ==> (#[trigger] layers[j]).cluster_map(v) == Ok::<ClusterMap, Fault>(
                ClusterMap::Unallocated,
            ),
        forall|j: int| from < j <= i ==> v < (#[trigger] layers[j]).header.virtual_size,
    ensures
        chained(layers, from).guest_byte(v) == chained(layers, i).guest_byte(v),
    decreases i - from,
{
    if from < i {
        nearest_image_supplies(layers, from + 1, i, v);
        let front = chained(layers, from);
        let rest = chained(layers, from + 1);
        assert(front.cluster_map(v) == layers[from].cluster_map(v));
        assert(rest.header == layers[from + 1].header);
        assert(front.backing == Some(Box::new(rest)));
    }
}

} // verus!
