//! What comes of a write, by what it asks of the device.

use crate::bytes::{be64, be64_bytes, lemma_found_be64, overwrite, zeros};
use crate::consistency::{
    cluster_kept, held_elsewhere, keeps, lemma_cluster_kept_trans, lemma_fewer_pins,
    lemma_keeps_trans, lemma_same_entries_trans, other_entries_kept, other_refs_kept, same_count,
    same_data_refs, same_entries, sound, step,
};
use crate::consistency::counts::{
    lemma_allocates, lemma_release, lemma_release_possible, lemma_release_writes,
};
use crate::consistency::frame::{
    changed_in, lemma_cluster_kept, lemma_cluster_start, lemma_counted_nonneg, lemma_guest_framed,
    lemma_indexes, lemma_l1_framed, lemma_place, lemma_quiet_change, lemma_refs_framed,
    lemma_rt_framed, lemma_same_index,
};
use crate::consistency::links::{lemma_entry_for, lemma_link_data, lemma_link_table};
use crate::consistency::refs::{lemma_one_reference, lemma_refs_nonneg, lemma_unreferenced};
use crate::device::{all_served, extends, settled, Call};
use crate::entry::{
    fresh_entry, l2_len, lemma_l1_reaches, lemma_map_bounded, map_bounded, ClusterMap,
    L2_FLAG_COPIED, OFFSET_MASK,
};
use crate::header::lemma_cluster_size;
use crate::image::{Fault, Image};
use crate::refcount::lemma_refcount_geometry;
use crate::writer::{goes_in_place, plan_for, ADDRESSABLE, ClusterSeed, WritePlan};
use crate::writer::effects::{
    lemma_chunk_linked, lemma_chunk_released, lemma_count_read, lemma_count_readable, lemma_linked,
    lemma_new_cluster_filled, lemma_nothing_written, lemma_old_table_released, lemma_release_ready,
    lemma_table_filled, lemma_table_installed, lemma_written_in_place, lemma_written_twice, linked,
    reads_back, table_installed, table_matches, table_owned, written,
};
use crate::writer::needs::{lemma_place_kept, needs_no_more};
use crate::writer::order::{
    before_last, chunk_written, chunks_written, cluster_filled, cluster_put, cluster_replaced,
    cluster_seen, entry_put, in_one, table_is_own, table_made_own, table_put,
};
use vstd::prelude::*;

verus! {

/// `y` is the consistent image `x`, but for what its refcount blocks hold.
pub open spec fn blocks_torn(x: Image, y: Image) -> bool {
    &&& sound(y)
    &&& y == (Image { bytes: y.bytes, ..x })
    &&& x.bytes.len() <= y.bytes.len()
    &&& y.tables_placed()
    &&& y.l1_on_device()
    &&& keeps(x, y, 0, 0)
    &&& forall|kk: int| #[trigger] y.refs(kk) == x.refs(kk)
    &&& forall|s: int| 0 <= s < x.rt_len() ==> #[trigger] y.rt_entry(s) == x.rt_entry(s)
    &&& forall|kk: int| 0 <= kk && !x.some_block_in(kk) ==> #[trigger] cluster_kept(x, y, kk)
}

/// `y` is `x`, but for what the refcount block of entry `s` holds.
pub open spec fn block_changed(x: Image, y: Image, s: int) -> bool {
    y == x || (x.block_in(s, x.rt_entry(s) / x.cs()) && changed_in(x, y, x.rt_entry(s) / x.cs()))
}

/// Another change of a block leaves the rest alone too.
proof fn lemma_torn_more(x: Image, y: Image, z: Image, s: int, pins: Set<int>)
    requires
        sound(x),
        x.consistent_with(pins),
        x.counted(),
        blocks_torn(x, y),
        block_changed(y, z, s),
    ensures
        blocks_torn(x, z),
{
    if z != y {
        lemma_refcount_geometry(x.header);
        let kb = y.rt_entry(s) / y.cs();
        assert(y.rt_entry(s) == x.rt_entry(s));
        assert(x.block_in(s, kb));
        assert(x.some_block_in(kb));
        assert(x.is_meta(kb));
        assert(y.refs(kb) == x.refs(kb));
        lemma_unreferenced(y, kb);
        lemma_refs_framed(y, z, kb, -1, -1);
        assert(!x.l1_in(kb));
        assert(!x.rt_in(kb));
        assert(y.l1_in(kb) == x.l1_in(kb));
        assert(y.rt_in(kb) == x.rt_in(kb));
        lemma_l1_framed(y, z, kb);
        lemma_rt_framed(y, z, kb);
        assert forall|v: int| 0 <= v && y.guest_byte(v) is Ok implies #[trigger] z.guest_byte(v)
            == y.guest_byte(v) by {
            lemma_indexes(y, v);
            lemma_guest_framed(y, z, kb, -1, -1, v);
        }
        lemma_keeps_trans(x, y, z, 0, 0);
        assert forall|kk: int| 0 <= kk && !x.some_block_in(kk) implies #[trigger] cluster_kept(
            x,
            z,
            kk,
        ) by {
            lemma_cluster_kept(y, z, kb, kk);
            assert(cluster_kept(x, y, kk));
            lemma_cluster_kept_trans(x, y, z, kk);
        }
        assert forall|t: int| 0 <= t < x.rt_len() implies #[trigger] z.rt_entry(t) == x.rt_entry(
            t,
        ) by {
            assert(y.rt_entry(t) == x.rt_entry(t));
        }
    }
}

/// A consistent image is itself.
proof fn lemma_not_torn(x: Image, pins: Set<int>)
    requires
        sound(x),
        x.consistent_with(pins),
    ensures
        blocks_torn(x, x),
{
}

/// To give up a count, or to fail to, changes one block.
proof fn lemma_given_up_block(
    m: Image,
    host_off: int,
    log: Seq<Call>,
    y: Image,
    after: Seq<Call>,
    sure: bool,
) -> (s: int)
    requires
        sound(m),
        0 <= host_off,
        forall|t: int|
            0 <= t < m.rt_len() && #[trigger] m.rt_entry(t) != 0 ==> m.rt_entry(t) % m.cs() == 0
                && m.rt_entry(t) + m.cs() <= m.bytes.len(),
        m.gives_up(host_off, log, y.bytes, after, sure),
        y == (Image { bytes: y.bytes, ..m }),
    ensures
        block_changed(m, y, s),
{
    reveal(Image::gives_up);
    lemma_refcount_geometry(m.header);
    let k = host_off / m.cs();
    assert(k >= 0) by (nonlinear_arith)
        requires
            k == host_off / m.cs(),
            host_off >= 0,
            m.cs() > 0,
    ;
    lemma_place(m, k);
    let s = k / m.epb();
    if y.bytes != m.bytes {
        let off = m.rt_entry(s);
        lemma_cluster_start(m.cs(), off);
        assert(m.block_in(s, off / m.cs()));
        assert(changed_in(m, y, off / m.cs()));
    } else {
        assert(y == m);
    }
    s
}

/// To give up a count that is there, on a device that serves what it is asked, either
/// changes nothing or takes the count; `sure` says that it does the latter.
proof fn lemma_given_up_whole(
    m: Image,
    host_off: int,
    log: Seq<Call>,
    y: Image,
    after: Seq<Call>,
    sure: bool,
    pins: Set<int>,
)
    requires
        sound(m),
        m.consistent_with(pins),
        m.counted(),
        0 <= host_off <= u64::MAX,
        m.gives_up(host_off, log, y.bytes, after, sure),
        y == (Image { bytes: y.bytes, ..m }),
        sure || all_served(log, after),
        m.refs(host_off / m.cs()) < m.refcount(host_off / m.cs()),
        !m.is_meta(host_off / m.cs()),
        !pins.contains(host_off / m.cs()),
    ensures
        step(m, pins, y, pins, -1),
        forall|kk: int| #[trigger] y.refs(kk) == m.refs(kk),
        forall|kk: int| #[trigger] y.is_meta(kk) == m.is_meta(kk),
        forall|kk: int|
            0 <= kk && kk != host_off / m.cs() ==> #[trigger] y.refcount(kk) == m.refcount(kk),
        m.refcount(host_off / m.cs()) - 1 <= y.refcount(host_off / m.cs()),
        sure ==> forall|kk: int|
            0 <= kk ==> #[trigger] y.surplus(kk) == m.surplus(kk) - (if kk == host_off / m.cs() {
                1int
            } else {
                0
            }),
        sure ==> y.refcount(host_off / m.cs()) == m.refcount(host_off / m.cs()) - 1,
{
    let k = host_off / m.cs();
    lemma_refs_nonneg(m, k);
    lemma_release_possible(m, host_off, pins);
    assert(y.bytes == m.bytes || (m.release(host_off) matches Ok(w) && y.bytes == overwrite(
        m.bytes,
        w.0,
        w.1,
    ))) by {
        reveal(Image::gives_up);
        if !sure && m.release_failed(host_off, log, y.bytes, after) && after != log {
            let i = after.len() - 1;
            assert(!after[i].served);
        }
    }
    assert(sure ==> (m.release(host_off) matches Ok(w) && y.bytes == overwrite(
        m.bytes,
        w.0,
        w.1,
    ))) by {
        reveal(Image::gives_up);
    }
    let w = m.release(host_off)->Ok_0;
    if y.bytes == overwrite(m.bytes, w.0, w.1) {
        lemma_release_writes(m, y, host_off);
        lemma_release(m, y, k, pins);
        assert forall|kk: int| 0 <= kk implies #[trigger] y.surplus(kk) == m.surplus(kk) - (if kk
            == k {
            1int
        } else {
            0
        }) by {
            assert(y.refs(kk) == m.refs(kk));
            assert(y.is_meta(kk) == m.is_meta(kk));
        }
    } else {
        assert(y == m);
        assert(step(m, pins, y, pins, -1));
    }
}

/// A table that has been put stands in for the one that there was, which is then
/// counted once too often.
#[verifier::rlimit(100)]
proof fn lemma_table_put_outcome(
    a: Image,
    i0: int,
    table: Seq<u8>,
    log: Seq<Call>,
    b: Image,
    after: Seq<Call>,
    off: int,
    pins: Set<int>,
)
    requires
        sound(a),
        a.consistent_with(pins),
        0 <= i0 < a.l1.len(),
        table_matches(a, i0, table),
        table_put(a, i0, table, log, b, after, off),
        b.bytes.len() <= ADDRESSABLE,
    ensures
        extends(log, after),
        table_installed(a, b, pins, i0, off),
        forall|kk: int|
            0 <= kk ==> #[trigger] b.surplus(kk) == a.surplus(kk) + (if a.refers(i0, 0, kk) {
                1int
            } else {
                0
            }),
        forall|kk: int|
            0 <= kk && a.refcount(kk) != 0 ==> #[trigger] b.refcount(kk) == a.refcount(kk),
{
    reveal(table_put);
    lemma_cluster_size(a.header.cluster_bits);
    let (bytes, between) = choose|bytes: Seq<u8>, between: Seq<Call>| #[trigger]
        a.claims(off / a.cs(), log, bytes, between) && b == (Image {
            bytes: overwrite(
                overwrite(bytes, off, table),
                a.header.l1_table_offset + 8 * i0,
                be64_bytes(fresh_entry(off as u64)),
            ),
            l1: a.l1.update(i0, fresh_entry(off as u64)),
            ..a
        }) && after == settled(
            settled(between, off, table),
            a.header.l1_table_offset + 8 * i0,
            be64_bytes(fresh_entry(off as u64)),
        );
    let cs = a.cs();
    let k = off / cs;
    vstd::arithmetic::div_mod::lemma_fundamental_div_mod(off, cs);
    assert(cs * k == k * cs) by (nonlinear_arith);
    lemma_claims(a, k, log, bytes, between);
    let p1 = pins.insert(k);
    let a1 = Image { bytes, ..a };
    lemma_allocates(a, a1, k, pins);
    assert(p1.contains(k));
    let a2 = Image { bytes: overwrite(bytes, off, table), ..a1 };
    lemma_filled_quietly(a1, a2, k, table, p1);
    lemma_same_entries_trans(a, a1, a2);
    lemma_table_filled(a, a1, a2, i0, table, k);
    lemma_link_table(a2, b, i0, fresh_entry(off as u64), k, p1);
    lemma_table_installed(a, a1, a2, b, pins, i0, k);
    assert forall|kk: int| 0 <= kk && a.refcount(kk) != 0 implies #[trigger] b.refcount(kk)
        == a.refcount(kk) by {
        assert(a1.refcount(kk) == a.refcount(kk));
        assert(a2.refcount(kk) == a1.refcount(kk));
    }
    assert forall|kk: int| 0 <= kk implies #[trigger] b.surplus(kk) == a.surplus(kk) + (
    if a.refers(i0, 0, kk) {
        1int
    } else {
        0
    }) by {
        assert(a1.surplus(kk) == a.surplus(kk) + (if kk == k {
            1int
        } else {
            0
        }));
        assert(a2.surplus(kk) == a1.surplus(kk));
        assert(b.refcount(kk) == a2.refcount(kk));
        assert(b.is_meta(kk) == a2.is_meta(kk));
        assert(a2.l2_table(i0) == a.l2_table(i0));
        assert(a2.refers(i0, 0, kk) == a.refers(i0, 0, kk));
    }
}

/// What is claimed is allocated; the device does not get shorter, and no call is taken
/// back.
proof fn lemma_claims(a: Image, k: int, log: Seq<Call>, bytes: Seq<u8>, after: Seq<Call>)
    requires
        a.claims(k, log, bytes, after),
    ensures
        a.counted(),
        a.allocates(k, bytes),
        a.bytes.len() <= bytes.len(),
        extends(log, after),
{
    reveal(Image::claims);
    if exists|s: int|
        0 < s && a.none_free() && #[trigger] a.first_empty(s) && k == s * a.epb() + 1 && bytes
            == a.grown(s) && after == settled(
            settled(log, a.new_block_off(s), a.new_block()),
            a.rt_off() + 8 * s,
            be64_bytes(a.new_block_off(s) as u64),
        ) {
        let s = choose|s: int|
            0 < s && a.none_free() && #[trigger] a.first_empty(s) && k == s * a.epb() + 1 && bytes
                == a.grown(s) && after == settled(
                settled(log, a.new_block_off(s), a.new_block()),
                a.rt_off() + 8 * s,
                be64_bytes(a.new_block_off(s) as u64),
            );
        assert(a.first_empty(s));
    }
}

/// To fill a pinned cluster changes nothing else.
proof fn lemma_filled_quietly(a: Image, b: Image, k: int, data: Seq<u8>, pins: Set<int>)
    requires
        sound(a),
        a.consistent_with(pins),
        pins.contains(k),
        data.len() == a.cs(),
        b == (Image { bytes: overwrite(a.bytes, k * a.cs(), data), ..a }),
    ensures
        step(a, pins, b, pins, k),
        forall|kk: int| #[trigger] held_elsewhere(a, pins, kk) ==> held_elsewhere(b, pins, kk),
        forall|kk: int| #[trigger] b.refs(kk) == a.refs(kk),
        forall|kk: int| 0 <= kk ==> #[trigger] b.surplus(kk) == a.surplus(kk),
        forall|kk: int| 0 <= kk ==> #[trigger] b.refcount(kk) == a.refcount(kk),
{
    lemma_cluster_size(a.header.cluster_bits);
    assert((k + 1) * a.cs() == k * a.cs() + a.cs()) by (nonlinear_arith);
    lemma_counted_nonneg(a, k);
    assert(changed_in(a, b, k));
    lemma_quiet_change(a, b, k, pins);
    assert forall|kk: int| 0 <= kk implies #[trigger] b.surplus(kk) == a.surplus(kk) by {
        assert(b.refs(kk) == a.refs(kk));
        assert(b.is_meta(kk) == a.is_meta(kk));
        assert(b.refcount(kk) == a.refcount(kk));
    }
}

/// The bytes of an L2 table are a table that says what it says.
proof fn lemma_table_bytes(a: Image, i0: int)
    requires
        sound(a),
        a.tables_placed(),
        0 <= i0 < a.l1.len(),
        a.l2_table(i0) != 0,
    ensures
        table_matches(a, i0, a.bytes.subrange(a.l2_table(i0), a.l2_table(i0) + a.cs())),
{
    lemma_cluster_size(a.header.cluster_bits);
    let t = a.l2_table(i0);
    let table = a.bytes.subrange(t, t + a.cs());
    assert forall|j: int| 0 <= j < l2_len(a.header) implies #[trigger] be64(table, 8 * j)
        == a.l2_entry(i0, j) by {
        lemma_found_be64(a.bytes, t, table, 8 * j);
    }
}

/// A table of zeros says that there is nothing.
proof fn lemma_zero_table(a: Image, i0: int)
    requires
        sound(a),
        a.l2_table(i0) == 0,
    ensures
        table_matches(a, i0, zeros(a.cs())),
{
    lemma_cluster_size(a.header.cluster_bits);
    let table = zeros(a.cs());
    assert forall|j: int| 0 <= j < l2_len(a.header) implies #[trigger] be64(table, 8 * j) == 0 by {
        lemma_zero_be64(table, 8 * j);
    }
}

/// Eight zeros are the number zero.
proof fn lemma_zero_be64(s: Seq<u8>, at: int)
    requires
        0 <= at,
        at + 8 <= s.len(),
        forall|i: int| at <= i < at + 8 ==> #[trigger] s[i] == 0,
    ensures
        be64(s, at) == 0,
{
}

/// L1 entry `i0` points at a table that has to be copied before it is changed.
pub open spec fn table_is_shared(a: Image, i0: int) -> bool {
    a.l2_table(i0) != 0 && !table_is_own(a, i0)
}

/// A table that the image has for its own is counted once.
proof fn lemma_own_table(a: Image, i0: int, pins: Set<int>)
    requires
        sound(a),
        a.consistent_with(pins),
        0 <= i0 < a.l1.len(),
        table_is_own(a, i0),
    ensures
        table_owned(a, a, pins, i0, a.l2_table(i0)),
{
    lemma_cluster_size(a.header.cluster_bits);
    let table = a.l2_table(i0);
    let t = table / a.cs();
    assert(a.refers(i0, 0, t));
    if a.l1[i0] & L2_FLAG_COPIED != 0 {
        assert(a.l1_copied(i0));
    } else {
        let count = a.count_read(table)->Ok_0;
        lemma_count_read(a, table, count);
        lemma_one_reference(a, i0, 0, t);
        assert(a.refs(t) <= a.refcount(t));
    }
    assert(step(a, pins, a, pins, -1));
}

/// What comes of making a table the image's own. `m`, which is returned, is what would
/// have come of it without the count that is given up.
#[verifier::rlimit(100)]
proof fn lemma_table_made_own_outcome(
    a: Image,
    i0: int,
    log: Seq<Call>,
    b: Image,
    after: Seq<Call>,
    off: int,
    sure: bool,
    pins: Set<int>,
) -> (r: (Image, int))
    requires
        sound(a),
        a.consistent_with(pins),
        a.counted(),
        0 <= i0 < a.l1.len(),
        table_made_own(a, i0, log, b, after, off, sure),
        b.bytes.len() <= ADDRESSABLE,
    ensures
        extends(log, after),
        table_owned(a, r.0, pins, i0, off),
        block_changed(r.0, b, r.1),
        sure || all_served(log, after) ==> table_owned(a, b, pins, i0, off),
        sure ==> forall|kk: int| 0 <= kk ==> #[trigger] b.surplus(kk) == a.surplus(kk),
        sure ==> forall|kk: int|
            0 <= kk && a.refcount(kk) != 0 ==> #[trigger] b.refcount(kk) == a.refcount(kk) - (
            if table_is_shared(a, i0) && kk == a.l2_table(i0) / a.cs() {
                1int
            } else {
                0
            }),
{
    reveal(table_made_own);
    lemma_cluster_size(a.header.cluster_bits);
    let table = a.l2_table(i0);
    if table == 0 {
        lemma_zero_table(a, i0);
        lemma_table_put_outcome(a, i0, zeros(a.cs()), log, b, after, off, pins);
        lemma_installed_is_owned(a, b, pins, i0, off);
        (b, 0)
    } else if table_is_own(a, i0) {
        lemma_own_table(a, i0, pins);
        (a, 0)
    } else {
        let copy = a.bytes.subrange(table, table + a.cs());
        let (m, between) = choose|m: Image, between: Seq<Call>| #[trigger]
            table_put(a, i0, copy, log, m, between, off) && m.gives_up(
                table,
                between,
                b.bytes,
                after,
                sure,
            ) && b == (Image { bytes: b.bytes, ..m });
        lemma_table_bytes(a, i0);
        lemma_given_up_calls(m, table, between, b.bytes, after, sure);
        lemma_table_put_outcome(a, i0, copy, log, m, between, off, pins);
        let t = table / a.cs();
        assert(a.refers(i0, 0, t));
        let s = lemma_given_up_block(m, table, between, b, after, sure);
        lemma_installed_is_owned(a, m, pins, i0, off);
        if sure || all_served(log, after) {
            assert(all_served(log, after) ==> all_served(between, after));
            lemma_given_up_whole(m, table, between, b, after, sure, pins);
            lemma_old_table_released(a, m, b, pins, i0, off);
            if sure {
                assert forall|kk: int| 0 <= kk implies #[trigger] b.surplus(kk) == a.surplus(
                    kk,
                ) by {
                    assert(m.surplus(kk) == a.surplus(kk) + (if a.refers(i0, 0, kk) {
                        1int
                    } else {
                        0
                    }));
                }
                assert forall|kk: int|
                    0 <= kk && a.refcount(kk) != 0 implies #[trigger] b.refcount(kk) == a.refcount(
                    kk,
                ) - (if table_is_shared(a, i0) && kk == t {
                    1int
                } else {
                    0
                }) by {
                    assert(m.refcount(kk) == a.refcount(kk));
                }
            }
        }
        (m, s)
    }
}

/// To give up a count, or to fail to, only adds calls, and never shortens the device.
proof fn lemma_given_up_calls(
    m: Image,
    host_off: int,
    log: Seq<Call>,
    bytes: Seq<u8>,
    after: Seq<Call>,
    sure: bool,
)
    requires
        m.gives_up(host_off, log, bytes, after, sure),
    ensures
        extends(log, after),
        m.bytes.len() <= bytes.len(),
{
    reveal(Image::gives_up);
}

/// A table that has been installed is the image's own.
proof fn lemma_installed_is_owned(a: Image, b: Image, pins: Set<int>, i0: int, off: int)
    requires
        table_installed(a, b, pins, i0, off),
    ensures
        table_owned(a, b, pins, i0, off),
{
}

/// The same entry, set in a table of two images that differ in one refcount block,
/// leaves them differing there alone.
proof fn lemma_same_patch(
    m: Image,
    b: Image,
    s: int,
    at: int,
    data: Seq<u8>,
    x: Image,
    c: Image,
)
    requires
        block_changed(m, b, s),
        0 <= at,
        at + data.len() <= m.bytes.len(),
        x == (Image { bytes: overwrite(m.bytes, at, data), ..m }),
        c == (Image { bytes: overwrite(b.bytes, at, data), ..b }),
        0 <= s < m.rt_len() ==> x.rt_entry(s) == m.rt_entry(s),
    ensures
        block_changed(x, c, s),
{
    if b != m {
        assert(changed_in(x, c, m.rt_entry(s) / m.cs()));
    }
}

/// What comes of setting an entry to point at cluster `k`. `x`, which is returned, is
/// what would have come of it without a count that is given up.
#[verifier::rlimit(100)]
proof fn lemma_entry_put_outcome(
    a: Image,
    i0: int,
    j0: int,
    k: int,
    log: Seq<Call>,
    c: Image,
    after: Seq<Call>,
    sure: bool,
    pins: Set<int>,
) -> (x: Image)
    requires
        sound(a),
        a.consistent_with(pins),
        pins.contains(k),
        0 <= i0 < a.l1.len(),
        0 <= j0 < l2_len(a.header),
        k * a.cs() + a.cs() <= a.bytes.len(),
        entry_put(a, i0, j0, fresh_entry((k * a.cs()) as u64), log, c, after, sure),
        c.bytes.len() <= ADDRESSABLE,
    ensures
        extends(log, after),
        linked(a, x, pins, i0, j0, k, fresh_entry((k * a.cs()) as u64)),
        x.counted(),
        blocks_torn(x, c),
        sure || all_served(log, after) ==> linked(
            a,
            c,
            pins,
            i0,
            j0,
            k,
            fresh_entry((k * a.cs()) as u64),
        ) && other_refs_kept(a, c, i0, j0) && other_entries_kept(a, c, i0, j0),
        sure ==> forall|kk: int|
            0 <= kk ==> #[trigger] c.surplus(kk) == a.surplus(kk) + (if a.refers(i0, j0 + 1, kk) {
                1int
            } else {
                0
            }) - (if kk == k {
                1int
            } else {
                0
            }),
        sure ==> forall|kk: int|
            0 <= kk && a.refcount(kk) != 0 ==> #[trigger] c.refcount(kk) == a.refcount(kk) - (
            if table_is_shared(a, i0) && kk == a.l2_table(i0) / a.cs() {
                1int
            } else {
                0
            }),
{
    reveal(entry_put);
    lemma_cluster_size(a.header.cluster_bits);
    assert(a.counted());
    let e = fresh_entry((k * a.cs()) as u64);
    let (b, between, off) = choose|b: Image, between: Seq<Call>, off: int| #[trigger]
        table_made_own(a, i0, log, b, between, off, sure) && off + a.cs() <= b.bytes.len() && c == (
        Image { bytes: overwrite(b.bytes, off + 8 * j0, be64_bytes(e)), ..b }) && after == settled(
            between,
            off,
            overwrite(b.bytes.subrange(off, off + a.cs()), 8 * j0, be64_bytes(e)),
        );
    let (m, s) = lemma_table_made_own_outcome(a, i0, log, b, between, off, sure, pins);
    let x = Image { bytes: overwrite(m.bytes, off + 8 * j0, be64_bytes(e)), ..m };
    assert(m.l2_table(i0) == off);
    assert(m.l2_table(i0) + m.cs() <= m.bytes.len());
    lemma_link_data(m, x, i0, j0, e, k, pins);
    lemma_linked(a, m, x, pins, i0, j0, k, e);
    lemma_same_patch(m, b, s, off + 8 * j0, be64_bytes(e), x, c);
    lemma_not_torn(x, pins.remove(k));
    lemma_torn_more(x, x, c, s, pins.remove(k));
    assert(all_served(log, after) ==> all_served(log, between)) by {
        if all_served(log, after) {
            assert forall|i: int| log.len() <= i < between.len() implies (
            #[trigger] between[i]).served by {
                assert(after[i] == between[i]);
            }
        }
    }
    if sure || all_served(log, after) {
        assert(b.l2_table(i0) == off);
        lemma_link_data(b, c, i0, j0, e, k, pins);
        lemma_linked(a, b, c, pins, i0, j0, k, e);
        assert forall|i: int, j: int, kk: int|
            0 <= i < a.l1.len() && 1 <= j <= l2_len(a.header) && !(i == i0 && j == j0
                + 1) implies #[trigger] c.refers(i, j, kk) == a.refers(i, j, kk) by {
            assert(b.refers(i, j, kk) == a.refers(i, j, kk));
        }
        lemma_other_entries_trans(a, b, c, i0, j0);
        if sure {
            lemma_entry_surplus(a, b, c, i0, j0, k);
            assert forall|kk: int|
                0 <= kk && a.refcount(kk) != 0 implies #[trigger] c.refcount(kk) == a.refcount(kk)
                - (if table_is_shared(a, i0) && kk == a.l2_table(i0) / a.cs() {
                1int
            } else {
                0
            }) by {
                assert(c.refcount(kk) == b.refcount(kk));
            }
        }
    }
    x
}

/// Entries that are found again, and then again but for one, are found again but for
/// that one.
proof fn lemma_other_entries_trans(a: Image, b: Image, c: Image, i0: int, j0: int)
    requires
        same_entries(a, b),
        other_entries_kept(b, c, i0, j0),
        a.header == b.header,
        a.l1.len() == b.l1.len(),
    ensures
        other_entries_kept(a, c, i0, j0),
{
    assert forall|i: int| 0 <= i < a.l1.len() && a.l2_table(i) != 0 implies #[trigger] c.l2_table(i)
        != 0 by {
        assert(b.l2_table(i) != 0);
    }
    assert forall|i: int, j: int|
        0 <= i < a.l1.len() && 0 <= j < l2_len(a.header) && a.l2_table(i) != 0 && !(i == i0 && j
            == j0) implies #[trigger] c.l2_entry(i, j) == a.l2_entry(i, j) by {
        assert(b.l2_table(i) != 0);
        assert(b.l2_entry(i, j) == a.l2_entry(i, j));
    }
}

/// Entries that are found again but for one, and then again, are found again but for
/// that one.
proof fn lemma_then_same_entries(a: Image, b: Image, c: Image, i0: int, j0: int)
    requires
        other_entries_kept(a, b, i0, j0),
        same_entries(b, c),
        a.header == b.header,
        a.l1.len() == b.l1.len(),
    ensures
        other_entries_kept(a, c, i0, j0),
{
    assert forall|i: int| 0 <= i < a.l1.len() && a.l2_table(i) != 0 implies #[trigger] c.l2_table(i)
        != 0 by {
        assert(b.l2_table(i) != 0);
    }
    assert forall|i: int, j: int|
        0 <= i < a.l1.len() && 0 <= j < l2_len(a.header) && a.l2_table(i) != 0 && !(i == i0 && j
            == j0) implies #[trigger] c.l2_entry(i, j) == a.l2_entry(i, j) by {
        assert(b.l2_table(i) != 0);
        assert(b.l2_entry(i, j) == a.l2_entry(i, j));
    }
}

/// The surplus of a cluster follows its references.
proof fn lemma_entry_surplus(a: Image, b: Image, c: Image, i0: int, j0: int, k: int)
    requires
        0 <= i0 < a.l1.len(),
        0 <= j0 < l2_len(a.header),
        same_data_refs(a, b),
        forall|kk: int| 0 <= kk ==> #[trigger] b.surplus(kk) == a.surplus(kk),
        forall|kk: int| 0 <= kk ==> #[trigger] c.refcount(kk) == b.refcount(kk),
        forall|kk: int| #[trigger] c.is_meta(kk) == b.is_meta(kk),
        forall|kk: int| #[trigger]
            c.refs(kk) == b.refs(kk) - (if b.refers(i0, j0 + 1, kk) {
                1int
            } else {
                0
            }) + (if kk == k {
                1int
            } else {
                0
            }),
    ensures
        forall|kk: int|
            0 <= kk ==> #[trigger] c.surplus(kk) == a.surplus(kk) + (if a.refers(i0, j0 + 1, kk) {
                1int
            } else {
                0
            }) - (if kk == k {
                1int
            } else {
                0
            }),
{
    assert forall|kk: int| 0 <= kk implies #[trigger] c.surplus(kk) == a.surplus(kk) + (
    if a.refers(i0, j0 + 1, kk) {
        1int
    } else {
        0
    }) - (if kk == k {
        1int
    } else {
        0
    }) by {
        assert(b.surplus(kk) == a.surplus(kk));
        assert(b.refers(i0, j0 + 1, kk) == a.refers(i0, j0 + 1, kk));
        assert(c.is_meta(kk) == b.is_meta(kk));
        assert(c.refcount(kk) == b.refcount(kk));
    }
}

/// The compressed cluster that holds byte `v` of the virtual disk goes on into host
/// cluster `k`. When it is replaced, only the cluster where it starts loses a count.
pub open spec fn goes_on_into(a: Image, v: int, k: int) -> bool {
    a.cluster_map(v) matches Ok(ClusterMap::Compressed { host_off, byte_len }) && host_off as int
        / a.cs() < k <= (host_off + byte_len - 1) / a.cs()
}

/// Every cluster of `b` is counted as often beyond what the image accounts for as in
/// `a`; but for one into which a compressed cluster went on that held byte `v`.
pub open spec fn surplus_kept(a: Image, b: Image, v: int) -> bool {
    forall|k: int|
        0 <= k ==> #[trigger] b.surplus(k) == a.surplus(k) + (if goes_on_into(a, v, k) {
            1int
        } else {
            0
        })
}

/// How many counts host cluster `k` gives up when byte `v` is written: one if it is
/// replaced, and one if it holds an L2 table that has to be copied.
pub open spec fn counts_given_up(a: Image, v: int, k: int) -> int {
    match a.cluster_map(v) {
        Ok(m) => match plan_for(a, m) {
            Ok(WritePlan::Reallocate { release, .. }) => (if release matches Some(off) && k == off
                as int / a.cs() {
                1int
            } else {
                0
            }) + (if table_is_shared(a, a.l1_index(v)) && k == a.l2_table(a.l1_index(v)) / a.cs() {
                1int
            } else {
                0
            }),
            _ => 0,
        },
        Err(_) => 0,
    }
}

/// Every cluster that was counted in `a` is counted in `b` as often, but for what it
/// gives up when byte `v` is written.
pub open spec fn counts_moved(a: Image, b: Image, v: int) -> bool {
    forall|k: int|
        0 <= k && a.refcount(k) != 0 ==> #[trigger] b.refcount(k) == a.refcount(k)
            - counts_given_up(a, v, k)
}

/// Byte `v` of `b` is found in host cluster `k`, which is counted once, and was not
/// counted in `a`.
pub open spec fn newly_counted(a: Image, b: Image, v: int, k: int) -> bool {
    &&& b.cluster_map(v) == Ok::<ClusterMap, Fault>(
        ClusterMap::Plain { host_off: (k * a.cs()) as u64, copied: true },
    )
    &&& a.refcount(k) == 0
    &&& b.refcount(k) == 1
}

/// What the tables say of byte `v` is what the entry refers to.
pub(crate) proof fn lemma_map_covers(a: Image, v: int, map: ClusterMap, kk: int)
    requires
        sound(a),
        0 <= v < a.header.virtual_size,
        a.cluster_map(v) == Ok::<ClusterMap, Fault>(map),
    ensures
        map_bounded(map),
        0 <= a.l1_index(v) < a.l1.len(),
        0 <= a.l2_index(v) < l2_len(a.header),
        a.refers(a.l1_index(v), a.l2_index(v) + 1, kk) == match map {
            ClusterMap::Plain { host_off, .. } => host_off as int / a.cs() == kk,
            ClusterMap::Compressed { host_off, byte_len } => host_off as int / a.cs() <= kk <= (
            host_off + byte_len - 1) / a.cs(),
            _ => false,
        },
{
    lemma_cluster_size(a.header.cluster_bits);
    lemma_l1_reaches(a.header, v);
    lemma_indexes(a, v);
    lemma_map_bounded(a.header, a.l2_entry(a.l1_index(v), a.l2_index(v)));
}

/// A table is shared after an allocation if it was before.
proof fn lemma_same_share(a: Image, a1: Image, a2: Image, i0: int)
    requires
        sound(a),
        sound(a2),
        a.consistent(),
        a.counted(),
        0 <= i0 < a.l1.len(),
        a2.header == a.header,
        a2.l1 == a.l1,
        a2.blocks_placed(),
        a.bytes.len() <= ADDRESSABLE,
        a2.bytes.len() <= ADDRESSABLE,
        a2.consistent_with(Set::empty()),
        forall|kk: int|
            0 <= kk && a.refcount(kk) != 0 ==> #[trigger] a1.refcount(kk) == a.refcount(kk),
        forall|kk: int| 0 <= kk ==> #[trigger] a2.refcount(kk) == a1.refcount(kk),
    ensures
        table_is_shared(a2, i0) == table_is_shared(a, i0),
{
    lemma_cluster_size(a.header.cluster_bits);
    let table = a.l2_table(i0);
    assert(a2.l2_table(i0) == table);
    if table != 0 {
        let t = table / a.cs();
        assert(a.refers(i0, 0, t));
        lemma_count_readable(a, Set::empty(), table);
        lemma_count_readable(a2, Set::empty(), table);
        lemma_count_read(a, table, a.count_read(table)->Ok_0);
        lemma_count_read(a2, table, a2.count_read(table)->Ok_0);
        lemma_one_reference(a, i0, 0, t);
        assert(a.refs(t) <= a.refcount(t));
        assert(a1.refcount(t) == a.refcount(t));
        assert(a2.refcount(t) == a1.refcount(t));
    }
}

/// What comes of replacing a cluster. `x`, which is returned, is what would have come of
/// it without the counts that are given up.
#[verifier::rlimit(100)]
proof fn lemma_replaced_outcome(
    a: Image,
    v: int,
    src: Seq<u8>,
    map: ClusterMap,
    seed: ClusterSeed,
    release: Option<u64>,
    log: Seq<Call>,
    d: Image,
    after: Seq<Call>,
    sure: bool,
) -> (x: Image)
    requires
        sound(a),
        a.consistent(),
        0 <= v < a.header.virtual_size,
        0 < src.len(),
        v % a.cs() + src.len() <= a.cs(),
        a.cluster_map(v) == Ok::<ClusterMap, Fault>(map),
        plan_for(a, map) == Ok::<WritePlan, Fault>(WritePlan::Reallocate { seed, release }),
        cluster_replaced(a, v, src, release, log, d, after, sure),
        d.bytes.len() <= ADDRESSABLE,
    ensures
        extends(log, after),
        written(a, x, v, src),
        x.counted(),
        blocks_torn(x, d),
        sure || all_served(log, after) ==> written(a, d, v, src) && other_refs_kept(
            a,
            d,
            a.l1_index(v),
            a.l2_index(v),
        ) && other_entries_kept(a, d, a.l1_index(v), a.l2_index(v)),
        d.l2_table(a.l1_index(v)) != 0,
        sure ==> surplus_kept(a, d, v) && counts_moved(a, d, v) && exists|k: int| #[trigger]
            newly_counted(a, d, v, k),
{
    reveal(cluster_replaced);
    reveal(cluster_put);
    lemma_cluster_size(a.header.cluster_bits);
    lemma_map_covers(a, v, map, 0);
    let none: Set<int> = Set::empty();
    let (k, bytes, l1, c, l2) = choose|
        k: int,
        bytes: Seq<u8>,
        l1: Seq<Call>,
        c: Image,
        l2: Seq<Call>,
    |
        #![trigger a.claims(k, log, bytes, l1), cluster_put(a, v, src, k, bytes, l1, c, l2, sure)]
        {
            &&& 0 < k && k * a.cs() <= u64::MAX
            &&& a.holds(v - v % a.cs(), cluster_seen(a, v))
            &&& a.claims(k, log, bytes, l1)
            &&& cluster_put(a, v, src, k, bytes, l1, c, l2, sure)
            &&& match release {
                Some(host_off) => c.gives_up(host_off as int, l2, d.bytes, after, sure) && d == (
                Image { bytes: d.bytes, ..c }),
                None => d == c && after == l2,
            }
        };
    if let Some(host_off) = release {
        lemma_given_up_calls(c, host_off as int, l2, d.bytes, after, sure);
    }
    let seen = cluster_seen(a, v);
    let full = overwrite(seen, v % a.cs(), src);
    let i0 = a.l1_index(v);
    let j0 = a.l2_index(v);
    let e = fresh_entry((k * a.cs()) as u64);
    let pins = none.insert(k);
    assert(pins.contains(k));
    assert(pins.remove(k) =~= none);
    lemma_claims(a, k, log, bytes, l1);
    let a1 = Image { bytes, ..a };
    lemma_allocates(a, a1, k, none);
    let a2 = cluster_filled(a, v, src, k, bytes);
    lemma_indexes(a, v);
    assert(full.len() == a.cs());
    lemma_filled_quietly(a1, a2, k, full, pins);
    lemma_new_cluster_filled(a1, a2, k, full);
    let l1b = settled(l1, k * a.cs(), full);
    let x = lemma_entry_put_outcome(a2, i0, j0, k, l1b, c, l2, sure, pins);
    lemma_keeps_trans(a, a1, a2, 0, 0);
    lemma_chunk_linked(a, a2, x, pins, v, src, seen, k);
    lemma_chunk_released(a, a1, a2, x, x, v, src, k, e, map, None);
    if let Some(host_off) = release {
        assert forall|t: int|
            0 <= t < c.rt_len() && #[trigger] c.rt_entry(t) != 0 implies c.rt_entry(t) % c.cs() == 0
            && c.rt_entry(t) + c.cs() <= c.bytes.len() by {
            assert(c.rt_entry(t) == x.rt_entry(t));
        }
        let s = lemma_given_up_block(c, host_off as int, l2, d, after, sure);
        lemma_torn_more(x, c, d, s, none);
    }
    assert(all_served(log, after) ==> all_served(l1b, l2) && all_served(l2, after)) by {
        if all_served(log, after) {
            assert forall|i: int| l1b.len() <= i < l2.len() implies (#[trigger] l2[i]).served by {
                assert(after[i] == l2[i]);
            }
        }
    }
    if sure || all_served(log, after) {
        lemma_chunk_linked(a, a2, c, pins, v, src, seen, k);
        if let Some(host_off) = release {
            lemma_release_ready(a, a1, a2, c, pins, v, k, e, map, host_off);
            lemma_given_up_whole(c, host_off as int, l2, d, after, sure, none);
        }
        lemma_chunk_released(a, a1, a2, c, d, v, src, k, e, map, release);
        assert forall|i: int, j: int, kk: int|
            0 <= i < a.l1.len() && 1 <= j <= l2_len(a.header) && !(i == i0 && j == j0
                + 1) implies #[trigger] d.refers(i, j, kk) == a.refers(i, j, kk) by {
            assert(a1.refers(i, j, kk) == a.refers(i, j, kk));
            assert(a2.refers(i, j, kk) == a1.refers(i, j, kk));
            assert(c.refers(i, j, kk) == a2.refers(i, j, kk));
            assert(d.refers(i, j, kk) == c.refers(i, j, kk));
        }
        lemma_same_entries_trans(a, a1, a2);
        lemma_other_entries_trans(a, a2, c, i0, j0);
        if d != c {
            lemma_then_same_entries(a, c, d, i0, j0);
        }
        if sure {
            lemma_entry_for(d, k, e);
            assert(d.l2_entry(i0, j0) == e);
            assert(d.l2_table(i0) != 0);
            assert(d.l2_copied(i0, j0, k));
            assert(newly_counted(a, d, v, k));
            assert(a2.l2_table(i0) == a.l2_table(i0));
            lemma_fewer_pins(a2, pins, none);
            lemma_same_share(a, a1, a2, i0);
            assert forall|kk: int|
                0 <= kk && a.refcount(kk) != 0 implies #[trigger] d.refcount(kk) == a.refcount(kk)
                - counts_given_up(a, v, kk) by {
                assert(a1.refcount(kk) == a.refcount(kk));
                assert(a2.refcount(kk) == a1.refcount(kk));
                assert(c.refcount(kk) == a2.refcount(kk) - (if table_is_shared(a2, i0) && kk
                    == a2.l2_table(i0) / a2.cs() {
                    1int
                } else {
                    0
                }));
            }
            assert forall|kk: int| 0 <= kk implies #[trigger] d.surplus(kk) == a.surplus(kk) + (
            if goes_on_into(a, v, kk) {
                1int
            } else {
                0
            }) by {
                lemma_map_covers(a, v, map, kk);
                assert(a1.surplus(kk) == a.surplus(kk) + (if kk == k {
                    1int
                } else {
                    0
                }));
                assert(a2.surplus(kk) == a1.surplus(kk));
                assert(a1.refers(i0, j0 + 1, kk) == a.refers(i0, j0 + 1, kk));
                assert(a2.refers(i0, j0 + 1, kk) == a1.refers(i0, j0 + 1, kk));
                assert(c.surplus(kk) == a2.surplus(kk) + (if a2.refers(i0, j0 + 1, kk) {
                    1int
                } else {
                    0
                }) - (if kk == k {
                    1int
                } else {
                    0
                }));
                if let Some(ho) = release {
                    if let ClusterMap::Compressed { host_off, byte_len } = map {
                        vstd::arithmetic::div_mod::lemma_div_is_ordered(
                            host_off as int,
                            host_off + byte_len - 1,
                            a.cs(),
                        );
                    }
                }
            }
        }
    }
    x
}

/// What comes of writing into one cluster. `x`, which is returned, is what would have
/// come of it without the counts that are given up.
pub(crate) proof fn lemma_chunk_outcome(
    a: Image,
    v: int,
    src: Seq<u8>,
    log: Seq<Call>,
    b: Image,
    after: Seq<Call>,
    sure: bool,
) -> (x: Image)
    requires
        sound(a),
        a.consistent(),
        0 <= v < a.header.virtual_size,
        0 < src.len(),
        v % a.cs() + src.len() <= a.cs(),
        chunk_written(a, v, src, log, b, after, sure),
        b.bytes.len() <= ADDRESSABLE,
    ensures
        extends(log, after),
        written(a, x, v, src),
        blocks_torn(x, b),
        sure || all_served(log, after) ==> written(a, b, v, src) && other_refs_kept(
            a,
            b,
            a.l1_index(v),
            a.l2_index(v),
        ),
        sure && a.counted() ==> surplus_kept(a, b, v) && counts_moved(a, b, v),
        x == b || x.counted(),
        a.cluster_map(v) matches Ok(m) && plan_for(a, m) is Ok,
{
    reveal(chunk_written);
    let map = a.cluster_map(v)->Ok_0;
    match plan_for(a, map) {
        Ok(WritePlan::InPlace { host_off }) => {
            lemma_written_in_place(a, b, v, src, map, host_off);
            lemma_written_sound(a, b, v, src);
            lemma_not_torn(b, Set::empty());
            if a.counted() {
                assert forall|k: int| 0 <= k && a.refcount(k) != 0 implies #[trigger] b.refcount(k)
                    == a.refcount(k) - counts_given_up(a, v, k) by {
                    assert(same_count(a, b, k));
                }
            }
            b
        },
        Ok(WritePlan::Reallocate { seed, release }) => {
            lemma_replaced_outcome(a, v, src, map, seed, release, log, b, after, sure)
        },
        Err(_) => a,
    }
}

/// What has been written fits its header still.
proof fn lemma_written_sound(a: Image, b: Image, v: int, data: Seq<u8>)
    requires
        sound(a),
        written(a, b, v, data),
    ensures
        sound(b),
{
}

/// No host cluster but one holds the compressed cluster that holds byte `v`, if it is
/// compressed.
pub open spec fn in_one_cluster(a: Image, v: int) -> bool {
    forall|k: int| !#[trigger] goes_on_into(a, v, k)
}

/// The entries of the bytes from `v` on refer to what they referred to.
pub open spec fn refs_kept_from(a: Image, b: Image, v: int) -> bool {
    forall|w: int, k: int|
        v <= w < a.header.virtual_size ==> #[trigger] b.refers(
            a.l1_index(w),
            a.l2_index(w) + 1,
            k,
        ) == a.refers(a.l1_index(w), a.l2_index(w) + 1, k)
}

/// A write into one cluster neither shortens the device nor takes back a call.
proof fn lemma_chunk_grows(
    a: Image,
    v: int,
    src: Seq<u8>,
    log: Seq<Call>,
    b: Image,
    after: Seq<Call>,
    sure: bool,
)
    requires
        chunk_written(a, v, src, log, b, after, sure),
    ensures
        a.bytes.len() <= b.bytes.len(),
        extends(log, after),
{
    reveal(chunk_written);
    let map = a.cluster_map(v)->Ok_0;
    if let Ok(WritePlan::Reallocate { seed, release }) = plan_for(a, map) {
        reveal(cluster_replaced);
        reveal(cluster_put);
        let (k, bytes, l1, c, l2) = choose|
            k: int,
            bytes: Seq<u8>,
            l1: Seq<Call>,
            c: Image,
            l2: Seq<Call>,
        |
            #![trigger a.claims(k, log, bytes, l1), cluster_put(a, v, src, k, bytes, l1, c, l2, sure)]
            {
                &&& 0 < k && k * a.cs() <= u64::MAX
                &&& a.holds(v - v % a.cs(), cluster_seen(a, v))
                &&& a.claims(k, log, bytes, l1)
                &&& cluster_put(a, v, src, k, bytes, l1, c, l2, sure)
                &&& match release {
                    Some(host_off) => c.gives_up(host_off as int, l2, b.bytes, after, sure) && b
                        == (Image { bytes: b.bytes, ..c }),
                    None => b == c && after == l2,
                }
            };
        lemma_claims(a, k, log, bytes, l1);
        lemma_entry_grows(
            cluster_filled(a, v, src, k, bytes),
            a.l1_index(v),
            a.l2_index(v),
            fresh_entry((k * a.cs()) as u64),
            settled(l1, k * a.cs(), overwrite(cluster_seen(a, v), v % a.cs(), src)),
            c,
            l2,
            sure,
        );
        if let Some(host_off) = release {
            lemma_given_up_calls(c, host_off as int, l2, b.bytes, after, sure);
        }
    }
}

/// To put a table neither shortens the device nor takes back a call.
proof fn lemma_table_grows(
    a: Image,
    i0: int,
    table: Seq<u8>,
    log: Seq<Call>,
    b: Image,
    after: Seq<Call>,
    off: int,
)
    requires
        table_put(a, i0, table, log, b, after, off),
    ensures
        a.bytes.len() <= b.bytes.len(),
        extends(log, after),
{
    reveal(table_put);
    let (bytes, between) = choose|bytes: Seq<u8>, between: Seq<Call>| #[trigger]
        a.claims(off / a.cs(), log, bytes, between) && b == (Image {
            bytes: overwrite(
                overwrite(bytes, off, table),
                a.header.l1_table_offset + 8 * i0,
                be64_bytes(fresh_entry(off as u64)),
            ),
            l1: a.l1.update(i0, fresh_entry(off as u64)),
            ..a
        }) && after == settled(
            settled(between, off, table),
            a.header.l1_table_offset + 8 * i0,
            be64_bytes(fresh_entry(off as u64)),
        );
    lemma_claims(a, off / a.cs(), log, bytes, between);
}

/// To set an entry neither shortens the device nor takes back a call.
proof fn lemma_entry_grows(
    a: Image,
    i0: int,
    j0: int,
    e: u64,
    log: Seq<Call>,
    c: Image,
    after: Seq<Call>,
    sure: bool,
)
    requires
        entry_put(a, i0, j0, e, log, c, after, sure),
    ensures
        a.bytes.len() <= c.bytes.len(),
        extends(log, after),
{
    reveal(entry_put);
    reveal(table_made_own);
    let (b, between, off) = choose|b: Image, between: Seq<Call>, off: int| #[trigger]
        table_made_own(a, i0, log, b, between, off, sure) && off + a.cs() <= b.bytes.len() && c == (
        Image { bytes: overwrite(b.bytes, off + 8 * j0, be64_bytes(e)), ..b }) && after == settled(
            between,
            off,
            overwrite(b.bytes.subrange(off, off + a.cs()), 8 * j0, be64_bytes(e)),
        );
    let table = a.l2_table(i0);
    if table == 0 {
        lemma_table_grows(a, i0, zeros(a.cs()), log, b, between, off);
    } else if !table_is_own(a, i0) {
        let copy = a.bytes.subrange(table, table + a.cs());
        let (m, mid) = choose|m: Image, mid: Seq<Call>| #[trigger]
            table_put(a, i0, copy, log, m, mid, off) && m.gives_up(
                table,
                mid,
                b.bytes,
                between,
                sure,
            ) && b == (Image { bytes: b.bytes, ..m });
        lemma_table_grows(a, i0, copy, log, m, mid, off);
        lemma_given_up_calls(m, table, mid, b.bytes, between, sure);
    }
}

/// Where the last cluster of a range starts.
proof fn lemma_before_last(cs: int, v: int, len: int)
    requires
        cs > 0,
        0 <= v,
        0 < len,
    ensures
        0 <= before_last(cs, v, len) < len,
        (v + before_last(cs, v, len)) % cs + (len - before_last(cs, v, len)) <= cs,
        forall|w: int|
            v <= w < v + before_last(cs, v, len) ==> #[trigger] (w / cs) != (v + before_last(
                cs,
                v,
                len,
            )) / cs,
        forall|w: int| v + len <= w && #[trigger] (w / cs) == (v + len - 1) / cs ==> (v + len) % cs
            != 0,
        (v + before_last(cs, v, len)) / cs == (v + len - 1) / cs,
{
    let q = (v + len - 1) / cs;
    let n = before_last(cs, v, len);
    vstd::arithmetic::div_mod::lemma_fundamental_div_mod(v + len - 1, cs);
    assert(q * cs == cs * q) by (nonlinear_arith);
    assert(q >= 0) by (nonlinear_arith)
        requires
            q == (v + len - 1) / cs,
            v + len - 1 >= 0,
            cs > 0,
    ;
    assert(cs * q >= 0) by (nonlinear_arith)
        requires
            q >= 0,
            cs > 0,
    ;
    vstd::arithmetic::div_mod::lemma_fundamental_div_mod_converse(
        v + n,
        cs,
        q,
        v + n - cs * q,
    );
    assert forall|w: int| v <= w < v + n implies #[trigger] (w / cs) != (v + n) / cs by {
        vstd::arithmetic::div_mod::lemma_fundamental_div_mod(w, cs);
    }
    assert forall|w: int| v + len <= w && #[trigger] (w / cs) == q implies (v + len) % cs != 0 by {
        vstd::arithmetic::div_mod::lemma_fundamental_div_mod(w, cs);
        vstd::arithmetic::div_mod::lemma_fundamental_div_mod_converse(
            v + len,
            cs,
            q,
            v + len - cs * q,
        );
    }
}

/// What comes of a write to a device that serves every call.
#[verifier::rlimit(100)]
pub(crate) proof fn lemma_chunks_outcome(
    a: Image,
    v: int,
    data: Seq<u8>,
    log: Seq<Call>,
    b: Image,
    after: Seq<Call>,
    sure: bool,
)
    requires
        sound(a),
        a.consistent(),
        0 <= v,
        v + data.len() <= a.header.virtual_size,
        chunks_written(a, v, data, log, b, after, sure),
        b.bytes.len() <= ADDRESSABLE,
        sure || all_served(log, after),
    ensures
        extends(log, after),
        written(a, b, v, data),
        data.len() == 0 || (v + data.len()) % a.cs() == 0 ==> refs_kept_from(
            a,
            b,
            v + data.len(),
        ),
        sure && a.counted() && (forall|w: int|
            v <= w < v + data.len() ==> #[trigger] in_one_cluster(a, w)) ==> forall|k: int|
            0 <= k ==> #[trigger] b.surplus(k) == a.surplus(k),
    decreases data.len(),
{
    reveal_with_fuel(chunks_written, 1);
    lemma_cluster_size(a.header.cluster_bits);
    let len = data.len() as int;
    if len == 0 {
        assert(data =~= Seq::empty());
        lemma_nothing_written(a, v);
    } else {
        lemma_before_last(a.cs(), v, len);
        let n = before_last(a.cs(), v, len);
        let d1 = data.subrange(0, n);
        let d2 = data.subrange(n, len);
        let (m, between) = choose|m: Image, between: Seq<Call>|
            chunks_written(a, v, d1, log, m, between, sure) && #[trigger] chunk_written(
                m,
                v + n,
                d2,
                between,
                b,
                after,
                sure,
            );
        lemma_chunk_grows(m, v + n, d2, between, b, after, sure);
        lemma_chunks_extend(a, v, d1, log, m, between, sure);
        assert(all_served(log, after) ==> all_served(log, between) && all_served(between, after))
            by {
            if all_served(log, after) {
                assert forall|i: int| log.len() <= i < between.len() implies (
                #[trigger] between[i]).served by {
                    assert(after[i] == between[i]);
                }
            }
        }
        lemma_chunks_outcome(a, v, d1, log, m, between, sure);
        lemma_written_sound(a, m, v, d1);
        let x = lemma_chunk_outcome(m, v + n, d2, between, b, after, sure);
        lemma_written_twice(a, m, b, v, d1, d2);
        assert(d1 + d2 =~= data);
        assert(n == 0 || (v + n) % a.cs() == 0) by {
            if n != 0 {
                let q = (v + len - 1) / a.cs();
                vstd::arithmetic::div_mod::lemma_fundamental_div_mod_converse(
                    v + n,
                    a.cs(),
                    q,
                    0,
                );
            }
        }
        assert(refs_kept_from(a, m, v + n));
        if (v + len) % a.cs() == 0 {
            assert forall|w: int, k: int|
                v + len <= w < a.header.virtual_size implies #[trigger] b.refers(
                a.l1_index(w),
                a.l2_index(w) + 1,
                k,
            ) == a.refers(a.l1_index(w), a.l2_index(w) + 1, k) by {
                assert(m.refers(a.l1_index(w), a.l2_index(w) + 1, k) == a.refers(
                    a.l1_index(w),
                    a.l2_index(w) + 1,
                    k,
                ));
                lemma_same_index(m, w, v + n);
                lemma_indexes(m, w);
                lemma_l1_reaches(a.header, w);
                assert(w / a.cs() != (v + len - 1) / a.cs());
            }
        }
        if sure && a.counted() && (forall|w: int|
            v <= w < v + data.len() ==> #[trigger] in_one_cluster(a, w)) {
            assert(in_one_cluster(a, v + n));
            assert forall|k: int| 0 <= k implies #[trigger] b.surplus(k) == a.surplus(k) by {
                assert(m.surplus(k) == a.surplus(k));
                assert(!goes_on_into(m, v + n, k)) by {
                    lemma_goes_on_kept(a, m, v + n, k);
                }
            }
        }
    }
}

/// A write neither shortens the device nor takes back a call.
proof fn lemma_chunks_extend(
    a: Image,
    v: int,
    data: Seq<u8>,
    log: Seq<Call>,
    b: Image,
    after: Seq<Call>,
    sure: bool,
)
    requires
        chunks_written(a, v, data, log, b, after, sure),
    ensures
        a.bytes.len() <= b.bytes.len(),
        extends(log, after),
    decreases data.len(),
{
    reveal_with_fuel(chunks_written, 1);
    let len = data.len() as int;
    if len != 0 {
        let n = before_last(a.cs(), v, len);
        let (m, between) = choose|m: Image, between: Seq<Call>|
            chunks_written(a, v, data.subrange(0, n), log, m, between, sure)
                && #[trigger] chunk_written(
                m,
                v + n,
                data.subrange(n, len),
                between,
                b,
                after,
                sure,
            );
        lemma_chunks_extend(a, v, data.subrange(0, n), log, m, between, sure);
        lemma_chunk_grows(m, v + n, data.subrange(n, len), between, b, after, sure);
    }
}

/// A compressed cluster whose entry refers to what it referred to lies in one cluster
/// if it lay in one.
proof fn lemma_goes_on_kept(a: Image, m: Image, v: int, k: int)
    requires
        sound(a),
        sound(m),
        a.header == m.header,
        a.tables_placed(),
        0 <= v < a.header.virtual_size,
        refs_kept_from(a, m, v),
        in_one_cluster(a, v),
    ensures
        !goes_on_into(m, v, k),
{
    if goes_on_into(m, v, k) {
        let map = m.cluster_map(v)->Ok_0;
        if let ClusterMap::Compressed { host_off, byte_len } = map {
            let i = a.l1_index(v);
            let j = a.l2_index(v) + 1;
            let first = host_off as int / a.cs();
            lemma_map_covers(m, v, map, k);
            lemma_map_covers(m, v, map, first);
            assert(m.refers(i, j, k) == a.refers(i, j, k));
            assert(m.refers(i, j, first) == a.refers(i, j, first));
            lemma_l1_reaches(a.header, v);
            if a.cluster_map(v) is Ok {
                let was = a.cluster_map(v)->Ok_0;
                lemma_map_covers(a, v, was, k);
                lemma_map_covers(a, v, was, first);
                assert(!goes_on_into(a, v, k));
                assert(!goes_on_into(a, v, first));
            } else {
                assert(!a.refers(i, j, k));
            }
        }
    }
}

/// A write inside one cluster is read back, whatever the device does of the counts that
/// are given up.
pub(crate) proof fn lemma_reads_back(
    a: Image,
    v: int,
    data: Seq<u8>,
    log: Seq<Call>,
    b: Image,
    after: Seq<Call>,
    sure: bool,
)
    requires
        sound(a),
        a.consistent(),
        0 <= v < a.header.virtual_size,
        in_one(a, v, data.len() as int),
        chunk_written(a, v, data, log, b, after, sure),
        b.bytes.len() <= ADDRESSABLE,
    ensures
        reads_back(a, b, v, data),
{
    let none: Set<int> = Set::empty();
    let x = lemma_chunk_outcome(a, v, data, log, b, after, sure);
    lemma_cluster_size(a.header.cluster_bits);
    if x != b {
        assert(!x.some_block_in(0)) by {
            if x.some_block_in(0) {
                let s = choose|s: int| #[trigger] x.block_in(s, 0);
                assert(x.rt_entry(s) != 0);
                lemma_cluster_start(x.cs(), x.rt_entry(s));
            }
        }
        assert(cluster_kept(x, b, 0));
        lemma_cluster_kept_trans(a, x, b, 0);
        assert forall|k: int| #[trigger] held_elsewhere(a, none, k) implies cluster_kept(
            a,
            b,
            k,
        ) by {
            assert(held_elsewhere(x, none, k));
            assert(cluster_kept(x, b, k));
            lemma_cluster_kept_trans(a, x, b, k);
        }
        assert forall|w: int|
            0 <= w && !(v <= w < v + data.len()) && a.guest_byte(w) is Ok implies #[trigger] b.guest_byte(
            w,
        ) == a.guest_byte(w) by {
            assert(x.guest_byte(w) == a.guest_byte(w));
        }
        assert forall|i: int| 0 <= i < data.len() implies b.guest_byte(v + i) == Ok::<u8, Fault>(
            #[trigger] data[i],
        ) by {
            assert(x.guest_byte(v + i) == Ok::<u8, Fault>(data[i]));
            assert(b.guest_byte(v + i) == x.guest_byte(v + i));
        }
    }
}

/// The cluster that takes the place of another one is counted once, and was not counted
/// before.
pub(crate) proof fn lemma_new_cluster(
    a: Image,
    v: int,
    src: Seq<u8>,
    log: Seq<Call>,
    d: Image,
    after: Seq<Call>,
) -> (k: int)
    requires
        sound(a),
        a.consistent(),
        0 <= v < a.header.virtual_size,
        in_one(a, v, src.len() as int),
        chunk_written(a, v, src, log, d, after, true),
        d.bytes.len() <= ADDRESSABLE,
        a.cluster_map(v) matches Ok(m) && (plan_for(a, m) matches Ok(p) && p is Reallocate),
    ensures
        d.cluster_map(v) == Ok::<ClusterMap, Fault>(
            ClusterMap::Plain { host_off: (k * a.cs()) as u64, copied: true },
        ),
        a.refcount(k) == 0,
        d.refcount(k) == 1,
{
    reveal(chunk_written);
    let map = a.cluster_map(v)->Ok_0;
    let p = plan_for(a, map)->Ok_0;
    let seed = p->seed;
    let release = p->release;
    lemma_replaced_outcome(a, v, src, map, seed, release, log, d, after, true);
    let k = choose|k: int| #[trigger] newly_counted(a, d, v, k);
    k
}

/// The first cluster that is free is the one that is claimed.
proof fn lemma_first_is_claimed(
    a: Image,
    k: int,
    claimed: int,
    log: Seq<Call>,
    bytes: Seq<u8>,
    after: Seq<Call>,
)
    requires
        a.first_free(k),
        a.claims(claimed, log, bytes, after),
    ensures
        claimed == k,
        after == settled(log, a.rt_entry(k / a.epb()), a.block_with_count(k, 1)),
{
    reveal(Image::claims);
    assert(a.is_free(k));
    if a.first_free(claimed) {
        assert(a.is_free(claimed));
        if k < claimed {
            assert(!a.is_free(k));
        } else if claimed < k {
            assert(!a.is_free(claimed));
        }
    }
}

/// To set an entry of a table that is the image's own takes one write.
proof fn lemma_entry_in_own_table(
    a: Image,
    i0: int,
    j0: int,
    e: u64,
    log: Seq<Call>,
    c: Image,
    after: Seq<Call>,
)
    requires
        sound(a),
        0 <= j0 < l2_len(a.header),
        0 <= a.l2_table(i0),
        table_is_own(a, i0),
        entry_put(a, i0, j0, e, log, c, after, true),
    ensures
        ({
            let table = a.l2_table(i0);
            after == settled(log, table, c.bytes.subrange(table, table + a.cs()))
        }),
{
    reveal(entry_put);
    reveal(table_made_own);
    lemma_cluster_size(a.header.cluster_bits);
    let (b, between, off) = choose|b: Image, between: Seq<Call>, off: int| #[trigger]
        table_made_own(a, i0, log, b, between, off, true) && off + a.cs() <= b.bytes.len() && c == (
        Image { bytes: overwrite(b.bytes, off + 8 * j0, be64_bytes(e)), ..b }) && after == settled(
            between,
            off,
            overwrite(b.bytes.subrange(off, off + a.cs()), 8 * j0, be64_bytes(e)),
        );
    assert(b == a && between == log && off == a.l2_table(i0));
    assert(overwrite(b.bytes.subrange(off, off + a.cs()), 8 * j0, be64_bytes(e))
        =~= c.bytes.subrange(off, off + a.cs()));
}

/// What is asked of the device when a cluster is replaced, in a table that is the
/// image's own and with a count in a block that is there.
#[verifier::rlimit(100)]
pub(crate) proof fn lemma_calls_in_order(
    a: Image,
    v: int,
    src: Seq<u8>,
    log: Seq<Call>,
    d: Image,
    after: Seq<Call>,
    k: int,
    host_off: u64,
) -> (c: Image)
    requires
        sound(a),
        a.consistent(),
        a.counted(),
        0 <= v < a.header.virtual_size,
        in_one(a, v, src.len() as int),
        chunk_written(a, v, src, log, d, after, true),
        d.bytes.len() <= ADDRESSABLE,
        a.cluster_map(v) matches Ok(m) && (plan_for(a, m) matches Ok(
            WritePlan::Reallocate { release, .. },
        ) && release == Some(host_off)),
        a.first_free(k),
        a.l1[a.l1_index(v)] & L2_FLAG_COPIED != 0,
    ensures
        c.l2_entry(a.l1_index(v), a.l2_index(v)) == fresh_entry((k * a.cs()) as u64),
        ({
            let table = a.l2_table(a.l1_index(v));
            let t = host_off as int / a.cs();
            after == settled(
                settled(
                    settled(
                        settled(log, a.rt_entry(k / a.epb()), a.block_with_count(k, 1)),
                        k * a.cs(),
                        overwrite(cluster_seen(a, v), v % a.cs(), src),
                    ),
                    table,
                    c.bytes.subrange(table, table + a.cs()),
                ),
                c.rt_entry(t / a.epb()),
                c.block_with_count(t, (c.refcount(t) - 1) as u16),
            )
        }),
{
    reveal(chunk_written);
    reveal(cluster_replaced);
    reveal(cluster_put);
    lemma_cluster_size(a.header.cluster_bits);
    let none: Set<int> = Set::empty();
    let map = a.cluster_map(v)->Ok_0;
    lemma_map_covers(a, v, map, 0);
    let release = Some(host_off);
    let (k2, bytes, l1, c, l2) = choose|
        k2: int,
        bytes: Seq<u8>,
        l1: Seq<Call>,
        c: Image,
        l2: Seq<Call>,
    |
        #![trigger a.claims(k2, log, bytes, l1), cluster_put(a, v, src, k2, bytes, l1, c, l2, true)]
        {
            &&& 0 < k2 && k2 * a.cs() <= u64::MAX
            &&& a.holds(v - v % a.cs(), cluster_seen(a, v))
            &&& a.claims(k2, log, bytes, l1)
            &&& cluster_put(a, v, src, k2, bytes, l1, c, l2, true)
            &&& match release {
                Some(host_off) => c.gives_up(host_off as int, l2, d.bytes, after, true) && d == (
                Image { bytes: d.bytes, ..c }),
                None => d == c && after == l2,
            }
        };
    lemma_given_up_calls(c, host_off as int, l2, d.bytes, after, true);
    let seen = cluster_seen(a, v);
    let full = overwrite(seen, v % a.cs(), src);
    let i0 = a.l1_index(v);
    let j0 = a.l2_index(v);
    let e = fresh_entry((k2 * a.cs()) as u64);
    let pins = none.insert(k2);
    assert(pins.contains(k2));
    assert(pins.remove(k2) =~= none);
    lemma_first_is_claimed(a, k, k2, log, bytes, l1);
    lemma_claims(a, k, log, bytes, l1);
    let a1 = Image { bytes, ..a };
    lemma_allocates(a, a1, k, none);
    let a2 = cluster_filled(a, v, src, k, bytes);
    lemma_indexes(a, v);
    assert(full.len() == a.cs());
    lemma_filled_quietly(a1, a2, k, full, pins);
    lemma_new_cluster_filled(a1, a2, k, full);
    let l1b = settled(l1, k * a.cs(), full);
    let x = lemma_entry_put_outcome(a2, i0, j0, k, l1b, c, l2, true, pins);
    lemma_release_ready(a, a1, a2, c, pins, v, k, e, map, host_off);
    let t = host_off as int / a.cs();
    lemma_refs_nonneg(c, t);
    lemma_release_possible(c, host_off as int, none);
    let table = a.l2_table(i0);
    assert(table != 0) by {
        if table == 0 {
            assert(a.cluster_map(v) == Ok::<ClusterMap, Fault>(ClusterMap::Unallocated));
        }
    }
    assert(a2.l2_table(i0) == table);
    assert(table_is_own(a2, i0));
    lemma_entry_in_own_table(a2, i0, j0, e, l1b, c, l2);
    assert(c.released(host_off as int, l2, d.bytes, after)) by {
        reveal(Image::gives_up);
    }
    c
}

/// The L1 table after an entry of an L2 table has been set: only entry `i0` differs, if
/// the table was not the image's own, and it is then marked `COPIED`.
proof fn lemma_entry_l1(
    a: Image,
    i0: int,
    j0: int,
    e: u64,
    log: Seq<Call>,
    c: Image,
    after: Seq<Call>,
    sure: bool,
)
    requires
        entry_put(a, i0, j0, e, log, c, after, sure),
        0 <= i0 < a.l1.len(),
    ensures
        c.l1.len() == a.l1.len(),
        forall|r: int| 0 <= r < a.l1.len() && r != i0 ==> #[trigger] c.l1[r] == a.l1[r],
        table_is_own(a, i0) ==> c.l1 == a.l1,
        !table_is_own(a, i0) ==> c.l1[i0] & L2_FLAG_COPIED != 0,
{
    reveal(entry_put);
    reveal(table_made_own);
    let (b, between, off) = choose|b: Image, between: Seq<Call>, off: int| #[trigger]
        table_made_own(a, i0, log, b, between, off, sure) && off + a.cs() <= b.bytes.len() && c == (
        Image { bytes: overwrite(b.bytes, off + 8 * j0, be64_bytes(e)), ..b }) && after == settled(
            between,
            off,
            overwrite(b.bytes.subrange(off, off + a.cs()), 8 * j0, be64_bytes(e)),
        );
    let table = a.l2_table(i0);
    if table == 0 {
        lemma_table_l1(a, i0, zeros(a.cs()), log, b, between, off);
    } else if !table_is_own(a, i0) {
        let copy = a.bytes.subrange(table, table + a.cs());
        let (m, mid) = choose|m: Image, mid: Seq<Call>| #[trigger]
            table_put(a, i0, copy, log, m, mid, off) && m.gives_up(
                table,
                mid,
                b.bytes,
                between,
                sure,
            ) && b == (Image { bytes: b.bytes, ..m });
        lemma_table_l1(a, i0, copy, log, m, mid, off);
    }
}

/// The L1 table after a table has been put.
proof fn lemma_table_l1(
    a: Image,
    i0: int,
    table: Seq<u8>,
    log: Seq<Call>,
    b: Image,
    after: Seq<Call>,
    off: int,
)
    requires
        table_put(a, i0, table, log, b, after, off),
        0 <= i0 < a.l1.len(),
    ensures
        b.l1 == a.l1.update(i0, fresh_entry(off as u64)),
        b.l1[i0] & L2_FLAG_COPIED != 0,
{
    reveal(table_put);
    let x = off as u64;
    let e = fresh_entry(x);
    let c: u64 = L2_FLAG_COPIED;
    assert(e & c != 0) by (bit_vector)
        requires
            e == (x & OFFSET_MASK) | c,
            c == 0x8000_0000_0000_0000,
    ;
}

/// What was counted at most once, and is counted no more often, is read so.
proof fn lemma_still_counted_once(a: Image, b: Image, v: int, off: int)
    requires
        sound(a),
        sound(b),
        b.header == a.header,
        b.consistent(),
        b.counted(),
        b.bytes.len() <= ADDRESSABLE,
        0 <= off,
        a.refcount(off / a.cs()) != 0,
        counts_moved(a, b, v),
        a.count_read(off) matches Ok(c) && c <= 1,
    ensures
        b.count_read(off) matches Ok(c) && c <= 1,
{
    lemma_count_read(a, off, a.count_read(off)->Ok_0);
    lemma_count_readable(b, Set::empty(), off);
    lemma_count_read(b, off, b.count_read(off)->Ok_0);
    assert(b.refcount(off / a.cs()) == a.refcount(off / a.cs()) - counts_given_up(
        a,
        v,
        off / a.cs(),
    ));
}

/// A table that was the image's own, and that its L1 entry still names, is its own.
proof fn lemma_still_own(a: Image, b: Image, v: int, r: int)
    requires
        sound(a),
        sound(b),
        a.consistent(),
        a.counted(),
        b.header == a.header,
        b.consistent(),
        b.bytes.len() <= ADDRESSABLE,
        counts_moved(a, b, v),
        0 <= r < a.l1.len(),
        a.l1.len() == b.l1.len(),
        b.l1[r] == a.l1[r],
        table_is_own(a, r),
    ensures
        table_is_own(b, r),
{
    lemma_cluster_size(a.header.cluster_bits);
    let table = a.l2_table(r);
    assert(b.l2_table(r) == table);
    if a.l1[r] & L2_FLAG_COPIED == 0 {
        let t = table / a.cs();
        assert(a.refers(r, 0, t));
        lemma_one_reference(a, r, 0, t);
        lemma_count_read(a, table, a.count_read(table)->Ok_0);
        assert(a.refs(t) <= a.refcount(t));
        lemma_still_counted_once(a, b, v, table);
    }
}

/// What is written in its place still is, when another cluster has been written.
proof fn lemma_still_in_place(a: Image, b: Image, v: int, w: int)
    requires
        sound(a),
        sound(b),
        a.consistent(),
        a.counted(),
        b.header == a.header,
        b.consistent(),
        b.bytes.len() <= ADDRESSABLE,
        a.l1.len() == b.l1.len(),
        counts_moved(a, b, v),
        0 <= w < a.header.virtual_size,
        goes_in_place(a, w),
        b.l2_table(a.l1_index(w)) != 0,
        b.l2_entry(a.l1_index(w), a.l2_index(w)) == a.l2_entry(a.l1_index(w), a.l2_index(w)),
    ensures
        goes_in_place(b, w),
        b.cluster_map(w) == a.cluster_map(w),
{
    lemma_cluster_size(a.header.cluster_bits);
    let m = a.cluster_map(w)->Ok_0;
    lemma_l1_reaches(a.header, w);
    assert(b.l2_table(b.l1_index(w)) + b.cs() <= b.bytes.len());
    assert(b.cluster_map(w) == Ok::<ClusterMap, Fault>(m));
    if let ClusterMap::Plain { host_off, copied } = m {
        if !copied {
            let off = host_off as int;
            lemma_map_covers(a, w, m, off / a.cs());
            lemma_one_reference(a, a.l1_index(w), a.l2_index(w) + 1, off / a.cs());
            lemma_count_read(a, off, a.count_read(off)->Ok_0);
            assert(a.refs(off / a.cs()) <= a.refcount(off / a.cs()));
            lemma_still_counted_once(a, b, v, off);
        }
    }
}

/// When one cluster has been written in its place, the others need no more.
proof fn lemma_in_place_needs(
    a: Image,
    v: int,
    src: Seq<u8>,
    map: ClusterMap,
    host_off: u64,
    b: Image,
    next: int,
)
    requires
        sound(a),
        sound(b),
        a.consistent(),
        a.counted(),
        b.consistent(),
        counts_moved(a, b, v),
        0 <= v < next,
        v < a.header.virtual_size,
        0 < src.len(),
        v % a.cs() + src.len() <= a.cs(),
        a.cluster_map(v) == Ok::<ClusterMap, Fault>(map),
        plan_for(a, map) == Ok::<WritePlan, Fault>(WritePlan::InPlace { host_off }),
        b == (Image { bytes: overwrite(a.bytes, host_off + v % a.cs(), src), ..a }),
        b.bytes.len() <= ADDRESSABLE,
    ensures
        needs_no_more(a, b, next),
{
    lemma_written_in_place(a, b, v, src, map, host_off);
    assert forall|w: int|
        next <= w < a.header.virtual_size && goes_in_place(a, w) implies #[trigger] goes_in_place(
        b,
        w,
    ) && b.cluster_map(w) == a.cluster_map(w) by {
        lemma_place_kept(a, b, w);
    }
    assert forall|w: int|
        next <= w < a.header.virtual_size && table_is_own(
            a,
            a.l1_index(w),
        ) implies #[trigger] table_is_own(b, a.l1_index(w)) by {
        lemma_l1_reaches(a.header, w);
        lemma_indexes(a, w);
        lemma_still_own(a, b, v, a.l1_index(w));
    }
}

/// When one cluster has been written, the others need no more, and the table that was
/// changed is the image's own.
#[verifier::rlimit(60)]
pub(crate) proof fn lemma_chunk_needs(
    a: Image,
    v: int,
    src: Seq<u8>,
    log: Seq<Call>,
    b: Image,
    after: Seq<Call>,
    next: int,
)
    requires
        sound(a),
        a.consistent(),
        a.counted(),
        0 <= v < a.header.virtual_size,
        in_one(a, v, src.len() as int),
        chunk_written(a, v, src, log, b, after, true),
        b.bytes.len() <= ADDRESSABLE,
        v - v % a.cs() + a.cs() <= next || a.header.virtual_size <= next,
    ensures
        needs_no_more(a, b, next),
        goes_in_place(a, v) || table_is_own(b, a.l1_index(v)),
{
    lemma_cluster_size(a.header.cluster_bits);
    lemma_l1_reaches(a.header, v);
    let x = lemma_chunk_outcome(a, v, src, log, b, after, true);
    lemma_written_sound(a, b, v, src);
    let map = a.cluster_map(v)->Ok_0;
    let i0 = a.l1_index(v);
    let j0 = a.l2_index(v);
    lemma_indexes(a, v);
    match plan_for(a, map) {
        Ok(WritePlan::InPlace { host_off }) => {
            reveal(chunk_written);
            lemma_in_place_needs(a, v, src, map, host_off, b, next);
        },
        Ok(WritePlan::Reallocate { seed, release }) => {
            lemma_replaced_l1(a, v, src, log, b, after);
            assert(table_is_own(b, i0)) by {
                if table_is_own(a, i0) {
                    lemma_still_own(a, b, v, i0);
                }
            }
            assert forall|w: int|
                next <= w < a.header.virtual_size && table_is_own(
                    a,
                    a.l1_index(w),
                ) implies #[trigger] table_is_own(b, a.l1_index(w)) by {
                lemma_l1_reaches(a.header, w);
                lemma_indexes(a, w);
                if a.l1_index(w) != i0 {
                    lemma_still_own(a, b, v, a.l1_index(w));
                }
            }
            assert forall|w: int|
                next <= w < a.header.virtual_size && goes_in_place(
                    a,
                    w,
                ) implies #[trigger] goes_in_place(b, w) && b.cluster_map(w) == a.cluster_map(
                w,
            ) by {
                lemma_l1_reaches(a.header, w);
                lemma_indexes(a, w);
                lemma_same_index(a, w, v);
                assert(w / a.cs() != v / a.cs()) by {
                    vstd::arithmetic::div_mod::lemma_fundamental_div_mod(v, a.cs());
                    vstd::arithmetic::div_mod::lemma_fundamental_div_mod(w, a.cs());
                }
                let i = a.l1_index(w);
                assert(a.l2_table(i) != 0);
                assert(b.l2_table(i) != 0);
                lemma_still_in_place(a, b, v, w);
            }
        },
        Err(_) => {},
    }
}

/// The L1 table after a cluster has been replaced.
proof fn lemma_replaced_l1(
    a: Image,
    v: int,
    src: Seq<u8>,
    log: Seq<Call>,
    d: Image,
    after: Seq<Call>,
)
    requires
        sound(a),
        a.consistent(),
        a.counted(),
        0 <= v < a.header.virtual_size,
        in_one(a, v, src.len() as int),
        chunk_written(a, v, src, log, d, after, true),
        d.bytes.len() <= ADDRESSABLE,
        a.cluster_map(v) matches Ok(m) && (plan_for(a, m) matches Ok(p) && p is Reallocate),
    ensures
        forall|r: int| 0 <= r < a.l1.len() && r != a.l1_index(v) ==> #[trigger] d.l1[r] == a.l1[r],
        table_is_own(a, a.l1_index(v)) ==> d.l1 == a.l1,
        !table_is_own(a, a.l1_index(v)) ==> d.l1[a.l1_index(v)] & L2_FLAG_COPIED != 0,
        d.l2_table(a.l1_index(v)) != 0,
        other_entries_kept(a, d, a.l1_index(v), a.l2_index(v)),
{
    reveal(chunk_written);
    reveal(cluster_replaced);
    reveal(cluster_put);
    let map = a.cluster_map(v)->Ok_0;
    let p = plan_for(a, map)->Ok_0;
    let release = p->release;
    lemma_map_covers(a, v, map, 0);
    lemma_indexes(a, v);
    let x = lemma_replaced_outcome(a, v, src, map, p->seed, release, log, d, after, true);
    let (k, bytes, l1, c, l2) = choose|
        k: int,
        bytes: Seq<u8>,
        l1: Seq<Call>,
        c: Image,
        l2: Seq<Call>,
    |
        #![trigger a.claims(k, log, bytes, l1), cluster_put(a, v, src, k, bytes, l1, c, l2, true)]
        {
            &&& 0 < k && k * a.cs() <= u64::MAX
            &&& a.holds(v - v % a.cs(), cluster_seen(a, v))
            &&& a.claims(k, log, bytes, l1)
            &&& cluster_put(a, v, src, k, bytes, l1, c, l2, true)
            &&& match release {
                Some(host_off) => c.gives_up(host_off as int, l2, d.bytes, after, true) && d == (
                Image { bytes: d.bytes, ..c }),
                None => d == c && after == l2,
            }
        };
    if let Some(host_off) = release {
        lemma_given_up_calls(c, host_off as int, l2, d.bytes, after, true);
    }
    let a2 = cluster_filled(a, v, src, k, bytes);
    let full = overwrite(cluster_seen(a, v), v % a.cs(), src);
    lemma_entry_grows(
        a2,
        a.l1_index(v),
        a.l2_index(v),
        fresh_entry((k * a.cs()) as u64),
        settled(l1, k * a.cs(), full),
        c,
        l2,
        true,
    );
    lemma_share_kept(a, k, log, bytes, l1, full, a2, a.l1_index(v));
    lemma_entry_l1(
        a2,
        a.l1_index(v),
        a.l2_index(v),
        fresh_entry((k * a.cs()) as u64),
        settled(l1, k * a.cs(), full),
        c,
        l2,
        true,
    );
}

/// Whether a table is shared is the same after a cluster has been allocated and filled.
pub(crate) proof fn lemma_share_kept(
    a: Image,
    k: int,
    log: Seq<Call>,
    bytes: Seq<u8>,
    after: Seq<Call>,
    full: Seq<u8>,
    a2: Image,
    i0: int,
)
    requires
        sound(a),
        a.consistent(),
        a.counted(),
        0 < k,
        k * a.cs() <= u64::MAX,
        a.claims(k, log, bytes, after),
        full.len() == a.cs(),
        a2 == (Image { bytes: overwrite(bytes, k * a.cs(), full), ..a }),
        a2.bytes.len() <= ADDRESSABLE,
        0 <= i0 < a.l1.len(),
    ensures
        table_is_own(a2, i0) == table_is_own(a, i0),
{
    let none: Set<int> = Set::empty();
    let pins = none.insert(k);
    assert(pins.contains(k));
    lemma_claims(a, k, log, bytes, after);
    let a1 = Image { bytes, ..a };
    lemma_allocates(a, a1, k, none);
    lemma_filled_quietly(a1, a2, k, full, pins);
    lemma_fewer_pins(a2, pins, none);
    lemma_same_share(a, a1, a2, i0);
    assert(a2.l2_table(i0) == a.l2_table(i0));
}

} // verus!
