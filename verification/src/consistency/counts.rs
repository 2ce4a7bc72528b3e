//! Changes of reference counts: claiming a cluster, releasing it, and making a
//! refcount block.

use crate::bytes::{
    be16, be16_bytes, be64_bytes, lemma_be16_round_trip, lemma_be64_round_trip, overwrite,
};
use crate::consistency::{
    cluster_kept, held_elsewhere, keeps, lemma_fewer_pins, lemma_step_trans, lemma_untouched_trans,
    same_count, same_counts, same_counts_but, same_data_refs, same_entries, sound, step, untouched,
};
use crate::consistency::frame::{
    changed_in, lemma_be64_same, lemma_cluster_kept, lemma_cluster_start, lemma_clusters_apart,
    lemma_count_framed, lemma_counted_nonneg, lemma_flags_framed, lemma_guest_framed, lemma_indexes,
    lemma_l1_framed, lemma_meta_nonneg, lemma_patch_changes, lemma_place, lemma_quiet_change,
    lemma_refs_framed, lemma_rt_bytes, lemma_rt_framed, lemma_some_block_same,
};
use crate::consistency::refs::{lemma_refs_nonneg, lemma_unreferenced};
use crate::entry::l2_len;
use crate::image::Image;
use crate::refcount::lemma_refcount_geometry;
use vstd::prelude::*;

verus! {

/// `b` is `a` after the count of host cluster `k` has been set to `c`.
pub open spec fn count_set(a: Image, b: Image, k: int, c: u16) -> bool {
    &&& 0 <= k
    &&& a.refcount_entry(k) is Some
    &&& b == (Image {
        bytes: overwrite(
            a.bytes,
            a.rt_entry(k / a.epb()) + 2 * (k % a.epb()),
            be16_bytes(c),
        ),
        ..a
    })
}

/// To set one count changes that count, and neither another count nor anything
/// that a reader sees.
proof fn lemma_count_set(a: Image, b: Image, k: int, c: u16, pins: Set<int>)
    requires
        sound(a),
        a.consistent_with(pins),
        a.counted(),
        count_set(a, b, k, c),
    ensures
        sound(b),
        b.refcount(k) == c,
        forall|kk: int| 0 <= kk && kk != k ==> #[trigger] b.refcount(kk) == a.refcount(kk),
        forall|kk: int| #[trigger] b.refs(kk) == a.refs(kk),
        forall|kk: int| #[trigger] b.is_meta(kk) == a.is_meta(kk),
        forall|i: int, j: int|
            0 <= i < a.l1.len() && 0 <= j < l2_len(a.header) && a.l2_table(i) != 0
                ==> #[trigger] b.l2_entry(i, j) == a.l2_entry(i, j),
        forall|s: int| 0 <= s < a.rt_len() ==> #[trigger] b.rt_entry(s) == a.rt_entry(s),
        b.tables_placed(),
        b.l1_on_device(),
        b.blocks_placed(),
        keeps(a, b, 0, 0),
        same_data_refs(a, b),
        same_entries(a, b),
        same_counts_but(a, b, k),
        cluster_kept(a, b, 0),
        a.bytes.len() == b.bytes.len(),
        forall|kk: int|
            held_elsewhere(a, pins, kk) || pins.contains(kk) ==> #[trigger] cluster_kept(a, b, kk),
{
    lemma_place(a, k);
    lemma_refcount_geometry(a.header);
    let s = k / a.epb();
    let e = k % a.epb();
    let off = a.rt_entry(s);
    let kb = off / a.cs();
    assert(off != 0 && off % a.cs() == 0 && a.cs() <= off && off + a.cs() <= a.bytes.len());
    lemma_patch_changes(a, b, off, 2 * e, be16_bytes(c));
    assert(a.block_in(s, kb));
    assert(a.some_block_in(kb));
    assert(a.is_meta(kb));
    assert(a.refs(kb) == 0);
    lemma_unreferenced(a, kb);
    lemma_refs_framed(a, b, kb, -1, -1);
    lemma_l1_framed(a, b, kb);
    lemma_rt_framed(a, b, kb);
    assert forall|v: int| 0 <= v && a.guest_byte(v) is Ok implies #[trigger] b.guest_byte(v)
        == a.guest_byte(v) by {
        lemma_indexes(a, v);
        lemma_guest_framed(a, b, kb, -1, -1, v);
    }
    assert forall|kk: int| held_elsewhere(a, pins, kk) || pins.contains(
        kk,
    ) implies #[trigger] cluster_kept(a, b, kk) by {
        if pins.contains(kk) {
            lemma_counted_nonneg(a, kk);
        }
        lemma_cluster_kept(a, b, kb, kk);
    }
    assert(b.rt_entry(s) == off);
    assert(b.count_at(s, e) == Some(c)) by {
        lemma_be16_round_trip(b.bytes, off + 2 * e, c);
    }
    lemma_cluster_start(a.cs(), off);
    assert(kb != 0);
    lemma_cluster_kept(a, b, kb, 0);
    assert forall|kk: int| 0 <= kk && kk != k implies #[trigger] same_count(a, b, kk) by {
        lemma_place(a, kk);
        let s2 = kk / a.epb();
        let e2 = kk % a.epb();
        if s2 == s {
            assert(e2 != e);
            let at = off + 2 * e2;
            assert(b.bytes[at] == a.bytes[at] && b.bytes[at + 1] == a.bytes[at + 1]);
        } else if 0 <= s2 < a.rt_len() && a.rt_entry(s2) != 0 {
            if a.block_in(s2, kb) {
                lemma_cluster_start(a.cs(), a.rt_entry(s2));
                lemma_cluster_start(a.cs(), off);
                assert(a.rt_entry(s2) == off);
                if s2 < s {
                    assert(a.rt_entry(s2) != a.rt_entry(s));
                } else {
                    assert(a.rt_entry(s) != a.rt_entry(s2));
                }
            }
            lemma_count_framed(a, b, kb, s2, e2);
        } else if 0 <= s2 < a.rt_len() {
            assert(b.rt_entry(s2) == a.rt_entry(s2));
        }
    }
    assert forall|kk: int| 0 <= kk && kk != k implies #[trigger] b.refcount(kk) == a.refcount(
        kk,
    ) by {
        assert(same_count(a, b, kk));
    }
    assert forall|s2: int, kk: int| #[trigger] b.block_in(s2, kk) == a.block_in(s2, kk) by {
        if 0 <= s2 < a.rt_len() {
            assert(b.rt_entry(s2) == a.rt_entry(s2));
        }
    }
    assert forall|kk: int| #[trigger] b.is_meta(kk) == a.is_meta(kk) by {
        assert(b.l1_in(kk) == a.l1_in(kk));
        lemma_some_block_same(a, b, kk);
    }
    lemma_blocks_placed_same(a, b);
}

proof fn lemma_blocks_placed_same(a: Image, b: Image)
    requires
        a.blocks_placed(),
        a.header == b.header,
        a.l1 == b.l1,
        a.bytes.len() <= b.bytes.len(),
        forall|s: int| 0 <= s < a.rt_len() ==> #[trigger] b.rt_entry(s) == a.rt_entry(s),
    ensures
        b.blocks_placed(),
{
    assert forall|k2: int| !(#[trigger] b.l1_in(k2) && b.rt_in(k2)) by {
        assert(!(a.l1_in(k2) && a.rt_in(k2)));
    }
    assert forall|s: int|
        0 <= s < b.rt_len() && #[trigger] b.rt_entry(s) != 0 implies b.rt_entry(s) % b.cs() == 0
        && b.cs() <= b.rt_entry(s) && b.rt_entry(s) + b.cs() <= b.bytes.len() && !b.l1_in(
        b.rt_entry(s) / b.cs(),
    ) && !b.rt_in(b.rt_entry(s) / b.cs()) by {
        assert(a.rt_entry(s) != 0);
        let k = a.rt_entry(s) / a.cs();
        assert(b.l1_in(k) == a.l1_in(k));
    }
    assert forall|s: int, t: int|
        0 <= s < t < b.rt_len() && b.rt_entry(s) != 0 implies #[trigger] b.rt_entry(s)
        != #[trigger] b.rt_entry(t) by {
        assert(a.rt_entry(s) != a.rt_entry(t));
    }
}

/// The cluster that is handed out first gets its reference.
pub(crate) proof fn lemma_claim(a: Image, b: Image, k: int, pins: Set<int>)
    requires
        sound(a),
        a.consistent_with(pins),
        a.counted(),
        a.first_free(k),
        b == (Image { bytes: a.claimed(k), ..a }),
    ensures
        step(a, pins, b, pins.insert(k), -1),
        !pins.contains(k),
        forall|kk: int| #[trigger]
            held_elsewhere(a, pins, kk) ==> held_elsewhere(b, pins.insert(k), kk),
        forall|kk: int| #[trigger] b.refs(kk) == a.refs(kk),
        same_counts_but(a, b, k),
        a.bytes.len() == b.bytes.len(),
        forall|kk: int|
            0 <= kk ==> #[trigger] b.surplus(kk) == a.surplus(kk) + (if kk == k {
                1int
            } else {
                0
            }),
{
    assert(a.is_free(k));
    assert(a.refcount(k) == 0);
    assert(a.refs(k) <= 0);
    lemma_refs_nonneg(a, k);
    assert(!a.is_meta(k));
    lemma_count_set(a, b, k, 1, pins);
    assert(b.is_meta(k) == a.is_meta(k));
    assert forall|kk: int| 0 <= kk implies #[trigger] b.surplus(kk) == a.surplus(kk) + (if kk
        == k {
        1int
    } else {
        0
    }) by {
        assert(b.is_meta(kk) == a.is_meta(kk));
        assert(b.refs(kk) == a.refs(kk));
        if kk != k {
            assert(b.refcount(kk) == a.refcount(kk));
        }
    }
    lemma_flags_framed(a, b);
    assert forall|kk: int| 0 <= kk implies #[trigger] b.refs(kk) <= b.refcount(kk) by {
        assert(a.refs(kk) <= a.refcount(kk));
        if kk != k {
            assert(b.refcount(kk) == a.refcount(kk));
        }
    }
    assert forall|kk: int| #[trigger] b.is_meta(kk) implies b.refs(kk) == 0 && b.refcount(kk)
        == 1 by {
        assert(a.is_meta(kk));
        lemma_meta_nonneg(a, kk);
    }
    assert forall|kk: int| #[trigger] pins.insert(k).contains(kk) implies b.counted() && b.refs(kk)
        == 0 && !b.is_meta(kk) && b.refcount(kk) == 1 by {
        assert(b.is_meta(kk) == a.is_meta(kk));
        if kk != k {
            assert(pins.contains(kk));
            lemma_counted_nonneg(a, kk);
        }
    }
    assert forall|kk: int| #[trigger] held_elsewhere(a, pins, kk) implies held_elsewhere(
        b,
        pins.insert(k),
        kk,
    ) by {
        assert(kk != k);
        assert(b.refcount(kk) == a.refcount(kk));
        assert(b.is_meta(kk) == a.is_meta(kk));
    }
}

/// A cluster that is counted more often than it is referenced can lose a count.
pub(crate) proof fn lemma_release(a: Image, b: Image, k: int, pins: Set<int>)
    requires
        sound(a),
        a.consistent_with(pins),
        a.counted(),
        !a.is_meta(k),
        !pins.contains(k),
        a.refs(k) < a.refcount(k),
        count_set(a, b, k, (a.refcount(k) - 1) as u16),
    ensures
        step(a, pins, b, pins, -1),
        b.refcount(k) == a.refcount(k) - 1,
        same_counts_but(a, b, k),
        a.bytes.len() == b.bytes.len(),
        forall|kk: int| 0 <= kk && kk != k ==> #[trigger] b.refcount(kk) == a.refcount(kk),
        forall|kk: int| #[trigger] b.refs(kk) == a.refs(kk),
        forall|kk: int| #[trigger] b.is_meta(kk) == a.is_meta(kk),
        forall|i: int| 0 <= i < a.l1.len() ==> b.l2_table(i) == a.l2_table(i),
{
    lemma_refs_nonneg(a, k);
    lemma_count_set(a, b, k, (a.refcount(k) - 1) as u16, pins);
    assert(b.is_meta(k) == a.is_meta(k));
    lemma_flags_framed(a, b);
    assert forall|kk: int| 0 <= kk implies #[trigger] b.refs(kk) <= b.refcount(kk) by {
        assert(a.refs(kk) <= a.refcount(kk));
        if kk != k {
            assert(b.refcount(kk) == a.refcount(kk));
        }
    }
    assert forall|kk: int| #[trigger] b.is_meta(kk) implies b.refs(kk) == 0 && b.refcount(kk)
        == 1 by {
        assert(a.is_meta(kk));
        lemma_meta_nonneg(a, kk);
    }
    assert forall|kk: int| #[trigger] pins.contains(kk) implies b.counted() && b.refs(kk) == 0
        && !b.is_meta(kk) && b.refcount(kk) == 1 by {
        assert(b.is_meta(kk) == a.is_meta(kk));
        lemma_counted_nonneg(a, kk);
    }
}

/// An entry of a table lies in one cluster.
pub(crate) proof fn lemma_entry_in_cluster(cs: int, x: int)
    requires
        cs > 0,
        cs % 8 == 0,
        x >= 0,
        x % 8 == 0,
    ensures
        x / cs * cs <= x,
        x + 8 <= (x / cs + 1) * cs,
        0 <= x / cs,
{
    vstd::arithmetic::div_mod::lemma_fundamental_div_mod(x, cs);
    let q = x / cs;
    let m = cs / 8;
    assert(q * cs == cs * q && (q + 1) * cs == cs * q + cs && cs * q == 8 * (m * q))
        by (nonlinear_arith)
        requires
            cs == 8 * m,
    ;
    assert(q >= 0) by (nonlinear_arith)
        requires
            q == x / cs,
            x >= 0,
            cs > 0,
    ;
}

/// `b` is `a` after the block for entry `s` of the refcount table, which lies on
/// the device already, has been put into the table.
pub open spec fn block_linked(a: Image, b: Image, s: int) -> bool {
    b == (Image {
        bytes: overwrite(a.bytes, a.rt_off() + 8 * s, be64_bytes(a.new_block_off(s) as u64)),
        ..a
    })
}

/// What is at the start of a new refcount block.
proof fn lemma_new_block(img: Image, e: int)
    requires
        img.header.geometry_ok(),
        0 <= e < img.epb(),
    ensures
        be16(img.new_block(), 2 * e) == (if e <= 1 {
            1u16
        } else {
            0u16
        }),
        img.new_block().len() == img.cs(),
{
    lemma_refcount_geometry(img.header);
    let b = img.new_block();
    let c = seq![0u8, 1u8, 0u8, 1u8];
    assert(c.len() == 4);
    if e == 0 {
        assert(b[0] == c[0] && b[1] == c[1]);
    } else if e == 1 {
        assert(b[2] == c[2] && b[3] == c[3]);
    } else {
        assert(b[2 * e] == 0 && b[2 * e + 1] == 0);
    }
}

/// Where a new refcount block is put.
pub(crate) proof fn lemma_new_block_place(a: Image, s: int, pins: Set<int>)
    requires
        sound(a),
        a.consistent_with(pins),
        a.counted(),
        a.first_empty(s),
    ensures
        s > 0,
        a.epb() >= 256,
        ({
            let nb = s * a.epb();
            &&& nb > 0
            &&& nb / a.epb() == s
            &&& nb % a.epb() == 0
            &&& (nb + 1) / a.epb() == s
            &&& (nb + 1) % a.epb() == 1
            &&& a.new_block_off(s) == nb * a.cs()
            &&& a.new_block_off(s) % a.cs() == 0
            &&& a.new_block_off(s) / a.cs() == nb
            &&& a.new_block_off(s) >= a.cs()
            &&& a.refs(nb) == 0 && !a.is_meta(nb) && !pins.contains(nb)
            &&& a.refs(nb + 1) == 0 && !a.is_meta(nb + 1) && !pins.contains(nb + 1)
        }),
{
    lemma_refcount_geometry(a.header);
    let n = a.epb();
    let cs = a.cs();
    let nb = s * n;
    assert(a.is_meta(0));
    assert(a.refcount(0) == 1);
    assert(0int / n == 0) by (nonlinear_arith)
        requires
            n > 0,
    ;
    vstd::arithmetic::div_mod::lemma_fundamental_div_mod_converse(nb, n, s, 0);
    vstd::arithmetic::div_mod::lemma_fundamental_div_mod_converse(nb + 1, n, s, 1);
    vstd::arithmetic::div_mod::lemma_fundamental_div_mod_converse(nb * cs, cs, nb, 0);
    assert(nb > 0) by (nonlinear_arith)
        requires
            nb == s * n,
            s > 0,
            n > 0,
    ;
    assert(nb * cs >= cs) by (nonlinear_arith)
        requires
            nb >= 1,
            cs > 0,
    ;
    assert(a.refcount(nb) == 0 && a.refcount(nb + 1) == 0);
    assert(a.refs(nb) <= 0 && a.refs(nb + 1) <= 0);
    lemma_refs_nonneg(a, nb);
    lemma_refs_nonneg(a, nb + 1);
}

/// A new refcount block that has been written, and is not in the table yet,
/// changes nothing.
pub(crate) proof fn lemma_block_written(a: Image, b: Image, s: int, pins: Set<int>)
    requires
        sound(a),
        a.consistent_with(pins),
        a.counted(),
        a.first_empty(s),
        b == (Image { bytes: a.with_block(s), ..a }),
    ensures
        step(a, pins, b, pins, -1),
        b.first_empty(s),
        forall|kk: int| #[trigger] held_elsewhere(a, pins, kk) ==> held_elsewhere(b, pins, kk),
        a.new_block_off(s) + a.cs() <= b.bytes.len(),
        forall|i: int|
            0 <= i < a.cs() ==> #[trigger] b.bytes[a.new_block_off(s) + i] == a.new_block()[i],
        forall|kk: int| #[trigger] b.refs(kk) == a.refs(kk),
        same_counts(a, b),
        forall|kk: int| 0 <= kk ==> #[trigger] b.surplus(kk) == a.surplus(kk),
{
    lemma_new_block_place(a, s, pins);
    lemma_new_block(a, 0);
    let nb = s * a.epb();
    lemma_cluster_start(a.cs(), a.new_block_off(s));
    assert(changed_in(a, b, nb));
    lemma_quiet_change(a, b, nb, pins);
    assert forall|kk: int| 0 <= kk implies #[trigger] b.surplus(kk) == a.surplus(kk) by {
        assert(b.is_meta(kk) == a.is_meta(kk));
        assert(b.refs(kk) == a.refs(kk));
        assert(b.refcount(kk) == a.refcount(kk));
    }
    assert(b.rt_entry(s) == a.rt_entry(s));
    assert forall|t: int| 0 <= t < s implies #[trigger] b.rt_entry(t) != 0 by {
        assert(a.rt_entry(t) != 0);
    }
    assert(!held_elsewhere(a, pins, nb));
}

/// A new refcount block gives its first two clusters a count of one, and every
/// other cluster keeps its count.
pub(crate) proof fn lemma_block_linked_counts(a: Image, b: Image, s: int, pins: Set<int>)
    requires
        sound(a),
        a.consistent_with(pins),
        a.counted(),
        a.first_empty(s),
        a.new_block_off(s) + a.cs() <= a.bytes.len(),
        a.new_block_off(s) <= u64::MAX,
        forall|i: int|
            0 <= i < a.cs() ==> #[trigger] a.bytes[a.new_block_off(s) + i] == a.new_block()[i],
        block_linked(a, b, s),
    ensures
        sound(b),
        ({
            let kr = (a.rt_off() + 8 * s) / a.cs();
            changed_in(a, b, kr) && a.rt_in(kr)
        }),
        b.rt_entry(s) == a.new_block_off(s),
        forall|t: int| 0 <= t < a.rt_len() && t != s ==> #[trigger] b.rt_entry(t) == a.rt_entry(t),
        forall|kk: int|
            0 <= kk ==> #[trigger] b.refcount(kk) == (if kk == s * a.epb() || kk == s * a.epb()
                + 1 {
                1
            } else {
                a.refcount(kk)
            }),
{
    lemma_new_block_place(a, s, pins);
    lemma_refcount_geometry(a.header);
    let cs = a.cs();
    let n = a.epb();
    let nb = s * n;
    let x = a.rt_off() + 8 * s;
    let kr = x / cs;
    let off = a.new_block_off(s);
    lemma_aligned_8(cs, a.rt_off());
    lemma_entry_in_cluster(cs, x);
    lemma_rt_bytes(a, x);
    assert(changed_in(a, b, kr));
    lemma_be64_round_trip(b.bytes, x, off as u64);
    assert forall|t: int| 0 <= t < a.rt_len() && t != s implies #[trigger] b.rt_entry(t)
        == a.rt_entry(t) by {
        let y = a.rt_off() + 8 * t;
        assert forall|d: int| 0 <= d < 8 implies #[trigger] b.bytes[y + d] == a.bytes[y + d] by {}
        lemma_be64_same(b.bytes, a.bytes, y);
    }
    assert forall|kk: int| 0 <= kk implies #[trigger] b.refcount(kk) == (if kk == nb || kk == nb
        + 1 {
        1
    } else {
        a.refcount(kk)
    }) by {
        lemma_place(a, kk);
        let s2 = kk / n;
        let e2 = kk % n;
        if s2 == s {
            // The block lies apart from the table.
            assert(!a.rt_in(nb));
            lemma_clusters_apart(cs, kr, off);
            lemma_new_block(a, e2);
            let at = off + 2 * e2;
            assert(a.bytes[off + 2 * e2] == a.new_block()[2 * e2]);
            assert(a.bytes[off + (2 * e2 + 1)] == a.new_block()[2 * e2 + 1]);
            assert(b.bytes[at] == a.bytes[at] && b.bytes[at + 1] == a.bytes[at + 1]);
        } else if 0 <= s2 < a.rt_len() {
            assert(b.rt_entry(s2) == a.rt_entry(s2));
            let blk = a.rt_entry(s2);
            if blk != 0 {
                assert(!a.rt_in(blk / cs));
                lemma_clusters_apart(cs, kr, blk);
                let at = blk + 2 * e2;
                assert(b.bytes[at] == a.bytes[at] && b.bytes[at + 1] == a.bytes[at + 1]);
            }
        }
    }
}

/// What is aligned to clusters is aligned to entries.
pub(crate) proof fn lemma_aligned_8(cs: int, x: int)
    requires
        cs > 0,
        cs % 8 == 0,
        x % cs == 0,
    ensures
        x % 8 == 0,
{
    vstd::arithmetic::div_mod::lemma_fundamental_div_mod(x, cs);
    let q = x / cs;
    let m = cs / 8;
    assert(cs * q == 8 * (m * q)) by (nonlinear_arith)
        requires
            cs == 8 * m,
    ;
}

/// A new refcount block counts itself and the cluster that is handed out.
proof fn lemma_block_linked(a: Image, b: Image, s: int, pins: Set<int>)
    requires
        sound(a),
        a.consistent_with(pins),
        a.counted(),
        a.first_empty(s),
        a.new_block_off(s) + a.cs() <= a.bytes.len(),
        a.new_block_off(s) <= u64::MAX,
        forall|i: int|
            0 <= i < a.cs() ==> #[trigger] a.bytes[a.new_block_off(s) + i] == a.new_block()[i],
        block_linked(a, b, s),
    ensures
        step(a, pins, b, pins.insert(s * a.epb() + 1), -1),
        !pins.contains(s * a.epb() + 1),
        forall|kk: int| #[trigger]
            held_elsewhere(a, pins, kk) ==> held_elsewhere(b, pins.insert(s * a.epb() + 1), kk),
        forall|kk: int| #[trigger] b.refs(kk) == a.refs(kk),
        forall|kk: int|
            0 <= kk ==> #[trigger] b.surplus(kk) == a.surplus(kk) + (if kk == s * a.epb() + 1 {
                1int
            } else {
                0
            }),
{
    lemma_block_linked_counts(a, b, s, pins);
    lemma_new_block_place(a, s, pins);
    let cs = a.cs();
    let nb = s * a.epb();
    let kr = (a.rt_off() + 8 * s) / cs;
    assert(a.is_meta(kr));
    assert(!a.l1_in(kr)) by {
        assert(!(a.l1_in(kr) && a.rt_in(kr)));
    }
    lemma_unreferenced(a, kr);
    lemma_refs_framed(a, b, kr, -1, -1);
    lemma_l1_framed(a, b, kr);
    assert forall|v: int| 0 <= v && a.guest_byte(v) is Ok implies #[trigger] b.guest_byte(v)
        == a.guest_byte(v) by {
        lemma_indexes(a, v);
        lemma_guest_framed(a, b, kr, -1, -1, v);
    }
    assert(kr != 0) by {
        lemma_refcount_geometry(a.header);
        vstd::arithmetic::div_mod::lemma_div_is_ordered(cs, a.rt_off() + 8 * s, cs);
        assert(cs / cs == 1) by (nonlinear_arith)
            requires
                cs > 0,
        ;
    }
    lemma_cluster_kept(a, b, kr, 0);
    assert(!a.some_block_in(nb));
    assert(b.blocks_placed()) by {
        assert forall|k2: int| !(#[trigger] b.l1_in(k2) && b.rt_in(k2)) by {
            assert(!(a.l1_in(k2) && a.rt_in(k2)));
        }
        assert forall|t: int|
            0 <= t < b.rt_len() && #[trigger] b.rt_entry(t) != 0 implies b.rt_entry(t) % b.cs()
            == 0 && b.cs() <= b.rt_entry(t) && b.rt_entry(t) + b.cs() <= b.bytes.len() && !b.l1_in(
            b.rt_entry(t) / b.cs(),
        ) && !b.rt_in(b.rt_entry(t) / b.cs()) by {
            if t != s {
                assert(b.rt_entry(t) == a.rt_entry(t));
                assert(a.rt_entry(t) != 0);
            } else {
                assert(!a.l1_in(nb) && !a.rt_in(nb));
            }
            let kt = b.rt_entry(t) / cs;
            assert(b.l1_in(kt) == a.l1_in(kt));
        }
        assert forall|t: int, u: int|
            0 <= t < u < b.rt_len() && b.rt_entry(t) != 0 implies #[trigger] b.rt_entry(t)
            != #[trigger] b.rt_entry(u) by {
            if t != s && u != s {
                assert(a.rt_entry(t) != a.rt_entry(u));
            } else if t == s {
                assert(b.rt_entry(u) == a.rt_entry(u));
                assert(!a.block_in(u, nb));
            } else {
                assert(b.rt_entry(t) == a.rt_entry(t));
                assert(!a.block_in(t, nb));
            }
        }
    }
    assert forall|kk: int| #[trigger] b.is_meta(kk) == (kk == nb || a.is_meta(kk)) by {
        assert(b.l1_in(kk) == a.l1_in(kk));
        if b.some_block_in(kk) {
            let t = choose|t: int| #[trigger] b.block_in(t, kk);
            if t != s {
                assert(b.rt_entry(t) == a.rt_entry(t));
                assert(a.block_in(t, kk));
            }
        }
        if a.some_block_in(kk) {
            let t = choose|t: int| #[trigger] a.block_in(t, kk);
            assert(b.rt_entry(t) == a.rt_entry(t));
            assert(b.block_in(t, kk));
        }
        assert(b.block_in(s, nb));
    }
    assert forall|kk: int| 0 <= kk implies #[trigger] b.surplus(kk) == a.surplus(kk) + (if kk == nb
        + 1 {
        1int
    } else {
        0
    }) by {
        assert(b.is_meta(kk) == (kk == nb || a.is_meta(kk)));
        assert(b.refs(kk) == a.refs(kk));
        assert(b.refcount(kk) == (if kk == nb || kk == nb + 1 {
            1
        } else {
            a.refcount(kk)
        }));
        assert(a.refcount(nb) == 0 && a.refcount(nb + 1) == 0);
    }
    lemma_flags_framed(a, b);
    assert forall|kk: int| 0 <= kk implies #[trigger] b.refs(kk) <= b.refcount(kk) by {
        assert(a.refs(kk) <= a.refcount(kk));
        assert(b.refcount(kk) == (if kk == nb || kk == nb + 1 {
            1
        } else {
            a.refcount(kk)
        }));
    }
    assert forall|kk: int| #[trigger] b.is_meta(kk) implies b.refs(kk) == 0 && b.refcount(kk)
        == 1 by {
        if kk != nb {
            assert(a.is_meta(kk));
            lemma_meta_nonneg(a, kk);
        }
    }
    let pins2 = pins.insert(nb + 1);
    assert forall|kk: int| #[trigger] pins2.contains(kk) implies b.counted() && b.refs(kk) == 0
        && !b.is_meta(kk) && b.refcount(kk) == 1 by {
        if kk != nb + 1 {
            assert(pins.contains(kk));
            lemma_counted_nonneg(a, kk);
            assert(!a.is_meta(kk));
        }
    }
    assert forall|kk: int| held_elsewhere(a, pins, kk) || pins.contains(
        kk,
    ) implies #[trigger] cluster_kept(a, b, kk) by {
        if pins.contains(kk) {
            lemma_counted_nonneg(a, kk);
        }
        lemma_cluster_kept(a, b, kr, kk);
    }
    assert forall|kk: int| #[trigger] held_elsewhere(a, pins, kk) implies held_elsewhere(
        b,
        pins2,
        kk,
    ) by {
        assert(kk != nb && kk != nb + 1);
        assert(b.refcount(kk) == a.refcount(kk));
    }
}

/// An allocation hands out a cluster that nothing used, and changes nothing that
/// a reader sees.
pub(crate) proof fn lemma_allocates(a: Image, b: Image, k: int, pins: Set<int>)
    requires
        sound(a),
        a.consistent_with(pins),
        a.counted(),
        a.allocates(k, b.bytes),
        k * a.cs() <= u64::MAX,
        b == (Image { bytes: b.bytes, ..a }),
    ensures
        step(a, pins, b, pins.insert(k), -1),
        !pins.contains(k),
        forall|kk: int| #[trigger]
            held_elsewhere(a, pins, kk) ==> held_elsewhere(b, pins.insert(k), kk),
        forall|kk: int| #[trigger] b.refs(kk) == a.refs(kk),
        forall|kk: int|
            0 <= kk ==> #[trigger] b.surplus(kk) == a.surplus(kk) + (if kk == k {
                1int
            } else {
                0
            }),
        forall|kk: int|
            0 <= kk && a.refcount(kk) != 0 ==> #[trigger] b.refcount(kk) == a.refcount(kk),
        a.refcount(k) == 0,
{
    if a.first_free(k) && b.bytes == a.claimed(k) {
        lemma_claim(a, b, k, pins);
        assert(a.is_free(k));
        assert forall|kk: int| 0 <= kk && a.refcount(kk) != 0 implies #[trigger] b.refcount(kk)
            == a.refcount(kk) by {
            assert(same_count(a, b, kk));
        }
    } else {
        let s = choose|s: int|
            0 < s && a.none_free() && #[trigger] a.first_empty(s) && k == s * a.epb() + 1 && b.bytes
                == a.grown(s);
        let m = Image { bytes: a.with_block(s), ..a };
        lemma_block_written(a, m, s, pins);
        lemma_new_block_place(a, s, pins);
        assert(a.new_block_off(s) <= k * a.cs()) by (nonlinear_arith)
            requires
                a.new_block_off(s) == s * a.epb() * a.cs(),
                k == s * a.epb() + 1,
                a.cs() > 0,
        ;
        lemma_block_linked(m, b, s, pins);
        lemma_step_trans(a, pins, m, pins, b, pins.insert(k), -1);
        assert forall|kk: int| 0 <= kk implies #[trigger] b.surplus(kk) == a.surplus(kk) + (if kk
            == k {
            1int
        } else {
            0
        }) by {
            assert(m.surplus(kk) == a.surplus(kk));
        }
        assert(a.refcount(s * a.epb()) == 0 && a.refcount(s * a.epb() + 1) == 0);
        lemma_block_linked_counts(m, b, s, pins);
        assert forall|kk: int| 0 <= kk && a.refcount(kk) != 0 implies #[trigger] b.refcount(kk)
            == a.refcount(kk) by {
            assert(same_count(a, m, kk));
        }
    }
}

/// An allocation that is cut short changes nothing that a reader sees.
pub(crate) proof fn lemma_allocation_cut_short(a: Image, b: Image, pins: Set<int>)
    requires
        sound(a),
        a.consistent_with(pins),
        a.allocation_cut_short(b.bytes),
        b == (Image { bytes: b.bytes, ..a }),
    ensures
        keeps(a, b, 0, 0),
        b.consistent_with(pins),
        untouched(a, pins, b),
{
    if b.bytes == a.bytes {
        assert(b == a);
    } else if exists|k: int| #[trigger] a.first_free(k) && k > 0 && b.bytes == a.claimed(k) {
        let k = choose|k: int| #[trigger] a.first_free(k) && k > 0 && b.bytes == a.claimed(k);
        lemma_claim(a, b, k, pins);
        lemma_fewer_pins(b, pins.insert(k), pins);
    } else {
        let s = choose|s: int|
            0 < s && a.none_free() && #[trigger] a.first_empty(s) && a.new_block_off(s) <= u64::MAX
                && (b.bytes == a.with_block(s) || b.bytes == a.grown(s));
        let m = Image { bytes: a.with_block(s), ..a };
        lemma_block_written(a, m, s, pins);
        if b.bytes == a.grown(s) {
            lemma_block_linked(m, b, s, pins);
            lemma_untouched_trans(a, pins, m, pins, b);
            lemma_fewer_pins(b, pins.insert(s * a.epb() + 1), pins);
        }
    }
}

/// What a release writes is the count, less one.
pub(crate) proof fn lemma_release_writes(a: Image, b: Image, host_off: int)
    requires
        sound(a),
        0 <= host_off,
        a.release(host_off) matches Ok(w) && b.bytes == overwrite(a.bytes, w.0, w.1),
        b == (Image { bytes: b.bytes, ..a }),
    ensures
        a.counted(),
        a.refcount(host_off / a.cs()) >= 1,
        count_set(a, b, host_off / a.cs(), (a.refcount(host_off / a.cs()) - 1) as u16),
{
    lemma_refcount_geometry(a.header);
    let k = host_off / a.cs();
    assert(k >= 0) by (nonlinear_arith)
        requires
            k == host_off / a.cs(),
            host_off >= 0,
            a.cs() > 0,
    ;
    lemma_place(a, k);
}

/// In a consistent image, a count that is there can be taken.
pub(crate) proof fn lemma_release_possible(a: Image, host_off: int, pins: Set<int>)
    requires
        sound(a),
        a.consistent_with(pins),
        a.counted(),
        0 <= host_off <= u64::MAX,
        a.refcount(host_off / a.cs()) > 0,
    ensures
        a.release(host_off) is Ok,
{
    lemma_refcount_geometry(a.header);
    let k = host_off / a.cs();
    assert(k >= 0) by (nonlinear_arith)
        requires
            k == host_off / a.cs(),
            host_off >= 0,
            a.cs() > 0,
    ;
    lemma_place(a, k);
    let s = k / a.epb();
    assert(0 <= s < a.rt_len() && a.rt_entry(s) != 0);
    assert(a.rt_entry(s) + a.cs() <= a.bytes.len());
}

} // verus!
