//! What a change in one host cluster leaves alone.

use crate::bytes::{be64, overwrite};
use crate::consistency::{cluster_kept, held_elsewhere, same_count, same_counts, sound, step};
use crate::consistency::refs::{lemma_refs_ext, lemma_unreferenced};
use crate::device::differs_only_within;
use crate::entry::{l2_len, lemma_map_bounded, map_of_entry, ClusterMap};
use crate::header::lemma_cluster_size;
use crate::image::Image;
use crate::refcount::lemma_refcount_geometry;
use vstd::prelude::*;

verus! {

/// What another cluster holds is not changed.
pub(crate) proof fn lemma_cluster_kept(a: Image, b: Image, kc: int, k: int)
    requires
        a.header.geometry_ok(),
        0 <= k,
        k != kc,
        differs_only_within(a.bytes, b.bytes, kc * a.cs(), (kc + 1) * a.cs()),
    ensures
        cluster_kept(a, b, k),
{
    lemma_cluster_size(a.header.cluster_bits);
    let cs = a.cs();
    vstd::arithmetic::div_mod::lemma_fundamental_div_mod_converse(k * cs, cs, k, 0);
    lemma_clusters_apart(cs, kc, k * cs);
    assert(k * cs >= 0) by (nonlinear_arith)
        requires
            k >= 0,
            cs > 0,
    ;
    assert forall|d: int| 0 <= d < cs && k * cs + d < a.bytes.len() implies #[trigger] b.bytes[k * cs
        + d] == a.bytes[k * cs + d] by {
        let at = k * cs + d;
        assert(b.bytes[at] == a.bytes[at]);
    }
}

/// A byte outside host cluster `k` lies before it or after it.
proof fn lemma_outside_cluster(cs: int, k: int, at: int)
    requires
        cs > 0,
        at / cs != k,
    ensures
        at < k * cs || (k + 1) * cs <= at,
{
    vstd::arithmetic::div_mod::lemma_fundamental_div_mod(at, cs);
    let q = at / cs;
    if q < k {
        assert(cs * q + cs <= k * cs) by (nonlinear_arith)
            requires
                q + 1 <= k,
                cs > 0,
        ;
    } else {
        assert(cs * q >= (k + 1) * cs) by (nonlinear_arith)
            requires
                q >= k + 1,
                cs > 0,
        ;
    }
}

/// A cluster lies apart from every other one.
pub(crate) proof fn lemma_clusters_apart(cs: int, k: int, off: int)
    requires
        cs > 0,
        off % cs == 0,
        off / cs != k,
    ensures
        off + cs <= k * cs || (k + 1) * cs <= off,
{
    vstd::arithmetic::div_mod::lemma_fundamental_div_mod(off, cs);
    let q = off / cs;
    if q < k {
        assert(cs * q + cs <= k * cs) by (nonlinear_arith)
            requires
                q + 1 <= k,
                cs > 0,
        ;
    } else {
        assert(cs * q >= (k + 1) * cs) by (nonlinear_arith)
            requires
                q >= k + 1,
                cs > 0,
        ;
    }
}

pub(crate) proof fn lemma_be64_same(s: Seq<u8>, t: Seq<u8>, off: int)
    requires
        forall|d: int| 0 <= d < 8 ==> #[trigger] s[off + d] == t[off + d],
    ensures
        be64(s, off) == be64(t, off),
{
    assert(s[off + 0] == t[off + 0] && s[off + 1] == t[off + 1] && s[off + 2] == t[off + 2] && s[off
        + 3] == t[off + 3]);
    assert(s[off + 4] == t[off + 4] && s[off + 5] == t[off + 5] && s[off + 6] == t[off + 6] && s[off
        + 7] == t[off + 7]);
}

/// `b` is `a`, but for what host cluster `k` holds.
pub open spec fn changed_in(a: Image, b: Image, k: int) -> bool {
    &&& a.header.geometry_ok()
    &&& 0 <= k
    &&& b == (Image { bytes: b.bytes, ..a })
    &&& differs_only_within(a.bytes, b.bytes, k * a.cs(), (k + 1) * a.cs())
}

/// A `u64` of a cluster of the device stays what it was, if the change is in
/// another cluster.
pub(crate) proof fn lemma_other_cluster_u64(a: Image, b: Image, k: int, off: int, at: int)
    requires
        changed_in(a, b, k),
        0 <= off,
        off % a.cs() == 0,
        off / a.cs() != k,
        0 <= at,
        at + 8 <= a.cs(),
        off + a.cs() <= a.bytes.len(),
    ensures
        be64(b.bytes, off + at) == be64(a.bytes, off + at),
{
    lemma_cluster_size(a.header.cluster_bits);
    lemma_clusters_apart(a.cs(), k, off);
    assert forall|d: int| 0 <= d < 8 implies #[trigger] b.bytes[off + at + d] == a.bytes[off + at
        + d] by {}
    lemma_be64_same(b.bytes, a.bytes, off + at);
}

/// No place but place `j0` of row `i0` refers to host cluster `k`, and that
/// place is no table.
pub open spec fn sole_reference(img: Image, k: int, i0: int, j0: int) -> bool {
    forall|i: int, j: int|
        0 <= i < img.l1.len() && 0 <= j <= l2_len(img.header) && #[trigger] img.refers(i, j, k)
            ==> i == i0 && j == j0 && j0 >= 1
}

/// The references are the same, whatever happens inside a cluster that holds no
/// table.
pub(crate) proof fn lemma_refs_framed(a: Image, b: Image, k: int, i0: int, j0: int)
    requires
        changed_in(a, b, k),
        a.tables_placed(),
        sole_reference(a, k, i0, j0),
    ensures
        b.tables_placed(),
        forall|i: int, j: int|
            0 <= i < a.l1.len() && 0 <= j < l2_len(a.header) && a.l2_table(i) != 0
                ==> #[trigger] b.l2_entry(i, j) == a.l2_entry(i, j),
        forall|i: int, j: int, kk: int|
            0 <= i < a.l1.len() && 0 <= j <= l2_len(a.header) ==> #[trigger] b.refers(i, j, kk)
                == a.refers(i, j, kk),
        forall|kk: int| #[trigger] b.refs(kk) == a.refs(kk),
{
    lemma_cluster_size(a.header.cluster_bits);
    assert forall|i: int, j: int|
        0 <= i < a.l1.len() && 0 <= j < l2_len(a.header) && a.l2_table(i)
            != 0 implies #[trigger] b.l2_entry(i, j) == a.l2_entry(i, j) by {
        assert(!a.refers(i, 0, k));
        assert(b.l2_table(i) == a.l2_table(i));
        lemma_other_cluster_u64(a, b, k, a.l2_table(i), 8 * j);
    }
    assert forall|i: int, j: int, kk: int|
        0 <= i < a.l1.len() && 0 <= j <= l2_len(a.header) implies #[trigger] b.refers(i, j, kk)
        == a.refers(i, j, kk) by {
        assert(b.l2_table(i) == a.l2_table(i));
        if j > 0 && a.l2_table(i) != 0 {
            assert(b.l2_entry(i, j - 1) == a.l2_entry(i, j - 1));
        }
    }
    assert forall|kk: int| #[trigger] b.refs(kk) == a.refs(kk) by {
        lemma_refs_ext(a, b, kk);
    }
    assert forall|i: int|
        0 <= i < b.l1.len() && #[trigger] b.l2_table(i) != 0 implies b.l2_table(i) % b.cs() == 0
        && b.l2_table(i) + b.cs() <= b.bytes.len() by {
        assert(a.l2_table(i) != 0);
    }
}

/// A byte of the virtual disk is the same, if its entry is the same and the
/// change is in a cluster that this entry does not name.
pub(crate) proof fn lemma_guest_entry(a: Image, b: Image, k: int, v: int)
    requires
        a.header.geometry_ok(),
        0 <= k,
        b.header == a.header,
        b.backing == a.backing,
        b.l1.len() == a.l1.len(),
        differs_only_within(a.bytes, b.bytes, k * a.cs(), (k + 1) * a.cs()),
        0 <= v,
        a.guest_byte(v) is Ok,
        ({
            let i = a.l1_index(v);
            let j = a.l2_index(v);
            i < a.l1.len() ==> {
                &&& a.l2_table(i) == 0 <==> b.l2_table(i) == 0
                &&& a.l2_table(i) != 0 ==> {
                    &&& b.l2_table(i) + b.cs() <= b.bytes.len()
                    &&& b.l2_entry(i, j) == a.l2_entry(i, j)
                    &&& !a.refers(i, j + 1, k)
                }
            }
        }),
    ensures
        b.guest_byte(v) == a.guest_byte(v),
{
    lemma_cluster_size(a.header.cluster_bits);
    let cs = a.cs();
    let i = a.l1_index(v);
    let j = a.l2_index(v);
    lemma_indexes(a, v);
    if i < a.l1.len() && a.l2_table(i) != 0 {
        let e = a.l2_entry(i, j);
        lemma_map_bounded(a.header, e);
        match map_of_entry(a.header, e) {
            Some(ClusterMap::Plain { host_off, .. }) => {
                assert(host_off as int / cs != k);
                assert(host_off as int % cs == 0);
                lemma_clusters_apart(cs, k, host_off as int);
                let at = host_off + v % cs;
                assert(b.bytes[at] == a.bytes[at]);
            },
            Some(ClusterMap::Compressed { host_off, byte_len }) => {
                let lo = host_off as int;
                let hi = host_off + byte_len;
                if hi <= a.bytes.len() {
                    assert forall|at: int| lo <= at < hi implies b.bytes[at] == a.bytes[at] by {
                        vstd::arithmetic::div_mod::lemma_div_is_ordered(lo, at, cs);
                        vstd::arithmetic::div_mod::lemma_div_is_ordered(at, hi - 1, cs);
                        lemma_outside_cluster(cs, k, at);
                    }
                    assert(b.bytes.subrange(lo, hi) =~= a.bytes.subrange(lo, hi));
                }
            },
            _ => {},
        }
    }
}

/// The virtual disk is the same, but for the cluster that is found in host
/// cluster `k`.
pub(crate) proof fn lemma_guest_framed(a: Image, b: Image, k: int, i0: int, j0: int, v: int)
    requires
        changed_in(a, b, k),
        a.tables_placed(),
        sole_reference(a, k, i0, j0),
        0 <= v,
        !(a.l1_index(v) == i0 && a.l2_index(v) + 1 == j0),
        a.guest_byte(v) is Ok,
    ensures
        b.guest_byte(v) == a.guest_byte(v),
{
    lemma_refs_framed(a, b, k, i0, j0);
    let i = a.l1_index(v);
    let j = a.l2_index(v);
    lemma_indexes(a, v);
    if i < a.l1.len() && a.l2_table(i) != 0 {
        assert(b.l2_table(i) == a.l2_table(i));
        assert(b.l2_entry(i, j) == a.l2_entry(i, j));
        assert(!a.refers(i, j + 1, k));
    }
    lemma_guest_entry(a, b, k, v);
}

/// The place in the tables of a byte of the virtual disk.
pub(crate) proof fn lemma_indexes(img: Image, v: int)
    requires
        img.header.geometry_ok(),
        0 <= v,
    ensures
        img.cs() > 0,
        l2_len(img.header) > 0,
        0 <= img.l1_index(v),
        0 <= img.l2_index(v) < l2_len(img.header),
        0 <= v % img.cs() < img.cs(),
{
    lemma_cluster_size(img.header.cluster_bits);
    let cs = img.cs();
    let n = l2_len(img.header);
    assert(0 <= v / cs && 0 <= v % cs < cs) by (nonlinear_arith)
        requires
            v >= 0,
            cs > 0,
    ;
    let q = v / cs;
    assert(0 <= q / n && 0 <= q % n < n) by (nonlinear_arith)
        requires
            q >= 0,
            n > 0,
    ;
}

/// The bytes of the L1 table lie in its clusters.
pub(crate) proof fn lemma_l1_bytes(img: Image, at: int)
    requires
        sound(img),
        img.header.l1_table_offset <= at < img.header.l1_table_offset + 8 * img.l1.len(),
    ensures
        img.l1_in(at / img.cs()),
{
    lemma_cluster_size(img.header.cluster_bits);
    vstd::arithmetic::div_mod::lemma_div_is_ordered(
        img.header.l1_table_offset as int,
        at,
        img.cs(),
    );
    vstd::arithmetic::div_mod::lemma_div_is_ordered(
        at,
        img.header.l1_table_offset + 8 * img.l1.len() - 1,
        img.cs(),
    );
}

/// The bytes of the refcount table lie in its clusters.
pub(crate) proof fn lemma_rt_bytes(img: Image, at: int)
    requires
        sound(img),
        img.rt_off() <= at < img.rt_off() + img.header.refcount_table_bytes(),
    ensures
        img.rt_in(at / img.cs()),
{
    lemma_cluster_size(img.header.cluster_bits);
    let cs = img.cs();
    let n = img.header.refcount_table_clusters as int;
    let q = img.rt_off() / cs;
    vstd::arithmetic::div_mod::lemma_fundamental_div_mod(img.rt_off(), cs);
    vstd::arithmetic::div_mod::lemma_div_is_ordered(img.rt_off(), at, cs);
    assert(img.rt_off() == cs * q);
    assert(cs * q + n * cs == cs * (q + n)) by (nonlinear_arith);
    vstd::arithmetic::div_mod::lemma_multiply_divide_lt(at, cs, q + n);
}

/// The L1 table on the device stays, if the change is in a cluster apart from it.
pub(crate) proof fn lemma_l1_framed(a: Image, b: Image, k: int)
    requires
        sound(a),
        changed_in(a, b, k),
        a.l1_on_device(),
        !a.l1_in(k),
    ensures
        b.l1_on_device(),
{
    lemma_cluster_size(a.header.cluster_bits);
    assert forall|i: int| 0 <= i < b.l1.len() implies be64(
        b.bytes,
        b.header.l1_table_offset + 8 * i,
    ) == #[trigger] b.l1[i] by {
        let off = a.header.l1_table_offset + 8 * i;
        assert(a.l1[i] == be64(a.bytes, off));
        assert forall|d: int| 0 <= d < 8 implies #[trigger] b.bytes[off + d] == a.bytes[off
            + d] by {
            lemma_l1_bytes(a, off + d);
            lemma_outside_cluster(a.cs(), k, off + d);
        }
        lemma_be64_same(b.bytes, a.bytes, off);
    }
}

/// The refcount table stays, if the change is in a cluster apart from it.
pub(crate) proof fn lemma_rt_framed(a: Image, b: Image, k: int)
    requires
        sound(a),
        changed_in(a, b, k),
        !a.rt_in(k),
    ensures
        forall|s: int| 0 <= s < a.rt_len() ==> #[trigger] b.rt_entry(s) == a.rt_entry(s),
{
    lemma_refcount_geometry(a.header);
    assert forall|s: int| 0 <= s < a.rt_len() implies #[trigger] b.rt_entry(s) == a.rt_entry(
        s,
    ) by {
        let off = a.rt_off() + 8 * s;
        assert forall|d: int| 0 <= d < 8 implies #[trigger] b.bytes[off + d] == a.bytes[off
            + d] by {
            lemma_rt_bytes(a, off + d);
            lemma_outside_cluster(a.cs(), k, off + d);
        }
        lemma_be64_same(b.bytes, a.bytes, off);
    }
}

/// The place of a count.
pub(crate) proof fn lemma_place(img: Image, k: int)
    requires
        img.header.geometry_ok(),
        0 <= k,
    ensures
        img.epb() >= 256,
        img.cs() == 2 * img.epb(),
        0 <= k / img.epb(),
        0 <= k % img.epb() < img.epb(),
        k == k / img.epb() * img.epb() + k % img.epb(),
{
    lemma_refcount_geometry(img.header);
    let n = img.epb();
    assert(0 <= k / n && 0 <= k % n < n && k == k / n * n + k % n) by (nonlinear_arith)
        requires
            k >= 0,
            n > 0,
    ;
}

/// A count in one block stays, if the change is in another cluster.
pub(crate) proof fn lemma_count_framed(a: Image, b: Image, k: int, s: int, e: int)
    requires
        sound(a),
        changed_in(a, b, k),
        a.blocks_placed(),
        !a.rt_in(k),
        !a.block_in(s, k),
        0 <= e < a.epb(),
    ensures
        b.count_at(s, e) == a.count_at(s, e),
{
    lemma_rt_framed(a, b, k);
    lemma_refcount_geometry(a.header);
    if 0 <= s < a.rt_len() {
        assert(b.rt_entry(s) == a.rt_entry(s));
        let off = a.rt_entry(s);
        if off != 0 {
            lemma_clusters_apart(a.cs(), k, off);
        }
    }
}

/// The counts stay, if the change is in a cluster that holds none.
pub(crate) proof fn lemma_counts_framed(a: Image, b: Image, k: int)
    requires
        sound(a),
        changed_in(a, b, k),
        a.blocks_placed(),
        !a.rt_in(k),
        !a.some_block_in(k),
    ensures
        forall|s: int| 0 <= s < a.rt_len() ==> #[trigger] b.rt_entry(s) == a.rt_entry(s),
        forall|kk: int| 0 <= kk ==> #[trigger] b.refcount(kk) == a.refcount(kk),
        same_counts(a, b),
        forall|s: int, kk: int| #[trigger] b.block_in(s, kk) == a.block_in(s, kk),
        b.blocks_placed(),
{
    lemma_rt_framed(a, b, k);
    assert forall|kk: int| 0 <= kk implies #[trigger] same_count(a, b, kk) by {
        lemma_place(a, kk);
        assert(!a.block_in(kk / a.epb(), k));
        lemma_count_framed(a, b, k, kk / a.epb(), kk % a.epb());
    }
    assert forall|kk: int| 0 <= kk implies #[trigger] b.refcount(kk) == a.refcount(kk) by {
        assert(same_count(a, b, kk));
    }
    assert forall|s: int, kk: int| #[trigger] b.block_in(s, kk) == a.block_in(s, kk) by {
        if 0 <= s < a.rt_len() {
            assert(b.rt_entry(s) == a.rt_entry(s));
        }
    }
    assert(b.blocks_placed()) by {
        assert forall|k2: int| !(#[trigger] b.l1_in(k2) && b.rt_in(k2)) by {
            assert(!(a.l1_in(k2) && a.rt_in(k2)));
        }
        assert forall|s: int|
            0 <= s < b.rt_len() && #[trigger] b.rt_entry(s) != 0 implies b.rt_entry(s) % b.cs()
            == 0 && b.cs() <= b.rt_entry(s) && b.rt_entry(s) + b.cs() <= b.bytes.len() && !b.l1_in(
            b.rt_entry(s) / b.cs(),
        ) && !b.rt_in(b.rt_entry(s) / b.cs()) by {
            assert(a.rt_entry(s) != 0);
        }
        assert forall|s: int, t: int|
            0 <= s < t < b.rt_len() && b.rt_entry(s) != 0 implies #[trigger] b.rt_entry(s)
            != #[trigger] b.rt_entry(t) by {
            assert(a.rt_entry(s) != a.rt_entry(t));
        }
    }
}

/// The flags tell the truth as long as the entries, the references and the counts
/// of what they name stay.
pub(crate) proof fn lemma_flags_framed(a: Image, b: Image)
    requires
        a.flags_true(),
        a.header == b.header,
        a.l1 == b.l1,
        forall|i: int, j: int|
            0 <= i < a.l1.len() && 0 <= j < l2_len(a.header) && a.l2_table(i) != 0
                ==> #[trigger] b.l2_entry(i, j) == a.l2_entry(i, j),
        forall|kk: int| #[trigger] b.refs(kk) == a.refs(kk),
        a.counted() ==> (forall|kk: int|
            0 <= kk && a.refs(kk) == 1 && a.refcount(kk) == 1 ==> #[trigger] b.refcount(kk) == 1),
        a.header.geometry_ok(),
    ensures
        b.flags_true(),
{
    lemma_cluster_size(a.header.cluster_bits);
    assert forall|i: int| #[trigger] b.l1_copied(i) implies b.refs(b.l2_table(i) / b.cs()) == 1 && (
    b.counted() ==> b.refcount(b.l2_table(i) / b.cs()) == 1) by {
        assert(a.l1_copied(i));
        assert(a.l2_table(i) == b.l2_table(i));
        let t = a.l2_table(i) / a.cs();
        assert(t >= 0) by (nonlinear_arith)
            requires
                t == a.l2_table(i) / a.cs(),
                a.l2_table(i) >= 0,
                a.cs() > 0,
        ;
    }
    assert forall|i: int, j: int, k: int| #[trigger] b.l2_copied(i, j, k) implies b.refs(k) == 1
        && (b.counted() ==> b.refcount(k) == 1) by {
        assert(a.l2_table(i) == b.l2_table(i));
        assert(b.l2_entry(i, j) == a.l2_entry(i, j));
        assert(a.l2_copied(i, j, k));
        match map_of_entry(a.header, a.l2_entry(i, j)) {
            Some(ClusterMap::Plain { host_off, .. }) => {
                assert(k >= 0) by (nonlinear_arith)
                    requires
                        k == host_off as int / a.cs(),
                        host_off >= 0,
                        a.cs() > 0,
                ;
            },
            _ => {},
        }
    }
}

/// A change inside a cluster that nothing refers to and that holds no structure
/// of the image changes nothing.
pub(crate) proof fn lemma_quiet_change(a: Image, b: Image, k: int, pins: Set<int>)
    requires
        sound(a),
        a.consistent_with(pins),
        changed_in(a, b, k),
        a.refs(k) == 0,
        !a.is_meta(k),
    ensures
        step(a, pins, b, pins, k),
        forall|kk: int| #[trigger] held_elsewhere(a, pins, kk) ==> held_elsewhere(b, pins, kk),
        forall|kk: int| #[trigger] b.refs(kk) == a.refs(kk),
        forall|kk: int| #[trigger] b.is_meta(kk) == a.is_meta(kk),
        a.counted() ==> (forall|s: int|
            0 <= s < a.rt_len() ==> #[trigger] b.rt_entry(s) == a.rt_entry(s)) && (forall|kk: int|
            0 <= kk ==> #[trigger] b.refcount(kk) == a.refcount(kk)) && same_counts(a, b),
{
    assert(a.is_meta(0));
    lemma_cluster_kept(a, b, k, 0);
    lemma_unreferenced(a, k);
    lemma_refs_framed(a, b, k, -1, -1);
    lemma_l1_framed(a, b, k);
    assert forall|v: int| 0 <= v && a.guest_byte(v) is Ok implies #[trigger] b.guest_byte(v)
        == a.guest_byte(v) by {
        lemma_indexes(a, v);
        lemma_guest_framed(a, b, k, -1, -1, v);
    }
    if a.counted() {
        lemma_counts_framed(a, b, k);
    }
    assert forall|kk: int| #[trigger] b.is_meta(kk) == a.is_meta(kk) by {
        assert(b.l1_in(kk) == a.l1_in(kk));
        if a.counted() {
            lemma_some_block_same(a, b, kk);
        }
    }
    lemma_flags_framed(a, b);
    assert forall|kk: int| 0 <= kk && b.counted() implies #[trigger] b.refs(kk) <= b.refcount(
        kk,
    ) by {
        assert(a.refs(kk) <= a.refcount(kk));
    }
    assert forall|kk: int| #[trigger] b.is_meta(kk) implies b.refs(kk) == 0 && (b.counted()
        ==> b.refcount(kk) == 1) by {
        assert(a.is_meta(kk));
        lemma_meta_nonneg(a, kk);
    }
    assert forall|kk: int| #[trigger] pins.contains(kk) implies b.counted() && b.refs(kk) == 0
        && !b.is_meta(kk) && b.refcount(kk) == 1 by {
        assert(b.is_meta(kk) == a.is_meta(kk));
        lemma_counted_nonneg(a, kk);
    }
    assert forall|kk: int|
        (held_elsewhere(a, pins, kk) || pins.contains(kk)) && kk != k implies #[trigger] cluster_kept(
        a,
        b,
        kk,
    ) by {
        if pins.contains(kk) {
            lemma_counted_nonneg(a, kk);
        }
        lemma_cluster_kept(a, b, k, kk);
    }
}

pub(crate) proof fn lemma_some_block_same(a: Image, b: Image, k: int)
    requires
        forall|s: int, kk: int| #[trigger] b.block_in(s, kk) == a.block_in(s, kk),
    ensures
        b.some_block_in(k) == a.some_block_in(k),
{
    if a.some_block_in(k) {
        let s = choose|s: int| #[trigger] a.block_in(s, k);
        assert(b.block_in(s, k));
    }
    if b.some_block_in(k) {
        let s = choose|s: int| #[trigger] b.block_in(s, k);
        assert(a.block_in(s, k));
    }
}

/// The clusters of the image's structures are clusters of the device.
pub(crate) proof fn lemma_meta_nonneg(img: Image, k: int)
    requires
        sound(img),
        img.is_meta(k),
    ensures
        0 <= k,
{
    lemma_cluster_size(img.header.cluster_bits);
    let cs = img.cs();
    assert(img.header.l1_table_offset as int / cs >= 0 && img.rt_off() / cs >= 0)
        by (nonlinear_arith)
        requires
            img.header.l1_table_offset >= 0,
            img.rt_off() >= 0,
            cs > 0,
    ;
    if img.counted() && img.some_block_in(k) {
        let s = choose|s: int| #[trigger] img.block_in(s, k);
        let off = img.rt_entry(s);
        assert(off / cs >= 0) by (nonlinear_arith)
            requires
                off >= 0,
                cs > 0,
        ;
    }
}

/// Only a cluster of the device has a count.
pub(crate) proof fn lemma_counted_nonneg(img: Image, k: int)
    requires
        sound(img),
        img.refcount(k) > 0,
    ensures
        0 <= k,
{
    lemma_refcount_geometry(img.header);
    let n = img.epb();
    if k < 0 {
        assert(k / n < 0) by (nonlinear_arith)
            requires
                k < 0,
                n > 0,
        ;
    }
}

/// The start of a cluster, from its number.
pub(crate) proof fn lemma_cluster_start(cs: int, off: int)
    requires
        cs > 0,
        off >= 0,
        off % cs == 0,
    ensures
        off == off / cs * cs,
        (off / cs + 1) * cs == off + cs,
        off / cs >= 0,
{
    vstd::arithmetic::div_mod::lemma_fundamental_div_mod(off, cs);
    let q = off / cs;
    assert(q * cs == cs * q && (q + 1) * cs == cs * q + cs) by (nonlinear_arith);
    assert(q >= 0) by (nonlinear_arith)
        requires
            q == off / cs,
            off >= 0,
            cs > 0,
    ;
}

/// Bytes that are laid over a part of a cluster change that cluster alone.
pub(crate) proof fn lemma_patch_changes(a: Image, b: Image, off: int, at: int, data: Seq<u8>)
    requires
        a.header.geometry_ok(),
        0 <= off,
        off % a.cs() == 0,
        0 <= at,
        at + data.len() <= a.cs(),
        b == (Image { bytes: overwrite(a.bytes, off + at, data), ..a }),
    ensures
        changed_in(a, b, off / a.cs()),
{
    lemma_cluster_size(a.header.cluster_bits);
    lemma_cluster_start(a.cs(), off);
}

/// The tables find one cluster for the bytes of one cluster, and for no others.
pub(crate) proof fn lemma_same_index(img: Image, v: int, w: int)
    requires
        img.header.geometry_ok(),
        0 <= v,
        0 <= w,
    ensures
        (img.l1_index(v) == img.l1_index(w) && img.l2_index(v) == img.l2_index(w)) <==> v / img.cs()
            == w / img.cs(),
{
    lemma_cluster_size(img.header.cluster_bits);
    let n = l2_len(img.header);
    let p = v / img.cs();
    let q = w / img.cs();
    vstd::arithmetic::div_mod::lemma_fundamental_div_mod(p, n);
    vstd::arithmetic::div_mod::lemma_fundamental_div_mod(q, n);
}

} // verus!
