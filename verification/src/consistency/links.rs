//! Changes of the tables: a data cluster or an L2 table that is put into them, and
//! data that is written where it is.

use crate::bytes::{be64, be64_bytes, lemma_be64_round_trip, overwrite};
use crate::consistency::{
    cluster_kept, entry_covers, held_elsewhere, keeps, other_entries_kept, other_refs_kept,
    reopened, same_count, same_counts, same_data_refs, same_entries, sound, step, untouched,
};
use crate::consistency::counts::{lemma_aligned_8, lemma_entry_in_cluster};
use crate::consistency::frame::{
    changed_in, lemma_be64_same, lemma_cluster_kept, lemma_cluster_start, lemma_counted_nonneg,
    lemma_counts_framed, lemma_flags_framed, lemma_guest_entry, lemma_guest_framed, lemma_indexes,
    lemma_l1_bytes, lemma_l1_framed, lemma_meta_nonneg, lemma_other_cluster_u64,
    lemma_patch_changes, lemma_refs_framed, lemma_some_block_same, sole_reference,
};
use crate::consistency::refs::{
    lemma_one_reference, lemma_refs_update, lemma_two_references, lemma_unreferenced,
};
use crate::entry::{
    l2_len, map_of_entry, ClusterMap, L2_FLAG_COMPRESSED, L2_FLAG_COPIED, L2_FLAG_ZERO, OFFSET_MASK,
};
use crate::header::lemma_cluster_size;
use crate::image::{Fault, Image};
use vstd::prelude::*;

verus! {

/// The entry that points at a cluster of the device names that cluster, and
/// nothing else.
pub(crate) proof fn lemma_entry_for(img: Image, k: int, e: u64)
    requires
        img.header.geometry_ok(),
        0 < k,
        k * img.cs() + img.cs() <= 0x100_0000_0000_0000,
        e == ((k * img.cs()) as u64 & OFFSET_MASK) | L2_FLAG_COPIED,
    ensures
        e & OFFSET_MASK == k * img.cs(),
        e & L2_FLAG_COPIED != 0,
        map_of_entry(img.header, e) == Some(
            ClusterMap::Plain { host_off: (k * img.cs()) as u64, copied: true },
        ),
        k * img.cs() > 0,
        (k * img.cs()) / img.cs() == k,
        (k * img.cs()) % img.cs() == 0,
{
    lemma_cluster_size(img.header.cluster_bits);
    let cs = img.cs();
    let m = cs / 512;
    let off = k * cs;
    assert(off == 512 * (k * m)) by (nonlinear_arith)
        requires
            off == k * cs,
            cs == 512 * m,
    ;
    assert(off > 0) by (nonlinear_arith)
        requires
            off == k * cs,
            k > 0,
            cs > 0,
    ;
    let x: u64 = off as u64;
    assert(x % 512 == 0);
    let c: u64 = L2_FLAG_COPIED;
    let z: u64 = L2_FLAG_COMPRESSED;
    let zero: u64 = L2_FLAG_ZERO;
    assert(x & OFFSET_MASK == x && e & OFFSET_MASK == x && e & c != 0 && e & z == 0 && e & zero
        == 0) by (bit_vector)
        requires
            x % 512 == 0,
            x < 0x100_0000_0000_0000,
            e == (x & OFFSET_MASK) | c,
            c == 0x8000_0000_0000_0000,
            z == 0x4000_0000_0000_0000,
            zero == 1,
    ;
    vstd::arithmetic::div_mod::lemma_fundamental_div_mod_converse(off, cs, k, 0);
}

/// `b` is `a` after entry `j0` of the L2 table of row `i0` has been set to `e`.
pub open spec fn l2_entry_set(a: Image, b: Image, i0: int, j0: int, e: u64) -> bool {
    &&& 0 <= i0 < a.l1.len()
    &&& 0 <= j0 < l2_len(a.header)
    &&& a.l2_table(i0) != 0
    &&& b == (Image {
        bytes: overwrite(a.bytes, a.l2_table(i0) + 8 * j0, be64_bytes(e)),
        ..a
    })
}

/// To set an entry of a table that nothing else refers to changes that entry
/// alone.
proof fn lemma_l2_entry_set(a: Image, b: Image, i0: int, j0: int, e: u64)
    requires
        sound(a),
        a.tables_placed(),
        a.refs(a.l2_table(i0) / a.cs()) == 1,
        l2_entry_set(a, b, i0, j0, e),
    ensures
        sound(b),
        changed_in(a, b, a.l2_table(i0) / a.cs()),
        b.bytes.len() == a.bytes.len(),
        b.tables_placed(),
        b.l2_entry(i0, j0) == e,
        forall|i: int, j: int|
            0 <= i < a.l1.len() && 0 <= j < l2_len(a.header) && a.l2_table(i) != 0 && !(i == i0 && j
                == j0) ==> #[trigger] b.l2_entry(i, j) == a.l2_entry(i, j),
        forall|i: int, j: int, kk: int|
            0 <= i < a.l1.len() && 0 <= j <= l2_len(a.header) && !(i == i0 && j == j0 + 1)
                ==> #[trigger] b.refers(i, j, kk) == a.refers(i, j, kk),
        forall|kk: int| #[trigger]
            b.refs(kk) == a.refs(kk) - (if a.refers(i0, j0 + 1, kk) {
                1int
            } else {
                0
            }) + (if entry_covers(a, e, kk) {
                1int
            } else {
                0
            }),
        forall|i: int, j: int|
            0 <= i < a.l1.len() && 1 <= j <= l2_len(a.header) ==> !#[trigger] a.refers(
                i,
                j,
                a.l2_table(i0) / a.cs(),
            ),
{
    lemma_cluster_size(a.header.cluster_bits);
    let cs = a.cs();
    let off = a.l2_table(i0);
    let t = off / cs;
    lemma_patch_changes(a, b, off, 8 * j0, be64_bytes(e));
    lemma_be64_round_trip(b.bytes, off + 8 * j0, e);
    assert(a.refers(i0, 0, t));
    assert forall|i: int, j: int|
        0 <= i < a.l1.len() && 0 <= j <= l2_len(a.header) && #[trigger] a.refers(i, j, t) implies i
        == i0 && j == 0 by {
        if !(i == i0 && j == 0) {
            lemma_two_references(a, i, j, i0, 0, t);
        }
    }
    assert forall|i: int, j: int|
        0 <= i < a.l1.len() && 0 <= j < l2_len(a.header) && a.l2_table(i) != 0 && !(i == i0 && j
            == j0) implies #[trigger] b.l2_entry(i, j) == a.l2_entry(i, j) by {
        assert(b.l2_table(i) == a.l2_table(i));
        if i == i0 {
            let at = off + 8 * j;
            assert forall|d: int| 0 <= d < 8 implies #[trigger] b.bytes[at + d] == a.bytes[at
                + d] by {}
            lemma_be64_same(b.bytes, a.bytes, at);
        } else {
            assert(!a.refers(i, 0, t));
            lemma_other_cluster_u64(a, b, t, a.l2_table(i), 8 * j);
        }
    }
    assert forall|i: int, j: int, kk: int|
        0 <= i < a.l1.len() && 0 <= j <= l2_len(a.header) && !(i == i0 && j == j0
            + 1) implies #[trigger] b.refers(i, j, kk) == a.refers(i, j, kk) by {
        assert(b.l2_table(i) == a.l2_table(i));
        if j > 0 && a.l2_table(i) != 0 {
            assert(b.l2_entry(i, j - 1) == a.l2_entry(i, j - 1));
        }
    }
    assert forall|kk: int| #[trigger] b.refs(kk) == a.refs(kk) - (if a.refers(i0, j0 + 1, kk) {
        1int
    } else {
        0
    }) + (if entry_covers(a, e, kk) {
        1int
    } else {
        0
    }) by {
        lemma_refs_update(a, b, i0, j0 + 1, kk);
        assert(b.l2_table(i0) == a.l2_table(i0));
    }
    assert forall|i: int|
        0 <= i < b.l1.len() && #[trigger] b.l2_table(i) != 0 implies b.l2_table(i) % b.cs() == 0
        && b.l2_table(i) + b.cs() <= b.bytes.len() by {
        assert(a.l2_table(i) != 0);
    }
}

/// A pinned cluster is linked into a table: the entry that is overwritten loses
/// its reference, the pin becomes one.
#[verifier::rlimit(100)]
pub(crate) proof fn lemma_link_data(
    a: Image,
    b: Image,
    i0: int,
    j0: int,
    e: u64,
    k: int,
    pins: Set<int>,
)
    requires
        sound(a),
        a.consistent_with(pins),
        a.refs(a.l2_table(i0) / a.cs()) == 1,
        a.refcount(a.l2_table(i0) / a.cs()) == 1,
        l2_entry_set(a, b, i0, j0, e),
        pins.contains(k),
        k * a.cs() + a.cs() <= 0x100_0000_0000_0000,
        k * a.cs() + a.cs() <= a.bytes.len(),
        e == ((k * a.cs()) as u64 & OFFSET_MASK) | L2_FLAG_COPIED,
    ensures
        sound(b),
        b.consistent_with(pins.remove(k)),
        b.l2_entry(i0, j0) == e,
        forall|kk: int| 0 <= kk ==> #[trigger] b.refcount(kk) == a.refcount(kk),
        forall|kk: int| #[trigger] b.is_meta(kk) == a.is_meta(kk),
        forall|kk: int| #[trigger]
            b.refs(kk) == a.refs(kk) - (if a.refers(i0, j0 + 1, kk) {
                1int
            } else {
                0
            }) + (if kk == k {
                1int
            } else {
                0
            }),
        forall|v: int|
            0 <= v && !(a.l1_index(v) == i0 && a.l2_index(v) == j0) && a.guest_byte(v) is Ok
                ==> #[trigger] b.guest_byte(v) == a.guest_byte(v),
        forall|kk: int|
            held_elsewhere(a, pins, kk) || pins.contains(kk) ==> #[trigger] cluster_kept(a, b, kk),
        cluster_kept(a, b, 0),
        same_counts(a, b),
        b.bytes.len() == a.bytes.len(),
        forall|s: int| 0 <= s < a.rt_len() ==> #[trigger] b.rt_entry(s) == a.rt_entry(s),
        other_refs_kept(a, b, i0, j0),
        other_entries_kept(a, b, i0, j0),
{
    lemma_counted_nonneg(a, k);
    assert(a.is_meta(0));
    assert(k > 0);
    lemma_entry_for(a, k, e);
    lemma_l2_entry_set(a, b, i0, j0, e);
    lemma_cluster_size(a.header.cluster_bits);
    let cs = a.cs();
    let t = a.l2_table(i0) / cs;
    lemma_cluster_start(cs, a.l2_table(i0));
    assert forall|kk: int| entry_covers(a, e, kk) == (kk == k) by {}
    assert(!a.is_meta(t));
    assert(k != t);
    lemma_cluster_kept(a, b, t, 0);
    lemma_counts_framed(a, b, t);
    lemma_l1_framed(a, b, t);
    assert forall|kk: int| #[trigger] b.is_meta(kk) == a.is_meta(kk) by {
        assert(b.l1_in(kk) == a.l1_in(kk));
        lemma_some_block_same(a, b, kk);
    }
    assert forall|v: int|
        0 <= v && !(a.l1_index(v) == i0 && a.l2_index(v) == j0) && a.guest_byte(v)
            is Ok implies #[trigger] b.guest_byte(v) == a.guest_byte(v) by {
        lemma_indexes(a, v);
        let i = a.l1_index(v);
        let j = a.l2_index(v);
        if i < a.l1.len() && a.l2_table(i) != 0 {
            assert(b.l2_table(i) == a.l2_table(i));
            assert(b.l2_entry(i, j) == a.l2_entry(i, j));
            assert(!a.refers(i, j + 1, t));
        }
        lemma_guest_entry(a, b, t, v);
    }
    assert forall|kk: int| #[trigger] b.is_meta(kk) implies b.refs(kk) == 0 && b.refcount(kk)
        == 1 by {
        assert(a.is_meta(kk));
        lemma_meta_nonneg(a, kk);
        if a.refers(i0, j0 + 1, kk) {
            lemma_one_reference(a, i0, j0 + 1, kk);
        }
    }
    assert forall|kk: int| #[trigger] pins.remove(k).contains(kk) implies b.counted() && b.refs(kk)
        == 0 && !b.is_meta(kk) && b.refcount(kk) == 1 by {
        assert(pins.contains(kk) && kk != k);
        assert(b.is_meta(kk) == a.is_meta(kk));
        lemma_counted_nonneg(a, kk);
        if a.refers(i0, j0 + 1, kk) {
            lemma_one_reference(a, i0, j0 + 1, kk);
        }
    }
    assert forall|kk: int| 0 <= kk implies #[trigger] b.refs(kk) <= b.refcount(kk) by {
        assert(a.refs(kk) <= a.refcount(kk));
    }
    assert(b.flags_true()) by {
        assert forall|i: int| #[trigger] b.l1_copied(i) implies b.refs(b.l2_table(i) / b.cs()) == 1
            && (b.counted() ==> b.refcount(b.l2_table(i) / b.cs()) == 1) by {
            assert(a.l1_copied(i));
            assert(a.l2_table(i) == b.l2_table(i));
            let ti = a.l2_table(i) / cs;
            lemma_cluster_start(cs, a.l2_table(i));
            assert(a.refers(i, 0, ti));
            if a.refers(i0, j0 + 1, ti) {
                lemma_two_references(a, i, 0, i0, j0 + 1, ti);
            }
        }
        assert forall|i: int, j: int, kk: int| #[trigger] b.l2_copied(i, j, kk) implies b.refs(kk)
            == 1 && (b.counted() ==> b.refcount(kk) == 1) by {
            assert(a.l2_table(i) == b.l2_table(i));
            if i == i0 && j == j0 {
                assert(kk == k);
                if a.refers(i0, j0 + 1, k) {
                    lemma_one_reference(a, i0, j0 + 1, k);
                }
            } else {
                assert(b.l2_entry(i, j) == a.l2_entry(i, j));
                assert(a.l2_copied(i, j, kk));
                assert(a.refers(i, j + 1, kk));
                lemma_counted_nonneg(a, kk);
                if a.refers(i0, j0 + 1, kk) {
                    lemma_two_references(a, i, j + 1, i0, j0 + 1, kk);
                }
            }
        }
    }
    assert forall|kk: int| held_elsewhere(a, pins, kk) || pins.contains(
        kk,
    ) implies #[trigger] cluster_kept(a, b, kk) by {
        if pins.contains(kk) {
            lemma_counted_nonneg(a, kk);
        }
        lemma_cluster_kept(a, b, t, kk);
    }
}

/// The entry that is zero stands for a cluster that is not there.
proof fn lemma_zero_entry(img: Image)
    ensures
        map_of_entry(img.header, 0) == Some(ClusterMap::Unallocated),
{
    assert(0u64 & L2_FLAG_COMPRESSED == 0 && 0u64 & L2_FLAG_ZERO == 0 && 0u64 & OFFSET_MASK == 0)
        by (bit_vector);
}

/// The cluster at `off` holds an L2 table that says the same as the one of row
/// `i0`: it is a copy of that table or, if there is none, empty.
pub open spec fn table_stands_in(img: Image, i0: int, off: int) -> bool {
    forall|j: int|
        0 <= j < l2_len(img.header) ==> #[trigger] be64(img.bytes, off + 8 * j) == (
        if img.l2_table(i0) == 0 {
            0
        } else {
            img.l2_entry(i0, j)
        })
}

/// `b` is `a` after L1 entry `i0` has been set to `e`, on the device and in
/// memory.
pub open spec fn l1_entry_set(a: Image, b: Image, i0: int, e: u64) -> bool {
    &&& 0 <= i0 < a.l1.len()
    &&& b == (Image {
        l1: a.l1.update(i0, e),
        bytes: overwrite(a.bytes, a.header.l1_table_offset + 8 * i0, be64_bytes(e)),
        ..a
    })
}

/// To set an L1 entry on the device changes nothing that is reached through the
/// tables.
proof fn lemma_l1_bytes_set(a: Image, m: Image, i0: int, e: u64, pins: Set<int>)
    requires
        sound(a),
        a.consistent_with(pins),
        0 <= i0 < a.l1.len(),
        m == (Image {
            bytes: overwrite(a.bytes, a.header.l1_table_offset + 8 * i0, be64_bytes(e)),
            ..a
        }),
    ensures
        sound(m),
        ({
            let kl = (a.header.l1_table_offset + 8 * i0) / a.cs();
            changed_in(a, m, kl) && a.l1_in(kl) && a.refs(kl) == 0
        }),
        m.bytes.len() == a.bytes.len(),
        be64(m.bytes, a.header.l1_table_offset + 8 * i0) == e,
        forall|i: int|
            0 <= i < a.l1.len() && i != i0 ==> be64(m.bytes, a.header.l1_table_offset + 8 * i)
                == #[trigger] a.l1[i],
        m.tables_placed(),
        forall|i: int, j: int|
            0 <= i < a.l1.len() && 0 <= j < l2_len(a.header) && a.l2_table(i) != 0
                ==> #[trigger] m.l2_entry(i, j) == a.l2_entry(i, j),
        forall|i: int, j: int, kk: int|
            0 <= i < a.l1.len() && 0 <= j <= l2_len(a.header) ==> #[trigger] m.refers(i, j, kk)
                == a.refers(i, j, kk),
        forall|kk: int| #[trigger] m.refs(kk) == a.refs(kk),
        a.counted() ==> m.blocks_placed() && (forall|kk: int|
            0 <= kk ==> #[trigger] m.refcount(kk) == a.refcount(kk)) && same_counts(a, m) && (
        forall|s: int, kk: int| #[trigger] m.block_in(s, kk) == a.block_in(s, kk)),
        cluster_kept(a, m, 0),
        keeps(a, m, 0, 0),
{
    lemma_cluster_size(a.header.cluster_bits);
    let cs = a.cs();
    let x = a.header.l1_table_offset + 8 * i0;
    let kl = x / cs;
    lemma_aligned_8(cs, a.header.l1_table_offset as int);
    lemma_entry_in_cluster(cs, x);
    lemma_l1_bytes(a, x);
    assert(a.is_meta(kl));
    assert(changed_in(a, m, kl));
    assert(kl != 0) by {
        vstd::arithmetic::div_mod::lemma_div_is_ordered(cs, x, cs);
        assert(cs / cs == 1) by (nonlinear_arith)
            requires
                cs > 0,
        ;
    }
    lemma_cluster_kept(a, m, kl, 0);
    lemma_be64_round_trip(m.bytes, x, e);
    assert forall|i: int| 0 <= i < a.l1.len() && i != i0 implies be64(
        m.bytes,
        a.header.l1_table_offset + 8 * i,
    ) == #[trigger] a.l1[i] by {
        let y = a.header.l1_table_offset + 8 * i;
        assert forall|d: int| 0 <= d < 8 implies #[trigger] m.bytes[y + d] == a.bytes[y + d] by {}
        lemma_be64_same(m.bytes, a.bytes, y);
    }
    lemma_unreferenced(a, kl);
    lemma_refs_framed(a, m, kl, -1, -1);
    if a.counted() {
        assert(!(a.l1_in(kl) && a.rt_in(kl)));
        assert(!a.some_block_in(kl)) by {
            if a.some_block_in(kl) {
                let s = choose|s: int| #[trigger] a.block_in(s, kl);
                assert(!a.l1_in(a.rt_entry(s) / cs));
            }
        }
        lemma_counts_framed(a, m, kl);
    }
    assert forall|v: int| 0 <= v && a.guest_byte(v) is Ok implies #[trigger] m.guest_byte(v)
        == a.guest_byte(v) by {
        lemma_indexes(a, v);
        lemma_guest_framed(a, m, kl, -1, -1, v);
    }
}

/// A pinned table takes the place of the table of row `i0`, which says the same.
#[verifier::rlimit(100)]
pub(crate) proof fn lemma_link_table(a: Image, b: Image, i0: int, e: u64, k: int, pins: Set<int>)
    requires
        sound(a),
        a.consistent_with(pins),
        l1_entry_set(a, b, i0, e),
        pins.contains(k),
        k * a.cs() + a.cs() <= 0x100_0000_0000_0000,
        k * a.cs() + a.cs() <= a.bytes.len(),
        e == ((k * a.cs()) as u64 & OFFSET_MASK) | L2_FLAG_COPIED,
        table_stands_in(a, i0, k * a.cs()),
    ensures
        b.l2_table(i0) == k * a.cs(),
        b.refs(k) == 1,
        forall|kk: int| 0 <= kk ==> #[trigger] b.refcount(kk) == a.refcount(kk),
        forall|kk: int| #[trigger] b.is_meta(kk) == a.is_meta(kk),
        forall|kk: int| #[trigger]
            b.refs(kk) == a.refs(kk) - (if a.refers(i0, 0, kk) {
                1int
            } else {
                0
            }) + (if kk == k {
                1int
            } else {
                0
            }),
        step(a, pins, b, pins.remove(k), -1),
        same_counts(a, b),
        b.bytes.len() == a.bytes.len(),
{
    lemma_counted_nonneg(a, k);
    assert(a.is_meta(0));
    assert(k > 0);
    lemma_entry_for(a, k, e);
    lemma_zero_entry(a);
    lemma_cluster_size(a.header.cluster_bits);
    let cs = a.cs();
    let off = k * cs;
    let m = Image { bytes: b.bytes, ..a };
    lemma_l1_bytes_set(a, m, i0, e, pins);
    let kl = (a.header.l1_table_offset + 8 * i0) / cs;
    assert(a.is_meta(kl));
    assert(k != kl);
    assert(b.l2_table(i0) == off);
    assert forall|i: int| 0 <= i < a.l1.len() && i != i0 implies #[trigger] b.l2_table(i)
        == a.l2_table(i) by {}
    // The new table lies apart from the L1 table.
    assert forall|j: int| 0 <= j < l2_len(a.header) implies #[trigger] b.l2_entry(i0, j) == be64(
        a.bytes,
        off + 8 * j,
    ) by {
        lemma_other_cluster_u64(a, m, kl, off, 8 * j);
    }
    assert forall|i: int, j: int|
        0 <= i < a.l1.len() && 0 <= j < l2_len(a.header) && i != i0 && a.l2_table(i)
            != 0 implies #[trigger] b.l2_entry(i, j) == a.l2_entry(i, j) by {
        assert(b.l2_table(i) == a.l2_table(i));
        assert(m.l2_entry(i, j) == a.l2_entry(i, j));
    }
    assert forall|j: int, kk: int| 1 <= j <= l2_len(a.header) implies #[trigger] b.refers(i0, j, kk)
        == a.refers(i0, j, kk) by {
        assert(b.l2_entry(i0, j - 1) == be64(a.bytes, off + 8 * (j - 1)));
    }
    assert forall|i: int, j: int, kk: int|
        0 <= i < a.l1.len() && 0 <= j <= l2_len(a.header) && !(i == i0 && j
            == 0) implies #[trigger] b.refers(i, j, kk) == a.refers(i, j, kk) by {
        if i != i0 {
            assert(b.l2_table(i) == a.l2_table(i));
            if j > 0 && a.l2_table(i) != 0 {
                assert(b.l2_entry(i, j - 1) == a.l2_entry(i, j - 1));
            }
        }
    }
    assert forall|kk: int| #[trigger] b.refs(kk) == a.refs(kk) - (if a.refers(i0, 0, kk) {
        1int
    } else {
        0
    }) + (if kk == k {
        1int
    } else {
        0
    }) by {
        lemma_refs_update(a, b, i0, 0, kk);
    }
    assert(!a.refers(i0, 0, k)) by {
        if a.refers(i0, 0, k) {
            lemma_one_reference(a, i0, 0, k);
        }
    }
    lemma_link_table_counts(a, m, b, i0, k, pins);
    assert forall|kk: int| 0 <= kk implies #[trigger] same_count(a, b, kk) by {
        assert(same_count(a, m, kk));
        assert(b.count_at(kk / a.epb(), kk % a.epb()) == m.count_at(kk / a.epb(), kk % a.epb()));
    }
    assert(cluster_kept(a, b, 0)) by {
        assert forall|d: int| 0 <= d < a.cs() && 0 * a.cs() + d < a.bytes.len() implies #[trigger] b.bytes[0
            * a.cs() + d] == a.bytes[0 * a.cs() + d] by {
            assert(m.bytes[0 * a.cs() + d] == a.bytes[0 * a.cs() + d]);
        }
    }
    assert(b.tables_placed()) by {
        assert forall|i: int|
            0 <= i < b.l1.len() && #[trigger] b.l2_table(i) != 0 implies b.l2_table(i) % b.cs() == 0
            && b.l2_table(i) + b.cs() <= b.bytes.len() by {
            if i != i0 {
                assert(a.l2_table(i) != 0);
            }
        }
    }
    assert(b.l1_on_device()) by {
        assert forall|i: int| 0 <= i < b.l1.len() implies be64(
            b.bytes,
            b.header.l1_table_offset + 8 * i,
        ) == #[trigger] b.l1[i] by {
            if i != i0 {
                assert(b.l1[i] == a.l1[i]);
            }
        }
    }
    assert(b.flags_true()) by {
        lemma_link_table_flags(a, b, i0, k, pins);
    }
    assert(keeps(a, b, 0, 0)) by {
        assert forall|v: int| 0 <= v && a.guest_byte(v) is Ok implies #[trigger] b.guest_byte(v)
            == a.guest_byte(v) by {
            lemma_link_table_guest(a, m, b, i0, v, off, kl);
        }
    }
    assert forall|kk: int| held_elsewhere(a, pins, kk) || pins.contains(
        kk,
    ) implies #[trigger] cluster_kept(a, b, kk) by {
        if pins.contains(kk) {
            lemma_counted_nonneg(a, kk);
        }
        lemma_cluster_kept(a, b, kl, kk);
    }
}

proof fn lemma_link_table_counts(a: Image, m: Image, b: Image, i0: int, k: int, pins: Set<int>)
    requires
        sound(a),
        a.consistent_with(pins),
        a.counted(),
        pins.contains(k),
        0 <= i0 < a.l1.len(),
        m == (Image { bytes: b.bytes, ..a }),
        b == (Image { l1: b.l1, bytes: b.bytes, ..a }),
        b.l1.len() == a.l1.len(),
        m.blocks_placed(),
        forall|kk: int| 0 <= kk ==> #[trigger] m.refcount(kk) == a.refcount(kk),
        forall|s: int, kk: int| #[trigger] m.block_in(s, kk) == a.block_in(s, kk),
        forall|kk: int| #[trigger]
            b.refs(kk) == a.refs(kk) - (if a.refers(i0, 0, kk) {
                1int
            } else {
                0
            }) + (if kk == k {
                1int
            } else {
                0
            }),
    ensures
        b.blocks_placed(),
        forall|kk: int| 0 <= kk ==> #[trigger] b.refcount(kk) == a.refcount(kk),
        forall|kk: int| #[trigger] b.is_meta(kk) == a.is_meta(kk),
        forall|kk: int| #[trigger] b.is_meta(kk) ==> b.refs(kk) == 0,
        forall|kk: int| #[trigger] b.is_meta(kk) ==> b.refcount(kk) == 1,
        forall|kk: int| 0 <= kk ==> #[trigger] b.refs(kk) <= b.refcount(kk),
        forall|kk: int| #[trigger]
            pins.remove(k).contains(kk) ==> b.counted() && b.refs(kk) == 0 && !b.is_meta(kk)
                && b.refcount(kk) == 1,
{
    assert forall|s: int| #[trigger] b.rt_entry(s) == m.rt_entry(s) by {}
    assert forall|kk: int| #[trigger] b.l1_in(kk) == m.l1_in(kk) by {}
    assert forall|kk: int| 0 <= kk implies #[trigger] b.refcount(kk) == a.refcount(kk) by {
        assert(b.refcount(kk) == m.refcount(kk));
    }
    assert(b.blocks_placed()) by {
        assert forall|k2: int| !(#[trigger] b.l1_in(k2) && b.rt_in(k2)) by {
            assert(!(m.l1_in(k2) && m.rt_in(k2)));
        }
        assert forall|s: int|
            0 <= s < b.rt_len() && #[trigger] b.rt_entry(s) != 0 implies b.rt_entry(s) % b.cs()
            == 0 && b.cs() <= b.rt_entry(s) && b.rt_entry(s) + b.cs() <= b.bytes.len() && !b.l1_in(
            b.rt_entry(s) / b.cs(),
        ) && !b.rt_in(b.rt_entry(s) / b.cs()) by {
            assert(m.rt_entry(s) != 0);
        }
        assert forall|s: int, t: int|
            0 <= s < t < b.rt_len() && b.rt_entry(s) != 0 implies #[trigger] b.rt_entry(s)
            != #[trigger] b.rt_entry(t) by {
            assert(m.rt_entry(s) != m.rt_entry(t));
        }
    }
    assert forall|kk: int| #[trigger] b.is_meta(kk) == a.is_meta(kk) by {
        assert(b.l1_in(kk) == a.l1_in(kk));
        assert forall|s: int, k2: int| #[trigger] b.block_in(s, k2) == a.block_in(s, k2) by {
            assert(m.block_in(s, k2) == a.block_in(s, k2));
            assert(b.rt_entry(s) == m.rt_entry(s));
        }
        lemma_some_block_same(a, b, kk);
    }
    assert forall|kk: int| #[trigger] b.is_meta(kk) implies b.refs(kk) == 0 && b.refcount(kk)
        == 1 by {
        assert(a.is_meta(kk));
        lemma_meta_nonneg(a, kk);
        if a.refers(i0, 0, kk) {
            lemma_one_reference(a, i0, 0, kk);
        }
    }
    assert forall|kk: int| #[trigger] pins.remove(k).contains(kk) implies b.counted() && b.refs(kk)
        == 0 && !b.is_meta(kk) && b.refcount(kk) == 1 by {
        assert(pins.contains(kk) && kk != k);
        assert(b.is_meta(kk) == a.is_meta(kk));
        lemma_counted_nonneg(a, kk);
        if a.refers(i0, 0, kk) {
            lemma_one_reference(a, i0, 0, kk);
        }
    }
    assert forall|kk: int| 0 <= kk implies #[trigger] b.refs(kk) <= b.refcount(kk) by {
        assert(a.refs(kk) <= a.refcount(kk));
    }
}

proof fn lemma_link_table_flags(a: Image, b: Image, i0: int, k: int, pins: Set<int>)
    requires
        sound(a),
        a.consistent_with(pins),
        a.counted(),
        pins.contains(k),
        0 <= i0 < a.l1.len(),
        b.header == a.header,
        b.l1.len() == a.l1.len(),
        b.l2_table(i0) / a.cs() == k,
        forall|i: int| 0 <= i < a.l1.len() && i != i0 ==> b.l1[i] == a.l1[i],
        forall|i: int, j: int|
            0 <= i < a.l1.len() && 0 <= j < l2_len(a.header) && i != i0 && a.l2_table(i) != 0
                ==> #[trigger] b.l2_entry(i, j) == a.l2_entry(i, j),
        forall|j: int|
            0 <= j < l2_len(a.header) ==> #[trigger] b.l2_entry(i0, j) == (if a.l2_table(i0) == 0 {
                0
            } else {
                a.l2_entry(i0, j)
            }),
        forall|kk: int| 0 <= kk ==> #[trigger] b.refcount(kk) == a.refcount(kk),
        forall|kk: int| #[trigger]
            b.refs(kk) == a.refs(kk) - (if a.refers(i0, 0, kk) {
                1int
            } else {
                0
            }) + (if kk == k {
                1int
            } else {
                0
            }),
        !a.refers(i0, 0, k),
    ensures
        b.flags_true(),
{
    lemma_cluster_size(a.header.cluster_bits);
    lemma_zero_entry(a);
    lemma_counted_nonneg(a, k);
    let cs = a.cs();
    assert forall|i: int| #[trigger] b.l1_copied(i) implies b.refs(b.l2_table(i) / b.cs()) == 1 && (
    b.counted() ==> b.refcount(b.l2_table(i) / b.cs()) == 1) by {
        if i != i0 {
            assert(b.l1[i] == a.l1[i]);
            assert(a.l1_copied(i));
            let ti = a.l2_table(i) / cs;
            lemma_cluster_start(cs, a.l2_table(i));
            assert(a.refers(i, 0, ti));
            if a.refers(i0, 0, ti) {
                lemma_two_references(a, i, 0, i0, 0, ti);
            }
        }
    }
    assert forall|i: int, j: int, kk: int| #[trigger] b.l2_copied(i, j, kk) implies b.refs(kk) == 1
        && (b.counted() ==> b.refcount(kk) == 1) by {
        if i != i0 {
            assert(b.l1[i] == a.l1[i]);
            assert(b.l2_entry(i, j) == a.l2_entry(i, j));
        } else {
            assert(b.l2_entry(i0, j) == (if a.l2_table(i0) == 0 {
                0
            } else {
                a.l2_entry(i0, j)
            }));
        }
        assert(a.l2_copied(i, j, kk));
        assert(a.refers(i, j + 1, kk));
        lemma_counted_nonneg(a, kk);
        if a.refers(i0, 0, kk) {
            lemma_two_references(a, i, j + 1, i0, 0, kk);
        }
    }
}

proof fn lemma_link_table_guest(a: Image, m: Image, b: Image, i0: int, v: int, off: int, kl: int)
    requires
        sound(a),
        0 <= v,
        a.guest_byte(v) is Ok,
        a.tables_placed(),
        0 <= i0 < a.l1.len(),
        m == (Image { bytes: b.bytes, ..a }),
        b == (Image { l1: b.l1, bytes: b.bytes, ..a }),
        b.l1.len() == a.l1.len(),
        changed_in(a, m, kl),
        a.refs(kl) == 0,
        b.l2_table(i0) == off,
        off != 0,
        off + a.cs() <= b.bytes.len(),
        table_stands_in(a, i0, off),
        forall|j: int|
            0 <= j < l2_len(a.header) ==> #[trigger] b.l2_entry(i0, j) == be64(
                a.bytes,
                off + 8 * j,
            ),
        forall|i: int| 0 <= i < a.l1.len() && i != i0 ==> #[trigger] b.l2_table(i) == a.l2_table(i),
        forall|i: int, j: int|
            0 <= i < a.l1.len() && 0 <= j < l2_len(a.header) && i != i0 && a.l2_table(i) != 0
                ==> #[trigger] b.l2_entry(i, j) == a.l2_entry(i, j),
    ensures
        b.guest_byte(v) == a.guest_byte(v),
{
    lemma_indexes(a, v);
    lemma_zero_entry(a);
    lemma_unreferenced(a, kl);
    let i = a.l1_index(v);
    let j = a.l2_index(v);
    if i < a.l1.len() {
        if i == i0 {
            assert(b.l2_entry(i0, j) == be64(a.bytes, off + 8 * j));
            assert(be64(a.bytes, off + 8 * j) == (if a.l2_table(i0) == 0 {
                0
            } else {
                a.l2_entry(i0, j)
            }));
            if a.l2_table(i0) != 0 {
                assert(!a.refers(i, j + 1, kl));
                lemma_guest_entry(a, b, kl, v);
            } else {
                assert(a.guest_byte(v) == a.backing_byte(v));
                assert(b.guest_byte(v) == b.backing_byte(v));
            }
        } else {
            assert(b.l2_table(i) == a.l2_table(i));
            if a.l2_table(i) != 0 {
                assert(b.l2_entry(i, j) == a.l2_entry(i, j));
                assert(!a.refers(i, j + 1, kl));
            }
            lemma_guest_entry(a, b, kl, v);
        }
    }
}

/// A cluster that only one entry refers to, and that is counted once, can be
/// written where it is.
pub(crate) proof fn lemma_in_place(
    a: Image,
    b: Image,
    i0: int,
    j0: int,
    host_off: u64,
    copied: bool,
    at: int,
    data: Seq<u8>,
    pins: Set<int>,
)
    requires
        sound(a),
        a.consistent_with(pins),
        0 <= i0 < a.l1.len(),
        0 <= j0 < l2_len(a.header),
        a.l2_table(i0) != 0,
        map_of_entry(a.header, a.l2_entry(i0, j0)) == Some(ClusterMap::Plain { host_off, copied }),
        a.refs(host_off as int / a.cs()) == 1,
        a.counted() ==> a.refcount(host_off as int / a.cs()) == 1,
        0 <= at,
        at + data.len() <= a.cs(),
        b == (Image { bytes: overwrite(a.bytes, host_off + at, data), ..a }),
    ensures
        sound(b),
        b.consistent_with(pins),
        a.bytes.len() <= b.bytes.len(),
        forall|v: int|
            0 <= v && !(a.l1_index(v) == i0 && a.l2_index(v) == j0) && a.guest_byte(v) is Ok
                ==> #[trigger] b.guest_byte(v) == a.guest_byte(v),
        forall|v: int|
            0 <= v && a.l1_index(v) == i0 && a.l2_index(v) == j0 && at <= v % a.cs() < at
                + data.len() ==> #[trigger] b.guest_byte(v) == Ok::<u8, Fault>(
                data[v % a.cs() - at],
            ),
        forall|v: int|
            0 <= v && a.l1_index(v) == i0 && a.l2_index(v) == j0 && !(at <= v % a.cs() < at
                + data.len()) && a.guest_byte(v) is Ok ==> #[trigger] b.guest_byte(v)
                == a.guest_byte(v),
        forall|kk: int| #[trigger]
            held_elsewhere(a, pins, kk) ==> held_elsewhere(b, pins, kk) && cluster_kept(a, b, kk),
        cluster_kept(a, b, 0),
        a.counted() ==> same_counts(a, b),
        same_entries(a, b),
        forall|kk: int| #[trigger] b.refs(kk) == a.refs(kk),
        forall|kk: int| #[trigger] b.is_meta(kk) == a.is_meta(kk),
        same_data_refs(a, b),
{
    lemma_cluster_size(a.header.cluster_bits);
    let cs = a.cs();
    let k = host_off as int / cs;
    lemma_patch_changes(a, b, host_off as int, at, data);
    lemma_cluster_start(cs, host_off as int);
    assert(a.refers(i0, j0 + 1, k));
    assert(sole_reference(a, k, i0, j0 + 1)) by {
        assert forall|i: int, j: int|
            0 <= i < a.l1.len() && 0 <= j <= l2_len(a.header) && #[trigger] a.refers(
                i,
                j,
                k,
            ) implies i == i0 && j == j0 + 1 && j0 + 1 >= 1 by {
            if !(i == i0 && j == j0 + 1) {
                lemma_two_references(a, i, j, i0, j0 + 1, k);
            }
        }
    }
    lemma_refs_framed(a, b, k, i0, j0 + 1);
    assert(!a.is_meta(k));
    assert(a.is_meta(0));
    lemma_cluster_kept(a, b, k, 0);
    lemma_l1_framed(a, b, k);
    if a.counted() {
        lemma_counts_framed(a, b, k);
    }
    assert forall|kk: int| #[trigger] b.is_meta(kk) == a.is_meta(kk) by {
        assert(b.l1_in(kk) == a.l1_in(kk));
        if a.counted() {
            lemma_some_block_same(a, b, kk);
        }
    }
    lemma_flags_framed(a, b);
    assert forall|kk: int| 0 <= kk && b.counted() implies #[trigger] b.refs(kk) <= b.refcount(
        kk,
    ) by {
        assert(a.refs(kk) <= a.refcount(kk));
    }
    assert forall|kk: int| #[trigger] b.is_meta(kk) implies b.refs(kk) == 0 && (b.counted()
        ==> b.refcount(kk) == 1) by {
        assert(a.is_meta(kk));
        lemma_meta_nonneg(a, kk);
    }
    assert forall|kk: int| #[trigger] pins.contains(kk) implies b.counted() && b.refs(kk) == 0
        && !b.is_meta(kk) && b.refcount(kk) == 1 by {
        assert(b.is_meta(kk) == a.is_meta(kk));
        lemma_counted_nonneg(a, kk);
    }
    assert forall|v: int|
        0 <= v && !(a.l1_index(v) == i0 && a.l2_index(v) == j0) && a.guest_byte(v)
            is Ok implies #[trigger] b.guest_byte(v) == a.guest_byte(v) by {
        lemma_indexes(a, v);
        lemma_guest_framed(a, b, k, i0, j0 + 1, v);
    }
    assert(b.l2_table(i0) == a.l2_table(i0));
    assert(b.l2_entry(i0, j0) == a.l2_entry(i0, j0));
    assert forall|v: int| 0 <= v && a.l1_index(v) == i0 && a.l2_index(v) == j0 implies (at <= v
        % a.cs() < at + data.len() ==> #[trigger] b.guest_byte(v) == Ok::<u8, Fault>(
        data[v % a.cs() - at],
    )) && (!(at <= v % a.cs() < at + data.len()) && a.guest_byte(v) is Ok ==> b.guest_byte(v)
        == a.guest_byte(v)) by {
        lemma_indexes(a, v);
        let p = host_off + v % cs;
        if at <= v % cs < at + data.len() {
            assert(b.bytes[p] == data[p - (host_off + at)]);
        } else if p < a.bytes.len() {
            assert(b.bytes[p] == a.bytes[p]);
        }
    }
    assert forall|kk: int| #[trigger] held_elsewhere(a, pins, kk) implies held_elsewhere(
        b,
        pins,
        kk,
    ) && cluster_kept(a, b, kk) by {
        lemma_cluster_kept(a, b, k, kk);
        assert(b.is_meta(kk) == a.is_meta(kk));
    }
}

/// An L1 entry that has reached the device, but not the memory, harms no one.
pub(crate) proof fn lemma_l1_half_set(a: Image, m: Image, i0: int, e: u64, k: int, pins: Set<int>)
    requires
        sound(a),
        a.consistent_with(pins),
        0 <= i0 < a.l1.len(),
        m == (Image {
            bytes: overwrite(a.bytes, a.header.l1_table_offset + 8 * i0, be64_bytes(e)),
            ..a
        }),
        pins.contains(k),
        k * a.cs() + a.cs() <= 0x100_0000_0000_0000,
        k * a.cs() + a.cs() <= a.bytes.len(),
        e == ((k * a.cs()) as u64 & OFFSET_MASK) | L2_FLAG_COPIED,
        table_stands_in(a, i0, k * a.cs()),
    ensures
        keeps(a, m, 0, 0),
        keeps(a, reopened(m), 0, 0),
        untouched(a, pins, m),
        reopened(m).consistent_with(pins.remove(k)),
{
    lemma_l1_bytes_set(a, m, i0, e, pins);
    let b = Image { l1: a.l1.update(i0, e), ..m };
    lemma_link_table(a, b, i0, e, k, pins);
    assert(reopened(m).l1 =~= b.l1) by {
        assert forall|i: int| 0 <= i < a.l1.len() implies reopened(m).l1[i] == #[trigger] b.l1[i] by {
            if i != i0 {
                assert(a.l1[i] == b.l1[i]);
            }
        }
    }
    assert(reopened(m) == b);
    assert(keeps(a, m, 0, 0)) by {
        assert forall|v: int| 0 <= v && a.guest_byte(v) is Ok implies #[trigger] m.guest_byte(v)
            == a.guest_byte(v) by {
            assert(m.guest_byte(v) == a.guest_byte(v));
        }
    }
    lemma_untouched_same(a, pins, b, m);
}

/// Whether an image is untouched shows in its bytes.
proof fn lemma_untouched_same(a: Image, pins: Set<int>, b: Image, m: Image)
    requires
        a.bytes.len() <= b.bytes.len(),
        a.header == b.header,
        cluster_kept(a, b, 0),
        forall|k: int|
            (held_elsewhere(a, pins, k) || pins.contains(k)) && k != -1 ==> #[trigger] cluster_kept(
                a,
                b,
                k,
            ),
        m.bytes == b.bytes,
        m.header == b.header,
    ensures
        untouched(a, pins, m),
{
    assert forall|k: int| #[trigger] held_elsewhere(a, pins, k) implies cluster_kept(a, m, k) by {
        assert(cluster_kept(a, b, k));
    }
    assert(cluster_kept(a, b, 0));
}

} // verus!
