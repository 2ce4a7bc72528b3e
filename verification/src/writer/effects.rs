//! What the steps of a write, put together, do to an image.

use crate::bytes::{be64, be64_bytes, found_at, lemma_found_be64, overwrite};
use crate::consistency::{
    cluster_kept, held_elsewhere, keeps, lemma_cluster_kept_trans, lemma_fewer_pins,
    lemma_keeps_trans, lemma_reopened, lemma_same_entries_trans, lemma_step_trans, lemma_unharmed,
    lemma_untouched_trans, reopened, same_count, same_counts, same_data_refs, same_entries, sound,
    step, unharmed, untouched,
};
use crate::consistency::frame::{lemma_counted_nonneg, lemma_place, lemma_same_index};
use crate::consistency::links::{
    lemma_entry_for, lemma_in_place, lemma_l1_half_set, table_stands_in,
};
use crate::consistency::refs::lemma_one_reference;
use crate::entry::{
    fresh_entry, l2_len, lemma_l1_reaches, lemma_same_cluster, map_bounded, ClusterMap,
};
use crate::header::lemma_cluster_size;
use crate::image::{Fault, Image};
use crate::refcount::lemma_refcount_geometry;
use crate::writer::{goes_in_place, plan_for, ADDRESSABLE, WritePlan};
use crate::writer::needs::places_kept;
use vstd::prelude::*;

verus! {

/// The table `table` says what the L2 table of row `i0` says; it is empty if there
/// is none.
pub open spec fn table_matches(img: Image, i0: int, table: Seq<u8>) -> bool {
    &&& table.len() == img.cs()
    &&& forall|j: int|
        0 <= j < l2_len(img.header) ==> #[trigger] be64(table, 8 * j) == (if img.l2_table(i0)
            == 0 {
            0
        } else {
            img.l2_entry(i0, j)
        })
}

/// What is left of a write that ends at `end` and has come to `at`.
pub(crate) proof fn lemma_clusters_left(cs: int, at: int, end: int)
    requires
        cs > 0,
        0 <= at < end,
    ensures
        at / cs <= (end - 1) / cs,
        0 <= at - at % cs,
        at - at % cs == at / cs * cs,
        at - at % cs + cs <= ((end - 1) / cs + 1) * cs,
        end <= ((end - 1) / cs + 1) * cs,
        at + (cs - at % cs) < end ==> (at + (cs - at % cs)) / cs == at / cs + 1,
        at + (cs - at % cs) < end ==> (at + (cs - at % cs)) % cs == 0,
{
    let q = at / cs;
    let r = at % cs;
    let last = (end - 1) / cs;
    vstd::arithmetic::div_mod::lemma_fundamental_div_mod(at, cs);
    vstd::arithmetic::div_mod::lemma_fundamental_div_mod(end - 1, cs);
    vstd::arithmetic::div_mod::lemma_div_is_ordered(at, end - 1, cs);
    assert(cs * q == q * cs) by (nonlinear_arith);
    assert(cs * last == last * cs) by (nonlinear_arith);
    assert((last + 1) * cs == last * cs + cs) by (nonlinear_arith);
    assert((q + 1) * cs == q * cs + cs) by (nonlinear_arith);
    assert(q * cs <= last * cs) by (nonlinear_arith)
        requires
            q <= last,
            cs > 0,
    ;
    assert(0 <= q * cs) by (nonlinear_arith)
        requires
            q == at / cs,
            at >= 0,
            cs > 0,
    ;
    vstd::arithmetic::div_mod::lemma_fundamental_div_mod_converse(at + (cs - r), cs, q + 1, 0);
}

/// To write nothing changes nothing.
pub(crate) proof fn lemma_nothing_written(a: Image, v: int)
    requires
        a.consistent(),
    ensures
        written(a, a, v, Seq::empty()),
{
}

/// What harms nothing harms nothing outside a range.
pub(crate) proof fn lemma_unharmed_wider(a: Image, pins: Set<int>, b: Image, lo: int, hi: int)
    requires
        unharmed(a, pins, b, 0, 0),
    ensures
        unharmed(a, pins, b, lo, hi),
{
}

/// An entry that has been set, after steps that harmed nothing, harms nothing outside
/// what it covers.
pub(crate) proof fn lemma_linked_unharmed(
    a: Image,
    a2: Image,
    c: Image,
    pins: Set<int>,
    i0: int,
    j0: int,
    k: int,
    e: u64,
    lo: int,
    hi: int,
)
    requires
        untouched(a, Set::empty(), a2),
        forall|kk: int| #[trigger]
            held_elsewhere(a, Set::empty(), kk) ==> held_elsewhere(a2, pins, kk),
        linked(a2, c, pins, i0, j0, k, e),
        keeps(a, c, lo, hi),
    ensures
        unharmed(a, Set::empty(), c, lo, hi),
{
    lemma_fewer_pins(c, pins.remove(k), Set::empty());
    assert(untouched(a2, pins, c));
    lemma_untouched_trans(a, Set::empty(), a2, pins, c);
    lemma_reopened(c);
}

/// Two writes, one behind the other, are one write.
pub(crate) proof fn lemma_written_twice(a: Image, b: Image, c: Image, v: int, d1: Seq<u8>, d2: Seq<u8>)
    requires
        0 <= v,
        written(a, b, v, d1),
        written(b, c, v + d1.len(), d2),
    ensures
        written(a, c, v, d1 + d2),
{
    let d = d1 + d2;
    lemma_cluster_kept_trans(a, b, c, 0);
    assert forall|x: int|
        0 <= x && !(v <= x < v + d.len()) && a.guest_byte(x) is Ok implies #[trigger] c.guest_byte(x)
        == a.guest_byte(x) by {
        assert(b.guest_byte(x) == a.guest_byte(x));
    }
    assert forall|i: int| 0 <= i < d.len() implies c.guest_byte(v + i) == Ok::<u8, Fault>(
        #[trigger] d[i],
    ) by {
        if i < d1.len() {
            assert(b.guest_byte(v + i) == Ok::<u8, Fault>(d1[i]));
            assert(c.guest_byte(v + i) == b.guest_byte(v + i));
        } else {
            assert(c.guest_byte(v + d1.len() + (i - d1.len())) == Ok::<u8, Fault>(
                d2[i - d1.len()],
            ));
        }
    }
    assert forall|k: int| #[trigger] held_elsewhere(a, Set::empty(), k) implies held_elsewhere(
        c,
        Set::empty(),
        k,
    ) && cluster_kept(a, c, k) by {
        assert(held_elsewhere(b, Set::empty(), k));
        lemma_cluster_kept_trans(a, b, c, k);
    }
}

/// A write that fails behind one that did not harms nothing outside the two.
pub(crate) proof fn lemma_written_then_failed(
    a: Image,
    b: Image,
    c: Image,
    v: int,
    d1: Seq<u8>,
    n: int,
    end: int,
)
    requires
        0 <= v,
        written(a, b, v, d1),
        unharmed(b, Set::empty(), c, v + d1.len(), v + d1.len() + n),
        0 <= n,
        v + d1.len() + n <= end,
    ensures
        unharmed(a, Set::empty(), c, v, end),
{
    assert(untouched(a, Set::empty(), b));
    lemma_untouched_trans(a, Set::empty(), b, Set::empty(), c);
    assert forall|x: int|
        0 <= x && !(v <= x < end) && a.guest_byte(x) is Ok implies #[trigger] c.guest_byte(x)
        == a.guest_byte(x) by {
        assert(b.guest_byte(x) == a.guest_byte(x));
    }
    assert forall|x: int|
        0 <= x && !(v <= x < end) && a.guest_byte(x) is Ok implies #[trigger] reopened(c).guest_byte(
        x,
    ) == a.guest_byte(x) by {
        assert(b.guest_byte(x) == a.guest_byte(x));
    }
}

/// `b` is the consistent image `a` after `data` has been written at `v`: the virtual
/// disk holds `data` there and is the same elsewhere, and so are the header and every
/// cluster that is held elsewhere.
pub open spec fn written(a: Image, b: Image, v: int, data: Seq<u8>) -> bool {
    &&& b.consistent()
    &&& b.header == a.header
    &&& b.backing == a.backing
    &&& b.l1.len() == a.l1.len()
    &&& a.bytes.len() <= b.bytes.len()
    &&& keeps(a, b, v, v + data.len())
    &&& b.holds(v, data)
    &&& cluster_kept(a, b, 0)
    &&& forall|k: int| #[trigger]
        held_elsewhere(a, Set::empty(), k) ==> held_elsewhere(b, Set::empty(), k) && cluster_kept(
            a,
            b,
            k,
        )
}

/// Whoever reads `b`, or opens its device again, finds `data` at `v`, and elsewhere what
/// they found in `a`; and so do those who hold clusters of it beside its tables.
pub open spec fn reads_back(a: Image, b: Image, v: int, data: Seq<u8>) -> bool {
    &&& b.header == a.header
    &&& b.backing == a.backing
    &&& b.l1.len() == a.l1.len()
    &&& b.l1_on_device()
    &&& keeps(a, b, v, v + data.len())
    &&& b.holds(v, data)
    &&& untouched(a, Set::empty(), b)
}

/// `b` is `a` after host cluster `k` has been allocated: it is counted once, and
/// nothing refers to it.
pub open spec fn taken(a: Image, b: Image, pins: Set<int>, k: int) -> bool {
    &&& 0 < k
    &&& a.counted()
    &&& step(a, pins, b, pins.insert(k), -1)
    &&& !pins.contains(k)
    &&& forall|kk: int| #[trigger]
        held_elsewhere(a, pins, kk) ==> held_elsewhere(b, pins.insert(k), kk)
    &&& forall|kk: int| #[trigger] b.refs(kk) == a.refs(kk)
}

/// Bytes that are written into a cluster in its place.
pub(crate) proof fn lemma_written_in_place(
    a: Image,
    b: Image,
    virt: int,
    src: Seq<u8>,
    map: ClusterMap,
    host_off: u64,
)
    requires
        sound(a),
        a.consistent(),
        0 <= virt < a.header.virtual_size,
        0 < src.len(),
        virt % a.cs() + src.len() <= a.cs(),
        a.cluster_map(virt) == Ok::<ClusterMap, Fault>(map),
        plan_for(a, map) == Ok::<WritePlan, Fault>(WritePlan::InPlace { host_off }),
        b == (Image { bytes: overwrite(a.bytes, host_off + virt % a.cs(), src), ..a }),
    ensures
        written(a, b, virt, src),
        a.counted() ==> same_counts(a, b),
        a.counted() ==> forall|kk: int| 0 <= kk ==> #[trigger] b.surplus(kk) == a.surplus(kk),
        same_data_refs(a, b),
        b.bytes.len() <= ADDRESSABLE ==> places_kept(a, b),
{
    reveal(places_kept);
    lemma_cluster_size(a.header.cluster_bits);
    lemma_l1_reaches(a.header, virt);
    let cs = a.cs();
    let i0 = a.l1_index(virt);
    let j0 = a.l2_index(virt);
    let at = virt % cs;
    let none: Set<int> = Set::empty();
    let k = host_off as int / cs;
    let copied = map->copied;
    assert(map == ClusterMap::Plain { host_off, copied });
    assert(k >= 0) by (nonlinear_arith)
        requires
            k == host_off as int / cs,
            host_off >= 0,
            cs > 0,
    ;
    assert(a.refers(i0, j0 + 1, k));
    lemma_one_reference(a, i0, j0 + 1, k);
    if copied {
        assert(a.l2_copied(i0, j0, k));
    } else {
        let c = a.count_read(host_off as int)->Ok_0;
        lemma_count_read(a, host_off as int, c);
        assert(a.refs(k) <= a.refcount(k));
    }
    lemma_in_place(a, b, i0, j0, host_off, copied, at, src, none);
    assert forall|kk: int| 0 <= kk && a.counted() implies #[trigger] b.surplus(kk) == a.surplus(
        kk,
    ) by {
        assert(same_count(a, b, kk));
        assert(b.refs(kk) == a.refs(kk));
        assert(b.is_meta(kk) == a.is_meta(kk));
    }
    assert forall|v: int|
        0 <= v && !(virt <= v < virt + src.len()) && a.guest_byte(v) is Ok implies #[trigger] b.guest_byte(
        v,
    ) == a.guest_byte(v) by {
        if a.l1_index(v) == i0 && a.l2_index(v) == j0 {
            lemma_same_index(a, v, virt);
            vstd::arithmetic::div_mod::lemma_fundamental_div_mod(v, cs);
            vstd::arithmetic::div_mod::lemma_fundamental_div_mod(virt, cs);
        }
    }
    assert forall|d: int| 0 <= d < src.len() implies b.guest_byte(virt + d) == Ok::<u8, Fault>(
        #[trigger] src[d],
    ) by {
        lemma_same_cluster(cs, virt, d);
        lemma_same_index(a, virt + d, virt);
    }
    assert forall|v: int|
        0 <= v < a.header.virtual_size && goes_in_place(a, v) && b.bytes.len()
            <= ADDRESSABLE implies #[trigger] goes_in_place(b, v) && b.cluster_map(v)
        == a.cluster_map(v) by {
        lemma_l1_reaches(a.header, v);
        let i = a.l1_index(v);
        assert(b.l2_entry(i, a.l2_index(v)) == a.l2_entry(i, a.l2_index(v)));
        let m = a.cluster_map(v)->Ok_0;
        if !m->copied {
            let off = m->Plain_host_off as int;
            let c = a.count_read(off)->Ok_0;
            lemma_count_read(a, off, c);
            assert(same_count(a, b, off / cs));
            lemma_count_readable(b, none, off);
            lemma_count_read(b, off, b.count_read(off)->Ok_0);
        }
    }
}

/// A cluster that has been filled holds what it was filled with.
pub(crate) proof fn lemma_new_cluster_filled(a: Image, b: Image, k: int, data: Seq<u8>)
    requires
        a.header.geometry_ok(),
        k > 0,
        data.len() == a.cs(),
        b == (Image { bytes: overwrite(a.bytes, k * a.cs(), data), ..a }),
    ensures
        k * a.cs() + a.cs() <= b.bytes.len(),
        forall|d: int| 0 <= d < a.cs() ==> #[trigger] b.bytes[k * a.cs() + d] == data[d],
{
    lemma_cluster_size(a.header.cluster_bits);
    assert(k * a.cs() > 0) by (nonlinear_arith)
        requires
            k > 0,
            a.cs() > 0,
    ;
}

/// A new cluster that holds what a reader saw, with `src` laid over it, and that the
/// tables point at, gives the reader what they saw, with `src` laid over it.
pub(crate) proof fn lemma_chunk_linked(
    a: Image,
    a2: Image,
    c: Image,
    pins: Set<int>,
    virt: int,
    src: Seq<u8>,
    seen: Seq<u8>,
    k: int,
)
    requires
        sound(a),
        0 <= virt < a.header.virtual_size,
        0 < src.len(),
        virt % a.cs() + src.len() <= a.cs(),
        keeps(a, a2, 0, 0),
        a2.header == a.header,
        a2.l1.len() == a.l1.len(),
        k > 0,
        k * a.cs() + a.cs() <= a2.bytes.len(),
        k * a.cs() + a.cs() <= ADDRESSABLE,
        seen.len() == a.cs(),
        a.holds(virt - virt % a.cs(), seen),
        forall|d: int|
            0 <= d < a.cs() ==> #[trigger] a2.bytes[k * a.cs() + d] == overwrite(
                seen,
                virt % a.cs(),
                src,
            )[d],
        linked(
            a2,
            c,
            pins,
            a.l1_index(virt),
            a.l2_index(virt),
            k,
            fresh_entry((k * a.cs()) as u64),
        ),
    ensures
        keeps(a, c, virt, virt + src.len()),
        c.holds(virt, src),
{
    lemma_cluster_size(a.header.cluster_bits);
    lemma_l1_reaches(a.header, virt);
    lemma_whole_cluster(a, virt);
    let cs = a.cs();
    let i0 = a.l1_index(virt);
    let j0 = a.l2_index(virt);
    let base = virt - virt % cs;
    let e = fresh_entry((k * cs) as u64);
    let full = overwrite(seen, virt % cs, src);
    lemma_entry_for(c, k, e);
    assert(c.cs() == cs);
    assert forall|d: int| 0 <= d < cs implies #[trigger] c.guest_byte(base + d) == Ok::<u8, Fault>(
        full[d],
    ) by {
        assert(a.cluster_map(base + d) == a.cluster_map(virt));
        lemma_same_index(a, base + d, virt);
        assert(c.l1_index(base + d) == i0 && c.l2_index(base + d) == j0);
        assert(c.l2_table(i0) + cs <= c.bytes.len());
        assert(a2.bytes[k * cs + d] == full[d]);
        assert(c.bytes[k * a2.cs() + d] == a2.bytes[k * a2.cs() + d]);
    }
    assert forall|v: int|
        0 <= v && !(virt <= v < virt + src.len()) && a.guest_byte(v) is Ok implies #[trigger] c.guest_byte(
        v,
    ) == a.guest_byte(v) by {
        assert(a2.guest_byte(v) == a.guest_byte(v));
        if a.l1_index(v) == i0 && a.l2_index(v) == j0 {
            lemma_same_index(a, v, virt);
            vstd::arithmetic::div_mod::lemma_fundamental_div_mod(v, cs);
            vstd::arithmetic::div_mod::lemma_fundamental_div_mod(virt, cs);
            let d = v % cs;
            assert(0 <= d < cs) by (nonlinear_arith)
                requires
                    d == v % cs,
                    cs > 0,
            ;
            assert(v == base + d);
            assert(c.guest_byte(base + d) == Ok::<u8, Fault>(full[d]));
            assert(full[d] == seen[d]);
            assert(a.guest_byte(base + d) == Ok::<u8, Fault>(seen[d]));
        } else {
            assert(a2.l1_index(v) == a.l1_index(v) && a2.l2_index(v) == a.l2_index(v));
        }
    }
    assert forall|x: int| 0 <= x < src.len() implies c.guest_byte(virt + x) == Ok::<u8, Fault>(
        #[trigger] src[x],
    ) by {
        let d = virt % cs + x;
        assert(c.guest_byte(base + d) == Ok::<u8, Fault>(full[d]));
        assert(base + d == virt + x);
    }
}

/// What the tables said of a byte is a reference to the cluster where it was.
proof fn lemma_map_refers(img: Image, virt: int, map: ClusterMap, old_host: u64)
    requires
        sound(img),
        0 <= virt < img.header.virtual_size,
        img.cluster_map(virt) == Ok::<ClusterMap, Fault>(map),
        map_bounded(map),
        (map matches ClusterMap::Plain { host_off, .. } && host_off == old_host) || (
        map matches ClusterMap::Compressed { host_off, .. } && host_off == old_host),
    ensures
        0 <= old_host as int / img.cs(),
        img.refers(img.l1_index(virt), img.l2_index(virt) + 1, old_host as int / img.cs()),
{
    lemma_cluster_size(img.header.cluster_bits);
    lemma_l1_reaches(img.header, virt);
    let cs = img.cs();
    assert(0 <= old_host as int / cs) by (nonlinear_arith)
        requires
            old_host >= 0,
            cs > 0,
    ;
    if let ClusterMap::Compressed { host_off, byte_len } = map {
        vstd::arithmetic::div_mod::lemma_div_is_ordered(
            host_off as int,
            host_off + byte_len - 1,
            cs,
        );
    }
}

/// The cluster that the tables pointed at can lose its count, once they point at
/// another one.
pub(crate) proof fn lemma_release_ready(
    a: Image,
    a1: Image,
    a2: Image,
    c: Image,
    pins: Set<int>,
    virt: int,
    k: int,
    e: u64,
    map: ClusterMap,
    old_host: u64,
)
    requires
        sound(a),
        0 <= virt < a.header.virtual_size,
        a.cluster_map(virt) == Ok::<ClusterMap, Fault>(map),
        map_bounded(map),
        (map matches ClusterMap::Plain { host_off, .. } && host_off == old_host) || (
        map matches ClusterMap::Compressed { host_off, .. } && host_off == old_host),
        same_data_refs(a, a1),
        same_data_refs(a1, a2),
        a1.l1.len() == a.l1.len(),
        a1.header == a.header,
        linked(a2, c, pins, a.l1_index(virt), a.l2_index(virt), k, e),
    ensures
        c.refs(old_host as int / a.cs()) < c.refcount(old_host as int / a.cs()),
        !c.is_meta(old_host as int / a.cs()),
{
    lemma_l1_reaches(a.header, virt);
    lemma_map_refers(a, virt, map, old_host);
    let t = old_host as int / a.cs();
    let i0 = a.l1_index(virt);
    let j0 = a.l2_index(virt);
    assert(a1.refers(i0, j0 + 1, t) == a.refers(i0, j0 + 1, t));
    assert(a2.refers(i0, j0 + 1, t) == a1.refers(i0, j0 + 1, t));
}

/// What is held elsewhere is still held, and unchanged, when the tables have come
/// to point at another cluster.
proof fn lemma_held_when_linked(
    a: Image,
    a1: Image,
    a2: Image,
    c: Image,
    virt: int,
    k: int,
    e: u64,
    kk: int,
)
    requires
        sound(a),
        0 <= virt < a.header.virtual_size,
        step(a, Set::empty(), a1, Set::empty().insert(k), -1),
        held_elsewhere(a, Set::empty(), kk),
        held_elsewhere(a1, Set::empty().insert(k), kk),
        step(a1, Set::empty().insert(k), a2, Set::empty().insert(k), k),
        held_elsewhere(a2, Set::empty().insert(k), kk),
        linked(a2, c, Set::empty().insert(k), a.l1_index(virt), a.l2_index(virt), k, e),
    ensures
        cluster_kept(a, c, kk),
        held_elsewhere(c, Set::empty(), kk),
        a.refers(a.l1_index(virt), a.l2_index(virt) + 1, kk) ==> c.refs(kk) + 1 < c.refcount(kk),
{
    let none: Set<int> = Set::empty();
    let pins = none.insert(k);
    let i0 = a.l1_index(virt);
    let j0 = a.l2_index(virt);
    lemma_l1_reaches(a.header, virt);
    assert(pins.contains(k));
    assert(kk != k);
    assert(cluster_kept(a, a1, kk));
    assert(cluster_kept(a1, a2, kk));
    lemma_cluster_kept_trans(a, a1, a2, kk);
    lemma_cluster_kept_trans(a, a2, c, kk);
    assert(pins.remove(k) =~= none);
    assert(a1.refers(i0, j0 + 1, kk) == a.refers(i0, j0 + 1, kk));
    assert(a2.refers(i0, j0 + 1, kk) == a1.refers(i0, j0 + 1, kk));
}

/// The old cluster loses its count last.
pub(crate) proof fn lemma_chunk_released(
    a: Image,
    a1: Image,
    a2: Image,
    c: Image,
    d: Image,
    virt: int,
    src: Seq<u8>,
    k: int,
    e: u64,
    map: ClusterMap,
    release: Option<u64>,
)
    requires
        sound(a),
        0 <= virt < a.header.virtual_size,
        a.cluster_map(virt) == Ok::<ClusterMap, Fault>(map),
        map_bounded(map),
        step(a, Set::empty(), a1, Set::empty().insert(k), -1),
        forall|kk: int| #[trigger]
            held_elsewhere(a, Set::empty(), kk) ==> held_elsewhere(a1, Set::empty().insert(k), kk),
        step(a1, Set::empty().insert(k), a2, Set::empty().insert(k), k),
        forall|kk: int| #[trigger]
            held_elsewhere(a1, Set::empty().insert(k), kk) ==> held_elsewhere(
                a2,
                Set::empty().insert(k),
                kk,
            ),
        linked(a2, c, Set::empty().insert(k), a.l1_index(virt), a.l2_index(virt), k, e),
        keeps(a, c, virt, virt + src.len()),
        c.holds(virt, src),
        match release {
            None => d == c,
            Some(old_host) => {
                &&& (map matches ClusterMap::Plain { host_off, .. } && host_off == old_host) || (
                map matches ClusterMap::Compressed { host_off, .. } && host_off == old_host)
                &&& step(c, Set::empty(), d, Set::empty(), -1)
                &&& forall|kk: int| #[trigger] d.refs(kk) == c.refs(kk)
                &&& forall|kk: int| #[trigger] d.is_meta(kk) == c.is_meta(kk)
                &&& forall|kk: int|
                    0 <= kk && kk != old_host as int / a.cs() ==> #[trigger] d.refcount(kk)
                        == c.refcount(kk)
                &&& c.refcount(old_host as int / a.cs()) - 1 <= d.refcount(
                    old_host as int / a.cs(),
                )
            },
        },
    ensures
        written(a, d, virt, src),
{
    let none: Set<int> = Set::empty();
    let pins = none.insert(k);
    assert(pins.remove(k) =~= none);
    lemma_cluster_kept_trans(a, a1, a2, 0);
    lemma_cluster_kept_trans(a, a2, c, 0);
    if release is Some {
        lemma_cluster_kept_trans(a, c, d, 0);
    }
    assert(keeps(c, d, 0, 0));
    assert forall|v: int|
        0 <= v && !(virt <= v < virt + src.len()) && a.guest_byte(v) is Ok implies #[trigger] d.guest_byte(
        v,
    ) == a.guest_byte(v) by {
        assert(c.guest_byte(v) == a.guest_byte(v));
    }
    assert forall|x: int| 0 <= x < src.len() implies d.guest_byte(virt + x) == Ok::<u8, Fault>(
        #[trigger] src[x],
    ) by {
        assert(c.guest_byte(virt + x) == Ok::<u8, Fault>(src[x]));
        assert(d.guest_byte(virt + x) == c.guest_byte(virt + x));
    }
    assert forall|kk: int| #[trigger] held_elsewhere(a, none, kk) implies held_elsewhere(
        d,
        none,
        kk,
    ) && cluster_kept(a, d, kk) by {
        lemma_held_when_linked(a, a1, a2, c, virt, k, e, kk);
        if let Some(old_host) = release {
            let t = old_host as int / a.cs();
            lemma_map_refers(a, virt, map, old_host);
            assert(cluster_kept(c, d, kk));
            lemma_cluster_kept_trans(a, c, d, kk);
            assert(d.refs(kk) == c.refs(kk));
            assert(d.is_meta(kk) == c.is_meta(kk));
            if kk != t {
                assert(d.refcount(kk) == c.refcount(kk));
            }
        }
    }
}

/// The bytes of the cluster that holds byte `v` are found in one place.
pub(crate) proof fn lemma_whole_cluster(img: Image, v: int)
    requires
        img.header.geometry_ok(),
        0 <= v,
    ensures
        ({
            let base = v - v % img.cs();
            &&& 0 <= base <= v < base + img.cs()
            &&& forall|d: int|
                0 <= d < img.cs() ==> #[trigger] img.cluster_map(base + d) == img.cluster_map(v) && (
                base + d) % img.cs() == d && (base + d) / img.cs() == v / img.cs()
        }),
{
    lemma_cluster_size(img.header.cluster_bits);
    let cs = img.cs();
    let base = v - v % cs;
    vstd::arithmetic::div_mod::lemma_fundamental_div_mod(v, cs);
    let q = v / cs;
    assert(cs * q == q * cs) by (nonlinear_arith);
    assert(base >= 0) by (nonlinear_arith)
        requires
            base == cs * q,
            q == v / cs,
            v >= 0,
            cs > 0,
    ;
    assert forall|d: int| 0 <= d < cs implies #[trigger] img.cluster_map(base + d)
        == img.cluster_map(v) && (base + d) % cs == d && (base + d) / cs == v / cs by {
        vstd::arithmetic::div_mod::lemma_fundamental_div_mod_converse(base + d, cs, q, d);
    }
}

/// `c` is `a` after entry `j0` of the L2 table of row `i0` has been set to `e`,
/// which points at cluster `k`.
pub open spec fn linked(
    a: Image,
    c: Image,
    pins: Set<int>,
    i0: int,
    j0: int,
    k: int,
    e: u64,
) -> bool {
    &&& sound(c)
    &&& c.consistent_with(pins.remove(k))
    &&& a.bytes.len() <= c.bytes.len()
    &&& c.header == a.header
    &&& c.backing == a.backing
    &&& c.l1.len() == a.l1.len()
    &&& c.l2_table(i0) != 0
    &&& c.l2_entry(i0, j0) == e
    &&& forall|v: int|
        0 <= v && !(a.l1_index(v) == i0 && a.l2_index(v) == j0) && a.guest_byte(v) is Ok
            ==> #[trigger] c.guest_byte(v) == a.guest_byte(v)
    &&& cluster_kept(a, c, k)
    &&& cluster_kept(a, c, 0)
    // What is held elsewhere stays, and goes on being held, even after the cluster
    // that the entry pointed at has lost a count.
    &&& forall|kk: int| #[trigger]
        held_elsewhere(a, pins, kk) ==> cluster_kept(a, c, kk) && held_elsewhere(
            c,
            pins.remove(k),
            kk,
        ) && (a.refers(i0, j0 + 1, kk) ==> c.refs(kk) + 1 < c.refcount(kk))
    // The cluster that the entry pointed at can lose a count.
    &&& forall|kk: int|
        0 <= kk && #[trigger] a.refers(i0, j0 + 1, kk) ==> c.refs(kk) < c.refcount(kk)
            && !c.is_meta(kk) && !pins.contains(kk)
}

/// To make a table one's own and to set an entry in it comes to setting the entry.
pub(crate) proof fn lemma_linked(
    a: Image,
    b: Image,
    c: Image,
    pins: Set<int>,
    i0: int,
    j0: int,
    k: int,
    e: u64,
)
    requires
        sound(a),
        a.consistent_with(pins),
        0 <= i0 < a.l1.len(),
        0 <= j0 < l2_len(a.header),
        pins.contains(k),
        table_owned(a, b, pins, i0, b.l2_table(i0)),
        c == (Image { bytes: c.bytes, ..b }),
        b.bytes.len() <= c.bytes.len(),
        sound(c),
        c.consistent_with(pins.remove(k)),
        c.l2_entry(i0, j0) == e,
        forall|kk: int| 0 <= kk ==> #[trigger] c.refcount(kk) == b.refcount(kk),
        forall|kk: int| #[trigger] c.is_meta(kk) == b.is_meta(kk),
        forall|kk: int| #[trigger]
            c.refs(kk) == b.refs(kk) - (if b.refers(i0, j0 + 1, kk) {
                1int
            } else {
                0
            }) + (if kk == k {
                1int
            } else {
                0
            }),
        forall|v: int|
            0 <= v && !(b.l1_index(v) == i0 && b.l2_index(v) == j0) && b.guest_byte(v) is Ok
                ==> #[trigger] c.guest_byte(v) == b.guest_byte(v),
        forall|kk: int|
            held_elsewhere(b, pins, kk) || pins.contains(kk) ==> #[trigger] cluster_kept(b, c, kk),
        cluster_kept(b, c, 0),
    ensures
        linked(a, c, pins, i0, j0, k, e),
{
    lemma_cluster_kept_trans(a, b, c, 0);
    assert(c.l2_table(i0) == b.l2_table(i0));
    assert forall|v: int|
        0 <= v && !(a.l1_index(v) == i0 && a.l2_index(v) == j0) && a.guest_byte(v)
            is Ok implies #[trigger] c.guest_byte(v) == a.guest_byte(v) by {
        assert(b.guest_byte(v) == a.guest_byte(v));
        assert(b.l1_index(v) == a.l1_index(v) && b.l2_index(v) == a.l2_index(v));
    }
    lemma_counted_nonneg(a, k);
    assert(cluster_kept(a, b, k));
    assert(cluster_kept(b, c, k));
    lemma_cluster_kept_trans(a, b, c, k);
    assert forall|kk: int| #[trigger] held_elsewhere(a, pins, kk) implies cluster_kept(a, c, kk)
        && held_elsewhere(c, pins.remove(k), kk) && (a.refers(i0, j0 + 1, kk) ==> c.refs(kk) + 1
        < c.refcount(kk)) by {
        assert(held_elsewhere(b, pins, kk));
        assert(cluster_kept(a, b, kk));
        assert(cluster_kept(b, c, kk));
        lemma_cluster_kept_trans(a, b, c, kk);
        assert(b.refers(i0, j0 + 1, kk) == a.refers(i0, j0 + 1, kk));
        assert(c.is_meta(kk) == b.is_meta(kk));
    }
    assert forall|kk: int| 0 <= kk && #[trigger] a.refers(i0, j0 + 1, kk) implies c.refs(kk)
        < c.refcount(kk) && !c.is_meta(kk) && !pins.contains(kk) by {
        assert(b.refers(i0, j0 + 1, kk) == a.refers(i0, j0 + 1, kk));
        lemma_one_reference(b, i0, j0 + 1, kk);
        assert(b.refs(kk) <= b.refcount(kk));
        assert(kk != k);
        assert(c.is_meta(kk) == b.is_meta(kk));
    }
}

/// `b` is `a` after the L2 table of row `i0` has been made its own, at `off`.
pub open spec fn table_owned(a: Image, b: Image, pins: Set<int>, i0: int, off: int) -> bool {
    &&& step(a, pins, b, pins, -1)
    &&& off > 0
    &&& b.l2_table(i0) == off
    &&& b.refs(off / b.cs()) == 1
    &&& b.counted() ==> b.refcount(off / b.cs()) == 1
    &&& forall|kk: int| #[trigger] held_elsewhere(a, pins, kk) ==> held_elsewhere(b, pins, kk)
}

/// The count that is read for a cluster is its count.
pub(crate) proof fn lemma_count_read(img: Image, host_off: int, count: u16)
    requires
        sound(img),
        0 <= host_off,
        img.count_read(host_off) == Ok::<u16, Fault>(count),
    ensures
        img.counted(),
        img.refcount(host_off / img.cs()) == count,
        host_off / img.cs() >= 0,
{
    lemma_refcount_geometry(img.header);
    let k = host_off / img.cs();
    assert(k >= 0) by (nonlinear_arith)
        requires
            k == host_off / img.cs(),
            host_off >= 0,
            img.cs() > 0,
    ;
    lemma_place(img, k);
}

/// A plain cluster that can be read lies on the device.
pub(crate) proof fn lemma_in_device(img: Image, virt: int, map: ClusterMap)
    requires
        img.header.geometry_ok(),
        0 <= virt,
        img.cluster_map(virt) == Ok::<ClusterMap, Fault>(map),
        img.readable(virt - virt % img.cs(), virt - virt % img.cs() + img.cs()),
    ensures
        map matches ClusterMap::Plain { host_off, .. } ==> host_off + img.cs() <= img.bytes.len(),
{
    lemma_cluster_size(img.header.cluster_bits);
    lemma_whole_cluster(img, virt);
    if let ClusterMap::Plain { host_off, copied } = map {
        let last = virt - virt % img.cs() + (img.cs() - 1);
        assert(img.guest_byte(last) is Ok);
        assert(img.cluster_map(last) == img.cluster_map(virt));
    }
}

/// A write into a cluster can be planned.
pub(crate) proof fn lemma_plan_ready(img: Image, virt: int, map: ClusterMap)
    requires
        sound(img),
        img.consistent(),
        img.counted(),
        img.bytes.len() <= ADDRESSABLE,
        img.cluster_map(virt) == Ok::<ClusterMap, Fault>(map),
    ensures
        plan_for(img, map) is Ok,
{
    if let ClusterMap::Plain { host_off, copied } = map {
        lemma_count_readable(img, Set::empty(), host_off as int);
    }
}

/// In a consistent image, every count can be read.
pub(crate) proof fn lemma_count_readable(img: Image, pins: Set<int>, host_off: int)
    requires
        sound(img),
        img.consistent_with(pins),
        img.counted(),
        img.bytes.len() <= ADDRESSABLE,
        0 <= host_off,
    ensures
        img.count_read(host_off) is Ok,
{
    lemma_refcount_geometry(img.header);
    let k = host_off / img.cs();
    assert(k >= 0) by (nonlinear_arith)
        requires
            k == host_off / img.cs(),
            host_off >= 0,
            img.cs() > 0,
    ;
    lemma_place(img, k);
    let s = k / img.epb();
    if 0 <= s < img.rt_len() && img.rt_entry(s) != 0 {
        assert(img.rt_entry(s) + img.cs() <= img.bytes.len());
    }
}

/// After a shared table has been copied, the image gives up its count.
pub(crate) proof fn lemma_old_table_released(
    a: Image,
    b: Image,
    c: Image,
    pins: Set<int>,
    i0: int,
    off: int,
)
    requires
        sound(a),
        0 <= i0 < a.l1.len(),
        a.l2_table(i0) != 0,
        table_installed(a, b, pins, i0, off),
        c == (Image { bytes: c.bytes, ..b }),
        ({
            let t = a.l2_table(i0) / a.cs();
            &&& step(b, pins, c, pins, -1)
            &&& forall|kk: int| #[trigger] c.refs(kk) == b.refs(kk)
            &&& forall|kk: int| #[trigger] c.is_meta(kk) == b.is_meta(kk)
            &&& forall|kk: int|
                0 <= kk && kk != t ==> #[trigger] c.refcount(kk) == b.refcount(kk)
            &&& b.refcount(t) - 1 <= c.refcount(t)
        }),
    ensures
        table_owned(a, c, pins, i0, off),
{
    lemma_cluster_size(a.header.cluster_bits);
    let t = a.l2_table(i0) / a.cs();
    assert(a.refers(i0, 0, t));
    lemma_step_trans(a, pins, b, pins, c, pins, -1);
    assert(off / b.cs() >= 0) by (nonlinear_arith)
        requires
            off > 0,
            b.cs() > 0,
    ;
    assert(c.refs(off / b.cs()) == b.refs(off / b.cs()));
    assert(c.refcount(off / b.cs()) == b.refcount(off / b.cs()));
    assert(c.l2_table(i0) == b.l2_table(i0));
    assert forall|kk: int| #[trigger] held_elsewhere(a, pins, kk) implies held_elsewhere(
        c,
        pins,
        kk,
    ) by {
        assert(held_elsewhere(b, pins, kk));
        assert(c.is_meta(kk) == b.is_meta(kk));
        assert(c.refs(kk) == b.refs(kk));
        if kk != t {
            assert(c.refcount(kk) == b.refcount(kk));
        }
    }
}

/// `b` is `a` after the L2 table of row `i0` has been replaced by one at `off` that
/// says the same.
pub open spec fn table_installed(a: Image, b: Image, pins: Set<int>, i0: int, off: int) -> bool {
    &&& step(a, pins, b, pins, -1)
    &&& off > 0
    &&& b.l2_table(i0) == off
    &&& b.refs(off / b.cs()) == 1
    &&& b.counted()
    &&& b.refcount(off / b.cs()) == 1
    &&& !a.refers(i0, 0, off / b.cs())
    // What the table was held by besides this row, it is held by still.
    &&& forall|kk: int| #[trigger]
        held_elsewhere(a, pins, kk) ==> held_elsewhere(b, pins, kk) && (a.refers(i0, 0, kk)
            ==> b.refs(kk) + 1 < b.refcount(kk))
    // The row has given up its reference to the old table.
    &&& forall|kk: int| #[trigger]
        a.refers(i0, 0, kk) ==> b.refs(kk) < b.refcount(kk) && !b.is_meta(kk) && !pins.contains(kk)
}

/// The cluster that has been filled with `table` stands in for the table of row
/// `i0`.
pub(crate) proof fn lemma_table_filled(a: Image, a1: Image, a2: Image, i0: int, table: Seq<u8>, k: int)
    requires
        sound(a),
        0 <= i0 < a.l1.len(),
        a.tables_placed(),
        a1 == (Image { bytes: a1.bytes, ..a }),
        a2 == (Image { bytes: overwrite(a1.bytes, k * a.cs(), table), ..a1 }),
        table_matches(a, i0, table),
        same_entries(a, a2),
        k > 0,
    ensures
        table_stands_in(a2, i0, k * a.cs()),
        k * a.cs() + a.cs() <= a2.bytes.len(),
{
    lemma_cluster_size(a.header.cluster_bits);
    let off = k * a.cs();
    assert(off > 0) by (nonlinear_arith)
        requires
            off == k * a.cs(),
            k > 0,
            a.cs() > 0,
    ;
    assert(found_at(a2.bytes, off, table));
    assert forall|j: int| 0 <= j < l2_len(a2.header) implies #[trigger] be64(a2.bytes, off + 8 * j)
        == (if a2.l2_table(i0) == 0 {
        0
    } else {
        a2.l2_entry(i0, j)
    }) by {
        lemma_found_be64(a2.bytes, off, table, 8 * j);
        assert(be64(table, 8 * j) == (if a.l2_table(i0) == 0 {
            0
        } else {
            a.l2_entry(i0, j)
        }));
        assert(a2.l2_table(i0) == a.l2_table(i0));
        if a.l2_table(i0) != 0 {
            assert(a2.l2_entry(i0, j) == a.l2_entry(i0, j));
        }
    }
}

/// A table that has been filled, and that the L1 table may or may not have come to
/// point at, harms nothing.
pub(crate) proof fn lemma_table_not_installed(
    a: Image,
    a2: Image,
    a3: Image,
    pins: Set<int>,
    i0: int,
    k: int,
)
    requires
        keeps(a, a2, 0, 0),
        untouched(a, pins, a2),
        forall|kk: int| #[trigger]
            held_elsewhere(a, pins, kk) ==> held_elsewhere(a2, pins.insert(k), kk),
        sound(a2),
        a2.consistent_with(pins.insert(k)),
        !pins.contains(k),
        0 <= i0 < a2.l1.len(),
        k * a2.cs() + a2.cs() <= a2.bytes.len(),
        k * a2.cs() + a2.cs() <= ADDRESSABLE,
        table_stands_in(a2, i0, k * a2.cs()),
        a3.bytes == a2.bytes || a3.bytes == overwrite(
            a2.bytes,
            a2.header.l1_table_offset + 8 * i0,
            be64_bytes(fresh_entry((k * a2.cs()) as u64)),
        ),
        a3 == (Image { bytes: a3.bytes, ..a2 }),
    ensures
        unharmed(a, pins, a3, 0, 0),
{
    let pins1 = pins.insert(k);
    if a3.bytes == a2.bytes {
        assert(a3 == a2);
        lemma_fewer_pins(a2, pins1, pins);
        lemma_unharmed(a, pins, a2, pins1, a2, 0, 0);
    } else {
        lemma_l1_half_set(a2, a3, i0, fresh_entry((k * a2.cs()) as u64), k, pins1);
        lemma_keeps_trans(a, a2, a3, 0, 0);
        lemma_keeps_trans(a, a2, reopened(a3), 0, 0);
        lemma_untouched_trans(a, pins, a2, pins1, a3);
        assert(pins1.remove(k) =~= pins);
    }
}

/// Allocating, filling and linking a table comes to replacing a table.
#[verifier::rlimit(100)]
pub(crate) proof fn lemma_table_installed(
    a: Image,
    a1: Image,
    a2: Image,
    a3: Image,
    pins: Set<int>,
    i0: int,
    k: int,
)
    requires
        0 <= i0 < a.l1.len(),
        sound(a),
        a.consistent_with(pins),
        a.counted(),
        k > 0,
        !pins.contains(k),
        step(a, pins, a1, pins.insert(k), -1),
        forall|kk: int| #[trigger]
            held_elsewhere(a, pins, kk) ==> held_elsewhere(a1, pins.insert(k), kk),
        forall|kk: int| #[trigger] a1.refs(kk) == a.refs(kk),
        step(a1, pins.insert(k), a2, pins.insert(k), k),
        forall|kk: int| #[trigger]
            held_elsewhere(a1, pins.insert(k), kk) ==> held_elsewhere(a2, pins.insert(k), kk),
        forall|kk: int| #[trigger] a2.refs(kk) == a1.refs(kk),
        a1.l1 == a.l1,
        a2.l1 == a.l1,
        step(a2, pins.insert(k), a3, pins.insert(k).remove(k), -1),
        a3.l2_table(i0) == k * a.cs(),
        a3.refs(k) == 1,
        forall|kk: int| 0 <= kk ==> #[trigger] a3.refcount(kk) == a2.refcount(kk),
        forall|kk: int| #[trigger] a3.is_meta(kk) == a2.is_meta(kk),
        forall|kk: int| #[trigger]
            a3.refs(kk) == a2.refs(kk) - (if a2.refers(i0, 0, kk) {
                1int
            } else {
                0
            }) + (if kk == k {
                1int
            } else {
                0
            }),
    ensures
        table_installed(a, a3, pins, i0, k * a.cs()),
{
    lemma_cluster_size(a.header.cluster_bits);
    let p1 = pins.insert(k);
    let cs = a.cs();
    assert(p1.remove(k) =~= pins);
    vstd::arithmetic::div_mod::lemma_fundamental_div_mod_converse(k * cs, cs, k, 0);
    assert(k * cs > 0) by (nonlinear_arith)
        requires
            k > 0,
            cs > 0,
    ;
    lemma_keeps_trans(a, a1, a2, 0, 0);
    lemma_keeps_trans(a, a2, a3, 0, 0);
    assert(p1.contains(k));
    assert forall|i: int, j: int, kk: int|
        0 <= i < a.l1.len() && 1 <= j <= l2_len(a.header) implies #[trigger] a3.refers(i, j, kk)
        == a.refers(i, j, kk) by {
        assert(a1.refers(i, j, kk) == a.refers(i, j, kk));
        assert(a2.refers(i, j, kk) == a1.refers(i, j, kk));
    }
    lemma_same_entries_trans(a, a1, a2);
    lemma_same_entries_trans(a, a2, a3);
    lemma_cluster_kept_trans(a, a1, a2, 0);
    lemma_cluster_kept_trans(a, a2, a3, 0);
    assert forall|kk: int| held_elsewhere(a, pins, kk) || pins.contains(
        kk,
    ) implies #[trigger] cluster_kept(a, a3, kk) by {
        if pins.contains(kk) {
            lemma_counted_nonneg(a, kk);
        }
        assert(held_elsewhere(a1, p1, kk) || p1.contains(kk));
        assert(kk != k);
        assert(held_elsewhere(a2, p1, kk) || p1.contains(kk));
        lemma_cluster_kept_trans(a, a1, a2, kk);
        lemma_cluster_kept_trans(a, a2, a3, kk);
    }
    assert forall|kk: int| #[trigger] a2.refers(i0, 0, kk) == a.refers(i0, 0, kk) by {
        assert(a2.l2_table(i0) == a.l2_table(i0));
    }
    assert(!a.refers(i0, 0, k)) by {
        if a.refers(i0, 0, k) {
            lemma_one_reference(a, i0, 0, k);
            assert(a2.refs(k) == 0);
        }
    }
    assert forall|kk: int| #[trigger] held_elsewhere(a, pins, kk) implies held_elsewhere(
        a3,
        pins,
        kk,
    ) && (a.refers(i0, 0, kk) ==> a3.refs(kk) + 1 < a3.refcount(kk)) by {
        assert(held_elsewhere(a1, p1, kk));
        assert(held_elsewhere(a2, p1, kk));
        assert(kk != k);
        assert(a3.is_meta(kk) == a2.is_meta(kk));
        assert(a2.refers(i0, 0, kk) == a.refers(i0, 0, kk));
    }
    assert forall|kk: int| #[trigger] a.refers(i0, 0, kk) implies a3.refs(kk) < a3.refcount(kk)
        && !a3.is_meta(kk) && !pins.contains(kk) by {
        lemma_one_reference(a, i0, 0, kk);
        assert(a2.refers(i0, 0, kk));
        let t = a.l2_table(i0);
        assert(kk >= 0) by (nonlinear_arith)
            requires
                kk == t / cs,
                t >= 0,
                cs > 0,
        ;
        assert(a2.refs(kk) <= a2.refcount(kk));
        assert(kk != k);
        assert(a3.is_meta(kk) == a2.is_meta(kk));
        assert(a2.refs(kk) == a.refs(kk));
    }
}

} // verus!
