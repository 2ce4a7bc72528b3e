//! Room: how many host clusters are left to be handed out.

use crate::consistency::{same_count, same_counts_but, sound};
use crate::consistency::counts::{
    lemma_block_linked_counts, lemma_block_written, lemma_claim, lemma_new_block_place,
};
use crate::consistency::frame::lemma_place;
use crate::error::Error;
use crate::image::Image;
use crate::refcount::lemma_refcount_geometry;
use vstd::prelude::*;

verus! {

impl Image {
    /// Whatever cluster the refcount table can count ends no later than `cap`.
    pub open spec fn table_ends_by(self, cap: int) -> bool {
        self.rt_len() * self.epb() * self.cs() <= cap
    }

    /// The table has no block for host cluster `k`, but has room for one, and the
    /// block itself would be another cluster.
    pub open spec fn may_be_counted(self, k: int) -> bool {
        &&& self.refcount_entry(k) is None
        &&& k / self.epb() < self.rt_len()
        &&& k % self.epb() != 0
    }
}

/// Host cluster `k` is to be had: it ends no later than `cap`, and its count is zero,
/// or it has none yet and every cluster that may get one ends no later than `cap`.
pub open spec fn spare(img: Image, cap: int, k: int) -> bool {
    &&& 0 < k
    &&& k * img.cs() + img.cs() <= cap
    &&& img.is_free(k) || (img.may_be_counted(k) && img.table_ends_by(cap))
}

/// Every cluster of `s` is to be had.
pub open spec fn spare_set(img: Image, cap: int, s: Set<int>) -> bool {
    s.finite() && forall|k: int| #[trigger] s.contains(k) ==> spare(img, cap, k)
}

/// At least `n` clusters are to be had.
pub open spec fn room(img: Image, cap: int, n: int) -> bool {
    exists|s: Set<int>| #[trigger] spare_set(img, cap, s) && s.len() >= n
}

/// Where there is a cluster whose count is zero, there is a first one.
proof fn lemma_first_free(img: Image, i: int, k: int) -> (j: int)
    requires
        0 <= i <= k,
        img.is_free(k),
        forall|x: int| 0 <= x < i ==> !#[trigger] img.is_free(x),
    ensures
        img.first_free(j),
        i <= j <= k,
    decreases k - i,
{
    if img.is_free(i) {
        i
    } else {
        lemma_first_free(img, i + 1, k)
    }
}

/// Where an entry of the refcount table has no block, there is a first such entry.
proof fn lemma_first_empty(img: Image, i: int, t: int) -> (s: int)
    requires
        0 <= i <= t < img.rt_len(),
        img.rt_entry(t) == 0,
        forall|x: int| 0 <= x < i ==> #[trigger] img.rt_entry(x) != 0,
    ensures
        img.first_empty(s),
        i <= s <= t,
    decreases t - i,
{
    if img.rt_entry(i) == 0 {
        i
    } else {
        lemma_first_empty(img, i + 1, t)
    }
}

/// A cluster that the refcount table reaches ends where the table ends, or before.
proof fn lemma_in_table(img: Image, cap: int, k: int)
    requires
        img.header.geometry_ok(),
        img.table_ends_by(cap),
        0 <= k,
        k / img.epb() < img.rt_len(),
    ensures
        k * img.cs() + img.cs() <= cap,
{
    lemma_place(img, k);
    let n = img.epb();
    let cs = img.cs();
    let len = img.rt_len();
    assert((k + 1) * cs <= len * n * cs) by (nonlinear_arith)
        requires
            k == k / n * n + k % n,
            k % n < n,
            k / n + 1 <= len,
            n > 0,
            cs > 0,
    ;
    assert((k + 1) * cs == k * cs + cs) by (nonlinear_arith);
}

/// Where there is room, an allocation is not refused, and what it writes and what it
/// hands out ends no later than `cap`.
#[verifier::rlimit(100)]
pub(crate) proof fn lemma_room_serves(a: Image, pins: Set<int>, cap: int, limit: int, n: int)
    requires
        sound(a),
        a.consistent_with(pins),
        a.counted(),
        room(a, cap, n),
        n >= 1,
        cap <= limit,
        cap <= u64::MAX,
        a.bytes.len() <= cap,
    ensures
        a.search_on_device(),
        a.allocation_fits(limit),
        forall|e: Error| !#[trigger] a.allocation_refused(e),
        forall|k: int, after: Seq<u8>| #[trigger]
            a.allocates(k, after) ==> 0 < k && k * a.cs() + a.cs() <= cap && after.len() <= cap,
{
    lemma_refcount_geometry(a.header);
    let s = choose|s: Set<int>| #[trigger] spare_set(a, cap, s) && s.len() >= n;
    assert(exists|k: int| s.contains(k)) by {
        if forall|k: int| !s.contains(k) {
            assert(s =~= Set::empty());
        }
    }
    let w = choose|k: int| s.contains(k);
    assert(spare(a, cap, w));
    lemma_place(a, w);
    assert(a.is_meta(0));
    assert(a.refcount(0) == 1);
    assert(!a.is_free(0));
    assert forall|k: int| #[trigger] a.first_free(k) implies 0 < k && k * a.cs() + a.cs()
        <= cap by {
        if a.table_ends_by(cap) {
            lemma_place(a, k);
            lemma_in_table(a, cap, k);
        } else {
            assert(k <= w) by {
                if k > w {
                    assert(!a.is_free(w));
                }
            }
            assert(k * a.cs() <= w * a.cs()) by (nonlinear_arith)
                requires
                    k <= w,
                    a.cs() > 0,
            ;
        }
    }
    assert forall|t: int| #[trigger] a.first_empty(t) && a.none_free() implies (t * a.epb() + 1)
        * a.cs() + a.cs() <= cap && a.new_block_off(t) + a.cs() <= cap by {
        assert(!a.is_free(w));
        lemma_new_block_place(a, t, pins);
        lemma_in_table(a, cap, t * a.epb() + 1);
        assert((t * a.epb() + 1) * a.cs() == t * a.epb() * a.cs() + a.cs()) by (nonlinear_arith);
    }
    assert(!a.first_empty(0)) by {
        if a.first_empty(0) {
            lemma_new_block_place(a, 0, pins);
        }
    }
    assert(!a.header_for_the_taking());
    if a.none_free() {
        assert(!a.is_free(w));
        let t = lemma_first_empty(a, 0, w / a.epb());
        assert(a.rt_entry(w / a.epb()) == 0);
    }
    assert(a.search_on_device()) by {
        assert forall|t: int| 0 <= t < a.rt_len() && a.rt_entry(t) != 0 implies #[trigger] a.rt_entry(
            t,
        ) + a.cs() <= a.bytes.len() by {}
    }
    assert forall|k: int, after: Seq<u8>| #[trigger] a.allocates(k, after) implies 0 < k && k
        * a.cs() + a.cs() <= cap && after.len() <= cap by {
        if a.first_free(k) && after == a.claimed(k) {
            let b = Image { bytes: after, ..a };
            lemma_claim(a, b, k, pins);
        } else {
            let t = choose|t: int|
                0 < t && a.none_free() && #[trigger] a.first_empty(t) && k == t * a.epb() + 1 && after
                    == a.grown(t);
            lemma_new_block_place(a, t, pins);
            let m = Image { bytes: a.with_block(t), ..a };
            lemma_block_written(a, m, t, pins);
            let b = Image { bytes: after, ..a };
            assert((t * a.epb() + 1) * a.cs() == t * a.epb() * a.cs() + a.cs()) by (nonlinear_arith);
        }
    }
}

/// After a cluster has been handed out there is room for one less.
pub(crate) proof fn lemma_room_taken(a: Image, b: Image, pins: Set<int>, cap: int, n: int, k: int)
    requires
        sound(a),
        a.consistent_with(pins),
        a.counted(),
        room(a, cap, n),
        a.allocates(k, b.bytes),
        k * a.cs() <= u64::MAX,
        b == (Image { bytes: b.bytes, ..a }),
    ensures
        room(b, cap, n - 1),
{
    let s = choose|s: Set<int>| #[trigger] spare_set(a, cap, s) && s.len() >= n;
    let t = s.remove(k);
    assert forall|x: int| #[trigger] t.contains(x) implies spare(b, cap, x) by {
        assert(s.contains(x));
        assert(spare(a, cap, x));
        if a.first_free(k) && b.bytes == a.claimed(k) {
            lemma_claim(a, b, k, pins);
            assert(same_count(a, b, x));
        } else {
            lemma_spare_after_growth(a, b, pins, cap, k, x);
        }
    }
    assert(spare_set(b, cap, t));
    assert(t.len() >= s.len() - 1);
}

/// A cluster that was to be had is still to be had when a new refcount block has been
/// made for another one.
proof fn lemma_spare_after_growth(
    a: Image,
    b: Image,
    pins: Set<int>,
    cap: int,
    k: int,
    x: int,
)
    requires
        sound(a),
        a.consistent_with(pins),
        a.counted(),
        exists|s: int|
            0 < s && a.none_free() && #[trigger] a.first_empty(s) && k == s * a.epb() + 1 && b.bytes
                == a.grown(s),
        k * a.cs() <= u64::MAX,
        b == (Image { bytes: b.bytes, ..a }),
        spare(a, cap, x),
        x != k,
    ensures
        spare(b, cap, x),
{
    let s = choose|s: int|
        0 < s && a.none_free() && #[trigger] a.first_empty(s) && k == s * a.epb() + 1 && b.bytes
            == a.grown(s);
    let m = Image { bytes: a.with_block(s), ..a };
    lemma_block_written(a, m, s, pins);
    lemma_new_block_place(a, s, pins);
    assert(a.new_block_off(s) <= k * a.cs()) by (nonlinear_arith)
        requires
            a.new_block_off(s) == s * a.epb() * a.cs(),
            k == s * a.epb() + 1,
            a.cs() > 0,
    ;
    lemma_block_linked_counts(m, b, s, pins);
    lemma_place(a, x);
    assert(same_count(a, m, x));
    let t = x / a.epb();
    assert(b.refcount(x) == m.refcount(x));
    if t != s {
        if t < a.rt_len() {
            assert(b.rt_entry(t) == m.rt_entry(t));
        }
        assert(same_count(m, b, x));
    } else {
        assert(b.rt_entry(s) != 0);
    }
}

/// As long as what is to be had stays so, there is room.
pub(crate) proof fn lemma_room_kept(a: Image, b: Image, cap: int, n: int, k: int)
    requires
        room(a, cap, n),
        b.header == a.header,
        same_counts_but(a, b, k),
        k < 0 || a.refcount(k) > 0,
    ensures
        room(b, cap, n),
{
    let s = choose|s: Set<int>| #[trigger] spare_set(a, cap, s) && s.len() >= n;
    assert forall|x: int| #[trigger] s.contains(x) implies spare(b, cap, x) by {
        assert(spare(a, cap, x));
        if x != k {
            assert(same_count(a, b, x));
        }
    }
    assert(spare_set(b, cap, s));
}

/// Room for more is room for less.
pub(crate) proof fn lemma_room_less(a: Image, cap: int, n: int, m: int)
    requires
        room(a, cap, n),
        m <= n,
    ensures
        room(a, cap, m),
{
    let s = choose|s: Set<int>| #[trigger] spare_set(a, cap, s) && s.len() >= n;
    assert(spare_set(a, cap, s));
}

} // verus!
