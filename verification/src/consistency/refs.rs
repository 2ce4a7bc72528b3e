//! Counting references: the sums that the number of references is made of.

use crate::consistency::sum;
use crate::consistency::frame::sole_reference;
use crate::entry::l2_len;
use crate::image::Image;
use vstd::prelude::*;

verus! {

proof fn lemma_sum_ext(f: spec_fn(int) -> int, g: spec_fn(int) -> int, n: int)
    requires
        forall|i: int| 0 <= i < n ==> #[trigger] f(i) == g(i),
    ensures
        sum(f, n) == sum(g, n),
    decreases n,
{
    if n > 0 {
        lemma_sum_ext(f, g, n - 1);
        assert(f(n - 1) == g(n - 1));
    }
}

proof fn lemma_sum_nonneg(f: spec_fn(int) -> int, n: int)
    requires
        forall|i: int| 0 <= i < n ==> #[trigger] f(i) >= 0,
    ensures
        sum(f, n) >= 0,
    decreases n,
{
    if n > 0 {
        lemma_sum_nonneg(f, n - 1);
        assert(f(n - 1) >= 0);
    }
}

proof fn lemma_sum_at_least(f: spec_fn(int) -> int, n: int, i: int)
    requires
        forall|i: int| 0 <= i < n ==> #[trigger] f(i) >= 0,
        0 <= i < n,
    ensures
        sum(f, n) >= f(i),
    decreases n,
{
    if i == n - 1 {
        lemma_sum_nonneg(f, n - 1);
    } else {
        assert(f(n - 1) >= 0);
        lemma_sum_at_least(f, n - 1, i);
    }
}

proof fn lemma_sum_at_least_two(f: spec_fn(int) -> int, n: int, i: int, j: int)
    requires
        forall|i: int| 0 <= i < n ==> #[trigger] f(i) >= 0,
        0 <= i < j < n,
    ensures
        sum(f, n) >= f(i) + f(j),
    decreases n,
{
    if j == n - 1 {
        lemma_sum_at_least(f, n - 1, i);
    } else {
        assert(f(n - 1) >= 0);
        lemma_sum_at_least_two(f, n - 1, i, j);
    }
}

proof fn lemma_sum_update(f: spec_fn(int) -> int, g: spec_fn(int) -> int, n: int, i: int)
    requires
        forall|j: int| 0 <= j < n && j != i ==> #[trigger] f(j) == g(j),
        0 <= i < n,
    ensures
        sum(g, n) == sum(f, n) - f(i) + g(i),
    decreases n,
{
    if i == n - 1 {
        lemma_sum_ext(f, g, n - 1);
    } else {
        assert(f(n - 1) == g(n - 1));
        lemma_sum_update(f, g, n - 1, i);
    }
}

/// Two places that refer to one cluster are two references.
pub(crate) proof fn lemma_two_references(img: Image, i: int, j: int, i2: int, j2: int, k: int)
    requires
        0 <= i < img.l1.len(),
        0 <= i2 < img.l1.len(),
        0 <= j <= l2_len(img.header),
        0 <= j2 <= l2_len(img.header),
        i != i2 || j != j2,
        img.refers(i, j, k),
        img.refers(i2, j2, k),
    ensures
        img.refs(k) >= 2,
{
    let n = img.l1.len() as int;
    let rows = |i: int| img.row_refs(i, k);
    assert forall|i: int| 0 <= i < n implies #[trigger] rows(i) >= 0 by {
        lemma_sum_nonneg(
            |j: int|
                if img.refers(i, j, k) {
                    1
                } else {
                    0
                },
            l2_len(img.header) + 1,
        );
    }
    lemma_row_reference(img, i, j, k);
    lemma_row_reference(img, i2, j2, k);
    if i < i2 {
        lemma_sum_at_least_two(rows, n, i, i2);
    } else if i2 < i {
        lemma_sum_at_least_two(rows, n, i2, i);
    } else {
        let places = |j: int|
            if img.refers(i, j, k) {
                1int
            } else {
                0
            };
        if j < j2 {
            lemma_sum_at_least_two(places, l2_len(img.header) + 1, j, j2);
        } else {
            lemma_sum_at_least_two(places, l2_len(img.header) + 1, j2, j);
        }
        lemma_sum_at_least(rows, n, i);
    }
}

proof fn lemma_row_reference(img: Image, i: int, j: int, k: int)
    requires
        0 <= j <= l2_len(img.header),
        img.refers(i, j, k),
    ensures
        img.row_refs(i, k) >= 1,
{
    lemma_sum_at_least(
        |j: int|
            if img.refers(i, j, k) {
                1int
            } else {
                0
            },
        l2_len(img.header) + 1,
        j,
    );
}

/// A place that refers to a cluster is a reference to it.
pub(crate) proof fn lemma_one_reference(img: Image, i: int, j: int, k: int)
    requires
        0 <= i < img.l1.len(),
        0 <= j <= l2_len(img.header),
        img.refers(i, j, k),
    ensures
        img.refs(k) >= 1,
{
    let n = img.l1.len() as int;
    let rows = |i: int| img.row_refs(i, k);
    assert forall|i: int| 0 <= i < n implies #[trigger] rows(i) >= 0 by {
        lemma_sum_nonneg(
            |j: int|
                if img.refers(i, j, k) {
                    1
                } else {
                    0
                },
            l2_len(img.header) + 1,
        );
    }
    lemma_row_reference(img, i, j, k);
    lemma_sum_at_least(rows, n, i);
}

/// The number of references is never negative.
pub(crate) proof fn lemma_refs_nonneg(img: Image, k: int)
    ensures
        img.refs(k) >= 0,
{
    let n = img.l1.len() as int;
    let rows = |i: int| img.row_refs(i, k);
    assert forall|i: int| 0 <= i < n implies #[trigger] rows(i) >= 0 by {
        lemma_sum_nonneg(
            |j: int|
                if img.refers(i, j, k) {
                    1
                } else {
                    0
                },
            l2_len(img.header) + 1,
        );
    }
    lemma_sum_nonneg(rows, n);
}

/// Places that refer to the same clusters make the same number of references.
pub(crate) proof fn lemma_refs_ext(a: Image, b: Image, k: int)
    requires
        a.header == b.header,
        a.l1.len() == b.l1.len(),
        forall|i: int, j: int|
            0 <= i < a.l1.len() && 0 <= j <= l2_len(a.header) ==> #[trigger] b.refers(i, j, k)
                == a.refers(i, j, k),
    ensures
        b.refs(k) == a.refs(k),
{
    let rows_a = |i: int| a.row_refs(i, k);
    let rows_b = |i: int| b.row_refs(i, k);
    assert forall|i: int| 0 <= i < a.l1.len() implies #[trigger] rows_a(i) == rows_b(i) by {
        lemma_row_ext(a, b, i, k);
    }
    lemma_sum_ext(rows_a, rows_b, a.l1.len() as int);
}

proof fn lemma_row_ext(a: Image, b: Image, i: int, k: int)
    requires
        a.header == b.header,
        forall|j: int|
            0 <= j <= l2_len(a.header) ==> #[trigger] b.refers(i, j, k) == a.refers(i, j, k),
    ensures
        b.row_refs(i, k) == a.row_refs(i, k),
{
    let pa = |j: int|
        if a.refers(i, j, k) {
            1int
        } else {
            0
        };
    let pb = |j: int|
        if b.refers(i, j, k) {
            1int
        } else {
            0
        };
    assert forall|j: int| 0 <= j < l2_len(a.header) + 1 implies #[trigger] pa(j) == pb(j) by {
        assert(b.refers(i, j, k) == a.refers(i, j, k));
    }
    lemma_sum_ext(pa, pb, l2_len(a.header) + 1);
}

/// A cluster without references is referred to from no place.
pub(crate) proof fn lemma_unreferenced(img: Image, k: int)
    requires
        img.refs(k) == 0,
    ensures
        sole_reference(img, k, -1, -1),
{
    assert forall|i: int, j: int|
        0 <= i < img.l1.len() && 0 <= j <= l2_len(img.header) && #[trigger] img.refers(
            i,
            j,
            k,
        ) implies false by {
        lemma_one_reference(img, i, j, k);
    }
}

/// One place that comes to refer to something else changes the number of
/// references by what it referred to and what it refers to.
pub(crate) proof fn lemma_refs_update(a: Image, b: Image, i0: int, j0: int, k: int)
    requires
        a.header == b.header,
        a.l1.len() == b.l1.len(),
        0 <= i0 < a.l1.len(),
        0 <= j0 <= l2_len(a.header),
        forall|i: int, j: int|
            0 <= i < a.l1.len() && 0 <= j <= l2_len(a.header) && !(i == i0 && j == j0)
                ==> #[trigger] b.refers(i, j, k) == a.refers(i, j, k),
    ensures
        b.refs(k) == a.refs(k) - (if a.refers(i0, j0, k) {
            1int
        } else {
            0
        }) + (if b.refers(i0, j0, k) {
            1int
        } else {
            0
        }),
{
    let pa = |j: int|
        if a.refers(i0, j, k) {
            1int
        } else {
            0
        };
    let pb = |j: int|
        if b.refers(i0, j, k) {
            1int
        } else {
            0
        };
    assert forall|j: int| 0 <= j < l2_len(a.header) + 1 && j != j0 implies #[trigger] pa(j) == pb(
        j,
    ) by {
        assert(b.refers(i0, j, k) == a.refers(i0, j, k));
    }
    lemma_sum_update(pa, pb, l2_len(a.header) + 1, j0);
    let rows_a = |i: int| a.row_refs(i, k);
    let rows_b = |i: int| b.row_refs(i, k);
    assert forall|i: int| 0 <= i < a.l1.len() && i != i0 implies #[trigger] rows_a(i) == rows_b(
        i,
    ) by {
        lemma_row_ext(a, b, i, k);
    }
    lemma_sum_update(rows_a, rows_b, a.l1.len() as int, i0);
}

} // verus!
