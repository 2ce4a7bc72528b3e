//! What a write asks of the device, in which order, and what comes of it.
//!
//! The order is: counts, data, tables, and the count that is given up last; each
//! write is flushed before the next one. Here `log` are the calls that the device has
//! had before a step, and `after` those that it has had when the step is done.
//! `sure` says that the devices serve what they can: a count that can be given up is.

use crate::bytes::{be64_bytes, overwrite, zeros};
use crate::device::{settled, with_write, Call};
use crate::entry::{fresh_entry, ClusterMap, L2_FLAG_COPIED};
use crate::image::Image;
use crate::writer::{goes_in_place, plan_for, WritePlan};
use vstd::prelude::*;

verus! {

/// `b` is `a` after a cluster has been allocated and filled with `table`, and L1 entry
/// `i0` has been made to point at it. The cluster lies at `off`.
#[verifier::opaque]
pub open spec fn table_put(
    a: Image,
    i0: int,
    table: Seq<u8>,
    log: Seq<Call>,
    b: Image,
    after: Seq<Call>,
    off: int,
) -> bool {
    0 < off <= u64::MAX && off % a.cs() == 0 && exists|bytes: Seq<u8>, between: Seq<Call>| #[trigger]
        a.claims(off / a.cs(), log, bytes, between) && b == (Image {
            bytes: overwrite(
                overwrite(bytes, off, table),
                a.header.l1_table_offset + 8 * i0,
                be64_bytes(fresh_entry(off as u64)),
            ),
            l1: a.l1.update(i0, fresh_entry(off as u64)),
            ..a
        }) && after == settled(
            settled(between, off, table),
            a.header.l1_table_offset + 8 * i0,
            be64_bytes(fresh_entry(off as u64)),
        )
}

/// L1 entry `i0` points at a table that no one else uses.
pub open spec fn table_is_own(a: Image, i0: int) -> bool {
    &&& a.l2_table(i0) != 0
    &&& a.l1[i0] & L2_FLAG_COPIED != 0 || (a.count_read(a.l2_table(i0)) matches Ok(c) && c <= 1)
}

/// `b` is `a` after the image has got an L2 table of its own for L1 entry `i0`, at
/// `off`: the one that it has, an empty one, or a copy of one that it shares, which
/// then loses a count.
#[verifier::opaque]
pub open spec fn table_made_own(
    a: Image,
    i0: int,
    log: Seq<Call>,
    b: Image,
    after: Seq<Call>,
    off: int,
    sure: bool,
) -> bool {
    let table = a.l2_table(i0);
    if table == 0 {
        table_put(a, i0, zeros(a.cs()), log, b, after, off)
    } else if table_is_own(a, i0) {
        b == a && after == log && off == table
    } else {
        exists|m: Image, between: Seq<Call>| #[trigger]
            table_put(a, i0, a.bytes.subrange(table, table + a.cs()), log, m, between, off)
                && m.gives_up(table, between, b.bytes, after, sure) && b == (Image {
                bytes: b.bytes,
                ..m
            })
    }
}

/// `c` is `a` after entry `j0` of the L2 table of L1 entry `i0` has been set to `e`.
#[verifier::opaque]
pub open spec fn entry_put(
    a: Image,
    i0: int,
    j0: int,
    e: u64,
    log: Seq<Call>,
    c: Image,
    after: Seq<Call>,
    sure: bool,
) -> bool {
    exists|b: Image, between: Seq<Call>, off: int| #[trigger]
        table_made_own(a, i0, log, b, between, off, sure) && off + a.cs() <= b.bytes.len() && c == (Image {
            bytes: overwrite(b.bytes, off + 8 * j0, be64_bytes(e)),
            ..b
        }) && after == settled(
            between,
            off,
            overwrite(b.bytes.subrange(off, off + a.cs()), 8 * j0, be64_bytes(e)),
        )
}

/// The whole cluster that holds byte `v`, as a reader sees it.
pub open spec fn cluster_seen(a: Image, v: int) -> Seq<u8> {
    Seq::new(a.cs() as nat, |d: int| a.guest_byte(v - v % a.cs() + d)->Ok_0)
}

/// `a` with the cluster that is seen at byte `v`, overlaid with `src`, in host cluster
/// `k`; `bytes` are those of the device before.
pub open spec fn cluster_filled(a: Image, v: int, src: Seq<u8>, k: int, bytes: Seq<u8>) -> Image {
    Image {
        bytes: overwrite(bytes, k * a.cs(), overwrite(cluster_seen(a, v), v % a.cs(), src)),
        ..a
    }
}

/// `c` is `a` after the new cluster `k` has been filled with what is seen at byte `v`,
/// overlaid with `src`, and then put into the tables. `bytes` are those of the device
/// when `k` had been allocated.
#[verifier::opaque]
pub open spec fn cluster_put(
    a: Image,
    v: int,
    src: Seq<u8>,
    k: int,
    bytes: Seq<u8>,
    log: Seq<Call>,
    c: Image,
    after: Seq<Call>,
    sure: bool,
) -> bool {
    entry_put(
        cluster_filled(a, v, src, k, bytes),
        a.l1_index(v),
        a.l2_index(v),
        fresh_entry((k * a.cs()) as u64),
        settled(log, k * a.cs(), overwrite(cluster_seen(a, v), v % a.cs(), src)),
        c,
        after,
        sure,
    )
}

/// `d` is `a` after a new cluster has taken the place of the one that holds byte `v`:
/// it is allocated, filled and put into the tables, and then `release` loses a count.
#[verifier::opaque]
pub open spec fn cluster_replaced(
    a: Image,
    v: int,
    src: Seq<u8>,
    release: Option<u64>,
    log: Seq<Call>,
    d: Image,
    after: Seq<Call>,
    sure: bool,
) -> bool {
    exists|k: int, bytes: Seq<u8>, l1: Seq<Call>, c: Image, l2: Seq<Call>|
        #![trigger a.claims(k, log, bytes, l1), cluster_put(a, v, src, k, bytes, l1, c, l2, sure)]
        {
            &&& 0 < k && k * a.cs() <= u64::MAX
            &&& a.holds(v - v % a.cs(), cluster_seen(a, v))
            &&& a.claims(k, log, bytes, l1)
            &&& cluster_put(a, v, src, k, bytes, l1, c, l2, sure)
            &&& match release {
                Some(host_off) => c.gives_up(host_off as int, l2, d.bytes, after, sure) && d == (Image {
                    bytes: d.bytes,
                    ..c
                }),
                None => d == c && after == l2,
            }
        }
}

/// `b` is `a` after `src` has been written at byte `v`, inside one cluster.
#[verifier::opaque]
pub open spec fn chunk_written(
    a: Image,
    v: int,
    src: Seq<u8>,
    log: Seq<Call>,
    b: Image,
    after: Seq<Call>,
    sure: bool,
) -> bool {
    match a.cluster_map(v) {
        Ok(m) => match plan_for(a, m) {
            Ok(WritePlan::InPlace { host_off }) => {
                &&& b == (Image { bytes: overwrite(a.bytes, host_off + v % a.cs(), src), ..a })
                &&& after == with_write(log, host_off + v % a.cs(), src, true)
            },
            Ok(WritePlan::Reallocate { release, .. }) => cluster_replaced(
                a,
                v,
                src,
                release,
                log,
                b,
                after,
                sure,
            ),
            Err(_) => false,
        },
        Err(_) => false,
    }
}

/// The `len` bytes at `v` lie in one cluster of the virtual disk.
pub open spec fn in_one(a: Image, v: int, len: int) -> bool {
    0 < len && v % a.cs() + len <= a.cs()
}

/// `src` is put where the cluster that holds byte `v` is: the one call is that write,
/// and nothing but its bytes is changed.
pub open spec fn put_in_place(
    a: Image,
    v: int,
    src: Seq<u8>,
    log: Seq<Call>,
    b: Image,
    after: Seq<Call>,
) -> bool {
    &&& a.cluster_map(v) matches Ok(ClusterMap::Plain { host_off, .. }) && b == (Image {
        bytes: overwrite(a.bytes, host_off + v % a.cs(), src),
        ..a
    }) && after == with_write(log, host_off + v % a.cs(), src, true)
}

/// How many of `len` bytes at `v` lie in the clusters before the last one.
pub open spec fn before_last(cs: int, v: int, len: int) -> int {
    let start = (v + len - 1) / cs * cs;
    if v < start {
        start - v
    } else {
        0
    }
}

/// `b` is `a` after `data` has been written at byte `v`, cluster by cluster.
#[verifier::opaque]
pub open spec fn chunks_written(
    a: Image,
    v: int,
    data: Seq<u8>,
    log: Seq<Call>,
    b: Image,
    after: Seq<Call>,
    sure: bool,
) -> bool
    decreases data.len(),
{
    let n = before_last(a.cs(), v, data.len() as int);
    if data.len() == 0 {
        b == a && after == log
    } else {
        0 <= n < data.len() && exists|m: Image, between: Seq<Call>|
            chunks_written(a, v, data.subrange(0, n), log, m, between, sure) && #[trigger] chunk_written(
                m,
                v + n,
                data.subrange(n, data.len() as int),
                between,
                b,
                after,
                sure,
            )
    }
}

/// Allocating a cluster, filling it and setting an L1 entry puts a table.
pub(crate) proof fn lemma_table_put(
    a: Image,
    i0: int,
    table: Seq<u8>,
    log: Seq<Call>,
    bytes: Seq<u8>,
    between: Seq<Call>,
    b: Image,
    after: Seq<Call>,
    off: int,
)
    requires
        0 < off <= u64::MAX,
        off % a.cs() == 0,
        a.claims(off / a.cs(), log, bytes, between),
        b == (Image {
            bytes: overwrite(
                overwrite(bytes, off, table),
                a.header.l1_table_offset + 8 * i0,
                be64_bytes(fresh_entry(off as u64)),
            ),
            l1: a.l1.update(i0, fresh_entry(off as u64)),
            ..a
        }),
        after == settled(
            settled(between, off, table),
            a.header.l1_table_offset + 8 * i0,
            be64_bytes(fresh_entry(off as u64)),
        ),
    ensures
        table_put(a, i0, table, log, b, after, off),
{
    reveal(table_put);
}

/// A table that is put where there was none is the image's own.
pub(crate) proof fn lemma_table_new(
    a: Image,
    i0: int,
    log: Seq<Call>,
    b: Image,
    after: Seq<Call>,
    off: int,
    sure: bool,
)
    requires
        a.l2_table(i0) == 0,
        table_put(a, i0, zeros(a.cs()), log, b, after, off),
    ensures
        table_made_own(a, i0, log, b, after, off, sure),
{
    reveal(table_made_own);
}

/// A table that is the image's own needs nothing.
pub(crate) proof fn lemma_table_own_already(a: Image, i0: int, log: Seq<Call>, sure: bool)
    requires
        table_is_own(a, i0),
    ensures
        table_made_own(a, i0, log, a, log, a.l2_table(i0), sure),
{
    reveal(table_made_own);
}

/// A copy of a table that is shared is the image's own.
pub(crate) proof fn lemma_table_copied(
    a: Image,
    i0: int,
    log: Seq<Call>,
    m: Image,
    between: Seq<Call>,
    b: Image,
    after: Seq<Call>,
    off: int,
    sure: bool,
)
    requires
        a.l2_table(i0) != 0,
        !table_is_own(a, i0),
        table_put(
            a,
            i0,
            a.bytes.subrange(a.l2_table(i0), a.l2_table(i0) + a.cs()),
            log,
            m,
            between,
            off,
        ),
        m.gives_up(a.l2_table(i0), between, b.bytes, after, sure),
        b == (Image { bytes: b.bytes, ..m }),
    ensures
        table_made_own(a, i0, log, b, after, off, sure),
{
    reveal(table_made_own);
}

/// Setting an entry of a table that is the image's own puts the entry.
pub(crate) proof fn lemma_entry_put(
    a: Image,
    i0: int,
    j0: int,
    e: u64,
    log: Seq<Call>,
    b: Image,
    between: Seq<Call>,
    off: int,
    c: Image,
    after: Seq<Call>,
    sure: bool,
)
    requires
        table_made_own(a, i0, log, b, between, off, sure),
        off + a.cs() <= b.bytes.len(),
        c == (Image { bytes: overwrite(b.bytes, off + 8 * j0, be64_bytes(e)), ..b }),
        after == settled(
            between,
            off,
            overwrite(b.bytes.subrange(off, off + a.cs()), 8 * j0, be64_bytes(e)),
        ),
    ensures
        entry_put(a, i0, j0, e, log, c, after, sure),
{
    reveal(entry_put);
}

/// Allocating a cluster, filling it, putting it into the tables and giving up the old
/// one replaces a cluster.
pub(crate) proof fn lemma_cluster_replaced(
    a: Image,
    v: int,
    src: Seq<u8>,
    release: Option<u64>,
    log: Seq<Call>,
    k: int,
    bytes: Seq<u8>,
    l1: Seq<Call>,
    c: Image,
    l2: Seq<Call>,
    d: Image,
    after: Seq<Call>,
    sure: bool,
)
    requires
        0 < k,
        k * a.cs() <= u64::MAX,
        a.holds(v - v % a.cs(), cluster_seen(a, v)),
        a.claims(k, log, bytes, l1),
        entry_put(
            cluster_filled(a, v, src, k, bytes),
            a.l1_index(v),
            a.l2_index(v),
            fresh_entry((k * a.cs()) as u64),
            settled(l1, k * a.cs(), overwrite(cluster_seen(a, v), v % a.cs(), src)),
            c,
            l2,
            sure,
        ),
        match release {
            Some(host_off) => c.gives_up(host_off as int, l2, d.bytes, after, sure) && d == (Image {
                bytes: d.bytes,
                ..c
            }),
            None => d == c && after == l2,
        },
    ensures
        cluster_replaced(a, v, src, release, log, d, after, sure),
{
    reveal(cluster_put);
    reveal(cluster_replaced);
    assert(cluster_put(a, v, src, k, bytes, l1, c, l2, sure));
}

/// To write nothing takes no call.
pub(crate) proof fn lemma_no_chunks(a: Image, v: int, log: Seq<Call>, sure: bool)
    ensures
        chunks_written(a, v, Seq::empty(), log, a, log, sure),
{
    reveal_with_fuel(chunks_written, 1);
}

/// One more cluster is written.
pub(crate) proof fn lemma_one_more_chunk(
    a: Image,
    v: int,
    d1: Seq<u8>,
    d2: Seq<u8>,
    log: Seq<Call>,
    m: Image,
    between: Seq<Call>,
    b: Image,
    after: Seq<Call>,
    sure: bool,
)
    requires
        a.cs() > 0,
        0 <= v,
        d1.len() == 0 || (v + d1.len()) % a.cs() == 0,
        0 < d2.len(),
        (v + d1.len()) % a.cs() + d2.len() <= a.cs(),
        chunks_written(a, v, d1, log, m, between, sure),
        chunk_written(m, v + d1.len(), d2, between, b, after, sure),
    ensures
        chunks_written(a, v, d1 + d2, log, b, after, sure),
{
    reveal_with_fuel(chunks_written, 1);
    let cs = a.cs();
    let n = d1.len() as int;
    let data = d1 + d2;
    let at = v + n;
    let last = v + data.len() - 1;
    vstd::arithmetic::div_mod::lemma_fundamental_div_mod(at, cs);
    let q = at / cs;
    vstd::arithmetic::div_mod::lemma_fundamental_div_mod_converse(
        last,
        cs,
        q,
        at % cs + d2.len() - 1,
    );
    assert(q * cs == cs * q) by (nonlinear_arith);
    assert(before_last(cs, v, data.len() as int) == n);
    assert(data.subrange(0, n) =~= d1);
    assert(data.subrange(n, data.len() as int) =~= d2);
}

/// A write inside one cluster is a write of one cluster.
pub(crate) proof fn lemma_one_chunk(
    a: Image,
    v: int,
    data: Seq<u8>,
    log: Seq<Call>,
    b: Image,
    after: Seq<Call>,
    sure: bool,
)
    requires
        a.cs() > 0,
        0 <= v,
        in_one(a, v, data.len() as int),
        chunks_written(a, v, data, log, b, after, sure),
    ensures
        chunk_written(a, v, data, log, b, after, sure),
{
    reveal_with_fuel(chunks_written, 2);
    let cs = a.cs();
    let len = data.len() as int;
    vstd::arithmetic::div_mod::lemma_fundamental_div_mod(v, cs);
    let q = v / cs;
    vstd::arithmetic::div_mod::lemma_fundamental_div_mod_converse(
        v + len - 1,
        cs,
        q,
        v % cs + len - 1,
    );
    assert(q * cs == cs * q) by (nonlinear_arith);
    assert(before_last(cs, v, len) == 0);
    assert(data.subrange(0, len) =~= data);
    assert(data.subrange(0, 0).len() == 0);
}

/// A write into a cluster that is not replaced is one write.
pub(crate) proof fn lemma_put_in_place(
    a: Image,
    v: int,
    src: Seq<u8>,
    log: Seq<Call>,
    b: Image,
    after: Seq<Call>,
    sure: bool,
)
    requires
        chunk_written(a, v, src, log, b, after, sure),
    ensures
        goes_in_place(a, v) ==> put_in_place(a, v, src, log, b, after),
{
    reveal(chunk_written);
}

} // verus!
