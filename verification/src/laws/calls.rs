//! What a write asks of the device: after each write of a replacement comes a flush.

use crate::bytes::{be64_bytes, overwrite, zeros};
use crate::device::{extends, settled, Call};
use crate::entry::fresh_entry;
use crate::header::lemma_cluster_size;
use crate::image::Image;
use crate::writer::{goes_in_place, plan_for};
use crate::writer::order::{
    chunk_written, chunks_written, cluster_filled, cluster_put, cluster_replaced, cluster_seen,
    entry_put, in_one, lemma_one_chunk, table_is_own, table_made_own, table_put,
};
use vstd::prelude::*;

verus! {

/// What `after` has beyond `log` are writes with a flush after each.
pub open spec fn flushed_each(log: Seq<Call>, after: Seq<Call>) -> bool {
    &&& extends(log, after)
    &&& (after.len() - log.len()) % 2 == 0
    &&& forall|i: int|
        log.len() <= i < after.len() ==> if (i - log.len()) % 2 == 0 {
            (#[trigger] after[i]).request is Write
        } else {
            after[i].request is Flush
        }
}

/// One write that is settled, and then others.
proof fn lemma_settled(log: Seq<Call>, mid: Seq<Call>, offset: int, data: Seq<u8>)
    requires
        flushed_each(log, mid),
    ensures
        flushed_each(log, settled(mid, offset, data)),
{
    let after = settled(mid, offset, data);
    assert forall|i: int| 0 <= i < log.len() implies #[trigger] after[i] == log[i] by {
        assert(mid[i] == log[i]);
    }
    assert forall|i: int| log.len() <= i < after.len() implies if (i - log.len()) % 2 == 0 {
        (#[trigger] after[i]).request is Write
    } else {
        after[i].request is Flush
    } by {
        if i < mid.len() {
            assert(after[i] == mid[i]);
        }
    }
}

/// An allocation settles what it writes.
proof fn lemma_claims(
    a: Image,
    k: int,
    start: Seq<Call>,
    log: Seq<Call>,
    after: Seq<u8>,
    calls: Seq<Call>,
)
    requires
        flushed_each(start, log),
        a.claims(k, log, after, calls),
    ensures
        flushed_each(start, calls),
{
    reveal(Image::claims);
    if 0 < k && a.first_free(k) && calls == settled(
        log,
        a.rt_entry(k / a.epb()),
        a.block_with_count(k, 1),
    ) {
        lemma_settled(start, log, a.rt_entry(k / a.epb()), a.block_with_count(k, 1));
    } else {
        let s = choose|s: int|
            0 < s && a.none_free() && #[trigger] a.first_empty(s) && k == s * a.epb() + 1 && after
                == a.grown(s) && calls == settled(
                settled(log, a.new_block_off(s), a.new_block()),
                a.rt_off() + 8 * s,
                be64_bytes(a.new_block_off(s) as u64),
            );
        let mid = settled(log, a.new_block_off(s), a.new_block());
        lemma_settled(start, log, a.new_block_off(s), a.new_block());
        lemma_settled(
            start,
            mid,
            a.rt_off() + 8 * s,
            be64_bytes(a.new_block_off(s) as u64),
        );
    }
}

/// To give up a count is to settle one write, or to ask for nothing.
proof fn lemma_gives_up(
    a: Image,
    host_off: int,
    start: Seq<Call>,
    log: Seq<Call>,
    after: Seq<u8>,
    calls: Seq<Call>,
)
    requires
        flushed_each(start, log),
        a.gives_up(host_off, log, after, calls, true),
    ensures
        flushed_each(start, calls),
{
    reveal(Image::gives_up);
    if a.release(host_off) is Ok {
        let k = host_off / a.cs();
        lemma_settled(
            start,
            log,
            a.rt_entry(k / a.epb()),
            a.block_with_count(k, (a.refcount(k) - 1) as u16),
        );
    }
}

/// A new table is settled, and so is the entry that points at it.
proof fn lemma_table_calls(
    a: Image,
    i0: int,
    table: Seq<u8>,
    start: Seq<Call>,
    log: Seq<Call>,
    b: Image,
    after: Seq<Call>,
    off: int,
)
    requires
        flushed_each(start, log),
        table_put(a, i0, table, log, b, after, off),
    ensures
        flushed_each(start, after),
{
    reveal(table_put);
    let (bytes, between) = choose|bytes: Seq<u8>, between: Seq<Call>| #[trigger]
        a.claims(off / a.cs(), log, bytes, between) && b == (Image {
            bytes: overwrite(
                overwrite(bytes, off, table),
                a.header.l1_table_offset + 8 * i0,
                be64_bytes(fresh_entry(off as u64)),
            ),
            l1: a.l1.update(i0, fresh_entry(off as u64)),
            ..a
        }) && after == settled(
            settled(between, off, table),
            a.header.l1_table_offset + 8 * i0,
            be64_bytes(fresh_entry(off as u64)),
        );
    lemma_claims(a, off / a.cs(), start, log, bytes, between);
    lemma_settled(start, between, off, table);
    lemma_settled(
        start,
        settled(between, off, table),
        a.header.l1_table_offset + 8 * i0,
        be64_bytes(fresh_entry(off as u64)),
    );
}

/// To have a table of one's own, what is written for it is settled.
proof fn lemma_own_table_calls(
    a: Image,
    i0: int,
    start: Seq<Call>,
    log: Seq<Call>,
    b: Image,
    after: Seq<Call>,
    off: int,
)
    requires
        flushed_each(start, log),
        table_made_own(a, i0, log, b, after, off, true),
    ensures
        flushed_each(start, after),
{
    reveal(table_made_own);
    let table = a.l2_table(i0);
    if table == 0 {
        lemma_table_calls(a, i0, zeros(a.cs()), start, log, b, after, off);
    } else if !table_is_own(a, i0) {
        let old = a.bytes.subrange(table, table + a.cs());
        let (m, between) = choose|m: Image, between: Seq<Call>| #[trigger]
            table_put(a, i0, old, log, m, between, off) && m.gives_up(
                table,
                between,
                b.bytes,
                after,
                true,
            ) && b == (Image { bytes: b.bytes, ..m });
        lemma_table_calls(a, i0, old, start, log, m, between, off);
        lemma_gives_up(m, table, start, between, b.bytes, after);
    }
}

/// An entry that is put into a table is settled with all that it takes.
proof fn lemma_entry_calls(
    a: Image,
    i0: int,
    j0: int,
    e: u64,
    start: Seq<Call>,
    log: Seq<Call>,
    c: Image,
    after: Seq<Call>,
)
    requires
        flushed_each(start, log),
        entry_put(a, i0, j0, e, log, c, after, true),
    ensures
        flushed_each(start, after),
        after.len() >= start.len() + 2,
{
    reveal(entry_put);
    let (b, between, off) = choose|b: Image, between: Seq<Call>, off: int| #[trigger]
        table_made_own(a, i0, log, b, between, off, true) && off + a.cs() <= b.bytes.len() && c == (
        Image { bytes: overwrite(b.bytes, off + 8 * j0, be64_bytes(e)), ..b }) && after == settled(
            between,
            off,
            overwrite(b.bytes.subrange(off, off + a.cs()), 8 * j0, be64_bytes(e)),
        );
    lemma_own_table_calls(a, i0, start, log, b, between, off);
    lemma_settled(
        start,
        between,
        off,
        overwrite(b.bytes.subrange(off, off + a.cs()), 8 * j0, be64_bytes(e)),
    );
}

/// A write inside one cluster that is not written in its place asks, on a device that serves
/// what it can, for writes with a flush after each, and for at least three: so whatever is
/// written is on stable storage before the next thing is.
pub proof fn replacement_is_flushed_step_by_step(
    a: Image,
    v: int,
    src: Seq<u8>,
    log: Seq<Call>,
    b: Image,
    after: Seq<Call>,
    i: int,
)
    requires
        !goes_in_place(a, v),
        a.header.geometry_ok(),
        0 <= v,
        in_one(a, v, src.len() as int),
        chunks_written(a, v, src, log, b, after, true),
        log.len() <= i < after.len(),
    ensures
        after.len() >= log.len() + 6,
        after.subrange(0, log.len() as int) == log,
        after[i].request is Write ==> i + 1 < after.len() && after[i + 1].request is Flush,
        (after[i].request is Write) == ((i - log.len()) % 2 == 0),
        after.last().request is Flush,
{
    lemma_cluster_size(a.header.cluster_bits);
    lemma_one_chunk(a, v, src, log, b, after, true);
    reveal(chunk_written);
    reveal(cluster_replaced);
    reveal(cluster_put);
    assert(flushed_each(log, log));
    let m = a.cluster_map(v)->Ok_0;
    let release = plan_for(a, m)->Ok_0->release;
    let (k, bytes, l1, c, l2) = choose|
        k: int,
        bytes: Seq<u8>,
        l1: Seq<Call>,
        c: Image,
        l2: Seq<Call>,
    |
        #![trigger a.claims(k, log, bytes, l1), cluster_put(a, v, src, k, bytes, l1, c, l2, true)]
        {
            &&& 0 < k && k * a.cs() <= u64::MAX
            &&& a.holds(v - v % a.cs(), cluster_seen(a, v))
            &&& a.claims(k, log, bytes, l1)
            &&& cluster_put(a, v, src, k, bytes, l1, c, l2, true)
            &&& match release {
                Some(host_off) => c.gives_up(host_off as int, l2, b.bytes, after, true) && b == (
                Image { bytes: b.bytes, ..c }),
                None => b == c && after == l2,
            }
        };
    lemma_claims(a, k, log, log, bytes, l1);
    assert(l1.len() >= log.len() + 2) by {
        reveal(Image::claims);
    }
    let full = overwrite(cluster_seen(a, v), v % a.cs(), src);
    let l1b = settled(l1, k * a.cs(), full);
    lemma_settled(log, l1, k * a.cs(), full);
    let a2 = cluster_filled(a, v, src, k, bytes);
    let e = fresh_entry((k * a.cs()) as u64);
    lemma_entry_calls(a2, a.l1_index(v), a.l2_index(v), e, log, l1b, c, l2);
    assert(flushed_each(l1b, l1b));
    lemma_entry_calls(a2, a.l1_index(v), a.l2_index(v), e, l1b, l1b, c, l2);
    if let Some(host_off) = release {
        lemma_gives_up(c, host_off as int, log, l2, b.bytes, after);
        assert(flushed_each(l2, l2));
        lemma_gives_up(c, host_off as int, l2, l2, b.bytes, after);
    }
    assert(after.subrange(0, log.len() as int) =~= log);
    let last = after.len() - 1;
    assert(after[last].request is Flush);
    if i + 1 < after.len() {
        assert(after[i + 1].request is Write || after[i + 1].request is Flush);
    }
}

} // verus!
