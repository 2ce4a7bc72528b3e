//! Which parts of the virtual disk hold data.

use crate::device::BlockDevice;
use crate::entry::{lemma_same_cluster, ClusterMap};
use crate::error::Error;
use crate::header::lemma_cluster_size;
use crate::image::{Fault, Image};
use crate::reader::Qcow2Reader;
use vstd::prelude::*;

verus! {

/// What a consumer needs to know of a cluster before reading it.
#[derive(Debug, Clone, Copy, PartialEq, Eq, Structural)]
pub enum ClusterStatus {
    /// It holds data, compressed or not.
    Allocated,
    /// It is all zeros, whatever the backing image holds.
    Zero,
    /// It is not in this image: the backing image supplies it, or it is all zeros.
    Unallocated,
}

/// A run of clusters of the same status.
#[derive(Debug, Clone, Copy, PartialEq, Eq, Structural)]
pub struct Extent {
    /// Where on the virtual disk the run starts.
    pub virt_offset: u64,
    /// How many bytes it has: whole clusters, but for the last one of the disk.
    pub length: u64,
    pub status: ClusterStatus,
}

/// A walk over the virtual disk, from one run of clusters to the next.
#[derive(Debug)]
pub struct ExtentIter {
    cursor: u64,
}

/// The status of a cluster of which the tables say `map`.
pub open spec fn status_of(map: ClusterMap) -> ClusterStatus {
    match map {
        ClusterMap::Plain { .. } => ClusterStatus::Allocated,
        ClusterMap::Compressed { .. } => ClusterStatus::Allocated,
        ClusterMap::Zero => ClusterStatus::Zero,
        ClusterMap::Unallocated => ClusterStatus::Unallocated,
    }
}

impl Image {
    /// The status of the cluster that holds byte `v`.
    pub open spec fn status_at(self, v: int) -> Result<ClusterStatus, Fault> {
        match self.cluster_map(v) {
            Ok(m) => Ok(status_of(m)),
            Err(f) => Err(f),
        }
    }

    /// Every byte from `lo` up to `hi` is in a cluster of status `st`.
    pub open spec fn all_status(self, lo: int, hi: int, st: ClusterStatus) -> bool {
        forall|v: int|
            lo <= v < hi ==> #[trigger] self.status_at(v) == Ok::<ClusterStatus, Fault>(st)
    }

    /// `x` is the longest run of clusters of one status that starts at `from`.
    pub open spec fn is_extent(self, from: int, x: Extent) -> bool {
        let end = x.virt_offset + x.length;
        &&& x.virt_offset == from
        &&& 0 < x.length
        &&& end <= self.header.virtual_size
        &&& self.all_status(from, end, x.status)
        &&& end < self.header.virtual_size ==> end % self.cs() == 0 && (self.status_at(end)
            matches Ok(st) && st != x.status)
    }

    /// Run `i` of `xs` starts where the one before it ends; the first one starts at
    /// `from`.
    pub open spec fn run_in_place(self, from: int, xs: Seq<Extent>, i: int) -> bool {
        self.is_extent(
            if i == 0 {
                from
            } else {
                xs[i - 1].virt_offset + xs[i - 1].length
            },
            xs[i],
        )
    }

    /// The runs `xs` cover the virtual disk from `from` to its end, one after the
    /// other.
    pub open spec fn tiled_by(self, from: int, xs: Seq<Extent>) -> bool {
        &&& forall|i: int| 0 <= i < xs.len() ==> #[trigger] self.run_in_place(from, xs, i)
        &&& if xs.len() == 0 {
            from >= self.header.virtual_size
        } else {
            xs.last().virt_offset + xs.last().length == self.header.virtual_size
        }
    }
}

/// The bytes of one cluster have one status.
proof fn lemma_cluster_status(img: Image, v: int, hi: int, st: ClusterStatus)
    requires
        img.header.geometry_ok(),
        0 <= v,
        v % img.cs() == 0,
        v <= hi <= v + img.cs(),
        img.status_at(v) == Ok::<ClusterStatus, Fault>(st),
    ensures
        img.all_status(v, hi, st),
{
    lemma_cluster_size(img.header.cluster_bits);
    assert forall|x: int| v <= x < hi implies #[trigger] img.status_at(x) == Ok::<
        ClusterStatus,
        Fault,
    >(st) by {
        lemma_same_cluster(img.cs(), v, x - v);
        assert(v + (x - v) == x);
    }
}

/// The next cluster starts where this one ends.
proof fn lemma_next_cluster(cs: int, v: int)
    requires
        cs > 0,
        v % cs == 0,
    ensures
        (v + cs) % cs == 0,
{
    vstd::arithmetic::div_mod::lemma_mod_add_multiples_vanish(v, cs);
}

impl<D: BlockDevice> Qcow2Reader<D> {
    /// The status of the cluster that holds byte `virt`. Only the tables are read.
    pub fn cluster_status_at(&mut self, virt: u64) -> (r: Result<ClusterStatus, Error>)
        requires
            old(self).inv(),
        ensures
            final(self).inv(),
            final(self).same_image(&*old(self)),
            if virt >= old(self)@.header.virtual_size {
                r == Err::<ClusterStatus, Error>(
                    Error::OutOfBounds {
                        offset: virt,
                        len: 1,
                        size: old(self)@.header.virtual_size,
                    },
                )
            } else {
                match r {
                    Ok(st) => old(self)@.status_at(virt as int) == Ok::<ClusterStatus, Fault>(st),
                    Err(e) => old(self).dependable() ==> (old(self)@.status_at(virt as int)
                        matches Err(f) && f.reported_by(e)),
                }
            },
    {
        if virt >= self.header.virtual_size {
            return Err(
                Error::OutOfBounds { offset: virt, len: 1, size: self.header.virtual_size },
            );
        }
        match self.lookup_cluster(virt) {
            Ok(ClusterMap::Plain { .. }) => Ok(ClusterStatus::Allocated),
            Ok(ClusterMap::Compressed { .. }) => Ok(ClusterStatus::Allocated),
            Ok(ClusterMap::Zero) => Ok(ClusterStatus::Zero),
            Ok(ClusterMap::Unallocated) => Ok(ClusterStatus::Unallocated),
            Err(e) => Err(e),
        }
    }

    /// A walk over the virtual disk, from its start.
    pub fn extents(&self) -> (it: ExtentIter)
        ensures
            it.position() == 0,
    {
        ExtentIter { cursor: 0 }
    }
}

impl ExtentIter {
    /// Where the next run starts.
    pub closed spec fn position(&self) -> int {
        self.cursor as int
    }

    /// The walk stands at the start of a cluster, or has ended.
    pub open spec fn on_cluster(&self, img: Image) -> bool {
        self.position() % img.cs() == 0 || self.position() >= img.header.virtual_size
    }

    /// The next run of clusters of one status. After an error the walk has ended.
    pub fn next<D: BlockDevice>(&mut self, reader: &mut Qcow2Reader<D>) -> (r: Option<
        Result<Extent, Error>,
    >)
        requires
            old(reader).inv(),
            old(self).on_cluster(old(reader)@),
        ensures
            final(reader).inv(),
            final(reader).same_image(&*old(reader)),
            final(self).on_cluster(old(reader)@),
            match r {
                None => old(self).position() >= old(reader)@.header.virtual_size
                    && final(self).position() == old(self).position(),
                Some(Ok(x)) => old(self).position() < old(reader)@.header.virtual_size && old(
                    reader,
                )@.is_extent(old(self).position(), x) && final(self).position() == x.virt_offset
                    + x.length,
                Some(Err(e)) => old(self).position() < old(reader)@.header.virtual_size
                    && final(self).position() == old(reader)@.header.virtual_size && (old(
                    reader,
                ).dependable() ==> status_unknown(
                    old(reader)@,
                    old(self).position(),
                    e,
                )),
            },
    {
        let ghost img = reader@;
        let total: u64 = reader.virtual_size();
        if self.cursor >= total {
            return None;
        }
        proof {
            lemma_cluster_size(img.header.cluster_bits);
        }
        let cluster_size: u64 = reader.cluster_size();
        let start: u64 = self.cursor;
        let status: ClusterStatus = match reader.cluster_status_at(start) {
            Ok(st) => st,
            Err(e) => {
                self.cursor = total;
                return Some(Err(e));
            },
        };
        let mut end: u64 = if total - start <= cluster_size {
            total
        } else {
            start + cluster_size
        };
        proof {
            lemma_cluster_status(img, start as int, end as int, status);
            lemma_next_cluster(img.cs(), start as int);
        }
        let mut same: bool = true;
        while end < total && same
            invariant
                reader.inv(),
                reader.same_image(&*old(reader)),
                img == old(reader)@,
                img.header.geometry_ok(),
                total == img.header.virtual_size,
                cluster_size == img.cs(),
                start == old(self).position(),
                start < end <= total,
                img.all_status(start as int, end as int, status),
                end < total ==> end as int % img.cs() == 0,
                !same ==> end < total && (img.status_at(end as int) matches Ok(st) && st != status),
                self.cursor == start,
            decreases
                total - end,
                if same {
                    1int
                } else {
                    0
                },
        {
            proof {
                lemma_cluster_size(img.header.cluster_bits);
            }
            match reader.cluster_status_at(end) {
                Ok(st) => {
                    if st == status {
                        let next: u64 = if total - end <= cluster_size {
                            total
                        } else {
                            end + cluster_size
                        };
                        proof {
                            lemma_cluster_status(img, end as int, next as int, status);
                            lemma_next_cluster(img.cs(), end as int);
                            assert(img.all_status(start as int, next as int, status)) by {
                                assert forall|v: int| start <= v < next implies #[trigger] img.status_at(
                                    v,
                                ) == Ok::<ClusterStatus, Fault>(status) by {
                                    if v < end {
                                        assert(img.all_status(start as int, end as int, status));
                                    } else {
                                        assert(img.all_status(end as int, next as int, status));
                                    }
                                }
                            }
                        }
                        end = next;
                    } else {
                        same = false;
                    }
                },
                Err(e) => {
                    assert(status_known(img, start as int, end as int));
                    self.cursor = total;
                    return Some(Err(e));
                },
            }
        }
        self.cursor = end;
        Some(Ok(Extent { virt_offset: start, length: end - start, status }))
    }

    /// The runs that are left, up to the end of the virtual disk.
    pub fn collect<D: BlockDevice>(self, reader: &mut Qcow2Reader<D>) -> (r: Result<
        Vec<Extent>,
        Error,
    >)
        requires
            old(reader).inv(),
            self.on_cluster(old(reader)@),
        ensures
            final(reader).inv(),
            final(reader).same_image(&*old(reader)),
            match r {
                Ok(xs) => old(reader)@.tiled_by(self.position(), xs@),
                Err(e) => old(reader).dependable() ==> status_unknown(
                    old(reader)@,
                    self.position(),
                    e,
                ),
            },
    {
        let ghost img = reader@;
        let ghost from = self.position();
        let mut it: ExtentIter = self;
        let mut xs: Vec<Extent> = Vec::new();
        loop
            invariant
                reader.inv(),
                reader.same_image(&*old(reader)),
                img == old(reader)@,
                it.on_cluster(img),
                from == self.position(),
                from <= it.position(),
                it.position() <= img.header.virtual_size ==> status_known(
                    img,
                    from,
                    it.position(),
                ),
                forall|i: int| 0 <= i < xs@.len() ==> #[trigger] img.run_in_place(from, xs@, i),
                if xs@.len() == 0 {
                    it.position() == from
                } else {
                    it.position() == xs@.last().virt_offset + xs@.last().length && it.position()
                        <= img.header.virtual_size
                },
            ensures
                img.tiled_by(from, xs@),
            decreases img.header.virtual_size - it.position(),
        {
            let ghost at = it.position();
            match it.next(reader) {
                None => {
                    break ;
                },
                Some(Ok(x)) => {
                    let ghost before = xs@;
                    xs.push(x);
                    assert forall|i: int| 0 <= i < xs@.len() implies #[trigger] img.run_in_place(
                        from,
                        xs@,
                        i,
                    ) by {
                        if i < before.len() {
                            assert(img.run_in_place(from, before, i));
                        }
                    }
                },
                Some(Err(e)) => {
                    proof {
                        if old(reader).dependable() {
                            assert(status_unknown(img, at, e));
                            let v = choose|v: int|
                                at <= v < img.header.virtual_size && status_known(img, at, v) && (
                                #[trigger] img.status_at(v) matches Err(f) && f.reported_by(e));
                            assert(img.status_at(v) is Err);
                            assert(status_known(img, from, v));
                        }
                    }
                    return Err(e);
                },
            }
        }
        Ok(xs)
    }
}

/// The tables say what every cluster from `lo` up to `hi` is.
pub open spec fn status_known(img: Image, lo: int, hi: int) -> bool {
    forall|v: int| lo <= v < hi ==> #[trigger] img.status_at(v) is Ok
}

/// The tables do not say what some cluster from `from` on is, and `e` reports why they
/// do not say it of the first such cluster.
pub open spec fn status_unknown(img: Image, from: int, e: Error) -> bool {
    exists|v: int|
        from <= v < img.header.virtual_size && status_known(img, from, v) && (
        #[trigger] img.status_at(v) matches Err(f) && f.reported_by(e))
}

} // verus!
