//! The mathematical model of an image: what its bytes mean.

use crate::bytes::be64;
use crate::codec::{decoded, Decoded};
use crate::entry::{l2_len, map_of_entry, ClusterMap, OFFSET_MASK};
use crate::error::Error;
use crate::header::Header;
use vstd::prelude::*;

verus! {

/// An open image: its header, its L1 table, every byte of its device, and the
/// image behind it.
pub struct Image {
    pub header: Header,
    pub l1: Seq<u64>,
    pub bytes: Seq<u8>,
    pub backing: Option<Box<Image>>,
}

/// Why a byte of the virtual disk cannot be had.
pub enum Fault {
    /// The image contradicts itself.
    Corrupt(&'static str),
    /// The image needs something that this library does not do.
    Unsupported(&'static str),
    /// A compressed cluster does not decode.
    Undecodable,
    /// The tables point past the end of the device.
    OutsideDevice,
}

impl Fault {
    /// Whether `e` is the error that reports this fault.
    pub open spec fn reported_by(self, e: Error) -> bool {
        match self {
            Fault::Corrupt(m) => e == Error::Corrupt(m),
            Fault::Unsupported(m) => e == Error::Unsupported(m),
            Fault::Undecodable => e is Decompress,
            Fault::OutsideDevice => e is Io,
        }
    }
}

impl Image {
    /// The size of a cluster in bytes.
    pub open spec fn cs(self) -> int {
        self.header.cluster_size as int
    }

    /// Where the L2 table of L1 entry `i` lies; zero if there is none.
    pub open spec fn l2_table(self, i: int) -> int {
        (self.l1[i] & OFFSET_MASK) as int
    }

    /// Entry `j` of the L2 table of L1 entry `i`.
    pub open spec fn l2_entry(self, i: int, j: int) -> u64 {
        be64(self.bytes, self.l2_table(i) + 8 * j)
    }

    /// The L1 entry that covers byte `v` of the virtual disk.
    pub open spec fn l1_index(self, v: int) -> int {
        v / self.cs() / l2_len(self.header)
    }

    /// The entry of the L2 table that covers byte `v` of the virtual disk.
    pub open spec fn l2_index(self, v: int) -> int {
        v / self.cs() % l2_len(self.header)
    }

    /// What the tables say of the cluster that holds byte `v`.
    pub open spec fn cluster_map(self, v: int) -> Result<ClusterMap, Fault> {
        let i = self.l1_index(v);
        if i >= self.l1.len() {
            Err(Fault::Corrupt("l1_index past l1 table"))
        } else if self.l2_table(i) == 0 {
            Ok(ClusterMap::Unallocated)
        } else if self.l2_table(i) + self.cs() > self.bytes.len() {
            Err(Fault::OutsideDevice)
        } else {
            match map_of_entry(self.header, self.l2_entry(i, self.l2_index(v))) {
                Some(m) => Ok(m),
                None => Err(Fault::Corrupt("l2 entry points into the middle of a cluster")),
            }
        }
    }

    /// The cluster that the `byte_len` bytes from `host_off` on decode to.
    pub open spec fn stored_cluster(self, host_off: int, byte_len: int) -> Result<Seq<u8>, Fault> {
        if host_off + byte_len > self.bytes.len() {
            Err(Fault::OutsideDevice)
        } else {
            match decoded(
                self.bytes.subrange(host_off, host_off + byte_len),
                self.header.compression_type,
                self.header.cluster_size as nat,
            ) {
                Decoded::Cluster(s) => Ok(s),
                Decoded::Damaged => Err(Fault::Undecodable),
                Decoded::UnknownType => Err(Fault::Unsupported("unknown compression_type")),
            }
        }
    }

    /// Byte `v` of the virtual disk.
    pub open spec fn guest_byte(self, v: int) -> Result<u8, Fault>
        decreases self,
    {
        match self.cluster_map(v) {
            Err(f) => Err(f),
            Ok(ClusterMap::Plain { host_off, .. }) => if host_off + v % self.cs()
                < self.bytes.len() {
                Ok(self.bytes[host_off + v % self.cs()])
            } else {
                Err(Fault::OutsideDevice)
            },
            Ok(ClusterMap::Compressed { host_off, byte_len }) => match self.stored_cluster(
                host_off as int,
                byte_len as int,
            ) {
                Ok(s) => Ok(s[v % self.cs()]),
                Err(f) => Err(f),
            },
            Ok(ClusterMap::Zero) => Ok(0u8),
            Ok(ClusterMap::Unallocated) => match self.backing {
                None => Ok(0u8),
                Some(b) => if v < b.header.virtual_size {
                    b.guest_byte(v)
                } else {
                    Ok(0u8)
                },
            },
        }
    }

    /// Byte `v` of what lies behind the image: of the backing image, and zero
    /// where there is none or it has ended.
    pub open spec fn backing_byte(self, v: int) -> Result<u8, Fault> {
        match self.backing {
            None => Ok(0u8),
            Some(b) => if v < b.header.virtual_size {
                b.guest_byte(v)
            } else {
                Ok(0u8)
            },
        }
    }

    /// Every byte of the virtual disk from `lo` up to `hi` can be read.
    pub open spec fn readable(self, lo: int, hi: int) -> bool {
        forall|v: int| lo <= v < hi ==> #[trigger] self.guest_byte(v) is Ok
    }

    /// `data` is what the virtual disk holds from `v` on.
    pub open spec fn holds(self, v: int, data: Seq<u8>) -> bool {
        forall|i: int|
            0 <= i < data.len() ==> self.guest_byte(v + i) == Ok::<u8, Fault>(#[trigger] data[i])
    }

    /// Some byte from `v` up to `v + n` cannot be had, and `e` reports why the first
    /// such byte cannot.
    pub open spec fn faulty(self, v: int, n: int, e: Error) -> bool {
        exists|i: int|
            0 <= i < n && self.readable(v, v + i) && (#[trigger] self.guest_byte(v + i) matches Err(
                f,
            ) && f.reported_by(e))
    }

    /// As [`Image::faulty`], of what lies behind the image.
    pub open spec fn faulty_behind(self, v: int, n: int, e: Error) -> bool {
        exists|i: int|
            0 <= i < n && (forall|j: int| 0 <= j < i ==> #[trigger] self.backing_byte(v + j) is Ok)
                && (#[trigger] self.backing_byte(v + i) matches Err(f) && f.reported_by(e))
    }

    /// How many images lie behind this one.
    pub open spec fn depth(self) -> nat
        decreases self,
    {
        match self.backing {
            None => 0,
            Some(b) => b.depth() + 1,
        }
    }
}

} // verus!
