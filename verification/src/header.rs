//! The header at the start of an image.
//!
//! ```text
//!   0   u32  magic = "QFI\xfb" (0x51 0x46 0x49 0xfb)
//!   4   u32  version (2 or 3)
//!   8   u64  backing_file_offset
//!  16   u32  backing_file_size
//!  20   u32  cluster_bits        (cluster_size = 1 << cluster_bits)
//!  24   u64  size                (virtual disk size in bytes)
//!  32   u32  crypt_method        (0 = none, 1 = AES, 2 = LUKS)
//!  36   u32  l1_size             (number of u64 entries in L1)
//!  40   u64  l1_table_offset
//!  48   u64  refcount_table_offset
//!  56   u32  refcount_table_clusters
//!  60   u32  nb_snapshots
//!  64   u64  snapshots_offset
//!  --- version 3 only ---
//!  72   u64  incompatible_features
//!  80   u64  compatible_features
//!  88   u64  autoclear_features
//!  96   u32  refcount_order      (refcount_bits = 1 << refcount_order)
//! 100   u32  header_length
//!  --- only where header_length > 104 ---
//! 104   u8   compression_type    (0 = zlib, 1 = zstd)
//! 105   7B   padding
//! ```
//!
//! All multi-byte fields are big-endian.

pub mod incompat;
pub mod offsets;

use crate::bytes::{be32, be64, read_u32, read_u64};
use crate::error::Error;
use crate::laws::format::{header_is_read_as_written, header_spelled};
use vstd::prelude::*;

verus! {

/// The first four bytes of every image, `"QFI\xfb"`.
pub const QCOW2_MAGIC: u32 = 0x5146_49fb;

/// Bytes per entry of an L1 table, an L2 table and the refcount table.
pub const TABLE_ENTRY_BYTES: u64 = 8;

/// The longest name that a backing file may have, in bytes.
pub const MAX_BACKING_NAME: u32 = 1024;

/// The fields of a header.
#[derive(Debug, Clone)]
pub struct Header {
    pub version: u32,
    pub cluster_bits: u32,
    pub cluster_size: u64,
    pub virtual_size: u64,
    pub crypt_method: u32,
    pub l1_size: u32,
    pub l1_table_offset: u64,
    pub refcount_table_offset: u64,
    pub refcount_table_clusters: u32,
    pub nb_snapshots: u32,
    pub snapshots_offset: u64,
    pub backing_file_offset: u64,
    pub backing_file_size: u32,
    /// Version 3 only, as are the next four; zero for version 2.
    pub incompatible_features: u64,
    pub compatible_features: u64,
    pub autoclear_features: u64,
    pub refcount_order: u32,
    pub header_length: u32,
    /// 0 = zlib, 1 = zstd; 0 where the header does not reach this byte.
    pub compression_type: u8,
}

/// The fields that the bytes `b` hold, whether or not they make sense.
pub open spec fn header_fields(b: Seq<u8>) -> Header {
    let version = be32(b, offsets::VERSION as int);
    let v3 = version >= 3;
    let header_length = if v3 {
        be32(b, offsets::HEADER_LENGTH as int)
    } else {
        offsets::v2_implicit::HEADER_LENGTH
    };
    Header {
        version,
        cluster_bits: be32(b, offsets::CLUSTER_BITS as int),
        cluster_size: 1u64 << be32(b, offsets::CLUSTER_BITS as int),
        virtual_size: be64(b, offsets::SIZE as int),
        crypt_method: be32(b, offsets::CRYPT_METHOD as int),
        l1_size: be32(b, offsets::L1_SIZE as int),
        l1_table_offset: be64(b, offsets::L1_TABLE_OFFSET as int),
        refcount_table_offset: be64(b, offsets::REFCOUNT_TABLE_OFFSET as int),
        refcount_table_clusters: be32(b, offsets::REFCOUNT_TABLE_CLUSTERS as int),
        nb_snapshots: be32(b, offsets::NB_SNAPSHOTS as int),
        snapshots_offset: be64(b, offsets::SNAPSHOTS_OFFSET as int),
        backing_file_offset: be64(b, offsets::BACKING_FILE_OFFSET as int),
        backing_file_size: be32(b, offsets::BACKING_FILE_SIZE as int),
        incompatible_features: if v3 {
            be64(b, offsets::INCOMPATIBLE_FEATURES as int)
        } else {
            0
        },
        compatible_features: if v3 {
            be64(b, offsets::COMPATIBLE_FEATURES as int)
        } else {
            0
        },
        autoclear_features: if v3 {
            be64(b, offsets::AUTOCLEAR_FEATURES as int)
        } else {
            0
        },
        refcount_order: if v3 {
            be32(b, offsets::REFCOUNT_ORDER as int)
        } else {
            offsets::v2_implicit::REFCOUNT_ORDER
        },
        header_length,
        compression_type: if v3 && header_length > offsets::V3_BASE_HEADER_LENGTH && b.len()
            > offsets::COMPRESSION_TYPE {
            b[offsets::COMPRESSION_TYPE as int]
        } else {
            0
        },
    }
}

/// How many bytes of the virtual disk one L1 entry stands for.
pub open spec fn l1_entry_span(cluster_size: int) -> int {
    cluster_size * (cluster_size / 8)
}

/// Why the bytes `b` are not a header, if they are not.
pub open spec fn header_refusal(b: Seq<u8>) -> Option<Error> {
    let h = header_fields(b);
    if b.len() < 72 {
        Some(Error::Corrupt("header shorter than 72 bytes"))
    } else if be32(b, offsets::MAGIC as int) != QCOW2_MAGIC {
        Some(Error::NotQcow2)
    } else if h.version != 2 && h.version != 3 {
        Some(Error::UnsupportedVersion(h.version))
    } else if !(9 <= h.cluster_bits <= 21) {
        Some(Error::InvalidClusterBits(h.cluster_bits))
    } else if h.version >= 3 && b.len() < offsets::V3_BASE_HEADER_LENGTH {
        Some(Error::Corrupt("v3 header shorter than 104 bytes"))
    } else if h.l1_size * l1_entry_span(h.cluster_size as int) < h.virtual_size {
        Some(Error::Corrupt("l1_size too small for virtual_size"))
    } else {
        None
    }
}

/// What a cluster size can be.
pub(crate) proof fn lemma_cluster_size(bits: u32)
    requires
        9 <= bits <= 21,
    ensures
        512 <= (1u64 << bits) <= 0x20_0000,
        (1u64 << bits) % 512 == 0,
{
    assert(512 <= (1u64 << bits) && (1u64 << bits) <= 0x20_0000 && (1u64 << bits) % 512 == 0)
        by (bit_vector)
        requires
            9 <= bits <= 21,
    ;
}

/// One L1 entry fewer than `ceil(size / span)` is too few, and only then.
proof fn lemma_l1_needed(l1_size: int, span: int, size: int)
    requires
        span > 0,
        size >= 0,
        l1_size >= 0,
    ensures
        (l1_size < size / span + (if size % span != 0 {
            1int
        } else {
            0
        })) == (l1_size * span < size),
{
    let q = size / span;
    let r = size % span;
    assert(size == q * span + r && 0 <= r < span) by (nonlinear_arith)
        requires
            span > 0,
            q == size / span,
            r == size % span,
    ;
    if l1_size < q {
        assert(l1_size * span + span <= q * span) by (nonlinear_arith)
            requires
                l1_size + 1 <= q,
                span > 0,
        ;
    } else if l1_size > q {
        assert(l1_size * span >= q * span + span) by (nonlinear_arith)
            requires
                l1_size >= q + 1,
                span > 0,
        ;
    }
}

impl Header {
    /// The cluster size is the one that `cluster_bits` names, and the L1 table
    /// reaches the whole virtual disk. Every header that [`Header::parse`]
    /// returns is of this kind.
    pub open spec fn geometry_ok(&self) -> bool {
        &&& 9 <= self.cluster_bits <= 21
        &&& self.cluster_size == 1u64 << self.cluster_bits
        &&& self.virtual_size <= self.l1_size * l1_entry_span(self.cluster_size as int)
    }

    /// Reads a header from the start of an image. `bytes` may be longer than
    /// the header.
    pub fn parse(bytes: &[u8]) -> (r: Result<Self, Error>)
        ensures
            match header_refusal(bytes@) {
                None => r == Ok::<Header, Error>(header_fields(bytes@)),
                Some(e) => r == Err::<Header, Error>(e),
            },
            r matches Ok(h) ==> h.geometry_ok(),
            r matches Ok(h) ==> header_spelled(bytes@, h),
    {
        if bytes.len() < 72 {
            return Err(Error::Corrupt("header shorter than 72 bytes"));
        }
        let magic: u32 = read_u32(bytes, offsets::MAGIC);
        if magic != QCOW2_MAGIC {
            return Err(Error::NotQcow2);
        }
        let version: u32 = read_u32(bytes, offsets::VERSION);
        if version != 2 && version != 3 {
            return Err(Error::UnsupportedVersion(version));
        }
        let backing_file_offset: u64 = read_u64(bytes, offsets::BACKING_FILE_OFFSET);
        let backing_file_size: u32 = read_u32(bytes, offsets::BACKING_FILE_SIZE);
        let cluster_bits: u32 = read_u32(bytes, offsets::CLUSTER_BITS);
        if cluster_bits < 9 || cluster_bits > 21 {
            return Err(Error::InvalidClusterBits(cluster_bits));
        }
        let cluster_size: u64 = 1u64 << cluster_bits;

        let virtual_size: u64 = read_u64(bytes, offsets::SIZE);
        let crypt_method: u32 = read_u32(bytes, offsets::CRYPT_METHOD);
        let l1_size: u32 = read_u32(bytes, offsets::L1_SIZE);
        let l1_table_offset: u64 = read_u64(bytes, offsets::L1_TABLE_OFFSET);
        let refcount_table_offset: u64 = read_u64(bytes, offsets::REFCOUNT_TABLE_OFFSET);
        let refcount_table_clusters: u32 = read_u32(bytes, offsets::REFCOUNT_TABLE_CLUSTERS);
        let nb_snapshots: u32 = read_u32(bytes, offsets::NB_SNAPSHOTS);
        let snapshots_offset: u64 = read_u64(bytes, offsets::SNAPSHOTS_OFFSET);

        let mut incompatible_features: u64 = 0;
        let mut compatible_features: u64 = 0;
        let mut autoclear_features: u64 = 0;
        let mut refcount_order: u32 = offsets::v2_implicit::REFCOUNT_ORDER;
        let mut header_length: u32 = offsets::v2_implicit::HEADER_LENGTH;
        if version >= 3 {
            if bytes.len() < offsets::V3_BASE_HEADER_LENGTH as usize {
                return Err(Error::Corrupt("v3 header shorter than 104 bytes"));
            }
            incompatible_features = read_u64(bytes, offsets::INCOMPATIBLE_FEATURES);
            compatible_features = read_u64(bytes, offsets::COMPATIBLE_FEATURES);
            autoclear_features = read_u64(bytes, offsets::AUTOCLEAR_FEATURES);
            refcount_order = read_u32(bytes, offsets::REFCOUNT_ORDER);
            header_length = read_u32(bytes, offsets::HEADER_LENGTH);
        }
        // Headers that stop at byte 104 do not have this field; they mean zlib.
        let compression_type: u8 = if version >= 3 && header_length
            > offsets::V3_BASE_HEADER_LENGTH && bytes.len() > offsets::COMPRESSION_TYPE {
            bytes[offsets::COMPRESSION_TYPE]
        } else {
            0
        };

        // The L1 table has to reach the whole virtual disk.
        proof {
            lemma_cluster_size(cluster_bits);
            assert(0 < l1_entry_span(cluster_size as int) <= 0x20_0000 * 0x4_0000)
                by (nonlinear_arith)
                requires
                    512 <= cluster_size <= 0x20_0000,
            ;
            lemma_l1_needed(
                l1_size as int,
                l1_entry_span(cluster_size as int),
                virtual_size as int,
            );
            let span = l1_entry_span(cluster_size as int);
            assert(512 * 64 <= span) by (nonlinear_arith)
                requires
                    512 <= cluster_size,
                    span == cluster_size * (cluster_size / 8),
            ;
            assert(virtual_size as int / span <= virtual_size as int / 2) by (nonlinear_arith)
                requires
                    span >= 2,
            ;
        }
        let bytes_per_l1_entry: u64 = cluster_size * (cluster_size / TABLE_ENTRY_BYTES);
        let needed_l1: u64 = virtual_size / bytes_per_l1_entry + (if virtual_size
            % bytes_per_l1_entry != 0 {
            1u64
        } else {
            0u64
        });
        if (l1_size as u64) < needed_l1 {
            return Err(Error::Corrupt("l1_size too small for virtual_size"));
        }
        proof {
            header_is_read_as_written(bytes@);
        }
        Ok(
            Header {
                version,
                cluster_bits,
                cluster_size,
                virtual_size,
                crypt_method,
                l1_size,
                l1_table_offset,
                refcount_table_offset,
                refcount_table_clusters,
                nb_snapshots,
                snapshots_offset,
                backing_file_offset,
                backing_file_size,
                incompatible_features,
                compatible_features,
                autoclear_features,
                refcount_order,
                header_length,
                compression_type,
            },
        )
    }

    /// The number of entries in one L2 table.
    pub fn l2_entries(&self) -> (n: u64)
        ensures
            n == self.cluster_size / 8,
    {
        self.cluster_size / 8
    }

    /// Why the image cannot be read at all, if it cannot.
    pub open spec fn support_refusal(&self) -> Option<Error> {
        let known = incompat::DIRTY | incompat::CORRUPT | incompat::COMPRESSION_TYPE;
        if self.crypt_method != 0 {
            Some(Error::Unsupported("encryption (AES or LUKS)"))
        } else if self.version < 3 {
            None
        } else if self.incompatible_features & !known != 0 {
            if self.incompatible_features & incompat::DATA_FILE != 0 {
                Some(Error::Unsupported("external data file"))
            } else if self.incompatible_features & incompat::EXTENDED_L2 != 0 {
                Some(Error::Unsupported("extended L2 entries"))
            } else {
                Some(Error::Unsupported("unknown incompatible_features bit"))
            }
        } else if self.compression_type > 1 {
            Some(Error::Unsupported("unknown compression_type"))
        } else {
            None
        }
    }

    /// Refuses what the reader does not handle: encryption, an external data
    /// file, extended L2 entries, unknown features and compression types.
    pub fn check_supported(&self) -> (r: Result<(), Error>)
        ensures
            r == match self.support_refusal() {
                None => Ok::<(), Error>(()),
                Some(e) => Err::<(), Error>(e),
            },
    {
        if self.crypt_method != 0 {
            return Err(Error::Unsupported("encryption (AES or LUKS)"));
        }
        if self.version >= 3 {
            let known: u64 = incompat::DIRTY | incompat::CORRUPT | incompat::COMPRESSION_TYPE;
            let unknown: u64 = self.incompatible_features & !known;
            if unknown != 0 {
                if self.incompatible_features & incompat::DATA_FILE != 0 {
                    return Err(Error::Unsupported("external data file"));
                }
                if self.incompatible_features & incompat::EXTENDED_L2 != 0 {
                    return Err(Error::Unsupported("extended L2 entries"));
                }
                return Err(Error::Unsupported("unknown incompatible_features bit"));
            }
            if self.compression_type > 1 {
                return Err(Error::Unsupported("unknown compression_type"));
            }
        }
        Ok(())
    }

    /// Whether the image says of itself that its structure may be damaged.
    pub fn is_corrupt(&self) -> (b: bool)
        ensures
            b == (self.incompatible_features & incompat::CORRUPT != 0),
    {
        self.incompatible_features & incompat::CORRUPT != 0
    }

    /// Whether the image says of itself that its refcounts may be stale.
    pub fn has_dirty_refcounts(&self) -> (b: bool)
        ensures
            b == (self.incompatible_features & incompat::DIRTY != 0),
    {
        self.incompatible_features & incompat::DIRTY != 0
    }

    /// Why the image cannot be written, if it cannot.
    pub open spec fn write_refusal(&self) -> Option<Error> {
        if self.incompatible_features & incompat::CORRUPT != 0 {
            Some(Error::Unsupported("writing to an image that is marked corrupt"))
        } else if self.incompatible_features & incompat::DIRTY != 0 {
            Some(Error::Unsupported("writing to an image whose refcounts are marked dirty"))
        } else {
            None
        }
    }

    /// Refuses to write to an image that is marked corrupt or dirty: an
    /// allocation from counts that are wrong overwrites live data. Such an
    /// image can still be read.
    pub fn check_writable(&self) -> (r: Result<(), Error>)
        ensures
            r == match self.write_refusal() {
                None => Ok::<(), Error>(()),
                Some(e) => Err::<(), Error>(e),
            },
    {
        if self.is_corrupt() {
            return Err(Error::Unsupported("writing to an image that is marked corrupt"));
        }
        if self.has_dirty_refcounts() {
            return Err(Error::Unsupported("writing to an image whose refcounts are marked dirty"));
        }
        Ok(())
    }

    /// The length of the refcount table in bytes.
    pub open spec fn refcount_table_bytes(&self) -> int {
        self.refcount_table_clusters * self.cluster_size
    }

    /// Every byte of the L1 table and of the refcount table has an offset.
    pub open spec fn tables_addressable(&self) -> bool {
        &&& self.l1_table_offset + self.l1_size * 8 <= u64::MAX
        &&& self.refcount_table_offset + self.refcount_table_bytes() <= u64::MAX
    }

    /// Why the tables cannot lie where the header says, on a device of
    /// `device_size` bytes, if they cannot.
    pub open spec fn layout_refusal(&self, device_size: int) -> Option<Error> {
        if self.l1_table_offset as int % self.cluster_size as int != 0 {
            Some(Error::Corrupt("l1_table_offset is not cluster-aligned"))
        } else if self.refcount_table_offset as int % self.cluster_size as int != 0 {
            Some(Error::Corrupt("refcount_table_offset is not cluster-aligned"))
        } else if self.l1_size > 0 && self.l1_table_offset + self.l1_size * 8 > device_size {
            Some(Error::Corrupt("l1 table runs past the end of the image"))
        } else if self.refcount_table_clusters > 0 && self.refcount_table_offset
            + self.refcount_table_bytes() > device_size {
            Some(Error::Corrupt("refcount table runs past the end of the image"))
        } else {
            None
        }
    }

    /// Refuses a table that starts inside a cluster, or that is larger than
    /// what the device can hold.
    pub fn check_layout(&self, device_size: u64) -> (r: Result<(), Error>)
        requires
            self.geometry_ok(),
        ensures
            r == match self.layout_refusal(device_size as int) {
                None => Ok::<(), Error>(()),
                Some(e) => Err::<(), Error>(e),
            },
    {
        proof {
            lemma_cluster_size(self.cluster_bits);
            assert(self.refcount_table_clusters * self.cluster_size <= 0xffff_ffff * 0x20_0000)
                by (nonlinear_arith)
                requires
                    self.refcount_table_clusters <= 0xffff_ffff,
                    self.cluster_size <= 0x20_0000,
            ;
        }
        if self.l1_table_offset % self.cluster_size != 0 {
            return Err(Error::Corrupt("l1_table_offset is not cluster-aligned"));
        }
        if self.refcount_table_offset % self.cluster_size != 0 {
            return Err(Error::Corrupt("refcount_table_offset is not cluster-aligned"));
        }
        let l1_bytes: u64 = self.l1_size as u64 * TABLE_ENTRY_BYTES;
        if self.l1_size > 0 && (self.l1_table_offset > device_size || l1_bytes > device_size
            - self.l1_table_offset) {
            return Err(Error::Corrupt("l1 table runs past the end of the image"));
        }
        let rt_bytes: u64 = self.refcount_table_clusters as u64 * self.cluster_size;
        if self.refcount_table_clusters > 0 && (self.refcount_table_offset > device_size
            || rt_bytes > device_size - self.refcount_table_offset) {
            return Err(Error::Corrupt("refcount table runs past the end of the image"));
        }
        Ok(())
    }

    /// Whether the image names a backing file: both the place and the length of
    /// the name are set.
    pub open spec fn names_backing(&self) -> bool {
        self.backing_file_offset != 0 && self.backing_file_size != 0
    }

    /// Why the name of the backing file cannot lie where the header says, if it
    /// cannot.
    pub open spec fn backing_name_refusal(&self) -> Option<Error> {
        if self.backing_file_size > MAX_BACKING_NAME {
            Some(Error::Corrupt("backing_file_size > 1024 bytes"))
        } else if self.backing_file_offset >= self.cluster_size {
            Some(Error::Corrupt("backing file name is not within the first cluster"))
        } else {
            None
        }
    }

    /// Whether the image names a backing file.
    pub fn has_backing_name(&self) -> (b: bool)
        ensures
            b == self.names_backing(),
    {
        self.backing_file_offset != 0 && self.backing_file_size != 0
    }

    /// Refuses a name that is too long, or that starts past the first cluster: there
    /// lie bytes that whoever fills the disk can choose.
    pub fn check_backing_name(&self) -> (r: Result<(), Error>)
        ensures
            r == match self.backing_name_refusal() {
                None => Ok::<(), Error>(()),
                Some(e) => Err::<(), Error>(e),
            },
    {
        if self.backing_file_size > MAX_BACKING_NAME {
            return Err(Error::Corrupt("backing_file_size > 1024 bytes"));
        }
        if self.backing_file_offset >= self.cluster_size {
            return Err(Error::Corrupt("backing file name is not within the first cluster"));
        }
        Ok(())
    }
}

} // verus!
