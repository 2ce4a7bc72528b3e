//! The byte offset of each field of the header.

pub mod v2_implicit;

use vstd::prelude::*;

verus! {

pub const MAGIC: usize = 0;

pub const VERSION: usize = 4;

pub const BACKING_FILE_OFFSET: usize = 8;

pub const BACKING_FILE_SIZE: usize = 16;

pub const CLUSTER_BITS: usize = 20;

pub const SIZE: usize = 24;

pub const CRYPT_METHOD: usize = 32;

pub const L1_SIZE: usize = 36;

pub const L1_TABLE_OFFSET: usize = 40;

pub const REFCOUNT_TABLE_OFFSET: usize = 48;

pub const REFCOUNT_TABLE_CLUSTERS: usize = 56;

pub const NB_SNAPSHOTS: usize = 60;

pub const SNAPSHOTS_OFFSET: usize = 64;

// From here on: version 3 only.

pub const INCOMPATIBLE_FEATURES: usize = 72;

pub const COMPATIBLE_FEATURES: usize = 80;

pub const AUTOCLEAR_FEATURES: usize = 88;

pub const REFCOUNT_ORDER: usize = 96;

pub const HEADER_LENGTH: usize = 100;

/// Where a version 3 header ends if it has no additional fields. A larger
/// `header_length` means that `COMPRESSION_TYPE` is present.
pub const V3_BASE_HEADER_LENGTH: u32 = 104;

/// The first of the additional fields.
pub const COMPRESSION_TYPE: usize = 104;

} // verus!
