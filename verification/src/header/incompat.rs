//! The bits of `incompatible_features` that have a meaning here.

use vstd::prelude::*;

verus! {

/// The refcounts may not be up to date.
pub const DIRTY: u64 = 0x1;

/// Some part of the image's structure may be damaged.
pub const CORRUPT: u64 = 0x2;

/// The data lies in a file of its own.
pub const DATA_FILE: u64 = 0x4;

/// Compressed clusters use something other than zlib.
pub const COMPRESSION_TYPE: u64 = 0x8;

/// L2 entries are twice as wide.
pub const EXTENDED_L2: u64 = 0x10;

} // verus!
