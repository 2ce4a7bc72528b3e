//! What the format fixes for the fields that a version 2 header does not have.

use vstd::prelude::*;

verus! {

pub const REFCOUNT_ORDER: u32 = 4;

pub const HEADER_LENGTH: u32 = 72;

} // verus!
