//! QCOW2 disk images: reading, and writing with copy-on-write.
//!
//! An image is a header, a two-level table that says where each cluster of the
//! virtual disk is, and a two-level table that counts how often each cluster of the
//! file is referred to. [`Qcow2Reader`] opens an image on any [`BlockDevice`] and
//! gives the bytes of the virtual disk; opened for writing, it takes bytes too.
//!
//! What an image holds is said once, by [`image::Image::guest_byte`], and everything
//! else is stated over that: a read returns those bytes ([`reader`]), a write
//! changes those it names and no others ([`writer`]), the extents tile them
//! ([`extents`]). What keeps a write from doing harm is that the counts and the
//! tables agree, which is said in [`consistency`] and which every write keeps.

#![allow(unused_imports)]

use vstd::prelude::*;

pub mod bytes;
pub mod cli;
pub mod codec;
pub mod consistency;
pub mod device;
pub mod entry;
pub mod error;
pub mod extents;
pub mod header;
pub mod image;
pub mod laws;
pub mod open;
pub mod reader;
pub mod refcount;
pub mod room;
pub mod text;
pub mod writer;
pub mod zstd;

pub use crate::device::{BlockDevice, MemDevice};
pub use crate::error::{DeviceError, Error};
pub use crate::extents::{ClusterStatus, Extent, ExtentIter};
pub use crate::header::Header;
pub use crate::open::ChainBuilder;
pub use crate::reader::Qcow2Reader;

verus! {

} // verus!
