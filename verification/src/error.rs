//! What can go wrong: one variant per failure shape, so that callers can match
//! without parsing strings.

use crate::text::{number, number_text};
use vstd::prelude::*;
use vstd::std_specs::convert::FromSpecImpl;
use vstd::string::*;

verus! {

/// `std::io::Error`, carried through unopened.
#[verifier::external_type_specification]
#[verifier::external_body]
pub struct ExIoError(std::io::Error);

/// Why an image could not be opened, read or written.
#[derive(Debug)]
pub enum Error {
    /// The device below the image failed.
    Io(std::io::Error),
    /// The device does not hold a QCOW2 image (bad magic).
    NotQcow2,
    /// The header's version is neither 2 nor 3.
    UnsupportedVersion(u32),
    /// `cluster_bits` is outside the range 9 to 21.
    InvalidClusterBits(u32),
    /// The image contradicts itself.
    Corrupt(&'static str),
    /// The image needs something that this library does not do.
    Unsupported(&'static str),
    /// A range that ends past the end of the virtual disk.
    OutOfBounds { offset: u64, len: u64, size: u64 },
    /// A compressed cluster does not decode.
    Decompress(String),
    /// The name of the backing file is not valid UTF-8.
    BadBackingPath,
    /// The backing chain is longer than the limit; it may be a cycle.
    BackingTooDeep,
    /// A write to an image that was opened read-only.
    ReadOnly,
}

/// What a device answers to a request that it does not serve.
#[derive(Debug)]
pub enum DeviceError {
    /// The input or output operation itself failed.
    Io(std::io::Error),
    /// The device ended before the read was complete; `got` bytes were placed
    /// in the caller's buffer.
    ShortRead { offset: u64, want: usize, got: usize },
    /// A write to a device that takes none.
    ReadOnly,
    /// A range that is not wholly inside the device.
    OutOfBounds { offset: u64, len: u64, size: u64 },
    /// Any other reason, in the device's own words.
    Custom(String),
}

/// An `std::io::Error` of the kind `UnexpectedEof` that says where a read ran
/// out of data, made by `std::io::Error::new`. Nothing is claimed of the value:
/// it is carried to the caller unopened.
#[verifier::external_body]
fn short_read_io(offset: u64, want: usize, got: usize) -> (e: std::io::Error) {
    std::io::Error::new(
        std::io::ErrorKind::UnexpectedEof,
        format!("short read at {offset}: wanted {want} got {got}"),
    )
}

/// Whether `e` is what the device's answer `d` becomes for the caller.
pub open spec fn lifts(d: DeviceError, e: Error) -> bool {
    match d {
        DeviceError::Io(io) => e == Error::Io(io),
        DeviceError::ShortRead { .. } => e is Io,
        DeviceError::ReadOnly => e == Error::ReadOnly,
        DeviceError::OutOfBounds { offset, len, size } => e == (Error::OutOfBounds {
            offset,
            len,
            size,
        }),
        DeviceError::Custom(s) => e == Error::Decompress(s),
    }
}

/// The error to report when the device under an image answers `d`.
pub fn from_device(d: DeviceError) -> (e: Error)
    ensures
        lifts(d, e),
{
    match d {
        DeviceError::Io(io) => Error::Io(io),
        DeviceError::ShortRead { offset, want, got } => Error::Io(short_read_io(offset, want, got)),
        DeviceError::ReadOnly => Error::ReadOnly,
        DeviceError::OutOfBounds { offset, len, size } => Error::OutOfBounds { offset, len, size },
        DeviceError::Custom(s) => Error::Decompress(s),
    }
}

/// The answer to give when an image is itself served as a device and fails
/// with `e`.
pub fn to_device(e: Error) -> (d: DeviceError)
    ensures
        match e {
            Error::Io(io) => d == DeviceError::Io(io),
            Error::OutOfBounds { offset, len, size } => d == (DeviceError::OutOfBounds {
                offset,
                len,
                size,
            }),
            Error::ReadOnly => d == DeviceError::ReadOnly,
            _ => d matches DeviceError::Custom(s) && s@ == error_text(e),
        },
{
    match e {
        Error::Io(io) => DeviceError::Io(io),
        Error::OutOfBounds { offset, len, size } => DeviceError::OutOfBounds { offset, len, size },
        Error::ReadOnly => DeviceError::ReadOnly,
        _ => DeviceError::Custom(e.message()),
    }
}

/// What is shown to a person for `e`. What is shown for the operating system's
/// own error is not stated here, but at [`Error::message`].
pub open spec fn error_text(e: Error) -> Seq<char> {
    match e {
        Error::Io(_) => "io: "@,
        Error::NotQcow2 => "not a QCOW2 image (bad magic)"@,
        Error::UnsupportedVersion(v) => "unsupported qcow2 version: "@ + number_text(v as int, 10),
        Error::InvalidClusterBits(b) => "invalid cluster_bits: "@ + number_text(b as int, 10)
            + " (must be 9..=21)"@,
        Error::Corrupt(s) => "corrupt qcow2: "@ + s@,
        Error::Unsupported(s) => "unsupported qcow2 feature: "@ + s@,
        Error::OutOfBounds { offset, len, size } => "read ["@ + number_text(offset as int, 10)
            + ", "@ + number_text(offset as int, 10) + "+"@ + number_text(len as int, 10)
            + ") past virtual size "@ + number_text(size as int, 10),
        Error::Decompress(s) => "decompress: "@ + s@,
        Error::BadBackingPath => "backing-file path is not valid UTF-8"@,
        Error::BackingTooDeep => "backing chain too deep (cycle?)"@,
        Error::ReadOnly => "image was opened read-only"@,
    }
}

impl Error {
    /// The error in words.
    pub fn message(&self) -> (s: String)
        ensures
            match self {
                Error::Io(io) => exists|t: String|
                    #[trigger] to_string_from_display_ensures(io, t) && s@ == error_text(*self) + t@,
                _ => s@ == error_text(*self),
            },
    {
        match self {
            Error::Io(io) => {
                let t: String = io.to_string();
                String::from_str("io: ").concat(t.as_str())
            },
            Error::NotQcow2 => String::from_str("not a QCOW2 image (bad magic)"),
            Error::UnsupportedVersion(v) => String::from_str("unsupported qcow2 version: ").concat(
                number(*v as u64, 10).as_str(),
            ),
            Error::InvalidClusterBits(b) => String::from_str("invalid cluster_bits: ").concat(
                number(*b as u64, 10).as_str(),
            ).concat(" (must be 9..=21)"),
            Error::Corrupt(s) => String::from_str("corrupt qcow2: ").concat(s),
            Error::Unsupported(s) => String::from_str("unsupported qcow2 feature: ").concat(s),
            Error::OutOfBounds { offset, len, size } => String::from_str("read [").concat(
                number(*offset, 10).as_str(),
            ).concat(", ").concat(number(*offset, 10).as_str()).concat("+").concat(
                number(*len, 10).as_str(),
            ).concat(") past virtual size ").concat(number(*size, 10).as_str()),
            Error::Decompress(s) => String::from_str("decompress: ").concat(s.as_str()),
            Error::BadBackingPath => String::from_str("backing-file path is not valid UTF-8"),
            Error::BackingTooDeep => String::from_str("backing chain too deep (cycle?)"),
            Error::ReadOnly => String::from_str("image was opened read-only"),
        }
    }

    /// The operating system's error below this one, if there is one.
    pub fn source(&self) -> (r: Option<&std::io::Error>)
        ensures
            r == match self {
                Error::Io(io) => Some(io),
                _ => None,
            },
    {
        match self {
            Error::Io(io) => Some(io),
            _ => None,
        }
    }
}

impl From<std::io::Error> for Error {
    fn from(e: std::io::Error) -> (r: Self) {
        Error::Io(e)
    }
}

impl FromSpecImpl<std::io::Error> for Error {
    open spec fn obeys_from_spec() -> bool {
        true
    }

    open spec fn from_spec(e: std::io::Error) -> Self {
        Error::Io(e)
    }
}

} // verus!
