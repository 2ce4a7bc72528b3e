//! The contents of a compressed cluster.

use crate::error::Error;
use crate::text::{number, number_text};
use crate::zstd::{check_frame, frame_bounded};
use std::io::Read;
use vstd::prelude::*;
use vstd::string::*;

verus! {

/// The first `n` bytes that the raw deflate stream `data` decodes to, or nothing
/// if the stream is damaged or ends before that.
pub uninterp spec fn inflated(data: Seq<u8>, n: nat) -> Option<Seq<u8>>;

/// At most the first `limit` bytes that the zstd frame at the start of `data`
/// decodes to, or nothing if what has to be read for them is damaged.
pub uninterp spec fn zstd_prefix(data: Seq<u8>, limit: nat) -> Option<Seq<u8>>;

/// `flate2::read::DeflateDecoder`, read with `read_exact` into a buffer of `n`
/// bytes. The buffer is full where the call succeeds, and what it holds, like
/// whether the call succeeds, follows from the arguments alone. The wording of
/// the error is not stated.
#[verifier::external_body]
fn inflate(data: &[u8], n: usize) -> (r: Result<Vec<u8>, std::io::Error>)
    ensures
        match r {
            Ok(v) => v@.len() == n && inflated(data@, n as nat) == Some(v@),
            Err(_) => inflated(data@, n as nat) is None,
        },
{
    let mut out = vec![0u8; n];
    flate2::read::DeflateDecoder::new(data).read_exact(&mut out)?;
    Ok(out)
}

/// `ruzstd::decoding::StreamingDecoder`, read to the end of the frame but for no
/// more than `limit` bytes. What comes out, like whether the call succeeds,
/// follows from the arguments alone. The wording of the error is not stated.
///
/// The decoder takes a block whole, and adds up in a `u32` what the block copies; it
/// panics where that overflows, so the sum has to be known to fit.
#[verifier::external_body]
fn unzstd(data: &[u8], limit: u64) -> (r: Result<Vec<u8>, std::io::Error>)
    requires
        frame_bounded(data@),
    ensures
        match r {
            Ok(v) => v@.len() <= limit && zstd_prefix(data@, limit as nat) == Some(v@),
            Err(_) => zstd_prefix(data@, limit as nat) is None,
        },
{
    let decoder = match ruzstd::decoding::StreamingDecoder::new(data) {
        Ok(decoder) => decoder,
        Err(e) => return Err(std::io::Error::other(e)),
    };
    let mut out = Vec::new();
    decoder.take(limit).read_to_end(&mut out)?;
    Ok(out)
}

/// What the stored bytes `data` of a compressed cluster decode to, under the
/// compression type of the image.
pub enum Decoded {
    /// A whole cluster.
    Cluster(Seq<u8>),
    /// The bytes are damaged, or are not those of one cluster.
    Damaged,
    /// The compression type is not one that this library knows.
    UnknownType,
}

/// What the stored bytes `data` decode to.
pub open spec fn decoded(data: Seq<u8>, compression_type: u8, cluster_size: nat) -> Decoded {
    if compression_type == 0 {
        match inflated(data, cluster_size) {
            Some(v) => Decoded::Cluster(v),
            None => Decoded::Damaged,
        }
    } else if compression_type == 1 {
        match zstd_prefix(data, cluster_size + 1) {
            Some(v) => if frame_bounded(data) && v.len() == cluster_size {
                Decoded::Cluster(v)
            } else {
                Decoded::Damaged
            },
            None => Decoded::Damaged,
        }
    } else {
        Decoded::UnknownType
    }
}

/// Accepts what a zstd frame decoded to if it is as long as a cluster.
pub fn check_frame_length(out: Vec<u8>, cluster_size: usize) -> (r: Result<Vec<u8>, Error>)
    ensures
        match r {
            Ok(v) => v == out && out@.len() == cluster_size,
            Err(e) => out@.len() != cluster_size && (e matches Error::Decompress(s) && s@
                == "zstd frame produced "@ + number_text(out@.len() as int, 10)
                + " bytes, expected "@ + number_text(cluster_size as int, 10)),
        },
{
    if out.len() != cluster_size {
        return Err(
            Error::Decompress(
                String::from_str("zstd frame produced ").concat(
                    number(out.len() as u64, 10).as_str(),
                ).concat(" bytes, expected ").concat(number(cluster_size as u64, 10).as_str()),
            ),
        );
    }
    Ok(out)
}

/// Decodes the stored bytes of a compressed cluster. No more than one byte past
/// the end of a cluster is ever taken from the decoder, whatever the bytes claim. A
/// zstd frame with a block that may copy 2^32 bytes or more is not decoded.
pub fn decode_cluster(data: &[u8], compression_type: u8, cluster_size: usize) -> (r: Result<
    Vec<u8>,
    Error,
>)
    requires
        cluster_size < usize::MAX,
    ensures
        match decoded(data@, compression_type, cluster_size as nat) {
            Decoded::Cluster(s) => r matches Ok(v) && v@ == s && v@.len() == cluster_size,
            Decoded::Damaged => r matches Err(Error::Decompress(_)),
            Decoded::UnknownType => r == Err::<Vec<u8>, Error>(
                Error::Unsupported("unknown compression_type"),
            ),
        },
{
    if compression_type == 0 {
        match inflate(data, cluster_size) {
            Ok(v) => Ok(v),
            Err(e) => Err(Error::Decompress(e.to_string())),
        }
    } else if compression_type == 1 {
        if !check_frame(data) {
            return Err(
                Error::Decompress(String::from_str("zstd block announces too many sequences")),
            );
        }
        match unzstd(data, cluster_size as u64 + 1) {
            Ok(v) => check_frame_length(v, cluster_size),
            Err(e) => Err(Error::Decompress(e.to_string())),
        }
    } else {
        Err(Error::Unsupported("unknown compression_type"))
    }
}

} // verus!
