//! The codec layer: compressing and decompressing blobs.
//!
//! The contract is pure.  This build links no general-purpose compressor,
//! so only `Uncompressed` is available: it is the identity, and every other
//! compression reports `Unsupported`, as the archive contract asks of a
//! compression that is not linked in.

use vstd::prelude::*;
use crate::error::{Error, unsupported_error};
use crate::types::{Blob, TileCompression};

verus! {

/// Compresses `blob` for the target compression.
pub fn compress(blob: Blob, target: TileCompression) -> (r: Result<Blob, Error>)
    ensures
        match r {
            Ok(out) => target == TileCompression::Uncompressed && out@ == blob@,
            Err(e) => e is Unsupported && target != TileCompression::Uncompressed,
        },
{
    match target {
        TileCompression::Uncompressed => Ok(blob),
        _ => Err(unsupported_error("compression is not linked in this build")),
    }
}

/// Decompresses `blob` from the source compression.
pub fn decompress(blob: Blob, source: TileCompression) -> (r: Result<Blob, Error>)
    ensures
        match r {
            Ok(out) => source == TileCompression::Uncompressed && out@ == blob@,
            Err(e) => e is Unsupported && source != TileCompression::Uncompressed,
        },
{
    match source {
        TileCompression::Uncompressed => Ok(blob),
        _ => Err(unsupported_error("compression is not linked in this build")),
    }
}

} // verus!
