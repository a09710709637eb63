//! The abstract reader contract every archive adapter shares.
//!
//! A reader declares a tile format, a tile compression, metadata, and a
//! bounding-box pyramid, and answers tile lookups.  The spec functions of
//! the trait are the reader's mathematical model; each executable method
//! is tied to that model, so the archive writer can be proved against any
//! reader whatsoever.

use vstd::prelude::*;
use crate::codec::decompress;
use crate::error::Error;
use crate::types::{Blob, TileBBox, TileBBoxPyramid, TileCompression, TileFormat};

verus! {

/// What a tile source is, mathematically, and how its methods answer.
pub trait TileReader {
    /// The declared tile format.
    spec fn spec_format(&self) -> TileFormat;

    /// The declared tile compression.
    spec fn spec_compression(&self) -> TileCompression;

    /// The metadata bytes.
    spec fn spec_meta(&self) -> Seq<u8>;

    /// The covered bounding-box pyramid.
    spec fn spec_pyramid(&self) -> TileBBoxPyramid;

    /// The tile stored at `(z, x, y)`, if any.
    spec fn spec_tile(&self, z: int, x: int, y: int) -> Option<Seq<u8>>;

    /// The name of the reader's source.
    spec fn spec_name(&self) -> Seq<char>;

    /// The name of the container format behind the reader.
    spec fn spec_container_name(&self) -> Seq<char>;

    /// The name of the reader's source.
    fn get_name(&self) -> (r: &str)
        ensures
            r@ == self.spec_name(),
    ;

    /// The name of the container format behind the reader.
    fn get_container_name(&self) -> (r: &str)
        ensures
            r@ == self.spec_container_name(),
    ;

    /// The declared tile format.
    fn get_tile_format(&self) -> (r: TileFormat)
        ensures
            r == self.spec_format(),
    ;

    /// Retags the declared compression without transcoding anything: the
    /// one permitted mutation of a reader.  Every stored byte, the
    /// format, the metadata and the pyramid stay as they were; downstream
    /// is responsible for reconciling the new tag.
    fn override_compression(&mut self, tile_compression: TileCompression)
        ensures
            final(self).spec_compression() == tile_compression,
            final(self).spec_format() == old(self).spec_format(),
            final(self).spec_meta() == old(self).spec_meta(),
            final(self).spec_pyramid()@ == old(self).spec_pyramid()@,
            final(self).spec_name() == old(self).spec_name(),
            final(self).spec_container_name() == old(self).spec_container_name(),
            forall|z: int, x: int, y: int|
                #[trigger] final(self).spec_tile(z, x, y) == old(self).spec_tile(z, x, y),
    ;

    /// The declared tile compression.
    fn get_tile_compression(&self) -> (r: TileCompression)
        ensures
            r == self.spec_compression(),
    ;

    /// The metadata bytes, always uncompressed.
    fn get_meta(&self) -> (r: Blob)
        ensures
            r@ == self.spec_meta(),
    ;

    /// The covered pyramid; every implementation hands out a valid one.
    fn get_bbox_pyramid(&self) -> (r: TileBBoxPyramid)
        ensures
            r@ == self.spec_pyramid()@,
            r.spec_valid(),
    ;

    /// The bbox covered at `level`, if that zoom is covered.
    fn get_level_bbox(&self, level: u64) -> (r: Option<TileBBox>)
        ensures
            r == self.spec_pyramid().spec_level(level as int),
    ;

    /// The lowest covered zoom.
    fn get_minimum_zoom(&self) -> (r: Option<u8>)
        ensures
            match r {
                Some(z) => self.spec_pyramid().spec_level(z as int) is Some && forall|w: int|
                    0 <= w < z ==> self.spec_pyramid().spec_level(w) is None,
                None => forall|z: int|
                    0 <= z < crate::types::PYRAMID_LEVELS ==> self.spec_pyramid().spec_level(z)
                        is None,
            },
    ;

    /// The highest covered zoom.
    fn get_maximum_zoom(&self) -> (r: Option<u8>)
        ensures
            match r {
                Some(z) => self.spec_pyramid().spec_level(z as int) is Some && forall|w: int|
                    z < w < crate::types::PYRAMID_LEVELS ==> self.spec_pyramid().spec_level(w)
                        is None,
                None => forall|z: int|
                    0 <= z < crate::types::PYRAMID_LEVELS ==> self.spec_pyramid().spec_level(z)
                        is None,
            },
    ;

    /// The stored tile at `(level, col, row)`, exactly as archived: in the
    /// declared compression and format.  An absent tile is `None`, never an
    /// error.
    fn get_tile_raw(&self, level: u64, col: u64, row: u64) -> (r: Option<Blob>)
        ensures
            match r {
                Some(b) => self.spec_tile(level as int, col as int, row as int) == Some(b@),
                None => self.spec_tile(level as int, col as int, row as int) is None,
            },
    ;
}

/// A thin shared-reference wrapper around any reader, so that several
/// consumers can pull tiles from one source.
pub struct TileReaderWrapper<'a, R: TileReader> {
    reader: &'a R,
}

impl<'a, R: TileReader> TileReaderWrapper<'a, R> {
    /// Wraps a borrowed reader.
    pub fn new(reader: &'a R) -> (r: TileReaderWrapper<'a, R>)
        ensures
            r.spec_reader() == reader,
    {
        TileReaderWrapper { reader }
    }

    /// The wrapped reader.
    pub closed spec fn spec_reader(&self) -> &'a R {
        self.reader
    }

    /// The stored tile, exactly as archived.
    pub fn get_tile_raw(&self, level: u64, col: u64, row: u64) -> (r: Option<Blob>)
        ensures
            match r {
                Some(b) => self.spec_reader().spec_tile(level as int, col as int, row as int)
                    == Some(b@),
                None => self.spec_reader().spec_tile(level as int, col as int, row as int)
                    is None,
            },
    {
        self.reader.get_tile_raw(level, col, row)
    }

    /// The stored tile, decompressed from the reader's declared
    /// compression; a compression this build cannot undo is `Unsupported`.
    pub fn get_tile_uncompressed(&self, level: u64, col: u64, row: u64) -> (r: Result<
        Option<Blob>,
        Error,
    >)
        ensures
            match r {
                Ok(out) => match out {
                    Some(b) => self.spec_reader().spec_compression()
                        == TileCompression::Uncompressed && self.spec_reader().spec_tile(
                        level as int,
                        col as int,
                        row as int,
                    ) == Some(b@),
                    None => self.spec_reader().spec_tile(level as int, col as int, row as int)
                        is None,
                },
                Err(e) => e is Unsupported && self.spec_reader().spec_compression()
                    != TileCompression::Uncompressed,
            },
    {
        match self.reader.get_tile_raw(level, col, row) {
            Some(b) => match decompress(b, self.reader.get_tile_compression()) {
                Ok(out) => Ok(Some(out)),
                Err(e) => Err(e),
            },
            None => Ok(None),
        }
    }
}

} // verus!
