//! A synthetic tile source and a draining sink, for exercising the
//! pipeline without touching real archives.  They share no code with the
//! production codecs.

use vstd::prelude::*;
use crate::error::{Error, corrupt_error};
use crate::reader::TileReader;
use crate::types::{
    pyramid_contains, zoom_side_length_fits_u32, Blob, TileBBox, TileBBoxPyramid, TileCompression,
    TileFormat, TilesReaderParameters,
};

verus! {

/// The profile of the synthetic tiles a mock reader yields.
#[derive(Debug, Clone, Copy, PartialEq, Eq, Structural)]
pub enum MockTilesReaderProfile {
    Json,
    Png,
    Pbf,
}

impl MockTilesReaderProfile {
    /// The bytes of every synthetic tile of this profile.
    pub open spec fn spec_tile_bytes(self) -> Seq<u8> {
        match self {
            MockTilesReaderProfile::Json => seq![123u8, 125u8],
            MockTilesReaderProfile::Png => seq![
                137u8,
                80u8,
                78u8,
                71u8,
                13u8,
                10u8,
                26u8,
                10u8,
            ],
            MockTilesReaderProfile::Pbf => seq![26u8, 4u8, 10u8, 2u8, 104u8, 105u8],
        }
    }

    /// The tile format the profile declares.
    pub open spec fn spec_format(self) -> TileFormat {
        match self {
            MockTilesReaderProfile::Json => TileFormat::JSON,
            MockTilesReaderProfile::Png => TileFormat::PNG,
            MockTilesReaderProfile::Pbf => TileFormat::PBF,
        }
    }

    /// Builds the synthetic tile of this profile.
    pub fn tile_bytes(self) -> (r: Vec<u8>)
        ensures
            r@ == self.spec_tile_bytes(),
            r@.len() > 0,
    {
        let mut out: Vec<u8> = Vec::new();
        match self {
            MockTilesReaderProfile::Json => {
                out.push(123);
                out.push(125);
            },
            MockTilesReaderProfile::Png => {
                out.push(137);
                out.push(80);
                out.push(78);
                out.push(71);
                out.push(13);
                out.push(10);
                out.push(26);
                out.push(10);
            },
            MockTilesReaderProfile::Pbf => {
                out.push(26);
                out.push(4);
                out.push(10);
                out.push(2);
                out.push(104);
                out.push(105);
            },
        }
        proof {
            assert(out@ =~= self.spec_tile_bytes());
        }
        out
    }
}

/// A reader that yields one fixed synthetic tile at every coordinate of
/// its pyramid.
#[derive(Debug)]
pub struct MockTilesReader {
    parameters: TilesReaderParameters,
    profile: MockTilesReaderProfile,
}

impl MockTilesReader {
    /// Every mock reader carries a structurally valid pyramid.
    #[verifier::type_invariant]
    closed spec fn inv(&self) -> bool {
        self.parameters.bbox_pyramid.spec_valid()
    }

    /// The profile the reader was built from.
    pub closed spec fn spec_profile(&self) -> MockTilesReaderProfile {
        self.profile
    }

    /// The declared parameters.
    pub closed spec fn spec_parameters(&self) -> TilesReaderParameters {
        self.parameters
    }

    /// A mock reader over explicit parameters; a structurally invalid
    /// pyramid is `Corrupt`.
    pub fn new_mock(parameters: TilesReaderParameters, profile: MockTilesReaderProfile) -> (r:
        Result<MockTilesReader, Error>)
        ensures
            match r {
                Ok(m) => {
                    &&& m.spec_parameters() == parameters
                    &&& m.spec_profile() == profile
                    &&& parameters.bbox_pyramid.spec_valid()
                },
                Err(e) => e is Corrupt && !parameters.bbox_pyramid.spec_valid(),
            },
    {
        if parameters.bbox_pyramid.is_valid() {
            Ok(MockTilesReader { parameters, profile })
        } else {
            Err(corrupt_error("mock pyramid is not valid"))
        }
    }

    /// A mock reader with the profile's format, uncompressed, covering the
    /// full grid up to zoom three.
    pub fn new_mock_profile(profile: MockTilesReaderProfile) -> (r: Result<MockTilesReader, Error>)
        ensures
            r is Ok,
            r->Ok_0.spec_profile() == profile,
            r->Ok_0.spec_parameters().tile_compression == TileCompression::Uncompressed,
    {
        let pyramid = match TileBBoxPyramid::new_full(3) {
            Ok(p) => p,
            Err(_) => TileBBoxPyramid::new_empty(),
        };
        let parameters = TilesReaderParameters::new(
            match profile {
                MockTilesReaderProfile::Json => TileFormat::JSON,
                MockTilesReaderProfile::Png => TileFormat::PNG,
                MockTilesReaderProfile::Pbf => TileFormat::PBF,
            },
            TileCompression::Uncompressed,
            pyramid,
        );
        match MockTilesReader::new_mock(parameters, profile) {
            Ok(m) => Ok(m),
            Err(e) => Err(e),
        }
    }
}

impl TileReader for MockTilesReader {
    closed spec fn spec_format(&self) -> TileFormat {
        self.parameters.tile_format
    }

    closed spec fn spec_compression(&self) -> TileCompression {
        self.parameters.tile_compression
    }

    closed spec fn spec_meta(&self) -> Seq<u8> {
        seq![123u8, 125u8]
    }

    closed spec fn spec_pyramid(&self) -> TileBBoxPyramid {
        self.parameters.bbox_pyramid
    }

    closed spec fn spec_tile(&self, z: int, x: int, y: int) -> Option<Seq<u8>> {
        if pyramid_contains(self.parameters.bbox_pyramid, z, x, y) {
            Some(self.profile.spec_tile_bytes())
        } else {
            None
        }
    }

    closed spec fn spec_name(&self) -> Seq<char> {
        "dummy"@
    }

    closed spec fn spec_container_name(&self) -> Seq<char> {
        "mock"@
    }

    fn get_name(&self) -> (r: &str) {
        "dummy"
    }

    fn get_container_name(&self) -> (r: &str) {
        "mock"
    }

    fn override_compression(&mut self, tile_compression: TileCompression) {
        proof {
            use_type_invariant(&*self);
        }
        self.parameters.tile_compression = tile_compression;
    }

    fn get_tile_format(&self) -> (r: TileFormat) {
        self.parameters.tile_format
    }

    fn get_tile_compression(&self) -> (r: TileCompression) {
        self.parameters.tile_compression
    }

    fn get_meta(&self) -> (r: Blob) {
        let mut out: Vec<u8> = Vec::new();
        out.push(123);
        out.push(125);
        proof {
            assert(out@ =~= self.spec_meta());
        }
        Blob::from_vec(out)
    }

    fn get_bbox_pyramid(&self) -> (r: TileBBoxPyramid) {
        proof {
            use_type_invariant(&*self);
        }
        self.parameters.bbox_pyramid.duplicate()
    }

    fn get_level_bbox(&self, level: u64) -> (r: Option<TileBBox>) {
        proof {
            use_type_invariant(&*self);
        }
        if level >= crate::types::PYRAMID_LEVELS as u64 {
            return None;
        }
        self.parameters.bbox_pyramid.get_level_bbox(level as u8)
    }

    fn get_minimum_zoom(&self) -> (r: Option<u8>) {
        proof {
            use_type_invariant(&*self);
        }
        self.parameters.bbox_pyramid.get_zoom_min()
    }

    fn get_maximum_zoom(&self) -> (r: Option<u8>) {
        proof {
            use_type_invariant(&*self);
        }
        self.parameters.bbox_pyramid.get_zoom_max()
    }

    fn get_tile_raw(&self, level: u64, col: u64, row: u64) -> (r: Option<Blob>) {
        proof {
            use_type_invariant(&*self);
        }
        if level >= crate::types::PYRAMID_LEVELS as u64 || col > u32::MAX as u64 || row
            > u32::MAX as u64 {
            return None;
        }
        match self.parameters.bbox_pyramid.get_level_bbox(level as u8) {
            Some(b) => {
                if b.contains(col as u32, row as u32) {
                    Some(Blob::from_vec(self.profile.tile_bytes()))
                } else {
                    None
                }
            },
            None => None,
        }
    }
}

/// A sink that drains a reader without emitting bytes.
#[derive(Debug)]
pub struct MockTilesWriter {}

impl MockTilesWriter {
    /// Pulls the metadata and every tile of every covered level out of the
    /// reader and discards them.
    pub fn write<R: TileReader>(reader: &R) -> (r: Result<(), Error>)
        ensures
            r is Ok,
    {
        let _meta = reader.get_meta();
        let pyramid = reader.get_bbox_pyramid();
        let levels = pyramid.iter_levels();
        proof {
            assert forall|k: int| 0 <= k < levels@.len() implies (#[trigger] levels@[k]).spec_valid()
                && !levels@[k].empty by {
                assert(pyramid.spec_level(levels@[k].level as int) == Some(levels@[k]));
            }
        }
        let mut i: usize = 0;
        while i < levels.len()
            invariant
                i <= levels@.len(),
                forall|k: int|
                    0 <= k < levels@.len() ==> (#[trigger] levels@[k]).spec_valid()
                        && !levels@[k].empty,
            decreases levels@.len() - i,
        {
            let bbox: TileBBox = levels[i];
            proof {
                zoom_side_length_fits_u32(bbox.level);
            }
            let mut y: u32 = bbox.y_min;
            while y <= bbox.y_max
                invariant
                    bbox.spec_valid(),
                    !bbox.empty,
                    bbox.y_min <= y <= bbox.y_max + 1,
                    bbox.x_max < 0x8000_0000u32,
                    bbox.y_max < 0x8000_0000u32,
                decreases bbox.y_max + 1 - y,
            {
                let mut x: u32 = bbox.x_min;
                while x <= bbox.x_max
                    invariant
                        bbox.spec_valid(),
                        !bbox.empty,
                        bbox.y_min <= y <= bbox.y_max,
                        bbox.x_min <= x <= bbox.x_max + 1,
                        bbox.x_max < 0x8000_0000u32,
                    decreases bbox.x_max + 1 - x,
                {
                    let _tile = reader.get_tile_raw(bbox.level as u64, x as u64, y as u64);
                    x = x + 1;
                }
                y = y + 1;
            }
            i = i + 1;
        }
        Ok(())
    }
}

} // verus!
