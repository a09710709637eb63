//! Primitive types of the tile world: blobs, byte ranges, the closed sets of
//! tile formats and compressions, tile coordinates, bounding boxes and the
//! per-zoom bounding-box pyramid, and the parameter record every reader
//! declares.

use vstd::prelude::*;
use vstd::arithmetic::power2::{pow2, lemma_pow2_strictly_increases, lemma2_to64};
use vstd::arithmetic::div_mod::lemma_fundamental_div_mod_converse;
use crate::error::{Error, corrupt_error};

verus! {

/// An owned byte sequence.
#[derive(Debug, Clone, PartialEq)]
pub struct Blob {
    data: Vec<u8>,
}

impl View for Blob {
    type V = Seq<u8>;

    closed spec fn view(&self) -> Seq<u8> {
        self.data@
    }
}

impl Blob {
    /// The empty blob.
    pub fn new() -> (r: Blob)
        ensures
            r@ == Seq::<u8>::empty(),
    {
        Blob { data: Vec::new() }
    }

    /// Wraps an owned byte vector without copying it.
    pub fn from_vec(data: Vec<u8>) -> (r: Blob)
        ensures
            r@ == data@,
    {
        Blob { data }
    }

    /// The number of bytes held.
    pub fn len(&self) -> (r: u64)
        ensures
            r == self@.len(),
    {
        self.data.len() as u64
    }

    /// True when no bytes are held.
    pub fn is_empty(&self) -> (r: bool)
        ensures
            r == (self@.len() == 0),
    {
        self.data.len() == 0
    }

    /// The byte at position `i`.
    pub fn get(&self, i: usize) -> (r: u8)
        requires
            i < self@.len(),
        ensures
            r == self@[i as int],
    {
        self.data[i]
    }

    /// Gives the bytes back as an owned vector.
    pub fn into_vec(self) -> (r: Vec<u8>)
        ensures
            r@ == self@,
    {
        self.data
    }

    /// Borrows the bytes as a slice.
    pub fn as_slice(&self) -> (r: &[u8])
        ensures
            r@ == self@,
    {
        self.data.as_slice()
    }
}

/// A contiguous range of bytes in a backing source: absolute `offset` and
/// `length`.  A length of zero is the canonical marker for an absent tile.
#[derive(Debug, Clone, Copy, PartialEq, Eq, Structural)]
pub struct ByteRange {
    pub offset: u64,
    pub length: u64,
}

impl ByteRange {
    /// The range `[offset, offset + length)`.
    pub fn new(offset: u64, length: u64) -> (r: ByteRange)
        ensures
            r.offset == offset,
            r.length == length,
    {
        ByteRange { offset, length }
    }

    /// True when the whole range lies inside a source of `len` bytes.
    pub open spec fn spec_fits_in(self, len: nat) -> bool {
        self.offset + self.length <= len
    }
}

/// The closed set of tile payload formats.
#[derive(Debug, Clone, Copy, PartialEq, Eq, Structural)]
pub enum TileFormat {
    BIN,
    PNG,
    JPG,
    WEBP,
    AVIF,
    SVG,
    PBF,
    GEOJSON,
    TOPOJSON,
    JSON,
}

impl TileFormat {
    /// The on-disk byte of the format in an archive header.
    pub open spec fn spec_to_u8(self) -> u8 {
        match self {
            TileFormat::BIN => 0,
            TileFormat::PNG => 1,
            TileFormat::JPG => 2,
            TileFormat::WEBP => 3,
            TileFormat::AVIF => 4,
            TileFormat::SVG => 5,
            TileFormat::PBF => 16,
            TileFormat::GEOJSON => 17,
            TileFormat::TOPOJSON => 18,
            TileFormat::JSON => 19,
        }
    }

    /// The format a header byte denotes, if any.
    pub open spec fn spec_from_u8(value: u8) -> Option<TileFormat> {
        match value {
            0u8 => Some(TileFormat::BIN),
            1u8 => Some(TileFormat::PNG),
            2u8 => Some(TileFormat::JPG),
            3u8 => Some(TileFormat::WEBP),
            4u8 => Some(TileFormat::AVIF),
            5u8 => Some(TileFormat::SVG),
            16u8 => Some(TileFormat::PBF),
            17u8 => Some(TileFormat::GEOJSON),
            18u8 => Some(TileFormat::TOPOJSON),
            19u8 => Some(TileFormat::JSON),
            _ => None,
        }
    }

    /// Serializes the format to its header byte.
    pub fn to_u8(self) -> (r: u8)
        ensures
            r == self.spec_to_u8(),
    {
        match self {
            TileFormat::BIN => 0,
            TileFormat::PNG => 1,
            TileFormat::JPG => 2,
            TileFormat::WEBP => 3,
            TileFormat::AVIF => 4,
            TileFormat::SVG => 5,
            TileFormat::PBF => 16,
            TileFormat::GEOJSON => 17,
            TileFormat::TOPOJSON => 18,
            TileFormat::JSON => 19,
        }
    }

    /// Reads a format back from its header byte; unknown bytes are `Corrupt`.
    pub fn from_u8(value: u8) -> (r: Result<TileFormat, Error>)
        ensures
            match Self::spec_from_u8(value) {
                Some(f) => r == Ok::<TileFormat, Error>(f),
                None => r is Err && r->Err_0 is Corrupt,
            },
    {
        match value {
            0 => Ok(TileFormat::BIN),
            1 => Ok(TileFormat::PNG),
            2 => Ok(TileFormat::JPG),
            3 => Ok(TileFormat::WEBP),
            4 => Ok(TileFormat::AVIF),
            5 => Ok(TileFormat::SVG),
            16 => Ok(TileFormat::PBF),
            17 => Ok(TileFormat::GEOJSON),
            18 => Ok(TileFormat::TOPOJSON),
            19 => Ok(TileFormat::JSON),
            _ => Err(corrupt_error("unknown tile format byte")),
        }
    }
}

/// Round trip of the tile-format byte: every format survives serialization.
pub proof fn lemma_tile_format_byte_round_trip(f: TileFormat)
    ensures
        TileFormat::spec_from_u8(f.spec_to_u8()) == Some(f),
{
}

/// The closed set of tile compressions.
#[derive(Debug, Clone, Copy, PartialEq, Eq, Structural)]
pub enum TileCompression {
    Uncompressed,
    Gzip,
    Brotli,
    Zstd,
}

impl TileCompression {
    /// The on-disk byte of the compression in an archive header.
    pub open spec fn spec_to_u8(self) -> u8 {
        match self {
            TileCompression::Uncompressed => 0,
            TileCompression::Gzip => 1,
            TileCompression::Brotli => 2,
            TileCompression::Zstd => 3,
        }
    }

    /// The compression a header byte denotes, if any.
    pub open spec fn spec_from_u8(value: u8) -> Option<TileCompression> {
        match value {
            0u8 => Some(TileCompression::Uncompressed),
            1u8 => Some(TileCompression::Gzip),
            2u8 => Some(TileCompression::Brotli),
            3u8 => Some(TileCompression::Zstd),
            _ => None,
        }
    }

    /// Serializes the compression to its header byte.
    pub fn to_u8(self) -> (r: u8)
        ensures
            r == self.spec_to_u8(),
    {
        match self {
            TileCompression::Uncompressed => 0,
            TileCompression::Gzip => 1,
            TileCompression::Brotli => 2,
            TileCompression::Zstd => 3,
        }
    }

    /// Reads a compression back from its header byte; unknown bytes are
    /// `Corrupt`.
    pub fn from_u8(value: u8) -> (r: Result<TileCompression, Error>)
        ensures
            match Self::spec_from_u8(value) {
                Some(c) => r == Ok::<TileCompression, Error>(c),
                None => r is Err && r->Err_0 is Corrupt,
            },
    {
        match value {
            0 => Ok(TileCompression::Uncompressed),
            1 => Ok(TileCompression::Gzip),
            2 => Ok(TileCompression::Brotli),
            3 => Ok(TileCompression::Zstd),
            _ => Err(corrupt_error("unknown tile compression byte")),
        }
    }
}

/// Round trip of the compression byte.
pub proof fn lemma_tile_compression_byte_round_trip(c: TileCompression)
    ensures
        TileCompression::spec_from_u8(c.spec_to_u8()) == Some(c),
{
}

/// The highest zoom level an archive can address.
pub const MAX_ZOOM: u8 = 31;

/// A tile coordinate: zoom `z` and column `x`, row `y`, with row zero at the
/// north edge.
#[derive(Debug, Clone, Copy, PartialEq, Eq, Structural)]
pub struct TileCoord3 {
    pub z: u8,
    pub x: u32,
    pub y: u32,
}

impl TileCoord3 {
    /// A coordinate is valid when its zoom is addressable and both axes lie
    /// below `2^z`.
    pub open spec fn spec_valid(self) -> bool {
        &&& self.z <= MAX_ZOOM
        &&& (self.x as nat) < pow2(self.z as nat)
        &&& (self.y as nat) < pow2(self.z as nat)
    }

    /// Builds a coordinate after checking its bounds; out-of-range input is
    /// `Corrupt`.
    pub fn new(z: u8, x: u32, y: u32) -> (r: Result<TileCoord3, Error>)
        ensures
            match r {
                Ok(c) => c == (TileCoord3 { z, x, y }) && c.spec_valid(),
                Err(e) => e is Corrupt && !(TileCoord3 { z, x, y }).spec_valid(),
            },
    {
        let c = TileCoord3 { z, x, y };
        if c.is_valid() {
            Ok(c)
        } else {
            Err(corrupt_error("tile coordinate out of range"))
        }
    }

    /// Checks the bounds of the coordinate.
    pub fn is_valid(&self) -> (r: bool)
        ensures
            r == self.spec_valid(),
    {
        if self.z > MAX_ZOOM {
            return false;
        }
        proof {
            zoom_side_length_fits_u32(self.z);
        }
        self.x < (1u32 << (self.z as u32)) && self.y < (1u32 << (self.z as u32))
    }
}

/// At an addressable zoom the side length `2^z` of the tile grid fits `u32`,
/// and the shift computes it.
pub proof fn zoom_side_length_fits_u32(z: u8)
    requires
        z <= MAX_ZOOM,
    ensures
        pow2(z as nat) <= 0x8000_0000,
        (1u32 << (z as u32)) == pow2(z as nat),
{
    lemma2_to64();
    vstd::bits::lemma_u32_pow2_no_overflow(z as nat);
    vstd::bits::lemma_u32_shl_is_mul(1u32, z as u32);
    if z < 31 {
        lemma_pow2_strictly_increases(z as nat, 31);
    }
}

/// A rectangle of tiles at one zoom level.  The `empty` flag is the
/// distinguished representation of the empty rectangle; a non-empty bbox
/// keeps `x_min <= x_max` and `y_min <= y_max`, all below `2^level`.
#[derive(Debug, Clone, Copy, PartialEq, Eq, Structural)]
pub struct TileBBox {
    pub level: u8,
    pub x_min: u32,
    pub y_min: u32,
    pub x_max: u32,
    pub y_max: u32,
    pub empty: bool,
}

impl TileBBox {
    /// Structural validity of the bbox.
    pub open spec fn spec_valid(self) -> bool {
        &&& self.level <= MAX_ZOOM
        &&& if self.empty {
            self.x_min == 0 && self.y_min == 0 && self.x_max == 0 && self.y_max == 0
        } else {
            &&& self.x_min <= self.x_max
            &&& self.y_min <= self.y_max
            &&& (self.x_max as nat) < pow2(self.level as nat)
            &&& (self.y_max as nat) < pow2(self.level as nat)
        }
    }

    /// Width in tiles; zero for the empty bbox.
    pub open spec fn spec_width(self) -> int {
        if self.empty {
            0
        } else {
            self.x_max - self.x_min + 1
        }
    }

    /// Height in tiles; zero for the empty bbox.
    pub open spec fn spec_height(self) -> int {
        if self.empty {
            0
        } else {
            self.y_max - self.y_min + 1
        }
    }

    /// Number of tiles covered.
    pub open spec fn spec_count(self) -> int {
        self.spec_width() * self.spec_height()
    }

    /// True when the coordinate `(x, y)` lies inside the bbox.
    pub open spec fn spec_contains(self, x: int, y: int) -> bool {
        &&& !self.empty
        &&& self.x_min <= x <= self.x_max
        &&& self.y_min <= y <= self.y_max
    }

    /// The coordinates of the bbox in row-major order: row (`y`) outer,
    /// column (`x`) inner.
    pub open spec fn spec_coords(self) -> Seq<TileCoord3> {
        Seq::new(
            self.spec_count() as nat,
            |i: int|
                TileCoord3 {
                    z: self.level,
                    x: (self.x_min + (i % self.spec_width())) as u32,
                    y: (self.y_min + (i / self.spec_width())) as u32,
                },
        )
    }

    /// Builds a bbox after checking its bounds; a malformed rectangle is
    /// `Corrupt`.
    pub fn new(level: u8, x_min: u32, y_min: u32, x_max: u32, y_max: u32) -> (r: Result<
        TileBBox,
        Error,
    >)
        ensures
            match r {
                Ok(b) => b == (TileBBox { level, x_min, y_min, x_max, y_max, empty: false })
                    && b.spec_valid(),
                Err(e) => e is Corrupt,
            },
            r is Ok <==> (TileBBox { level, x_min, y_min, x_max, y_max, empty: false }).spec_valid(),
    {
        if level > MAX_ZOOM {
            return Err(corrupt_error("zoom level out of range"));
        }
        proof {
            zoom_side_length_fits_u32(level);
        }
        let side: u32 = 1u32 << (level as u32);
        if x_min <= x_max && y_min <= y_max && x_max < side && y_max < side {
            Ok(TileBBox { level, x_min, y_min, x_max, y_max, empty: false })
        } else {
            Err(corrupt_error("tile bbox out of range"))
        }
    }

    /// The empty bbox at `level`.
    pub fn new_empty(level: u8) -> (r: Result<TileBBox, Error>)
        ensures
            match r {
                Ok(b) => b == (TileBBox {
                    level,
                    x_min: 0,
                    y_min: 0,
                    x_max: 0,
                    y_max: 0,
                    empty: true,
                }) && b.spec_valid(),
                Err(e) => e is Corrupt,
            },
            r is Ok <==> level <= MAX_ZOOM,
    {
        if level <= MAX_ZOOM {
            Ok(TileBBox { level, x_min: 0, y_min: 0, x_max: 0, y_max: 0, empty: true })
        } else {
            Err(corrupt_error("zoom level out of range"))
        }
    }

    /// The bbox covering the whole grid `2^level x 2^level`.
    pub fn new_full(level: u8) -> (r: Result<TileBBox, Error>)
        ensures
            match r {
                Ok(b) => {
                    &&& b.level == level
                    &&& !b.empty
                    &&& b.x_min == 0 && b.y_min == 0
                    &&& b.x_max as nat == pow2(level as nat) - 1
                    &&& b.y_max as nat == pow2(level as nat) - 1
                    &&& b.spec_valid()
                },
                Err(e) => e is Corrupt,
            },
            r is Ok <==> level <= MAX_ZOOM,
    {
        if level <= MAX_ZOOM {
            proof {
                zoom_side_length_fits_u32(level);
                vstd::arithmetic::power2::lemma_pow2_pos(level as nat);
            }
            let side: u32 = 1u32 << (level as u32);
            Ok(TileBBox { level, x_min: 0, y_min: 0, x_max: side - 1, y_max: side - 1, empty: false })
        } else {
            Err(corrupt_error("zoom level out of range"))
        }
    }

    /// True when no tiles are covered.
    pub fn is_empty(&self) -> (r: bool)
        ensures
            r == self.empty,
    {
        self.empty
    }

    /// Number of tiles covered.
    pub fn count_tiles(&self) -> (r: u64)
        requires
            self.spec_valid(),
        ensures
            r == self.spec_count(),
    {
        if self.empty {
            0
        } else {
            proof {
                zoom_side_length_fits_u32(self.level);
                vstd::arithmetic::mul::lemma_mul_upper_bound(
                    self.x_max - self.x_min + 1,
                    0x8000_0000,
                    self.y_max - self.y_min + 1,
                    0x8000_0000,
                );
            }
            ((self.x_max - self.x_min) as u64 + 1) * ((self.y_max - self.y_min) as u64 + 1)
        }
    }

    /// Checks the structural validity of the bbox.
    pub fn is_valid(&self) -> (r: bool)
        ensures
            r == self.spec_valid(),
    {
        if self.level > MAX_ZOOM {
            return false;
        }
        proof {
            zoom_side_length_fits_u32(self.level);
        }
        if self.empty {
            self.x_min == 0 && self.y_min == 0 && self.x_max == 0 && self.y_max == 0
        } else {
            let side: u32 = 1u32 << (self.level as u32);
            self.x_min <= self.x_max && self.y_min <= self.y_max && self.x_max < side
                && self.y_max < side
        }
    }

    /// The rectangular hull of two non-empty bboxes of the same level.
    pub fn hull(&self, other: &TileBBox) -> (r: TileBBox)
        requires
            self.spec_valid(),
            other.spec_valid(),
            !self.empty,
            !other.empty,
            self.level == other.level,
        ensures
            r.spec_valid(),
            !r.empty,
            r.level == self.level,
            r.x_min == if self.x_min <= other.x_min {
                self.x_min
            } else {
                other.x_min
            },
            r.y_min == if self.y_min <= other.y_min {
                self.y_min
            } else {
                other.y_min
            },
            r.x_max == if self.x_max >= other.x_max {
                self.x_max
            } else {
                other.x_max
            },
            r.y_max == if self.y_max >= other.y_max {
                self.y_max
            } else {
                other.y_max
            },
    {
        TileBBox {
            level: self.level,
            x_min: if self.x_min <= other.x_min {
                self.x_min
            } else {
                other.x_min
            },
            y_min: if self.y_min <= other.y_min {
                self.y_min
            } else {
                other.y_min
            },
            x_max: if self.x_max >= other.x_max {
                self.x_max
            } else {
                other.x_max
            },
            y_max: if self.y_max >= other.y_max {
                self.y_max
            } else {
                other.y_max
            },
            empty: false,
        }
    }

    /// True when `(x, y)` lies inside the bbox.
    pub fn contains(&self, x: u32, y: u32) -> (r: bool)
        ensures
            r == self.spec_contains(x as int, y as int),
    {
        !self.empty && self.x_min <= x && x <= self.x_max && self.y_min <= y && y <= self.y_max
    }

    /// Materializes the coordinates of the bbox in row-major order.
    pub fn iter_coords(&self) -> (r: Vec<TileCoord3>)
        requires
            self.spec_valid(),
            self.spec_count() <= usize::MAX,
        ensures
            r@ == self.spec_coords(),
    {
        let mut out: Vec<TileCoord3> = Vec::new();
        if self.empty {
            proof {
                assert(out@ =~= self.spec_coords());
            }
            return out;
        }
        proof {
            zoom_side_length_fits_u32(self.level);
            vstd::arithmetic::mul::lemma_mul_strictly_positive(
                self.spec_width(),
                self.spec_height(),
            );
        }
        let ghost wd: int = self.spec_width();
        let mut y: u32 = self.y_min;
        while y <= self.y_max
            invariant
                self.spec_valid(),
                !self.empty,
                self.spec_count() <= usize::MAX,
                self.y_min <= y <= self.y_max + 1,
                self.x_max < 0x8000_0000u32,
                self.y_max < 0x8000_0000u32,
                wd == self.spec_width(),
                out@.len() == (y - self.y_min) * wd,
                out@ == self.spec_coords().take(out@.len() as int),
            decreases self.y_max + 1 - y,
        {
            let mut x: u32 = self.x_min;
            while x <= self.x_max
                invariant
                    self.spec_valid(),
                    !self.empty,
                    self.spec_count() <= usize::MAX,
                    self.y_min <= y <= self.y_max,
                    self.x_min <= x <= self.x_max + 1,
                    self.x_max < 0x8000_0000u32,
                    wd == self.spec_width(),
                    out@.len() == (y - self.y_min) * wd + (x - self.x_min),
                    out@ == self.spec_coords().take(out@.len() as int),
                decreases self.x_max + 1 - x,
            {
                proof {
                    let i = out@.len() as int;
                    vstd::arithmetic::mul::lemma_mul_inequality(
                        (y - self.y_min) + 1,
                        self.spec_height(),
                        wd,
                    );
                    vstd::arithmetic::mul::lemma_mul_is_distributive_add_other_way(
                        wd,
                        y - self.y_min,
                        1,
                    );
                    vstd::arithmetic::mul::lemma_mul_is_commutative(wd, self.spec_height());
                    lemma_fundamental_div_mod_converse(i, wd, y - self.y_min, x - self.x_min);
                }
                out.push(TileCoord3 { z: self.level, x, y });
                proof {
                    assert(out@ =~= self.spec_coords().take(out@.len() as int));
                }
                x = x + 1;
            }
            proof {
                vstd::arithmetic::mul::lemma_mul_is_distributive_add_other_way(
                    wd,
                    y - self.y_min,
                    1,
                );
            }
            y = y + 1;
        }
        proof {
            vstd::arithmetic::mul::lemma_mul_is_commutative(
                self.spec_height(),
                self.spec_width(),
            );
            assert(out@ =~= self.spec_coords());
        }
        out
    }
}

/// Row-major iteration yields exactly `width * height` coordinates, each of
/// them valid, inside the bbox, and pairwise distinct; conversely every
/// coordinate of the bbox appears.
pub proof fn lemma_iter_coords_exact(b: TileBBox)
    requires
        b.spec_valid(),
        !b.empty,
    ensures
        b.spec_coords().len() == (b.x_max - b.x_min + 1) * (b.y_max - b.y_min + 1),
        forall|i: int|
            0 <= i < b.spec_coords().len() ==> {
                &&& (#[trigger] b.spec_coords()[i]).spec_valid()
                &&& b.spec_contains(b.spec_coords()[i].x as int, b.spec_coords()[i].y as int)
                &&& b.spec_coords()[i].z == b.level
            },
        forall|i: int, j: int|
            0 <= i < j < b.spec_coords().len() ==> b.spec_coords()[i] != b.spec_coords()[j],
        forall|x: int, y: int|
            b.spec_contains(x, y) ==> exists|i: int|
                0 <= i < b.spec_coords().len() && b.spec_coords()[i] == (TileCoord3 {
                    z: b.level,
                    x: x as u32,
                    y: y as u32,
                }),
{
    let w = b.spec_width();
    let h = b.spec_height();
    let s = b.spec_coords();
    vstd::arithmetic::mul::lemma_mul_strictly_positive(w, h);
    assert forall|i: int| 0 <= i < s.len() implies {
        &&& (#[trigger] s[i]).spec_valid()
        &&& b.spec_contains(s[i].x as int, s[i].y as int)
        &&& s[i].z == b.level
    } by {
        lemma_row_major_bounds(i, w, h);
    }
    assert forall|i: int, j: int| 0 <= i < j < s.len() implies s[i] != s[j] by {
        lemma_row_major_bounds(i, w, h);
        lemma_row_major_bounds(j, w, h);
        if i / w == j / w && i % w == j % w {
            vstd::arithmetic::div_mod::lemma_fundamental_div_mod(i, w);
            vstd::arithmetic::div_mod::lemma_fundamental_div_mod(j, w);
        }
    }
    assert forall|x: int, y: int| b.spec_contains(x, y) implies exists|i: int|
        0 <= i < s.len() && s[i] == (TileCoord3 { z: b.level, x: x as u32, y: y as u32 }) by {
        let i = (y - b.y_min) * w + (x - b.x_min);
        vstd::arithmetic::mul::lemma_mul_inequality(y - b.y_min + 1, h, w);
        vstd::arithmetic::mul::lemma_mul_is_distributive_add_other_way(w, y - b.y_min, 1);
        lemma_fundamental_div_mod_converse(i, w, y - b.y_min, x - b.x_min);
        assert(0 <= i < s.len());
        assert(s[i] == TileCoord3 { z: b.level, x: x as u32, y: y as u32 });
    }
}

/// Division and remainder of a row-major index stay inside the grid.
proof fn lemma_row_major_bounds(i: int, w: int, h: int)
    requires
        0 < w,
        0 < h,
        0 <= i < w * h,
    ensures
        0 <= i % w < w,
        0 <= i / w < h,
{
    vstd::arithmetic::div_mod::lemma_mod_bound(i, w);
    vstd::arithmetic::div_mod::lemma_div_nonincreasing(i, w);
    vstd::arithmetic::div_mod::lemma_div_is_ordered(i, w * h - 1, w);
    if i / w >= h {
        vstd::arithmetic::mul::lemma_mul_inequality(h, i / w, w);
        vstd::arithmetic::div_mod::lemma_fundamental_div_mod(i, w);
        vstd::arithmetic::div_mod::lemma_mod_bound(i, w);
        vstd::arithmetic::mul::lemma_mul_is_commutative(h, w);
        assert(false);
    }
    vstd::arithmetic::div_mod::lemma_div_pos_is_pos(i, w);
}

/// How many zoom levels a pyramid holds (`0 ..= MAX_ZOOM`).
pub const PYRAMID_LEVELS: usize = 32;

/// A per-zoom map of bounding boxes: for each zoom in `0 ..= MAX_ZOOM`
/// either the bbox a source covers there or nothing.
#[derive(Debug, Clone, PartialEq)]
pub struct TileBBoxPyramid {
    levels: Vec<Option<TileBBox>>,
}

impl View for TileBBoxPyramid {
    type V = Seq<Option<TileBBox>>;

    closed spec fn view(&self) -> Seq<Option<TileBBox>> {
        self.levels@
    }
}

impl TileBBoxPyramid {
    /// Every pyramid holds one slot per zoom; a present level carries a
    /// non-empty, valid bbox of that zoom.
    pub open spec fn spec_valid(self) -> bool {
        &&& self@.len() == PYRAMID_LEVELS
        &&& forall|z: int|
            0 <= z < PYRAMID_LEVELS ==> match #[trigger] self@[z] {
                Some(b) => b.spec_valid() && !b.empty && b.level == z,
                None => true,
            }
    }

    /// The bbox at zoom `z`, if the pyramid covers that zoom.
    pub open spec fn spec_level(self, z: int) -> Option<TileBBox> {
        if 0 <= z < self@.len() {
            self@[z]
        } else {
            None
        }
    }

    /// A pyramid covering nothing.
    pub fn new_empty() -> (r: TileBBoxPyramid)
        ensures
            r.spec_valid(),
            forall|z: int| r.spec_level(z) is None,
    {
        let mut levels: Vec<Option<TileBBox>> = Vec::new();
        let mut i: usize = 0;
        while i < PYRAMID_LEVELS
            invariant
                i <= PYRAMID_LEVELS,
                levels@.len() == i,
                forall|z: int| 0 <= z < i ==> levels@[z] is None,
            decreases PYRAMID_LEVELS - i,
        {
            levels.push(None);
            i = i + 1;
        }
        TileBBoxPyramid { levels }
    }

    /// A pyramid covering the full grid at every zoom up to `max_zoom`.
    pub fn new_full(max_zoom: u8) -> (r: Result<TileBBoxPyramid, Error>)
        ensures
            match r {
                Ok(p) => {
                    &&& p.spec_valid()
                    &&& forall|z: int|
                        0 <= z < PYRAMID_LEVELS ==> (p.spec_level(z) is Some <==> z <= max_zoom)
                    &&& forall|z: int|
                        0 <= z <= max_zoom ==> {
                            let b = (#[trigger] p.spec_level(z))->Some_0;
                            &&& b.x_min == 0
                            &&& b.y_min == 0
                            &&& b.x_max as nat == pow2(z as nat) - 1
                            &&& b.y_max as nat == pow2(z as nat) - 1
                        }
                },
                Err(e) => e is Corrupt,
            },
            r is Ok <==> max_zoom <= MAX_ZOOM,
    {
        if max_zoom > MAX_ZOOM {
            return Err(corrupt_error("zoom level out of range"));
        }
        let mut levels: Vec<Option<TileBBox>> = Vec::new();
        let mut i: usize = 0;
        while i < PYRAMID_LEVELS
            invariant
                max_zoom <= MAX_ZOOM,
                i <= PYRAMID_LEVELS,
                levels@.len() == i,
                forall|z: int|
                    0 <= z < i ==> match #[trigger] levels@[z] {
                        Some(b) => {
                            &&& b.spec_valid()
                            &&& !b.empty
                            &&& b.level == z
                            &&& z <= max_zoom
                            &&& b.x_min == 0 && b.y_min == 0
                            &&& b.x_max as nat == pow2(z as nat) - 1
                            &&& b.y_max as nat == pow2(z as nat) - 1
                        },
                        None => z > max_zoom,
                    },
            decreases PYRAMID_LEVELS - i,
        {
            if i <= max_zoom as usize {
                match TileBBox::new_full(i as u8) {
                    Ok(b) => levels.push(Some(b)),
                    Err(_) => {
                        return Err(corrupt_error("zoom level out of range"));
                    },
                }
            } else {
                levels.push(None);
            }
            i = i + 1;
        }
        Ok(TileBBoxPyramid { levels })
    }

    /// The bbox at zoom `z`, cloned out of the pyramid.
    pub fn get_level_bbox(&self, z: u8) -> (r: Option<TileBBox>)
        requires
            self.spec_valid(),
        ensures
            r == self.spec_level(z as int),
    {
        if (z as usize) < PYRAMID_LEVELS {
            self.levels[z as usize]
        } else {
            None
        }
    }

    /// Replaces the bbox at zoom `b.level`; an empty bbox clears the level.
    pub fn set_level_bbox(&mut self, b: TileBBox)
        requires
            old(self).spec_valid(),
            b.spec_valid(),
        ensures
            final(self).spec_valid(),
            final(self)@.len() == old(self)@.len(),
            final(self).spec_level(b.level as int) == if b.empty {
                None::<TileBBox>
            } else {
                Some(b)
            },
            forall|z: int|
                0 <= z < PYRAMID_LEVELS && z != b.level ==> final(self).spec_level(z) == old(
                    self,
                ).spec_level(z),
    {
        if b.empty {
            self.levels.set(b.level as usize, None);
        } else {
            self.levels.set(b.level as usize, Some(b));
        }
    }

    /// The lowest covered zoom, if any zoom is covered.
    pub fn get_zoom_min(&self) -> (r: Option<u8>)
        requires
            self.spec_valid(),
        ensures
            match r {
                Some(z) => self.spec_level(z as int) is Some && forall|w: int|
                    0 <= w < z ==> self.spec_level(w) is None,
                None => forall|z: int| 0 <= z < PYRAMID_LEVELS ==> self.spec_level(z) is None,
            },
    {
        let mut i: usize = 0;
        while i < PYRAMID_LEVELS
            invariant
                self.spec_valid(),
                i <= PYRAMID_LEVELS,
                forall|w: int| 0 <= w < i ==> self.spec_level(w) is None,
            decreases PYRAMID_LEVELS - i,
        {
            if self.levels[i].is_some() {
                return Some(i as u8);
            }
            i = i + 1;
        }
        None
    }

    /// The highest covered zoom, if any zoom is covered.
    pub fn get_zoom_max(&self) -> (r: Option<u8>)
        requires
            self.spec_valid(),
        ensures
            match r {
                Some(z) => self.spec_level(z as int) is Some && forall|w: int|
                    z < w < PYRAMID_LEVELS ==> self.spec_level(w) is None,
                None => forall|z: int| 0 <= z < PYRAMID_LEVELS ==> self.spec_level(z) is None,
            },
    {
        let mut i: usize = PYRAMID_LEVELS;
        while i > 0
            invariant
                self.spec_valid(),
                i <= PYRAMID_LEVELS,
                forall|w: int| i <= w < PYRAMID_LEVELS ==> self.spec_level(w) is None,
            decreases i,
        {
            i = i - 1;
            if self.levels[i].is_some() {
                return Some(i as u8);
            }
        }
        None
    }

    /// A copy of the pyramid with the same levels.
    pub fn duplicate(&self) -> (r: TileBBoxPyramid)
        ensures
            r@ == self@,
    {
        let mut levels: Vec<Option<TileBBox>> = Vec::new();
        let mut i: usize = 0;
        while i < self.levels.len()
            invariant
                i <= self@.len(),
                levels@ == self@.take(i as int),
            decreases self@.len() - i,
        {
            levels.push(self.levels[i]);
            proof {
                assert(levels@ =~= self@.take(i + 1));
            }
            i = i + 1;
        }
        proof {
            assert(levels@ =~= self@);
        }
        TileBBoxPyramid { levels }
    }

    /// Checks the structural validity of the pyramid.
    pub fn is_valid(&self) -> (r: bool)
        ensures
            r == self.spec_valid(),
    {
        if self.levels.len() != PYRAMID_LEVELS {
            return false;
        }
        let mut i: usize = 0;
        while i < PYRAMID_LEVELS
            invariant
                self@.len() == PYRAMID_LEVELS,
                i <= PYRAMID_LEVELS,
                forall|z: int|
                    0 <= z < i ==> match #[trigger] self@[z] {
                        Some(b) => b.spec_valid() && !b.empty && b.level == z,
                        None => true,
                    },
            decreases PYRAMID_LEVELS - i,
        {
            match &self.levels[i] {
                Some(b) => {
                    if b.empty || (b.level as usize) != i || !b.is_valid() {
                        return false;
                    }
                },
                None => {},
            }
            i = i + 1;
        }
        true
    }

    /// The non-empty levels, ascending by zoom.
    pub fn iter_levels(&self) -> (r: Vec<TileBBox>)
        requires
            self.spec_valid(),
        ensures
            forall|i: int|
                0 <= i < r@.len() ==> self.spec_level((#[trigger] r@[i]).level as int) == Some(
                    r@[i],
                ),
            forall|i: int, j: int| 0 <= i < j < r@.len() ==> r@[i].level < r@[j].level,
            forall|z: int|
                0 <= z < PYRAMID_LEVELS && self.spec_level(z) is Some ==> exists|i: int|
                    0 <= i < r@.len() && (#[trigger] r@[i]).level == z,
    {
        let mut out: Vec<TileBBox> = Vec::new();
        let mut i: usize = 0;
        while i < PYRAMID_LEVELS
            invariant
                self.spec_valid(),
                i <= PYRAMID_LEVELS,
                forall|k: int|
                    0 <= k < out@.len() ==> self.spec_level((#[trigger] out@[k]).level as int)
                        == Some(out@[k]) && out@[k].level < i,
                forall|k: int, j: int| 0 <= k < j < out@.len() ==> out@[k].level < out@[j].level,
                forall|z: int|
                    0 <= z < i && self.spec_level(z) is Some ==> exists|k: int|
                        0 <= k < out@.len() && (#[trigger] out@[k]).level == z,
            decreases PYRAMID_LEVELS - i,
        {
            match self.levels[i] {
                Some(b) => {
                    let ghost prev = out@;
                    out.push(b);
                    proof {
                        assert forall|z: int|
                            0 <= z < i + 1 && self.spec_level(z) is Some implies exists|k: int|
                            0 <= k < out@.len() && (#[trigger] out@[k]).level == z by {
                            if z == i {
                                assert(out@[prev.len() as int].level == z);
                            } else {
                                let k0 = choose|k: int|
                                    0 <= k < prev.len() && (#[trigger] prev[k]).level == z;
                                assert(out@[k0].level == z);
                            }
                        }
                    }
                },
                None => {},
            }
            i = i + 1;
        }
        out
    }
}

/// True when zoom `z` of the pyramid covers the coordinate `(x, y)`.
pub open spec fn pyramid_contains(p: TileBBoxPyramid, z: int, x: int, y: int) -> bool {
    match p.spec_level(z) {
        Some(b) => b.spec_contains(x, y),
        None => false,
    }
}

/// What a reader declares about its output: the covered pyramid and the
/// format and compression of every tile it emits.
#[derive(Debug, Clone, PartialEq)]
pub struct TilesReaderParameters {
    pub bbox_pyramid: TileBBoxPyramid,
    pub tile_format: TileFormat,
    pub tile_compression: TileCompression,
}

impl TilesReaderParameters {
    /// Bundles the three declarations.
    pub fn new(
        tile_format: TileFormat,
        tile_compression: TileCompression,
        bbox_pyramid: TileBBoxPyramid,
    ) -> (r: TilesReaderParameters)
        ensures
            r.tile_format == tile_format,
            r.tile_compression == tile_compression,
            r.bbox_pyramid == bbox_pyramid,
    {
        TilesReaderParameters { bbox_pyramid, tile_format, tile_compression }
    }
}

} // verus!
