//! The native block-indexed archive format.
//!
//! On disk an archive is `[header, 62 bytes] [metadata blob] [block
//! payloads and tile indexes] [block directory]`, every multi-byte integer
//! big-endian.  Each block covers a `256 x 256` tile region at one zoom;
//! its tile index maps every slot of the block's stored sub-rectangle to an
//! `(offset delta, length)` pair, length zero being the canonical marker
//! for an absent tile.  The directory lists the blocks sorted by
//! `(z, block row, block column)` without duplicates.
//!
//! The spec functions in this module define byte-exact parsing of the
//! format; the writer is proved to emit bytes that parse back to exactly
//! the tiles the source reader declares, and the reader is proved to
//! answer lookups from those bytes.

use vstd::prelude::*;
use crate::error::{Error, corrupt_error, unsupported_error};
use crate::io::{
    be_to_nat, nat_to_be, lemma_be_to_nat_bound, lemma_uint_bytes_round_trip,
    lemma_uint_to_bytes_len, push_uint_be, uint_from_slice_be, Endian, uint_to_bytes,
    spec_i32_of_uint,
};
use crate::types::{Blob, ByteRange, TileCompression, TileFormat};
use vstd::arithmetic::power2::{pow2, lemma2_to64, lemma2_to64_rest};
use vstd::arithmetic::div_mod::lemma_fundamental_div_mod_converse;

verus! {

/// Size of the fixed archive header in bytes.
pub const HEADER_SIZE: usize = 62;

/// Size of one block-directory entry in bytes.
pub const ENTRY_SIZE: usize = 37;

/// Size of one tile-index entry in bytes.
pub const INDEX_ENTRY_SIZE: usize = 12;

/// The magic bytes every archive starts with.
pub open spec fn spec_magic() -> Seq<u8> {
    seq![118u8, 101u8, 114u8, 115u8, 97u8, 116u8, 105u8, 108u8, 101u8, 115u8, 95u8, 118u8, 48u8, 50u8]
}

/// Appends the magic bytes `versatiles_v02`.
fn push_magic(out: &mut Vec<u8>)
    ensures
        final(out)@ == old(out)@ + spec_magic(),
{
    out.push(118);
    out.push(101);
    out.push(114);
    out.push(115);
    out.push(97);
    out.push(116);
    out.push(105);
    out.push(108);
    out.push(101);
    out.push(115);
    out.push(95);
    out.push(118);
    out.push(48);
    out.push(50);
    proof {
        assert(final(out)@ =~= old(out)@ + spec_magic());
    }
}

/// The fixed archive header.
#[derive(Debug, Clone, Copy, PartialEq, Eq, Structural)]
pub struct VtcHeader {
    pub tile_format: TileFormat,
    pub tile_compression: TileCompression,
    pub zoom_min: u8,
    pub zoom_max: u8,
    pub bbox_west: i32,
    pub bbox_south: i32,
    pub bbox_east: i32,
    pub bbox_north: i32,
    pub meta_range: ByteRange,
    pub block_index_range: ByteRange,
}

/// One block-directory entry: the block key `(z, x, y)`, the stored
/// sub-rectangle in block-local coordinates, and the byte ranges of the
/// block's tile payload and tile index.
#[derive(Debug, Clone, Copy, PartialEq, Eq, Structural)]
pub struct BlockEntry {
    pub z: u8,
    pub x: u32,
    pub y: u32,
    pub y_min: u8,
    pub y_max: u8,
    pub x_min: u8,
    pub x_max: u8,
    pub tiles_range: ByteRange,
    pub index_range: ByteRange,
}

impl BlockEntry {
    /// Width of the stored sub-rectangle in tiles.
    pub open spec fn spec_width(self) -> int {
        self.x_max - self.x_min + 1
    }

    /// Height of the stored sub-rectangle in tiles.
    pub open spec fn spec_height(self) -> int {
        self.y_max - self.y_min + 1
    }

    /// Number of tile-index slots of the block.
    pub open spec fn spec_slots(self) -> int {
        self.spec_width() * self.spec_height()
    }

    /// Structural sanity of one entry against a file of `len` bytes: the
    /// sub-rectangle is a rectangle, both ranges lie inside the file, the
    /// lengths fit their 32-bit wire fields, and the tile index holds
    /// exactly one 12-byte slot per covered tile.
    pub open spec fn spec_sane(self, len: nat) -> bool {
        &&& self.x_min <= self.x_max
        &&& self.y_min <= self.y_max
        &&& self.tiles_range.spec_fits_in(len)
        &&& self.index_range.spec_fits_in(len)
        &&& self.tiles_range.length <= u32::MAX
        &&& self.index_range.length <= u32::MAX
        &&& self.index_range.length == INDEX_ENTRY_SIZE * self.spec_slots()
    }
}

/// The unsigned 32-bit wire value of a signed 32-bit integer, two's
/// complement.
pub open spec fn spec_u32_of_i32(v: i32) -> nat {
    if v >= 0 {
        v as nat
    } else {
        (v + 0x1_0000_0000) as nat
    }
}

/// Appends the four-byte big-endian two's complement encoding of `v`.
fn push_i32_be(out: &mut Vec<u8>, v: i32)
    ensures
        final(out)@ == old(out)@ + nat_to_be(spec_u32_of_i32(v), 4),
{
    if v >= 0 {
        push_uint_be(out, v as u64, 4);
    } else {
        push_uint_be(out, ((v as i64) + 0x1_0000_0000i64) as u64, 4);
    }
}

/// The 62 header bytes.
pub open spec fn spec_header_bytes(h: VtcHeader) -> Seq<u8> {
    spec_magic() + seq![h.tile_format.spec_to_u8(), h.tile_compression.spec_to_u8(), h.zoom_min, h.zoom_max]
        + nat_to_be(spec_u32_of_i32(h.bbox_west), 4) + nat_to_be(spec_u32_of_i32(h.bbox_south), 4)
        + nat_to_be(spec_u32_of_i32(h.bbox_east), 4) + nat_to_be(spec_u32_of_i32(h.bbox_north), 4)
        + nat_to_be(h.meta_range.offset as nat, 8) + nat_to_be(h.meta_range.length as nat, 8)
        + nat_to_be(h.block_index_range.offset as nat, 8) + nat_to_be(
        h.block_index_range.length as nat,
        4,
    )
}

/// Serializes the header; the directory length must fit its 32-bit field.
pub fn serialize_header(h: &VtcHeader) -> (r: Vec<u8>)
    requires
        h.block_index_range.length <= u32::MAX,
    ensures
        r@ == spec_header_bytes(*h),
        r@.len() == HEADER_SIZE,
{
    let mut out: Vec<u8> = Vec::new();
    push_magic(&mut out);
    out.push(h.tile_format.to_u8());
    out.push(h.tile_compression.to_u8());
    out.push(h.zoom_min);
    out.push(h.zoom_max);
    push_i32_be(&mut out, h.bbox_west);
    push_i32_be(&mut out, h.bbox_south);
    push_i32_be(&mut out, h.bbox_east);
    push_i32_be(&mut out, h.bbox_north);
    push_uint_be(&mut out, h.meta_range.offset, 8);
    push_uint_be(&mut out, h.meta_range.length, 8);
    push_uint_be(&mut out, h.block_index_range.offset, 8);
    push_uint_be(&mut out, h.block_index_range.length, 4);
    proof {
        lemma_nat_to_be_len_all();
        assert(out@ =~= spec_header_bytes(*h));
    }
    out
}

/// Lengths of the fixed-width encodings used by the format.
proof fn lemma_nat_to_be_len_all()
    ensures
        forall|v: nat| (#[trigger] nat_to_be(v, 1)).len() == 1,
        forall|v: nat| (#[trigger] nat_to_be(v, 4)).len() == 4,
        forall|v: nat| (#[trigger] nat_to_be(v, 8)).len() == 8,
{
    assert forall|v: nat| (#[trigger] nat_to_be(v, 1)).len() == 1 by {
        lemma_uint_to_bytes_len(Endian::Big, v, 1);
    }
    assert forall|v: nat| (#[trigger] nat_to_be(v, 4)).len() == 4 by {
        lemma_uint_to_bytes_len(Endian::Big, v, 4);
    }
    assert forall|v: nat| (#[trigger] nat_to_be(v, 8)).len() == 8 by {
        lemma_uint_to_bytes_len(Endian::Big, v, 8);
    }
}

/// Parses the header out of the first 62 bytes of a file, if they are
/// present and carry the magic and known enum bytes.
pub open spec fn spec_parse_header(b: Seq<u8>) -> Option<VtcHeader> {
    if b.len() < HEADER_SIZE {
        None
    } else if b.subrange(0, 14) != spec_magic() {
        None
    } else {
        match (TileFormat::spec_from_u8(b[14]), TileCompression::spec_from_u8(b[15])) {
            (Some(f), Some(c)) => Some(
                VtcHeader {
                    tile_format: f,
                    tile_compression: c,
                    zoom_min: b[16],
                    zoom_max: b[17],
                    bbox_west: spec_i32_of_uint(be_to_nat(b.subrange(18, 22))),
                    bbox_south: spec_i32_of_uint(be_to_nat(b.subrange(22, 26))),
                    bbox_east: spec_i32_of_uint(be_to_nat(b.subrange(26, 30))),
                    bbox_north: spec_i32_of_uint(be_to_nat(b.subrange(30, 34))),
                    meta_range: ByteRange {
                        offset: be_to_nat(b.subrange(34, 42)) as u64,
                        length: be_to_nat(b.subrange(42, 50)) as u64,
                    },
                    block_index_range: ByteRange {
                        offset: be_to_nat(b.subrange(50, 58)) as u64,
                        length: be_to_nat(b.subrange(58, 62)) as u64,
                    },
                },
            ),
            _ => None,
        }
    }
}

/// Two's complement round trip on 32 bits.
pub proof fn lemma_i32_round_trip(v: i32)
    ensures
        spec_i32_of_uint(spec_u32_of_i32(v)) == v,
        spec_u32_of_i32(v) < pow2(32),
{
    lemma2_to64();
}

/// A header followed by anything parses back to itself.
pub proof fn lemma_header_round_trip(h: VtcHeader, rest: Seq<u8>)
    requires
        h.block_index_range.length <= u32::MAX,
    ensures
        spec_parse_header(spec_header_bytes(h) + rest) == Some(h),
{
    let b = spec_header_bytes(h) + rest;
    lemma_nat_to_be_len_all();
    lemma2_to64();
    assert(b.subrange(0, 14) =~= spec_magic());
    assert(b[14] == h.tile_format.spec_to_u8());
    assert(b[15] == h.tile_compression.spec_to_u8());
    assert(b[16] == h.zoom_min);
    assert(b[17] == h.zoom_max);
    lemma_i32_round_trip(h.bbox_west);
    lemma_i32_round_trip(h.bbox_south);
    lemma_i32_round_trip(h.bbox_east);
    lemma_i32_round_trip(h.bbox_north);
    assert(b.subrange(18, 22) =~= nat_to_be(spec_u32_of_i32(h.bbox_west), 4));
    assert(b.subrange(22, 26) =~= nat_to_be(spec_u32_of_i32(h.bbox_south), 4));
    assert(b.subrange(26, 30) =~= nat_to_be(spec_u32_of_i32(h.bbox_east), 4));
    assert(b.subrange(30, 34) =~= nat_to_be(spec_u32_of_i32(h.bbox_north), 4));
    assert(b.subrange(34, 42) =~= nat_to_be(h.meta_range.offset as nat, 8));
    assert(b.subrange(42, 50) =~= nat_to_be(h.meta_range.length as nat, 8));
    assert(b.subrange(50, 58) =~= nat_to_be(h.block_index_range.offset as nat, 8));
    assert(b.subrange(58, 62) =~= nat_to_be(h.block_index_range.length as nat, 4));
    lemma_uint_bytes_round_trip(Endian::Big, spec_u32_of_i32(h.bbox_west), 4);
    lemma_uint_bytes_round_trip(Endian::Big, spec_u32_of_i32(h.bbox_south), 4);
    lemma_uint_bytes_round_trip(Endian::Big, spec_u32_of_i32(h.bbox_east), 4);
    lemma_uint_bytes_round_trip(Endian::Big, spec_u32_of_i32(h.bbox_north), 4);
    lemma2_to64_rest();
    lemma_uint_bytes_round_trip(Endian::Big, h.meta_range.offset as nat, 8);
    lemma_uint_bytes_round_trip(Endian::Big, h.meta_range.length as nat, 8);
    lemma_uint_bytes_round_trip(Endian::Big, h.block_index_range.offset as nat, 8);
    lemma_uint_bytes_round_trip(Endian::Big, h.block_index_range.length as nat, 4);
    crate::types::lemma_tile_format_byte_round_trip(h.tile_format);
    crate::types::lemma_tile_compression_byte_round_trip(h.tile_compression);
}

/// Parses the header of `data`, validating magic and enum bytes.
pub fn parse_header(data: &Vec<u8>) -> (r: Result<VtcHeader, Error>)
    ensures
        match r {
            Ok(h) => spec_parse_header(data@) == Some(h),
            Err(e) => e is Corrupt && spec_parse_header(data@) is None,
        },
{
    if data.len() < HEADER_SIZE {
        return Err(corrupt_error("file is shorter than the header"));
    }
    let magic = serialize_magic_probe();
    let mut i: usize = 0;
    while i < 14
        invariant
            i <= 14,
            data@.len() >= HEADER_SIZE,
            magic@ == spec_magic(),
            forall|k: int| 0 <= k < i ==> data@[k] == spec_magic()[k],
        decreases 14 - i,
    {
        if data[i] != magic[i] {
            proof {
                assert(data@.subrange(0, 14) != spec_magic());
            }
            return Err(corrupt_error("bad magic bytes"));
        }
        i = i + 1;
    }
    proof {
        assert(data@.subrange(0, 14) =~= spec_magic());
    }
    let tile_format = match TileFormat::from_u8(data[14]) {
        Ok(f) => f,
        Err(e) => {
            return Err(e);
        },
    };
    let tile_compression = match TileCompression::from_u8(data[15]) {
        Ok(c) => c,
        Err(e) => {
            return Err(e);
        },
    };
    let west = read_i32_at(data, 18);
    let south = read_i32_at(data, 22);
    let east = read_i32_at(data, 26);
    let north = read_i32_at(data, 30);
    proof {
        lemma_be_to_nat_bound(data@.subrange(34, 42));
        lemma_be_to_nat_bound(data@.subrange(42, 50));
        lemma_be_to_nat_bound(data@.subrange(50, 58));
        lemma_be_to_nat_bound(data@.subrange(58, 62));
        lemma2_to64();
        lemma2_to64_rest();
    }
    let h = VtcHeader {
        tile_format,
        tile_compression,
        zoom_min: data[16],
        zoom_max: data[17],
        bbox_west: west,
        bbox_south: south,
        bbox_east: east,
        bbox_north: north,
        meta_range: ByteRange {
            offset: uint_from_slice_be(data, 34, 8),
            length: uint_from_slice_be(data, 42, 8),
        },
        block_index_range: ByteRange {
            offset: uint_from_slice_be(data, 50, 8),
            length: uint_from_slice_be(data, 58, 4),
        },
    };
    Ok(h)
}

/// The magic bytes as an owned vector, for comparison while parsing.
fn serialize_magic_probe() -> (r: Vec<u8>)
    ensures
        r@ == spec_magic(),
{
    let mut out: Vec<u8> = Vec::new();
    push_magic(&mut out);
    out
}

/// Reads the big-endian two's complement 32-bit integer at `data[at ..]`.
fn read_i32_at(data: &Vec<u8>, at: usize) -> (r: i32)
    requires
        at + 4 <= data@.len(),
    ensures
        r == spec_i32_of_uint(be_to_nat(data@.subrange(at as int, at + 4))),
{
    let v = uint_from_slice_be(data, at, 4);
    proof {
        lemma_be_to_nat_bound(data@.subrange(at as int, at + 4));
        lemma2_to64();
    }
    if v < 0x8000_0000 {
        v as i32
    } else {
        ((v as i64) - 0x1_0000_0000i64) as i32
    }
}

/// The 37 bytes of one directory entry.
pub open spec fn spec_entry_bytes(e: BlockEntry) -> Seq<u8> {
    seq![e.z] + nat_to_be(e.x as nat, 4) + nat_to_be(e.y as nat, 4) + seq![e.y_min, e.y_max, e.x_min, e.x_max]
        + nat_to_be(e.tiles_range.offset as nat, 8) + nat_to_be(e.tiles_range.length as nat, 4)
        + nat_to_be(e.index_range.offset as nat, 8) + nat_to_be(e.index_range.length as nat, 4)
}

/// The entry a 37-byte chunk denotes; every chunk denotes one.
pub open spec fn spec_entry_of(c: Seq<u8>) -> BlockEntry {
    BlockEntry {
        z: c[0],
        x: be_to_nat(c.subrange(1, 5)) as u32,
        y: be_to_nat(c.subrange(5, 9)) as u32,
        y_min: c[9],
        y_max: c[10],
        x_min: c[11],
        x_max: c[12],
        tiles_range: ByteRange {
            offset: be_to_nat(c.subrange(13, 21)) as u64,
            length: be_to_nat(c.subrange(21, 25)) as u64,
        },
        index_range: ByteRange {
            offset: be_to_nat(c.subrange(25, 33)) as u64,
            length: be_to_nat(c.subrange(33, 37)) as u64,
        },
    }
}

/// Appends one directory entry; the range lengths must fit their 32-bit
/// wire fields.
pub fn push_entry(out: &mut Vec<u8>, e: &BlockEntry)
    requires
        e.tiles_range.length <= u32::MAX,
        e.index_range.length <= u32::MAX,
    ensures
        final(out)@ == old(out)@ + spec_entry_bytes(*e),
{
    out.push(e.z);
    push_uint_be(out, e.x as u64, 4);
    push_uint_be(out, e.y as u64, 4);
    out.push(e.y_min);
    out.push(e.y_max);
    out.push(e.x_min);
    out.push(e.x_max);
    push_uint_be(out, e.tiles_range.offset, 8);
    push_uint_be(out, e.tiles_range.length, 4);
    push_uint_be(out, e.index_range.offset, 8);
    push_uint_be(out, e.index_range.length, 4);
    proof {
        lemma_nat_to_be_len_all();
        assert(final(out)@ =~= old(out)@ + spec_entry_bytes(*e));
    }
}

/// An entry chunk parses back to the entry it was written from.
pub proof fn lemma_entry_round_trip(e: BlockEntry, c: Seq<u8>)
    requires
        e.tiles_range.length <= u32::MAX,
        e.index_range.length <= u32::MAX,
        c == spec_entry_bytes(e),
    ensures
        spec_entry_of(c) == e,
        c.len() == ENTRY_SIZE,
{
    lemma_nat_to_be_len_all();
    lemma2_to64();
    lemma2_to64_rest();
    assert(c.subrange(1, 5) =~= nat_to_be(e.x as nat, 4));
    assert(c.subrange(5, 9) =~= nat_to_be(e.y as nat, 4));
    assert(c.subrange(13, 21) =~= nat_to_be(e.tiles_range.offset as nat, 8));
    assert(c.subrange(21, 25) =~= nat_to_be(e.tiles_range.length as nat, 4));
    assert(c.subrange(25, 33) =~= nat_to_be(e.index_range.offset as nat, 8));
    assert(c.subrange(33, 37) =~= nat_to_be(e.index_range.length as nat, 4));
    lemma_uint_bytes_round_trip(Endian::Big, e.x as nat, 4);
    lemma_uint_bytes_round_trip(Endian::Big, e.y as nat, 4);
    lemma_uint_bytes_round_trip(Endian::Big, e.tiles_range.offset as nat, 8);
    lemma_uint_bytes_round_trip(Endian::Big, e.tiles_range.length as nat, 4);
    lemma_uint_bytes_round_trip(Endian::Big, e.index_range.offset as nat, 8);
    lemma_uint_bytes_round_trip(Endian::Big, e.index_range.length as nat, 4);
}

/// Parses a directory blob: a whole number of 37-byte entries.
pub open spec fn spec_parse_dir(b: Seq<u8>) -> Option<Seq<BlockEntry>>
    decreases b.len(),
{
    if b.len() == 0 {
        Some(Seq::empty())
    } else if b.len() < ENTRY_SIZE {
        None
    } else {
        match spec_parse_dir(b.skip(ENTRY_SIZE as int)) {
            Some(rest) => Some(seq![spec_entry_of(b.take(ENTRY_SIZE as int))] + rest),
            None => None,
        }
    }
}

/// Shape of directory parsing: it succeeds exactly on multiples of 37
/// bytes, yields one entry per chunk, and reads each entry from its chunk.
pub proof fn lemma_parse_dir_shape(b: Seq<u8>)
    ensures
        spec_parse_dir(b) is Some <==> (b.len() as int) % (ENTRY_SIZE as int) == 0,
        spec_parse_dir(b) is Some ==> {
            let es = spec_parse_dir(b)->Some_0;
            &&& es.len() as int == (b.len() as int) / (ENTRY_SIZE as int)
            &&& forall|j: int|
                0 <= j < es.len() ==> es[j] == spec_entry_of(
                    #[trigger] b.subrange(j * ENTRY_SIZE, j * ENTRY_SIZE + ENTRY_SIZE),
                )
        },
    decreases b.len(),
{
    let sz = ENTRY_SIZE as int;
    if b.len() == 0 {
    } else if b.len() < sz {
        assert((b.len() as int) % sz != 0) by {
            vstd::arithmetic::div_mod::lemma_small_mod(b.len(), sz as nat);
        }
    } else {
        lemma_parse_dir_shape(b.skip(sz));
        assert((b.len() as int) % sz == (b.len() - sz) % sz) by {
            vstd::arithmetic::div_mod::lemma_mod_sub_multiples_vanish(b.len() as int, sz);
        }
        if spec_parse_dir(b) is Some {
            let es = spec_parse_dir(b)->Some_0;
            let rest = spec_parse_dir(b.skip(sz))->Some_0;
            assert((b.len() - sz) / sz == (b.len() as int) / sz - 1) by {
                vstd::arithmetic::div_mod::lemma_hoist_over_denominator(
                    b.len() - sz,
                    1,
                    sz as nat,
                );
            }
            assert forall|j: int| 0 <= j < es.len() implies es[j] == spec_entry_of(
                #[trigger] b.subrange(j * sz, j * sz + sz),
            ) by {
                if j == 0 {
                    assert(b.subrange(0, sz) =~= b.take(sz));
                } else {
                    assert(rest[j - 1] == spec_entry_of(
                        b.skip(sz).subrange((j - 1) * sz, (j - 1) * sz + sz),
                    ));
                    assert(b.skip(sz).subrange((j - 1) * sz, (j - 1) * sz + sz) =~= b.subrange(
                        j * sz,
                        j * sz + sz,
                    ));
                }
            }
        }
    }
}

/// Reads the directory entry stored at `data[at ..]`.
pub fn parse_entry_at(data: &Vec<u8>, at: usize) -> (e: BlockEntry)
    requires
        at + ENTRY_SIZE <= data@.len(),
    ensures
        e == spec_entry_of(data@.subrange(at as int, at + ENTRY_SIZE)),
{
    let total = data.len();
    let ghost c = data@.subrange(at as int, at + ENTRY_SIZE);
    proof {
        assert(at + ENTRY_SIZE <= total);
        lemma_be_to_nat_bound(data@.subrange(at + 1, at + 5));
        lemma_be_to_nat_bound(data@.subrange(at + 5, at + 9));
        lemma_be_to_nat_bound(data@.subrange(at + 13, at + 21));
        lemma_be_to_nat_bound(data@.subrange(at + 21, at + 25));
        lemma_be_to_nat_bound(data@.subrange(at + 25, at + 33));
        lemma_be_to_nat_bound(data@.subrange(at + 33, at + 37));
        lemma2_to64();
        lemma2_to64_rest();
        assert(c.subrange(1, 5) =~= data@.subrange(at + 1, at + 5));
        assert(c.subrange(5, 9) =~= data@.subrange(at + 5, at + 9));
        assert(c.subrange(13, 21) =~= data@.subrange(at + 13, at + 21));
        assert(c.subrange(21, 25) =~= data@.subrange(at + 21, at + 25));
        assert(c.subrange(25, 33) =~= data@.subrange(at + 25, at + 33));
        assert(c.subrange(33, 37) =~= data@.subrange(at + 33, at + 37));
    }
    BlockEntry {
        z: data[at],
        x: uint_from_slice_be(data, at + 1, 4) as u32,
        y: uint_from_slice_be(data, at + 5, 4) as u32,
        y_min: data[at + 9],
        y_max: data[at + 10],
        x_min: data[at + 11],
        x_max: data[at + 12],
        tiles_range: ByteRange {
            offset: uint_from_slice_be(data, at + 13, 8),
            length: uint_from_slice_be(data, at + 21, 4),
        },
        index_range: ByteRange {
            offset: uint_from_slice_be(data, at + 25, 8),
            length: uint_from_slice_be(data, at + 33, 4),
        },
    }
}

/// The tile-index slot `i` of entry `e` in file `b`: the offset delta
/// into the block's payload and the stored length.
pub open spec fn spec_index_slot(b: Seq<u8>, e: BlockEntry, i: int) -> (nat, nat) {
    let at = e.index_range.offset + i * INDEX_ENTRY_SIZE;
    (be_to_nat(b.subrange(at, at + 8)), be_to_nat(b.subrange(at + 8, at + 12)))
}


/// Strict ordering of directory keys: by zoom, then block row, then block
/// column.
pub open spec fn spec_key_lt(a: BlockEntry, b: BlockEntry) -> bool {
    ||| a.z < b.z
    ||| (a.z == b.z && a.y < b.y)
    ||| (a.z == b.z && a.y == b.y && a.x < b.x)
}

/// The directory is strictly sorted (hence duplicate-free).
pub open spec fn spec_entries_sorted(es: Seq<BlockEntry>) -> bool {
    forall|i: int, j: int| 0 <= i < j < es.len() ==> spec_key_lt(#[trigger] es[i], #[trigger] es[j])
}

/// The directory bytes of a parsed header within file `b`.
pub open spec fn spec_dir_bytes(b: Seq<u8>, h: VtcHeader) -> Seq<u8> {
    b.subrange(
        h.block_index_range.offset as int,
        h.block_index_range.offset + h.block_index_range.length,
    )
}

/// The parsed directory of file `b`: present when the header parses, both
/// top-level ranges lie inside the file, and the directory splits into
/// whole entries.
pub open spec fn spec_archive_entries(b: Seq<u8>) -> Option<Seq<BlockEntry>> {
    match spec_parse_header(b) {
        None => None,
        Some(h) => {
            if h.meta_range.spec_fits_in(b.len()) && h.block_index_range.spec_fits_in(b.len()) {
                spec_parse_dir(spec_dir_bytes(b, h))
            } else {
                None
            }
        },
    }
}

/// Sum of the stored lengths of the first `n` tile-index slots of `e`.
pub open spec fn spec_slot_lens_sum(b: Seq<u8>, e: BlockEntry, n: nat) -> nat
    decreases n,
{
    if n == 0 {
        0
    } else {
        spec_slot_lens_sum(b, e, (n - 1) as nat) + spec_index_slot(b, e, n as int - 1).1
    }
}

/// The block's global column range starts at `256 x`; an entry is within
/// the zoom grid when its farthest tile still is.
pub open spec fn spec_entry_in_grid(e: BlockEntry) -> bool {
    &&& e.z <= crate::types::MAX_ZOOM
    &&& 256 * e.x + e.x_max < pow2(e.z as nat)
    &&& 256 * e.y + e.y_max < pow2(e.z as nat)
}

/// Every tile-index slot of `e` stays inside the block's payload range.
pub open spec fn spec_entry_slots_fit(b: Seq<u8>, e: BlockEntry) -> bool {
    forall|i: int|
        0 <= i < e.spec_slots() ==> (#[trigger] spec_index_slot(b, e, i)).0 + spec_index_slot(
            b,
            e,
            i,
        ).1 <= e.tiles_range.length
}

/// The structural invariant of a whole archive: the header parses, the
/// directory parses and is strictly sorted, and every entry is sane, lies
/// within its zoom grid, and keeps every index slot inside its payload.
pub open spec fn spec_archive_ok(b: Seq<u8>) -> bool {
    &&& spec_archive_entries(b) is Some
    &&& {
        let es = spec_archive_entries(b)->Some_0;
        &&& spec_entries_sorted(es)
        &&& forall|k: int|
            0 <= k < es.len() ==> {
                &&& (#[trigger] es[k]).spec_sane(b.len())
                &&& spec_entry_in_grid(es[k])
                &&& spec_entry_slots_fit(b, es[k])
            }
    }
}

/// Every block's payload range is exactly filled: the stored lengths of
/// its tile-index slots sum to the length of its tile-payload range.
pub open spec fn spec_archive_tight(b: Seq<u8>) -> bool {
    spec_archive_entries(b) is Some ==> {
        let es = spec_archive_entries(b)->Some_0;
        forall|k: int|
            0 <= k < es.len() ==> spec_slot_lens_sum(
                b,
                #[trigger] es[k],
                (es[k].spec_slots()) as nat,
            ) == es[k].tiles_range.length
    }
}

/// The first directory entry with block key `(z, bx, by)`, if any.
pub open spec fn spec_find_entry(es: Seq<BlockEntry>, z: int, bx: int, by: int) -> Option<
    BlockEntry,
>
    decreases es.len(),
{
    if es.len() == 0 {
        None
    } else if es[0].z == z && es[0].x == bx && es[0].y == by {
        Some(es[0])
    } else {
        spec_find_entry(es.skip(1), z, bx, by)
    }
}

/// What `spec_find_entry` returns: a member with the key, or a promise
/// that no member has it.
pub proof fn lemma_find_entry_characterize(es: Seq<BlockEntry>, z: int, bx: int, by: int)
    ensures
        match spec_find_entry(es, z, bx, by) {
            Some(e) => exists|k: int|
                0 <= k < es.len() && es[k] == e && e.z == z && e.x == bx && e.y == by,
            None => forall|k: int|
                0 <= k < es.len() ==> !((#[trigger] es[k]).z == z && es[k].x == bx && es[k].y
                    == by),
        },
    decreases es.len(),
{
    if es.len() > 0 {
        if es[0].z == z && es[0].x == bx && es[0].y == by {
        } else {
            lemma_find_entry_characterize(es.skip(1), z, bx, by);
            match spec_find_entry(es.skip(1), z, bx, by) {
                Some(e) => {
                    let k0 = choose|k: int|
                        0 <= k < es.skip(1).len() && es.skip(1)[k] == e && e.z == z && e.x == bx
                            && e.y == by;
                    assert(es[k0 + 1] == e);
                },
                None => {
                    assert forall|k: int|
                        0 <= k < es.len() implies !((#[trigger] es[k]).z == z && es[k].x == bx
                        && es[k].y == by) by {
                        if k > 0 {
                            assert(es.skip(1)[k - 1] == es[k]);
                        }
                    }
                },
            }
        }
    }
}

/// The tile stored at `(z, x, y)` in archive `b`, if the archive holds its
/// block, the block's sub-rectangle covers the coordinate, and the slot is
/// not the absent marker.
pub open spec fn spec_archive_tile(b: Seq<u8>, z: int, x: int, y: int) -> Option<Seq<u8>> {
    match spec_archive_entries(b) {
        None => None,
        Some(es) => match spec_find_entry(es, z, x / 256, y / 256) {
            None => None,
            Some(e) => {
                let lx = x % 256;
                let ly = y % 256;
                if lx < e.x_min || lx > e.x_max || ly < e.y_min || ly > e.y_max {
                    None
                } else {
                    let i = (ly - e.y_min) * e.spec_width() + (lx - e.x_min);
                    let slot = spec_index_slot(b, e, i);
                    if slot.1 == 0 {
                        None
                    } else {
                        Some(
                            b.subrange(
                                e.tiles_range.offset + slot.0,
                                e.tiles_range.offset + slot.0 + slot.1,
                            ),
                        )
                    }
                }
            },
        },
    }
}

/// The metadata bytes of archive `b`.
pub open spec fn spec_archive_meta(b: Seq<u8>) -> Seq<u8> {
    match spec_parse_header(b) {
        None => Seq::empty(),
        Some(h) => b.subrange(h.meta_range.offset as int, h.meta_range.offset + h.meta_range.length),
    }
}

/// Copies `data[start .. start + n]` into an owned vector.
fn copy_range(data: &Vec<u8>, start: usize, n: usize) -> (r: Vec<u8>)
    requires
        start + n <= data@.len(),
    ensures
        r@ == data@.subrange(start as int, start + n),
{
    let total = data.len();
    proof {
        assert(start + n <= total);
    }
    let mut out: Vec<u8> = Vec::new();
    let mut i: usize = 0;
    while i < n
        invariant
            start + n <= data@.len(),
            data@.len() == total,
            i <= n,
            out@ == data@.subrange(start as int, start + i),
        decreases n - i,
    {
        out.push(data[start + i]);
        proof {
            assert(out@ =~= data@.subrange(start as int, start + i + 1));
        }
        i = i + 1;
    }
    out
}

proof fn lemma_sorted_pair(es: Seq<BlockEntry>, i: int, j: int)
    requires
        forall|k: int| 0 <= k < es.len() - 1 ==> spec_key_lt(#[trigger] es[k], es[k + 1]),
        0 <= i < j < es.len(),
    ensures
        spec_key_lt(es[i], es[j]),
    decreases j - i,
{
    if j == i + 1 {
        assert(spec_key_lt(es[i], es[i + 1]));
    } else {
        lemma_sorted_pair(es, i, j - 1);
        assert(spec_key_lt(es[j - 1], es[j - 1 + 1]));
    }
}

/// A directory whose every adjacent pair is ordered is sorted.
pub proof fn lemma_sorted_from_adjacent(es: Seq<BlockEntry>)
    requires
        forall|k: int| 0 <= k < es.len() - 1 ==> spec_key_lt(#[trigger] es[k], es[k + 1]),
    ensures
        spec_entries_sorted(es),
{
    assert forall|i: int, j: int| 0 <= i < j < es.len() implies spec_key_lt(
        #[trigger] es[i],
        #[trigger] es[j],
    ) by {
        lemma_sorted_pair(es, i, j);
    }
}

/// A coordinate inside the entry's sub-rectangle addresses a slot inside
/// the tile index.
pub proof fn lemma_slot_index_bounds(e: BlockEntry, lx: int, ly: int)
    requires
        e.x_min <= e.x_max,
        e.y_min <= e.y_max,
        e.x_min <= lx <= e.x_max,
        e.y_min <= ly <= e.y_max,
    ensures
        0 <= (ly - e.y_min) * e.spec_width() + (lx - e.x_min) < e.spec_slots(),
{
    let w = e.spec_width();
    let h = e.spec_height();
    vstd::arithmetic::mul::lemma_mul_nonnegative(ly - e.y_min, w);
    vstd::arithmetic::mul::lemma_mul_inequality(ly - e.y_min + 1, h, w);
    vstd::arithmetic::mul::lemma_mul_is_distributive_add_other_way(w, ly - e.y_min, 1);
    vstd::arithmetic::mul::lemma_mul_is_commutative(w, h);
}


/// Some directory entry lives at zoom `z`.
pub open spec fn spec_dir_has_zoom(es: Seq<BlockEntry>, z: int) -> bool {
    exists|j: int| 0 <= j < es.len() && (#[trigger] es[j]).z == z
}

/// The pyramid a reader reports is the per-zoom hull of the directory's
/// blocks: a zoom is covered exactly when a block lives there, every
/// block's rectangle lies inside its zoom's bbox, and each bbox edge is
/// attained by some block.
pub open spec fn spec_pyramid_matches_dir(
    p: crate::types::TileBBoxPyramid,
    es: Seq<BlockEntry>,
) -> bool {
    &&& forall|z: int|
        0 <= z < crate::types::PYRAMID_LEVELS ==> ((#[trigger] p.spec_level(z)) is Some
            <==> spec_dir_has_zoom(es, z))
    &&& forall|j: int|
        0 <= j < es.len() ==> {
            let e = #[trigger] es[j];
            match p.spec_level(e.z as int) {
                Some(b) => {
                    &&& b.x_min <= 256 * e.x + e.x_min
                    &&& 256 * e.x + e.x_max <= b.x_max
                    &&& b.y_min <= 256 * e.y + e.y_min
                    &&& 256 * e.y + e.y_max <= b.y_max
                },
                None => false,
            }
        }
    &&& forall|z: int|
        0 <= z < crate::types::PYRAMID_LEVELS && (#[trigger] p.spec_level(z)) is Some ==> {
            let b = p.spec_level(z)->Some_0;
            &&& (exists|j: int|
                0 <= j < es.len() && (#[trigger] es[j]).z == z && 256 * es[j].x + es[j].x_min
                    == b.x_min)
            &&& (exists|j: int|
                0 <= j < es.len() && (#[trigger] es[j]).z == z && 256 * es[j].x + es[j].x_max
                    == b.x_max)
            &&& (exists|j: int|
                0 <= j < es.len() && (#[trigger] es[j]).z == z && 256 * es[j].y + es[j].y_min
                    == b.y_min)
            &&& (exists|j: int|
                0 <= j < es.len() && (#[trigger] es[j]).z == z && 256 * es[j].y + es[j].y_max
                    == b.y_max)
        }
}

/// A reader over an archive with an empty directory covers no zoom at
/// all: the empty archive reads back with an empty pyramid.
pub proof fn lemma_empty_dir_empty_pyramid(p: crate::types::TileBBoxPyramid, es: Seq<BlockEntry>)
    requires
        spec_pyramid_matches_dir(p, es),
        es.len() == 0,
    ensures
        forall|z: int| 0 <= z < crate::types::PYRAMID_LEVELS ==> #[trigger] p.spec_level(z) is None,
{
    assert forall|z: int|
        0 <= z < crate::types::PYRAMID_LEVELS implies #[trigger] p.spec_level(z) is None by {
        if p.spec_level(z) is Some {
            assert(spec_dir_has_zoom(es, z));
            let j = choose|j: int| 0 <= j < es.len() && (#[trigger] es[j]).z == z;
        }
    }
}

/// Folding one more block into the pyramid keeps it the hull of the
/// directory seen so far.
#[verifier::spinoff_prover]
#[verifier::rlimit(100)]
proof fn lemma_pyramid_include_cell(
    p_old: crate::types::TileBBoxPyramid,
    p_new: crate::types::TileBBoxPyramid,
    es: Seq<BlockEntry>,
    e: BlockEntry,
    cell: crate::types::TileBBox,
)
    requires
        spec_pyramid_matches_dir(p_old, es),
        p_old@.len() == crate::types::PYRAMID_LEVELS,
        p_new@.len() == crate::types::PYRAMID_LEVELS,
        e.z < crate::types::PYRAMID_LEVELS,
        cell.level == e.z,
        !cell.empty,
        cell.x_min == 256 * e.x + e.x_min,
        cell.x_max == 256 * e.x + e.x_max,
        cell.y_min == 256 * e.y + e.y_min,
        cell.y_max == 256 * e.y + e.y_max,
        forall|z: int|
            0 <= z < crate::types::PYRAMID_LEVELS && z != e.z ==> #[trigger] p_new.spec_level(z)
                == p_old.spec_level(z),
        match p_old.spec_level(e.z as int) {
            None => p_new.spec_level(e.z as int) == Some(cell),
            Some(b0) => {
                let b = p_new.spec_level(e.z as int)->Some_0;
                &&& p_new.spec_level(e.z as int) is Some
                &&& b.x_min == if b0.x_min <= cell.x_min {
                    b0.x_min
                } else {
                    cell.x_min
                }
                &&& b.y_min == if b0.y_min <= cell.y_min {
                    b0.y_min
                } else {
                    cell.y_min
                }
                &&& b.x_max == if b0.x_max >= cell.x_max {
                    b0.x_max
                } else {
                    cell.x_max
                }
                &&& b.y_max == if b0.y_max >= cell.y_max {
                    b0.y_max
                } else {
                    cell.y_max
                }
            },
        },
    ensures
        spec_pyramid_matches_dir(p_new, es.push(e)),
{
    let esn = es.push(e);
    assert(esn[es.len() as int] == e);
    assert forall|z: int|
        0 <= z < crate::types::PYRAMID_LEVELS implies ((#[trigger] p_new.spec_level(z)) is Some
        <==> spec_dir_has_zoom(esn, z)) by {
        if z == e.z {
            assert(esn[es.len() as int].z == z);
        } else {
            if spec_dir_has_zoom(esn, z) {
                let j = choose|j: int| 0 <= j < esn.len() && (#[trigger] esn[j]).z == z;
                assert(es[j] == esn[j]);
                assert(spec_dir_has_zoom(es, z));
            }
            if spec_dir_has_zoom(es, z) {
                let j = choose|j: int| 0 <= j < es.len() && (#[trigger] es[j]).z == z;
                assert(esn[j] == es[j]);
                assert(spec_dir_has_zoom(esn, z));
            }
        }
    }
    assert forall|j: int| 0 <= j < esn.len() implies {
        let e2 = #[trigger] esn[j];
        match p_new.spec_level(e2.z as int) {
            Some(b) => {
                &&& b.x_min <= 256 * e2.x + e2.x_min
                &&& 256 * e2.x + e2.x_max <= b.x_max
                &&& b.y_min <= 256 * e2.y + e2.y_min
                &&& 256 * e2.y + e2.y_max <= b.y_max
            },
            None => false,
        }
    } by {
        if j < es.len() {
            assert(esn[j] == es[j]);
            let e2 = es[j];
            assert(match p_old.spec_level(e2.z as int) {
                Some(b) => {
                    &&& b.x_min <= 256 * e2.x + e2.x_min
                    &&& 256 * e2.x + e2.x_max <= b.x_max
                    &&& b.y_min <= 256 * e2.y + e2.y_min
                    &&& 256 * e2.y + e2.y_max <= b.y_max
                },
                None => false,
            });
            if e2.z == e.z {
                let b0 = p_old.spec_level(e.z as int)->Some_0;
                let b = p_new.spec_level(e.z as int)->Some_0;
                assert(b.x_min <= b0.x_min && b0.x_max <= b.x_max);
                assert(b.y_min <= b0.y_min && b0.y_max <= b.y_max);
            } else {
                assert(p_new.spec_level(e2.z as int) == p_old.spec_level(e2.z as int));
            }
        } else {
            assert(esn[j] == e);
            let b = p_new.spec_level(e.z as int)->Some_0;
            match p_old.spec_level(e.z as int) {
                None => {
                    assert(b == cell);
                },
                Some(b0) => {
                    assert(b.x_min <= cell.x_min && cell.x_max <= b.x_max);
                    assert(b.y_min <= cell.y_min && cell.y_max <= b.y_max);
                },
            }
        }
    }
    assert forall|z: int|
        0 <= z < crate::types::PYRAMID_LEVELS && (#[trigger] p_new.spec_level(z))
        is Some implies {
        let b = p_new.spec_level(z)->Some_0;
        &&& (exists|j: int|
            0 <= j < esn.len() && (#[trigger] esn[j]).z == z && 256 * esn[j].x + esn[j].x_min
                == b.x_min)
        &&& (exists|j: int|
            0 <= j < esn.len() && (#[trigger] esn[j]).z == z && 256 * esn[j].x + esn[j].x_max
                == b.x_max)
        &&& (exists|j: int|
            0 <= j < esn.len() && (#[trigger] esn[j]).z == z && 256 * esn[j].y + esn[j].y_min
                == b.y_min)
        &&& (exists|j: int|
            0 <= j < esn.len() && (#[trigger] esn[j]).z == z && 256 * esn[j].y + esn[j].y_max
                == b.y_max)
    } by {
        let b = p_new.spec_level(z)->Some_0;
        if z == e.z {
            match p_old.spec_level(e.z as int) {
                None => {
                    assert(esn[es.len() as int].z == z && 256 * e.x + e.x_min == b.x_min);
                    assert(esn[es.len() as int].z == z && 256 * e.x + e.x_max == b.x_max);
                    assert(esn[es.len() as int].z == z && 256 * e.y + e.y_min == b.y_min);
                    assert(esn[es.len() as int].z == z && 256 * e.y + e.y_max == b.y_max);
                },
                Some(b0) => {
                    if b0.x_min <= cell.x_min {
                        let j = choose|j: int|
                            0 <= j < es.len() && (#[trigger] es[j]).z == z && 256 * es[j].x
                                + es[j].x_min == b0.x_min;
                        assert(esn[j] == es[j]);
                    } else {
                        assert(esn[es.len() as int].z == z && 256 * e.x + e.x_min == b.x_min);
                    }
                    if b0.x_max >= cell.x_max {
                        let j = choose|j: int|
                            0 <= j < es.len() && (#[trigger] es[j]).z == z && 256 * es[j].x
                                + es[j].x_max == b0.x_max;
                        assert(esn[j] == es[j]);
                    } else {
                        assert(esn[es.len() as int].z == z && 256 * e.x + e.x_max == b.x_max);
                    }
                    if b0.y_min <= cell.y_min {
                        let j = choose|j: int|
                            0 <= j < es.len() && (#[trigger] es[j]).z == z && 256 * es[j].y
                                + es[j].y_min == b0.y_min;
                        assert(esn[j] == es[j]);
                    } else {
                        assert(esn[es.len() as int].z == z && 256 * e.y + e.y_min == b.y_min);
                    }
                    if b0.y_max >= cell.y_max {
                        let j = choose|j: int|
                            0 <= j < es.len() && (#[trigger] es[j]).z == z && 256 * es[j].y
                                + es[j].y_max == b0.y_max;
                        assert(esn[j] == es[j]);
                    } else {
                        assert(esn[es.len() as int].z == z && 256 * e.y + e.y_max == b.y_max);
                    }
                },
            }
        } else {
            assert(p_old.spec_level(z) == p_new.spec_level(z));
            let j1 = choose|j: int|
                0 <= j < es.len() && (#[trigger] es[j]).z == z && 256 * es[j].x + es[j].x_min
                    == b.x_min;
            assert(esn[j1] == es[j1]);
            let j2 = choose|j: int|
                0 <= j < es.len() && (#[trigger] es[j]).z == z && 256 * es[j].x + es[j].x_max
                    == b.x_max;
            assert(esn[j2] == es[j2]);
            let j3 = choose|j: int|
                0 <= j < es.len() && (#[trigger] es[j]).z == z && 256 * es[j].y + es[j].y_min
                    == b.y_min;
            assert(esn[j3] == es[j3]);
            let j4 = choose|j: int|
                0 <= j < es.len() && (#[trigger] es[j]).z == z && 256 * es[j].y + es[j].y_max
                    == b.y_max;
            assert(esn[j4] == es[j4]);
        }
    }
}

/// Scans the directory for the entry with block key `(z, bx, by)`.
#[verifier::loop_isolation(false)]
fn find_entry_exec(entries: &Vec<BlockEntry>, z: u64, bx: u64, by: u64) -> (r: Option<BlockEntry>)
    ensures
        r == spec_find_entry(entries@, z as int, bx as int, by as int),
{
    let ghost es = entries@;
    let n = entries.len();
    let mut k: usize = 0;
    proof {
        assert(es.skip(0) =~= es);
    }
    while k < n
        invariant
            k <= n,
            spec_find_entry(es.skip(k as int), z as int, bx as int, by as int) == spec_find_entry(
                es,
                z as int,
                bx as int,
                by as int,
            ),
        decreases n - k,
    {
        let e = entries[k];
        proof {
            assert(es.skip(k as int)[0] == e);
        }
        if (e.z as u64) == z && (e.x as u64) == bx && (e.y as u64) == by {
            return Option::Some(e);
        }
        proof {
            assert(es.skip(k as int).skip(1) =~= es.skip(k as int + 1));
        }
        k = k + 1;
    }
    proof {
        assert(es.skip(n as int) =~= Seq::<BlockEntry>::empty());
    }
    Option::None
}

/// A reader over one in-memory archive: the bytes, the parsed header and
/// directory, and the pyramid hull of the directory's blocks.
#[derive(Debug)]
pub struct VersatilesReader {
    data: Vec<u8>,
    header: VtcHeader,
    compression: TileCompression,
    entries: Vec<BlockEntry>,
    pyramid: crate::types::TileBBoxPyramid,
}

impl VersatilesReader {
    /// The archive bytes the reader answers from.
    pub closed spec fn spec_data(&self) -> Seq<u8> {
        self.data@
    }

    #[verifier::type_invariant]
    closed spec fn inv(&self) -> bool {
        &&& spec_archive_ok(self.data@)
        &&& spec_parse_header(self.data@) == Some(self.header)
        &&& self.header.tile_compression == TileCompression::Uncompressed
        &&& spec_archive_entries(self.data@) == Some(self.entries@)
        &&& self.pyramid.spec_valid()
    }

    /// Opens an archive from its bytes.  Succeeds exactly on a structurally
    /// valid archive whose compression this build can undo: a violated
    /// format invariant is `Corrupt`, an unreadable compression is
    /// `Unsupported`.
    #[verifier::loop_isolation(false)]
    #[verifier::spinoff_prover]
    #[verifier::rlimit(100)]
    pub fn open(blob: Blob) -> (r: Result<VersatilesReader, Error>)
        ensures
            match r {
                Ok(rd) => {
                    &&& rd.spec_data() == blob@
                    &&& spec_archive_ok(blob@)
                    &&& spec_parse_header(blob@)->Some_0.tile_compression
                        == TileCompression::Uncompressed
                    &&& crate::reader::TileReader::spec_meta(&rd) == spec_archive_meta(blob@)
                    &&& crate::reader::TileReader::spec_format(&rd) == spec_parse_header(
                        blob@,
                    )->Some_0.tile_format
                    &&& crate::reader::TileReader::spec_compression(&rd)
                        == TileCompression::Uncompressed
                    &&& spec_pyramid_matches_dir(
                        crate::reader::TileReader::spec_pyramid(&rd),
                        spec_archive_entries(blob@)->Some_0,
                    )
                },
                Err(e) => {
                    ||| (e is Unsupported && spec_parse_header(blob@) is Some && spec_parse_header(
                        blob@,
                    )->Some_0.tile_compression != TileCompression::Uncompressed)
                    ||| (e is Corrupt && !spec_archive_ok(blob@))
                },
            },
    {
        let data = blob.into_vec();
        let header = match parse_header(&data) {
            Ok(h) => h,
            Err(e) => {
                return Err(e);
            },
        };
        if !matches!(header.tile_compression, TileCompression::Uncompressed) {
            return Err(unsupported_error("archive compression is not linked in this build"));
        }
        let len = data.len();
        let len64 = len as u64;
        if header.meta_range.offset > len64 || header.meta_range.length > len64
            - header.meta_range.offset {
            return Err(corrupt_error("metadata range lies outside the file"));
        }
        if header.block_index_range.offset > len64 || header.block_index_range.length > len64
            - header.block_index_range.offset {
            return Err(corrupt_error("block directory range lies outside the file"));
        }
        let dir_off = header.block_index_range.offset as usize;
        let dir_len = header.block_index_range.length as usize;
        let ghost dirb = spec_dir_bytes(data@, header);
        proof {
            lemma_parse_dir_shape(dirb);
        }
        if dir_len % ENTRY_SIZE != 0 {
            return Err(corrupt_error("block directory is not a whole number of entries"));
        }
        let count = dir_len / ENTRY_SIZE;
        let ghost es = spec_parse_dir(dirb)->Some_0;
        proof {
            assert(spec_archive_entries(data@) == Some(es));
        }
        let mut entries: Vec<BlockEntry> = Vec::new();
        let mut pyramid = crate::types::TileBBoxPyramid::new_empty();
        proof {
            assert forall|z: int| !spec_dir_has_zoom(es.take(0), z) by {
                if spec_dir_has_zoom(es.take(0), z) {
                    let j = choose|j: int|
                        0 <= j < es.take(0).len() && (#[trigger] es.take(0)[j]).z == z;
                }
            }
            assert(spec_pyramid_matches_dir(pyramid, es.take(0)));
        }
        let mut k: usize = 0;
        while k < count
            invariant
                data@.len() == len,
                len == len64,
                count == dir_len / ENTRY_SIZE,
                dir_len % ENTRY_SIZE == 0,
                dir_off + dir_len <= len,
                dir_off == header.block_index_range.offset,
                dir_len == header.block_index_range.length,
                dirb == spec_dir_bytes(data@, header),
                spec_parse_dir(dirb) == Some(es),
                es.len() == count,
                k <= count,
                entries@ == es.take(k as int),
                pyramid.spec_valid(),
                spec_pyramid_matches_dir(pyramid, es.take(k as int)),
                forall|j: int|
                    0 <= j < k ==> {
                        &&& (#[trigger] es[j]).spec_sane(data@.len())
                        &&& spec_entry_in_grid(es[j])
                        &&& spec_entry_slots_fit(data@, es[j])
                    },
                forall|j: int| 0 <= j < k - 1 ==> spec_key_lt(#[trigger] es[j], es[j + 1]),
            decreases count - k,
        {
            let at = dir_off + k * ENTRY_SIZE;
            proof {
                assert(ENTRY_SIZE * (k as int) + ENTRY_SIZE <= dir_len) by {
                    vstd::arithmetic::div_mod::lemma_fundamental_div_mod(dir_len as int, ENTRY_SIZE as int);
                    vstd::arithmetic::mul::lemma_mul_inequality(
                        k as int + 1,
                        count as int,
                        ENTRY_SIZE as int,
                    );
                    vstd::arithmetic::mul::lemma_mul_is_distributive_add_other_way(
                        ENTRY_SIZE as int,
                        k as int,
                        1,
                    );
                    vstd::arithmetic::mul::lemma_mul_is_commutative(count as int, ENTRY_SIZE as int);
                }
            }
            let e = parse_entry_at(&data, at);
            proof {
                assert(data@.subrange(at as int, at + ENTRY_SIZE) =~= dirb.subrange(
                    (k as int) * ENTRY_SIZE,
                    (k as int) * ENTRY_SIZE + ENTRY_SIZE,
                ));
                assert(e == es[k as int]);
            }
            if e.x_min > e.x_max || e.y_min > e.y_max {
                return Err(corrupt_error("block entry sub-rectangle is inverted"));
            }
            if e.tiles_range.offset > len64 || e.tiles_range.length > len64
                - e.tiles_range.offset {
                return Err(corrupt_error("block payload range lies outside the file"));
            }
            if e.index_range.offset > len64 || e.index_range.length > len64
                - e.index_range.offset {
                return Err(corrupt_error("tile index range lies outside the file"));
            }
            if e.tiles_range.length > u32::MAX as u64 || e.index_range.length > u32::MAX as u64 {
                return Err(corrupt_error("block range length overflows its wire field"));
            }
            let w = (e.x_max - e.x_min) as u64 + 1;
            let h = (e.y_max - e.y_min) as u64 + 1;
            proof {
                vstd::arithmetic::mul::lemma_mul_upper_bound(w as int, 256, h as int, 256);
            }
            let slots = w * h;
            if e.index_range.length != (INDEX_ENTRY_SIZE as u64) * slots {
                return Err(corrupt_error("tile index length does not match the sub-rectangle"));
            }
            if e.z > crate::types::MAX_ZOOM {
                return Err(corrupt_error("block zoom is out of range"));
            }
            proof {
                vstd::bits::lemma_u64_pow2_no_overflow(e.z as nat);
                vstd::bits::lemma_u64_shl_is_mul(1u64, e.z as u64);
            }
            let side = 1u64 << (e.z as u64);
            if 256 * (e.x as u64) + (e.x_max as u64) >= side || 256 * (e.y as u64) + (
            e.y_max as u64) >= side {
                return Err(corrupt_error("block lies outside its zoom grid"));
            }
            if entries.len() > 0 {
                let prev = entries[entries.len() - 1];
                proof {
                    assert(prev == es[k - 1]);
                }
                let ordered = prev.z < e.z || (prev.z == e.z && (prev.y < e.y || (prev.y == e.y
                    && prev.x < e.x)));
                if !ordered {
                    return Err(corrupt_error("block directory is not sorted"));
                }
            }
            let idx_off = e.index_range.offset as usize;
            let mut i: usize = 0;
            let ghost nslots = e.spec_slots();
            proof {
                assert(nslots == slots);
            }
            while i < slots as usize
                invariant
                    data@.len() == len,
                    len == len64,
                    idx_off == e.index_range.offset,
                    e.index_range.offset + e.index_range.length <= len,
                    e.index_range.length == (INDEX_ENTRY_SIZE as u64) * slots,
                    slots == nslots,
                    nslots == e.spec_slots(),
                    slots <= 65536,
                    i <= slots,
                    forall|j: int|
                        0 <= j < i ==> (#[trigger] spec_index_slot(data@, e, j)).0
                            + spec_index_slot(data@, e, j).1 <= e.tiles_range.length,
                decreases slots - i,
            {
                let at2 = idx_off + i * INDEX_ENTRY_SIZE;
                proof {
                    assert((INDEX_ENTRY_SIZE as int) * (i as int) + INDEX_ENTRY_SIZE <= (
                    INDEX_ENTRY_SIZE as int) * (slots as int)) by {
                        vstd::arithmetic::mul::lemma_mul_inequality(
                            i as int + 1,
                            slots as int,
                            INDEX_ENTRY_SIZE as int,
                        );
                        vstd::arithmetic::mul::lemma_mul_is_distributive_add_other_way(
                            INDEX_ENTRY_SIZE as int,
                            i as int,
                            1,
                        );
                        vstd::arithmetic::mul::lemma_mul_is_commutative(
                            slots as int,
                            INDEX_ENTRY_SIZE as int,
                        );
                    }
                }
                let d = uint_from_slice_be(&data, at2, 8);
                let l = uint_from_slice_be(&data, at2 + 8, 4);
                proof {
                    assert(data@.subrange(at2 as int, at2 + 8) =~= data@.subrange(
                        e.index_range.offset + (i as int) * INDEX_ENTRY_SIZE,
                        e.index_range.offset + (i as int) * INDEX_ENTRY_SIZE + 8,
                    ));
                    assert(data@.subrange(at2 + 8, at2 + 12) =~= data@.subrange(
                        e.index_range.offset + (i as int) * INDEX_ENTRY_SIZE + 8,
                        e.index_range.offset + (i as int) * INDEX_ENTRY_SIZE + 12,
                    ));
                }
                if l > e.tiles_range.length || d > e.tiles_range.length - l {
                    proof {
                        assert(spec_index_slot(data@, e, i as int).0 + spec_index_slot(
                            data@,
                            e,
                            i as int,
                        ).1 > e.tiles_range.length);
                        assert(!spec_entry_slots_fit(data@, e));
                    }
                    return Err(corrupt_error("tile index slot lies outside the block payload"));
                }
                i = i + 1;
            }
            proof {
                zoom_grid_pow2_bound(e.z);
            }
            let gx0 = (256 * (e.x as u64) + (e.x_min as u64)) as u32;
            let gx1 = (256 * (e.x as u64) + (e.x_max as u64)) as u32;
            let gy0 = (256 * (e.y as u64) + (e.y_min as u64)) as u32;
            let gy1 = (256 * (e.y as u64) + (e.y_max as u64)) as u32;
            let cell = crate::types::TileBBox {
                level: e.z,
                x_min: gx0,
                y_min: gy0,
                x_max: gx1,
                y_max: gy1,
                empty: false,
            };
            let ghost p_before = pyramid;
            let merged = match pyramid.get_level_bbox(e.z) {
                Some(existing) => existing.hull(&cell),
                None => cell,
            };
            pyramid.set_level_bbox(merged);
            proof {
                lemma_pyramid_include_cell(p_before, pyramid, es.take(k as int), e, cell);
                assert(es.take(k as int).push(e) =~= es.take(k + 1));
            }
            let ghost prev_entries = entries@;
            entries.push(e);
            proof {
                assert(entries@ =~= es.take(k + 1));
            }
            k = k + 1;
        }
        proof {
            assert(es.take(count as int) =~= es);
            lemma_sorted_from_adjacent(es);
        }
        Ok(VersatilesReader { data, header, compression: header.tile_compression, entries, pyramid })
    }

    /// The parsed directory entries, in file order.
    pub fn get_block_entries(&self) -> (r: Vec<BlockEntry>)
        ensures
            Some(r@) == spec_archive_entries(self.spec_data()),
    {
        proof {
            use_type_invariant(&*self);
        }
        let mut out: Vec<BlockEntry> = Vec::new();
        let mut i: usize = 0;
        while i < self.entries.len()
            invariant
                i <= self.entries@.len(),
                out@ == self.entries@.take(i as int),
            decreases self.entries@.len() - i,
        {
            out.push(self.entries[i]);
            proof {
                assert(out@ =~= self.entries@.take(i + 1));
            }
            i = i + 1;
        }
        proof {
            assert(out@ =~= self.entries@);
        }
        out
    }

    /// The parsed header.
    pub fn get_header(&self) -> (r: VtcHeader)
        ensures
            spec_parse_header(self.spec_data()) == Some(r),
    {
        proof {
            use_type_invariant(&*self);
        }
        self.header
    }

    /// Looks the tile up by its coordinate; an absent block or slot is
    /// `None`, never an error.
    #[verifier::loop_isolation(false)]
    fn lookup_tile(&self, z: u64, x: u64, y: u64) -> (r: Option<Blob>)
        ensures
            match r {
                Some(t) => spec_archive_tile(self.spec_data(), z as int, x as int, y as int)
                    == Some(t@),
                None => spec_archive_tile(self.spec_data(), z as int, x as int, y as int)
                    is None,
            },
    {
        proof {
            use_type_invariant(&*self);
        }
        let ghost es = self.entries@;
        let bx = x / 256;
        let by = y / 256;
        let e = match find_entry_exec(&self.entries, z, bx, by) {
            Option::Some(e) => e,
            Option::None => {
                return Option::None;
            },
        };
        proof {
            lemma_find_entry_characterize(es, z as int, bx as int, by as int);
        }
        let lx = (x % 256) as u8;
        let ly = (y % 256) as u8;
        if lx < e.x_min || lx > e.x_max || ly < e.y_min || ly > e.y_max {
            return Option::None;
        }
        proof {
            lemma_slot_index_bounds(e, lx as int, ly as int);
        }
        let w = (e.x_max - e.x_min) as usize + 1;
        let slot_i = ((ly - e.y_min) as usize) * w + ((lx - e.x_min) as usize);
        let total = self.data.len();
        proof {
            assert((INDEX_ENTRY_SIZE as int) * (slot_i as int) + INDEX_ENTRY_SIZE <= (
            INDEX_ENTRY_SIZE as int) * e.spec_slots()) by {
                vstd::arithmetic::mul::lemma_mul_inequality(
                    slot_i as int + 1,
                    e.spec_slots(),
                    INDEX_ENTRY_SIZE as int,
                );
                vstd::arithmetic::mul::lemma_mul_is_distributive_add_other_way(
                    INDEX_ENTRY_SIZE as int,
                    slot_i as int,
                    1,
                );
                vstd::arithmetic::mul::lemma_mul_is_commutative(
                    e.spec_slots(),
                    INDEX_ENTRY_SIZE as int,
                );
            }
        }
        let at = (e.index_range.offset as usize) + slot_i * INDEX_ENTRY_SIZE;
        let d = uint_from_slice_be(&self.data, at, 8);
        let l = uint_from_slice_be(&self.data, at + 8, 4);
        proof {
            assert(self.data@.subrange(at as int, at + 8) =~= self.data@.subrange(
                e.index_range.offset + (slot_i as int) * INDEX_ENTRY_SIZE,
                e.index_range.offset + (slot_i as int) * INDEX_ENTRY_SIZE + 8,
            ));
            assert(self.data@.subrange(at + 8, at + 12) =~= self.data@.subrange(
                e.index_range.offset + (slot_i as int) * INDEX_ENTRY_SIZE + 8,
                e.index_range.offset + (slot_i as int) * INDEX_ENTRY_SIZE + 12,
            ));
            assert(spec_index_slot(self.data@, e, slot_i as int) == (d as nat, l as nat));
        }
        if l == 0 {
            return Option::None;
        }
        let start = (e.tiles_range.offset + d) as usize;
        let tile = copy_range(&self.data, start, l as usize);
        Option::Some(Blob::from_vec(tile))
    }
}

/// At an addressable zoom the grid side `2^z` stays below `2^31`.
proof fn zoom_grid_pow2_bound(z: u8)
    requires
        z <= crate::types::MAX_ZOOM,
    ensures
        pow2(z as nat) <= 0x8000_0000,
{
    lemma2_to64();
    if z < 31 {
        vstd::arithmetic::power2::lemma_pow2_strictly_increases(z as nat, 31);
    }
}

/// Length of the tile a reader stores at `(z, x, y)`; zero when absent.
pub open spec fn spec_tile_len<R: crate::reader::TileReader>(r: &R, z: int, x: int, y: int) -> nat {
    match r.spec_tile(z, x, y) {
        Some(t) => t.len(),
        None => 0,
    }
}

/// Sum of tile lengths along one row: `w` tiles starting at column `x0`.
pub open spec fn spec_row_payload<R: crate::reader::TileReader>(
    r: &R,
    z: int,
    y: int,
    x0: int,
    w: nat,
) -> nat
    decreases w,
{
    if w == 0 {
        0
    } else {
        spec_tile_len(r, z, x0, y) + spec_row_payload(r, z, y, x0 + 1, (w - 1) as nat)
    }
}

/// Sum of tile lengths over a `w x h` rectangle with north-west corner
/// `(x0, y0)`, row by row.
pub open spec fn spec_block_payload<R: crate::reader::TileReader>(
    r: &R,
    z: int,
    x0: int,
    y0: int,
    w: nat,
    h: nat,
) -> nat
    decreases h,
{
    if h == 0 {
        0
    } else {
        spec_row_payload(r, z, y0, x0, w) + spec_block_payload(r, z, x0, y0 + 1, w, (h - 1) as nat)
    }
}

/// A row splits at any point.
pub proof fn lemma_row_payload_split<R: crate::reader::TileReader>(
    r: &R,
    z: int,
    y: int,
    x0: int,
    a: nat,
    b: nat,
)
    ensures
        spec_row_payload(r, z, y, x0, a + b) == spec_row_payload(r, z, y, x0, a)
            + spec_row_payload(r, z, y, x0 + a, b),
    decreases a,
{
    if a > 0 {
        lemma_row_payload_split(r, z, y, x0 + 1, (a - 1) as nat, b);
    }
}

/// A rectangle splits at any row.
pub proof fn lemma_block_payload_split<R: crate::reader::TileReader>(
    r: &R,
    z: int,
    x0: int,
    y0: int,
    w: nat,
    a: nat,
    b: nat,
)
    ensures
        spec_block_payload(r, z, x0, y0, w, a + b) == spec_block_payload(r, z, x0, y0, w, a)
            + spec_block_payload(r, z, x0, y0 + a, w, b),
    decreases a,
{
    if a > 0 {
        lemma_block_payload_split(r, z, x0, y0 + 1, w, (a - 1) as nat, b);
    }
}

/// True when `(bx, by)` is a block cell of the partition of zoom `z` of
/// the pyramid.
pub open spec fn spec_cell_in_partition(
    p: crate::types::TileBBoxPyramid,
    z: int,
    bx: int,
    by: int,
) -> bool {
    match p.spec_level(z) {
        Some(b) => {
            &&& b.x_min / 256 <= bx <= b.x_max / 256
            &&& b.y_min / 256 <= by <= b.y_max / 256
        },
        None => false,
    }
}

/// Sum of the stored tile lengths of one block cell: the zoom bbox clipped
/// to the 256-tile block `(bx, by)`.
pub open spec fn spec_cell_payload<R: crate::reader::TileReader>(
    r: &R,
    z: int,
    bx: int,
    by: int,
) -> nat {
    match r.spec_pyramid().spec_level(z) {
        None => 0,
        Some(b) => {
            let gx0 = vstd::math::max(b.x_min as int, 256 * bx);
            let gx1 = vstd::math::min(b.x_max as int, 256 * bx + 255);
            let gy0 = vstd::math::max(b.y_min as int, 256 * by);
            let gy1 = vstd::math::min(b.y_max as int, 256 * by + 255);
            spec_block_payload(r, z, gx0, gy0, (gx1 - gx0 + 1) as nat, (gy1 - gy0 + 1) as nat)
        },
    }
}

/// Number of block cells of zoom `z` of the pyramid.
pub open spec fn spec_level_blocks(p: crate::types::TileBBoxPyramid, z: int) -> int {
    match p.spec_level(z) {
        Some(b) => (b.x_max / 256 - b.x_min / 256 + 1) * (b.y_max / 256 - b.y_min / 256 + 1),
        None => 0,
    }
}

/// Number of block cells of the pyramid below zoom `n`.
pub open spec fn spec_blocks_upto(p: crate::types::TileBBoxPyramid, n: int) -> int
    decreases n,
{
    if n <= 0 {
        0
    } else {
        spec_blocks_upto(p, n - 1) + spec_level_blocks(p, n - 1)
    }
}

/// A pyramid covering no zoom has no block cells, so an archive written
/// from it has a directory of length zero.
pub proof fn lemma_blocks_upto_empty(p: crate::types::TileBBoxPyramid, n: int)
    requires
        forall|z: int| 0 <= z < n ==> p.spec_level(z) is None,
    ensures
        spec_blocks_upto(p, n) == 0,
    decreases n,
{
    if n > 0 {
        lemma_blocks_upto_empty(p, n - 1);
        assert(spec_level_blocks(p, n - 1) == 0);
    }
}

/// An entry's content agrees with the reader: sanity, and every tile-index
/// slot stores exactly the reader's tile at the slot's coordinate, whose
/// bytes sit in the block's payload range.
pub open spec fn spec_entry_matches<R: crate::reader::TileReader>(
    b: Seq<u8>,
    e: BlockEntry,
    r: &R,
) -> bool {
    &&& e.spec_sane(b.len())
    &&& spec_entry_in_grid(e)
    &&& spec_entry_slots_fit(b, e)
    &&& e.tiles_range.offset >= HEADER_SIZE
    &&& e.index_range.offset >= HEADER_SIZE
    &&& spec_slot_lens_sum(b, e, e.spec_slots() as nat) == e.tiles_range.length
    &&& forall|i: int|
        0 <= i < e.spec_slots() ==> #[trigger] spec_entry_matches_slot(b, e, r, i)
}

/// An entry's sub-rectangle is exactly the pyramid's bbox at its zoom,
/// clipped to the entry's block.
pub open spec fn spec_entry_cell_ok(e: BlockEntry, p: crate::types::TileBBoxPyramid) -> bool {
    match p.spec_level(e.z as int) {
        Some(b) => {
            &&& spec_cell_in_partition(p, e.z as int, e.x as int, e.y as int)
            &&& 256 * e.x + e.x_min == vstd::math::max(b.x_min as int, 256 * e.x)
            &&& 256 * e.x + e.x_max == vstd::math::min(b.x_max as int, 256 * e.x + 255)
            &&& 256 * e.y + e.y_min == vstd::math::max(b.y_min as int, 256 * e.y)
            &&& 256 * e.y + e.y_max == vstd::math::min(b.y_max as int, 256 * e.y + 255)
        },
        None => false,
    }
}

/// Some directory entry has block key `(z, bx, by)`.
pub open spec fn spec_has_key(es: Seq<BlockEntry>, z: int, bx: int, by: int) -> bool {
    exists|k: int| 0 <= k < es.len() && (#[trigger] es[k]).z == z && es[k].x == bx && es[k].y == by
}

/// Two files that agree on an entry's index range give it the same slots.
pub proof fn lemma_slot_lens_sum_congruent(b1: Seq<u8>, b2: Seq<u8>, e: BlockEntry, n: nat)
    requires
        forall|i: int| 0 <= i < n ==> spec_index_slot(b1, e, i) == spec_index_slot(b2, e, i),
    ensures
        spec_slot_lens_sum(b1, e, n) == spec_slot_lens_sum(b2, e, n),
    decreases n,
{
    if n > 0 {
        lemma_slot_lens_sum_congruent(b1, b2, e, (n - 1) as nat);
    }
}

/// Appending bytes to a file leaves every matching entry matching.
pub proof fn lemma_entry_matches_append<R: crate::reader::TileReader>(
    b: Seq<u8>,
    s: Seq<u8>,
    e: BlockEntry,
    r: &R,
)
    requires
        spec_entry_matches(b, e, r),
    ensures
        spec_entry_matches(b + s, e, r),
{
    let b2 = b + s;
    assert forall|lo: int, hi: int| 0 <= lo <= hi <= b.len() implies b2.subrange(lo, hi)
        == b.subrange(lo, hi) by {
        assert(b2.subrange(lo, hi) =~= b.subrange(lo, hi));
    }
    assert forall|i: int| 0 <= i < e.spec_slots() implies #[trigger] spec_index_slot(b2, e, i)
        == spec_index_slot(b, e, i) by {
        lemma_slot_index_in_range(e, i);
    }
    lemma_slot_lens_sum_congruent(b2, b, e, e.spec_slots() as nat);
    assert forall|i: int| 0 <= i < e.spec_slots() implies #[trigger] spec_entry_matches_slot(
        b2,
        e,
        r,
        i,
    ) by {
        lemma_slot_index_in_range(e, i);
        assert(spec_entry_matches_slot(b, e, r, i));
        assert(spec_index_slot(b2, e, i) == spec_index_slot(b, e, i));
        let slot = spec_index_slot(b, e, i);
        assert(spec_entry_slots_fit(b, e));
        assert(slot.0 + slot.1 <= e.tiles_range.length);
        assert(b2.subrange(
            e.tiles_range.offset + slot.0,
            e.tiles_range.offset + slot.0 + slot.1,
        ) == b.subrange(e.tiles_range.offset + slot.0, e.tiles_range.offset + slot.0 + slot.1));
    }
}

/// The slot conjunct of `spec_entry_matches`, named so proofs can speak of
/// one slot at a time.
pub open spec fn spec_entry_matches_slot<R: crate::reader::TileReader>(
    b: Seq<u8>,
    e: BlockEntry,
    r: &R,
    i: int,
) -> bool {
    let lx = e.x_min + i % e.spec_width();
    let ly = e.y_min + i / e.spec_width();
    let slot = spec_index_slot(b, e, i);
    match r.spec_tile(e.z as int, 256 * e.x + lx, 256 * e.y + ly) {
        Some(t) => {
            &&& slot.1 == t.len()
            &&& t.len() > 0
            &&& b.subrange(
                e.tiles_range.offset + slot.0,
                e.tiles_range.offset + slot.0 + slot.1,
            ) == t
        },
        None => slot.0 == 0 && slot.1 == 0,
    }
}

/// A slot's twelve index bytes lie inside the entry's index range.
pub proof fn lemma_slot_index_in_range(e: BlockEntry, i: int)
    requires
        0 <= i < e.spec_slots(),
        e.x_min <= e.x_max,
        e.y_min <= e.y_max,
    ensures
        0 <= i * INDEX_ENTRY_SIZE,
        i * INDEX_ENTRY_SIZE + INDEX_ENTRY_SIZE <= INDEX_ENTRY_SIZE * e.spec_slots(),
{
    vstd::arithmetic::mul::lemma_mul_nonnegative(i, INDEX_ENTRY_SIZE as int);
    vstd::arithmetic::mul::lemma_mul_inequality(i + 1, e.spec_slots(), INDEX_ENTRY_SIZE as int);
    vstd::arithmetic::mul::lemma_mul_is_distributive_add_other_way(INDEX_ENTRY_SIZE as int, i, 1);
    vstd::arithmetic::mul::lemma_mul_is_commutative(e.spec_slots(), INDEX_ENTRY_SIZE as int);
}

/// Appends every byte of the blob.
fn append_blob(out: &mut Vec<u8>, b: &Blob)
    ensures
        final(out)@ == old(out)@ + b@,
{
    let n = b.as_slice().len();
    let mut i: usize = 0;
    while i < n
        invariant
            n == b@.len(),
            i <= n,
            out@ == old(out)@ + b@.take(i as int),
        decreases n - i,
    {
        out.push(b.get(i));
        proof {
            assert(out@ =~= old(out)@ + b@.take(i + 1));
        }
        i = i + 1;
    }
    proof {
        assert(old(out)@ + b@.take(n as int) =~= old(out)@ + b@);
    }
}

/// The tile slots collected while a block's payload is written: their
/// recorded ranges hold exactly the reader's tiles of the cell, row-major
/// from the cell's north-west corner.
pub open spec fn spec_slots_ok<R: crate::reader::TileReader>(
    b: Seq<u8>,
    ts: int,
    pe: int,
    slots: Seq<(u64, u32)>,
    r: &R,
    z: int,
    gx0: int,
    gy0: int,
    w: int,
) -> bool {
    forall|i: int|
        0 <= i < slots.len() ==> #[trigger] spec_slots_ok_one(b, ts, pe, slots, r, z, gx0, gy0, w, i)
}

/// Sum of the recorded lengths of the first `n` slots.
pub open spec fn spec_slots_len_total(slots: Seq<(u64, u32)>, n: nat) -> nat
    decreases n,
{
    if n == 0 {
        0
    } else {
        (spec_slots_len_total(slots, (n - 1) as nat) + slots[n as int - 1].1) as nat
    }
}

proof fn lemma_slots_len_total_push(slots: Seq<(u64, u32)>, s: (u64, u32), n: nat)
    requires
        n <= slots.len(),
    ensures
        spec_slots_len_total(slots.push(s), n) == spec_slots_len_total(slots, n),
    decreases n,
{
    if n > 0 {
        lemma_slots_len_total_push(slots, s, (n - 1) as nat);
    }
}

/// With every index slot of `e` storing the recorded pair, the wire sum
/// equals the recorded sum.
proof fn lemma_slot_sum_from_slots(b: Seq<u8>, e: BlockEntry, slots: Seq<(u64, u32)>, n: nat)
    requires
        forall|i: int|
            0 <= i < n ==> (#[trigger] spec_index_slot(b, e, i)).0 == slots[i].0
                && spec_index_slot(b, e, i).1 == slots[i].1,
        n <= slots.len(),
    ensures
        spec_slot_lens_sum(b, e, n) == spec_slots_len_total(slots, n),
    decreases n,
{
    if n > 0 {
        lemma_slot_sum_from_slots(b, e, slots, (n - 1) as nat);
    }
}

/// Writes one block: the cell's tiles row-major, then its tile index, and
/// returns the directory entry describing both.  The cell `[gx0, gx1] x
/// [gy0, gy1]` must be the pyramid bbox of zoom `z` clipped to block
/// `(bx, by)`.
#[verifier::loop_isolation(false)]
#[verifier::rlimit(100)]
fn write_block<R: crate::reader::TileReader>(
    reader: &R,
    out: &mut Vec<u8>,
    z: u8,
    bx: u32,
    by: u32,
    gx0: u32,
    gx1: u32,
    gy0: u32,
    gy1: u32,
) -> (e: BlockEntry)
    requires
        z <= crate::types::MAX_ZOOM,
        gx0 <= gx1,
        gy0 <= gy1,
        256 * bx <= gx0,
        gx1 < 256 * bx + 256,
        256 * by <= gy0,
        gy1 < 256 * by + 256,
        (gx1 as nat) < pow2(z as nat),
        (gy1 as nat) < pow2(z as nat),
        spec_block_payload(
            reader,
            z as int,
            gx0 as int,
            gy0 as int,
            (gx1 - gx0 + 1) as nat,
            (gy1 - gy0 + 1) as nat,
        ) <= u32::MAX,
        forall|x: int, y: int|
            gx0 <= x <= gx1 && gy0 <= y <= gy1 ==> #[trigger] reader.spec_tile(z as int, x, y)
                != Some(Seq::<u8>::empty()),
        old(out)@.len() >= HEADER_SIZE,
    ensures
        final(out)@.len() >= old(out)@.len(),
        final(out)@.take(old(out)@.len() as int) == old(out)@,
        spec_entry_matches(final(out)@, e, reader),
        e.z == z && e.x == bx && e.y == by,
        256 * e.x + e.x_min == gx0 && 256 * e.x + e.x_max == gx1,
        256 * e.y + e.y_min == gy0 && 256 * e.y + e.y_max == gy1,
{
    proof {
        zoom_grid_pow2_bound(z);
    }
    let ghost w = (gx1 - gx0 + 1) as int;
    let ghost h = (gy1 - gy0 + 1) as int;
    let ghost cell_total = spec_block_payload(
        reader,
        z as int,
        gx0 as int,
        gy0 as int,
        w as nat,
        h as nat,
    );
    let tiles_start = out.len();
    let mut slots: Vec<(u64, u32)> = Vec::new();
    let mut gy: u32 = gy0;
    while gy <= gy1
        invariant
            gy0 <= gy <= gy1 + 1,
            out@.len() >= tiles_start,
            out@.take(tiles_start as int) == old(out)@.take(tiles_start as int),
            slots@.len() == (gy - gy0) * w,
            out@.len() - tiles_start == spec_slots_len_total(slots@, slots@.len() as nat),
            spec_slots_len_total(slots@, slots@.len() as nat) == spec_block_payload(
                reader,
                z as int,
                gx0 as int,
                gy0 as int,
                w as nat,
                (gy - gy0) as nat,
            ),
            spec_slots_ok(
                out@,
                tiles_start as int,
                out@.len() as int,
                slots@,
                reader,
                z as int,
                gx0 as int,
                gy0 as int,
                w,
            ),
        decreases gy1 + 1 - gy,
    {
        let mut gx: u32 = gx0;
        proof {
            lemma_row_payload_split(reader, z as int, gy as int, gx0 as int, 0, w as nat);
        }
        while gx <= gx1
            invariant
                gy0 <= gy <= gy1,
                gx0 <= gx <= gx1 + 1,
                out@.len() >= tiles_start,
                out@.take(tiles_start as int) == old(out)@.take(tiles_start as int),
                slots@.len() == (gy - gy0) * w + (gx - gx0),
                out@.len() - tiles_start == spec_slots_len_total(slots@, slots@.len() as nat),
                spec_slots_len_total(slots@, slots@.len() as nat) == spec_block_payload(
                    reader,
                    z as int,
                    gx0 as int,
                    gy0 as int,
                    w as nat,
                    (gy - gy0) as nat,
                ) + spec_row_payload(reader, z as int, gy as int, gx0 as int, (gx - gx0) as nat),
                spec_slots_ok(
                    out@,
                    tiles_start as int,
                    out@.len() as int,
                    slots@,
                    reader,
                    z as int,
                    gx0 as int,
                    gy0 as int,
                    w,
                ),
            decreases gx1 + 1 - gx,
    {
            let ghost i = slots@.len() as int;
            proof {
                vstd::arithmetic::mul::lemma_mul_inequality((gy - gy0) + 1, h, w);
                vstd::arithmetic::mul::lemma_mul_is_distributive_add_other_way(w, gy - gy0, 1);
                lemma_fundamental_div_mod_converse_pair(i, w, gy - gy0, gx - gx0);
                // the running sum plus the remaining tiles equals the cell total
                lemma_row_payload_split(
                    reader,
                    z as int,
                    gy as int,
                    gx0 as int,
                    (gx - gx0) as nat,
                    (gx1 + 1 - gx) as nat,
                );
                lemma_block_payload_split(
                    reader,
                    z as int,
                    gx0 as int,
                    gy0 as int,
                    w as nat,
                    (gy - gy0) as nat,
                    (gy1 + 1 - gy) as nat,
                );
                lemma_block_payload_split(
                    reader,
                    z as int,
                    gx0 as int,
                    gy as int,
                    w as nat,
                    1,
                    (gy1 - gy) as nat,
                );
                lemma_row_payload_split(
                    reader,
                    z as int,
                    gy as int,
                    gx0 as int,
                    (gx - gx0) as nat,
                    1,
                );
                assert(spec_row_payload(reader, z as int, gy as int, gx as int + 1, 0) == 0);
                assert(spec_row_payload(reader, z as int, gy as int, gx as int, 1)
                    == spec_tile_len(reader, z as int, gx as int, gy as int));
            }
            let ghost prev_out = out@;
            let ghost prev_slots = slots@;
            match reader.get_tile_raw(z as u64, gx as u64, gy as u64) {
                Some(t) => {
                    proof {
                        assert(reader.spec_tile(z as int, gx as int, gy as int) == Some(t@));
                        if t@.len() == 0 {
                            assert(t@ =~= Seq::<u8>::empty());
                        }
                        assert(t@.len() > 0);
                    }
                    let delta = (out.len() - tiles_start) as u64;
                    let tlen = t.len();
                    proof {
                        // this tile's length is part of the cell total
                        assert(spec_slots_len_total(slots@, slots@.len() as nat) + t@.len()
                            <= cell_total);
                    }
                    slots.push((delta, tlen as u32));
                    append_blob(out, &t);
                    proof {
                        lemma_slots_len_total_push(prev_slots, (delta, tlen as u32), prev_slots.len() as nat);
                        assert(out@.take(tiles_start as int) =~= prev_out.take(tiles_start as int));
                        assert(out@.subrange(
                            tiles_start + delta,
                            tiles_start + delta + t@.len(),
                        ) =~= t@);
                        assert forall|j: int| 0 <= j < slots@.len() implies #[trigger] spec_slots_ok_one(
                            out@,
                            tiles_start as int,
                            out@.len() as int,
                            slots@,
                            reader,
                            z as int,
                            gx0 as int,
                            gy0 as int,
                            w,
                            j,
                        ) by {
                            if j < prev_slots.len() {
                                assert(slots@[j] == prev_slots[j]);
                                lemma_slots_ok_one_append(
                                    prev_out,
                                    t@,
                                    tiles_start as int,
                                    prev_out.len() as int,
                                    out@.len() as int,
                                    prev_slots,
                                    reader,
                                    z as int,
                                    gx0 as int,
                                    gy0 as int,
                                    w,
                                    j,
                                );
                                assert(spec_slots_ok_one(
                                    prev_out + t@,
                                    tiles_start as int,
                                    out@.len() as int,
                                    prev_slots,
                                    reader,
                                    z as int,
                                    gx0 as int,
                                    gy0 as int,
                                    w,
                                    j,
                                ));
                            } else {
                                assert(j == i);
                            }
                        }
                    }
                },
                None => {
                    slots.push((0u64, 0u32));
                    proof {
                        lemma_slots_len_total_push(prev_slots, (0u64, 0u32), prev_slots.len() as nat);
                        assert forall|j: int| 0 <= j < slots@.len() implies #[trigger] spec_slots_ok_one(
                            out@,
                            tiles_start as int,
                            out@.len() as int,
                            slots@,
                            reader,
                            z as int,
                            gx0 as int,
                            gy0 as int,
                            w,
                            j,
                        ) by {
                            if j < prev_slots.len() {
                                assert(slots@[j] == prev_slots[j]);
                                assert(spec_slots_ok_one(
                                    prev_out,
                                    tiles_start as int,
                                    prev_out.len() as int,
                                    prev_slots,
                                    reader,
                                    z as int,
                                    gx0 as int,
                                    gy0 as int,
                                    w,
                                    j,
                                ));
                            } else {
                                assert(j == i);
                            }
                        }
                    }
                },
            }
            gx = gx + 1;
        }
        proof {
            vstd::arithmetic::mul::lemma_mul_is_distributive_add_other_way(w, gy - gy0, 1);
            lemma_block_payload_split(
                reader,
                z as int,
                gx0 as int,
                gy0 as int,
                w as nat,
                (gy - gy0) as nat,
                1,
            );
            assert(spec_block_payload(reader, z as int, gx0 as int, gy as int + 1, w as nat, 0)
                == 0);
            assert(spec_block_payload(reader, z as int, gx0 as int, gy as int, w as nat, 1)
                == spec_row_payload(reader, z as int, gy as int, gx0 as int, w as nat));
        }
        gy = gy + 1;
    }
    let tiles_len = (out.len() - tiles_start) as u64;
    proof {
        assert(tiles_len <= u32::MAX);
    }
    let index_start = out.len();
    let ghost body_out = out@;
    let mut si: usize = 0;
    while si < slots.len()
        invariant
            si <= slots@.len(),
            out@.len() == index_start + si * (INDEX_ENTRY_SIZE as int),
            out@.take(index_start as int) == body_out,
            forall|i: int|
                0 <= i < si ==> {
                    &&& out@.subrange(
                        index_start + i * (INDEX_ENTRY_SIZE as int),
                        index_start + i * (INDEX_ENTRY_SIZE as int) + 8,
                    ) == nat_to_be((#[trigger] slots@[i]).0 as nat, 8)
                    &&& out@.subrange(
                        index_start + i * (INDEX_ENTRY_SIZE as int) + 8,
                        index_start + i * (INDEX_ENTRY_SIZE as int) + 12,
                    ) == nat_to_be(slots@[i].1 as nat, 4)
                },
        decreases slots@.len() - si,
    {
        let ghost before = out@;
        let sl = slots[si];
        push_uint_be(out, sl.0, 8);
        push_uint_be(out, sl.1 as u64, 4);
        proof {
            lemma_nat_to_be_len_all();
            assert(out@.take(index_start as int) =~= body_out);
            assert forall|i: int| 0 <= i <= si implies {
                &&& out@.subrange(
                    index_start + i * (INDEX_ENTRY_SIZE as int),
                    index_start + i * (INDEX_ENTRY_SIZE as int) + 8,
                ) == nat_to_be((#[trigger] slots@[i]).0 as nat, 8)
                &&& out@.subrange(
                    index_start + i * (INDEX_ENTRY_SIZE as int) + 8,
                    index_start + i * (INDEX_ENTRY_SIZE as int) + 12,
                ) == nat_to_be(slots@[i].1 as nat, 4)
            } by {
                vstd::arithmetic::mul::lemma_mul_inequality(i, si as int, INDEX_ENTRY_SIZE as int);
                vstd::arithmetic::mul::lemma_mul_is_commutative(i, INDEX_ENTRY_SIZE as int);
                vstd::arithmetic::mul::lemma_mul_is_commutative(si as int, INDEX_ENTRY_SIZE as int);
                if i < si {
                    vstd::arithmetic::mul::lemma_mul_inequality(
                        i + 1,
                        si as int,
                        INDEX_ENTRY_SIZE as int,
                    );
                    vstd::arithmetic::mul::lemma_mul_is_distributive_add_other_way(
                        INDEX_ENTRY_SIZE as int,
                        i,
                        1,
                    );
                    assert(out@.subrange(
                        index_start + i * (INDEX_ENTRY_SIZE as int),
                        index_start + i * (INDEX_ENTRY_SIZE as int) + 8,
                    ) =~= before.subrange(
                        index_start + i * (INDEX_ENTRY_SIZE as int),
                        index_start + i * (INDEX_ENTRY_SIZE as int) + 8,
                    ));
                    assert(out@.subrange(
                        index_start + i * (INDEX_ENTRY_SIZE as int) + 8,
                        index_start + i * (INDEX_ENTRY_SIZE as int) + 12,
                    ) =~= before.subrange(
                        index_start + i * (INDEX_ENTRY_SIZE as int) + 8,
                        index_start + i * (INDEX_ENTRY_SIZE as int) + 12,
                    ));
                } else {
                    assert(out@.subrange(
                        index_start + i * (INDEX_ENTRY_SIZE as int),
                        index_start + i * (INDEX_ENTRY_SIZE as int) + 8,
                    ) =~= nat_to_be(slots@[i].0 as nat, 8));
                    assert(out@.subrange(
                        index_start + i * (INDEX_ENTRY_SIZE as int) + 8,
                        index_start + i * (INDEX_ENTRY_SIZE as int) + 12,
                    ) =~= nat_to_be(slots@[i].1 as nat, 4));
                }
            }
            vstd::arithmetic::mul::lemma_mul_is_distributive_add_other_way(
                INDEX_ENTRY_SIZE as int,
                si as int,
                1,
            );
        }
        si = si + 1;
    }
    proof {
        vstd::arithmetic::mul::lemma_mul_upper_bound(w, 256, h, 256);
        vstd::arithmetic::mul::lemma_mul_is_commutative(h, w);
        assert(slots@.len() <= 65536);
        assert forall|j: int| 0 <= j < slots@.len() implies #[trigger] spec_slots_ok_one(
            out@,
            tiles_start as int,
            index_start as int,
            slots@,
            reader,
            z as int,
            gx0 as int,
            gy0 as int,
            w,
            j,
        ) by {
            assert(spec_slots_ok_one(
                body_out,
                tiles_start as int,
                index_start as int,
                slots@,
                reader,
                z as int,
                gx0 as int,
                gy0 as int,
                w,
                j,
            ));
            let s0 = slots@[j].0 as int;
            let s1 = slots@[j].1 as int;
            assert(out@.take(index_start as int) == body_out);
            assert(out@.subrange(tiles_start + s0, tiles_start + s0 + s1) =~= body_out.subrange(
                tiles_start + s0,
                tiles_start + s0 + s1,
            ));
        }
    }
    let e = BlockEntry {
        z,
        x: bx,
        y: by,
        y_min: (gy0 - by * 256) as u8,
        y_max: (gy1 - by * 256) as u8,
        x_min: (gx0 - bx * 256) as u8,
        x_max: (gx1 - bx * 256) as u8,
        tiles_range: ByteRange::new(tiles_start as u64, tiles_len),
        index_range: ByteRange::new(
            index_start as u64,
            (slots.len() * INDEX_ENTRY_SIZE) as u64,
        ),
    };
    proof {
        lemma_write_block_entry_matches(
            out@,
            e,
            reader,
            slots@,
            tiles_start as int,
            index_start as int,
            gx0 as int,
            gy0 as int,
        );
        assert(final(out)@.take(tiles_start as int) =~= body_out.take(tiles_start as int));
        assert(final(out)@.take(old(out)@.len() as int) =~= old(out)@);
    }
    e
}

/// One slot of `spec_slots_ok`, named for per-slot proofs.
pub open spec fn spec_slots_ok_one<R: crate::reader::TileReader>(
    b: Seq<u8>,
    ts: int,
    pe: int,
    slots: Seq<(u64, u32)>,
    r: &R,
    z: int,
    gx0: int,
    gy0: int,
    w: int,
    i: int,
) -> bool {
    let gx = gx0 + i % w;
    let gy = gy0 + i / w;
    match r.spec_tile(z, gx, gy) {
        Some(t) => {
            &&& slots[i].1 == t.len()
            &&& t.len() > 0
            &&& ts + slots[i].0 + slots[i].1 <= pe
            &&& pe <= b.len()
            &&& b.subrange(ts + slots[i].0, ts + slots[i].0 + slots[i].1) == t
        },
        None => slots[i].0 == 0 && slots[i].1 == 0,
    }
}

proof fn lemma_slots_ok_one_append<R: crate::reader::TileReader>(
    b: Seq<u8>,
    s: Seq<u8>,
    ts: int,
    pe: int,
    pe2: int,
    slots: Seq<(u64, u32)>,
    r: &R,
    z: int,
    gx0: int,
    gy0: int,
    w: int,
    i: int,
)
    requires
        0 <= i < slots.len(),
        spec_slots_ok_one(b, ts, pe, slots, r, z, gx0, gy0, w, i),
        0 <= ts,
        pe <= pe2 <= b.len() + s.len(),
    ensures
        spec_slots_ok_one(b + s, ts, pe2, slots, r, z, gx0, gy0, w, i),
{
    let gx = gx0 + i % w;
    let gy = gy0 + i / w;
    match r.spec_tile(z, gx, gy) {
        Some(t) => {
            assert((b + s).subrange(ts + slots[i].0, ts + slots[i].0 + slots[i].1) =~= b.subrange(
                ts + slots[i].0,
                ts + slots[i].0 + slots[i].1,
            ));
        },
        None => {},
    }
}

/// Row-major index arithmetic, packaged.
proof fn lemma_fundamental_div_mod_converse_pair(i: int, w: int, q: int, r: int)
    requires
        w > 0,
        0 <= r < w,
        i == q * w + r,
        0 <= q,
    ensures
        i / w == q,
        i % w == r,
{
    lemma_fundamental_div_mod_converse(i, w, q, r);
}

/// Assembles `spec_entry_matches` for a block entry from the slot facts
/// and the written index bytes.
#[verifier::rlimit(100)]
proof fn lemma_write_block_entry_matches<R: crate::reader::TileReader>(
    b: Seq<u8>,
    e: BlockEntry,
    r: &R,
    slots: Seq<(u64, u32)>,
    tiles_start: int,
    index_start: int,
    gx0: int,
    gy0: int,
)
    requires
        e.x_min <= e.x_max,
        e.y_min <= e.y_max,
        e.z <= crate::types::MAX_ZOOM,
        e.tiles_range.offset == tiles_start,
        e.tiles_range.length == index_start - tiles_start,
        e.index_range.offset == index_start,
        e.index_range.length == (INDEX_ENTRY_SIZE as int) * slots.len(),
        slots.len() == e.spec_slots(),
        gx0 == 256 * e.x + e.x_min,
        gy0 == 256 * e.y + e.y_min,
        256 * e.x + e.x_max < pow2(e.z as nat),
        256 * e.y + e.y_max < pow2(e.z as nat),
        HEADER_SIZE <= tiles_start <= index_start,
        b.len() == index_start + (INDEX_ENTRY_SIZE as int) * slots.len(),
        e.tiles_range.length <= u32::MAX,
        e.spec_slots() <= 65536,
        spec_slots_ok(b, tiles_start, index_start, slots, r, e.z as int, gx0, gy0, e.spec_width()),
        spec_slots_len_total(slots, slots.len() as nat) == e.tiles_range.length,
        forall|i: int|
            0 <= i < slots.len() ==> {
                &&& b.subrange(
                    index_start + i * (INDEX_ENTRY_SIZE as int),
                    index_start + i * (INDEX_ENTRY_SIZE as int) + 8,
                ) == nat_to_be((#[trigger] slots[i]).0 as nat, 8)
                &&& b.subrange(
                    index_start + i * (INDEX_ENTRY_SIZE as int) + 8,
                    index_start + i * (INDEX_ENTRY_SIZE as int) + 12,
                ) == nat_to_be(slots[i].1 as nat, 4)
            },
    ensures
        spec_entry_matches(b, e, r),
{
    lemma2_to64();
    lemma2_to64_rest();
    assert forall|i: int| 0 <= i < e.spec_slots() implies (#[trigger] spec_index_slot(b, e, i)).0
        == slots[i].0 && spec_index_slot(b, e, i).1 == slots[i].1 by {
        lemma_slot_index_in_range(e, i);
        assert(b.subrange(
            index_start + i * (INDEX_ENTRY_SIZE as int),
            index_start + i * (INDEX_ENTRY_SIZE as int) + 8,
        ) == nat_to_be(slots[i].0 as nat, 8));
        lemma_uint_bytes_round_trip(Endian::Big, slots[i].0 as nat, 8);
        lemma_uint_bytes_round_trip(Endian::Big, slots[i].1 as nat, 4);
    }
    lemma_slot_sum_from_slots(b, e, slots, slots.len() as nat);
    assert(spec_slot_lens_sum(b, e, e.spec_slots() as nat) == e.tiles_range.length);
    assert forall|i: int| 0 <= i < e.spec_slots() implies #[trigger] spec_entry_matches_slot(
        b,
        e,
        r,
        i,
    ) by {
        lemma_row_major_in_bounds(e, i);
        assert(spec_slots_ok_one(
            b,
            tiles_start,
            index_start,
            slots,
            r,
            e.z as int,
            gx0,
            gy0,
            e.spec_width(),
            i,
        ));
        assert(spec_index_slot(b, e, i).0 == slots[i].0);
    }
    assert forall|i: int| 0 <= i < e.spec_slots() implies (#[trigger] spec_index_slot(b, e, i)).0
        + spec_index_slot(b, e, i).1 <= e.tiles_range.length by {
        lemma_row_major_in_bounds(e, i);
        assert(spec_slots_ok_one(
            b,
            tiles_start,
            index_start,
            slots,
            r,
            e.z as int,
            gx0,
            gy0,
            e.spec_width(),
            i,
        ));
    }
    assert(e.spec_sane(b.len())) by {
        vstd::arithmetic::mul::lemma_mul_nonnegative(
            INDEX_ENTRY_SIZE as int,
            e.spec_slots(),
        );
    }
}

/// The row-major coordinate of slot `i` lies inside the entry's grid.
proof fn lemma_row_major_in_bounds(e: BlockEntry, i: int)
    requires
        e.x_min <= e.x_max,
        e.y_min <= e.y_max,
        0 <= i < e.spec_slots(),
    ensures
        0 <= i % e.spec_width() <= e.x_max - e.x_min,
        0 <= i / e.spec_width() <= e.y_max - e.y_min,
{
    let w = e.spec_width();
    let h = e.spec_height();
    vstd::arithmetic::div_mod::lemma_mod_bound(i, w);
    vstd::arithmetic::div_mod::lemma_div_pos_is_pos(i, w);
    if i / w >= h {
        vstd::arithmetic::mul::lemma_mul_inequality(h, i / w, w);
        vstd::arithmetic::div_mod::lemma_fundamental_div_mod(i, w);
        vstd::arithmetic::mul::lemma_mul_is_commutative(h, w);
        vstd::arithmetic::mul::lemma_mul_is_commutative(i / w, w);
        assert(false);
    }
}

/// Overwrites the first `hdr.len()` bytes of `out` in place.
fn overwrite_prefix(out: &mut Vec<u8>, hdr: &Vec<u8>)
    requires
        hdr@.len() <= old(out)@.len(),
    ensures
        final(out)@ == hdr@ + old(out)@.skip(hdr@.len() as int),
{
    let n = hdr.len();
    let mut i: usize = 0;
    while i < n
        invariant
            n == hdr@.len(),
            n <= out@.len(),
            out@.len() == old(out)@.len(),
            i <= n,
            forall|j: int| 0 <= j < i ==> out@[j] == hdr@[j],
            forall|j: int| i <= j < out@.len() ==> out@[j] == old(out)@[j],
        decreases n - i,
    {
        out.set(i, hdr[i]);
        i = i + 1;
    }
    proof {
        assert(final(out)@ =~= hdr@ + old(out)@.skip(hdr@.len() as int));
    }
}

/// The concatenated wire form of a directory.
pub open spec fn spec_entries_bytes(es: Seq<BlockEntry>) -> Seq<u8>
    decreases es.len(),
{
    if es.len() == 0 {
        Seq::empty()
    } else {
        spec_entry_bytes(es[0]) + spec_entries_bytes(es.skip(1))
    }
}

/// Serializing one more entry appends its 37 bytes.
pub proof fn lemma_entries_bytes_snoc(es: Seq<BlockEntry>, k: int)
    requires
        0 <= k < es.len(),
    ensures
        spec_entries_bytes(es.take(k + 1)) == spec_entries_bytes(es.take(k)) + spec_entry_bytes(
            es[k],
        ),
    decreases k,
{
    if k == 0 {
        assert(es.take(1)[0] == es[0]);
        assert(es.take(1).skip(1) =~= Seq::<BlockEntry>::empty());
        assert(es.take(0) =~= Seq::<BlockEntry>::empty());
        assert(spec_entries_bytes(Seq::<BlockEntry>::empty()) == Seq::<u8>::empty());
        assert(spec_entries_bytes(es.take(1)) == spec_entry_bytes(es[0])
            + Seq::<u8>::empty());
        assert(spec_entry_bytes(es[0]) + Seq::<u8>::empty() =~= spec_entry_bytes(es[0]));
        assert(spec_entries_bytes(es.take(0)) + spec_entry_bytes(es[0]) =~= spec_entry_bytes(
            es[0],
        ));
    } else {
        lemma_entries_bytes_snoc(es.skip(1), k - 1);
        assert(es.take(k + 1)[0] == es[0]);
        assert(es.take(k + 1).skip(1) =~= es.skip(1).take(k));
        assert(es.take(k).skip(1) =~= es.skip(1).take(k - 1));
        assert(es.take(k)[0] == es[0]);
        assert(es.skip(1)[k - 1] == es[k]);
        assert(spec_entries_bytes(es.take(k + 1)) == spec_entry_bytes(es[0])
            + spec_entries_bytes(es.skip(1).take(k)));
        assert(spec_entry_bytes(es[0]) + (spec_entries_bytes(es.skip(1).take(k - 1))
            + spec_entry_bytes(es[k])) =~= (spec_entry_bytes(es[0]) + spec_entries_bytes(
            es.skip(1).take(k - 1),
        )) + spec_entry_bytes(es[k]));
    }
}

/// A serialized directory parses back to itself, whatever the entries.
pub proof fn lemma_entries_bytes_parse(es: Seq<BlockEntry>)
    requires
        forall|k: int|
            0 <= k < es.len() ==> (#[trigger] es[k]).tiles_range.length <= u32::MAX
                && es[k].index_range.length <= u32::MAX,
    ensures
        spec_parse_dir(spec_entries_bytes(es)) == Some(es),
        spec_entries_bytes(es).len() == (ENTRY_SIZE as int) * es.len(),
    decreases es.len(),
{
    if es.len() == 0 {
        assert(spec_entries_bytes(es) =~= Seq::<u8>::empty());
    } else {
        assert forall|k: int| 0 <= k < es.skip(1).len() implies (#[trigger] es.skip(
            1,
        )[k]).tiles_range.length <= u32::MAX && es.skip(1)[k].index_range.length <= u32::MAX by {
            assert(es.skip(1)[k] == es[k + 1]);
        }
        lemma_entries_bytes_parse(es.skip(1));
        lemma_entry_round_trip(es[0], spec_entry_bytes(es[0]));
        let b = spec_entries_bytes(es);
        assert(b.take(ENTRY_SIZE as int) =~= spec_entry_bytes(es[0]));
        assert(b.skip(ENTRY_SIZE as int) =~= spec_entries_bytes(es.skip(1)));
        assert(spec_parse_dir(b) == Some(seq![es[0]] + es.skip(1)));
        assert(seq![es[0]] + es.skip(1) =~= es);
    }
}

/// Rewriting the header bytes leaves a matching entry matching: all its
/// ranges lie past the header.
pub proof fn lemma_entry_matches_rewrite_prefix<R: crate::reader::TileReader>(
    b: Seq<u8>,
    hdr: Seq<u8>,
    e: BlockEntry,
    r: &R,
)
    requires
        spec_entry_matches(b, e, r),
        hdr.len() == HEADER_SIZE,
        b.len() >= HEADER_SIZE,
    ensures
        spec_entry_matches(hdr + b.skip(HEADER_SIZE as int), e, r),
{
    let b2 = hdr + b.skip(HEADER_SIZE as int);
    assert(b2.len() == b.len());
    assert forall|lo: int, hi: int|
        HEADER_SIZE <= lo <= hi <= b.len() implies b2.subrange(lo, hi) == b.subrange(lo, hi) by {
        assert(b2.subrange(lo, hi) =~= b.subrange(lo, hi));
    }
    assert forall|i: int| 0 <= i < e.spec_slots() implies #[trigger] spec_index_slot(b2, e, i)
        == spec_index_slot(b, e, i) by {
        lemma_slot_index_in_range(e, i);
    }
    lemma_slot_lens_sum_congruent(b2, b, e, e.spec_slots() as nat);
    assert forall|i: int| 0 <= i < e.spec_slots() implies #[trigger] spec_entry_matches_slot(
        b2,
        e,
        r,
        i,
    ) by {
        lemma_slot_index_in_range(e, i);
        assert(spec_entry_matches_slot(b, e, r, i));
        assert(spec_index_slot(b2, e, i) == spec_index_slot(b, e, i));
        let slot = spec_index_slot(b, e, i);
        assert(spec_entry_slots_fit(b, e));
        assert(slot.0 + slot.1 <= e.tiles_range.length);
    }
}

/// What a lookup in a written archive returns: exactly the reader's tile
/// for every coordinate the pyramid covers, and nothing anywhere else.
#[verifier::rlimit(100)]
pub proof fn lemma_archive_lookup<R: crate::reader::TileReader>(
    b: Seq<u8>,
    es: Seq<BlockEntry>,
    r: &R,
    z: int,
    x: int,
    y: int,
)
    requires
        spec_archive_entries(b) == Some(es),
        forall|k: int|
            0 <= k < es.len() ==> spec_entry_matches(b, #[trigger] es[k], r)
                && spec_entry_cell_ok(es[k], r.spec_pyramid()),
        forall|z2: int, bx: int, by: int|
            spec_cell_in_partition(r.spec_pyramid(), z2, bx, by) ==> spec_has_key(es, z2, bx, by),
        r.spec_pyramid().spec_valid(),
        0 <= z,
        0 <= x,
        0 <= y,
    ensures
        spec_archive_tile(b, z, x, y) == (if crate::types::pyramid_contains(
            r.spec_pyramid(),
            z,
            x,
            y,
        ) {
            r.spec_tile(z, x, y)
        } else {
            None::<Seq<u8>>
        }),
{
    let p = r.spec_pyramid();
    let bx = x / 256;
    let by = y / 256;
    vstd::arithmetic::div_mod::lemma_fundamental_div_mod(x, 256);
    vstd::arithmetic::div_mod::lemma_fundamental_div_mod(y, 256);
    vstd::arithmetic::div_mod::lemma_mod_bound(x, 256);
    vstd::arithmetic::div_mod::lemma_mod_bound(y, 256);
    vstd::arithmetic::div_mod::lemma_div_pos_is_pos(x, 256);
    vstd::arithmetic::div_mod::lemma_div_pos_is_pos(y, 256);
    let lx = x % 256;
    let ly = y % 256;
    lemma_find_entry_characterize(es, z, bx, by);
    match spec_find_entry(es, z, bx, by) {
        None => {
            if crate::types::pyramid_contains(p, z, x, y) {
                let b0 = p.spec_level(z)->Some_0;
                vstd::arithmetic::div_mod::lemma_div_is_ordered(b0.x_min as int, x, 256);
                vstd::arithmetic::div_mod::lemma_div_is_ordered(x, b0.x_max as int, 256);
                vstd::arithmetic::div_mod::lemma_div_is_ordered(b0.y_min as int, y, 256);
                vstd::arithmetic::div_mod::lemma_div_is_ordered(y, b0.y_max as int, 256);
                assert(spec_cell_in_partition(p, z, bx, by));
                assert(spec_has_key(es, z, bx, by));
                let k0 = choose|k: int|
                    0 <= k < es.len() && (#[trigger] es[k]).z == z && es[k].x == bx && es[k].y
                        == by;
                assert(false);
            }
        },
        Some(e) => {
            let k0 = choose|k: int|
                0 <= k < es.len() && es[k] == e && e.z == z && e.x == bx && e.y == by;
            assert(spec_entry_matches(b, e, r));
            assert(spec_entry_cell_ok(e, p));
            let b0 = p.spec_level(z)->Some_0;
            assert(p.spec_level(e.z as int) is Some);
            let w = e.spec_width();
            if crate::types::pyramid_contains(p, z, x, y) {
                assert(b0.spec_contains(x, y));
                assert(256 * bx + e.x_min == vstd::math::max(b0.x_min as int, 256 * bx));
                assert(e.x_min <= lx <= e.x_max && e.y_min <= ly <= e.y_max) by {
                    assert(x == 256 * bx + lx);
                    assert(y == 256 * by + ly);
                }
                let i = (ly - e.y_min) * w + (lx - e.x_min);
                lemma_slot_index_bounds(e, lx, ly);
                lemma_fundamental_div_mod_converse(i, w, ly - e.y_min, lx - e.x_min);
                assert(spec_entry_matches_slot(b, e, r, i));
                assert(e.x_min + i % w == lx && e.y_min + i / w == ly);
                assert(256 * e.x + (e.x_min + i % w) == x);
                assert(256 * e.y + (e.y_min + i / w) == y);
            } else {
                // the coordinate misses the stored sub-rectangle
                assert(x == 256 * bx + lx && y == 256 * by + ly);
                if e.x_min <= lx <= e.x_max && e.y_min <= ly <= e.y_max {
                    assert(vstd::math::max(b0.x_min as int, 256 * bx) <= x);
                    assert(x <= vstd::math::min(b0.x_max as int, 256 * bx + 255));
                    assert(vstd::math::max(b0.y_min as int, 256 * by) <= y);
                    assert(y <= vstd::math::min(b0.y_max as int, 256 * by + 255));
                    assert(b0.spec_contains(x, y)) by {
                        assert(!b0.empty) by {
                            assert(p.spec_valid());
                            assert(0 <= z < crate::types::PYRAMID_LEVELS);
                            assert(match p@[z] {
                                Some(bb) => bb.spec_valid() && !bb.empty && bb.level == z,
                                None => true,
                            });
                        }
                    }
                    assert(false);
                }
            }
        },
    }
}

proof fn lemma_has_key_push(es: Seq<BlockEntry>, e: BlockEntry, z: int, bx: int, by: int)
    requires
        spec_has_key(es, z, bx, by),
    ensures
        spec_has_key(es.push(e), z, bx, by),
{
    let k0 = choose|k: int|
        0 <= k < es.len() && (#[trigger] es[k]).z == z && es[k].x == bx && es[k].y == by;
    assert(es.push(e)[k0] == es[k0]);
}


/// Writes every block of one zoom level: the level's bbox partitioned
/// into 256-tile cells in row-major block order, one entry appended per
/// cell.
#[verifier::loop_isolation(false)]
#[verifier::spinoff_prover]
#[verifier::rlimit(100)]
fn write_level<R: crate::reader::TileReader>(
    reader: &R,
    out: &mut Vec<u8>,
    dir: &mut Vec<BlockEntry>,
    z: u8,
    bbox: crate::types::TileBBox,
)
    requires
        reader.spec_pyramid().spec_level(z as int) == Some(bbox),
        bbox.spec_valid(),
        !bbox.empty,
        bbox.level == z,
        forall|z2: int, bx: int, by: int|
            spec_cell_in_partition(reader.spec_pyramid(), z2, bx, by) ==> #[trigger] spec_cell_payload(
                reader,
                z2,
                bx,
                by,
            ) <= u32::MAX,
        forall|z2: int, x: int, y: int|
            crate::types::pyramid_contains(reader.spec_pyramid(), z2, x, y)
                ==> #[trigger] reader.spec_tile(z2, x, y) != Some(Seq::<u8>::empty()),
        old(out)@.len() >= HEADER_SIZE,
        forall|k: int|
            0 <= k < old(dir)@.len() ==> spec_entry_matches(old(out)@, #[trigger] old(dir)@[k], reader)
                && spec_entry_cell_ok(old(dir)@[k], reader.spec_pyramid()),
        forall|k: int|
            0 <= k < old(dir)@.len() - 1 ==> spec_key_lt(#[trigger] old(dir)@[k], old(dir)@[k + 1]),
        forall|k: int| 0 <= k < old(dir)@.len() ==> (#[trigger] old(dir)@[k]).z < z,
        forall|z2: int, bx2: int, by2: int|
            spec_cell_in_partition(reader.spec_pyramid(), z2, bx2, by2) && z2 < z ==> spec_has_key(
                old(dir)@,
                z2,
                bx2,
                by2,
            ),
    ensures
        final(out)@.len() >= old(out)@.len(),
        final(out)@.take(old(out)@.len() as int) == old(out)@,
        final(dir)@.len() == old(dir)@.len() + spec_level_blocks(reader.spec_pyramid(), z as int),
        forall|k: int|
            0 <= k < final(dir)@.len() ==> spec_entry_matches(final(out)@, #[trigger] final(dir)@[k], reader)
                && spec_entry_cell_ok(final(dir)@[k], reader.spec_pyramid()),
        forall|k: int|
            0 <= k < final(dir)@.len() - 1 ==> spec_key_lt(
                #[trigger] final(dir)@[k],
                final(dir)@[k + 1],
            ),
        forall|k: int| 0 <= k < final(dir)@.len() ==> (#[trigger] final(dir)@[k]).z < z + 1,
        forall|z2: int, bx2: int, by2: int|
            spec_cell_in_partition(reader.spec_pyramid(), z2, bx2, by2) && z2 < z + 1
                ==> spec_has_key(final(dir)@, z2, bx2, by2),
{
    let ghost p = reader.spec_pyramid();
    let ghost base = old(dir)@.len() as int;
    proof {
        crate::types::zoom_side_length_fits_u32(z);
    }
    let bx0 = bbox.x_min / 256;
    let bx1 = bbox.x_max / 256;
    let by0 = bbox.y_min / 256;
    let by1 = bbox.y_max / 256;
    let ghost bw = bx1 - bx0 + 1;
    proof {
        vstd::arithmetic::div_mod::lemma_div_is_ordered(bbox.x_min as int, bbox.x_max as int, 256);
        vstd::arithmetic::div_mod::lemma_div_is_ordered(bbox.y_min as int, bbox.y_max as int, 256);
    }
    let mut by: u32 = by0;
    while by <= by1
        invariant
            by0 <= by <= by1 + 1,
            out@.len() >= old(out)@.len(),
            out@.take(old(out)@.len() as int) == old(out)@,
            dir@.len() == base + (by - by0) * bw,
            dir@.take(base) == old(dir)@,
            forall|k: int|
                0 <= k < dir@.len() ==> spec_entry_matches(out@, #[trigger] dir@[k], reader)
                    && spec_entry_cell_ok(dir@[k], p),
            forall|k: int|
                0 <= k < dir@.len() - 1 ==> spec_key_lt(#[trigger] dir@[k], dir@[k + 1]),
            forall|k: int|
                0 <= k < dir@.len() ==> (#[trigger] dir@[k]).z < z || (dir@[k].z == z && (
                dir@[k].y as int) < by),
            forall|z2: int, bx2: int, by2: int|
                spec_cell_in_partition(p, z2, bx2, by2) && (z2 < z || (z2 == z && by2 < by))
                    ==> spec_has_key(dir@, z2, bx2, by2),
        decreases by1 + 1 - by,
    {
        let mut bx: u32 = bx0;
        while bx <= bx1
            invariant
                by0 <= by <= by1,
                bx0 <= bx <= bx1 + 1,
                out@.len() >= old(out)@.len(),
                out@.take(old(out)@.len() as int) == old(out)@,
                dir@.len() == base + (by - by0) * bw + (bx - bx0),
                dir@.take(base) == old(dir)@,
                forall|k: int|
                    0 <= k < dir@.len() ==> spec_entry_matches(out@, #[trigger] dir@[k], reader)
                        && spec_entry_cell_ok(dir@[k], p),
                forall|k: int|
                    0 <= k < dir@.len() - 1 ==> spec_key_lt(#[trigger] dir@[k], dir@[k + 1]),
                forall|k: int|
                    0 <= k < dir@.len() ==> (#[trigger] dir@[k]).z < z || (dir@[k].z == z && ((
                    dir@[k].y as int) < by || ((dir@[k].y as int) == by && (dir@[k].x as int)
                        < bx))),
                forall|z2: int, bx2: int, by2: int|
                    spec_cell_in_partition(p, z2, bx2, by2) && (z2 < z || (z2 == z && (by2 < by || (
                    by2 == by && bx2 < bx)))) ==> spec_has_key(dir@, z2, bx2, by2),
            decreases bx1 + 1 - bx,
        {
            proof {
                vstd::arithmetic::div_mod::lemma_fundamental_div_mod(bbox.x_min as int, 256);
                vstd::arithmetic::div_mod::lemma_fundamental_div_mod(bbox.x_max as int, 256);
                vstd::arithmetic::div_mod::lemma_fundamental_div_mod(bbox.y_min as int, 256);
                vstd::arithmetic::div_mod::lemma_fundamental_div_mod(bbox.y_max as int, 256);
                vstd::arithmetic::div_mod::lemma_mod_bound(bbox.x_min as int, 256);
                vstd::arithmetic::div_mod::lemma_mod_bound(bbox.x_max as int, 256);
                vstd::arithmetic::div_mod::lemma_mod_bound(bbox.y_min as int, 256);
                vstd::arithmetic::div_mod::lemma_mod_bound(bbox.y_max as int, 256);
                vstd::arithmetic::mul::lemma_mul_inequality(bx as int, bx1 as int, 256);
                vstd::arithmetic::mul::lemma_mul_inequality(bx0 as int, bx as int, 256);
                vstd::arithmetic::mul::lemma_mul_inequality(by as int, by1 as int, 256);
                vstd::arithmetic::mul::lemma_mul_inequality(by0 as int, by as int, 256);
            }
            let gx0 = if bbox.x_min > bx * 256 {
                bbox.x_min
            } else {
                bx * 256
            };
            let gx1 = if bbox.x_max < bx * 256 + 255 {
                bbox.x_max
            } else {
                bx * 256 + 255
            };
            let gy0 = if bbox.y_min > by * 256 {
                bbox.y_min
            } else {
                by * 256
            };
            let gy1 = if bbox.y_max < by * 256 + 255 {
                bbox.y_max
            } else {
                by * 256 + 255
            };
            proof {
                assert(spec_cell_in_partition(p, z as int, bx as int, by as int));
                assert(spec_cell_payload(reader, z as int, bx as int, by as int)
                    == spec_block_payload(
                    reader,
                    z as int,
                    gx0 as int,
                    gy0 as int,
                    (gx1 - gx0 + 1) as nat,
                    (gy1 - gy0 + 1) as nat,
                ));
                assert forall|x2: int, y2: int|
                    gx0 <= x2 <= gx1 && gy0 <= y2 <= gy1 implies #[trigger] reader.spec_tile(
                    z as int,
                    x2,
                    y2,
                ) != Some(Seq::<u8>::empty()) by {
                    assert(crate::types::pyramid_contains(p, z as int, x2, y2));
                }
            }
            let ghost out_before = out@;
            let ghost dir_before = dir@;
            let e = write_block(reader, out, z, bx, by, gx0, gx1, gy0, gy1);
            proof {
                let suffix = out@.skip(out_before.len() as int);
                assert(out@ =~= out_before + suffix);
                assert(out@.take(old(out)@.len() as int) =~= out_before.take(
                    old(out)@.len() as int,
                ));
                assert forall|k: int|
                    0 <= k < dir_before.len() implies spec_entry_matches(
                    out@,
                    #[trigger] dir_before[k],
                    reader,
                ) by {
                    lemma_entry_matches_append(out_before, suffix, dir_before[k], reader);
                }
                assert(spec_entry_cell_ok(e, p)) by {
                    assert(p.spec_level(z as int) == Some(bbox));
                }
            }
            dir.push(e);
            proof {
                assert(dir@.take(base) =~= dir_before.take(base));
                assert forall|k: int|
                    0 <= k < dir@.len() implies spec_entry_matches(out@, #[trigger] dir@[k], reader)
                    && spec_entry_cell_ok(dir@[k], p) by {
                    if k < dir_before.len() {
                        assert(dir@[k] == dir_before[k]);
                    } else {
                        assert(dir@[k] == e);
                    }
                }
                assert forall|z2: int, bx2: int, by2: int|
                    spec_cell_in_partition(p, z2, bx2, by2) && (z2 < z || (z2 == z && (by2 < by || (
                    by2 == by && bx2 < bx + 1)))) implies spec_has_key(dir@, z2, bx2, by2) by {
                    if z2 == z && by2 == by && bx2 == bx {
                        assert(dir@[dir_before.len() as int] == e);
                    } else {
                        assert(spec_has_key(dir_before, z2, bx2, by2));
                        lemma_has_key_push(dir_before, e, z2, bx2, by2);
                    }
                }
                assert forall|k: int|
                    0 <= k < dir@.len() - 1 implies spec_key_lt(#[trigger] dir@[k], dir@[k + 1]) by {
                    if k < dir_before.len() as int - 1 {
                        assert(dir@[k] == dir_before[k]);
                        assert(dir@[k + 1] == dir_before[k + 1]);
                    } else {
                        assert(dir@[k] == dir_before[k]);
                        assert(dir@[k + 1] == e);
                    }
                }
            }
            bx = bx + 1;
        }
        proof {
            vstd::arithmetic::mul::lemma_mul_is_distributive_add_other_way(bw, by - by0, 1);
        }
        by = by + 1;
    }
    proof {
        assert(spec_level_blocks(p, z as int) == (bx1 - bx0 + 1) * (by1 - by0 + 1));
        vstd::arithmetic::mul::lemma_mul_is_commutative(by1 + 1 - by0, bw);
        assert forall|z2: int, bx2: int, by2: int|
            spec_cell_in_partition(p, z2, bx2, by2) && z2 < z + 1 implies spec_has_key(
            final(dir)@,
            z2,
            bx2,
            by2,
        ) by {
            if z2 == z {
                assert(by2 <= by1);
            }
        }
    }
}



/// Writes every level of the reader's pyramid, ascending by zoom,
/// appending one directory entry per block cell.
#[verifier::loop_isolation(false)]
#[verifier::spinoff_prover]
#[verifier::rlimit(100)]
fn write_pyramid<R: crate::reader::TileReader>(reader: &R, out: &mut Vec<u8>, dir: &mut Vec<BlockEntry>)
    requires
        forall|z2: int, bx: int, by: int|
            spec_cell_in_partition(reader.spec_pyramid(), z2, bx, by) ==> #[trigger] spec_cell_payload(
                reader,
                z2,
                bx,
                by,
            ) <= u32::MAX,
        forall|z2: int, x: int, y: int|
            crate::types::pyramid_contains(reader.spec_pyramid(), z2, x, y)
                ==> #[trigger] reader.spec_tile(z2, x, y) != Some(Seq::<u8>::empty()),
        reader.spec_pyramid().spec_valid(),
        old(out)@.len() >= HEADER_SIZE,
        old(dir)@.len() == 0,
    ensures
        final(out)@.len() >= old(out)@.len(),
        final(out)@.take(old(out)@.len() as int) == old(out)@,
        final(dir)@.len() == spec_blocks_upto(reader.spec_pyramid(), 32),
        forall|k: int|
            0 <= k < final(dir)@.len() ==> spec_entry_matches(final(out)@, #[trigger] final(dir)@[k], reader)
                && spec_entry_cell_ok(final(dir)@[k], reader.spec_pyramid()),
        forall|k: int|
            0 <= k < final(dir)@.len() - 1 ==> spec_key_lt(#[trigger] final(dir)@[k], final(dir)@[k + 1]),
        forall|z2: int, bx2: int, by2: int|
            spec_cell_in_partition(reader.spec_pyramid(), z2, bx2, by2) ==> spec_has_key(
                final(dir)@,
                z2,
                bx2,
                by2,
            ),
{
    let ghost p = reader.spec_pyramid();
    let mut z: u8 = 0;
    while z < 32
        invariant
            z <= 32,
            out@.len() >= old(out)@.len(),
            out@.take(old(out)@.len() as int) == old(out)@,
            dir@.len() == spec_blocks_upto(p, z as int),
            forall|k: int|
                0 <= k < dir@.len() ==> spec_entry_matches(out@, #[trigger] dir@[k], reader)
                    && spec_entry_cell_ok(dir@[k], p),
            forall|k: int| 0 <= k < dir@.len() - 1 ==> spec_key_lt(#[trigger] dir@[k], dir@[k + 1]),
            forall|k: int| 0 <= k < dir@.len() ==> (#[trigger] dir@[k]).z < z,
            forall|z2: int, bx2: int, by2: int|
                spec_cell_in_partition(p, z2, bx2, by2) && z2 < z ==> spec_has_key(
                    dir@,
                    z2,
                    bx2,
                    by2,
                ),
        decreases 32 - z,
    {
        let level = reader.get_level_bbox(z as u64);
        match level {
            None => {
                proof {
                    assert(spec_blocks_upto(p, z as int + 1) == spec_blocks_upto(p, z as int)
                        + spec_level_blocks(p, z as int));
                    assert(spec_level_blocks(p, z as int) == 0);
                    assert forall|z2: int, bx2: int, by2: int|
                        spec_cell_in_partition(p, z2, bx2, by2) && z2 < z + 1 implies spec_has_key(
                        dir@,
                        z2,
                        bx2,
                        by2,
                    ) by {
                        if z2 == z {
                            assert(p.spec_level(z2) is None);
                        }
                    }
                }
            },
            Some(bbox) => {
                proof {
                    assert(p.spec_level(z as int) == Some(bbox));
                    assert(match p@[z as int] {
                        Some(bb) => bb.spec_valid() && !bb.empty && bb.level == z,
                        None => true,
                    });
                    assert(spec_blocks_upto(p, z as int + 1) == spec_blocks_upto(p, z as int)
                        + spec_level_blocks(p, z as int));
                }
                write_level(reader, out, dir, z, bbox);
                proof {
                    assert(out@.take(old(out)@.len() as int) =~= out@.take(
                        old(out)@.len() as int,
                    ));
                }
            },
        }
        z = z + 1;
    }
}


/// Serializes the directory entries, in order, after the blocks.
#[verifier::loop_isolation(false)]
#[verifier::spinoff_prover]
#[verifier::rlimit(100)]
fn write_directory(out: &mut Vec<u8>, dir: &Vec<BlockEntry>)
    requires
        forall|j: int|
            0 <= j < dir@.len() ==> (#[trigger] dir@[j]).tiles_range.length <= u32::MAX
                && dir@[j].index_range.length <= u32::MAX,
    ensures
        final(out)@ == old(out)@ + spec_entries_bytes(dir@),
{
    let ghost des = dir@;
    let mut k: usize = 0;
    proof {
        assert(des.take(0) =~= Seq::<BlockEntry>::empty());
        assert(out@ =~= old(out)@ + spec_entries_bytes(des.take(0)));
    }
    while k < dir.len()
        invariant
            k <= des.len(),
            out@ == old(out)@ + spec_entries_bytes(des.take(k as int)),
        decreases des.len() - k,
    {
        let e = dir[k];
        push_entry(out, &e);
        proof {
            lemma_entries_bytes_snoc(des, k as int);
            assert(out@ =~= old(out)@ + spec_entries_bytes(des.take(k as int + 1)));
        }
        k = k + 1;
    }
    proof {
        assert(des.take(des.len() as int) =~= des);
    }
}

/// Writes the reader out as one archive.  Succeeds exactly when the
/// reader's compression is one this build can apply; the bytes then parse
/// back to a structurally valid, tightly packed archive holding exactly
/// the reader's tiles over its pyramid and its metadata, under the
/// declared format, compression and zoom range.
#[verifier::loop_isolation(false)]
#[verifier::spinoff_prover]
#[verifier::rlimit(100)]
pub fn write_archive<R: crate::reader::TileReader>(reader: &R) -> (r: Result<Blob, Error>)
    requires
        forall|z: int, bx: int, by: int|
            spec_cell_in_partition(reader.spec_pyramid(), z, bx, by) ==> #[trigger] spec_cell_payload(
                reader,
                z,
                bx,
                by,
            ) <= u32::MAX,
        (ENTRY_SIZE as int) * spec_blocks_upto(reader.spec_pyramid(), 32) <= u32::MAX,
        forall|z: int, x: int, y: int|
            crate::types::pyramid_contains(reader.spec_pyramid(), z, x, y)
                ==> #[trigger] reader.spec_tile(z, x, y) != Some(Seq::<u8>::empty()),
    ensures
        match r {
            Ok(bytes) => {
                &&& reader.spec_compression() == TileCompression::Uncompressed
                &&& spec_archive_ok(bytes@)
                &&& spec_archive_tight(bytes@)
                &&& spec_parse_header(bytes@)->Some_0.tile_format == reader.spec_format()
                &&& spec_parse_header(bytes@)->Some_0.tile_compression == reader.spec_compression()
                &&& spec_parse_header(bytes@)->Some_0.block_index_range.length == (
                ENTRY_SIZE as int) * spec_blocks_upto(reader.spec_pyramid(), 32)
                &&& ((forall|z: int|
                    0 <= z < crate::types::PYRAMID_LEVELS
                        ==> reader.spec_pyramid().spec_level(z) is None)
                    ==> spec_parse_header(bytes@)->Some_0.zoom_min == 0 && spec_parse_header(
                    bytes@,
                )->Some_0.zoom_max == 0)
                &&& ((exists|z: int|
                    0 <= z < crate::types::PYRAMID_LEVELS && reader.spec_pyramid().spec_level(z)
                        is Some) ==> {
                    let h = spec_parse_header(bytes@)->Some_0;
                    &&& reader.spec_pyramid().spec_level(h.zoom_min as int) is Some
                    &&& (forall|w: int|
                        0 <= w < h.zoom_min ==> reader.spec_pyramid().spec_level(w) is None)
                    &&& reader.spec_pyramid().spec_level(h.zoom_max as int) is Some
                    &&& (forall|w: int|
                        h.zoom_max < w < crate::types::PYRAMID_LEVELS
                            ==> reader.spec_pyramid().spec_level(w) is None)
                })
                &&& spec_archive_meta(bytes@) == reader.spec_meta()
                &&& (forall|k: int|
                    0 <= k < spec_archive_entries(bytes@)->Some_0.len()
                        ==> spec_entry_cell_ok(
                        #[trigger] spec_archive_entries(bytes@)->Some_0[k],
                        reader.spec_pyramid(),
                    ))
                &&& (forall|z: int, bx: int, by: int|
                    spec_cell_in_partition(reader.spec_pyramid(), z, bx, by) ==> spec_has_key(
                        spec_archive_entries(bytes@)->Some_0,
                        z,
                        bx,
                        by,
                    ))
                &&& forall|z: int, x: int, y: int|
                    0 <= z && 0 <= x && 0 <= y ==> #[trigger] spec_archive_tile(bytes@, z, x, y)
                        == (if crate::types::pyramid_contains(reader.spec_pyramid(), z, x, y) {
                        reader.spec_tile(z, x, y)
                    } else {
                        None::<Seq<u8>>
                    })
            },
            Err(e) => e is Unsupported && reader.spec_compression()
                != TileCompression::Uncompressed,
        },
{
    let compression = reader.get_tile_compression();
    if !matches!(compression, TileCompression::Uncompressed) {
        return Err(unsupported_error("archive compression is not linked in this build"));
    }
    let format = reader.get_tile_format();
    let pyr = reader.get_bbox_pyramid();
    let ghost p = reader.spec_pyramid();
    proof {
        assert(pyr@ == p@);
    }
    let meta = reader.get_meta();
    let meta_len = meta.len();
    let mut out: Vec<u8> = Vec::new();
    let mut zi: usize = 0;
    while zi < HEADER_SIZE
        invariant
            zi <= HEADER_SIZE,
            out@.len() == zi,
        decreases HEADER_SIZE - zi,
    {
        out.push(0);
        zi = zi + 1;
    }
    append_blob(&mut out, &meta);
    proof {
        assert(out@.subrange(HEADER_SIZE as int, HEADER_SIZE + meta_len) =~= meta@);
    }
    let mut dir: Vec<BlockEntry> = Vec::new();
    let ghost out_after_meta = out@;
    write_pyramid(reader, &mut out, &mut dir);
    proof {
        assert(out@.subrange(HEADER_SIZE as int, HEADER_SIZE + meta_len) =~= out_after_meta.subrange(
            HEADER_SIZE as int,
            HEADER_SIZE + meta_len,
        ));
    }
    // the block directory
    let dir_start = out.len();
    let ghost body_out = out@;
    let ghost des = dir@;
    proof {
        assert forall|j: int|
            0 <= j < des.len() implies (#[trigger] des[j]).tiles_range.length <= u32::MAX && des[
        j].index_range.length <= u32::MAX by {
            assert(spec_entry_matches(body_out, des[j], reader));
        }
    }
    write_directory(&mut out, &dir);
    proof {
        lemma_entries_bytes_parse(des);
    }
    let dir_end = out.len();
    let dir_len = (dir_end - dir_start) as u64;
    proof {
        assert(dir_len == (ENTRY_SIZE as int) * des.len());
        assert(dir_len <= u32::MAX);
    }
    proof {
        assert forall|z: int| true implies pyr.spec_level(z) == p.spec_level(z) by {}
    }
    let zoom_min = match pyr.get_zoom_min() {
        Some(zv) => zv,
        None => 0,
    };
    let zoom_max = match pyr.get_zoom_max() {
        Some(zv) => zv,
        None => 0,
    };
    let h = VtcHeader {
        tile_format: format,
        tile_compression: compression,
        zoom_min,
        zoom_max,
        bbox_west: 0,
        bbox_south: 0,
        bbox_east: 0,
        bbox_north: 0,
        meta_range: ByteRange::new(HEADER_SIZE as u64, meta_len),
        block_index_range: ByteRange::new(dir_start as u64, dir_len),
    };
    let hdr = serialize_header(&h);
    let ghost pre_overwrite = out@;
    overwrite_prefix(&mut out, &hdr);
    proof {
        assert forall|z3: int, bx3: int, by3: int|
            spec_cell_in_partition(p, z3, bx3, by3) implies spec_has_key(des, z3, bx3, by3) by {
            assert(z3 < 32);
        }
        lemma_finish_archive(
            out@,
            pre_overwrite,
            body_out,
            hdr@,
            h,
            des,
            reader,
            meta@,
            dir_start as int,
            dir_end as int,
        );
    }
    Ok(Blob::from_vec(out))
}

impl VersatilesReader {
    /// Tile lookup by coordinate: the stored bytes, exactly as archived;
    /// an absent tile is `Ok(None)`, never an error.
    pub fn get_tile_data(&self, coord: &crate::types::TileCoord3) -> (r: Result<
        Option<Blob>,
        Error,
    >)
        ensures
            r is Ok,
            match r->Ok_0 {
                Some(t) => spec_archive_tile(
                    self.spec_data(),
                    coord.z as int,
                    coord.x as int,
                    coord.y as int,
                ) == Some(t@),
                None => spec_archive_tile(
                    self.spec_data(),
                    coord.z as int,
                    coord.x as int,
                    coord.y as int,
                ) is None,
            },
    {
        Ok(self.lookup_tile(coord.z as u64, coord.x as u64, coord.y as u64))
    }
}

impl crate::reader::TileReader for VersatilesReader {
    closed spec fn spec_format(&self) -> TileFormat {
        self.header.tile_format
    }

    closed spec fn spec_compression(&self) -> TileCompression {
        self.compression
    }

    closed spec fn spec_name(&self) -> Seq<char> {
        "memory"@
    }

    closed spec fn spec_container_name(&self) -> Seq<char> {
        "versatiles"@
    }

    fn get_name(&self) -> (r: &str) {
        "memory"
    }

    fn get_container_name(&self) -> (r: &str) {
        "versatiles"
    }

    fn override_compression(&mut self, tile_compression: TileCompression) {
        proof {
            use_type_invariant(&*self);
        }
        self.compression = tile_compression;
    }

    closed spec fn spec_meta(&self) -> Seq<u8> {
        spec_archive_meta(self.data@)
    }

    closed spec fn spec_pyramid(&self) -> crate::types::TileBBoxPyramid {
        self.pyramid
    }

    closed spec fn spec_tile(&self, z: int, x: int, y: int) -> Option<Seq<u8>> {
        spec_archive_tile(self.data@, z, x, y)
    }

    fn get_tile_format(&self) -> (r: TileFormat) {
        proof {
            use_type_invariant(&*self);
        }
        self.header.tile_format
    }

    fn get_tile_compression(&self) -> (r: TileCompression) {
        proof {
            use_type_invariant(&*self);
        }
        self.compression
    }

    fn get_meta(&self) -> (r: Blob) {
        proof {
            use_type_invariant(&*self);
        }
        let total = self.data.len();
        let off = self.header.meta_range.offset as usize;
        let n = self.header.meta_range.length as usize;
        let bytes = copy_range(&self.data, off, n);
        Blob::from_vec(bytes)
    }

    fn get_bbox_pyramid(&self) -> (r: crate::types::TileBBoxPyramid) {
        proof {
            use_type_invariant(&*self);
        }
        self.pyramid.duplicate()
    }

    fn get_level_bbox(&self, level: u64) -> (r: Option<crate::types::TileBBox>) {
        proof {
            use_type_invariant(&*self);
        }
        if level >= crate::types::PYRAMID_LEVELS as u64 {
            return None;
        }
        self.pyramid.get_level_bbox(level as u8)
    }

    fn get_minimum_zoom(&self) -> (r: Option<u8>) {
        proof {
            use_type_invariant(&*self);
        }
        self.pyramid.get_zoom_min()
    }

    fn get_maximum_zoom(&self) -> (r: Option<u8>) {
        proof {
            use_type_invariant(&*self);
        }
        self.pyramid.get_zoom_max()
    }

    fn get_tile_raw(&self, level: u64, col: u64, row: u64) -> (r: Option<Blob>) {
        self.lookup_tile(level, col, row)
    }
}

/// Round trip of a whole archive: the bytes a writer emitted from any
/// reader answer every lookup with exactly the reader's tile wherever the
/// pyramid covers the coordinate, and with nothing anywhere else.  In
/// particular a coordinate the archive was written without always reads
/// back as absent.
pub proof fn lemma_archive_round_trip<R: crate::reader::TileReader>(
    bytes: Seq<u8>,
    r: &R,
    z: int,
    x: int,
    y: int,
)
    requires
        0 <= z && 0 <= x && 0 <= y,
        spec_archive_entries(bytes) is Some,
        forall|z2: int, x2: int, y2: int|
            0 <= z2 && 0 <= x2 && 0 <= y2 ==> #[trigger] spec_archive_tile(bytes, z2, x2, y2) == (
            if crate::types::pyramid_contains(r.spec_pyramid(), z2, x2, y2) {
                r.spec_tile(z2, x2, y2)
            } else {
                None::<Seq<u8>>
            }),
    ensures
        crate::types::pyramid_contains(r.spec_pyramid(), z, x, y) ==> spec_archive_tile(
            bytes,
            z,
            x,
            y,
        ) == r.spec_tile(z, x, y),
        !crate::types::pyramid_contains(r.spec_pyramid(), z, x, y) ==> spec_archive_tile(
            bytes,
            z,
            x,
            y,
        ) is None,
{
}

/// The tile-payload partition law: in a structurally valid, tightly
/// packed archive, every block's tile-index lengths sum to exactly the
/// length of the block's tile-payload range.
pub proof fn lemma_block_payload_partition(bytes: Seq<u8>, k: int)
    requires
        spec_archive_ok(bytes),
        spec_archive_tight(bytes),
        0 <= k < spec_archive_entries(bytes)->Some_0.len(),
    ensures
        spec_slot_lens_sum(
            bytes,
            spec_archive_entries(bytes)->Some_0[k],
            spec_archive_entries(bytes)->Some_0[k].spec_slots() as nat,
        ) == spec_archive_entries(bytes)->Some_0[k].tiles_range.length,
{
}

/// Assembles the writer's postconditions from the state at the end of the
/// write: the body with its directory appended, and the header written
/// over the reserved prefix.
#[verifier::spinoff_prover]
#[verifier::rlimit(100)]
proof fn lemma_finish_archive<R: crate::reader::TileReader>(
    b: Seq<u8>,
    pre: Seq<u8>,
    body: Seq<u8>,
    hdrb: Seq<u8>,
    h: VtcHeader,
    des: Seq<BlockEntry>,
    r: &R,
    meta: Seq<u8>,
    dir_start: int,
    dir_end: int,
)
    requires
        hdrb.len() == HEADER_SIZE,
        hdrb == spec_header_bytes(h),
        h.block_index_range.length <= u32::MAX,
        b == hdrb + pre.skip(HEADER_SIZE as int),
        pre.len() >= HEADER_SIZE,
        body.len() == dir_start,
        pre.len() == dir_end,
        pre == body + spec_entries_bytes(des),
        h.meta_range.offset == HEADER_SIZE,
        h.meta_range.length == meta.len(),
        h.block_index_range.offset == dir_start,
        h.block_index_range.length == dir_end - dir_start,
        HEADER_SIZE + meta.len() <= body.len(),
        body.subrange(HEADER_SIZE as int, HEADER_SIZE + meta.len()) == meta,
        dir_end - dir_start == (ENTRY_SIZE as int) * des.len(),
        forall|k: int|
            0 <= k < des.len() ==> spec_entry_matches(body, #[trigger] des[k], r)
                && spec_entry_cell_ok(des[k], r.spec_pyramid()),
        forall|k: int| 0 <= k < des.len() - 1 ==> spec_key_lt(#[trigger] des[k], des[k + 1]),
        forall|z3: int, bx3: int, by3: int|
            spec_cell_in_partition(r.spec_pyramid(), z3, bx3, by3) ==> spec_has_key(
                des,
                z3,
                bx3,
                by3,
            ),
        r.spec_pyramid().spec_valid(),
    ensures
        spec_parse_header(b) == Some(h),
        spec_archive_ok(b),
        spec_archive_tight(b),
        spec_archive_meta(b) == meta,
        spec_archive_entries(b) == Some(des),
        forall|z2: int, x2: int, y2: int|
            0 <= z2 && 0 <= x2 && 0 <= y2 ==> #[trigger] spec_archive_tile(b, z2, x2, y2) == (
            if crate::types::pyramid_contains(r.spec_pyramid(), z2, x2, y2) {
                r.spec_tile(z2, x2, y2)
            } else {
                None::<Seq<u8>>
            }),
{
    lemma_header_round_trip(h, pre.skip(HEADER_SIZE as int));
    assert(spec_parse_header(b) == Some(h));
    assert(b.len() == pre.len());
    assert forall|lo: int, hi: int|
        HEADER_SIZE <= lo <= hi <= b.len() implies b.subrange(lo, hi) == pre.subrange(lo, hi) by {
        assert(b.subrange(lo, hi) =~= pre.subrange(lo, hi));
    }
    assert forall|j: int|
        0 <= j < des.len() implies (#[trigger] des[j]).tiles_range.length <= u32::MAX && des[
        j].index_range.length <= u32::MAX by {
        assert(spec_entry_matches(body, des[j], r));
    }
    lemma_entries_bytes_parse(des);
    assert(spec_dir_bytes(b, h) == spec_entries_bytes(des)) by {
        assert(pre.subrange(dir_start, dir_end) =~= spec_entries_bytes(des));
        assert(b.subrange(dir_start, dir_end) == pre.subrange(dir_start, dir_end));
    }
    assert(spec_archive_entries(b) == Some(des));
    assert forall|j: int| 0 <= j < des.len() implies spec_entry_matches(
        b,
        #[trigger] des[j],
        r,
    ) by {
        lemma_entry_matches_append(body, pre.skip(body.len() as int), des[j], r);
        assert(pre =~= body + pre.skip(body.len() as int));
        lemma_entry_matches_rewrite_prefix(pre, hdrb, des[j], r);
        assert(b =~= hdrb + pre.skip(HEADER_SIZE as int));
    }
    lemma_sorted_from_adjacent(des);
    assert(spec_archive_ok(b));
    assert(spec_archive_tight(b)) by {
        assert forall|j: int|
            0 <= j < des.len() implies spec_slot_lens_sum(
            b,
            #[trigger] des[j],
            (des[j].spec_slots()) as nat,
        ) == des[j].tiles_range.length by {
            assert(spec_entry_matches(b, des[j], r));
        }
    }
    assert(spec_archive_meta(b) == meta) by {
        assert(b.subrange(HEADER_SIZE as int, HEADER_SIZE + meta.len()) == pre.subrange(
            HEADER_SIZE as int,
            HEADER_SIZE + meta.len(),
        ));
        assert(pre.subrange(HEADER_SIZE as int, HEADER_SIZE + meta.len()) =~= body.subrange(
            HEADER_SIZE as int,
            HEADER_SIZE + meta.len(),
        ));
    }
    assert forall|z2: int, x2: int, y2: int|
        0 <= z2 && 0 <= x2 && 0 <= y2 implies #[trigger] spec_archive_tile(b, z2, x2, y2) == (
    if crate::types::pyramid_contains(r.spec_pyramid(), z2, x2, y2) {
        r.spec_tile(z2, x2, y2)
    } else {
        None::<Seq<u8>>
    }) by {
        lemma_archive_lookup(b, des, r, z2, x2, y2);
    }
}

/// The character of one decimal digit.
pub open spec fn spec_digit_char(d: nat) -> char {
    ((48 + d) as u8) as char
}

/// The decimal digits of `n`, most significant first, no leading zeros.
pub open spec fn spec_dec_digits(n: nat) -> Seq<char>
    decreases n,
{
    if n < 10 {
        seq![spec_digit_char(n)]
    } else {
        spec_dec_digits(n / 10).push(spec_digit_char(n % 10))
    }
}

/// The last `width` decimal digits of `n`, zero-padded.
pub open spec fn spec_dec_digits_pad(n: nat, width: nat) -> Seq<char>
    decreases width,
{
    if width == 0 {
        Seq::empty()
    } else {
        spec_dec_digits_pad(n / 10, (width - 1) as nat).push(spec_digit_char(n % 10))
    }
}

/// A signed count of millionths rendered as a plain decimal: sign,
/// integer part, point, six fraction digits.
pub open spec fn spec_millionths(v: int) -> Seq<char> {
    let a = if v >= 0 {
        v
    } else {
        -v
    };
    (if v < 0 {
        seq!['-']
    } else {
        Seq::empty()
    }) + spec_dec_digits((a / 1000000) as nat) + seq!['.'] + spec_dec_digits_pad(
        (a % 1000000) as nat,
        6,
    )
}

/// A signed count of ten-millionths rendered the same way, with seven
/// fraction digits: the exact midpoints of micro-degree pairs.
pub open spec fn spec_ten_millionths(v: int) -> Seq<char> {
    let a = if v >= 0 {
        v
    } else {
        -v
    };
    (if v < 0 {
        seq!['-']
    } else {
        Seq::empty()
    }) + spec_dec_digits((a / 10000000) as nat) + seq!['.'] + spec_dec_digits_pad(
        (a % 10000000) as nat,
        7,
    )
}

/// The TileJSON document of an archive: version, bounds and center from
/// the header's micro-degree fields, the zoom range, the optional tiles
/// URL, and the metadata object's own entries spliced in when the
/// metadata is a JSON object.
pub open spec fn spec_tile_json(h: VtcHeader, tiles_url: Option<Seq<char>>, meta: Seq<char>) -> Seq<
    char,
> {
    spec_tile_json_head(h) + (match tiles_url {
        Some(u) => ",\"tiles\":[\""@ + u + "\"]"@,
        None => Seq::empty(),
    }) + (if meta.len() > 2 && meta.first() == '{' && meta.last() == '}' {
        ","@ + meta.subrange(1, meta.len() - 1)
    } else {
        Seq::empty()
    }) + "}"@
}

/// The fixed head of the document: version, bounds, zoom range, center.
pub open spec fn spec_tile_json_head(h: VtcHeader) -> Seq<char> {
    let zc = if h.zoom_min + 2 <= h.zoom_max {
        h.zoom_min + 2
    } else {
        h.zoom_max as int
    };
    "{\"tilejson\":\"3.0.0\",\"bounds\":["@ + spec_millionths(h.bbox_west as int) + ","@
        + spec_millionths(h.bbox_south as int) + ","@ + spec_millionths(h.bbox_east as int) + ","@
        + spec_millionths(h.bbox_north as int) + "],\"minzoom\":"@ + spec_dec_digits(
        h.zoom_min as nat,
    ) + ",\"maxzoom\":"@ + spec_dec_digits(h.zoom_max as nat) + ",\"center\":["@
        + spec_ten_millionths(5 * (h.bbox_west + h.bbox_east)) + ","@ + spec_ten_millionths(
        5 * (h.bbox_south + h.bbox_north),
    ) + ","@ + spec_dec_digits(zc as nat) + "]"@
}

/// Builds the document head.
#[verifier::spinoff_prover]
#[verifier::rlimit(100)]
fn tile_json_head(h: &VtcHeader) -> (r: String)
    ensures
        r@ == spec_tile_json_head(*h),
{
    proof {
        reveal_strlit(",");
        reveal_strlit("]");
    }
    let mut out = String::new();
    out.append("{\"tilejson\":\"3.0.0\",\"bounds\":[");
    let ghost c0 = "{\"tilejson\":\"3.0.0\",\"bounds\":["@;
    proof {
        assert(out@ =~= c0);
    }
    append_scaled(&mut out, h.bbox_west as i64, 1000000, 6);
    let ghost c1 = c0 + spec_millionths(h.bbox_west as int);
    proof {
        assert(out@ =~= c1);
    }
    out.append(",");
    append_scaled(&mut out, h.bbox_south as i64, 1000000, 6);
    let ghost c2 = c1 + ","@ + spec_millionths(h.bbox_south as int);
    proof {
        assert(out@ =~= c2);
    }
    out.append(",");
    append_scaled(&mut out, h.bbox_east as i64, 1000000, 6);
    let ghost c3 = c2 + ","@ + spec_millionths(h.bbox_east as int);
    proof {
        assert(out@ =~= c3);
    }
    out.append(",");
    append_scaled(&mut out, h.bbox_north as i64, 1000000, 6);
    let ghost c4 = c3 + ","@ + spec_millionths(h.bbox_north as int);
    proof {
        assert(out@ =~= c4);
    }
    out.append("],\"minzoom\":");
    append_dec(&mut out, h.zoom_min as u64);
    let ghost c5 = c4 + "],\"minzoom\":"@ + spec_dec_digits(h.zoom_min as nat);
    proof {
        assert(out@ =~= c5);
    }
    out.append(",\"maxzoom\":");
    append_dec(&mut out, h.zoom_max as u64);
    let ghost c6 = c5 + ",\"maxzoom\":"@ + spec_dec_digits(h.zoom_max as nat);
    proof {
        assert(out@ =~= c6);
    }
    out.append(",\"center\":[");
    append_scaled(
        &mut out,
        5 * ((h.bbox_west as i64) + (h.bbox_east as i64)),
        10000000,
        7,
    );
    let ghost c7 = c6 + ",\"center\":["@ + spec_ten_millionths(5 * (h.bbox_west + h.bbox_east));
    proof {
        assert(out@ =~= c7);
    }
    out.append(",");
    append_scaled(
        &mut out,
        5 * ((h.bbox_south as i64) + (h.bbox_north as i64)),
        10000000,
        7,
    );
    let ghost c8 = c7 + ","@ + spec_ten_millionths(5 * (h.bbox_south + h.bbox_north));
    proof {
        assert(out@ =~= c8);
    }
    out.append(",");
    let zc: u64 = if (h.zoom_min as u64) + 2 <= (h.zoom_max as u64) {
        (h.zoom_min as u64) + 2
    } else {
        h.zoom_max as u64
    };
    append_dec(&mut out, zc);
    out.append("]");
    proof {
        assert(out@ =~= c8 + ","@ + spec_dec_digits(zc as nat) + "]"@);
        assert(out@ =~= spec_tile_json_head(*h));
    }
    out
}

/// Appends one decimal digit.
fn append_digit(out: &mut String, d: u64)
    requires
        d < 10,
    ensures
        final(out)@ == old(out)@ + seq![spec_digit_char(d as nat)],
{
    proof {
        reveal_strlit("0");
        reveal_strlit("1");
        reveal_strlit("2");
        reveal_strlit("3");
        reveal_strlit("4");
        reveal_strlit("5");
        reveal_strlit("6");
        reveal_strlit("7");
        reveal_strlit("8");
        reveal_strlit("9");
    }
    match d {
        0 => out.append("0"),
        1 => out.append("1"),
        2 => out.append("2"),
        3 => out.append("3"),
        4 => out.append("4"),
        5 => out.append("5"),
        6 => out.append("6"),
        7 => out.append("7"),
        8 => out.append("8"),
        _ => out.append("9"),
    }
    proof {
        assert(final(out)@ =~= old(out)@ + seq![spec_digit_char(d as nat)]);
    }
}

/// Appends the decimal digits of `v`.
fn append_dec(out: &mut String, v: u64)
    ensures
        final(out)@ == old(out)@ + spec_dec_digits(v as nat),
    decreases v,
{
    if v < 10 {
        append_digit(out, v);
    } else {
        append_dec(out, v / 10);
        append_digit(out, v % 10);
        proof {
            assert(final(out)@ =~= old(out)@ + spec_dec_digits(v as nat));
        }
    }
}

/// Appends exactly `width` decimal digits of `v`, zero-padded.
fn append_dec_pad(out: &mut String, v: u64, width: u8)
    ensures
        final(out)@ == old(out)@ + spec_dec_digits_pad(v as nat, width as nat),
    decreases width,
{
    if width == 0 {
        proof {
            assert(final(out)@ =~= old(out)@ + spec_dec_digits_pad(v as nat, 0));
        }
    } else {
        append_dec_pad(out, v / 10, width - 1);
        append_digit(out, v % 10);
        proof {
            assert(final(out)@ =~= old(out)@ + spec_dec_digits_pad(v as nat, width as nat));
        }
    }
}

/// Appends a signed count of `10^-digits` units as a plain decimal.
fn append_scaled(out: &mut String, v: i64, denom: u64, width: u8)
    requires
        denom > 0,
        v > i64::MIN,
    ensures
        final(out)@ == old(out)@ + (if v < 0 {
            seq!['-']
        } else {
            Seq::<char>::empty()
        }) + spec_dec_digits(((if v >= 0 {
            v as int
        } else {
            -(v as int)
        }) / denom as int) as nat) + seq!['.'] + spec_dec_digits_pad(
            ((if v >= 0 {
                v as int
            } else {
                -(v as int)
            }) % denom as int) as nat,
            width as nat,
        ),
{
    proof {
        reveal_strlit("-");
        reveal_strlit(".");
    }
    let a: u64 = if v >= 0 {
        v as u64
    } else {
        (-v) as u64
    };
    if v < 0 {
        out.append("-");
    }
    append_dec(out, a / denom);
    out.append(".");
    append_dec_pad(out, a % denom, width);
    proof {
        assert(final(out)@ =~= old(out)@ + (if v < 0 {
            seq!['-']
        } else {
            Seq::<char>::empty()
        }) + spec_dec_digits((a / denom) as nat) + seq!['.'] + spec_dec_digits_pad(
            (a % denom) as nat,
            width as nat,
        ));
    }
}

/// Composes the TileJSON document for an archive's header and metadata,
/// the metadata handed in as text.
#[verifier::spinoff_prover]
#[verifier::rlimit(100)]
pub fn tile_json_doc(h: &VtcHeader, tiles_url: Option<&str>, meta: &str) -> (r: String)
    ensures
        r@ == spec_tile_json(*h, match tiles_url {
            Some(u) => Some(u@),
            None => None,
        }, meta@),
{
    proof {
        reveal_strlit(",");
        reveal_strlit("}");
        reveal_strlit("{");
    }
    let mut out = tile_json_head(h);
    match tiles_url {
        Some(u) => {
            out.append(",\"tiles\":[\"");
            out.append(u);
            out.append("\"]");
        },
        None => {},
    }
    let mlen = meta.unicode_len();
    if mlen > 2 && meta.get_char(0) == '{' && meta.get_char(mlen - 1) == '}' {
        out.append(",");
        out.append(meta.substring_char(1, mlen - 1));
    }
    out.append("}");
    proof {
        assert(out@ =~= spec_tile_json(*h, match tiles_url {
            Some(u) => Some(u@),
            None => None::<Seq<char>>,
        }, meta@));
    }
    out
}

} // verus!
