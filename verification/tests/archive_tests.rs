//! Tests of the archive engine: writing a source out and reading every
//! tile back.

use versatiles::error::Error;
use versatiles::mock::{MockTilesReader, MockTilesReaderProfile, MockTilesWriter};
use versatiles::reader::{TileReader, TileReaderWrapper};
use versatiles::types::{
    Blob, TileBBox, TileBBoxPyramid, TileCompression, TileCoord3, TileFormat,
    TilesReaderParameters,
};
use versatiles::vtc::{tile_json_doc, write_archive, VersatilesReader, HEADER_SIZE};

fn png_tile() -> Vec<u8> {
    vec![137, 80, 78, 71, 13, 10, 26, 10]
}

#[test]
fn test_archive_round_trip() -> Result<(), Error> {
    let reader = MockTilesReader::new_mock_profile(MockTilesReaderProfile::Png)?;
    let bytes = write_archive(&reader)?;
    let archive = VersatilesReader::open(bytes)?;

    assert_eq!(archive.get_tile_format(), TileFormat::PNG);
    assert_eq!(
        archive.get_tile_compression(),
        TileCompression::Uncompressed
    );
    assert_eq!(archive.get_meta().into_vec(), reader.get_meta().into_vec());

    let mut count: u64 = 0;
    for bbox in reader.get_bbox_pyramid().iter_levels() {
        for coord in bbox.iter_coords() {
            let tile = archive.get_tile_data(&coord)?;
            match tile {
                Some(t) => assert_eq!(t.into_vec(), png_tile()),
                None => panic!("tile missing at {:?}", coord),
            }
            count += 1;
        }
    }
    // levels 0..=3 of the full pyramid
    assert_eq!(count, 1 + 4 + 16 + 64);
    Ok(())
}

#[test]
fn test_missing_tile_is_none() -> Result<(), Error> {
    let reader = MockTilesReader::new_mock_profile(MockTilesReaderProfile::Pbf)?;
    let bytes = write_archive(&reader)?;
    let archive = VersatilesReader::open(bytes)?;

    // the pyramid stops at zoom three; zoom five was never written
    let coord = TileCoord3::new(5, 1, 1)?;
    assert_eq!(archive.get_tile_data(&coord)?, None);
    Ok(())
}

#[test]
fn test_empty_archive() -> Result<(), Error> {
    let parameters = TilesReaderParameters::new(
        TileFormat::PNG,
        TileCompression::Uncompressed,
        TileBBoxPyramid::new_empty(),
    );
    let reader = MockTilesReader::new_mock(parameters, MockTilesReaderProfile::Png)?;
    let bytes = write_archive(&reader)?;
    let archive = VersatilesReader::open(bytes)?;

    assert_eq!(archive.get_header().block_index_range.length, 0);
    assert_eq!(archive.get_block_entries().len(), 0);
    let coord = TileCoord3::new(0, 0, 0)?;
    assert_eq!(archive.get_tile_data(&coord)?, None);
    Ok(())
}

#[test]
fn test_max_coords_at_top_zoom() -> Result<(), Error> {
    let max: u32 = (1u32 << 31) - 1;
    let mut pyramid = TileBBoxPyramid::new_empty();
    pyramid.set_level_bbox(TileBBox::new(31, max, max, max, max)?);
    let parameters = TilesReaderParameters::new(
        TileFormat::PNG,
        TileCompression::Uncompressed,
        pyramid,
    );
    let reader = MockTilesReader::new_mock(parameters, MockTilesReaderProfile::Png)?;
    let bytes = write_archive(&reader)?;
    let archive = VersatilesReader::open(bytes)?;

    let coord = TileCoord3::new(31, max, max)?;
    assert_eq!(
        archive.get_tile_data(&coord)?.map(Blob::into_vec),
        Some(png_tile())
    );
    let entries = archive.get_block_entries();
    assert_eq!(entries.len(), 1);
    assert_eq!(entries[0].x, max >> 8);
    assert_eq!(entries[0].y, max >> 8);
    Ok(())
}

#[test]
fn test_single_tile_blocks_at_bbox_corner() -> Result<(), Error> {
    // a two-by-two bbox straddling four blocks: each corner of the bbox
    // is a single-tile block
    let mut pyramid = TileBBoxPyramid::new_empty();
    pyramid.set_level_bbox(TileBBox::new(9, 255, 255, 256, 256)?);
    let parameters = TilesReaderParameters::new(
        TileFormat::PNG,
        TileCompression::Uncompressed,
        pyramid,
    );
    let reader = MockTilesReader::new_mock(parameters, MockTilesReaderProfile::Png)?;
    let bytes = write_archive(&reader)?;
    let archive = VersatilesReader::open(bytes)?;

    assert_eq!(archive.get_block_entries().len(), 4);
    for (x, y) in [(255, 255), (255, 256), (256, 255), (256, 256)] {
        let coord = TileCoord3::new(9, x, y)?;
        assert_eq!(
            archive.get_tile_data(&coord)?.map(Blob::into_vec),
            Some(png_tile())
        );
    }
    // a neighbour outside the bbox but inside one of the same blocks
    let coord = TileCoord3::new(9, 254, 255)?;
    assert_eq!(archive.get_tile_data(&coord)?, None);
    Ok(())
}

#[test]
fn test_block_payload_is_sum_of_tile_lengths() -> Result<(), Error> {
    let reader = MockTilesReader::new_mock_profile(MockTilesReaderProfile::Png)?;
    let bytes = write_archive(&reader)?;
    let archive = VersatilesReader::open(bytes)?;

    let tile_len = png_tile().len() as u64;
    for e in archive.get_block_entries() {
        let tiles = (e.x_max - e.x_min + 1) as u64 * (e.y_max - e.y_min + 1) as u64;
        assert_eq!(e.tiles_range.length, tiles * tile_len);
    }
    Ok(())
}

#[test]
fn test_corrupt_magic_fails_to_open() -> Result<(), Error> {
    let reader = MockTilesReader::new_mock_profile(MockTilesReaderProfile::Png)?;
    let mut bytes = write_archive(&reader)?.into_vec();
    bytes[7] ^= 0xFF;
    match VersatilesReader::open(Blob::from_vec(bytes)) {
        Err(Error::Corrupt(_)) => Ok(()),
        other => panic!("expected a corrupt archive, got {:?}", other.is_ok()),
    }
}

#[test]
fn test_truncated_archive_fails_to_open() {
    let r = VersatilesReader::open(Blob::from_vec(vec![1, 2, 3]));
    assert!(matches!(r, Err(Error::Corrupt(_))));
    let r = VersatilesReader::open(Blob::from_vec(vec![0; HEADER_SIZE]));
    assert!(matches!(r, Err(Error::Corrupt(_))));
}

#[test]
fn test_reopened_archive_serves_as_reader() -> Result<(), Error> {
    // an opened archive satisfies the same reader contract, so it can be
    // drained and re-written
    let reader = MockTilesReader::new_mock_profile(MockTilesReaderProfile::Json)?;
    let bytes = write_archive(&reader)?;
    let archive = VersatilesReader::open(bytes)?;
    MockTilesWriter::write(&archive)?;

    let bytes2 = write_archive(&archive)?;
    let archive2 = VersatilesReader::open(bytes2)?;
    let coord = TileCoord3::new(2, 1, 3)?;
    assert_eq!(
        archive2.get_tile_data(&coord)?.map(Blob::into_vec),
        Some(vec![123, 125])
    );
    Ok(())
}

#[test]
fn test_wrapper_hands_tiles_through() -> Result<(), Error> {
    let reader = MockTilesReader::new_mock_profile(MockTilesReaderProfile::Png)?;
    let wrapper = TileReaderWrapper::new(&reader);
    assert_eq!(
        wrapper.get_tile_raw(0, 0, 0).map(Blob::into_vec),
        Some(png_tile())
    );
    assert_eq!(wrapper.get_tile_raw(0, 1, 0), None);
    assert_eq!(
        wrapper.get_tile_uncompressed(1, 1, 1)?.map(Blob::into_vec),
        Some(png_tile())
    );
    Ok(())
}

#[test]
fn test_mock_writer_drains() -> Result<(), Error> {
    let reader = MockTilesReader::new_mock_profile(MockTilesReaderProfile::Png)?;
    MockTilesWriter::write(&reader)?;
    Ok(())
}

#[test]
fn convert_png() -> Result<(), Error> {
    let reader = MockTilesReader::new_mock_profile(MockTilesReaderProfile::Png)?;
    MockTilesWriter::write(&reader)?;
    Ok(())
}

#[test]
fn convert_pbf() -> Result<(), Error> {
    let reader = MockTilesReader::new_mock_profile(MockTilesReaderProfile::Pbf)?;
    MockTilesWriter::write(&reader)?;
    Ok(())
}

#[test]
fn test_gzip_source_is_unsupported() -> Result<(), Error> {
    let parameters = TilesReaderParameters::new(
        TileFormat::PBF,
        TileCompression::Gzip,
        TileBBoxPyramid::new_full(1)?,
    );
    let reader = MockTilesReader::new_mock(parameters, MockTilesReaderProfile::Pbf)?;
    match write_archive(&reader) {
        Err(Error::Unsupported(_)) => Ok(()),
        other => panic!("expected unsupported compression, got {:?}", other.is_ok()),
    }
}

#[test]
fn test_full_pyramid_tile_count() -> Result<(), Error> {
    // a full pyramid up to zoom seven holds the sum of 4^z tiles
    let parameters = TilesReaderParameters::new(
        TileFormat::PNG,
        TileCompression::Uncompressed,
        TileBBoxPyramid::new_full(7)?,
    );
    let reader = MockTilesReader::new_mock(parameters, MockTilesReaderProfile::Png)?;
    let bytes = write_archive(&reader)?;
    let archive = VersatilesReader::open(bytes)?;

    let mut count: u64 = 0;
    for bbox in archive.get_bbox_pyramid().iter_levels() {
        count += bbox.count_tiles();
    }
    assert_eq!(count, 21845);

    let coord = TileCoord3::new(7, 127, 127)?;
    assert_eq!(
        archive.get_tile_data(&coord)?.map(Blob::into_vec),
        Some(png_tile())
    );
    Ok(())
}

#[test]
fn test_get_name() -> Result<(), Error> {
    let reader = MockTilesReader::new_mock_profile(MockTilesReaderProfile::Png)?;
    assert_eq!(reader.get_name(), "dummy");
    assert_eq!(reader.get_container_name(), "mock");
    Ok(())
}

#[test]
fn test_override_compression() -> Result<(), Error> {
    let mut reader = MockTilesReader::new_mock_profile(MockTilesReaderProfile::Pbf)?;
    assert_eq!(
        reader.get_tile_compression(),
        TileCompression::Uncompressed
    );
    reader.override_compression(TileCompression::Brotli);
    assert_eq!(reader.get_tile_compression(), TileCompression::Brotli);
    // the tiles themselves are untouched by the retag
    assert!(reader.get_tile_raw(0, 0, 0).is_some());
    Ok(())
}

#[test]
fn test_override_compression_on_archive_reader() -> Result<(), Error> {
    let reader = MockTilesReader::new_mock_profile(MockTilesReaderProfile::Png)?;
    let bytes = write_archive(&reader)?;
    let mut archive = VersatilesReader::open(bytes)?;
    assert_eq!(archive.get_name(), "memory");
    assert_eq!(archive.get_container_name(), "versatiles");

    archive.override_compression(TileCompression::Gzip);
    assert_eq!(archive.get_tile_compression(), TileCompression::Gzip);
    // raw tiles still come out unchanged ...
    assert_eq!(
        archive.get_tile_raw(0, 0, 0).map(Blob::into_vec),
        Some(png_tile())
    );
    // ... but decompressing through the new tag is not linked in
    let wrapper = TileReaderWrapper::new(&archive);
    assert!(matches!(
        wrapper.get_tile_uncompressed(0, 0, 0),
        Err(Error::Unsupported(_))
    ));
    Ok(())
}

#[test]
fn test_tile_json_document() -> Result<(), Error> {
    let reader = MockTilesReader::new_mock_profile(MockTilesReaderProfile::Png)?;
    let bytes = write_archive(&reader)?;
    let archive = VersatilesReader::open(bytes)?;
    let header = archive.get_header();

    let doc = tile_json_doc(&header, None, "{\"name\":\"x\"}");
    assert_eq!(
        doc,
        "{\"tilejson\":\"3.0.0\",\"bounds\":[0.000000,0.000000,0.000000,0.000000],\
         \"minzoom\":0,\"maxzoom\":3,\"center\":[0.0000000,0.0000000,2],\"name\":\"x\"}"
    );

    let doc = tile_json_doc(&header, Some("https://example.org/{z}/{x}/{y}"), "");
    assert!(doc.contains("\"tiles\":[\"https://example.org/{z}/{x}/{y}\"]"));
    Ok(())
}
