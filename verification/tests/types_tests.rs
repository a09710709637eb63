//! Tests of coordinates, bounding boxes, the pyramid, the enum byte
//! codecs and the codec layer.

use versatiles::codec::{compress, decompress};
use versatiles::error::Error;
use versatiles::types::{
    Blob, ByteRange, TileBBox, TileBBoxPyramid, TileCompression, TileCoord3, TileFormat,
};

#[test]
fn test_coord_bounds() -> Result<(), Error> {
    let c = TileCoord3::new(0, 0, 0)?;
    assert_eq!((c.z, c.x, c.y), (0, 0, 0));
    assert!(TileCoord3::new(0, 1, 0).is_err());
    assert!(TileCoord3::new(3, 7, 7).is_ok());
    assert!(TileCoord3::new(3, 8, 7).is_err());
    assert!(TileCoord3::new(32, 0, 0).is_err());
    assert!(TileCoord3::new(31, (1 << 31) - 1, (1 << 31) - 1).is_ok());
    Ok(())
}

#[test]
fn test_bbox_iter_coords_row_major() -> Result<(), Error> {
    let bbox = TileBBox::new(3, 1, 4, 2, 6)?;
    let coords = bbox.iter_coords();
    assert_eq!(coords.len(), 6); // two columns, three rows
    let expected = [(1, 4), (2, 4), (1, 5), (2, 5), (1, 6), (2, 6)];
    for (i, (x, y)) in expected.iter().enumerate() {
        assert_eq!(coords[i].z, 3);
        assert_eq!(coords[i].x, *x);
        assert_eq!(coords[i].y, *y);
    }
    // uniqueness
    for i in 0..coords.len() {
        for j in (i + 1)..coords.len() {
            assert_ne!(coords[i], coords[j]);
        }
    }
    Ok(())
}

#[test]
fn test_bbox_validation_and_count() -> Result<(), Error> {
    assert!(TileBBox::new(2, 3, 0, 1, 0).is_err()); // inverted
    assert!(TileBBox::new(2, 0, 0, 4, 0).is_err()); // outside the grid
    let b = TileBBox::new(2, 0, 0, 3, 3)?;
    assert_eq!(b.count_tiles(), 16);
    assert!(b.contains(2, 3));
    assert!(!b.contains(4, 0));
    let e = TileBBox::new_empty(5)?;
    assert!(e.is_empty());
    assert_eq!(e.count_tiles(), 0);
    assert_eq!(e.iter_coords().len(), 0);
    Ok(())
}

#[test]
fn test_pyramid_zoom_range() -> Result<(), Error> {
    let p = TileBBoxPyramid::new_full(3)?;
    assert_eq!(p.get_zoom_min(), Some(0));
    assert_eq!(p.get_zoom_max(), Some(3));
    assert_eq!(p.iter_levels().len(), 4);

    let empty = TileBBoxPyramid::new_empty();
    assert_eq!(empty.get_zoom_min(), None);
    assert_eq!(empty.get_zoom_max(), None);
    assert_eq!(empty.iter_levels().len(), 0);

    let mut p = TileBBoxPyramid::new_empty();
    p.set_level_bbox(TileBBox::new(4, 2, 2, 5, 5)?);
    assert_eq!(p.get_zoom_min(), Some(4));
    assert_eq!(p.get_zoom_max(), Some(4));
    assert_eq!(p.get_level_bbox(4).map(|b| b.x_max), Some(5));
    Ok(())
}

#[test]
fn test_format_byte_round_trip() -> Result<(), Error> {
    let formats = [
        TileFormat::BIN,
        TileFormat::PNG,
        TileFormat::JPG,
        TileFormat::WEBP,
        TileFormat::AVIF,
        TileFormat::SVG,
        TileFormat::PBF,
        TileFormat::GEOJSON,
        TileFormat::TOPOJSON,
        TileFormat::JSON,
    ];
    for f in formats {
        assert_eq!(TileFormat::from_u8(f.to_u8())?, f);
    }
    assert_eq!(TileFormat::PBF.to_u8(), 16);
    assert!(matches!(TileFormat::from_u8(6), Err(Error::Corrupt(_))));
    Ok(())
}

#[test]
fn test_compression_byte_round_trip() -> Result<(), Error> {
    let compressions = [
        TileCompression::Uncompressed,
        TileCompression::Gzip,
        TileCompression::Brotli,
        TileCompression::Zstd,
    ];
    for (i, c) in compressions.iter().enumerate() {
        assert_eq!(c.to_u8(), i as u8);
        assert_eq!(TileCompression::from_u8(i as u8)?, *c);
    }
    assert!(TileCompression::from_u8(4).is_err());
    Ok(())
}

#[test]
fn test_codec_uncompressed_is_identity() -> Result<(), Error> {
    let blob = Blob::from_vec(vec![1, 2, 3]);
    let out = compress(blob, TileCompression::Uncompressed)?;
    assert_eq!(out.clone().into_vec(), vec![1, 2, 3]);
    let back = decompress(out, TileCompression::Uncompressed)?;
    assert_eq!(back.into_vec(), vec![1, 2, 3]);
    Ok(())
}

#[test]
fn test_codec_other_compressions_unsupported() {
    for c in [
        TileCompression::Gzip,
        TileCompression::Brotli,
        TileCompression::Zstd,
    ] {
        let r = compress(Blob::new(), c);
        assert!(matches!(r, Err(Error::Unsupported(_))));
        let r = decompress(Blob::new(), c);
        assert!(matches!(r, Err(Error::Unsupported(_))));
    }
}

#[test]
fn test_byte_range() {
    let r = ByteRange::new(62, 100);
    assert_eq!(r.offset, 62);
    assert_eq!(r.length, 100);
}

#[test]
fn test_blob_basics() {
    let b = Blob::from_vec(vec![5, 6]);
    assert_eq!(b.len(), 2);
    assert!(!b.is_empty());
    assert_eq!(b.get(1), 6);
    assert_eq!(b.as_slice(), &[5, 6]);
    assert!(Blob::new().is_empty());
}
