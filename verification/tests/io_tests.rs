//! Tests of the byte-level value reader and writer.

use versatiles::error::Error;
use versatiles::io::{ValueReaderBlob, ValueWriterBlob};
use versatiles::types::Blob;

#[test]
fn test_read_varint() -> Result<(), Error> {
    let buf = vec![0b10101100, 0b00000010]; // Represents the varint for 300
    let mut reader = ValueReaderBlob::new_le(Blob::from_vec(buf));

    let varint = reader.read_varint()?;
    assert_eq!(varint, 300);
    Ok(())
}

#[test]
fn test_read_varint_too_long() -> Result<(), Error> {
    let buf = vec![0x80; 10]; // More than 9 bytes with the MSB set to 1
    let mut reader = ValueReaderBlob::new_le(Blob::from_vec(buf));

    let result = reader.read_varint();
    assert!(result.is_err());
    Ok(())
}

#[test]
fn test_read_u8() -> Result<(), Error> {
    let buf = vec![0x01, 0x02];
    let mut reader = ValueReaderBlob::new_le(Blob::from_vec(buf));

    assert_eq!(reader.read_u8()?, 0x01);
    assert_eq!(reader.read_u8()?, 0x02);
    Ok(())
}

#[test]
fn test_read_i32() -> Result<(), Error> {
    let buf = vec![0xFF, 0xFF, 0xFF, 0xFF]; // -1 in little-endian 32-bit
    let mut reader = ValueReaderBlob::new_le(Blob::from_vec(buf));

    assert_eq!(reader.read_i32()?, -1);
    Ok(())
}

#[test]
fn test_read_u64() -> Result<(), Error> {
    let buf = vec![0xFF, 0xFF, 0xFF, 0xFF, 0xFF, 0xFF, 0xFF, 0xFF]; // Max u64
    let mut reader = ValueReaderBlob::new_le(Blob::from_vec(buf));

    assert_eq!(reader.read_u64()?, u64::MAX);
    Ok(())
}

#[test]
fn test_set_and_get_position() -> Result<(), Error> {
    let buf = vec![0x01, 0x02, 0x03, 0x04];
    let mut reader = ValueReaderBlob::new_le(Blob::from_vec(buf));

    reader.set_position(2)?;
    assert_eq!(reader.position(), 2);
    assert_eq!(reader.read_u8()?, 0x03);
    Ok(())
}

#[test]
fn test_set_position_out_of_range() {
    let mut reader = ValueReaderBlob::new_le(Blob::from_vec(vec![1, 2, 3]));
    let r = reader.set_position(3);
    assert!(matches!(r, Err(Error::Corrupt(_))));
}

#[test]
fn test_varint_write_then_read_round_trip() -> Result<(), Error> {
    let values: Vec<u64> = vec![0, 1, 127, 128, 300, 16383, 16384, (1u64 << 63) - 1];
    for v in values {
        let mut w = ValueWriterBlob::new_le();
        w.write_varint(v);
        let mut r = ValueReaderBlob::new_le(w.into_blob());
        assert_eq!(r.read_varint()?, v);
    }
    Ok(())
}

#[test]
fn test_big_endian_reads() -> Result<(), Error> {
    let mut r = ValueReaderBlob::new_be(Blob::from_vec(vec![0x01, 0x02, 0x03, 0x04]));
    assert_eq!(r.read_u32()?, 0x01020304);
    Ok(())
}

#[test]
fn test_writer_encodings() -> Result<(), Error> {
    let mut w = ValueWriterBlob::new_be();
    w.write_u16(0x0102);
    w.write_u32(0x03040506);
    assert_eq!(w.position(), 6);
    let bytes = w.into_blob().into_vec();
    assert_eq!(bytes, vec![0x01, 0x02, 0x03, 0x04, 0x05, 0x06]);

    let mut w = ValueWriterBlob::new_le();
    w.write_u16(0x0102);
    assert_eq!(w.into_blob().into_vec(), vec![0x02, 0x01]);
    Ok(())
}

#[test]
fn test_writer_u64_round_trip() -> Result<(), Error> {
    let mut w = ValueWriterBlob::new_be();
    w.write_u64(0x0102030405060708);
    let mut r = ValueReaderBlob::new_be(w.into_blob());
    assert_eq!(r.read_u64()?, 0x0102030405060708);
    Ok(())
}

#[test]
fn test_sub_reader() -> Result<(), Error> {
    let mut r = ValueReaderBlob::new_le(Blob::from_vec(vec![9, 1, 2, 3, 4]));
    assert_eq!(r.read_u8()?, 9);
    let mut sub = r.get_sub_reader(2)?;
    assert_eq!(sub.len(), 2);
    assert_eq!(sub.read_u8()?, 1);
    assert_eq!(sub.read_u8()?, 2);
    assert!(sub.read_u8().is_err());
    assert_eq!(r.position(), 3);
    assert_eq!(r.read_u8()?, 3);
    Ok(())
}

#[test]
fn test_read_blob_and_len() -> Result<(), Error> {
    let mut r = ValueReaderBlob::new_le(Blob::from_vec(vec![1, 2, 3, 4, 5]));
    assert_eq!(r.len(), 5);
    let b = r.read_blob(3)?;
    assert_eq!(b.into_vec(), vec![1, 2, 3]);
    assert!(r.read_blob(3).is_err());
    Ok(())
}
