//! Tests of the record codec: varints, round-trips, and every decode
//! error.

use nori_wal::record::{Compression, Record, RecordError};
use nori_wal::varint::{decode_varint, encode_varint};

#[test]
fn test_varint_encoding() {
    let test_cases = vec![0u64, 127, 128, 255, 16383, 16384, u64::MAX];

    for value in test_cases {
        let mut buf: Vec<u8> = Vec::new();
        encode_varint(&mut buf, value);
        let (decoded, _) = decode_varint(&buf, 0).unwrap();
        assert_eq!(value, decoded, "varint roundtrip failed for {}", value);
    }
}

#[test]
fn test_record_put_roundtrip() {
    let record = Record::put(b"hello".to_vec(), b"world".to_vec());
    let encoded = record.encode();
    let (decoded, size) = Record::decode(&encoded).unwrap();

    assert_eq!(record, decoded);
    assert_eq!(size, encoded.len());
}

#[test]
fn test_record_delete_roundtrip() {
    let record = Record::delete(b"key_to_delete".to_vec());
    let encoded = record.encode();
    let (decoded, size) = Record::decode(&encoded).unwrap();

    assert_eq!(record, decoded);
    assert!(decoded.tombstone);
    assert_eq!(size, encoded.len());
}

#[test]
fn test_record_with_ttl() {
    let record = Record::put_with_ttl(b"tempkey".to_vec(), b"tempval".to_vec(), 5000);
    let encoded = record.encode();
    let (decoded, _) = Record::decode(&encoded).unwrap();

    assert_eq!(record, decoded);
    assert_eq!(decoded.ttl, Some(5000));
}

#[test]
fn test_record_with_compression() {
    let record = Record::put(b"key".to_vec(), b"value".to_vec()).with_compression(Compression::Lz4);
    let encoded = record.encode();
    let (decoded, _) = Record::decode(&encoded).unwrap();

    assert_eq!(record, decoded);
    assert_eq!(decoded.compression, Compression::Lz4);
}

#[test]
fn test_crc_mismatch() {
    let record = Record::put(b"test".to_vec(), b"data".to_vec());
    let encoded = record.encode();

    // Corrupt the data
    let mut corrupted = encoded.to_vec();
    corrupted[5] ^= 0xFF; // Flip some bits in the middle

    let result = Record::decode(&corrupted);
    assert!(matches!(result, Err(RecordError::CrcMismatch { .. })));
}

#[test]
fn test_incomplete_record() {
    let record = Record::put(b"key".to_vec(), b"value".to_vec());
    let encoded = record.encode();

    // Try to decode truncated data
    let result = Record::decode(&encoded[..5]);
    assert!(matches!(result, Err(RecordError::Incomplete)));
}

#[test]
fn test_empty_key_value() {
    let record = Record::put(b"".to_vec(), b"".to_vec());
    let encoded = record.encode();
    let (decoded, _) = Record::decode(&encoded).unwrap();

    assert_eq!(record, decoded);
    assert_eq!(decoded.key.len(), 0);
    assert_eq!(decoded.value.len(), 0);
}

#[test]
fn test_varint_exact_bytes() {
    let mut buf: Vec<u8> = Vec::new();
    encode_varint(&mut buf, 300);
    assert_eq!(buf, vec![0xAC, 0x02]);

    let mut zero: Vec<u8> = Vec::new();
    encode_varint(&mut zero, 0);
    assert_eq!(zero, vec![0x00]);

    let mut max: Vec<u8> = Vec::new();
    encode_varint(&mut max, u64::MAX);
    assert_eq!(max.len(), 10);
}

#[test]
fn test_varint_overflow_is_io_error() {
    // Eleven continuation bytes push the shift to 64 and beyond.
    let data = [0xFFu8; 17];
    let result = decode_varint(&data, 0);
    assert!(matches!(result, Err(RecordError::Io)));
}

#[test]
fn test_varint_truncated_is_incomplete() {
    // A lone continuation byte ends mid-varint.
    let result = decode_varint(&[0x80u8], 0);
    assert!(matches!(result, Err(RecordError::Incomplete)));
}

#[test]
fn test_invalid_compression_bits() {
    let record = Record::put(b"k".to_vec(), b"v".to_vec());
    let mut encoded = record.encode();
    // Byte 2 is the flags byte (one-byte key and value lengths); set the
    // compression bits to the reserved pattern 3.
    encoded[2] = 0b0000_1100;
    let result = Record::decode(&encoded);
    assert!(matches!(result, Err(RecordError::InvalidCompression(3))));
}

#[test]
fn test_encode_trailer_is_crc32c() {
    // The last four bytes are the little-endian CRC-32C of everything
    // before them, as the crc32c crate computes it.
    let record = Record::put_with_ttl(b"watch".to_vec(), b"tower".to_vec(), 7);
    let encoded = record.encode();
    let n = encoded.len();
    let expected = crc32c::crc32c(&encoded[..n - 4]).to_le_bytes();
    assert_eq!(&encoded[n - 4..], &expected);
}

#[test]
fn test_ttl_absent_is_not_zero() {
    let plain = Record::put(b"t".to_vec(), b"x".to_vec());
    let (decoded, _) = Record::decode(&plain.encode()).unwrap();
    assert_eq!(decoded.ttl, None);

    let zero_ttl = Record::put_with_ttl(b"t".to_vec(), b"x".to_vec(), 0);
    let (decoded0, _) = Record::decode(&zero_ttl.encode()).unwrap();
    assert_eq!(decoded0.ttl, Some(0));
}

#[test]
fn test_compression_bits_roundtrip() {
    assert_eq!(Compression::Plain.to_bits(), 0);
    assert_eq!(Compression::Lz4.to_bits(), 1);
    assert_eq!(Compression::Zstd.to_bits(), 2);
    assert_eq!(Compression::from_bits(0), Ok(Compression::Plain));
    assert_eq!(Compression::from_bits(1), Ok(Compression::Lz4));
    assert_eq!(Compression::from_bits(2), Ok(Compression::Zstd));
    assert!(matches!(
        Compression::from_bits(3),
        Err(RecordError::InvalidCompression(3))
    ));
}
