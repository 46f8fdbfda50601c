use gpwgen::codec::{decode_stream, encode_stream, SpatialRecord, StreamError};

fn rec(cell: u64, value: f32) -> SpatialRecord {
    SpatialRecord { cell, value: value.to_bits() }
}

#[test]
fn test_round_trip() {
    let records = vec![
        rec(0x85283473fffffff, 1.5),
        rec(0x8528347bfffffff, -0.123),
        rec(0x8a2a1072b59ffff, 7.25),
        rec(42, 0.0),
    ];
    let bytes = encode_stream(&records);
    assert_eq!(bytes.len(), 12 * records.len());
    let back = decode_stream(&bytes).unwrap();
    assert_eq!(back, records);
}

#[test]
fn test_encode_layout() {
    let bytes = encode_stream(&vec![rec(0x0102030405060708, 1.0)]);
    assert_eq!(
        bytes,
        vec![
            0x08, 0x07, 0x06, 0x05, 0x04, 0x03, 0x02, 0x01, // cell, little-endian
            0x00, 0x00, 0x80, 0x3F, // 1.0f32, little-endian
        ]
    );
}

#[test]
fn test_truncation() {
    // A stream ending after a full cell identifier but before its value.
    let mut bytes = encode_stream(&vec![rec(0x85283473fffffff, 3.0)]);
    bytes.truncate(8);
    assert_eq!(decode_stream(&bytes), Err(StreamError::TruncatedRecord));
    // Ending in the middle of the identifier is truncation too.
    let mut bytes2 = encode_stream(&vec![rec(0x85283473fffffff, 3.0)]);
    bytes2.truncate(3);
    assert_eq!(decode_stream(&bytes2), Err(StreamError::TruncatedRecord));
}

#[test]
fn test_empty_stream_is_clean_end() {
    let bytes: Vec<u8> = Vec::new();
    assert_eq!(decode_stream(&bytes).unwrap(), Vec::new());
}
