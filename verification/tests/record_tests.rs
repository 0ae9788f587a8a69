use kuai_mvp_types::errors::CodecError;
use kuai_mvp_types::record::{
    decode_record, decode_record_vector, encode_record, encode_record_vector, Record,
};

#[test]
fn record_exact_bytes() {
    // Offset table: key starts at 8, value at 8 + key length.
    assert_eq!(
        encode_record(&[97, 98], &[99]),
        vec![8u8, 0, 0, 0, 10, 0, 0, 0, 97, 98, 99]
    );
}

#[test]
fn record_round_trip() {
    let encoded = encode_record(&[1, 2, 3], &[4, 5]);
    let decoded = decode_record(&encoded).unwrap();
    assert_eq!(decoded.key, vec![1u8, 2, 3]);
    assert_eq!(decoded.value, vec![4u8, 5]);
}

#[test]
fn record_empty_fields_round_trip() {
    let encoded = encode_record(&[], &[]);
    assert_eq!(encoded, vec![8u8, 0, 0, 0, 8, 0, 0, 0]);
    let decoded = decode_record(&encoded).unwrap();
    assert_eq!(decoded.key, Vec::<u8>::new());
    assert_eq!(decoded.value, Vec::<u8>::new());
}

#[test]
fn record_header_broken() {
    assert_eq!(decode_record(&[1, 2, 3]), Err(CodecError::HeaderIsBroken));
}

#[test]
fn record_offsets_not_match() {
    // Key offset 9 leaves slack after the offset table.
    assert_eq!(
        decode_record(&[9, 0, 0, 0, 10, 0, 0, 0, 0, 0]),
        Err(CodecError::OffsetsNotMatch)
    );
    // Value offset points past the end of the record.
    assert_eq!(
        decode_record(&[8, 0, 0, 0, 20, 0, 0, 0, 0, 0]),
        Err(CodecError::OffsetsNotMatch)
    );
    // Value offset runs backwards into the offset table.
    assert_eq!(
        decode_record(&[8, 0, 0, 0, 4, 0, 0, 0, 0, 0]),
        Err(CodecError::OffsetsNotMatch)
    );
}

#[test]
fn vector_exact_bytes() {
    let records = vec![Record {
        key: vec![97],
        value: vec![98],
    }];
    // Count 1, the single item starts right after the offset table at 8.
    assert_eq!(
        encode_record_vector(&records),
        vec![1u8, 0, 0, 0, 8, 0, 0, 0, 8, 0, 0, 0, 9, 0, 0, 0, 97, 98]
    );
}

#[test]
fn vector_round_trip() {
    let records = vec![
        Record {
            key: vec![1],
            value: vec![2, 3],
        },
        Record {
            key: vec![],
            value: vec![],
        },
        Record {
            key: vec![4, 5, 6],
            value: vec![7],
        },
    ];
    let encoded = encode_record_vector(&records);
    let decoded = decode_record_vector(&encoded).unwrap();
    assert_eq!(decoded, records);
}

#[test]
fn vector_empty_exact() {
    // An empty vector is exactly its count field...
    assert_eq!(
        encode_record_vector(&Vec::new()),
        vec![0u8, 0, 0, 0]
    );
    assert_eq!(decode_record_vector(&[0, 0, 0, 0]), Ok(Vec::new()));
    // ...and any trailing byte is a rejection.
    assert_eq!(
        decode_record_vector(&[0, 0, 0, 0, 0]),
        Err(CodecError::TotalSizeNotMatch)
    );
    assert_eq!(
        decode_record_vector(&[0, 0, 0, 0, 99]),
        Err(CodecError::TotalSizeNotMatch)
    );
}

#[test]
fn vector_truncated_table() {
    // Count 2 demands an 8-byte offset table; only one entry is present.
    assert_eq!(
        decode_record_vector(&[2, 0, 0, 0, 12, 0, 0, 0]),
        Err(CodecError::TotalSizeNotMatch)
    );
    // Count 1 with no table at all.
    assert_eq!(
        decode_record_vector(&[1, 0, 0, 0]),
        Err(CodecError::TotalSizeNotMatch)
    );
}

#[test]
fn vector_short_buffers_rejected() {
    // Every buffer under the 4-byte count field is structurally broken.
    let samples: Vec<Vec<u8>> = vec![
        vec![],
        vec![0],
        vec![255],
        vec![0, 0],
        vec![255, 255],
        vec![0, 0, 0],
        vec![255, 255, 255],
    ];
    for buffer in samples {
        assert_eq!(
            decode_record_vector(&buffer),
            Err(CodecError::HeaderIsBroken)
        );
    }
}

#[test]
fn vector_bad_offsets() {
    // First offset must land right after the offset table.
    assert_eq!(
        decode_record_vector(&[1, 0, 0, 0, 9, 0, 0, 0, 0, 0]),
        Err(CodecError::OffsetsNotMatch)
    );
    // Offsets must not decrease.
    assert_eq!(
        decode_record_vector(&[2, 0, 0, 0, 12, 0, 0, 0, 10, 0, 0, 0, 0, 0]),
        Err(CodecError::OffsetsNotMatch)
    );
    // An offset past the end of the buffer.
    assert_eq!(
        decode_record_vector(&[1, 0, 0, 0, 200, 0, 0, 0, 0, 0]),
        Err(CodecError::OffsetsNotMatch)
    );
}
