use kuai_mvp_types::codec::{decode_length_prefixed, encode_length_prefixed};
use kuai_mvp_types::errors::CodecError;

#[test]
fn length_prefixed_exact_bytes() {
    assert_eq!(encode_length_prefixed(&[]), vec![0u8, 0, 0, 0]);
    assert_eq!(
        encode_length_prefixed(&[97, 98, 99]),
        vec![3u8, 0, 0, 0, 97, 98, 99]
    );
}

#[test]
fn length_prefixed_round_trip() {
    let encoded = encode_length_prefixed(&[10, 20, 30]);
    let (payload, consumed) = decode_length_prefixed(&encoded).unwrap();
    assert_eq!(payload, vec![10u8, 20, 30]);
    assert_eq!(consumed, 7);
}

#[test]
fn length_prefixed_decodes_from_front() {
    // A trailing byte is left for the enclosing decoder to consume.
    let buffer = vec![2u8, 0, 0, 0, 7, 8, 255];
    let (payload, consumed) = decode_length_prefixed(&buffer).unwrap();
    assert_eq!(payload, vec![7u8, 8]);
    assert_eq!(consumed, 6);
}

#[test]
fn length_prefixed_header_too_short() {
    assert_eq!(
        decode_length_prefixed(&[1, 2]),
        Err(CodecError::HeaderTooShort)
    );
    assert_eq!(decode_length_prefixed(&[]), Err(CodecError::HeaderTooShort));
}

#[test]
fn length_prefixed_length_mismatch() {
    // Declared length 5, only one payload byte present.
    assert_eq!(
        decode_length_prefixed(&[5, 0, 0, 0, 1]),
        Err(CodecError::LengthMismatch)
    );
}
