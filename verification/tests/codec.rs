use lib::bytevector::{vector_capacity, vector_height};
use lib::codec::{
    code_point, decode_buffer, encode_utf8_code_point, utf8_decode_sequence, utf8_sequence_length,
    REPLACEMENT_CODE_POINT,
};
use lib::value::Error;

#[test]
fn sequence_lengths_follow_the_leading_byte() {
    assert_eq!(utf8_sequence_length(0x41), 1);
    assert_eq!(utf8_sequence_length(0x7f), 1);
    assert_eq!(utf8_sequence_length(0x80), 0);
    assert_eq!(utf8_sequence_length(0xc1), 0);
    assert_eq!(utf8_sequence_length(0xc2), 2);
    assert_eq!(utf8_sequence_length(0xdf), 2);
    assert_eq!(utf8_sequence_length(0xe0), 3);
    assert_eq!(utf8_sequence_length(0xef), 3);
    assert_eq!(utf8_sequence_length(0xf0), 4);
    assert_eq!(utf8_sequence_length(0xf4), 4);
    assert_eq!(utf8_sequence_length(0xf5), 0);
}

#[test]
fn sequences_decode_to_their_scalars() {
    assert_eq!(utf8_decode_sequence(&[0x41]), Some(0x41));
    assert_eq!(utf8_decode_sequence(&[0xc3, 0xa9]), Some(233));
    assert_eq!(utf8_decode_sequence(&[0xe3, 0x81, 0x82]), Some(12354));
    assert_eq!(utf8_decode_sequence(&[0xf0, 0x9f, 0x98, 0x80]), Some(0x1f600));
}

#[test]
fn malformed_sequences_decode_to_nothing() {
    assert_eq!(utf8_decode_sequence(&[]), None);
    assert_eq!(utf8_decode_sequence(&[0x80]), None);
    assert_eq!(utf8_decode_sequence(&[0xc0, 0x80]), None);
    assert_eq!(utf8_decode_sequence(&[0xe0, 0x80, 0x80]), None);
    assert_eq!(utf8_decode_sequence(&[0xed, 0xa0, 0x80]), None);
    assert_eq!(utf8_decode_sequence(&[0xf4, 0x90, 0x80, 0x80]), None);
    assert_eq!(utf8_decode_sequence(&[0xc3, 0xa9, 0x41]), None);
}

#[test]
fn code_points_exclude_surrogates_and_large_values() {
    assert_eq!(code_point(0), Ok(0));
    assert_eq!(code_point(0x10ffff), Ok(0x10ffff));
    assert_eq!(code_point(-1), Err(Error::NumberExpected));
    assert_eq!(code_point(0xd800), Err(Error::NumberExpected));
    assert_eq!(code_point(0xdfff), Err(Error::NumberExpected));
    assert_eq!(code_point(0x110000), Err(Error::NumberExpected));
}

#[test]
fn encoding_then_decoding_gives_the_scalar_back() {
    for scalar in [0u32, 0x41, 0x7f, 0x80, 233, 0x7ff, 0x800, 12354, 0xffff, 0x10000, 0x10ffff] {
        let mut bytes = [0u8; 4];
        let size = encode_utf8_code_point(scalar as i64, &mut bytes).unwrap();
        assert_eq!(utf8_sequence_length(bytes[0]), size);
        assert_eq!(utf8_decode_sequence(&bytes[..size]), Some(scalar));
    }
}

#[test]
fn encoding_writes_the_utf8_bytes() {
    let mut bytes = [0u8; 4];
    assert_eq!(encode_utf8_code_point(12354, &mut bytes), Ok(3));
    assert_eq!(&bytes[..3], &[227, 129, 130]);
    assert_eq!(encode_utf8_code_point(0xd800, &mut bytes), Err(Error::NumberExpected));
}

#[test]
fn decoding_a_stream_of_encodings_gives_the_scalars_back() {
    let scalars = [65u32, 233, 12354, 0x1f600];
    let mut bytes = Vec::new();
    for &scalar in &scalars {
        let mut buffer = [0u8; 4];
        let size = encode_utf8_code_point(scalar as i64, &mut buffer).unwrap();
        bytes.extend_from_slice(&buffer[..size]);
    }
    for (final_input, strict) in [(false, false), (false, true), (true, false), (true, true)] {
        let (decoded, consumed, invalid) = decode_buffer(&bytes, 4, final_input, strict);
        assert_eq!(decoded, scalars.to_vec());
        assert_eq!(consumed, bytes.len());
        assert!(!invalid);
    }
}

#[test]
fn lenient_decoding_replaces_malformed_bytes() {
    let (decoded, consumed, invalid) = decode_buffer(&[0x41, 0x80, 0x42], 64, true, false);
    assert_eq!(decoded, vec![0x41, REPLACEMENT_CODE_POINT, 0x42]);
    assert_eq!(consumed, 3);
    assert!(!invalid);
}

#[test]
fn strict_decoding_stops_at_malformed_bytes() {
    let (decoded, consumed, invalid) = decode_buffer(&[0x41, 0x80, 0x42], 64, true, true);
    assert_eq!(decoded, vec![0x41]);
    assert_eq!(consumed, 1);
    assert!(invalid);
}

#[test]
fn decoding_stops_at_the_maximum() {
    let (decoded, consumed, invalid) = decode_buffer(&[0x41, 0xc3, 0xa9, 0x42], 2, true, true);
    assert_eq!(decoded, vec![0x41, 233]);
    assert_eq!(consumed, 3);
    assert!(!invalid);
}

#[test]
fn a_cut_sequence_waits_for_more_input_unless_final() {
    assert_eq!(decode_buffer(&[0x41, 0xe3, 0x81], 64, false, true), (vec![0x41], 1, false));
    assert_eq!(decode_buffer(&[0x41, 0xe3, 0x81], 64, true, true), (vec![0x41], 1, true));
    assert_eq!(
        decode_buffer(&[0x41, 0xe3, 0x81], 64, true, false),
        (vec![0x41, REPLACEMENT_CODE_POINT, REPLACEMENT_CODE_POINT], 3, false)
    );
    assert_eq!(decode_buffer(&[0xe3, 0x41], 64, false, true), (vec![], 0, true));
}

#[test]
fn vector_heights_grow_by_factors_of_64() {
    assert_eq!(vector_height(0), 0);
    assert_eq!(vector_height(64), 0);
    assert_eq!(vector_height(65), 1);
    assert_eq!(vector_height(4096), 1);
    assert_eq!(vector_height(4097), 2);
}

#[test]
fn vector_capacities_are_powers_of_64_saturated() {
    assert_eq!(vector_capacity(0), 1);
    assert_eq!(vector_capacity(1), 64);
    assert_eq!(vector_capacity(2), 4096);
    assert_eq!(vector_capacity(10), 1 << 60);
    assert_eq!(vector_capacity(11), usize::MAX);
}

#[test]
fn decoding_then_encoding_gives_the_bytes_back() {
    let sequences: [&[u8]; 5] = [&[0x41], &[195, 169], &[227, 129, 130], &[0xef, 0xbf, 0xbf], &[0xf4, 0x8f, 0xbf, 0xbf]];
    for sequence in sequences {
        let scalar = utf8_decode_sequence(sequence).unwrap();
        let mut bytes = [0u8; 4];
        let size = encode_utf8_code_point(scalar as i64, &mut bytes).unwrap();
        assert_eq!(&bytes[..size], sequence);
    }
}
