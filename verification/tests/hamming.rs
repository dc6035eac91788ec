//! Tests for the Hamming(31,26) SEC-DED codec.

use vortexkey::error_correction::{
    decode_with_hamming_31_26, encode_with_hamming_31_26, hamming_31_26_decode,
    hamming_31_26_encode, HammingStatus,
};
use vortexkey::errors::VortexError;

fn sample_payload(len: usize) -> Vec<u8> {
    let mut v = Vec::new();
    let mut x: u32 = 0x1234_5678;
    for _ in 0..len {
        x = x.wrapping_mul(1664525).wrapping_add(1013904223);
        v.push((x >> 24) as u8);
    }
    v
}

#[test]
fn word_round_trip_zero() {
    assert_eq!(hamming_31_26_encode(0), 0);
    let (data, status) = hamming_31_26_decode(0);
    assert_eq!(data, 0);
    assert_eq!(status, HammingStatus::NoError);
}

#[test]
fn word_round_trip_values() {
    for &d in &[1u32, 0x155_5555, 0x3FF_FFFF, 0x2AA_AAAA, 0x123_4567] {
        let w = hamming_31_26_encode(d);
        let (data, status) = hamming_31_26_decode(w);
        assert_eq!(data, d & 0x3FF_FFFF);
        assert_eq!(status, HammingStatus::NoError);
    }
}

#[test]
fn word_single_error_every_position() {
    let d = 0x2BC_DEF1 & 0x3FF_FFFF;
    let w = hamming_31_26_encode(d);
    for k in 0..32u32 {
        let (data, status) = hamming_31_26_decode(w ^ (1u32 << k));
        assert_eq!(data, d, "flip at bit {k}");
        assert_eq!(status, HammingStatus::CorrectedSingle, "flip at bit {k}");
    }
}

#[test]
fn word_double_error_detected() {
    let d = 0x0AB_CDEF;
    let w = hamming_31_26_encode(d);
    for &(k1, k2) in &[(0u32, 1u32), (2, 31), (5, 17), (30, 31), (12, 13)] {
        let (_, status) = hamming_31_26_decode(w ^ (1u32 << k1) ^ (1u32 << k2));
        assert_eq!(status, HammingStatus::Uncorrectable, "flips at {k1},{k2}");
    }
}

#[test]
fn stream_round_trip() {
    let payload = sample_payload(13 * 7);
    let encoded = encode_with_hamming_31_26(&payload).unwrap();
    assert_eq!(encoded.len(), 7 * 16);
    let (decoded, report) = decode_with_hamming_31_26(&encoded).unwrap();
    assert_eq!(decoded, payload);
    assert_eq!(report.corrected_errors, 0);
    assert_eq!(report.uncorrected_errors, 0);
}

#[test]
fn stream_single_errors_corrected() {
    // One bit flip in each of the first 10 code words of a noise-free stream.
    let payload = sample_payload(52);
    let mut encoded = encode_with_hamming_31_26(&payload).unwrap();
    for w in 0..10 {
        encoded[4 * w] ^= 1;
    }
    let (decoded, report) = decode_with_hamming_31_26(&encoded).unwrap();
    assert_eq!(decoded, payload);
    assert_eq!(report.corrected_errors, 10);
    assert_eq!(report.uncorrected_errors, 0);
}

#[test]
fn stream_double_error_reported() {
    // Two bit flips in one code word: detected, not corrected.
    let payload = sample_payload(26);
    let mut encoded = encode_with_hamming_31_26(&payload).unwrap();
    encoded[0] ^= 1 << 2;
    encoded[0] ^= 1 << 4;
    let (decoded, report) = decode_with_hamming_31_26(&encoded).unwrap();
    assert_eq!(report.corrected_errors, 0);
    assert_eq!(report.uncorrected_errors, 1);
    assert_ne!(decoded, payload);
}

#[test]
fn encode_rejects_partial_chunk() {
    let payload = sample_payload(5);
    assert_eq!(
        encode_with_hamming_31_26(&payload).unwrap_err(),
        VortexError::HammingEncodeLength
    );
}

#[test]
fn decode_rejects_partial_chunk() {
    let data = sample_payload(18);
    assert_eq!(
        decode_with_hamming_31_26(&data).unwrap_err(),
        VortexError::HammingDecodeLength
    );
}
