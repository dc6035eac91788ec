//! End-to-end scenarios: frame generation, header recovery and the full
//! round trip without a video codec in between.

use vortexkey::assembler::VideoFrame;
use vortexkey::converter::Converter;
use vortexkey::error_correction::decode_with_hamming_31_26;
use vortexkey::errors::VortexError;

fn sample_payload(len: usize) -> Vec<u8> {
    let mut v = Vec::new();
    let mut x: u32 = 0xC0FF_EE11;
    for _ in 0..len {
        x = x.wrapping_mul(1664525).wrapping_add(1013904223);
        v.push((x >> 24) as u8);
    }
    v
}

/// Turn the data-space rasters of `deconstruct_bytes` into video frames by
/// upscaling, standing in for a lossless video encoder and decoder.
fn upscaled_frames(c: &Converter, rasters: &[Vec<u8>]) -> Vec<VideoFrame> {
    rasters
        .iter()
        .map(|r| VideoFrame {
            width: 2 * c.data_width,
            height: 2 * c.data_height,
            pixels: c.upscale_raster(r),
        })
        .collect()
}

#[test]
fn small_frames_hold_header_and_payload() {
    // 4 bits per unit on an 8 x 8 grid: 32 bytes per frame.  The frame is
    // smaller than the 144-byte header, so the stream is recovered from the
    // decoded frames directly.
    let c = Converter::new([1, 2, 1], 1, 30, [16, 16], [8, 8]).unwrap();
    let payload: Vec<u8> = (0u8..0x40).collect();
    let frames = c.deconstruct_bytes(&payload);
    // 144 header bytes + 80 encoded bytes over 32-byte frames: 7 data
    // frames between two runs of 3 guard frames.
    assert_eq!(frames.len(), 13);
    let mut stream = Vec::new();
    for f in &frames[3..10] {
        stream.extend_from_slice(&c.frame_to_data(f));
    }
    // guard frames decode to all-zero payloads
    for g in [0, 1, 2, 10, 11, 12] {
        assert!(c.frame_to_data(&frames[g]).iter().all(|&b| b == 0));
    }
    // the header sits at the front of the first data frame
    let header = Converter::data_block_header(&payload);
    assert_eq!(&stream[0..144], &header[..]);
    // the remainder is the Hamming-encoded payload; strip and decode it
    let mut body: Vec<u8> = stream[144..].to_vec();
    let pad16 = (16 - body.len() % 16) % 16;
    body.extend(std::iter::repeat(0).take(pad16));
    let (decoded, report) = decode_with_hamming_31_26(&body).unwrap();
    assert_eq!(&decoded[0..payload.len()], &payload[..]);
    assert_eq!(report.corrected_errors, 0);
    assert_eq!(report.uncorrected_errors, 0);
}

#[test]
fn round_trip_random_payload() {
    let c = Converter::new([2, 2, 2], 1, 30, [32, 32], [16, 16]).unwrap();
    let payload = sample_payload(1000);
    let frames = upscaled_frames(&c, &c.deconstruct_bytes(&payload));
    let (recovered, report) = c.reconstruct_bytes(&frames).unwrap();
    assert_eq!(recovered, payload);
    assert!(report.hash_match);
    assert_eq!(report.corrected_errors, 0);
    assert_eq!(report.uncorrected_errors, 0);
}

#[test]
fn round_trip_single_hamming_block() {
    // 13 bytes: exactly one Hamming input chunk.
    let c = Converter::new([2, 2, 2], 1, 30, [32, 32], [16, 16]).unwrap();
    let payload = sample_payload(13);
    let header = Converter::data_block_header(&payload);
    let hd = Converter::read_data_header(&header).unwrap();
    assert_eq!(hd.data_len, 13);
    let frames = upscaled_frames(&c, &c.deconstruct_bytes(&payload));
    let (recovered, report) = c.reconstruct_bytes(&frames).unwrap();
    assert_eq!(recovered, payload);
    assert!(report.hash_match);
}

#[test]
fn reconstruction_corrects_injected_single_errors() {
    // One bit flip in each of the first 10 code words of the stream.
    let c = Converter::new([2, 2, 2], 1, 30, [32, 32], [16, 16]).unwrap();
    let payload = sample_payload(52);
    let mut stream = Converter::data_block_header(&payload);
    let mut encoded =
        vortexkey::error_correction::encode_with_hamming_31_26(&payload).unwrap();
    for w in 0..10 {
        encoded[4 * w] ^= 1;
    }
    stream.append(&mut encoded);
    let frames = frames_of_stream(&c, &stream);
    let (recovered, report) = c.reconstruct_bytes(&frames).unwrap();
    assert_eq!(recovered, payload);
    assert_eq!(report.corrected_errors, 10);
    assert_eq!(report.uncorrected_errors, 0);
    assert!(report.hash_match);
}

#[test]
fn reconstruction_reports_double_error() {
    // Two bit flips in one code word: the word is delivered uncorrected,
    // so the payload differs and the hash no longer matches.
    let c = Converter::new([2, 2, 2], 1, 30, [32, 32], [16, 16]).unwrap();
    let payload = sample_payload(52);
    let mut stream = Converter::data_block_header(&payload);
    let mut encoded =
        vortexkey::error_correction::encode_with_hamming_31_26(&payload).unwrap();
    encoded[0] ^= 1 << 2;
    encoded[0] ^= 1 << 4;
    stream.append(&mut encoded);
    let frames = frames_of_stream(&c, &stream);
    let (recovered, report) = c.reconstruct_bytes(&frames).unwrap();
    assert_ne!(recovered, payload);
    assert_eq!(report.uncorrected_errors, 1);
    assert!(!report.hash_match);
}

/// Cut a raw stream into data frames and upscale them, with no guard frames.
fn frames_of_stream(c: &Converter, stream: &[u8]) -> Vec<VideoFrame> {
    let bpf = c.frame_data_byte_count;
    let mut frames = Vec::new();
    let mut start = 0;
    while start < stream.len() {
        let end = (start + bpf).min(stream.len());
        let mut chunk = stream[start..end].to_vec();
        chunk.resize(bpf, 0);
        let raster = c.data_to_frame(&chunk);
        frames.push(VideoFrame {
            width: 2 * c.data_width,
            height: 2 * c.data_height,
            pixels: c.upscale_raster(&raster),
        });
        start += bpf;
    }
    frames
}

#[test]
fn header_survives_any_single_bit_flip() {
    let payload = sample_payload(64);
    let clean = Converter::data_block_header(&payload);
    let expected = Converter::read_data_header(&clean).unwrap();
    for byte in 0..144 {
        for bit in 0..8 {
            let mut corrupted = clean.clone();
            corrupted[byte] ^= 1u8 << bit;
            let hd = Converter::read_data_header(&corrupted).unwrap();
            assert_eq!(hd, expected, "flip at byte {byte} bit {bit}");
        }
    }
}

#[test]
fn header_breaks_under_double_flip_at_same_position() {
    // Flipping the same bit in two of the three copies flips the majority.
    let payload = sample_payload(13);
    let mut corrupted = Converter::data_block_header(&payload);
    corrupted[8] ^= 1;
    corrupted[48 + 8] ^= 1;
    let hd = Converter::read_data_header(&corrupted).unwrap();
    assert_eq!(hd.data_len, 13 ^ 1);
}

#[test]
fn header_hash_is_sha256() {
    // Known digest: SHA-256 of the three bytes "abc".
    let payload = vec![b'a', b'b', b'c'];
    let header = Converter::data_block_header(&payload);
    let expected: [u8; 32] = [
        0xba, 0x78, 0x16, 0xbf, 0x8f, 0x01, 0xcf, 0xea, 0x41, 0x41, 0x40, 0xde, 0x5d, 0xae,
        0x22, 0x23, 0xb0, 0x03, 0x61, 0xa3, 0x96, 0x17, 0x7a, 0x9c, 0xb4, 0x10, 0xff, 0x61,
        0xf2, 0x00, 0x15, 0xad,
    ];
    assert_eq!(&header[16..48], &expected[..]);
    assert_eq!(&header[0..8], &[68, 65, 67, 79, 0, 255, 0, 1]);
    assert_eq!(&header[8..16], &[3, 0, 0, 0, 0, 0, 0, 0]);
    assert_eq!(&header[48..96], &header[0..48]);
    assert_eq!(&header[96..144], &header[0..48]);
}

#[test]
fn reconstruct_rejects_missing_magic() {
    let c = Converter::new([2, 2, 2], 1, 30, [32, 32], [16, 16]).unwrap();
    let frames: Vec<VideoFrame> = Vec::new();
    assert_eq!(
        c.reconstruct_bytes(&frames).unwrap_err(),
        VortexError::MissingMagic
    );
    // all-blank frames look like one long pre-buffer
    let blank = c.data_to_frame(&vec![0u8; c.frame_data_byte_count]);
    let frames = vec![VideoFrame {
        width: 2 * c.data_width,
        height: 2 * c.data_height,
        pixels: c.upscale_raster(&blank),
    }];
    assert_eq!(
        c.reconstruct_bytes(&frames).unwrap_err(),
        VortexError::MissingMagic
    );
}

#[test]
fn reconstruct_rejects_wrong_frame_dimensions() {
    let c = Converter::new([2, 2, 2], 1, 30, [32, 32], [16, 16]).unwrap();
    let frames = vec![VideoFrame {
        width: 16,
        height: 16,
        pixels: vec![0u8; 3 * 16 * 16],
    }];
    assert_eq!(
        c.reconstruct_bytes(&frames).unwrap_err(),
        VortexError::ImageDimensions
    );
}

#[test]
fn reconstruct_rejects_truncated_stream() {
    // Keep only the header frame: the declared length exceeds what is left.
    let c = Converter::new([2, 2, 2], 1, 30, [32, 32], [16, 16]).unwrap();
    let payload = sample_payload(1000);
    let mut frames = upscaled_frames(&c, &c.deconstruct_bytes(&payload));
    frames.truncate(4);
    frames.drain(0..3);
    assert_eq!(
        c.reconstruct_bytes(&frames).unwrap_err(),
        VortexError::LengthBeyondData
    );
}

#[test]
fn reconstruct_rejects_zero_length_header() {
    // A header built for an empty payload declares length zero.
    let c = Converter::new([2, 2, 2], 1, 30, [32, 32], [16, 16]).unwrap();
    let stream = Converter::data_block_header(&Vec::new());
    let frames = frames_of_stream(&c, &stream);
    assert_eq!(
        c.reconstruct_bytes(&frames).unwrap_err(),
        VortexError::ZeroHeaderLength
    );
}
