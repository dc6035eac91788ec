//! Tests for parameter validation, the pixel codec and the raster helpers.

use vortexkey::cli::{Args, FrameResolution, OperatingMode};
use vortexkey::converter::Converter;
use vortexkey::errors::VortexError;
use vortexkey::filesys::{frame_path_combine, frame_path_wildcard_combine, frame_path_wildcard_split};
use vortexkey::utils::bytes_to_hex_string;

fn sample_payload(len: usize) -> Vec<u8> {
    let mut v = Vec::new();
    let mut x: u32 = 0xDEAD_BEEF;
    for _ in 0..len {
        x = x.wrapping_mul(1664525).wrapping_add(1013904223);
        v.push((x >> 24) as u8);
    }
    v
}

#[test]
fn new_accepts_valid_config() {
    let c = Converter::new([1, 2, 1], 1, 30, [16, 16], [8, 8]).unwrap();
    assert_eq!(c.total_bits, 4);
    assert_eq!(c.frame_data_unit_count, 64);
    assert_eq!(c.frame_data_byte_count, 32);
    assert_eq!(c.red_mask, 0b1);
    assert_eq!(c.green_mask, 0b11);
    assert_eq!(c.blue_mask, 0b1);
    assert_eq!(c.total_mask, 0b1111);
}

#[test]
fn new_rejects_zero_color_bits() {
    let r = Converter::new([0, 2, 1], 1, 30, [16, 16], [8, 8]);
    assert_eq!(r.unwrap_err(), VortexError::InvalidColorBits);
}

#[test]
fn new_rejects_wide_color_bits() {
    let r = Converter::new([1, 9, 1], 1, 30, [16, 16], [8, 8]);
    assert_eq!(r.unwrap_err(), VortexError::InvalidColorBits);
}

#[test]
fn new_rejects_bad_frame_rates() {
    let r = Converter::new([1, 2, 1], 0, 30, [16, 16], [8, 8]);
    assert_eq!(r.unwrap_err(), VortexError::InvalidFrameRate);
    let r = Converter::new([1, 2, 1], 40, 30, [16, 16], [8, 8]);
    assert_eq!(r.unwrap_err(), VortexError::InvalidFrameRate);
    let r = Converter::new([1, 2, 1], 1, 61, [16, 16], [8, 8]);
    assert_eq!(r.unwrap_err(), VortexError::InvalidFrameRate);
    let r = Converter::new([1, 2, 1], 7, 30, [16, 16], [8, 8]);
    assert_eq!(r.unwrap_err(), VortexError::FrameRateRatio);
}

#[test]
fn new_rejects_bad_dimensions() {
    let r = Converter::new([1, 2, 1], 1, 30, [16, 16], [0, 8]);
    assert_eq!(r.unwrap_err(), VortexError::ZeroDataDimension);
    let r = Converter::new([1, 2, 1], 1, 30, [17, 16], [8, 8]);
    assert_eq!(r.unwrap_err(), VortexError::DimensionMismatch);
    // data_dims equal to frame_dims fails the downsampling headroom check
    let r = Converter::new([8, 8, 8], 1, 30, [8, 8], [8, 8]);
    assert_eq!(r.unwrap_err(), VortexError::FrameTooSmall);
}

#[test]
fn new_rejects_fractional_frame_bytes() {
    let r = Converter::new([1, 1, 1], 1, 30, [6, 6], [3, 3]);
    assert_eq!(r.unwrap_err(), VortexError::FractionalFrameBytes);
}

#[test]
fn pixel_codec_round_trip_small() {
    let c = Converter::new([1, 2, 1], 1, 30, [16, 16], [8, 8]).unwrap();
    let data = sample_payload(c.frame_data_byte_count);
    let raster = c.data_to_frame(&data);
    assert_eq!(raster.len(), 3 * c.frame_data_unit_count);
    assert_eq!(c.frame_to_data(&raster), data);
}

#[test]
fn pixel_codec_round_trip_full_bytes() {
    // 8 bits in every channel: each data unit carries one full RGB triple.
    let c = Converter::new([8, 8, 8], 1, 30, [16, 16], [8, 8]).unwrap();
    assert_eq!(c.frame_data_byte_count, 3 * 64);
    let data = sample_payload(c.frame_data_byte_count);
    let raster = c.data_to_frame(&data);
    assert_eq!(raster, data);
    assert_eq!(c.frame_to_data(&raster), data);
}

#[test]
fn anchor_bits_are_set() {
    // Every emitted sample holds the anchor bit pattern below its payload.
    let c = Converter::new([1, 2, 3], 1, 30, [16, 16], [8, 8]).unwrap();
    let data = sample_payload(c.frame_data_byte_count);
    let raster = c.data_to_frame(&data);
    for (i, &s) in raster.iter().enumerate() {
        let b = match i % 3 {
            0 => 1u32,
            1 => 2u32,
            _ => 3u32,
        };
        let low_mask = (1u8 << (8 - b)) - 1;
        assert_eq!(s & low_mask, 1u8 << (7 - b), "sample {i}");
    }
}

#[test]
fn upscale_then_average_is_identity() {
    let c = Converter::new([2, 2, 2], 1, 30, [16, 16], [8, 8]).unwrap();
    let data = sample_payload(c.frame_data_byte_count);
    let raster = c.data_to_frame(&data);
    let up = c.upscale_raster(&raster);
    assert_eq!(up.len(), 12 * c.frame_data_unit_count);
    let avg = c.average_blocks(16, 16, &up).unwrap();
    assert_eq!(avg, raster);
}

#[test]
fn average_blocks_rejects_wrong_dimensions() {
    let c = Converter::new([2, 2, 2], 1, 30, [16, 16], [8, 8]).unwrap();
    let pixels = vec![0u8; 3 * 8 * 8];
    assert_eq!(
        c.average_blocks(8, 8, &pixels).unwrap_err(),
        VortexError::ImageDimensions
    );
}

#[test]
fn args_produce_converter() {
    let args = Args {
        outputfile: String::from("out.mp4"),
        inputfile: String::from("in.bin"),
        overwrite: false,
        mode: OperatingMode::DataToVideo,
        colorbits: 121,
        video_fps: 30,
        data_fps: 1,
        frame_resolution: FrameResolution::Hd1080,
        data_pixel_size: 10,
    };
    let c = args.to_converter_config().unwrap();
    assert_eq!(c.red_bits, 1);
    assert_eq!(c.green_bits, 2);
    assert_eq!(c.blue_bits, 1);
    assert_eq!(c.frame_width, 1920);
    assert_eq!(c.frame_height, 1080);
    assert_eq!(c.data_width, 192);
    assert_eq!(c.data_height, 108);
}

#[test]
fn args_reject_bad_color_digit() {
    let args = Args {
        outputfile: String::from("out.mp4"),
        inputfile: String::from("in.bin"),
        overwrite: false,
        mode: OperatingMode::Split,
        colorbits: 190,
        video_fps: 30,
        data_fps: 1,
        frame_resolution: FrameResolution::Sd240,
        data_pixel_size: 10,
    };
    assert_eq!(
        args.to_converter_config().unwrap_err(),
        VortexError::InvalidColorBits
    );
}

#[test]
fn frame_names_are_padded_and_ordered() {
    assert_eq!(frame_path_combine(0), "combine000000000000.png");
    assert_eq!(frame_path_combine(123), "combine000000000123.png");
    assert!(frame_path_combine(5) < frame_path_combine(10));
    assert!(frame_path_combine(99) < frame_path_combine(100));
    assert_eq!(frame_path_wildcard_split(), "split*.png");
    assert_eq!(frame_path_wildcard_combine(), "combine*.png");
}

#[test]
fn hex_string_formats_bytes() {
    assert_eq!(bytes_to_hex_string(&vec![]), "0x");
    assert_eq!(bytes_to_hex_string(&vec![0xde, 0xad, 0x01]), "0xdead01");
    assert_eq!(bytes_to_hex_string(&vec![0x00, 0xff]), "0x00ff");
}

#[test]
fn save_data_frame_pads_partial_chunks() {
    let c = Converter::new([1, 2, 1], 1, 30, [16, 16], [8, 8]).unwrap();
    let data = sample_payload(10);
    let raster = c.save_data_frame(&data).unwrap();
    let mut padded = data.clone();
    padded.resize(c.frame_data_byte_count, 0);
    assert_eq!(raster, c.data_to_frame(&padded));
    assert_eq!(c.frame_to_data(&raster), padded);
}

#[test]
fn save_data_frame_rejects_long_chunks() {
    let c = Converter::new([1, 2, 1], 1, 30, [16, 16], [8, 8]).unwrap();
    let data = sample_payload(c.frame_data_byte_count + 1);
    assert_eq!(
        c.save_data_frame(&data).unwrap_err(),
        VortexError::FrameDataTooLong
    );
}

#[test]
fn save_buffer_frame_is_blank() {
    let c = Converter::new([1, 2, 1], 1, 30, [16, 16], [8, 8]).unwrap();
    let blank = c.save_buffer_frame();
    assert_eq!(blank, c.data_to_frame(&vec![0u8; c.frame_data_byte_count]));
    assert!(c.frame_to_data(&blank).iter().all(|&b| b == 0));
}

#[test]
fn new_rejects_unindexable_frames() {
    let r = Converter::new(
        [8, 8, 8],
        1,
        30,
        [4294967280, 4294967280],
        [2147483640, 2147483640],
    );
    assert_eq!(r.unwrap_err(), VortexError::FrameTooLarge);
}
