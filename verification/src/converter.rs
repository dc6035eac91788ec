//! The converter: validated parameters and the pixel codec that maps bytes
//! to and from rasters of RGB data units.

use crate::bits::{
    bits_in_range, bits_val, byte_bit, lemma_bits_val_bound, lemma_bits_val_byte,
    lemma_bits_val_congr, lemma_bits_val_shifted_bit, lemma_stream_bits_in_range, read_bits,
    stream_bits,
};
use crate::errors::VortexError;
use vstd::arithmetic::div_mod::lemma_fundamental_div_mod;
use vstd::arithmetic::power2::{lemma2_to64, lemma_pow2_strictly_increases, pow2};
use vstd::prelude::*;

verus! {

/// Number of color channels in a data unit: red, green, blue.
pub const COLOR_CHANNELS: usize = 3;

/// Extracted frames arrive at `DOWNSAMPLE_SCALER` times the data resolution
/// and are averaged down in blocks of this size squared.
pub const DOWNSAMPLE_SCALER: u32 = 2;

/// Blank guard frames written before the data stream.
pub const PREBUFFER_FRAMES: usize = 3;

/// Blank guard frames written after the data stream.
pub const POSTBUFFER_FRAMES: usize = 3;

/// Bytes per input chunk of the Hamming encoder: lcm(8, 26) / 8.
pub const HAMMING_CHUNK_BYTES_31_26: usize = 13;

/// Bytes per chunk once the Hamming parity is added.
pub const HAMMING_CHUNK_BYTES_TOTAL_31_26: usize = 16;

/// Converts arbitrary data to rasters of color samples and back.
/// Holds the validated parameters and every derived quantity.
#[derive(Clone, Copy, Debug)]
pub struct Converter {
    /// Data bits encoded in the red channel of each data unit.
    pub red_bits: u32,
    /// Mask over `red_bits` bits: `(1 << red_bits) - 1`.
    pub red_mask: u32,
    /// Data bits encoded in the green channel of each data unit.
    pub green_bits: u32,
    /// Mask over `green_bits` bits: `(1 << green_bits) - 1`.
    pub green_mask: u32,
    /// Data bits encoded in the blue channel of each data unit.
    pub blue_bits: u32,
    /// Mask over `blue_bits` bits: `(1 << blue_bits) - 1`.
    pub blue_mask: u32,
    /// Total bits per data unit: `red_bits + green_bits + blue_bits`.
    pub total_bits: u32,
    /// Mask over `total_bits` bits: `(1 << total_bits) - 1`.
    pub total_mask: u32,
    /// Data frames encoded per second of output video.
    pub data_fps: u32,
    /// Frame rate of the output video; a whole multiple of `data_fps`.
    pub video_fps: u32,
    /// Height of the output video in pixels.
    pub frame_height: u32,
    /// Width of the output video in pixels.
    pub frame_width: u32,
    /// Data units per frame, vertically.
    pub data_height: u32,
    /// Data units per frame, horizontally.
    pub data_width: u32,
    /// Data units per frame in total: `data_width * data_height`.
    pub frame_data_unit_count: usize,
    /// Bytes encoded per frame: `frame_data_unit_count * total_bits / 8`.
    pub frame_data_byte_count: usize,
}

/// Every configuration condition the constructor checks, as one predicate.
pub open spec fn valid_config(
    cb0: u32,
    cb1: u32,
    cb2: u32,
    data_fps: u32,
    video_fps: u32,
    fw: u32,
    fh: u32,
    dw: u32,
    dh: u32,
) -> bool {
    &&& 1 <= cb0 <= 8
    &&& 1 <= cb1 <= 8
    &&& 1 <= cb2 <= 8
    &&& 1 <= data_fps <= video_fps <= 60
    &&& video_fps % data_fps == 0
    &&& dw >= 1
    &&& dh >= 1
    &&& fw % dw == 0
    &&& fh % dh == 0
    &&& fw >= DOWNSAMPLE_SCALER * dw
    &&& fh >= DOWNSAMPLE_SCALER * dh
    &&& (dw * dh * (cb0 + cb1 + cb2)) % 8 == 0
    &&& dw * dh * (cb0 + cb1 + cb2) <= usize::MAX
    &&& dw * dh * 3 <= usize::MAX
}

/// The error the constructor returns for a bad configuration: the first
/// check that fails, in the order the checks run.
pub open spec fn config_error(
    cb0: u32,
    cb1: u32,
    cb2: u32,
    data_fps: u32,
    video_fps: u32,
    fw: u32,
    fh: u32,
    dw: u32,
    dh: u32,
) -> VortexError {
    if !(1 <= cb0 <= 8 && 1 <= cb1 <= 8 && 1 <= cb2 <= 8) {
        VortexError::InvalidColorBits
    } else if !(1 <= data_fps <= video_fps <= 60) {
        VortexError::InvalidFrameRate
    } else if video_fps % data_fps != 0 {
        VortexError::FrameRateRatio
    } else if dw == 0 || dh == 0 {
        VortexError::ZeroDataDimension
    } else if fw % dw != 0 || fh % dh != 0 {
        VortexError::DimensionMismatch
    } else if fw < DOWNSAMPLE_SCALER * dw || fh < DOWNSAMPLE_SCALER * dh {
        VortexError::FrameTooSmall
    } else if (dw * dh * (cb0 + cb1 + cb2)) % 8 != 0 {
        VortexError::FractionalFrameBytes
    } else {
        VortexError::FrameTooLarge
    }
}

impl Converter {
    /// All parameters validated and every derived field tied to its formula.
    pub open spec fn wf(self) -> bool {
        &&& 1 <= self.red_bits <= 8
        &&& 1 <= self.green_bits <= 8
        &&& 1 <= self.blue_bits <= 8
        &&& self.total_bits == self.red_bits + self.green_bits + self.blue_bits
        &&& self.red_mask == (1u32 << self.red_bits) - 1
        &&& self.green_mask == (1u32 << self.green_bits) - 1
        &&& self.blue_mask == (1u32 << self.blue_bits) - 1
        &&& self.total_mask == (1u32 << self.total_bits) - 1
        &&& 1 <= self.data_fps <= self.video_fps <= 60
        &&& self.video_fps % self.data_fps == 0
        &&& self.data_width >= 1
        &&& self.data_height >= 1
        &&& self.frame_width % self.data_width == 0
        &&& self.frame_height % self.data_height == 0
        &&& self.frame_width >= DOWNSAMPLE_SCALER * self.data_width
        &&& self.frame_height >= DOWNSAMPLE_SCALER * self.data_height
        &&& self.frame_data_unit_count == self.data_width * self.data_height
        &&& self.frame_data_byte_count * 8 == self.frame_data_unit_count * self.total_bits
        &&& self.frame_data_unit_count * self.total_bits <= usize::MAX
        &&& self.frame_data_unit_count * 3 <= usize::MAX
    }

    /// Generates a new converter after validating every parameter.
    ///
    /// * `color_bits` - Bits encoded per color channel, in RGB order.
    /// * `data_fps` - Data frames per second of the output video.
    /// * `video_fps` - Frame rate of the output video; a multiple of `data_fps`.
    /// * `frame_dimensions` - (Width, Height) of the output video in pixels.
    /// * `data_dimensions` - (Width, Height) of a frame in data units.
    pub fn new(
        color_bits: [u32; COLOR_CHANNELS],
        data_fps: u32,
        video_fps: u32,
        frame_dimensions: [u32; 2],
        data_dimensions: [u32; 2],
    ) -> (r: Result<Self, VortexError>)
        ensures
            r is Ok <==> valid_config(
                color_bits[0],
                color_bits[1],
                color_bits[2],
                data_fps,
                video_fps,
                frame_dimensions[0],
                frame_dimensions[1],
                data_dimensions[0],
                data_dimensions[1],
            ),
            match r {
                Ok(c) => {
                    &&& c.wf()
                    &&& c.red_bits == color_bits[0]
                    &&& c.green_bits == color_bits[1]
                    &&& c.blue_bits == color_bits[2]
                    &&& c.data_fps == data_fps
                    &&& c.video_fps == video_fps
                    &&& c.frame_width == frame_dimensions[0]
                    &&& c.frame_height == frame_dimensions[1]
                    &&& c.data_width == data_dimensions[0]
                    &&& c.data_height == data_dimensions[1]
                },
                Err(e) => e == config_error(
                    color_bits[0],
                    color_bits[1],
                    color_bits[2],
                    data_fps,
                    video_fps,
                    frame_dimensions[0],
                    frame_dimensions[1],
                    data_dimensions[0],
                    data_dimensions[1],
                ),
            },
    {
        let cb0 = color_bits[0];
        let cb1 = color_bits[1];
        let cb2 = color_bits[2];
        let fw = frame_dimensions[0];
        let fh = frame_dimensions[1];
        let dw = data_dimensions[0];
        let dh = data_dimensions[1];
        if cb0 < 1 || cb0 > 8 || cb1 < 1 || cb1 > 8 || cb2 < 1 || cb2 > 8 {
            return Err(VortexError::InvalidColorBits);
        }
        if data_fps < 1 || data_fps > video_fps || video_fps > 60 {
            return Err(VortexError::InvalidFrameRate);
        }
        if video_fps % data_fps != 0 {
            return Err(VortexError::FrameRateRatio);
        }
        if dw == 0 || dh == 0 {
            return Err(VortexError::ZeroDataDimension);
        }
        if fw % dw != 0 || fh % dh != 0 {
            return Err(VortexError::DimensionMismatch);
        }
        if (fw as u64) < (DOWNSAMPLE_SCALER as u64) * (dw as u64) || (fh as u64) < (
        DOWNSAMPLE_SCALER as u64) * (dh as u64) {
            return Err(VortexError::FrameTooSmall);
        }
        let total_bits: u32 = cb0 + cb1 + cb2;
        proof {
            assert((dw as int) * (dh as int) <= 0xFFFF_FFFF * 0xFFFF_FFFF && (dw as int) * (
            dh as int) * 24 <= 0xFFFF_FFFF * 0xFFFF_FFFF * 24 && (dw as int) * (dh as int) * 3
                <= 0xFFFF_FFFF * 0xFFFF_FFFF * 3) by (nonlinear_arith)
                requires
                    0 <= dw as int <= 0xFFFF_FFFF,
                    0 <= dh as int <= 0xFFFF_FFFF,
            ;
            assert((dw as int) * (dh as int) * (total_bits as int) <= (dw as int) * (dh as int)
                * 24) by (nonlinear_arith)
                requires
                    total_bits <= 24,
                    0 <= (dw as int) * (dh as int),
            ;
        }
        let units128: u128 = (dw as u128) * (dh as u128);
        let bits128: u128 = units128 * (total_bits as u128);
        if bits128 % 8 != 0 {
            return Err(VortexError::FractionalFrameBytes);
        }
        if bits128 > (usize::MAX as u128) || units128 * 3 > (usize::MAX as u128) {
            return Err(VortexError::FrameTooLarge);
        }
        let frame_data_unit_count: usize = units128 as usize;
        let frame_data_byte_count: usize = (bits128 / 8) as usize;
        proof {
            assert(units128 * 3 <= units128 * total_bits) by (nonlinear_arith)
                requires
                    total_bits >= 3,
                    units128 >= 0,
            ;
            assert(frame_data_byte_count * 8 == frame_data_unit_count * total_bits);
        }
        let red_mask: u32 = low_mask_u32(cb0);
        let green_mask: u32 = low_mask_u32(cb1);
        let blue_mask: u32 = low_mask_u32(cb2);
        let total_mask: u32 = low_mask_u32(total_bits);
        Ok(
            Self {
                red_bits: cb0,
                red_mask,
                green_bits: cb1,
                green_mask,
                blue_bits: cb2,
                blue_mask,
                total_bits,
                total_mask,
                data_fps,
                video_fps,
                data_height: dh,
                data_width: dw,
                frame_height: fh,
                frame_width: fw,
                frame_data_unit_count,
                frame_data_byte_count,
            },
        )
    }
}

/// Bits carried by channel `ch` of a data unit (0 red, 1 green, 2 blue).
pub open spec fn channel_bits(c: Converter, ch: int) -> nat {
    if ch == 0 {
        c.red_bits as nat
    } else if ch == 1 {
        c.green_bits as nat
    } else {
        c.blue_bits as nat
    }
}

/// Bit offset of channel `ch`'s field inside a data unit: red holds the most
/// significant bits, then green, then blue.
pub open spec fn channel_offset(c: Converter, ch: int) -> nat {
    if ch == 0 {
        0
    } else if ch == 1 {
        c.red_bits as nat
    } else {
        (c.red_bits + c.green_bits) as nat
    }
}

/// A channel sample: the payload field in the high `bw` bits, the anchor bit
/// at position `7 - bw` forced to one when `bw < 8`, zeros below.
pub open spec fn anchored_sample(f: u32, bw: u32) -> u8
    recommends
        1 <= bw <= 8,
        f < (1u32 << bw),
{
    let base = f << ((8 - bw) as u32);
    if bw < 8 {
        (base | (1u32 << ((7 - bw) as u32))) as u8
    } else {
        base as u8
    }
}

/// The raster that a frame's payload bytes encode to: three anchored channel
/// samples per data unit, fields read MSB-first from the byte stream.
pub open spec fn encode_frame_spec(c: Converter, data: Seq<u8>) -> Seq<u8> {
    Seq::new(
        (c.frame_data_unit_count * 3) as nat,
        |idx: int|
            {
                let j = idx / 3;
                let ch = idx % 3;
                let start = j * (c.total_bits as int) + channel_offset(c, ch);
                anchored_sample(
                    bits_val(stream_bits(data), start, channel_bits(c, ch)) as u32,
                    channel_bits(c, ch) as u32,
                )
            },
    )
}

/// The payload bits a raster decodes to, as one MSB-first stream: for each
/// unit the top `red_bits` bits of the red sample, then the green and blue
/// fields in turn.
pub open spec fn decoded_bits(c: Converter, raster: Seq<u8>) -> Seq<nat> {
    Seq::new(
        (c.frame_data_unit_count * c.total_bits) as nat,
        |m: int|
            {
                let j = m / (c.total_bits as int);
                let o = m % (c.total_bits as int);
                if o < c.red_bits {
                    byte_bit(raster[3 * j], o)
                } else if o < c.red_bits + c.green_bits {
                    byte_bit(raster[3 * j + 1], o - c.red_bits)
                } else {
                    byte_bit(raster[3 * j + 2], o - c.red_bits - c.green_bits)
                }
            },
    )
}

/// The payload bytes a raster decodes to.
pub open spec fn decode_frame_spec(c: Converter, raster: Seq<u8>) -> Seq<u8> {
    Seq::new(
        c.frame_data_byte_count as nat,
        |i: int| bits_val(decoded_bits(c, raster), 8 * i, 8) as u8,
    )
}

/// A raster never decodes to anything but single bits.
pub proof fn lemma_decoded_frame_bits_in_range(c: Converter, raster: Seq<u8>)
    ensures
        bits_in_range(decoded_bits(c, raster), 0, decoded_bits(c, raster).len()),
{
    let dbits = decoded_bits(c, raster);
    assert forall|m: int| 0 <= m < dbits.len() implies dbits[m] < 2 by {
        let o = m % (c.total_bits as int);
        crate::bits::lemma_byte_bit_le1(raster[3 * (m / (c.total_bits as int))], o);
        crate::bits::lemma_byte_bit_le1(
            raster[3 * (m / (c.total_bits as int)) + 1],
            o - c.red_bits,
        );
        crate::bits::lemma_byte_bit_le1(
            raster[3 * (m / (c.total_bits as int)) + 2],
            o - c.red_bits - c.green_bits,
        );
    }
}

/// A single left shift of one is the matching power of two.
proof fn lemma_one_shl_is_pow2(bw: u32)
    requires
        bw <= 31,
    ensures
        (1u32 << bw) == pow2(bw as nat),
{
    lemma2_to64();
    if (bw as nat) < 31 {
        lemma_pow2_strictly_increases(bw as nat, 31);
    }
    vstd::bits::lemma_u32_shl_is_mul(1, bw);
}

/// Bit `o` (MSB-first) of an anchored sample is bit `o` of its payload
/// field, untouched by the anchor.
proof fn lemma_anchored_sample_bit(f: u32, bw: u32, o: u32)
    requires
        1 <= bw <= 8,
        o < bw,
        f < (1u32 << bw),
    ensures
        ((anchored_sample(f, bw) as u32) >> ((7 - o) as u32)) & 1 == (f >> ((bw - 1 - o) as u32))
            & 1,
{
    assert(((anchored_sample(f, bw) as u32) >> ((7 - o) as u32)) & 1 == (f >> ((bw - 1
        - o) as u32)) & 1) by (bit_vector)
        requires
            1 <= bw <= 8,
            o < bw,
            f < (1u32 << bw),
    ;
}

/// Encode a payload field into a channel sample, anchored to the midpoint of
/// its quantization bin.
fn anchor_channel_sample(field: u32, bw: u32) -> (r: u8)
    requires
        1 <= bw <= 8,
        field < (1u32 << bw),
    ensures
        r == anchored_sample(field, bw),
{
    let base: u32 = field << (8 - bw);
    if bw < 8 {
        (base | (1u32 << (7 - bw))) as u8
    } else {
        base as u8
    }
}

impl Converter {
    /// Takes a slice of bytes of length `frame_data_byte_count` and encodes
    /// it into the color samples of one frame.
    ///
    /// * `data` - Arbitrary bytes to encode into the frame.
    pub fn data_to_frame(&self, data: &Vec<u8>) -> (r: Vec<u8>)
        requires
            self.wf(),
            data@.len() == self.frame_data_byte_count,
        ensures
            r@ == encode_frame_spec(*self, data@),
            r@.len() == self.frame_data_unit_count * 3,
    {
        let ghost spec_raster = encode_frame_spec(*self, data@);
        let ghost sbits = stream_bits(data@);
        proof {
            lemma_stream_bits_in_range(data@);
        }
        let units: usize = self.frame_data_unit_count;
        let tb: usize = self.total_bits as usize;
        let rb: usize = self.red_bits as usize;
        let gb: usize = self.green_bits as usize;
        let bb: usize = self.blue_bits as usize;
        let mut out: Vec<u8> = Vec::new();
        let mut j: usize = 0;
        while j < units
            invariant
                j <= units,
                self.wf(),
                units == self.frame_data_unit_count,
                tb == self.total_bits,
                rb == self.red_bits,
                gb == self.green_bits,
                bb == self.blue_bits,
                data@.len() == self.frame_data_byte_count,
                sbits == stream_bits(data@),
                spec_raster == encode_frame_spec(*self, data@),
                out@.len() == 3 * j,
                forall|idx: int| 0 <= idx < 3 * j ==> out@[idx] == spec_raster[idx],
            decreases units - j,
        {
            proof {
                assert(j * tb + tb <= units * tb) by (nonlinear_arith)
                    requires
                        j < units,
                        0 <= tb,
                ;
                assert(units * tb == data@.len() * 8);
            }
            let start: usize = j * tb;
            let rf: u32 = read_bits(data, start, rb);
            let gf: u32 = read_bits(data, start + rb, gb);
            let bf: u32 = read_bits(data, start + rb + gb, bb);
            proof {
                lemma_stream_bits_in_range(data@);
                lemma_bits_val_bound(sbits, start as int, rb as nat);
                lemma_bits_val_bound(sbits, start as int + rb, gb as nat);
                lemma_bits_val_bound(sbits, start as int + rb + gb, bb as nat);
                lemma_one_shl_is_pow2(self.red_bits);
                lemma_one_shl_is_pow2(self.green_bits);
                lemma_one_shl_is_pow2(self.blue_bits);
            }
            let sr: u8 = anchor_channel_sample(rf, self.red_bits);
            let sg: u8 = anchor_channel_sample(gf, self.green_bits);
            let sb: u8 = anchor_channel_sample(bf, self.blue_bits);
            proof {
                let ji = j as int;
                assert((3 * ji + 0) / 3 == ji && (3 * ji + 0) % 3 == 0 && (3 * ji + 1) / 3 == ji
                    && (3 * ji + 1) % 3 == 1 && (3 * ji + 2) / 3 == ji && (3 * ji + 2) % 3
                    == 2) by (nonlinear_arith)
                    requires
                        0 <= ji,
                ;
                assert(3 * ji + 2 < units * 3) by (nonlinear_arith)
                    requires
                        ji < units,
                ;
                assert(spec_raster[3 * ji + 0] == sr);
                assert(spec_raster[3 * ji + 1] == sg);
                assert(spec_raster[3 * ji + 2] == sb);
            }
            out.push(sr);
            out.push(sg);
            out.push(sb);
            j = j + 1;
        }
        proof {
            assert(out@ =~= spec_raster);
        }
        out
    }

    /// Takes the color samples of one frame, one data unit per pixel, and
    /// decodes the bytes contained in them.
    ///
    /// * `frame_data_units` - Raster to decode, `3 * frame_data_unit_count`
    ///   channel samples in row-major RGB order.
    pub fn frame_to_data(&self, frame_data_units: &Vec<u8>) -> (r: Vec<u8>)
        requires
            self.wf(),
            frame_data_units@.len() == self.frame_data_unit_count * 3,
        ensures
            r@ == decode_frame_spec(*self, frame_data_units@),
            r@.len() == self.frame_data_byte_count,
    {
        let ghost dbits = decoded_bits(*self, frame_data_units@);
        proof {
            lemma_decoded_frame_bits_in_range(*self, frame_data_units@);
        }
        let bytes: usize = self.frame_data_byte_count;
        let units: usize = self.frame_data_unit_count;
        let tb: usize = self.total_bits as usize;
        let rb: usize = self.red_bits as usize;
        let gb: usize = self.green_bits as usize;
        let mut out: Vec<u8> = Vec::new();
        let mut i: usize = 0;
        proof {
            assert(8 * bytes == units * tb);
        }
        while i < bytes
            invariant
                i <= bytes,
                self.wf(),
                bytes == self.frame_data_byte_count,
                units == self.frame_data_unit_count,
                tb == self.total_bits,
                rb == self.red_bits,
                gb == self.green_bits,
                8 * bytes == units * tb,
                frame_data_units@.len() == units * 3,
                dbits == decoded_bits(*self, frame_data_units@),
                out@.len() == i,
                forall|j: int|
                    0 <= j < i ==> out@[j] == decode_frame_spec(*self, frame_data_units@)[j],
            decreases bytes - i,
        {
            let mut byte: u32 = 0;
            let mut k: usize = 0;
            while k < 8
                invariant
                    k <= 8,
                    i < bytes,
                    self.wf(),
                    bytes == self.frame_data_byte_count,
                    units == self.frame_data_unit_count,
                    tb == self.total_bits,
                    rb == self.red_bits,
                    gb == self.green_bits,
                    8 * bytes == units * tb,
                    frame_data_units@.len() == units * 3,
                    dbits == decoded_bits(*self, frame_data_units@),
                    byte as nat == bits_val(dbits, 8 * i as int, k as nat),
                    byte < 256,
                decreases 8 - k,
            {
                let m: usize = 8 * i + k;
                proof {
                    assert(m < units * tb) by (nonlinear_arith)
                        requires
                            m == 8 * i + k,
                            k < 8,
                            i < bytes,
                            8 * bytes == units * tb,
                    ;
                    assert(m / tb < units && 0 <= m % tb < tb) by (nonlinear_arith)
                        requires
                            m < units * tb,
                            0 <= m,
                            tb >= 1,
                    ;
                    assert(3 * (m / tb) + 2 < units * 3) by (nonlinear_arith)
                        requires
                            m / tb < units,
                            0 <= m / tb,
                    ;
                }
                let j2: usize = m / tb;
                let o: usize = m % tb;
                let bit: u32 = if o < rb {
                    let s: u8 = frame_data_units[3 * j2];
                    ((s as u32) >> ((7 - o) as u32)) & 1
                } else if o < rb + gb {
                    let s: u8 = frame_data_units[3 * j2 + 1];
                    ((s as u32) >> ((7 - (o - rb)) as u32)) & 1
                } else {
                    let s: u8 = frame_data_units[3 * j2 + 2];
                    ((s as u32) >> ((7 - (o - rb - gb)) as u32)) & 1
                };
                proof {
                    lemma_decoded_frame_bits_in_range(*self, frame_data_units@);
                    assert(bit as nat == dbits[m as int]);
                    assert(dbits[m as int] < 2);
                }
                byte = byte * 2 + bit;
                k = k + 1;
                proof {
                    lemma_bits_val_bound(dbits, 8 * i as int, k as nat);
                    if (k as nat) < 8 {
                        lemma_pow2_strictly_increases(k as nat, 8);
                    }
                    assert(pow2(8) == 256) by {
                        lemma2_to64();
                    }
                }
            }
            proof {
                assert(decode_frame_spec(*self, frame_data_units@)[i as int] == bits_val(
                    dbits,
                    8 * i as int,
                    8,
                ) as u8);
            }
            out.push(byte as u8);
            i = i + 1;
        }
        proof {
            assert(out@ =~= decode_frame_spec(*self, frame_data_units@));
        }
        out
    }
}

impl Converter {
    /// Shapes a (possibly partial) frame payload and encodes it: the chunk
    /// is zero-padded up to `frame_data_byte_count` and rendered as a
    /// raster.  Persisting the raster is the caller's concern.  Fails when
    /// more bytes are supplied than one frame can encode.
    ///
    /// # Arguments
    /// * `frame_data` - At most `frame_data_byte_count` payload bytes.
    pub fn save_data_frame(&self, frame_data: &Vec<u8>) -> (r: Result<Vec<u8>, VortexError>)
        requires
            self.wf(),
        ensures
            match r {
                Ok(v) => frame_data@.len() <= self.frame_data_byte_count && v@ == encode_frame_spec(
                    *self,
                    frame_data@ + Seq::new(
                        (self.frame_data_byte_count - frame_data@.len()) as nat,
                        |i: int| 0u8,
                    ),
                ),
                Err(e) => frame_data@.len() > self.frame_data_byte_count && e
                    == VortexError::FrameDataTooLong,
            },
    {
        let bpf: usize = self.frame_data_byte_count;
        if frame_data.len() > bpf {
            return Err(VortexError::FrameDataTooLong);
        }
        let mut buf: Vec<u8> = Vec::new();
        let mut i: usize = 0;
        while i < frame_data.len()
            invariant
                i <= frame_data@.len(),
                buf@ == frame_data@.take(i as int),
            decreases frame_data@.len() - i,
        {
            buf.push(frame_data[i]);
            i = i + 1;
            proof {
                assert(buf@ =~= frame_data@.take(i as int));
            }
        }
        proof {
            assert(buf@ =~= frame_data@);
        }
        while buf.len() < bpf
            invariant
                frame_data@.len() <= buf@.len() <= bpf,
                buf@ == frame_data@ + Seq::new(
                    (buf@.len() - frame_data@.len()) as nat,
                    |j: int| 0u8,
                ),
            decreases bpf - buf@.len(),
        {
            buf.push(0);
            proof {
                assert(buf@ =~= frame_data@ + Seq::new(
                    (buf@.len() - frame_data@.len()) as nat,
                    |j: int| 0u8,
                ));
            }
        }
        Ok(self.data_to_frame(&buf))
    }

    /// The raster of a frame whose encoded bytes are all zero: a blank
    /// guard frame, ready for the caller to persist.
    pub fn save_buffer_frame(&self) -> (r: Vec<u8>)
        requires
            self.wf(),
        ensures
            r@ == encode_frame_spec(
                *self,
                Seq::new(self.frame_data_byte_count as nat, |i: int| 0u8),
            ),
    {
        let empty: Vec<u8> = Vec::new();
        match self.save_data_frame(&empty) {
            Ok(v) => {
                proof {
                    assert(empty@ + Seq::new(
                        (self.frame_data_byte_count - 0) as nat,
                        |i: int| 0u8,
                    ) =~= Seq::new(self.frame_data_byte_count as nat, |i: int| 0u8));
                }
                v
            },
            Err(_) => {
                proof {
                    assert(false);
                }
                Vec::new()
            },
        }
    }
}

/// Decoding an encoded frame gives back exactly the bytes that were encoded:
/// the pixel codec round trip is lossless.
pub proof fn lemma_pixel_round_trip(c: Converter, data: Seq<u8>)
    requires
        c.wf(),
        data.len() == c.frame_data_byte_count,
    ensures
        decode_frame_spec(c, encode_frame_spec(c, data)) == data,
{
    let raster = encode_frame_spec(c, data);
    let dbits = decoded_bits(c, raster);
    let sbits = stream_bits(data);
    let units = c.frame_data_unit_count as int;
    let tb = c.total_bits as int;
    let rb = c.red_bits as int;
    let gb = c.green_bits as int;
    let bb = c.blue_bits as int;
    lemma_stream_bits_in_range(data);
    assert(8 * data.len() == units * tb) by (nonlinear_arith)
        requires
            data.len() == c.frame_data_byte_count,
            c.frame_data_byte_count * 8 == c.frame_data_unit_count * c.total_bits,
            units == c.frame_data_unit_count as int,
            tb == c.total_bits as int,
    ;
    assert forall|m: int| 0 <= m < units * tb implies #[trigger] dbits[m] == sbits[m] by {
        let j = m / tb;
        let o = m % tb;
        lemma_fundamental_div_mod(m, tb as int);
        assert(0 <= o < tb && 0 <= j < units) by (nonlinear_arith)
            requires
                m == tb * j + o,
                j == m / tb,
                o == m % tb,
                0 <= m < units * tb,
                tb >= 1,
        ;
        assert((3 * j + 0) / 3 == j && (3 * j + 0) % 3 == 0 && (3 * j + 1) / 3 == j && (3 * j + 1)
            % 3 == 1 && (3 * j + 2) / 3 == j && (3 * j + 2) % 3 == 2) by (nonlinear_arith)
            requires
                0 <= j,
        ;
        assert(3 * j + 2 < units * 3 && j * tb + tb <= units * tb) by (nonlinear_arith)
            requires
                0 <= j < units,
                tb >= 1,
        ;
        lemma_one_shl_is_pow2(c.red_bits);
        lemma_one_shl_is_pow2(c.green_bits);
        lemma_one_shl_is_pow2(c.blue_bits);
        if o < rb {
            let start = j * tb;
            let f = bits_val(sbits, start, rb as nat);
            assert(raster[3 * j] == anchored_sample(f as u32, c.red_bits));
            lemma_bits_val_bound(sbits, start, rb as nat);
            lemma_anchored_sample_bit(f as u32, c.red_bits, o as u32);
            lemma_bits_val_shifted_bit(sbits, start, rb as nat, o);
        } else if o < rb + gb {
            let start = j * tb + rb;
            let o2 = o - rb;
            let f = bits_val(sbits, start, gb as nat);
            assert(raster[3 * j + 1] == anchored_sample(f as u32, c.green_bits));
            lemma_bits_val_bound(sbits, start, gb as nat);
            lemma_anchored_sample_bit(f as u32, c.green_bits, o2 as u32);
            lemma_bits_val_shifted_bit(sbits, start, gb as nat, o2);
        } else {
            let start = j * tb + rb + gb;
            let o2 = o - rb - gb;
            let f = bits_val(sbits, start, bb as nat);
            assert(raster[3 * j + 2] == anchored_sample(f as u32, c.blue_bits));
            lemma_bits_val_bound(sbits, start, bb as nat);
            lemma_anchored_sample_bit(f as u32, c.blue_bits, o2 as u32);
            lemma_bits_val_shifted_bit(sbits, start, bb as nat, o2);
        }
    }
    let dec = decode_frame_spec(c, raster);
    assert(dec.len() == data.len());
    assert forall|i: int| 0 <= i < data.len() implies #[trigger] dec[i] == data[i] by {
        assert forall|o: int| 0 <= o < 8 implies #[trigger] dbits[8 * i + o] == sbits[8 * i
            + o] by {
            assert(8 * i + o < units * tb);
        }
        lemma_bits_val_congr(dbits, 8 * i, sbits, 8 * i, 8);
        lemma_bits_val_byte(data, i);
    }
    assert(dec =~= data);
}

/// Every channel sample the encoder emits is anchored: below the payload
/// field the bit at position `7 - b` is one and everything lower is zero,
/// so `s & ((1 << (8 - b)) - 1) == 1 << (7 - b)` whenever `b < 8`.
pub proof fn lemma_anchor_property(c: Converter, data: Seq<u8>, idx: int)
    requires
        c.wf(),
        data.len() == c.frame_data_byte_count,
        0 <= idx < c.frame_data_unit_count * 3,
    ensures
        ({
            let b = channel_bits(c, idx % 3) as u32;
            let s = encode_frame_spec(c, data)[idx] as u32;
            b < 8 ==> s & (((1u32 << ((8 - b) as u32)) - 1) as u32) == (1u32 << ((7 - b) as u32))
        }),
{
    let b = channel_bits(c, idx % 3) as u32;
    let s = encode_frame_spec(c, data)[idx] as u32;
    let j = idx / 3;
    let ch = idx % 3;
    let start = j * (c.total_bits as int) + channel_offset(c, ch);
    let f = bits_val(stream_bits(data), start, channel_bits(c, ch)) as u32;
    assert(encode_frame_spec(c, data)[idx] == anchored_sample(f, b));
    if b < 8 {
        assert((anchored_sample(f, b) as u32) & (((1u32 << ((8 - b) as u32)) - 1) as u32) == (1u32
            << ((7 - b) as u32))) by (bit_vector)
            requires
                1 <= b,
                b < 8,
        ;
    }
}

/// Mask over the low `bits` bits of a 32-bit word.
pub fn low_mask_u32(bits: u32) -> (r: u32)
    requires
        bits <= 31,
    ensures
        r == (1u32 << bits) - 1,
{
    proof {
        assert((1u32 << bits) >= 1) by (bit_vector)
            requires
                bits <= 31,
        ;
    }
    (1u32 << bits) - 1
}

} // verus!
