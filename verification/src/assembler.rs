//! The stream assembler: payload bytes to an ordered sequence of rasters
//! bracketed by blank guard frames, and the inverse.
//!
//! Encode: pad the payload to a Hamming chunk boundary, Hamming-encode it,
//! prepend the triplicated header, cut the stream into frame payloads and
//! render each as a raster.  Decode: average and decode each extracted
//! frame, skip blank guard frames, recover the header by majority vote,
//! Hamming-decode the collected bytes, truncate to the declared length and
//! check the hash.

use crate::converter::{encode_frame_spec, decode_frame_spec, Converter, DOWNSAMPLE_SCALER};
use crate::error_correction::{
    count_corrected, count_uncorrected, decode_with_hamming_31_26, encode_with_hamming_31_26,
    hamming_decoded, hamming_encoded, HammingReport,
};
use crate::errors::VortexError;
use crate::header::{le8_val, magic_seq, majority_header, sha256, sha256_digest};
use crate::raster::{averaged_raster, upscaled_raster};
use vstd::prelude::*;

verus! {

/// Result of error correction while decoding a file from video.
#[derive(Clone, Copy, Debug, PartialEq, Eq, Structural)]
pub struct FileReport {
    /// Single bit errors found and corrected.
    pub corrected_errors: u32,
    /// Double bit errors found and unable to be corrected.
    pub uncorrected_errors: u32,
    /// Whether the read hash matched the hash computed over the whole file.
    pub hash_match: bool,
}

impl FileReport {
    /// Extend a Hamming report into a file decoding report, adding whether
    /// the file hash matched.
    ///
    /// # Arguments
    /// * `base_report` - Hamming report to extend.
    /// * `hash_match` - Whether the computed file hash matched the expected one.
    pub fn from_hamming_report(base_report: &HammingReport, hash_match: bool) -> (r: FileReport)
        ensures
            r.corrected_errors == base_report.corrected_errors,
            r.uncorrected_errors == base_report.uncorrected_errors,
            r.hash_match == hash_match,
    {
        FileReport {
            corrected_errors: base_report.corrected_errors,
            uncorrected_errors: base_report.uncorrected_errors,
            hash_match,
        }
    }
}

/// One frame extracted from a video, at video-space dimensions.
#[derive(Debug)]
pub struct VideoFrame {
    /// Width of the frame in pixels.
    pub width: u32,
    /// Height of the frame in pixels.
    pub height: u32,
    /// Row-major RGB samples, `3 * width * height` bytes.
    pub pixels: Vec<u8>,
}

/// A sequence of `n` zero bytes.
pub open spec fn zero_seq(n: nat) -> Seq<u8> {
    Seq::new(n, |i: int| 0u8)
}

/// The length `len` rounded up to the next multiple of `m`.
pub open spec fn padded_len(len: nat, m: nat) -> nat
    recommends
        m >= 1,
{
    if len % m == 0 {
        len
    } else {
        (len + m - len % m) as nat
    }
}

/// `data` zero-padded up to the next multiple of `m` bytes.
pub open spec fn pad_to_multiple(data: Seq<u8>, m: nat) -> Seq<u8>
    recommends
        m >= 1,
{
    data + zero_seq((padded_len(data.len(), m) - data.len()) as nat)
}

/// Frame payload `f` of a stream: `bpf` bytes starting at `f * bpf`, the
/// final one zero-padded.
pub open spec fn chunk_of(stream: Seq<u8>, bpf: nat, f: int) -> Seq<u8>
    recommends
        bpf >= 1,
        0 <= f,
{
    let start = f * bpf;
    let end = if start + bpf <= stream.len() {
        start + bpf
    } else {
        stream.len() as int
    };
    stream.subrange(start, end) + zero_seq((bpf - (end - start)) as nat)
}

/// How many frames a stream of `len` bytes needs at `bpf` bytes per frame.
pub open spec fn num_chunks(len: nat, bpf: nat) -> nat
    recommends
        bpf >= 1,
{
    ((len + bpf - 1) as int / bpf as int) as nat
}

/// The full frame sequence that encoding a payload produces: three blank
/// guard frames, the data frames carrying header and Hamming-encoded
/// payload, and three more guard frames.
pub open spec fn deconstruct_spec(c: Converter, payload: Seq<u8>) -> Seq<Seq<u8>>
    recommends
        c.wf(),
        payload.len() <= u64::MAX,
{
    let stream = crate::header::header_triple_spec(payload) + hamming_encoded(
        pad_to_multiple(payload, 13),
    );
    let bpf = c.frame_data_byte_count as nat;
    let nd = num_chunks(stream.len(), bpf);
    Seq::new(
        (6 + nd) as nat,
        |f: int|
            if 3 <= f < 3 + nd {
                encode_frame_spec(c, chunk_of(stream, bpf, f - 3))
            } else {
                encode_frame_spec(c, zero_seq(bpf))
            },
    )
}

/// The bytes one extracted frame decodes to: averaged down to data space,
/// then run through the pixel decoder.
pub open spec fn decoded_pix(c: Converter, pixels: Seq<u8>) -> Seq<u8> {
    decode_frame_spec(c, averaged_raster(c, pixels))
}

/// A frame whose first 144 decoded bytes are all zero is a guard frame.
pub open spec fn blank_prefix(frame: Seq<u8>) -> bool {
    forall|i: int| 0 <= i < 144 ==> frame[i] == 0
}

/// The index of the first frame from `f` on that is not a guard frame, or
/// the frame count if every remaining frame is blank.
pub open spec fn header_scan(c: Converter, pix: Seq<Seq<u8>>, f: int) -> int
    recommends
        0 <= f <= pix.len(),
    decreases pix.len() - f,
{
    if f < 0 || f >= pix.len() {
        pix.len() as int
    } else if !blank_prefix(decoded_pix(c, pix[f])) {
        f
    } else {
        header_scan(c, pix, f + 1)
    }
}

/// The decoded bytes of frames `from .. to`, concatenated in order.
pub open spec fn collect_range(c: Converter, pix: Seq<Seq<u8>>, from: int, to: int) -> Seq<u8>
    decreases to - from,
{
    if from >= to {
        Seq::empty()
    } else {
        decoded_pix(c, pix[from]) + collect_range(c, pix, from + 1, to)
    }
}

/// Everything the payload accumulator holds once the frames are consumed:
/// the header frame's bytes past the 144-byte header, then every following
/// frame in full.
pub open spec fn collected_payload(c: Converter, pix: Seq<Seq<u8>>, h: int) -> Seq<u8>
    recommends
        0 <= h < pix.len(),
{
    decoded_pix(c, pix[h]).skip(144) + collect_range(c, pix, h + 1, pix.len() as int)
}

impl Converter {
    /// Encodes a whole payload into the ordered sequence of data-space
    /// rasters that make up the stream: `PREBUFFER_FRAMES` blank guard
    /// frames, the data frames carrying the triplicated header followed by
    /// the Hamming-encoded payload, and `POSTBUFFER_FRAMES` more guard
    /// frames.  The final data frame is zero-padded.
    ///
    /// # Arguments
    /// * `payload` - The bytes to encode.
    pub fn deconstruct_bytes(&self, payload: &Vec<u8>) -> (r: Vec<Vec<u8>>)
        requires
            self.wf(),
            payload@.len() * 8 + 2000 <= usize::MAX,
        ensures
            r@.len() == deconstruct_spec(*self, payload@).len(),
            forall|f: int|
                0 <= f < r@.len() ==> #[trigger] r@[f]@ == deconstruct_spec(*self, payload@)[f],
    {
        let ghost spec_frames = deconstruct_spec(*self, payload@);
        let bpf: usize = self.frame_data_byte_count;
        proof {
            assert(self.frame_data_unit_count >= 1) by (nonlinear_arith)
                requires
                    self.frame_data_unit_count == self.data_width * self.data_height,
                    self.data_width >= 1,
                    self.data_height >= 1,
            ;
            assert(self.frame_data_unit_count * self.total_bits >= 3) by (nonlinear_arith)
                requires
                    self.frame_data_unit_count >= 1,
                    self.total_bits >= 3,
            ;
            assert(bpf >= 1);
        }
        let mut padded: Vec<u8> = Vec::new();
        let mut i: usize = 0;
        while i < payload.len()
            invariant
                i <= payload@.len(),
                padded@ == payload@.take(i as int),
            decreases payload@.len() - i,
        {
            padded.push(payload[i]);
            i = i + 1;
            proof {
                assert(padded@ =~= payload@.take(i as int));
            }
        }
        proof {
            assert(padded@ =~= payload@);
        }
        let target: usize = ((payload.len() + 12) / 13) * 13;
        proof {
            let pl = payload@.len() as int;
            vstd::arithmetic::div_mod::lemma_fundamental_div_mod(pl, 13);
            vstd::arithmetic::div_mod::lemma_fundamental_div_mod(pl + 12, 13);
            assert(target == padded_len(payload@.len(), 13) && target <= pl
                + 12) by (nonlinear_arith)
                requires
                    target == (pl + 12) / 13 * 13,
                    pl == 13 * (pl / 13) + pl % 13,
                    pl + 12 == 13 * ((pl + 12) / 13) + (pl + 12) % 13,
                    0 <= pl % 13 < 13,
                    0 <= (pl + 12) % 13 < 13,
                    0 <= pl,
                    padded_len(payload@.len(), 13) == (if pl % 13 == 0 {
                        pl
                    } else {
                        pl + 13 - pl % 13
                    }),
            ;
        }
        while padded.len() < target
            invariant
                payload@.len() <= padded@.len() <= target,
                target == padded_len(payload@.len(), 13),
                padded@ == payload@ + zero_seq((padded@.len() - payload@.len()) as nat),
            decreases target - padded@.len(),
        {
            padded.push(0);
            proof {
                assert(padded@ =~= payload@ + zero_seq(
                    (padded@.len() - payload@.len()) as nat,
                ));
            }
        }
        proof {
            assert(padded@ == pad_to_multiple(payload@, 13));
            assert(padded@.len() % 13 == 0) by (nonlinear_arith)
                requires
                    padded@.len() == padded_len(payload@.len(), 13),
                    padded_len(payload@.len(), 13) == (if payload@.len() % 13 == 0 {
                        payload@.len() as int
                    } else {
                        payload@.len() + 13 - payload@.len() % 13
                    }),
                    payload@.len() == 13 * (payload@.len() as int / 13) + payload@.len() % 13,
                    0 <= payload@.len() % 13 < 13,
            ;
        }
        let mut stream: Vec<u8> = Converter::data_block_header(payload);
        let mut encoded: Vec<u8> = match encode_with_hamming_31_26(&padded) {
            Ok(v) => v,
            Err(_) => {
                proof {
                    assert(false);
                }
                Vec::new()
            },
        };
        proof {
            assert(encoded@.len() == padded@.len() / 13 * 16);
            assert(encoded@.len() <= 2 * padded@.len()) by (nonlinear_arith)
                requires
                    encoded@.len() == padded@.len() / 13 * 16,
                    padded@.len() == 13 * (padded@.len() as int / 13),
                    0 <= padded@.len(),
            ;
        }
        stream.append(&mut encoded);
        let ghost stream_spec = crate::header::header_triple_spec(payload@) + hamming_encoded(
            pad_to_multiple(payload@, 13),
        );
        proof {
            assert(stream@ == stream_spec);
        }
        let nd: usize = (stream.len() + bpf - 1) / bpf;
        proof {
            assert(nd == num_chunks(stream_spec.len(), bpf as nat));
            let slen = stream_spec.len() as int;
            let bpfi = bpf as int;
            vstd::arithmetic::div_mod::lemma_fundamental_div_mod(slen + bpfi - 1, bpfi);
            assert(nd * bpfi < slen + bpfi) by (nonlinear_arith)
                requires
                    nd == (slen + bpfi - 1) / bpfi,
                    slen + bpfi - 1 == bpfi * ((slen + bpfi - 1) / bpfi) + (slen + bpfi - 1) % bpfi,
                    0 <= (slen + bpfi - 1) % bpfi,
                    (slen + bpfi - 1) % bpfi < bpfi,
                    bpfi >= 1,
                    slen >= 0,
            ;
            assert(spec_frames.len() == 6 + nd);
        }
        let mut zeroes: Vec<u8> = Vec::new();
        let mut z: usize = 0;
        while z < bpf
            invariant
                z <= bpf,
                zeroes@ =~= zero_seq(z as nat),
            decreases bpf - z,
        {
            zeroes.push(0);
            proof {
                assert(zeroes@ =~= zero_seq(z as nat + 1));
            }
            z = z + 1;
        }
        proof {
            assert(zeroes@ =~= zero_seq(bpf as nat));
        }
        let mut frames: Vec<Vec<u8>> = Vec::new();
        let mut g: usize = 0;
        while g < 3
            invariant
                g <= 3,
                self.wf(),
                bpf == self.frame_data_byte_count,
                zeroes@ == zero_seq(bpf as nat),
                spec_frames == deconstruct_spec(*self, payload@),
                spec_frames.len() == 6 + nd,
                frames@.len() == g,
                forall|f: int| 0 <= f < g ==> #[trigger] frames@[f]@ == spec_frames[f],
            decreases 3 - g,
        {
            frames.push(self.data_to_frame(&zeroes));
            g = g + 1;
        }
        let mut f: usize = 0;
        while f < nd
            invariant
                f <= nd,
                self.wf(),
                bpf == self.frame_data_byte_count,
                bpf >= 1,
                stream@ == stream_spec,
                stream_spec == crate::header::header_triple_spec(payload@) + hamming_encoded(
                    pad_to_multiple(payload@, 13),
                ),
                stream_spec.len() + bpf <= usize::MAX,
                nd * bpf < stream_spec.len() + bpf,
                nd == num_chunks(stream_spec.len(), bpf as nat),
                spec_frames == deconstruct_spec(*self, payload@),
                spec_frames.len() == 6 + nd,
                frames@.len() == 3 + f,
                forall|ff: int| 0 <= ff < 3 + f ==> #[trigger] frames@[ff]@ == spec_frames[ff],
            decreases nd - f,
        {
            proof {
                assert(f * bpf + bpf <= nd * bpf) by (nonlinear_arith)
                    requires
                        f < nd,
                        bpf >= 1,
                ;
            }
            let start: usize = f * bpf;
            let ghost cspec = chunk_of(stream_spec, bpf as nat, f as int);
            proof {
                assert(cspec.len() == bpf);
            }
            let mut chunk: Vec<u8> = Vec::new();
            let mut k: usize = 0;
            while k < bpf
                invariant
                    k <= bpf,
                    start == f * bpf,
                    start + bpf <= nd * bpf,
                    nd * bpf < stream_spec.len() + bpf,
                    stream_spec.len() + bpf <= usize::MAX,
                    stream@ == stream_spec,
                    cspec == chunk_of(stream_spec, bpf as nat, f as int),
                    cspec.len() == bpf,
                    chunk@.len() == k,
                    forall|e: int| 0 <= e < k ==> #[trigger] chunk@[e] == cspec[e],
                decreases bpf - k,
            {
                let idx: usize = start + k;
                if idx < stream.len() {
                    let b: u8 = stream[idx];
                    proof {
                        assert(cspec[k as int] == b);
                    }
                    chunk.push(b);
                } else {
                    proof {
                        assert(cspec[k as int] == 0u8);
                    }
                    chunk.push(0);
                }
                k = k + 1;
            }
            proof {
                assert(chunk@ =~= cspec);
                assert(spec_frames[3 + f as int] == encode_frame_spec(*self, cspec));
            }
            frames.push(self.data_to_frame(&chunk));
            f = f + 1;
        }
        let mut g2: usize = 0;
        while g2 < 3
            invariant
                g2 <= 3,
                self.wf(),
                bpf == self.frame_data_byte_count,
                zeroes@ == zero_seq(bpf as nat),
                spec_frames == deconstruct_spec(*self, payload@),
                spec_frames.len() == 6 + nd,
                frames@.len() == 3 + nd + g2,
                forall|ff: int| 0 <= ff < 3 + nd + g2 ==> #[trigger] frames@[ff]@ == spec_frames[ff],
            decreases 3 - g2,
        {
            frames.push(self.data_to_frame(&zeroes));
            g2 = g2 + 1;
        }
        frames
    }
}

/// The index of the first frame whose dimensions are not the expected
/// video-space dimensions, or the frame count if all fit.
pub open spec fn first_bad_frame(c: Converter, frames: Seq<VideoFrame>, f: int) -> int
    recommends
        0 <= f <= frames.len(),
    decreases frames.len() - f,
{
    if f < 0 || f >= frames.len() {
        frames.len() as int
    } else if frames[f].width != DOWNSAMPLE_SCALER * c.data_width || frames[f].height
        != DOWNSAMPLE_SCALER * c.data_height {
        f
    } else {
        first_bad_frame(c, frames, f + 1)
    }
}

/// A frame with the expected video-space dimensions.
pub open spec fn frame_dims_ok(c: Converter, fr: VideoFrame) -> bool {
    fr.width == DOWNSAMPLE_SCALER * c.data_width && fr.height == DOWNSAMPLE_SCALER * c.data_height
}

/// Pins down `first_bad_frame`: every frame before `k` fits and `k` (when
/// it exists) does not.
proof fn lemma_first_bad_is(c: Converter, frames: Seq<VideoFrame>, f: int, k: int)
    requires
        0 <= f <= k <= frames.len(),
        forall|g: int| f <= g < k ==> frame_dims_ok(c, #[trigger] frames[g]),
        k < frames.len() ==> !frame_dims_ok(c, frames[k]),
    ensures
        first_bad_frame(c, frames, f) == k,
    decreases k - f,
{
    if f < k {
        assert(frame_dims_ok(c, frames[f]));
        lemma_first_bad_is(c, frames, f + 1, k);
    }
}

/// The first bad frame never lies before the start of the scan.
proof fn lemma_first_bad_lb(c: Converter, frames: Seq<VideoFrame>, f: int)
    requires
        0 <= f <= frames.len(),
    ensures
        first_bad_frame(c, frames, f) >= f,
    decreases frames.len() - f,
{
    if f < frames.len() {
        lemma_first_bad_lb(c, frames, f + 1);
    }
}

/// The header scan never stops before the frame it starts from.
proof fn lemma_header_scan_lb(c: Converter, pix: Seq<Seq<u8>>, f: int)
    requires
        0 <= f <= pix.len(),
    ensures
        header_scan(c, pix, f) >= f,
    decreases pix.len() - f,
{
    if f < pix.len() {
        lemma_header_scan_lb(c, pix, f + 1);
    }
}

/// When every frame before `k` fits, the first bad frame cannot come
/// before `k`.
proof fn lemma_first_bad_ge(c: Converter, frames: Seq<VideoFrame>, f: int, k: int)
    requires
        0 <= f <= k <= frames.len(),
        forall|g: int| f <= g < k ==> frame_dims_ok(c, #[trigger] frames[g]),
    ensures
        first_bad_frame(c, frames, f) >= k,
    decreases k - f,
{
    if f < k {
        assert(frame_dims_ok(c, frames[f]));
        lemma_first_bad_ge(c, frames, f + 1, k);
    } else {
        lemma_first_bad_lb(c, frames, f);
    }
}

/// Pins down `header_scan`: every frame before `k` is blank and `k` (when
/// it exists) is not.
proof fn lemma_header_scan_is(c: Converter, pix: Seq<Seq<u8>>, f: int, k: int)
    requires
        0 <= f <= k <= pix.len(),
        forall|g: int| f <= g < k ==> blank_prefix(decoded_pix(c, #[trigger] pix[g])),
        k < pix.len() ==> !blank_prefix(decoded_pix(c, pix[k])),
    ensures
        header_scan(c, pix, f) == k,
    decreases k - f,
{
    if f < k {
        lemma_header_scan_is(c, pix, f + 1, k);
    }
}

/// When every frame before `k` is blank, the scan cannot stop before `k`.
proof fn lemma_header_scan_ge(c: Converter, pix: Seq<Seq<u8>>, f: int, k: int)
    requires
        0 <= f <= k <= pix.len(),
        forall|g: int| f <= g < k ==> blank_prefix(decoded_pix(c, #[trigger] pix[g])),
    ensures
        header_scan(c, pix, f) >= k,
    decreases k - f,
{
    if f < k {
        assert(blank_prefix(decoded_pix(c, pix[f])));
        lemma_header_scan_ge(c, pix, f + 1, k);
    } else {
        lemma_header_scan_lb(c, pix, f);
    }
}

/// Collecting one more frame appends that frame's decoded bytes.
proof fn lemma_collect_range_snoc(c: Converter, pix: Seq<Seq<u8>>, from: int, to: int)
    requires
        from <= to,
    ensures
        collect_range(c, pix, from, to + 1) == collect_range(c, pix, from, to) + decoded_pix(
            c,
            pix[to],
        ),
    decreases to - from,
{
    if from == to {
        assert(collect_range(c, pix, from + 1, to + 1) =~= Seq::<u8>::empty());
        assert(collect_range(c, pix, from, to + 1) =~= collect_range(c, pix, from, to)
            + decoded_pix(c, pix[to]));
    } else {
        lemma_collect_range_snoc(c, pix, from + 1, to);
        assert(collect_range(c, pix, from, to + 1) =~= collect_range(c, pix, from, to)
            + decoded_pix(c, pix[to]));
    }
}

/// Every frame contributes exactly `bpf` decoded bytes.
proof fn lemma_collect_range_len(c: Converter, pix: Seq<Seq<u8>>, from: int, to: int)
    requires
        from <= to,
    ensures
        collect_range(c, pix, from, to).len() == (to - from) * c.frame_data_byte_count,
    decreases to - from,
{
    if from < to {
        lemma_collect_range_len(c, pix, from + 1, to);
        assert(decoded_pix(c, pix[from]).len() == c.frame_data_byte_count);
        assert(c.frame_data_byte_count + (to - from - 1) * c.frame_data_byte_count == (to - from)
            * c.frame_data_byte_count) by (nonlinear_arith);
    } else {
        assert((to - from) * c.frame_data_byte_count == 0) by (nonlinear_arith)
            requires
                to == from,
        ;
    }
}

/// Byte `i` of a collected range comes from frame `from + i / bpf`, at
/// offset `i % bpf`.
proof fn lemma_collect_range_index(c: Converter, pix: Seq<Seq<u8>>, from: int, to: int, i: int)
    requires
        from <= to,
        0 <= i < (to - from) * c.frame_data_byte_count,
    ensures
        collect_range(c, pix, from, to)[i] == decoded_pix(
            c,
            pix[from + i / (c.frame_data_byte_count as int)],
        )[i % (c.frame_data_byte_count as int)],
    decreases to - from,
{
    let bpf = c.frame_data_byte_count as int;
    assert(bpf >= 1) by (nonlinear_arith)
        requires
            0 <= i < (to - from) * bpf,
            from <= to,
    ;
    lemma_collect_range_len(c, pix, from, to);
    lemma_collect_range_len(c, pix, from + 1, to);
    assert(decoded_pix(c, pix[from]).len() == bpf);
    if i < bpf {
        assert(i / bpf == 0 && i % bpf == i) by (nonlinear_arith)
            requires
                0 <= i < bpf,
        ;
    } else {
        assert(0 <= i - bpf < (to - from - 1) * c.frame_data_byte_count) by (nonlinear_arith)
            requires
                bpf <= i < (to - from) * bpf,
                bpf == c.frame_data_byte_count,
        ;
        lemma_collect_range_index(c, pix, from + 1, to, i - bpf);
        assert((i - bpf) / bpf == i / bpf - 1 && (i - bpf) % bpf == i % bpf) by (nonlinear_arith)
            requires
                bpf <= i,
                bpf >= 1,
        ;
        assert(from + 1 + (i - bpf) / bpf == from + i / bpf);
    }
}

/// Full round trip without the video codec in between: upscale the frames
/// that encoding a payload produced and run them back through the decode
/// pipeline, and the header is found on the first data frame, the payload
/// comes back byte for byte, both error counters stay at zero, and the
/// recovered hash is the payload's own digest.
/// One byte of a frame chunk: the stream byte at the global position, or a
/// padding zero past the stream's end.
proof fn lemma_chunk_of_index(stream: Seq<u8>, bpf: nat, t: int, j: int)
    requires
        bpf >= 1,
        0 <= t,
        0 <= j < bpf,
        t * bpf < stream.len(),
    ensures
        chunk_of(stream, bpf, t).len() == bpf,
        chunk_of(stream, bpf, t)[j] == (if t * bpf + j < stream.len() {
            stream[t * bpf + j]
        } else {
            0u8
        }),
{
    let start = t * bpf;
    let end = if start + bpf <= stream.len() {
        start + bpf
    } else {
        stream.len() as int
    };
    assert(0 <= start < stream.len());
    assert(start <= end <= stream.len());
    assert(stream.subrange(start, end).len() == end - start);
    if j < end - start {
        assert(chunk_of(stream, bpf, t)[j] == stream.subrange(start, end)[j]);
    } else {
        assert(chunk_of(stream, bpf, t)[j] == zero_seq((bpf - (end - start)) as nat)[j - (end
            - start)]);
    }
}

/// With every frame decoding to its chunk of the stream (or to zeros for
/// the guards), the payload accumulator holds the stream past the header,
/// followed by zeros.
proof fn lemma_collected_payload_char(c: Converter, pix: Seq<Seq<u8>>, stream: Seq<u8>, nd: int)
    requires
        c.frame_data_byte_count >= 144,
        pix.len() == 6 + nd,
        nd >= 1,
        nd * c.frame_data_byte_count >= stream.len(),
        (nd - 1) * c.frame_data_byte_count < stream.len(),
        stream.len() >= 144,
        forall|f: int|
            0 <= f < 6 + nd ==> #[trigger] decoded_pix(c, pix[f]) == (if 3 <= f < 3 + nd {
                chunk_of(stream, c.frame_data_byte_count as nat, f - 3)
            } else {
                zero_seq(c.frame_data_byte_count as nat)
            }),
    ensures
        collected_payload(c, pix, 3).len() == (c.frame_data_byte_count - 144) + (2 + nd)
            * c.frame_data_byte_count,
        forall|i: int|
            0 <= i < collected_payload(c, pix, 3).len() ==> #[trigger] collected_payload(
                c,
                pix,
                3,
            )[i] == (if 144 + i < stream.len() { stream[144 + i] } else { 0u8 }),
{
    let bpf = c.frame_data_byte_count as int;
    let slen = stream.len() as int;
    let cp = collected_payload(c, pix, 3);
    let chunk0 = chunk_of(stream, bpf as nat, 0);
    assert(0 * (bpf as nat) == 0) by (nonlinear_arith);
    lemma_chunk_of_index(stream, bpf as nat, 0, 0);
    assert(decoded_pix(c, pix[3]) == chunk0);
    lemma_collect_range_len(c, pix, 4, 6 + nd);
    assert(cp.len() == (bpf - 144) + (2 + nd) * bpf);
    assert forall|i: int| 0 <= i < cp.len() implies #[trigger] cp[i] == (if 144 + i < slen {
        stream[144 + i]
    } else {
        0u8
    }) by {
        if i < bpf - 144 {
            assert(cp[i] == chunk0.skip(144)[i]);
            assert(chunk0.skip(144)[i] == chunk0[144 + i]);
            lemma_chunk_of_index(stream, bpf as nat, 0, 144 + i);
        } else {
            let i2 = i - (bpf - 144);
            assert(0 <= i2 < (2 + nd) * bpf) by (nonlinear_arith)
                requires
                    i2 == i - (bpf - 144),
                    bpf - 144 <= i < (bpf - 144) + (2 + nd) * bpf,
            ;
            lemma_collect_range_index(c, pix, 4, 6 + nd, i2);
            let g = 4 + i2 / bpf;
            let o = i2 % bpf;
            vstd::arithmetic::div_mod::lemma_fundamental_div_mod(i2, bpf);
            assert(0 <= o < bpf && 4 <= g < 6 + nd) by (nonlinear_arith)
                requires
                    i2 == bpf * (i2 / bpf) + o,
                    o == i2 % bpf,
                    g == 4 + i2 / bpf,
                    0 <= i2 < (2 + nd) * bpf,
                    bpf >= 1,
            ;
            assert(cp[i] == decoded_pix(c, pix[g])[o]);
            assert(144 + i == (g - 3) * bpf + o) by (nonlinear_arith)
                requires
                    i == i2 + bpf - 144,
                    i2 == bpf * (g - 4) + o,
            ;
            if g < 3 + nd {
                let t = g - 3;
                assert(t * bpf <= (nd - 1) * bpf) by (nonlinear_arith)
                    requires
                        0 <= t <= nd - 1,
                        bpf >= 1,
                ;
                lemma_chunk_of_index(stream, bpf as nat, t, o);
                assert(decoded_pix(c, pix[g]) == chunk_of(stream, bpf as nat, t));
            } else {
                assert(decoded_pix(c, pix[g]) == zero_seq(bpf as nat));
                assert(144 + i >= nd * bpf) by (nonlinear_arith)
                    requires
                        144 + i == (g - 3) * bpf + o,
                        g >= 3 + nd,
                        o >= 0,
                        bpf >= 1,
                ;
            }
        }
    }
}

/// Encoding a payload and decoding the upscaled frames straight back: the
/// header is found on the first data frame, the recovered header is the
/// payload's own, the payload comes back byte for byte, and both error
/// counters stay at zero.
#[verifier::rlimit(100)]
pub proof fn lemma_assembler_round_trip(c: Converter, payload: Seq<u8>)
    requires
        c.wf(),
        1 <= payload.len(),
        payload.len() <= u64::MAX,
        c.frame_data_byte_count >= 144,
    ensures
        ({
            let pix = deconstruct_spec(c, payload).map_values(|r: Seq<u8>| upscaled_raster(c, r));
            let h = header_scan(c, pix, 0);
            let maj = majority_header(decoded_pix(c, pix[h]).subrange(0, 144));
            let collected = pad_to_multiple(collected_payload(c, pix, h), 16);
            let recovered = hamming_decoded(collected);
            let dlen = le8_val(maj.subrange(8, 16));
            &&& h == 3
            &&& maj == crate::header::header_spec(payload)
            &&& maj.subrange(0, 8) == magic_seq()
            &&& dlen == payload.len()
            &&& dlen <= recovered.len()
            &&& recovered.take(dlen as int) == payload
            &&& maj.subrange(16, 48) == sha256_digest(payload)
            &&& count_corrected(collected, (collected.len() / 4) as nat) == 0
            &&& count_uncorrected(collected, (collected.len() / 4) as nat) == 0
        }),
{
    let frames_r = deconstruct_spec(c, payload);
    let pix = frames_r.map_values(|r: Seq<u8>| upscaled_raster(c, r));
    let bpf = c.frame_data_byte_count as int;
    let units = c.frame_data_unit_count as int;
    let plen = payload.len() as int;
    let padded = pad_to_multiple(payload, 13);
    let cenc = hamming_encoded(padded);
    let tri = crate::header::header_triple_spec(payload);
    let hs = crate::header::header_spec(payload);
    let stream = tri + cenc;
    assert(hs.len() == 48);
    assert(tri.len() == 144);
    vstd::arithmetic::div_mod::lemma_fundamental_div_mod(plen, 13);
    assert(padded.len() % 13 == 0 && plen <= padded.len()) by (nonlinear_arith)
        requires
            padded.len() == padded_len(payload.len(), 13),
            padded_len(payload.len(), 13) == (if plen % 13 == 0 {
                plen
            } else {
                plen + 13 - plen % 13
            }),
            plen == 13 * (plen / 13) + plen % 13,
            0 <= plen % 13 < 13,
    ;
    assert(cenc.len() == padded.len() / 13 * 16);
    assert(cenc.len() % 16 == 0) by (nonlinear_arith)
        requires
            cenc.len() == padded.len() / 13 * 16,
    ;
    let slen = stream.len() as int;
    let nd = num_chunks(stream.len(), bpf as nat) as int;
    vstd::arithmetic::div_mod::lemma_fundamental_div_mod(slen + bpf - 1, bpf);
    assert((slen + bpf - 1) / bpf >= 0) by (nonlinear_arith)
        requires
            slen + bpf - 1 >= 0,
            bpf >= 1,
    ;
    assert(nd == (slen + bpf - 1) / bpf);
    assert(nd * bpf >= slen && nd >= 1 && (nd - 1) * bpf < slen) by (nonlinear_arith)
        requires
            nd == (slen + bpf - 1) / bpf,
            slen + bpf - 1 == bpf * ((slen + bpf - 1) / bpf) + (slen + bpf - 1) % bpf,
            0 <= (slen + bpf - 1) % bpf < bpf,
            slen >= 144,
            bpf >= 144,
    ;
    assert(frames_r.len() == 6 + nd);
    assert(pix.len() == 6 + nd);
    // each upscaled frame decodes back to its chunk, or to zeros
    assert forall|f: int| 0 <= f < 6 + nd implies #[trigger] decoded_pix(c, pix[f]) == (if 3 <= f
        < 3 + nd {
        chunk_of(stream, bpf as nat, f - 3)
    } else {
        zero_seq(bpf as nat)
    }) by {
        let chunk = if 3 <= f < 3 + nd {
            chunk_of(stream, bpf as nat, f - 3)
        } else {
            zero_seq(bpf as nat)
        };
        if 3 <= f < 3 + nd {
            let t = f - 3;
            assert(t * bpf <= (nd - 1) * bpf) by (nonlinear_arith)
                requires
                    0 <= t <= nd - 1,
                    bpf >= 1,
            ;
            lemma_chunk_of_index(stream, bpf as nat, t, 0);
        }
        assert(chunk.len() == bpf);
        assert(frames_r[f] == encode_frame_spec(c, chunk));
        assert(frames_r[f].len() == units * 3);
        assert(pix[f] == upscaled_raster(c, frames_r[f]));
        crate::raster::lemma_upscale_average(c, frames_r[f]);
        crate::converter::lemma_pixel_round_trip(c, chunk);
    }
    // the scan stops at the first data frame: its first byte is the magic tag
    let chunk0 = chunk_of(stream, bpf as nat, 0);
    assert forall|g: int| 0 <= g < 3 implies blank_prefix(decoded_pix(c, #[trigger] pix[g])) by {
        assert(decoded_pix(c, pix[g]) == zero_seq(bpf as nat));
    }
    assert(0 * (bpf as nat) == 0) by (nonlinear_arith);
    lemma_chunk_of_index(stream, bpf as nat, 0, 0);
    assert(stream[0] == 68);
    assert(chunk0[0] == 68);
    assert(!blank_prefix(decoded_pix(c, pix[3]))) by {
        assert(decoded_pix(c, pix[3])[0] == 68);
    }
    lemma_header_scan_is(c, pix, 0, 3);
    // the majority vote over the first 144 bytes recovers one header copy
    assert(decoded_pix(c, pix[3]) == chunk0);
    assert forall|i: int| 0 <= i < 144 implies #[trigger] chunk0[i] == tri[i] by {
        lemma_chunk_of_index(stream, bpf as nat, 0, i);
    }
    assert(chunk0.subrange(0, 144) =~= tri);
    crate::header::lemma_majority_recovers(hs);
    assert(tri == hs + hs + hs);
    let maj = majority_header(decoded_pix(c, pix[3]).subrange(0, 144));
    assert(maj == hs);
    assert(maj.subrange(0, 8) =~= magic_seq());
    assert(maj.subrange(8, 16) =~= crate::header::le8(payload.len() as u64));
    assert(maj.subrange(16, 48) =~= sha256_digest(payload));
    crate::header::lemma_le8_round_trip(payload.len() as u64);
    // the collected bytes are the stream past the header, then zeros
    lemma_collected_payload_char(c, pix, stream, nd);
    let cp = collected_payload(c, pix, 3);
    let collected = pad_to_multiple(cp, 16);
    let cl = cp.len() as int;
    vstd::arithmetic::div_mod::lemma_fundamental_div_mod(cl, 16);
    assert(collected.len() % 16 == 0 && cl <= collected.len()) by (nonlinear_arith)
        requires
            collected.len() == padded_len(cp.len(), 16),
            padded_len(cp.len(), 16) == (if cl % 16 == 0 {
                cl
            } else {
                cl + 16 - cl % 16
            }),
            cl == 16 * (cl / 16) + cl % 16,
            0 <= cl % 16 < 16,
    ;
    assert(cenc =~= stream.skip(144));
    assert(cenc.len() == slen - 144);
    assert(cenc.len() <= cl) by (nonlinear_arith)
        requires
            cenc.len() == slen - 144,
            slen <= nd * bpf,
            cl == (bpf - 144) + (2 + nd) * bpf,
            bpf >= 144,
            nd >= 1,
    ;
    let tail = collected.skip(cenc.len() as int);
    assert(tail.len() % 16 == 0) by (nonlinear_arith)
        requires
            tail.len() == collected.len() - cenc.len(),
            collected.len() % 16 == 0,
            cenc.len() % 16 == 0,
            cenc.len() <= collected.len(),
    ;
    assert forall|j: int| 0 <= j < tail.len() implies #[trigger] tail[j] == 0u8 by {
        let i = j + cenc.len();
        if i < cl {
            assert(collected[i] == cp[i]);
            assert(cp[i] == 0u8);
        } else {
            assert(collected[i] == zero_seq((collected.len() - cl) as nat)[i - cl]);
        }
    }
    assert(collected =~= cenc + tail);
    crate::error_correction::lemma_hamming_decoded_with_zeros(padded, tail);
    let recovered = hamming_decoded(collected);
    assert(recovered == hamming_decoded(cenc + tail));
    assert(recovered.take(padded.len() as int) == padded);
    assert(recovered.len() >= padded.len());
    assert forall|i: int| 0 <= i < plen implies #[trigger] recovered.take(plen)[i]
        == payload[i] by {
        assert(recovered.take(padded.len() as int)[i] == padded[i]);
        assert(recovered[i] == padded[i]);
        assert(padded[i] == payload[i]);
    }
    assert(recovered.take(plen) =~= payload);
}

/// Byte-for-byte equality of two vectors.
fn bytes_eq(a: &Vec<u8>, b: &Vec<u8>) -> (r: bool)
    ensures
        r == (a@ == b@),
{
    if a.len() != b.len() {
        proof {
            assert(a@ != b@);
        }
        return false;
    }
    let mut i: usize = 0;
    while i < a.len()
        invariant
            a@.len() == b@.len(),
            i <= a@.len(),
            forall|g: int| 0 <= g < i ==> a@[g] == b@[g],
        decreases a@.len() - i,
    {
        if a[i] != b[i] {
            proof {
                assert(a@[i as int] != b@[i as int]);
            }
            return false;
        }
        i = i + 1;
    }
    proof {
        assert(a@ =~= b@);
    }
    true
}

impl Converter {
    /// Decodes a whole sequence of extracted video frames back into the
    /// payload: averages each frame down to data space, decodes its bytes,
    /// skips blank guard frames, recovers the header by majority vote,
    /// Hamming-decodes everything after it, truncates to the declared
    /// length and compares the SHA-256 hash (a mismatch is reported, not an
    /// error).  Frame payloads must be at least as long as the 144-byte
    /// triplicated header.
    ///
    /// # Arguments
    /// * `frames` - Extracted frames in stream order.
    #[verifier::rlimit(100)]
    #[verifier::spinoff_prover]
    pub fn reconstruct_bytes(&self, frames: &Vec<VideoFrame>) -> (r: Result<
        (Vec<u8>, FileReport),
        VortexError,
    >)
        requires
            self.wf(),
            self.frame_data_byte_count >= 144,
            forall|f: int|
                0 <= f < frames@.len() ==> (#[trigger] frames@[f].pixels)@.len() == 3
                    * frames@[f].width * frames@[f].height,
            frames@.len() * self.frame_data_byte_count + 16 < 0x1000_0000,
        ensures
            ({
                let pix = frames@.map_values(|fr: VideoFrame| fr.pixels@);
                let n = frames@.len() as int;
                let b = first_bad_frame(*self, frames@, 0);
                let h = header_scan(*self, pix, 0);
                match r {
                    Err(e) => {
                        if h < b && h < n && le8_val(
                            majority_header(decoded_pix(*self, pix[h]).subrange(0, 144)).subrange(
                                8,
                                16,
                            ),
                        ) > usize::MAX {
                            e == VortexError::HeaderLengthOverflow
                        } else if b < n {
                            e == VortexError::ImageDimensions
                        } else if h == n {
                            e == VortexError::MissingMagic
                        } else {
                            let maj = majority_header(decoded_pix(*self, pix[h]).subrange(0, 144));
                            let dlen = le8_val(maj.subrange(8, 16));
                            let collected = pad_to_multiple(collected_payload(*self, pix, h), 16);
                            let recovered = hamming_decoded(collected);
                            if maj.subrange(0, 8) != magic_seq() {
                                e == VortexError::MissingMagic
                            } else if dlen == 0 {
                                e == VortexError::ZeroHeaderLength
                            } else if dlen > recovered.len() {
                                e == VortexError::LengthBeyondData
                            } else {
                                false
                            }
                        }
                    },
                    Ok(p) => {
                        let maj = majority_header(decoded_pix(*self, pix[h]).subrange(0, 144));
                        let dlen = le8_val(maj.subrange(8, 16));
                        let collected = pad_to_multiple(collected_payload(*self, pix, h), 16);
                        let recovered = hamming_decoded(collected);
                        &&& b == n
                        &&& h < n
                        &&& dlen <= usize::MAX
                        &&& maj.subrange(0, 8) == magic_seq()
                        &&& 0 < dlen <= recovered.len()
                        &&& p.0@ == recovered.take(dlen as int)
                        &&& p.1.corrected_errors == count_corrected(
                            collected,
                            (collected.len() / 4) as nat,
                        )
                        &&& p.1.uncorrected_errors == count_uncorrected(
                            collected,
                            (collected.len() / 4) as nat,
                        )
                        &&& p.1.hash_match == (sha256_digest(recovered.take(dlen as int))
                            == maj.subrange(16, 48))
                    },
                }
            }),
    {
        let ghost pix = frames@.map_values(|fr: VideoFrame| fr.pixels@);
        let ghost n = frames@.len() as int;
        let bpf: usize = self.frame_data_byte_count;
        let mut collected: Vec<u8> = Vec::new();
        let mut found: bool = false;
        let mut hd_version: Vec<u8> = Vec::new();
        let mut hd_len: usize = 0;
        let mut hd_hash: Vec<u8> = Vec::new();
        let ghost mut hh: int = 0;
        let mut f: usize = 0;
        while f < frames.len()
            invariant
                f <= frames@.len(),
                self.wf(),
                bpf == self.frame_data_byte_count,
                bpf >= 144,
                pix == frames@.map_values(|fr: VideoFrame| fr.pixels@),
                pix.len() == frames@.len(),
                n == frames@.len() as int,
                forall|g: int|
                    0 <= g < frames@.len() ==> (#[trigger] frames@[g].pixels)@.len() == 3
                        * frames@[g].width * frames@[g].height,
                frames@.len() * bpf + 16 < 0x1000_0000,
                forall|g: int| 0 <= g < f ==> frame_dims_ok(*self, #[trigger] frames@[g]),
                !found ==> forall|g: int|
                    0 <= g < f ==> blank_prefix(decoded_pix(*self, #[trigger] pix[g])),
                !found ==> collected@.len() == 0,
                found ==> 0 <= hh < f,
                found ==> forall|g: int|
                    0 <= g < hh ==> blank_prefix(decoded_pix(*self, #[trigger] pix[g])),
                found ==> !blank_prefix(decoded_pix(*self, pix[hh])),
                found ==> ({
                    let maj = majority_header(decoded_pix(*self, pix[hh]).subrange(0, 144));
                    &&& hd_version@ == maj.subrange(0, 8)
                    &&& le8_val(maj.subrange(8, 16)) <= usize::MAX
                    &&& hd_len == le8_val(maj.subrange(8, 16))
                    &&& hd_hash@ == maj.subrange(16, 48)
                }),
                found ==> collected@ == decoded_pix(*self, pix[hh]).skip(144) + collect_range(
                    *self,
                    pix,
                    hh + 1,
                    f as int,
                ),
                found ==> collected@.len() <= (f as int) * bpf,
            decreases frames@.len() - f,
        {
            let fw: u32 = frames[f].width;
            let fh: u32 = frames[f].height;
            let avg = self.average_blocks(fw, fh, &frames[f].pixels);
            match avg {
                Err(_) => {
                    proof {
                        lemma_first_bad_is(*self, frames@, 0, f as int);
                        if found {
                            lemma_header_scan_is(*self, pix, 0, hh);
                        } else {
                            lemma_header_scan_ge(*self, pix, 0, f as int);
                        }
                    }
                    return Err(VortexError::ImageDimensions);
                },
                Ok(avg_raster) => {
                    let mut img: Vec<u8> = self.frame_to_data(&avg_raster);
                    proof {
                        assert(pix[f as int] == frames@[f as int].pixels@);
                        assert(img@ == decoded_pix(*self, pix[f as int]));
                        assert(img@.len() == bpf);
                    }
                    if found {
                        proof {
                            lemma_collect_range_snoc(*self, pix, hh + 1, f as int);
                            assert((f as int) * bpf + bpf == (f as int + 1) * bpf) by (
                            nonlinear_arith);
                        }
                        collected.append(&mut img);
                    } else {
                        let mut nz: bool = false;
                        let mut i: usize = 0;
                        while i < 144
                            invariant
                                i <= 144,
                                img@.len() >= 144,
                                nz <==> exists|g: int| 0 <= g < i && img@[g] != 0,
                            decreases 144 - i,
                        {
                            if img[i] != 0 {
                                nz = true;
                            }
                            i = i + 1;
                        }
                        if !nz {
                            proof {
                                assert(blank_prefix(decoded_pix(*self, pix[f as int])));
                            }
                        } else {
                            found = true;
                            proof {
                                hh = f as int;
                                assert(!blank_prefix(decoded_pix(*self, pix[f as int])));
                            }
                            let mut hvec: Vec<u8> = Vec::new();
                            let mut j: usize = 0;
                            while j < 144
                                invariant
                                    j <= 144,
                                    img@.len() >= 144,
                                    hvec@.len() == j,
                                    forall|g: int| 0 <= g < j ==> #[trigger] hvec@[g] == img@[g],
                                decreases 144 - j,
                            {
                                hvec.push(img[j]);
                                j = j + 1;
                            }
                            proof {
                                assert(hvec@ =~= img@.subrange(0, 144));
                            }
                            match Converter::read_data_header(&hvec) {
                                Err(e) => {
                                    proof {
                                        lemma_header_scan_is(*self, pix, 0, f as int);
                                        lemma_first_bad_ge(*self, frames@, 0, f as int + 1);
                                    }
                                    return Err(e);
                                },
                                Ok(hd) => {
                                    hd_version = hd.version_code;
                                    hd_len = hd.data_len;
                                    hd_hash = hd.sha256_hash;
                                },
                            }
                            let mut k: usize = 144;
                            while k < img.len()
                                invariant
                                    144 <= k <= img@.len(),
                                    collected@.len() == k - 144,
                                    forall|g: int|
                                        0 <= g < k - 144 ==> #[trigger] collected@[g] == img@[g
                                            + 144],
                                decreases img@.len() - k,
                            {
                                collected.push(img[k]);
                                k = k + 1;
                            }
                            proof {
                                assert(collected@ =~= img@.skip(144));
                                assert(collect_range(*self, pix, f as int + 1, f as int + 1)
                                    =~= Seq::<u8>::empty());
                                assert(collected@ =~= decoded_pix(*self, pix[f as int]).skip(144)
                                    + collect_range(*self, pix, f as int + 1, f as int + 1));
                                assert(bpf <= (f as int + 1) * bpf) by (nonlinear_arith)
                                    requires
                                        0 <= f,
                                        bpf >= 1,
                                ;
                            }
                        }
                    }
                },
            }
            f = f + 1;
        }
        proof {
            lemma_first_bad_is(*self, frames@, 0, n);
            if found {
                lemma_header_scan_is(*self, pix, 0, hh);
            } else {
                lemma_header_scan_is(*self, pix, 0, n);
            }
        }
        if !found {
            return Err(VortexError::MissingMagic);
        }
        proof {
            assert(collected@ == collected_payload(*self, pix, hh));
        }
        self.finish_reconstruct(collected, &hd_version, hd_len, &hd_hash)
    }

    /// Pads the collected bytes to a whole number of Hamming chunks, decodes
    /// them, checks the recovered header fields and truncates to the
    /// declared length.  A hash mismatch is reported, not an error.
    fn finish_reconstruct(
        &self,
        collected: Vec<u8>,
        hd_version: &Vec<u8>,
        hd_len: usize,
        hd_hash: &Vec<u8>,
    ) -> (r: Result<(Vec<u8>, FileReport), VortexError>)
        requires
            collected@.len() + 16 < 0x1000_0000,
        ensures
            ({
                let collected16 = pad_to_multiple(collected@, 16);
                let recovered = hamming_decoded(collected16);
                match r {
                    Err(e) => {
                        if hd_version@ != magic_seq() {
                            e == VortexError::MissingMagic
                        } else if hd_len == 0 {
                            e == VortexError::ZeroHeaderLength
                        } else if hd_len > recovered.len() {
                            e == VortexError::LengthBeyondData
                        } else {
                            false
                        }
                    },
                    Ok(p) => {
                        &&& hd_version@ == magic_seq()
                        &&& 0 < hd_len <= recovered.len()
                        &&& p.0@ == recovered.take(hd_len as int)
                        &&& p.1.corrected_errors == count_corrected(
                            collected16,
                            (collected16.len() / 4) as nat,
                        )
                        &&& p.1.uncorrected_errors == count_uncorrected(
                            collected16,
                            (collected16.len() / 4) as nat,
                        )
                        &&& p.1.hash_match == (sha256_digest(recovered.take(hd_len as int))
                            == hd_hash@)
                    },
                }
            }),
    {
        let mut collected = collected;
        let ghost raw_collected = collected@;
        let target: usize = ((collected.len() + 15) / 16) * 16;
        proof {
            let cl = collected@.len() as int;
            vstd::arithmetic::div_mod::lemma_fundamental_div_mod(cl, 16);
            vstd::arithmetic::div_mod::lemma_fundamental_div_mod(cl + 15, 16);
            assert(target == padded_len(collected@.len(), 16) && target <= cl
                + 15) by (nonlinear_arith)
                requires
                    target == (cl + 15) / 16 * 16,
                    cl == 16 * (cl / 16) + cl % 16,
                    cl + 15 == 16 * ((cl + 15) / 16) + (cl + 15) % 16,
                    0 <= cl % 16 < 16,
                    0 <= (cl + 15) % 16 < 16,
                    0 <= cl,
                    padded_len(collected@.len(), 16) == (if cl % 16 == 0 {
                        cl
                    } else {
                        cl + 16 - cl % 16
                    }),
            ;
        }
        while collected.len() < target
            invariant
                raw_collected.len() <= collected@.len() <= target,
                target == padded_len(raw_collected.len(), 16),
                collected@ == raw_collected + zero_seq(
                    (collected@.len() - raw_collected.len()) as nat,
                ),
            decreases target - collected@.len(),
        {
            collected.push(0);
            proof {
                assert(collected@ =~= raw_collected + zero_seq(
                    (collected@.len() - raw_collected.len()) as nat,
                ));
            }
        }
        proof {
            assert(collected@ == pad_to_multiple(raw_collected, 16));
            assert(collected@.len() % 16 == 0) by (nonlinear_arith)
                requires
                    collected@.len() == padded_len(raw_collected.len(), 16),
                    padded_len(raw_collected.len(), 16) == (if raw_collected.len() % 16 == 0 {
                        raw_collected.len() as int
                    } else {
                        raw_collected.len() + 16 - raw_collected.len() % 16
                    }),
                    raw_collected.len() == 16 * (raw_collected.len() as int / 16)
                        + raw_collected.len() % 16,
                    0 <= raw_collected.len() % 16 < 16,
            ;
        }
        let decoded = match decode_with_hamming_31_26(&collected) {
            Ok(p) => p,
            Err(_) => {
                proof {
                    assert(false);
                }
                (Vec::new(), HammingReport { corrected_errors: 0, uncorrected_errors: 0 })
            },
        };
        let mut recovered: Vec<u8> = decoded.0;
        let report: HammingReport = decoded.1;
        let magic_ok: bool = hd_version.len() == 8 && hd_version[0] == 68 && hd_version[1] == 65
            && hd_version[2] == 67 && hd_version[3] == 79 && hd_version[4] == 0 && hd_version[5]
            == 255 && hd_version[6] == 0 && hd_version[7] == 1;
        proof {
            if magic_ok {
                assert(hd_version@ =~= magic_seq());
            } else {
                assert(hd_version@ != magic_seq());
            }
        }
        if !magic_ok {
            return Err(VortexError::MissingMagic);
        }
        if hd_len == 0 {
            return Err(VortexError::ZeroHeaderLength);
        }
        if hd_len > recovered.len() {
            return Err(VortexError::LengthBeyondData);
        }
        recovered.truncate(hd_len);
        let computed: Vec<u8> = sha256(&recovered);
        proof {
            assert(computed@ =~= sha256_digest(recovered@));
        }
        let hash_match: bool = bytes_eq(&computed, &hd_hash);
        Ok((recovered, FileReport::from_hamming_report(&report, hash_match)))
    }
}

} // verus!
