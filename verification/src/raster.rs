//! Downsampling of extracted video frames and its inverse.
//!
//! Extracted frames arrive at `DOWNSAMPLE_SCALER` times the data resolution;
//! every 2 x 2 block of pixels is averaged (integer sum divided by 4) into
//! one data unit.  Upscaling repeats each data unit over a 2 x 2 block, and
//! averaging an upscaled raster gives the raster back.

use crate::converter::{Converter, DOWNSAMPLE_SCALER};
use crate::errors::VortexError;
use vstd::arithmetic::div_mod::lemma_fundamental_div_mod;
use vstd::prelude::*;

verus! {

/// The data-space raster obtained by averaging every 2 x 2 block of a
/// video-space raster, channel by channel.
pub open spec fn averaged_raster(c: Converter, pixels: Seq<u8>) -> Seq<u8> {
    Seq::new(
        (c.frame_data_unit_count * 3) as nat,
        |idx: int|
            {
                let j = idx / 3;
                let ch = idx % 3;
                let bx = j % (c.data_width as int);
                let by = j / (c.data_width as int);
                let vw = 2 * (c.data_width as int);
                let base = 2 * by * vw + 2 * bx;
                let s = pixels[3 * base + ch] + pixels[3 * (base + 1) + ch] + pixels[3 * (base + vw)
                    + ch] + pixels[3 * (base + vw + 1) + ch];
                (s / 4) as u8
            },
    )
}

/// The video-space raster that repeats each data unit of a data-space
/// raster over a 2 x 2 block of pixels.
pub open spec fn upscaled_raster(c: Converter, raster: Seq<u8>) -> Seq<u8> {
    Seq::new(
        (c.frame_data_unit_count * 12) as nat,
        |idx: int|
            {
                let ch = idx % 3;
                let v = idx / 3;
                let vw = 2 * (c.data_width as int);
                let vx = v % vw;
                let vy = v / vw;
                raster[3 * ((vy / 2) * (c.data_width as int) + vx / 2) + ch]
            },
    )
}

impl Converter {
    /// Reads a video-space raster at `DOWNSAMPLE_SCALER` times the data
    /// resolution, averages every 2 x 2 pixel block per channel and returns
    /// the data-space raster.  Fails when the raster's dimensions are not
    /// exactly the expected video-space dimensions.
    ///
    /// # Arguments
    /// * `width`, `height` - Dimensions of the raster handed in.
    /// * `pixels` - Row-major RGB samples, `3 * width * height` bytes.
    pub fn average_blocks(&self, width: u32, height: u32, pixels: &Vec<u8>) -> (r: Result<
        Vec<u8>,
        VortexError,
    >)
        requires
            self.wf(),
            pixels@.len() == 3 * width * height,
        ensures
            match r {
                Ok(v) => {
                    &&& width == DOWNSAMPLE_SCALER * self.data_width
                    &&& height == DOWNSAMPLE_SCALER * self.data_height
                    &&& v@ == averaged_raster(*self, pixels@)
                    &&& v@.len() == self.frame_data_unit_count * 3
                },
                Err(e) => {
                    &&& (width != DOWNSAMPLE_SCALER * self.data_width || height != DOWNSAMPLE_SCALER
                        * self.data_height)
                    &&& e == VortexError::ImageDimensions
                },
            },
    {
        proof {
            assert(2 * self.data_width <= self.frame_width && 2 * self.data_height
                <= self.frame_height);
        }
        let dw: u32 = self.data_width;
        let dh: u32 = self.data_height;
        if width != DOWNSAMPLE_SCALER * dw {
            return Err(VortexError::ImageDimensions);
        }
        if height != DOWNSAMPLE_SCALER * dh {
            return Err(VortexError::ImageDimensions);
        }
        let ghost avg = averaged_raster(*self, pixels@);
        let dwu: usize = dw as usize;
        let dhu: usize = dh as usize;
        let vw: usize = 2 * dwu;
        proof {
            assert(pixels@.len() == 3 * (2 * dwu) * (2 * dhu) && dwu * dhu
                == self.frame_data_unit_count) by (nonlinear_arith)
                requires
                    pixels@.len() == 3 * width * height,
                    width == 2 * dwu,
                    height == 2 * dhu,
                    self.frame_data_unit_count == dwu * dhu,
            ;
        }
        let plen: usize = pixels.len();
        let mut out: Vec<u8> = Vec::new();
        let mut by: usize = 0;
        while by < dhu
            invariant
                by <= dhu,
                self.wf(),
                dwu == self.data_width,
                dhu == self.data_height,
                vw == 2 * dwu,
                pixels@.len() == 3 * (2 * dwu) * (2 * dhu),
                pixels@.len() == plen,
                dwu * dhu == self.frame_data_unit_count,
                avg == averaged_raster(*self, pixels@),
                out@.len() == 3 * (by * dwu),
                forall|idx: int| 0 <= idx < 3 * (by * dwu) ==> #[trigger] out@[idx] == avg[idx],
            decreases dhu - by,
        {
            let mut bx: usize = 0;
            while bx < dwu
                invariant
                    bx <= dwu,
                    by < dhu,
                    self.wf(),
                    dwu == self.data_width,
                    dhu == self.data_height,
                    vw == 2 * dwu,
                    pixels@.len() == 3 * (2 * dwu) * (2 * dhu),
                    pixels@.len() == plen,
                    dwu * dhu == self.frame_data_unit_count,
                    avg == averaged_raster(*self, pixels@),
                    out@.len() == 3 * (by * dwu + bx),
                    forall|idx: int|
                        0 <= idx < 3 * (by * dwu + bx) ==> #[trigger] out@[idx] == avg[idx],
                decreases dwu - bx,
            {
                let ghost j = (by * dwu + bx) as int;
                proof {
                    assert(by * dwu + bx < dwu * dhu && 2 * by <= vw * (2 * dhu) && 2 * by * vw
                        <= vw * (2 * dhu) && 2 * by * vw + 2 * bx + vw + 1 < vw * (2 * dhu) && 3
                        * (vw * (2 * dhu)) == pixels@.len() && 3 * (by * dwu + bx) + 2 < 3 * (dwu
                        * dhu)) by (nonlinear_arith)
                        requires
                            bx < dwu,
                            by < dhu,
                            vw == 2 * dwu,
                            pixels@.len() == 3 * (2 * dwu) * (2 * dhu),
                            dwu >= 1,
                    ;
                    assert(j / (dwu as int) == by && j % (dwu as int) == bx) by (nonlinear_arith)
                        requires
                            j == by * dwu + bx,
                            0 <= bx < dwu,
                            0 <= by,
                    ;
                    assert((3 * j + 0) / 3 == j && (3 * j + 0) % 3 == 0 && (3 * j + 1) / 3 == j && (
                    3 * j + 1) % 3 == 1 && (3 * j + 2) / 3 == j && (3 * j + 2) % 3
                        == 2) by (nonlinear_arith)
                        requires
                            0 <= j,
                    ;
                    assert(avg.len() == (dwu * dhu) * 3 && 3 * j + 2 < avg.len()) by (
                    nonlinear_arith)
                        requires
                            avg.len() == (dwu * dhu) * 3,
                            j < dwu * dhu,
                            0 <= j,
                    ;
                }
                let base: usize = 2 * by * vw + 2 * bx;
                let p00: usize = 3 * base;
                let p01: usize = 3 * (base + 1);
                let p10: usize = 3 * (base + vw);
                let p11: usize = 3 * (base + vw + 1);
                let s0: u32 = (pixels[p00] as u32) + (pixels[p01] as u32) + (pixels[p10] as u32) + (
                pixels[p11] as u32);
                let s1: u32 = (pixels[p00 + 1] as u32) + (pixels[p01 + 1] as u32) + (pixels[p10
                    + 1] as u32) + (pixels[p11 + 1] as u32);
                let s2: u32 = (pixels[p00 + 2] as u32) + (pixels[p01 + 2] as u32) + (pixels[p10
                    + 2] as u32) + (pixels[p11 + 2] as u32);
                proof {
                    assert(avg[3 * j + 0] == (((pixels@[p00 as int] + pixels@[p01 as int]
                        + pixels@[p10 as int] + pixels@[p11 as int]) as int) / 4) as u8);
                    assert(avg[3 * j + 1] == (((pixels@[p00 as int + 1] + pixels@[p01 as int + 1]
                        + pixels@[p10 as int + 1] + pixels@[p11 as int + 1]) as int) / 4) as u8);
                    assert(avg[3 * j + 2] == (((pixels@[p00 as int + 2] + pixels@[p01 as int + 2]
                        + pixels@[p10 as int + 2] + pixels@[p11 as int + 2]) as int) / 4) as u8);
                }
                out.push((s0 / 4) as u8);
                out.push((s1 / 4) as u8);
                out.push((s2 / 4) as u8);
                bx = bx + 1;
            }
            proof {
                assert(3 * (by * dwu + dwu) == 3 * ((by + 1) * dwu)) by (nonlinear_arith);
            }
            by = by + 1;
        }
        proof {
            assert(3 * (dhu * dwu) == (dwu * dhu) * 3) by (nonlinear_arith);
            assert(out@ =~= avg);
        }
        Ok(out)
    }

    /// Repeats each data unit of a data-space raster over a 2 x 2 pixel
    /// block, producing the video-space raster whose block average is the
    /// input again.
    ///
    /// # Arguments
    /// * `raster` - Data-space raster of `3 * frame_data_unit_count` samples.
    pub fn upscale_raster(&self, raster: &Vec<u8>) -> (r: Vec<u8>)
        requires
            self.wf(),
            raster@.len() == self.frame_data_unit_count * 3,
            self.frame_data_unit_count * 12 <= usize::MAX,
        ensures
            r@ == upscaled_raster(*self, raster@),
            r@.len() == self.frame_data_unit_count * 12,
    {
        let ghost up = upscaled_raster(*self, raster@);
        let dwu: usize = self.data_width as usize;
        let dhu: usize = self.data_height as usize;
        let vw: usize = 2 * dwu;
        let vh: usize = 2 * dhu;
        proof {
            assert(2 * self.data_width <= self.frame_width && 2 * self.data_height
                <= self.frame_height);
            assert((2 * dwu) * (2 * dhu) == 4 * (dwu * dhu) && up.len() == (dwu * dhu)
                * 12) by (nonlinear_arith)
                requires
                    up.len() == self.frame_data_unit_count * 12,
                    self.frame_data_unit_count == dwu * dhu,
            ;
        }
        let rlen: usize = raster.len();
        let mut out: Vec<u8> = Vec::new();
        let mut vy: usize = 0;
        while vy < vh
            invariant
                vy <= vh,
                self.wf(),
                dwu == self.data_width,
                dhu == self.data_height,
                vw == 2 * dwu,
                vh == 2 * dhu,
                raster@.len() == self.frame_data_unit_count * 3,
                raster@.len() == rlen,
                self.frame_data_unit_count == dwu * dhu,
                (dwu * dhu) * 12 <= usize::MAX,
                up == upscaled_raster(*self, raster@),
                up.len() == (dwu * dhu) * 12,
                out@.len() == 3 * (vy * vw),
                forall|idx: int| 0 <= idx < 3 * (vy * vw) ==> #[trigger] out@[idx] == up[idx],
            decreases vh - vy,
        {
            let mut vx: usize = 0;
            while vx < vw
                invariant
                    vx <= vw,
                    vy < vh,
                    self.wf(),
                    dwu == self.data_width,
                    dhu == self.data_height,
                    vw == 2 * dwu,
                    vh == 2 * dhu,
                    raster@.len() == self.frame_data_unit_count * 3,
                    raster@.len() == rlen,
                    self.frame_data_unit_count == dwu * dhu,
                    (dwu * dhu) * 12 <= usize::MAX,
                    up == upscaled_raster(*self, raster@),
                    up.len() == (dwu * dhu) * 12,
                    out@.len() == 3 * (vy * vw + vx),
                    forall|idx: int|
                        0 <= idx < 3 * (vy * vw + vx) ==> #[trigger] out@[idx] == up[idx],
                decreases vw - vx,
            {
                let ghost v = (vy * vw + vx) as int;
                proof {
                    assert(vy * vw + vx < (2 * dhu) * vw && (2 * dhu) * vw == (dwu * dhu) * 4 && 3
                        * (vy * vw + vx) + 2 < (dwu * dhu) * 12) by (nonlinear_arith)
                        requires
                            vx < vw,
                            vy < vh,
                            vw == 2 * dwu,
                            vh == 2 * dhu,
                    ;
                    assert(v / (vw as int) == vy && v % (vw as int) == vx) by (nonlinear_arith)
                        requires
                            v == vy * vw + vx,
                            0 <= vx < vw,
                            0 <= vy,
                    ;
                    assert((3 * v + 0) / 3 == v && (3 * v + 0) % 3 == 0 && (3 * v + 1) / 3 == v && (
                    3 * v + 1) % 3 == 1 && (3 * v + 2) / 3 == v && (3 * v + 2) % 3
                        == 2) by (nonlinear_arith)
                        requires
                            0 <= v,
                    ;
                    assert((vy as int) / 2 * dwu + (vx as int) / 2 < dwu * dhu && 3 * ((vy as int)
                        / 2 * dwu + (vx as int) / 2) + 2 < dwu * dhu * 3) by (nonlinear_arith)
                        requires
                            0 <= vx < 2 * dwu,
                            0 <= vy < 2 * dhu,
                    ;
                    assert(raster@.len() == dwu * dhu * 3) by (nonlinear_arith)
                        requires
                            raster@.len() == self.frame_data_unit_count * 3,
                            self.frame_data_unit_count == dwu * dhu,
                    ;
                }
                let src: usize = 3 * ((vy / 2) * dwu + vx / 2);
                proof {
                    assert(up[3 * v + 0] == raster@[src as int + 0]);
                    assert(up[3 * v + 1] == raster@[src as int + 1]);
                    assert(up[3 * v + 2] == raster@[src as int + 2]);
                }
                out.push(raster[src]);
                out.push(raster[src + 1]);
                out.push(raster[src + 2]);
                vx = vx + 1;
            }
            proof {
                assert(3 * (vy * vw + vw) == 3 * ((vy + 1) * vw)) by (nonlinear_arith);
            }
            vy = vy + 1;
        }
        proof {
            assert(3 * ((2 * dhu) * vw) == (dwu * dhu) * 12) by (nonlinear_arith)
                requires
                    vw == 2 * dwu,
            ;
            assert(out@ =~= up);
        }
        out
    }
}

/// Averaging an upscaled raster returns the raster unchanged: each 2 x 2
/// block holds four copies of one sample, and their integer average is that
/// sample.
pub proof fn lemma_upscale_average(c: Converter, raster: Seq<u8>)
    requires
        c.wf(),
        raster.len() == c.frame_data_unit_count * 3,
    ensures
        averaged_raster(c, upscaled_raster(c, raster)) == raster,
{
    let up = upscaled_raster(c, raster);
    let avg = averaged_raster(c, up);
    let dw = c.data_width as int;
    let dh = c.data_height as int;
    let units = c.frame_data_unit_count as int;
    let vw = 2 * dw;
    assert forall|idx: int| 0 <= idx < units * 3 implies #[trigger] avg[idx] == raster[idx] by {
        let j = idx / 3;
        let ch = idx % 3;
        lemma_fundamental_div_mod(idx, 3);
        assert(0 <= ch < 3 && 0 <= j < units) by (nonlinear_arith)
            requires
                idx == 3 * j + ch,
                j == idx / 3,
                ch == idx % 3,
                0 <= idx < units * 3,
        ;
        let bx = j % dw;
        let by = j / dw;
        lemma_fundamental_div_mod(j, dw);
        assert(0 <= bx < dw && 0 <= by < dh) by (nonlinear_arith)
            requires
                j == dw * by + bx,
                bx == j % dw,
                by == j / dw,
                0 <= j < units,
                units == dw * dh,
                dw >= 1,
        ;
        let base = 2 * by * vw + 2 * bx;
        assert forall|dx: int, dy: int| 0 <= dx < 2 && 0 <= dy < 2 implies #[trigger] up[3 * (base
            + dy * vw + dx) + ch] == raster[idx] by {
            let v = base + dy * vw + dx;
            assert(v == (2 * by + dy) * vw + (2 * bx + dx) && 0 <= 2 * bx + dx < vw && 0 <= 2 * by
                + dy < 2 * dh) by (nonlinear_arith)
                requires
                    v == base + dy * vw + dx,
                    base == 2 * by * vw + 2 * bx,
                    vw == 2 * dw,
                    0 <= dx < 2,
                    0 <= dy < 2,
                    0 <= bx < dw,
                    0 <= by < dh,
            ;
            assert(v / vw == 2 * by + dy && v % vw == 2 * bx + dx) by (nonlinear_arith)
                requires
                    v == (2 * by + dy) * vw + (2 * bx + dx),
                    0 <= 2 * bx + dx < vw,
                    0 <= 2 * by + dy,
                    vw >= 1,
            ;
            assert(0 <= v && v < (2 * dh) * vw && 3 * v + ch < units * 12 && (2 * by + dy) / 2 == by
                && (2 * bx + dx) / 2 == bx) by (nonlinear_arith)
                requires
                    v == (2 * by + dy) * vw + (2 * bx + dx),
                    0 <= 2 * bx + dx < vw,
                    0 <= dx < 2,
                    0 <= dy < 2,
                    0 <= bx < dw,
                    0 <= by < dh,
                    vw == 2 * dw,
                    units == dw * dh,
                    0 <= ch < 3,
            ;
            assert((3 * v + ch) / 3 == v && (3 * v + ch) % 3 == ch) by (nonlinear_arith)
                requires
                    0 <= v,
                    0 <= ch < 3,
            ;
            assert(by * dw + bx == j) by (nonlinear_arith)
                requires
                    j == dw * by + bx,
            ;
        }
        assert(up[3 * (base + 0 * vw + 0) + ch] == raster[idx]);
        assert(up[3 * (base + 0 * vw + 1) + ch] == raster[idx]);
        assert(up[3 * (base + 1 * vw + 0) + ch] == raster[idx]);
        assert(up[3 * (base + 1 * vw + 1) + ch] == raster[idx]);
        assert(3 * base + ch == 3 * (base + 0 * vw + 0) + ch);
        assert(3 * (base + 1) + ch == 3 * (base + 0 * vw + 1) + ch);
        assert(3 * (base + vw) + ch == 3 * (base + 1 * vw + 0) + ch);
        assert(3 * (base + vw + 1) + ch == 3 * (base + 1 * vw + 1) + ch);
        let pv = raster[idx];
        assert((pv + pv + pv + pv) / 4 == pv as int) by (nonlinear_arith);
        assert(avg[idx] == ((pv + pv + pv + pv) as int / 4) as u8);
    }
    assert(avg =~= raster);
}

} // verus!
