//! Command line options as plain values, and their translation into a
//! validated converter configuration.

use crate::converter::{config_error, valid_config, Converter};
use crate::errors::VortexError;
use vstd::prelude::*;

verus! {

/// Converter operating mode.
#[derive(Clone, Copy, Debug, PartialEq, Eq, Structural)]
pub enum OperatingMode {
    /// Encode a file to a video.
    DataToVideo,
    /// Decode a file from a video.
    VideoToData,
    /// Turn data into a series of frames.
    Split,
}

/// The closed set of output video resolutions.
#[derive(Clone, Copy, Debug, PartialEq, Eq, Structural)]
pub enum FrameResolution {
    /// 426 x 240.
    Sd240,
    /// 640 x 360.
    Sd360,
    /// 854 x 480.
    Sd480,
    /// 1280 x 720.
    Hd720,
    /// 1920 x 1080.
    Hd1080,
    /// 2560 x 1440.
    Qhd1440,
    /// 3840 x 2160.
    Uhd4k,
    /// 7680 x 4320.
    Uhd8k,
}

/// Width in pixels of a named resolution.
pub open spec fn res_width(r: FrameResolution) -> u32 {
    match r {
        FrameResolution::Sd240 => 426,
        FrameResolution::Sd360 => 640,
        FrameResolution::Sd480 => 854,
        FrameResolution::Hd720 => 1280,
        FrameResolution::Hd1080 => 1920,
        FrameResolution::Qhd1440 => 2560,
        FrameResolution::Uhd4k => 3840,
        FrameResolution::Uhd8k => 7680,
    }
}

/// Height in pixels of a named resolution.
pub open spec fn res_height(r: FrameResolution) -> u32 {
    match r {
        FrameResolution::Sd240 => 240,
        FrameResolution::Sd360 => 360,
        FrameResolution::Sd480 => 480,
        FrameResolution::Hd720 => 720,
        FrameResolution::Hd1080 => 1080,
        FrameResolution::Qhd1440 => 1440,
        FrameResolution::Uhd4k => 2160,
        FrameResolution::Uhd8k => 4320,
    }
}

impl FrameResolution {
    /// The (width, height) pixel dimensions of this resolution.
    pub fn dims(&self) -> (r: [u32; 2])
        ensures
            r[0] == res_width(*self),
            r[1] == res_height(*self),
    {
        match self {
            FrameResolution::Sd240 => [426, 240],
            FrameResolution::Sd360 => [640, 360],
            FrameResolution::Sd480 => [854, 480],
            FrameResolution::Hd720 => [1280, 720],
            FrameResolution::Hd1080 => [1920, 1080],
            FrameResolution::Qhd1440 => [2560, 1440],
            FrameResolution::Uhd4k => [3840, 2160],
            FrameResolution::Uhd8k => [7680, 4320],
        }
    }
}

/// Command line arguments, already parsed into plain values.
#[derive(Debug)]
pub struct Args {
    /// Output file (video file or reconstructed data).
    pub outputfile: String,
    /// Input file (video file or data to convert).
    pub inputfile: String,
    /// Whether the output file should be overwritten if it exists.
    pub overwrite: bool,
    /// Operating mode.
    pub mode: OperatingMode,
    /// Bits encoded per color channel, as three decimal digits (RGB).
    pub colorbits: u32,
    /// Output video frame rate.
    pub video_fps: u32,
    /// Data frame rate.
    pub data_fps: u32,
    /// Output video resolution.
    pub frame_resolution: FrameResolution,
    /// Size of a data block in pixels.
    pub data_pixel_size: u32,
}

impl Args {
    /// Use the command line arguments to construct a converter instance:
    /// the three digits of `colorbits` become the channel bit counts, and
    /// the data dimensions are the frame dimensions divided by the data
    /// pixel size.
    pub fn to_converter_config(&self) -> (r: Result<Converter, VortexError>)
        requires
            self.data_pixel_size >= 1,
        ensures
            ({
                let fw = res_width(self.frame_resolution);
                let fh = res_height(self.frame_resolution);
                let dw = fw / self.data_pixel_size;
                let dh = fh / self.data_pixel_size;
                let cb0 = self.colorbits / 100;
                let cb1 = self.colorbits % 100 / 10;
                let cb2 = self.colorbits % 10;
                &&& (r is Ok <==> valid_config(
                    cb0,
                    cb1,
                    cb2,
                    self.data_fps,
                    self.video_fps,
                    fw,
                    fh,
                    dw,
                    dh,
                ))
                &&& match r {
                    Ok(c) => {
                        &&& c.wf()
                        &&& c.red_bits == cb0
                        &&& c.green_bits == cb1
                        &&& c.blue_bits == cb2
                        &&& c.data_fps == self.data_fps
                        &&& c.video_fps == self.video_fps
                        &&& c.frame_width == fw
                        &&& c.frame_height == fh
                        &&& c.data_width == dw
                        &&& c.data_height == dh
                    },
                    Err(e) => e == config_error(
                        cb0,
                        cb1,
                        cb2,
                        self.data_fps,
                        self.video_fps,
                        fw,
                        fh,
                        dw,
                        dh,
                    ),
                }
            }),
    {
        let video_resolution: [u32; 2] = self.frame_resolution.dims();
        let data_resolution: [u32; 2] = [
            video_resolution[0] / self.data_pixel_size,
            video_resolution[1] / self.data_pixel_size,
        ];
        Converter::new(
            [self.colorbits / 100, self.colorbits % 100 / 10, self.colorbits % 10],
            self.data_fps,
            self.video_fps,
            video_resolution,
            data_resolution,
        )
    }
}

} // verus!
