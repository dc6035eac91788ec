//! Typed errors for every invariant the library checks.

use vstd::prelude::*;

verus! {

/// Everything that can make an operation of this library fail.
///
/// Correction and integrity findings are not errors: they are reported in
/// `HammingReport` / `FileReport` and never abort an operation.
#[derive(Clone, Copy, Debug, PartialEq, Eq, Structural)]
pub enum VortexError {
    /// A color channel bit count is outside `[1, 8]`.
    InvalidColorBits,
    /// A frame rate is outside `[1, 60]`, or the data rate exceeds the video rate.
    InvalidFrameRate,
    /// The video frame rate is not a whole multiple of the data frame rate.
    FrameRateRatio,
    /// A data dimension is zero.
    ZeroDataDimension,
    /// A frame dimension is not a whole multiple of the matching data dimension.
    DimensionMismatch,
    /// A frame dimension is smaller than the downsampling scaler allows.
    FrameTooSmall,
    /// A frame would encode a fractional number of bytes.
    FractionalFrameBytes,
    /// A frame would hold more samples or bytes than this machine can index.
    FrameTooLarge,
    /// Input to the Hamming encoder is not a whole number of 13-byte chunks.
    HammingEncodeLength,
    /// Input to the Hamming decoder is not a whole number of 16-byte chunks.
    HammingDecodeLength,
    /// More bytes were handed to a frame than it can encode.
    FrameDataTooLong,
    /// An extracted image does not have the expected video-space dimensions.
    ImageDimensions,
    /// No frame carrying the magic tag was found.
    MissingMagic,
    /// The recovered header declares a payload length of zero.
    ZeroHeaderLength,
    /// The recovered header declares more payload bytes than were recovered.
    LengthBeyondData,
    /// The recovered payload length does not fit a pointer-sized integer.
    HeaderLengthOverflow,
}

} // verus!
