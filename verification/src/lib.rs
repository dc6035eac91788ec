//! vortexkey: encode arbitrary byte streams as rasters of RGB data units that
//! survive a lossy video codec, and recover the bytes afterwards.
//!
//! The pipeline packs payload bits into quantization-anchored color samples,
//! protects the payload with a Hamming(31,26) SEC-DED code, and brackets the
//! data frames with blank guard frames behind a triply-redundant header.

pub mod assembler;
pub mod bits;
pub mod cli;
pub mod converter;
pub mod error_correction;
pub mod header;
pub mod raster;
pub mod errors;
pub mod filesys;
pub mod utils;
