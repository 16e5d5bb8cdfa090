//! Core pipeline of a photo editor: decoding a base image with EXIF
//! orientation correction, alpha-compositing of AI patch layers onto it,
//! and ingestion of 3D colour lookup tables (`.cube`, `.3dl`, HALD images)
//! into one canonical grid representation.
//!
//! Pixel buffers, patch descriptors and LUT grids are plain data types of
//! this crate; the image codecs and the base64 decoder are called through
//! a small set of trusted declarations.

pub mod pixel;
pub mod formats;
pub mod orient;
pub mod decode;
pub mod patch;
pub mod text;
pub mod lut;
