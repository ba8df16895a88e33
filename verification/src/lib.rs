//! Lossless vector serialization for flat-color raster images.
//!
//! The library traces a pixel grid into polyline paths bounding regions of
//! near-uniform color, renders such paths back onto a raster, and reads and
//! writes the chunked binary container that persists them.

pub mod algorithm;
pub mod cli_error;
pub mod entity;
pub mod s7_image;
pub mod serialization;
pub mod utils;
