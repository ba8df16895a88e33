//! The algorithmic core: tracing a pixel grid into paths and rendering
//! paths back onto a raster.

pub mod decode;
pub mod neighboring_coords;
pub mod encode;
