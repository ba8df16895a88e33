//! The container codec: the byte-level wire grammar, the reader and the
//! writer, and the error type they surface.

pub mod parse_error;
pub mod wire;
pub mod read;
pub mod round_trip;
pub mod write;
