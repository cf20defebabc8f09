//! Columnar in-memory array encoding: bit-packed validity bitmaps, growable
//! buffers, and offset-based variable-length layouts.

pub mod bitmap;
pub mod buffer;
pub mod offset;
