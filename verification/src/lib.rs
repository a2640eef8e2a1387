//! An 8×8 block-transform image codec: a fixed-point discrete cosine
//! transform over fixed-size integer blocks, quality-driven quantization
//! tables, zigzag coefficient reordering, and a self-describing binary
//! container that carries the tables beside the transformed blocks.

pub mod codec;
pub mod color;
pub mod image;
pub mod ppm;
pub mod tables;
pub mod unit;

