//! The coders that stand between a bitmap and the bytes of a file.

pub mod dct;
pub mod laws;
pub mod lossless;
pub mod lzw;
