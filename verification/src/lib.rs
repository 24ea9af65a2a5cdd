//! SQP (SQuishy Picture) is a small still-image format for 8-bit rasters. A file
//! is a fixed header, an index of compressed chunks and the chunk payloads. The
//! pixel data is stored as it is, row-differenced, or as quantised DCT
//! coefficients, and in each case squeezed by a variable-width LZW coder.
//!
//! Everything in this crate works on byte buffers in memory. The code is
//! verified: the contracts say which bytes come out of an encoder and which
//! pixels come back from a decoder, and the laws in [`laws`] and
//! [`compression::laws`] say that decoding undoes encoding. The few calls
//! into other crates stand in small functions of their own, whose contracts
//! are taken on trust. The cosine transform of the lossy mode works on
//! floating-point numbers and is left to the caller: this crate cuts the
//! bitmap into blocks, stores the coefficients, and puts blocks together.

pub mod binio;
pub mod bits;
pub mod compression;
pub mod header;
pub mod laws;
pub mod operations;
pub mod picture;
pub mod utils;
pub mod varint;

pub use header::ColorFormat;
pub use header::CompressionType;
pub use picture::Decoded;
pub use picture::SquishyPicture;
