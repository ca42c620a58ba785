//! Decoder for a subset of the PNG image format: chunk framing with CRC-32
//! validation, header interpretation, zlib inflation of the image data,
//! scanline reconstruction (defiltering), and pixel decoding into a
//! row-major grid of RGB colors.

pub mod crc;
pub mod decoder;
pub mod error;
pub mod image;
pub mod inflate;
pub mod parser;
pub mod recon;
