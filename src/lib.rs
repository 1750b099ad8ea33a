//! A DEFLATE encoder and decoder with a minimal single-entry ZIP container,
//! each part stated against a mathematical model of the bit stream.

pub mod helpers;
pub mod bitio;
pub mod tables;
pub mod lz77;
pub mod deflate;
pub mod huffman;
pub mod inflate;
pub mod roundtrip;
pub mod records;
pub mod zipfile;
