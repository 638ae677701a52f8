//! Huffman coding of byte sequences into a self-describing container.
//!
//! The container carries the code tree in front of the encoded payload, so
//! that decompression needs nothing but the container itself.

pub mod bits;
pub mod builder;
pub mod codebook;
pub mod codec;
pub mod container;
pub mod counts;
pub mod error;
pub mod forest;
pub mod laws;
pub mod payload;
pub mod tree;

pub use crate::container::{checked_compress, checked_decompress, compress, decompress};
pub use crate::error::HuffmanError;
pub use crate::tree::HuffmanTree;
