//! Compression of balanced-ternary streams (values in {-1, 0, +1}).

pub mod trit;
pub mod trit_map;
pub mod rle;
pub mod lzw;
pub mod huffman;
pub mod dictionary;
pub mod entropy;
pub mod tracker;

pub use trit::Trit;
pub use trit_map::{TritMap, trit_frequencies};
pub use lzw::{lzw_compress, lzw_decompress, lzw_decompress_checked};
pub use huffman::{HuffNode, build_huffman_tree, huffman_encode, huffman_decode};
pub use dictionary::{DictToken, DictionaryCompressor};
pub use entropy::{entropy_encode, entropy_decode};
pub use rle::{RleEntry, rle_compress, rle_decompress};
pub use tracker::CompressionTracker;
