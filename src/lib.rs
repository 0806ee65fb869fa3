//! A DEFLATE encoder core in the style of Zopfli: a sliding hash index, longest-match
//! search with a per-position cache, an LZ77 token store with chunked cumulative
//! histograms, length-limited Huffman codes, block size estimates and a bit writer.

pub mod types;
pub mod symbols;
pub mod util;
pub mod huffman;
pub mod cache;
pub mod hash;
pub mod lz77;
pub mod block;
pub mod deflate;

pub use types::{Options, LZ77Store, BlockState};
