//! Lossless entropy coding of symbol streams: bit packing, symbol
//! histograms, a Golomb-Rice codec with a sign channel, Huffman coding
//! (tree building on a binary heap, code tables, stream encoding and
//! decoding), and the four-neighbour prediction error of an image.

pub mod bits;
pub mod symbol;
pub mod histogram;
pub mod custom_encode;
pub mod golomb;
pub mod huffman;
pub mod code_table;
pub mod merge_queue;
pub mod prediction;
