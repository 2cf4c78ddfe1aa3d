//! A lossless text compressor built on a frequency-driven binary prefix code
//! (Huffman coding): symbol counting, tree construction, code resolution,
//! bit packing and decoding, each with a verified contract.

pub mod node;
pub mod tree;
pub mod frequency;
pub mod codec;
pub mod bits;
pub mod pipeline;
