//! Lossless entropy-coding codecs — Huffman, Shannon-Fano and arithmetic
//! coding — built on a bit-level packing container, with machine-checked
//! contracts for the bit packing, the code-table constructions and the
//! encode/decode round trips.

pub mod arithmetic;
pub mod bitvec;
pub mod compress;
pub mod huffman;
pub mod shannon;
pub mod utils;
