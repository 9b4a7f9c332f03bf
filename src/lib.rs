//! A small decompression library: a DEFLATE decoder and two container
//! readers (PNG images and ZIP archives) built on top of it.
use vstd::prelude::*;

pub mod bits;
pub mod huffman;
pub mod inflate;
pub mod png_read;
pub mod zip_read;

verus! {

/// Errors reported by the DEFLATE decoder.
#[derive(Debug, PartialEq, Eq, Structural, Clone, Copy)]
pub enum Error {
    Underflow,
    Overflow,
    InvalidHeader,
    InvalidBitstream,
    InvalidBlockType,
    InvalidBlockLength,
    InvalidCodeLength,
    InvalidDistance,
    InvalidLength,
    InvalidSymbol,
    InvalidData,
    UnderSubscribedTree,
    OverSubscribedTree,
}

} // verus!
