//! Decoder library for the VROMF game-asset archive container and the BLK
//! hierarchical binary configuration format stored inside it.
//!
//! The crate is organised leaves-first: `blk` holds the ULEB128 reader, the
//! typed-value decoder, the structural parser and the tree model with its
//! plaintext and JSON emitters; `vromf` holds the outer and inner container
//! decoders and the unpacker that drives a whole archive through them.

pub mod blk;
pub mod strutil;
pub mod vromf;
