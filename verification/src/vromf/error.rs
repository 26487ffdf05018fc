//! Errors raised while decoding a VROMF archive.

use vstd::prelude::*;

use crate::blk::error::ParseError;

verus! {

/// Errors raised by the VROMF container decoders and the unpacker.
#[derive(Debug, Clone, PartialEq, Eq)]
pub enum VromfError {
    /// The leading magic word names no known header type.
    InvalidHeaderType { found: u32 },
    /// The platform word names no known platform.
    InvalidPlatformType { found: u32 },
    /// The packing bits name no known packing configuration.
    InvalidPackingConfiguration { found: u8 },
    /// A read of `requested_len` bytes at `current_ptr` fell outside a
    /// buffer of `file_size` bytes.
    IndexingFileOutOfBounds { current_ptr: usize, file_size: usize, requested_len: usize },
    /// An inner file path was not valid UTF-8.
    Utf8,
    /// A slim BLK member needed the shared name map, which the archive
    /// does not carry.
    MissingNm { file_name: String },
    /// A dictionary-compressed BLK member needed the shared dictionary,
    /// which the archive does not carry.
    MissingDict { file_name: String },
    /// A BLK member failed to decode.
    BlkParseError(ParseError),
    /// The named file is not in the archive.
    FileNotInVromf { path_name: String },
}

} // verus!
