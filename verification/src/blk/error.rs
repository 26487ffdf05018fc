//! Errors raised while decoding a BLK payload.

use vstd::prelude::*;

verus! {

/// Why a ULEB128 read failed.
#[derive(Debug, Clone, Copy, PartialEq, Eq)]
pub enum UlebError {
    /// The slice ended before a byte with its high bit clear was seen.
    Truncated,
    /// The accumulated value would exceed the platform's unsigned word.
    Overflow,
}

/// Errors raised by the BLK decoders.
#[derive(Debug, Clone, Copy, PartialEq, Eq)]
pub enum ParseError {
    /// A ULEB128 field could not be read.
    BadUleb(UlebError),
    /// A read of `len` bytes at `start` fell outside the buffer.
    OutOfBounds { start: usize, len: usize },
    /// A name or string value was not valid UTF-8.
    BadUtf8,
    /// A parameter record could not be decoded into a typed value.
    BadBlkValue,
    /// A parameter or block record referenced a name index outside the
    /// name table.
    BadNameId,
    /// The block table was empty; a root block must exist.
    EmptyBlockTable,
    /// The block table's parameter counts or child ranges do not describe
    /// a well-formed tree over the parameter records.
    MalformedBlockTable,
    /// A Zstandard frame failed to decompress.
    ZstdError,
    /// A slim BLK was decoded without a shared name map.
    MissingNameMap,
    /// A dictionary-compressed BLK was decoded without a dictionary.
    MissingDictionary,
    /// The leading file-type tag byte is not one a BLK payload can carry.
    UnknownFileType { found: u8 },
    /// A `Merged` node was handed to the plaintext emitter, which has no
    /// form for it.
    MergedInPlaintext,
}

} // verus!
