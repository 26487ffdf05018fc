//! The one-byte file-type tag that leads every BLK payload: it encodes
//! the dialect (fat or slim) and whether a Zstandard layer follows.

use vstd::prelude::*;

use crate::blk::error::ParseError;

verus! {

/// The dialect and compression of a BLK payload.
#[allow(non_camel_case_types)]
#[derive(Debug, Clone, Copy, PartialEq, Eq)]
pub enum FileType {
    /// Fat dialect, uncompressed.
    FAT,
    /// Fat dialect inside a Zstandard frame, with one extra leading byte
    /// after decompression.
    FAT_ZSTD,
    /// Slim dialect, uncompressed.
    SLIM,
    /// Slim dialect inside a Zstandard frame.
    SLIM_ZSTD,
    /// Slim dialect inside a dictionary-compressed Zstandard frame.
    SLIM_ZSTD_DICT,
}

impl FileType {
    /// The tag each byte denotes, when any.
    pub open spec fn spec_from_byte(b: u8) -> Option<FileType> {
        if b == 0x01 {
            Some(FileType::FAT)
        } else if b == 0x02 {
            Some(FileType::SLIM)
        } else if b == 0x03 {
            Some(FileType::SLIM_ZSTD)
        } else if b == 0x04 {
            Some(FileType::SLIM_ZSTD_DICT)
        } else if b == 0x05 {
            Some(FileType::FAT_ZSTD)
        } else {
            None
        }
    }

    /// Decodes the tag byte.
    pub fn from_byte(b: u8) -> (r: Result<FileType, ParseError>)
        ensures
            match Self::spec_from_byte(b) {
                Some(t) => r == Ok::<FileType, ParseError>(t),
                None => r == Err::<FileType, ParseError>(ParseError::UnknownFileType { found: b }),
            },
    {
        if b == 0x01 {
            Ok(FileType::FAT)
        } else if b == 0x02 {
            Ok(FileType::SLIM)
        } else if b == 0x03 {
            Ok(FileType::SLIM_ZSTD)
        } else if b == 0x04 {
            Ok(FileType::SLIM_ZSTD_DICT)
        } else if b == 0x05 {
            Ok(FileType::FAT_ZSTD)
        } else {
            Err(ParseError::UnknownFileType { found: b })
        }
    }

    /// Whether the payload is in the slim dialect.
    pub open spec fn spec_is_slim(self) -> bool {
        self == FileType::SLIM || self == FileType::SLIM_ZSTD || self == FileType::SLIM_ZSTD_DICT
    }

    /// Whether a Zstandard layer wraps the payload.
    pub open spec fn spec_is_zstd(self) -> bool {
        self == FileType::SLIM_ZSTD || self == FileType::SLIM_ZSTD_DICT || self
            == FileType::FAT_ZSTD
    }

    /// Whether the payload is in the slim dialect.
    pub fn is_slim(&self) -> (r: bool)
        ensures
            r == self.spec_is_slim(),
    {
        match self {
            FileType::SLIM => true,
            FileType::SLIM_ZSTD => true,
            FileType::SLIM_ZSTD_DICT => true,
            _ => false,
        }
    }

    /// Whether a Zstandard layer wraps the payload.
    pub fn is_zstd(&self) -> (r: bool)
        ensures
            r == self.spec_is_zstd(),
    {
        match self {
            FileType::SLIM_ZSTD => true,
            FileType::SLIM_ZSTD_DICT => true,
            FileType::FAT_ZSTD => true,
            _ => false,
        }
    }
}

} // verus!
