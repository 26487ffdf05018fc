//! Unpacking one BLK payload: the tag byte decides the dialect and the
//! Zstandard layer; the dictionary-compressed dialect needs the shared
//! dictionary discovered in the enclosing archive.

use vstd::prelude::*;

use crate::blk::error::ParseError;
use crate::blk::file::FileType;
use crate::blk::nm_file::NameMap;
use crate::blk::parser::{parse_blk, parse_blk_spec, NameMapModel};
use crate::blk::structure::{BlkField, FieldModel};
use crate::blk::zstd::{decode_zstd_frame, decode_zstd_with_dict, zstd_decoded, zstd_dict_decoded};

verus! {

/// What unpacking a tagged BLK payload yields: the tag byte is stripped,
/// any Zstandard layer inflated (with the dictionary when the tag demands
/// one, and an extra byte skipped for the compressed fat dialect), and
/// the rest parsed.
pub open spec fn unpack_blk_spec(
    file: Seq<u8>,
    dict: Option<Seq<u8>>,
    nm: Option<NameMapModel>,
) -> Result<FieldModel, ParseError> {
    if file.len() == 0 {
        Err(ParseError::UnknownFileType { found: 0 })
    } else {
        match FileType::spec_from_byte(file[0]) {
            None => Err(ParseError::UnknownFileType { found: file[0] }),
            Some(t) => if t == FileType::SLIM_ZSTD || t == FileType::FAT_ZSTD {
                match zstd_decoded(file.skip(1)) {
                    None => Err(ParseError::ZstdError),
                    Some(d) => {
                        let payload = if t == FileType::FAT_ZSTD {
                            if d.len() > 0 {
                                d.skip(1)
                            } else {
                                Seq::<u8>::empty()
                            }
                        } else {
                            d
                        };
                        parse_blk_spec(payload, t.spec_is_slim(), nm)
                    },
                }
            } else if t == FileType::SLIM_ZSTD_DICT {
                match dict {
                    None => Err(ParseError::MissingDictionary),
                    Some(db) => match zstd_dict_decoded(db, file.skip(1)) {
                        None => Err(ParseError::ZstdError),
                        Some(d) => parse_blk_spec(d, true, nm),
                    },
                }
            } else {
                parse_blk_spec(file.skip(1), t == FileType::SLIM, nm)
            },
        }
    }
}

/// Unpacks one tagged BLK payload into its tree.
pub fn unpack_blk(file: &[u8], dictionary: Option<&Vec<u8>>, nm: Option<&NameMap>) -> (r: Result<
    BlkField,
    ParseError,
>)
    ensures
        ({
            let d = match dictionary {
                Some(v) => Some(v@),
                None => None,
            };
            let nmm = match nm {
                Some(m) => Some(m@),
                None => None,
            };
            match unpack_blk_spec(file@, d, nmm) {
                Ok(m) => r matches Ok(t) && t@ == m,
                Err(e) => r == Err::<BlkField, ParseError>(e),
            }
        }),
{
    let n = file.len();
    if n == 0 {
        return Err(ParseError::UnknownFileType { found: 0 });
    }
    let t = match FileType::from_byte(file[0]) {
        Ok(t) => t,
        Err(e) => {
            return Err(e);
        },
    };
    let body = &file[1..n];
    proof {
        assert(body@ =~= file@.skip(1));
    }
    match t {
        FileType::SLIM_ZSTD | FileType::FAT_ZSTD => {
            let d = match decode_zstd_frame(body) {
                Some(d) => d,
                None => {
                    return Err(ParseError::ZstdError);
                },
            };
            if matches!(t, FileType::FAT_ZSTD) {
                let dn = d.len();
                if dn == 0 {
                    let empty: Vec<u8> = Vec::new();
                    proof {
                        assert(empty@ =~= Seq::<u8>::empty());
                    }
                    parse_blk(empty.as_slice(), false, nm)
                } else {
                    let inner = &d.as_slice()[1..dn];
                    proof {
                        assert(inner@ =~= d@.skip(1));
                    }
                    parse_blk(inner, false, nm)
                }
            } else {
                parse_blk(d.as_slice(), true, nm)
            }
        },
        FileType::SLIM_ZSTD_DICT => {
            let db = match dictionary {
                Some(db) => db,
                None => {
                    return Err(ParseError::MissingDictionary);
                },
            };
            let d = match decode_zstd_with_dict(db.as_slice(), body) {
                Some(d) => d,
                None => {
                    return Err(ParseError::ZstdError);
                },
            };
            parse_blk(d.as_slice(), true, nm)
        },
        FileType::SLIM => parse_blk(body, true, nm),
        _ => parse_blk(body, false, nm),
    }
}

} // verus!
