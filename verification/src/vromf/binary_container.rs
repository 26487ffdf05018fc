//! The outer VROMF container: a fixed header naming the platform and the
//! packing, optionally an extended header with a version quad, then the
//! packed inner payload, deobfuscated and inflated as the packing asks.

use vstd::prelude::*;

use crate::blk::error::ParseError;
use crate::blk::types::le_u32_at;
use crate::blk::zstd::{decode_zstd_frame, zstd_decoded};
use crate::vromf::de_obfuscation::{deobf_spec, deobfuscate};
use crate::vromf::enums::{spec_pack_type_from_aligned, pack_type_from_aligned, HeaderType, PlatformType};
use crate::vromf::error::VromfError;
use crate::vromf::header::Metadata;

verus! {

/// What decoding the outer container yields: the inner payload and the
/// header metadata, or the exact error. The payload is located by the
/// header type and packing, deobfuscated when the packing is obfuscated,
/// and inflated when it is also compressed.
pub open spec fn outer_spec(b: Seq<u8>) -> Result<(Seq<u8>, Metadata), VromfError> {
    if b.len() < 4 {
        Err(
            VromfError::IndexingFileOutOfBounds {
                current_ptr: 0,
                file_size: b.len() as usize,
                requested_len: 4,
            },
        )
    } else {
        match HeaderType::spec_from_magic(le_u32_at(b, 0)) {
            None => Err(VromfError::InvalidHeaderType { found: le_u32_at(b, 0) }),
            Some(ht) => if b.len() < 8 {
                Err(
                    VromfError::IndexingFileOutOfBounds {
                        current_ptr: 4,
                        file_size: b.len() as usize,
                        requested_len: 4,
                    },
                )
            } else {
                match PlatformType::spec_from_word(le_u32_at(b, 4)) {
                    None => Err(VromfError::InvalidPlatformType { found: le_u32_at(b, 4) }),
                    Some(pl) => if b.len() < 16 {
                        Err(
                            VromfError::IndexingFileOutOfBounds {
                                current_ptr: if b.len() < 12 {
                                    8
                                } else {
                                    12
                                },
                                file_size: b.len() as usize,
                                requested_len: 4,
                            },
                        )
                    } else {
                        let size = le_u32_at(b, 8) as int;
                        match spec_pack_type_from_aligned(le_u32_at(b, 12)) {
                            Err(e) => Err(e),
                            Ok((pt, ext_size)) => outer_payload(
                                b,
                                ht,
                                pl,
                                size,
                                pt,
                                ext_size as int,
                            ),
                        }
                    },
                }
            },
        }
    }
}

/// Locates the inner payload per the header table, then applies the
/// deobfuscation and inflation the packing asks for.
pub open spec fn outer_payload(
    b: Seq<u8>,
    ht: HeaderType,
    pl: PlatformType,
    size: int,
    pt: crate::vromf::enums::PackType,
    ext_size: int,
) -> Result<(Seq<u8>, Metadata), VromfError> {
    if ht.spec_is_extended() {
        if b.len() < 24 {
            Err(
                VromfError::IndexingFileOutOfBounds {
                    current_ptr: 16,
                    file_size: b.len() as usize,
                    requested_len: 8,
                },
            )
        } else {
            let meta = Metadata {
                header_type: Some(ht),
                platform: Some(pl),
                packing: Some(pt),
                version: Some((b[23], b[22], b[21], b[20])),
            };
            if ext_size == 0 {
                finish_payload(b.skip(24), pt, meta)
            } else if 24 + ext_size <= b.len() {
                finish_payload(b.subrange(24, 24 + ext_size), pt, meta)
            } else {
                Err(
                    VromfError::IndexingFileOutOfBounds {
                        current_ptr: 24,
                        file_size: b.len() as usize,
                        requested_len: ext_size as usize,
                    },
                )
            }
        }
    } else {
        let meta = Metadata {
            header_type: Some(ht),
            platform: Some(pl),
            packing: Some(pt),
            version: None,
        };
        let want = if pt.spec_is_compressed() {
            ext_size
        } else {
            size
        };
        if 16 + want <= b.len() {
            finish_payload(b.subrange(16, 16 + want), pt, meta)
        } else {
            Err(
                VromfError::IndexingFileOutOfBounds {
                    current_ptr: 16,
                    file_size: b.len() as usize,
                    requested_len: want as usize,
                },
            )
        }
    }
}

/// Deobfuscates and inflates the located payload as the packing asks.
pub open spec fn finish_payload(
    inner: Seq<u8>,
    pt: crate::vromf::enums::PackType,
    meta: Metadata,
) -> Result<(Seq<u8>, Metadata), VromfError> {
    if !pt.spec_is_obfuscated() {
        Ok((inner, meta))
    } else {
        let de = deobf_spec(inner);
        if pt.spec_is_compressed() {
            match zstd_decoded(de) {
                None => Err(VromfError::BlkParseError(ParseError::ZstdError)),
                Some(d) => Ok((d, meta)),
            }
        } else {
            Ok((de, meta))
        }
    }
}

/// Decodes the outer container into the inner payload and the header
/// metadata.
pub fn decode_bin_vromf(file: &[u8]) -> (r: Result<(Vec<u8>, Metadata), VromfError>)
    ensures
        match outer_spec(file@) {
            Ok(p) => r matches Ok(q) && q.0@ == p.0 && q.1 == p.1,
            Err(e) => r == Err::<(Vec<u8>, Metadata), VromfError>(e),
        },
{
    let n = file.len();
    if n < 4 {
        return Err(
            VromfError::IndexingFileOutOfBounds { current_ptr: 0, file_size: n, requested_len: 4 },
        );
    }
    let magic = crate::blk::types::read_le_u32(file, 0);
    let ht = match HeaderType::from_magic(magic) {
        Ok(t) => t,
        Err(e) => {
            return Err(e);
        },
    };
    if n < 8 {
        return Err(
            VromfError::IndexingFileOutOfBounds { current_ptr: 4, file_size: n, requested_len: 4 },
        );
    }
    let plat_raw = crate::blk::types::read_le_u32(file, 4);
    let pl = match PlatformType::from_word(plat_raw) {
        Ok(t) => t,
        Err(e) => {
            return Err(e);
        },
    };
    if n < 12 {
        return Err(
            VromfError::IndexingFileOutOfBounds { current_ptr: 8, file_size: n, requested_len: 4 },
        );
    }
    if n < 16 {
        return Err(
            VromfError::IndexingFileOutOfBounds {
                current_ptr: 12,
                file_size: n,
                requested_len: 4,
            },
        );
    }
    let size = crate::blk::types::read_le_u32(file, 8) as usize;
    let packed = crate::blk::types::read_le_u32(file, 12);
    let (pt, ext_size32) = match pack_type_from_aligned(packed) {
        Ok(p) => p,
        Err(e) => {
            return Err(e);
        },
    };
    let ext_size = ext_size32 as usize;
    let meta: Metadata;
    let inner: Vec<u8>;
    if ht.is_extended() {
        if n < 24 {
            return Err(
                VromfError::IndexingFileOutOfBounds {
                    current_ptr: 16,
                    file_size: n,
                    requested_len: 8,
                },
            );
        }
        meta = Metadata {
            header_type: Some(ht),
            platform: Some(pl),
            packing: Some(pt),
            version: Some((file[23], file[22], file[21], file[20])),
        };
        if ext_size == 0 {
            let s = &file[24..n];
            proof {
                assert(s@ =~= file@.skip(24));
            }
            inner = slice_to_vec_u8(s);
        } else if ext_size <= n - 24 {
            let s = &file[24..24 + ext_size];
            proof {
                assert(s@ =~= file@.subrange(24, 24 + ext_size as int));
            }
            inner = slice_to_vec_u8(s);
        } else {
            return Err(
                VromfError::IndexingFileOutOfBounds {
                    current_ptr: 24,
                    file_size: n,
                    requested_len: ext_size,
                },
            );
        }
    } else {
        meta = Metadata {
            header_type: Some(ht),
            platform: Some(pl),
            packing: Some(pt),
            version: None,
        };
        let want = if pt.is_compressed() {
            ext_size
        } else {
            size
        };
        if want <= n - 16 {
            let s = &file[16..16 + want];
            proof {
                assert(s@ =~= file@.subrange(16, 16 + want as int));
            }
            inner = slice_to_vec_u8(s);
        } else {
            return Err(
                VromfError::IndexingFileOutOfBounds {
                    current_ptr: 16,
                    file_size: n,
                    requested_len: want,
                },
            );
        }
    }
    if !pt.is_obfuscated() {
        return Ok((inner, meta));
    }
    let mut output = inner;
    deobfuscate(&mut output);
    if pt.is_compressed() {
        match decode_zstd_frame(output.as_slice()) {
            Some(d) => Ok((d, meta)),
            None => Err(VromfError::BlkParseError(ParseError::ZstdError)),
        }
    } else {
        Ok((output, meta))
    }
}

/// Copies a byte slice into an owned vector.
pub fn slice_to_vec_u8(s: &[u8]) -> (r: Vec<u8>)
    ensures
        r@ == s@,
{
    let mut out: Vec<u8> = Vec::new();
    let mut i: usize = 0;
    while i < s.len()
        invariant
            0 <= i <= s@.len(),
            out@ == s@.take(i as int),
        decreases s@.len() - i,
    {
        out.push(s[i]);
        proof {
            assert(s@.take(i as int + 1) =~= s@.take(i as int).push(s@[i as int]));
        }
        i = i + 1;
    }
    proof {
        assert(s@.take(s@.len() as int) =~= s@);
    }
    out
}

} // verus!
