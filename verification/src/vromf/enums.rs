//! The discriminants of the outer VROMF header: header type, platform,
//! and the packing configuration packed beside the extended-header size.

use vstd::prelude::*;

use crate::vromf::error::VromfError;

verus! {

/// Whether the archive carries the simple or the extended header.
#[derive(Debug, Clone, Copy, PartialEq, Eq)]
pub enum HeaderType {
    /// The simple header, magic `VRFs`.
    VRFS,
    /// The extended header, magic `VRFx`, carrying a version quad.
    VRFX,
}

impl HeaderType {
    /// The header type a magic word denotes, when any.
    pub open spec fn spec_from_magic(w: u32) -> Option<HeaderType> {
        if w == 0x73465256 {
            Some(HeaderType::VRFS)
        } else if w == 0x78465256 {
            Some(HeaderType::VRFX)
        } else {
            None
        }
    }

    /// Decodes the magic word.
    pub fn from_magic(w: u32) -> (r: Result<HeaderType, VromfError>)
        ensures
            match Self::spec_from_magic(w) {
                Some(t) => r == Ok::<HeaderType, VromfError>(t),
                None => r == Err::<HeaderType, VromfError>(
                    VromfError::InvalidHeaderType { found: w },
                ),
            },
    {
        if w == 0x73465256 {
            Ok(HeaderType::VRFS)
        } else if w == 0x78465256 {
            Ok(HeaderType::VRFX)
        } else {
            Err(VromfError::InvalidHeaderType { found: w })
        }
    }

    /// Whether this is the extended header.
    pub open spec fn spec_is_extended(self) -> bool {
        self == HeaderType::VRFX
    }

    /// Whether this is the extended header.
    pub fn is_extended(&self) -> (r: bool)
        ensures
            r == self.spec_is_extended(),
    {
        match self {
            HeaderType::VRFX => true,
            HeaderType::VRFS => false,
        }
    }
}

/// The platform the archive was built for; opaque to decoding.
#[derive(Debug, Clone, Copy, PartialEq, Eq)]
pub enum PlatformType {
    Pc,
    Ios,
    Android,
}

impl PlatformType {
    /// The platform a word denotes, when any.
    pub open spec fn spec_from_word(w: u32) -> Option<PlatformType> {
        if w == 0x43500000 {
            Some(PlatformType::Pc)
        } else if w == 0x534f6900 {
            Some(PlatformType::Ios)
        } else if w == 0x646e6100 {
            Some(PlatformType::Android)
        } else {
            None
        }
    }

    /// Decodes the platform word.
    pub fn from_word(w: u32) -> (r: Result<PlatformType, VromfError>)
        ensures
            match Self::spec_from_word(w) {
                Some(t) => r == Ok::<PlatformType, VromfError>(t),
                None => r == Err::<PlatformType, VromfError>(
                    VromfError::InvalidPlatformType { found: w },
                ),
            },
    {
        if w == 0x43500000 {
            Ok(PlatformType::Pc)
        } else if w == 0x534f6900 {
            Ok(PlatformType::Ios)
        } else if w == 0x646e6100 {
            Ok(PlatformType::Android)
        } else {
            Err(VromfError::InvalidPlatformType { found: w })
        }
    }
}

/// How the inner payload is packed.
#[derive(Debug, Clone, Copy, PartialEq, Eq)]
pub enum PackType {
    /// Zstandard-compressed only.
    ZSTD,
    /// Obfuscated only.
    Obfuscated,
    /// Obfuscated, then Zstandard-compressed.
    ObfuscatedAndZSTD,
    /// Neither.
    Plain,
}

impl PackType {
    /// The packing a six-bit tag denotes, when any.
    pub open spec fn spec_from_bits(b: u8) -> Option<PackType> {
        if b == 0x10 {
            Some(PackType::ZSTD)
        } else if b == 0x20 {
            Some(PackType::Obfuscated)
        } else if b == 0x30 {
            Some(PackType::ObfuscatedAndZSTD)
        } else if b == 0x00 {
            Some(PackType::Plain)
        } else {
            None
        }
    }

    /// Whether the payload passed through Zstandard.
    pub open spec fn spec_is_compressed(self) -> bool {
        self == PackType::ZSTD || self == PackType::ObfuscatedAndZSTD
    }

    /// Whether the payload is obfuscated.
    pub open spec fn spec_is_obfuscated(self) -> bool {
        self == PackType::Obfuscated || self == PackType::ObfuscatedAndZSTD
    }

    /// Whether the payload passed through Zstandard.
    pub fn is_compressed(&self) -> (r: bool)
        ensures
            r == self.spec_is_compressed(),
    {
        match self {
            PackType::ZSTD => true,
            PackType::ObfuscatedAndZSTD => true,
            _ => false,
        }
    }

    /// Whether the payload is obfuscated.
    pub fn is_obfuscated(&self) -> (r: bool)
        ensures
            r == self.spec_is_obfuscated(),
    {
        match self {
            PackType::Obfuscated => true,
            PackType::ObfuscatedAndZSTD => true,
            _ => false,
        }
    }
}

/// What the packed word at offset twelve holds: the packing tag in its
/// low six bits and the extended-header payload size above them.
pub open spec fn spec_pack_type_from_aligned(w: u32) -> Result<(PackType, u32), VromfError> {
    match PackType::spec_from_bits((w % 64) as u8) {
        Some(t) => Ok((t, w / 64)),
        None => Err(VromfError::InvalidPackingConfiguration { found: (w % 64) as u8 }),
    }
}

/// Splits the packed word into the packing tag and the payload size.
pub fn pack_type_from_aligned(w: u32) -> (r: Result<(PackType, u32), VromfError>)
    ensures
        r == spec_pack_type_from_aligned(w),
{
    let bits = (w % 64) as u8;
    let size = w / 64;
    if bits == 0x10 {
        Ok((PackType::ZSTD, size))
    } else if bits == 0x20 {
        Ok((PackType::Obfuscated, size))
    } else if bits == 0x30 {
        Ok((PackType::ObfuscatedAndZSTD, size))
    } else if bits == 0x00 {
        Ok((PackType::Plain, size))
    } else {
        Err(VromfError::InvalidPackingConfiguration { found: bits })
    }
}

} // verus!
