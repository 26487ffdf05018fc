//! The metadata read from the outer VROMF header.

use vstd::prelude::*;

use crate::vromf::enums::{HeaderType, PackType, PlatformType};

verus! {

/// What the outer header declared: header type, platform, packing, and
/// the version quad an extended header carries (already byte-reversed to
/// `major.minor.patch.build` order).
#[derive(Debug, Clone, Copy, PartialEq, Eq)]
pub struct Metadata {
    pub header_type: Option<HeaderType>,
    pub platform: Option<PlatformType>,
    pub packing: Option<PackType>,
    pub version: Option<(u8, u8, u8, u8)>,
}

impl Default for Metadata {
    /// All fields unset.
    fn default() -> (r: Metadata)
        ensures
            r.header_type is None && r.platform is None && r.packing is None && r.version is None,
    {
        Metadata { header_type: None, platform: None, packing: None, version: None }
    }
}

} // verus!
