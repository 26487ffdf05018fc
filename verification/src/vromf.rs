//! The VROMF archive container: an outer header with obfuscation and
//! optional Zstandard compression around an inner directory of named files.

pub mod binary_container;
pub mod de_obfuscation;
pub mod enums;
pub mod error;
pub mod header;
pub mod inner_container;
pub mod unpacker;
