//! The BLK binary format: a tagged tree of named values, stored as a packed
//! parameter table plus a flat block-hierarchy table.

pub mod error;
pub mod file;
pub mod hierarchy;
pub mod json;
pub mod leb128;
pub mod merge;
pub mod nm_file;
pub mod overrides;
pub mod parser;
pub mod structure;
pub mod text;
pub mod types;
pub mod unpack;
pub mod util;
pub mod zstd;
