//! The primitive typed values a BLK parameter can hold, and their decoder.
//!
//! A parameter record carries a one-byte type tag and four payload bytes.
//! Small values sit in the payload itself; larger ones store a little-endian
//! offset into the params blob (or, for strings in the slim dialect, into
//! the shared name map's binary region). Float values are kept as their
//! IEEE-754 bit patterns; no float arithmetic is done anywhere.

use vstd::prelude::*;
use vstd::utf8::{decode_utf8, encode_utf8, valid_utf8};

use crate::strutil::bytes_to_string;

verus! {

/// A typed BLK value. Float payloads hold IEEE-754 single-precision bits.
#[derive(Debug, PartialEq)]
pub enum BlkType {
    Str(String),
    Int(i32),
    Float(u32),
    Float2(Vec<u32>),
    Float3(Vec<u32>),
    Float4(Vec<u32>),
    Int2(Vec<i32>),
    Int3(Vec<i32>),
    Bool(bool),
    Color { r: u8, g: u8, b: u8, a: u8 },
    Float12(Vec<u32>),
    Long(i64),
}

/// The mathematical shape of a `BlkType` value.
#[verifier::ext_equal]
pub enum TypeModel {
    Str(Seq<char>),
    Int(i32),
    Float(u32),
    Float2(Seq<u32>),
    Float3(Seq<u32>),
    Float4(Seq<u32>),
    Int2(Seq<i32>),
    Int3(Seq<i32>),
    Bool(bool),
    Color { r: u8, g: u8, b: u8, a: u8 },
    Float12(Seq<u32>),
    Long(i64),
}

impl View for BlkType {
    type V = TypeModel;

    open spec fn view(&self) -> TypeModel {
        match self {
            BlkType::Str(s) => TypeModel::Str(s@),
            BlkType::Int(v) => TypeModel::Int(*v),
            BlkType::Float(v) => TypeModel::Float(*v),
            BlkType::Float2(v) => TypeModel::Float2(v@),
            BlkType::Float3(v) => TypeModel::Float3(v@),
            BlkType::Float4(v) => TypeModel::Float4(v@),
            BlkType::Int2(v) => TypeModel::Int2(v@),
            BlkType::Int3(v) => TypeModel::Int3(v@),
            BlkType::Bool(v) => TypeModel::Bool(*v),
            BlkType::Color { r, g, b, a } => TypeModel::Color { r: *r, g: *g, b: *b, a: *a },
            BlkType::Float12(v) => TypeModel::Float12(v@),
            BlkType::Long(v) => TypeModel::Long(*v),
        }
    }
}

/// The little-endian 32-bit word at `i`.
pub open spec fn le_u32_at(b: Seq<u8>, i: int) -> u32 {
    (b[i] + 0x100 * b[i + 1] + 0x10000 * b[i + 2] + 0x1000000 * b[i + 3]) as u32
}

/// The little-endian 64-bit word at `i`.
pub open spec fn le_u64_at(b: Seq<u8>, i: int) -> u64 {
    (le_u32_at(b, i) + 0x1_0000_0000 * le_u32_at(b, i + 4)) as u64
}

/// Reads the little-endian 32-bit word at `i`.
pub fn read_le_u32(b: &[u8], i: usize) -> (r: u32)
    requires
        i + 4 <= b@.len(),
    ensures
        r == le_u32_at(b@, i as int),
{
    (b[i] as u32) + 0x100 * (b[i + 1] as u32) + 0x10000 * (b[i + 2] as u32) + 0x1000000 * (b[i + 3]
        as u32)
}

/// Reads the little-endian 64-bit word at `i`.
pub fn read_le_u64(b: &[u8], i: usize) -> (r: u64)
    requires
        i + 8 <= b@.len(),
    ensures
        r == le_u64_at(b@, i as int),
{
    let n = b.len();
    let lo = read_le_u32(b, i) as u64;
    let hi = read_le_u32(b, i + 4) as u64;
    proof {
        assert(0x1_0000_0000u64 * hi <= 0xFFFF_FFFF_0000_0000u64) by (nonlinear_arith)
            requires
                hi <= 0xFFFF_FFFFu64,
        ;
    }
    lo + 0x1_0000_0000 * hi
}

/// Index of the first NUL byte at or after `from`, when one exists.
pub open spec fn find_nul(b: Seq<u8>, from: int) -> Option<int>
    decreases b.len() - from,
{
    if from < 0 || from >= b.len() {
        None
    } else if b[from] == 0 {
        Some(from)
    } else {
        find_nul(b, from + 1)
    }
}

/// The bytes of the NUL-terminated string at `from`, when one exists.
pub open spec fn cstr_at(b: Seq<u8>, from: int) -> Option<Seq<u8>> {
    match find_nul(b, from) {
        Some(end) => Some(b.subrange(from, end)),
        None => None,
    }
}

/// Finds the first NUL byte at or after `from`.
pub fn scan_nul(b: &[u8], from: usize) -> (r: Option<usize>)
    ensures
        match r {
            Some(end) => find_nul(b@, from as int) == Some(end as int),
            None => find_nul(b@, from as int) is None,
        },
{
    let mut i: usize = from;
    if from > b.len() {
        return None;
    }
    while i < b.len()
        invariant
            from <= i <= b@.len(),
            find_nul(b@, from as int) == find_nul(b@, i as int),
        decreases b@.len() - i,
    {
        if b[i] == 0 {
            return Some(i);
        }
        i = i + 1;
    }
    None
}

/// The sequence of `count` little-endian 32-bit words starting at `off`.
pub open spec fn le_u32_seq(b: Seq<u8>, off: int, count: int) -> Seq<u32> {
    Seq::new(count as nat, |k: int| le_u32_at(b, off + 4 * k))
}

/// Reads `count` little-endian 32-bit words starting at `off`.
pub fn read_le_u32_vec(b: &[u8], off: usize, count: usize) -> (r: Vec<u32>)
    requires
        off + 4 * count <= b@.len(),
    ensures
        r@ == le_u32_seq(b@, off as int, count as int),
{
    let n = b.len();
    let mut out: Vec<u32> = Vec::new();
    let mut k: usize = 0;
    while k < count
        invariant
            0 <= k <= count,
            off + 4 * count <= n,
            n == b@.len(),
            out@ == le_u32_seq(b@, off as int, k as int),
        decreases count - k,
    {
        out.push(read_le_u32(b, off + 4 * k));
        proof {
            assert(out@ =~= le_u32_seq(b@, off as int, k as int + 1));
        }
        k = k + 1;
    }
    out
}

/// The same words reinterpreted as signed 32-bit values.
pub open spec fn le_i32_seq(b: Seq<u8>, off: int, count: int) -> Seq<i32> {
    Seq::new(count as nat, |k: int| le_u32_at(b, off + 4 * k) as i32)
}

/// Reads `count` little-endian signed 32-bit words starting at `off`.
pub fn read_le_i32_vec(b: &[u8], off: usize, count: usize) -> (r: Vec<i32>)
    requires
        off + 4 * count <= b@.len(),
    ensures
        r@ == le_i32_seq(b@, off as int, count as int),
{
    let n = b.len();
    let mut out: Vec<i32> = Vec::new();
    let mut k: usize = 0;
    while k < count
        invariant
            0 <= k <= count,
            off + 4 * count <= n,
            n == b@.len(),
            out@ == le_i32_seq(b@, off as int, k as int),
        decreases count - k,
    {
        out.push(read_le_u32(b, off + 4 * k) as i32);
        proof {
            assert(out@ =~= le_i32_seq(b@, off as int, k as int + 1));
        }
        k = k + 1;
    }
    out
}

/// What decoding a parameter record yields: the typed value per the tag
/// table, or nothing when the tag is unknown, an out-of-line payload falls
/// outside the blob, or a string is unterminated or not UTF-8.
pub open spec fn decode_value(tag: u8, d: Seq<u8>, buf: Seq<u8>) -> Option<TypeModel> {
    let off = le_u32_at(d, 0) as int;
    if tag == 0x01 {
        match cstr_at(buf, off) {
            Some(bytes) => if valid_utf8(bytes) {
                Some(TypeModel::Str(decode_utf8(bytes)))
            } else {
                None
            },
            None => None,
        }
    } else if tag == 0x02 {
        Some(TypeModel::Int(le_u32_at(d, 0) as i32))
    } else if tag == 0x03 {
        Some(TypeModel::Float(le_u32_at(d, 0)))
    } else if tag == 0x04 {
        if off + 8 <= buf.len() {
            Some(TypeModel::Float2(le_u32_seq(buf, off, 2)))
        } else {
            None
        }
    } else if tag == 0x05 {
        if off + 12 <= buf.len() {
            Some(TypeModel::Float3(le_u32_seq(buf, off, 3)))
        } else {
            None
        }
    } else if tag == 0x06 {
        if off + 16 <= buf.len() {
            Some(TypeModel::Float4(le_u32_seq(buf, off, 4)))
        } else {
            None
        }
    } else if tag == 0x07 {
        if off + 8 <= buf.len() {
            Some(TypeModel::Int2(le_i32_seq(buf, off, 2)))
        } else {
            None
        }
    } else if tag == 0x08 {
        if off + 12 <= buf.len() {
            Some(TypeModel::Int3(le_i32_seq(buf, off, 3)))
        } else {
            None
        }
    } else if tag == 0x09 {
        Some(TypeModel::Bool(le_u32_at(d, 0) != 0))
    } else if tag == 0x0a {
        Some(TypeModel::Color { r: d[0], g: d[1], b: d[2], a: d[3] })
    } else if tag == 0x0b {
        if off + 48 <= buf.len() {
            Some(TypeModel::Float12(le_u32_seq(buf, off, 12)))
        } else {
            None
        }
    } else if tag == 0x0c {
        if off + 8 <= buf.len() {
            Some(TypeModel::Long(le_u64_at(buf, off) as i64))
        } else {
            None
        }
    } else {
        None
    }
}

impl BlkType {
    /// Decodes one parameter record: tag, four payload bytes, and the blob
    /// that out-of-line payloads index into.
    pub fn from_raw_param_info(type_id: u8, data: &[u8], buffer: &[u8]) -> (r: Option<BlkType>)
        requires
            data@.len() == 4,
        ensures
            r is Some <==> decode_value(type_id, data@, buffer@) is Some,
            r matches Some(v) ==> decode_value(type_id, data@, buffer@) == Some(v@),
    {
        let off32 = read_le_u32(data, 0);
        let off = off32 as usize;
        if type_id == 0x01 {
            match scan_nul(buffer, off) {
                Some(end) => {
                    proof {
                        lemma_find_nul_bounds(buffer@, off as int);
                    }
                    let bytes = &buffer[off..end];
                    match bytes_to_string(bytes) {
                        Some(s) => {
                            proof {
                                vstd::utf8::encode_utf8_decode_utf8(s@);
                            }
                            Some(BlkType::Str(s))
                        },
                        None => None,
                    }
                },
                None => None,
            }
        } else if type_id == 0x02 {
            Some(BlkType::Int(off32 as i32))
        } else if type_id == 0x03 {
            Some(BlkType::Float(off32))
        } else if type_id == 0x04 {
            if off <= buffer.len() && buffer.len() - off >= 8 {
                Some(BlkType::Float2(read_le_u32_vec(buffer, off, 2)))
            } else {
                None
            }
        } else if type_id == 0x05 {
            if off <= buffer.len() && buffer.len() - off >= 12 {
                Some(BlkType::Float3(read_le_u32_vec(buffer, off, 3)))
            } else {
                None
            }
        } else if type_id == 0x06 {
            if off <= buffer.len() && buffer.len() - off >= 16 {
                Some(BlkType::Float4(read_le_u32_vec(buffer, off, 4)))
            } else {
                None
            }
        } else if type_id == 0x07 {
            if off <= buffer.len() && buffer.len() - off >= 8 {
                Some(BlkType::Int2(read_le_i32_vec(buffer, off, 2)))
            } else {
                None
            }
        } else if type_id == 0x08 {
            if off <= buffer.len() && buffer.len() - off >= 12 {
                Some(BlkType::Int3(read_le_i32_vec(buffer, off, 3)))
            } else {
                None
            }
        } else if type_id == 0x09 {
            Some(BlkType::Bool(off32 != 0))
        } else if type_id == 0x0a {
            Some(BlkType::Color { r: data[0], g: data[1], b: data[2], a: data[3] })
        } else if type_id == 0x0b {
            if off <= buffer.len() && buffer.len() - off >= 48 {
                Some(BlkType::Float12(read_le_u32_vec(buffer, off, 12)))
            } else {
                None
            }
        } else if type_id == 0x0c {
            if off <= buffer.len() && buffer.len() - off >= 8 {
                Some(BlkType::Long(read_le_u64(buffer, off) as i64))
            } else {
                None
            }
        } else {
            None
        }
    }

    /// The rough in-memory footprint the size estimator charges per value.
    pub open spec fn spec_size_bytes(m: TypeModel) -> nat {
        match m {
            TypeModel::Str(s) => encode_utf8(s).len(),
            TypeModel::Int(_) => 4,
            TypeModel::Float(_) => 4,
            TypeModel::Float2(_) => 8,
            TypeModel::Float3(_) => 12,
            TypeModel::Float4(_) => 16,
            TypeModel::Int2(_) => 8,
            TypeModel::Int3(_) => 12,
            TypeModel::Bool(_) => 4,
            TypeModel::Color { .. } => 4,
            TypeModel::Float12(_) => 48,
            TypeModel::Long(_) => 8,
        }
    }

    /// Byte size charged for this value by `estimate_size`.
    pub fn size_bytes(&self) -> (r: usize)
        ensures
            r == Self::spec_size_bytes(self@) || (Self::spec_size_bytes(self@) > usize::MAX && r
                == usize::MAX),
    {
        match self {
            BlkType::Str(s) => s.as_str().as_bytes().len(),
            BlkType::Int(_) => 4,
            BlkType::Float(_) => 4,
            BlkType::Float2(_) => 8,
            BlkType::Float3(_) => 12,
            BlkType::Float4(_) => 16,
            BlkType::Int2(_) => 8,
            BlkType::Int3(_) => 12,
            BlkType::Bool(_) => 4,
            BlkType::Color { .. } => 4,
            BlkType::Float12(_) => 48,
            BlkType::Long(_) => 8,
        }
    }
}

/// A found NUL lies at or after the scan start.
pub proof fn lemma_find_nul_bounds(b: Seq<u8>, from: int)
    requires
        find_nul(b, from) is Some,
    ensures
        from <= find_nul(b, from).unwrap() < b.len(),
        b[find_nul(b, from).unwrap()] == 0,
    decreases b.len() - from,
{
    if 0 <= from < b.len() && b[from] != 0 {
        lemma_find_nul_bounds(b, from + 1);
    }
}

} // verus!
