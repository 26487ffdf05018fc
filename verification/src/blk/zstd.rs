//! Zstandard decompression, through the `ruzstd` decoder.
//!
//! Decompression is deterministic: what a frame (with or without a
//! dictionary) decodes to is a function of the bytes alone, so the results
//! are named and every contract downstream speaks of those names.

use vstd::prelude::*;

verus! {

/// What a stand-alone Zstandard frame decompresses to, or nothing when the
/// frame is malformed.
pub uninterp spec fn zstd_decoded(frame: Seq<u8>) -> Option<Seq<u8>>;

/// What a Zstandard frame decompresses to under a raw dictionary, or
/// nothing when the frame or the dictionary is malformed.
pub uninterp spec fn zstd_dict_decoded(dict: Seq<u8>, frame: Seq<u8>) -> Option<Seq<u8>>;

/// Relies on ruzstd's `StreamingDecoder`: decoding a single Zstandard
/// frame, a pure function of the frame bytes.
#[verifier::external_body]
pub fn decode_zstd_frame(b: &[u8]) -> (r: Option<Vec<u8>>)
    ensures
        r is Some <==> zstd_decoded(b@) is Some,
        r matches Some(v) ==> zstd_decoded(b@) == Some(v@),
{
    let mut src = b;
    let mut dec = ruzstd::decoding::StreamingDecoder::new(&mut src).ok()?;
    let mut out = Vec::new();
    std::io::Read::read_to_end(&mut dec, &mut out).ok()?;
    Some(out)
}

/// Relies on ruzstd's `Dictionary::decode_dict`, `FrameDecoder::add_dict`
/// and `StreamingDecoder`: dictionary decompression, a pure function of
/// the dictionary and frame bytes.
#[verifier::external_body]
pub fn decode_zstd_with_dict(dict: &[u8], b: &[u8]) -> (r: Option<Vec<u8>>)
    ensures
        r is Some <==> zstd_dict_decoded(dict@, b@) is Some,
        r matches Some(v) ==> zstd_dict_decoded(dict@, b@) == Some(v@),
{
    let d = ruzstd::decoding::Dictionary::decode_dict(dict).ok()?;
    let mut fd = ruzstd::decoding::FrameDecoder::new();
    fd.add_dict(d).ok()?;
    let mut src = b;
    let mut dec = ruzstd::decoding::StreamingDecoder::new_with_decoder(&mut src, &mut fd).ok()?;
    let mut out = Vec::new();
    std::io::Read::read_to_end(&mut dec, &mut out).ok()?;
    Some(out)
}

} // verus!
