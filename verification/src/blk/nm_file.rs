//! The shared name map: the decompressed `nm` archive member, holding the
//! raw NUL-separated name bytes and the parsed name list.

use vstd::prelude::*;
use vstd::utf8::{decode_utf8, valid_utf8};

use crate::blk::error::ParseError;
use crate::blk::leb128::{uleb128, uleb_spec};
use crate::blk::types::find_nul;
use crate::blk::zstd::{decode_zstd_frame, zstd_decoded};
use crate::strutil::bytes_to_string;

verus! {

/// The shared string table many slim BLK files reference: the raw name
/// section bytes, and the names split out of them.
#[derive(Debug, Clone)]
pub struct NameMap {
    pub binary: Vec<u8>,
    pub parsed: Vec<String>,
}

/// The NUL-terminated pieces of a name section, in order. Trailing bytes
/// with no terminator are dropped.
pub open spec fn name_pieces(b: Seq<u8>) -> Seq<Seq<u8>>
    decreases b.len(),
    via name_pieces_decreases
{
    match find_nul(b, 0) {
        Some(end) => seq![b.take(end)] + name_pieces(b.skip(end + 1)),
        None => Seq::<Seq<u8>>::empty(),
    }
}

#[via_fn]
proof fn name_pieces_decreases(b: Seq<u8>) {
    match find_nul(b, 0) {
        Some(end) => {
            crate::blk::types::lemma_find_nul_bounds(b, 0);
        },
        None => {
        },
    }
}

/// Every piece is valid UTF-8.
pub open spec fn pieces_valid(ps: Seq<Seq<u8>>) -> bool {
    forall|i: int| 0 <= i < ps.len() ==> valid_utf8(#[trigger] ps[i])
}

/// Scanning for a NUL from `from` in `b` is scanning from the start of
/// `b.skip(from)`.
proof fn lemma_find_nul_shift(b: Seq<u8>, from: int)
    requires
        0 <= from <= b.len(),
    ensures
        match find_nul(b, from) {
            Some(end) => find_nul(b.skip(from), 0) == Some(end - from),
            None => find_nul(b.skip(from), 0) is None,
        },
    decreases b.len() - from,
{
    if from < b.len() {
        if b[from] == 0 {
            assert(b.skip(from)[0] == b[from]);
        } else {
            lemma_find_nul_shift(b, from + 1);
            assert(b.skip(from)[0] == b[from]);
            assert(b.skip(from + 1) =~= b.skip(from).skip(1));
            match find_nul(b.skip(from), 1) {
                Some(e) => {
                    lemma_find_nul_shift(b.skip(from), 1);
                },
                None => {
                    lemma_find_nul_shift(b.skip(from), 1);
                },
            }
        }
    }
}

/// Splits a name section into its NUL-terminated names, decoded as UTF-8.
/// Fails when a name is not valid UTF-8.
pub fn parse_name_section(file: &[u8]) -> (r: Result<Vec<String>, ParseError>)
    ensures
        r is Ok <==> pieces_valid(name_pieces(file@)),
        r matches Ok(v) ==> v@.len() == name_pieces(file@).len() && (forall|i: int|
            0 <= i < v@.len() ==> (#[trigger] v@[i])@ == decode_utf8(name_pieces(file@)[i])),
        r is Err ==> r == Err::<Vec<String>, ParseError>(ParseError::BadUtf8),
{
    let ghost all = name_pieces(file@);
    let n = file.len();
    let mut names: Vec<String> = Vec::new();
    let mut start: usize = 0;
    let ghost done: Seq<Seq<u8>> = Seq::empty();
    proof {
        assert(file@.skip(0) =~= file@);
        assert(done + name_pieces(file@) =~= name_pieces(file@));
    }
    loop
        invariant
            0 <= start <= file@.len(),
            n == file@.len(),
            all == name_pieces(file@),
            all == done + name_pieces(file@.skip(start as int)),
            names@.len() == done.len(),
            forall|i: int| 0 <= i < done.len() ==> valid_utf8(#[trigger] done[i]),
            forall|i: int|
                0 <= i < done.len() ==> (#[trigger] names@[i])@ == decode_utf8(done[i]),
        decreases file@.len() - start,
    {
        let ghost rest = name_pieces(file@.skip(start as int));
        match crate::blk::types::scan_nul(file, start) {
            Some(end) => {
                proof {
                    lemma_find_nul_shift(file@, start as int);
                    crate::blk::types::lemma_find_nul_bounds(file@, start as int);
                    assert(file@.skip(start as int).take(end - start) =~= file@.subrange(
                        start as int,
                        end as int,
                    ));
                    assert(file@.skip(start as int).skip(end - start + 1) =~= file@.skip(
                        end + 1,
                    ));
                }
                let piece = &file[start..end];
                proof {
                    assert(rest =~= seq![piece@] + name_pieces(file@.skip(end + 1)));
                    assert(rest[0] == piece@);
                    assert(all[done.len() as int] == piece@);
                }
                match bytes_to_string(piece) {
                    Some(s) => {
                        proof {
                            vstd::utf8::encode_utf8_decode_utf8(s@);
                            assert(done + rest =~= done.push(piece@) + name_pieces(
                                file@.skip(end + 1),
                            ));
                        }
                        names.push(s);
                        proof {
                            done = done.push(piece@);
                        }
                        start = end + 1;
                    },
                    None => {
                        proof {
                            assert(!pieces_valid(all)) by {
                                assert(0 <= done.len() < all.len());
                                assert(!valid_utf8(all[done.len() as int]));
                            }
                        }
                        return Err(ParseError::BadUtf8);
                    },
                }
            },
            None => {
                proof {
                    lemma_find_nul_shift(file@, start as int);
                    assert(name_pieces(file@.skip(start as int)) =~= Seq::<Seq<u8>>::empty());
                    assert(all =~= done);
                }
                return Ok(names);
            },
        }
    }
}

/// What parsing the slim name-map body yields: the name section's pieces,
/// per the two leading ULEB length fields.
pub open spec fn slim_nm_pieces(b: Seq<u8>) -> Result<Seq<Seq<u8>>, ParseError> {
    match uleb_spec(b) {
        Err(e) => Err(e),
        Ok((o1, _names_count)) => match uleb_spec(b.skip(o1 as int)) {
            Err(e) => Err(e),
            Ok((o2, sz)) => if o1 + o2 + sz <= b.len() {
                Ok(name_pieces(b.subrange(o1 + o2, o1 + o2 + sz)))
            } else {
                Err(ParseError::OutOfBounds { start: (o1 + o2) as usize, len: sz })
            },
        },
    }
}

/// Parses the decompressed name-map body: a name count, the name-section
/// size, then the NUL-separated names themselves. A count that disagrees
/// with the parsed names is tolerated.
pub fn parse_slim_nm(name_map: &[u8]) -> (r: Result<Vec<String>, ParseError>)
    ensures
        match slim_nm_pieces(name_map@) {
            Err(e) => r == Err::<Vec<String>, ParseError>(e),
            Ok(pieces) => match r {
                Ok(v) => pieces_valid(pieces) && v@.len() == pieces.len() && (forall|i: int|
                    0 <= i < v@.len() ==> (#[trigger] v@[i])@ == decode_utf8(pieces[i])),
                Err(e) => e == ParseError::BadUtf8 && !pieces_valid(pieces),
            },
        },
{
    let n = name_map.len();
    let (o1, _names_count) = match uleb128(name_map) {
        Ok(p) => p,
        Err(e) => {
            return Err(e);
        },
    };
    let tail = &name_map[o1..n];
    let (o2, sz) = match uleb128(tail) {
        Ok(p) => p,
        Err(e) => {
            return Err(e);
        },
    };
    if sz > n - o1 - o2 {
        return Err(ParseError::OutOfBounds { start: o1 + o2, len: sz });
    }
    let section = &name_map[o1 + o2..o1 + o2 + sz];
    proof {
        assert(name_map@.skip(o1 as int) =~= name_map@.subrange(o1 as int, n as int));
        assert(name_map@.subrange(o1 as int + o2 as int, o1 as int + o2 as int + sz as int)
            =~= section@);
    }
    parse_name_section(section)
}

/// Strips the two leading digests of an `nm` archive member and inflates
/// the Zstandard frame that follows. Nothing for members shorter than the
/// digests or with a malformed frame.
pub fn decode_nm_file(file: &[u8]) -> (r: Option<Vec<u8>>)
    ensures
        file@.len() < 40 ==> r is None,
        file@.len() >= 40 ==> match r {
            Some(v) => zstd_decoded(file@.skip(40)) == Some(v@),
            None => zstd_decoded(file@.skip(40)) is None,
        },
{
    if file.len() < 40 {
        return None;
    }
    let n = file.len();
    let frame = &file[40..n];
    proof {
        assert(frame@ =~= file@.skip(40));
    }
    decode_zstd_frame(frame)
}

impl NameMap {
    /// Decodes a raw `nm` archive member: inflates it and splits the name
    /// section behind the two ULEB length fields. `binary` keeps exactly
    /// the names-data region, which slim string offsets index into.
    pub fn from_encoded_file(file: &[u8]) -> (r: Result<NameMap, ParseError>)
        ensures
            (file@.len() < 40 || zstd_decoded(file@.skip(40)) is None) ==> r == Err::<
                NameMap,
                ParseError,
            >(ParseError::ZstdError),
            file@.len() >= 40 ==> match zstd_decoded(file@.skip(40)) {
                None => r == Err::<NameMap, ParseError>(ParseError::ZstdError),
                Some(d) => match slim_nm_pieces(d) {
                    Err(e) => r == Err::<NameMap, ParseError>(e),
                    Ok(pieces) => if pieces_valid(pieces) {
                        r matches Ok(m) && {
                            &&& m.parsed@.len() == pieces.len()
                            &&& (forall|i: int|
                                0 <= i < pieces.len() ==> (#[trigger] m.parsed@[i])@
                                    == decode_utf8(pieces[i]))
                            &&& pieces == name_pieces(m.binary@)
                        }
                    } else {
                        r == Err::<NameMap, ParseError>(ParseError::BadUtf8)
                    },
                },
            },
    {
        let decoded = match decode_nm_file(file) {
            Some(d) => d,
            None => {
                return Err(ParseError::ZstdError);
            },
        };
        let n = decoded.len();
        let (o1, _names_count) = match uleb128(decoded.as_slice()) {
            Ok(p) => p,
            Err(e) => {
                return Err(e);
            },
        };
        let tail = &decoded.as_slice()[o1..n];
        proof {
            assert(tail@ =~= decoded@.skip(o1 as int));
        }
        let (o2, sz) = match uleb128(tail) {
            Ok(p) => p,
            Err(e) => {
                return Err(e);
            },
        };
        if sz > n - o1 - o2 {
            return Err(ParseError::OutOfBounds { start: o1 + o2, len: sz });
        }
        let region = crate::vromf::binary_container::slice_to_vec_u8(
            &decoded.as_slice()[o1 + o2..o1 + o2 + sz],
        );
        proof {
            assert(region@ =~= decoded@.subrange(
                o1 as int + o2 as int,
                o1 as int + o2 as int + sz as int,
            ));
        }
        let parsed = match parse_name_section(region.as_slice()) {
            Ok(p) => p,
            Err(e) => {
                return Err(e);
            },
        };
        Ok(NameMap { binary: region, parsed })
    }
}

} // verus!
