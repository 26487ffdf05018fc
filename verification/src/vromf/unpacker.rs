//! The unpacker façade: decodes the outer and inner containers, discovers
//! the shared name map and Zstandard dictionary among the inner files, and
//! drives each BLK member through the decoder and an emitter.

use vstd::prelude::*;
use vstd::string::StringSliceAdditionalSpecFns;

use crate::blk::error::ParseError;
use crate::blk::file::FileType;
use crate::blk::json::{json_doc, FormattingConfiguration};
use crate::blk::merge::merged_free;
use crate::blk::nm_file::NameMap;
use crate::blk::parser::NameMapModel;
use crate::blk::text::{lit, text_node};
use crate::blk::unpack::{unpack_blk, unpack_blk_spec};
use crate::vromf::binary_container::{decode_bin_vromf, outer_spec, slice_to_vec_u8};
use crate::vromf::error::VromfError;
use crate::vromf::header::Metadata;
use crate::vromf::inner_container::{decode_inner_vromf, inner_spec};

verus! {

/// One inner file: its path and its bytes.
pub type File = (String, Vec<u8>);

/// How a BLK member is rendered when unpacking.
#[derive(Debug, Clone, Copy, PartialEq, Eq)]
pub enum BlkOutputFormat {
    /// JSON, with the given formatting configuration.
    Json(FormattingConfiguration),
    /// Block plaintext.
    BlkText,
}

/// Whether a path names a BLK file: it ends in `.blk` with a nonempty
/// file stem.
pub open spec fn name_is_blk(nb: Seq<u8>) -> bool {
    nb.len() >= 5 && nb.subrange(nb.len() - 4, nb.len() as int) == lit(".blk") && nb[nb.len() - 5]
        != 0x2f
}

/// Whether a path's final segment is exactly `nm`.
pub open spec fn name_is_nm(nb: Seq<u8>) -> bool {
    nb == lit("nm") || (nb.len() >= 3 && nb.subrange(nb.len() - 3, nb.len() as int) == lit("/nm"))
}

/// Whether a path carries the `dict` extension.
pub open spec fn name_is_dict(nb: Seq<u8>) -> bool {
    nb.len() >= 6 && nb.subrange(nb.len() - 5, nb.len() as int) == lit(".dict") && nb[nb.len() - 6]
        != 0x2f
}

/// Whether a member is treated as a binary BLK: the `.blk` extension, at
/// least one byte, and a recognised file-type tag.
pub open spec fn maybe_blk_spec(nameb: Seq<u8>, bytes: Seq<u8>) -> bool {
    name_is_blk(nameb) && bytes.len() > 0 && FileType::spec_from_byte(bytes[0]) is Some
}

/// What unpacking one member yields: its raw bytes when no format is
/// asked for or the member is not a BLK; otherwise the decoded tree
/// rendered in the asked-for format.
pub open spec fn unpack_file_spec(
    nameb: Seq<u8>,
    bytes: Seq<u8>,
    fmt: Option<BlkOutputFormat>,
    dict: Option<Seq<u8>>,
    nm: Option<NameMapModel>,
) -> Result<Seq<u8>, ParseError> {
    match fmt {
        None => Ok(bytes),
        Some(f) => if !maybe_blk_spec(nameb, bytes) {
            Ok(bytes)
        } else {
            match unpack_blk_spec(bytes, dict, nm) {
                Err(e) => Err(e),
                Ok(tree) => match f {
                    BlkOutputFormat::Json(cfg) => Ok(json_doc(tree, cfg)),
                    BlkOutputFormat::BlkText => if merged_free(tree) {
                        Ok(text_node(tree, Seq::<u8>::empty(), Seq::<u8>::empty(), true))
                    } else {
                        Err(ParseError::MergedInPlaintext)
                    },
                },
            }
        },
    }
}

/// How a per-file decode error surfaces at the archive level: the missing
/// shared tables carry the member's path; everything else is wrapped.
pub open spec fn file_err_matches(ve: VromfError, e: ParseError, nameb: Seq<u8>) -> bool {
    match e {
        ParseError::MissingNameMap => ve matches VromfError::MissingNm { file_name } && encode(
            file_name,
        ) == nameb,
        ParseError::MissingDictionary => ve matches VromfError::MissingDict { file_name }
            && encode(file_name) == nameb,
        _ => ve == VromfError::BlkParseError(e),
    }
}

/// The UTF-8 bytes of a string's characters.
pub open spec fn encode(s: String) -> Seq<u8> {
    vstd::utf8::encode_utf8(s@)
}

/// Whether an `nm` member's bytes decode into a shared name map: the two
/// digests present, the frame inflating, and every name valid UTF-8.
pub open spec fn nm_decodes(b: Seq<u8>) -> bool {
    b.len() >= 40 && match crate::blk::zstd::zstd_decoded(b.skip(40)) {
        None => false,
        Some(d) => match crate::blk::nm_file::slim_nm_pieces(d) {
            Err(_) => false,
            Ok(p) => crate::blk::nm_file::pieces_valid(p),
        },
    }
}

/// Whether a name-map model is what the member's bytes decode to.
pub open spec fn nm_model_matches(mm: NameMapModel, b: Seq<u8>) -> bool {
    b.len() >= 40 && match crate::blk::zstd::zstd_decoded(b.skip(40)) {
        None => false,
        Some(d) => match crate::blk::nm_file::slim_nm_pieces(d) {
            Err(_) => false,
            Ok(p) => {
                &&& mm.parsed.len() == p.len()
                &&& (forall|i: int|
                    0 <= i < p.len() ==> mm.parsed[i] == vstd::utf8::decode_utf8(#[trigger] p[i]))
                &&& p == crate::blk::nm_file::name_pieces(mm.binary)
            },
        },
    }
}

/// Index of the first inner file whose path names the shared name map.
pub open spec fn find_nm_idx(entries: Seq<(Seq<char>, Seq<u8>)>) -> Option<int>
    decreases entries.len(),
{
    if entries.len() == 0 {
        None
    } else if name_is_nm(vstd::utf8::encode_utf8(entries[0].0)) {
        Some(0int)
    } else {
        match find_nm_idx(entries.subrange(1, entries.len() as int)) {
            Some(i) => Some(i + 1),
            None => None,
        }
    }
}

/// Index of the first inner file carrying the dictionary extension.
pub open spec fn find_dict_idx(entries: Seq<(Seq<char>, Seq<u8>)>) -> Option<int>
    decreases entries.len(),
{
    if entries.len() == 0 {
        None
    } else if name_is_dict(vstd::utf8::encode_utf8(entries[0].0)) {
        Some(0int)
    } else {
        match find_dict_idx(entries.subrange(1, entries.len() as int)) {
            Some(i) => Some(i + 1),
            None => None,
        }
    }
}

/// Whether a path carries the nested-archive suffix.
pub open spec fn name_is_nested(nb: Seq<u8>) -> bool {
    nb.len() >= lit(".vromfs.bin").len() && nb.subrange(
        nb.len() - lit(".vromfs.bin").len(),
        nb.len() as int,
    ) == lit(".vromfs.bin")
}

/// The version quads of the nested archive members from `i` on: one for
/// each member with the nested suffix whose outer header decodes and
/// carries a version, in directory order.
pub open spec fn nested_versions(entries: Seq<(Seq<char>, Seq<u8>)>, i: int) -> Seq<
    (u8, u8, u8, u8),
>
    decreases entries.len() - i,
{
    if i < 0 || i >= entries.len() {
        Seq::<(u8, u8, u8, u8)>::empty()
    } else {
        let rest = nested_versions(entries, i + 1);
        if name_is_nested(vstd::utf8::encode_utf8(entries[i].0)) {
            match outer_spec(entries[i].1) {
                Ok(p) => match p.1.version {
                    Some(v) => seq![v] + rest,
                    None => rest,
                },
                Err(_) => rest,
            }
        } else {
            rest
        }
    }
}

/// Index of the first inner file whose path equals the given one.
pub open spec fn find_file_idx(entries: Seq<(Seq<char>, Seq<u8>)>, path: Seq<char>) -> Option<int>
    decreases entries.len(),
{
    if entries.len() == 0 {
        None
    } else if entries[0].0 == path {
        Some(0int)
    } else {
        match find_file_idx(entries.subrange(1, entries.len() as int), path) {
            Some(i) => Some(i + 1),
            None => None,
        }
    }
}

/// A found file index is in range and bears the sought path.
proof fn lemma_find_file_idx_bounds(entries: Seq<(Seq<char>, Seq<u8>)>, path: Seq<char>)
    ensures
        find_file_idx(entries, path) matches Some(i) ==> 0 <= i < entries.len() && entries[i].0
            == path,
    decreases entries.len(),
{
    if entries.len() > 0 {
        lemma_find_file_idx_bounds(entries.subrange(1, entries.len() as int), path);
    }
}

/// A decoded archive: its inner files in directory order, the shared
/// dictionary and name map when the archive carries them, and the outer
/// header metadata.
#[derive(Debug)]
pub struct VromfUnpacker {
    files: Vec<File>,
    dict: Option<Vec<u8>>,
    nm: Option<NameMap>,
    metadata: Metadata,
}

/// The mathematical shape of an unpacker.
pub struct VromfUnpackerModel {
    pub files: Seq<(Seq<char>, Seq<u8>)>,
    pub dict: Option<Seq<u8>>,
    pub nm: Option<NameMapModel>,
    pub metadata: Metadata,
}

impl View for VromfUnpacker {
    type V = VromfUnpackerModel;

    closed spec fn view(&self) -> VromfUnpackerModel {
        VromfUnpackerModel {
            files: Seq::new(self.files@.len(), |i: int| (self.files@[i].0@, self.files@[i].1@)),
            dict: match self.dict {
                Some(d) => Some(d@),
                None => None,
            },
            nm: match self.nm {
                Some(m) => Some(m@),
                None => None,
            },
            metadata: self.metadata,
        }
    }
}

/// Whether a path's bytes end with the given ASCII suffix, with the byte
/// before it (if demanded) not a path separator.
fn name_has_suffix(name: &String, suffix: &str, forbid_slash_before: bool) -> (r: bool)
    ensures
        r == ({
            let nb = encode(*name);
            let sb = suffix.spec_bytes();
            nb.len() >= sb.len() && nb.subrange(nb.len() - sb.len(), nb.len() as int) == sb && (
            forbid_slash_before ==> nb.len() > sb.len() && nb[nb.len() - sb.len() - 1] != 0x2f)
        }),
{
    let nb = name.as_str().as_bytes();
    let sb = suffix.as_bytes();
    let n = nb.len();
    let m = sb.len();
    if n < m {
        return false;
    }
    let mut i: usize = 0;
    while i < m
        invariant
            0 <= i <= m,
            m <= n,
            n == encode(*name).len(),
            nb@ == encode(*name),
            sb@ == suffix.spec_bytes(),
            m == sb@.len(),
            forall|j: int| 0 <= j < i ==> nb@[n - m + j] == sb@[j],
        decreases m - i,
    {
        if nb[n - m + i] != sb[i] {
            proof {
                assert(encode(*name).subrange(n - m, n as int)[i as int] != sb@[i as int]);
            }
            return false;
        }
        i = i + 1;
    }
    proof {
        assert(encode(*name).subrange(n - m, n as int) =~= sb@);
    }
    if forbid_slash_before {
        if n == m {
            return false;
        }
        if nb[n - m - 1] == 0x2f {
            return false;
        }
        true
    } else {
        true
    }
}

/// Whether a member looks like a binary BLK file.
pub fn maybe_blk(name: &String, bytes: &Vec<u8>) -> (r: bool)
    ensures
        r == maybe_blk_spec(encode(*name), bytes@),
{
    proof {
        reveal_strlit(".blk");
        vstd::string::is_ascii_spec_bytes(".blk");
        assert(vstd::string::is_ascii(".blk"));
        assert(lit(".blk").len() == 4);
    }
    if !name_has_suffix(name, ".blk", true) {
        return false;
    }
    if bytes.len() == 0 {
        return false;
    }
    match FileType::from_byte(bytes[0]) {
        Ok(_) => true,
        Err(_) => false,
    }
}

/// Whether a path names the shared name map member.
fn is_nm_name(name: &String) -> (r: bool)
    ensures
        r == name_is_nm(encode(*name)),
{
    proof {
        reveal_strlit("/nm");
        reveal_strlit("nm");
        vstd::string::is_ascii_spec_bytes("/nm");
        vstd::string::is_ascii_spec_bytes("nm");
        assert(vstd::string::is_ascii("/nm"));
        assert(vstd::string::is_ascii("nm"));
        assert(lit("/nm").len() == 3);
        assert(lit("nm").len() == 2);
        assert(lit("nm")[0] == 0x6e && lit("nm")[1] == 0x6d);
    }
    let nb = name.as_str().as_bytes();
    proof {
        assert(nb@ == encode(*name));
    }
    if nb.len() == 2 {
        if nb[0] == 0x6e && nb[1] == 0x6d {
            proof {
                reveal_strlit("nm");
                vstd::string::is_ascii_spec_bytes("nm");
                assert(vstd::string::is_ascii("nm"));
                assert(encode(*name) =~= lit("nm"));
            }
            return true;
        }
    }
    let r = name_has_suffix(name, "/nm", false);
    proof {
        if !r && encode(*name) == lit("nm") {
            assert(encode(*name).len() == 2);
            assert(encode(*name)[0] == 0x6e && encode(*name)[1] == 0x6d);
        }
    }
    r
}

/// Unpacks one member: raw bytes, or the decoded BLK rendered in the
/// asked-for format.
fn unpack_file(
    name: &String,
    bytes: &Vec<u8>,
    fmt: Option<BlkOutputFormat>,
    dict: Option<&Vec<u8>>,
    nm: Option<&NameMap>,
) -> (r: Result<Vec<u8>, ParseError>)
    ensures
        ({
            let d = match dict {
                Some(v) => Some(v@),
                None => None,
            };
            let nmm = match nm {
                Some(m) => Some(m@),
                None => None,
            };
            match unpack_file_spec(encode(*name), bytes@, fmt, d, nmm) {
                Ok(b) => r matches Ok(v) && v@ == b,
                Err(e) => r == Err::<Vec<u8>, ParseError>(e),
            }
        }),
{
    let f = match fmt {
        None => {
            return Ok(slice_to_vec_u8(bytes.as_slice()));
        },
        Some(f) => f,
    };
    if !maybe_blk(name, bytes) {
        return Ok(slice_to_vec_u8(bytes.as_slice()));
    }
    let tree = match unpack_blk(bytes.as_slice(), dict, nm) {
        Ok(t) => t,
        Err(e) => {
            return Err(e);
        },
    };
    match f {
        BlkOutputFormat::Json(cfg) => Ok(tree.json_bytes(cfg)),
        BlkOutputFormat::BlkText => tree.blk_text_bytes(),
    }
}

impl VromfUnpacker {
    /// Decodes a whole archive: the outer and inner containers, then the
    /// shared name map and dictionary members, when present.
    #[verifier::rlimit(100)]
    pub fn from_file(file: File) -> (r: Result<VromfUnpacker, VromfError>)
        ensures
            match outer_spec(file.1@) {
                Err(e) => r == Err::<VromfUnpacker, VromfError>(e),
                Ok(p) => match inner_spec(p.0) {
                    Err(e) => r == Err::<VromfUnpacker, VromfError>(e),
                    Ok(entries) => {
                        &&& (match find_nm_idx(entries) {
                            Some(k) => (r is Ok <==> nm_decodes(entries[k].1)),
                            None => r is Ok,
                        })
                        &&& (match r {
                            Ok(u) => {
                                &&& u@.files == entries
                                &&& u@.metadata == p.1
                                &&& (match find_dict_idx(entries) {
                                    Some(k) => u@.dict == Some(entries[k].1),
                                    None => u@.dict is None,
                                })
                                &&& (match find_nm_idx(entries) {
                                    Some(k) => u@.nm matches Some(mm) && nm_model_matches(
                                        mm,
                                        entries[k].1,
                                    ),
                                    None => u@.nm is None,
                                })
                            },
                            Err(e) => e matches VromfError::BlkParseError(_),
                        })
                    },
                },
            },
    {
        let (payload, metadata) = match decode_bin_vromf(file.1.as_slice()) {
            Ok(p) => p,
            Err(e) => {
                return Err(e);
            },
        };
        let inner = match decode_inner_vromf(payload.as_slice()) {
            Ok(v) => v,
            Err(e) => {
                return Err(e);
            },
        };
        let ghost entries = inner_spec(payload@).unwrap();
        proof {
            assert(Seq::new(inner@.len(), |i: int| (inner@[i].0@, inner@[i].1@)) =~= entries);
        }
        // find the shared name map
        let mut nm: Option<NameMap> = None;
        let mut k: usize = 0;
        let mut nm_found = false;
        proof {
            assert(entries.skip(0) =~= entries);
        }
        while k < inner.len() && !nm_found
            invariant
                0 <= k <= inner@.len(),
                entries =~= Seq::new(inner@.len(), |i: int| (inner@[i].0@, inner@[i].1@)),
                !nm_found ==> nm is None && find_nm_idx(entries) == match find_nm_idx(
                    entries.skip(k as int),
                ) {
                    Some(t) => Some(t + k),
                    None => None,
                },
                nm_found ==> 0 <= k < inner@.len() && find_nm_idx(entries) == Some(k as int),
            decreases inner@.len() - k + if nm_found {
                0int
            } else {
                1int
            },
        {
            if is_nm_name(&inner[k].0) {
                proof {
                    assert(entries.skip(k as int)[0] == entries[k as int]);
                }
                nm_found = true;
            } else {
                proof {
                    assert(entries.skip(k as int)[0] == entries[k as int]);
                    assert(entries.skip(k as int).subrange(
                        1,
                        entries.skip(k as int).len() as int,
                    ) =~= entries.skip(k as int + 1));
                }
                k = k + 1;
            }
        }
        if nm_found {
            match NameMap::from_encoded_file(inner[k].1.as_slice()) {
                Ok(m) => {
                    nm = Some(m);
                },
                Err(e) => {
                    return Err(VromfError::BlkParseError(e));
                },
            }
        } else {
            proof {
                assert(entries.skip(inner@.len() as int).len() == 0);
                assert(find_nm_idx(entries) is None);
            }
        }
        // find the dictionary
        let mut dict: Option<Vec<u8>> = None;
        let mut k: usize = 0;
        let mut dict_found = false;
        proof {
            assert(entries.skip(0) =~= entries);
        }
        while k < inner.len() && !dict_found
            invariant
                0 <= k <= inner@.len(),
                entries =~= Seq::new(inner@.len(), |i: int| (inner@[i].0@, inner@[i].1@)),
                !dict_found ==> dict is None && find_dict_idx(entries) == match find_dict_idx(
                    entries.skip(k as int),
                ) {
                    Some(t) => Some(t + k),
                    None => None,
                },
                dict_found ==> 0 <= k < inner@.len() && find_dict_idx(entries) == Some(k as int),
            decreases inner@.len() - k + if dict_found {
                0int
            } else {
                1int
            },
        {
            proof {
                reveal_strlit(".dict");
                vstd::string::is_ascii_spec_bytes(".dict");
                assert(vstd::string::is_ascii(".dict"));
                assert(lit(".dict").len() == 5);
            }
            if name_has_suffix(&inner[k].0, ".dict", true) {
                proof {
                    assert(entries.skip(k as int)[0] == entries[k as int]);
                }
                dict_found = true;
            } else {
                proof {
                    assert(entries.skip(k as int)[0] == entries[k as int]);
                    assert(entries.skip(k as int).subrange(
                        1,
                        entries.skip(k as int).len() as int,
                    ) =~= entries.skip(k as int + 1));
                }
                k = k + 1;
            }
        }
        if dict_found {
            dict = Some(slice_to_vec_u8(inner[k].1.as_slice()));
        } else {
            proof {
                assert(entries.skip(inner@.len() as int).len() == 0);
                assert(find_dict_idx(entries) is None);
            }
        }
        let u = VromfUnpacker { files: inner, dict, nm, metadata };
        proof {
            assert(u@.files =~= entries);
        }
        Ok(u)
    }

    /// The archive's inner files, in directory order.
    pub fn files(&self) -> (r: &Vec<File>)
        ensures
            Seq::new(r@.len(), |i: int| (r@[i].0@, r@[i].1@)) == self@.files,
    {
        proof {
            assert(Seq::new(self.files@.len(), |i: int| (self.files@[i].0@, self.files@[i].1@))
                =~= self@.files);
        }
        &self.files
    }

    /// The version quad the outer header carried, when extended.
    pub fn version(&self) -> (r: Option<(u8, u8, u8, u8)>)
        ensures
            r == self@.metadata.version,
    {
        self.metadata.version
    }

    /// Unpacks every member in directory order. In strict mode the first
    /// member that fails to decode aborts the batch with its error; in
    /// lenient mode such members surface as their raw bytes.
    pub fn unpack_all(&self, unpack_blk_into: Option<BlkOutputFormat>, strict: bool) -> (r: Result<
        Vec<File>,
        VromfError,
    >)
        ensures
            !strict ==> r is Ok,
            r matches Ok(v) ==> {
                &&& v@.len() == self@.files.len()
                &&& (forall|i: int|
                    0 <= i < v@.len() ==> (#[trigger] v@[i]).0@ == self@.files[i].0)
                &&& (forall|i: int|
                    0 <= i < v@.len() ==> (#[trigger] v@[i]).1@ == (match unpack_file_spec(
                        vstd::utf8::encode_utf8(self@.files[i].0),
                        self@.files[i].1,
                        unpack_blk_into,
                        self@.dict,
                        self@.nm,
                    ) {
                        Ok(b) => b,
                        Err(_) => self@.files[i].1,
                    }))
            },
            r matches Err(ve) ==> strict && (exists|i: int|
                0 <= i < self@.files.len() && ((#[trigger] unpack_file_spec(
                    vstd::utf8::encode_utf8(self@.files[i].0),
                    self@.files[i].1,
                    unpack_blk_into,
                    self@.dict,
                    self@.nm,
                )) matches Err(e) && file_err_matches(
                    ve,
                    e,
                    vstd::utf8::encode_utf8(self@.files[i].0),
                ))),
    {
        let mut out: Vec<File> = Vec::new();
        let mut i: usize = 0;
        while i < self.files.len()
            invariant
                0 <= i <= self.files@.len(),
                self@.files.len() == self.files@.len(),
                forall|j: int|
                    0 <= j < self.files@.len() ==> #[trigger] self@.files[j] == (
                    self.files@[j].0@,
                    self.files@[j].1@,
                ),
                out@.len() == i,
                forall|j: int| 0 <= j < i ==> (#[trigger] out@[j]).0@ == self@.files[j].0,
                forall|j: int|
                    0 <= j < i ==> (#[trigger] out@[j]).1@ == (match unpack_file_spec(
                        vstd::utf8::encode_utf8(self@.files[j].0),
                        self@.files[j].1,
                        unpack_blk_into,
                        self@.dict,
                        self@.nm,
                    ) {
                        Ok(b) => b,
                        Err(_) => self@.files[j].1,
                    }),
            decreases self.files@.len() - i,
        {
            let name = self.files[i].0.clone();
            let res = unpack_file(
                &self.files[i].0,
                &self.files[i].1,
                unpack_blk_into,
                self.dict.as_ref(),
                self.nm.as_ref(),
            );
            match res {
                Ok(bytes) => {
                    out.push((name, bytes));
                },
                Err(e) => {
                    if strict {
                        let ve = Self::map_file_err(e, name);
                        proof {
                            let j = i as int;
                            assert(self@.files[j] == (self.files@[j].0@, self.files@[j].1@));
                            assert(unpack_file_spec(
                                vstd::utf8::encode_utf8(self@.files[j].0),
                                self@.files[j].1,
                                unpack_blk_into,
                                self@.dict,
                                self@.nm,
                            ) == Err::<Seq<u8>, ParseError>(e));
                        }
                        return Err(ve);
                    }
                    let raw = slice_to_vec_u8(self.files[i].1.as_slice());
                    out.push((name, raw));
                },
            }
            i = i + 1;
        }
        Ok(out)
    }

    /// Unpacks one member by its exact path: the first member bearing the
    /// path is decoded, and the call succeeds exactly when that member's
    /// decode does. With no member under the path, `FileNotInVromf` comes
    /// back, and only then.
    pub fn unpack_one(&self, path_name: &String, unpack_blk_into: Option<BlkOutputFormat>) -> (r:
        Result<Vec<u8>, VromfError>)
        ensures
            match find_file_idx(self@.files, path_name@) {
                None => r matches Err(VromfError::FileNotInVromf { path_name: p }) && p@
                    == path_name@,
                Some(i) => match unpack_file_spec(
                    vstd::utf8::encode_utf8(self@.files[i].0),
                    self@.files[i].1,
                    unpack_blk_into,
                    self@.dict,
                    self@.nm,
                ) {
                    Ok(b) => r matches Ok(v) && v@ == b,
                    Err(e) => r matches Err(ve) && file_err_matches(
                        ve,
                        e,
                        vstd::utf8::encode_utf8(self@.files[i].0),
                    ) && !(ve is FileNotInVromf),
                },
            },
    {
        let ghost entries = self@.files;
        let mut i: usize = 0;
        proof {
            assert(entries.skip(0) =~= entries);
        }
        while i < self.files.len()
            invariant
                0 <= i <= self.files@.len(),
                entries == self@.files,
                self@.files.len() == self.files@.len(),
                forall|j: int|
                    0 <= j < self.files@.len() ==> #[trigger] self@.files[j] == (
                    self.files@[j].0@,
                    self.files@[j].1@,
                ),
                find_file_idx(entries, path_name@) == match find_file_idx(
                    entries.skip(i as int),
                    path_name@,
                ) {
                    Some(t) => Some(t + i),
                    None => None,
                },
            decreases self.files@.len() - i,
        {
            proof {
                assert(entries.skip(i as int)[0] == entries[i as int]);
                assert(entries.skip(i as int).subrange(
                    1,
                    entries.skip(i as int).len() as int,
                ) =~= entries.skip(i as int + 1));
            }
            if self.files[i].0.eq(path_name) {
                proof {
                    assert(find_file_idx(entries, path_name@) == Some(i as int));
                }
                let res = unpack_file(
                    &self.files[i].0,
                    &self.files[i].1,
                    unpack_blk_into,
                    self.dict.as_ref(),
                    self.nm.as_ref(),
                );
                match res {
                    Ok(bytes) => {
                        proof {
                            let j = i as int;
                            assert(self@.files[j] == (self.files@[j].0@, self.files@[j].1@));
                            assert(self@.files[j].0 == path_name@);
                            assert(unpack_file_spec(
                                vstd::utf8::encode_utf8(self@.files[j].0),
                                self@.files[j].1,
                                unpack_blk_into,
                                self@.dict,
                                self@.nm,
                            ) == Ok::<Seq<u8>, ParseError>(bytes@));
                        }
                        return Ok(bytes);
                    },
                    Err(e) => {
                        let name = self.files[i].0.clone();
                        proof {
                            let j = i as int;
                            assert(self@.files[j] == (self.files@[j].0@, self.files@[j].1@));
                            assert(self@.files[j].0 == path_name@);
                        }
                        return Err(Self::map_file_err(e, name));
                    },
                }
            }
            i = i + 1;
        }
        proof {
            assert(entries.skip(self.files@.len() as int).len() == 0);
            assert(find_file_idx(entries, path_name@) is None);
        }
        Err(VromfError::FileNotInVromf { path_name: path_name.clone() })
    }

    /// Wraps a member's decode error, attaching the path where the error
    /// names a missing shared table.
    fn map_file_err(e: ParseError, name: String) -> (r: VromfError)
        ensures
            file_err_matches(r, e, encode(name)),
            !(r is FileNotInVromf),
    {
        match e {
            ParseError::MissingNameMap => VromfError::MissingNm { file_name: name },
            ParseError::MissingDictionary => VromfError::MissingDict { file_name: name },
            _ => VromfError::BlkParseError(e),
        }
    }

    /// The version quads found in the archive: the outer header's own
    /// when it carries one, then one for each nested archive member whose
    /// outer header decodes and carries one, in directory order.
    pub fn query_versions(&self) -> (r: Vec<(u8, u8, u8, u8)>)
        ensures
            r@ == (match self@.metadata.version {
                Some(v) => seq![v],
                None => Seq::<(u8, u8, u8, u8)>::empty(),
            }) + nested_versions(self@.files, 0),
    {
        let ghost entries = self@.files;
        let ghost head: Seq<(u8, u8, u8, u8)> = match self@.metadata.version {
            Some(v) => seq![v],
            None => Seq::<(u8, u8, u8, u8)>::empty(),
        };
        let ghost goal = head + nested_versions(entries, 0);
        let mut out: Vec<(u8, u8, u8, u8)> = Vec::new();
        match self.metadata.version {
            Some(v) => {
                out.push(v);
                proof {
                    assert(out@ =~= head);
                }
            },
            None => {
                proof {
                    assert(out@ =~= head);
                }
            },
        }
        let mut i: usize = 0;
        while i < self.files.len()
            invariant
                0 <= i <= self.files@.len(),
                entries == self@.files,
                self@.files.len() == self.files@.len(),
                forall|j: int|
                    0 <= j < self.files@.len() ==> #[trigger] self@.files[j] == (
                    self.files@[j].0@,
                    self.files@[j].1@,
                ),
                goal == head + nested_versions(entries, 0),
                goal == out@ + nested_versions(entries, i as int),
            decreases self.files@.len() - i,
        {
            if name_has_suffix(&self.files[i].0, ".vromfs.bin", false) {
                match decode_bin_vromf(self.files[i].1.as_slice()) {
                    Ok(p) => {
                        match p.1.version {
                            Some(v) => {
                                let ghost prev = out@;
                                out.push(v);
                                proof {
                                    assert(prev + (seq![v] + nested_versions(
                                        entries,
                                        i as int + 1,
                                    )) =~= out@ + nested_versions(entries, i as int + 1));
                                }
                            },
                            None => {},
                        }
                    },
                    Err(_) => {},
                }
            }
            i = i + 1;
        }
        proof {
            assert(nested_versions(entries, self.files@.len() as int) =~= Seq::<
                (u8, u8, u8, u8),
            >::empty());
            assert(out@ + Seq::<(u8, u8, u8, u8)>::empty() =~= out@);
        }
        out
    }
}

} // verus!
