//! The inner VROMF directory: a table of absolute offsets to
//! NUL-terminated paths, and a table of `(offset, size)` pairs locating
//! each file's bytes inside the payload.

use vstd::prelude::*;
use vstd::utf8::{decode_utf8, valid_utf8};

use crate::blk::types::{cstr_at, le_u32_at, read_le_u32, scan_nul};
use crate::strutil::bytes_to_string;
use crate::vromf::error::VromfError;

verus! {

/// The byte offset of file `i`'s data entry in the data table.
pub open spec fn data_entry_at(data_offset: int, i: int) -> int {
    data_offset + 16 * i
}

/// What decoding files `i..count` of the inner directory yields: each
/// file's decoded path and its bytes, sliced from the payload at the
/// offset and size its data entry declares.
pub open spec fn files_spec(b: Seq<u8>, names_offset: int, data_offset: int, i: int, count: int) -> Result<
    Seq<(Seq<char>, Seq<u8>)>,
    VromfError,
>
    decreases count - i,
{
    if i >= count {
        Ok(Seq::<(Seq<char>, Seq<u8>)>::empty())
    } else {
        let name_off = le_u32_at(b, names_offset + 4 * i) as int;
        match cstr_at(b, name_off) {
            None => Err(
                VromfError::IndexingFileOutOfBounds {
                    current_ptr: name_off as usize,
                    file_size: b.len() as usize,
                    requested_len: 1,
                },
            ),
            Some(name_bytes) => if !valid_utf8(name_bytes) {
                Err(VromfError::Utf8)
            } else {
                let off = le_u32_at(b, data_entry_at(data_offset, i)) as int;
                let size = le_u32_at(b, data_entry_at(data_offset, i) + 4) as int;
                if off + size <= b.len() {
                    match files_spec(b, names_offset, data_offset, i + 1, count) {
                        Err(e) => Err(e),
                        Ok(rest) => Ok(
                            seq![(decode_utf8(name_bytes), b.subrange(off, off + size))] + rest,
                        ),
                    }
                } else {
                    Err(
                        VromfError::IndexingFileOutOfBounds {
                            current_ptr: off as usize,
                            file_size: b.len() as usize,
                            requested_len: size as usize,
                        },
                    )
                }
            },
        }
    }
}

/// What decoding the whole inner directory yields.
pub open spec fn inner_spec(b: Seq<u8>) -> Result<Seq<(Seq<char>, Seq<u8>)>, VromfError> {
    if b.len() < 12 {
        Err(
            VromfError::IndexingFileOutOfBounds {
                current_ptr: 0,
                file_size: b.len() as usize,
                requested_len: 12,
            },
        )
    } else {
        let names_offset = le_u32_at(b, 0) as int;
        let names_count = le_u32_at(b, 4) as int;
        let data_offset = le_u32_at(b, 8) as int;
        if names_offset + 4 * names_count > b.len() {
            Err(
                VromfError::IndexingFileOutOfBounds {
                    current_ptr: names_offset as usize,
                    file_size: b.len() as usize,
                    requested_len: names_count as usize,
                },
            )
        } else if data_offset + 16 * names_count > b.len() {
            Err(
                VromfError::IndexingFileOutOfBounds {
                    current_ptr: data_offset as usize,
                    file_size: b.len() as usize,
                    requested_len: names_count as usize,
                },
            )
        } else {
            files_spec(b, names_offset, data_offset, 0, names_count)
        }
    }
}

/// On success every data entry stays inside the payload: the offset plus
/// the size of each produced file is at most the payload length.
pub proof fn lemma_inner_files_bounded(
    b: Seq<u8>,
    names_offset: int,
    data_offset: int,
    i: int,
    count: int,
)
    ensures
        files_spec(b, names_offset, data_offset, i, count) is Ok ==> forall|j: int|
            i <= j < count ==> le_u32_at(b, data_entry_at(data_offset, j)) + le_u32_at(
                b,
                data_entry_at(data_offset, j) + 4,
            ) <= b.len(),
    decreases count - i,
{
    if i < count {
        lemma_inner_files_bounded(b, names_offset, data_offset, i + 1, count);
    }
}

/// Decodes the inner directory into its ordered list of named files.
pub fn decode_inner_vromf(file: &[u8]) -> (r: Result<Vec<(String, Vec<u8>)>, VromfError>)
    ensures
        match inner_spec(file@) {
            Err(e) => r == Err::<Vec<(String, Vec<u8>)>, VromfError>(e),
            Ok(fm) => r matches Ok(v) && v@.len() == fm.len() && (forall|j: int|
                0 <= j < fm.len() ==> ((#[trigger] v@[j]).0@, v@[j].1@) == fm[j]),
        },
{
    let n = file.len();
    if n < 12 {
        return Err(
            VromfError::IndexingFileOutOfBounds { current_ptr: 0, file_size: n, requested_len: 12 },
        );
    }
    let names_offset = read_le_u32(file, 0) as usize;
    let names_count = read_le_u32(file, 4) as usize;
    let data_offset = read_le_u32(file, 8) as usize;
    let need_names: u64 = 4u64 * (names_count as u64);
    if names_offset > n || need_names > ((n - names_offset) as u64) {
        proof {
            assert(names_offset + 4 * names_count > n);
        }
        return Err(
            VromfError::IndexingFileOutOfBounds {
                current_ptr: names_offset,
                file_size: n,
                requested_len: names_count,
            },
        );
    }
    let need_data: u64 = 16u64 * (names_count as u64);
    if data_offset > n || need_data > ((n - data_offset) as u64) {
        proof {
            assert(data_offset + 16 * names_count > n);
        }
        return Err(
            VromfError::IndexingFileOutOfBounds {
                current_ptr: data_offset,
                file_size: n,
                requested_len: names_count,
            },
        );
    }
    let ghost full = files_spec(
        file@,
        names_offset as int,
        data_offset as int,
        0,
        names_count as int,
    );
    let mut out: Vec<(String, Vec<u8>)> = Vec::new();
    let mut i: usize = 0;
    while i < names_count
        invariant
            0 <= i <= names_count,
            n == file@.len(),
            n >= 12,
            names_offset as int == le_u32_at(file@, 0),
            names_count as int == le_u32_at(file@, 4),
            data_offset as int == le_u32_at(file@, 8),
            names_offset + 4 * names_count <= n,
            data_offset + 16 * names_count <= n,
            full == files_spec(
                file@,
                names_offset as int,
                data_offset as int,
                0,
                names_count as int,
            ),
            out@.len() == i,
            ({
                match files_spec(
                    file@,
                    names_offset as int,
                    data_offset as int,
                    i as int,
                    names_count as int,
                ) {
                    Err(e) => full == Err::<Seq<(Seq<char>, Seq<u8>)>, VromfError>(e),
                    Ok(rest) => full matches Ok(fm) && fm =~= Seq::new(
                        out@.len(),
                        |j: int| (out@[j].0@, out@[j].1@),
                    ) + rest,
                }
            }),
        decreases names_count - i,
    {
        let name_off = read_le_u32(file, names_offset + 4 * i) as usize;
        let end = match scan_nul(file, name_off) {
            Some(e) => e,
            None => {
                return Err(
                    VromfError::IndexingFileOutOfBounds {
                        current_ptr: name_off,
                        file_size: n,
                        requested_len: 1,
                    },
                );
            },
        };
        proof {
            crate::blk::types::lemma_find_nul_bounds(file@, name_off as int);
        }
        let name_bytes = &file[name_off..end];
        let name = match bytes_to_string(name_bytes) {
            Some(s) => s,
            None => {
                return Err(VromfError::Utf8);
            },
        };
        let off = read_le_u32(file, data_offset + 16 * i) as usize;
        let size = read_le_u32(file, data_offset + 16 * i + 4) as usize;
        if off > n || size > n - off {
            proof {
                assert(off + size > n);
            }
            return Err(
                VromfError::IndexingFileOutOfBounds {
                    current_ptr: off,
                    file_size: n,
                    requested_len: size,
                },
            );
        }
        let bytes = crate::vromf::binary_container::slice_to_vec_u8(&file[off..off + size]);
        let ghost prev = out@;
        proof {
            vstd::utf8::encode_utf8_decode_utf8(name@);
        }
        out.push((name, bytes));
        proof {
            let rest1 = files_spec(
                file@,
                names_offset as int,
                data_offset as int,
                i as int + 1,
                names_count as int,
            );
            if rest1 is Ok {
                assert((Seq::new(prev.len(), |j: int| (prev[j].0@, prev[j].1@)) + (seq![
                    (out@[prev.len() as int].0@, out@[prev.len() as int].1@),
                ] + rest1.unwrap())) =~= Seq::new(out@.len(), |j: int| (out@[j].0@, out@[j].1@))
                    + rest1.unwrap());
            }
        }
        i = i + 1;
    }
    proof {
        match full {
            Ok(fm) => {
                assert(fm =~= Seq::new(out@.len(), |j: int| (out@[j].0@, out@[j].1@)) + Seq::<
                    (Seq<char>, Seq<u8>),
                >::empty());
                assert(fm =~= Seq::new(out@.len(), |j: int| (out@[j].0@, out@[j].1@)));
            },
            Err(e) => {},
        }
    }
    Ok(out)
}

} // verus!
