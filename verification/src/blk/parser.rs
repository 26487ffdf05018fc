//! The BLK structural parser: reads the header, the parameter table and
//! the block table, then rebuilds the nested tree.
//!
//! Every stage has a specification mirror, and `parse_blk` is proved to
//! return exactly what the composed specification says, including which
//! error comes back for which malformed input.

use vstd::prelude::*;
use vstd::utf8::decode_utf8;

use crate::blk::error::ParseError;
use crate::blk::hierarchy::{build_block, build_children, wf_flat, FlatBlock, FlatBlockModel};
use crate::blk::structure::BlkField;
use crate::blk::leb128::{uleb128, uleb_spec};
use crate::blk::merge::{all_merged_free, merged_free};
use crate::blk::nm_file::{name_pieces, pieces_valid, NameMap};
use crate::blk::structure::{fields_model, FieldModel};
use crate::blk::types::{decode_value, BlkType};

verus! {

/// The mathematical shape of a shared name map.
pub struct NameMapModel {
    pub binary: Seq<u8>,
    pub parsed: Seq<Seq<char>>,
}

impl View for NameMap {
    type V = NameMapModel;

    open spec fn view(&self) -> NameMapModel {
        NameMapModel {
            binary: self.binary@,
            parsed: Seq::new(self.parsed@.len(), |i: int| self.parsed@[i]@),
        }
    }
}

/// The names decoded from a fat file's own name section.
pub open spec fn decode_pieces(ps: Seq<Seq<u8>>) -> Seq<Seq<char>> {
    Seq::new(ps.len(), |i: int| decode_utf8(ps[i]))
}

/// What the name stage yields: the position after it and the name list.
/// A slim file takes the shared map's names and consumes only the leading
/// count; a fat file carries its own name section.
pub open spec fn names_stage(file: Seq<u8>, slim: bool, nm: Option<NameMapModel>) -> Result<
    (int, Seq<Seq<char>>),
    ParseError,
> {
    match uleb_spec(file) {
        Err(e) => Err(e),
        Ok((p1, _names_count)) => if slim {
            match nm {
                None => Err(ParseError::MissingNameMap),
                Some(m) => Ok((p1 as int, m.parsed)),
            }
        } else {
            match uleb_spec(file.skip(p1 as int)) {
                Err(e) => Err(e),
                Ok((p2, sz)) => if p1 + p2 + sz <= file.len() {
                    let pieces = name_pieces(file.subrange(p1 + p2, p1 + p2 + sz));
                    if pieces_valid(pieces) {
                        Ok((p1 + p2 + sz, decode_pieces(pieces)))
                    } else {
                        Err(ParseError::BadUtf8)
                    }
                } else {
                    Err(ParseError::OutOfBounds { start: (p1 + p2) as usize, len: sz })
                },
            }
        },
    }
}

/// The 24-bit little-endian name index of parameter record `k`.
pub open spec fn param_name_id(info: Seq<u8>, k: int) -> int {
    info[8 * k] + 0x100 * info[8 * k + 1] + 0x10000 * info[8 * k + 2]
}

/// What decoding parameter records `k..count` yields: one named value per
/// record, or the first record's error. A record fails with `BadNameId`
/// when its name index is outside the name table, and with `BadBlkValue`
/// when its typed payload cannot be decoded.
pub open spec fn params_spec(
    info: Seq<u8>,
    k: int,
    count: int,
    data: Seq<u8>,
    slim_bin: Option<Seq<u8>>,
    names: Seq<Seq<char>>,
) -> Result<Seq<FieldModel>, ParseError>
    decreases count - k,
{
    if k >= count {
        Ok(Seq::<FieldModel>::empty())
    } else {
        let nid = param_name_id(info, k);
        if nid >= names.len() {
            Err(ParseError::BadNameId)
        } else {
            let tag = info[8 * k + 3];
            let payload = info.subrange(8 * k + 4, 8 * k + 8);
            let buf = if slim_bin is Some && tag == 0x01 {
                slim_bin.unwrap()
            } else {
                data
            };
            match decode_value(tag, payload, buf) {
                None => Err(ParseError::BadBlkValue),
                Some(v) => match params_spec(info, k + 1, count, data, slim_bin, names) {
                    Err(e) => Err(e),
                    Ok(rest) => Ok(seq![FieldModel::Value(names[nid], v)] + rest),
                },
            }
        }
    }
}

/// Successful parameter decoding yields one field per record.
pub proof fn lemma_params_spec_len(
    info: Seq<u8>,
    k: int,
    count: int,
    data: Seq<u8>,
    slim_bin: Option<Seq<u8>>,
    names: Seq<Seq<char>>,
)
    ensures
        params_spec(info, k, count, data, slim_bin, names) matches Ok(pm) ==> pm.len() == if count
            >= k {
            count - k
        } else {
            0
        },
    decreases count - k,
{
    if k < count {
        lemma_params_spec_len(info, k + 1, count, data, slim_bin, names);
    }
}

/// Every record of a successfully decoded parameter table names an entry
/// inside the name table.
pub proof fn lemma_params_spec_ids(
    info: Seq<u8>,
    k: int,
    count: int,
    data: Seq<u8>,
    slim_bin: Option<Seq<u8>>,
    names: Seq<Seq<char>>,
)
    ensures
        params_spec(info, k, count, data, slim_bin, names) is Ok ==> forall|j: int|
            k <= j < count ==> param_name_id(info, j) < names.len(),
    decreases count - k,
{
    if k < count {
        lemma_params_spec_ids(info, k + 1, count, data, slim_bin, names);
    }
}

/// Decodes the fixed-width parameter records against the name table and
/// the payload blob (or, for slim strings, the shared name-map binary).
pub fn decode_params(
    info: &[u8],
    count: usize,
    data: &[u8],
    slim_bin: Option<&Vec<u8>>,
    names: &Vec<String>,
) -> (r: Result<Vec<BlkField>, ParseError>)
    requires
        8 * count <= info@.len(),
    ensures
        ({
            let sb = match slim_bin {
                Some(b) => Some(b@),
                None => None,
            };
            let nms = Seq::new(names@.len(), |i: int| names@[i]@);
            match params_spec(info@, 0, count as int, data@, sb, nms) {
                Err(e) => r == Err::<Vec<BlkField>, ParseError>(e),
                Ok(pm) => r matches Ok(v) && v@.len() == pm.len() && (forall|j: int|
                    0 <= j < pm.len() ==> (#[trigger] v@[j])@ == pm[j]),
            }
        }),
{
    let ghost sb = match slim_bin {
        Some(b) => Some(b@),
        None => None,
    };
    let ghost nms = Seq::new(names@.len(), |i: int| names@[i]@);
    let ghost full = params_spec(info@, 0, count as int, data@, sb, nms);
    let ilen = info.len();
    let mut out: Vec<BlkField> = Vec::new();
    let mut k: usize = 0;
    while k < count
        invariant
            0 <= k <= count,
            8 * count <= ilen,
            ilen == info@.len(),
            sb == match slim_bin {
                Some(b) => Some(b@),
                None => None,
            },
            nms == Seq::new(names@.len(), |i: int| names@[i]@),
            full == params_spec(info@, 0, count as int, data@, sb, nms),
            out@.len() == k,
            ({
                match params_spec(info@, k as int, count as int, data@, sb, nms) {
                    Err(e) => full == Err::<Seq<FieldModel>, ParseError>(e),
                    Ok(rest) => full matches Ok(pm) && pm =~= Seq::new(
                        out@.len(),
                        |j: int| out@[j]@,
                    ) + rest,
                }
            }),
        decreases count - k,
    {
        let b0 = info[8 * k];
        let b1 = info[8 * k + 1];
        let b2 = info[8 * k + 2];
        let name_id_u32 = (b0 as u32) + 0x100 * (b1 as u32) + 0x10000 * (b2 as u32);
        let name_id = name_id_u32 as usize;
        if name_id >= names.len() {
            return Err(ParseError::BadNameId);
        }
        let tag = info[8 * k + 3];
        let payload = &info[8 * k + 4..8 * k + 8];
        proof {
            assert(payload@ =~= info@.subrange(8 * (k as int) + 4, 8 * (k as int) + 8));
        }
        let value = if tag == 0x01 {
            match slim_bin {
                Some(sbv) => BlkType::from_raw_param_info(tag, payload, sbv.as_slice()),
                None => BlkType::from_raw_param_info(tag, payload, data),
            }
        } else {
            BlkType::from_raw_param_info(tag, payload, data)
        };
        let v = match value {
            Some(v) => v,
            None => {
                return Err(ParseError::BadBlkValue);
            },
        };
        let name = names[name_id].clone();
        let ghost prev = out@;
        out.push(BlkField::Value(name, v));
        proof {
            let rest = params_spec(info@, k as int, count as int, data@, sb, nms);
            let rest1 = params_spec(info@, k + 1 as int, count as int, data@, sb, nms);
            assert(nms[name_id as int] == names@[name_id as int]@);
            if rest1 is Ok {
                assert(Seq::new(prev.len(), |j: int| prev[j]@).push(
                    FieldModel::Value(nms[name_id as int], v@),
                ) =~= Seq::new(out@.len(), |j: int| out@[j]@));
                assert((Seq::new(prev.len(), |j: int| prev[j]@) + (seq![
                    FieldModel::Value(nms[name_id as int], v@),
                ] + rest1.unwrap())) =~= Seq::new(out@.len(), |j: int| out@[j]@)
                    + rest1.unwrap());
            }
        }
        k = k + 1;
    }
    proof {
        assert(Seq::<FieldModel>::empty() =~= Seq::new(0, |j: int| out@[j]@).subrange(0, 0));
        match full {
            Ok(pm) => {
                assert(pm =~= Seq::new(out@.len(), |j: int| out@[j]@) + Seq::<
                    FieldModel,
                >::empty());
                assert(pm =~= Seq::new(out@.len(), |j: int| out@[j]@));
            },
            Err(e) => {},
        }
    }
    Ok(out)
}

/// One record of the block table: name, own parameter count, child count,
/// first child index.
pub struct BlockRec {
    pub name: String,
    pub params: usize,
    pub blocks: usize,
    pub offset: usize,
}

/// The mathematical shape of a block record.
pub struct BlockRecModel {
    pub name: Seq<char>,
    pub params: int,
    pub blocks: int,
    pub offset: int,
}

impl View for BlockRec {
    type V = BlockRecModel;

    open spec fn view(&self) -> BlockRecModel {
        BlockRecModel {
            name: self.name@,
            params: self.params as int,
            blocks: self.blocks as int,
            offset: self.offset as int,
        }
    }
}

/// What decoding `remaining` block records from position `pos` yields.
/// Block name index zero names the root; any other indexes the name table
/// shifted by one. A block with children carries one more ULEB field, the
/// index of its first child.
pub open spec fn blocks_spec(
    bi: Seq<u8>,
    pos: int,
    remaining: int,
    names: Seq<Seq<char>>,
) -> Result<Seq<BlockRecModel>, ParseError>
    decreases remaining,
{
    if remaining <= 0 {
        Ok(Seq::<BlockRecModel>::empty())
    } else {
        match uleb_spec(bi.skip(pos)) {
            Err(e) => Err(e),
            Ok((l1, name_id)) => match uleb_spec(bi.skip(pos + l1)) {
                Err(e) => Err(e),
                Ok((l2, param_count)) => match uleb_spec(bi.skip(pos + l1 + l2)) {
                    Err(e) => Err(e),
                    Ok((l3, child_count)) => {
                        let name_res: Result<Seq<char>, ParseError> = if name_id == 0 {
                            Ok("root"@)
                        } else if name_id - 1 < names.len() {
                            Ok(names[name_id - 1])
                        } else {
                            Err(ParseError::BadNameId)
                        };
                        match name_res {
                            Err(e) => Err(e),
                            Ok(nm) => if child_count > 0 {
                                match uleb_spec(bi.skip(pos + l1 + l2 + l3)) {
                                    Err(e) => Err(e),
                                    Ok((l4, first_idx)) => match blocks_spec(
                                        bi,
                                        pos + l1 + l2 + l3 + l4,
                                        remaining - 1,
                                        names,
                                    ) {
                                        Err(e) => Err(e),
                                        Ok(rest) => Ok(
                                            seq![
                                                BlockRecModel {
                                                    name: nm,
                                                    params: param_count as int,
                                                    blocks: child_count as int,
                                                    offset: first_idx as int,
                                                },
                                            ] + rest,
                                        ),
                                    },
                                }
                            } else {
                                match blocks_spec(bi, pos + l1 + l2 + l3, remaining - 1, names) {
                                    Err(e) => Err(e),
                                    Ok(rest) => Ok(
                                        seq![
                                            BlockRecModel {
                                                name: nm,
                                                params: param_count as int,
                                                blocks: 0,
                                                offset: 0,
                                            },
                                        ] + rest,
                                    ),
                                }
                            },
                        }
                    },
                },
            },
        }
    }
}

/// Decodes `count` block records starting at `pos`.
pub fn decode_blocks(bi: &[u8], pos: usize, count: usize, names: &Vec<String>) -> (r: Result<
    Vec<BlockRec>,
    ParseError,
>)
    requires
        pos <= bi@.len(),
    ensures
        ({
            let nms = Seq::new(names@.len(), |i: int| names@[i]@);
            match blocks_spec(bi@, pos as int, count as int, nms) {
                Err(e) => r == Err::<Vec<BlockRec>, ParseError>(e),
                Ok(bm) => r matches Ok(v) && v@.len() == bm.len() && (forall|j: int|
                    0 <= j < bm.len() ==> (#[trigger] v@[j])@ == bm[j]),
            }
        }),
{
    let ghost nms = Seq::new(names@.len(), |i: int| names@[i]@);
    let ghost full = blocks_spec(bi@, pos as int, count as int, nms);
    let n = bi.len();
    let mut out: Vec<BlockRec> = Vec::new();
    let mut p: usize = pos;
    let mut k: usize = 0;
    while k < count
        invariant
            0 <= k <= count,
            pos <= p <= n,
            n == bi@.len(),
            nms == Seq::new(names@.len(), |i: int| names@[i]@),
            full == blocks_spec(bi@, pos as int, count as int, nms),
            out@.len() == k,
            ({
                match blocks_spec(bi@, p as int, (count - k) as int, nms) {
                    Err(e) => full == Err::<Seq<BlockRecModel>, ParseError>(e),
                    Ok(rest) => full matches Ok(bm) && bm =~= Seq::new(
                        out@.len(),
                        |j: int| out@[j]@,
                    ) + rest,
                }
            }),
        decreases count - k,
    {
        let tail = &bi[p..n];
        proof {
            assert(tail@ =~= bi@.skip(p as int));
        }
        let (l1, name_id) = match uleb128(tail) {
            Ok(x) => x,
            Err(e) => {
                return Err(e);
            },
        };
        let tail2 = &bi[p + l1..n];
        proof {
            assert(tail2@ =~= bi@.skip(p as int + l1 as int));
        }
        let (l2, param_count) = match uleb128(tail2) {
            Ok(x) => x,
            Err(e) => {
                return Err(e);
            },
        };
        let tail3 = &bi[p + l1 + l2..n];
        proof {
            assert(tail3@ =~= bi@.skip(p as int + l1 as int + l2 as int));
        }
        let (l3, child_count) = match uleb128(tail3) {
            Ok(x) => x,
            Err(e) => {
                return Err(e);
            },
        };
        let name: String = if name_id == 0 {
            String::from_str("root")
        } else {
            if name_id - 1 >= names.len() {
                return Err(ParseError::BadNameId);
            }
            names[name_id - 1].clone()
        };
        let mut consumed = l1 + l2 + l3;
        let mut blocks: usize = 0;
        let mut offset: usize = 0;
        if child_count > 0 {
            let tail4 = &bi[p + consumed..n];
            proof {
                assert(tail4@ =~= bi@.skip(p as int + consumed as int));
            }
            let (l4, first_idx) = match uleb128(tail4) {
                Ok(x) => x,
                Err(e) => {
                    return Err(e);
                },
            };
            consumed = consumed + l4;
            blocks = child_count;
            offset = first_idx;
        }
        let ghost prev = out@;
        out.push(BlockRec { name, params: param_count, blocks, offset });
        proof {
            let rest1 = blocks_spec(bi@, p as int + consumed as int, (count - k - 1) as int, nms);
            if rest1 is Ok {
                assert((Seq::new(prev.len(), |j: int| prev[j]@) + (seq![out@[prev.len() as int]@]
                    + rest1.unwrap())) =~= Seq::new(out@.len(), |j: int| out@[j]@)
                    + rest1.unwrap());
            }
        }
        p = p + consumed;
        k = k + 1;
    }
    proof {
        match full {
            Ok(bm) => {
                assert(bm =~= Seq::new(out@.len(), |j: int| out@[j]@) + Seq::<
                    BlockRecModel,
                >::empty());
                assert(bm =~= Seq::new(out@.len(), |j: int| out@[j]@));
            },
            Err(e) => {},
        }
    }
    Ok(out)
}

/// Block decoding yields one record per block.
pub proof fn lemma_blocks_spec_len(bi: Seq<u8>, pos: int, remaining: int, names: Seq<Seq<char>>)
    ensures
        blocks_spec(bi, pos, remaining, names) matches Ok(bm) ==> bm.len() == if remaining >= 0 {
            remaining
        } else {
            0
        },
    decreases remaining,
{
    if remaining > 0 {
        match uleb_spec(bi.skip(pos)) {
            Err(_) => {},
            Ok((l1, _)) => match uleb_spec(bi.skip(pos + l1)) {
                Err(_) => {},
                Ok((l2, _)) => match uleb_spec(bi.skip(pos + l1 + l2)) {
                    Err(_) => {},
                    Ok((l3, child_count)) => {
                        if child_count > 0 {
                            match uleb_spec(bi.skip(pos + l1 + l2 + l3)) {
                                Err(_) => {},
                                Ok((l4, _)) => {
                                    lemma_blocks_spec_len(
                                        bi,
                                        pos + l1 + l2 + l3 + l4,
                                        remaining - 1,
                                        names,
                                    );
                                },
                            }
                        } else {
                            lemma_blocks_spec_len(bi, pos + l1 + l2 + l3, remaining - 1, names);
                        }
                    },
                },
            },
        }
    }
}

/// What handing each block its run of parameter fields yields: block `k`
/// takes the next `params` fields, and every field must be claimed by the
/// end. A block whose claim runs past the fields makes the table
/// malformed, as does a leftover field.
pub open spec fn distribute_spec(
    recs: Seq<BlockRecModel>,
    fields: Seq<FieldModel>,
    k: int,
    ptr: int,
) -> Result<Seq<FlatBlockModel>, ParseError>
    decreases recs.len() - k,
{
    if k >= recs.len() {
        if ptr == fields.len() {
            Ok(Seq::<FlatBlockModel>::empty())
        } else {
            Err(ParseError::MalformedBlockTable)
        }
    } else {
        let rc = recs[k];
        if rc.params < 0 || ptr + rc.params > fields.len() {
            Err(ParseError::MalformedBlockTable)
        } else {
            match distribute_spec(recs, fields, k + 1, ptr + rc.params) {
                Err(e) => Err(e),
                Ok(rest) => Ok(
                    seq![
                        FlatBlockModel {
                            name: rc.name,
                            fields: fields.subrange(ptr, ptr + rc.params),
                            blocks: rc.blocks,
                            offset: rc.offset,
                        },
                    ] + rest,
                ),
            }
        }
    }
}

/// Distribution yields one flat block per record, and together the blocks
/// claim exactly all parameter fields.
pub proof fn lemma_distribute_len(
    recs: Seq<BlockRecModel>,
    fields: Seq<FieldModel>,
    k: int,
    ptr: int,
)
    requires
        0 <= k,
    ensures
        distribute_spec(recs, fields, k, ptr) matches Ok(fm) ==> fm.len() == if recs.len() >= k {
            recs.len() - k
        } else {
            0
        } && ptr + sum_params(recs, k) == fields.len(),
    decreases recs.len() - k,
{
    if k < recs.len() {
        lemma_distribute_len(recs, fields, k + 1, ptr + recs[k].params);
    }
}

/// The parameter counts claimed by records `k..`.
pub open spec fn sum_params(recs: Seq<BlockRecModel>, k: int) -> int
    decreases recs.len() - k,
{
    if k < 0 || k >= recs.len() {
        0
    } else {
        recs[k].params + sum_params(recs, k + 1)
    }
}

/// The child counts declared by the flat blocks `k..`.
pub open spec fn sum_blocks(fb: Seq<FlatBlockModel>, k: int) -> int
    decreases fb.len() - k,
{
    if k < 0 || k >= fb.len() {
        0
    } else {
        fb[k].blocks + sum_blocks(fb, k + 1)
    }
}

/// The block tree is sound: child ranges point strictly forward and stay
/// inside the table, and the child counts account for every block except
/// the root, exactly once.
pub open spec fn hierarchy_ok(fb: Seq<FlatBlockModel>) -> bool {
    wf_flat(fb) && sum_blocks(fb, 0) == fb.len() - 1
}

/// Hands each block its parameter fields, per the block records.
pub fn build_flat_blocks(recs: &Vec<BlockRec>, fields: &Vec<BlkField>) -> (r: Result<
    Vec<FlatBlock>,
    ParseError,
>)
    ensures
        ({
            let rm = Seq::new(recs@.len(), |i: int| recs@[i]@);
            let pm = Seq::new(fields@.len(), |i: int| fields@[i]@);
            match distribute_spec(rm, pm, 0, 0) {
                Err(e) => r == Err::<Vec<FlatBlock>, ParseError>(e),
                Ok(fm) => r matches Ok(v) && v@.len() == fm.len() && (forall|j: int|
                    0 <= j < fm.len() ==> (#[trigger] v@[j])@ == fm[j]),
            }
        }),
{
    let ghost rm = Seq::new(recs@.len(), |i: int| recs@[i]@);
    let ghost pm = Seq::new(fields@.len(), |i: int| fields@[i]@);
    let ghost full = distribute_spec(rm, pm, 0, 0);
    let nf = fields.len();
    let mut out: Vec<FlatBlock> = Vec::new();
    let mut ptr: usize = 0;
    let mut k: usize = 0;
    while k < recs.len()
        invariant
            0 <= k <= recs@.len(),
            0 <= ptr <= nf,
            nf == fields@.len(),
            rm == Seq::new(recs@.len(), |i: int| recs@[i]@),
            pm == Seq::new(fields@.len(), |i: int| fields@[i]@),
            full == distribute_spec(rm, pm, 0, 0),
            out@.len() == k,
            ({
                match distribute_spec(rm, pm, k as int, ptr as int) {
                    Err(e) => full == Err::<Seq<FlatBlockModel>, ParseError>(e),
                    Ok(rest) => full matches Ok(fm) && fm =~= Seq::new(
                        out@.len(),
                        |j: int| out@[j]@,
                    ) + rest,
                }
            }),
        decreases recs@.len() - k,
    {
        let rc = &recs[k];
        if rc.params > nf - ptr {
            return Err(ParseError::MalformedBlockTable);
        }
        let mut own: Vec<BlkField> = Vec::new();
        let mut j: usize = 0;
        while j < rc.params
            invariant
                0 <= j <= rc.params,
                rc == &recs@[k as int],
                ptr + rc.params <= nf,
                nf == fields@.len(),
                own@.len() == j,
                forall|t: int| 0 <= t < j ==> own@[t]@ == fields@[ptr + t]@,
            decreases rc.params - j,
        {
            let c = fields[ptr + j].clone();
            own.push(c);
            j = j + 1;
        }
        let ghost prev = out@;
        let fb = FlatBlock {
            name: rc.name.clone(),
            fields: own,
            blocks: rc.blocks,
            offset: rc.offset,
        };
        proof {
            crate::blk::structure::lemma_fields_model(fb.fields@);
            assert(fields_model(fb.fields@) =~= pm.subrange(
                ptr as int,
                ptr as int + rc.params as int,
            ));
        }
        out.push(fb);
        proof {
            let rest1 = distribute_spec(rm, pm, k + 1 as int, ptr as int + rc.params as int);
            if rest1 is Ok {
                assert((Seq::new(prev.len(), |j: int| prev[j]@) + (seq![out@[prev.len() as int]@]
                    + rest1.unwrap())) =~= Seq::new(out@.len(), |j: int| out@[j]@)
                    + rest1.unwrap());
            }
        }
        ptr = ptr + rc.params;
        k = k + 1;
    }
    if ptr != nf {
        return Err(ParseError::MalformedBlockTable);
    }
    proof {
        match full {
            Ok(fm) => {
                assert(fm =~= Seq::new(out@.len(), |j: int| out@[j]@) + Seq::<
                    FlatBlockModel,
                >::empty());
                assert(fm =~= Seq::new(out@.len(), |j: int| out@[j]@));
            },
            Err(e) => {},
        }
    }
    Ok(out)
}

/// Checks that the flat table's child ranges describe a sound tree.
pub fn check_hierarchy(flat: &Vec<FlatBlock>) -> (ok: bool)
    ensures
        ok == hierarchy_ok(crate::blk::hierarchy::flat_models(flat@)),
{
    let ghost fm = crate::blk::hierarchy::flat_models(flat@);
    let n = flat.len();
    let mut sum: u128 = 0;
    let mut i: usize = 0;
    while i < n
        invariant
            0 <= i <= n,
            n == flat@.len(),
            fm == crate::blk::hierarchy::flat_models(flat@),
            sum == sum_blocks_prefix(fm, i as int),
            sum <= (i as u128) * (usize::MAX as u128),
            forall|t: int|
                0 <= t < i ==> (#[trigger] fm[t].blocks > 0 ==> fm[t].offset > t && fm[t].offset
                    + fm[t].blocks <= n),
        decreases n - i,
    {
        let b = &flat[i];
        if b.blocks > 0 {
            if !(b.offset > i && b.blocks <= n && b.offset <= n - b.blocks) {
                proof {
                    assert(fm[i as int].blocks == b.blocks as int);
                    assert(fm[i as int].offset == b.offset as int);
                    assert(fm[i as int].blocks > 0 && !(fm[i as int].offset > i as int && fm[
                        i as int
                    ].offset + fm[i as int].blocks <= fm.len()));
                    assert(!wf_flat(fm));
                }
                return false;
            }
        }
        proof {
            assert(sum + (b.blocks as u128) <= ((i + 1) as u128) * (usize::MAX as u128))
                by (nonlinear_arith)
                requires
                    sum <= (i as u128) * (usize::MAX as u128),
                    b.blocks as u128 <= usize::MAX as u128,
            ;
        }
        sum = sum + (b.blocks as u128);
        i = i + 1;
    }
    if n == 0 {
        proof {
            assert(sum_blocks(fm, 0) == 0);
        }
        return false;
    }
    proof {
        lemma_sum_blocks_prefix(fm, n as int);
    }
    sum == (n as u128) - 1
}

/// The child counts of the first `i` flat blocks.
pub open spec fn sum_blocks_prefix(fb: Seq<FlatBlockModel>, i: int) -> int
    decreases i,
{
    if i <= 0 {
        0
    } else {
        sum_blocks_prefix(fb, i - 1) + fb[i - 1].blocks
    }
}

/// Summing prefixes front to back agrees with summing suffixes.
proof fn lemma_sum_blocks_split(fb: Seq<FlatBlockModel>, i: int)
    requires
        0 <= i <= fb.len(),
    ensures
        sum_blocks_prefix(fb, i) + sum_blocks(fb, i) == sum_blocks(fb, 0),
    decreases i,
{
    if i > 0 {
        lemma_sum_blocks_split(fb, i - 1);
        lemma_sum_blocks_step(fb, i - 1);
    }
}

proof fn lemma_sum_blocks_step(fb: Seq<FlatBlockModel>, i: int)
    requires
        0 <= i < fb.len(),
    ensures
        sum_blocks(fb, i) == fb[i].blocks + sum_blocks(fb, i + 1),
{
}

proof fn lemma_sum_blocks_prefix(fb: Seq<FlatBlockModel>, n: int)
    requires
        n == fb.len(),
    ensures
        sum_blocks_prefix(fb, n) == sum_blocks(fb, 0),
{
    lemma_sum_blocks_split(fb, n);
}

/// What parsing a whole BLK payload yields: the tree, or the exact error.
/// The header is a chain of ULEB fields; the parameter table and block
/// table follow, and the flat blocks must describe a sound tree that
/// claims every parameter exactly once.
pub open spec fn parse_blk_spec(file: Seq<u8>, slim: bool, nm: Option<NameMapModel>) -> Result<
    FieldModel,
    ParseError,
> {
    match names_stage(file, slim, nm) {
        Err(e) => Err(e),
        Ok((ptr, names)) => match uleb_spec(file.skip(ptr)) {
            Err(e) => Err(e),
            Ok((l1, blocks_count)) => match uleb_spec(file.skip(ptr + l1)) {
                Err(e) => Err(e),
                Ok((l2, params_count)) => match uleb_spec(file.skip(ptr + l1 + l2)) {
                    Err(e) => Err(e),
                    Ok((l3, params_data_size)) => {
                        let q = ptr + l1 + l2 + l3;
                        if q + params_data_size > file.len() {
                            Err(
                                ParseError::OutOfBounds {
                                    start: q as usize,
                                    len: params_data_size,
                                },
                            )
                        } else {
                            let data = file.subrange(q, q + params_data_size);
                            let q2 = q + params_data_size;
                            if params_count > (file.len() - q2) / 8 {
                                Err(ParseError::OutOfBounds { start: q2 as usize, len: params_count })
                            } else if blocks_count == 0 {
                                Err(ParseError::EmptyBlockTable)
                            } else {
                                let info = file.subrange(q2, q2 + 8 * params_count);
                                let sbin = if slim {
                                    Some(nm.unwrap().binary)
                                } else {
                                    None
                                };
                                match params_spec(info, 0, params_count as int, data, sbin, names) {
                                    Err(e) => Err(e),
                                    Ok(pm) => match blocks_spec(
                                        file.skip(q2 + 8 * params_count),
                                        0,
                                        blocks_count as int,
                                        names,
                                    ) {
                                        Err(e) => Err(e),
                                        Ok(bm) => match distribute_spec(bm, pm, 0, 0) {
                                            Err(e) => Err(e),
                                            Ok(fm) => if hierarchy_ok(fm) {
                                                Ok(build_block(fm, 0))
                                            } else {
                                                Err(ParseError::MalformedBlockTable)
                                            },
                                        },
                                    },
                                }
                            }
                        }
                    },
                },
            },
        },
    }
}

/// Parses a BLK payload into its tree. The caller has already stripped
/// the leading file-type tag byte and any Zstandard layer; a slim payload
/// needs the shared name map.
#[verifier::rlimit(100)]
pub fn parse_blk(file: &[u8], is_slim: bool, shared_name_map: Option<&NameMap>) -> (r: Result<
    BlkField,
    ParseError,
>)
    ensures
        ({
            let nmm = match shared_name_map {
                Some(m) => Some(m@),
                None => None,
            };
            match parse_blk_spec(file@, is_slim, nmm) {
                Ok(m) => r matches Ok(t) && t@ == m,
                Err(e) => r == Err::<BlkField, ParseError>(e),
            }
        }),
{
    let ghost nmm = match shared_name_map {
        Some(m) => Some(m@),
        None => None,
    };
    let n = file.len();
    // name stage
    let (h1, _names_count) = match uleb128(file) {
        Ok(x) => x,
        Err(e) => {
            return Err(e);
        },
    };
    let mut ptr: usize = h1;
    let names: Vec<String> = if is_slim {
        match shared_name_map {
            None => {
                return Err(ParseError::MissingNameMap);
            },
            Some(m) => clone_names(&m.parsed),
        }
    } else {
        let tail = &file[h1..n];
        proof {
            assert(tail@ =~= file@.skip(h1 as int));
        }
        let (h2, sz) = match uleb128(tail) {
            Ok(x) => x,
            Err(e) => {
                return Err(e);
            },
        };
        if sz > n - h1 - h2 {
            return Err(ParseError::OutOfBounds { start: h1 + h2, len: sz });
        }
        let section = &file[h1 + h2..h1 + h2 + sz];
        proof {
            assert(section@ =~= file@.subrange(
                h1 as int + h2 as int,
                h1 as int + h2 as int + sz as int,
            ));
        }
        ptr = h1 + h2 + sz;
        match crate::blk::nm_file::parse_name_section(section) {
            Ok(v) => v,
            Err(e) => {
                return Err(e);
            },
        }
    };
    let ghost stage = names_stage(file@, is_slim, nmm);
    let ghost nms = Seq::new(names@.len(), |i: int| names@[i]@);
    proof {
        assert(stage matches Ok(p) && p.0 == ptr as int && p.1 =~= nms);
    }
    // counts
    let tail = &file[ptr..n];
    proof {
        assert(tail@ =~= file@.skip(ptr as int));
    }
    let (l1, blocks_count) = match uleb128(tail) {
        Ok(x) => x,
        Err(e) => {
            return Err(e);
        },
    };
    let tail = &file[ptr + l1..n];
    proof {
        assert(tail@ =~= file@.skip(ptr as int + l1 as int));
    }
    let (l2, params_count) = match uleb128(tail) {
        Ok(x) => x,
        Err(e) => {
            return Err(e);
        },
    };
    let tail = &file[ptr + l1 + l2..n];
    proof {
        assert(tail@ =~= file@.skip(ptr as int + l1 as int + l2 as int));
    }
    let (l3, params_data_size) = match uleb128(tail) {
        Ok(x) => x,
        Err(e) => {
            return Err(e);
        },
    };
    let q = ptr + l1 + l2 + l3;
    if params_data_size > n - q {
        return Err(ParseError::OutOfBounds { start: q, len: params_data_size });
    }
    let data = &file[q..q + params_data_size];
    proof {
        assert(data@ =~= file@.subrange(q as int, q as int + params_data_size as int));
    }
    let q2 = q + params_data_size;
    if params_count > (n - q2) / 8 {
        return Err(ParseError::OutOfBounds { start: q2, len: params_count });
    }
    if blocks_count == 0 {
        return Err(ParseError::EmptyBlockTable);
    }
    let info = &file[q2..q2 + 8 * params_count];
    proof {
        assert(info@ =~= file@.subrange(q2 as int, q2 as int + 8 * params_count as int));
    }
    let slim_bin: Option<&Vec<u8>> = if is_slim {
        match shared_name_map {
            Some(m) => Some(&m.binary),
            None => None,
        }
    } else {
        None
    };
    let fields = match decode_params(info, params_count, data, slim_bin, &names) {
        Ok(v) => v,
        Err(e) => {
            return Err(e);
        },
    };
    let bi = &file[q2 + 8 * params_count..n];
    proof {
        assert(bi@ =~= file@.skip(q2 as int + 8 * params_count as int));
    }
    let recs = match decode_blocks(bi, 0, blocks_count, &names) {
        Ok(v) => v,
        Err(e) => {
            return Err(e);
        },
    };
    proof {
        let sbin = if is_slim {
            Some(nmm.unwrap().binary)
        } else {
            None
        };
        assert(blocks_spec(bi@, 0, blocks_count as int, nms) == blocks_spec(
            file@.skip(q2 as int + 8 * params_count as int),
            0,
            blocks_count as int,
            nms,
        ));
    }
    proof {
        let rm = Seq::new(recs@.len(), |i: int| recs@[i]@);
        let pm = Seq::new(fields@.len(), |i: int| fields@[i]@);
        let sbin = if is_slim {
            Some(nmm.unwrap().binary)
        } else {
            None
        };
        let pspec = params_spec(info@, 0, params_count as int, data@, sbin, nms);
        let bspec = blocks_spec(bi@, 0, blocks_count as int, nms);
        assert(pm =~= pspec.unwrap());
        assert(rm =~= bspec.unwrap());
    }
    let flat = match build_flat_blocks(&recs, &fields) {
        Ok(v) => v,
        Err(e) => {
            return Err(e);
        },
    };
    proof {
        let rm = Seq::new(recs@.len(), |i: int| recs@[i]@);
        let pm = Seq::new(fields@.len(), |i: int| fields@[i]@);
        let fm = distribute_spec(rm, pm, 0, 0).unwrap();
        assert(crate::blk::hierarchy::flat_models(flat@) =~= fm);
    }
    if !check_hierarchy(&flat) {
        return Err(ParseError::MalformedBlockTable);
    }
    proof {
        let rm = Seq::new(recs@.len(), |i: int| recs@[i]@);
        let pm = Seq::new(fields@.len(), |i: int| fields@[i]@);
        lemma_distribute_len(rm, pm, 0, 0);
        lemma_blocks_spec_len(bi@, 0, blocks_count as int, nms);
        assert(flat@.len() == blocks_count);
    }
    let tree = BlkField::from_flat_blocks(flat);
    Ok(tree)
}

/// Block tree covers: on a table that distribution accepts, summing the
/// blocks' parameter counts claims exactly the parameter records; and
/// when the hierarchy check passes as well, the blocks' child counts plus
/// one (for the root) account for exactly the block count.
pub proof fn lemma_block_tree_covers(
    info: Seq<u8>,
    count: int,
    data: Seq<u8>,
    slim_bin: Option<Seq<u8>>,
    names: Seq<Seq<char>>,
    bi: Seq<u8>,
    blocks_count: int,
)
    requires
        0 <= count,
        0 <= blocks_count,
        params_spec(info, 0, count, data, slim_bin, names) is Ok,
        blocks_spec(bi, 0, blocks_count, names) is Ok,
        distribute_spec(
            blocks_spec(bi, 0, blocks_count, names).unwrap(),
            params_spec(info, 0, count, data, slim_bin, names).unwrap(),
            0,
            0,
        ) is Ok,
    ensures
        sum_params(blocks_spec(bi, 0, blocks_count, names).unwrap(), 0) == count,
        hierarchy_ok(
            distribute_spec(
                blocks_spec(bi, 0, blocks_count, names).unwrap(),
                params_spec(info, 0, count, data, slim_bin, names).unwrap(),
                0,
                0,
            ).unwrap(),
        ) ==> sum_blocks(
            distribute_spec(
                blocks_spec(bi, 0, blocks_count, names).unwrap(),
                params_spec(info, 0, count, data, slim_bin, names).unwrap(),
                0,
                0,
            ).unwrap(),
            0,
        ) == blocks_count - 1,
{
    let recs = blocks_spec(bi, 0, blocks_count, names).unwrap();
    let fields = params_spec(info, 0, count, data, slim_bin, names).unwrap();
    lemma_params_spec_len(info, 0, count, data, slim_bin, names);
    lemma_blocks_spec_len(bi, 0, blocks_count, names);
    lemma_distribute_len(recs, fields, 0, 0);
}

/// Every child is a plain value node.
pub open spec fn all_values(fs: Seq<FieldModel>) -> bool {
    forall|i: int| 0 <= i < fs.len() ==> (#[trigger] fs[i]) is Value
}

/// Decoded parameter records are all value nodes.
proof fn lemma_params_all_values(
    info: Seq<u8>,
    k: int,
    count: int,
    data: Seq<u8>,
    slim_bin: Option<Seq<u8>>,
    names: Seq<Seq<char>>,
)
    ensures
        params_spec(info, k, count, data, slim_bin, names) matches Ok(pm) ==> all_values(pm),
    decreases count - k,
{
    if k < count {
        lemma_params_all_values(info, k + 1, count, data, slim_bin, names);
    }
}

/// Distribution hands every block only value nodes, when the parameter
/// fields are all values.
proof fn lemma_distribute_all_values(
    recs: Seq<BlockRecModel>,
    fields: Seq<FieldModel>,
    k: int,
    ptr: int,
)
    requires
        all_values(fields),
        0 <= ptr,
    ensures
        distribute_spec(recs, fields, k, ptr) matches Ok(fm) ==> forall|t: int|
            0 <= t < fm.len() ==> all_values(#[trigger] fm[t].fields),
    decreases recs.len() - k,
{
    if k < recs.len() && recs[k].params >= 0 && ptr + recs[k].params <= fields.len() {
        lemma_distribute_all_values(recs, fields, k + 1, ptr + recs[k].params);
        match distribute_spec(recs, fields, k, ptr) {
            Ok(fm) => {
                assert forall|t: int|
                    0 <= t < fm.len() implies all_values(#[trigger] fm[t].fields) by {
                    if t == 0 {
                        let own = fields.subrange(ptr, ptr + recs[k].params);
                        assert forall|u: int|
                            0 <= u < own.len() implies (#[trigger] own[u]) is Value by {
                            assert(own[u] == fields[ptr + u]);
                        }
                    } else {
                        let rest = distribute_spec(recs, fields, k + 1, ptr + recs[k].params);
                        assert(fm[t] == rest.unwrap()[t - 1]);
                    }
                }
            },
            Err(_) => {},
        }
    }
}

/// The rebuilt tree holds no `Merged` node: its fields are value nodes
/// and its children are structs built the same way.
proof fn lemma_build_merged_free(fb: Seq<FlatBlockModel>, i: int)
    requires
        wf_flat(fb),
        0 <= i < fb.len(),
        forall|t: int| 0 <= t < fb.len() ==> all_values(#[trigger] fb[t].fields),
    ensures
        merged_free(build_block(fb, i)),
    decreases fb.len() - i, 0nat,
{
    let b = fb[i];
    let kids = if b.blocks > 0 {
        build_children(fb, b.offset, b.blocks)
    } else {
        Seq::<FieldModel>::empty()
    };
    if b.blocks > 0 {
        lemma_build_children_merged_free(fb, b.offset, b.blocks);
    }
    let all = b.fields + kids;
    crate::blk::merge::lemma_all_merged_free_iff(all);
    assert forall|t: int| 0 <= t < all.len() implies merged_free(#[trigger] all[t]) by {
        if t < b.fields.len() {
            assert(all[t] == b.fields[t]);
            assert(b.fields[t] is Value);
        } else {
            assert(all[t] == kids[t - b.fields.len()]);
        }
    }
}

/// Every rebuilt child subtree holds no `Merged` node.
proof fn lemma_build_children_merged_free(fb: Seq<FlatBlockModel>, from: int, count: int)
    requires
        wf_flat(fb),
        0 < from,
        0 <= count,
        from + count <= fb.len(),
        forall|t: int| 0 <= t < fb.len() ==> all_values(#[trigger] fb[t].fields),
    ensures
        forall|t: int|
            0 <= t < build_children(fb, from, count).len() ==> merged_free(
                #[trigger] build_children(fb, from, count)[t],
            ),
    decreases fb.len() - from, count,
{
    if count > 0 {
        lemma_build_merged_free(fb, from);
        lemma_build_children_merged_free(fb, from + 1, count - 1);
        assert forall|t: int|
            0 <= t < build_children(fb, from, count).len() implies merged_free(
            #[trigger] build_children(fb, from, count)[t],
        ) by {
            if t > 0 {
                assert(build_children(fb, from, count)[t] == build_children(
                    fb,
                    from + 1,
                    count - 1,
                )[t - 1]);
            } else {
                assert(build_children(fb, from, count)[0] == build_block(fb, from));
            }
        }
    }
}

/// A parsed tree never holds a `Merged` node: those arise only from the
/// emitter's merge pass.
pub proof fn lemma_parse_blk_merged_free(file: Seq<u8>, slim: bool, nm: Option<NameMapModel>)
    ensures
        parse_blk_spec(file, slim, nm) matches Ok(m) ==> merged_free(m),
{
    match names_stage(file, slim, nm) {
        Err(_) => {},
        Ok((ptr, names)) => match uleb_spec(file.skip(ptr)) {
            Err(_) => {},
            Ok((l1, blocks_count)) => match uleb_spec(file.skip(ptr + l1)) {
                Err(_) => {},
                Ok((l2, params_count)) => match uleb_spec(file.skip(ptr + l1 + l2)) {
                    Err(_) => {},
                    Ok((l3, params_data_size)) => {
                        let q = ptr + l1 + l2 + l3;
                        if q + params_data_size <= file.len() {
                            let data = file.subrange(q, q + params_data_size);
                            let q2 = q + params_data_size;
                            if params_count <= (file.len() - q2) / 8 && blocks_count != 0 {
                                let info = file.subrange(q2, q2 + 8 * params_count);
                                let sbin = if slim {
                                    Some(nm.unwrap().binary)
                                } else {
                                    None
                                };
                                match params_spec(info, 0, params_count as int, data, sbin, names) {
                                    Err(_) => {},
                                    Ok(pm) => {
                                        let bi = file.skip(q2 + 8 * params_count);
                                        match blocks_spec(bi, 0, blocks_count as int, names) {
                                            Err(_) => {},
                                            Ok(bm) => match distribute_spec(bm, pm, 0, 0) {
                                                Err(_) => {},
                                                Ok(fm) => if hierarchy_ok(fm) {
                                                    lemma_params_all_values(
                                                        info,
                                                        0,
                                                        params_count as int,
                                                        data,
                                                        sbin,
                                                        names,
                                                    );
                                                    lemma_distribute_all_values(bm, pm, 0, 0);
                                                    lemma_distribute_len(bm, pm, 0, 0);
                                                    lemma_blocks_spec_len(
                                                        bi,
                                                        0,
                                                        blocks_count as int,
                                                        names,
                                                    );
                                                    lemma_build_merged_free(fm, 0);
                                                },
                                            },
                                        }
                                    },
                                }
                            }
                        }
                    },
                },
            },
        },
    }
}

/// An exact copy of the shared name list.
fn clone_names(v: &Vec<String>) -> (r: Vec<String>)
    ensures
        r@.len() == v@.len(),
        forall|i: int| 0 <= i < v@.len() ==> (#[trigger] r@[i])@ == v@[i]@,
{
    let mut out: Vec<String> = Vec::new();
    let mut i: usize = 0;
    while i < v.len()
        invariant
            0 <= i <= v@.len(),
            out@.len() == i,
            forall|j: int| 0 <= j < i ==> (#[trigger] out@[j])@ == v@[j]@,
        decreases v@.len() - i,
    {
        let s = v[i].clone();
        out.push(s);
        i = i + 1;
    }
    out
}

} // verus!
