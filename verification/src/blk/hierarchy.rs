//! Rebuilding the nested BLK tree from the flat block table.
//!
//! The block-info table lists blocks in file order; each block owns a run
//! of parameter records and, when it has children, the index of its first
//! child block. The tree is materialised by recursive descent over those
//! index ranges, which the parser has validated to point strictly forward.

use vstd::prelude::*;

use crate::blk::structure::{field_model, fields_model, BlkField, FieldModel};

verus! {

/// One block of the flat table: its name, its own parameter fields, its
/// child count, and the index of its first child block.
#[derive(Debug, Clone)]
pub struct FlatBlock {
    pub name: String,
    pub fields: Vec<BlkField>,
    pub blocks: usize,
    pub offset: usize,
}

/// The mathematical shape of a flat block.
pub struct FlatBlockModel {
    pub name: Seq<char>,
    pub fields: Seq<FieldModel>,
    pub blocks: int,
    pub offset: int,
}

impl View for FlatBlock {
    type V = FlatBlockModel;

    open spec fn view(&self) -> FlatBlockModel {
        FlatBlockModel {
            name: self.name@,
            fields: fields_model(self.fields@),
            blocks: self.blocks as int,
            offset: self.offset as int,
        }
    }
}

/// The models of the whole flat table.
pub open spec fn flat_models(s: Seq<FlatBlock>) -> Seq<FlatBlockModel> {
    Seq::new(s.len(), |i: int| s[i]@)
}

/// Every block with children points strictly past itself, and its child
/// range stays inside the table. This is what makes the recursive descent
/// terminate.
pub open spec fn wf_flat(fb: Seq<FlatBlockModel>) -> bool {
    forall|i: int|
        0 <= i < fb.len() ==> (#[trigger] fb[i].blocks > 0 ==> fb[i].offset > i && fb[i].offset
            + fb[i].blocks <= fb.len())
}

/// The struct built from block `i`: its own fields followed by the
/// subtrees built from its child range.
pub open spec fn build_block(fb: Seq<FlatBlockModel>, i: int) -> FieldModel
    decreases fb.len() - i, 0nat
        when wf_flat(fb) && 0 <= i < fb.len()
{
    let b = fb[i];
    FieldModel::Struct(
        b.name,
        b.fields + if b.blocks > 0 {
            build_children(fb, b.offset, b.blocks)
        } else {
            Seq::<FieldModel>::empty()
        },
    )
}

/// The subtrees built from blocks `[from, from + count)`.
pub open spec fn build_children(fb: Seq<FlatBlockModel>, from: int, count: int) -> Seq<FieldModel>
    decreases fb.len() - from, count
        when wf_flat(fb) && 0 < from && count >= 0 && from + count <= fb.len()
{
    if count <= 0 {
        Seq::<FieldModel>::empty()
    } else {
        seq![build_block(fb, from)] + build_children(fb, from + 1, count - 1)
    }
}

/// Appending the next child extends the built range by one subtree.
proof fn lemma_build_children_snoc(fb: Seq<FlatBlockModel>, from: int, k: int)
    requires
        wf_flat(fb),
        0 < from,
        0 <= k,
        from + k + 1 <= fb.len(),
    ensures
        build_children(fb, from, k + 1) == build_children(fb, from, k).push(
            build_block(fb, from + k),
        ),
    decreases k,
{
    if k == 0 {
        reveal_with_fuel(build_children, 3);
        assert(build_children(fb, from, 1) =~= build_children(fb, from, 0).push(
            build_block(fb, from),
        ));
    } else {
        lemma_build_children_snoc(fb, from + 1, k - 1);
        assert(build_children(fb, from, k + 1) =~= build_children(fb, from, k).push(
            build_block(fb, from + k),
        ));
    }
}

impl BlkField {
    /// Rebuilds the nested tree from a validated flat block table, rooted
    /// at block zero.
    pub fn from_flat_blocks(flat_blocks: Vec<FlatBlock>) -> (r: BlkField)
        requires
            flat_blocks@.len() > 0,
            wf_flat(flat_models(flat_blocks@)),
        ensures
            r@ == build_block(flat_models(flat_blocks@), 0),
    {
        Self::from_flat_blocks_with_parent(&flat_blocks, 0)
    }

    /// Builds the subtree rooted at block `i`.
    fn from_flat_blocks_with_parent(flat: &Vec<FlatBlock>, i: usize) -> (r: BlkField)
        requires
            i < flat@.len(),
            wf_flat(flat_models(flat@)),
        ensures
            r@ == build_block(flat_models(flat@), i as int),
        decreases flat@.len() - i,
    {
        let ghost fb = flat_models(flat@);
        let n = flat.len();
        let b = &flat[i];
        let own = clone_fields(&b.fields);
        let ghost own_model = fields_model(flat@[i as int].fields@);
        let mut node = BlkField::Struct(b.name.clone(), own);
        if b.blocks > 0 {
            let mut k: usize = 0;
            proof {
                assert(fb[i as int].blocks == b.blocks as int);
                assert(node@ == FieldModel::Struct(
                    fb[i as int].name,
                    fb[i as int].fields + build_children(fb, fb[i as int].offset, 0),
                )) by {
                    assert(build_children(fb, fb[i as int].offset, 0)
                        =~= Seq::<FieldModel>::empty());
                    assert(fields_model(own@) + Seq::<FieldModel>::empty() =~= fields_model(own@));
                }
            }
            while k < b.blocks
                invariant
                    0 <= k <= b.blocks,
                    i < flat@.len(),
                    wf_flat(fb),
                    fb == flat_models(flat@),
                    b == &flat@[i as int],
                    fb[i as int].blocks == b.blocks as int,
                    fb[i as int].offset == b.offset as int,
                    fb[i as int].blocks > 0,
                    n == flat@.len(),
                    b.offset + b.blocks <= n,
                    node@ == FieldModel::Struct(
                        fb[i as int].name,
                        fb[i as int].fields + build_children(fb, fb[i as int].offset, k as int),
                    ),
                decreases b.blocks - k,
            {
                let child = Self::from_flat_blocks_with_parent(flat, b.offset + k);
                let inserted = node.insert_field(child);
                proof {
                    lemma_build_children_snoc(fb, fb[i as int].offset, k as int);
                    assert(fb[i as int].fields + build_children(
                        fb,
                        fb[i as int].offset,
                        k as int + 1,
                    ) =~= (fb[i as int].fields + build_children(
                        fb,
                        fb[i as int].offset,
                        k as int,
                    )).push(build_block(fb, fb[i as int].offset + k)));
                }
                k = k + 1;
            }
            node
        } else {
            proof {
                assert(fields_model(own@) + Seq::<FieldModel>::empty() =~= fields_model(own@));
            }
            node
        }
    }
}

/// An exact copy of a child vector.
fn clone_fields(v: &Vec<BlkField>) -> (r: Vec<BlkField>)
    ensures
        fields_model(r@) == fields_model(v@),
{
    let mut out: Vec<BlkField> = Vec::new();
    let mut i: usize = 0;
    while i < v.len()
        invariant
            0 <= i <= v@.len(),
            out@.len() == i,
            forall|j: int| 0 <= j < i ==> out@[j]@ == field_model(v@[j]),
        decreases v@.len() - i,
    {
        let c = v[i].clone();
        out.push(c);
        i = i + 1;
    }
    proof {
        crate::blk::structure::lemma_fields_model(out@);
        crate::blk::structure::lemma_fields_model(v@);
        assert(fields_model(out@) =~= fields_model(v@));
    }
    out
}

} // verus!
