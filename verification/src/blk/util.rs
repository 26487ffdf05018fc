//! Small helpers shared across the BLK modules, and the strict test
//! fixture tree that the samples encode.

use vstd::prelude::*;

use crate::blk::structure::{BlkField, FieldModel};
use crate::blk::types::{BlkType, TypeModel};

verus! {

/// An owned string from a literal.
pub fn blk_str(s: &str) -> (r: String)
    ensures
        r@ == s@,
{
    String::from_str(s)
}

/// The `gamma` subtree of the reference fixture.
pub open spec fn gamma_model() -> FieldModel {
    FieldModel::Struct(
        "gamma"@,
        seq![
            FieldModel::Value("vec2i"@, TypeModel::Int2(seq![3i32, 4i32])),
            FieldModel::Value("vec2f"@, TypeModel::Float2(seq![0x3fa00000u32, 0x40200000u32])),
            FieldModel::Value(
                "transform"@,
                TypeModel::Float12(
                    seq![
                        0x3f800000u32, 0u32, 0u32, 0u32, 0x3f800000u32, 0u32, 0u32, 0u32,
                        0x3f800000u32, 0x3fa00000u32, 0x40200000u32, 0x40a00000u32,
                    ],
                ),
            ),
        ],
    )
}

/// The `alpha` subtree of the reference fixture.
pub open spec fn alpha_model() -> FieldModel {
    FieldModel::Struct(
        "alpha"@,
        seq![
            FieldModel::Value("str"@, TypeModel::Str("hello"@)),
            FieldModel::Value("bool"@, TypeModel::Bool(true)),
            FieldModel::Value("color"@, TypeModel::Color { r: 3, g: 2, b: 1, a: 4 }),
            gamma_model(),
        ],
    )
}

/// The `beta` subtree of the reference fixture.
pub open spec fn beta_model() -> FieldModel {
    FieldModel::Struct(
        "beta"@,
        seq![
            FieldModel::Value("float"@, TypeModel::Float(0x3fa00000)),
            FieldModel::Value("vec2i"@, TypeModel::Int2(seq![1i32, 2i32])),
            FieldModel::Value(
                "vec3f"@,
                TypeModel::Float3(seq![0x3fa00000u32, 0x40200000u32, 0x40a00000u32]),
            ),
        ],
    )
}

/// The reference tree the fat sample encodes: a root with three values
/// and the `alpha` and `beta` subtrees.
pub open spec fn strict_test_model() -> FieldModel {
    FieldModel::Struct(
        "root"@,
        seq![
            FieldModel::Value(
                "vec4f"@,
                TypeModel::Float4(seq![0x3fa00000u32, 0x40200000u32, 0x40a00000u32, 0x41200000u32]),
            ),
            FieldModel::Value("int"@, TypeModel::Int(42)),
            FieldModel::Value("long"@, TypeModel::Long(64)),
            alpha_model(),
            beta_model(),
        ],
    )
}

/// Builds the reference tree. Float payloads are IEEE-754 bits.
pub fn make_strict_test() -> (r: BlkField)
    ensures
        r@ == strict_test_model(),
{
    let mut gamma = BlkField::new_struct(blk_str("gamma"));
    let mut v: Vec<i32> = Vec::new();
    v.push(3);
    v.push(4);
    let _ = gamma.insert_field(BlkField::Value(blk_str("vec2i"), BlkType::Int2(v)));
    let mut v: Vec<u32> = Vec::new();
    v.push(0x3fa00000);
    v.push(0x40200000);
    let _ = gamma.insert_field(BlkField::Value(blk_str("vec2f"), BlkType::Float2(v)));
    let mut v: Vec<u32> = Vec::new();
    v.push(0x3f800000);
    v.push(0);
    v.push(0);
    v.push(0);
    v.push(0x3f800000);
    v.push(0);
    v.push(0);
    v.push(0);
    v.push(0x3f800000);
    v.push(0x3fa00000);
    v.push(0x40200000);
    v.push(0x40a00000);
    let _ = gamma.insert_field(BlkField::Value(blk_str("transform"), BlkType::Float12(v)));
    proof {
        lemma_three_children(gamma@, gamma_model());
    }

    let mut alpha = BlkField::new_struct(blk_str("alpha"));
    let _ = alpha.insert_field(BlkField::Value(blk_str("str"), BlkType::Str(blk_str("hello"))));
    let _ = alpha.insert_field(BlkField::Value(blk_str("bool"), BlkType::Bool(true)));
    let _ = alpha.insert_field(
        BlkField::Value(blk_str("color"), BlkType::Color { r: 3, g: 2, b: 1, a: 4 }),
    );
    let _ = alpha.insert_field(gamma);
    proof {
        lemma_four_children(alpha@, alpha_model());
    }

    let mut beta = BlkField::new_struct(blk_str("beta"));
    let _ = beta.insert_field(BlkField::Value(blk_str("float"), BlkType::Float(0x3fa00000)));
    let mut v: Vec<i32> = Vec::new();
    v.push(1);
    v.push(2);
    let _ = beta.insert_field(BlkField::Value(blk_str("vec2i"), BlkType::Int2(v)));
    let mut v: Vec<u32> = Vec::new();
    v.push(0x3fa00000);
    v.push(0x40200000);
    v.push(0x40a00000);
    let _ = beta.insert_field(BlkField::Value(blk_str("vec3f"), BlkType::Float3(v)));
    proof {
        lemma_three_children(beta@, beta_model());
    }

    let mut root = BlkField::new_root();
    let mut v: Vec<u32> = Vec::new();
    v.push(0x3fa00000);
    v.push(0x40200000);
    v.push(0x40a00000);
    v.push(0x41200000);
    let _ = root.insert_field(BlkField::Value(blk_str("vec4f"), BlkType::Float4(v)));
    let _ = root.insert_field(BlkField::Value(blk_str("int"), BlkType::Int(42)));
    let _ = root.insert_field(BlkField::Value(blk_str("long"), BlkType::Long(64)));
    let _ = root.insert_field(alpha);
    let _ = root.insert_field(beta);
    proof {
        lemma_five_children(root@, strict_test_model());
    }
    root
}

/// Structs with the same name and three pairwise equal children are equal.
proof fn lemma_three_children(a: FieldModel, b: FieldModel)
    requires
        a matches FieldModel::Struct(n1, f1) && b matches FieldModel::Struct(n2, f2) && n1 == n2
            && f1.len() == 3 && f2.len() == 3 && f1[0] =~~= f2[0] && f1[1] =~~= f2[1] && f1[2]
            =~~= f2[2],
    ensures
        a == b,
{
    assert(a->Struct_1 =~= b->Struct_1);
}

/// Structs with the same name and four pairwise equal children are equal.
proof fn lemma_four_children(a: FieldModel, b: FieldModel)
    requires
        a matches FieldModel::Struct(n1, f1) && b matches FieldModel::Struct(n2, f2) && n1 == n2
            && f1.len() == 4 && f2.len() == 4 && f1[0] =~~= f2[0] && f1[1] =~~= f2[1] && f1[2]
            =~~= f2[2] && f1[3] =~~= f2[3],
    ensures
        a == b,
{
    assert(a->Struct_1 =~= b->Struct_1);
}

/// Structs with the same name and five pairwise equal children are equal.
proof fn lemma_five_children(a: FieldModel, b: FieldModel)
    requires
        a matches FieldModel::Struct(n1, f1) && b matches FieldModel::Struct(n2, f2) && n1 == n2
            && f1.len() == 5 && f2.len() == 5 && f1[0] =~~= f2[0] && f1[1] =~~= f2[1] && f1[2]
            =~~= f2[2] && f1[3] =~~= f2[3] && f1[4] =~~= f2[4],
    ensures
        a == b,
{
    assert(a->Struct_1 =~= b->Struct_1);
}

} // verus!
