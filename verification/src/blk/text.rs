//! The block-plaintext emitter: `name:value` leaves, tab-indented
//! `name { ... }` blocks, and the root's children emitted without an
//! enclosing brace pair. `Merged` nodes have no block-text form and are
//! rejected.

use vstd::prelude::*;
use vstd::string::StringSliceAdditionalSpecFns;
use vstd::utf8::encode_utf8;

use crate::blk::error::ParseError;
use crate::blk::merge::merged_free;
use crate::blk::structure::{field_model, BlkField, FieldModel};
use crate::blk::types::TypeModel;
use crate::strutil::{dec_digits, dec_int, f32_dec, lemma_ascii_valid, lemma_dec_digits_ascii, lemma_dec_int_ascii, lemma_f32_dec_valid, push_f32_dec, push_i64_dec, push_u64_dec};
use vstd::utf8::valid_utf8;

verus! {

/// Shorthand for the UTF-8 bytes of a literal.
pub open spec fn lit(s: &str) -> Seq<u8> {
    s.spec_bytes()
}

/// Comma-joined decimal renderings of float bit patterns.
pub open spec fn f32_list(v: Seq<u32>) -> Seq<u8>
    decreases v.len(),
{
    if v.len() == 0 {
        Seq::<u8>::empty()
    } else if v.len() == 1 {
        f32_dec(v[0])
    } else {
        f32_dec(v[0]) + lit(", ") + f32_list(v.subrange(1, v.len() as int))
    }
}

/// Comma-joined decimal renderings of signed integers.
pub open spec fn i32_list(v: Seq<i32>) -> Seq<u8>
    decreases v.len(),
{
    if v.len() == 0 {
        Seq::<u8>::empty()
    } else if v.len() == 1 {
        dec_int(v[0] as int)
    } else {
        dec_int(v[0] as int) + lit(", ") + i32_list(v.subrange(1, v.len() as int))
    }
}

/// Bracketed rows of three float renderings each.
pub open spec fn f32_rows(v: Seq<u32>) -> Seq<u8>
    decreases v.len(),
{
    if v.len() == 0 {
        Seq::<u8>::empty()
    } else if v.len() <= 3 {
        lit("[") + f32_list(v) + lit("]")
    } else {
        lit("[") + f32_list(v.subrange(0, 3)) + lit("] ") + f32_rows(v.subrange(3, v.len() as int))
    }
}

/// The plaintext rendering of one typed value, with its type prefix.
pub open spec fn text_value(v: TypeModel) -> Seq<u8> {
    match v {
        TypeModel::Str(s) => lit("t=\"") + encode_utf8(s) + lit("\""),
        TypeModel::Int(x) => lit("i=") + dec_int(x as int),
        TypeModel::Long(x) => lit("i64=") + dec_int(x as int),
        TypeModel::Float(b) => lit("r=") + f32_dec(b),
        TypeModel::Float2(v) => lit("p2=") + f32_list(v),
        TypeModel::Float3(v) => lit("p3=") + f32_list(v),
        TypeModel::Float4(v) => lit("p4=") + f32_list(v),
        TypeModel::Int2(v) => lit("ip2=") + i32_list(v),
        TypeModel::Int3(v) => lit("ip3=") + i32_list(v),
        TypeModel::Bool(b) => if b {
            lit("b=true")
        } else {
            lit("b=false")
        },
        TypeModel::Color { r, g, b, a } => lit("c=") + dec_digits(r as nat) + lit(", ")
            + dec_digits(g as nat) + lit(", ") + dec_digits(b as nat) + lit(", ") + dec_digits(
            a as nat,
        ),
        TypeModel::Float12(v) => lit("m=[") + f32_rows(v) + lit("]"),
    }
}

/// The plaintext rendering of a node. `child_ind` prefixes each child
/// line; a non-root struct wraps its children in braces, closing at
/// `closing_ind`. `Merged` nodes have no rendering; callers reject them
/// first.
pub open spec fn text_node(m: FieldModel, child_ind: Seq<u8>, closing_ind: Seq<u8>, root: bool) -> Seq<u8>
    decreases m, 1nat,
    via text_node_decreases
{
    match m {
        FieldModel::Value(n, v) => encode_utf8(n) + lit(":") + text_value(v),
        FieldModel::Struct(n, fs) => {
            let kids = text_children(fs, child_ind);
            if root {
                kids
            } else {
                encode_utf8(n) + lit(" {\n") + kids + lit("\n") + closing_ind + lit("}")
            }
        },
        FieldModel::Merged(n, fs) => Seq::<u8>::empty(),
    }
}

#[via_fn]
proof fn text_node_decreases(m: FieldModel, child_ind: Seq<u8>, closing_ind: Seq<u8>, root: bool) {
    match m {
        FieldModel::Struct(n, fs) => {
            assert(decreases_to!(m => m->Struct_1));
        },
        _ => {},
    }
}

/// The newline-joined child lines, each prefixed with the indent.
pub open spec fn text_children(fs: Seq<FieldModel>, ind: Seq<u8>) -> Seq<u8>
    decreases fs, 0nat,
{
    if fs.len() == 0 {
        Seq::<u8>::empty()
    } else {
        let line = ind + text_node(fs[0], ind + lit("\t"), ind, false);
        if fs.len() == 1 {
            line
        } else {
            line + lit("\n") + text_children(fs.subrange(1, fs.len() as int), ind)
        }
    }
}

/// Appends a literal's UTF-8 bytes.
pub fn push_lit(out: &mut Vec<u8>, s: &str)
    ensures
        final(out)@ == old(out)@ + s.spec_bytes(),
{
    out.extend_from_slice(s.as_bytes());
}

/// Appends the comma-joined float list.
fn push_f32_list(out: &mut Vec<u8>, v: &Vec<u32>)
    ensures
        final(out)@ == old(out)@ + f32_list(v@),
{
    proof {
        assert(v@.skip(0) =~= v@);
    }
    let mut i: usize = 0;
    while i < v.len()
        invariant
            0 <= i <= v@.len(),
            i < v@.len() ==> out@ + f32_list(v@.skip(i as int)) == old(out)@ + f32_list(v@),
            i == v@.len() ==> out@ == old(out)@ + f32_list(v@),
        decreases v@.len() - i,
    {
        push_f32_dec(out, v[i]);
        proof {
            assert(v@.skip(i as int)[0] == v@[i as int]);
            assert(v@.skip(i as int).subrange(1, v@.skip(i as int).len() as int) =~= v@.skip(
                i as int + 1,
            ));
        }
        if i + 1 < v.len() {
            push_lit(out, ", ");
        }
        i = i + 1;
    }
    proof {
        if v@.len() == 0 {
            assert(out@ =~= old(out)@ + f32_list(v@));
        }
    }
}

/// Appends the comma-joined signed integer list.
fn push_i32_list(out: &mut Vec<u8>, v: &Vec<i32>)
    ensures
        final(out)@ == old(out)@ + i32_list(v@),
{
    proof {
        assert(v@.skip(0) =~= v@);
    }
    let mut i: usize = 0;
    while i < v.len()
        invariant
            0 <= i <= v@.len(),
            i < v@.len() ==> out@ + i32_list(v@.skip(i as int)) == old(out)@ + i32_list(v@),
            i == v@.len() ==> out@ == old(out)@ + i32_list(v@),
        decreases v@.len() - i,
    {
        push_i64_dec(out, v[i] as i64);
        proof {
            assert(v@.skip(i as int)[0] == v@[i as int]);
            assert(v@.skip(i as int).subrange(1, v@.skip(i as int).len() as int) =~= v@.skip(
                i as int + 1,
            ));
        }
        if i + 1 < v.len() {
            push_lit(out, ", ");
        }
        i = i + 1;
    }
    proof {
        if v@.len() == 0 {
            assert(out@ =~= old(out)@ + i32_list(v@));
        }
    }
}

/// Appends the bracketed three-wide rows of a float list.
fn push_f32_rows(out: &mut Vec<u8>, v: &Vec<u32>, from: usize)
    requires
        from <= v@.len(),
    ensures
        final(out)@ == old(out)@ + f32_rows(v@.skip(from as int)),
    decreases v@.len() - from,
{
    let n = v.len();
    if from == n {
        proof {
            assert(v@.skip(from as int).len() == 0);
            assert(out@ =~= old(out)@ + f32_rows(v@.skip(from as int)));
        }
        return ;
    }
    push_lit(out, "[");
    if n - from <= 3 {
        let mut row: Vec<u32> = Vec::new();
        let mut i: usize = from;
        while i < n
            invariant
                from <= i <= n,
                n == v@.len(),
                row@ == v@.subrange(from as int, i as int),
            decreases n - i,
        {
            row.push(v[i]);
            proof {
                assert(v@.subrange(from as int, i as int + 1) =~= v@.subrange(
                    from as int,
                    i as int,
                ).push(v@[i as int]));
            }
            i = i + 1;
        }
        proof {
            assert(row@ =~= v@.skip(from as int));
        }
        push_f32_list(out, &row);
        push_lit(out, "]");
        proof {
            assert(out@ =~= old(out)@ + f32_rows(v@.skip(from as int)));
        }
    } else {
        let mut row: Vec<u32> = Vec::new();
        row.push(v[from]);
        row.push(v[from + 1]);
        row.push(v[from + 2]);
        proof {
            assert(row@ =~= v@.skip(from as int).subrange(0, 3));
        }
        push_f32_list(out, &row);
        push_lit(out, "] ");
        push_f32_rows(out, v, from + 3);
        proof {
            assert(v@.skip(from as int).subrange(3, v@.skip(from as int).len() as int) =~= v@.skip(
                from as int + 3,
            ));
            assert(out@ =~= old(out)@ + f32_rows(v@.skip(from as int)));
        }
    }
}

/// Appends the plaintext rendering of one typed value.
fn push_text_value(out: &mut Vec<u8>, v: &crate::blk::types::BlkType)
    ensures
        final(out)@ == old(out)@ + text_value(v@),
{
    match v {
        crate::blk::types::BlkType::Str(s) => {
            push_lit(out, "t=\"");
            push_lit(out, s.as_str());
            push_lit(out, "\"");
            proof {
                assert(out@ =~= old(out)@ + text_value(v@));
            }
        },
        crate::blk::types::BlkType::Int(x) => {
            push_lit(out, "i=");
            push_i64_dec(out, *x as i64);
            proof {
                assert(out@ =~= old(out)@ + text_value(v@));
            }
        },
        crate::blk::types::BlkType::Long(x) => {
            push_lit(out, "i64=");
            push_i64_dec(out, *x);
            proof {
                assert(out@ =~= old(out)@ + text_value(v@));
            }
        },
        crate::blk::types::BlkType::Float(b) => {
            push_lit(out, "r=");
            push_f32_dec(out, *b);
            proof {
                assert(out@ =~= old(out)@ + text_value(v@));
            }
        },
        crate::blk::types::BlkType::Float2(w) => {
            push_lit(out, "p2=");
            push_f32_list(out, w);
            proof {
                assert(out@ =~= old(out)@ + text_value(v@));
            }
        },
        crate::blk::types::BlkType::Float3(w) => {
            push_lit(out, "p3=");
            push_f32_list(out, w);
            proof {
                assert(out@ =~= old(out)@ + text_value(v@));
            }
        },
        crate::blk::types::BlkType::Float4(w) => {
            push_lit(out, "p4=");
            push_f32_list(out, w);
            proof {
                assert(out@ =~= old(out)@ + text_value(v@));
            }
        },
        crate::blk::types::BlkType::Int2(w) => {
            push_lit(out, "ip2=");
            push_i32_list(out, w);
            proof {
                assert(out@ =~= old(out)@ + text_value(v@));
            }
        },
        crate::blk::types::BlkType::Int3(w) => {
            push_lit(out, "ip3=");
            push_i32_list(out, w);
            proof {
                assert(out@ =~= old(out)@ + text_value(v@));
            }
        },
        crate::blk::types::BlkType::Bool(b) => {
            if *b {
                push_lit(out, "b=true");
            } else {
                push_lit(out, "b=false");
            }
            proof {
                assert(out@ =~= old(out)@ + text_value(v@));
            }
        },
        crate::blk::types::BlkType::Color { r, g, b, a } => {
            push_lit(out, "c=");
            push_u64_dec(out, *r as u64);
            push_lit(out, ", ");
            push_u64_dec(out, *g as u64);
            push_lit(out, ", ");
            push_u64_dec(out, *b as u64);
            push_lit(out, ", ");
            push_u64_dec(out, *a as u64);
            proof {
                assert(out@ =~= old(out)@ + text_value(v@));
            }
        },
        crate::blk::types::BlkType::Float12(w) => {
            push_lit(out, "m=[");
            push_f32_rows(out, w, 0);
            push_lit(out, "]");
            proof {
                assert(w@.skip(0) =~= w@);
                assert(out@ =~= old(out)@ + text_value(v@));
            }
        },
    }
}

impl BlkField {
    /// Appends the plaintext rendering of this node; `false` when a
    /// `Merged` node was encountered anywhere, in which case the output
    /// buffer is unspecified.
    fn push_text(&self, out: &mut Vec<u8>, ind: &Vec<u8>, closing: &Vec<u8>, root: bool) -> (ok:
        bool)
        ensures
            ok == merged_free(self@),
            ok ==> final(out)@ == old(out)@ + text_node(self@, ind@, closing@, root),
        decreases *self,
    {
        match self {
            BlkField::Value(n, v) => {
                push_lit(out, n.as_str());
                push_lit(out, ":");
                push_text_value(out, v);
                proof {
                    assert(out@ =~= old(out)@ + text_node(self@, ind@, closing@, root));
                }
                true
            },
            BlkField::Struct(n, fs) => {
                let ghost fsm = crate::blk::structure::fields_model(fs@);
                proof {
                    crate::blk::structure::lemma_fields_model(fs@);
                }
                if !root {
                    push_lit(out, n.as_str());
                    push_lit(out, " {\n");
                }
                let ghost kid_start = out@;
                let mut child_ind: Vec<u8> = Vec::new();
                child_ind.extend_from_slice(ind.as_slice());
                child_ind.push(0x09);
                proof {
                    assert(child_ind@ =~= ind@ + "\t".spec_bytes()) by {
                        reveal_strlit("\t");
                        vstd::string::is_ascii_spec_bytes("\t");
                        assert(vstd::string::is_ascii("\t"));
                        assert("\t".spec_bytes() =~= seq![0x09u8]);
                    }
                }
                let mut i: usize = 0;
                let mut ok = true;
                while i < fs.len() && ok
                    invariant
                        0 <= i <= fs@.len(),
                        (*self) is Struct,
                        self->Struct_1@ == fs@,
                        fsm == crate::blk::structure::fields_model(fs@),
                        fsm.len() == fs@.len(),
                        child_ind@ == ind@ + lit("\t"),
                        ok ==> out@ == kid_start + text_children_upto(fsm, ind@, i as int),
                        ok ==> crate::blk::merge::all_merged_free(fsm.take(i as int)),
                        !ok ==> exists|j: int|
                            0 <= j < fs@.len() && !merged_free(#[trigger] fsm[j]),
                    decreases fs@.len() - i + if ok {
                        1int
                    } else {
                        0int
                    },
                {
                    proof {
                        assert(decreases_to!(*self => self->Struct_1));
                        assert(decreases_to!(self->Struct_1 => self->Struct_1@));
                        assert(decreases_to!(self->Struct_1@ => self->Struct_1@[i as int]));
                        crate::blk::structure::lemma_fields_model(fs@);
                    }
                    if i > 0 {
                        push_lit(out, "\n");
                    }
                    let mut line_out: Vec<u8> = Vec::new();
                    line_out.extend_from_slice(ind.as_slice());
                    let ghost line_pre = out@ + line_out@;
                    let cok = fs[i].push_text(&mut line_out, &child_ind, ind, false);
                    if cok {
                        out.append(&mut line_out);
                        proof {
                            lemma_text_children_upto_snoc(fsm, ind@, i as int);
                            assert(crate::blk::merge::all_merged_free(fsm.take(i as int + 1)))
                                by {
                                assert(fsm.take(i as int + 1).take(i as int) =~= fsm.take(
                                    i as int,
                                ));
                                lemma_all_mf_snoc(fsm, i as int);
                            }
                            assert(out@ =~= kid_start + text_children_upto(
                                fsm,
                                ind@,
                                i as int + 1,
                            ));
                        }
                    } else {
                        ok = false;
                        proof {
                            assert(!merged_free(fsm[i as int]));
                        }
                    }
                    i = i + 1;
                }
                if !ok {
                    proof {
                        crate::blk::merge::lemma_all_merged_free_iff(fsm);
                    }
                    return false;
                }
                proof {
                    crate::blk::structure::lemma_fields_model(fs@);
                    assert(fsm.take(fs@.len() as int) =~= fsm);
                    crate::blk::merge::lemma_all_merged_free_iff(fsm);
                    lemma_text_children_full(fsm, ind@);
                }
                if !root {
                    push_lit(out, "\n");
                    out.extend_from_slice(closing.as_slice());
                    push_lit(out, "}");
                }
                proof {
                    assert(out@ =~= old(out)@ + text_node(self@, ind@, closing@, root));
                }
                true
            },
            BlkField::Merged(_, _) => false,
        }
    }
}

/// The joined lines of the first `i` children.
pub open spec fn text_children_upto(fs: Seq<FieldModel>, ind: Seq<u8>, i: int) -> Seq<u8>
    decreases i,
{
    if i <= 0 {
        Seq::<u8>::empty()
    } else if i == 1 {
        ind + text_node(fs[0], ind + lit("\t"), ind, false)
    } else {
        text_children_upto(fs, ind, i - 1) + lit("\n") + ind + text_node(
            fs[i - 1],
            ind + lit("\t"),
            ind,
            false,
        )
    }
}

proof fn lemma_text_children_upto_snoc(fs: Seq<FieldModel>, ind: Seq<u8>, i: int)
    requires
        0 <= i,
    ensures
        text_children_upto(fs, ind, i + 1) == if i == 0 {
            ind + text_node(fs[0], ind + lit("\t"), ind, false)
        } else {
            text_children_upto(fs, ind, i) + lit("\n") + ind + text_node(
                fs[i],
                ind + lit("\t"),
                ind,
                false,
            )
        },
{
}

proof fn lemma_all_mf_snoc(fs: Seq<FieldModel>, i: int)
    requires
        0 <= i < fs.len(),
        crate::blk::merge::all_merged_free(fs.take(i)),
        merged_free(fs[i]),
    ensures
        crate::blk::merge::all_merged_free(fs.take(i + 1)),
{
    crate::blk::merge::lemma_all_merged_free_iff(fs.take(i));
    crate::blk::merge::lemma_all_merged_free_iff(fs.take(i + 1));
    assert forall|j: int|
        0 <= j < fs.take(i + 1).len() implies merged_free(#[trigger] fs.take(i + 1)[j]) by {
        if j < i {
            assert(fs.take(i + 1)[j] == fs.take(i)[j]);
        } else {
            assert(fs.take(i + 1)[j] == fs[i]);
        }
    }
}

/// The joined lines of all children agree with the prefix construction.
proof fn lemma_text_children_full(fs: Seq<FieldModel>, ind: Seq<u8>)
    ensures
        text_children(fs, ind) == text_children_upto(fs, ind, fs.len() as int),
    decreases fs.len(),
{
    if fs.len() > 0 {
        let t = fs.subrange(1, fs.len() as int);
        lemma_text_children_full(t, ind);
        lemma_upto_shift(fs, ind, fs.len() as int);
    }
}

/// Prefix construction commutes with dropping the first child.
proof fn lemma_upto_shift(fs: Seq<FieldModel>, ind: Seq<u8>, i: int)
    requires
        1 <= i <= fs.len(),
    ensures
        text_children_upto(fs, ind, i) == if i == 1 {
            ind + text_node(fs[0], ind + lit("\t"), ind, false)
        } else {
            (ind + text_node(fs[0], ind + lit("\t"), ind, false)) + lit("\n")
                + text_children_upto(fs.subrange(1, fs.len() as int), ind, i - 1)
        },
    decreases i,
{
    if i > 1 {
        lemma_upto_shift(fs, ind, i - 1);
        let t = fs.subrange(1, fs.len() as int);
        assert(t[i - 2] == fs[i - 1]);
        assert((ind + text_node(fs[0], ind + lit("\t"), ind, false)) + lit("\n")
            + (text_children_upto(t, ind, i - 2) + lit("\n") + ind + text_node(
            t[i - 2],
            ind + lit("\t"),
            ind,
            false,
        )) =~= ((ind + text_node(fs[0], ind + lit("\t"), ind, false)) + lit("\n")
            + text_children_upto(t, ind, i - 2)) + lit("\n") + ind + text_node(
            fs[i - 1],
            ind + lit("\t"),
            ind,
            false,
        ));
    }
}


/// A literal's bytes are valid UTF-8.
pub proof fn lemma_lit_valid(s: &str)
    ensures
        valid_utf8(lit(s)),
{
    vstd::utf8::encode_utf8_valid_utf8(s@);
}

/// A decimal digit rendering is valid UTF-8.
proof fn lemma_dec_digits_valid(n: nat)
    ensures
        valid_utf8(dec_digits(n)),
{
    lemma_dec_digits_ascii(n);
    lemma_ascii_valid(dec_digits(n));
}

/// A signed decimal rendering is valid UTF-8.
proof fn lemma_dec_int_valid(v: int)
    ensures
        valid_utf8(dec_int(v)),
{
    lemma_dec_int_ascii(v);
    lemma_ascii_valid(dec_int(v));
}

/// A comma-joined float list is valid UTF-8.
pub proof fn lemma_f32_list_valid(v: Seq<u32>)
    ensures
        valid_utf8(f32_list(v)),
    decreases v.len(),
{
    if v.len() == 0 {
        assert(valid_utf8(Seq::<u8>::empty()));
    } else if v.len() == 1 {
        lemma_f32_dec_valid(v[0]);
    } else {
        lemma_f32_dec_valid(v[0]);
        lemma_lit_valid(", ");
        lemma_f32_list_valid(v.subrange(1, v.len() as int));
        vstd::utf8::valid_utf8_concat(f32_dec(v[0]), lit(", "));
        vstd::utf8::valid_utf8_concat(
            f32_dec(v[0]) + lit(", "),
            f32_list(v.subrange(1, v.len() as int)),
        );
    }
}

/// A comma-joined integer list is valid UTF-8.
proof fn lemma_i32_list_valid(v: Seq<i32>)
    ensures
        valid_utf8(i32_list(v)),
    decreases v.len(),
{
    if v.len() == 0 {
        assert(valid_utf8(Seq::<u8>::empty()));
    } else if v.len() == 1 {
        lemma_dec_int_valid(v[0] as int);
    } else {
        lemma_dec_int_valid(v[0] as int);
        lemma_lit_valid(", ");
        lemma_i32_list_valid(v.subrange(1, v.len() as int));
        vstd::utf8::valid_utf8_concat(dec_int(v[0] as int), lit(", "));
        vstd::utf8::valid_utf8_concat(
            dec_int(v[0] as int) + lit(", "),
            i32_list(v.subrange(1, v.len() as int)),
        );
    }
}

/// Bracketed float rows are valid UTF-8.
proof fn lemma_f32_rows_valid(v: Seq<u32>)
    ensures
        valid_utf8(f32_rows(v)),
    decreases v.len(),
{
    lemma_lit_valid("[");
    lemma_lit_valid("]");
    lemma_lit_valid("] ");
    if v.len() == 0 {
        assert(valid_utf8(Seq::<u8>::empty()));
    } else if v.len() <= 3 {
        lemma_f32_list_valid(v);
        vstd::utf8::valid_utf8_concat(lit("["), f32_list(v));
        vstd::utf8::valid_utf8_concat(lit("[") + f32_list(v), lit("]"));
    } else {
        lemma_f32_list_valid(v.subrange(0, 3));
        lemma_f32_rows_valid(v.subrange(3, v.len() as int));
        vstd::utf8::valid_utf8_concat(lit("["), f32_list(v.subrange(0, 3)));
        vstd::utf8::valid_utf8_concat(lit("[") + f32_list(v.subrange(0, 3)), lit("] "));
        vstd::utf8::valid_utf8_concat(
            lit("[") + f32_list(v.subrange(0, 3)) + lit("] "),
            f32_rows(v.subrange(3, v.len() as int)),
        );
    }
}

/// A plaintext value rendering is valid UTF-8.
pub proof fn lemma_text_value_valid(v: TypeModel)
    ensures
        valid_utf8(text_value(v)),
{
    match v {
        TypeModel::Str(t) => {
            lemma_lit_valid("t=\"");
            lemma_lit_valid("\"");
            vstd::utf8::encode_utf8_valid_utf8(t);
            vstd::utf8::valid_utf8_concat(lit("t=\""), encode_utf8(t));
            vstd::utf8::valid_utf8_concat(lit("t=\"") + encode_utf8(t), lit("\""));
        },
        TypeModel::Int(x) => {
            lemma_lit_valid("i=");
            lemma_dec_int_valid(x as int);
            vstd::utf8::valid_utf8_concat(lit("i="), dec_int(x as int));
        },
        TypeModel::Long(x) => {
            lemma_lit_valid("i64=");
            lemma_dec_int_valid(x as int);
            vstd::utf8::valid_utf8_concat(lit("i64="), dec_int(x as int));
        },
        TypeModel::Float(b) => {
            lemma_lit_valid("r=");
            lemma_f32_dec_valid(b);
            vstd::utf8::valid_utf8_concat(lit("r="), f32_dec(b));
        },
        TypeModel::Float2(w) => {
            lemma_lit_valid("p2=");
            lemma_f32_list_valid(w);
            vstd::utf8::valid_utf8_concat(lit("p2="), f32_list(w));
        },
        TypeModel::Float3(w) => {
            lemma_lit_valid("p3=");
            lemma_f32_list_valid(w);
            vstd::utf8::valid_utf8_concat(lit("p3="), f32_list(w));
        },
        TypeModel::Float4(w) => {
            lemma_lit_valid("p4=");
            lemma_f32_list_valid(w);
            vstd::utf8::valid_utf8_concat(lit("p4="), f32_list(w));
        },
        TypeModel::Int2(w) => {
            lemma_lit_valid("ip2=");
            lemma_i32_list_valid(w);
            vstd::utf8::valid_utf8_concat(lit("ip2="), i32_list(w));
        },
        TypeModel::Int3(w) => {
            lemma_lit_valid("ip3=");
            lemma_i32_list_valid(w);
            vstd::utf8::valid_utf8_concat(lit("ip3="), i32_list(w));
        },
        TypeModel::Bool(b) => {
            lemma_lit_valid("b=true");
            lemma_lit_valid("b=false");
        },
        TypeModel::Color { r, g, b, a } => {
            lemma_lit_valid("c=");
            lemma_lit_valid(", ");
            lemma_dec_digits_valid(r as nat);
            lemma_dec_digits_valid(g as nat);
            lemma_dec_digits_valid(b as nat);
            lemma_dec_digits_valid(a as nat);
            vstd::utf8::valid_utf8_concat(lit("c="), dec_digits(r as nat));
            vstd::utf8::valid_utf8_concat(lit("c=") + dec_digits(r as nat), lit(", "));
            let s1 = lit("c=") + dec_digits(r as nat) + lit(", ");
            vstd::utf8::valid_utf8_concat(s1, dec_digits(g as nat));
            vstd::utf8::valid_utf8_concat(s1 + dec_digits(g as nat), lit(", "));
            let s2 = s1 + dec_digits(g as nat) + lit(", ");
            vstd::utf8::valid_utf8_concat(s2, dec_digits(b as nat));
            vstd::utf8::valid_utf8_concat(s2 + dec_digits(b as nat), lit(", "));
            let s3 = s2 + dec_digits(b as nat) + lit(", ");
            vstd::utf8::valid_utf8_concat(s3, dec_digits(a as nat));
        },
        TypeModel::Float12(w) => {
            lemma_lit_valid("m=[");
            lemma_lit_valid("]");
            lemma_f32_rows_valid(w);
            vstd::utf8::valid_utf8_concat(lit("m=["), f32_rows(w));
            vstd::utf8::valid_utf8_concat(lit("m=[") + f32_rows(w), lit("]"));
        },
    }
}

/// A plaintext node rendering is valid UTF-8 when the indents are.
pub proof fn lemma_text_node_valid(m: FieldModel, ci: Seq<u8>, cl: Seq<u8>, root: bool)
    requires
        valid_utf8(ci),
        valid_utf8(cl),
    ensures
        valid_utf8(text_node(m, ci, cl, root)),
    decreases m, 1nat,
{
    match m {
        FieldModel::Value(n, v) => {
            vstd::utf8::encode_utf8_valid_utf8(n);
            lemma_lit_valid(":");
            lemma_text_value_valid(v);
            vstd::utf8::valid_utf8_concat(encode_utf8(n), lit(":"));
            vstd::utf8::valid_utf8_concat(encode_utf8(n) + lit(":"), text_value(v));
        },
        FieldModel::Struct(n, fs) => {
            assert(decreases_to!(m => m->Struct_1));
            vstd::utf8::encode_utf8_valid_utf8(n);
            lemma_lit_valid(" {\n");
            lemma_lit_valid("\n");
            lemma_lit_valid("}");
            lemma_text_children_valid(fs, ci);
            if !root {
                let kids = text_children(fs, ci);
                vstd::utf8::valid_utf8_concat(encode_utf8(n), lit(" {\n"));
                vstd::utf8::valid_utf8_concat(encode_utf8(n) + lit(" {\n"), kids);
                vstd::utf8::valid_utf8_concat(encode_utf8(n) + lit(" {\n") + kids, lit("\n"));
                vstd::utf8::valid_utf8_concat(
                    encode_utf8(n) + lit(" {\n") + kids + lit("\n"),
                    cl,
                );
                vstd::utf8::valid_utf8_concat(
                    encode_utf8(n) + lit(" {\n") + kids + lit("\n") + cl,
                    lit("}"),
                );
            }
        },
        FieldModel::Merged(_, _) => {
            assert(valid_utf8(Seq::<u8>::empty()));
        },
    }
}

/// Joined child lines are valid UTF-8 when the indent is.
proof fn lemma_text_children_valid(fs: Seq<FieldModel>, ind: Seq<u8>)
    requires
        valid_utf8(ind),
    ensures
        valid_utf8(text_children(fs, ind)),
    decreases fs, 0nat,
{
    if fs.len() == 0 {
        assert(valid_utf8(Seq::<u8>::empty()));
    } else {
        assert(decreases_to!(fs => fs[0]));
        lemma_lit_valid("\t");
        lemma_lit_valid("\n");
        vstd::utf8::valid_utf8_concat(ind, lit("\t"));
        lemma_text_node_valid(fs[0], ind + lit("\t"), ind, false);
        let line = ind + text_node(fs[0], ind + lit("\t"), ind, false);
        vstd::utf8::valid_utf8_concat(ind, text_node(fs[0], ind + lit("\t"), ind, false));
        if fs.len() > 1 {
            lemma_text_children_valid(fs.subrange(1, fs.len() as int), ind);
            vstd::utf8::valid_utf8_concat(line, lit("\n"));
            vstd::utf8::valid_utf8_concat(
                line + lit("\n"),
                text_children(fs.subrange(1, fs.len() as int), ind),
            );
        }
    }
}

impl BlkField {
    /// Renders the tree as block plaintext bytes. Fails exactly when the
    /// tree holds a `Merged` node, which the block syntax cannot express.
    pub fn blk_text_bytes(&self) -> (r: Result<Vec<u8>, ParseError>)
        ensures
            r is Ok <==> merged_free(self@),
            r matches Ok(v) ==> v@ == text_node(self@, Seq::<u8>::empty(), Seq::<u8>::empty(), true),
            r is Err ==> r == Err::<Vec<u8>, ParseError>(ParseError::MergedInPlaintext),
    {
        let mut out: Vec<u8> = Vec::new();
        let ind: Vec<u8> = Vec::new();
        let closing: Vec<u8> = Vec::new();
        let ok = self.push_text(&mut out, &ind, &closing, true);
        if ok {
            Ok(out)
        } else {
            Err(ParseError::MergedInPlaintext)
        }
    }

    /// Renders the tree as block plaintext. Succeeds exactly when the
    /// tree holds no `Merged` node, which the block syntax cannot express.
    pub fn as_blk_text(&self) -> (r: Result<String, ParseError>)
        ensures
            r is Ok <==> merged_free(self@),
            r matches Ok(s) ==> encode_utf8(s@) == text_node(
                self@,
                Seq::<u8>::empty(),
                Seq::<u8>::empty(),
                true,
            ),
            !merged_free(self@) ==> r == Err::<String, ParseError>(ParseError::MergedInPlaintext),
    {
        let bytes = match self.blk_text_bytes() {
            Ok(b) => b,
            Err(e) => {
                return Err(e);
            },
        };
        proof {
            assert(valid_utf8(Seq::<u8>::empty()));
            lemma_text_node_valid(self@, Seq::<u8>::empty(), Seq::<u8>::empty(), true);
        }
        match crate::strutil::bytes_to_string(bytes.as_slice()) {
            Some(s) => Ok(s),
            None => Err(ParseError::BadUtf8),
        }
    }
}

} // verus!
