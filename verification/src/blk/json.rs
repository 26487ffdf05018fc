//! The JSON emitter: structs become objects, values become scalars or
//! arrays, and `Merged` nodes become arrays of their members. Rendering
//! optionally runs the merge and override passes first, and can print
//! compactly or pretty with two-space indents.

use vstd::prelude::*;
use vstd::string::StringSliceAdditionalSpecFns;
use vstd::utf8::encode_utf8;

use crate::blk::error::ParseError;
use crate::blk::merge::merge_spec;
use crate::blk::overrides::apply_overrides_spec;
use crate::blk::structure::{field_model, BlkField, FieldModel};
use crate::blk::text::{lit, push_lit};
use crate::blk::types::TypeModel;
use crate::strutil::{all_ascii, dec_int, f32_dec, lemma_ascii_valid, lemma_dec_digits_ascii, lemma_dec_int_ascii, lemma_f32_dec_valid, push_f32_dec, push_i64_dec, push_u64_dec, dec_digits};
use crate::blk::text::{lemma_lit_valid, lemma_text_value_valid};
use vstd::utf8::valid_utf8;

verus! {

/// How the JSON emitter treats a tree before and while rendering.
#[derive(Debug, Clone, Copy, PartialEq, Eq)]
pub struct FormattingConfiguration {
    /// Run the override pass before rendering.
    pub apply_overrides: bool,
    /// Collapse duplicate sibling names into arrays before rendering.
    pub merge_duplicate_keys: bool,
    /// Pretty-print with two-space indents rather than compactly.
    pub pretty: bool,
}

impl Default for FormattingConfiguration {
    /// All passes on, pretty output.
    fn default() -> (r: FormattingConfiguration)
        ensures
            r.apply_overrides && r.merge_duplicate_keys && r.pretty,
    {
        FormattingConfiguration { apply_overrides: true, merge_duplicate_keys: true, pretty: true }
    }
}

/// A lowercase hexadecimal digit.
pub open spec fn hex_digit(n: u8) -> u8 {
    if n < 10 {
        (0x30 + n) as u8
    } else {
        (0x57 + n) as u8
    }
}

/// The JSON escape of one byte of string content.
pub open spec fn esc_byte(b: u8) -> Seq<u8> {
    if b == 0x22 {
        lit("\\\"")
    } else if b == 0x5c {
        lit("\\\\")
    } else if b == 0x08 {
        lit("\\b")
    } else if b == 0x09 {
        lit("\\t")
    } else if b == 0x0a {
        lit("\\n")
    } else if b == 0x0c {
        lit("\\f")
    } else if b == 0x0d {
        lit("\\r")
    } else if b < 0x20 {
        lit("\\u00") + seq![hex_digit(b / 16), hex_digit(b % 16)]
    } else {
        seq![b]
    }
}

/// The escaped content of a JSON string.
pub open spec fn esc_json(s: Seq<u8>) -> Seq<u8>
    decreases s.len(),
{
    if s.len() == 0 {
        Seq::<u8>::empty()
    } else {
        esc_byte(s[0]) + esc_json(s.subrange(1, s.len() as int))
    }
}

/// A quoted, escaped JSON string.
pub open spec fn jstr(content: Seq<u8>) -> Seq<u8> {
    lit("\"") + esc_json(content) + lit("\"")
}

/// The given pieces joined by the separator.
pub open spec fn join(items: Seq<Seq<u8>>, sep: Seq<u8>) -> Seq<u8>
    decreases items.len(),
{
    if items.len() == 0 {
        Seq::<u8>::empty()
    } else if items.len() == 1 {
        items[0]
    } else {
        items[0] + sep + join(items.subrange(1, items.len() as int), sep)
    }
}

/// A JSON array around already-rendered items: one per line under a
/// two-space-deeper indent when pretty, comma-packed otherwise.
pub open spec fn jarr(items: Seq<Seq<u8>>, pretty: bool, ind: Seq<u8>) -> Seq<u8> {
    if items.len() == 0 {
        lit("[]")
    } else if pretty {
        lit("[\n") + join(Seq::new(items.len(), |i: int| ind + lit("  ") + items[i]), lit(",\n"))
            + lit("\n") + ind + lit("]")
    } else {
        lit("[") + join(items, lit(",")) + lit("]")
    }
}

/// A JSON object around already-rendered entries.
pub open spec fn jobj(entries: Seq<Seq<u8>>, pretty: bool, ind: Seq<u8>) -> Seq<u8> {
    if entries.len() == 0 {
        lit("{}")
    } else if pretty {
        lit("{\n") + join(
            Seq::new(entries.len(), |i: int| ind + lit("  ") + entries[i]),
            lit(",\n"),
        ) + lit("\n") + ind + lit("}")
    } else {
        lit("{") + join(entries, lit(",")) + lit("}")
    }
}

/// The rendered float items of a list.
pub open spec fn f32_items(v: Seq<u32>) -> Seq<Seq<u8>> {
    Seq::new(v.len(), |i: int| f32_dec(v[i]))
}

/// The rendered signed integer items of a list.
pub open spec fn i32_items(v: Seq<i32>) -> Seq<Seq<u8>> {
    Seq::new(v.len(), |i: int| dec_int(v[i] as int))
}

/// The JSON rendering of one typed value.
pub open spec fn jvalue(v: TypeModel, pretty: bool, ind: Seq<u8>) -> Seq<u8> {
    match v {
        TypeModel::Str(s) => jstr(encode_utf8(s)),
        TypeModel::Int(x) => dec_int(x as int),
        TypeModel::Long(x) => dec_int(x as int),
        TypeModel::Float(b) => f32_dec(b),
        TypeModel::Float2(w) => jarr(f32_items(w), pretty, ind),
        TypeModel::Float3(w) => jarr(f32_items(w), pretty, ind),
        TypeModel::Float4(w) => jarr(f32_items(w), pretty, ind),
        TypeModel::Int2(w) => jarr(i32_items(w), pretty, ind),
        TypeModel::Int3(w) => jarr(i32_items(w), pretty, ind),
        TypeModel::Bool(b) => if b {
            lit("true")
        } else {
            lit("false")
        },
        TypeModel::Color { r, g, b, a } => jarr(
            seq![
                dec_digits(r as nat),
                dec_digits(g as nat),
                dec_digits(b as nat),
                dec_digits(a as nat),
            ],
            pretty,
            ind,
        ),
        TypeModel::Float12(w) => if w.len() == 12 {
            jarr(
                seq![
                    jarr(f32_items(w.subrange(0, 3)), pretty, ind + lit("  ")),
                    jarr(f32_items(w.subrange(3, 6)), pretty, ind + lit("  ")),
                    jarr(f32_items(w.subrange(6, 9)), pretty, ind + lit("  ")),
                    jarr(f32_items(w.subrange(9, 12)), pretty, ind + lit("  ")),
                ],
                pretty,
                ind,
            )
        } else {
            jarr(f32_items(w), pretty, ind)
        },
    }
}

/// The JSON rendering of one node's value position.
pub open spec fn jnode(m: FieldModel, pretty: bool, ind: Seq<u8>) -> Seq<u8>
    decreases m, 1nat,
    via jnode_decreases
{
    match m {
        FieldModel::Value(_, v) => jvalue(v, pretty, ind),
        FieldModel::Struct(_, fs) => jobj(jentries_of(fs, pretty, ind), pretty, ind),
        FieldModel::Merged(_, fs) => jarr(jnodes_of(fs, pretty, ind), pretty, ind),
    }
}

#[via_fn]
proof fn jnode_decreases(m: FieldModel, pretty: bool, ind: Seq<u8>) {
    match m {
        FieldModel::Struct(_, fs) => {
            assert(decreases_to!(m => m->Struct_1));
        },
        FieldModel::Merged(_, fs) => {
            assert(decreases_to!(m => m->Merged_1));
        },
        _ => {},
    }
}

/// The rendered `"name": value` entries of a struct's children, the
/// values rendered one indent level deeper.
pub open spec fn jentries_of(fs: Seq<FieldModel>, pretty: bool, ind: Seq<u8>) -> Seq<Seq<u8>>
    decreases fs, 0nat,
{
    if fs.len() == 0 {
        Seq::<Seq<u8>>::empty()
    } else {
        let sep = if pretty {
            lit(": ")
        } else {
            lit(":")
        };
        let e = jstr(fs[0].name_bytes()) + sep + jnode(fs[0], pretty, ind + lit("  "));
        seq![e] + jentries_of(fs.subrange(1, fs.len() as int), pretty, ind)
    }
}

/// The rendered members of a merged group, one indent level deeper.
pub open spec fn jnodes_of(fs: Seq<FieldModel>, pretty: bool, ind: Seq<u8>) -> Seq<Seq<u8>>
    decreases fs, 0nat,
{
    if fs.len() == 0 {
        Seq::<Seq<u8>>::empty()
    } else {
        seq![jnode(fs[0], pretty, ind + lit("  "))] + jnodes_of(
            fs.subrange(1, fs.len() as int),
            pretty,
            ind,
        )
    }
}

/// The whole document: the optional merge pass, then the optional
/// override pass, then the root rendered as a value.
pub open spec fn json_doc(m: FieldModel, config: FormattingConfiguration) -> Seq<u8> {
    let m1 = if config.merge_duplicate_keys {
        merge_spec(m)
    } else {
        m
    };
    let m2 = if config.apply_overrides {
        apply_overrides_spec(m1)
    } else {
        m1
    };
    jnode(m2, config.pretty, Seq::<u8>::empty())
}


/// Splitting the escaped content splits the escape.
proof fn lemma_esc_concat(a: Seq<u8>, b: Seq<u8>)
    ensures
        esc_json(a + b) == esc_json(a) + esc_json(b),
    decreases a.len(),
{
    if a.len() == 0 {
        assert(a + b =~= b);
        assert(esc_json(a) + esc_json(b) =~= esc_json(b));
    } else {
        lemma_esc_concat(a.subrange(1, a.len() as int), b);
        assert((a + b)[0] == a[0]);
        assert((a + b).subrange(1, (a + b).len() as int) =~= a.subrange(1, a.len() as int) + b);
        assert(esc_json(a + b) =~= esc_json(a) + esc_json(b));
    }
}

/// The escape of an ASCII byte is ASCII.
proof fn lemma_esc_byte_ascii(b: u8)
    requires
        b < 0x80,
    ensures
        all_ascii(esc_byte(b)),
{
    lemma_escape_lits_ascii();
    assert(hex_digit(b / 16) < 0x80);
    assert(hex_digit(b % 16) < 0x80);
    if b < 0x20 && b != 0x08 && b != 0x09 && b != 0x0a && b != 0x0c && b != 0x0d {
        assert forall|i: int| 0 <= i < esc_byte(b).len() implies esc_byte(b)[i] < 0x80 by {
            if i < lit("\\u00").len() {
                assert(esc_byte(b)[i] == lit("\\u00")[i]);
            } else if i == lit("\\u00").len() {
                assert(esc_byte(b)[i] == hex_digit(b / 16));
            } else {
                assert(esc_byte(b)[i] == hex_digit(b % 16));
            }
        }
    }
}

/// The short escape literals are ASCII.
proof fn lemma_escape_lits_ascii()
    ensures
        all_ascii(lit("\\\"")),
        all_ascii(lit("\\\\")),
        all_ascii(lit("\\b")),
        all_ascii(lit("\\t")),
        all_ascii(lit("\\n")),
        all_ascii(lit("\\f")),
        all_ascii(lit("\\r")),
        all_ascii(lit("\\u00")),
{
    reveal_strlit("\\\"");
    reveal_strlit("\\\\");
    reveal_strlit("\\b");
    reveal_strlit("\\t");
    reveal_strlit("\\n");
    reveal_strlit("\\f");
    reveal_strlit("\\r");
    reveal_strlit("\\u00");
    assert(vstd::string::is_ascii("\\\""));
    assert(vstd::string::is_ascii("\\\\"));
    assert(vstd::string::is_ascii("\\b"));
    assert(vstd::string::is_ascii("\\t"));
    assert(vstd::string::is_ascii("\\n"));
    assert(vstd::string::is_ascii("\\f"));
    assert(vstd::string::is_ascii("\\r"));
    assert(vstd::string::is_ascii("\\u00"));
    lemma_lit_ascii("\\\"");
    lemma_lit_ascii("\\\\");
    lemma_lit_ascii("\\b");
    lemma_lit_ascii("\\t");
    lemma_lit_ascii("\\n");
    lemma_lit_ascii("\\f");
    lemma_lit_ascii("\\r");
    lemma_lit_ascii("\\u00");
}

/// An ASCII literal's bytes are ASCII. The caller picks literals whose
/// characters are all below `0x80`; the proof checks that.
proof fn lemma_lit_ascii(s: &str)
    requires
        vstd::string::is_ascii(s),
    ensures
        all_ascii(lit(s)),
{
    vstd::string::is_ascii_spec_bytes(s);
    assert forall|i: int| 0 <= i < lit(s).len() implies lit(s)[i] < 0x80 by {
        assert(lit(s)[i] == s@.index(i) as u8);
        assert(vstd::utf8::is_ascii_chars(s@));
    }
}

/// Escaping ASCII content yields ASCII bytes.
proof fn lemma_esc_ascii_seq(x: Seq<u8>)
    requires
        all_ascii(x),
    ensures
        all_ascii(esc_json(x)),
    decreases x.len(),
{
    if x.len() > 0 {
        assert(all_ascii(x.subrange(1, x.len() as int))) by {
            assert(forall|i: int|
                0 <= i < x.len() - 1 ==> x.subrange(1, x.len() as int)[i] == x[i + 1]);
        }
        lemma_esc_ascii_seq(x.subrange(1, x.len() as int));
        lemma_esc_byte_ascii(x[0]);
        assert forall|i: int| 0 <= i < esc_json(x).len() implies esc_json(x)[i] < 0x80 by {
            if i < esc_byte(x[0]).len() {
                assert(esc_json(x)[i] == esc_byte(x[0])[i]);
            } else {
                assert(esc_json(x)[i] == esc_json(x.subrange(1, x.len() as int))[i - esc_byte(
                    x[0],
                ).len()]);
            }
        }
    }
}

/// Escaping passes bytes outside the ASCII range through unchanged.
proof fn lemma_esc_high_id(x: Seq<u8>)
    requires
        forall|i: int| 0 <= i < x.len() ==> x[i] >= 0x80,
    ensures
        esc_json(x) == x,
    decreases x.len(),
{
    if x.len() > 0 {
        assert(forall|i: int|
            0 <= i < x.len() - 1 ==> x.subrange(1, x.len() as int)[i] == x[i + 1]);
        lemma_esc_high_id(x.subrange(1, x.len() as int));
        assert(esc_byte(x[0]) == seq![x[0]]);
        assert(esc_json(x) =~= x);
    }
}

/// Escaping the UTF-8 encoding of any characters yields valid UTF-8:
/// ASCII characters escape to ASCII sequences, and the bytes of wider
/// encodings pass through untouched.
proof fn lemma_esc_enc_valid(chars: Seq<char>)
    ensures
        valid_utf8(esc_json(encode_utf8(chars))),
    decreases chars.len(),
{
    if chars.len() == 0 {
        assert(valid_utf8(Seq::<u8>::empty()));
    } else {
        let sc = chars[0] as u32;
        let head = vstd::utf8::encode_scalar(sc);
        let tail = encode_utf8(chars.drop_first());
        vstd::utf8::char_is_scalar(chars[0]);
        lemma_esc_concat(head, tail);
        lemma_esc_enc_valid(chars.drop_first());
        assert(valid_utf8(esc_json(head))) by {
            if vstd::utf8::has_width_1_encoding(sc) {
                let b0 = vstd::utf8::leading_byte_width_1(sc);
                assert(b0 < 0x80) by {
                    assert((sc & 0x7F) < 0x80) by (bit_vector);
                }
                assert(all_ascii(head));
                lemma_esc_ascii_seq(head);
                lemma_ascii_valid(esc_json(head));
            } else {
                assert forall|i: int| 0 <= i < head.len() implies head[i] >= 0x80 by {
                    assert(0xC0u8 | (((sc >> 6) & 0x1F) as u8) >= 0x80) by (bit_vector);
                    assert(0xE0u8 | (((sc >> 12) & 0x0F) as u8) >= 0x80) by (bit_vector);
                    assert(0xF0u8 | (((sc >> 18) & 0x7) as u8) >= 0x80) by (bit_vector);
                    assert(0x80u8 | ((sc & 0x3F) as u8) >= 0x80) by (bit_vector);
                    assert(0x80u8 | (((sc >> 6) & 0x3F) as u8) >= 0x80) by (bit_vector);
                    assert(0x80u8 | (((sc >> 12) & 0x3F) as u8) >= 0x80) by (bit_vector);
                }
                lemma_esc_high_id(head);
                vstd::utf8::encode_utf8_valid_utf8(seq![chars[0]]);
                assert(seq![chars[0]].drop_first() =~= Seq::<char>::empty());
                assert(encode_utf8(Seq::<char>::empty()) == Seq::<u8>::empty());
                assert(seq![chars[0]][0] == chars[0]);
                assert(encode_utf8(seq![chars[0]]) == head + Seq::<u8>::empty());
                assert(head + Seq::<u8>::empty() =~= head);
                assert(valid_utf8(head));
            }
        }
        vstd::utf8::valid_utf8_concat(esc_json(head), esc_json(tail));
    }
}

/// A quoted escaped JSON string of any characters is valid UTF-8.
proof fn lemma_jstr_valid(content: Seq<char>)
    ensures
        valid_utf8(jstr(encode_utf8(content))),
{
    lemma_lit_valid("\"");
    lemma_esc_enc_valid(content);
    vstd::utf8::valid_utf8_concat(lit("\""), esc_json(encode_utf8(content)));
    vstd::utf8::valid_utf8_concat(lit("\"") + esc_json(encode_utf8(content)), lit("\""));
}

/// Joining valid pieces with a valid separator stays valid.
proof fn lemma_join_valid(items: Seq<Seq<u8>>, sep: Seq<u8>)
    requires
        forall|i: int| 0 <= i < items.len() ==> valid_utf8(#[trigger] items[i]),
        valid_utf8(sep),
    ensures
        valid_utf8(join(items, sep)),
    decreases items.len(),
{
    if items.len() == 0 {
        assert(valid_utf8(Seq::<u8>::empty()));
    } else if items.len() == 1 {
    } else {
        let t = items.subrange(1, items.len() as int);
        assert(forall|i: int| 0 <= i < t.len() ==> #[trigger] t[i] == items[i + 1]);
        lemma_join_valid(t, sep);
        vstd::utf8::valid_utf8_concat(items[0], sep);
        vstd::utf8::valid_utf8_concat(items[0] + sep, join(t, sep));
    }
}

/// A JSON array of valid items under a valid indent is valid.
proof fn lemma_jarr_valid(items: Seq<Seq<u8>>, pretty: bool, ind: Seq<u8>)
    requires
        forall|i: int| 0 <= i < items.len() ==> valid_utf8(#[trigger] items[i]),
        valid_utf8(ind),
    ensures
        valid_utf8(jarr(items, pretty, ind)),
{
    lemma_lit_valid("[]");
    lemma_lit_valid("[\n");
    lemma_lit_valid(",\n");
    lemma_lit_valid("\n");
    lemma_lit_valid("]");
    lemma_lit_valid("[");
    lemma_lit_valid(",");
    lemma_lit_valid("  ");
    if items.len() == 0 {
    } else if pretty {
        let pitems = Seq::new(items.len(), |i: int| ind + lit("  ") + items[i]);
        assert forall|i: int| 0 <= i < pitems.len() implies valid_utf8(#[trigger] pitems[i]) by {
            vstd::utf8::valid_utf8_concat(ind, lit("  "));
            vstd::utf8::valid_utf8_concat(ind + lit("  "), items[i]);
        }
        lemma_join_valid(pitems, lit(",\n"));
        vstd::utf8::valid_utf8_concat(lit("[\n"), join(pitems, lit(",\n")));
        vstd::utf8::valid_utf8_concat(lit("[\n") + join(pitems, lit(",\n")), lit("\n"));
        vstd::utf8::valid_utf8_concat(
            lit("[\n") + join(pitems, lit(",\n")) + lit("\n"),
            ind,
        );
        vstd::utf8::valid_utf8_concat(
            lit("[\n") + join(pitems, lit(",\n")) + lit("\n") + ind,
            lit("]"),
        );
    } else {
        lemma_join_valid(items, lit(","));
        vstd::utf8::valid_utf8_concat(lit("["), join(items, lit(",")));
        vstd::utf8::valid_utf8_concat(lit("[") + join(items, lit(",")), lit("]"));
    }
}

/// A JSON object of valid entries under a valid indent is valid.
proof fn lemma_jobj_valid(entries: Seq<Seq<u8>>, pretty: bool, ind: Seq<u8>)
    requires
        forall|i: int| 0 <= i < entries.len() ==> valid_utf8(#[trigger] entries[i]),
        valid_utf8(ind),
    ensures
        valid_utf8(jobj(entries, pretty, ind)),
{
    lemma_lit_valid("{}");
    lemma_lit_valid("{\n");
    lemma_lit_valid(",\n");
    lemma_lit_valid("\n");
    lemma_lit_valid("}");
    lemma_lit_valid("{");
    lemma_lit_valid(",");
    lemma_lit_valid("  ");
    if entries.len() == 0 {
    } else if pretty {
        let pitems = Seq::new(entries.len(), |i: int| ind + lit("  ") + entries[i]);
        assert forall|i: int| 0 <= i < pitems.len() implies valid_utf8(#[trigger] pitems[i]) by {
            vstd::utf8::valid_utf8_concat(ind, lit("  "));
            vstd::utf8::valid_utf8_concat(ind + lit("  "), entries[i]);
        }
        lemma_join_valid(pitems, lit(",\n"));
        vstd::utf8::valid_utf8_concat(lit("{\n"), join(pitems, lit(",\n")));
        vstd::utf8::valid_utf8_concat(lit("{\n") + join(pitems, lit(",\n")), lit("\n"));
        vstd::utf8::valid_utf8_concat(
            lit("{\n") + join(pitems, lit(",\n")) + lit("\n"),
            ind,
        );
        vstd::utf8::valid_utf8_concat(
            lit("{\n") + join(pitems, lit(",\n")) + lit("\n") + ind,
            lit("}"),
        );
    } else {
        lemma_join_valid(entries, lit(","));
        vstd::utf8::valid_utf8_concat(lit("{"), join(entries, lit(",")));
        vstd::utf8::valid_utf8_concat(lit("{") + join(entries, lit(",")), lit("}"));
    }
}

/// A rendered JSON value under a valid indent is valid UTF-8.
proof fn lemma_jvalue_valid(v: TypeModel, pretty: bool, ind: Seq<u8>)
    requires
        valid_utf8(ind),
    ensures
        valid_utf8(jvalue(v, pretty, ind)),
{
    match v {
        TypeModel::Str(t) => {
            lemma_jstr_valid(t);
        },
        TypeModel::Int(x) => {
            lemma_dec_int_ascii(x as int);
            lemma_ascii_valid(dec_int(x as int));
        },
        TypeModel::Long(x) => {
            lemma_dec_int_ascii(x as int);
            lemma_ascii_valid(dec_int(x as int));
        },
        TypeModel::Float(b) => {
            lemma_f32_dec_valid(b);
        },
        TypeModel::Float2(w) => {
            lemma_f32_items_valid(w);
            lemma_jarr_valid(f32_items(w), pretty, ind);
        },
        TypeModel::Float3(w) => {
            lemma_f32_items_valid(w);
            lemma_jarr_valid(f32_items(w), pretty, ind);
        },
        TypeModel::Float4(w) => {
            lemma_f32_items_valid(w);
            lemma_jarr_valid(f32_items(w), pretty, ind);
        },
        TypeModel::Int2(w) => {
            lemma_i32_items_valid(w);
            lemma_jarr_valid(i32_items(w), pretty, ind);
        },
        TypeModel::Int3(w) => {
            lemma_i32_items_valid(w);
            lemma_jarr_valid(i32_items(w), pretty, ind);
        },
        TypeModel::Bool(_) => {
            lemma_lit_valid("true");
            lemma_lit_valid("false");
        },
        TypeModel::Color { r, g, b, a } => {
            let items = seq![
                dec_digits(r as nat),
                dec_digits(g as nat),
                dec_digits(b as nat),
                dec_digits(a as nat),
            ];
            assert forall|i: int| 0 <= i < items.len() implies valid_utf8(
                #[trigger] items[i],
            ) by {
                lemma_dec_digits_ascii(r as nat);
                lemma_ascii_valid(dec_digits(r as nat));
                lemma_dec_digits_ascii(g as nat);
                lemma_ascii_valid(dec_digits(g as nat));
                lemma_dec_digits_ascii(b as nat);
                lemma_ascii_valid(dec_digits(b as nat));
                lemma_dec_digits_ascii(a as nat);
                lemma_ascii_valid(dec_digits(a as nat));
            }
            lemma_jarr_valid(items, pretty, ind);
        },
        TypeModel::Float12(w) => {
            lemma_lit_valid("  ");
            vstd::utf8::valid_utf8_concat(ind, lit("  "));
            if w.len() == 12 {
                let rows = seq![
                    jarr(f32_items(w.subrange(0, 3)), pretty, ind + lit("  ")),
                    jarr(f32_items(w.subrange(3, 6)), pretty, ind + lit("  ")),
                    jarr(f32_items(w.subrange(6, 9)), pretty, ind + lit("  ")),
                    jarr(f32_items(w.subrange(9, 12)), pretty, ind + lit("  ")),
                ];
                assert forall|i: int| 0 <= i < rows.len() implies valid_utf8(
                    #[trigger] rows[i],
                ) by {
                    lemma_f32_items_valid(w.subrange(0, 3));
                    lemma_jarr_valid(f32_items(w.subrange(0, 3)), pretty, ind + lit("  "));
                    lemma_f32_items_valid(w.subrange(3, 6));
                    lemma_jarr_valid(f32_items(w.subrange(3, 6)), pretty, ind + lit("  "));
                    lemma_f32_items_valid(w.subrange(6, 9));
                    lemma_jarr_valid(f32_items(w.subrange(6, 9)), pretty, ind + lit("  "));
                    lemma_f32_items_valid(w.subrange(9, 12));
                    lemma_jarr_valid(f32_items(w.subrange(9, 12)), pretty, ind + lit("  "));
                }
                lemma_jarr_valid(rows, pretty, ind);
            } else {
                lemma_f32_items_valid(w);
                lemma_jarr_valid(f32_items(w), pretty, ind);
            }
        },
    }
}

/// Each rendered float item is valid UTF-8.
proof fn lemma_f32_items_valid(w: Seq<u32>)
    ensures
        forall|i: int| 0 <= i < f32_items(w).len() ==> valid_utf8(#[trigger] f32_items(w)[i]),
{
    assert forall|i: int|
        0 <= i < f32_items(w).len() implies valid_utf8(#[trigger] f32_items(w)[i]) by {
        lemma_f32_dec_valid(w[i]);
    }
}

/// Each rendered integer item is valid UTF-8.
proof fn lemma_i32_items_valid(w: Seq<i32>)
    ensures
        forall|i: int| 0 <= i < i32_items(w).len() ==> valid_utf8(#[trigger] i32_items(w)[i]),
{
    assert forall|i: int|
        0 <= i < i32_items(w).len() implies valid_utf8(#[trigger] i32_items(w)[i]) by {
        lemma_dec_int_ascii(w[i] as int);
        lemma_ascii_valid(dec_int(w[i] as int));
    }
}

/// A rendered JSON node under a valid indent is valid UTF-8.
pub proof fn lemma_jnode_valid(m: FieldModel, pretty: bool, ind: Seq<u8>)
    requires
        valid_utf8(ind),
    ensures
        valid_utf8(jnode(m, pretty, ind)),
    decreases m, 1nat,
{
    match m {
        FieldModel::Value(_, v) => {
            lemma_jvalue_valid(v, pretty, ind);
        },
        FieldModel::Struct(_, fs) => {
            assert(decreases_to!(m => m->Struct_1));
            lemma_jentries_valid(fs, pretty, ind);
            lemma_jobj_valid(jentries_of(fs, pretty, ind), pretty, ind);
        },
        FieldModel::Merged(_, fs) => {
            assert(decreases_to!(m => m->Merged_1));
            lemma_jnodes_valid(fs, pretty, ind);
            lemma_jarr_valid(jnodes_of(fs, pretty, ind), pretty, ind);
        },
    }
}

/// Rendered object entries under a valid indent are valid UTF-8.
proof fn lemma_jentries_valid(fs: Seq<FieldModel>, pretty: bool, ind: Seq<u8>)
    requires
        valid_utf8(ind),
    ensures
        forall|i: int|
            0 <= i < jentries_of(fs, pretty, ind).len() ==> valid_utf8(
                #[trigger] jentries_of(fs, pretty, ind)[i],
            ),
    decreases fs, 0nat,
{
    if fs.len() > 0 {
        assert(decreases_to!(fs => fs[0]));
        lemma_lit_valid("  ");
        lemma_lit_valid(": ");
        lemma_lit_valid(":");
        vstd::utf8::valid_utf8_concat(ind, lit("  "));
        lemma_jnode_valid(fs[0], pretty, ind + lit("  "));
        lemma_jstr_valid(fs[0].name());
        let sep = if pretty {
            lit(": ")
        } else {
            lit(":")
        };
        vstd::utf8::valid_utf8_concat(jstr(fs[0].name_bytes()), sep);
        vstd::utf8::valid_utf8_concat(
            jstr(fs[0].name_bytes()) + sep,
            jnode(fs[0], pretty, ind + lit("  ")),
        );
        lemma_jentries_valid(fs.subrange(1, fs.len() as int), pretty, ind);
        assert forall|i: int|
            0 <= i < jentries_of(fs, pretty, ind).len() implies valid_utf8(
            #[trigger] jentries_of(fs, pretty, ind)[i],
        ) by {
            if i > 0 {
                assert(jentries_of(fs, pretty, ind)[i] == jentries_of(
                    fs.subrange(1, fs.len() as int),
                    pretty,
                    ind,
                )[i - 1]);
            }
        }
    }
}

/// Rendered merged members under a valid indent are valid UTF-8.
proof fn lemma_jnodes_valid(fs: Seq<FieldModel>, pretty: bool, ind: Seq<u8>)
    requires
        valid_utf8(ind),
    ensures
        forall|i: int|
            0 <= i < jnodes_of(fs, pretty, ind).len() ==> valid_utf8(
                #[trigger] jnodes_of(fs, pretty, ind)[i],
            ),
    decreases fs, 0nat,
{
    if fs.len() > 0 {
        assert(decreases_to!(fs => fs[0]));
        lemma_lit_valid("  ");
        vstd::utf8::valid_utf8_concat(ind, lit("  "));
        lemma_jnode_valid(fs[0], pretty, ind + lit("  "));
        lemma_jnodes_valid(fs.subrange(1, fs.len() as int), pretty, ind);
        assert forall|i: int|
            0 <= i < jnodes_of(fs, pretty, ind).len() implies valid_utf8(
            #[trigger] jnodes_of(fs, pretty, ind)[i],
        ) by {
            if i > 0 {
                assert(jnodes_of(fs, pretty, ind)[i] == jnodes_of(
                    fs.subrange(1, fs.len() as int),
                    pretty,
                    ind,
                )[i - 1]);
            }
        }
    }
}

/// A rendered JSON document is valid UTF-8.
pub proof fn lemma_json_doc_valid(m: FieldModel, config: FormattingConfiguration)
    ensures
        valid_utf8(json_doc(m, config)),
{
    let m1 = if config.merge_duplicate_keys {
        merge_spec(m)
    } else {
        m
    };
    let m2 = if config.apply_overrides {
        apply_overrides_spec(m1)
    } else {
        m1
    };
    assert(valid_utf8(Seq::<u8>::empty()));
    lemma_jnode_valid(m2, config.pretty, Seq::<u8>::empty());
}

/// Appends the escaped content of a JSON string.
fn push_esc(out: &mut Vec<u8>, s: &[u8])
    ensures
        final(out)@ == old(out)@ + esc_json(s@),
{
    let n = s.len();
    let mut i: usize = 0;
    proof {
        assert(s@.skip(0) =~= s@);
    }
    while i < n
        invariant
            0 <= i <= n,
            n == s@.len(),
            i < n ==> out@ + esc_json(s@.skip(i as int)) == old(out)@ + esc_json(s@),
            i == n ==> out@ == old(out)@ + esc_json(s@),
        decreases n - i,
    {
        let b = s[i];
        if b == 0x22 {
            push_lit(out, "\\\"");
        } else if b == 0x5c {
            push_lit(out, "\\\\");
        } else if b == 0x08 {
            push_lit(out, "\\b");
        } else if b == 0x09 {
            push_lit(out, "\\t");
        } else if b == 0x0a {
            push_lit(out, "\\n");
        } else if b == 0x0c {
            push_lit(out, "\\f");
        } else if b == 0x0d {
            push_lit(out, "\\r");
        } else if b < 0x20 {
            push_lit(out, "\\u00");
            let hi = b / 16;
            let lo = b % 16;
            out.push(
                if hi < 10 {
                    0x30 + hi
                } else {
                    0x57 + hi
                },
            );
            out.push(
                if lo < 10 {
                    0x30 + lo
                } else {
                    0x57 + lo
                },
            );
        } else {
            out.push(b);
        }
        proof {
            assert(s@.skip(i as int)[0] == s@[i as int]);
            assert(s@.skip(i as int).subrange(1, s@.skip(i as int).len() as int) =~= s@.skip(
                i as int + 1,
            ));
            assert(out@ + esc_json(s@.skip(i as int + 1)) =~= old(out)@ + esc_json(s@) || i + 1
                == n);
            if i + 1 == n {
                assert(esc_json(s@.skip(i as int + 1)) =~= Seq::<u8>::empty());
                assert(out@ =~= old(out)@ + esc_json(s@));
            }
        }
        i = i + 1;
    }
    proof {
        if n == 0 {
            assert(out@ =~= old(out)@ + esc_json(s@));
        }
    }
}

/// Appends a quoted, escaped JSON string.
fn push_jstr(out: &mut Vec<u8>, s: &str)
    ensures
        final(out)@ == old(out)@ + jstr(s.spec_bytes()),
{
    push_lit(out, "\"");
    push_esc(out, s.as_bytes());
    push_lit(out, "\"");
    proof {
        assert(out@ =~= old(out)@ + jstr(s.spec_bytes()));
    }
}

/// Appends already-rendered items as a JSON array.
fn push_jarr(out: &mut Vec<u8>, items: &Vec<Vec<u8>>, pretty: bool, ind: &Vec<u8>)
    ensures
        final(out)@ == old(out)@ + jarr(
            Seq::new(items@.len(), |i: int| items@[i]@),
            pretty,
            ind@,
        ),
{
    let ghost its = Seq::new(items@.len(), |i: int| items@[i]@);
    if items.len() == 0 {
        push_lit(out, "[]");
        proof {
            assert(out@ =~= old(out)@ + jarr(its, pretty, ind@));
        }
        return ;
    }
    if pretty {
        push_lit(out, "[\n");
        let ghost pitems = Seq::new(its.len(), |i: int| ind@ + lit("  ") + its[i]);
        let mut i: usize = 0;
        proof {
            assert(pitems.skip(0) =~= pitems);
        }
        while i < items.len()
            invariant
                0 <= i <= items@.len(),
                items@.len() > 0,
                its == Seq::new(items@.len(), |t: int| items@[t]@),
                pitems == Seq::new(its.len(), |t: int| ind@ + lit("  ") + its[t]),
                i < items@.len() ==> out@ + join(pitems.skip(i as int), lit(",\n")) == old(out)@
                    + lit("[\n") + join(pitems, lit(",\n")),
                i == items@.len() ==> out@ == old(out)@ + lit("[\n") + join(pitems, lit(",\n")),
            decreases items@.len() - i,
        {
            out.extend_from_slice(ind.as_slice());
            push_lit(out, "  ");
            out.extend_from_slice(items[i].as_slice());
            proof {
                assert(pitems.skip(i as int)[0] == pitems[i as int]);
                assert(pitems.skip(i as int).subrange(1, pitems.skip(i as int).len() as int)
                    =~= pitems.skip(i as int + 1));
            }
            if i + 1 < items.len() {
                push_lit(out, ",\n");
            } else {
                proof {
                    assert(join(pitems.skip(i as int), lit(",\n")) =~= pitems[i as int]);
                }
            }
            i = i + 1;
        }
        push_lit(out, "\n");
        out.extend_from_slice(ind.as_slice());
        push_lit(out, "]");
        proof {
            assert(out@ =~= old(out)@ + jarr(its, pretty, ind@));
        }
    } else {
        push_lit(out, "[");
        let mut i: usize = 0;
        proof {
            assert(its.skip(0) =~= its);
        }
        while i < items.len()
            invariant
                0 <= i <= items@.len(),
                items@.len() > 0,
                its == Seq::new(items@.len(), |t: int| items@[t]@),
                i < items@.len() ==> out@ + join(its.skip(i as int), lit(",")) == old(out)@ + lit(
                    "[",
                ) + join(its, lit(",")),
                i == items@.len() ==> out@ == old(out)@ + lit("[") + join(its, lit(",")),
            decreases items@.len() - i,
        {
            out.extend_from_slice(items[i].as_slice());
            proof {
                assert(its.skip(i as int)[0] == its[i as int]);
                assert(its.skip(i as int).subrange(1, its.skip(i as int).len() as int) =~= its.skip(
                    i as int + 1,
                ));
            }
            if i + 1 < items.len() {
                push_lit(out, ",");
            } else {
                proof {
                    assert(join(its.skip(i as int), lit(",")) =~= its[i as int]);
                }
            }
            i = i + 1;
        }
        push_lit(out, "]");
        proof {
            assert(out@ =~= old(out)@ + jarr(its, pretty, ind@));
        }
    }
}

/// Renders each float as its own item.
fn f32_item_vecs(v: &Vec<u32>) -> (r: Vec<Vec<u8>>)
    ensures
        Seq::new(r@.len(), |i: int| r@[i]@) =~= f32_items(v@),
{
    let mut out: Vec<Vec<u8>> = Vec::new();
    let mut i: usize = 0;
    while i < v.len()
        invariant
            0 <= i <= v@.len(),
            out@.len() == i,
            forall|j: int| 0 <= j < i ==> (#[trigger] out@[j])@ == f32_dec(v@[j]),
        decreases v@.len() - i,
    {
        let mut one: Vec<u8> = Vec::new();
        push_f32_dec(&mut one, v[i]);
        proof {
            assert(one@ =~= f32_dec(v@[i as int]));
        }
        out.push(one);
        i = i + 1;
    }
    out
}

/// Renders each signed integer as its own item.
fn i32_item_vecs(v: &Vec<i32>) -> (r: Vec<Vec<u8>>)
    ensures
        Seq::new(r@.len(), |i: int| r@[i]@) =~= i32_items(v@),
{
    let mut out: Vec<Vec<u8>> = Vec::new();
    let mut i: usize = 0;
    while i < v.len()
        invariant
            0 <= i <= v@.len(),
            out@.len() == i,
            forall|j: int| 0 <= j < i ==> (#[trigger] out@[j])@ == dec_int(v@[j] as int),
        decreases v@.len() - i,
    {
        let mut one: Vec<u8> = Vec::new();
        push_i64_dec(&mut one, v[i] as i64);
        proof {
            assert(one@ =~= dec_int(v@[i as int] as int));
        }
        out.push(one);
        i = i + 1;
    }
    out
}

/// Appends the JSON rendering of one typed value.
fn push_jvalue(out: &mut Vec<u8>, v: &crate::blk::types::BlkType, pretty: bool, ind: &Vec<u8>)
    ensures
        final(out)@ == old(out)@ + jvalue(v@, pretty, ind@),
{
    match v {
        crate::blk::types::BlkType::Str(s) => {
            push_jstr(out, s.as_str());
            proof {
                assert(out@ =~= old(out)@ + jvalue(v@, pretty, ind@));
            }
        },
        crate::blk::types::BlkType::Int(x) => {
            push_i64_dec(out, *x as i64);
            proof {
                assert(out@ =~= old(out)@ + jvalue(v@, pretty, ind@));
            }
        },
        crate::blk::types::BlkType::Long(x) => {
            push_i64_dec(out, *x);
            proof {
                assert(out@ =~= old(out)@ + jvalue(v@, pretty, ind@));
            }
        },
        crate::blk::types::BlkType::Float(b) => {
            push_f32_dec(out, *b);
            proof {
                assert(out@ =~= old(out)@ + jvalue(v@, pretty, ind@));
            }
        },
        crate::blk::types::BlkType::Float2(w) => {
            let items = f32_item_vecs(w);
            push_jarr(out, &items, pretty, ind);
            proof {
                assert(out@ =~= old(out)@ + jvalue(v@, pretty, ind@));
            }
        },
        crate::blk::types::BlkType::Float3(w) => {
            let items = f32_item_vecs(w);
            push_jarr(out, &items, pretty, ind);
            proof {
                assert(out@ =~= old(out)@ + jvalue(v@, pretty, ind@));
            }
        },
        crate::blk::types::BlkType::Float4(w) => {
            let items = f32_item_vecs(w);
            push_jarr(out, &items, pretty, ind);
            proof {
                assert(out@ =~= old(out)@ + jvalue(v@, pretty, ind@));
            }
        },
        crate::blk::types::BlkType::Int2(w) => {
            let items = i32_item_vecs(w);
            push_jarr(out, &items, pretty, ind);
            proof {
                assert(out@ =~= old(out)@ + jvalue(v@, pretty, ind@));
            }
        },
        crate::blk::types::BlkType::Int3(w) => {
            let items = i32_item_vecs(w);
            push_jarr(out, &items, pretty, ind);
            proof {
                assert(out@ =~= old(out)@ + jvalue(v@, pretty, ind@));
            }
        },
        crate::blk::types::BlkType::Bool(b) => {
            if *b {
                push_lit(out, "true");
            } else {
                push_lit(out, "false");
            }
            proof {
                assert(out@ =~= old(out)@ + jvalue(v@, pretty, ind@));
            }
        },
        crate::blk::types::BlkType::Color { r, g, b, a } => {
            let mut items: Vec<Vec<u8>> = Vec::new();
            let mut one: Vec<u8> = Vec::new();
            push_u64_dec(&mut one, *r as u64);
            items.push(one);
            let mut one: Vec<u8> = Vec::new();
            push_u64_dec(&mut one, *g as u64);
            items.push(one);
            let mut one: Vec<u8> = Vec::new();
            push_u64_dec(&mut one, *b as u64);
            items.push(one);
            let mut one: Vec<u8> = Vec::new();
            push_u64_dec(&mut one, *a as u64);
            items.push(one);
            proof {
                assert(Seq::new(items@.len(), |i: int| items@[i]@) =~= seq![
                    dec_digits(*r as nat),
                    dec_digits(*g as nat),
                    dec_digits(*b as nat),
                    dec_digits(*a as nat),
                ]);
            }
            push_jarr(out, &items, pretty, ind);
            proof {
                assert(out@ =~= old(out)@ + jvalue(v@, pretty, ind@));
            }
        },
        crate::blk::types::BlkType::Float12(w) => {
            if w.len() == 12 {
                let mut ind2: Vec<u8> = Vec::new();
                ind2.extend_from_slice(ind.as_slice());
                push_lit(&mut ind2, "  ");
                let mut rows: Vec<Vec<u8>> = Vec::new();
                let mut r: usize = 0;
                while r < 4
                    invariant
                        0 <= r <= 4,
                        w@.len() == 12,
                        ind2@ == ind@ + lit("  "),
                        rows@.len() == r,
                        forall|t: int|
                            0 <= t < r ==> (#[trigger] rows@[t])@ == jarr(
                                f32_items(w@.subrange(3 * t, 3 * t + 3)),
                                pretty,
                                ind@ + lit("  "),
                            ),
                    decreases 4 - r,
                {
                    let mut seg: Vec<u32> = Vec::new();
                    seg.push(w[3 * r]);
                    seg.push(w[3 * r + 1]);
                    seg.push(w[3 * r + 2]);
                    proof {
                        assert(seg@ =~= w@.subrange(3 * (r as int), 3 * (r as int) + 3));
                    }
                    let items = f32_item_vecs(&seg);
                    let mut one: Vec<u8> = Vec::new();
                    push_jarr(&mut one, &items, pretty, &ind2);
                    proof {
                        assert(one@ =~= jarr(
                            f32_items(w@.subrange(3 * (r as int), 3 * (r as int) + 3)),
                            pretty,
                            ind@ + lit("  "),
                        ));
                    }
                    rows.push(one);
                    r = r + 1;
                }
                proof {
                    assert(Seq::new(rows@.len(), |t: int| rows@[t]@) =~= seq![
                        jarr(f32_items(w@.subrange(0, 3)), pretty, ind@ + lit("  ")),
                        jarr(f32_items(w@.subrange(3, 6)), pretty, ind@ + lit("  ")),
                        jarr(f32_items(w@.subrange(6, 9)), pretty, ind@ + lit("  ")),
                        jarr(f32_items(w@.subrange(9, 12)), pretty, ind@ + lit("  ")),
                    ]);
                }
                push_jarr(out, &rows, pretty, ind);
                proof {
                    assert(out@ =~= old(out)@ + jvalue(v@, pretty, ind@));
                }
            } else {
                let items = f32_item_vecs(w);
                push_jarr(out, &items, pretty, ind);
                proof {
                    assert(out@ =~= old(out)@ + jvalue(v@, pretty, ind@));
                }
            }
        },
    }
}

impl BlkField {
    /// Renders this node's value position into `one`.
    fn render_jnode(&self, pretty: bool, ind: &Vec<u8>) -> (r: Vec<u8>)
        ensures
            r@ == jnode(self@, pretty, ind@),
        decreases *self,
    {
        let mut out: Vec<u8> = Vec::new();
        match self {
            BlkField::Value(_, v) => {
                push_jvalue(&mut out, v, pretty, ind);
                proof {
                    assert(out@ =~= jnode(self@, pretty, ind@));
                }
                out
            },
            BlkField::Struct(_, fs) => {
                let mut ind2: Vec<u8> = Vec::new();
                ind2.extend_from_slice(ind.as_slice());
                push_lit(&mut ind2, "  ");
                let ghost fsm = crate::blk::structure::fields_model(fs@);
                let mut entries: Vec<Vec<u8>> = Vec::new();
                let mut i: usize = 0;
                while i < fs.len()
                    invariant
                        0 <= i <= fs@.len(),
                        (*self) is Struct,
                        self->Struct_1@ == fs@,
                        fsm == crate::blk::structure::fields_model(fs@),
                        ind2@ == ind@ + lit("  "),
                        entries@.len() == i,
                        forall|j: int|
                            0 <= j < i ==> (#[trigger] entries@[j])@ == jstr(
                                field_model(fs@[j]).name_bytes(),
                            ) + (if pretty {
                                lit(": ")
                            } else {
                                lit(":")
                            }) + jnode(field_model(fs@[j]), pretty, ind@ + lit("  ")),
                    decreases fs@.len() - i,
                {
                    proof {
                        assert(decreases_to!(*self => self->Struct_1));
                        assert(decreases_to!(self->Struct_1 => self->Struct_1@));
                        assert(decreases_to!(self->Struct_1@ => self->Struct_1@[i as int]));
                    }
                    let mut one: Vec<u8> = Vec::new();
                    let name = fs[i].get_name();
                    push_jstr(&mut one, name.as_str());
                    if pretty {
                        push_lit(&mut one, ": ");
                    } else {
                        push_lit(&mut one, ":");
                    }
                    let body = fs[i].render_jnode(pretty, &ind2);
                    one.extend_from_slice(body.as_slice());
                    proof {
                        assert(encode_utf8(name@) == field_model(fs@[i as int]).name_bytes());
                        assert(one@ =~= jstr(field_model(fs@[i as int]).name_bytes()) + (if pretty {
                            lit(": ")
                        } else {
                            lit(":")
                        }) + jnode(field_model(fs@[i as int]), pretty, ind@ + lit("  ")));
                    }
                    entries.push(one);
                    i = i + 1;
                }
                proof {
                    crate::blk::structure::lemma_fields_model(fs@);
                    lemma_jentries_pointwise(fsm, pretty, ind@);
                    assert forall|j: int|
                        0 <= j < fs@.len() implies entries@[j]@ == jentries_of(
                        fsm,
                        pretty,
                        ind@,
                    )[j] by {
                        assert(fsm[j] == field_model(fs@[j]));
                        assert(entries@[j]@ == jstr(field_model(fs@[j]).name_bytes()) + (if pretty {
                            lit(": ")
                        } else {
                            lit(":")
                        }) + jnode(field_model(fs@[j]), pretty, ind@ + lit("  ")));
                        assert(jentries_of(fsm, pretty, ind@)[j] == jstr(fsm[j].name_bytes()) + (
                        if pretty {
                            lit(": ")
                        } else {
                            lit(":")
                        }) + jnode(fsm[j], pretty, ind@ + lit("  ")));
                    }
                    assert(Seq::new(entries@.len(), |j: int| entries@[j]@) =~= jentries_of(
                        fsm,
                        pretty,
                        ind@,
                    ));
                }
                if pretty {
                    push_jobj_wrap(&mut out, &entries, true, ind);
                } else {
                    push_jobj_wrap(&mut out, &entries, false, ind);
                }
                proof {
                    assert(out@ =~= jnode(self@, pretty, ind@));
                }
                out
            },
            BlkField::Merged(_, fs) => {
                let mut ind2: Vec<u8> = Vec::new();
                ind2.extend_from_slice(ind.as_slice());
                push_lit(&mut ind2, "  ");
                let ghost fsm = crate::blk::structure::fields_model(fs@);
                let mut items: Vec<Vec<u8>> = Vec::new();
                let mut i: usize = 0;
                while i < fs.len()
                    invariant
                        0 <= i <= fs@.len(),
                        (*self) is Merged,
                        self->Merged_1@ == fs@,
                        fsm == crate::blk::structure::fields_model(fs@),
                        ind2@ == ind@ + lit("  "),
                        items@.len() == i,
                        forall|j: int|
                            0 <= j < i ==> (#[trigger] items@[j])@ == jnode(
                                field_model(fs@[j]),
                                pretty,
                                ind@ + lit("  "),
                            ),
                    decreases fs@.len() - i,
                {
                    proof {
                        assert(decreases_to!(*self => self->Merged_1));
                        assert(decreases_to!(self->Merged_1 => self->Merged_1@));
                        assert(decreases_to!(self->Merged_1@ => self->Merged_1@[i as int]));
                    }
                    let body = fs[i].render_jnode(pretty, &ind2);
                    items.push(body);
                    i = i + 1;
                }
                proof {
                    crate::blk::structure::lemma_fields_model(fs@);
                    lemma_jnodes_pointwise(fsm, pretty, ind@);
                    assert forall|j: int|
                        0 <= j < fs@.len() implies items@[j]@ == jnodes_of(fsm, pretty, ind@)[j] by {
                        assert(fsm[j] == field_model(fs@[j]));
                        assert(items@[j]@ == jnode(field_model(fs@[j]), pretty, ind@ + lit("  ")));
                        assert(jnodes_of(fsm, pretty, ind@)[j] == jnode(
                            fsm[j],
                            pretty,
                            ind@ + lit("  "),
                        ));
                    }
                    assert(Seq::new(items@.len(), |j: int| items@[j]@) =~= jnodes_of(
                        fsm,
                        pretty,
                        ind@,
                    ));
                }
                push_jarr(&mut out, &items, pretty, ind);
                proof {
                    assert(out@ =~= jnode(self@, pretty, ind@));
                }
                out
            },
        }
    }

    /// Renders the tree as JSON bytes: the optional merge and override
    /// passes, then the root as a JSON value.
    pub fn json_bytes(&self, config: FormattingConfiguration) -> (r: Vec<u8>)
        ensures
            r@ == json_doc(self@, config),
    {
        let mut work = self.clone();
        if config.merge_duplicate_keys {
            work.merge_fields();
        }
        if config.apply_overrides {
            work.apply_overrides();
        }
        let ind: Vec<u8> = Vec::new();
        work.render_jnode(config.pretty, &ind)
    }

    /// Renders the tree as a JSON string, per the configuration. Always
    /// succeeds: the emitted bytes are valid UTF-8 for every tree.
    pub fn as_ref_json(&self, config: FormattingConfiguration) -> (r: Result<String, ParseError>)
        ensures
            r is Ok,
            r matches Ok(s) ==> encode_utf8(s@) == json_doc(self@, config),
    {
        let bytes = self.json_bytes(config);
        proof {
            lemma_json_doc_valid(self@, config);
        }
        match crate::strutil::bytes_to_string(bytes.as_slice()) {
            Some(s) => Ok(s),
            None => Err(ParseError::BadUtf8),
        }
    }
}

/// Appends already-rendered entries as a JSON object.
fn push_jobj_wrap(out: &mut Vec<u8>, entries: &Vec<Vec<u8>>, pretty: bool, ind: &Vec<u8>)
    ensures
        final(out)@ == old(out)@ + jobj(
            Seq::new(entries@.len(), |i: int| entries@[i]@),
            pretty,
            ind@,
        ),
{
    let ghost its = Seq::new(entries@.len(), |i: int| entries@[i]@);
    if entries.len() == 0 {
        push_lit(out, "{}");
        proof {
            assert(out@ =~= old(out)@ + jobj(its, pretty, ind@));
        }
        return ;
    }
    if pretty {
        push_lit(out, "{\n");
        let ghost pitems = Seq::new(its.len(), |i: int| ind@ + lit("  ") + its[i]);
        let mut i: usize = 0;
        proof {
            assert(pitems.skip(0) =~= pitems);
        }
        while i < entries.len()
            invariant
                0 <= i <= entries@.len(),
                entries@.len() > 0,
                its == Seq::new(entries@.len(), |t: int| entries@[t]@),
                pitems == Seq::new(its.len(), |t: int| ind@ + lit("  ") + its[t]),
                i < entries@.len() ==> out@ + join(pitems.skip(i as int), lit(",\n")) == old(
                    out,
                )@ + lit("{\n") + join(pitems, lit(",\n")),
                i == entries@.len() ==> out@ == old(out)@ + lit("{\n") + join(
                    pitems,
                    lit(",\n"),
                ),
            decreases entries@.len() - i,
        {
            out.extend_from_slice(ind.as_slice());
            push_lit(out, "  ");
            out.extend_from_slice(entries[i].as_slice());
            proof {
                assert(pitems.skip(i as int)[0] == pitems[i as int]);
                assert(pitems.skip(i as int).subrange(1, pitems.skip(i as int).len() as int)
                    =~= pitems.skip(i as int + 1));
            }
            if i + 1 < entries.len() {
                push_lit(out, ",\n");
            } else {
                proof {
                    assert(join(pitems.skip(i as int), lit(",\n")) =~= pitems[i as int]);
                }
            }
            i = i + 1;
        }
        push_lit(out, "\n");
        out.extend_from_slice(ind.as_slice());
        push_lit(out, "}");
        proof {
            assert(out@ =~= old(out)@ + jobj(its, pretty, ind@));
        }
    } else {
        push_lit(out, "{");
        let mut i: usize = 0;
        proof {
            assert(its.skip(0) =~= its);
        }
        while i < entries.len()
            invariant
                0 <= i <= entries@.len(),
                entries@.len() > 0,
                its == Seq::new(entries@.len(), |t: int| entries@[t]@),
                i < entries@.len() ==> out@ + join(its.skip(i as int), lit(",")) == old(out)@
                    + lit("{") + join(its, lit(",")),
                i == entries@.len() ==> out@ == old(out)@ + lit("{") + join(its, lit(",")),
            decreases entries@.len() - i,
        {
            out.extend_from_slice(entries[i].as_slice());
            proof {
                assert(its.skip(i as int)[0] == its[i as int]);
                assert(its.skip(i as int).subrange(1, its.skip(i as int).len() as int) =~= its.skip(
                    i as int + 1,
                ));
            }
            if i + 1 < entries.len() {
                push_lit(out, ",");
            } else {
                proof {
                    assert(join(its.skip(i as int), lit(",")) =~= its[i as int]);
                }
            }
            i = i + 1;
        }
        push_lit(out, "}");
        proof {
            assert(out@ =~= old(out)@ + jobj(its, pretty, ind@));
        }
    }
}

/// The struct entries line up with the children, one for one.
proof fn lemma_jentries_pointwise(fs: Seq<FieldModel>, pretty: bool, ind: Seq<u8>)
    ensures
        jentries_of(fs, pretty, ind).len() == fs.len(),
        forall|j: int|
            0 <= j < fs.len() ==> jentries_of(fs, pretty, ind)[j] == jstr(
                (#[trigger] fs[j]).name_bytes(),
            ) + (if pretty {
                lit(": ")
            } else {
                lit(":")
            }) + jnode(fs[j], pretty, ind + lit("  ")),
    decreases fs.len(),
{
    if fs.len() > 0 {
        lemma_jentries_pointwise(fs.subrange(1, fs.len() as int), pretty, ind);
        assert forall|j: int|
            0 <= j < fs.len() implies jentries_of(fs, pretty, ind)[j] == jstr(
            (#[trigger] fs[j]).name_bytes(),
        ) + (if pretty {
            lit(": ")
        } else {
            lit(":")
        }) + jnode(fs[j], pretty, ind + lit("  ")) by {
            if j > 0 {
                assert(fs.subrange(1, fs.len() as int)[j - 1] == fs[j]);
            }
        }
    }
}

/// The merged members line up with the children, one for one.
proof fn lemma_jnodes_pointwise(fs: Seq<FieldModel>, pretty: bool, ind: Seq<u8>)
    ensures
        jnodes_of(fs, pretty, ind).len() == fs.len(),
        forall|j: int|
            0 <= j < fs.len() ==> jnodes_of(fs, pretty, ind)[j] == jnode(
                #[trigger] fs[j],
                pretty,
                ind + lit("  "),
            ),
    decreases fs.len(),
{
    if fs.len() > 0 {
        lemma_jnodes_pointwise(fs.subrange(1, fs.len() as int), pretty, ind);
        assert forall|j: int|
            0 <= j < fs.len() implies jnodes_of(fs, pretty, ind)[j] == jnode(
            #[trigger] fs[j],
            pretty,
            ind + lit("  "),
        ) by {
            if j > 0 {
                assert(fs.subrange(1, fs.len() as int)[j - 1] == fs[j]);
            }
        }
    }
}

} // verus!
