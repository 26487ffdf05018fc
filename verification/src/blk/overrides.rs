//! The override pass: within each struct, a child named `override:X`
//! replaces the first sibling named `X`, taking over that name. The pass
//! recurses depth-first and preserves the order of non-override siblings;
//! overrides with no matching sibling are dropped.

use vstd::prelude::*;
use vstd::string::StrSliceExecFns;

use crate::blk::structure::{field_model, BlkField, FieldModel};

verus! {

/// Whether a name begins with the `override:` prefix.
pub open spec fn is_override_name(n: Seq<char>) -> bool {
    n.len() >= 9 && n.take(9) == "override:"@
}

/// The name with one `override:` prefix removed.
pub open spec fn strip_override(n: Seq<char>) -> Seq<char> {
    n.skip(9)
}

/// Children recursively processed, in order.
pub open spec fn apply_each(fs: Seq<FieldModel>) -> Seq<FieldModel>
    decreases fs, 1nat,
{
    if fs.len() == 0 {
        Seq::<FieldModel>::empty()
    } else {
        seq![apply_overrides_spec(fs[0])] + apply_each(fs.subrange(1, fs.len() as int))
    }
}

/// The children that are not overrides, in order.
pub open spec fn keeps_of(fs: Seq<FieldModel>) -> Seq<FieldModel>
    decreases fs.len(),
{
    if fs.len() == 0 {
        Seq::<FieldModel>::empty()
    } else {
        let rest = keeps_of(fs.subrange(1, fs.len() as int));
        if !is_override_name(fs[0].name()) {
            seq![fs[0]] + rest
        } else {
            rest
        }
    }
}

/// The override children, in order.
pub open spec fn ovs_of(fs: Seq<FieldModel>) -> Seq<FieldModel>
    decreases fs.len(),
{
    if fs.len() == 0 {
        Seq::<FieldModel>::empty()
    } else {
        let rest = ovs_of(fs.subrange(1, fs.len() as int));
        if is_override_name(fs[0].name()) {
            seq![fs[0]] + rest
        } else {
            rest
        }
    }
}

/// Index of the first child with the given name.
pub open spec fn first_named(fs: Seq<FieldModel>, x: Seq<char>) -> Option<int>
    decreases fs.len(),
{
    if fs.len() == 0 {
        None
    } else if fs[0].name() == x {
        Some(0int)
    } else {
        match first_named(fs.subrange(1, fs.len() as int), x) {
            Some(i) => Some(i + 1),
            None => None,
        }
    }
}

/// One override applied: the first sibling with the stripped name is
/// replaced by the override under that name; with no match, nothing
/// changes and the override is dropped.
pub open spec fn replace_one(keeps: Seq<FieldModel>, ov: FieldModel) -> Seq<FieldModel> {
    let x = strip_override(ov.name());
    match first_named(keeps, x) {
        Some(i) => keeps.update(i, ov.with_name(x)),
        None => keeps,
    }
}

/// All overrides applied in order.
pub open spec fn apply_ovs(keeps: Seq<FieldModel>, ovs: Seq<FieldModel>) -> Seq<FieldModel>
    decreases ovs.len(),
{
    if ovs.len() == 0 {
        keeps
    } else {
        apply_ovs(replace_one(keeps, ovs[0]), ovs.subrange(1, ovs.len() as int))
    }
}

/// The override pass over a struct's children.
pub open spec fn apply_children(fs: Seq<FieldModel>) -> Seq<FieldModel>
    decreases fs, 2nat,
{
    let rec = apply_each(fs);
    apply_ovs(keeps_of(rec), ovs_of(rec))
}

/// The override pass over a whole tree: only structs change; values and
/// merged nodes are left as they are.
pub open spec fn apply_overrides_spec(m: FieldModel) -> FieldModel
    decreases m, 0nat,
    via apply_overrides_spec_decreases
{
    match m {
        FieldModel::Struct(n, fs) => FieldModel::Struct(n, apply_children(fs)),
        _ => m,
    }
}

#[via_fn]
proof fn apply_overrides_spec_decreases(m: FieldModel) {
    match m {
        FieldModel::Struct(n, fs) => {
            assert(decreases_to!(m => m->Struct_1));
        },
        _ => {},
    }
}

/// Whether a string begins with the `override:` prefix.
fn name_is_override(s: &String) -> (r: bool)
    ensures
        r == is_override_name(s@),
{
    proof {
        reveal_strlit("override:");
    }
    let st = s.as_str();
    if st.unicode_len() < 9 {
        return false;
    }
    let r = st.get_char(0) == 'o' && st.get_char(1) == 'v' && st.get_char(2) == 'e' && st.get_char(
        3,
    ) == 'r' && st.get_char(4) == 'r' && st.get_char(5) == 'i' && st.get_char(6) == 'd'
        && st.get_char(7) == 'e' && st.get_char(8) == ':';
    proof {
        if r {
            assert(s@.take(9) =~= "override:"@);
        } else {
            if s@.take(9) == "override:"@ {
                assert(s@.take(9)[0] == 'o');
                assert(s@.take(9)[1] == 'v');
                assert(s@.take(9)[2] == 'e');
                assert(s@.take(9)[3] == 'r');
                assert(s@.take(9)[4] == 'r');
                assert(s@.take(9)[5] == 'i');
                assert(s@.take(9)[6] == 'd');
                assert(s@.take(9)[7] == 'e');
                assert(s@.take(9)[8] == ':');
            }
        }
    }
    r
}

impl BlkField {
    /// The tree with the override pass applied, leaving `self` untouched.
    fn applied(f: &BlkField) -> (r: BlkField)
        ensures
            r@ == apply_overrides_spec(f@),
        decreases *f,
    {
        match f {
            BlkField::Struct(n, fs) => {
                // recurse into every child first
                let mut rec: Vec<BlkField> = Vec::new();
                let mut i: usize = 0;
                while i < fs.len()
                    invariant
                        0 <= i <= fs@.len(),
                        (*f) is Struct,
                        f->Struct_1@ == fs@,
                        rec@.len() == i,
                        forall|j: int|
                            0 <= j < i ==> (#[trigger] rec@[j])@ == apply_overrides_spec(
                                field_model(fs@[j]),
                            ),
                    decreases fs@.len() - i,
                {
                    proof {
                        assert(decreases_to!(*f => f->Struct_1));
                        assert(decreases_to!(f->Struct_1 => f->Struct_1@));
                        assert(decreases_to!(f->Struct_1@ => f->Struct_1@[i as int]));
                    }
                    let c = Self::applied(&fs[i]);
                    rec.push(c);
                    i = i + 1;
                }
                let ghost fsm = crate::blk::structure::fields_model(fs@);
                let ghost recm = apply_each(fsm);
                proof {
                    crate::blk::structure::lemma_fields_model(fs@);
                    lemma_apply_each_pointwise(fsm);
                    assert forall|j: int| 0 <= j < rec@.len() implies rec@[j]@ == recm[j] by {
                        assert(rec@[j]@ == apply_overrides_spec(field_model(fs@[j])));
                        assert(fsm[j] == field_model(fs@[j]));
                        assert(recm[j] == apply_overrides_spec(fsm[j]));
                    }
                    assert(Seq::new(rec@.len(), |j: int| rec@[j]@) =~= recm);
                }
                // partition into keeps and overrides
                let mut keeps: Vec<BlkField> = Vec::new();
                let mut ovs: Vec<BlkField> = Vec::new();
                let mut i: usize = 0;
                while i < rec.len()
                    invariant
                        0 <= i <= rec@.len(),
                        recm == apply_each(fsm),
                        Seq::new(rec@.len(), |j: int| rec@[j]@) =~= recm,
                        Seq::new(keeps@.len(), |j: int| keeps@[j]@) =~= keeps_of(
                            recm.take(i as int),
                        ),
                        Seq::new(ovs@.len(), |j: int| ovs@[j]@) =~= ovs_of(recm.take(i as int)),
                    decreases rec@.len() - i,
                {
                    let name = rec[i].get_name();
                    let c = rec[i].clone();
                    proof {
                        lemma_keeps_ovs_snoc(recm, i as int);
                    }
                    if name_is_override(&name) {
                        ovs.push(c);
                        proof {
                            assert(Seq::new(ovs@.len(), |j: int| ovs@[j]@) =~= ovs_of(
                                recm.take(i as int + 1),
                            ));
                            assert(Seq::new(keeps@.len(), |j: int| keeps@[j]@) =~= keeps_of(
                                recm.take(i as int + 1),
                            ));
                        }
                    } else {
                        keeps.push(c);
                        proof {
                            assert(Seq::new(keeps@.len(), |j: int| keeps@[j]@) =~= keeps_of(
                                recm.take(i as int + 1),
                            ));
                            assert(Seq::new(ovs@.len(), |j: int| ovs@[j]@) =~= ovs_of(
                                recm.take(i as int + 1),
                            ));
                        }
                    }
                    i = i + 1;
                }
                proof {
                    assert(recm.take(recm.len() as int) =~= recm);
                }
                // apply each override in order
                let ghost keeps0 = Seq::new(keeps@.len(), |j: int| keeps@[j]@);
                let ghost ovsm = ovs_of(recm);
                proof {
                    assert(keeps0 =~= keeps_of(recm));
                    assert(Seq::new(ovs@.len(), |j: int| ovs@[j]@) =~= ovsm);
                    assert(ovsm.skip(0) =~= ovsm);
                    lemma_ovs_names(recm);
                }
                let mut i: usize = 0;
                while i < ovs.len()
                    invariant
                        0 <= i <= ovs@.len(),
                        ovsm == ovs_of(recm),
                        keeps0 == keeps_of(recm),
                        Seq::new(ovs@.len(), |j: int| ovs@[j]@) =~= ovsm,
                        apply_ovs(
                            Seq::new(keeps@.len(), |j: int| keeps@[j]@),
                            ovsm.skip(i as int),
                        ) == apply_ovs(keeps0, ovsm),
                    decreases ovs@.len() - i,
                {
                    let ghost before = Seq::new(keeps@.len(), |j: int| keeps@[j]@);
                    let full = ovs[i].get_name();
                    proof {
                        lemma_ovs_names(recm);
                        assert(ovsm[i as int] == ovs@[i as int]@);
                        assert(is_override_name(ovs_of(recm)[i as int].name()));
                        assert(ovsm[i as int] == ovs_of(recm)[i as int]);
                        assert(full@.len() >= 9);
                    }
                    let stripped = full.as_str().substring_char(9, full.as_str().unicode_len());
                    let x: String = stripped.to_owned();
                    proof {
                        assert(ovsm.skip(i as int)[0] == ovs@[i as int]@);
                        assert(x@ =~= strip_override(ovs@[i as int]@.name()));
                    }
                    // find the first keep with the stripped name
                    proof {
                        assert(before.skip(0) =~= before);
                    }
                    let mut j: usize = 0;
                    let mut found: bool = false;
                    while j < keeps.len() && !found
                        invariant
                            0 <= j <= keeps@.len(),
                            before == Seq::new(keeps@.len(), |t: int| keeps@[t]@),
                            !found ==> first_named(before, x@) == match first_named(
                                before.skip(j as int),
                                x@,
                            ) {
                                Some(t) => Some(t + j),
                                None => None,
                            },
                            found ==> 0 <= j < keeps@.len() && first_named(before, x@) == Some(
                                j as int,
                            ),
                        decreases keeps@.len() - j + if found {
                            0int
                        } else {
                            1int
                        },
                    {
                        let knm = keeps[j].get_name();
                        if knm.eq(&x) {
                            proof {
                                assert(before.skip(j as int)[0] == before[j as int]);
                            }
                            found = true;
                        } else {
                            proof {
                                assert(before.skip(j as int)[0] == before[j as int]);
                                assert(before.skip(j as int).subrange(
                                    1,
                                    before.skip(j as int).len() as int,
                                ) =~= before.skip(j as int + 1));
                            }
                            j = j + 1;
                        }
                    }
                    if found {
                        let mut nv = ovs[i].clone();
                        nv.set_name(x);
                        keeps[j] = nv;
                        proof {
                            assert(Seq::new(keeps@.len(), |t: int| keeps@[t]@) =~= replace_one(
                                before,
                                ovsm.skip(i as int)[0],
                            ));
                        }
                    } else {
                        proof {
                            assert(first_named(before.skip(keeps@.len() as int), x@) is None);
                            assert(before.skip(keeps@.len() as int).len() == 0);
                            assert(Seq::new(keeps@.len(), |t: int| keeps@[t]@) =~= replace_one(
                                before,
                                ovsm.skip(i as int)[0],
                            ));
                        }
                    }
                    proof {
                        assert(ovsm.skip(i as int).subrange(
                            1,
                            ovsm.skip(i as int).len() as int,
                        ) =~= ovsm.skip(i as int + 1));
                    }
                    i = i + 1;
                }
                proof {
                    assert(ovsm.skip(ovs@.len() as int) =~= Seq::<FieldModel>::empty());
                }
                let out = BlkField::Struct(n.clone(), keeps);
                proof {
                    crate::blk::structure::lemma_fields_model(out->Struct_1@);
                    assert(crate::blk::structure::fields_model(out->Struct_1@) =~= apply_children(
                        fsm,
                    ));
                }
                out
            },
            _ => f.clone(),
        }
    }

    /// Applies the override pass in place.
    pub fn apply_overrides(&mut self)
        ensures
            final(self)@ == apply_overrides_spec(old(self)@),
    {
        let v = Self::applied(&*self);
        *self = v;
    }
}

/// A tree the override pass no longer changes.
pub open spec fn is_fixed(x: FieldModel) -> bool {
    apply_overrides_spec(x) == x
}

/// Renaming commutes with the override pass: the pass only rewrites
/// children, never the node's own name.
proof fn lemma_apply_with_name(v: FieldModel, x: Seq<char>)
    ensures
        apply_overrides_spec(v.with_name(x)) == apply_overrides_spec(v).with_name(x),
{
    match v {
        FieldModel::Struct(n, fs) => {},
        _ => {},
    }
}

/// A found first-named index is in range and names what was sought.
proof fn lemma_first_named(s: Seq<FieldModel>, x: Seq<char>)
    ensures
        first_named(s, x) matches Some(i) ==> 0 <= i < s.len() && s[i].name() == x,
    decreases s.len(),
{
    if s.len() > 0 {
        lemma_first_named(s.subrange(1, s.len() as int), x);
    }
}

/// The kept children carry no override prefix.
proof fn lemma_keeps_names(s: Seq<FieldModel>)
    ensures
        forall|i: int|
            0 <= i < keeps_of(s).len() ==> !is_override_name(#[trigger] keeps_of(s)[i].name()),
    decreases s.len(),
{
    if s.len() > 0 {
        let t = s.subrange(1, s.len() as int);
        lemma_keeps_names(t);
        assert forall|i: int|
            0 <= i < keeps_of(s).len() implies !is_override_name(
            #[trigger] keeps_of(s)[i].name(),
        ) by {
            if !is_override_name(s[0].name()) {
                if i > 0 {
                    assert(keeps_of(s)[i] == keeps_of(t)[i - 1]);
                }
            } else {
                assert(keeps_of(s)[i] == keeps_of(t)[i]);
            }
        }
    }
}

/// Fixedness carries from the children to the kept children.
proof fn lemma_keeps_fixed(s: Seq<FieldModel>)
    requires
        forall|i: int| 0 <= i < s.len() ==> is_fixed(#[trigger] s[i]),
    ensures
        forall|i: int| 0 <= i < keeps_of(s).len() ==> is_fixed(#[trigger] keeps_of(s)[i]),
    decreases s.len(),
{
    if s.len() > 0 {
        let t = s.subrange(1, s.len() as int);
        assert forall|i: int| 0 <= i < t.len() implies is_fixed(#[trigger] t[i]) by {
            assert(t[i] == s[i + 1]);
        }
        lemma_keeps_fixed(t);
        assert forall|i: int|
            0 <= i < keeps_of(s).len() implies is_fixed(#[trigger] keeps_of(s)[i]) by {
            if !is_override_name(s[0].name()) {
                if i > 0 {
                    assert(keeps_of(s)[i] == keeps_of(t)[i - 1]);
                }
            } else {
                assert(keeps_of(s)[i] == keeps_of(t)[i]);
            }
        }
    }
}

/// Fixedness carries from the children to the override children.
proof fn lemma_ovs_fixed(s: Seq<FieldModel>)
    requires
        forall|i: int| 0 <= i < s.len() ==> is_fixed(#[trigger] s[i]),
    ensures
        forall|i: int| 0 <= i < ovs_of(s).len() ==> is_fixed(#[trigger] ovs_of(s)[i]),
    decreases s.len(),
{
    if s.len() > 0 {
        let t = s.subrange(1, s.len() as int);
        assert forall|i: int| 0 <= i < t.len() implies is_fixed(#[trigger] t[i]) by {
            assert(t[i] == s[i + 1]);
        }
        lemma_ovs_fixed(t);
        assert forall|i: int|
            0 <= i < ovs_of(s).len() implies is_fixed(#[trigger] ovs_of(s)[i]) by {
            if is_override_name(s[0].name()) {
                if i > 0 {
                    assert(ovs_of(s)[i] == ovs_of(t)[i - 1]);
                }
            } else {
                assert(ovs_of(s)[i] == ovs_of(t)[i]);
            }
        }
    }
}

/// Applying overrides to fixed, prefix-free keeps leaves every result
/// child fixed and prefix-free.
proof fn lemma_apply_ovs_preserves(keeps: Seq<FieldModel>, ovs: Seq<FieldModel>)
    requires
        forall|i: int|
            0 <= i < keeps.len() ==> is_fixed(#[trigger] keeps[i]) && !is_override_name(
                keeps[i].name(),
            ),
        forall|i: int| 0 <= i < ovs.len() ==> is_fixed(#[trigger] ovs[i]),
    ensures
        apply_ovs(keeps, ovs).len() == keeps.len(),
        forall|i: int|
            0 <= i < apply_ovs(keeps, ovs).len() ==> is_fixed(#[trigger] apply_ovs(keeps, ovs)[i])
                && !is_override_name(apply_ovs(keeps, ovs)[i].name()),
    decreases ovs.len(),
{
    if ovs.len() > 0 {
        let k2 = replace_one(keeps, ovs[0]);
        let x = strip_override(ovs[0].name());
        lemma_first_named(keeps, x);
        assert forall|i: int|
            0 <= i < k2.len() implies is_fixed(#[trigger] k2[i]) && !is_override_name(
            k2[i].name(),
        ) by {
            match first_named(keeps, x) {
                Some(t) => {
                    if i == t {
                        lemma_apply_with_name(ovs[0], x);
                        assert(k2[i] == ovs[0].with_name(x));
                        assert(apply_overrides_spec(ovs[0]) == ovs[0]);
                        assert(keeps[t].name() == x);
                    } else {
                        assert(k2[i] == keeps[i]);
                    }
                },
                None => {
                    assert(k2[i] == keeps[i]);
                },
            }
        }
        let t = ovs.subrange(1, ovs.len() as int);
        assert forall|i: int| 0 <= i < t.len() implies is_fixed(#[trigger] t[i]) by {
            assert(t[i] == ovs[i + 1]);
        }
        lemma_apply_ovs_preserves(k2, t);
    }
}

/// The recursive pass is the identity on fixed children.
proof fn lemma_apply_each_fixed(s: Seq<FieldModel>)
    requires
        forall|i: int| 0 <= i < s.len() ==> is_fixed(#[trigger] s[i]),
    ensures
        apply_each(s) == s,
    decreases s.len(),
{
    if s.len() == 0 {
        assert(apply_each(s) =~= s);
    } else {
        let t = s.subrange(1, s.len() as int);
        assert forall|i: int| 0 <= i < t.len() implies is_fixed(#[trigger] t[i]) by {
            assert(t[i] == s[i + 1]);
        }
        lemma_apply_each_fixed(t);
        assert(apply_each(s) =~= s);
    }
}

/// With no override-prefixed names, partitioning keeps everything.
proof fn lemma_partition_trivial(s: Seq<FieldModel>)
    requires
        forall|i: int| 0 <= i < s.len() ==> !is_override_name(#[trigger] s[i].name()),
    ensures
        keeps_of(s) == s,
        ovs_of(s) == Seq::<FieldModel>::empty(),
    decreases s.len(),
{
    if s.len() == 0 {
        assert(keeps_of(s) =~= s);
        assert(ovs_of(s) =~= Seq::<FieldModel>::empty());
    } else {
        let t = s.subrange(1, s.len() as int);
        assert forall|i: int|
            0 <= i < t.len() implies !is_override_name(#[trigger] t[i].name()) by {
            assert(t[i] == s[i + 1]);
        }
        lemma_partition_trivial(t);
        assert(keeps_of(s) =~= s);
        assert(ovs_of(s) =~= Seq::<FieldModel>::empty());
    }
}

/// After one pass, every recursively processed child is fixed.
proof fn lemma_each_fixed(fs: Seq<FieldModel>)
    ensures
        forall|j: int| 0 <= j < apply_each(fs).len() ==> is_fixed(#[trigger] apply_each(fs)[j]),
    decreases fs, 0nat,
{
    lemma_apply_each_pointwise(fs);
    assert forall|j: int|
        0 <= j < apply_each(fs).len() implies is_fixed(#[trigger] apply_each(fs)[j]) by {
        assert(decreases_to!(fs => fs[j]));
        lemma_apply_overrides_idempotent(fs[j]);
        assert(apply_each(fs)[j] == apply_overrides_spec(fs[j]));
    }
}

/// Applying the override pass twice is the same as applying it once.
pub proof fn lemma_apply_overrides_idempotent(m: FieldModel)
    ensures
        apply_overrides_spec(apply_overrides_spec(m)) == apply_overrides_spec(m),
    decreases m, 1nat,
{
    match m {
        FieldModel::Struct(n, fs) => {
            assert(decreases_to!(m => m->Struct_1));
            lemma_each_fixed(fs);
            let rec = apply_each(fs);
            let keeps = keeps_of(rec);
            let ovs = ovs_of(rec);
            lemma_keeps_names(rec);
            lemma_keeps_fixed(rec);
            lemma_ovs_fixed(rec);
            lemma_apply_ovs_preserves(keeps, ovs);
            let r = apply_ovs(keeps, ovs);
            assert(r == apply_children(fs));
            lemma_apply_each_fixed(r);
            lemma_partition_trivial(r);
            assert(apply_children(r) == apply_ovs(r, Seq::<FieldModel>::empty()));
            assert(apply_ovs(r, Seq::<FieldModel>::empty()) == r);
            assert(apply_overrides_spec(apply_overrides_spec(m)) == FieldModel::Struct(n, r));
        },
        _ => {},
    }
}

/// Every override child carries an override-prefixed name.
proof fn lemma_ovs_names(s: Seq<FieldModel>)
    ensures
        forall|i: int|
            0 <= i < ovs_of(s).len() ==> is_override_name(#[trigger] ovs_of(s)[i].name()),
    decreases s.len(),
{
    if s.len() > 0 {
        let t = s.subrange(1, s.len() as int);
        lemma_ovs_names(t);
        assert forall|i: int|
            0 <= i < ovs_of(s).len() implies is_override_name(
            #[trigger] ovs_of(s)[i].name(),
        ) by {
            if is_override_name(s[0].name()) {
                if i > 0 {
                    assert(ovs_of(s)[i] == ovs_of(t)[i - 1]);
                }
            } else {
                assert(ovs_of(s)[i] == ovs_of(t)[i]);
            }
        }
    }
}

/// The recursively processed children line up one for one.
pub proof fn lemma_apply_each_pointwise(fs: Seq<FieldModel>)
    ensures
        apply_each(fs).len() == fs.len(),
        forall|j: int|
            0 <= j < fs.len() ==> apply_each(fs)[j] == apply_overrides_spec(#[trigger] fs[j]),
    decreases fs.len(),
{
    if fs.len() > 0 {
        lemma_apply_each_pointwise(fs.subrange(1, fs.len() as int));
        assert forall|j: int|
            0 <= j < fs.len() implies apply_each(fs)[j] == apply_overrides_spec(
            #[trigger] fs[j],
        ) by {
            if j > 0 {
                assert(fs.subrange(1, fs.len() as int)[j - 1] == fs[j]);
            }
        }
    }
}

/// Extending the scanned prefix by one child extends its partition.
proof fn lemma_keeps_ovs_snoc(s: Seq<FieldModel>, i: int)
    requires
        0 <= i < s.len(),
    ensures
        keeps_of(s.take(i + 1)) == if !is_override_name(s[i].name()) {
            keeps_of(s.take(i)).push(s[i])
        } else {
            keeps_of(s.take(i))
        },
        ovs_of(s.take(i + 1)) == if is_override_name(s[i].name()) {
            ovs_of(s.take(i)).push(s[i])
        } else {
            ovs_of(s.take(i))
        },
    decreases i,
{
    if i == 0 {
        assert(s.take(1) =~= seq![s[0]]);
        assert(s.take(1).subrange(1, 1) =~= Seq::<FieldModel>::empty());
        assert(s.take(0) =~= Seq::<FieldModel>::empty());
        if !is_override_name(s[0].name()) {
            assert(keeps_of(s.take(1)) =~= keeps_of(s.take(0)).push(s[0]));
            assert(ovs_of(s.take(1)) =~= ovs_of(s.take(0)));
        } else {
            assert(ovs_of(s.take(1)) =~= ovs_of(s.take(0)).push(s[0]));
            assert(keeps_of(s.take(1)) =~= keeps_of(s.take(0)));
        }
    } else {
        let t = s.subrange(1, s.len() as int);
        lemma_keeps_ovs_snoc(t, i - 1);
        assert(s.take(i + 1).subrange(1, i + 1) =~= t.take(i));
        assert(s.take(i).subrange(1, i) =~= t.take(i - 1));
        assert(s.take(i + 1)[0] == s[0]);
        assert(s.take(i)[0] == s[0]);
        assert(t[i - 1] == s[i]);
        if !is_override_name(s[i].name()) {
            if !is_override_name(s[0].name()) {
                assert(keeps_of(s.take(i + 1)) =~= keeps_of(s.take(i)).push(s[i]));
                assert(ovs_of(s.take(i + 1)) =~= ovs_of(s.take(i)));
            } else {
                assert(keeps_of(s.take(i + 1)) =~= keeps_of(s.take(i)).push(s[i]));
                assert(ovs_of(s.take(i + 1)) =~= ovs_of(s.take(i)));
            }
        } else {
            if !is_override_name(s[0].name()) {
                assert(ovs_of(s.take(i + 1)) =~= ovs_of(s.take(i)).push(s[i]));
                assert(keeps_of(s.take(i + 1)) =~= keeps_of(s.take(i)));
            } else {
                assert(ovs_of(s.take(i + 1)) =~= ovs_of(s.take(i)).push(s[i]));
                assert(keeps_of(s.take(i + 1)) =~= keeps_of(s.take(i)));
            }
        }
    }
}

} // verus!
