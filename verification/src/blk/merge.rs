//! The duplicate-key merge pass: within each struct, runs of siblings that
//! share a name are collapsed into one `Merged` node placed at the first
//! occurrence, keeping the original order. The JSON emitter runs this pass
//! before rendering so duplicate keys become arrays.

use vstd::prelude::*;

use crate::blk::structure::{field_model, BlkField, FieldModel};

verus! {

/// Children recursively merged, in order.
pub open spec fn merge_each(fs: Seq<FieldModel>) -> Seq<FieldModel>
    decreases fs, 1nat,
{
    if fs.len() == 0 {
        Seq::<FieldModel>::empty()
    } else {
        seq![merge_spec(fs[0])] + merge_each(fs.subrange(1, fs.len() as int))
    }
}

/// Whether index `i` is the first occurrence of its name.
pub open spec fn is_first(s: Seq<FieldModel>, i: int) -> bool {
    forall|j: int| 0 <= j < i ==> (#[trigger] s[j]).name() != s[i].name()
}

/// How many children carry the given name.
pub open spec fn count_name(s: Seq<FieldModel>, x: Seq<char>) -> int
    decreases s.len(),
{
    if s.len() == 0 {
        0
    } else {
        (if s[0].name() == x {
            1int
        } else {
            0int
        }) + count_name(s.subrange(1, s.len() as int), x)
    }
}

/// The children carrying the given name, in order.
pub open spec fn with_name_seq(s: Seq<FieldModel>, x: Seq<char>) -> Seq<FieldModel>
    decreases s.len(),
{
    if s.len() == 0 {
        Seq::<FieldModel>::empty()
    } else {
        let rest = with_name_seq(s.subrange(1, s.len() as int), x);
        if s[0].name() == x {
            seq![s[0]] + rest
        } else {
            rest
        }
    }
}

/// The grouped children from index `i` on: each first occurrence stands
/// for its name, alone when unique, as a `Merged` of all same-named
/// siblings otherwise.
pub open spec fn group_from(s: Seq<FieldModel>, i: int) -> Seq<FieldModel>
    decreases s.len() - i,
{
    if i < 0 || i >= s.len() {
        Seq::<FieldModel>::empty()
    } else if !is_first(s, i) {
        group_from(s, i + 1)
    } else {
        let x = s[i].name();
        let g = if count_name(s, x) == 1 {
            s[i]
        } else {
            FieldModel::Merged(x, with_name_seq(s, x))
        };
        seq![g] + group_from(s, i + 1)
    }
}

/// The merge pass over a struct's children.
pub open spec fn merge_children(fs: Seq<FieldModel>) -> Seq<FieldModel>
    decreases fs, 2nat,
{
    group_from(merge_each(fs), 0)
}

/// The merge pass over a whole tree: only structs change.
pub open spec fn merge_spec(m: FieldModel) -> FieldModel
    decreases m, 0nat,
    via merge_spec_decreases
{
    match m {
        FieldModel::Struct(n, fs) => FieldModel::Struct(n, merge_children(fs)),
        _ => m,
    }
}

#[via_fn]
proof fn merge_spec_decreases(m: FieldModel) {
    match m {
        FieldModel::Struct(n, fs) => {
            assert(decreases_to!(m => m->Struct_1));
        },
        _ => {},
    }
}

/// The recursively merged children line up one for one.
pub proof fn lemma_merge_each_pointwise(fs: Seq<FieldModel>)
    ensures
        merge_each(fs).len() == fs.len(),
        forall|j: int| 0 <= j < fs.len() ==> merge_each(fs)[j] == merge_spec(#[trigger] fs[j]),
    decreases fs.len(),
{
    if fs.len() > 0 {
        lemma_merge_each_pointwise(fs.subrange(1, fs.len() as int));
        assert forall|j: int|
            0 <= j < fs.len() implies merge_each(fs)[j] == merge_spec(#[trigger] fs[j]) by {
            if j > 0 {
                assert(fs.subrange(1, fs.len() as int)[j - 1] == fs[j]);
            }
        }
    }
}

/// Scanning one more child extends the partial count and collection.
proof fn lemma_count_collect_snoc(s: Seq<FieldModel>, x: Seq<char>, i: int)
    requires
        0 <= i < s.len(),
    ensures
        count_name(s.take(i + 1), x) == count_name(s.take(i), x) + if s[i].name() == x {
            1int
        } else {
            0int
        },
        with_name_seq(s.take(i + 1), x) == if s[i].name() == x {
            with_name_seq(s.take(i), x).push(s[i])
        } else {
            with_name_seq(s.take(i), x)
        },
    decreases i,
{
    if i == 0 {
        assert(s.take(1) =~= seq![s[0]]);
        assert(s.take(1).subrange(1, 1) =~= Seq::<FieldModel>::empty());
        assert(s.take(0) =~= Seq::<FieldModel>::empty());
        if s[0].name() == x {
            assert(with_name_seq(s.take(1), x) =~= with_name_seq(s.take(0), x).push(s[0]));
        } else {
            assert(with_name_seq(s.take(1), x) =~= with_name_seq(s.take(0), x));
        }
    } else {
        let t = s.subrange(1, s.len() as int);
        lemma_count_collect_snoc(t, x, i - 1);
        assert(s.take(i + 1).subrange(1, i + 1) =~= t.take(i));
        assert(s.take(i).subrange(1, i) =~= t.take(i - 1));
        assert(s.take(i + 1)[0] == s[0]);
        assert(s.take(i)[0] == s[0]);
        assert(t[i - 1] == s[i]);
        if s[i].name() == x {
            if s[0].name() == x {
                assert(with_name_seq(s.take(i + 1), x) =~= with_name_seq(s.take(i), x).push(s[i]));
            } else {
                assert(with_name_seq(s.take(i + 1), x) =~= with_name_seq(s.take(i), x).push(s[i]));
            }
        } else {
            if s[0].name() == x {
                assert(with_name_seq(s.take(i + 1), x) =~= with_name_seq(s.take(i), x));
            } else {
                assert(with_name_seq(s.take(i + 1), x) =~= with_name_seq(s.take(i), x));
            }
        }
    }
}

/// No two children share a name.
pub open spec fn distinct_names(fs: Seq<FieldModel>) -> bool {
    forall|i: int, j: int|
        0 <= i < j < fs.len() ==> (#[trigger] fs[i]).name() != (#[trigger] fs[j]).name()
}

/// Every child's subtree has unique struct names.
pub open spec fn all_unique(fs: Seq<FieldModel>) -> bool
    decreases fs, 0nat,
{
    if fs.len() == 0 {
        true
    } else {
        struct_names_unique(fs[0]) && all_unique(fs.subrange(1, fs.len() as int))
    }
}

/// No struct anywhere in the tree has two children sharing a name.
pub open spec fn struct_names_unique(m: FieldModel) -> bool
    decreases m, 1nat,
    via struct_names_unique_decreases
{
    match m {
        FieldModel::Value(_, _) => true,
        FieldModel::Struct(_, fs) => distinct_names(fs) && all_unique(fs),
        FieldModel::Merged(_, fs) => all_unique(fs),
    }
}

#[via_fn]
proof fn struct_names_unique_decreases(m: FieldModel) {
    match m {
        FieldModel::Struct(_, fs) => {
            assert(decreases_to!(m => m->Struct_1));
        },
        FieldModel::Merged(_, fs) => {
            assert(decreases_to!(m => m->Merged_1));
        },
        _ => {},
    }
}

/// Every child's subtree is free of `Merged` nodes.
pub open spec fn all_merged_free(fs: Seq<FieldModel>) -> bool
    decreases fs, 0nat,
{
    if fs.len() == 0 {
        true
    } else {
        merged_free(fs[0]) && all_merged_free(fs.subrange(1, fs.len() as int))
    }
}

/// The tree holds no `Merged` node; parser output always satisfies this.
pub open spec fn merged_free(m: FieldModel) -> bool
    decreases m, 1nat,
    via merged_free_decreases
{
    match m {
        FieldModel::Value(_, _) => true,
        FieldModel::Struct(_, fs) => all_merged_free(fs),
        FieldModel::Merged(_, _) => false,
    }
}

#[via_fn]
proof fn merged_free_decreases(m: FieldModel) {
    match m {
        FieldModel::Struct(_, fs) => {
            assert(decreases_to!(m => m->Struct_1));
        },
        _ => {},
    }
}

/// `all_unique` is the pointwise statement over the children.
proof fn lemma_all_unique_iff(fs: Seq<FieldModel>)
    ensures
        all_unique(fs) <==> (forall|j: int|
            0 <= j < fs.len() ==> struct_names_unique(#[trigger] fs[j])),
    decreases fs.len(),
{
    if fs.len() > 0 {
        let t = fs.subrange(1, fs.len() as int);
        lemma_all_unique_iff(t);
        if all_unique(fs) {
            assert forall|j: int|
                0 <= j < fs.len() implies struct_names_unique(#[trigger] fs[j]) by {
                if j > 0 {
                    assert(fs[j] == t[j - 1]);
                }
            }
        }
        if forall|j: int| 0 <= j < fs.len() ==> struct_names_unique(#[trigger] fs[j]) {
            assert forall|j: int|
                0 <= j < t.len() implies struct_names_unique(#[trigger] t[j]) by {
                assert(t[j] == fs[j + 1]);
            }
            assert(all_unique(t));
            assert(struct_names_unique(fs[0]));
        }
    }
}

/// `all_merged_free` is the pointwise statement over the children.
pub proof fn lemma_all_merged_free_iff(fs: Seq<FieldModel>)
    ensures
        all_merged_free(fs) <==> (forall|j: int|
            0 <= j < fs.len() ==> merged_free(#[trigger] fs[j])),
    decreases fs.len(),
{
    if fs.len() > 0 {
        let t = fs.subrange(1, fs.len() as int);
        lemma_all_merged_free_iff(t);
        if all_merged_free(fs) {
            assert forall|j: int| 0 <= j < fs.len() implies merged_free(#[trigger] fs[j]) by {
                if j > 0 {
                    assert(fs[j] == t[j - 1]);
                }
            }
        }
        if forall|j: int| 0 <= j < fs.len() ==> merged_free(#[trigger] fs[j]) {
            assert forall|j: int| 0 <= j < t.len() implies merged_free(#[trigger] t[j]) by {
                assert(t[j] == fs[j + 1]);
            }
            assert(all_merged_free(t));
            assert(merged_free(fs[0]));
        }
    }
}

/// A name that already occurred before `k` never names a grouped child
/// from `k` on.
proof fn lemma_group_no_name(s: Seq<FieldModel>, k: int, x: Seq<char>)
    requires
        exists|j: int| 0 <= j < k && (#[trigger] s[j]).name() == x,
    ensures
        forall|t: int|
            0 <= t < group_from(s, k).len() ==> (#[trigger] group_from(s, k)[t]).name() != x,
    decreases s.len() - k,
{
    if 0 <= k < s.len() {
        lemma_group_no_name(s, k + 1, x);
        if is_first(s, k) {
            assert(s[k].name() != x) by {
                let j = choose|j: int| 0 <= j < k && (#[trigger] s[j]).name() == x;
                assert(s[j].name() == x);
            }
            let nm = s[k].name();
            let g0 = if count_name(s, nm) == 1 {
                s[k]
            } else {
                FieldModel::Merged(nm, with_name_seq(s, nm))
            };
            assert(group_from(s, k) == seq![g0] + group_from(s, k + 1));
            assert(g0.name() == nm);
            assert forall|t: int|
                0 <= t < group_from(s, k).len() implies (#[trigger] group_from(s, k)[t]).name()
                != x by {
                if t == 0 {
                    assert(group_from(s, k)[0] == g0);
                } else {
                    assert(group_from(s, k)[t] == group_from(s, k + 1)[t - 1]);
                }
            }
        } else {
            assert(group_from(s, k) == group_from(s, k + 1));
        }
    }
}

/// The grouped children carry pairwise distinct names.
proof fn lemma_group_distinct(s: Seq<FieldModel>, k: int)
    ensures
        distinct_names(group_from(s, k)),
    decreases s.len() - k,
{
    if 0 <= k < s.len() {
        lemma_group_distinct(s, k + 1);
        if is_first(s, k) {
            let x = s[k].name();
            assert(exists|j: int| 0 <= j < k + 1 && (#[trigger] s[j]).name() == x) by {
                assert(s[k].name() == x);
            }
            lemma_group_no_name(s, k + 1, x);
            let g = group_from(s, k);
            assert forall|i: int, j: int|
                0 <= i < j < g.len() implies (#[trigger] g[i]).name() != (
            #[trigger] g[j]).name() by {
                if i == 0 {
                    assert(g[0].name() == x);
                    assert(g[j] == group_from(s, k + 1)[j - 1]);
                } else {
                    assert(g[i] == group_from(s, k + 1)[i - 1]);
                    assert(g[j] == group_from(s, k + 1)[j - 1]);
                }
            }
        }
    }
}

/// Unique subtrees carry over into the same-named collection.
proof fn lemma_with_name_unique(s: Seq<FieldModel>, x: Seq<char>)
    requires
        forall|j: int| 0 <= j < s.len() ==> struct_names_unique(#[trigger] s[j]),
    ensures
        forall|t: int|
            0 <= t < with_name_seq(s, x).len() ==> struct_names_unique(
                #[trigger] with_name_seq(s, x)[t],
            ),
    decreases s.len(),
{
    if s.len() > 0 {
        let tl = s.subrange(1, s.len() as int);
        assert forall|j: int| 0 <= j < tl.len() implies struct_names_unique(
            #[trigger] tl[j],
        ) by {
            assert(tl[j] == s[j + 1]);
        }
        lemma_with_name_unique(tl, x);
        assert forall|t: int|
            0 <= t < with_name_seq(s, x).len() implies struct_names_unique(
            #[trigger] with_name_seq(s, x)[t],
        ) by {
            if s[0].name() == x {
                if t > 0 {
                    assert(with_name_seq(s, x)[t] == with_name_seq(tl, x)[t - 1]);
                }
            } else {
                assert(with_name_seq(s, x)[t] == with_name_seq(tl, x)[t]);
            }
        }
    }
}

/// Unique subtrees carry over into the grouped children.
proof fn lemma_group_unique(s: Seq<FieldModel>, k: int)
    requires
        forall|j: int| 0 <= j < s.len() ==> struct_names_unique(#[trigger] s[j]),
    ensures
        forall|t: int|
            0 <= t < group_from(s, k).len() ==> struct_names_unique(
                #[trigger] group_from(s, k)[t],
            ),
    decreases s.len() - k,
{
    if 0 <= k < s.len() {
        lemma_group_unique(s, k + 1);
        if is_first(s, k) {
            let x = s[k].name();
            let g0 = if count_name(s, x) == 1 {
                s[k]
            } else {
                FieldModel::Merged(x, with_name_seq(s, x))
            };
            assert(group_from(s, k) == seq![g0] + group_from(s, k + 1));
            assert(struct_names_unique(g0)) by {
                if count_name(s, x) != 1 {
                    lemma_with_name_unique(s, x);
                    lemma_all_unique_iff(with_name_seq(s, x));
                }
            }
            assert forall|t: int|
                0 <= t < group_from(s, k).len() implies struct_names_unique(
                #[trigger] group_from(s, k)[t],
            ) by {
                if t == 0 {
                    assert(group_from(s, k)[0] == g0);
                } else {
                    assert(group_from(s, k)[t] == group_from(s, k + 1)[t - 1]);
                }
            }
        } else {
            assert(group_from(s, k) == group_from(s, k + 1));
        }
    }
}

/// After the merge pass, each recursively merged child has unique struct
/// names, provided the input was free of `Merged` nodes.
proof fn lemma_merge_each_unique(fs: Seq<FieldModel>)
    requires
        forall|j: int| 0 <= j < fs.len() ==> merged_free(#[trigger] fs[j]),
    ensures
        forall|j: int|
            0 <= j < merge_each(fs).len() ==> struct_names_unique(#[trigger] merge_each(fs)[j]),
    decreases fs, 0nat,
{
    lemma_merge_each_pointwise(fs);
    assert forall|j: int|
        0 <= j < merge_each(fs).len() implies struct_names_unique(
        #[trigger] merge_each(fs)[j],
    ) by {
        assert(decreases_to!(fs => fs[j]));
        lemma_merge_fields_unique(fs[j]);
        assert(merge_each(fs)[j] == merge_spec(fs[j]));
    }
}

/// After the merge pass over a tree with no `Merged` nodes, no struct
/// anywhere has two children sharing a name.
pub proof fn lemma_merge_fields_unique(m: FieldModel)
    requires
        merged_free(m),
    ensures
        struct_names_unique(merge_spec(m)),
    decreases m, 1nat,
{
    match m {
        FieldModel::Struct(n, fs) => {
            assert(decreases_to!(m => m->Struct_1));
            lemma_all_merged_free_iff(fs);
            lemma_merge_each_unique(fs);
            let rec = merge_each(fs);
            lemma_group_distinct(rec, 0);
            lemma_group_unique(rec, 0);
            lemma_all_unique_iff(group_from(rec, 0));
        },
        _ => {},
    }
}

impl BlkField {
    /// The tree with the merge pass applied, leaving `f` untouched.
    fn merged(f: &BlkField) -> (r: BlkField)
        ensures
            r@ == merge_spec(f@),
        decreases *f,
    {
        match f {
            BlkField::Struct(n, fs) => {
                // recurse into every child first
                let mut rec: Vec<BlkField> = Vec::new();
                let mut i: usize = 0;
                while i < fs.len()
                    invariant
                        0 <= i <= fs@.len(),
                        (*f) is Struct,
                        f->Struct_1@ == fs@,
                        rec@.len() == i,
                        forall|j: int|
                            0 <= j < i ==> (#[trigger] rec@[j])@ == merge_spec(
                                field_model(fs@[j]),
                            ),
                    decreases fs@.len() - i,
                {
                    proof {
                        assert(decreases_to!(*f => f->Struct_1));
                        assert(decreases_to!(f->Struct_1 => f->Struct_1@));
                        assert(decreases_to!(f->Struct_1@ => f->Struct_1@[i as int]));
                    }
                    let c = Self::merged(&fs[i]);
                    rec.push(c);
                    i = i + 1;
                }
                let ghost fsm = crate::blk::structure::fields_model(fs@);
                let ghost recm = merge_each(fsm);
                proof {
                    crate::blk::structure::lemma_fields_model(fs@);
                    lemma_merge_each_pointwise(fsm);
                    assert forall|j: int| 0 <= j < rec@.len() implies rec@[j]@ == recm[j] by {
                        assert(rec@[j]@ == merge_spec(field_model(fs@[j])));
                        assert(fsm[j] == field_model(fs@[j]));
                        assert(recm[j] == merge_spec(fsm[j]));
                    }
                    assert(Seq::new(rec@.len(), |j: int| rec@[j]@) =~= recm);
                    assert(group_from(recm, 0) =~= Seq::<FieldModel>::empty() + group_from(
                        recm,
                        0,
                    ));
                }
                // group duplicate names at this level
                let mut out: Vec<BlkField> = Vec::new();
                let mut i: usize = 0;
                while i < rec.len()
                    invariant
                        0 <= i <= rec@.len(),
                        recm == merge_each(fsm),
                        Seq::new(rec@.len(), |j: int| rec@[j]@) =~= recm,
                        group_from(recm, 0) =~= Seq::new(out@.len(), |j: int| out@[j]@)
                            + group_from(recm, i as int),
                    decreases rec@.len() - i,
                {
                    let name = rec[i].get_name();
                    // is this the first occurrence of the name?
                    let mut j: usize = 0;
                    let mut seen: bool = false;
                    while j < i && !seen
                        invariant
                            0 <= j <= i <= rec@.len(),
                            Seq::new(rec@.len(), |t: int| rec@[t]@) =~= recm,
                            name@ == recm[i as int].name(),
                            !seen ==> forall|t: int|
                                0 <= t < j ==> (#[trigger] recm[t]).name() != recm[
                                    i as int
                                ].name(),
                            seen ==> exists|t: int|
                                0 <= t < i && (#[trigger] recm[t]).name() == recm[
                                    i as int
                                ].name(),
                        decreases i - j + if seen {
                            0int
                        } else {
                            1int
                        },
                    {
                        let other = rec[j].get_name();
                        if other.eq(&name) {
                            proof {
                                assert(recm[j as int].name() == recm[i as int].name());
                            }
                            seen = true;
                        } else {
                            j = j + 1;
                        }
                    }
                    if seen {
                        proof {
                            assert(!is_first(recm, i as int));
                        }
                    } else {
                        proof {
                            assert(is_first(recm, i as int));
                        }
                        // count and collect every sibling with this name
                        let mut cnt: usize = 0;
                        let mut grp: Vec<BlkField> = Vec::new();
                        let mut t: usize = 0;
                        proof {
                            assert(recm.take(0) =~= Seq::<FieldModel>::empty());
                        }
                        while t < rec.len()
                            invariant
                                0 <= t <= rec@.len(),
                                Seq::new(rec@.len(), |u: int| rec@[u]@) =~= recm,
                                name@ == recm[i as int].name(),
                                cnt <= t,
                                cnt as int == count_name(recm.take(t as int), name@),
                                Seq::new(grp@.len(), |u: int| grp@[u]@) =~= with_name_seq(
                                    recm.take(t as int),
                                    name@,
                                ),
                            decreases rec@.len() - t,
                        {
                            let other = rec[t].get_name();
                            proof {
                                lemma_count_collect_snoc(recm, name@, t as int);
                            }
                            if other.eq(&name) {
                                let c = rec[t].clone();
                                grp.push(c);
                                cnt = cnt + 1;
                                proof {
                                    assert(Seq::new(grp@.len(), |u: int| grp@[u]@)
                                        =~= with_name_seq(recm.take(t as int + 1), name@));
                                }
                            } else {
                                proof {
                                    assert(Seq::new(grp@.len(), |u: int| grp@[u]@)
                                        =~= with_name_seq(recm.take(t as int + 1), name@));
                                }
                            }
                            t = t + 1;
                        }
                        proof {
                            assert(recm.take(rec@.len() as int) =~= recm);
                        }
                        let ghost prev = out@;
                        if cnt == 1 {
                            let c = rec[i].clone();
                            out.push(c);
                        } else {
                            let mg = BlkField::Merged(name, grp);
                            proof {
                                crate::blk::structure::lemma_fields_model(mg->Merged_1@);
                                assert(crate::blk::structure::fields_model(mg->Merged_1@)
                                    =~= with_name_seq(recm, name@));
                            }
                            out.push(mg);
                        }
                        proof {
                            let g = group_from(recm, i as int);
                            assert(g == seq![g[0]] + group_from(recm, i as int + 1));
                            assert(out@[prev.len() as int]@ == g[0]);
                            assert((Seq::new(prev.len(), |u: int| prev[u]@) + (seq![g[0]]
                                + group_from(recm, i as int + 1))) =~= Seq::new(
                                out@.len(),
                                |u: int| out@[u]@,
                            ) + group_from(recm, i as int + 1));
                        }
                    }
                    i = i + 1;
                }
                proof {
                    assert(group_from(recm, rec@.len() as int) =~= Seq::<FieldModel>::empty());
                    assert(group_from(recm, 0) =~= Seq::new(out@.len(), |j: int| out@[j]@));
                }
                let res = BlkField::Struct(n.clone(), out);
                proof {
                    crate::blk::structure::lemma_fields_model(res->Struct_1@);
                    assert(crate::blk::structure::fields_model(res->Struct_1@) =~= merge_children(
                        fsm,
                    ));
                }
                res
            },
            _ => f.clone(),
        }
    }

    /// Merges duplicate sibling names into `Merged` nodes, in place.
    pub fn merge_fields(&mut self)
        ensures
            final(self)@ == merge_spec(old(self)@),
    {
        let v = Self::merged(&*self);
        *self = v;
    }
}

} // verus!
