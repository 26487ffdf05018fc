//! The BLK tree: named values and nested structs, plus the `Merged` node
//! the JSON emitter synthesises for duplicate sibling names.

use vstd::prelude::*;
use vstd::string::StringSliceAdditionalSpecFns;
use vstd::utf8::encode_utf8;

use crate::blk::types::{BlkType, TypeModel};

verus! {

/// A node of a decoded BLK tree.
///
/// `Value` is a leaf; `Struct` holds ordered children; `Merged` groups
/// duplicate-named siblings and exists only as a JSON-emission view, never
/// as parser output.
#[derive(Debug, PartialEq)]
pub enum BlkField {
    Value(String, BlkType),
    Struct(String, Vec<BlkField>),
    Merged(String, Vec<BlkField>),
}

/// The mathematical shape of a `BlkField` tree.
#[verifier::ext_equal]
pub enum FieldModel {
    Value(Seq<char>, TypeModel),
    Struct(Seq<char>, Seq<FieldModel>),
    Merged(Seq<char>, Seq<FieldModel>),
}

/// The models of a sequence of children, in order.
pub open spec fn fields_model(fs: Seq<BlkField>) -> Seq<FieldModel>
    decreases fs,
{
    if fs.len() == 0 {
        Seq::<FieldModel>::empty()
    } else {
        seq![field_model(fs[0])] + fields_model(fs.subrange(1, fs.len() as int))
    }
}

/// The model of a `BlkField`, children modelled recursively.
pub open spec fn field_model(f: BlkField) -> FieldModel
    decreases f,
    via field_model_decreases
{
    match f {
        BlkField::Value(n, v) => FieldModel::Value(n@, v@),
        BlkField::Struct(n, fs) => FieldModel::Struct(n@, fields_model(fs@)),
        BlkField::Merged(n, fs) => FieldModel::Merged(n@, fields_model(fs@)),
    }
}

#[via_fn]
proof fn field_model_decreases(f: BlkField) {
    match f {
        BlkField::Value(n, v) => {
        },
        BlkField::Struct(n, fs) => {
            assert(decreases_to!(f => f->Struct_1));
            assert(decreases_to!(f->Struct_1 => f->Struct_1@));
            assert(decreases_to!(f => f->Struct_1@));
        },
        BlkField::Merged(n, fs) => {
            assert(decreases_to!(f => f->Merged_1));
            assert(decreases_to!(f->Merged_1 => f->Merged_1@));
            assert(decreases_to!(f => f->Merged_1@));
        },
    }
}

/// The children's models line up with the children, one for one.
pub proof fn lemma_fields_model(fs: Seq<BlkField>)
    ensures
        fields_model(fs).len() == fs.len(),
        forall|i: int| 0 <= i < fs.len() ==> fields_model(fs)[i] == field_model(fs[i]),
    decreases fs.len(),
{
    if fs.len() > 0 {
        lemma_fields_model(fs.subrange(1, fs.len() as int));
        assert forall|i: int| 0 <= i < fs.len() implies fields_model(fs)[i] == field_model(
            fs[i],
        ) by {
            if i > 0 {
                assert(fields_model(fs)[i] == fields_model(fs.subrange(1, fs.len() as int))[i - 1]);
                assert(fs.subrange(1, fs.len() as int)[i - 1] == fs[i]);
            }
        }
    }
}

impl View for BlkField {
    type V = FieldModel;

    open spec fn view(&self) -> FieldModel {
        field_model(*self)
    }
}

impl FieldModel {
    /// The node's name.
    pub open spec fn name(self) -> Seq<char> {
        match self {
            FieldModel::Value(n, _) => n,
            FieldModel::Struct(n, _) => n,
            FieldModel::Merged(n, _) => n,
        }
    }

    /// The node's name in UTF-8 bytes.
    pub open spec fn name_bytes(self) -> Seq<u8> {
        encode_utf8(self.name())
    }

    /// The same node under another name.
    pub open spec fn with_name(self, n: Seq<char>) -> FieldModel {
        match self {
            FieldModel::Value(_, v) => FieldModel::Value(n, v),
            FieldModel::Struct(_, fs) => FieldModel::Struct(n, fs),
            FieldModel::Merged(_, fs) => FieldModel::Merged(n, fs),
        }
    }
}

impl Clone for BlkType {
    /// An exact copy.
    fn clone(&self) -> (r: BlkType)
        ensures
            r@ == self@,
    {
        match self {
            BlkType::Str(s) => BlkType::Str(s.clone()),
            BlkType::Int(v) => BlkType::Int(*v),
            BlkType::Float(v) => BlkType::Float(*v),
            BlkType::Float2(v) => BlkType::Float2(clone_u32_vec(v)),
            BlkType::Float3(v) => BlkType::Float3(clone_u32_vec(v)),
            BlkType::Float4(v) => BlkType::Float4(clone_u32_vec(v)),
            BlkType::Int2(v) => BlkType::Int2(clone_i32_vec(v)),
            BlkType::Int3(v) => BlkType::Int3(clone_i32_vec(v)),
            BlkType::Bool(v) => BlkType::Bool(*v),
            BlkType::Color { r, g, b, a } => BlkType::Color { r: *r, g: *g, b: *b, a: *a },
            BlkType::Float12(v) => BlkType::Float12(clone_u32_vec(v)),
            BlkType::Long(v) => BlkType::Long(*v),
        }
    }
}

fn clone_u32_vec(v: &Vec<u32>) -> (r: Vec<u32>)
    ensures
        r@ == v@,
{
    let mut out: Vec<u32> = Vec::new();
    let mut i: usize = 0;
    while i < v.len()
        invariant
            0 <= i <= v@.len(),
            out@ == v@.take(i as int),
        decreases v@.len() - i,
    {
        out.push(v[i]);
        proof {
            assert(v@.take(i as int + 1) =~= v@.take(i as int).push(v@[i as int]));
        }
        i = i + 1;
    }
    proof {
        assert(v@.take(v@.len() as int) =~= v@);
    }
    out
}

fn clone_i32_vec(v: &Vec<i32>) -> (r: Vec<i32>)
    ensures
        r@ == v@,
{
    let mut out: Vec<i32> = Vec::new();
    let mut i: usize = 0;
    while i < v.len()
        invariant
            0 <= i <= v@.len(),
            out@ == v@.take(i as int),
        decreases v@.len() - i,
    {
        out.push(v[i]);
        proof {
            assert(v@.take(i as int + 1) =~= v@.take(i as int).push(v@[i as int]));
        }
        i = i + 1;
    }
    proof {
        assert(v@.take(v@.len() as int) =~= v@);
    }
    out
}

impl Clone for BlkField {
    /// An exact copy of the whole tree.
    fn clone(&self) -> (r: BlkField)
        ensures
            r@ == self@,
        decreases *self,
    {
        match self {
            BlkField::Value(n, v) => BlkField::Value(n.clone(), v.clone()),
            BlkField::Struct(n, fs) => {
                let mut out: Vec<BlkField> = Vec::new();
                let mut i: usize = 0;
                while i < fs.len()
                    invariant
                        0 <= i <= fs@.len(),
                        out@.len() == i,
                        (*self) is Struct,
                        self->Struct_1@ == fs@,
                        forall|j: int| 0 <= j < i ==> out@[j]@ == field_model(fs@[j]),
                    decreases fs@.len() - i,
                {
                    proof {
                        assert(decreases_to!(*self => self->Struct_1));
                        assert(decreases_to!(self->Struct_1 => self->Struct_1@));
                        assert(decreases_to!(self->Struct_1@ => self->Struct_1@[i as int]));
                    }
                    let c = fs[i].clone();
                    out.push(c);
                    i = i + 1;
                }
                proof {
                    lemma_fields_model(out@);
                    lemma_fields_model(fs@);
                    assert(fields_model(out@) =~= fields_model(fs@));
                }
                BlkField::Struct(n.clone(), out)
            },
            BlkField::Merged(n, fs) => {
                let mut out: Vec<BlkField> = Vec::new();
                let mut i: usize = 0;
                while i < fs.len()
                    invariant
                        0 <= i <= fs@.len(),
                        out@.len() == i,
                        (*self) is Merged,
                        self->Merged_1@ == fs@,
                        forall|j: int| 0 <= j < i ==> out@[j]@ == field_model(fs@[j]),
                    decreases fs@.len() - i,
                {
                    proof {
                        assert(decreases_to!(*self => self->Merged_1));
                        assert(decreases_to!(self->Merged_1 => self->Merged_1@));
                        assert(decreases_to!(self->Merged_1@ => self->Merged_1@[i as int]));
                    }
                    let c = fs[i].clone();
                    out.push(c);
                    i = i + 1;
                }
                proof {
                    lemma_fields_model(out@);
                    lemma_fields_model(fs@);
                    assert(fields_model(out@) =~= fields_model(fs@));
                }
                BlkField::Merged(n.clone(), out)
            },
        }
    }
}

impl BlkField {
    /// A fresh empty root struct, named `root`.
    pub fn new_root() -> (r: BlkField)
        ensures
            r@ == FieldModel::Struct("root"@, Seq::<FieldModel>::empty()),
    {
        let fields: Vec<BlkField> = Vec::new();
        let r = BlkField::Struct(String::from_str("root"), fields);
        proof {
            assert(fields_model(fields@) =~= Seq::<FieldModel>::empty());
        }
        r
    }

    /// A fresh empty struct with the given name.
    pub fn new_struct(name: String) -> (r: BlkField)
        ensures
            r@ == FieldModel::Struct(name@, Seq::<FieldModel>::empty()),
    {
        let fields: Vec<BlkField> = Vec::new();
        let r = BlkField::Struct(name, fields);
        proof {
            assert(fields_model(fields@) =~= Seq::<FieldModel>::empty());
        }
        r
    }

    /// Appends a child to a `Struct`; fails on `Value` and `Merged` nodes,
    /// which take no direct insertions.
    #[must_use]
    pub fn insert_field(&mut self, field: BlkField) -> (r: Option<()>)
        ensures
            match old(self)@ {
                FieldModel::Struct(n, fs) => r is Some && final(self)@ == FieldModel::Struct(
                    n,
                    fs.push(field@),
                ),
                _ => r is None && final(self)@ == old(self)@,
            },
    {
        match self {
            BlkField::Struct(_, fields) => {
                let ghost before = fields@;
                fields.push(field);
                proof {
                    lemma_fields_model(fields@);
                    lemma_fields_model(before);
                    assert(fields_model(fields@) =~= fields_model(before).push(field@));
                }
                Some(())
            },
            _ => None,
        }
    }

    /// The node's name.
    pub fn get_name(&self) -> (r: String)
        ensures
            r@ == self@.name(),
    {
        match self {
            BlkField::Value(n, _) => n.clone(),
            BlkField::Struct(n, _) => n.clone(),
            BlkField::Merged(n, _) => n.clone(),
        }
    }

    /// Renames the node in place.
    pub fn set_name(&mut self, new: String)
        ensures
            final(self)@ == old(self)@.with_name(new@),
    {
        match self {
            BlkField::Value(n, _) => {
                *n = new;
            },
            BlkField::Struct(n, _) => {
                *n = new;
            },
            BlkField::Merged(n, _) => {
                *n = new;
            },
        }
    }

    /// The held value for a `Value` node, nothing otherwise.
    pub fn value(&self) -> (r: Option<&BlkType>)
        ensures
            match self@ {
                FieldModel::Value(_, v) => r is Some && r.unwrap()@ == v,
                _ => r is None,
            },
    {
        match self {
            BlkField::Value(_, v) => Some(v),
            _ => None,
        }
    }
}


/// Why a pointer lookup failed: the full pointer, and the segment with no
/// matching child.
#[derive(Debug, Clone, PartialEq, Eq)]
pub enum BlkFieldError {
    NoSuchField(String, String),
}

/// Index of the first slash at or after `from`, when one exists.
pub open spec fn find_slash(b: Seq<u8>, from: int) -> Option<int>
    decreases b.len() - from,
{
    if from < 0 || from >= b.len() {
        None
    } else if b[from] == 0x2f {
        Some(from)
    } else {
        find_slash(b, from + 1)
    }
}

/// A found slash lies at or after the scan start.
pub proof fn lemma_find_slash_bounds(b: Seq<u8>, from: int)
    requires
        find_slash(b, from) is Some,
    ensures
        from <= find_slash(b, from).unwrap() < b.len(),
    decreases b.len() - from,
{
    if 0 <= from < b.len() && b[from] != 0x2f {
        lemma_find_slash_bounds(b, from + 1);
    }
}

/// The slash-separated segments of a pointer, in order. A pointer with no
/// slash is one segment; empty segments are kept.
pub open spec fn split_slash(b: Seq<u8>) -> Seq<Seq<u8>>
    decreases b.len(),
    via split_slash_decreases
{
    match find_slash(b, 0) {
        None => seq![b],
        Some(i) => seq![b.take(i)] + split_slash(b.skip(i + 1)),
    }
}

#[via_fn]
proof fn split_slash_decreases(b: Seq<u8>) {
    match find_slash(b, 0) {
        Some(i) => {
            lemma_find_slash_bounds(b, 0);
        },
        None => {},
    }
}

/// Index of the first child whose name encodes to the given bytes.
pub open spec fn child_named(fs: Seq<FieldModel>, segb: Seq<u8>) -> Option<int>
    decreases fs.len(),
{
    if fs.len() == 0 {
        None
    } else if fs[0].name_bytes() == segb {
        Some(0int)
    } else {
        match child_named(fs.subrange(1, fs.len() as int), segb) {
            Some(i) => Some(i + 1),
            None => None,
        }
    }
}

/// What descending by the remaining segments yields: the current node
/// when no segment is left; nothing when a segment remains at a value or
/// matches no child.
pub open spec fn ptr_lookup(m: FieldModel, segs: Seq<Seq<u8>>) -> Option<FieldModel>
    decreases segs.len(),
{
    if segs.len() == 0 {
        Some(m)
    } else {
        match m {
            FieldModel::Value(_, _) => None,
            FieldModel::Struct(_, fs) => match child_named(fs, segs[0]) {
                None => None,
                Some(j) => ptr_lookup(fs[j], segs.subrange(1, segs.len() as int)),
            },
            FieldModel::Merged(_, fs) => match child_named(fs, segs[0]) {
                None => None,
                Some(j) => ptr_lookup(fs[j], segs.subrange(1, segs.len() as int)),
            },
        }
    }
}

/// The segment's bytes as a string, empty when they are not UTF-8.
fn seg_string(seg: &Vec<u8>) -> (r: String)
{
    match core::str::from_utf8(seg.as_slice()) {
        Ok(s) => s.to_owned(),
        Err(_) => String::new(),
    }
}

/// Whether two byte slices hold the same bytes.
fn bytes_eq(a: &[u8], b: &[u8]) -> (r: bool)
    ensures
        r == (a@ == b@),
{
    if a.len() != b.len() {
        proof {
            assert(a@.len() != b@.len());
        }
        return false;
    }
    let n = a.len();
    let mut i: usize = 0;
    while i < n
        invariant
            0 <= i <= n,
            n == a@.len(),
            n == b@.len(),
            forall|j: int| 0 <= j < i ==> a@[j] == b@[j],
        decreases n - i,
    {
        if a[i] != b[i] {
            return false;
        }
        i = i + 1;
    }
    proof {
        assert(a@ =~= b@);
    }
    true
}

impl BlkField {
    /// Descends by a slash-separated pointer of child names, first match
    /// first; yields a copy of the node it reaches. Fails with the full
    /// pointer and the segment that matched nothing, or that remained
    /// when descent reached a value.
    pub fn pointer(&self, ptr: &str) -> (r: Result<BlkField, BlkFieldError>)
        ensures
            match ptr_lookup(self@, split_slash(ptr.spec_bytes())) {
                Some(m) => r matches Ok(t) && t@ == m,
                None => r matches Err(BlkFieldError::NoSuchField(p, _)) && p@ == ptr@,
            },
    {
        let pb = ptr.as_bytes();
        // split the pointer into segments
        let mut segs: Vec<Vec<u8>> = Vec::new();
        let mut start: usize = 0;
        let n = pb.len();
        let ghost all = split_slash(pb@);
        let ghost done: Seq<Seq<u8>> = Seq::empty();
        proof {
            assert(pb@.skip(0) =~= pb@);
            assert(done + split_slash(pb@) =~= split_slash(pb@));
        }
        loop
            invariant_except_break
                0 <= start <= n,
                n == pb@.len(),
                all == split_slash(pb@),
                all =~= Seq::new(segs@.len(), |j: int| segs@[j]@) + split_slash(
                    pb@.skip(start as int),
                ),
            ensures
                all =~= Seq::new(segs@.len(), |j: int| segs@[j]@),
            decreases n - start + 1,
        {
            let ghost prev = Seq::new(segs@.len(), |j: int| segs@[j]@);
            let ghost rest = split_slash(pb@.skip(start as int));
            let mut e: usize = start;
            let mut found = false;
            while e < n && !found
                invariant
                    start <= e <= n,
                    n == pb@.len(),
                    !found ==> find_slash(pb@.skip(start as int), 0) == match find_slash(
                        pb@.skip(start as int),
                        e - start,
                    ) {
                        Some(t) => Some(t),
                        None => None,
                    } && (forall|t: int|
                        0 <= t < e - start ==> pb@.skip(start as int)[t] != 0x2f),
                    found ==> start <= e < n && pb@[e as int] == 0x2f && find_slash(
                        pb@.skip(start as int),
                        0,
                    ) == Some(e - start),
                decreases n - e + if found {
                    0int
                } else {
                    1int
                },
            {
                if pb[e] == 0x2f {
                    proof {
                        lemma_slash_shift(pb@.skip(start as int), e - start);
                    }
                    found = true;
                } else {
                    proof {
                        assert(pb@.skip(start as int)[e - start] == pb@[e as int]);
                        lemma_slash_step(pb@.skip(start as int), e - start);
                    }
                    e = e + 1;
                }
            }
            if found {
                let piece = crate::vromf::binary_container::slice_to_vec_u8(&pb[start..e]);
                proof {
                    assert(pb@.skip(start as int).take(e - start) =~= pb@.subrange(
                        start as int,
                        e as int,
                    ));
                    assert(pb@.skip(start as int).skip(e - start + 1) =~= pb@.skip(e + 1));
                    assert(rest =~= seq![piece@] + split_slash(pb@.skip(e + 1)));
                    assert(prev + rest =~= prev.push(piece@) + split_slash(pb@.skip(e + 1)));
                }
                segs.push(piece);
                proof {
                    assert(Seq::new(segs@.len(), |j: int| segs@[j]@) =~= prev.push(
                        segs@[segs@.len() - 1]@,
                    ));
                }
                start = e + 1;
            } else {
                let piece = crate::vromf::binary_container::slice_to_vec_u8(&pb[start..n]);
                proof {
                    lemma_no_slash(pb@.skip(start as int));
                    assert(piece@ =~= pb@.skip(start as int));
                    assert(rest =~= seq![piece@]);
                    assert(prev + rest =~= prev.push(piece@));
                }
                segs.push(piece);
                proof {
                    assert(Seq::new(segs@.len(), |j: int| segs@[j]@) =~= prev.push(
                        segs@[segs@.len() - 1]@,
                    ));
                    assert(Seq::new(segs@.len(), |j: int| segs@[j]@) =~= all);
                }
                break ;
            }
        }
        // descend
        let ghost segms = Seq::new(segs@.len(), |j: int| segs@[j]@);
        let mut node: &BlkField = self;
        let mut idx: usize = 0;
        proof {
            assert(segms.skip(0) =~= segms);
            assert(segms =~= split_slash(ptr.spec_bytes()));
        }
        while idx < segs.len()
            invariant
                0 <= idx <= segs@.len(),
                segms == Seq::new(segs@.len(), |j: int| segs@[j]@),
                segms =~= split_slash(ptr.spec_bytes()),
                ptr_lookup(self@, segms) == ptr_lookup(node@, segms.skip(idx as int)),
            decreases segs@.len() - idx,
        {
            proof {
                assert(segms.skip(idx as int)[0] == segms[idx as int]);
                assert(segms.skip(idx as int).subrange(
                    1,
                    segms.skip(idx as int).len() as int,
                ) =~= segms.skip(idx as int + 1));
            }
            match node {
                BlkField::Value(_, _) => {
                    return Err(
                        BlkFieldError::NoSuchField(ptr.to_owned(), seg_string(&segs[idx])),
                    );
                },
                BlkField::Struct(_, fs) => {
                    let ghost fsm = fields_model(fs@);
                    proof {
                        lemma_fields_model(fs@);
                    }
                    let mut j: usize = 0;
                    let mut found = false;
                    proof {
                        assert(fsm.skip(0) =~= fsm);
                    }
                    while j < fs.len() && !found
                        invariant
                            0 <= j <= fs@.len(),
                            (*node) is Struct,
                            node->Struct_1@ == fs@,
                            fsm == fields_model(fs@),
                            fsm.len() == fs@.len(),
                            idx < segs@.len(),
                            segms == Seq::new(segs@.len(), |t: int| segs@[t]@),
                            segms =~= split_slash(ptr.spec_bytes()),
                            ptr_lookup(self@, segms) == ptr_lookup(
                                node@,
                                segms.skip(idx as int),
                            ),
                            !found ==> child_named(fsm, segms[idx as int]) == match child_named(
                                fsm.skip(j as int),
                                segms[idx as int],
                            ) {
                                Some(t) => Some(t + j),
                                None => None,
                            },
                            found ==> 0 <= j < fs@.len() && child_named(fsm, segms[idx as int])
                                == Some(j as int),
                        decreases fs@.len() - j + if found {
                            0int
                        } else {
                            1int
                        },
                    {
                        let nm = fs[j].get_name();
                        proof {
                            lemma_fields_model(fs@);
                            assert(nm@ == field_model(fs@[j as int]).name());
                            assert(fsm[j as int] == field_model(fs@[j as int]));
                        }
                        if bytes_eq(nm.as_str().as_bytes(), segs[idx].as_slice()) {
                            proof {
                                assert(fsm.skip(j as int)[0] == fsm[j as int]);
                                assert(fsm[j as int].name_bytes() == encode_utf8(nm@));
                                assert(fsm[j as int].name_bytes() == segms[idx as int]);
                            }
                            found = true;
                        } else {
                            proof {
                                assert(fsm.skip(j as int)[0] == fsm[j as int]);
                                assert(fsm[j as int].name_bytes() == encode_utf8(nm@));
                                assert(fsm.skip(j as int).subrange(
                                    1,
                                    fsm.skip(j as int).len() as int,
                                ) =~= fsm.skip(j as int + 1));
                            }
                            j = j + 1;
                        }
                    }
                    if !found {
                        proof {
                            assert(fsm.skip(fs@.len() as int).len() == 0);
                            assert(child_named(fsm, segms[idx as int]) is None);
                            assert(segms.skip(idx as int)[0] == segms[idx as int]);
                            assert(ptr_lookup(node@, segms.skip(idx as int)) is None);
                        }
                        return Err(
                            BlkFieldError::NoSuchField(ptr.to_owned(), seg_string(&segs[idx])),
                        );
                    }
                    proof {
                        lemma_child_named_bounds(fsm, segms[idx as int]);
                        lemma_fields_model(fs@);
                    }
                    node = &fs[j];
                    proof {
                        assert(node@ == fsm[j as int]);
                    }
                },
                BlkField::Merged(_, fs) => {
                    let ghost fsm = fields_model(fs@);
                    proof {
                        lemma_fields_model(fs@);
                    }
                    let mut j: usize = 0;
                    let mut found = false;
                    proof {
                        assert(fsm.skip(0) =~= fsm);
                    }
                    while j < fs.len() && !found
                        invariant
                            0 <= j <= fs@.len(),
                            (*node) is Merged,
                            node->Merged_1@ == fs@,
                            fsm == fields_model(fs@),
                            fsm.len() == fs@.len(),
                            idx < segs@.len(),
                            segms == Seq::new(segs@.len(), |t: int| segs@[t]@),
                            segms =~= split_slash(ptr.spec_bytes()),
                            ptr_lookup(self@, segms) == ptr_lookup(
                                node@,
                                segms.skip(idx as int),
                            ),
                            !found ==> child_named(fsm, segms[idx as int]) == match child_named(
                                fsm.skip(j as int),
                                segms[idx as int],
                            ) {
                                Some(t) => Some(t + j),
                                None => None,
                            },
                            found ==> 0 <= j < fs@.len() && child_named(fsm, segms[idx as int])
                                == Some(j as int),
                        decreases fs@.len() - j + if found {
                            0int
                        } else {
                            1int
                        },
                    {
                        let nm = fs[j].get_name();
                        proof {
                            lemma_fields_model(fs@);
                            assert(nm@ == field_model(fs@[j as int]).name());
                            assert(fsm[j as int] == field_model(fs@[j as int]));
                        }
                        if bytes_eq(nm.as_str().as_bytes(), segs[idx].as_slice()) {
                            proof {
                                assert(fsm.skip(j as int)[0] == fsm[j as int]);
                                assert(fsm[j as int].name_bytes() == encode_utf8(nm@));
                                assert(fsm[j as int].name_bytes() == segms[idx as int]);
                            }
                            found = true;
                        } else {
                            proof {
                                assert(fsm.skip(j as int)[0] == fsm[j as int]);
                                assert(fsm[j as int].name_bytes() == encode_utf8(nm@));
                                assert(fsm.skip(j as int).subrange(
                                    1,
                                    fsm.skip(j as int).len() as int,
                                ) =~= fsm.skip(j as int + 1));
                            }
                            j = j + 1;
                        }
                    }
                    if !found {
                        proof {
                            assert(fsm.skip(fs@.len() as int).len() == 0);
                            assert(child_named(fsm, segms[idx as int]) is None);
                            assert(segms.skip(idx as int)[0] == segms[idx as int]);
                            assert(ptr_lookup(node@, segms.skip(idx as int)) is None);
                        }
                        return Err(
                            BlkFieldError::NoSuchField(ptr.to_owned(), seg_string(&segs[idx])),
                        );
                    }
                    proof {
                        lemma_child_named_bounds(fsm, segms[idx as int]);
                        lemma_fields_model(fs@);
                    }
                    node = &fs[j];
                    proof {
                        assert(node@ == fsm[j as int]);
                    }
                },
            }
            idx = idx + 1;
        }
        proof {
            assert(segms.skip(segs@.len() as int).len() == 0);
        }
        Ok(node.clone())
    }
}

/// A found child index is in range and names the sought bytes.
pub proof fn lemma_child_named_bounds(fs: Seq<FieldModel>, segb: Seq<u8>)
    ensures
        child_named(fs, segb) matches Some(j) ==> 0 <= j < fs.len() && fs[j].name_bytes() == segb,
    decreases fs.len(),
{
    if fs.len() > 0 {
        lemma_child_named_bounds(fs.subrange(1, fs.len() as int), segb);
    }
}

/// Scanning for a slash one step further keeps the search aligned.
proof fn lemma_slash_step(b: Seq<u8>, i: int)
    requires
        0 <= i < b.len(),
        b[i] != 0x2f,
    ensures
        find_slash(b, i) == find_slash(b, i + 1),
{
}

/// A slash found at `i` after a slash-free prefix is the first slash.
proof fn lemma_slash_shift(b: Seq<u8>, i: int)
    requires
        0 <= i < b.len(),
        b[i] == 0x2f,
        forall|t: int| 0 <= t < i ==> b[t] != 0x2f,
    ensures
        find_slash(b, 0) == Some(i),
    decreases i,
{
    if i > 0 {
        lemma_slash_shift2(b, 0, i);
    }
}

proof fn lemma_slash_shift2(b: Seq<u8>, from: int, i: int)
    requires
        0 <= from <= i < b.len(),
        b[i] == 0x2f,
        forall|t: int| from <= t < i ==> b[t] != 0x2f,
    ensures
        find_slash(b, from) == Some(i),
    decreases i - from,
{
    if from < i {
        lemma_slash_shift2(b, from + 1, i);
    }
}

/// A buffer with no slash splits into itself alone.
proof fn lemma_no_slash(b: Seq<u8>)
    requires
        forall|t: int| 0 <= t < b.len() ==> b[t] != 0x2f,
    ensures
        find_slash(b, 0) is None,
        split_slash(b) == seq![b],
    decreases b.len(),
{
    lemma_no_slash_at(b, 0);
}

proof fn lemma_no_slash_at(b: Seq<u8>, from: int)
    requires
        0 <= from <= b.len(),
        forall|t: int| from <= t < b.len() ==> b[t] != 0x2f,
    ensures
        find_slash(b, from) is None,
    decreases b.len() - from,
{
    if from < b.len() {
        lemma_no_slash_at(b, from + 1);
    }
}

/// The bounded value `x` clamped to the platform word.
pub open spec fn sat_usize(x: int) -> int {
    if x > usize::MAX {
        usize::MAX as int
    } else {
        x
    }
}

/// The rough in-memory footprint of a subtree: name bytes plus value
/// sizes, summed over every node.
pub open spec fn est_size(m: FieldModel) -> int
    decreases m, 1nat,
    via est_size_decreases
{
    match m {
        FieldModel::Value(n, v) => vstd::utf8::encode_utf8(n).len()
            + crate::blk::types::BlkType::spec_size_bytes(v) as int,
        FieldModel::Struct(n, fs) => vstd::utf8::encode_utf8(n).len() + est_seq(fs),
        FieldModel::Merged(n, fs) => vstd::utf8::encode_utf8(n).len() + est_seq(fs),
    }
}

#[via_fn]
proof fn est_size_decreases(m: FieldModel) {
    match m {
        FieldModel::Struct(_, fs) => {
            assert(decreases_to!(m => m->Struct_1));
        },
        FieldModel::Merged(_, fs) => {
            assert(decreases_to!(m => m->Merged_1));
        },
        _ => {},
    }
}

/// The summed footprint of a child sequence.
pub open spec fn est_seq(fs: Seq<FieldModel>) -> int
    decreases fs, 0nat,
{
    if fs.len() == 0 {
        0
    } else {
        est_size(fs[0]) + est_seq(fs.subrange(1, fs.len() as int))
    }
}

/// The footprints are never negative.
pub proof fn lemma_est_nonneg(m: FieldModel)
    ensures
        est_size(m) >= 0,
    decreases m, 1nat,
{
    match m {
        FieldModel::Struct(_, fs) => {
            assert(decreases_to!(m => m->Struct_1));
            lemma_est_seq_nonneg(fs);
        },
        FieldModel::Merged(_, fs) => {
            assert(decreases_to!(m => m->Merged_1));
            lemma_est_seq_nonneg(fs);
        },
        _ => {},
    }
}

proof fn lemma_est_seq_nonneg(fs: Seq<FieldModel>)
    ensures
        est_seq(fs) >= 0,
    decreases fs, 0nat,
{
    if fs.len() > 0 {
        assert(decreases_to!(fs => fs[0]));
        lemma_est_nonneg(fs[0]);
        lemma_est_seq_nonneg(fs.subrange(1, fs.len() as int));
    }
}

impl BlkField {
    /// A rough in-memory size of the subtree: name bytes plus value
    /// sizes, clamped at the platform word on overflow.
    pub fn estimate_size(&self) -> (r: usize)
        ensures
            r == sat_usize(est_size(self@)),
        decreases *self,
    {
        match self {
            BlkField::Value(n, v) => {
                let nl = n.as_str().as_bytes().len();
                let vs = v.size_bytes();
                proof {
                    assert(crate::blk::types::BlkType::spec_size_bytes(v@) >= 0);
                }
                if nl > usize::MAX - vs {
                    usize::MAX
                } else {
                    nl + vs
                }
            },
            BlkField::Struct(n, fs) => {
                let nl = n.as_str().as_bytes().len();
                let mut total: usize = nl;
                let ghost fsm = fields_model(fs@);
                proof {
                    lemma_fields_model(fs@);
                    assert(fsm.skip(0) =~= fsm);
                }
                let mut i: usize = 0;
                while i < fs.len()
                    invariant
                        0 <= i <= fs@.len(),
                        (*self) is Struct,
                        self->Struct_1@ == fs@,
                        fsm == fields_model(fs@),
                        fsm.len() == fs@.len(),
                        total == sat_usize(
                            vstd::utf8::encode_utf8(self->Struct_0@).len() + est_prefix(
                                fsm,
                                i as int,
                            ),
                        ),
                    decreases fs@.len() - i,
                {
                    proof {
                        assert(decreases_to!(*self => self->Struct_1));
                        assert(decreases_to!(self->Struct_1 => self->Struct_1@));
                        assert(decreases_to!(self->Struct_1@ => self->Struct_1@[i as int]));
                        lemma_fields_model(fs@);
                        lemma_est_nonneg(fsm[i as int]);
                        lemma_est_prefix_nonneg(fsm, i as int);
                    }
                    let c = fs[i].estimate_size();
                    proof {
                        assert(c == sat_usize(est_size(fsm[i as int])));
                    }
                    if c > usize::MAX - total {
                        total = usize::MAX;
                    } else {
                        total = total + c;
                    }
                    i = i + 1;
                }
                proof {
                    lemma_est_prefix_full(fsm);
                }
                total
            },
            BlkField::Merged(n, fs) => {
                let nl = n.as_str().as_bytes().len();
                let mut total: usize = nl;
                let ghost fsm = fields_model(fs@);
                proof {
                    lemma_fields_model(fs@);
                }
                let mut i: usize = 0;
                while i < fs.len()
                    invariant
                        0 <= i <= fs@.len(),
                        (*self) is Merged,
                        self->Merged_1@ == fs@,
                        fsm == fields_model(fs@),
                        fsm.len() == fs@.len(),
                        total == sat_usize(
                            vstd::utf8::encode_utf8(self->Merged_0@).len() + est_prefix(
                                fsm,
                                i as int,
                            ),
                        ),
                    decreases fs@.len() - i,
                {
                    proof {
                        assert(decreases_to!(*self => self->Merged_1));
                        assert(decreases_to!(self->Merged_1 => self->Merged_1@));
                        assert(decreases_to!(self->Merged_1@ => self->Merged_1@[i as int]));
                        lemma_fields_model(fs@);
                        lemma_est_nonneg(fsm[i as int]);
                        lemma_est_prefix_nonneg(fsm, i as int);
                    }
                    let c = fs[i].estimate_size();
                    proof {
                        assert(c == sat_usize(est_size(fsm[i as int])));
                    }
                    if c > usize::MAX - total {
                        total = usize::MAX;
                    } else {
                        total = total + c;
                    }
                    i = i + 1;
                }
                proof {
                    lemma_est_prefix_full(fsm);
                }
                total
            },
        }
    }
}

/// The summed footprint of the first `i` children.
pub open spec fn est_prefix(fs: Seq<FieldModel>, i: int) -> int
    decreases i,
{
    if i <= 0 {
        0
    } else {
        est_prefix(fs, i - 1) + est_size(fs[i - 1])
    }
}

proof fn lemma_est_prefix_nonneg(fs: Seq<FieldModel>, i: int)
    requires
        0 <= i <= fs.len(),
    ensures
        est_prefix(fs, i) >= 0,
    decreases i,
{
    if i > 0 {
        lemma_est_prefix_nonneg(fs, i - 1);
        lemma_est_nonneg(fs[i - 1]);
    }
}

/// The prefix sum over all children is the child sum.
proof fn lemma_est_prefix_full(fs: Seq<FieldModel>)
    ensures
        est_prefix(fs, fs.len() as int) == est_seq(fs),
    decreases fs.len(),
{
    if fs.len() > 0 {
        let t = fs.subrange(1, fs.len() as int);
        lemma_est_prefix_full(t);
        lemma_est_prefix_shift(fs, fs.len() as int);
    }
}

proof fn lemma_est_prefix_shift(fs: Seq<FieldModel>, i: int)
    requires
        1 <= i <= fs.len(),
    ensures
        est_prefix(fs, i) == est_size(fs[0]) + est_prefix(fs.subrange(1, fs.len() as int), i - 1),
    decreases i,
{
    if i > 1 {
        lemma_est_prefix_shift(fs, i - 1);
        assert(fs.subrange(1, fs.len() as int)[i - 2] == fs[i - 1]);
    } else {
        assert(est_prefix(fs, 1) == est_prefix(fs, 0) + est_size(fs[0]));
        assert(est_prefix(fs, 0) == 0);
        assert(est_prefix(fs.subrange(1, fs.len() as int), 0) == 0);
    }
}

} // verus!
