//! Tracing structs and struct variants: matching each value's fields against the record the
//! slot has for its name, or growing a new record.

use vstd::prelude::*;
use crate::indices::TypeName;
use crate::node::{bottom, flat, lemma_subsumes_record, subsumes, KeysModel, NodeModel, SchemaBuilderNode, StructKeys};
use crate::builder::Names;
use crate::error::{TraceError, TraceLimitError, TraceLimitErrorKind};
use crate::slot::{at_location, location_valid, replaced_at, same_name, Location};
use crate::trace::{le_bytes, push_u32, ALL_FIELDS_PRESENT};

verus! {

/// Which record a struct being traced merges its fields into.
pub enum StructTarget {
    /// A record in the slot, recorded by earlier values (or created for this one).
    InSlot(Location),
    /// This value's fields turned out to differ from the record in the slot that has the same
    /// name, so they go into a separate record that is added to the slot at the end.
    Detached(SchemaBuilderNode),
}

/// The record that `t` points at, given the slot.
pub open spec fn target_node(t: StructTarget, slot: SchemaBuilderNode) -> SchemaBuilderNode {
    match t {
        StructTarget::InSlot(loc) => at_location(loc, slot),
        StructTarget::Detached(n) => n,
    }
}

/// Whether `n` is the record of a struct: named, with one name per field.
pub open spec fn struct_record(n: NodeModel) -> bool {
    n matches NodeModel::Record { name: Some(_), field_types, keys: Some(k), .. } && field_types.len() == k.fields.len()
}

/// Whether `t` points at a flat struct record.
pub open spec fn target_valid(t: StructTarget, slot: SchemaBuilderNode) -> bool {
    &&& match t {
        StructTarget::InSlot(loc) => location_valid(loc, slot) && flat(slot@),
        StructTarget::Detached(n) => flat(n@),
    }
    &&& struct_record(target_node(t, slot)@)
}

/// The number of fields of a record.
pub open spec fn field_count(n: NodeModel) -> int {
    n->field_types.len() as int
}

/// The record `rec` with field `i` of type `t`.
pub open spec fn set_field(rec: NodeModel, i: int, t: NodeModel) -> NodeModel {
    match rec {
        NodeModel::Record { name, field_names, field_types, skippable, keys } =>
            NodeModel::Record { name, field_names, field_types: field_types.update(i, t), skippable, keys },
        _ => rec,
    }
}

/// The struct record `rec` with one more field, named `key`, of no type yet.
pub open spec fn push_field(rec: NodeModel, key: Seq<char>) -> NodeModel {
    match rec {
        NodeModel::Record { name, field_names, field_types, skippable, keys: Some(k) } => NodeModel::Record {
            name,
            field_names,
            field_types: field_types.push(bottom()),
            skippable,
            keys: Some(KeysModel { name: k.name, variant: k.variant, fields: k.fields.push(key) }),
        },
        _ => rec,
    }
}

/// The skippable fields of `s` (the first `k`) that are below `n`.
pub open spec fn below(s: Seq<u32>, n: int, k: int) -> Seq<u32>
    decreases k,
{
    if k <= 0 || k > s.len() {
        Seq::empty()
    } else if s[k - 1] < n {
        below(s, n, k - 1).push(s[k - 1])
    } else {
        below(s, n, k - 1)
    }
}

/// A separate record seeded with the first `n` fields of the struct record `rec`, without field
/// names yet.
pub open spec fn detached(rec: NodeModel, n: int) -> NodeModel {
    match rec {
        NodeModel::Record { name, field_types, skippable, keys: Some(k), .. } => NodeModel::Record {
            name,
            field_names: None,
            field_types: field_types.subrange(0, n),
            skippable: below(skippable, n, skippable.len() as int),
            keys: Some(KeysModel { name: k.name, variant: k.variant, fields: k.fields.subrange(0, n) }),
        },
        _ => rec,
    }
}

pub proof fn lemma_below(s: Seq<u32>, n: int, k: int)
    ensures
        forall|i: int| 0 <= i < below(s, n, k).len() ==> #[trigger] below(s, n, k)[i] < n,
        forall|i: int| 0 <= i < below(s, n, k).len() ==> exists|j: int| 0 <= j < k && j < s.len() && #[trigger] below(s, n, k)[i] == s[j],
        crate::sorted::strictly_sorted(s) ==> crate::sorted::strictly_sorted(below(s, n, k)),
    decreases k,
{
    if 0 < k <= s.len() {
        lemma_below(s, n, k - 1);
        let b = below(s, n, k - 1);
        if s[k - 1] < n {
            let c = b.push(s[k - 1]);
            assert forall|i: int| 0 <= i < c.len() implies #[trigger] c[i] < n by {
                if i < b.len() {
                    assert(c[i] == b[i]);
                }
            }
            assert forall|i: int| 0 <= i < c.len() implies exists|j: int| 0 <= j < k && j < s.len() && #[trigger] c[i] == s[j] by {
                if i < b.len() {
                    assert(c[i] == b[i]);
                    let j = choose|j: int| 0 <= j < k - 1 && j < s.len() && b[i] == s[j];
                } else {
                    assert(c[i] == s[k - 1]);
                }
            }
            if crate::sorted::strictly_sorted(s) {
                assert forall|i: int, j: int| 0 <= i < j < c.len() implies c[i] < c[j] by {
                    if j < b.len() {
                        assert(c[i] == b[i]);
                        assert(c[j] == b[j]);
                    } else {
                        assert(c[i] == b[i]);
                        let jj = choose|jj: int| 0 <= jj < k - 1 && jj < s.len() && b[i] == s[jj];
                        assert(c[j] == s[k - 1]);
                    }
                }
            }
        }
    }
}

impl StructTarget {
    /// The record this target points at, shared.
    pub fn target<'r>(&'r self, slot: &'r SchemaBuilderNode) -> (r: &'r SchemaBuilderNode)
        requires
            target_valid(*self, *slot),
        ensures
            *r == target_node(*self, *slot),
    {
        match self {
            StructTarget::InSlot(location) => location.get_ref(slot),
            StructTarget::Detached(node) => node,
        }
    }

    /// The record this target points at.
    pub fn parts<'r>(&'r mut self, slot: &'r mut SchemaBuilderNode) -> (r: &'r mut SchemaBuilderNode)
        requires
            target_valid(*old(self), *old(slot)),
        ensures
            *r == target_node(*old(self), *old(slot)),
            *old(self) is InSlot ==> *final(self) == *old(self)
                && replaced_at((*old(self))->InSlot_0, *old(slot), *final(slot), *final(r)),
            *old(self) is Detached ==> *final(self) == StructTarget::Detached(*final(r)) && *final(slot) == *old(slot),
    {
        match self {
            StructTarget::InSlot(location) => (*location).get(slot),
            StructTarget::Detached(node) => node,
        }
    }

    /// Puts `node` back as the type of field `index` of the target record.
    pub fn put_field(&mut self, slot: &mut SchemaBuilderNode, index: usize, node: SchemaBuilderNode)
        requires
            target_valid(*old(self), *old(slot)),
            index < field_count(target_node(*old(self), *old(slot))@),
        ensures
            target_node(*final(self), *final(slot))@ == set_field(target_node(*old(self), *old(slot))@, index as int, node@),
            *old(self) is InSlot ==> *final(self) == *old(self)
                && replaced_at((*old(self))->InSlot_0, *old(slot), *final(slot), target_node(*final(self), *final(slot))),
            *old(self) is Detached ==> *final(self) is Detached && *final(slot) == *old(slot),
    {
        let ghost rec0 = target_node(*self, *slot);
        let mut node = node;
        let rec = self.parts(slot);
        match rec {
            SchemaBuilderNode::Record { field_types, .. } => {
                proof {
                    crate::node::lemma_models_of(*field_types);
                }
                let ghost before = *field_types;
                std::mem::swap(&mut field_types[index], &mut node);
                proof {
                    crate::node::lemma_models_of_update(before, *field_types, index as int, field_types@[index as int]);
                }
            },
            _ => {
                proof {
                    assert(false);
                }
            },
        }
    }
}

/// After replacing the node at a location, the location holds the new node; the slot stays
/// flat if the new node is a flat node that is not a union.
pub proof fn lemma_replaced(loc: Location, s0: SchemaBuilderNode, s1: SchemaBuilderNode, t: SchemaBuilderNode)
    requires
        location_valid(loc, s0),
        replaced_at(loc, s0, s1, t),
        !(t is Union),
    ensures
        location_valid(loc, s1),
        at_location(loc, s1) == t,
        flat(s0@) && flat(t@) && !(t@ is Union) ==> flat(s1@),
{
    if let (Location::Member(i), SchemaBuilderNode::Union(ms)) = (loc, s0) {
        let ms2 = s1->Union_0;
        crate::node::lemma_models_of_update(ms, ms2, i as int, t);
        crate::node::lemma_models_of(ms);
        crate::node::lemma_models_of(ms2);
        if flat(s0@) && flat(t@) && !(t@ is Union) {
            let a = crate::node::models_of(ms);
            let b = crate::node::models_of(ms2);
            assert forall|k: int| 0 <= k < b.len() implies !(#[trigger] b[k] is Union) && flat(b[k]) by {
                if k != i {
                    assert(b[k] == a[k]);
                }
            }
        }
    }
}

/// Replacing the node at a location by itself changes nothing.
pub proof fn lemma_replaced_same(loc: Location, s: SchemaBuilderNode)
    requires
        location_valid(loc, s),
    ensures
        replaced_at(loc, s, s, at_location(loc, s)),
{
    if let (Location::Member(i), SchemaBuilderNode::Union(ms)) = (loc, s) {
        assert(ms@.update(i as int, ms@[i as int]) =~= ms@);
    }
}

/// Two replacements at the same location make one.
pub proof fn lemma_replaced_trans(
    loc: Location,
    a: SchemaBuilderNode,
    b: SchemaBuilderNode,
    c: SchemaBuilderNode,
    t1: SchemaBuilderNode,
    t2: SchemaBuilderNode,
)
    requires
        location_valid(loc, a),
        replaced_at(loc, a, b, t1),
        replaced_at(loc, b, c, t2),
        !(t1 is Union),
    ensures
        replaced_at(loc, a, c, t2),
{
    if let (Location::Member(i), SchemaBuilderNode::Union(ms)) = (loc, a) {
        assert(c->Union_0@ =~= ms@.update(i as int, t2));
    }
}

impl StructTarget {
    /// Continues in a separate record seeded with the first `fields` fields of the current one.
    /// Those already include this value's types, merged in place, so the seed describes them; it
    /// may describe more (types other values had there), which is harmless.
    pub fn detach(&mut self, slot: &SchemaBuilderNode, fields: usize)
        requires
            target_valid(*old(self), *slot),
            fields <= field_count(target_node(*old(self), *slot)@),
        ensures
            *final(self) matches StructTarget::Detached(n) && n@ == detached(target_node(*old(self), *slot)@, fields as int),
            target_valid(*final(self), *slot),
    {
        let ghost rec = target_node(*self, *slot)@;
        proof {
            if let StructTarget::InSlot(loc) = *self {
                crate::slot::lemma_flat_at_location(loc, *slot);
            }
        }
        let node = match self.target(slot) {
            SchemaBuilderNode::Record { name, field_names: _, field_types, skippable, keys: Some(keys) } => {
                proof {
                    crate::node::lemma_models_of(*field_types);
                }
                let mut kept: Vec<u32> = Vec::new();
                let mut i: usize = 0;
                while i < skippable.len()
                    invariant
                        0 <= i <= skippable@.len(),
                        kept@ == below(skippable@, fields as int, i as int),
                    decreases skippable@.len() - i,
                {
                    if (skippable[i] as usize) < fields {
                        kept.push(skippable[i]);
                    }
                    i += 1;
                }
                let mut key_fields: Vec<&'static str> = Vec::new();
                let mut j: usize = 0;
                while j < fields
                    invariant
                        0 <= j <= fields,
                        fields <= keys.fields@.len(),
                        key_fields@ == keys.fields@.subrange(0, j as int),
                    decreases fields - j,
                {
                    key_fields.push(keys.fields[j]);
                    j += 1;
                }
                let types = crate::node::clone_nodes(field_types, fields);
                let new_keys = StructKeys { name: keys.name, variant: keys.variant, fields: key_fields };
                proof {
                    assert(crate::node::str_models(key_fields@) =~= crate::node::str_models(keys.fields@).subrange(0, fields as int));
                    lemma_below(skippable@, fields as int, skippable@.len() as int);
                    crate::node::lemma_models_of(types);
                }
                SchemaBuilderNode::Record {
                    name: *name,
                    field_names: None,
                    field_types: types,
                    skippable: kept,
                    keys: Some(new_keys),
                }
            },
            _ => {
                proof {
                    assert(false);
                }
                vstd::pervasive::unreached()
            },
        };
        proof {
            let m = node@;
            assert(m == detached(rec, fields as int));
            assert(m->field_types == rec->field_types.subrange(0, fields as int));
            assert(rec->field_types == rec->field_types);
            assert(flat(rec));
            assert forall|k: int| 0 <= k < m->field_types.len() implies flat(#[trigger] m->field_types[k]) by {
                assert(m->field_types[k] == rec->field_types[k]);
            }
            assert(flat(m));
        }
        *self = StructTarget::Detached(node);
    }
}

/// The name of field `index` of a struct record, if it has that many.
pub open spec fn key_at(rec: NodeModel, index: int) -> Option<Seq<char>> {
    match rec {
        NodeModel::Record { keys: Some(k), .. } => if 0 <= index < k.fields.len() { Some(k.fields[index]) } else { None },
        _ => None,
    }
}

/// What entering field `index` named `key` makes of the target record `rec`, before the field's
/// type is taken out: `rec` itself if its field there has that name, else `rec` (if it is new
/// for this value) or a detached seed of its first `index` fields, with the field added.
pub open spec fn entered_record(rec: NodeModel, growing: bool, index: int, key: Seq<char>) -> NodeModel {
    if !growing && key_at(rec, index) == Some(key) {
        rec
    } else if growing {
        push_field(rec, key)
    } else {
        push_field(detached(rec, index), key)
    }
}

impl StructTarget {
    /// Makes the target record's field `index` (the next one) `key` and takes its type out,
    /// switching to a detached record if the recorded one has a different field there.
    pub fn enter_field(&mut self, slot: &mut SchemaBuilderNode, growing: &mut bool, index: usize, key: &'static str) -> (r: SchemaBuilderNode)
        requires
            target_valid(*old(self), *old(slot)),
            *old(growing) ==> field_count(target_node(*old(self), *old(slot))@) == index,
            !*old(growing) ==> index <= field_count(target_node(*old(self), *old(slot))@),
        ensures
            *final(growing) == !(!*old(growing) && key_at(target_node(*old(self), *old(slot))@, index as int) == Some(key@)),
            r@ == entered_record(target_node(*old(self), *old(slot))@, *old(growing), index as int, key@)->field_types[index as int],
            target_node(*final(self), *final(slot))@ == set_field(
                entered_record(target_node(*old(self), *old(slot))@, *old(growing), index as int, key@), index as int, bottom()),
            target_valid(*final(self), *final(slot)),
            index < field_count(target_node(*final(self), *final(slot))@),
            flat(r@),
            index < usize::MAX,
            *final(self) is InSlot ==> *final(self) == *old(self)
                && replaced_at((*old(self))->InSlot_0, *old(slot), *final(slot), target_node(*final(self), *final(slot))),
            *final(self) is Detached ==> *final(slot) == *old(slot),
            !*old(growing) && key_at(target_node(*old(self), *old(slot))@, index as int) != Some(key@)
                ==> *final(self) is Detached && *final(slot) == *old(slot),
            *old(growing) || key_at(target_node(*old(self), *old(slot))@, index as int) == Some(key@)
                ==> (*final(self) is InSlot <==> *old(self) is InSlot),
            !*old(growing) && key_at(target_node(*old(self), *old(slot))@, index as int) == Some(key@)
                ==> set_field(target_node(*final(self), *final(slot))@, index as int, r@) == target_node(*old(self), *old(slot))@,
    {
        let ghost rec0 = target_node(*self, *slot)@;
        let ghost slot0 = *slot;
        proof {
            if let StructTarget::InSlot(loc) = *self {
                crate::slot::lemma_flat_at_location(loc, *slot);
            }
        }
        if !*growing {
            let known = match self.target(slot) {
                SchemaBuilderNode::Record { keys: Some(keys), .. } => index < keys.fields.len() && same_name(keys.fields[index], key),
                _ => false,
            };
            if !known {
                self.detach(&*slot, index);
                *growing = true;
            }
        }
        let ghost rec1 = target_node(*self, *slot)@;
        let ghost t1 = *self;
        proof {
            if let StructTarget::InSlot(loc) = *self {
                crate::slot::lemma_flat_at_location(loc, *slot);
            }
            assert(rec1 == if !*growing { rec0 } else if *old(growing) { rec0 } else { detached(rec0, index as int) });
            assert(flat(rec1));
        }
        let mut out = SchemaBuilderNode::empty();
        let rec = self.parts(slot);
        match rec {
            SchemaBuilderNode::Record { field_types, keys: Some(keys), .. } => {
                proof {
                    crate::node::lemma_models_of(*field_types);
                }
                if *growing {
                    let ghost before = *field_types;
                    let ghost key_before = keys.fields@;
                    keys.fields.push(key);
                    field_types.push(SchemaBuilderNode::empty());
                    proof {
                        crate::node::lemma_models_of_push(before, *field_types, field_types@.last());
                        assert(crate::node::str_models(keys.fields@) =~= crate::node::str_models(key_before).push(key@));
                    }
                }
                let ghost before = *field_types;
                proof {
                    crate::node::lemma_models_of(before);
                }
                proof {
                    assert(flat(crate::node::models_of(before)[index as int]));
                }
                let count = field_types.len();
                assert(index < count);
                std::mem::swap(&mut field_types[index], &mut out);
                proof {
                    crate::node::lemma_models_of_update(before, *field_types, index as int, field_types@[index as int]);
                    crate::node::lemma_models_of(*field_types);
                    assert(crate::node::models_of(before)[index as int] == out@);
                }
            },
            _ => {
                proof {
                    assert(false);
                }
            },
        }
        proof {
            crate::node::lemma_flat_bottom();
            if let StructTarget::InSlot(loc) = *self {
                lemma_replaced(loc, slot0, *slot, target_node(*self, *slot));
            }
            if !*old(growing) && key_at(rec0, index as int) == Some(key@) {
                let ft = rec0->field_types;
                assert(ft.update(index as int, bottom()).update(index as int, out@) =~= ft);
            }
        }
        out
    }
}

/// The record a struct that was not recorded before starts as: its names, and no field yet.
pub open spec fn fresh_record(name: TypeName, struct_name: &'static str, variant: Option<&'static str>) -> NodeModel {
    NodeModel::Record {
        name: Some(name),
        field_names: None,
        field_types: Seq::empty(),
        skippable: Seq::empty(),
        keys: Some(KeysModel { name: struct_name@, variant: crate::slot::str_opt_model(variant), fields: Seq::empty() }),
    }
}

/// The bytes of a struct's trace after its kind byte: its type name (and variant name), then the
/// field name list (filled at the end), the number of serialized fields and the presence list
/// offset (filled at the end if a field was skipped).
pub open spec fn struct_header(name: TypeName, length: u32) -> Seq<u8> {
    le_bytes(name.0) + (match name.1 {
        Some(v) => le_bytes(v),
        None => Seq::empty(),
    }) + seq![0xffu8, 0xffu8, 0xffu8, 0xffu8] + le_bytes(length) + seq![0xffu8, 0xffu8, 0xffu8, 0xffu8]
}

/// The progress of a struct or struct variant being traced.
pub struct StructState {
    pub target: StructTarget,
    /// Whether the target record is new for this value, so its fields get appended rather than
    /// matched against the recorded ones.
    pub growing: bool,
    /// Where the struct header starts in the trace.
    pub header: usize,
    /// Where this struct's skipped fields start in the skipped-field stack of the names.
    pub skipped_start: usize,
    /// Fields seen so far, serialized or skipped.
    pub fields: usize,
    pub skipped: usize,
    /// Declared number of serialized (non-skipped) fields.
    pub length: usize,
    /// Whether a field failed to serialize; an implementation may ignore that and carry on,
    /// which must still fail tracing.
    pub failed: bool,
}

impl StructState {
    /// The target is a flat struct record in step with the fields seen so far.
    pub open spec fn inv(&self, slot: SchemaBuilderNode) -> bool {
        &&& target_valid(self.target, slot)
        &&& flat(slot@)
        &&& self.skipped <= self.fields
        &&& self.growing ==> field_count(target_node(self.target, slot)@) == self.fields
        &&& !self.growing ==> self.fields <= field_count(target_node(self.target, slot)@)
    }

    /// The record this struct's fields go into.
    pub open spec fn record(&self, slot: SchemaBuilderNode) -> NodeModel {
        target_node(self.target, slot)@
    }

    /// Starts tracing a struct (or struct variant) `name` with `length` serialized fields: finds
    /// the record the slot has for it, or adds a new one (interning its names), then appends the
    /// struct header.
    pub fn new(
        data: &mut Vec<u8>,
        names: &mut Names,
        slot: &mut SchemaBuilderNode,
        name: &'static str,
        variant: Option<&'static str>,
        length: usize,
    ) -> (r: Result<StructState, TraceError>)
        requires
            old(names).wf(),
            flat(old(slot)@),
        ensures
            final(names).wf(),
            final(names).skipped == old(names).skipped,
            final(names).field_names == old(names).field_names,
            final(names).field_name_lists == old(names).field_name_lists,
            flat(final(slot)@),
            crate::node::subsumes(final(slot)@, old(slot)@),
            match r {
                Ok(st) => {
                    &&& st.inv(*final(slot))
                    &&& st.fields == 0 && st.skipped == 0 && st.length == length && !st.failed
                    &&& st.skipped_start == old(names).skipped@.len()
                    &&& st.target is InSlot
                    &&& length <= u32::MAX
                    &&& st.growing == !crate::slot::has_match(crate::slot::Matcher::Struct(name, variant), old(slot)@)
                    &&& !st.growing ==> *final(slot) == *old(slot)
                        && crate::slot::found_in(crate::slot::Matcher::Struct(name, variant), old(slot)@, Some(st.target->InSlot_0))
                    &&& exists|tn: TypeName| {
                        &&& final(data)@ == old(data)@ + #[trigger] struct_header(tn, length as u32)
                        &&& st.header == old(data)@.len() + (if tn.1 is Some { 8int } else { 4int })
                        &&& st.record(*final(slot))->name == Some(tn)
                        &&& st.growing ==> {
                            &&& tn.0 < final(names).type_names@.len()
                            &&& final(names).type_names@[tn.0 as int] == name@
                            &&& (tn.1 is Some <==> variant is Some)
                            &&& (variant is Some ==> tn.1.unwrap() < final(names).variant_names@.len()
                                && final(names).variant_names@[tn.1.unwrap() as int] == variant.unwrap()@)
                            &&& final(slot)@ == crate::slot::inserted(old(slot)@, fresh_record(tn, name, variant))
                        }
                    }
                },
                Err(e) => e == TraceError::Limit(TraceLimitError(TraceLimitErrorKind::Names))
                    || e == TraceError::Limit(TraceLimitError(TraceLimitErrorKind::Values)),
            },
            r matches Ok(st) ==> st.header <= u32::MAX && st.header + STRUCT_HEADER_SIZE == final(data)@.len(),
            length > u32::MAX ==> r is Err,
            r == Err::<StructState, TraceError>(TraceError::Limit(TraceLimitError(TraceLimitErrorKind::Values)))
                ==> length > u32::MAX || old(data)@.len() + 8 > u32::MAX,
            r == Err::<StructState, TraceError>(TraceError::Limit(TraceLimitError(TraceLimitErrorKind::Names)))
                ==> old(names).type_names@.len() > u32::MAX || old(names).variant_names@.len() > u32::MAX,
            old(names).type_names@.len() <= u32::MAX && old(names).variant_names@.len() <= u32::MAX
                && old(data)@.len() + 8 <= u32::MAX && length <= u32::MAX ==> r is Ok,
    {
        let m = crate::slot::Matcher::Struct(name, variant);
        let found = crate::slot::find(slot, &m);
        let (location, tname, growing) = match found {
            Some(location) => {
                let tname = match location.get_ref(slot) {
                    SchemaBuilderNode::Record { name: Some(tname), .. } => *tname,
                    _ => {
                        proof {
                            crate::slot::lemma_flat_at_location(location, *slot);
                        }
                        return vstd::pervasive::unreached();
                    },
                };
                (location, tname, false)
            },
            None => {
                let type_index = match names.type_names.intern(name) {
                    Ok(index) => index,
                    Err(kind) => return Err(TraceError::Limit(TraceLimitError(kind))),
                };
                let variant_index = match variant {
                    Some(variant) => match names.variant_names.intern(variant) {
                        Ok(index) => Some(index),
                        Err(kind) => return Err(TraceError::Limit(TraceLimitError(kind))),
                    },
                    None => None,
                };
                let tname = TypeName(type_index, variant_index);
                let types: Vec<SchemaBuilderNode> = Vec::new();
                proof {
                    crate::node::lemma_models_of(types);
                    assert(crate::node::models_of(types) =~= Seq::<NodeModel>::empty());
                }
                let record = SchemaBuilderNode::Record {
                    name: Some(tname),
                    field_names: None,
                    field_types: types,
                    skippable: Vec::new(),
                    keys: Some(StructKeys { name, variant, fields: Vec::new() }),
                };
                proof {
                    assert(crate::node::str_models(Seq::<&'static str>::empty()) =~= Seq::<Seq<char>>::empty());
                    assert(record@ == fresh_record(tname, name, variant));
                    assert(flat(record@));
                }
                let location = crate::slot::insert(slot, record);
                (location, tname, true)
            },
        };
        proof {
            crate::slot::lemma_flat_at_location(location, *slot);
        }
        let ghost before = data@;
        push_u32(data, tname.0);
        if let Some(variant) = tname.1 {
            push_u32(data, variant);
        }
        let header = data.len();
        if header > 0xffff_ffffusize || length > 0xffff_ffffusize {
            return Err(TraceError::Limit(TraceLimitError(TraceLimitErrorKind::Values)));
        }
        let reserved: [u8; 4] = [0xff, 0xff, 0xff, 0xff];
        crate::tracer::append_bytes(data, &reserved);
        push_u32(data, length as u32);
        crate::tracer::append_bytes(data, &reserved);
        proof {
            assert(reserved@ =~= seq![0xffu8, 0xffu8, 0xffu8, 0xffu8]);
            assert(data@ =~= before + struct_header(tname, length as u32));
        }
        let st = StructState {
            target: StructTarget::InSlot(location),
            growing,
            header,
            skipped_start: names.skipped.len(),
            fields: 0,
            skipped: 0,
            length,
            failed: false,
        };
        proof {
            assert(st.record(*slot)->name == Some(tname));
            assert(data@ == old(data)@ + struct_header(tname, length as u32));
        }
        Ok(st)
    }
}

impl StructTarget {
    /// Adds field `index` to the skippable fields of the target record, keeping them sorted.
    pub fn add_skippable(&mut self, slot: &mut SchemaBuilderNode, index: u32)
        requires
            target_valid(*old(self), *old(slot)),
            index < field_count(target_node(*old(self), *old(slot))@),
        ensures
            target_valid(*final(self), *final(slot)),
            ({
                let rec = target_node(*old(self), *old(slot))@;
                let new = target_node(*final(self), *final(slot))@;
                &&& new->name == rec->name
                &&& new->field_names == rec->field_names
                &&& new->field_types == rec->field_types
                &&& new->keys == rec->keys
                &&& crate::sorted::strictly_sorted(rec->skippable) ==> crate::sorted::strictly_sorted(new->skippable)
                &&& forall|x: u32| #[trigger] new->skippable.contains(x) <==> rec->skippable.contains(x) || x == index
            }),
            *final(self) is InSlot <==> *old(self) is InSlot,
            *old(self) is InSlot ==> *final(self) == *old(self)
                && replaced_at((*old(self))->InSlot_0, *old(slot), *final(slot), target_node(*final(self), *final(slot))),
            *old(self) is Detached ==> *final(slot) == *old(slot),
    {
        let ghost slot0 = *slot;
        proof {
            if let StructTarget::InSlot(loc) = *self {
                crate::slot::lemma_flat_at_location(loc, *slot);
            }
        }
        let rec = self.parts(slot);
        match rec {
            SchemaBuilderNode::Record { skippable, .. } => {
                let ghost before = skippable@;
                crate::sorted::insert_sorted(skippable, index);
                proof {
                    assert forall|i: int| 0 <= i < skippable@.len() implies #[trigger] skippable@[i] < field_count(target_node(*old(self), *old(slot))@) by {
                        assert(skippable@.contains(skippable@[i]));
                        if before.contains(skippable@[i]) {
                            let j = choose|j: int| 0 <= j < before.len() && before[j] == skippable@[i];
                        }
                    }
                }
            },
            _ => {
                proof {
                    assert(false);
                }
            },
        }
        proof {
            if let StructTarget::InSlot(loc) = *self {
                lemma_replaced(loc, slot0, *slot, target_node(*self, *slot));
            }
        }
    }
}

impl StructState {
    /// Starts the next field, `key`: fails with a length mismatch if the declared number of
    /// serialized fields is reached; else enters the field (see [`StructTarget::enter_field`])
    /// and hands out its type, to trace the value into and put back with
    /// [`StructState::end_field`].
    pub fn begin_field(&mut self, slot: &mut SchemaBuilderNode, key: &'static str) -> (r: Result<SchemaBuilderNode, TraceError>)
        requires
            old(self).inv(*old(slot)),
        ensures
            old(self).fields - old(self).skipped >= old(self).length ==> r == Err::<SchemaBuilderNode, TraceError>(TraceError::LengthMismatch)
                && final(self).failed && final(self).fields == old(self).fields && final(self).skipped == old(self).skipped
                && final(self).target == old(self).target && final(self).growing == old(self).growing
                && *final(slot) == *old(slot) && final(self).inv(*final(slot)),
            old(self).fields - old(self).skipped < old(self).length ==> (r matches Ok(node) && {
                let rec = old(self).record(*old(slot));
                let entered = entered_record(rec, old(self).growing, old(self).fields as int, key@);
                &&& final(self).inv(*final(slot))
                &&& final(self).fields == old(self).fields + 1
                &&& final(self).skipped == old(self).skipped
                &&& final(self).length == old(self).length
                &&& final(self).failed == old(self).failed
                &&& final(self).header == old(self).header
                &&& final(self).skipped_start == old(self).skipped_start
                &&& final(self).growing == !(!old(self).growing && key_at(rec, old(self).fields as int) == Some(key@))
                &&& node@ == entered->field_types[old(self).fields as int]
                &&& flat(node@)
                &&& final(self).record(*final(slot)) == set_field(entered, old(self).fields as int, bottom())
                &&& final(self).target is InSlot ==> final(self).target == old(self).target
                    && replaced_at(old(self).target->InSlot_0, *old(slot), *final(slot), target_node(final(self).target, *final(slot)))
                &&& final(self).target is Detached ==> *final(slot) == *old(slot)
            }),
    {
        if self.fields - self.skipped >= self.length {
            self.failed = true;
            return Err(TraceError::LengthMismatch);
        }
        let index = self.fields;
        let node = self.target.enter_field(slot, &mut self.growing, index, key);
        self.fields = index + 1;
        Ok(node)
    }

    /// Puts the type of the field started last back, with the type of the value traced into it,
    /// and records whether that trace succeeded.
    pub fn end_field(&mut self, slot: &mut SchemaBuilderNode, node: SchemaBuilderNode, ok: bool)
        requires
            old(self).inv(*old(slot)),
            old(self).fields > 0,
            flat(node@),
        ensures
            final(self).inv(*final(slot)),
            final(self).record(*final(slot)) == set_field(old(self).record(*old(slot)), old(self).fields - 1, node@),
            final(self).fields == old(self).fields,
            final(self).skipped == old(self).skipped,
            final(self).length == old(self).length,
            final(self).growing == old(self).growing,
            final(self).header == old(self).header,
            final(self).skipped_start == old(self).skipped_start,
            final(self).failed == (old(self).failed || !ok),
            final(self).target is InSlot ==> final(self).target == old(self).target
                && replaced_at(old(self).target->InSlot_0, *old(slot), *final(slot), target_node(final(self).target, *final(slot))),
            final(self).target is Detached ==> *final(slot) == *old(slot),
    {
        let ghost slot0 = *slot;
        let ghost rec0 = self.record(*slot);
        proof {
            if let StructTarget::InSlot(loc) = self.target {
                crate::slot::lemma_flat_at_location(loc, *slot);
            }
        }
        self.target.put_field(slot, self.fields - 1, node);
        if !ok {
            self.failed = true;
        }
        proof {
            let rec = self.record(*slot);
            assert(rec->field_types == rec0->field_types.update(old(self).fields - 1, node@));
            assert forall|k: int| 0 <= k < rec->field_types.len() implies flat(#[trigger] rec->field_types[k]) by {
                if k != old(self).fields - 1 {
                    assert(rec->field_types[k] == rec0->field_types[k]);
                }
            }
            assert(flat(rec));
            if let StructTarget::InSlot(loc) = self.target {
                lemma_replaced(loc, slot0, *slot, target_node(self.target, *slot));
            }
        }
    }

    /// Skips the next field, `key`: enters it like a serialized one, records it as skipped for
    /// this value (in the names' skipped-field stack) and as skippable in the target record;
    /// fails if its index does not fit 32 bits.
    pub fn skip_field(&mut self, names: &mut Names, slot: &mut SchemaBuilderNode, key: &'static str) -> (r: Result<(), TraceError>)
        requires
            old(self).inv(*old(slot)),
        ensures
            old(self).fields > u32::MAX ==> r == Err::<(), TraceError>(TraceError::Limit(TraceLimitError(TraceLimitErrorKind::Members)))
                && *final(self) == *old(self) && *final(slot) == *old(slot) && *final(names) == *old(names),
            old(self).fields <= u32::MAX ==> (r is Ok && {
                let rec = old(self).record(*old(slot));
                let entered = entered_record(rec, old(self).growing, old(self).fields as int, key@);
                let new = final(self).record(*final(slot));
                &&& final(self).inv(*final(slot))
                &&& final(self).fields == old(self).fields + 1
                &&& final(self).skipped == old(self).skipped + 1
                &&& final(self).length == old(self).length
                &&& final(self).failed == old(self).failed
                &&& final(self).header == old(self).header
                &&& final(self).skipped_start == old(self).skipped_start
                &&& final(self).growing == !(!old(self).growing && key_at(rec, old(self).fields as int) == Some(key@))
                &&& new->field_types == entered->field_types
                &&& new->keys == entered->keys
                &&& new->name == entered->name
                &&& new->field_names == entered->field_names
                &&& forall|x: u32| #[trigger] new->skippable.contains(x) <==> entered->skippable.contains(x) || x == old(self).fields
                &&& final(names).skipped@ == old(names).skipped@.push(old(self).fields as u32)
                &&& final(names).wf() == old(names).wf()
                &&& final(names).type_names == old(names).type_names
                &&& final(names).variant_names == old(names).variant_names
                &&& final(names).field_names == old(names).field_names
                &&& final(names).field_name_lists == old(names).field_name_lists
                &&& final(self).target is InSlot ==> final(self).target == old(self).target
                    && replaced_at(old(self).target->InSlot_0, *old(slot), *final(slot), target_node(final(self).target, *final(slot)))
                &&& final(self).target is Detached ==> *final(slot) == *old(slot)
            }),
    {
        if self.fields > 0xffff_ffffusize {
            return Err(TraceError::Limit(TraceLimitError(TraceLimitErrorKind::Members)));
        }
        let skipped = self.fields as u32;
        let index = self.fields;
        let ghost slot0 = *slot;
        let node = self.target.enter_field(slot, &mut self.growing, index, key);
        let ghost slot1 = *slot;
        let ghost t1 = self.target;
        let ghost rec1 = self.record(*slot);
        proof {
            if let StructTarget::InSlot(loc) = self.target {
                crate::slot::lemma_flat_at_location(loc, *slot);
            }
        }
        self.target.put_field(slot, index, node);
        let ghost slot2 = *slot;
        let ghost rec2 = self.record(*slot);
        proof {
            assert(rec2->field_types == rec1->field_types.update(index as int, node@));
            assert(rec2->field_types =~= entered_record(old(self).record(slot0), old(self).growing, index as int, key@)->field_types);
            assert forall|k: int| 0 <= k < rec2->field_types.len() implies flat(#[trigger] rec2->field_types[k]) by {
                if k != index {
                    assert(rec2->field_types[k] == rec1->field_types[k]);
                }
            }
            assert(flat(rec2));
            if let StructTarget::InSlot(loc) = self.target {
                lemma_replaced(loc, slot1, *slot, target_node(self.target, *slot));
            }
        }
        self.fields = index + 1;
        self.skipped = self.skipped + 1;
        names.skipped.push(skipped);
        self.target.add_skippable(slot, skipped);
        proof {
            if let StructTarget::InSlot(loc) = self.target {
                crate::slot::lemma_flat_at_location(loc, *slot);
                lemma_replaced(loc, slot0, slot1, target_node(t1, slot1));
                lemma_replaced_trans(loc, slot0, slot1, slot2, target_node(t1, slot1), target_node(t1, slot2));
                lemma_replaced(loc, slot1, slot2, target_node(t1, slot2));
                lemma_replaced_trans(loc, slot0, slot2, *slot, target_node(t1, slot2), target_node(self.target, *slot));
            }
        }
        Ok(())
    }
}

/// The fields among the first `f` that the skipped-field run `run` does not skip, and how much
/// of the run they used: a field is skipped when it is the next entry of the run.
pub open spec fn presence(run: Seq<u32>, f: int) -> (Seq<u32>, int)
    decreases f,
{
    if f <= 0 {
        (Seq::empty(), 0)
    } else {
        let (out, p) = presence(run, f - 1);
        if 0 <= p < run.len() && run[p] == f - 1 {
            (out, p + 1)
        } else {
            (out.push((f - 1) as u32), p)
        }
    }
}

pub proof fn lemma_presence_used(run: Seq<u32>, f: int)
    ensures
        0 <= presence(run, f).1 <= run.len(),
    decreases f,
{
    if f > 0 {
        lemma_presence_used(run, f - 1);
    }
}

/// The little-endian bytes of each of `s`, in order.
pub open spec fn le_list(s: Seq<u32>) -> Seq<u8>
    decreases s.len(),
{
    if s.len() == 0 {
        Seq::empty()
    } else {
        le_list(s.drop_last()) + le_bytes(s.last())
    }
}

/// The record `rec` with the field name list `f`.
pub open spec fn with_field_names(rec: NodeModel, f: u32) -> NodeModel {
    match rec {
        NodeModel::Record { name, field_types, skippable, keys, .. } =>
            NodeModel::Record { name, field_names: Some(f), field_types, skippable, keys },
        _ => rec,
    }
}

/// `data` with the four bytes at `at` replaced by those of `x`.
pub open spec fn filled(data: Seq<u8>, at: int, x: u32) -> Seq<u8> {
    data.subrange(0, at) + le_bytes(x) + data.subrange(at + 4, data.len() as int)
}

impl StructTarget {
    /// Sets the field name list of the target record.
    pub fn set_field_names(&mut self, slot: &mut SchemaBuilderNode, f: u32)
        requires
            target_valid(*old(self), *old(slot)),
        ensures
            target_valid(*final(self), *final(slot)),
            target_node(*final(self), *final(slot))@ == with_field_names(target_node(*old(self), *old(slot))@, f),
            *final(self) is InSlot <==> *old(self) is InSlot,
            *old(self) is InSlot ==> *final(self) == *old(self)
                && replaced_at((*old(self))->InSlot_0, *old(slot), *final(slot), target_node(*final(self), *final(slot))),
            *old(self) is Detached ==> *final(slot) == *old(slot),
    {
        let ghost slot0 = *slot;
        proof {
            if let StructTarget::InSlot(loc) = *self {
                crate::slot::lemma_flat_at_location(loc, *slot);
            }
        }
        let rec = self.parts(slot);
        match rec {
            SchemaBuilderNode::Record { field_names, .. } => {
                *field_names = Some(f);
            },
            _ => {
                proof {
                    assert(false);
                }
            },
        }
        proof {
            if let StructTarget::InSlot(loc) = *self {
                lemma_replaced(loc, slot0, *slot, target_node(*self, *slot));
            }
        }
    }

    /// The field names of the target record, copied.
    pub fn field_keys(&self, slot: &SchemaBuilderNode) -> (r: Vec<&'static str>)
        requires
            target_valid(*self, *slot),
        ensures
            crate::node::str_models(r@) == target_node(*self, *slot)@->keys.unwrap().fields,
            r@.len() == field_count(target_node(*self, *slot)@),
    {
        match self.target(slot) {
            SchemaBuilderNode::Record { keys: Some(keys), field_types, .. } => {
                proof {
                    crate::node::lemma_models_of(*field_types);
                }
                keys.copy().fields
            },
            _ => {
                proof {
                    assert(false);
                }
                vstd::pervasive::unreached()
            },
        }
    }
}

/// Interns each of `keys` as a field name, then their list; returns the index of the list.
pub fn intern_field_names(names: &mut Names, keys: &Vec<&'static str>) -> (r: Result<u32, TraceError>)
    requires
        old(names).wf(),
    ensures
        final(names).wf(),
        final(names).skipped == old(names).skipped,
        final(names).type_names == old(names).type_names,
        final(names).variant_names == old(names).variant_names,
        r matches Ok(f) ==> f < final(names).field_name_lists@.len() && ({
            let list = final(names).field_name_lists@[f as int];
            &&& list.len() == keys@.len()
            &&& forall|j: int| 0 <= j < keys@.len() ==> #[trigger] list[j] < final(names).field_names@.len()
                && final(names).field_names@[list[j] as int] == keys@[j]@
        }),
        r matches Err(e) ==> e == TraceError::Limit(TraceLimitError(TraceLimitErrorKind::Names))
            || e == TraceError::Limit(TraceLimitError(TraceLimitErrorKind::FieldNameLists)),
        old(names).field_names@.len() + keys@.len() <= u32::MAX
            && old(names).field_name_lists@.len() < u32::MAX ==> r is Ok,
{
    let mut list: Vec<u32> = Vec::new();
    let mut k: usize = 0;
    while k < keys.len()
        invariant
            0 <= k <= keys@.len(),
            names.wf(),
            names.skipped == old(names).skipped,
            names.type_names == old(names).type_names,
            names.variant_names == old(names).variant_names,
            names.field_name_lists == old(names).field_name_lists,
            list@.len() == k,
            names.field_names@.len() <= old(names).field_names@.len() + k,
            forall|j: int| 0 <= j < k ==> #[trigger] list@[j] < names.field_names@.len()
                && names.field_names@[list@[j] as int] == keys@[j]@,
        decreases keys@.len() - k,
    {
        let ghost pool = names.field_names@;
        let index = match names.field_names.intern(keys[k]) {
            Ok(index) => index,
            Err(kind) => {
                assert(old(names).field_names@.len() + keys@.len() > u32::MAX);
                return Err(TraceError::Limit(TraceLimitError(kind)));
            },
        };
        proof {
            assert forall|j: int| 0 <= j < k implies #[trigger] list@[j] < names.field_names@.len()
                && names.field_names@[list@[j] as int] == keys@[j]@ by {
                assert(names.field_names@[list@[j] as int] == pool[list@[j] as int]);
            }
        }
        list.push(index);
        k += 1;
    }
    let ghost list_model = list@;
    match names.field_name_lists.intern(list) {
        Ok(f) => Ok(f),
        Err(kind) => Err(TraceError::Limit(TraceLimitError(kind))),
    }
}

/// Appends the presence list: the indices, as four bytes each, of the first `fields` fields that
/// the run of skipped fields `skipped[start..]` does not skip.
pub fn push_presence(data: &mut Vec<u8>, skipped: &Vec<u32>, start: usize, fields: usize)
    requires
        start <= skipped@.len(),
        fields <= u32::MAX + 1,
    ensures
        final(data)@ == old(data)@ + le_list(presence(skipped@.subrange(start as int, skipped@.len() as int), fields as int).0),
{
    let ghost run = skipped@.subrange(start as int, skipped@.len() as int);
    let ghost data0 = data@;
    let mut p: usize = start;
    let mut field: usize = 0;
    while field < fields
        invariant
            0 <= field <= fields,
            fields <= u32::MAX + 1,
            start <= p <= skipped@.len(),
            run == skipped@.subrange(start as int, skipped@.len() as int),
            presence(run, field as int).1 == p - start,
            data@ == data0 + le_list(presence(run, field as int).0),
        decreases fields - field,
    {
        proof {
            lemma_presence_used(run, field as int);
        }
        if p < skipped.len() && skipped[p] as usize == field {
            p += 1;
        } else {
            push_u32(data, field as u32);
            proof {
                let out = presence(run, field as int).0;
                assert(out.push(field as u32).drop_last() =~= out);
                assert(le_list(out.push(field as u32)) == le_list(out) + le_bytes(field as u32));
                assert(data@ =~= data0 + le_list(out.push(field as u32)));
            }
        }
        field += 1;
    }
}

impl StructTarget {
    /// The field name list of the target record, set (interning its field names and their list)
    /// if it has none yet.
    pub fn finish_field_names(&mut self, names: &mut Names, slot: &mut SchemaBuilderNode) -> (r: Result<u32, TraceError>)
        requires
            target_valid(*old(self), *old(slot)),
            old(names).wf(),
        ensures
            final(names).wf(),
            final(names).skipped == old(names).skipped,
            target_valid(*final(self), *final(slot)),
            *final(self) is InSlot <==> *old(self) is InSlot,
            *old(self) is InSlot ==> *final(self) == *old(self)
                && replaced_at((*old(self))->InSlot_0, *old(slot), *final(slot), target_node(*final(self), *final(slot))),
            *old(self) is Detached ==> *final(slot) == *old(slot),
            r matches Ok(f) ==> {
                let rec = target_node(*old(self), *old(slot))@;
                &&& target_node(*final(self), *final(slot))@ == with_field_names(rec, f)
                &&& (rec->field_names matches Some(f0) ==> f == f0)
                &&& (rec->field_names is None ==> f < final(names).field_name_lists@.len() && ({
                    let list = final(names).field_name_lists@[f as int];
                    let keys = rec->keys.unwrap().fields;
                    &&& list.len() == keys.len()
                    &&& forall|j: int| 0 <= j < keys.len() ==> #[trigger] list[j] < final(names).field_names@.len()
                        && final(names).field_names@[list[j] as int] == keys[j]
                }))
            },
            r matches Err(e) ==> e == TraceError::Limit(TraceLimitError(TraceLimitErrorKind::Names))
                || e == TraceError::Limit(TraceLimitError(TraceLimitErrorKind::FieldNameLists)),
            ({
                let rec = target_node(*old(self), *old(slot))@;
                rec->field_names is Some || (old(names).field_names@.len() + field_count(rec) <= u32::MAX
                    && old(names).field_name_lists@.len() < u32::MAX)
            }) ==> r is Ok,
    {
        let ghost rec = target_node(*self, *slot)@;
        let ghost slot0 = *slot;
        proof {
            if let StructTarget::InSlot(loc) = *self {
                lemma_replaced_same(loc, slot0);
            }
        }
        let existing = match self.target(slot) {
            SchemaBuilderNode::Record { field_names, .. } => *field_names,
            _ => {
                proof {
                    assert(false);
                }
                None
            },
        };
        match existing {
            Some(f) => {
                proof {
                    assert(with_field_names(rec, f) == rec);
                    if let StructTarget::InSlot(loc) = *self {
                        if let (Location::Member(i), SchemaBuilderNode::Union(ms)) = (loc, slot0) {
                            assert(target_node(*self, *slot) == ms@[i as int]);
                            assert(ms@.update(i as int, ms@[i as int]) =~= ms@);
                            assert(replaced_at(loc, slot0, *slot, target_node(*self, *slot)));
                        }
                    }
                }
                Ok(f)
            },
            None => {
                let keys = self.field_keys(slot);
                let f = match intern_field_names(names, &keys) {
                    Ok(f) => f,
                    Err(e) => return Err(e),
                };
                self.set_field_names(slot, f);
                proof {
                    assert forall|j: int| 0 <= j < keys@.len() implies #[trigger] keys@[j]@ == rec->keys.unwrap().fields[j] by {
                        assert(crate::node::str_models(keys@)[j] == keys@[j]@);
                    }
                }
                Ok(f)
            },
        }
    }
}

/// The size of a struct's trace header after its names: the field name list, the number of
/// serialized fields and the presence list offset.
pub const STRUCT_HEADER_SIZE: usize = 12;

impl StructState {
    /// Whether the record a struct's fields went into must be detached at the end, because the
    /// recorded struct has more fields than this value.
    pub open spec fn detaches_at_end(&self, slot: SchemaBuilderNode) -> bool {
        !self.growing && field_count(self.record(slot)) != self.fields
    }

    /// The record a struct's fields went into, after detaching it if needed.
    pub open spec fn final_record(&self, slot: SchemaBuilderNode) -> NodeModel {
        if self.detaches_at_end(slot) {
            detached(self.record(slot), self.fields as int)
        } else {
            self.record(slot)
        }
    }

    /// Ends the struct: checks that as many fields were serialized as declared (and none failed),
    /// gives the record its field name list (interning the names the first time), fills the
    /// header and appends the presence list if a field was skipped, and adds a detached record
    /// to the slot.
    pub fn end(self, data: &mut Vec<u8>, names: &mut Names, slot: &mut SchemaBuilderNode) -> (r: Result<(), TraceError>)
        requires
            self.inv(*old(slot)),
            old(names).wf(),
            self.header + STRUCT_HEADER_SIZE <= old(data)@.len(),
            self.header <= u32::MAX,
            self.skipped_start <= old(names).skipped@.len(),
            self.fields <= u32::MAX + 1,
        ensures
            final(names).wf(),
            flat(final(slot)@),
            (r == Err::<(), TraceError>(TraceError::LengthMismatch)) <==> (self.failed || self.fields - self.skipped != self.length
                || old(names).skipped@.len() - self.skipped_start != self.skipped),
            r == Err::<(), TraceError>(TraceError::Limit(TraceLimitError(TraceLimitErrorKind::Values)))
                ==> self.skipped > 0 && old(data)@.len() - self.header - STRUCT_HEADER_SIZE >= ALL_FIELDS_PRESENT,
            ({
                let rec = self.final_record(*old(slot));
                &&& !self.failed
                &&& self.fields - self.skipped == self.length
                &&& old(names).skipped@.len() - self.skipped_start == self.skipped
                &&& self.skipped > 0 ==> old(data)@.len() - self.header - STRUCT_HEADER_SIZE < ALL_FIELDS_PRESENT
                &&& rec->field_names is Some || (old(names).field_names@.len() + field_count(rec) <= u32::MAX
                    && old(names).field_name_lists@.len() < u32::MAX)
            }) ==> r is Ok,
            r matches Err(e) ==> (e == TraceError::LengthMismatch
                || e == TraceError::Limit(TraceLimitError(TraceLimitErrorKind::Names))
                || e == TraceError::Limit(TraceLimitError(TraceLimitErrorKind::FieldNameLists))
                || e == TraceError::Limit(TraceLimitError(TraceLimitErrorKind::Values))),
            r is Ok ==> {
                let rec = self.final_record(*old(slot));
                let run = old(names).skipped@.subrange(self.skipped_start as int, old(names).skipped@.len() as int);
                &&& !self.failed
                &&& self.fields - self.skipped == self.length
                &&& run.len() == self.skipped
                &&& self.skipped > 0 ==> old(data)@.len() - self.header - STRUCT_HEADER_SIZE < ALL_FIELDS_PRESENT
                &&& exists|f: u32| {
                    let done = with_field_names(rec, f);
                    &&& (rec->field_names matches Some(f0) ==> f == f0)
                    &&& (rec->field_names is None ==> f < final(names).field_name_lists@.len() && ({
                        let list = final(names).field_name_lists@[f as int];
                        let keys = rec->keys.unwrap().fields;
                        &&& list.len() == keys.len()
                        &&& forall|j: int| 0 <= j < keys.len() ==> #[trigger] list[j] < final(names).field_names@.len()
                            && final(names).field_names@[list[j] as int] == keys[j]
                    }))
                    &&& self.skipped == 0 ==> final(data)@ == #[trigger] filled(old(data)@, self.header as int, f)
                    &&& self.skipped > 0 ==> final(data)@ == filled(filled(old(data)@, self.header as int, f),
                        self.header + 8, (old(data)@.len() - self.header - STRUCT_HEADER_SIZE) as u32)
                        + le_list(presence(run, self.fields as int).0)
                    &&& (self.target is InSlot && !self.detaches_at_end(*old(slot))) ==>
                        replaced_at(self.target->InSlot_0, *old(slot), *final(slot), at_location(self.target->InSlot_0, *final(slot)))
                        && at_location(self.target->InSlot_0, *final(slot))@ == done
                    &&& (self.target is Detached || self.detaches_at_end(*old(slot))) ==>
                        crate::node::subsumes(final(slot)@, old(slot)@) && crate::node::subsumes(final(slot)@, done)
                }
                &&& final(names).skipped@ == old(names).skipped@.subrange(0, self.skipped_start as int)
            },
    {
        let mut st = self;
        let ghost slot0 = *slot;
        let ghost data0 = data@;
        let ghost run = names.skipped@.subrange(st.skipped_start as int, names.skipped@.len() as int);
        let count = names.skipped.len() - st.skipped_start;
        if st.failed || st.fields - st.skipped != st.length || count != st.skipped {
            return Err(TraceError::LengthMismatch);
        }
        proof {
            if let StructTarget::InSlot(loc) = st.target {
                crate::slot::lemma_flat_at_location(loc, *slot);
            }
        }
        let ghost detaching = st.detaches_at_end(*slot);
        if !st.growing {
            let recorded = match st.target.target(slot) {
                SchemaBuilderNode::Record { field_types, .. } => field_types.len(),
                _ => {
                    proof {
                        assert(false);
                    }
                    0
                },
            };
            proof {
                crate::node::lemma_models_of(target_node(st.target, *slot)->field_types);
            }
            if recorded != st.fields {
                st.target.detach(&*slot, st.fields);
            }
        }
        let ghost rec = target_node(st.target, *slot)@;
        proof {
            assert(rec == self.final_record(slot0));
            if let StructTarget::InSlot(loc) = st.target {
                crate::slot::lemma_flat_at_location(loc, *slot);
            }
        }
        let ghost slot1 = *slot;
        let field_names = match st.target.finish_field_names(names, slot) {
            Ok(f) => f,
            Err(e) => return Err(e),
        };
        proof {
            if let StructTarget::InSlot(loc) = st.target {
                crate::slot::lemma_flat_at_location(loc, *slot);
            }
        }
        let bytes = crate::trace::u32_le_bytes(field_names);
        crate::trace::fill_reserved_bytes(data, st.header, &bytes);
        proof {
            assert(data@ =~= filled(data0, st.header as int, field_names));
        }
        let ghost data1 = data@;
        if st.skipped > 0 {
            let offset = data.len() - (st.header + STRUCT_HEADER_SIZE);
            if offset >= 0xffff_ffffusize {
                return Err(TraceError::Limit(TraceLimitError(TraceLimitErrorKind::Values)));
            }
            let offset_bytes = crate::trace::u32_le_bytes(offset as u32);
            crate::trace::fill_reserved_bytes(data, st.header + 8, &offset_bytes);
            proof {
                assert(data@ =~= filled(data1, st.header + 8, offset as u32));
            }
            push_presence(data, &names.skipped, st.skipped_start, st.fields);
            names.skipped.truncate(st.skipped_start);
        } else {
            proof {
                assert(names.skipped@ =~= old(names).skipped@.subrange(0, st.skipped_start as int));
            }
        }
        let ghost slot2 = *slot;
        let ghost done = with_field_names(rec, field_names);
        proof {
            assert(target_node(st.target, *slot)@ == done);
            if let StructTarget::InSlot(loc) = st.target {
                assert(slot1 == slot0);
                lemma_replaced(loc, slot1, *slot, target_node(st.target, *slot));
            }
        }
        match st.target {
            StructTarget::Detached(node) => {
                slot.union(node);
            },
            StructTarget::InSlot(_) => {},
        }
        proof {
            assert(filled(data0, self.header as int, field_names) == data1);
        }
        Ok(())
    }
}

} // verus!

verus! {

/// A field's round trip grows its record: taking the type of field `i` out of the struct record
/// `rec` (leaving the empty union, as entering a recorded field does) and putting back a type
/// that describes all the taken-out type did (as ending the field does, once a value was traced
/// into it) gives a record that describes all `rec` did.
pub proof fn law_field_round_grows(rec: NodeModel, i: int, t: NodeModel)
    requires
        rec is Record,
        0 <= i < rec->field_types.len(),
        subsumes(t, rec->field_types[i]),
    ensures
        subsumes(set_field(set_field(rec, i, bottom()), i, t), rec),
{
    let ft = rec->field_types;
    let ft2 = ft.update(i, bottom()).update(i, t);
    assert forall|k: int| 0 <= k < ft.len() implies subsumes(#[trigger] ft2[k], ft[k]) by {
        if k != i {
            assert(ft2[k] == ft[k]);
        }
    }
    lemma_subsumes_record(rec->name, rec->field_names, ft, rec->skippable, rec->keys, ft2, rec->skippable, rec->keys);
}

} // verus!

verus! {

/// What the presence list lists, field by field: after the first `f` fields, the run's entries
/// below `f` are used up and the list holds, in increasing order, the fields below `f` that the
/// run does not skip.
proof fn lemma_presence_prefix(run: Seq<u32>, f: int)
    requires
        0 <= f <= u32::MAX + 1,
        crate::sorted::strictly_sorted(run),
    ensures
        ({
            let (out, p) = presence(run, f);
            &&& 0 <= p <= run.len()
            &&& forall|k: int| 0 <= k < p ==> #[trigger] run[k] < f
            &&& p < run.len() ==> run[p] >= f
            &&& crate::sorted::strictly_sorted(out)
            &&& forall|x: u32| #[trigger] out.contains(x) <==> (x < f && !run.contains(x))
            &&& out.len() == f - p
        }),
    decreases f,
{
    if f > 0 {
        lemma_presence_prefix(run, f - 1);
        let (out0, p0) = presence(run, f - 1);
        let (out, p) = presence(run, f);
        if 0 <= p0 < run.len() && run[p0] == f - 1 {
            assert forall|k: int| 0 <= k < p implies #[trigger] run[k] < f by {
                if k < p0 {
                    assert(run[k] < f - 1);
                }
            }
            if p < run.len() {
                assert(run[p0] < run[p]);
            }
            assert forall|x: u32| #[trigger] out.contains(x) <==> (x < f && !run.contains(x)) by {
                if x == f - 1 {
                    assert(run.contains(run[p0]));
                    assert(!out0.contains(x));
                }
            }
        } else {
            let y = (f - 1) as u32;
            assert(y == f - 1);
            assert(out == out0.push(y));
            assert(p == p0);
            assert(!run.contains(y)) by {
                if run.contains(y) {
                    let k = choose|k: int| 0 <= k < run.len() && run[k] == y;
                    if k < p0 {
                        assert(run[k] < f - 1);
                    } else if k > p0 {
                        assert(run[p0] < run[k]);
                    }
                }
            }
            if p0 < run.len() {
                assert(run[p0] >= f);
            }
            assert forall|i: int, j: int| 0 <= i < j < out.len() implies out[i] < out[j] by {
                if j == out.len() - 1 {
                    assert(out[i] == out0[i]);
                    assert(out0.contains(out0[i]));
                } else {
                    assert(out[i] == out0[i] && out[j] == out0[j]);
                }
            }
            assert forall|x: u32| #[trigger] out.contains(x) <==> (x < f && !run.contains(x)) by {
                if out.contains(x) {
                    let k = choose|k: int| 0 <= k < out.len() && out[k] == x;
                    if k < out0.len() {
                        assert(out0[k] == x);
                        assert(out0.contains(x));
                    } else {
                        assert(x == y);
                    }
                }
                if x < f && !run.contains(x) {
                    if x == y {
                        assert(out[out.len() - 1] == y);
                    } else {
                        assert(x < f - 1);
                        assert(out0.contains(x));
                        let k = choose|k: int| 0 <= k < out0.len() && out0[k] == x;
                        assert(out[k] == x);
                    }
                }
            }
        }
    }
}

/// The presence list lists exactly the serialized fields: for a run of skipped fields in
/// increasing order, all below the number `n` of fields seen, it holds in increasing order every
/// field below `n` that the run does not hold, and no other; so it has `n` minus the number of
/// skipped fields entries (the declared number of serialized fields, when the counts match), and
/// the whole run is used up.
pub proof fn law_presence_lists_serialized_fields(run: Seq<u32>, n: int)
    requires
        0 <= n <= u32::MAX + 1,
        crate::sorted::strictly_sorted(run),
        forall|k: int| 0 <= k < run.len() ==> #[trigger] run[k] < n,
    ensures
        crate::sorted::strictly_sorted(presence(run, n).0),
        forall|x: u32| #[trigger] presence(run, n).0.contains(x) <==> (x < n && !run.contains(x)),
        presence(run, n).0.len() == n - run.len(),
        presence(run, n).1 == run.len(),
{
    lemma_presence_prefix(run, n);
    let p = presence(run, n).1;
    if p < run.len() {
        assert(run[p] < n);
    }
}

} // verus!
