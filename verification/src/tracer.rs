//! Tracing one value: its bytes are appended to the trace and its type is merged, in place, into
//! a slot of the schema under construction.

use vstd::prelude::*;
use vstd::string::StringSliceAdditionalSpecFns;
use crate::builder::Names;
use crate::error::{TraceError, TraceLimitError, TraceLimitErrorKind};
use crate::indices::TypeName;
use crate::node::{describes, flat, is_leaf, subsumes, NodeModel, SchemaBuilderNode, ValueShape};
use crate::slot::{
    at_location, lemma_flat_at_location, lemma_replace_at, locate, location_valid, merge_leaf, replaced_at,
    str_opt_model, Location, Matcher,
};
use crate::trace::{kind_code, le_bytes, push_u32, TraceNodeKind};

verus! {

/// The number of little-endian bytes of a scalar of kind `kind`, for the kinds that are scalars.
pub open spec fn scalar_width(kind: TraceNodeKind) -> Option<nat> {
    match kind {
        TraceNodeKind::Bool => Some(1),
        TraceNodeKind::I8 => Some(1),
        TraceNodeKind::I16 => Some(2),
        TraceNodeKind::I32 => Some(4),
        TraceNodeKind::I64 => Some(8),
        TraceNodeKind::I128 => Some(16),
        TraceNodeKind::U8 => Some(1),
        TraceNodeKind::U16 => Some(2),
        TraceNodeKind::U32 => Some(4),
        TraceNodeKind::U64 => Some(8),
        TraceNodeKind::U128 => Some(16),
        TraceNodeKind::F32 => Some(4),
        TraceNodeKind::F64 => Some(8),
        _ => None,
    }
}

/// The schema node of the values of a scalar kind.
pub open spec fn scalar_model(kind: TraceNodeKind) -> NodeModel {
    match kind {
        TraceNodeKind::Bool => NodeModel::Bool,
        TraceNodeKind::I8 => NodeModel::I8,
        TraceNodeKind::I16 => NodeModel::I16,
        TraceNodeKind::I32 => NodeModel::I32,
        TraceNodeKind::I64 => NodeModel::I64,
        TraceNodeKind::I128 => NodeModel::I128,
        TraceNodeKind::U8 => NodeModel::U8,
        TraceNodeKind::U16 => NodeModel::U16,
        TraceNodeKind::U32 => NodeModel::U32,
        TraceNodeKind::U64 => NodeModel::U64,
        TraceNodeKind::U128 => NodeModel::U128,
        TraceNodeKind::F32 => NodeModel::F32,
        _ => NodeModel::F64,
    }
}

/// Whether `after` is `before` with the node without children `node` merged in: still flat, and
/// describing exactly what either described.
pub open spec fn leaf_merged(before: NodeModel, after: NodeModel, node: NodeModel) -> bool {
    &&& flat(after)
    &&& forall|v: ValueShape| #[trigger] describes(after, v) <==> describes(before, v) || describes(node, v)
}

/// The schema node of the values of a scalar kind.
fn scalar_node(kind: TraceNodeKind) -> (r: SchemaBuilderNode)
    requires
        scalar_width(kind) is Some,
    ensures
        r@ == scalar_model(kind),
        is_leaf(r@),
{
    match kind {
        TraceNodeKind::Bool => SchemaBuilderNode::Bool,
        TraceNodeKind::I8 => SchemaBuilderNode::I8,
        TraceNodeKind::I16 => SchemaBuilderNode::I16,
        TraceNodeKind::I32 => SchemaBuilderNode::I32,
        TraceNodeKind::I64 => SchemaBuilderNode::I64,
        TraceNodeKind::I128 => SchemaBuilderNode::I128,
        TraceNodeKind::U8 => SchemaBuilderNode::U8,
        TraceNodeKind::U16 => SchemaBuilderNode::U16,
        TraceNodeKind::U32 => SchemaBuilderNode::U32,
        TraceNodeKind::U64 => SchemaBuilderNode::U64,
        TraceNodeKind::U128 => SchemaBuilderNode::U128,
        TraceNodeKind::F32 => SchemaBuilderNode::F32,
        _ => SchemaBuilderNode::F64,
    }
}

/// Appends `bytes`.
pub fn append_bytes(data: &mut Vec<u8>, bytes: &[u8])
    ensures
        final(data)@ == old(data)@ + bytes@,
{
    data.extend_from_slice(bytes);
    assert(data@ =~= old(data)@ + bytes@);
}

/// Appends the byte of `kind`.
pub fn push_trace(data: &mut Vec<u8>, kind: TraceNodeKind)
    ensures
        final(data)@ == old(data)@.push(kind_code(kind)),
{
    data.push(kind.code());
}

/// Appends `length` as four bytes; fails if it does not fit 32 bits.
pub fn push_u32_length(data: &mut Vec<u8>, length: usize) -> (r: Result<(), TraceLimitErrorKind>)
    ensures
        length <= u32::MAX ==> r is Ok && final(data)@ == old(data)@ + le_bytes(length as u32),
        length > u32::MAX ==> r == Err::<(), TraceLimitErrorKind>(TraceLimitErrorKind::Values)
            && final(data)@ == old(data)@,
{
    if length > 0xffff_ffffusize {
        return Err(TraceLimitErrorKind::Values);
    }
    push_u32(data, length as u32);
    Ok(())
}

/// Appends the length of `bytes` as four bytes, then `bytes`; fails if the length does not fit
/// 32 bits.
pub fn push_length_bytes(data: &mut Vec<u8>, bytes: &[u8]) -> (r: Result<(), TraceLimitErrorKind>)
    ensures
        bytes@.len() <= u32::MAX ==> r is Ok
            && final(data)@ == old(data)@ + le_bytes(bytes@.len() as u32) + bytes@,
        bytes@.len() > u32::MAX ==> r == Err::<(), TraceLimitErrorKind>(TraceLimitErrorKind::Values)
            && final(data)@ == old(data)@,
{
    match push_u32_length(data, bytes.len()) {
        Ok(()) => {},
        Err(e) => return Err(e),
    }
    append_bytes(data, bytes);
    Ok(())
}

/// Reserves four bytes for a length filled in later, and returns where they are; fails if that
/// offset does not fit 32 bits.
pub fn reserve_u32(data: &mut Vec<u8>) -> (r: Result<u32, TraceLimitErrorKind>)
    ensures
        old(data)@.len() <= u32::MAX ==> r == Ok::<u32, TraceLimitErrorKind>(old(data)@.len() as u32)
            && final(data)@ == old(data)@ + seq![0xffu8, 0xffu8, 0xffu8, 0xffu8],
        old(data)@.len() > u32::MAX ==> r == Err::<u32, TraceLimitErrorKind>(TraceLimitErrorKind::Values)
            && final(data)@ == old(data)@,
{
    let length = data.len();
    if length > 0xffff_ffffusize {
        return Err(TraceLimitErrorKind::Values);
    }
    let reserved: [u8; 4] = [0xff, 0xff, 0xff, 0xff];
    append_bytes(data, &reserved);
    assert(reserved@ =~= seq![0xffu8, 0xffu8, 0xffu8, 0xffu8]);
    Ok(length as u32)
}

/// The name `name` interned and appended; the type name of a struct.
pub fn push_struct_name(data: &mut Vec<u8>, names: &mut Names, name: &'static str) -> (r: Result<TypeName, TraceLimitErrorKind>)
    requires
        old(names).wf(),
    ensures
        final(names).wf(),
        final(names).field_name_lists == old(names).field_name_lists,
        final(names).field_names == old(names).field_names,
        final(names).variant_names == old(names).variant_names,
        final(names).skipped == old(names).skipped,
        old(names).type_names@.contains(name@) ==> final(names).type_names@ == old(names).type_names@,
        !old(names).type_names@.contains(name@) ==> final(names).type_names@ == old(names).type_names@.push(name@),
        match r {
            Ok(TypeName(n, v)) => {
                &&& v is None
                &&& n < final(names).type_names@.len()
                &&& final(names).type_names@[n as int] == name@
                &&& final(data)@ == old(data)@ + le_bytes(n)
            },
            Err(kind) => kind == TraceLimitErrorKind::Names && final(data)@ == old(data)@,
        },
{
    let name = match names.type_names.intern(name) {
        Ok(name) => name,
        Err(e) => return Err(e),
    };
    push_u32(data, name);
    Ok(TypeName(name, None))
}

/// The names `name` and `variant` interned and appended; the type name of an enum variant.
pub fn push_variant_name(
    data: &mut Vec<u8>,
    names: &mut Names,
    name: &'static str,
    variant: &'static str,
) -> (r: Result<TypeName, TraceLimitErrorKind>)
    requires
        old(names).wf(),
    ensures
        final(names).wf(),
        final(names).field_name_lists == old(names).field_name_lists,
        final(names).field_names == old(names).field_names,
        final(names).skipped == old(names).skipped,
        match r {
            Ok(TypeName(n, v)) => {
                &&& v is Some
                &&& n < final(names).type_names@.len()
                &&& final(names).type_names@[n as int] == name@
                &&& v.unwrap() < final(names).variant_names@.len()
                &&& final(names).variant_names@[v.unwrap() as int] == variant@
                &&& final(data)@ == old(data)@ + le_bytes(n) + le_bytes(v.unwrap())
            },
            Err(kind) => kind == TraceLimitErrorKind::Names && final(data)@ == old(data)@,
        },
{
    let name = match names.type_names.intern(name) {
        Ok(name) => name,
        Err(e) => return Err(e),
    };
    let variant = match names.variant_names.intern(variant) {
        Ok(variant) => variant,
        Err(e) => return Err(e),
    };
    push_u32(data, name);
    push_u32(data, variant);
    Ok(TypeName(name, Some(variant)))
}

/// Traces a scalar: its kind byte, then its little-endian `bytes`.
pub fn trace_scalar(data: &mut Vec<u8>, slot: &mut SchemaBuilderNode, kind: TraceNodeKind, bytes: &[u8])
    requires
        scalar_width(kind) == Some(bytes@.len()),
        flat(old(slot)@),
    ensures
        final(data)@ == old(data)@.push(kind_code(kind)) + bytes@,
        leaf_merged(old(slot)@, final(slot)@, scalar_model(kind)),
{
    push_trace(data, kind);
    append_bytes(data, bytes);
    let node = scalar_node(kind);
    merge_leaf(slot, node);
}

/// Traces a `char`: its kind byte, then its code point as four bytes.
pub fn trace_char(data: &mut Vec<u8>, slot: &mut SchemaBuilderNode, value: char)
    requires
        flat(old(slot)@),
    ensures
        final(data)@ == old(data)@.push(kind_code(TraceNodeKind::Char)) + le_bytes(value as u32),
        leaf_merged(old(slot)@, final(slot)@, NodeModel::Char),
{
    push_trace(data, TraceNodeKind::Char);
    push_u32(data, value as u32);
    merge_leaf(slot, SchemaBuilderNode::Char);
}

/// Traces a string: its kind byte, then its length and UTF-8 bytes; fails if the length does not
/// fit 32 bits.
pub fn trace_str(data: &mut Vec<u8>, slot: &mut SchemaBuilderNode, value: &str) -> (r: Result<(), TraceError>)
    requires
        flat(old(slot)@),
    ensures
        r is Ok <==> value.spec_bytes().len() <= u32::MAX,
        r is Ok ==> final(data)@ == old(data)@.push(kind_code(TraceNodeKind::String))
            + le_bytes(value.spec_bytes().len() as u32) + value.spec_bytes(),
        r is Ok ==> leaf_merged(old(slot)@, final(slot)@, NodeModel::String),
        r is Err ==> r == Err::<(), TraceError>(TraceError::Limit(TraceLimitError(TraceLimitErrorKind::Values)))
            && value.spec_bytes().len() > u32::MAX && *final(slot) == *old(slot),
{
    push_trace(data, TraceNodeKind::String);
    match push_length_bytes(data, value.as_bytes()) {
        Ok(()) => {},
        Err(kind) => return Err(TraceError::Limit(TraceLimitError(kind))),
    }
    merge_leaf(slot, SchemaBuilderNode::String);
    Ok(())
}

/// Traces a byte array: its kind byte, then its length and bytes; fails if the length does not
/// fit 32 bits.
pub fn trace_bytes(data: &mut Vec<u8>, slot: &mut SchemaBuilderNode, value: &[u8]) -> (r: Result<(), TraceError>)
    requires
        flat(old(slot)@),
    ensures
        value@.len() <= u32::MAX ==> r is Ok
            && final(data)@ == old(data)@.push(kind_code(TraceNodeKind::Bytes)) + le_bytes(value@.len() as u32) + value@
            && leaf_merged(old(slot)@, final(slot)@, NodeModel::Bytes),
        value@.len() > u32::MAX ==> r == Err::<(), TraceError>(TraceError::Limit(TraceLimitError(TraceLimitErrorKind::Values)))
            && *final(slot) == *old(slot),
{
    push_trace(data, TraceNodeKind::Bytes);
    match push_length_bytes(data, value) {
        Ok(()) => {},
        Err(kind) => return Err(TraceError::Limit(TraceLimitError(kind))),
    }
    merge_leaf(slot, SchemaBuilderNode::Bytes);
    Ok(())
}

/// Traces `None`: its kind byte alone.
pub fn trace_none(data: &mut Vec<u8>, slot: &mut SchemaBuilderNode)
    requires
        flat(old(slot)@),
    ensures
        final(data)@ == old(data)@.push(kind_code(TraceNodeKind::OptionNone)),
        leaf_merged(old(slot)@, final(slot)@, NodeModel::OptionNone),
{
    push_trace(data, TraceNodeKind::OptionNone);
    merge_leaf(slot, SchemaBuilderNode::OptionNone);
}

/// Traces `()`: its kind byte alone.
pub fn trace_unit(data: &mut Vec<u8>, slot: &mut SchemaBuilderNode)
    requires
        flat(old(slot)@),
    ensures
        final(data)@ == old(data)@.push(kind_code(TraceNodeKind::Unit)),
        leaf_merged(old(slot)@, final(slot)@, NodeModel::Unit(None)),
{
    push_trace(data, TraceNodeKind::Unit);
    merge_leaf(slot, SchemaBuilderNode::Unit(None));
}

/// Traces a unit struct: its kind byte, then its interned name.
pub fn trace_unit_struct(
    data: &mut Vec<u8>,
    names: &mut Names,
    slot: &mut SchemaBuilderNode,
    name: &'static str,
) -> (r: Result<(), TraceError>)
    requires
        flat(old(slot)@),
        old(names).wf(),
    ensures
        final(names).wf(),
        final(names).skipped == old(names).skipped,
        match r {
            Ok(()) => exists|n: u32| {
                &&& n < final(names).type_names@.len()
                &&& #[trigger] final(names).type_names@[n as int] == name@
                &&& final(data)@ == old(data)@.push(kind_code(TraceNodeKind::UnitStruct)) + le_bytes(n)
                &&& leaf_merged(old(slot)@, final(slot)@, NodeModel::Unit(Some(TypeName(n, None))))
            },
            Err(e) => e == TraceError::Limit(TraceLimitError(TraceLimitErrorKind::Names))
                && *final(slot) == *old(slot),
        },
{
    push_trace(data, TraceNodeKind::UnitStruct);
    let name = match push_struct_name(data, names, name) {
        Ok(name) => name,
        Err(kind) => return Err(TraceError::Limit(TraceLimitError(kind))),
    };
    merge_leaf(slot, SchemaBuilderNode::Unit(Some(name)));
    Ok(())
}

/// Traces a unit variant: its kind byte, then its interned enum and variant names.
pub fn trace_unit_variant(
    data: &mut Vec<u8>,
    names: &mut Names,
    slot: &mut SchemaBuilderNode,
    name: &'static str,
    variant: &'static str,
) -> (r: Result<(), TraceError>)
    requires
        flat(old(slot)@),
        old(names).wf(),
    ensures
        final(names).wf(),
        final(names).skipped == old(names).skipped,
        match r {
            Ok(()) => exists|n: u32, v: u32| {
                &&& n < final(names).type_names@.len()
                &&& #[trigger] final(names).type_names@[n as int] == name@
                &&& v < final(names).variant_names@.len()
                &&& #[trigger] final(names).variant_names@[v as int] == variant@
                &&& final(data)@ == old(data)@.push(kind_code(TraceNodeKind::UnitVariant)) + le_bytes(n) + le_bytes(v)
                &&& leaf_merged(old(slot)@, final(slot)@, NodeModel::Unit(Some(TypeName(n, Some(v)))))
            },
            Err(e) => e == TraceError::Limit(TraceLimitError(TraceLimitErrorKind::Names))
                && *final(slot) == *old(slot),
        },
{
    push_trace(data, TraceNodeKind::UnitVariant);
    let name = match push_variant_name(data, names, name, variant) {
        Ok(name) => name,
        Err(kind) => return Err(TraceError::Limit(TraceLimitError(kind))),
    };
    merge_leaf(slot, SchemaBuilderNode::Unit(Some(name)));
    Ok(())
}

} // verus!

verus! {

/// Whether the slot `after` still records all `before` did, and is flat.
pub open spec fn grows(before: NodeModel, after: NodeModel) -> bool {
    flat(after) && subsumes(after, before)
}

/// Replacing the node at `loc` of `mid` by a node that grows it grows `mid`, and makes it describe
/// all the new node does.
pub proof fn lemma_replace_grows(loc: Location, mid: SchemaBuilderNode)
    requires
        location_valid(loc, mid),
        flat(mid@),
    ensures
        forall|fin: SchemaBuilderNode, target: SchemaBuilderNode| #[trigger] replaced_at(loc, mid, fin, target)
            && grows(at_location(loc, mid)@, target@) && !(target@ is Union)
            ==> grows(mid@, fin@) && (forall|v: ValueShape| #[trigger] describes(target@, v) ==> describes(fin@, v)),
{
    assert forall|fin: SchemaBuilderNode, target: SchemaBuilderNode| #[trigger] replaced_at(loc, mid, fin, target)
        && grows(at_location(loc, mid)@, target@) && !(target@ is Union)
        implies grows(mid@, fin@) && (forall|v: ValueShape| #[trigger] describes(target@, v) ==> describes(fin@, v)) by {
        lemma_replace_at(loc, mid, fin, target);
    }
}

/// An option of a node that grows grows.
pub proof fn lemma_option_grows(a: NodeModel)
    ensures
        forall|c: NodeModel| #[trigger] grows(a, c) ==> grows(
            NodeModel::OptionSome(Box::new(a)),
            NodeModel::OptionSome(Box::new(c)),
        ),
        forall|c: NodeModel, x: ValueShape| #![trigger grows(a, c), describes(c, x)]
            grows(a, c) && describes(c, x)
            ==> describes(NodeModel::OptionSome(Box::new(c)), ValueShape::Present(Box::new(x))),
{
    assert forall|c: NodeModel| #[trigger] grows(a, c) implies grows(
        NodeModel::OptionSome(Box::new(a)),
        NodeModel::OptionSome(Box::new(c)),
    ) by {
        crate::node::lemma_subsumes_option(a, a, c);
    }
}

/// Traces `Some`: its kind byte. The value inside is traced next, into the returned slot.
pub fn trace_some<'a>(data: &mut Vec<u8>, slot: &'a mut SchemaBuilderNode) -> (r: &'a mut SchemaBuilderNode)
    requires
        flat(old(slot)@),
    ensures
        final(data)@ == old(data)@.push(kind_code(TraceNodeKind::OptionSome)),
        flat(r@),
        grows(r@, final(r)@) ==> grows(old(slot)@, final(slot)@),
        forall|x: ValueShape| #[trigger] describes(final(r)@, x) && grows(r@, final(r)@)
            ==> describes(final(slot)@, ValueShape::Present(Box::new(x))),
{
    push_trace(data, TraceNodeKind::OptionSome);
    let loc = locate(slot, &Matcher::OptionSome);
    let ghost mid = *slot;
    proof {
        lemma_flat_at_location(loc, mid);
        lemma_replace_grows(loc, mid);
    }
    let node = loc.get(slot);
    match node {
        SchemaBuilderNode::OptionSome(inner) => {
            proof {
                lemma_option_grows((**inner)@);
            }
            &mut **inner
        },
        _ => {
            proof {
                assert(false);
            }
            vstd::pervasive::unreached()
        },
    }
}

/// A newtype of a node that grows grows, and describes each value its inner node does.
pub proof fn lemma_newtype_grows(n: TypeName, a: NodeModel)
    ensures
        forall|c: NodeModel| #[trigger] grows(a, c) ==> grows(
            NodeModel::Newtype(n, Box::new(a)),
            NodeModel::Newtype(n, Box::new(c)),
        ),
        forall|c: NodeModel, x: ValueShape| #![trigger grows(a, c), describes(c, x)]
            grows(a, c) && describes(c, x)
            ==> describes(NodeModel::Newtype(n, Box::new(c)), ValueShape::Newtype(n, Box::new(x))),
{
    assert forall|c: NodeModel| #[trigger] grows(a, c) implies grows(
        NodeModel::Newtype(n, Box::new(a)),
        NodeModel::Newtype(n, Box::new(c)),
    ) by {
        crate::node::lemma_subsumes_newtype(n, a, a, c);
    }
}

/// A sequence of a node that grows grows, and describes each sequence of values its item node
/// describes.
pub proof fn lemma_sequence_grows(a: NodeModel)
    ensures
        forall|c: NodeModel| #[trigger] grows(a, c) ==> grows(
            NodeModel::Sequence(Box::new(a)),
            NodeModel::Sequence(Box::new(c)),
        ),
{
    assert forall|c: NodeModel| #[trigger] grows(a, c) implies grows(
        NodeModel::Sequence(Box::new(a)),
        NodeModel::Sequence(Box::new(c)),
    ) by {
        crate::node::lemma_subsumes_sequence(a, a, c);
    }
}

/// A map of key and value nodes that grow grows, and describes each map whose keys and values
/// they describe.
pub proof fn lemma_mapping_grows(ka: NodeModel, va: NodeModel)
    ensures
        forall|kc: NodeModel, vc: NodeModel| #[trigger] grows(ka, kc) && #[trigger] grows(va, vc) ==> grows(
            NodeModel::Mapping(Box::new(ka), Box::new(va)),
            NodeModel::Mapping(Box::new(kc), Box::new(vc)),
        ),
{
    assert forall|kc: NodeModel, vc: NodeModel| #[trigger] grows(ka, kc) && #[trigger] grows(va, vc) implies grows(
        NodeModel::Mapping(Box::new(ka), Box::new(va)),
        NodeModel::Mapping(Box::new(kc), Box::new(vc)),
    ) by {
        crate::node::lemma_subsumes_mapping(ka, ka, kc, va, va, vc);
    }
}

/// Traces the kind byte and the interned name of a newtype struct.
pub fn trace_newtype_struct(data: &mut Vec<u8>, names: &mut Names, name: &'static str) -> (r: Result<TypeName, TraceError>)
    requires
        old(names).wf(),
    ensures
        final(names).wf(),
        final(names).skipped == old(names).skipped,
        match r {
            Ok(TypeName(n, v)) => {
                &&& v is None
                &&& n < final(names).type_names@.len()
                &&& final(names).type_names@[n as int] == name@
                &&& final(data)@ == old(data)@.push(kind_code(TraceNodeKind::NewtypeStruct)) + le_bytes(n)
            },
            Err(e) => e == TraceError::Limit(TraceLimitError(TraceLimitErrorKind::Names)),
        },
{
    push_trace(data, TraceNodeKind::NewtypeStruct);
    match push_struct_name(data, names, name) {
        Ok(name) => Ok(name),
        Err(kind) => Err(TraceError::Limit(TraceLimitError(kind))),
    }
}

/// Traces the kind byte and the interned enum and variant names of a newtype variant.
pub fn trace_newtype_variant(
    data: &mut Vec<u8>,
    names: &mut Names,
    name: &'static str,
    variant: &'static str,
) -> (r: Result<TypeName, TraceError>)
    requires
        old(names).wf(),
    ensures
        final(names).wf(),
        final(names).skipped == old(names).skipped,
        match r {
            Ok(TypeName(n, v)) => {
                &&& v is Some
                &&& n < final(names).type_names@.len()
                &&& final(names).type_names@[n as int] == name@
                &&& v.unwrap() < final(names).variant_names@.len()
                &&& final(names).variant_names@[v.unwrap() as int] == variant@
                &&& final(data)@ == old(data)@.push(kind_code(TraceNodeKind::NewtypeVariant)) + le_bytes(n) + le_bytes(v.unwrap())
            },
            Err(e) => e == TraceError::Limit(TraceLimitError(TraceLimitErrorKind::Names)),
        },
{
    push_trace(data, TraceNodeKind::NewtypeVariant);
    match push_variant_name(data, names, name, variant) {
        Ok(name) => Ok(name),
        Err(kind) => Err(TraceError::Limit(TraceLimitError(kind))),
    }
}

/// The slot of the value inside the newtype `name`: the newtype of that name in `slot`, added if
/// there is none.
pub fn newtype<'a>(slot: &'a mut SchemaBuilderNode, name: TypeName) -> (r: &'a mut SchemaBuilderNode)
    requires
        flat(old(slot)@),
    ensures
        flat(r@),
        grows(r@, final(r)@) ==> grows(old(slot)@, final(slot)@),
        forall|x: ValueShape| #[trigger] describes(final(r)@, x) && grows(r@, final(r)@)
            ==> describes(final(slot)@, ValueShape::Newtype(name, Box::new(x))),
{
    let loc = locate(slot, &Matcher::Newtype(name));
    let ghost mid = *slot;
    proof {
        lemma_flat_at_location(loc, mid);
        lemma_replace_grows(loc, mid);
    }
    let node = loc.get(slot);
    match node {
        SchemaBuilderNode::Newtype(_, inner) => {
            proof {
                lemma_newtype_grows(name, (**inner)@);
            }
            &mut **inner
        },
        _ => {
            proof {
                assert(false);
            }
            vstd::pervasive::unreached()
        },
    }
}

/// The slot of the items of a sequence: the sequence in `slot`, added if there is none.
pub fn sequence_item<'a>(slot: &'a mut SchemaBuilderNode) -> (r: &'a mut SchemaBuilderNode)
    requires
        flat(old(slot)@),
    ensures
        flat(r@),
        grows(r@, final(r)@) ==> grows(old(slot)@, final(slot)@),
        forall|v: ValueShape| #[trigger] describes(NodeModel::Sequence(Box::new(final(r)@)), v)
            && grows(r@, final(r)@) ==> describes(final(slot)@, v),
{
    let loc = locate(slot, &Matcher::Sequence);
    let ghost mid = *slot;
    proof {
        lemma_flat_at_location(loc, mid);
        lemma_replace_grows(loc, mid);
    }
    let node = loc.get(slot);
    match node {
        SchemaBuilderNode::Sequence(item) => {
            proof {
                lemma_sequence_grows((**item)@);
            }
            &mut **item
        },
        _ => {
            proof {
                assert(false);
            }
            vstd::pervasive::unreached()
        },
    }
}

/// The slots of the keys and values of a map: the map in `slot`, added if there is none.
pub fn map_slots<'a>(slot: &'a mut SchemaBuilderNode) -> (r: (&'a mut SchemaBuilderNode, &'a mut SchemaBuilderNode))
    requires
        flat(old(slot)@),
    ensures
        flat(r.0@),
        flat(r.1@),
        grows(r.0@, final(r.0)@) && grows(r.1@, final(r.1)@) ==> grows(old(slot)@, final(slot)@),
        forall|v: ValueShape| #[trigger] describes(NodeModel::Mapping(Box::new(final(r.0)@), Box::new(final(r.1)@)), v)
            && grows(r.0@, final(r.0)@) && grows(r.1@, final(r.1)@) ==> describes(final(slot)@, v),
{
    let loc = locate(slot, &Matcher::Mapping);
    let ghost mid = *slot;
    proof {
        lemma_flat_at_location(loc, mid);
        lemma_replace_grows(loc, mid);
    }
    let node = loc.get(slot);
    match node {
        SchemaBuilderNode::Mapping(key, value) => {
            proof {
                lemma_mapping_grows((**key)@, (**value)@);
            }
            (&mut **key, &mut **value)
        },
        _ => {
            proof {
                assert(false);
            }
            vstd::pervasive::unreached()
        },
    }
}

/// Whether each of the nodes `b` grows the node of `a` at the same position.
pub open spec fn fields_grow(a: Seq<NodeModel>, b: Seq<NodeModel>) -> bool {
    &&& a.len() == b.len()
    &&& forall|i: int| 0 <= i < a.len() ==> grows(#[trigger] a[i], b[i])
}

/// A record whose field types grow grows.
pub proof fn lemma_record_grows(
    name: Option<TypeName>,
    field_names: Option<u32>,
    a: Seq<NodeModel>,
    skippable: Seq<u32>,
    keys: Option<crate::node::KeysModel>,
)
    ensures
        forall|c: Seq<NodeModel>| #[trigger] fields_grow(a, c)
            && flat(NodeModel::Record { name, field_names, field_types: a, skippable, keys })
            ==> grows(
                NodeModel::Record { name, field_names, field_types: a, skippable, keys },
                NodeModel::Record { name, field_names, field_types: c, skippable, keys },
            ),
{
    assert forall|c: Seq<NodeModel>| #[trigger] fields_grow(a, c)
        && flat(NodeModel::Record { name, field_names, field_types: a, skippable, keys })
        implies grows(
            NodeModel::Record { name, field_names, field_types: a, skippable, keys },
            NodeModel::Record { name, field_names, field_types: c, skippable, keys },
        ) by {
        let ra = NodeModel::Record { name, field_names, field_types: a, skippable, keys };
        let rc = NodeModel::Record { name, field_names, field_types: c, skippable, keys };
        assert(ra->field_types == a);
        assert(ra->skippable == skippable);
        assert forall|i: int| 0 <= i < a.len() implies subsumes(#[trigger] c[i], a[i]) by {
            assert(grows(a[i], c[i]));
        }
        crate::node::lemma_subsumes_record(name, field_names, a, skippable, keys, c, skippable, keys);
        assert(rc->field_types == c);
        assert forall|i: int| 0 <= i < c.len() implies flat(#[trigger] c[i]) by {
            assert(grows(a[i], c[i]));
        }
        assert(flat(rc));
    }
}

/// Traces the start of a tuple, tuple struct or tuple variant: its kind byte, its declared length
/// and its interned names; fails if the length does not fit 32 bits or the names do not fit the
/// pools.
pub fn trace_tuple_start(
    data: &mut Vec<u8>,
    names: &mut Names,
    name: Option<&'static str>,
    variant: Option<&'static str>,
    len: usize,
) -> (r: Result<Option<TypeName>, TraceError>)
    requires
        old(names).wf(),
        variant is Some ==> name is Some,
    ensures
        final(names).wf(),
        final(names).skipped == old(names).skipped,
        len > u32::MAX ==> r == Err::<Option<TypeName>, TraceError>(
            TraceError::Limit(TraceLimitError(TraceLimitErrorKind::Values))),
        r is Ok ==> len <= u32::MAX,
        r matches Ok(t) ==> match (name, variant) {
            (None, _) => t is None && final(data)@ == old(data)@.push(kind_code(TraceNodeKind::Tuple)) + le_bytes(len as u32),
            (Some(n), None) => t matches Some(TypeName(i, None)) && i < final(names).type_names@.len()
                && final(names).type_names@[i as int] == n@
                && final(data)@ == old(data)@.push(kind_code(TraceNodeKind::TupleStruct)) + le_bytes(len as u32) + le_bytes(i),
            (Some(n), Some(v)) => t matches Some(TypeName(i, Some(j))) && i < final(names).type_names@.len()
                && final(names).type_names@[i as int] == n@
                && j < final(names).variant_names@.len() && final(names).variant_names@[j as int] == v@
                && final(data)@ == old(data)@.push(kind_code(TraceNodeKind::TupleVariant)) + le_bytes(len as u32)
                    + le_bytes(i) + le_bytes(j),
        },
        r matches Err(e) ==> e == TraceError::Limit(TraceLimitError(TraceLimitErrorKind::Values))
            || e == TraceError::Limit(TraceLimitError(TraceLimitErrorKind::Names)),
{
    let kind = match (name, variant) {
        (None, _) => TraceNodeKind::Tuple,
        (Some(_), None) => TraceNodeKind::TupleStruct,
        (Some(_), Some(_)) => TraceNodeKind::TupleVariant,
    };
    push_trace(data, kind);
    match push_u32_length(data, len) {
        Ok(()) => {},
        Err(kind) => return Err(TraceError::Limit(TraceLimitError(kind))),
    }
    let pushed = match (name, variant) {
        (None, _) => return Ok(None),
        (Some(name), None) => push_struct_name(data, names, name),
        (Some(name), Some(variant)) => push_variant_name(data, names, name, variant),
    };
    match pushed {
        Ok(t) => Ok(Some(t)),
        Err(kind) => Err(TraceError::Limit(TraceLimitError(kind))),
    }
}

/// The field slots of the tuple `name` with `len` fields: the tuple record of that name and
/// length in `slot`, added (with empty fields) if there is none.
pub fn tuple_fields<'a>(slot: &'a mut SchemaBuilderNode, name: Option<TypeName>, len: usize) -> (r: &'a mut Vec<SchemaBuilderNode>)
    requires
        flat(old(slot)@),
    ensures
        r@.len() == len,
        crate::node::all_flat(crate::node::models_of(*r)),
        fields_grow(crate::node::models_of(*r), crate::node::models_of(*final(r))) ==> grows(old(slot)@, final(slot)@),
{
    let loc = locate(slot, &Matcher::Tuple(name, len));
    let ghost mid = *slot;
    proof {
        lemma_flat_at_location(loc, mid);
        lemma_replace_grows(loc, mid);
    }
    let node = loc.get(slot);
    let ghost start = *node;
    match node {
        SchemaBuilderNode::Record { name: n, field_names, field_types, skippable, keys } => {
            proof {
                crate::node::lemma_models_of(*field_types);
                lemma_record_grows(*n, *field_names, crate::node::models_of(*field_types), skippable@,
                    crate::node::keys_opt_model(*keys));
                assert(start@->field_types == crate::node::models_of(*field_types));
                assert(flat(start@));
                assert forall|i: int| 0 <= i < crate::node::models_of(*field_types).len()
                    implies flat(#[trigger] crate::node::models_of(*field_types)[i]) by {
                    assert(flat(start@->field_types[i]));
                }
            }
            field_types
        },
        _ => {
            proof {
                assert(false);
            }
            vstd::pervasive::unreached()
        },
    }
}

/// The progress of a tuple being traced: the elements serialized so far, and whether one
/// failed.
pub struct TupleState {
    pub length: usize,
    pub failed: bool,
}

impl TupleState {
    pub fn new() -> (r: Self)
        ensures
            r.length == 0,
            !r.failed,
    {
        TupleState { length: 0, failed: false }
    }

    /// The slot of the next element, or a length mismatch if the tuple has no more fields.
    pub fn element_slot<'a>(&mut self, fields: &'a mut Vec<SchemaBuilderNode>) -> (r: Result<&'a mut SchemaBuilderNode, TraceError>)
        ensures
            old(self).length < old(fields)@.len() ==> (r matches Ok(f) && *f == old(fields)@[old(self).length as int]
                && final(fields)@ == old(fields)@.update(old(self).length as int, *final(f))
                && *final(self) == *old(self)),
            old(self).length >= old(fields)@.len() ==> r is Err && r->Err_0 == TraceError::LengthMismatch
                && final(self).failed && final(self).length == old(self).length
                && *final(fields) == *old(fields),
    {
        if self.length < fields.len() {
            Ok(&mut fields[self.length])
        } else {
            self.failed = true;
            Err(TraceError::LengthMismatch)
        }
    }

    /// Records that an element was serialized, successfully or not.
    pub fn element_done(&mut self, ok: bool)
        requires
            old(self).length < usize::MAX,
        ensures
            final(self).length == old(self).length + 1,
            final(self).failed == (old(self).failed || !ok),
    {
        if !ok {
            self.failed = true;
        }
        self.length += 1;
    }

    /// Ends the tuple: a length mismatch if an element failed or the number of elements is not
    /// the declared `len`.
    pub fn end(&self, len: usize) -> (r: Result<(), TraceError>)
        ensures
            r is Ok <==> !self.failed && self.length == len,
            r matches Err(e) ==> e == TraceError::LengthMismatch,
    {
        if self.failed || self.length != len {
            return Err(TraceError::LengthMismatch);
        }
        Ok(())
    }
}

/// The progress of a sequence or map being traced: where its length goes in the trace, the
/// elements (or entries) seen so far, and whether one failed.
pub struct CollectionState {
    pub reserved_length: u32,
    pub length: usize,
    pub failed: bool,
}

/// Traces the start of a sequence (or map, for `kind` [`TraceNodeKind::Mapping`]): its kind byte
/// and four bytes reserved for its length.
pub fn trace_collection_start(data: &mut Vec<u8>, kind: TraceNodeKind) -> (r: Result<CollectionState, TraceError>)
    requires
        kind == TraceNodeKind::Sequence || kind == TraceNodeKind::Mapping,
    ensures
        old(data)@.len() + 1 <= u32::MAX ==> (r matches Ok(state) && state.length == 0 && !state.failed
            && state.reserved_length == old(data)@.len() + 1
            && final(data)@ == old(data)@.push(kind_code(kind)) + seq![0xffu8, 0xffu8, 0xffu8, 0xffu8]),
        old(data)@.len() + 1 > u32::MAX ==> r == Err::<CollectionState, TraceError>(
            TraceError::Limit(TraceLimitError(TraceLimitErrorKind::Values))),
{
    push_trace(data, kind);
    match reserve_u32(data) {
        Ok(reserved_length) => Ok(CollectionState { reserved_length, length: 0, failed: false }),
        Err(kind) => Err(TraceError::Limit(TraceLimitError(kind))),
    }
}

impl CollectionState {
    /// Records that an element (or a map key) is about to be serialized.
    pub fn element_started(&mut self)
        requires
            old(self).length < usize::MAX,
        ensures
            final(self).length == old(self).length + 1,
            final(self).failed == old(self).failed,
            final(self).reserved_length == old(self).reserved_length,
    {
        self.length += 1;
    }

    /// Records whether an element (or map key or value) serialized successfully.
    pub fn element_done(&mut self, ok: bool)
        ensures
            final(self).length == old(self).length,
            final(self).failed == (old(self).failed || !ok),
            final(self).reserved_length == old(self).reserved_length,
    {
        if !ok {
            self.failed = true;
        }
    }

    /// Ends the collection: fails if an element failed (its error was ignored), or writes the
    /// length into the reserved bytes, failing if it does not fit 32 bits.
    pub fn end(&self, data: &mut Vec<u8>) -> (r: Result<(), TraceError>)
        requires
            self.reserved_length + 4 <= old(data)@.len(),
        ensures
            self.failed ==> (r matches Err(TraceError::Custom(m)) && m@ == crate::error::ignored_message()
                && final(data)@ == old(data)@),
            !self.failed && self.length > u32::MAX ==> r == Err::<(), TraceError>(
                TraceError::Limit(TraceLimitError(TraceLimitErrorKind::Values))) && final(data)@ == old(data)@,
            !self.failed && self.length <= u32::MAX ==> r is Ok
                && final(data)@ == old(data)@.subrange(0, self.reserved_length as int) + le_bytes(self.length as u32)
                    + old(data)@.subrange(self.reserved_length + 4, old(data)@.len() as int),
    {
        if self.failed {
            return Err(crate::error::ignored_error());
        }
        if self.length > 0xffff_ffffusize {
            return Err(TraceError::Limit(TraceLimitError(TraceLimitErrorKind::Values)));
        }
        let bytes = crate::trace::u32_le_bytes(self.length as u32);
        crate::trace::fill_reserved_bytes(data, self.reserved_length as usize, &bytes);
        Ok(())
    }
}

} // verus!
