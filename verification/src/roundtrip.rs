//! Traced values read back: what tracing a value appends, read by the schema built from the
//! node that tracing merged the value's type into.

use vstd::prelude::*;
use crate::builder::{denotes, lemma_all_members_elim, lemma_all_variants_elim, lemma_member_in_elim,
    lemma_not_union_node, lemma_variant_from_elim, schema_pools, unit_node, variants_of, PoolsModel};
use crate::describe::{check_result, first_match, is_scalar_value, scalar_value, shallow_match, CheckResult, Described};
use crate::indices::TypeName;
use crate::node::{describes, flat, is_leaf, lemma_describes_union, unifiable, NodeModel, ValueShape};
use crate::reader::{le_uint, node_at_pos, TraceNode};
use crate::reading::{cursor_end, fuel_of};
use crate::schema::{list_at, node_at, Schema, SchemaNode};
use crate::trace::{kind_code, le_bytes, le_value, lemma_kind_code_roundtrip, lemma_le_bytes_roundtrip, TraceNodeKind};

verus! {

/// The kind byte of the trace of a value whose type is the leaf `leaf`.
pub open spec fn leaf_kind(leaf: NodeModel) -> TraceNodeKind {
    match leaf {
        NodeModel::Bool => TraceNodeKind::Bool,
        NodeModel::I8 => TraceNodeKind::I8,
        NodeModel::I16 => TraceNodeKind::I16,
        NodeModel::I32 => TraceNodeKind::I32,
        NodeModel::I64 => TraceNodeKind::I64,
        NodeModel::I128 => TraceNodeKind::I128,
        NodeModel::U8 => TraceNodeKind::U8,
        NodeModel::U16 => TraceNodeKind::U16,
        NodeModel::U32 => TraceNodeKind::U32,
        NodeModel::U64 => TraceNodeKind::U64,
        NodeModel::U128 => TraceNodeKind::U128,
        NodeModel::F32 => TraceNodeKind::F32,
        NodeModel::F64 => TraceNodeKind::F64,
        NodeModel::Char => TraceNodeKind::Char,
        NodeModel::String => TraceNodeKind::String,
        NodeModel::Bytes => TraceNodeKind::Bytes,
        NodeModel::OptionNone => TraceNodeKind::OptionNone,
        NodeModel::Unit(None) => TraceNodeKind::Unit,
        NodeModel::Unit(Some(TypeName(_, None))) => TraceNodeKind::UnitStruct,
        _ => TraceNodeKind::UnitVariant,
    }
}

/// The number of bytes a scalar of the leaf `leaf` takes after its kind byte.
pub open spec fn leaf_width(leaf: NodeModel) -> int {
    match leaf {
        NodeModel::Bool | NodeModel::I8 | NodeModel::U8 => 1,
        NodeModel::I16 | NodeModel::U16 => 2,
        NodeModel::I32 | NodeModel::U32 | NodeModel::F32 | NodeModel::Char => 4,
        NodeModel::I64 | NodeModel::U64 | NodeModel::F64 => 8,
        NodeModel::I128 | NodeModel::U128 => 16,
        _ => 0,
    }
}

/// Whether `data` is a trace that tracing a value whose type is the leaf `leaf` appends (strings
/// and byte arrays aside): the kind byte, then a scalar's little-endian bytes (a `char`'s a
/// Unicode scalar value), or the interned names of a unit struct or unit variant, or nothing.
pub open spec fn leaf_trace(leaf: NodeModel, data: Seq<u8>) -> bool {
    &&& is_leaf(leaf)
    &&& !(leaf is String) && !(leaf is Bytes)
    &&& data.len() >= 1
    &&& data[0] == kind_code(leaf_kind(leaf))
    &&& match leaf {
        NodeModel::Char => data.len() == 5 && is_scalar_value(le_value(data.subrange(1, 5)) as u32),
        NodeModel::OptionNone | NodeModel::Unit(None) => data.len() == 1,
        NodeModel::Unit(Some(TypeName(n, None))) => data == seq![kind_code(TraceNodeKind::UnitStruct)] + le_bytes(n),
        NodeModel::Unit(Some(TypeName(n, Some(v)))) =>
            data == seq![kind_code(TraceNodeKind::UnitVariant)] + le_bytes(n) + le_bytes(v),
        _ => data.len() == 1 + leaf_width(leaf),
    }
}

/// The schema node built from the leaf `leaf`.
pub open spec fn leaf_schema_node(leaf: NodeModel) -> SchemaNode {
    match leaf {
        NodeModel::Bool => SchemaNode::Bool,
        NodeModel::I8 => SchemaNode::I8,
        NodeModel::I16 => SchemaNode::I16,
        NodeModel::I32 => SchemaNode::I32,
        NodeModel::I64 => SchemaNode::I64,
        NodeModel::I128 => SchemaNode::I128,
        NodeModel::U8 => SchemaNode::U8,
        NodeModel::U16 => SchemaNode::U16,
        NodeModel::U32 => SchemaNode::U32,
        NodeModel::U64 => SchemaNode::U64,
        NodeModel::U128 => SchemaNode::U128,
        NodeModel::F32 => SchemaNode::F32,
        NodeModel::F64 => SchemaNode::F64,
        NodeModel::Char => SchemaNode::Char,
        NodeModel::String => SchemaNode::String,
        NodeModel::Bytes => SchemaNode::Bytes,
        NodeModel::OptionNone => SchemaNode::OptionNone,
        NodeModel::Unit(name) => unit_node(name),
        _ => SchemaNode::Union(0),
    }
}

/// What reading the trace `data` of a leaf gives.
pub open spec fn leaf_value(leaf: NodeModel, data: Seq<u8>) -> Described {
    if leaf_width(leaf) > 0 {
        scalar_value(leaf_schema_node(leaf), data.subrange(1, 1 + leaf_width(leaf))).unwrap()
    } else {
        Described::Unit
    }
}

proof fn lemma_le_uint4(b: Seq<u8>)
    requires
        b.len() == 4,
    ensures
        le_uint(b) == le_value(b),
{
    reveal_with_fuel(le_uint, 5);
    assert(b.drop_first().drop_first().drop_first().drop_first().len() == 0);
}

/// A leaf's trace at `pos` starts with its header, and only the schema node built from the leaf
/// matches it; that node reads the rest of the trace as the leaf's value.
#[verifier::rlimit(60)]
proof fn lemma_leaf_node_reads(s: Schema, leaf: NodeModel, full: Seq<u8>, pos: int, end: int, fuel: nat)
    requires
        0 <= pos < end <= full.len(),
        leaf_trace(leaf, full.subrange(pos, end)),
    ensures
        node_at_pos(full, pos) matches Some((trace, next)) && pos < next <= end && ({
            &&& cursor_end(s, leaf_schema_node(leaf), trace, full, next, fuel, leaf_value(leaf, full.subrange(pos, end)))
                == Some(end)
            &&& forall|c: SchemaNode| !(c is Union) ==> (#[trigger] check_result(s, c, trace, fuel) == if c == leaf_schema_node(leaf) {
                Some(Some(CheckResult::Simple))
            } else {
                Some(None::<CheckResult>)
            })
        }),
{
    let data = full.subrange(pos, end);
    let kind = leaf_kind(leaf);
    lemma_kind_code_roundtrip(kind);
    let node = leaf_schema_node(leaf);
    assert(full[pos] == data[0]);
    match leaf {
        NodeModel::Unit(Some(TypeName(n, None))) => {
            lemma_le_bytes_roundtrip(n);
            assert(data.subrange(1, 5) =~= le_bytes(n));
            assert(full.subrange(pos + 1, pos + 5) =~= data.subrange(1, 5));
        },
        NodeModel::Unit(Some(TypeName(n, Some(v)))) => {
            lemma_le_bytes_roundtrip(n);
            lemma_le_bytes_roundtrip(v);
            assert(data.subrange(1, 5) =~= le_bytes(n));
            assert(data.subrange(5, 9) =~= le_bytes(v));
            assert(full.subrange(pos + 1, pos + 5) =~= data.subrange(1, 5));
            assert(full.subrange(pos + 5, pos + 9) =~= data.subrange(5, 9));
        },
        NodeModel::Char => {
            assert(full.subrange(pos + 1, pos + 5) =~= data.subrange(1, 5));
            lemma_le_uint4(data.subrange(1, 5));
        },
        _ => {},
    }
    let (trace, next) = node_at_pos(full, pos).unwrap();
    assert(next == pos + 1 + 4 * crate::reader::header_words(kind));
    if leaf_width(leaf) > 0 {
        assert(next == pos + 1);
        assert(full.subrange(pos + 1, pos + 1 + leaf_width(leaf)) =~= data.subrange(1, 1 + leaf_width(leaf)));
        assert(crate::describe::is_scalar_node(node));
        assert(crate::describe::scalar_layout(node).1 == leaf_width(leaf));
        assert(scalar_value(node, data.subrange(1, 1 + leaf_width(leaf))) is Some);
    }
    assert(shallow_match(s, node, trace));
    assert(check_result(s, node, trace, fuel) == Some(Some(CheckResult::Simple)));
    assert(crate::reading::finish_end(s, node, full, next, fuel, leaf_value(leaf, data)) == Some(end));
    assert forall|c: SchemaNode| !(c is Union) implies (#[trigger] check_result(s, c, trace, fuel) == if c == node {
        Some(Some(CheckResult::Simple))
    } else {
        Some(None::<CheckResult>)
    }) by {
        assert(shallow_match(s, c, trace) <==> c == node);
    }
}

/// Checking a leaf's header against variants that are all in the schema and no unions finds the
/// first of them that is the leaf's node, if one is.
proof fn lemma_first_match_leaf(s: Schema, ws: Seq<u32>, leaf: NodeModel, data: Seq<u8>, trace: TraceNode, fuel: nat, k: int)
    requires
        0 <= k <= ws.len(),
        ws.len() <= usize::MAX,
        forall|c: SchemaNode| !(c is Union) ==> (#[trigger] check_result(s, c, trace, fuel) == if c == leaf_schema_node(leaf) {
            Some(Some(CheckResult::Simple))
        } else {
            Some(None::<CheckResult>)
        }),
        forall|j: int| k <= j < ws.len() ==> (#[trigger] node_at(s.node_keys(), ws[j]) matches Some(c) && !(c is Union)),
        exists|j: int| k <= j < ws.len() && #[trigger] node_at(s.node_keys(), ws[j]) == Some(leaf_schema_node(leaf)),
    ensures
        first_match(s, ws, trace, fuel, k) matches Some(Some(CheckResult::Discriminated(j, n, child)))
            && j < ws.len() && n == ws.len() && child == leaf_schema_node(leaf),
    decreases ws.len() - k,
{
    if k == ws.len() {
        let j = choose|j: int| k <= j < ws.len() && #[trigger] node_at(s.node_keys(), ws[j]) == Some(leaf_schema_node(leaf));
        assert(false);
    }
    assert(node_at(s.node_keys(), ws[k]) matches Some(c) && !(c is Union));
    let child = node_at(s.node_keys(), ws[k]).unwrap();
    assert(!(child is Union));
    if child != leaf_schema_node(leaf) {
        let j = choose|j: int| k <= j < ws.len() && #[trigger] node_at(s.node_keys(), ws[j]) == Some(leaf_schema_node(leaf));
        assert(j != k);
        assert(check_result(s, child, trace, fuel) == Some(None::<CheckResult>));
        lemma_first_match_leaf(s, ws, leaf, data, trace, fuel, k + 1);
    } else {
        assert(check_result(s, child, trace, fuel) == Some(Some(CheckResult::Simple)));
    }
}

/// Where a node that describes values of the leaf `leaf` was built: at the leaf's node, or at a
/// union whose variants are all in the pools, none a union, one of them the leaf's node.
proof fn lemma_leaf_built(p: PoolsModel, index: u32, m: NodeModel, leaf: NodeModel)
    requires
        is_leaf(leaf),
        flat(m),
        denotes(p, index, m),
        describes(m, ValueShape::Leaf(leaf)),
    ensures
        node_at(p.nodes, index) == Some(leaf_schema_node(leaf)) || (node_at(p.nodes, index) matches Some(
            SchemaNode::Union(l)) && list_at(p.lists, l) matches Some(ws) && (forall|j: int| 0 <= j < ws.len()
            ==> (#[trigger] node_at(p.nodes, ws[j]) matches Some(c) && !(c is Union))) && exists|j: int| 0 <= j < ws.len()
            && #[trigger] node_at(p.nodes, ws[j]) == Some(leaf_schema_node(leaf))),
{
    match m {
        NodeModel::Union(ms) => {
            lemma_describes_union(ms, ValueShape::Leaf(leaf));
            let k = choose|k: int| 0 <= k < ms.len() && #[trigger] describes(ms[k], ValueShape::Leaf(leaf));
            assert(!(ms[k] is Union) && flat(ms[k]));
            assert(ms[k] == leaf);
            let ws = variants_of(p, index);
            lemma_all_members_elim(p, ws, ms, ms.len() as int, k);
            lemma_member_in_elim(p, ws, ms[k], ws.len() as int);
            assert(!denotes(p, 0, ms[k]));
            let j = choose|j: int| 0 <= j < ws.len() && denotes(p, #[trigger] ws[j], ms[k]);
            assert(node_at(p.nodes, ws[j]) == Some(leaf_schema_node(leaf)));
            assert forall|i: int| 0 <= i < ws.len() implies (#[trigger] node_at(p.nodes, ws[i]) matches Some(c)
                && !(c is Union)) by {
                lemma_all_variants_elim(p, ws, ms, ws.len() as int, i);
                lemma_variant_from_elim(p, ws[i], ms, ms.len() as int);
                let t = choose|t: int| 0 <= t < ms.len() && denotes(p, ws[i], #[trigger] ms[t]);
                assert(ws.contains(ws[i]));
                lemma_not_union_node(p, ws[i], ms[t]);
            }
            assert(index != 0);
            if !(node_at(p.nodes, index) matches Some(SchemaNode::Union(_))) {
                assert(ws == seq![index]);
                assert(ws[j] == index);
            }
        },
        _ => {
            assert(m == leaf);
        },
    }
}

/// A traced leaf reads back: the trace that tracing a scalar, `char`, `None`, unit, unit struct
/// or unit variant appends, read by a schema whose root was built from a node that describes
/// values of that leaf type, has a reading, and that reading takes the whole trace. Where the
/// root is the leaf's own node, the reading is the leaf's value; where it is a union, it is the
/// leaf's value as one of the union's variants.
pub proof fn law_traced_leaf_reads_back(s: Schema, m: NodeModel, leaf: NodeModel, data: Seq<u8>)
    requires
        leaf_trace(leaf, data),
        flat(m),
        denotes(schema_pools(s), s.root_index, m),
        describes(m, ValueShape::Leaf(leaf)),
    ensures
        exists|d: Described| crate::reading::describes(s, data, d),
        node_at(s.node_keys(), s.root_index) == Some(leaf_schema_node(leaf))
            ==> crate::reading::describes(s, data, leaf_value(leaf, data)),
        node_at(s.node_keys(), s.root_index) matches Some(SchemaNode::Union(_))
            ==> exists|bits: u32, j: u64| crate::reading::describes(s, data,
                Described::Variant(bits, j, Box::new(leaf_value(leaf, data)))),
{
    let p = schema_pools(s);
    let d0 = leaf_value(leaf, data);
    let fuel = fuel_of(s);
    lemma_leaf_built(p, s.root_index, m, leaf);
    assert(data.subrange(0, data.len() as int) =~= data);
    lemma_leaf_node_reads(s, leaf, data, 0, data.len() as int, fuel);
    let (trace, next) = node_at_pos(data, 0).unwrap();
    if node_at(s.node_keys(), s.root_index) == Some(leaf_schema_node(leaf)) {
        assert(crate::reading::describes(s, data, d0));
    } else {
        let l = node_at(s.node_keys(), s.root_index).unwrap()->Union_0;
        let ws = list_at(s.spec_node_lists(), l).unwrap();
        assert(ws == s.node_lists.values@[l - 1]@);
        assert(s.node_lists.values@[l - 1]@.len() == s.node_lists.values@[l - 1].len());
        assert(fuel > 0);
        lemma_leaf_node_reads(s, leaf, data, 0, data.len() as int, (fuel - 1) as nat);
        lemma_first_match_leaf(s, ws, leaf, data, trace, (fuel - 1) as nat, 0);
        let r = first_match(s, ws, trace, (fuel - 1) as nat, 0);
        let j = r.unwrap().unwrap()->Discriminated_0;
        crate::describe::lemma_bits_for_bound(ws.len());
        let bits = crate::describe::bits_for(ws.len()) as u32;
        let d = Described::Variant(bits, j as u64, Box::new(d0));
        assert(check_result(s, SchemaNode::Union(l), trace, fuel) == r);
        assert(cursor_end(s, SchemaNode::Union(l), trace, data, next, fuel, d) == Some(data.len() as int));
        assert(crate::reading::describes(s, data, d));
    }
}

} // verus!

verus! {

/// Whether `data` is the trace that tracing a value of shape `v` appends, for values built of
/// leaves (strings and byte arrays aside), options that hold a value, and newtype structs and
/// variants: each node's kind byte and names, then what it holds.
pub open spec fn traces(v: ValueShape, data: Seq<u8>) -> bool
    decreases v,
{
    match v {
        ValueShape::Leaf(leaf) => leaf_trace(leaf, data),
        ValueShape::Present(x) => data.len() >= 1 && data[0] == kind_code(TraceNodeKind::OptionSome)
            && traces(*x, data.subrange(1, data.len() as int)),
        ValueShape::Newtype(TypeName(n, None), x) => data.len() >= 5
            && data.subrange(0, 5) == seq![kind_code(TraceNodeKind::NewtypeStruct)] + le_bytes(n)
            && traces(*x, data.subrange(5, data.len() as int)),
        ValueShape::Newtype(TypeName(n, Some(w)), x) => data.len() >= 9
            && data.subrange(0, 9) == seq![kind_code(TraceNodeKind::NewtypeVariant)] + le_bytes(n) + le_bytes(w)
            && traces(*x, data.subrange(9, data.len() as int)),
        _ => false,
    }
}

/// Whether no union in `m` has two members that would merge into one (`unifiable`), as the
/// unions that merging nodes builds have not.
pub open spec fn distinct_members(m: NodeModel) -> bool
    decreases m,
{
    match m {
        NodeModel::OptionSome(inner) => distinct_members(*inner),
        NodeModel::Newtype(_, inner) => distinct_members(*inner),
        NodeModel::Mapping(k, v) => distinct_members(*k) && distinct_members(*v),
        NodeModel::Sequence(item) => distinct_members(*item),
        NodeModel::Union(ms) => {
            &&& forall|a: int, b: int| 0 <= a < b < ms.len() ==> !unifiable(#[trigger] ms[a], #[trigger] ms[b])
            &&& forall|k: int| 0 <= k < ms.len() ==> distinct_members(#[trigger] ms[k])
        },
        NodeModel::Record { field_types, .. } =>
            forall|k: int| 0 <= k < field_types.len() ==> distinct_members(#[trigger] field_types[k]),
        _ => true,
    }
}

/// What the built node at `w` of anything but a union says of it.
proof fn lemma_denotes_top(p: PoolsModel, w: u32, x: NodeModel, leaf: NodeModel)
    requires
        denotes(p, w, x),
        !(x is Union),
        w != 0,
    ensures
        node_at(p.nodes, w) matches Some(SchemaNode::OptionSome(j)) ==> (x matches NodeModel::OptionSome(inner)
            && denotes(p, j, *inner)),
        node_at(p.nodes, w) matches Some(SchemaNode::NewtypeStruct(n, j)) ==> (x matches NodeModel::Newtype(
            TypeName(n2, None), inner) && n2 == n && denotes(p, j, *inner)),
        node_at(p.nodes, w) matches Some(SchemaNode::NewtypeVariant(n, vv, j)) ==> (x matches NodeModel::Newtype(
            TypeName(n2, Some(v2)), inner) && n2 == n && v2 == vv && denotes(p, j, *inner)),
        is_leaf(x) ==> node_at(p.nodes, w) == Some(leaf_schema_node(x)),
        is_leaf(leaf) && node_at(p.nodes, w) == Some(leaf_schema_node(leaf)) ==> x == leaf,
{
}

/// Checking a header that is no tuple's against variants that are all in the schema and no
/// unions finds the first of them that matches it, if one does.
proof fn lemma_first_match_some(s: Schema, ws: Seq<u32>, trace: TraceNode, fuel: nat, k: int)
    requires
        0 <= k <= ws.len(),
        ws.len() <= usize::MAX,
        !(trace is Tuple) && !(trace is TupleStruct) && !(trace is TupleVariant),
        forall|j: int| k <= j < ws.len() ==> (#[trigger] node_at(s.node_keys(), ws[j]) matches Some(c) && !(c is Union)),
        exists|j: int| k <= j < ws.len() && shallow_match(s, #[trigger] node_at(s.node_keys(), ws[j]).unwrap(), trace),
    ensures
        first_match(s, ws, trace, fuel, k) matches Some(Some(CheckResult::Discriminated(j, n, child)))
            && k <= j < ws.len() && n == ws.len() && node_at(s.node_keys(), ws[j as int]) == Some(child)
            && shallow_match(s, child, trace),
    decreases ws.len() - k,
{
    if k == ws.len() {
        let j = choose|j: int| k <= j < ws.len() && shallow_match(s, #[trigger] node_at(s.node_keys(), ws[j]).unwrap(), trace);
        assert(false);
    }
    assert(node_at(s.node_keys(), ws[k]) matches Some(c) && !(c is Union));
    let child = node_at(s.node_keys(), ws[k]).unwrap();
    if !shallow_match(s, child, trace) {
        let j = choose|j: int| k <= j < ws.len() && shallow_match(s, #[trigger] node_at(s.node_keys(), ws[j]).unwrap(), trace);
        assert(j != k);
        assert(check_result(s, child, trace, fuel) == Some(None::<CheckResult>));
        lemma_first_match_some(s, ws, trace, fuel, k + 1);
    } else {
        assert(check_result(s, child, trace, fuel) == Some(Some(CheckResult::Simple)));
    }
}

/// A leaf's trace at `pos` read as the element at `i`, the leaf's own node, reads as the leaf's
/// value.
proof fn lemma_leaf_element(s: Schema, leaf: NodeModel, full: Seq<u8>, pos: int, end: int, i: u32)
    requires
        0 <= pos < end <= full.len(),
        leaf_trace(leaf, full.subrange(pos, end)),
        node_at(s.node_keys(), i) == Some(leaf_schema_node(leaf)),
    ensures
        crate::reading::element_end(s, i, full, pos, leaf_value(leaf, full.subrange(pos, end))) == Some(end),
{
    let data = full.subrange(pos, end);
    lemma_leaf_node_reads(s, leaf, full, pos, end, fuel_of(s));
    let node = leaf_schema_node(leaf);
    if crate::describe::is_scalar_node(node) {
        lemma_kind_code_roundtrip(leaf_kind(leaf));
        assert(full[pos] == data[0]);
        assert(crate::describe::scalar_layout(node).0 == leaf_kind(leaf));
        assert(crate::describe::scalar_layout(node).1 == leaf_width(leaf));
        assert(full.subrange(pos + 1, pos + 1 + leaf_width(leaf)) =~= data.subrange(1, 1 + leaf_width(leaf)));
    }
}

/// Whether the element at `w` is no union, the header of the trace at `pos` matches it, and
/// both the node after the header (checking nested unions to depth `f`) and the element read
/// the trace up to `end`.
pub open spec fn member_reads(s: Schema, w: u32, full: Seq<u8>, pos: int, end: int, f: nat) -> bool {
    &&& node_at(s.node_keys(), w) is Some
    &&& node_at_pos(full, pos) is Some
    &&& ({
        let c = node_at(s.node_keys(), w).unwrap();
        let (trace, next) = node_at_pos(full, pos).unwrap();
        &&& !(c is Union)
        &&& pos < next <= end
        &&& shallow_match(s, c, trace)
        &&& !(trace is Tuple) && !(trace is TupleStruct) && !(trace is TupleVariant)
        &&& exists|d: Described| cursor_end(s, c, trace, full, next, f, d) == Some(end)
    })
    &&& exists|d: Described| crate::reading::element_end(s, w, full, pos, d) == Some(end)
}

/// The trace at `pos` of a value of shape `v`, read as the element at `w`, built from a node `x`
/// that is no union and describes `v`, reads to its end.
proof fn lemma_member_reads(s: Schema, v: ValueShape, x: NodeModel, w: u32, full: Seq<u8>, pos: int, end: int, f: nat)
    requires
        0 <= pos < end <= full.len(),
        traces(v, full.subrange(pos, end)),
        flat(x),
        distinct_members(x),
        !(x is Union),
        denotes(schema_pools(s), w, x),
        describes(x, v),
    ensures
        member_reads(s, w, full, pos, end, f),
    decreases v, 1int,
{
    let data = full.subrange(pos, end);
    match v {
        ValueShape::Leaf(leaf) => {
            assert(x == leaf);
            lemma_leaf_node_reads(s, leaf, full, pos, end, f);
            lemma_leaf_node_reads(s, leaf, full, pos, end, fuel_of(s));
            lemma_leaf_element(s, leaf, full, pos, end, w);
            let (trace, next) = node_at_pos(full, pos).unwrap();
            assert(check_result(s, leaf_schema_node(leaf), trace, f) == Some(Some(CheckResult::Simple)));
            assert(cursor_end(s, leaf_schema_node(leaf), trace, full, next, f, leaf_value(leaf, data)) == Some(end));
        },
        ValueShape::Present(_) => lemma_present_reads(s, v, x, w, full, pos, end, f),
        ValueShape::Newtype(TypeName(_, None), _) => lemma_newtype_struct_reads(s, v, x, w, full, pos, end, f),
        ValueShape::Newtype(TypeName(_, Some(_)), _) => lemma_newtype_variant_reads(s, v, x, w, full, pos, end, f),
        _ => {},
    }
}

proof fn lemma_present_reads(s: Schema, v: ValueShape, x: NodeModel, w: u32, full: Seq<u8>, pos: int, end: int, f: nat)
    requires
        0 <= pos < end <= full.len(),
        v is Present,
        traces(v, full.subrange(pos, end)),
        flat(x),
        distinct_members(x),
        !(x is Union),
        denotes(schema_pools(s), w, x),
        describes(x, v),
    ensures
        member_reads(s, w, full, pos, end, f),
    decreases v, 0int,
{
    let p = schema_pools(s);
    let data = full.subrange(pos, end);
    let y = *v->Present_0;
    assert(x is OptionSome);
    let inner = *x->OptionSome_0;
    let j = node_at(p.nodes, w).unwrap()->OptionSome_0;
    assert(denotes(p, j, inner));
    assert(describes(inner, y));
    assert(flat(inner) && distinct_members(inner));
    assert(traces(y, data.subrange(1, data.len() as int)));
    lemma_kind_code_roundtrip(TraceNodeKind::OptionSome);
    assert(full[pos] == data[0]);
    assert(full.subrange(pos + 1, end) =~= data.subrange(1, data.len() as int));
    lemma_node_reads(s, y, inner, j, full, pos + 1, end);
    let p1 = pos + 1;
    let d = choose|d: Described| crate::reading::element_end(s, j, full, p1, d) == Some(end);
    let (trace, next) = node_at_pos(full, pos).unwrap();
    let c = SchemaNode::OptionSome(j);
    assert(next == pos + 1);
    assert(shallow_match(s, c, trace));
    assert(check_result(s, c, trace, f) == Some(Some(CheckResult::Simple)));
    assert(crate::reading::finish_end(s, c, full, next, f, d) == Some(end));
    assert(cursor_end(s, c, trace, full, next, f, d) == Some(end));
    assert(cursor_end(s, c, trace, full, next, fuel_of(s), d) == Some(end));
    assert(crate::reading::element_end(s, w, full, pos, d) == Some(end));
}

proof fn lemma_newtype_struct_reads(s: Schema, v: ValueShape, x: NodeModel, w: u32, full: Seq<u8>, pos: int, end: int, f: nat)
    requires
        0 <= pos < end <= full.len(),
        v matches ValueShape::Newtype(TypeName(_, None), _),
        traces(v, full.subrange(pos, end)),
        flat(x),
        distinct_members(x),
        !(x is Union),
        denotes(schema_pools(s), w, x),
        describes(x, v),
    ensures
        member_reads(s, w, full, pos, end, f),
    decreases v, 0int,
{
    let p = schema_pools(s);
    let data = full.subrange(pos, end);
    let n = v->Newtype_0.0;
    let y = *v->Newtype_1;
    assert(x is Newtype);
    let inner = *x->Newtype_1;
    assert(describes(inner, y));
    assert(flat(inner) && distinct_members(inner));
    assert(x->Newtype_0 == TypeName(n, None));
    let j = node_at(p.nodes, w).unwrap()->NewtypeStruct_1;
    assert(denotes(p, j, inner));
    assert(traces(y, data.subrange(5, data.len() as int)));
    lemma_kind_code_roundtrip(TraceNodeKind::NewtypeStruct);
    lemma_le_bytes_roundtrip(n);
    assert(full[pos] == data[0]);
    assert(data.subrange(0, 5)[0] == data[0]);
    assert(full.subrange(pos + 1, pos + 5) =~= data.subrange(0, 5).subrange(1, 5));
    assert(data.subrange(0, 5).subrange(1, 5) =~= le_bytes(n));
    assert(full.subrange(pos + 5, end) =~= data.subrange(5, data.len() as int));
    lemma_node_reads(s, y, inner, j, full, pos + 5, end);
    let p1 = pos + 5;
    let d = choose|d: Described| crate::reading::element_end(s, j, full, p1, d) == Some(end);
    let (trace, next) = node_at_pos(full, pos).unwrap();
    let c = SchemaNode::NewtypeStruct(n, j);
    assert(next == pos + 5);
    assert(trace == TraceNode::NewtypeStruct(n));
    assert(shallow_match(s, c, trace));
    assert(check_result(s, c, trace, f) == Some(Some(CheckResult::Simple)));
    assert(crate::reading::finish_end(s, c, full, next, f, d) == Some(end));
    assert(cursor_end(s, c, trace, full, next, f, d) == Some(end));
    assert(cursor_end(s, c, trace, full, next, fuel_of(s), d) == Some(end));
    assert(crate::reading::element_end(s, w, full, pos, d) == Some(end));
}

proof fn lemma_newtype_variant_reads(s: Schema, v: ValueShape, x: NodeModel, w: u32, full: Seq<u8>, pos: int, end: int, f: nat)
    requires
        0 <= pos < end <= full.len(),
        v matches ValueShape::Newtype(TypeName(_, Some(_)), _),
        traces(v, full.subrange(pos, end)),
        flat(x),
        distinct_members(x),
        !(x is Union),
        denotes(schema_pools(s), w, x),
        describes(x, v),
    ensures
        member_reads(s, w, full, pos, end, f),
    decreases v, 0int,
{
    let p = schema_pools(s);
    let data = full.subrange(pos, end);
    let n = v->Newtype_0.0;
    let vv = v->Newtype_0.1.unwrap();
    let y = *v->Newtype_1;
    assert(x is Newtype);
    let inner = *x->Newtype_1;
    assert(describes(inner, y));
    assert(flat(inner) && distinct_members(inner));
    assert(x->Newtype_0 == TypeName(n, Some(vv)));
    let j = node_at(p.nodes, w).unwrap()->NewtypeVariant_2;
    assert(denotes(p, j, inner));
    assert(traces(y, data.subrange(9, data.len() as int)));
    lemma_kind_code_roundtrip(TraceNodeKind::NewtypeVariant);
    lemma_le_bytes_roundtrip(n);
    lemma_le_bytes_roundtrip(vv);
    assert(full[pos] == data[0]);
    assert(data.subrange(0, 9)[0] == data[0]);
    assert(full.subrange(pos + 1, pos + 5) =~= data.subrange(0, 9).subrange(1, 5));
    assert(full.subrange(pos + 5, pos + 9) =~= data.subrange(0, 9).subrange(5, 9));
    assert(data.subrange(0, 9).subrange(1, 5) =~= le_bytes(n));
    assert(data.subrange(0, 9).subrange(5, 9) =~= le_bytes(vv));
    assert(full.subrange(pos + 9, end) =~= data.subrange(9, data.len() as int));
    lemma_node_reads(s, y, inner, j, full, pos + 9, end);
    let p1 = pos + 9;
    let d = choose|d: Described| crate::reading::element_end(s, j, full, p1, d) == Some(end);
    let (trace, next) = node_at_pos(full, pos).unwrap();
    let c = SchemaNode::NewtypeVariant(n, vv, j);
    assert(next == pos + 9);
    assert(trace == TraceNode::NewtypeVariant(n, vv));
    assert(shallow_match(s, c, trace));
    assert(check_result(s, c, trace, f) == Some(Some(CheckResult::Simple)));
    assert(crate::reading::finish_end(s, c, full, next, f, d) == Some(end));
    assert(cursor_end(s, c, trace, full, next, f, d) == Some(end));
    assert(cursor_end(s, c, trace, full, next, fuel_of(s), d) == Some(end));
    assert(crate::reading::element_end(s, w, full, pos, d) == Some(end));
}

/// The trace at `pos` of a value of shape `v`, read as the element at `i`, built from a node `m`
/// that describes `v`: the element, and the node after the trace's header, read the whole trace.
proof fn lemma_node_reads(s: Schema, v: ValueShape, m: NodeModel, i: u32, full: Seq<u8>, pos: int, end: int)
    requires
        0 <= pos < end <= full.len(),
        traces(v, full.subrange(pos, end)),
        flat(m),
        distinct_members(m),
        denotes(schema_pools(s), i, m),
        describes(m, v),
    ensures
        exists|d: Described| crate::reading::element_end(s, i, full, pos, d) == Some(end),
        node_at(s.node_keys(), i) is Some,
        node_at_pos(full, pos) is Some,
        ({
            let node = node_at(s.node_keys(), i).unwrap();
            let (trace, next) = node_at_pos(full, pos).unwrap();
            exists|d: Described| cursor_end(s, node, trace, full, next, fuel_of(s), d) == Some(end)
        }),
    decreases v, 2int,
{
    let p = schema_pools(s);
    let fuel = fuel_of(s);
    if !(m is Union) {
        lemma_member_reads(s, v, m, i, full, pos, end, fuel);
    } else {
        let ms = m->Union_0;
        lemma_describes_union(ms, v);
        let k = choose|k: int| 0 <= k < ms.len() && #[trigger] describes(ms[k], v);
        assert(!(ms[k] is Union) && flat(ms[k]) && distinct_members(ms[k]));
        let ws = variants_of(p, i);
        lemma_all_members_elim(p, ws, ms, ms.len() as int, k);
        lemma_member_in_elim(p, ws, ms[k], ws.len() as int);
        assert(!denotes(p, 0, ms[k])) by {
            if denotes(p, 0, ms[k]) {
                match v {
                    ValueShape::Leaf(leaf) => { assert(ms[k] == leaf); },
                    _ => {},
                }
            }
        }
        let j0 = choose|j: int| 0 <= j < ws.len() && denotes(p, #[trigger] ws[j], ms[k]);
        assert forall|t: int| 0 <= t < ws.len() implies (#[trigger] node_at(p.nodes, ws[t]) matches Some(c)
            && !(c is Union)) by {
            lemma_all_variants_elim(p, ws, ms, ws.len() as int, t);
            lemma_variant_from_elim(p, ws[t], ms, ms.len() as int);
            let u = choose|u: int| 0 <= u < ms.len() && denotes(p, ws[t], #[trigger] ms[u]);
            assert(ws.contains(ws[t]));
            lemma_not_union_node(p, ws[t], ms[u]);
        }
        assert(i != 0);
        if !(node_at(p.nodes, i) matches Some(SchemaNode::Union(_))) {
            assert(ws == seq![i]);
            assert(ws[j0] == i);
            lemma_member_reads(s, v, ms[k], i, full, pos, end, fuel);
        } else {
            let l = node_at(s.node_keys(), i).unwrap()->Union_0;
            assert(ws == s.node_lists.values@[l - 1]@);
            assert(s.node_lists.values@[l - 1]@.len() == s.node_lists.values@[l - 1].len());
            assert(fuel > 0);
            lemma_member_reads(s, v, ms[k], ws[j0], full, pos, end, fuel);
            let (trace, next) = node_at_pos(full, pos).unwrap();
            lemma_first_match_some(s, ws, trace, (fuel - 1) as nat, 0);
            let r = first_match(s, ws, trace, (fuel - 1) as nat, 0);
            let j = r.unwrap().unwrap()->Discriminated_0;
            let child = r.unwrap().unwrap()->Discriminated_2;
            let w = ws[j as int];
            lemma_all_variants_elim(p, ws, ms, ws.len() as int, j as int);
            lemma_variant_from_elim(p, w, ms, ms.len() as int);
            let t = choose|t: int| 0 <= t < ms.len() && denotes(p, w, #[trigger] ms[t]);
            assert(ws.contains(w));
            lemma_denotes_top(p, w, ms[t], match v { ValueShape::Leaf(leaf) => leaf, _ => NodeModel::Bool });
            assert(describes(ms[t], v)) by {
                match v {
                    ValueShape::Leaf(leaf) => {
                        lemma_leaf_node_reads(s, leaf, full, pos, end, (fuel - 1) as nat);
                        assert(check_result(s, child, trace, (fuel - 1) as nat) == Some(Some(CheckResult::Simple)));
                        assert(child == leaf_schema_node(leaf));
                        assert(ms[t] == leaf);
                    },
                    _ => {
                        if t != k {
                            if t < k {
                                assert(!unifiable(ms[t], ms[k]));
                            } else {
                                assert(!unifiable(ms[k], ms[t]));
                            }
                        }
                    },
                }
            }
            assert(!(ms[t] is Union) && flat(ms[t]) && distinct_members(ms[t]));
            lemma_member_reads(s, v, ms[t], w, full, pos, end, (fuel - 1) as nat);
            let f1 = (fuel - 1) as nat;
            let dc = choose|d: Described| cursor_end(s, child, trace, full, next, f1, d) == Some(end);
            crate::describe::lemma_bits_for_bound(ws.len());
            let bits = crate::describe::bits_for(ws.len()) as u32;
            let d = Described::Variant(bits, j as u64, Box::new(dc));
            assert(check_result(s, SchemaNode::Union(l), trace, fuel) == r);
            assert(cursor_end(s, SchemaNode::Union(l), trace, full, next, fuel, d) == Some(end));
            assert(crate::reading::element_end(s, i, full, pos, d) == Some(end));
        }
    }
}

/// A traced value reads back, for values built of leaves (strings and byte arrays aside),
/// options that hold a value, and newtypes: the trace that tracing such a value appends, read by
/// a schema whose root was built from a node that describes the value and whose unions hold no
/// two members that would merge, has a reading, and that reading takes the whole trace.
pub proof fn law_traced_value_reads_back(s: Schema, m: NodeModel, v: ValueShape, data: Seq<u8>)
    requires
        traces(v, data),
        flat(m),
        distinct_members(m),
        denotes(schema_pools(s), s.root_index, m),
        describes(m, v),
    ensures
        exists|d: Described| crate::reading::describes(s, data, d),
{
    assert(data.subrange(0, data.len() as int) =~= data);
    assert(data.len() >= 1) by {
        match v {
            ValueShape::Leaf(leaf) => {},
            ValueShape::Newtype(TypeName(_, None), _) => {},
            ValueShape::Newtype(TypeName(_, Some(_)), _) => {},
            _ => {},
        }
    }
    lemma_node_reads(s, v, m, s.root_index, data, 0, data.len() as int);
    let node = node_at(s.node_keys(), s.root_index).unwrap();
    let (trace, next) = node_at_pos(data, 0).unwrap();
    let d = choose|d: Described| cursor_end(s, node, trace, data, next, fuel_of(s), d) == Some(data.len() as int);
    assert(crate::reading::describes(s, data, d));
}

} // verus!

verus! {

/// The `n` little-endian bytes of the number `x`.
pub open spec fn le_bytes_of(x: nat, n: nat) -> Seq<u8>
    decreases n,
{
    if n == 0 {
        Seq::empty()
    } else {
        seq![(x % 256) as u8] + le_bytes_of(x / 256, (n - 1) as nat)
    }
}

/// Reading the `n` little-endian bytes of a number below `256^n` gives the number.
pub proof fn lemma_le_bytes_of(x: nat, n: nat)
    requires
        x < crate::reader::pow256(n),
    ensures
        le_bytes_of(x, n).len() == n,
        le_uint(le_bytes_of(x, n)) == x,
    decreases n,
{
    if n > 0 {
        vstd::arithmetic::div_mod::lemma_fundamental_div_mod(x as int, 256);
        assert(x / 256 < crate::reader::pow256((n - 1) as nat)) by (nonlinear_arith)
            requires
                x < 256 * crate::reader::pow256((n - 1) as nat),
                x == 256 * (x / 256) + x % 256,
                0 <= x % 256 < 256,
        ;
        lemma_le_bytes_of(x / 256, (n - 1) as nat);
        let b = le_bytes_of(x, n);
        assert(b.drop_first() =~= le_bytes_of(x / 256, (n - 1) as nat));
    }
}

proof fn lemma_pow256_values()
    ensures
        crate::reader::pow256(1) == 0x100,
        crate::reader::pow256(2) == 0x1_0000,
        crate::reader::pow256(4) == 0x1_0000_0000,
        crate::reader::pow256(8) == 0x1_0000_0000_0000_0000,
        crate::reader::pow256(16) == 0x1_0000_0000_0000_0000_0000_0000_0000_0000,
{
    reveal_with_fuel(crate::reader::pow256, 17);
}

/// Traced signed integers read back: each signed integer node reads the little-endian bytes of
/// any value of its width (its two's complement bits) as that value.
pub proof fn law_signed_read_back(a: i8, b: i16, c: i32, d: i64, e: i128)
    ensures
        scalar_value(SchemaNode::I8, le_bytes_of(a as u8 as nat, 1)) == Some(Described::I8(a)),
        scalar_value(SchemaNode::I16, le_bytes_of(b as u16 as nat, 2)) == Some(Described::I16(b)),
        scalar_value(SchemaNode::I32, le_bytes_of(c as u32 as nat, 4)) == Some(Described::I32(c)),
        scalar_value(SchemaNode::I64, le_bytes_of(d as u64 as nat, 8)) == Some(Described::I64(d)),
        scalar_value(SchemaNode::I128, le_bytes_of(e as u128 as nat, 16)) == Some(Described::I128(e)),
{
    lemma_pow256_values();
    lemma_le_bytes_of(a as u8 as nat, 1);
    lemma_le_bytes_of(b as u16 as nat, 2);
    lemma_le_bytes_of(c as u32 as nat, 4);
    lemma_le_bytes_of(d as u64 as nat, 8);
    lemma_le_bytes_of(e as u128 as nat, 16);
    assert((a as u8) as i8 == a) by (bit_vector);
    assert((b as u16) as i16 == b) by (bit_vector);
    assert((c as u32) as i32 == c) by (bit_vector);
    assert((d as u64) as i64 == d) by (bit_vector);
    assert((e as u128) as i128 == e) by (bit_vector);
}

/// Traced unsigned integers and floats read back: each node reads the little-endian bytes of any
/// value of its width as that value (a float as its bits).
pub proof fn law_unsigned_read_back(a: u8, b: u16, c: u32, d: u64, e: u128)
    ensures
        scalar_value(SchemaNode::U8, le_bytes_of(a as nat, 1)) == Some(Described::U8(a)),
        scalar_value(SchemaNode::U16, le_bytes_of(b as nat, 2)) == Some(Described::U16(b)),
        scalar_value(SchemaNode::U32, le_bytes_of(c as nat, 4)) == Some(Described::U32(c)),
        scalar_value(SchemaNode::U64, le_bytes_of(d as nat, 8)) == Some(Described::U64(d)),
        scalar_value(SchemaNode::U128, le_bytes_of(e as nat, 16)) == Some(Described::U128(e)),
        scalar_value(SchemaNode::F32, le_bytes_of(c as nat, 4)) == Some(Described::F32(c)),
        scalar_value(SchemaNode::F64, le_bytes_of(d as nat, 8)) == Some(Described::F64(d)),
{
    lemma_pow256_values();
    lemma_le_bytes_of(a as nat, 1);
    lemma_le_bytes_of(b as nat, 2);
    lemma_le_bytes_of(c as nat, 4);
    lemma_le_bytes_of(d as nat, 8);
    lemma_le_bytes_of(e as nat, 16);
}

/// A traced `bool` and `char` read back: the byte 1 or 0 as the truth value, the four
/// little-endian bytes of a character's code as that character.
pub proof fn law_bool_char_read_back(b: bool, c: char)
    ensures
        scalar_value(SchemaNode::Bool, le_bytes_of(if b { 1 } else { 0 }, 1)) == Some(Described::Bool(b)),
        scalar_value(SchemaNode::Char, le_bytes_of(c as u32 as nat, 4)) == Some(Described::Char(c as u32)),
{
    lemma_pow256_values();
    lemma_le_bytes_of(if b { 1 } else { 0 }, 1);
    lemma_le_bytes_of(c as u32 as nat, 4);
}

} // verus!

verus! {

/// Tracing a scalar records the schema leaf of the kind it traced: that leaf's trace kind is the
/// traced kind byte and its width the width of the traced bytes. So the trace that tracing a
/// scalar appends (its kind byte, then its bytes) reads back, as a whole, through any schema
/// built from a node that describes the recorded leaf; where that node is the leaf itself, it
/// reads back as the leaf's value of those bytes.
pub proof fn law_traced_scalar_reads_back(kind: TraceNodeKind, bytes: Seq<u8>, s: Schema, m: NodeModel)
    requires
        crate::tracer::scalar_width(kind) == Some(bytes.len()),
    ensures
        leaf_kind(crate::tracer::scalar_model(kind)) == kind,
        leaf_width(crate::tracer::scalar_model(kind)) == bytes.len(),
        flat(m) && denotes(schema_pools(s), s.root_index, m)
            && describes(m, ValueShape::Leaf(crate::tracer::scalar_model(kind)))
            ==> exists|d: Described| crate::reading::describes(s, seq![kind_code(kind)] + bytes, d),
        node_at(s.node_keys(), s.root_index) == Some(leaf_schema_node(crate::tracer::scalar_model(kind)))
            ==> crate::reading::describes(s, seq![kind_code(kind)] + bytes,
                scalar_value(leaf_schema_node(crate::tracer::scalar_model(kind)), bytes).unwrap()),
{
    let leaf = crate::tracer::scalar_model(kind);
    let data = seq![kind_code(kind)] + bytes;
    assert(data.subrange(1, data.len() as int) =~= bytes);
    assert(leaf_trace(leaf, data));
    if flat(m) && denotes(schema_pools(s), s.root_index, m) && describes(m, ValueShape::Leaf(leaf)) {
        law_traced_leaf_reads_back(s, m, leaf, data);
    }
    if node_at(s.node_keys(), s.root_index) == Some(leaf_schema_node(leaf)) {
        lemma_leaf_node_reads(s, leaf, data, 0, data.len() as int, fuel_of(s));
        assert(data.subrange(0, data.len() as int) =~= data);
    }
}

} // verus!
