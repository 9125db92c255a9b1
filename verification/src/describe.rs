//! Describing a trace by a schema: reading each node of the trace as the schema says, and
//! choosing the union variant that matches it.

use vstd::prelude::*;
use crate::presence::{discriminant_from_presence, Presence};
use crate::reader::{
    le_uint, pop_bytes, pop_trace_node, pop_u32, pop_u8, read_le, DescribeError, TraceNode,
};
use crate::reading::{
    all_fields,
    cursor_end,
    describes,
    element_end,
    entries_end,
    entries_end_at,
    fields_end,
    fields_end_at,
    finish_end,
    fixed_struct,
    fuel_of,
    full_struct_header,
    law_describes_unique,
    lemma_entries_end_at_fail,
    lemma_entries_end_at_step,
    lemma_entries_end_push,
    lemma_fields_end_at_fail,
    lemma_fields_end_at_step,
    lemma_fields_end_push,
    lemma_nonzero_prefix,
    lemma_seq_end_at_fail,
    lemma_seq_end_at_step,
    lemma_seq_end_prefix,
    lemma_seq_end_scalar,
    lemma_struct_end_plain,
    lemma_struct_end_variant,
    lemma_struct_plain_reads,
    lemma_struct_variant_reads,
    listed_fields,
    names_at,
    nonzero,
    picked,
    same_described,
    seq_element_end,
    seq_end,
    seq_end_at,
    seq_readable,
    struct_end,
};
use crate::schema::{list_at, node_at, Schema, SchemaNode};
use crate::trace::{kind_code, TraceNodeKind, ALL_FIELDS_PRESENT};

verus! {

/// A traced value as a schema describes it: what the described serialization hands on.
#[derive(Debug, PartialEq)]
pub enum Described {
    Bool(bool),
    I8(i8),
    I16(i16),
    I32(i32),
    I64(i64),
    I128(i128),
    U8(u8),
    U16(u16),
    U32(u32),
    U64(u64),
    U128(u128),
    /// The bits of an `f32`.
    F32(u32),
    /// The bits of an `f64`.
    F64(u64),
    /// A Unicode scalar value.
    Char(u32),
    /// UTF-8 bytes.
    String(Vec<u8>),
    Bytes(Vec<u8>),
    /// A unit, unit struct, unit variant or `None`.
    Unit,
    Sequence(Vec<Described>),
    /// A tuple, the fields of a tuple struct or variant, or the serialized fields of a struct.
    Tuple(Vec<Described>),
    Mapping(Vec<(Described, Described)>),
    /// One of `2^bits` alternatives, the `discriminant`-th, with its value: a union variant, or
    /// which skippable fields of a struct are there.
    Variant(u32, u64, Box<Described>),
}

/// How a trace node matched a schema node.
#[derive(Debug, Clone, Copy)]
pub enum CheckResult {
    /// The node itself describes the trace node.
    Simple,
    /// Variant `d` of the union's `n` variants, the node `child`, describes the trace node.
    Discriminated(usize, usize, SchemaNode),
}

/// Whether `node` is a schema node of a scalar that is read straight off the trace.
pub open spec fn is_scalar_node(node: SchemaNode) -> bool {
    match node {
        SchemaNode::Bool | SchemaNode::I8 | SchemaNode::I16 | SchemaNode::I32 | SchemaNode::I64
        | SchemaNode::I128 | SchemaNode::U8 | SchemaNode::U16 | SchemaNode::U32 | SchemaNode::U64
        | SchemaNode::U128 | SchemaNode::F32 | SchemaNode::F64 | SchemaNode::Char => true,
        _ => false,
    }
}

/// The trace kind and the byte width of a scalar schema node.
pub open spec fn scalar_layout(node: SchemaNode) -> (TraceNodeKind, int) {
    match node {
        SchemaNode::Bool => (TraceNodeKind::Bool, 1),
        SchemaNode::I8 => (TraceNodeKind::I8, 1),
        SchemaNode::I16 => (TraceNodeKind::I16, 2),
        SchemaNode::I32 => (TraceNodeKind::I32, 4),
        SchemaNode::I64 => (TraceNodeKind::I64, 8),
        SchemaNode::I128 => (TraceNodeKind::I128, 16),
        SchemaNode::U8 => (TraceNodeKind::U8, 1),
        SchemaNode::U16 => (TraceNodeKind::U16, 2),
        SchemaNode::U32 => (TraceNodeKind::U32, 4),
        SchemaNode::U64 => (TraceNodeKind::U64, 8),
        SchemaNode::U128 => (TraceNodeKind::U128, 16),
        SchemaNode::F32 => (TraceNodeKind::F32, 4),
        SchemaNode::F64 => (TraceNodeKind::F64, 8),
        _ => (TraceNodeKind::Char, 4),
    }
}

/// Whether `c` is a Unicode scalar value.
pub open spec fn is_scalar_value(c: u32) -> bool {
    c < 0xD800 || (0xE000 <= c && c <= 0x10FFFF)
}

/// The scalar value that the little-endian bytes `b` hold for the scalar schema node `node`.
pub open spec fn scalar_value(node: SchemaNode, b: Seq<u8>) -> Option<Described> {
    let v = le_uint(b);
    match node {
        SchemaNode::Bool => Some(Described::Bool(v != 0)),
        SchemaNode::I8 => Some(Described::I8(v as u8 as i8)),
        SchemaNode::I16 => Some(Described::I16(v as u16 as i16)),
        SchemaNode::I32 => Some(Described::I32(v as u32 as i32)),
        SchemaNode::I64 => Some(Described::I64(v as u64 as i64)),
        SchemaNode::I128 => Some(Described::I128(v as u128 as i128)),
        SchemaNode::U8 => Some(Described::U8(v as u8)),
        SchemaNode::U16 => Some(Described::U16(v as u16)),
        SchemaNode::U32 => Some(Described::U32(v as u32)),
        SchemaNode::U64 => Some(Described::U64(v as u64)),
        SchemaNode::U128 => Some(Described::U128(v as u128)),
        SchemaNode::F32 => Some(Described::F32(v as u32)),
        SchemaNode::F64 => Some(Described::F64(v as u64)),
        _ => if is_scalar_value(v as u32) { Some(Described::Char(v as u32)) } else { None },
    }
}

/// Reads the scalar of the scalar schema node `node` whose bytes start at `pos` (after its kind
/// byte).
pub fn read_scalar(node: SchemaNode, data: &[u8], pos: usize) -> (r: Result<(Described, usize), DescribeError>)
    requires
        is_scalar_node(node),
    ensures
        r matches Ok((_, end)) ==> end == pos + scalar_layout(node).1 && end <= data@.len(),
        ({
            let width = scalar_layout(node).1;
            &&& pos + width > data@.len() ==> r == Err::<(Described, usize), DescribeError>(DescribeError::UnexpectedEnd)
            &&& pos + width <= data@.len() ==> match scalar_value(node, data@.subrange(pos as int, pos + width)) {
                Some(v) => r matches Ok((value, end)) && value == v && end == pos + width,
                None => r is Err,
            }
        }),
        r is Err && pos + scalar_layout(node).1 <= data@.len() ==> (node is Char && r->Err_0 is BadChar),
{
    let width: usize = match node {
        SchemaNode::Bool | SchemaNode::I8 | SchemaNode::U8 => 1,
        SchemaNode::I16 | SchemaNode::U16 => 2,
        SchemaNode::I32 | SchemaNode::U32 | SchemaNode::F32 | SchemaNode::Char => 4,
        SchemaNode::I64 | SchemaNode::U64 | SchemaNode::F64 => 8,
        _ => 16,
    };
    if pos > data.len() || data.len() - pos < width {
        return Err(DescribeError::UnexpectedEnd);
    }
    let v = read_le(data, pos, width);
    proof {
        crate::reader::lemma_le_uint_bound(data@.subrange(pos as int, pos + width));
        reveal_with_fuel(crate::reader::pow256, 17);
    }
    let value = match node {
        SchemaNode::Bool => Described::Bool(v != 0),
        SchemaNode::I8 => Described::I8(v as u8 as i8),
        SchemaNode::I16 => Described::I16(v as u16 as i16),
        SchemaNode::I32 => Described::I32(v as u32 as i32),
        SchemaNode::I64 => Described::I64(v as u64 as i64),
        SchemaNode::I128 => Described::I128(v as i128),
        SchemaNode::U8 => Described::U8(v as u8),
        SchemaNode::U16 => Described::U16(v as u16),
        SchemaNode::U32 => Described::U32(v as u32),
        SchemaNode::U64 => Described::U64(v as u64),
        SchemaNode::U128 => Described::U128(v),
        SchemaNode::F32 => Described::F32(v as u32),
        SchemaNode::F64 => Described::F64(v as u64),
        _ => {
            let c = v as u32;
            if c < 0xD800 || (0xE000 <= c && c <= 0x10FFFF) {
                Described::Char(c)
            } else {
                return Err(DescribeError::BadChar(c));
            }
        },
    };
    Ok((value, pos + width))
}

/// The number of bits that tell `n` alternatives apart: the least `b` with `2^b >= n`.
pub open spec fn bits_for(n: nat) -> nat
    decreases n,
{
    if n <= 1 {
        0
    } else {
        1 + bits_for(((n + 1) / 2) as nat)
    }
}

/// The number of bits that tell `n` alternatives apart.
pub fn discriminant_bits(n: usize) -> (r: u32)
    ensures
        r == bits_for(n as nat),
{
    let mut m: usize = n;
    let mut bits: u32 = 0;
    proof {
        lemma_bits_for_bound(n as nat);
    }
    while m > 1
        invariant
            bits + bits_for(m as nat) == bits_for(n as nat),
            bits <= 64 - bits_for(m as nat),
            m <= n,
        decreases m,
    {
        proof {
            lemma_bits_for_bound(m as nat);
        }
        m = m / 2 + m % 2;
        bits += 1;
    }
    bits
}

pub proof fn lemma_bits_for_bound(n: nat)
    requires
        n <= usize::MAX,
    ensures
        bits_for(n) <= 64,
{
    vstd::arithmetic::power2::lemma2_to64();
    lemma_bits_for_pow2(n, 64);
}

pub proof fn lemma_bits_for_pow2(n: nat, k: nat)
    requires
        n <= vstd::arithmetic::power2::pow2(k),
    ensures
        bits_for(n) <= k,
    decreases k,
{
    if n > 1 {
        if k == 0 {
            vstd::arithmetic::power2::lemma2_to64();
        } else {
            vstd::arithmetic::power2::lemma_pow2_unfold(k);
            lemma_bits_for_pow2(((n + 1) / 2) as nat, (k - 1) as nat);
        }
    }
}

/// The number of entries of the node list `l` of the schema, if it has that list.
pub open spec fn list_len(s: Schema, l: u32) -> Option<int> {
    match list_at(s.spec_node_lists(), l) {
        Some(list) => Some(list.len() as int),
        None => None,
    }
}

/// Whether the trace node `trace` has the shape of the schema node `node`, which is no union:
/// the same kind, with the same names and, for tuples, as many fields as the node's field list.
pub open spec fn shallow_match(s: Schema, node: SchemaNode, trace: TraceNode) -> bool {
    match (trace, node) {
        (TraceNode::Bool, SchemaNode::Bool) => true,
        (TraceNode::I8, SchemaNode::I8) => true,
        (TraceNode::I16, SchemaNode::I16) => true,
        (TraceNode::I32, SchemaNode::I32) => true,
        (TraceNode::I64, SchemaNode::I64) => true,
        (TraceNode::I128, SchemaNode::I128) => true,
        (TraceNode::U8, SchemaNode::U8) => true,
        (TraceNode::U16, SchemaNode::U16) => true,
        (TraceNode::U32, SchemaNode::U32) => true,
        (TraceNode::U64, SchemaNode::U64) => true,
        (TraceNode::U128, SchemaNode::U128) => true,
        (TraceNode::F32, SchemaNode::F32) => true,
        (TraceNode::F64, SchemaNode::F64) => true,
        (TraceNode::Char, SchemaNode::Char) => true,
        (TraceNode::String, SchemaNode::String) => true,
        (TraceNode::Bytes, SchemaNode::Bytes) => true,
        (TraceNode::OptionNone, SchemaNode::OptionNone) => true,
        (TraceNode::OptionSome, SchemaNode::OptionSome(_)) => true,
        (TraceNode::Unit, SchemaNode::Unit) => true,
        (TraceNode::Mapping, SchemaNode::Mapping(_, _)) => true,
        (TraceNode::Sequence, SchemaNode::Sequence(_)) => true,
        (TraceNode::UnitStruct(a), SchemaNode::UnitStruct(b)) => a == b,
        (TraceNode::NewtypeStruct(a), SchemaNode::NewtypeStruct(b, _)) => a == b,
        (TraceNode::UnitVariant(a, v), SchemaNode::UnitVariant(b, w)) => a == b && v == w,
        (TraceNode::NewtypeVariant(a, v), SchemaNode::NewtypeVariant(b, w, _)) => a == b && v == w,
        (TraceNode::Tuple(n), SchemaNode::Tuple(l)) => list_len(s, l) == Some(n as int),
        (TraceNode::TupleStruct(n, a), SchemaNode::TupleStruct(b, l)) => a == b && list_len(s, l) == Some(n as int),
        (TraceNode::TupleVariant(n, a, v), SchemaNode::TupleVariant(b, w, l)) =>
            a == b && v == w && list_len(s, l) == Some(n as int),
        (TraceNode::Struct(a, f), SchemaNode::Struct(b, g, _, _)) => a == b && f == g,
        (TraceNode::StructVariant(a, v, f), SchemaNode::StructVariant(b, w, g, _, _)) => a == b && v == w && f == g,
        _ => false,
    }
}

/// What checking the trace node `trace` against the schema node `node` gives: an error (`None`:
/// an index the schema lacks, or unions nested deeper than `fuel`), no match, or how it matched:
/// a node that is no union by its shape, a union by its first variant that matches.
pub open spec fn check_result(s: Schema, node: SchemaNode, trace: TraceNode, fuel: nat) -> Option<Option<CheckResult>>
    decreases fuel, 1int, 0int,
{
    match node {
        SchemaNode::Union(l) => if fuel == 0 {
            None
        } else {
            match list_at(s.spec_node_lists(), l) {
                Some(variants) => first_match(s, variants, trace, (fuel - 1) as nat, 0),
                None => None,
            }
        },
        _ => {
            let lookup = match (trace, node) {
                (TraceNode::Tuple(_), SchemaNode::Tuple(l)) => Some(l),
                (TraceNode::TupleStruct(_, a), SchemaNode::TupleStruct(b, l)) => if a == b { Some(l) } else { None },
                (TraceNode::TupleVariant(_, a, v), SchemaNode::TupleVariant(b, w, l)) =>
                    if a == b && v == w { Some(l) } else { None },
                _ => None,
            };
            if lookup matches Some(l) && list_len(s, l) is None {
                None
            } else if shallow_match(s, node, trace) {
                Some(Some(CheckResult::Simple))
            } else {
                Some(None)
            }
        },
    }
}

/// The first of the variants `variants[k..]` that matches the trace node `trace`, if checking
/// them meets no error first.
pub open spec fn first_match(s: Schema, variants: Seq<u32>, trace: TraceNode, fuel: nat, k: int) -> Option<Option<CheckResult>>
    decreases fuel, 2int, variants.len() - k,
{
    if k < 0 || k >= variants.len() {
        Some(None)
    } else {
        match node_at(s.node_keys(), variants[k]) {
            None => None,
            Some(child) => match check_result(s, child, trace, fuel) {
                None => None,
                Some(Some(_)) => Some(Some(CheckResult::Discriminated(k as usize, variants.len() as usize, child))),
                Some(None) => first_match(s, variants, trace, fuel, k + 1),
            },
        }
    }
}

/// Whether the tuple length `n` is the number of entries of the node list `l`.
pub fn matches_length(schema: &Schema, n: u32, l: u32) -> (r: Result<bool, DescribeError>)
    requires
        schema.wf(),
    ensures
        match list_len(*schema, l) {
            Some(len) => r == Ok::<bool, DescribeError>(len == n as int),
            None => r is Err,
        },
{
    match schema.node_list(l) {
        Ok(list) => Ok(list.len() == n as usize),
        Err(e) => Err(DescribeError::Schema(e)),
    }
}

/// Checks whether the trace node matches the schema node: for a union, the first variant that
/// matches (unions nested deeper than `fuel` are refused as a cycle).
pub fn check(schema: &Schema, node: SchemaNode, trace: TraceNode, fuel: usize) -> (r: Result<Option<CheckResult>, DescribeError>)
    requires
        schema.wf(),
    ensures
        match check_result(*schema, node, trace, fuel as nat) {
            None => r is Err,
            Some(c) => r == Ok::<Option<CheckResult>, DescribeError>(c),
        },
        !(node is Union) ==> match r {
            Ok(Some(c)) => c is Simple && shallow_match(*schema, node, trace),
            Ok(None) => !shallow_match(*schema, node, trace),
            Err(_) => true,
        },
        node is Union ==> match r {
            Ok(Some(c)) => c matches CheckResult::Discriminated(d, n, _) && d < n && fuel > 0,
            _ => true,
        },
    decreases fuel,
{
    if let SchemaNode::Union(l) = node {
        if fuel == 0 {
            return Err(DescribeError::UnionCycle);
        }
        let variants = match schema.node_list(l) {
            Ok(variants) => variants,
            Err(e) => return Err(DescribeError::Schema(e)),
        };
        let mut d: usize = 0;
        while d < variants.len()
            invariant
                0 <= d <= variants@.len(),
                schema.wf(),
                fuel > 0,
                node == SchemaNode::Union(l),
                list_at(schema.spec_node_lists(), l) == Some(variants@),
                check_result(*schema, node, trace, fuel as nat)
                    == first_match(*schema, variants@, trace, (fuel - 1) as nat, d as int),
            decreases variants@.len() - d,
        {
            let child = match schema.node(variants[d]) {
                Ok(child) => child,
                Err(e) => return Err(DescribeError::Schema(e)),
            };
            match check(schema, child, trace, fuel - 1) {
                Ok(Some(_)) => return Ok(Some(CheckResult::Discriminated(d, variants.len(), child))),
                Ok(None) => {},
                Err(e) => return Err(e),
            }
            d += 1;
        }
        return Ok(None);
    }
    let matched = match (trace, node) {
        (TraceNode::Bool, SchemaNode::Bool)
        | (TraceNode::I8, SchemaNode::I8)
        | (TraceNode::I16, SchemaNode::I16)
        | (TraceNode::I32, SchemaNode::I32)
        | (TraceNode::I64, SchemaNode::I64)
        | (TraceNode::I128, SchemaNode::I128)
        | (TraceNode::U8, SchemaNode::U8)
        | (TraceNode::U16, SchemaNode::U16)
        | (TraceNode::U32, SchemaNode::U32)
        | (TraceNode::U64, SchemaNode::U64)
        | (TraceNode::U128, SchemaNode::U128)
        | (TraceNode::F32, SchemaNode::F32)
        | (TraceNode::F64, SchemaNode::F64)
        | (TraceNode::Char, SchemaNode::Char)
        | (TraceNode::String, SchemaNode::String)
        | (TraceNode::Bytes, SchemaNode::Bytes)
        | (TraceNode::OptionNone, SchemaNode::OptionNone)
        | (TraceNode::OptionSome, SchemaNode::OptionSome(_))
        | (TraceNode::Unit, SchemaNode::Unit)
        | (TraceNode::Mapping, SchemaNode::Mapping(_, _))
        | (TraceNode::Sequence, SchemaNode::Sequence(_)) => true,
        (TraceNode::UnitStruct(a), SchemaNode::UnitStruct(b)) => a == b,
        (TraceNode::NewtypeStruct(a), SchemaNode::NewtypeStruct(b, _)) => a == b,
        (TraceNode::UnitVariant(a, v), SchemaNode::UnitVariant(b, w)) => a == b && v == w,
        (TraceNode::NewtypeVariant(a, v), SchemaNode::NewtypeVariant(b, w, _)) => a == b && v == w,
        (TraceNode::Tuple(n), SchemaNode::Tuple(l)) => match matches_length(schema, n, l) {
            Ok(same) => same,
            Err(e) => return Err(e),
        },
        (TraceNode::TupleStruct(n, a), SchemaNode::TupleStruct(b, l)) => {
            if a == b {
                match matches_length(schema, n, l) {
                    Ok(same) => same,
                    Err(e) => return Err(e),
                }
            } else {
                false
            }
        },
        (TraceNode::TupleVariant(n, a, v), SchemaNode::TupleVariant(b, w, l)) => {
            if a == b && v == w {
                match matches_length(schema, n, l) {
                    Ok(same) => same,
                    Err(e) => return Err(e),
                }
            } else {
                false
            }
        },
        (TraceNode::Struct(a, f), SchemaNode::Struct(b, g, _, _)) => a == b && f == g,
        (TraceNode::StructVariant(a, v, f), SchemaNode::StructVariant(b, w, g, _, _)) => a == b && v == w && f == g,
        _ => false,
    };
    if matched {
        Ok(Some(CheckResult::Simple))
    } else {
        Ok(None)
    }
}

/// How deep unions may nest when reading one node of a trace by `schema`: deeper nesting can
/// only come from unions that list one another.
pub fn union_fuel(schema: &Schema) -> (r: usize)
    ensures
        r >= 1,
        r == fuel_of(*schema),
{
    let n = schema.nodes.values.len();
    if n < usize::MAX {
        n + 1
    } else {
        n
    }
}

/// Whether the trace node `trace` is that of the scalar schema node `node`.
pub fn expect_trace_kind(data: &[u8], pos: usize, kind: TraceNodeKind) -> (r: Result<usize, DescribeError>)
    ensures
        pos < data@.len() && data@[pos as int] == kind_code(kind) ==> (r matches Ok(end) && end == pos + 1),
        pos < data@.len() && data@[pos as int] != kind_code(kind) ==> r == Err::<usize, DescribeError>(DescribeError::Mismatch),
        pos >= data@.len() ==> r == Err::<usize, DescribeError>(DescribeError::UnexpectedEnd),
{
    let (code, next) = match pop_u8(data, pos) {
        Ok(x) => x,
        Err(e) => return Err(e),
    };
    if code == kind.code() {
        Ok(next)
    } else {
        Err(DescribeError::Mismatch)
    }
}

/// The trace kind and the width of a scalar schema node.
pub fn scalar_kind(node: SchemaNode) -> (r: Option<TraceNodeKind>)
    ensures
        is_scalar_node(node) ==> r == Some(scalar_layout(node).0),
        !is_scalar_node(node) ==> r is None,
{
    match node {
        SchemaNode::Bool => Some(TraceNodeKind::Bool),
        SchemaNode::I8 => Some(TraceNodeKind::I8),
        SchemaNode::I16 => Some(TraceNodeKind::I16),
        SchemaNode::I32 => Some(TraceNodeKind::I32),
        SchemaNode::I64 => Some(TraceNodeKind::I64),
        SchemaNode::I128 => Some(TraceNodeKind::I128),
        SchemaNode::U8 => Some(TraceNodeKind::U8),
        SchemaNode::U16 => Some(TraceNodeKind::U16),
        SchemaNode::U32 => Some(TraceNodeKind::U32),
        SchemaNode::U64 => Some(TraceNodeKind::U64),
        SchemaNode::U128 => Some(TraceNodeKind::U128),
        SchemaNode::F32 => Some(TraceNodeKind::F32),
        SchemaNode::F64 => Some(TraceNodeKind::F64),
        SchemaNode::Char => Some(TraceNodeKind::Char),
        _ => None,
    }
}

/// Reads the node of the trace at `pos` as the schema node at `index` describes it: a scalar
/// straight off the trace (after checking its kind byte), anything else through its header.
/// It fails exactly when no reading of the node succeeds, and every reading ends where it does.
pub fn pop_element(schema: &Schema, index: u32, data: &[u8], pos: usize) -> (r: Result<(Described, usize), DescribeError>)
    requires
        schema.wf(),
        pos <= data@.len(),
    ensures
        r matches Ok((v, end)) ==> pos < end <= data@.len()
            && element_end(*schema, index, data@, pos as int, v) == Some(end as int),
        r matches Ok((_, end)) ==> forall|d: Described| #[trigger] element_end(*schema, index, data@, pos as int, d) is None
            || element_end(*schema, index, data@, pos as int, d) == Some(end as int),
        r is Err ==> forall|d: Described| #[trigger] element_end(*schema, index, data@, pos as int, d) is None,
        node_at(schema.node_keys(), index) matches Some(n) && is_scalar_node(n) && pos < data@.len()
            && data@[pos as int] != kind_code(scalar_layout(n).0)
            ==> r == Err::<(Described, usize), DescribeError>(DescribeError::Mismatch),
    decreases data@.len() - pos, 0int, 0int,
{
    let node = match schema.node(index) {
        Ok(node) => node,
        Err(e) => return Err(DescribeError::Schema(e)),
    };
    if let Some(kind) = scalar_kind(node) {
        let next = match expect_trace_kind(data, pos, kind) {
            Ok(next) => next,
            Err(e) => return Err(e),
        };
        return read_scalar(node, data, next);
    }
    let (trace, next) = match pop_trace_node(data, pos) {
        Ok(x) => x,
        Err(e) => return Err(e),
    };
    let fuel = union_fuel(schema);
    proof {
        assert forall|d: Described| #[trigger] element_end(*schema, index, data@, pos as int, d)
            == cursor_end(*schema, node, trace, data@, next as int, fuel as nat, d) by {}
    }
    serialize_cursor(schema, node, trace, data, next, fuel)
}

/// Reads the trace node whose header `trace` ends at `pos` as `node` describes it: checks that
/// they match, then reads the rest. It fails exactly when no reading succeeds, and every
/// reading ends where it does.
pub fn serialize_cursor(
    schema: &Schema,
    node: SchemaNode,
    trace: TraceNode,
    data: &[u8],
    pos: usize,
    fuel: usize,
) -> (r: Result<(Described, usize), DescribeError>)
    requires
        schema.wf(),
        pos <= data@.len(),
    ensures
        r matches Ok((v, end)) ==> pos <= end <= data@.len()
            && cursor_end(*schema, node, trace, data@, pos as int, fuel as nat, v) == Some(end as int),
        r matches Ok((_, end)) ==> forall|d: Described| #[trigger] cursor_end(*schema, node, trace, data@, pos as int, fuel as nat, d) is None
            || cursor_end(*schema, node, trace, data@, pos as int, fuel as nat, d) == Some(end as int),
        r is Err ==> forall|d: Described| #[trigger] cursor_end(*schema, node, trace, data@, pos as int, fuel as nat, d) is None,
        !(node is Union) && !shallow_match(*schema, node, trace) ==> r is Err,
        check_result(*schema, node, trace, fuel as nat) == Some(None::<CheckResult>)
            ==> r == Err::<(Described, usize), DescribeError>(DescribeError::Mismatch),
    decreases data@.len() - pos, fuel, 4int,
{
    let checked = match check(schema, node, trace, fuel) {
        Ok(Some(checked)) => checked,
        Ok(None) => return Err(DescribeError::Mismatch),
        Err(e) => return Err(e),
    };
    let r = finish_serialize(schema, node, checked, trace, data, pos, fuel);
    proof {
        if let CheckResult::Discriminated(j, n, child) = checked {
            assert forall|d: Described| #[trigger] cursor_end(*schema, node, trace, data@, pos as int, fuel as nat, d)
                == (match d {
                    Described::Variant(bits, disc, inner) => if bits == bits_for(n as nat) && disc == j && fuel > 0 {
                        cursor_end(*schema, child, trace, data@, pos as int, (fuel - 1) as nat, *inner)
                    } else {
                        None
                    },
                    _ => None,
                }) by {}
        } else {
            assert forall|d: Described| #[trigger] cursor_end(*schema, node, trace, data@, pos as int, fuel as nat, d)
                == finish_end(*schema, node, data@, pos as int, fuel as nat, d) by {}
        }
    }
    r
}

/// Reads the rest of a trace node that `node` matched: a union's variant, or the node's
/// contents.
pub fn finish_serialize(
    schema: &Schema,
    node: SchemaNode,
    checked: CheckResult,
    trace: TraceNode,
    data: &[u8],
    pos: usize,
    fuel: usize,
) -> (r: Result<(Described, usize), DescribeError>)
    requires
        schema.wf(),
        pos <= data@.len(),
        checked matches CheckResult::Discriminated(d, n, _) ==> d < n && fuel > 0,
        checked is Simple ==> !(node is Union),
    ensures
        r matches Ok((_, end)) ==> pos <= end <= data@.len(),
        checked matches CheckResult::Discriminated(j, n, child) ==> {
            &&& r matches Ok((v, end)) ==> v matches Described::Variant(bits, disc, inner) && bits == bits_for(n as nat)
                && disc == j
                && cursor_end(*schema, child, trace, data@, pos as int, (fuel - 1) as nat, *inner) == Some(end as int)
            &&& r matches Ok((_, end)) ==> forall|d: Described|
                #[trigger] cursor_end(*schema, child, trace, data@, pos as int, (fuel - 1) as nat, d) is None
                || cursor_end(*schema, child, trace, data@, pos as int, (fuel - 1) as nat, d) == Some(end as int)
            &&& r is Err ==> forall|d: Described|
                #[trigger] cursor_end(*schema, child, trace, data@, pos as int, (fuel - 1) as nat, d) is None
        },
        checked is Simple ==> {
            &&& r matches Ok((v, end)) ==> finish_end(*schema, node, data@, pos as int, fuel as nat, v) == Some(end as int)
            &&& r matches Ok((_, end)) ==> forall|d: Described| #[trigger] finish_end(*schema, node, data@, pos as int, fuel as nat, d) is None
                || finish_end(*schema, node, data@, pos as int, fuel as nat, d) == Some(end as int)
            &&& r is Err ==> forall|d: Described| #[trigger] finish_end(*schema, node, data@, pos as int, fuel as nat, d) is None
        },
    decreases data@.len() - pos, fuel, 3int,
{
    if let CheckResult::Discriminated(discriminant, num_variants, child) = checked {
        let bits = discriminant_bits(num_variants);
        let (value, end) = match serialize_cursor(schema, child, trace, data, pos, fuel - 1) {
            Ok(x) => x,
            Err(e) => return Err(e),
        };
        return Ok((Described::Variant(bits, discriminant as u64, Box::new(value)), end));
    }
    if is_leaf_kind(node) {
        read_leaf(node, data, pos, Ghost(*schema), Ghost(fuel as nat))
    } else {
        read_nested(schema, node, data, pos, fuel)
    }
}

/// Whether `node` is a node whose contents hold no other node: a scalar, a string, bytes, or a
/// unit of some kind.
pub open spec fn is_leaf_node(node: SchemaNode) -> bool {
    is_scalar_node(node) || node is String || node is Bytes || node is Unit || node is UnitStruct
        || node is UnitVariant || node is OptionNone
}

/// Whether `node` is a node whose contents hold no other node.
pub fn is_leaf_kind(node: SchemaNode) -> (r: bool)
    ensures
        r == is_leaf_node(node),
{
    match node {
        SchemaNode::Bool | SchemaNode::I8 | SchemaNode::I16 | SchemaNode::I32 | SchemaNode::I64
        | SchemaNode::I128 | SchemaNode::U8 | SchemaNode::U16 | SchemaNode::U32 | SchemaNode::U64
        | SchemaNode::U128 | SchemaNode::F32 | SchemaNode::F64 | SchemaNode::Char | SchemaNode::String
        | SchemaNode::Bytes | SchemaNode::Unit | SchemaNode::UnitStruct(_) | SchemaNode::UnitVariant(_, _)
        | SchemaNode::OptionNone => true,
        _ => false,
    }
}

/// Reads the contents of a node that holds no other node: a scalar's bytes, a string's or byte
/// array's length and bytes, nothing for a unit.
fn read_leaf(node: SchemaNode, data: &[u8], pos: usize, Ghost(s): Ghost<Schema>, Ghost(fuel): Ghost<nat>) -> (r: Result<(Described, usize), DescribeError>)
    requires
        is_leaf_node(node),
        pos <= data@.len(),
    ensures
        r matches Ok((_, end)) ==> pos <= end <= data@.len(),
        r matches Ok((v, end)) ==> finish_end(s, node, data@, pos as int, fuel, v) == Some(end as int),
        r matches Ok((_, end)) ==> forall|d: Described| #[trigger] finish_end(s, node, data@, pos as int, fuel, d) is None
            || finish_end(s, node, data@, pos as int, fuel, d) == Some(end as int),
        r is Err ==> forall|d: Described| #[trigger] finish_end(s, node, data@, pos as int, fuel, d) is None,
{
    if scalar_kind(node).is_some() {
        return read_scalar(node, data, pos);
    }
    match node {
        SchemaNode::String | SchemaNode::Bytes => {
            let (length, next) = match pop_u32(data, pos) {
                Ok(x) => x,
                Err(e) => return Err(e),
            };
            let (bytes, end) = match pop_bytes(data, next, length as usize) {
                Ok(x) => x,
                Err(e) => return Err(e),
            };
            if matches!(node, SchemaNode::String) {
                Ok((Described::String(bytes), end))
            } else {
                Ok((Described::Bytes(bytes), end))
            }
        },
        _ => Ok((Described::Unit, pos)),
    }
}

/// Reads the contents of a node that holds other nodes: the inner node of an option or newtype,
/// the entries of a map, the items of a sequence, the elements of a tuple or the fields of a
/// struct.
pub fn read_nested(
    schema: &Schema,
    node: SchemaNode,
    data: &[u8],
    pos: usize,
    fuel: usize,
) -> (r: Result<(Described, usize), DescribeError>)
    requires
        schema.wf(),
        pos <= data@.len(),
        !is_leaf_node(node),
        !(node is Union),
    ensures
        r matches Ok((_, end)) ==> pos <= end <= data@.len(),
        r matches Ok((v, end)) ==> finish_end(*schema, node, data@, pos as int, fuel as nat, v) == Some(end as int),
        r matches Ok((_, end)) ==> forall|d: Described| #[trigger] finish_end(*schema, node, data@, pos as int, fuel as nat, d) is None
            || finish_end(*schema, node, data@, pos as int, fuel as nat, d) == Some(end as int),
        r is Err ==> forall|d: Described| #[trigger] finish_end(*schema, node, data@, pos as int, fuel as nat, d) is None,
    decreases data@.len() - pos, fuel, 2int,
{
    match node {
        SchemaNode::OptionSome(inner) | SchemaNode::NewtypeStruct(_, inner) | SchemaNode::NewtypeVariant(_, _, inner) => {
            let r = pop_element(schema, inner, data, pos);
            proof {
                assert forall|d: Described| #[trigger] finish_end(*schema, node, data@, pos as int, fuel as nat, d)
                    == element_end(*schema, inner, data@, pos as int, d) by {}
                if let Ok((_, end)) = r {
                    assert forall|d: Described| #[trigger] finish_end(*schema, node, data@, pos as int, fuel as nat, d) is None
                        || finish_end(*schema, node, data@, pos as int, fuel as nat, d) == Some(end as int) by {
                        assert(element_end(*schema, inner, data@, pos as int, d) is None
                            || element_end(*schema, inner, data@, pos as int, d) == Some(end as int));
                    }
                } else {
                    assert forall|d: Described| #[trigger] finish_end(*schema, node, data@, pos as int, fuel as nat, d) is None by {
                        assert(element_end(*schema, inner, data@, pos as int, d) is None);
                    }
                }
            }
            r
        },
        SchemaNode::Mapping(key, value) => {
            let (length, next) = match pop_u32(data, pos) {
                Ok(x) => x,
                Err(e) => return Err(e),
            };
            let r = serialize_map(schema, length, key, value, data, next, fuel);
            proof {
                assert(length == crate::reader::u32_at(data@, pos as int));
                if let Ok((_, end)) = r {
                    assert forall|d: Described| #[trigger] finish_end(*schema, node, data@, pos as int, fuel as nat, d) is None
                        || finish_end(*schema, node, data@, pos as int, fuel as nat, d) == Some(end as int) by {
                        if let Described::Mapping(entries) = d {
                            if entries@.len() == length {
                                let e = entries_end(*schema, key, value, data@, next as int, entries@, length as int);
                                assert(e is None || e == Some(end as int));
                            }
                        }
                    }
                } else {
                    assert forall|d: Described| #[trigger] finish_end(*schema, node, data@, pos as int, fuel as nat, d) is None by {
                        if let Described::Mapping(entries) = d {
                            if entries@.len() == length {
                                assert(entries_end(*schema, key, value, data@, next as int, entries@, entries@.len() as int) is None);
                            }
                        }
                    }
                }
            }
            r
        },
        SchemaNode::Sequence(item) => {
            let (length, next) = match pop_u32(data, pos) {
                Ok(x) => x,
                Err(e) => return Err(e),
            };
            let r = serialize_sequence(schema, length, item, data, next, fuel);
            proof {
                assert(length == crate::reader::u32_at(data@, pos as int));
                if let Ok((_, end)) = r {
                    assert forall|d: Described| #[trigger] finish_end(*schema, node, data@, pos as int, fuel as nat, d) is None
                        || finish_end(*schema, node, data@, pos as int, fuel as nat, d) == Some(end as int) by {
                        if let Described::Sequence(items) = d {
                            if items@.len() == length {
                                let e = seq_end(*schema, item, data@, next as int, items@, length as int);
                                assert(e is None || e == Some(end as int));
                            }
                        }
                    }
                } else {
                    assert forall|d: Described| #[trigger] finish_end(*schema, node, data@, pos as int, fuel as nat, d) is None by {
                        if let Described::Sequence(items) = d {
                            if items@.len() == length && seq_readable(*schema, item) {
                                assert(seq_end(*schema, item, data@, next as int, items@, items@.len() as int) is None);
                            }
                        }
                    }
                }
            }
            r
        },
        SchemaNode::Tuple(list) | SchemaNode::TupleStruct(_, list) | SchemaNode::TupleVariant(_, _, list) => {
            let r = serialize_tuple(schema, list, data, pos, fuel);
            proof {
                if let Some(nodes) = list_at(schema.spec_node_lists(), list) {
                    if let Ok((_, end)) = r {
                        assert forall|d: Described| #[trigger] finish_end(*schema, node, data@, pos as int, fuel as nat, d) is None
                            || finish_end(*schema, node, data@, pos as int, fuel as nat, d) == Some(end as int) by {
                            if let Described::Tuple(items) = d {
                                if items@.len() == nodes.len() {
                                    let e = fields_end(*schema, nodes, data@, pos as int, items@, nodes.len() as int);
                                    assert(e is None || e == Some(end as int));
                                }
                            }
                        }
                    } else {
                        assert forall|d: Described| #[trigger] finish_end(*schema, node, data@, pos as int, fuel as nat, d) is None by {
                            if let Described::Tuple(items) = d {
                                if items@.len() == nodes.len() {
                                    assert(fields_end(*schema, nodes, data@, pos as int, items@, items@.len() as int) is None);
                                }
                            }
                        }
                    }
                }
            }
            r
        },
        SchemaNode::Struct(_, names, skip, list) | SchemaNode::StructVariant(_, _, names, skip, list) => {
            let r = serialize_struct(schema, names, skip, list, data, pos, fuel);
            proof {
                assert forall|d: Described| #[trigger] finish_end(*schema, node, data@, pos as int, fuel as nat, d)
                    == struct_end(*schema, names, skip, list, data@, pos as int, d) by {}
            }
            r
        },
        _ => {
            proof {
                assert(false);
            }
            Err(DescribeError::Mismatch)
        },
    }
}

/// Reads the elements of a tuple whose element types are the node list `list`.
pub fn serialize_tuple(schema: &Schema, list: u32, data: &[u8], pos: usize, fuel: usize) -> (r: Result<(Described, usize), DescribeError>)
    requires
        schema.wf(),
        pos <= data@.len(),
    ensures
        r matches Ok((v, end)) ==> (pos <= end <= data@.len() && (v matches Described::Tuple(items)
            && list_at(schema.spec_node_lists(), list) matches Some(nodes) && items@.len() == nodes.len()
            && fields_end(*schema, nodes, data@, pos as int, items@, items@.len() as int) == Some(end as int)
            && fields_end_at(*schema, nodes, data@, pos as int, nodes.len() as int, end as int))),
        r is Err ==> (list_at(schema.spec_node_lists(), list) matches Some(nodes) ==> forall|its: Seq<Described>|
            its.len() == nodes.len() ==> #[trigger] fields_end(*schema, nodes, data@, pos as int, its, its.len() as int) is None),
    decreases data@.len() - pos, fuel, 1int,
{
    let nodes = match schema.node_list(list) {
        Ok(nodes) => nodes,
        Err(e) => return Err(DescribeError::Schema(e)),
    };
    let mut items: Vec<Described> = Vec::new();
    let mut at = pos;
    let mut i: usize = 0;
    proof {
        assert(fields_end_at(*schema, nodes@, data@, pos as int, 0, pos as int));
    }
    while i < nodes.len()
        invariant
            schema.wf(),
            list_at(schema.spec_node_lists(), list) == Some(nodes@),
            0 <= i <= nodes@.len(),
            pos <= at <= data@.len(),
            items@.len() == i,
            fields_end(*schema, nodes@, data@, pos as int, items@, i as int) == Some(at as int),
            fields_end_at(*schema, nodes@, data@, pos as int, i as int, at as int),
        decreases nodes@.len() - i,
    {
        let (item, next) = match pop_element(schema, nodes[i], data, at) {
            Ok(x) => x,
            Err(e) => {
                proof {
                    lemma_fields_end_at_fail(*schema, nodes@, data@, pos as int, i as int, at as int);
                }
                return Err(e);
            },
        };
        proof {
            lemma_fields_end_push(*schema, nodes@, nodes@, data@, pos as int, items@, item, at as int);
            lemma_fields_end_at_step(*schema, nodes@, data@, pos as int, i as int, at as int, next as int);
        }
        items.push(item);
        at = next;
        i += 1;
    }
    Ok((Described::Tuple(items), at))
}

/// Reads the `length` entries of a map whose keys and values the nodes `key` and `value`
/// describe.
pub fn serialize_map(
    schema: &Schema,
    length: u32,
    key: u32,
    value: u32,
    data: &[u8],
    pos: usize,
    fuel: usize,
) -> (r: Result<(Described, usize), DescribeError>)
    requires
        schema.wf(),
        pos <= data@.len(),
    ensures
        r matches Ok((v, end)) ==> (pos <= end <= data@.len() && (v matches Described::Mapping(entries)
            && entries@.len() == length
            && entries_end(*schema, key, value, data@, pos as int, entries@, entries@.len() as int) == Some(end as int)
            && entries_end_at(*schema, key, value, data@, pos as int, length as int, end as int))),
        r is Err ==> forall|its: Seq<(Described, Described)>| its.len() == length
            ==> #[trigger] entries_end(*schema, key, value, data@, pos as int, its, its.len() as int) is None,
    decreases data@.len() - pos, fuel, 1int,
{
    let mut entries: Vec<(Described, Described)> = Vec::new();
    let mut at = pos;
    let mut i: u32 = 0;
    proof {
        assert(entries_end_at(*schema, key, value, data@, pos as int, 0, pos as int));
    }
    while i < length
        invariant
            schema.wf(),
            0 <= i <= length,
            pos <= at <= data@.len(),
            entries@.len() == i,
            entries_end(*schema, key, value, data@, pos as int, entries@, i as int) == Some(at as int),
            entries_end_at(*schema, key, value, data@, pos as int, i as int, at as int),
        decreases length - i,
    {
        let (k, next) = match pop_element(schema, key, data, at) {
            Ok(x) => x,
            Err(e) => {
                proof {
                    lemma_entries_end_at_fail(*schema, key, value, data@, pos as int, i as int, at as int, None, length as int);
                }
                return Err(e);
            },
        };
        let (v, next2) = match pop_element(schema, value, data, next) {
            Ok(x) => x,
            Err(e) => {
                proof {
                    lemma_entries_end_at_fail(*schema, key, value, data@, pos as int, i as int, at as int,
                        Some(next as int), length as int);
                }
                return Err(e);
            },
        };
        proof {
            lemma_entries_end_push(*schema, key, value, data@, pos as int, entries@, (k, v), at as int, next as int);
            lemma_entries_end_at_step(*schema, key, value, data@, pos as int, i as int, at as int, next as int, next2 as int);
        }
        entries.push((k, v));
        at = next2;
        i += 1;
    }
    Ok((Described::Mapping(entries), at))
}

/// Whether the items of a sequence whose items the node at `item` describes are structs read by
/// their full header (see [`fixed_struct`]), whose fields the node list `list` describes, and
/// `header` is that header.
spec fn fixed_item_header(s: Schema, item: u32, list: u32, header: Seq<u8>) -> bool {
    match node_at(s.node_keys(), item) {
        Some(node) => match (node, fixed_struct(s, node)) {
            (SchemaNode::Struct(_, _, _, l), Some((name, names, nodes))) => l == list
                && header == full_struct_header(name, names, nodes.len() as u32),
            _ => false,
        },
        None => false,
    }
}

/// Reads an item of a sequence whose items are structs read by their full header (see
/// [`fixed_struct`]): compares the item's first bytes with that header, then reads the fields
/// of the node list `list`.
fn read_fixed_item(
    schema: &Schema,
    item: u32,
    list: u32,
    header: &Vec<u8>,
    data: &[u8],
    at: usize,
    fuel: usize,
) -> (r: Result<(Described, usize), DescribeError>)
    requires
        schema.wf(),
        at <= data@.len(),
        fixed_item_header(*schema, item, list, header@),
    ensures
        r matches Ok((v, end)) ==> at <= end <= data@.len()
            && seq_element_end(*schema, item, data@, at as int, v) == Some(end as int),
        r matches Ok((_, end)) ==> forall|d: Described| #[trigger] seq_element_end(*schema, item, data@, at as int, d) is None
            || seq_element_end(*schema, item, data@, at as int, d) == Some(end as int),
        r is Err ==> forall|d: Described| #[trigger] seq_element_end(*schema, item, data@, at as int, d) is None,
    decreases data@.len() - at, fuel, 0int,
{
    let ghost node = node_at(schema.node_keys(), item)->Some_0;
    let ghost nodes = fixed_struct(*schema, node)->Some_0.2;
    proof {
        assert(list_at(schema.spec_node_lists(), list) == Some(nodes));
    }
    let (bytes, next) = match pop_bytes(data, at, header.len()) {
        Ok(x) => x,
        Err(e) => return Err(e),
    };
    let mut same = true;
    let mut b: usize = 0;
    while b < header.len()
        invariant
            0 <= b <= header@.len(),
            bytes@.len() == header@.len(),
            same ==> forall|j: int| 0 <= j < b ==> #[trigger] bytes@[j] == header@[j],
            !same ==> exists|j: int| 0 <= j < b && #[trigger] bytes@[j] != header@[j],
        decreases header@.len() - b,
    {
        if bytes[b] != header[b] {
            same = false;
        }
        b += 1;
    }
    if !same {
        proof {
            assert(bytes@ != header@);
        }
        return Err(DescribeError::Mismatch);
    }
    proof {
        assert(bytes@ =~= header@);
    }
    let r = serialize_tuple(schema, list, data, next, fuel);
    proof {
        if let Ok((_, end)) = r {
            assert forall|d: Described| #[trigger] seq_element_end(*schema, item, data@, at as int, d) is None
                || seq_element_end(*schema, item, data@, at as int, d) == Some(end as int) by {
                if let Described::Tuple(items) = d {
                    if items@.len() == nodes.len() {
                        let e = fields_end(*schema, nodes, data@, next as int, items@, nodes.len() as int);
                        assert(e is None || e == Some(end as int));
                    }
                }
            }
        } else {
            assert forall|d: Described| #[trigger] seq_element_end(*schema, item, data@, at as int, d) is None by {
                if let Described::Tuple(items) = d {
                    if items@.len() == nodes.len() {
                        assert(fields_end(*schema, nodes, data@, next as int, items@, items@.len() as int) is None);
                    }
                }
            }
        }
    }
    r
}

/// Reads the `length` elements of a sequence whose items the node `item` describes. Scalars are
/// read straight off the trace, all bytes at once; structs without skippable or always-skipped
/// fields by comparing their headers as bytes.
pub fn serialize_sequence(
    schema: &Schema,
    length: u32,
    item: u32,
    data: &[u8],
    pos: usize,
    fuel: usize,
) -> (r: Result<(Described, usize), DescribeError>)
    requires
        schema.wf(),
        pos <= data@.len(),
    ensures
        r matches Ok((v, end)) ==> (pos <= end <= data@.len() && seq_readable(*schema, item)
            && (v matches Described::Sequence(items) && items@.len() == length
            && seq_end(*schema, item, data@, pos as int, items@, items@.len() as int) == Some(end as int))
            && seq_end_at(*schema, item, data@, pos as int, length as int, end as int)),
        r is Err ==> !seq_readable(*schema, item) || forall|its: Seq<Described>|
            its.len() == length ==> #[trigger] seq_end(*schema, item, data@, pos as int, its, its.len() as int) is None,
        node_at(schema.node_keys(), item) is Some && is_scalar_node(node_at(schema.node_keys(), item).unwrap())
            && pos + length * (1 + scalar_layout(node_at(schema.node_keys(), item).unwrap()).1) > data@.len()
            ==> r == Err::<(Described, usize), DescribeError>(DescribeError::UnexpectedEnd),
        node_at(schema.node_keys(), item) is Some && is_scalar_node(node_at(schema.node_keys(), item).unwrap())
            && pos + length * (1 + scalar_layout(node_at(schema.node_keys(), item).unwrap()).1) <= data@.len() && r is Err
            ==> r == Err::<(Described, usize), DescribeError>(DescribeError::Mismatch)
            || (node_at(schema.node_keys(), item).unwrap() is Char && r->Err_0 is BadChar),
    decreases data@.len() - pos, fuel, 1int,
{
    let item_node = match schema.node(item) {
        Ok(node) => node,
        Err(e) => return Err(DescribeError::Schema(e)),
    };
    let mut items: Vec<Described> = Vec::new();
    proof {
        assert(seq_end_at(*schema, item, data@, pos as int, 0, pos as int));
    }
    if let Some(kind) = scalar_kind(item_node) {
        let width: usize = match item_node {
            SchemaNode::Bool | SchemaNode::I8 | SchemaNode::U8 => 1,
            SchemaNode::I16 | SchemaNode::U16 => 2,
            SchemaNode::I32 | SchemaNode::U32 | SchemaNode::F32 | SchemaNode::Char => 4,
            SchemaNode::I64 | SchemaNode::U64 | SchemaNode::F64 => 8,
            _ => 16,
        };
        let size = width + 1;
        let available = data.len();
        proof {
            assert(size == 1 + scalar_layout(item_node).1);
        }
        let total = match (length as usize).checked_mul(size) {
            Some(total) => total,
            None => {
                proof {
                    assert forall|its: Seq<Described>| its.len() == length
                        implies #[trigger] seq_end(*schema, item, data@, pos as int, its, its.len() as int) is None by {
                        if seq_end(*schema, item, data@, pos as int, its, its.len() as int) is Some {
                            lemma_seq_end_scalar(*schema, item, item_node, data@, pos as int, its, its.len() as int);
                            let w = 1 + scalar_layout(item_node).1;
                            assert(its.len() * w == length * size);
                            assert(available == data@.len());
                            assert(length * size <= usize::MAX);
                        }
                    }
                }
                return Err(DescribeError::UnexpectedEnd);
            },
        };
        if data.len() - pos < total {
            proof {
                assert forall|its: Seq<Described>| its.len() == length
                    implies #[trigger] seq_end(*schema, item, data@, pos as int, its, its.len() as int) is None by {
                    if seq_end(*schema, item, data@, pos as int, its, its.len() as int) is Some {
                        lemma_seq_end_scalar(*schema, item, item_node, data@, pos as int, its, its.len() as int);
                    }
                }
            }
            return Err(DescribeError::UnexpectedEnd);
        }
        let mut at = pos;
        let mut i: u32 = 0;
        proof {
            assert(at == pos + i * size) by (nonlinear_arith)
                requires
                    at == pos,
                    i == 0,
            ;
        }
        while i < length
            invariant
                schema.wf(),
                node_at(schema.node_keys(), item) == Some(item_node),
                is_scalar_node(item_node),
                kind == scalar_layout(item_node).0,
                size == 1 + scalar_layout(item_node).1,
                0 <= i <= length,
                pos <= at <= data@.len(),
                at == pos + i * size,
                pos + length * size <= data@.len(),
                items@.len() == i,
                seq_end(*schema, item, data@, pos as int, items@, i as int) == Some(at as int),
                seq_end_at(*schema, item, data@, pos as int, i as int, at as int),
            decreases length - i,
        {
            proof {
                assert(at + size <= pos + length * size) by (nonlinear_arith)
                    requires
                        at == pos + i * size,
                        i < length,
                ;
                assert(fixed_struct(*schema, item_node) is None);
                assert forall|d: Described| #[trigger] seq_element_end(*schema, item, data@, at as int, d)
                    == element_end(*schema, item, data@, at as int, d) by {}
            }
            let next = match expect_trace_kind(data, at, kind) {
                Ok(next) => next,
                Err(e) => {
                    proof {
                        lemma_seq_end_at_fail(*schema, item, data@, pos as int, i as int, at as int, length as int);
                    }
                    return Err(e);
                },
            };
            let (value, end) = match read_scalar(item_node, data, next) {
                Ok(x) => x,
                Err(e) => {
                    proof {
                        lemma_seq_end_at_fail(*schema, item, data@, pos as int, i as int, at as int, length as int);
                    }
                    return Err(e);
                },
            };
            proof {
                assert(seq_element_end(*schema, item, data@, at as int, value) == Some(end as int));
                lemma_seq_end_at_step(*schema, item, data@, pos as int, i as int, at as int, end as int);
                assert(seq_end(*schema, item, data@, pos as int, items@.push(value), i + 1) == Some(end as int)) by {
                    lemma_seq_end_prefix(*schema, item, data@, pos as int, items@, items@.push(value), i as int);
                }
            }
            items.push(value);
            at = end;
            i += 1;
            proof {
                assert(at == pos + i * size) by (nonlinear_arith)
                    requires
                        at == pos + (i - 1) * size + size,
                ;
            }
        }
        return Ok((Described::Sequence(items), at));
    }
    if let SchemaNode::Struct(name, name_list_index, skip_list, node_list_index) = item_node {
        if skip_list == 0 {
            let nodes = match schema.node_list(node_list_index) {
                Ok(nodes) => nodes,
                Err(e) => return Err(DescribeError::Schema(e)),
            };
            let names = match schema.field_name_list(name_list_index) {
                Ok(names) => names,
                Err(e) => return Err(DescribeError::Schema(e)),
            };
            let mut no_bottom = true;
            let mut k: usize = 0;
            while k < nodes.len()
                invariant
                    0 <= k <= nodes@.len(),
                    no_bottom ==> forall|j: int| 0 <= j < k ==> #[trigger] nodes@[j] != 0,
                    !no_bottom ==> exists|j: int| 0 <= j < k && #[trigger] nodes@[j] == 0,
                decreases nodes@.len() - k,
            {
                if nodes[k] == 0 {
                    no_bottom = false;
                }
                k += 1;
            }
            if names.len() == nodes.len() && no_bottom {
                proof {
                    assert(names_at(*schema, name_list_index) == Some(names@));
                    assert(fixed_struct(*schema, item_node) == Some((name, name_list_index, nodes@)));
                }
                if nodes.len() > 0xffff_ffffusize {
                    return Err(DescribeError::Mismatch);
                }
                let mut header: Vec<u8> = Vec::new();
                header.push(TraceNodeKind::Struct.code());
                crate::trace::push_u32(&mut header, name);
                crate::trace::push_u32(&mut header, name_list_index);
                crate::trace::push_u32(&mut header, nodes.len() as u32);
                crate::trace::push_u32(&mut header, ALL_FIELDS_PRESENT);
                proof {
                    assert(header@ =~= full_struct_header(name, name_list_index, nodes@.len() as u32));
                }
                let mut at = pos;
                let mut i: u32 = 0;
                while i < length
                    invariant
                        schema.wf(),
                        node_at(schema.node_keys(), item) == Some(item_node),
                        item_node == SchemaNode::Struct(name, name_list_index, skip_list, node_list_index),
                        fixed_struct(*schema, item_node) == Some((name, name_list_index, nodes@)),
                        header@ == full_struct_header(name, name_list_index, nodes@.len() as u32),
                        0 <= i <= length,
                        pos <= at <= data@.len(),
                        items@.len() == i,
                        seq_end(*schema, item, data@, pos as int, items@, i as int) == Some(at as int),
                        seq_end_at(*schema, item, data@, pos as int, i as int, at as int),
                    decreases length - i,
                {
                    let (fields, end) = match read_fixed_item(schema, item, node_list_index, &header, data, at, fuel) {
                        Ok(x) => x,
                        Err(e) => {
                            proof {
                                lemma_seq_end_at_fail(*schema, item, data@, pos as int, i as int, at as int, length as int);
                            }
                            return Err(e);
                        },
                    };
                    proof {
                        lemma_seq_end_at_step(*schema, item, data@, pos as int, i as int, at as int, end as int);
                        assert(seq_end(*schema, item, data@, pos as int, items@.push(fields), i + 1) == Some(end as int)) by {
                            lemma_seq_end_prefix(*schema, item, data@, pos as int, items@, items@.push(fields), i as int);
                        }
                    }
                    items.push(fields);
                    at = end;
                    i += 1;
                }
                return Ok((Described::Sequence(items), at));
            }
            proof {
                assert(fixed_struct(*schema, item_node) is None);
            }
        }
    }
    proof {
        assert(fixed_struct(*schema, item_node) is None);
        assert(seq_readable(*schema, item));
    }
    let mut at = pos;
    let mut i: u32 = 0;
    while i < length
        invariant
            schema.wf(),
            node_at(schema.node_keys(), item) == Some(item_node),
            fixed_struct(*schema, item_node) is None,
            !is_scalar_node(item_node),
            0 <= i <= length,
            pos <= at <= data@.len(),
            items@.len() == i,
            seq_end(*schema, item, data@, pos as int, items@, i as int) == Some(at as int),
            seq_end_at(*schema, item, data@, pos as int, i as int, at as int),
        decreases length - i,
    {
        proof {
            assert forall|d: Described| #[trigger] seq_element_end(*schema, item, data@, at as int, d)
                == element_end(*schema, item, data@, at as int, d) by {}
        }
        let (trace, next) = match pop_trace_node(data, at) {
            Ok(x) => x,
            Err(e) => {
                proof {
                    assert forall|d: Described| #[trigger] element_end(*schema, item, data@, at as int, d) is None by {}
                    lemma_seq_end_at_fail(*schema, item, data@, pos as int, i as int, at as int, length as int);
                }
                return Err(e);
            },
        };
        proof {
            assert forall|d: Described| #[trigger] element_end(*schema, item, data@, at as int, d)
                == cursor_end(*schema, item_node, trace, data@, next as int, fuel_of(*schema), d) by {}
        }
        let (value, end) = match serialize_cursor(schema, item_node, trace, data, next, union_fuel(schema)) {
            Ok(x) => x,
            Err(e) => {
                proof {
                    lemma_seq_end_at_fail(*schema, item, data@, pos as int, i as int, at as int, length as int);
                }
                return Err(e);
            },
        };
        proof {
            assert(seq_element_end(*schema, item, data@, at as int, value) == Some(end as int));
            lemma_seq_end_at_step(*schema, item, data@, pos as int, i as int, at as int, end as int);
            assert(seq_end(*schema, item, data@, pos as int, items@.push(value), i + 1) == Some(end as int)) by {
                lemma_seq_end_prefix(*schema, item, data@, pos as int, items@, items@.push(value), i as int);
            }
        }
        items.push(value);
        at = end;
        i += 1;
    }
    Ok((Described::Sequence(items), at))
}

/// Reads the fields of a struct whose field names are the list `names`, skippable fields the
/// member list `skip` and field types the node list `list`: after the number of serialized
/// fields and the presence list offset, without skippable fields a tuple of the fields that are
/// not always skipped; with skippable fields, which of them are there (the discriminant) and a
/// tuple of the serialized fields.
#[verifier::rlimit(30)]
pub fn serialize_struct(
    schema: &Schema,
    names: u32,
    skip: u32,
    list: u32,
    data: &[u8],
    pos: usize,
    fuel: usize,
) -> (r: Result<(Described, usize), DescribeError>)
    requires
        schema.wf(),
        pos <= data@.len(),
    ensures
        r matches Ok((v, end)) ==> pos <= end <= data@.len()
            && struct_end(*schema, names, skip, list, data@, pos as int, v) == Some(end as int),
        r matches Ok((_, end)) ==> forall|d: Described| #[trigger] struct_end(*schema, names, skip, list, data@, pos as int, d) is None
            || struct_end(*schema, names, skip, list, data@, pos as int, d) == Some(end as int),
        r is Err ==> forall|d: Described| #[trigger] struct_end(*schema, names, skip, list, data@, pos as int, d) is None,
        list_at(schema.spec_member_lists(), skip) == Some(Seq::<u32>::empty())
            && list_at(schema.spec_node_lists(), list) is Some && names_at(*schema, names) is Some
            && names_at(*schema, names).unwrap().len() == list_at(schema.spec_node_lists(), list).unwrap().len()
            && pos + 8 <= data@.len() && 4 * crate::reader::u32_at(data@, pos as int) <= usize::MAX
            && crate::reader::u32_at(data@, pos as int) != nonzero(list_at(schema.spec_node_lists(), list).unwrap(),
                list_at(schema.spec_node_lists(), list).unwrap().len() as int).len()
            ==> r == Err::<(Described, usize), DescribeError>(DescribeError::Mismatch),
    decreases data@.len() - pos, fuel, 1int,
{
    let skip_list = match schema.member_list(skip) {
        Ok(x) => x,
        Err(e) => return Err(DescribeError::Schema(e)),
    };
    proof {
        if list_at(schema.spec_member_lists(), skip) == Some(Seq::<u32>::empty()) {
            assert(skip_list@.len() == 0);
        }
    }
    let nodes = match schema.node_list(list) {
        Ok(x) => x,
        Err(e) => return Err(DescribeError::Schema(e)),
    };
    let name_list = match schema.field_name_list(names) {
        Ok(x) => x,
        Err(e) => return Err(DescribeError::Schema(e)),
    };
    let (length, p1) = match pop_u32(data, pos) {
        Ok(x) => x,
        Err(e) => return Err(e),
    };
    let (presence_offset, p2) = match pop_u32(data, p1) {
        Ok(x) => x,
        Err(e) => return Err(e),
    };
    proof {
        assert(length == crate::reader::u32_at(data@, pos as int));
        assert(presence_offset == crate::reader::u32_at(data@, pos + 4));
        assert(names_at(*schema, names) == Some(name_list@));
    }
    if name_list.len() != nodes.len() {
        return Err(DescribeError::FieldListLengths);
    }
    let presence_size = match (length as usize).checked_mul(4) {
        Some(size) => size,
        None => return Err(DescribeError::UnexpectedEnd),
    };
    let ghost count = length;
    let length = length as usize;
    // Without skippable fields every field that isn't bottom-typed (never serialized) is
    // present, in order: no discriminant, and no need to read the presence list.
    if skip_list.len() == 0 {
        let ghost present_all = nonzero(nodes@, nodes@.len() as int);
        let mut present: usize = 0;
        let mut k: usize = 0;
        while k < nodes.len()
            invariant
                0 <= k <= nodes@.len(),
                present == nonzero(nodes@, k as int).len(),
                present <= k,
            decreases nodes@.len() - k,
        {
            if nodes[k] != 0 {
                present += 1;
            }
            k += 1;
        }
        if present != length {
            return Err(DescribeError::Mismatch);
        }
        let mut items: Vec<Described> = Vec::new();
        let mut at = p2;
        let mut i: usize = 0;
        proof {
            assert(fields_end_at(*schema, present_all, data@, p2 as int, 0, p2 as int));
        }
        while i < nodes.len()
            invariant
                schema.wf(),
                p2 == pos + 8,
                list_at(schema.spec_member_lists(), skip) == Some(skip_list@),
                skip_list@.len() == 0,
                list_at(schema.spec_node_lists(), list) == Some(nodes@),
                present_all == nonzero(nodes@, nodes@.len() as int),
                present_all.len() == crate::reader::u32_at(data@, pos as int),
                0 <= i <= nodes@.len(),
                p2 <= at <= data@.len(),
                items@.len() == nonzero(nodes@, i as int).len(),
                fields_end(*schema, present_all, data@, p2 as int, items@, items@.len() as int) == Some(at as int),
                fields_end_at(*schema, present_all, data@, p2 as int, items@.len() as int, at as int),
            decreases nodes@.len() - i,
        {
            proof {
                lemma_nonzero_prefix(nodes@, i as int, nodes@.len() as int);
                lemma_nonzero_prefix(nodes@, i + 1, nodes@.len() as int);
            }
            if nodes[i] != 0 {
                proof {
                    let before = nonzero(nodes@, i as int);
                    assert(nonzero(nodes@, i + 1) == before.push(nodes@[i as int]));
                    assert(present_all[before.len() as int] == nonzero(nodes@, i + 1)[before.len() as int]);
                }
                let (item, next) = match pop_element(schema, nodes[i], data, at) {
                    Ok(x) => x,
                    Err(e) => {
                        proof {
                            lemma_fields_end_at_fail(*schema, present_all, data@, p2 as int, items@.len() as int, at as int);
                            lemma_struct_plain_reads(*schema, names, skip, list, nodes@, data@, pos as int, None, None);
                        }
                        return Err(e);
                    },
                };
                proof {
                    lemma_fields_end_push(*schema, present_all, present_all, data@, p2 as int, items@, item, at as int);
                    lemma_fields_end_at_step(*schema, present_all, data@, p2 as int, items@.len() as int, at as int, next as int);
                }
                items.push(item);
                at = next;
            }
            i += 1;
        }
        let ghost e = at;
        if presence_offset != ALL_FIELDS_PRESENT {
            // Bottom-typed fields were skipped.
            let (_, next) = match pop_bytes(data, at, presence_size) {
                Ok(x) => x,
                Err(e) => {
                    proof {
                        lemma_struct_plain_reads(*schema, names, skip, list, nodes@, data@, pos as int, Some(at as int), None);
                    }
                    return Err(e);
                },
            };
            at = next;
        }
        let result = Described::Tuple(items);
        proof {
            lemma_struct_end_plain(*schema, names, skip, list, nodes@, data@, pos as int, result, e as int, at as int);
            lemma_struct_plain_reads(*schema, names, skip, list, nodes@, data@, pos as int, Some(e as int), Some(at as int));
        }
        return Ok((result, at));
    }
    let listed: Vec<u8>;
    let mut listed_at: usize = 0;
    let presence = if presence_offset == ALL_FIELDS_PRESENT {
        if length != nodes.len() {
            return Err(DescribeError::Mismatch);
        }
        listed = Vec::new();
        Presence::All(length)
    } else {
        let offset = presence_offset as usize;
        if offset > data.len() - p2 {
            return Err(DescribeError::UnexpectedEnd);
        }
        listed_at = p2 + offset;
        let (bytes, _) = match pop_bytes(data, listed_at, presence_size) {
            Ok(x) => x,
            Err(e) => return Err(e),
        };
        listed = bytes;
        Presence::Listed(listed.as_slice())
    };
    let discriminant = discriminant_from_presence(skip_list.as_slice(), &presence);
    let fields = presence.fields();
    let ghost chosen = picked(nodes@, fields@);
    proof {
        assert(fields_end_at(*schema, chosen, data@, p2 as int, 0, p2 as int));
        if presence_offset == ALL_FIELDS_PRESENT {
            assert(fields@ =~= all_fields(count as nat));
        }
        assert(listed_fields(data@, pos as int, fields@));
    }
    let mut items: Vec<Described> = Vec::new();
    let mut at = p2;
    let mut i: usize = 0;
    while i < fields.len()
        invariant
            schema.wf(),
            p2 == pos + 8,
            list_at(schema.spec_member_lists(), skip) == Some(skip_list@),
            skip_list@.len() > 0,
            list_at(schema.spec_node_lists(), list) == Some(nodes@),
            listed_fields(data@, pos as int, fields@),
            chosen == picked(nodes@, fields@),
            0 <= i <= fields@.len(),
            p2 <= at <= data@.len(),
            items@.len() == i,
            forall|j: int| 0 <= j < i ==> #[trigger] fields@[j] < nodes@.len(),
            fields_end(*schema, chosen, data@, p2 as int, items@, i as int) == Some(at as int),
            fields_end_at(*schema, chosen, data@, p2 as int, i as int, at as int),
        decreases fields@.len() - i,
    {
        let field = fields[i] as usize;
        if field >= nodes.len() {
            proof {
                assert(fields@[i as int] >= nodes@.len());
                lemma_struct_variant_reads(*schema, names, skip, list, nodes@, data@, pos as int, fields@, None, None);
            }
            return Err(DescribeError::MemberOutOfBounds);
        }
        let (item, next) = match pop_element(schema, nodes[field], data, at) {
            Ok(x) => x,
            Err(e) => {
                proof {
                    lemma_fields_end_at_fail(*schema, chosen, data@, p2 as int, i as int, at as int);
                    lemma_struct_variant_reads(*schema, names, skip, list, nodes@, data@, pos as int, fields@, None, None);
                }
                return Err(e);
            },
        };
        proof {
            lemma_fields_end_push(*schema, chosen, chosen, data@, p2 as int, items@, item, at as int);
            lemma_fields_end_at_step(*schema, chosen, data@, p2 as int, i as int, at as int, next as int);
        }
        items.push(item);
        at = next;
        i += 1;
    }
    let ghost e = at;
    if let Presence::Listed(_) = presence {
        // The presence list comes right after the serialized fields.
        if at != listed_at {
            proof {
                lemma_struct_variant_reads(*schema, names, skip, list, nodes@, data@, pos as int, fields@, Some(e as int), None);
            }
            return Err(DescribeError::Mismatch);
        }
        at = listed_at + presence_size;
    }
    let result = Described::Variant(skip_list.len() as u32, discriminant, Box::new(Described::Tuple(items)));
    proof {
        lemma_struct_end_variant(*schema, names, skip, list, nodes@, data@, pos as int, fields@, result, e as int,
            at as int);
        lemma_struct_variant_reads(*schema, names, skip, list, nodes@, data@, pos as int, fields@, Some(e as int),
            Some(at as int));
    }
    Ok((result, at))
}

/// Describes the whole `trace` by `schema`: reads its first node as the schema's root node
/// describes it. It succeeds exactly when some reading of the trace succeeds, and gives the one
/// description that reading gives.
pub fn describe_trace(schema: &Schema, trace: &[u8]) -> (r: Result<Described, DescribeError>)
    requires
        schema.wf(),
    ensures
        r matches Ok(v) ==> describes(*schema, trace@, v),
        r matches Ok(v) ==> forall|w: Described| #[trigger] describes(*schema, trace@, w) ==> same_described(v, w),
        r is Err ==> forall|v: Described| !#[trigger] describes(*schema, trace@, v),
{
    let node = match schema.node(schema.root_index) {
        Ok(node) => node,
        Err(e) => return Err(DescribeError::Schema(e)),
    };
    let (first, pos) = match pop_trace_node(trace, 0) {
        Ok(x) => x,
        Err(e) => return Err(e),
    };
    match serialize_cursor(schema, node, first, trace, pos, union_fuel(schema)) {
        Ok((value, _)) => {
            proof {
                assert forall|w: Described| #[trigger] describes(*schema, trace@, w)
                    implies same_described(value, w) by {
                    law_describes_unique(*schema, trace@, value, w);
                }
            }
            Ok(value)
        },
        Err(e) => Err(e),
    }
}

} // verus!

verus! {

/// The variant that checking a header against union variants picks matches the header itself.
proof fn lemma_first_match_picks(s: Schema, variants: Seq<u32>, trace: TraceNode, fuel: nat, k: int)
    requires
        first_match(s, variants, trace, fuel, k) matches Some(Some(_)),
    ensures
        first_match(s, variants, trace, fuel, k) matches Some(Some(CheckResult::Discriminated(j, n, child)))
            && check_result(s, child, trace, fuel) matches Some(Some(_)),
    decreases variants.len() - k,
{
    if 0 <= k < variants.len() {
        let child = node_at(s.node_keys(), variants[k]).unwrap();
        if check_result(s, child, trace, fuel) == Some(None::<CheckResult>) {
            lemma_first_match_picks(s, variants, trace, fuel, k + 1);
        }
    }
}

/// Checking picks only a node of the traced kind and names: when the trace node `trace` matches
/// the schema node `node` itself, the node is no union and has the header's type name, variant
/// name and field name list; when it matches a union, it does so through a variant that itself
/// matches (at one level of nesting less). So a union member is picked only for the struct,
/// tuple, newtype or unit variant (or struct) that was traced.
pub proof fn law_check_keeps_names(s: Schema, node: SchemaNode, trace: TraceNode, fuel: nat)
    requires
        check_result(s, node, trace, fuel) matches Some(Some(_)),
    ensures
        check_result(s, node, trace, fuel) == Some(Some(CheckResult::Simple)) ==> !(node is Union) && match trace {
            TraceNode::StructVariant(a, v, f) => (node matches SchemaNode::StructVariant(b, w, g, _, _)
                && a == b && v == w && f == g),
            TraceNode::Struct(a, f) => (node matches SchemaNode::Struct(b, g, _, _) && a == b && f == g),
            TraceNode::TupleVariant(_, a, v) => (node matches SchemaNode::TupleVariant(b, w, _) && a == b && v == w),
            TraceNode::TupleStruct(_, a) => (node matches SchemaNode::TupleStruct(b, _) && a == b),
            TraceNode::NewtypeVariant(a, v) => (node matches SchemaNode::NewtypeVariant(b, w, _) && a == b && v == w),
            TraceNode::NewtypeStruct(a) => (node matches SchemaNode::NewtypeStruct(b, _) && a == b),
            TraceNode::UnitVariant(a, v) => node == SchemaNode::UnitVariant(a, v),
            TraceNode::UnitStruct(a) => node == SchemaNode::UnitStruct(a),
            _ => true,
        },
        check_result(s, node, trace, fuel) matches Some(Some(CheckResult::Discriminated(_, _, child)))
            ==> node is Union && fuel > 0 && check_result(s, child, trace, (fuel - 1) as nat) matches Some(Some(_)),
{
    if node is Union {
        if let SchemaNode::Union(l) = node {
            let variants = list_at(s.spec_node_lists(), l).unwrap();
            lemma_first_match_picks(s, variants, trace, (fuel - 1) as nat, 0);
        }
    }
}

} // verus!
