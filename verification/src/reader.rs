//! Reading a trace: its bytes from a position on, and the headers of its nodes.

use vstd::prelude::*;
use crate::trace::{kind_of_code, le_value, TraceNodeKind};

verus! {

/// Errors of reading a trace against a schema. A trace comes from tracing, not from an untrusted
/// source, so these are mismatches between a schema and a trace that it does not describe.
#[derive(Debug, Clone, Copy, PartialEq, Eq, Structural)]
pub enum DescribeError {
    /// The trace ended in the middle of a node.
    UnexpectedEnd,
    /// A byte that is no node kind.
    BadKind(u8),
    /// The trace does not have the node the schema expects.
    Mismatch,
    /// A `char` whose code is no Unicode scalar value.
    BadChar(u32),
    /// A struct whose field name list and field type list differ in length.
    FieldListLengths,
    /// A presence list that names a field the struct does not have.
    MemberOutOfBounds,
    /// Unions that list one another without end.
    UnionCycle,
    /// An index that the schema does not have.
    Schema(crate::schema::SchemaError),
}

/// The human-readable description of each error.
pub open spec fn describe_message(e: DescribeError) -> Seq<char> {
    match e {
        DescribeError::UnexpectedEnd => "unexpected end of trace"@,
        DescribeError::BadKind(_) => "bad node kind in trace"@,
        DescribeError::Mismatch => "schema-trace mismatch"@,
        DescribeError::BadChar(_) => "bad char in trace"@,
        DescribeError::FieldListLengths => "field name - field type length mismatch in schema"@,
        DescribeError::MemberOutOfBounds => "member index out of bounds for struct in schema"@,
        DescribeError::UnionCycle => "unions in schema list one another"@,
        DescribeError::Schema(_) => "index out of bounds in schema"@,
    }
}

impl DescribeError {
    /// The message shown for this error.
    pub fn message(&self) -> (r: &'static str)
        ensures
            r@ == describe_message(*self),
    {
        match self {
            DescribeError::UnexpectedEnd => "unexpected end of trace",
            DescribeError::BadKind(_) => "bad node kind in trace",
            DescribeError::Mismatch => "schema-trace mismatch",
            DescribeError::BadChar(_) => "bad char in trace",
            DescribeError::FieldListLengths => "field name - field type length mismatch in schema",
            DescribeError::MemberOutOfBounds => "member index out of bounds for struct in schema",
            DescribeError::UnionCycle => "unions in schema list one another",
            DescribeError::Schema(_) => "index out of bounds in schema",
        }
    }
}

/// The byte at `pos`, and the position after it.
pub fn pop_u8(data: &[u8], pos: usize) -> (r: Result<(u8, usize), DescribeError>)
    ensures
        pos < data@.len() ==> (r matches Ok((b, end)) && b == data@[pos as int] && end == pos + 1),
        pos >= data@.len() ==> r == Err::<(u8, usize), DescribeError>(DescribeError::UnexpectedEnd),
{
    if pos < data.len() {
        Ok((data[pos], pos + 1))
    } else {
        Err(DescribeError::UnexpectedEnd)
    }
}

/// The four little-endian bytes at `pos` as a number, and the position after them.
pub fn pop_u32(data: &[u8], pos: usize) -> (r: Result<(u32, usize), DescribeError>)
    ensures
        pos + 4 <= data@.len() ==> (r matches Ok((v, end)) && v == le_value(data@.subrange(pos as int, pos + 4)) as u32
            && end == pos + 4),
        pos + 4 > data@.len() ==> r == Err::<(u32, usize), DescribeError>(DescribeError::UnexpectedEnd),
{
    if pos <= data.len() && data.len() - pos >= 4 {
        Ok((crate::trace::read_u32(data, pos), pos + 4))
    } else {
        Err(DescribeError::UnexpectedEnd)
    }
}

/// The `n` bytes at `pos`, copied, and the position after them.
pub fn pop_bytes(data: &[u8], pos: usize, n: usize) -> (r: Result<(Vec<u8>, usize), DescribeError>)
    ensures
        pos + n <= data@.len() ==> (r matches Ok((bytes, end)) && bytes@ == data@.subrange(pos as int, pos + n)
            && end == pos + n),
        pos + n > data@.len() ==> r == Err::<(Vec<u8>, usize), DescribeError>(DescribeError::UnexpectedEnd),
{
    if pos > data.len() || data.len() - pos < n {
        return Err(DescribeError::UnexpectedEnd);
    }
    let len = data.len();
    let mut bytes: Vec<u8> = Vec::new();
    let mut i: usize = 0;
    while i < n
        invariant
            0 <= i <= n,
            len == data@.len(),
            pos + n <= data@.len(),
            bytes@ == data@.subrange(pos as int, pos + i),
        decreases n - i,
    {
        bytes.push(data[pos + i]);
        i += 1;
        assert(bytes@ =~= data@.subrange(pos as int, pos + i));
    }
    Ok((bytes, pos + n))
}

/// The value of the little-endian bytes `b`.
pub open spec fn le_uint(b: Seq<u8>) -> nat
    decreases b.len(),
{
    if b.len() == 0 {
        0
    } else {
        b[0] as nat + 256 * le_uint(b.drop_first())
    }
}

pub open spec fn pow256(k: nat) -> nat
    decreases k,
{
    if k == 0 { 1 } else { 256 * pow256((k - 1) as nat) }
}

pub proof fn lemma_le_uint_bound(b: Seq<u8>)
    ensures
        le_uint(b) < pow256(b.len()),
    decreases b.len(),
{
    if b.len() > 0 {
        lemma_le_uint_bound(b.drop_first());
    }
}

/// The value of the `width` little-endian bytes at `pos`, for up to 16 bytes.
pub fn read_le(data: &[u8], pos: usize, width: usize) -> (r: u128)
    requires
        pos + width <= data@.len(),
        width <= 16,
    ensures
        r == le_uint(data@.subrange(pos as int, pos + width)),
{
    let len = data.len();
    let mut r: u128 = 0;
    let mut i: usize = width;
    proof {
        reveal_with_fuel(pow256, 17);
        assert(pow256(16) == 0x1_0000_0000_0000_0000_0000_0000_0000_0000);
    }
    while i > 0
        invariant
            0 <= i <= width,
            width <= 16,
            len == data@.len(),
            pos + width <= data@.len(),
            r == le_uint(data@.subrange(pos + i, pos + width)),
            pow256(16) == 0x1_0000_0000_0000_0000_0000_0000_0000_0000,
        decreases i,
    {
        let ghost rest = data@.subrange(pos + i, pos + width);
        i -= 1;
        let ghost b = data@.subrange(pos + i, pos + width);
        proof {
            assert(b.drop_first() =~= rest);
            lemma_le_uint_bound(b);
            lemma_pow256_mono(b.len(), 16);
        }
        r = data[pos + i] as u128 + 256 * r;
    }
    r
}

pub proof fn lemma_pow256_mono(a: nat, b: nat)
    requires
        a <= b,
    ensures
        pow256(a) <= pow256(b),
    decreases b,
{
    if a < b {
        lemma_pow256_mono(a, (b - 1) as nat);
    }
}

/// The header of a trace node: its kind and the names and lengths that follow the kind byte
/// (a sequence's or map's length, and a struct's field count and presence offset, are read
/// later).
#[derive(Debug, Clone, Copy, PartialEq, Eq, Structural)]
pub enum TraceNode {
    Bool,
    I8,
    I16,
    I32,
    I64,
    I128,
    U8,
    U16,
    U32,
    U64,
    U128,
    F32,
    F64,
    Char,
    String,
    Bytes,
    OptionNone,
    OptionSome,
    Unit,
    UnitStruct(u32),
    UnitVariant(u32, u32),
    NewtypeStruct(u32),
    NewtypeVariant(u32, u32),
    Sequence,
    Tuple(u32),
    TupleStruct(u32, u32),
    TupleVariant(u32, u32, u32),
    Mapping,
    Struct(u32, u32),
    StructVariant(u32, u32, u32),
}

/// The four-byte number at `pos`.
pub open spec fn u32_at(data: Seq<u8>, pos: int) -> u32 {
    le_value(data.subrange(pos, pos + 4)) as u32
}

/// How many four-byte numbers follow the kind byte of a node of kind `kind`.
pub open spec fn header_words(kind: TraceNodeKind) -> int {
    match kind {
        TraceNodeKind::UnitStruct | TraceNodeKind::NewtypeStruct | TraceNodeKind::Tuple => 1,
        TraceNodeKind::UnitVariant | TraceNodeKind::NewtypeVariant | TraceNodeKind::TupleStruct
        | TraceNodeKind::Struct => 2,
        TraceNodeKind::TupleVariant | TraceNodeKind::StructVariant => 3,
        _ => 0,
    }
}

/// The header of the node of kind `kind` whose numbers start at `pos`.
pub open spec fn header_of(kind: TraceNodeKind, data: Seq<u8>, pos: int) -> TraceNode {
    let a = u32_at(data, pos);
    let b = u32_at(data, pos + 4);
    let c = u32_at(data, pos + 8);
    match kind {
        TraceNodeKind::Bool => TraceNode::Bool,
        TraceNodeKind::I8 => TraceNode::I8,
        TraceNodeKind::I16 => TraceNode::I16,
        TraceNodeKind::I32 => TraceNode::I32,
        TraceNodeKind::I64 => TraceNode::I64,
        TraceNodeKind::I128 => TraceNode::I128,
        TraceNodeKind::U8 => TraceNode::U8,
        TraceNodeKind::U16 => TraceNode::U16,
        TraceNodeKind::U32 => TraceNode::U32,
        TraceNodeKind::U64 => TraceNode::U64,
        TraceNodeKind::U128 => TraceNode::U128,
        TraceNodeKind::F32 => TraceNode::F32,
        TraceNodeKind::F64 => TraceNode::F64,
        TraceNodeKind::Char => TraceNode::Char,
        TraceNodeKind::String => TraceNode::String,
        TraceNodeKind::Bytes => TraceNode::Bytes,
        TraceNodeKind::OptionNone => TraceNode::OptionNone,
        TraceNodeKind::OptionSome => TraceNode::OptionSome,
        TraceNodeKind::Unit => TraceNode::Unit,
        TraceNodeKind::UnitStruct => TraceNode::UnitStruct(a),
        TraceNodeKind::UnitVariant => TraceNode::UnitVariant(a, b),
        TraceNodeKind::NewtypeStruct => TraceNode::NewtypeStruct(a),
        TraceNodeKind::NewtypeVariant => TraceNode::NewtypeVariant(a, b),
        TraceNodeKind::Sequence => TraceNode::Sequence,
        TraceNodeKind::Tuple => TraceNode::Tuple(a),
        TraceNodeKind::TupleStruct => TraceNode::TupleStruct(a, b),
        TraceNodeKind::TupleVariant => TraceNode::TupleVariant(a, b, c),
        TraceNodeKind::Mapping => TraceNode::Mapping,
        TraceNodeKind::Struct => TraceNode::Struct(a, b),
        TraceNodeKind::StructVariant => TraceNode::StructVariant(a, b, c),
    }
}

/// The header of the trace node at `pos`, and the position after it, if the trace has one
/// there.
pub open spec fn node_at_pos(data: Seq<u8>, pos: int) -> Option<(TraceNode, int)> {
    if 0 <= pos < data.len() {
        match kind_of_code(data[pos]) {
            Some(kind) => {
                let end = pos + 1 + 4 * header_words(kind);
                if end <= data.len() {
                    Some((header_of(kind, data, pos + 1), end))
                } else {
                    None
                }
            },
            None => None,
        }
    } else {
        None
    }
}

/// Reads the header of the trace node at `pos`.
pub fn pop_trace_node(data: &[u8], pos: usize) -> (r: Result<(TraceNode, usize), DescribeError>)
    ensures
        match node_at_pos(data@, pos as int) {
            Some((node, end)) => r matches Ok((n, e)) && n == node && e == end,
            None => r is Err,
        },
{
    let (code, pos1) = match pop_u8(data, pos) {
        Ok(x) => x,
        Err(e) => return Err(e),
    };
    let kind = match TraceNodeKind::from_code(code) {
        Some(kind) => kind,
        None => return Err(DescribeError::BadKind(code)),
    };
    let words: usize = match kind {
        TraceNodeKind::UnitStruct | TraceNodeKind::NewtypeStruct | TraceNodeKind::Tuple => 1,
        TraceNodeKind::UnitVariant | TraceNodeKind::NewtypeVariant | TraceNodeKind::TupleStruct
        | TraceNodeKind::Struct => 2,
        TraceNodeKind::TupleVariant | TraceNodeKind::StructVariant => 3,
        _ => 0,
    };
    if pos1 > data.len() || data.len() - pos1 < 4 * words {
        return Err(DescribeError::UnexpectedEnd);
    }
    let a = if words >= 1 { crate::trace::read_u32(data, pos1) } else { 0 };
    let b = if words >= 2 { crate::trace::read_u32(data, pos1 + 4) } else { 0 };
    let c = if words >= 3 { crate::trace::read_u32(data, pos1 + 8) } else { 0 };
    let node = match kind {
        TraceNodeKind::Bool => TraceNode::Bool,
        TraceNodeKind::I8 => TraceNode::I8,
        TraceNodeKind::I16 => TraceNode::I16,
        TraceNodeKind::I32 => TraceNode::I32,
        TraceNodeKind::I64 => TraceNode::I64,
        TraceNodeKind::I128 => TraceNode::I128,
        TraceNodeKind::U8 => TraceNode::U8,
        TraceNodeKind::U16 => TraceNode::U16,
        TraceNodeKind::U32 => TraceNode::U32,
        TraceNodeKind::U64 => TraceNode::U64,
        TraceNodeKind::U128 => TraceNode::U128,
        TraceNodeKind::F32 => TraceNode::F32,
        TraceNodeKind::F64 => TraceNode::F64,
        TraceNodeKind::Char => TraceNode::Char,
        TraceNodeKind::String => TraceNode::String,
        TraceNodeKind::Bytes => TraceNode::Bytes,
        TraceNodeKind::OptionNone => TraceNode::OptionNone,
        TraceNodeKind::OptionSome => TraceNode::OptionSome,
        TraceNodeKind::Unit => TraceNode::Unit,
        TraceNodeKind::UnitStruct => TraceNode::UnitStruct(a),
        TraceNodeKind::UnitVariant => TraceNode::UnitVariant(a, b),
        TraceNodeKind::NewtypeStruct => TraceNode::NewtypeStruct(a),
        TraceNodeKind::NewtypeVariant => TraceNode::NewtypeVariant(a, b),
        TraceNodeKind::Sequence => TraceNode::Sequence,
        TraceNodeKind::Tuple => TraceNode::Tuple(a),
        TraceNodeKind::TupleStruct => TraceNode::TupleStruct(a, b),
        TraceNodeKind::TupleVariant => TraceNode::TupleVariant(a, b, c),
        TraceNodeKind::Mapping => TraceNode::Mapping,
        TraceNodeKind::Struct => TraceNode::Struct(a, b),
        TraceNodeKind::StructVariant => TraceNode::StructVariant(a, b, c),
    };
    Ok((node, pos1 + 4 * words))
}

} // verus!
