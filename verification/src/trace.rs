//! The trace: the bytes of a traced value, each node a kind byte followed by its contents.

use vstd::prelude::*;

verus! {

/// The presence-list offset of a struct none of whose fields were skipped.
pub const ALL_FIELDS_PRESENT: u32 = 0xffff_ffff;

/// The kind byte of each node of a trace.
#[derive(Debug, Clone, Copy, PartialEq, Eq, Structural)]
pub enum TraceNodeKind {
    Bool,
    I8,
    I16,
    I32,
    I64,
    I128,
    U8,
    U16,
    U32,
    U64,
    U128,
    F32,
    F64,
    Char,
    String,
    Bytes,
    OptionNone,
    OptionSome,
    Unit,
    UnitStruct,
    UnitVariant,
    NewtypeStruct,
    NewtypeVariant,
    Sequence,
    Tuple,
    TupleStruct,
    TupleVariant,
    Mapping,
    Struct,
    StructVariant,
}

/// The byte that stands for each kind.
pub open spec fn kind_code(kind: TraceNodeKind) -> u8 {
    match kind {
        TraceNodeKind::Bool => 0,
        TraceNodeKind::I8 => 1,
        TraceNodeKind::I16 => 2,
        TraceNodeKind::I32 => 3,
        TraceNodeKind::I64 => 4,
        TraceNodeKind::I128 => 5,
        TraceNodeKind::U8 => 6,
        TraceNodeKind::U16 => 7,
        TraceNodeKind::U32 => 8,
        TraceNodeKind::U64 => 9,
        TraceNodeKind::U128 => 10,
        TraceNodeKind::F32 => 11,
        TraceNodeKind::F64 => 12,
        TraceNodeKind::Char => 13,
        TraceNodeKind::String => 14,
        TraceNodeKind::Bytes => 15,
        TraceNodeKind::OptionNone => 16,
        TraceNodeKind::OptionSome => 17,
        TraceNodeKind::Unit => 18,
        TraceNodeKind::UnitStruct => 19,
        TraceNodeKind::UnitVariant => 20,
        TraceNodeKind::NewtypeStruct => 21,
        TraceNodeKind::NewtypeVariant => 22,
        TraceNodeKind::Sequence => 23,
        TraceNodeKind::Tuple => 24,
        TraceNodeKind::TupleStruct => 25,
        TraceNodeKind::TupleVariant => 26,
        TraceNodeKind::Mapping => 27,
        TraceNodeKind::Struct => 28,
        TraceNodeKind::StructVariant => 29,
    }
}

/// The kind that a byte stands for, if any.
pub open spec fn kind_of_code(code: u8) -> Option<TraceNodeKind> {
    if code == 0 { Some(TraceNodeKind::Bool) }
    else if code == 1 { Some(TraceNodeKind::I8) }
    else if code == 2 { Some(TraceNodeKind::I16) }
    else if code == 3 { Some(TraceNodeKind::I32) }
    else if code == 4 { Some(TraceNodeKind::I64) }
    else if code == 5 { Some(TraceNodeKind::I128) }
    else if code == 6 { Some(TraceNodeKind::U8) }
    else if code == 7 { Some(TraceNodeKind::U16) }
    else if code == 8 { Some(TraceNodeKind::U32) }
    else if code == 9 { Some(TraceNodeKind::U64) }
    else if code == 10 { Some(TraceNodeKind::U128) }
    else if code == 11 { Some(TraceNodeKind::F32) }
    else if code == 12 { Some(TraceNodeKind::F64) }
    else if code == 13 { Some(TraceNodeKind::Char) }
    else if code == 14 { Some(TraceNodeKind::String) }
    else if code == 15 { Some(TraceNodeKind::Bytes) }
    else if code == 16 { Some(TraceNodeKind::OptionNone) }
    else if code == 17 { Some(TraceNodeKind::OptionSome) }
    else if code == 18 { Some(TraceNodeKind::Unit) }
    else if code == 19 { Some(TraceNodeKind::UnitStruct) }
    else if code == 20 { Some(TraceNodeKind::UnitVariant) }
    else if code == 21 { Some(TraceNodeKind::NewtypeStruct) }
    else if code == 22 { Some(TraceNodeKind::NewtypeVariant) }
    else if code == 23 { Some(TraceNodeKind::Sequence) }
    else if code == 24 { Some(TraceNodeKind::Tuple) }
    else if code == 25 { Some(TraceNodeKind::TupleStruct) }
    else if code == 26 { Some(TraceNodeKind::TupleVariant) }
    else if code == 27 { Some(TraceNodeKind::Mapping) }
    else if code == 28 { Some(TraceNodeKind::Struct) }
    else if code == 29 { Some(TraceNodeKind::StructVariant) }
    else { None }
}

/// Decoding the byte of a kind gives the kind back.
pub proof fn lemma_kind_code_roundtrip(kind: TraceNodeKind)
    ensures
        kind_of_code(kind_code(kind)) == Some(kind),
{
}

impl TraceNodeKind {
    /// The byte that stands for this kind.
    pub fn code(self) -> (r: u8)
        ensures
            r == kind_code(self),
    {
        match self {
            TraceNodeKind::Bool => 0,
            TraceNodeKind::I8 => 1,
            TraceNodeKind::I16 => 2,
            TraceNodeKind::I32 => 3,
            TraceNodeKind::I64 => 4,
            TraceNodeKind::I128 => 5,
            TraceNodeKind::U8 => 6,
            TraceNodeKind::U16 => 7,
            TraceNodeKind::U32 => 8,
            TraceNodeKind::U64 => 9,
            TraceNodeKind::U128 => 10,
            TraceNodeKind::F32 => 11,
            TraceNodeKind::F64 => 12,
            TraceNodeKind::Char => 13,
            TraceNodeKind::String => 14,
            TraceNodeKind::Bytes => 15,
            TraceNodeKind::OptionNone => 16,
            TraceNodeKind::OptionSome => 17,
            TraceNodeKind::Unit => 18,
            TraceNodeKind::UnitStruct => 19,
            TraceNodeKind::UnitVariant => 20,
            TraceNodeKind::NewtypeStruct => 21,
            TraceNodeKind::NewtypeVariant => 22,
            TraceNodeKind::Sequence => 23,
            TraceNodeKind::Tuple => 24,
            TraceNodeKind::TupleStruct => 25,
            TraceNodeKind::TupleVariant => 26,
            TraceNodeKind::Mapping => 27,
            TraceNodeKind::Struct => 28,
            TraceNodeKind::StructVariant => 29,
        }
    }

    /// The kind that a byte stands for, if any.
    pub fn from_code(code: u8) -> (r: Option<TraceNodeKind>)
        ensures
            r == kind_of_code(code),
    {
        if code <= 29 {
            let kinds = [
                TraceNodeKind::Bool, TraceNodeKind::I8, TraceNodeKind::I16, TraceNodeKind::I32,
                TraceNodeKind::I64, TraceNodeKind::I128, TraceNodeKind::U8, TraceNodeKind::U16,
                TraceNodeKind::U32, TraceNodeKind::U64, TraceNodeKind::U128, TraceNodeKind::F32,
                TraceNodeKind::F64, TraceNodeKind::Char, TraceNodeKind::String, TraceNodeKind::Bytes,
                TraceNodeKind::OptionNone, TraceNodeKind::OptionSome, TraceNodeKind::Unit,
                TraceNodeKind::UnitStruct, TraceNodeKind::UnitVariant, TraceNodeKind::NewtypeStruct,
                TraceNodeKind::NewtypeVariant, TraceNodeKind::Sequence, TraceNodeKind::Tuple,
                TraceNodeKind::TupleStruct, TraceNodeKind::TupleVariant, TraceNodeKind::Mapping,
                TraceNodeKind::Struct, TraceNodeKind::StructVariant,
            ];
            Some(kinds[code as usize])
        } else {
            None
        }
    }
}

/// The four little-endian bytes of `x`.
pub open spec fn le_bytes(x: u32) -> Seq<u8> {
    seq![
        (x % 256) as u8,
        ((x / 256) % 256) as u8,
        ((x / 65536) % 256) as u8,
        ((x / 16777216) % 256) as u8,
    ]
}

/// The value of four little-endian bytes.
pub open spec fn le_value(b: Seq<u8>) -> int {
    b[0] as int + 256 * b[1] as int + 65536 * b[2] as int + 16777216 * b[3] as int
}

/// Reading back the bytes of `x` gives `x`.
pub proof fn lemma_le_bytes_roundtrip(x: u32)
    ensures
        le_bytes(x).len() == 4,
        le_value(le_bytes(x)) == x,
{
}

/// The four little-endian bytes of `x`.
pub fn u32_le_bytes(x: u32) -> (r: [u8; 4])
    ensures
        r@ == le_bytes(x),
{
    let r = [(x % 256) as u8, ((x / 256) % 256) as u8, ((x / 65536) % 256) as u8, ((x / 16777216) % 256) as u8];
    assert(r@ =~= le_bytes(x));
    r
}

/// The value of the four little-endian bytes at `start`.
pub fn read_u32(data: &[u8], start: usize) -> (r: u32)
    requires
        start + 4 <= data@.len(),
    ensures
        r == le_value(data@.subrange(start as int, start + 4)),
{
    let r = data[start] as u32 + 256 * data[start + 1] as u32 + 65536 * data[start + 2] as u32
        + 16777216 * data[start + 3] as u32;
    r
}

/// Appends the four little-endian bytes of `integer`.
pub fn push_u32(data: &mut Vec<u8>, integer: u32)
    ensures
        final(data)@ == old(data)@ + le_bytes(integer),
{
    let bytes = u32_le_bytes(integer);
    data.push(bytes[0]);
    data.push(bytes[1]);
    data.push(bytes[2]);
    data.push(bytes[3]);
    assert(data@ =~= old(data)@ + le_bytes(integer));
}

/// Overwrites the bytes from `index` on with `bytes`.
pub fn fill_reserved_bytes(data: &mut Vec<u8>, index: usize, bytes: &[u8])
    requires
        index + bytes@.len() <= old(data)@.len(),
    ensures
        final(data)@.len() == old(data)@.len(),
        final(data)@ == old(data)@.subrange(0, index as int) + bytes@
            + old(data)@.subrange(index + bytes@.len(), old(data)@.len() as int),
{
    let start = index;
    let mut k: usize = 0;
    while k < bytes.len()
        invariant
            0 <= k <= bytes@.len(),
            start == index,
            start + bytes@.len() <= old(data)@.len(),
            data@.len() == old(data)@.len(),
            forall|i: int| 0 <= i < data@.len() ==> #[trigger] data@[i] == (
                if start <= i < start + k { bytes@[i - start] } else { old(data)@[i] }),
        decreases bytes@.len() - k,
    {
        assert(start + k < data.len());
        data.set(start + k, bytes[k]);
        k += 1;
    }
    assert(data@ =~= old(data)@.subrange(0, index as int) + bytes@
        + old(data)@.subrange(index + bytes@.len(), old(data)@.len() as int));
}

} // verus!
