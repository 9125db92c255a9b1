//! Indices into the schema's interned pools.

use vstd::prelude::*;
use crate::error::TraceLimitErrorKind;

verus! {

/// Index of a schema node in the node pool; 0 is the empty union (bottom).
pub type SchemaNodeIndex = u32;
/// Index of a list of schema nodes; 0 is the empty list.
pub type SchemaNodeListIndex = u32;
/// Index of a struct member (field position).
pub type MemberIndex = u32;
/// Index of a list of struct members; 0 is the empty list.
pub type MemberListIndex = u32;
/// Index of a field name.
pub type FieldNameIndex = u32;
/// Index of a list of field names.
pub type FieldNameListIndex = u32;
/// Index of a type name.
pub type TypeNameIndex = u32;
/// Index of a variant name.
pub type VariantNameIndex = u32;
/// Byte offset into a trace.
pub type TraceIndex = u32;

/// The index that pools with an empty value reserve for it.
pub const EMPTY_INDEX: u32 = 0;

/// The name of a struct, tuple struct, unit struct or newtype (no variant), or of an enum and
/// one of its variants.
#[derive(Debug, Clone, Copy, PartialEq, Eq, Structural)]
pub struct TypeName(pub TypeNameIndex, pub Option<VariantNameIndex>);

/// Converts a position into a 32-bit index, failing with `kind` when it does not fit.
pub fn index_from_usize(value: usize, kind: TraceLimitErrorKind) -> (r: Result<u32, TraceLimitErrorKind>)
    ensures
        value <= u32::MAX ==> r == Ok::<u32, TraceLimitErrorKind>(value as u32),
        value > u32::MAX ==> r == Err::<u32, TraceLimitErrorKind>(kind),
{
    if value <= 0xffff_ffffusize {
        Ok(value as u32)
    } else {
        Err(kind)
    }
}

} // verus!
