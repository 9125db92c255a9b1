//! Errors of tracing.

use vstd::prelude::*;

verus! {

/// Which built-in limit a traced value exceeded.
#[derive(Debug, Clone, Copy, PartialEq, Eq, Structural)]
pub enum TraceLimitErrorKind {
    SchemaNodes,
    SchemaNodeLists,
    Members,
    MemberLists,
    Names,
    FieldNameLists,
    Values,
    UnionVariants,
    SkippableFields,
}

/// The human-readable description of each limit.
pub open spec fn limit_message(kind: TraceLimitErrorKind) -> Seq<char> {
    match kind {
        TraceLimitErrorKind::SchemaNodes => "too many schema nodes for u32"@,
        TraceLimitErrorKind::SchemaNodeLists => "too many schema node lists for u32"@,
        TraceLimitErrorKind::Members => "too many struct members for u32"@,
        TraceLimitErrorKind::MemberLists => "too many struct member lists for u32"@,
        TraceLimitErrorKind::Names => "too many struct/variant/field names for u32"@,
        TraceLimitErrorKind::FieldNameLists => "too many field lists for u32"@,
        TraceLimitErrorKind::Values => "too many values for u32"@,
        TraceLimitErrorKind::UnionVariants => "too many variants"@,
        TraceLimitErrorKind::SkippableFields => "too many skippable fields"@,
    }
}

impl TraceLimitErrorKind {
    /// The message shown for this limit.
    pub fn message(&self) -> (r: &'static str)
        ensures
            r@ == limit_message(*self),
    {
        match self {
            TraceLimitErrorKind::SchemaNodes => "too many schema nodes for u32",
            TraceLimitErrorKind::SchemaNodeLists => "too many schema node lists for u32",
            TraceLimitErrorKind::Members => "too many struct members for u32",
            TraceLimitErrorKind::MemberLists => "too many struct member lists for u32",
            TraceLimitErrorKind::Names => "too many struct/variant/field names for u32",
            TraceLimitErrorKind::FieldNameLists => "too many field lists for u32",
            TraceLimitErrorKind::Values => "too many values for u32",
            TraceLimitErrorKind::UnionVariants => "too many variants",
            TraceLimitErrorKind::SkippableFields => "too many skippable fields",
        }
    }
}

/// Errors caused by tracing a value that is in some way too large.
#[derive(Debug, Clone, Copy, PartialEq, Eq, Structural)]
pub struct TraceLimitError(pub TraceLimitErrorKind);

impl TraceLimitError {
    /// The limit that was exceeded.
    pub fn kind(&self) -> (r: TraceLimitErrorKind)
        ensures
            r == self.0,
    {
        self.0
    }

    /// The message shown for this error.
    pub fn message(&self) -> (r: &'static str)
        ensures
            r@ == limit_message(self.0),
    {
        self.0.message()
    }
}

impl From<TraceLimitErrorKind> for TraceLimitError {
    fn from(value: TraceLimitErrorKind) -> (r: Self) {
        TraceLimitError(value)
    }
}

impl vstd::std_specs::convert::FromSpecImpl<TraceLimitErrorKind> for TraceLimitError {
    open spec fn obeys_from_spec() -> bool {
        true
    }

    open spec fn from_spec(value: TraceLimitErrorKind) -> Self {
        TraceLimitError(value)
    }
}

/// Errors returned by tracing values.
#[derive(Debug)]
pub enum TraceError {
    /// The value is in some way too large, and built-in limits were exceeded.
    Limit(TraceLimitError),
    /// A `Serialize` implementation serialized a different number of struct fields or tuple
    /// elements than the length it declared.
    LengthMismatch,
    /// Custom serialization error.
    Custom(String),
}

impl From<TraceLimitErrorKind> for TraceError {
    fn from(kind: TraceLimitErrorKind) -> (r: Self) {
        TraceError::Limit(TraceLimitError(kind))
    }
}

impl vstd::std_specs::convert::FromSpecImpl<TraceLimitErrorKind> for TraceError {
    open spec fn obeys_from_spec() -> bool {
        true
    }

    open spec fn from_spec(kind: TraceLimitErrorKind) -> Self {
        TraceError::Limit(TraceLimitError(kind))
    }
}

/// The message of the error of a sequence or map whose element failed to trace.
pub open spec fn ignored_message() -> Seq<char> {
    "an element failed to serialize, but serialization carried on"@
}

/// The error of a sequence or map whose element failed to trace, when the `Serialize`
/// implementation ignored that and carried on: the failed element is already partly in the trace.
pub fn ignored_error() -> (r: TraceError)
    ensures
        r matches TraceError::Custom(message) && message@ == ignored_message(),
{
    let message = "an element failed to serialize, but serialization carried on";
    TraceError::Custom(message.to_owned())
}

/// The human-readable description of a tracing error.
pub open spec fn trace_message(e: TraceError) -> Seq<char> {
    "tracing error: "@ + match e {
        TraceError::Limit(limit) => limit_message(limit.0),
        TraceError::LengthMismatch => "serialized a different number of elements than declared"@,
        TraceError::Custom(custom) => "custom serialization error: "@ + custom@,
    }
}

/// `format!` of `a` followed by `b`: the two strings one after the other.
#[verifier::external_body]
fn joined(a: &str, b: &str) -> (r: String)
    ensures
        r@ == a@ + b@,
{
    format!("{a}{b}")
}

impl TraceError {
    /// The message shown for this error.
    pub fn message(&self) -> (r: String)
        ensures
            r@ == trace_message(*self),
    {
        match self {
            TraceError::Limit(limit) => joined("tracing error: ", limit.message()),
            TraceError::LengthMismatch => joined("tracing error: ", "serialized a different number of elements than declared"),
            TraceError::Custom(custom) => {
                let tail = joined("custom serialization error: ", custom.as_str());
                joined("tracing error: ", tail.as_str())
            },
        }
    }

    /// Whether this is a limit error of the given kind.
    pub fn is_limit(&self, kind: TraceLimitErrorKind) -> (r: bool)
        ensures
            r == (*self matches TraceError::Limit(limit) && limit.0 == kind),
    {
        match self {
            TraceError::Limit(limit) => limit.0 == kind,
            _ => false,
        }
    }
}

} // verus!
