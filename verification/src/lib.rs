//! Schema tracing for self-describing serialization.
//!
//! Values are traced into a compact byte trace while their types are merged into a
//! schema under construction; the schema is then frozen into interned pools.

use vstd::prelude::*;

pub mod builder;
pub mod describe;
pub mod error;
pub mod indices;
pub mod node;
pub mod pool;
pub mod presence;
pub mod reader;
pub mod reading;
pub mod record;
pub mod roundtrip;
pub mod schema;
pub mod slot;
pub mod sorted;
pub mod trace;
pub mod tracer;

verus! {

} // verus!
