# serde_describe

Schema tracing for self-describing serialization. Values are traced into a compact byte
trace while their types are merged into a schema under construction; the schema is then
frozen into interned pools, and each trace can be read back as the schema describes it.

The library in `src/` is verified with Verus:

- `trace`, `tracer`, `record`: the trace format and the tracing operations. Each operation
  states the exact bytes it appends and what it does to the schema slot it writes into. The
  operations on scalars, options, newtypes, sequences, maps and tuples grow the slot: it keeps
  describing everything it described before, and describes the traced value too. A struct's
  fields are traced by taking each field's type out of the recorded struct and putting it back
  afterwards with the field's value merged in (`law_field_round_grows`).
- `node`, `slot`, `sorted`: the schema under construction, its model (`NodeModel`), which value
  shapes a node describes, and merging one node into another (`unify`, `union`).
- `pool`, `builder`, `schema`, `indices`: interning pools and building the schema; `build`
  states that the built schema denotes the node tree it was built from.
- `reader`, `presence`, `reading`, `describe`: reading a trace back by a schema. `reading`
  states, as spec functions, where each node of a trace ends if a given description is what
  reading it gives (`describes`, `element_end`, `cursor_end`, `finish_end`, `struct_end`, ...);
  each reading function of `describe` succeeds exactly when such a reading exists, returns one,
  and ends where every such reading ends; a trace reads to at most one description
  (`law_describes_unique`).
- `roundtrip`: traced values read back through the schema built from the node tracing merged
  their type into: a leaf (a scalar, `char`, `None`, unit, unit struct or unit variant) reads
  back as its value (`law_traced_leaf_reads_back`), and a value built of such leaves, options
  and newtypes has a reading that takes its whole trace, where no union of the schema holds two
  members that would merge (`law_traced_value_reads_back`).
- `error`: the errors of tracing, with their messages.

Building a schema succeeds whenever the pools have room for the nodes built and no struct keeps
more than 64 skippable fields (with room, one that does gives the skippable-fields error), and building a node that the pools already hold gives its index
and adds nothing; merging a union-free type with itself, or the empty union into a type, leaves
it as it was, and a node joins a union by merging into the first member it unifies with, else
by being appended; starting and ending a struct succeed whenever its counts match and
its names and offsets fit 32 bits.

The interning pools keep their values in `indexmap::IndexSet`s, behind trusted
wrappers in `pool`. `app/` holds the `serde` side: a `Serializer` that drives the tracing
operations, and the serialization of a described trace.
