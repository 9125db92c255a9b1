//! Tracing merges each value's type into the schema in place; these cover the cases where a
//! value doesn't match what was recorded before it. Values are traced by the calls a
//! `Serialize` implementation makes, one by one.

use serde_describe::builder::{Names, SchemaBuilder};
use serde_describe::describe::{describe_trace, Described};
use serde_describe::node::SchemaBuilderNode;
use serde_describe::record::StructState;
use serde_describe::schema::{Schema, SchemaNode};
use serde_describe::trace::TraceNodeKind;
use serde_describe::tracer::{push_trace, sequence_item, trace_collection_start, trace_scalar, trace_tuple_start, tuple_fields, TupleState};

/// Traces a struct named `Variable` with the given `u32` fields, in order.
fn trace_variable(data: &mut Vec<u8>, names: &mut Names, slot: &mut SchemaBuilderNode, fields: &[(&'static str, u32)]) {
    push_trace(data, TraceNodeKind::Struct);
    let mut state = StructState::new(data, names, slot, "Variable", None, fields.len()).unwrap();
    for &(key, value) in fields {
        let mut field = state.begin_field(slot, key).unwrap();
        trace_scalar(data, &mut field, TraceNodeKind::U32, &value.to_le_bytes());
        state.end_field(slot, field, true);
    }
    state.end(data, names, slot).unwrap();
}

/// The names of the fields of the field name list `index`.
fn field_names(schema: &Schema, index: u32) -> Vec<&'static str> {
    schema
        .field_name_list(index)
        .unwrap()
        .iter()
        .map(|&name| *schema.field_names.get(name).unwrap())
        .collect()
}

/// The serialized fields of a struct value, by name, as the schema node `index` describes it.
fn struct_fields<'v>(schema: &Schema, index: u32, value: &'v Described) -> Vec<(&'static str, &'v Described)> {
    match schema.node(index).unwrap() {
        SchemaNode::Union(list) => {
            let Described::Variant(_, discriminant, inner) = value else {
                panic!("a union value is a variant")
            };
            let variants = schema.node_list(list).unwrap();
            struct_fields(schema, variants[*discriminant as usize], inner)
        }
        SchemaNode::Struct(_, names, skip, types) => {
            assert_eq!(skip, 0, "no skippable fields here");
            let Described::Tuple(values) = value else {
                panic!("a struct without skippable fields is a tuple")
            };
            let types = schema.node_list(types).unwrap();
            let present = field_names(schema, names)
                .into_iter()
                .zip(types.iter())
                .filter(|(_, &field_type)| field_type != 0)
                .map(|(name, _)| name);
            present.zip(values.iter()).collect()
        }
        other => panic!("not a struct: {other:?}"),
    }
}

/// The value of the `u32` field `key`, or 0.
fn field_u32(fields: &[(&'static str, &Described)], key: &str) -> u32 {
    fields
        .iter()
        .find(|(name, _)| *name == key)
        .map(|(_, value)| match value {
            Described::U32(value) => *value,
            other => panic!("not a u32: {other:?}"),
        })
        .unwrap_or(0)
}

#[test]
fn same_struct_name_with_different_fields() {
    let values: Vec<Vec<(&'static str, u32)>> = vec![
        vec![("a", 1), ("b", 2)],
        // Fewer fields than recorded.
        vec![("a", 3)],
        // Same fields, different order.
        vec![("b", 4), ("a", 5)],
        // More fields than recorded.
        vec![("a", 6), ("b", 7), ("c", 8)],
        vec![],
        vec![("a", 9), ("b", 10)],
        vec![("b", 11), ("a", 12)],
    ];
    let mut builder = SchemaBuilder::new();
    let mut data = builder.begin_trace();
    let mut sequence = trace_collection_start(&mut data, TraceNodeKind::Sequence).unwrap();
    let item = sequence_item(&mut builder.root);
    for value in &values {
        sequence.element_started();
        trace_variable(&mut data, &mut builder.names, item, value);
        sequence.element_done(true);
    }
    sequence.end(&mut data).unwrap();
    let schema = builder.build().unwrap();

    let described = describe_trace(&schema, &data).unwrap();
    let SchemaNode::Sequence(item) = schema.node(schema.root_index).unwrap() else {
        panic!("the root is a sequence")
    };
    let Described::Sequence(elements) = described else {
        panic!("the value is a sequence")
    };
    let decoded: Vec<(u32, u32, u32)> = elements
        .iter()
        .map(|element| {
            let fields = struct_fields(&schema, item, element);
            (field_u32(&fields, "a"), field_u32(&fields, "b"), field_u32(&fields, "c"))
        })
        .collect();
    let expected = vec![(1, 2, 0), (3, 0, 0), (5, 4, 0), (6, 7, 8), (0, 0, 0), (9, 10, 0), (12, 11, 0)];
    assert_eq!(decoded, expected);
}

/// A struct whose field `never` is always skipped.
#[derive(Debug, Clone, PartialEq)]
struct AlwaysSkipped {
    a: u8,
    never: Option<u8>,
    b: f32,
}

/// Traces an `AlwaysSkipped` as its derived `Serialize` does: `never` is skipped when `None`.
fn trace_always_skipped(data: &mut Vec<u8>, names: &mut Names, slot: &mut SchemaBuilderNode, value: &AlwaysSkipped) {
    push_trace(data, TraceNodeKind::Struct);
    let length = 2 + usize::from(value.never.is_some());
    let mut state = StructState::new(data, names, slot, "AlwaysSkipped", None, length).unwrap();
    let mut field = state.begin_field(slot, "a").unwrap();
    trace_scalar(data, &mut field, TraceNodeKind::U8, &[value.a]);
    state.end_field(slot, field, true);
    match value.never {
        None => state.skip_field(names, slot, "never").unwrap(),
        Some(never) => {
            let mut field = state.begin_field(slot, "never").unwrap();
            let inner = serde_describe::tracer::trace_some(data, &mut field);
            trace_scalar(data, inner, TraceNodeKind::U8, &[never]);
            state.end_field(slot, field, true);
        }
    }
    let mut field = state.begin_field(slot, "b").unwrap();
    trace_scalar(data, &mut field, TraceNodeKind::F32, &value.b.to_le_bytes());
    state.end_field(slot, field, true);
    state.end(data, names, slot).unwrap();
}

/// Reads an `AlwaysSkipped` back from its description by the schema node `index`.
fn decode_always_skipped(schema: &Schema, index: u32, value: &Described) -> AlwaysSkipped {
    let SchemaNode::Struct(_, names, skip, types) = schema.node(index).unwrap() else {
        panic!("not a struct")
    };
    assert_eq!(skip, 0, "a field that is always skipped is not skippable");
    let types = schema.node_list(types).unwrap();
    let names = field_names(schema, names);
    assert_eq!(names, ["a", "never", "b"]);
    assert_eq!(types[1], 0, "a field that is always skipped has no type");
    let Described::Tuple(values) = value else {
        panic!("not a tuple")
    };
    let [Described::U8(a), Described::F32(b)] = values.as_slice() else {
        panic!("unexpected fields {values:?}")
    };
    AlwaysSkipped { a: *a, never: None, b: f32::from_bits(*b) }
}

#[test]
fn always_skipped_field() {
    let value = AlwaysSkipped { a: 1, never: None, b: 2.5 };

    // The value alone.
    let mut builder = SchemaBuilder::new();
    let mut data = builder.begin_trace();
    trace_always_skipped(&mut data, &mut builder.names, &mut builder.root, &value);
    let schema = builder.build().unwrap();
    let described = describe_trace(&schema, &data).unwrap();
    assert_eq!(decode_always_skipped(&schema, schema.root_index, &described), value);

    // A sequence of two.
    let values = vec![value.clone(), value.clone()];
    let mut builder = SchemaBuilder::new();
    let mut data = builder.begin_trace();
    let mut sequence = trace_collection_start(&mut data, TraceNodeKind::Sequence).unwrap();
    let item = sequence_item(&mut builder.root);
    for element in &values {
        sequence.element_started();
        trace_always_skipped(&mut data, &mut builder.names, item, element);
        sequence.element_done(true);
    }
    sequence.end(&mut data).unwrap();
    let schema = builder.build().unwrap();
    let Described::Sequence(elements) = describe_trace(&schema, &data).unwrap() else {
        panic!("not a sequence")
    };
    let SchemaNode::Sequence(item) = schema.node(schema.root_index).unwrap() else {
        panic!("not a sequence")
    };
    let decoded: Vec<AlwaysSkipped> = elements.iter().map(|e| decode_always_skipped(&schema, item, e)).collect();
    assert_eq!(decoded, values);

    // A sequence of pairs.
    let values = vec![(value.clone(), 3u8), (value, 4u8)];
    let mut builder = SchemaBuilder::new();
    let mut data = builder.begin_trace();
    let mut sequence = trace_collection_start(&mut data, TraceNodeKind::Sequence).unwrap();
    let item = sequence_item(&mut builder.root);
    for (element, number) in &values {
        sequence.element_started();
        trace_tuple_start(&mut data, &mut builder.names, None, None, 2).unwrap();
        let fields = tuple_fields(item, None, 2);
        let mut tuple = TupleState::new();
        let slot = tuple.element_slot(fields).unwrap();
        trace_always_skipped(&mut data, &mut builder.names, slot, element);
        tuple.element_done(true);
        let slot = tuple.element_slot(fields).unwrap();
        trace_scalar(&mut data, slot, TraceNodeKind::U8, &[*number]);
        tuple.element_done(true);
        tuple.end(2).unwrap();
        sequence.element_done(true);
    }
    sequence.end(&mut data).unwrap();
    let schema = builder.build().unwrap();
    let Described::Sequence(elements) = describe_trace(&schema, &data).unwrap() else {
        panic!("not a sequence")
    };
    let SchemaNode::Sequence(item) = schema.node(schema.root_index).unwrap() else {
        panic!("not a sequence")
    };
    let SchemaNode::Tuple(list) = schema.node(item).unwrap() else {
        panic!("not a tuple")
    };
    let parts = schema.node_list(list).unwrap().clone();
    let decoded: Vec<(AlwaysSkipped, u8)> = elements
        .iter()
        .map(|e| {
            let Described::Tuple(pair) = e else { panic!("not a tuple") };
            let Described::U8(number) = pair[1] else { panic!("not a u8") };
            (decode_always_skipped(&schema, parts[0], &pair[0]), number)
        })
        .collect();
    assert_eq!(decoded, values);
}
