//! Values traced into a schema, described by the schema built from them, and read back: tracing
//! merges each value's type into the schema in place, also where a value fails half way.
//! Values are traced by the calls their `Serialize` implementation makes, one by one.

use serde_describe::builder::{Names, SchemaBuilder};
use serde_describe::describe::{describe_trace, Described};
use serde_describe::error::TraceError;
use serde_describe::node::SchemaBuilderNode;
use serde_describe::record::StructState;
use serde_describe::schema::{Schema, SchemaNode};
use serde_describe::trace::TraceNodeKind;
use serde_describe::tracer::{
    map_slots, newtype, push_trace, sequence_item, trace_collection_start, trace_newtype_struct,
    trace_newtype_variant, trace_none, trace_scalar, trace_some, trace_str, trace_tuple_start, trace_unit,
    trace_unit_variant, tuple_fields, TupleState,
};

/// A value as its `Serialize` implementation hands it to a serializer.
#[derive(Debug, Clone, PartialEq)]
enum Val {
    U8(u8),
    U16(u16),
    U32(u32),
    U64(u64),
    /// The bits of an `f32`.
    F32(u32),
    Str(String),
    Nothing,
    Present(Box<Val>),
    Unit,
    Newtype(&'static str, Box<Val>),
    List(Vec<Val>),
    Entries(Vec<(Val, Val)>),
    Tuple(Vec<Val>),
    TupleStruct(&'static str, Vec<Val>),
    /// A struct; `None` fields are skipped.
    Struct(&'static str, Vec<(&'static str, Option<Val>)>),
    UnitVariant(&'static str, &'static str),
    NewtypeVariant(&'static str, &'static str, Box<Val>),
    TupleVariant(&'static str, &'static str, Vec<Val>),
    StructVariant(&'static str, &'static str, Vec<(&'static str, Option<Val>)>),
    /// Starts a sequence, serializes `1u64` in it, then fails.
    Failing,
}

fn custom(message: &str) -> TraceError {
    TraceError::Custom(message.to_string())
}

/// Traces `value` into `slot` as a serializer of the library does.
fn trace_val(data: &mut Vec<u8>, names: &mut Names, slot: &mut SchemaBuilderNode, value: &Val) -> Result<(), TraceError> {
    match value {
        Val::U8(x) => trace_scalar(data, slot, TraceNodeKind::U8, &[*x]),
        Val::U16(x) => trace_scalar(data, slot, TraceNodeKind::U16, &x.to_le_bytes()),
        Val::U32(x) => trace_scalar(data, slot, TraceNodeKind::U32, &x.to_le_bytes()),
        Val::U64(x) => trace_scalar(data, slot, TraceNodeKind::U64, &x.to_le_bytes()),
        Val::F32(bits) => trace_scalar(data, slot, TraceNodeKind::F32, &bits.to_le_bytes()),
        Val::Str(s) => return trace_str(data, slot, s),
        Val::Nothing => trace_none(data, slot),
        Val::Present(inner) => {
            let inner_slot = trace_some(data, slot);
            return trace_val(data, names, inner_slot, inner);
        }
        Val::Unit => trace_unit(data, slot),
        Val::Newtype(name, inner) => {
            let tname = trace_newtype_struct(data, names, name)?;
            return trace_val(data, names, newtype(slot, tname), inner);
        }
        Val::NewtypeVariant(name, variant, inner) => {
            let tname = trace_newtype_variant(data, names, name, variant)?;
            return trace_val(data, names, newtype(slot, tname), inner);
        }
        Val::UnitVariant(name, variant) => return trace_unit_variant(data, names, slot, name, variant),
        Val::List(items) => {
            let mut state = trace_collection_start(data, TraceNodeKind::Sequence)?;
            let item = sequence_item(slot);
            for x in items {
                state.element_started();
                let result = trace_val(data, names, item, x);
                state.element_done(result.is_ok());
                result?;
            }
            return state.end(data);
        }
        Val::Entries(entries) => {
            let mut state = trace_collection_start(data, TraceNodeKind::Mapping)?;
            let (key_slot, value_slot) = map_slots(slot);
            for (key, value) in entries {
                state.element_started();
                let result = trace_val(data, names, key_slot, key);
                state.element_done(result.is_ok());
                result?;
                let result = trace_val(data, names, value_slot, value);
                state.element_done(result.is_ok());
                result?;
            }
            return state.end(data);
        }
        Val::Tuple(items) => return trace_tuple(data, names, slot, None, None, items),
        Val::TupleStruct(name, items) => return trace_tuple(data, names, slot, Some(name), None, items),
        Val::TupleVariant(name, variant, items) => {
            return trace_tuple(data, names, slot, Some(name), Some(variant), items);
        }
        Val::Struct(name, fields) => return trace_struct(data, names, slot, TraceNodeKind::Struct, name, None, fields),
        Val::StructVariant(name, variant, fields) => {
            return trace_struct(data, names, slot, TraceNodeKind::StructVariant, name, Some(variant), fields);
        }
        Val::Failing => {
            let mut state = trace_collection_start(data, TraceNodeKind::Sequence)?;
            let item = sequence_item(slot);
            state.element_started();
            trace_scalar(data, item, TraceNodeKind::U64, &1u64.to_le_bytes());
            state.element_done(true);
            return Err(custom("failing"));
        }
    }
    Ok(())
}

fn trace_tuple(
    data: &mut Vec<u8>,
    names: &mut Names,
    slot: &mut SchemaBuilderNode,
    name: Option<&'static str>,
    variant: Option<&'static str>,
    items: &[Val],
) -> Result<(), TraceError> {
    let tname = trace_tuple_start(data, names, name, variant, items.len())?;
    let fields = tuple_fields(slot, tname, items.len());
    let mut state = TupleState::new();
    for x in items {
        let field = state.element_slot(fields)?;
        let result = trace_val(data, names, field, x);
        state.element_done(result.is_ok());
        result?;
    }
    state.end(items.len())
}

fn trace_struct(
    data: &mut Vec<u8>,
    names: &mut Names,
    slot: &mut SchemaBuilderNode,
    kind: TraceNodeKind,
    name: &'static str,
    variant: Option<&'static str>,
    fields: &[(&'static str, Option<Val>)],
) -> Result<(), TraceError> {
    push_trace(data, kind);
    let length = fields.iter().filter(|(_, value)| value.is_some()).count();
    let mut state = StructState::new(data, names, slot, name, variant, length)?;
    for (key, value) in fields {
        match value {
            None => state.skip_field(names, slot, key)?,
            Some(value) => {
                let mut field = state.begin_field(slot, key)?;
                let result = trace_val(data, names, &mut field, value);
                state.end_field(slot, field, result.is_ok());
                result?;
            }
        }
    }
    state.end(data, names, slot)
}

/// Traces `value` into `builder`, returning its trace.
fn trace_root(builder: &mut SchemaBuilder, value: &Val) -> Result<Vec<u8>, TraceError> {
    let mut data = builder.begin_trace();
    trace_val(&mut data, &mut builder.names, &mut builder.root, value)?;
    Ok(data)
}

/// `value` without its skipped struct fields: what reading it back gives.
fn serialized(value: &Val) -> Val {
    let fields = |fields: &[(&'static str, Option<Val>)]| {
        fields
            .iter()
            .filter_map(|(key, value)| value.as_ref().map(|value| (*key, Some(serialized(value)))))
            .collect()
    };
    match value {
        Val::Present(inner) => Val::Present(Box::new(serialized(inner))),
        Val::Newtype(name, inner) => Val::Newtype(name, Box::new(serialized(inner))),
        Val::NewtypeVariant(name, variant, inner) => Val::NewtypeVariant(name, variant, Box::new(serialized(inner))),
        Val::List(items) => Val::List(items.iter().map(serialized).collect()),
        Val::Entries(entries) => Val::Entries(entries.iter().map(|(k, v)| (serialized(k), serialized(v))).collect()),
        Val::Tuple(items) => Val::Tuple(items.iter().map(serialized).collect()),
        Val::TupleStruct(name, items) => Val::TupleStruct(name, items.iter().map(serialized).collect()),
        Val::TupleVariant(name, variant, items) => {
            Val::TupleVariant(name, variant, items.iter().map(serialized).collect())
        }
        Val::Struct(name, f) => Val::Struct(name, fields(f)),
        Val::StructVariant(name, variant, f) => Val::StructVariant(name, variant, fields(f)),
        other => other.clone(),
    }
}

fn tname(schema: &Schema, index: u32) -> &'static str {
    *schema.type_names.get(index).unwrap()
}

fn variant_name(schema: &Schema, index: u32) -> &'static str {
    *schema.variant_names.get(index).unwrap()
}

/// The items of a tuple described by the node list `list`.
fn decode_items(schema: &Schema, list: u32, value: &Described) -> Vec<Val> {
    let Described::Tuple(items) = value else { panic!("not a tuple: {value:?}") };
    let nodes = schema.node_list(list).unwrap();
    assert_eq!(nodes.len(), items.len());
    nodes.iter().zip(items.iter()).map(|(&node, item)| decode(schema, node, item)).collect()
}

/// The serialized fields of a struct, by name, in the order of its fields.
fn decode_fields(schema: &Schema, names: u32, skip: u32, list: u32, value: &Described) -> Vec<(&'static str, Option<Val>)> {
    let field_names: Vec<&'static str> = schema
        .field_name_list(names)
        .unwrap()
        .iter()
        .map(|&name| *schema.field_names.get(name).unwrap())
        .collect();
    let nodes = schema.node_list(list).unwrap();
    let skip_list = schema.member_list(skip).unwrap();
    let (present, items): (Vec<usize>, &Vec<Described>) = if skip_list.is_empty() {
        let Described::Tuple(items) = value else { panic!("not a tuple: {value:?}") };
        ((0..nodes.len()).filter(|&i| nodes[i] != 0).collect(), items)
    } else {
        let Described::Variant(bits, discriminant, inner) = value else { panic!("not a variant: {value:?}") };
        assert_eq!(*bits as usize, skip_list.len());
        let Described::Tuple(items) = inner.as_ref() else { panic!("not a tuple: {inner:?}") };
        let present = (0..nodes.len())
            .filter(|&i| match skip_list.iter().position(|&s| s as usize == i) {
                Some(bit) => discriminant & (1 << bit) != 0,
                None => nodes[i] != 0,
            })
            .collect();
        (present, items)
    };
    assert_eq!(present.len(), items.len());
    present
        .into_iter()
        .zip(items.iter())
        .map(|(i, item)| (field_names[i], Some(decode(schema, nodes[i], item))))
        .collect()
}

/// Reads back the value that the schema node `index` describes as `value`.
fn decode(schema: &Schema, index: u32, value: &Described) -> Val {
    match (schema.node(index).unwrap(), value) {
        (SchemaNode::Union(list), Described::Variant(bits, discriminant, inner)) => {
            let variants = schema.node_list(list).unwrap();
            assert!(variants.len() <= 1 << *bits);
            decode(schema, variants[*discriminant as usize], inner)
        }
        (SchemaNode::U8, Described::U8(x)) => Val::U8(*x),
        (SchemaNode::U16, Described::U16(x)) => Val::U16(*x),
        (SchemaNode::U32, Described::U32(x)) => Val::U32(*x),
        (SchemaNode::U64, Described::U64(x)) => Val::U64(*x),
        (SchemaNode::F32, Described::F32(bits)) => Val::F32(*bits),
        (SchemaNode::String, Described::String(bytes)) => Val::Str(String::from_utf8(bytes.clone()).unwrap()),
        (SchemaNode::OptionNone, Described::Unit) => Val::Nothing,
        (SchemaNode::OptionSome(inner), _) => Val::Present(Box::new(decode(schema, inner, value))),
        (SchemaNode::Unit, Described::Unit) => Val::Unit,
        (SchemaNode::NewtypeStruct(name, inner), _) => Val::Newtype(tname(schema, name), Box::new(decode(schema, inner, value))),
        (SchemaNode::UnitVariant(name, variant), Described::Unit) => {
            Val::UnitVariant(tname(schema, name), variant_name(schema, variant))
        }
        (SchemaNode::NewtypeVariant(name, variant, inner), _) => Val::NewtypeVariant(
            tname(schema, name),
            variant_name(schema, variant),
            Box::new(decode(schema, inner, value)),
        ),
        (SchemaNode::Sequence(item), Described::Sequence(items)) => {
            Val::List(items.iter().map(|x| decode(schema, item, x)).collect())
        }
        (SchemaNode::Mapping(key, val), Described::Mapping(entries)) => Val::Entries(
            entries.iter().map(|(k, v)| (decode(schema, key, k), decode(schema, val, v))).collect(),
        ),
        (SchemaNode::Tuple(list), _) => Val::Tuple(decode_items(schema, list, value)),
        (SchemaNode::TupleStruct(name, list), _) => Val::TupleStruct(tname(schema, name), decode_items(schema, list, value)),
        (SchemaNode::TupleVariant(name, variant, list), _) => Val::TupleVariant(
            tname(schema, name),
            variant_name(schema, variant),
            decode_items(schema, list, value),
        ),
        (SchemaNode::Struct(name, names, skip, list), _) => {
            Val::Struct(tname(schema, name), decode_fields(schema, names, skip, list, value))
        }
        (SchemaNode::StructVariant(name, variant, names, skip, list), _) => Val::StructVariant(
            tname(schema, name),
            variant_name(schema, variant),
            decode_fields(schema, names, skip, list, value),
        ),
        (node, _) => panic!("{node:?} does not describe {value:?}"),
    }
}

/// Traces `value` alone, builds its schema, describes the trace by it and reads it back.
fn check_roundtrip(value: &Val) {
    let mut builder = SchemaBuilder::new();
    let data = trace_root(&mut builder, value).unwrap();
    let schema = builder.build().unwrap();
    let described = describe_trace(&schema, &data).unwrap();
    assert_eq!(decode(&schema, schema.root_index, &described), serialized(value));
}

fn some(value: Val) -> Val {
    Val::Present(Box::new(value))
}

/// An `Inner { x, y, z }`, whose `x` is skipped when `None` and `z` when empty.
fn inner(x: Option<u8>, y: u8, z: Vec<Val>) -> Val {
    Val::Struct(
        "Inner",
        vec![
            ("x", x.map(|x| some(Val::U8(x)))),
            ("y", Some(Val::U8(y))),
            ("z", if z.is_empty() { None } else { Some(Val::List(z)) }),
        ],
    )
}

/// An `Outer { a, inner, b }`, whose `a` and `b` are skipped when `None`.
fn outer(a: Option<u8>, inner: Val, b: Option<&str>) -> Val {
    Val::Struct(
        "Outer",
        vec![
            ("a", a.map(|a| some(Val::U8(a)))),
            ("inner", Some(inner)),
            ("b", b.map(|b| some(Val::Str(b.to_string())))),
        ],
    )
}

#[test]
fn skipped_fields_vary_across_values() {
    let mut values = Vec::new();
    for a in [None, Some(1)] {
        for b in [None, Some("b")] {
            for x in [None, Some(2)] {
                values.push(outer(a, inner(x, 3, vec![inner(None, 4, vec![]), inner(Some(5), 6, vec![])]), b));
                values.push(outer(a, inner(x, 7, vec![]), b));
            }
        }
    }
    check_roundtrip(&Val::List(values.clone()));
    // Every value alone: all fields present, or skipped ones only.
    for value in &values {
        check_roundtrip(value);
    }
}

/// A `Shape::Struct { x, y }`, whose `y` is skipped when `None`.
fn shape_struct(x: f32, y: Option<f32>) -> Val {
    Val::StructVariant(
        "Shape",
        "Struct",
        vec![("x", Some(Val::F32(x.to_bits()))), ("y", y.map(|y| some(Val::F32(y.to_bits()))))],
    )
}

fn shape_unit() -> Val {
    Val::UnitVariant("Shape", "Unit")
}

fn shape_tuple(a: u8, b: u16) -> Val {
    Val::TupleVariant("Shape", "Tuple", vec![Val::U8(a), Val::U16(b)])
}

fn shape_nested(shape: Val) -> Val {
    Val::NewtypeVariant("Shape", "Nested", Box::new(shape))
}

#[test]
fn unions_of_records_and_enums() {
    let shapes = vec![
        shape_struct(1.0, None),
        shape_unit(),
        shape_tuple(1, 2),
        Val::NewtypeVariant("Shape", "Newtype", Box::new(Val::Newtype("Newtype", Box::new(Val::U32(3))))),
        shape_struct(2.0, Some(3.0)),
        shape_nested(shape_struct(4.0, None)),
        shape_nested(shape_nested(shape_unit())),
    ];
    check_roundtrip(&Val::List(shapes));
    let key = |k: &str| Val::Str(k.to_string());
    let maps = vec![
        Val::Entries(vec![]),
        Val::Entries(vec![(key("a"), Val::Nothing), (key("b"), some(shape_unit()))]),
        Val::Entries(vec![(key("c"), some(shape_tuple(3, 4)))]),
    ];
    check_roundtrip(&Val::List(maps));
}

/// A `Thing` whose field `b` fails half way, after an element was traced.
fn bad_thing() -> Val {
    Val::Struct("Thing", vec![("skipped", None), ("a", Some(Val::U32(1))), ("b", Some(Val::Failing))])
}

/// A `Thing { skipped, a, b }`, whose `skipped` is skipped when `None`.
fn thing(skipped: Option<u8>, a: u32, b: &[&str]) -> Val {
    Val::Struct(
        "Thing",
        vec![
            ("skipped", skipped.map(|s| some(Val::U8(s)))),
            ("a", Some(Val::U32(a))),
            ("b", Some(Val::List(b.iter().map(|s| Val::Str(s.to_string())).collect()))),
        ],
    )
}

#[test]
fn failed_trace_leaves_a_usable_schema() {
    let good = [thing(None, 1, &["x"]), thing(Some(2), 3, &[])];
    let mut builder = SchemaBuilder::new();
    assert!(matches!(trace_root(&mut builder, &bad_thing()), Err(TraceError::Custom(_))));
    let first = trace_root(&mut builder, &good[0]).unwrap();
    assert!(trace_root(&mut builder, &bad_thing()).is_err());
    let second = trace_root(&mut builder, &good[1]).unwrap();
    let schema = builder.build().unwrap();
    for (trace, value) in [(&first, &good[0]), (&second, &good[1])] {
        let described = describe_trace(&schema, trace).unwrap();
        assert_eq!(decode(&schema, schema.root_index, &described), serialized(value));
    }
}

#[test]
fn failed_struct_does_not_collide_with_tuple_struct() {
    let mut builder = SchemaBuilder::new();
    assert!(trace_root(&mut builder, &Val::Tuple(vec![bad_thing()])).is_err());
    // A tuple struct with the same name as `Thing` and as many fields.
    let value = Val::Tuple(vec![Val::TupleStruct(
        "Thing",
        vec![Val::U8(1), Val::U32(2), Val::List(vec![Val::Str("x".to_string())])],
    )]);
    let trace = trace_root(&mut builder, &value).unwrap();
    let schema = builder.build().unwrap();
    let described = describe_trace(&schema, &trace).unwrap();
    assert_eq!(decode(&schema, schema.root_index, &described), value);
}

/// Traces a collection whose `Serialize` implementation ignores the error of a failing element
/// and carries on.
fn trace_swallowing(builder: &mut SchemaBuilder, collection: TraceNodeKind) -> Result<(), TraceError> {
    let mut data = builder.begin_trace();
    let names = &mut builder.names;
    let data = &mut data;
    match collection {
        TraceNodeKind::Sequence => {
            let mut state = trace_collection_start(data, TraceNodeKind::Sequence)?;
            let item = sequence_item(&mut builder.root);
            state.element_started();
            let ignored = trace_val(data, names, item, &Val::Failing);
            state.element_done(ignored.is_ok());
            state.element_started();
            let result = trace_val(data, names, item, &Val::U8(2));
            state.element_done(result.is_ok());
            result?;
            state.end(data)
        }
        TraceNodeKind::Mapping => {
            let mut state = trace_collection_start(data, TraceNodeKind::Mapping)?;
            let (key, value) = map_slots(&mut builder.root);
            state.element_started();
            let result = trace_val(data, names, key, &Val::U8(1));
            state.element_done(result.is_ok());
            result?;
            let ignored = trace_val(data, names, value, &Val::Failing);
            state.element_done(ignored.is_ok());
            state.end(data)
        }
        _ => {
            // Retries the failed element.
            let tname = trace_tuple_start(data, names, None, None, 1)?;
            let fields = tuple_fields(&mut builder.root, tname, 1);
            let mut state = TupleState::new();
            let slot = state.element_slot(fields)?;
            let ignored = trace_val(data, names, slot, &Val::Failing);
            state.element_done(ignored.is_ok());
            let slot = state.element_slot(fields)?;
            let result = trace_val(data, names, slot, &Val::U8(2));
            state.element_done(result.is_ok());
            result?;
            state.end(1)
        }
    }
}

#[test]
fn ignored_element_errors_fail_the_trace() {
    for collection in [TraceNodeKind::Sequence, TraceNodeKind::Mapping, TraceNodeKind::Tuple] {
        assert!(trace_swallowing(&mut SchemaBuilder::new(), collection).is_err());
    }
}

fn f32_val(x: f32) -> Val {
    Val::F32(x.to_bits())
}

#[test]
fn fixed_shape_elements_roundtrip() {
    check_roundtrip(&Val::List((0..100u8).map(Val::U8).collect()));
    check_roundtrip(&Val::List((0..100).map(|i| f32_val(i as f32 * 0.5)).collect()));
    check_roundtrip(&Val::List(
        (0..100).map(|i| Val::Tuple(vec![f32_val(i as f32), f32_val(1.0), f32_val(-1.0)])).collect(),
    ));
    check_roundtrip(&Val::List(
        (0..100)
            .map(|i| {
                Val::Struct(
                    "V3",
                    vec![("x", Some(f32_val(i as f32))), ("y", Some(f32_val(0.5))), ("z", Some(f32_val(-1.0)))],
                )
            })
            .collect(),
    ));
    check_roundtrip(&Val::List(
        (0..100u32)
            .map(|i| {
                Val::Struct(
                    "Vertex",
                    vec![
                        ("pos", Some(Val::Tuple(vec![f32_val(i as f32), f32_val(2.0), f32_val(3.0)]))),
                        ("uv", Some(Val::Tuple(vec![f32_val(0.25), f32_val(i as f32)]))),
                        ("id", Some(Val::Newtype("Id", Box::new(Val::U32(i))))),
                        ("name", Some(Val::Str(format!("v{i}")))),
                        ("unit", Some(Val::Unit)),
                    ],
                )
            })
            .collect(),
    ));
    let words = |items: &[u32]| Val::List(items.iter().map(|&x| Val::U32(x)).collect());
    check_roundtrip(&Val::List(vec![words(&[1, 2]), words(&[]), words(&[3, 4, 5])]));
    let bytes = |items: &[u8]| Val::List(items.iter().map(|&x| Val::U8(x)).collect());
    check_roundtrip(&Val::List(vec![bytes(&[]), bytes(&[1, 2, 3])]));
}

/// A `Shape` of an enum tagged by its field `kind`: a struct named `Shape` with the variant's
/// name first, then the variant's fields.
fn internally_tagged(variant: &str, fields: Vec<(&'static str, Val)>) -> Val {
    let mut all = vec![("kind", Some(Val::Str(variant.to_string())))];
    all.extend(fields.into_iter().map(|(key, value)| (key, Some(value))));
    Val::Struct("Shape", all)
}

#[test]
fn internally_tagged_enum_round_trips() {
    let value = Val::List(vec![
        internally_tagged("Circle", vec![("radius", f32_val(1.0))]),
        internally_tagged("Rect", vec![("w", f32_val(2.0)), ("h", f32_val(3.0))]),
        internally_tagged("Empty", vec![]),
    ]);
    check_roundtrip(&value);
}

/// An `Adjacent` of an enum tagged by its field `kind`, its content in the field `data`.
fn adjacently_tagged(variant: &'static str, data: Val) -> Val {
    Val::Struct(
        "Adjacent",
        vec![("kind", Some(Val::UnitVariant("Adjacent", variant))), ("data", Some(data))],
    )
}

#[test]
fn adjacently_tagged_enum_round_trips() {
    let value = Val::List(vec![
        adjacently_tagged("Id", Val::U32(7)),
        adjacently_tagged("Name", Val::Str("x".to_string())),
    ]);
    check_roundtrip(&value);
}
