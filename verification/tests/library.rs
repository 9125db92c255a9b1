//! Tests of the library's parts on concrete values: the laws they keep, the edge cases they
//! handle and the errors they give.

use serde_describe::builder::{SchemaBuilder, MAX_SKIPPABLE_FIELDS};
use serde_describe::describe::{describe_trace, discriminant_bits, Described};
use serde_describe::error::{ignored_error, TraceError, TraceLimitError, TraceLimitErrorKind};
use serde_describe::indices::{index_from_usize, TypeName};
use serde_describe::node::SchemaBuilderNode;
use serde_describe::pool::{NonEmptyPool, Pool};
use serde_describe::presence::{discriminant_from_presence, iter_field_indices, Presence};
use serde_describe::reader::{pop_trace_node, DescribeError, TraceNode};
use serde_describe::record::StructState;
use serde_describe::schema::SchemaNode;
use serde_describe::slot::{find, insert, locate, merge_leaf, same_name, Location, Matcher};
use serde_describe::sorted::{insert_sorted, sorted_union};
use serde_describe::trace::{fill_reserved_bytes, push_u32, read_u32, u32_le_bytes, TraceNodeKind, ALL_FIELDS_PRESENT};
use serde_describe::tracer::{
    newtype, push_trace, sequence_item, trace_char, trace_collection_start, trace_newtype_struct, trace_none,
    trace_scalar, trace_some, trace_str, trace_tuple_start, trace_unit_struct, tuple_fields, TupleState,
};

const ALL_KINDS: [TraceNodeKind; 30] = [
    TraceNodeKind::Bool,
    TraceNodeKind::I8,
    TraceNodeKind::I16,
    TraceNodeKind::I32,
    TraceNodeKind::I64,
    TraceNodeKind::I128,
    TraceNodeKind::U8,
    TraceNodeKind::U16,
    TraceNodeKind::U32,
    TraceNodeKind::U64,
    TraceNodeKind::U128,
    TraceNodeKind::F32,
    TraceNodeKind::F64,
    TraceNodeKind::Char,
    TraceNodeKind::String,
    TraceNodeKind::Bytes,
    TraceNodeKind::OptionNone,
    TraceNodeKind::OptionSome,
    TraceNodeKind::Unit,
    TraceNodeKind::UnitStruct,
    TraceNodeKind::UnitVariant,
    TraceNodeKind::NewtypeStruct,
    TraceNodeKind::NewtypeVariant,
    TraceNodeKind::Sequence,
    TraceNodeKind::Tuple,
    TraceNodeKind::TupleStruct,
    TraceNodeKind::TupleVariant,
    TraceNodeKind::Mapping,
    TraceNodeKind::Struct,
    TraceNodeKind::StructVariant,
];

#[test]
fn kind_codes_roundtrip() {
    for (code, kind) in ALL_KINDS.iter().enumerate() {
        assert_eq!(kind.code() as usize, code);
        assert_eq!(TraceNodeKind::from_code(kind.code()), Some(*kind));
    }
    assert_eq!(TraceNodeKind::from_code(30), None);
    assert_eq!(TraceNodeKind::from_code(255), None);
}

#[test]
fn u32_bytes_roundtrip() {
    assert_eq!(u32_le_bytes(0x0403_0201), [1, 2, 3, 4]);
    let mut data = vec![9];
    push_u32(&mut data, 0xdead_beef);
    assert_eq!(data, [9, 0xef, 0xbe, 0xad, 0xde]);
    assert_eq!(read_u32(&data, 1), 0xdead_beef);
    fill_reserved_bytes(&mut data, 1, &[1, 2]);
    assert_eq!(data, [9, 1, 2, 0xad, 0xde]);
}

#[test]
fn index_from_usize_limits() {
    assert_eq!(index_from_usize(7, TraceLimitErrorKind::Members), Ok(7));
    assert_eq!(index_from_usize(u32::MAX as usize, TraceLimitErrorKind::Members), Ok(u32::MAX));
    assert_eq!(
        index_from_usize(u32::MAX as usize + 1, TraceLimitErrorKind::Members),
        Err(TraceLimitErrorKind::Members)
    );
}

#[test]
fn node_keys_roundtrip() {
    let nodes = [
        SchemaNode::Bool,
        SchemaNode::Char,
        SchemaNode::OptionSome(3),
        SchemaNode::UnitVariant(1, 2),
        SchemaNode::NewtypeVariant(1, 2, 3),
        SchemaNode::Mapping(4, 5),
        SchemaNode::TupleVariant(1, 2, 3),
        SchemaNode::Struct(1, 2, 3, 4),
        SchemaNode::StructVariant(1, 2, 3, 4, 5),
        SchemaNode::Union(6),
        SchemaNode::Union(0),
    ];
    for node in nodes {
        assert_eq!(SchemaNode::from_key(&node.key()), Some(node));
    }
    assert!(SchemaNode::Union(0).key().is_empty());
    assert_eq!(SchemaNode::Struct(1, 2, 3, 4).key(), vec![28, 1, 2, 3, 4]);
    assert_eq!(SchemaNode::from_key(&vec![99]), None);
    assert_eq!(SchemaNode::from_key(&vec![30, 0]), None);
}

#[test]
fn name_pool_interns_once() {
    let mut pool = NonEmptyPool::new();
    assert_eq!(pool.intern("a"), Ok(0));
    assert_eq!(pool.intern("b"), Ok(1));
    assert_eq!(pool.intern("a"), Ok(0));
    let frozen = pool.into_readonly();
    assert_eq!(frozen.values, ["a", "b"]);
    assert_eq!(frozen.len(), 2);
    assert_eq!(frozen.get(1), Some(&"b"));
    assert_eq!(frozen.get(2), None);
}

#[test]
fn list_pool_reserves_the_empty_list() {
    let mut pool = Pool::new(true, TraceLimitErrorKind::SchemaNodeLists);
    assert_eq!(pool.intern(vec![]), Ok(0));
    assert_eq!(pool.intern(vec![1, 2]), Ok(1));
    assert_eq!(pool.intern(vec![3]), Ok(2));
    assert_eq!(pool.intern(vec![1, 2]), Ok(1));
    let frozen = pool.into_readonly();
    assert_eq!(frozen.values(), &[vec![1, 2], vec![3]]);
    assert_eq!(frozen.get(0), Some(&vec![]));
    assert_eq!(frozen.get(2), Some(&vec![3]));
    assert_eq!(frozen.get(3), None);

    let mut pool = Pool::new(false, TraceLimitErrorKind::FieldNameLists);
    assert_eq!(pool.intern(vec![]), Ok(0));
    assert_eq!(pool.intern(vec![5]), Ok(1));
    assert_eq!(pool.into_readonly_nonempty().values, [vec![], vec![5]]);
}

#[test]
fn names_compare_by_characters() {
    let owned = String::from("Thing");
    let leaked: &'static str = Box::leak(owned.into_boxed_str());
    assert!(same_name("Thing", leaked));
    assert!(!same_name("Thing", "Thin"));
    assert!(!same_name("Thing", "Thinh"));
}

#[test]
fn sorted_lists() {
    let mut v = vec![1, 5];
    insert_sorted(&mut v, 3);
    insert_sorted(&mut v, 5);
    insert_sorted(&mut v, 0);
    assert_eq!(v, [0, 1, 3, 5]);
    sorted_union(&mut v, vec![2, 3, 9]);
    assert_eq!(v, [0, 1, 2, 3, 5, 9]);
}

#[test]
fn union_keeps_what_both_describe() {
    // The empty union takes what is added to it.
    let mut slot = SchemaBuilderNode::empty();
    slot.union(SchemaBuilderNode::Bool);
    assert!(matches!(slot, SchemaBuilderNode::Bool));
    // A different leaf makes a union of the two.
    slot.union(SchemaBuilderNode::U8);
    assert!(matches!(&slot, SchemaBuilderNode::Union(m) if m.len() == 2
        && matches!(m[0], SchemaBuilderNode::Bool) && matches!(m[1], SchemaBuilderNode::U8)));
    // Adding a member that is there changes nothing.
    slot.union(SchemaBuilderNode::U8);
    assert!(matches!(&slot, SchemaBuilderNode::Union(m) if m.len() == 2));
    // Options unify inside.
    let mut option = SchemaBuilderNode::OptionSome(Box::new(SchemaBuilderNode::Bool));
    option.union(SchemaBuilderNode::OptionSome(Box::new(SchemaBuilderNode::U8)));
    assert!(matches!(&option, SchemaBuilderNode::OptionSome(inner)
        if matches!(&**inner, SchemaBuilderNode::Union(m) if m.len() == 2)));
}

#[test]
fn unify_hands_back_what_does_not_unify() {
    let mut node = SchemaBuilderNode::Sequence(Box::new(SchemaBuilderNode::Bool));
    let back = node.unify(SchemaBuilderNode::Char);
    assert!(matches!(back, Err(SchemaBuilderNode::Char)));
    assert!(matches!(&node, SchemaBuilderNode::Sequence(item) if matches!(**item, SchemaBuilderNode::Bool)));
    let named = TypeName(1, None);
    let mut node = SchemaBuilderNode::Newtype(named, Box::new(SchemaBuilderNode::Bool));
    let back = node.unify(SchemaBuilderNode::Newtype(TypeName(2, None), Box::new(SchemaBuilderNode::Bool)));
    assert!(matches!(back, Err(SchemaBuilderNode::Newtype(TypeName(2, None), _))));
    assert!(node.unify(SchemaBuilderNode::Newtype(named, Box::new(SchemaBuilderNode::U8))).is_ok());
}

#[test]
fn merge_leaf_adds_each_leaf_once() {
    let mut slot = SchemaBuilderNode::Bool;
    merge_leaf(&mut slot, SchemaBuilderNode::Bool);
    assert!(matches!(slot, SchemaBuilderNode::Bool));
    merge_leaf(&mut slot, SchemaBuilderNode::String);
    merge_leaf(&mut slot, SchemaBuilderNode::String);
    merge_leaf(&mut slot, SchemaBuilderNode::Unit(None));
    assert!(matches!(&slot, SchemaBuilderNode::Union(m) if m.len() == 3));
}

#[test]
fn slots_find_and_add_members() {
    let mut slot = SchemaBuilderNode::Bool;
    assert_eq!(find(&slot, &Matcher::Sequence), None);
    let location = locate(&mut slot, &Matcher::Sequence);
    assert_eq!(location, Location::Member(1));
    assert_eq!(find(&slot, &Matcher::Sequence), Some(Location::Member(1)));
    assert_eq!(locate(&mut slot, &Matcher::Sequence), Location::Member(1));
    let mut empty = SchemaBuilderNode::empty();
    assert_eq!(insert(&mut empty, SchemaBuilderNode::Char), Location::Itself);
    assert!(matches!(empty, SchemaBuilderNode::Char));
    let mut slot = SchemaBuilderNode::Bool;
    assert_eq!(find(&slot, &Matcher::Tuple(None, 2)), None);
    let location = locate(&mut slot, &Matcher::Tuple(None, 2));
    assert!(matches!(location.get(&mut slot), SchemaBuilderNode::Record { field_types, .. } if field_types.len() == 2));
}

#[test]
fn presence_and_discriminant() {
    let mut listed = Vec::new();
    for field in [0u32, 1, 2, 5] {
        push_u32(&mut listed, field);
    }
    listed.push(7); // An incomplete chunk is ignored.
    assert_eq!(iter_field_indices(&listed), [0, 1, 2, 5]);
    let presence = Presence::Listed(&listed);
    assert_eq!(presence.len(), 4);
    assert_eq!(presence.fields(), [0, 1, 2, 5]);
    // Skippable fields 1, 3 and 5: the first and the last were serialized.
    assert_eq!(discriminant_from_presence(&[1, 3, 5], &presence), 0b101);
    let all = Presence::All(3);
    assert_eq!(all.fields(), [0, 1, 2]);
    assert_eq!(discriminant_from_presence(&[0, 2], &all), 0b11);
    assert_eq!(discriminant_from_presence(&[], &all), 0);
    // Unsorted skippable fields: the walk from the end passes over field 3 on its way to 1.
    assert_eq!(discriminant_from_presence(&[3, 1], &Presence::All(4)), 0b10);
}

#[test]
fn discriminant_bit_counts() {
    assert_eq!(discriminant_bits(0), 0);
    assert_eq!(discriminant_bits(1), 0);
    assert_eq!(discriminant_bits(2), 1);
    assert_eq!(discriminant_bits(3), 2);
    assert_eq!(discriminant_bits(4), 2);
    assert_eq!(discriminant_bits(5), 3);
    assert_eq!(discriminant_bits(256), 8);
}

#[test]
fn limit_messages() {
    assert_eq!(TraceLimitErrorKind::SchemaNodes.message(), "too many schema nodes for u32");
    assert_eq!(TraceLimitErrorKind::SkippableFields.message(), "too many skippable fields");
    let error = TraceLimitError::from(TraceLimitErrorKind::Values);
    assert_eq!(error.kind(), TraceLimitErrorKind::Values);
    assert_eq!(error.message(), "too many values for u32");
    assert!(TraceError::from(TraceLimitErrorKind::Names).is_limit(TraceLimitErrorKind::Names));
    assert!(!TraceError::LengthMismatch.is_limit(TraceLimitErrorKind::Names));
    assert!(matches!(ignored_error(), TraceError::Custom(m)
        if m == "an element failed to serialize, but serialization carried on"));
    assert_eq!(MAX_SKIPPABLE_FIELDS, 64);
}

#[test]
fn scalar_trace_and_schema() {
    let mut builder = SchemaBuilder::new();
    let mut data = builder.begin_trace();
    trace_scalar(&mut data, &mut builder.root, TraceNodeKind::U32, &0x0102_0304u32.to_le_bytes());
    assert_eq!(data, [8, 4, 3, 2, 1]);
    let schema = builder.build().unwrap();
    assert_eq!(schema.node(schema.root_index), Ok(SchemaNode::U32));
    assert_eq!(describe_trace(&schema, &data), Ok(Described::U32(0x0102_0304)));
    // A trace the schema does not describe.
    assert_eq!(describe_trace(&schema, &[0, 1]), Err(DescribeError::Mismatch));
    assert_eq!(describe_trace(&schema, &[8, 1, 2]), Err(DescribeError::UnexpectedEnd));
}

#[test]
fn union_schema_lists_sorted_variants() {
    let mut builder = SchemaBuilder::new();
    let mut first = builder.begin_trace();
    trace_str(&mut first, &mut builder.root, "hi").unwrap();
    let mut second = builder.begin_trace();
    trace_scalar(&mut second, &mut builder.root, TraceNodeKind::Bool, &[1]);
    let schema = builder.build().unwrap();
    let SchemaNode::Union(list) = schema.node(schema.root_index).unwrap() else {
        panic!("not a union")
    };
    let variants = schema.node_list(list).unwrap().clone();
    assert_eq!(variants.len(), 2);
    assert!(variants[0] < variants[1]);
    let kinds: Vec<SchemaNode> = variants.iter().map(|&v| schema.node(v).unwrap()).collect();
    let string_at = kinds.iter().position(|&k| k == SchemaNode::String).unwrap() as u64;
    let bool_at = kinds.iter().position(|&k| k == SchemaNode::Bool).unwrap() as u64;
    // Both traces are described by the one schema.
    assert_eq!(
        describe_trace(&schema, &first),
        Ok(Described::Variant(1, string_at, Box::new(Described::String(b"hi".to_vec()))))
    );
    assert_eq!(
        describe_trace(&schema, &second),
        Ok(Described::Variant(1, bool_at, Box::new(Described::Bool(true))))
    );
}

#[test]
fn trace_node_headers() {
    let mut data = Vec::new();
    push_trace(&mut data, TraceNodeKind::TupleVariant);
    push_u32(&mut data, 2);
    push_u32(&mut data, 7);
    push_u32(&mut data, 9);
    assert_eq!(pop_trace_node(&data, 0), Ok((TraceNode::TupleVariant(2, 7, 9), 13)));
    assert_eq!(pop_trace_node(&data[..12], 0), Err(DescribeError::UnexpectedEnd));
    assert_eq!(pop_trace_node(&[77], 0), Err(DescribeError::BadKind(77)));
}

#[test]
fn struct_field_count_must_match() {
    let mut builder = SchemaBuilder::new();
    let mut data = builder.begin_trace();
    push_trace(&mut data, TraceNodeKind::Struct);
    let mut state = StructState::new(&mut data, &mut builder.names, &mut builder.root, "S", None, 1).unwrap();
    // The header: type name 0, field names and presence offset to be filled, one field.
    assert_eq!(data, [28, 0, 0, 0, 0, 255, 255, 255, 255, 1, 0, 0, 0, 255, 255, 255, 255]);
    let field = state.begin_field(&mut builder.root, "x").unwrap();
    state.end_field(&mut builder.root, field, true);
    // A second field is one more than declared.
    assert!(matches!(state.begin_field(&mut builder.root, "y"), Err(TraceError::LengthMismatch)));
    assert!(matches!(state.end(&mut data, &mut builder.names, &mut builder.root), Err(TraceError::LengthMismatch)));

    let mut data = builder.begin_trace();
    push_trace(&mut data, TraceNodeKind::Struct);
    let state = StructState::new(&mut data, &mut builder.names, &mut builder.root, "T", None, 1).unwrap();
    // No field at all.
    assert!(matches!(state.end(&mut data, &mut builder.names, &mut builder.root), Err(TraceError::LengthMismatch)));
}

#[test]
fn skipped_fields_get_a_presence_list() {
    let mut builder = SchemaBuilder::new();
    let mut data = builder.begin_trace();
    push_trace(&mut data, TraceNodeKind::Struct);
    let mut state = StructState::new(&mut data, &mut builder.names, &mut builder.root, "P", None, 1).unwrap();
    state.skip_field(&mut builder.names, &mut builder.root, "skipped").unwrap();
    let mut field = state.begin_field(&mut builder.root, "kept").unwrap();
    trace_scalar(&mut data, &mut field, TraceNodeKind::U8, &[42]);
    state.end_field(&mut builder.root, field, true);
    state.end(&mut data, &mut builder.names, &mut builder.root).unwrap();
    // Field name list 0, one field, presence list 2 bytes after the header, holding field 1.
    assert_eq!(&data[5..], &[0, 0, 0, 0, 1, 0, 0, 0, 2, 0, 0, 0, 6, 42, 1, 0, 0, 0]);
    assert!(builder.names.skipped.is_empty());

    // Another value serializes the skipped field: it becomes skippable.
    let mut second = builder.begin_trace();
    push_trace(&mut second, TraceNodeKind::Struct);
    let mut state = StructState::new(&mut second, &mut builder.names, &mut builder.root, "P", None, 2).unwrap();
    for (key, value) in [("skipped", 1u8), ("kept", 2u8)] {
        let mut field = state.begin_field(&mut builder.root, key).unwrap();
        let inner = trace_some(&mut second, &mut field);
        trace_scalar(&mut second, inner, TraceNodeKind::U8, &[value]);
        state.end_field(&mut builder.root, field, true);
    }
    assert!(state.end(&mut second, &mut builder.names, &mut builder.root).is_ok());
    let schema = builder.build().unwrap();
    // One record: `skipped` is now skippable, `kept` a union of a u8 and an option.
    let SchemaNode::Struct(_, _, skip, _) = schema.node(schema.root_index).unwrap() else {
        panic!("one struct record")
    };
    assert_eq!(schema.member_list(skip).unwrap(), &vec![0]);
    let Described::Variant(1, 0, fields) = describe_trace(&schema, &data).unwrap() else {
        panic!("the first value lacks the skippable field")
    };
    assert!(matches!(&*fields, Described::Tuple(f) if f.len() == 1
        && matches!(&f[0], Described::Variant(1, _, inner) if **inner == Described::U8(42))));
    let Described::Variant(1, 1, fields) = describe_trace(&schema, &second).unwrap() else {
        panic!("the second value has the skippable field")
    };
    assert!(matches!(&*fields, Described::Tuple(f) if f.len() == 2 && f[0] == Described::U8(1)));
}

#[test]
fn sequence_length_and_failures() {
    let mut builder = SchemaBuilder::new();
    let mut data = builder.begin_trace();
    let mut sequence = trace_collection_start(&mut data, TraceNodeKind::Sequence).unwrap();
    let item = sequence_item(&mut builder.root);
    for value in [1u8, 2, 3] {
        sequence.element_started();
        trace_scalar(&mut data, item, TraceNodeKind::U8, &[value]);
        sequence.element_done(true);
    }
    sequence.end(&mut data).unwrap();
    assert_eq!(&data[..5], &[23, 3, 0, 0, 0]);
    let schema = builder.build().unwrap();
    assert_eq!(
        describe_trace(&schema, &data),
        Ok(Described::Sequence(vec![Described::U8(1), Described::U8(2), Described::U8(3)]))
    );

    // An element that failed, whose error was ignored, fails the sequence.
    let mut data = Vec::new();
    let mut sequence = trace_collection_start(&mut data, TraceNodeKind::Sequence).unwrap();
    sequence.element_started();
    sequence.element_done(false);
    assert!(matches!(sequence.end(&mut data), Err(TraceError::Custom(_))));
}

#[test]
fn tuple_elements_must_match_the_declared_length() {
    let mut builder = SchemaBuilder::new();
    let mut data = builder.begin_trace();
    assert_eq!(trace_tuple_start(&mut data, &mut builder.names, None, None, 1).unwrap(), None);
    let fields = tuple_fields(&mut builder.root, None, 1);
    let mut tuple = TupleState::new();
    let slot = tuple.element_slot(fields).unwrap();
    trace_scalar(&mut data, slot, TraceNodeKind::U8, &[1]);
    tuple.element_done(true);
    assert!(matches!(tuple.element_slot(fields), Err(TraceError::LengthMismatch)));
    assert!(tuple.failed);
    assert!(matches!(tuple.end(1), Err(TraceError::LengthMismatch)));
    assert!(matches!(TupleState::new().end(1), Err(TraceError::LengthMismatch)));
}

#[test]
fn earlier_traces_stay_described() {
    // The schema stays valid for every traced value, whatever is traced after it.
    let mut builder = SchemaBuilder::new();
    let mut traces = Vec::new();
    for (kind, bytes) in [(TraceNodeKind::U16, vec![1, 0]), (TraceNodeKind::I8, vec![255]), (TraceNodeKind::U16, vec![2, 0])] {
        let mut data = builder.begin_trace();
        trace_scalar(&mut data, &mut builder.root, kind, &bytes);
        traces.push(data);
    }
    let schema = builder.build().unwrap();
    let values: Vec<Described> = traces
        .iter()
        .map(|t| match describe_trace(&schema, t).unwrap() {
            Described::Variant(_, _, inner) => *inner,
            other => other,
        })
        .collect();
    assert_eq!(values, [Described::U16(1), Described::I8(-1), Described::U16(2)]);
}

#[test]
fn union_members_absorb_or_append() {
    let mut lefts = vec![SchemaBuilderNode::U8, SchemaBuilderNode::String];
    SchemaBuilderNode::U16.add_to_nonempty_union(&mut lefts);
    assert!(matches!(lefts.as_slice(),
        [SchemaBuilderNode::U8, SchemaBuilderNode::String, SchemaBuilderNode::U16]));
    let mut lefts = vec![SchemaBuilderNode::U8, SchemaBuilderNode::String];
    SchemaBuilderNode::String.add_to_nonempty_union(&mut lefts);
    assert!(matches!(lefts.as_slice(), [SchemaBuilderNode::U8, SchemaBuilderNode::String]));
    // An option merges into the option member, not appended.
    let mut lefts = vec![SchemaBuilderNode::U8, SchemaBuilderNode::OptionSome(Box::new(SchemaBuilderNode::Bool))];
    SchemaBuilderNode::OptionSome(Box::new(SchemaBuilderNode::Char)).add_to_nonempty_union(&mut lefts);
    assert_eq!(lefts.len(), 2);
    assert!(matches!(&lefts[1], SchemaBuilderNode::OptionSome(inner)
        if matches!(&**inner, SchemaBuilderNode::Union(m) if m.len() == 2)));
}

#[test]
fn records_merge_fields_and_skippable_lists() {
    let t = TypeName(0, None);
    let mut left = SchemaBuilderNode::Record {
        name: Some(t),
        field_names: Some(0),
        field_types: vec![SchemaBuilderNode::U8, SchemaBuilderNode::Bool, SchemaBuilderNode::Char],
        skippable: vec![0, 2],
        keys: None,
    };
    let right = SchemaBuilderNode::Record {
        name: Some(t),
        field_names: Some(0),
        field_types: vec![SchemaBuilderNode::U16, SchemaBuilderNode::Bool, SchemaBuilderNode::Char],
        skippable: vec![1, 2],
        keys: None,
    };
    assert!(left.unify(right).is_ok());
    let SchemaBuilderNode::Record { field_types, skippable, .. } = &left else { panic!("not a record") };
    assert_eq!(skippable, &vec![0, 1, 2]);
    assert!(matches!(&field_types[0], SchemaBuilderNode::Union(m) if m.len() == 2));
    assert!(matches!(field_types[1], SchemaBuilderNode::Bool));
    // The empty union merged into a node leaves it as it was.
    let mut node = SchemaBuilderNode::Char;
    node.union(SchemaBuilderNode::empty());
    assert!(matches!(node, SchemaBuilderNode::Char));
}

#[test]
fn fresh_builder_builds_the_empty_schema() {
    let schema = SchemaBuilder::new().build().unwrap();
    assert_eq!(schema.root_index, 0);
    assert!(schema.nodes.values.is_empty());
    assert!(schema.node_lists.values.is_empty());
    assert!(schema.member_lists.values.is_empty());
}

#[test]
fn union_of_equal_leaves_builds_to_the_leaf() {
    let mut builder = SchemaBuilder::new();
    let index = SchemaBuilderNode::Union(vec![SchemaBuilderNode::U8, SchemaBuilderNode::U8]).build(&mut builder);
    assert!(matches!(index, Ok(1)));
    let schema = builder.build().unwrap();
    assert_eq!(schema.node(1), Ok(SchemaNode::U8));
    assert!(schema.node_lists.values.is_empty());
}

#[test]
fn traced_leaves_read_back() {
    let mut builder = SchemaBuilder::new();
    let mut first = builder.begin_trace();
    trace_char(&mut first, &mut builder.root, 'é');
    let mut second = builder.begin_trace();
    trace_unit_struct(&mut second, &mut builder.names, &mut builder.root, "Marker").unwrap();
    let schema = builder.build().unwrap();
    assert!(matches!(describe_trace(&schema, &first),
        Ok(Described::Variant(1, _, inner)) if *inner == Described::Char('é' as u32)));
    assert!(matches!(describe_trace(&schema, &second),
        Ok(Described::Variant(1, _, inner)) if *inner == Described::Unit));
}

#[test]
fn struct_end_succeeds_when_counts_match() {
    let mut builder = SchemaBuilder::new();
    let mut data = builder.begin_trace();
    push_trace(&mut data, TraceNodeKind::Struct);
    let mut state = StructState::new(&mut data, &mut builder.names, &mut builder.root, "S", None, 1).unwrap();
    let mut field = state.begin_field(&mut builder.root, "x").unwrap();
    trace_scalar(&mut data, &mut field, TraceNodeKind::U8, &[7]);
    state.end_field(&mut builder.root, field, true);
    assert!(state.end(&mut data, &mut builder.names, &mut builder.root).is_ok());
    let schema = builder.build().unwrap();
    assert!(matches!(describe_trace(&schema, &data), Ok(Described::Tuple(f)) if f == vec![Described::U8(7)]));
}

#[test]
fn traced_options_and_newtypes_read_back() {
    let mut builder = SchemaBuilder::new();
    // `Some(Meters(5u16))`, then `None`.
    let mut first = builder.begin_trace();
    let inner = trace_some(&mut first, &mut builder.root);
    let name = trace_newtype_struct(&mut first, &mut builder.names, "Meters").unwrap();
    let slot = newtype(inner, name);
    trace_scalar(&mut first, slot, TraceNodeKind::U16, &5u16.to_le_bytes());
    let mut second = builder.begin_trace();
    trace_none(&mut second, &mut builder.root);
    let schema = builder.build().unwrap();
    let Ok(Described::Variant(1, _, value)) = describe_trace(&schema, &first) else {
        panic!("the first value reads back as a variant of the root union")
    };
    assert_eq!(*value, Described::U16(5));
    assert!(matches!(describe_trace(&schema, &second),
        Ok(Described::Variant(1, _, inner)) if *inner == Described::Unit));
}

#[test]
fn merging_a_type_with_itself_changes_nothing() {
    let t = TypeName(0, None);
    let record = || SchemaBuilderNode::Record {
        name: Some(t),
        field_names: Some(0),
        field_types: vec![SchemaBuilderNode::OptionSome(Box::new(SchemaBuilderNode::U8)), SchemaBuilderNode::Char],
        skippable: vec![0, 1],
        keys: None,
    };
    let mut node = SchemaBuilderNode::Sequence(Box::new(record()));
    node.union(SchemaBuilderNode::Sequence(Box::new(record())));
    let SchemaBuilderNode::Sequence(item) = &node else { panic!("not a sequence") };
    let SchemaBuilderNode::Record { field_types, skippable, .. } = &**item else { panic!("not a record") };
    assert_eq!(skippable, &vec![0, 1]);
    assert!(matches!(&field_types[0], SchemaBuilderNode::OptionSome(inner) if matches!(**inner, SchemaBuilderNode::U8)));
    assert!(matches!(field_types[1], SchemaBuilderNode::Char));
}

#[test]
fn building_a_built_node_again_interns_nothing() {
    let mut builder = SchemaBuilder::new();
    let node = || SchemaBuilderNode::Union(vec![
        SchemaBuilderNode::Sequence(Box::new(SchemaBuilderNode::U8)),
        SchemaBuilderNode::OptionSome(Box::new(SchemaBuilderNode::Char)),
    ]);
    let first = node().build(&mut builder).unwrap();
    let second = node().build(&mut builder).unwrap();
    assert_eq!(first, second);
    let schema = builder.build().unwrap();
    // u8, the sequence, char, the option and the union; one variant list.
    assert_eq!(schema.nodes.values.len(), 5);
    assert_eq!(schema.node_lists.values.len(), 1);
}

#[test]
fn trace_error_messages() {
    assert_eq!(TraceError::LengthMismatch.message(), "tracing error: serialized a different number of elements than declared");
    assert_eq!(
        TraceError::Limit(TraceLimitError(TraceLimitErrorKind::SkippableFields)).message(),
        "tracing error: too many skippable fields"
    );
    assert_eq!(TraceError::Custom("boom".to_string()).message(), "tracing error: custom serialization error: boom");
}

#[test]
fn too_many_kept_skippable_fields_fail_the_build() {
    let record = |skippable: Vec<u32>, n: usize| SchemaBuilderNode::Record {
        name: Some(TypeName(0, None)),
        field_names: Some(0),
        field_types: (0..n).map(|_| SchemaBuilderNode::U8).collect(),
        skippable,
        keys: None,
    };
    let mut builder = SchemaBuilder::new();
    let r = record((0..65).collect(), 65).build(&mut builder);
    assert!(matches!(r, Err(TraceError::Limit(TraceLimitError(TraceLimitErrorKind::SkippableFields)))));
    // Fields of no type at all are never serialized, so they are not kept.
    let mut types: Vec<SchemaBuilderNode> = (0..65).map(|_| SchemaBuilderNode::U8).collect();
    types[0] = SchemaBuilderNode::empty();
    let node = SchemaBuilderNode::Record {
        name: Some(TypeName(0, None)),
        field_names: Some(0),
        field_types: types,
        skippable: (0..65).collect(),
        keys: None,
    };
    assert!(node.build(&mut builder).is_ok());
}
