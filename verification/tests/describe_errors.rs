//! Reading traces by schemas that do not describe them: each error of describing a trace.

use serde_describe::describe::{describe_trace, Described};
use serde_describe::pool::{ReadonlyNonEmptyPool, ReadonlyPool};
use serde_describe::reader::DescribeError;
use serde_describe::schema::{Schema, SchemaError, SchemaNode};
use serde_describe::trace::{push_u32, TraceNodeKind, ALL_FIELDS_PRESENT};

/// A schema whose node `i + 1` is `nodes[i]`, node list `i + 1` is `lists[i]`, member list
/// `i + 1` is `members[i]` and field name list `i` is `names[i]`, with one field name.
fn make_schema(root: u32, nodes: &[SchemaNode], lists: &[Vec<u32>], members: &[Vec<u32>], names: &[Vec<u32>]) -> Schema {
    Schema {
        root_index: root,
        nodes: ReadonlyPool { values: nodes.iter().map(|node| node.key()).collect(), empty: Vec::new() },
        node_lists: ReadonlyPool { values: lists.to_vec(), empty: Vec::new() },
        member_lists: ReadonlyPool { values: members.to_vec(), empty: Vec::new() },
        field_name_lists: ReadonlyNonEmptyPool { values: names.to_vec() },
        field_names: ReadonlyNonEmptyPool { values: vec!["x", "y"] },
        variant_names: ReadonlyNonEmptyPool { values: vec![] },
        type_names: ReadonlyNonEmptyPool { values: vec!["S"] },
    }
}

/// The header of a struct named 0 with field name list `names`, `length` serialized fields and
/// the presence list offset `offset`.
fn struct_header(names: u32, length: u32, offset: u32) -> Vec<u8> {
    let mut data = vec![TraceNodeKind::Struct.code()];
    push_u32(&mut data, 0);
    push_u32(&mut data, names);
    push_u32(&mut data, length);
    push_u32(&mut data, offset);
    data
}

#[test]
fn char_that_is_no_scalar_value() {
    let schema = make_schema(1, &[SchemaNode::Char], &[], &[], &[]);
    let mut data = vec![TraceNodeKind::Char.code()];
    push_u32(&mut data, 0x41);
    assert_eq!(describe_trace(&schema, &data), Ok(Described::Char(0x41)));
    let mut data = vec![TraceNodeKind::Char.code()];
    push_u32(&mut data, 0xD800);
    assert_eq!(describe_trace(&schema, &data), Err(DescribeError::BadChar(0xD800)));
}

#[test]
fn field_names_and_types_of_different_lengths() {
    // Two field types, one field name.
    let schema = make_schema(3, &[SchemaNode::U8, SchemaNode::U8, SchemaNode::Struct(0, 0, 0, 1)], &[vec![1, 2]], &[], &[vec![0]]);
    let mut data = struct_header(0, 2, ALL_FIELDS_PRESENT);
    data.extend([TraceNodeKind::U8.code(), 1, TraceNodeKind::U8.code(), 2]);
    assert_eq!(describe_trace(&schema, &data), Err(DescribeError::FieldListLengths));
}

#[test]
fn presence_list_names_a_missing_field() {
    // Fields x and y, y skippable; the presence list names field 5.
    let schema = make_schema(3, &[SchemaNode::U8, SchemaNode::U8, SchemaNode::Struct(0, 0, 1, 1)], &[vec![1, 2]], &[vec![1]], &[vec![0, 1]]);
    let mut data = struct_header(0, 1, 2);
    data.extend([TraceNodeKind::U8.code(), 1]);
    push_u32(&mut data, 5);
    assert_eq!(describe_trace(&schema, &data), Err(DescribeError::MemberOutOfBounds));
    // The same struct with field 0 listed.
    let mut data = struct_header(0, 1, 2);
    data.extend([TraceNodeKind::U8.code(), 1]);
    push_u32(&mut data, 0);
    assert_eq!(
        describe_trace(&schema, &data),
        Ok(Described::Variant(1, 0, Box::new(Described::Tuple(vec![Described::U8(1)]))))
    );
}

#[test]
fn unions_that_list_one_another() {
    // Node 1 is the union of node list 1, which holds node 1 itself.
    let schema = make_schema(1, &[SchemaNode::Union(1)], &[vec![1]], &[], &[]);
    let data = [TraceNodeKind::Bool.code(), 1];
    assert_eq!(describe_trace(&schema, &data), Err(DescribeError::UnionCycle));
}

#[test]
fn indices_the_schema_does_not_have() {
    let schema = make_schema(5, &[SchemaNode::U8], &[], &[], &[]);
    assert_eq!(
        describe_trace(&schema, &[TraceNodeKind::U8.code(), 1]),
        Err(DescribeError::Schema(SchemaError::BadNode(5)))
    );
    // A tuple whose node list the schema does not have.
    let schema = make_schema(1, &[SchemaNode::Tuple(4)], &[], &[], &[]);
    let mut data = vec![TraceNodeKind::Tuple.code()];
    push_u32(&mut data, 0);
    assert_eq!(describe_trace(&schema, &data), Err(DescribeError::Schema(SchemaError::BadNodeList(4))));
    assert_eq!(DescribeError::UnionCycle.message(), "unions in schema list one another");
}
