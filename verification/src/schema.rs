//! The built schema: nodes that refer to one another, and to lists and names, by index.

use vstd::prelude::*;
use crate::indices::{
    FieldNameListIndex, MemberListIndex, SchemaNodeIndex, SchemaNodeListIndex, TypeNameIndex,
    VariantNameIndex,
};
use crate::pool::{ReadonlyNonEmptyPool, ReadonlyPool};

verus! {

/// A node of a built schema.
#[derive(Debug, Clone, Copy, PartialEq, Eq, Structural)]
pub enum SchemaNode {
    Bool,
    I8,
    I16,
    I32,
    I64,
    I128,
    U8,
    U16,
    U32,
    U64,
    U128,
    F32,
    F64,
    Char,
    String,
    Bytes,
    OptionNone,
    OptionSome(SchemaNodeIndex),
    Unit,
    UnitStruct(TypeNameIndex),
    UnitVariant(TypeNameIndex, VariantNameIndex),
    NewtypeStruct(TypeNameIndex, SchemaNodeIndex),
    NewtypeVariant(TypeNameIndex, VariantNameIndex, SchemaNodeIndex),
    Mapping(SchemaNodeIndex, SchemaNodeIndex),
    Sequence(SchemaNodeIndex),
    Tuple(SchemaNodeListIndex),
    TupleStruct(TypeNameIndex, SchemaNodeListIndex),
    TupleVariant(TypeNameIndex, VariantNameIndex, SchemaNodeListIndex),
    Struct(TypeNameIndex, FieldNameListIndex, MemberListIndex, SchemaNodeListIndex),
    StructVariant(TypeNameIndex, VariantNameIndex, FieldNameListIndex, MemberListIndex, SchemaNodeListIndex),
    /// The values of any of the listed nodes; the empty list (index 0) is the type of no value.
    Union(SchemaNodeListIndex),
}

/// The key a node is interned by: its variant's number followed by its indices. The empty
/// union, whose index is always 0, has the empty key.
pub open spec fn node_key(n: SchemaNode) -> Seq<u32> {
    match n {
        SchemaNode::Bool => seq![0u32],
        SchemaNode::I8 => seq![1u32],
        SchemaNode::I16 => seq![2u32],
        SchemaNode::I32 => seq![3u32],
        SchemaNode::I64 => seq![4u32],
        SchemaNode::I128 => seq![5u32],
        SchemaNode::U8 => seq![6u32],
        SchemaNode::U16 => seq![7u32],
        SchemaNode::U32 => seq![8u32],
        SchemaNode::U64 => seq![9u32],
        SchemaNode::U128 => seq![10u32],
        SchemaNode::F32 => seq![11u32],
        SchemaNode::F64 => seq![12u32],
        SchemaNode::Char => seq![13u32],
        SchemaNode::String => seq![14u32],
        SchemaNode::Bytes => seq![15u32],
        SchemaNode::OptionNone => seq![16u32],
        SchemaNode::OptionSome(a) => seq![17u32, a],
        SchemaNode::Unit => seq![18u32],
        SchemaNode::UnitStruct(n) => seq![19u32, n],
        SchemaNode::UnitVariant(n, v) => seq![20u32, n, v],
        SchemaNode::NewtypeStruct(n, a) => seq![21u32, n, a],
        SchemaNode::NewtypeVariant(n, v, a) => seq![22u32, n, v, a],
        SchemaNode::Mapping(a, b) => seq![23u32, a, b],
        SchemaNode::Sequence(a) => seq![24u32, a],
        SchemaNode::Tuple(l) => seq![25u32, l],
        SchemaNode::TupleStruct(n, l) => seq![26u32, n, l],
        SchemaNode::TupleVariant(n, v, l) => seq![27u32, n, v, l],
        SchemaNode::Struct(n, f, s, l) => seq![28u32, n, f, s, l],
        SchemaNode::StructVariant(n, v, f, s, l) => seq![29u32, n, v, f, s, l],
        SchemaNode::Union(l) => if l == 0 { Seq::empty() } else { seq![30u32, l] },
    }
}

/// The node whose key is `k`, if any.
pub open spec fn node_of_key(k: Seq<u32>) -> Option<SchemaNode> {
    if k.len() == 0 {
        Some(SchemaNode::Union(0))
    } else if k.len() == 1 {
        if k[0] == 0 { Some(SchemaNode::Bool) }
        else if k[0] == 1 { Some(SchemaNode::I8) }
        else if k[0] == 2 { Some(SchemaNode::I16) }
        else if k[0] == 3 { Some(SchemaNode::I32) }
        else if k[0] == 4 { Some(SchemaNode::I64) }
        else if k[0] == 5 { Some(SchemaNode::I128) }
        else if k[0] == 6 { Some(SchemaNode::U8) }
        else if k[0] == 7 { Some(SchemaNode::U16) }
        else if k[0] == 8 { Some(SchemaNode::U32) }
        else if k[0] == 9 { Some(SchemaNode::U64) }
        else if k[0] == 10 { Some(SchemaNode::U128) }
        else if k[0] == 11 { Some(SchemaNode::F32) }
        else if k[0] == 12 { Some(SchemaNode::F64) }
        else if k[0] == 13 { Some(SchemaNode::Char) }
        else if k[0] == 14 { Some(SchemaNode::String) }
        else if k[0] == 15 { Some(SchemaNode::Bytes) }
        else if k[0] == 16 { Some(SchemaNode::OptionNone) }
        else if k[0] == 18 { Some(SchemaNode::Unit) }
        else { None }
    } else if k.len() == 2 {
        if k[0] == 17 { Some(SchemaNode::OptionSome(k[1])) }
        else if k[0] == 19 { Some(SchemaNode::UnitStruct(k[1])) }
        else if k[0] == 24 { Some(SchemaNode::Sequence(k[1])) }
        else if k[0] == 25 { Some(SchemaNode::Tuple(k[1])) }
        else if k[0] == 30 && k[1] != 0 { Some(SchemaNode::Union(k[1])) }
        else { None }
    } else if k.len() == 3 {
        if k[0] == 20 { Some(SchemaNode::UnitVariant(k[1], k[2])) }
        else if k[0] == 21 { Some(SchemaNode::NewtypeStruct(k[1], k[2])) }
        else if k[0] == 23 { Some(SchemaNode::Mapping(k[1], k[2])) }
        else if k[0] == 26 { Some(SchemaNode::TupleStruct(k[1], k[2])) }
        else { None }
    } else if k.len() == 4 {
        if k[0] == 22 { Some(SchemaNode::NewtypeVariant(k[1], k[2], k[3])) }
        else if k[0] == 27 { Some(SchemaNode::TupleVariant(k[1], k[2], k[3])) }
        else { None }
    } else if k.len() == 5 {
        if k[0] == 28 { Some(SchemaNode::Struct(k[1], k[2], k[3], k[4])) } else { None }
    } else if k.len() == 6 {
        if k[0] == 29 { Some(SchemaNode::StructVariant(k[1], k[2], k[3], k[4], k[5])) } else { None }
    } else {
        None
    }
}

/// Every node is found again from its key.
pub proof fn lemma_node_key_roundtrip(n: SchemaNode)
    ensures
        node_of_key(node_key(n)) == Some(n),
{
}

/// A key that stands for a node is that node's key.
pub proof fn lemma_key_of_node(k: Seq<u32>, n: SchemaNode)
    requires
        node_of_key(k) == Some(n),
    ensures
        k == node_key(n),
{
    assert(k =~= node_key(n));
}

impl SchemaNode {
    /// The key this node is interned by.
    pub fn key(&self) -> (r: Vec<u32>)
        ensures
            r@ == node_key(*self),
    {
        let r = match *self {
            SchemaNode::Bool => vec![0u32],
            SchemaNode::I8 => vec![1u32],
            SchemaNode::I16 => vec![2u32],
            SchemaNode::I32 => vec![3u32],
            SchemaNode::I64 => vec![4u32],
            SchemaNode::I128 => vec![5u32],
            SchemaNode::U8 => vec![6u32],
            SchemaNode::U16 => vec![7u32],
            SchemaNode::U32 => vec![8u32],
            SchemaNode::U64 => vec![9u32],
            SchemaNode::U128 => vec![10u32],
            SchemaNode::F32 => vec![11u32],
            SchemaNode::F64 => vec![12u32],
            SchemaNode::Char => vec![13u32],
            SchemaNode::String => vec![14u32],
            SchemaNode::Bytes => vec![15u32],
            SchemaNode::OptionNone => vec![16u32],
            SchemaNode::OptionSome(a) => vec![17u32, a],
            SchemaNode::Unit => vec![18u32],
            SchemaNode::UnitStruct(n) => vec![19u32, n],
            SchemaNode::UnitVariant(n, v) => vec![20u32, n, v],
            SchemaNode::NewtypeStruct(n, a) => vec![21u32, n, a],
            SchemaNode::NewtypeVariant(n, v, a) => vec![22u32, n, v, a],
            SchemaNode::Mapping(a, b) => vec![23u32, a, b],
            SchemaNode::Sequence(a) => vec![24u32, a],
            SchemaNode::Tuple(l) => vec![25u32, l],
            SchemaNode::TupleStruct(n, l) => vec![26u32, n, l],
            SchemaNode::TupleVariant(n, v, l) => vec![27u32, n, v, l],
            SchemaNode::Struct(n, f, s, l) => vec![28u32, n, f, s, l],
            SchemaNode::StructVariant(n, v, f, s, l) => vec![29u32, n, v, f, s, l],
            SchemaNode::Union(l) => if l == 0 { Vec::new() } else { vec![30u32, l] },
        };
        assert(r@ =~= node_key(*self));
        r
    }

    /// The node whose key is `k`, if any.
    pub fn from_key(k: &Vec<u32>) -> (r: Option<SchemaNode>)
        ensures
            r == node_of_key(k@),
    {
        let n = k.len();
        if n == 0 {
            return Some(SchemaNode::Union(0));
        }
        let t = k[0];
        if n == 1 {
            match t {
                0 => Some(SchemaNode::Bool),
                1 => Some(SchemaNode::I8),
                2 => Some(SchemaNode::I16),
                3 => Some(SchemaNode::I32),
                4 => Some(SchemaNode::I64),
                5 => Some(SchemaNode::I128),
                6 => Some(SchemaNode::U8),
                7 => Some(SchemaNode::U16),
                8 => Some(SchemaNode::U32),
                9 => Some(SchemaNode::U64),
                10 => Some(SchemaNode::U128),
                11 => Some(SchemaNode::F32),
                12 => Some(SchemaNode::F64),
                13 => Some(SchemaNode::Char),
                14 => Some(SchemaNode::String),
                15 => Some(SchemaNode::Bytes),
                16 => Some(SchemaNode::OptionNone),
                18 => Some(SchemaNode::Unit),
                _ => None,
            }
        } else if n == 2 {
            match t {
                17 => Some(SchemaNode::OptionSome(k[1])),
                19 => Some(SchemaNode::UnitStruct(k[1])),
                24 => Some(SchemaNode::Sequence(k[1])),
                25 => Some(SchemaNode::Tuple(k[1])),
                30 => if k[1] != 0 { Some(SchemaNode::Union(k[1])) } else { None },
                _ => None,
            }
        } else if n == 3 {
            match t {
                20 => Some(SchemaNode::UnitVariant(k[1], k[2])),
                21 => Some(SchemaNode::NewtypeStruct(k[1], k[2])),
                23 => Some(SchemaNode::Mapping(k[1], k[2])),
                26 => Some(SchemaNode::TupleStruct(k[1], k[2])),
                _ => None,
            }
        } else if n == 4 {
            match t {
                22 => Some(SchemaNode::NewtypeVariant(k[1], k[2], k[3])),
                27 => Some(SchemaNode::TupleVariant(k[1], k[2], k[3])),
                _ => None,
            }
        } else if n == 5 {
            if t == 28 { Some(SchemaNode::Struct(k[1], k[2], k[3], k[4])) } else { None }
        } else if n == 6 {
            if t == 29 { Some(SchemaNode::StructVariant(k[1], k[2], k[3], k[4], k[5])) } else { None }
        } else {
            None
        }
    }
}

/// The node at `index` of a node pool whose stored keys are `keys` (index 0 is the empty union).
pub open spec fn node_at(keys: Seq<Seq<u32>>, index: u32) -> Option<SchemaNode> {
    if index == 0 {
        Some(SchemaNode::Union(0))
    } else if index - 1 < keys.len() {
        node_of_key(keys[index - 1])
    } else {
        None
    }
}

/// The list at `index` of a list pool whose stored lists are `lists` (index 0 is the empty
/// list).
pub open spec fn list_at(lists: Seq<Seq<u32>>, index: u32) -> Option<Seq<u32>> {
    if index == 0 {
        Some(Seq::empty())
    } else if index - 1 < lists.len() {
        Some(lists[index - 1])
    } else {
        None
    }
}

/// Errors of looking something up in a schema: an index that the schema does not have.
#[derive(Debug, Clone, Copy, PartialEq, Eq, Structural)]
pub enum SchemaError {
    BadNode(SchemaNodeIndex),
    BadNodeList(SchemaNodeListIndex),
    BadMemberList(MemberListIndex),
    BadFieldNameList(FieldNameListIndex),
}

/// A built schema: the root node and the pools that nodes refer to by index.
pub struct Schema {
    pub root_index: SchemaNodeIndex,
    /// The keys of the nodes (see [`node_key`]); index 0 is the empty union.
    pub nodes: ReadonlyPool<Vec<u32>>,
    pub node_lists: ReadonlyPool<Vec<u32>>,
    pub member_lists: ReadonlyPool<Vec<u32>>,
    pub field_name_lists: ReadonlyNonEmptyPool<Vec<u32>>,
    pub field_names: ReadonlyNonEmptyPool<&'static str>,
    pub variant_names: ReadonlyNonEmptyPool<&'static str>,
    pub type_names: ReadonlyNonEmptyPool<&'static str>,
}

/// The views of a vector of lists.
pub open spec fn vec_lists(v: Seq<Vec<u32>>) -> Seq<Seq<u32>> {
    Seq::new(v.len(), |i: int| v[i]@)
}

impl Schema {
    /// The stored node keys.
    pub open spec fn node_keys(&self) -> Seq<Seq<u32>> {
        vec_lists(self.nodes.values@)
    }

    /// The stored node lists.
    pub open spec fn spec_node_lists(&self) -> Seq<Seq<u32>> {
        vec_lists(self.node_lists.values@)
    }

    /// The stored member lists.
    pub open spec fn spec_member_lists(&self) -> Seq<Seq<u32>> {
        vec_lists(self.member_lists.values@)
    }

    /// Whether the pools keep the empty value at index 0.
    pub open spec fn wf(&self) -> bool {
        &&& self.nodes.empty@.len() == 0
        &&& self.node_lists.empty@.len() == 0
        &&& self.member_lists.empty@.len() == 0
    }

    /// The node at `index`.
    pub fn node(&self, index: SchemaNodeIndex) -> (r: Result<SchemaNode, SchemaError>)
        requires
            self.wf(),
        ensures
            match node_at(self.node_keys(), index) {
                Some(n) => r == Ok::<SchemaNode, SchemaError>(n),
                None => r is Err,
            },
            index - 1 >= self.nodes.values@.len() && index != 0 ==> r == Err::<SchemaNode, SchemaError>(SchemaError::BadNode(index)),
    {
        match self.nodes.get(index) {
            Some(key) => match SchemaNode::from_key(key) {
                Some(node) => Ok(node),
                None => Err(SchemaError::BadNode(index)),
            },
            None => Err(SchemaError::BadNode(index)),
        }
    }

    /// The node list at `index`.
    pub fn node_list(&self, index: SchemaNodeListIndex) -> (r: Result<&Vec<u32>, SchemaError>)
        requires
            self.wf(),
        ensures
            match list_at(self.spec_node_lists(), index) {
                Some(l) => r matches Ok(v) && v@ == l,
                None => r == Err::<&Vec<u32>, SchemaError>(SchemaError::BadNodeList(index)),
            },
    {
        match self.node_lists.get(index) {
            Some(list) => Ok(list),
            None => Err(SchemaError::BadNodeList(index)),
        }
    }

    /// The member list at `index`.
    pub fn member_list(&self, index: MemberListIndex) -> (r: Result<&Vec<u32>, SchemaError>)
        requires
            self.wf(),
        ensures
            match list_at(self.spec_member_lists(), index) {
                Some(l) => r matches Ok(v) && v@ == l,
                None => r == Err::<&Vec<u32>, SchemaError>(SchemaError::BadMemberList(index)),
            },
    {
        match self.member_lists.get(index) {
            Some(list) => Ok(list),
            None => Err(SchemaError::BadMemberList(index)),
        }
    }

    /// The field name list at `index`.
    pub fn field_name_list(&self, index: FieldNameListIndex) -> (r: Result<&Vec<u32>, SchemaError>)
        ensures
            index < self.field_name_lists.values@.len() ==> r == Ok::<&Vec<u32>, SchemaError>(&self.field_name_lists.values@[index as int]),
            index >= self.field_name_lists.values@.len() ==> r == Err::<&Vec<u32>, SchemaError>(SchemaError::BadFieldNameList(index)),
    {
        match self.field_name_lists.get(index) {
            Some(list) => Ok(list),
            None => Err(SchemaError::BadFieldNameList(index)),
        }
    }
}

} // verus!
