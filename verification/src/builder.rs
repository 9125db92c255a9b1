//! The schema builder: the schema under construction and the pools that building it fills.

use vstd::prelude::*;
use crate::error::{TraceError, TraceLimitError, TraceLimitErrorKind};
use crate::indices::TypeName;
use crate::node::{flat, lemma_models_of, models_of, NodeModel, SchemaBuilderNode};
use crate::pool::{NonEmptyPool, Pool};
use crate::schema::{list_at, node_at, node_key, lemma_key_of_node, lemma_node_key_roundtrip, vec_lists, Schema, SchemaNode};
use crate::sorted::{insert_sorted, strictly_sorted};

verus! {

/// The most fields of one struct that some values skip and others serialize.
pub const MAX_SKIPPABLE_FIELDS: usize = 64;

/// The name pools filled while tracing.
pub struct Names {
    /// Lists of field name indices, indexed from 0.
    pub field_name_lists: Pool,
    pub field_names: NonEmptyPool,
    pub variant_names: NonEmptyPool,
    pub type_names: NonEmptyPool,
    /// The fields skipped by the structs being traced, a stack of one run per struct.
    pub skipped: Vec<u32>,
}

impl Names {
    /// The pools hold each value once, and field name lists are indexed from 0.
    pub open spec fn wf(&self) -> bool {
        &&& self.field_name_lists.wf()
        &&& !self.field_name_lists.spec_empty_first()
        &&& self.field_name_lists.spec_kind() == TraceLimitErrorKind::FieldNameLists
        &&& self.field_names.wf()
        &&& self.variant_names.wf()
        &&& self.type_names.wf()
    }

    pub fn new() -> (r: Self)
        ensures
            r.wf(),
            r.field_name_lists@ == Seq::<Seq<u32>>::empty(),
            r.field_names@ == Seq::<Seq<char>>::empty(),
            r.variant_names@ == Seq::<Seq<char>>::empty(),
            r.type_names@ == Seq::<Seq<char>>::empty(),
            r.skipped@ == Seq::<u32>::empty(),
    {
        Names {
            field_name_lists: Pool::new(false, TraceLimitErrorKind::FieldNameLists),
            field_names: NonEmptyPool::new(),
            variant_names: NonEmptyPool::new(),
            type_names: NonEmptyPool::new(),
            skipped: Vec::new(),
        }
    }
}

/// The contents of the pools that built nodes refer to.
pub struct PoolsModel {
    /// The keys of the interned nodes, from index 1.
    pub nodes: Seq<Seq<u32>>,
    /// The interned node lists, from index 1.
    pub lists: Seq<Seq<u32>>,
    /// The interned member lists, from index 1.
    pub members: Seq<Seq<u32>>,
}

/// Whether `q` holds everything `p` holds, at the same indices.
pub open spec fn extends(p: PoolsModel, q: PoolsModel) -> bool {
    &&& p.nodes.len() <= q.nodes.len()
    &&& p.nodes == q.nodes.subrange(0, p.nodes.len() as int)
    &&& p.lists.len() <= q.lists.len()
    &&& p.lists == q.lists.subrange(0, p.lists.len() as int)
    &&& p.members.len() <= q.members.len()
    &&& p.members == q.members.subrange(0, p.members.len() as int)
}

/// The built node of a unit, unit struct or unit variant.
pub open spec fn unit_node(name: Option<TypeName>) -> SchemaNode {
    match name {
        None => SchemaNode::Unit,
        Some(TypeName(n, None)) => SchemaNode::UnitStruct(n),
        Some(TypeName(n, Some(v))) => SchemaNode::UnitVariant(n, v),
    }
}

/// The built node of a newtype struct or newtype variant whose inner node is `inner`.
pub open spec fn newtype_node(name: TypeName, inner: u32) -> SchemaNode {
    match name {
        TypeName(n, None) => SchemaNode::NewtypeStruct(n, inner),
        TypeName(n, Some(v)) => SchemaNode::NewtypeVariant(n, v, inner),
    }
}

/// The built node of a record with these names, field types `list` and skip list `skip`.
pub open spec fn record_node(name: Option<TypeName>, field_names: Option<u32>, list: u32, skip: u32) -> SchemaNode {
    match (name, field_names) {
        (Some(TypeName(n, None)), None) => SchemaNode::TupleStruct(n, list),
        (Some(TypeName(n, Some(v))), None) => SchemaNode::TupleVariant(n, v, list),
        (Some(TypeName(n, None)), Some(f)) => SchemaNode::Struct(n, f, skip, list),
        (Some(TypeName(n, Some(v))), Some(f)) => SchemaNode::StructVariant(n, v, f, skip, list),
        (None, _) => SchemaNode::Tuple(list),
    }
}

/// The field type list and skip list (0 for tuples) of a record node.
pub open spec fn record_lists(n: SchemaNode) -> (u32, u32) {
    match n {
        SchemaNode::Tuple(l) => (l, 0),
        SchemaNode::TupleStruct(_, l) => (l, 0),
        SchemaNode::TupleVariant(_, _, l) => (l, 0),
        SchemaNode::Struct(_, _, s, l) => (l, s),
        SchemaNode::StructVariant(_, _, _, s, l) => (l, s),
        _ => (0, 0),
    }
}

/// The skippable fields (of `skippable`) whose built type `types` is not the empty union.
pub open spec fn kept(skippable: Seq<u32>, types: Seq<u32>, k: int) -> Seq<u32>
    decreases k,
{
    if k <= 0 || k > skippable.len() {
        Seq::empty()
    } else if types[skippable[k - 1] as int] != 0 {
        kept(skippable, types, k - 1).push(skippable[k - 1])
    } else {
        kept(skippable, types, k - 1)
    }
}

/// The variants that a union node at `i` lists: none for the empty union, the node itself if it
/// is not a union.
pub open spec fn variants_of(p: PoolsModel, i: u32) -> Seq<u32> {
    if i == 0 {
        Seq::empty()
    } else {
        match node_at(p.nodes, i) {
            Some(SchemaNode::Union(l)) => match list_at(p.lists, l) {
                Some(ws) => ws,
                None => seq![i],
            },
            _ => seq![i],
        }
    }
}

/// Whether the built node at index `i` of the pools `p` is what building the schema node `m`
/// gives: the same tree, with children replaced by the indices of their built nodes, unions by
/// the sorted list of their members' distinct non-empty built nodes (a single one standing for
/// the union), and records that no successful trace completed by the empty union.
pub open spec fn denotes(p: PoolsModel, i: u32, m: NodeModel) -> bool
    decreases m, 0int, 0int,
{
    match m {
        NodeModel::Bool => node_at(p.nodes, i) == Some(SchemaNode::Bool),
        NodeModel::I8 => node_at(p.nodes, i) == Some(SchemaNode::I8),
        NodeModel::I16 => node_at(p.nodes, i) == Some(SchemaNode::I16),
        NodeModel::I32 => node_at(p.nodes, i) == Some(SchemaNode::I32),
        NodeModel::I64 => node_at(p.nodes, i) == Some(SchemaNode::I64),
        NodeModel::I128 => node_at(p.nodes, i) == Some(SchemaNode::I128),
        NodeModel::U8 => node_at(p.nodes, i) == Some(SchemaNode::U8),
        NodeModel::U16 => node_at(p.nodes, i) == Some(SchemaNode::U16),
        NodeModel::U32 => node_at(p.nodes, i) == Some(SchemaNode::U32),
        NodeModel::U64 => node_at(p.nodes, i) == Some(SchemaNode::U64),
        NodeModel::U128 => node_at(p.nodes, i) == Some(SchemaNode::U128),
        NodeModel::F32 => node_at(p.nodes, i) == Some(SchemaNode::F32),
        NodeModel::F64 => node_at(p.nodes, i) == Some(SchemaNode::F64),
        NodeModel::Char => node_at(p.nodes, i) == Some(SchemaNode::Char),
        NodeModel::String => node_at(p.nodes, i) == Some(SchemaNode::String),
        NodeModel::Bytes => node_at(p.nodes, i) == Some(SchemaNode::Bytes),
        NodeModel::OptionNone => node_at(p.nodes, i) == Some(SchemaNode::OptionNone),
        NodeModel::OptionSome(inner) => match node_at(p.nodes, i) {
            Some(SchemaNode::OptionSome(j)) => denotes(p, j, *inner),
            _ => false,
        },
        NodeModel::Unit(name) => node_at(p.nodes, i) == Some(unit_node(name)),
        NodeModel::Newtype(name, inner) => match node_at(p.nodes, i) {
            Some(n) => {
                let j = match n {
                    SchemaNode::NewtypeStruct(_, j) => j,
                    SchemaNode::NewtypeVariant(_, _, j) => j,
                    _ => 0,
                };
                n == newtype_node(name, j) && denotes(p, j, *inner)
            },
            None => false,
        },
        NodeModel::Mapping(k, v) => match node_at(p.nodes, i) {
            Some(SchemaNode::Mapping(a, b)) => denotes(p, a, *k) && denotes(p, b, *v),
            _ => false,
        },
        NodeModel::Sequence(item) => match node_at(p.nodes, i) {
            Some(SchemaNode::Sequence(j)) => denotes(p, j, *item),
            _ => false,
        },
        NodeModel::Union(ms) => {
            let ws = variants_of(p, i);
            &&& (i == 0 || node_at(p.nodes, i) is Some)
            &&& (node_at(p.nodes, i) matches Some(SchemaNode::Union(l))
                ==> (i != 0 ==> list_at(p.lists, l) is Some && ws.len() >= 2))
            &&& strictly_sorted(ws)
            &&& !ws.contains(0u32)
            &&& all_members_in(p, ws, ms, ms.len() as int)
            &&& all_variants_from(p, ws, ms, ws.len() as int)
        },
        NodeModel::Record { name, field_names, field_types, skippable, keys } => {
            if keys is Some && field_names is None {
                i == 0
            } else {
                match node_at(p.nodes, i) {
                    Some(n) => {
                        let (list, skip) = record_lists(n);
                        &&& n == record_node(name, field_names, list, skip)
                        &&& list_at(p.lists, list) matches Some(ls)
                        &&& ls.len() == field_types.len()
                        &&& fields_denote(p, ls, field_types, field_types.len() as int)
                        &&& field_names is Some ==> list_at(p.members, skip)
                            == Some(kept(skippable, ls, skippable.len() as int))
                    },
                    None => false,
                }
            }
        },
    }
}

/// Whether each of the first `k` field types `ts` is built at the matching index of `ls`.
pub open spec fn fields_denote(p: PoolsModel, ls: Seq<u32>, ts: Seq<NodeModel>, k: int) -> bool
    decreases ts, k, 0int,
{
    if k <= 0 || k > ts.len() {
        true
    } else {
        fields_denote(p, ls, ts, k - 1) && denotes(p, ls[k - 1], ts[k - 1])
    }
}

/// Whether `m` is built at the empty union or at one of the first `t` variants `ws`.
pub open spec fn member_in(p: PoolsModel, ws: Seq<u32>, m: NodeModel, t: int) -> bool
    decreases m, if t > 0 { t } else { 0 }, 1int,
{
    if t <= 0 || t > ws.len() {
        denotes(p, 0, m)
    } else {
        member_in(p, ws, m, t - 1) || denotes(p, ws[t - 1], m)
    }
}

/// Whether each of the first `k` members `ms` is built at one of the variants `ws` (or at the
/// empty union).
pub open spec fn all_members_in(p: PoolsModel, ws: Seq<u32>, ms: Seq<NodeModel>, k: int) -> bool
    decreases ms, k, 0int,
{
    if k <= 0 || k > ms.len() {
        true
    } else {
        all_members_in(p, ws, ms, k - 1) && member_in(p, ws, ms[k - 1], ws.len() as int)
    }
}

/// Whether `w` is the built node of one of the first `k` members `ms`.
pub open spec fn variant_from(p: PoolsModel, w: u32, ms: Seq<NodeModel>, k: int) -> bool
    decreases ms, k, 0int,
{
    if k <= 0 || k > ms.len() {
        false
    } else {
        variant_from(p, w, ms, k - 1) || denotes(p, w, ms[k - 1])
    }
}

/// Whether each of the first `t` variants `ws` is the built node of one of the members `ms`.
pub open spec fn all_variants_from(p: PoolsModel, ws: Seq<u32>, ms: Seq<NodeModel>, t: int) -> bool
    decreases ms, ms.len() + 1 + t, 0int,
{
    if t <= 0 || t > ws.len() {
        true
    } else {
        all_variants_from(p, ws, ms, t - 1) && variant_from(p, ws[t - 1], ms, ms.len() as int)
    }
}

} // verus!

verus! {

/// A node at an index stays there when the pools grow.
pub proof fn lemma_node_at_extend(p: PoolsModel, q: PoolsModel, i: u32)
    requires
        extends(p, q),
        node_at(p.nodes, i) is Some,
    ensures
        node_at(q.nodes, i) == node_at(p.nodes, i),
{
    if i != 0 {
        assert(q.nodes[i - 1] == p.nodes[i - 1]);
    }
}

/// A list at an index stays there when the pools grow.
pub proof fn lemma_list_at_extend(p: PoolsModel, q: PoolsModel, l: u32)
    ensures
        extends(p, q) && list_at(p.lists, l) is Some ==> list_at(q.lists, l) == list_at(p.lists, l),
        extends(p, q) && list_at(p.members, l) is Some ==> list_at(q.members, l) == list_at(p.members, l),
{
    if extends(p, q) && l != 0 {
        if l - 1 < p.lists.len() {
            assert(q.lists[l - 1] == p.lists[l - 1]);
        }
        if l - 1 < p.members.len() {
            assert(q.members[l - 1] == p.members[l - 1]);
        }
    }
}

/// What is built stays built when the pools grow.
pub proof fn lemma_denotes_extend(p: PoolsModel, q: PoolsModel, i: u32, m: NodeModel)
    requires
        extends(p, q),
        denotes(p, i, m),
    ensures
        denotes(q, i, m),
    decreases m, 0int, 0int,
{
    if i == 0 || node_at(p.nodes, i) is Some {
        if node_at(p.nodes, i) is Some {
            lemma_node_at_extend(p, q, i);
        }
    }
    match m {
        NodeModel::OptionSome(inner) => {
            lemma_node_at_extend(p, q, i);
            if let Some(SchemaNode::OptionSome(j)) = node_at(p.nodes, i) {
                lemma_denotes_extend(p, q, j, *inner);
            }
        },
        NodeModel::Newtype(name, inner) => {
            lemma_node_at_extend(p, q, i);
            let n = node_at(p.nodes, i).unwrap();
            let j = match n {
                SchemaNode::NewtypeStruct(_, j) => j,
                SchemaNode::NewtypeVariant(_, _, j) => j,
                _ => 0,
            };
            lemma_denotes_extend(p, q, j, *inner);
        },
        NodeModel::Mapping(k, v) => {
            lemma_node_at_extend(p, q, i);
            if let Some(SchemaNode::Mapping(a, b)) = node_at(p.nodes, i) {
                lemma_denotes_extend(p, q, a, *k);
                lemma_denotes_extend(p, q, b, *v);
            }
        },
        NodeModel::Sequence(item) => {
            lemma_node_at_extend(p, q, i);
            if let Some(SchemaNode::Sequence(j)) = node_at(p.nodes, i) {
                lemma_denotes_extend(p, q, j, *item);
            }
        },
        NodeModel::Union(ms) => {
            if let Some(SchemaNode::Union(l)) = node_at(p.nodes, i) {
                lemma_list_at_extend(p, q, l);
            }
            assert(variants_of(q, i) == variants_of(p, i));
            let ws = variants_of(p, i);
            lemma_all_members_extend(p, q, ws, ms, ms.len() as int);
            lemma_all_variants_extend(p, q, ws, ms, ws.len() as int);
        },
        NodeModel::Record { name, field_names, field_types, skippable, keys } => {
            if !(keys is Some && field_names is None) {
                lemma_node_at_extend(p, q, i);
                let n = node_at(p.nodes, i).unwrap();
                let (list, skip) = record_lists(n);
                lemma_list_at_extend(p, q, list);
                lemma_list_at_extend(p, q, skip);
                let ls = list_at(p.lists, list).unwrap();
                lemma_fields_extend(p, q, ls, field_types, field_types.len() as int);
            }
        },
        _ => {
            lemma_node_at_extend(p, q, i);
        },
    }
}

pub proof fn lemma_fields_extend(p: PoolsModel, q: PoolsModel, ls: Seq<u32>, ts: Seq<NodeModel>, k: int)
    requires
        extends(p, q),
        fields_denote(p, ls, ts, k),
    ensures
        fields_denote(q, ls, ts, k),
    decreases ts, k, 0int,
{
    if 0 < k <= ts.len() {
        lemma_fields_extend(p, q, ls, ts, k - 1);
        lemma_denotes_extend(p, q, ls[k - 1], ts[k - 1]);
    }
}

pub proof fn lemma_member_in_extend(p: PoolsModel, q: PoolsModel, ws: Seq<u32>, m: NodeModel, t: int)
    requires
        extends(p, q),
        member_in(p, ws, m, t),
    ensures
        member_in(q, ws, m, t),
    decreases m, if t > 0 { t } else { 0 }, 1int,
{
    if t <= 0 || t > ws.len() {
        lemma_denotes_extend(p, q, 0, m);
    } else {
        if member_in(p, ws, m, t - 1) {
            lemma_member_in_extend(p, q, ws, m, t - 1);
        } else {
            lemma_denotes_extend(p, q, ws[t - 1], m);
        }
    }
}

pub proof fn lemma_all_members_extend(p: PoolsModel, q: PoolsModel, ws: Seq<u32>, ms: Seq<NodeModel>, k: int)
    requires
        extends(p, q),
        all_members_in(p, ws, ms, k),
    ensures
        all_members_in(q, ws, ms, k),
    decreases ms, k, 0int,
{
    if 0 < k <= ms.len() {
        lemma_all_members_extend(p, q, ws, ms, k - 1);
        lemma_member_in_extend(p, q, ws, ms[k - 1], ws.len() as int);
    }
}

pub proof fn lemma_variant_from_extend(p: PoolsModel, q: PoolsModel, w: u32, ms: Seq<NodeModel>, k: int)
    requires
        extends(p, q),
        variant_from(p, w, ms, k),
    ensures
        variant_from(q, w, ms, k),
    decreases ms, k, 0int,
{
    if 0 < k <= ms.len() {
        if variant_from(p, w, ms, k - 1) {
            lemma_variant_from_extend(p, q, w, ms, k - 1);
        } else {
            lemma_denotes_extend(p, q, w, ms[k - 1]);
        }
    }
}

pub proof fn lemma_all_variants_extend(p: PoolsModel, q: PoolsModel, ws: Seq<u32>, ms: Seq<NodeModel>, t: int)
    requires
        extends(p, q),
        all_variants_from(p, ws, ms, t),
    ensures
        all_variants_from(q, ws, ms, t),
    decreases ms, ms.len() + 1 + t, 0int,
{
    if 0 < t <= ws.len() {
        lemma_all_variants_extend(p, q, ws, ms, t - 1);
        lemma_variant_from_extend(p, q, ws[t - 1], ms, ms.len() as int);
    }
}

} // verus!

verus! {

pub proof fn lemma_member_in_zero(p: PoolsModel, ws: Seq<u32>, m: NodeModel, t: int)
    requires
        denotes(p, 0, m),
    ensures
        member_in(p, ws, m, t),
    decreases if t > 0 { t } else { 0 },
{
    if 0 < t <= ws.len() {
        lemma_member_in_zero(p, ws, m, t - 1);
    }
}

pub proof fn lemma_member_in_at(p: PoolsModel, ws: Seq<u32>, m: NodeModel, t: int, j: int)
    requires
        0 <= j < t <= ws.len(),
        denotes(p, ws[j], m),
    ensures
        member_in(p, ws, m, t),
    decreases t,
{
    if j < t - 1 {
        lemma_member_in_at(p, ws, m, t - 1, j);
    }
}

pub proof fn lemma_all_members_intro(p: PoolsModel, ws: Seq<u32>, ms: Seq<NodeModel>, k: int)
    requires
        0 <= k <= ms.len(),
        forall|j: int| 0 <= j < k ==> member_in(p, ws, #[trigger] ms[j], ws.len() as int),
    ensures
        all_members_in(p, ws, ms, k),
    decreases k,
{
    if k > 0 {
        lemma_all_members_intro(p, ws, ms, k - 1);
    }
}

pub proof fn lemma_variant_from_at(p: PoolsModel, w: u32, ms: Seq<NodeModel>, k: int, j: int)
    requires
        0 <= j < k <= ms.len(),
        denotes(p, w, ms[j]),
    ensures
        variant_from(p, w, ms, k),
    decreases k,
{
    if j < k - 1 {
        lemma_variant_from_at(p, w, ms, k - 1, j);
    }
}

pub proof fn lemma_all_variants_intro(p: PoolsModel, ws: Seq<u32>, ms: Seq<NodeModel>, t: int)
    requires
        0 <= t <= ws.len(),
        forall|j: int| 0 <= j < t ==> variant_from(p, #[trigger] ws[j], ms, ms.len() as int),
    ensures
        all_variants_from(p, ws, ms, t),
    decreases t,
{
    if t > 0 {
        lemma_all_variants_intro(p, ws, ms, t - 1);
    }
}

pub proof fn lemma_fields_intro(p: PoolsModel, ls: Seq<u32>, ts: Seq<NodeModel>, k: int)
    requires
        0 <= k <= ts.len(),
        k <= ls.len(),
        forall|j: int| 0 <= j < k ==> denotes(p, #[trigger] ls[j], ts[j]),
    ensures
        fields_denote(p, ls, ts, k),
    decreases k,
{
    if k > 0 {
        lemma_fields_intro(p, ls, ts, k - 1);
    }
}

/// The built node of anything but a union, at an index other than 0, is there and is not a
/// union.
pub proof fn lemma_not_union_node(p: PoolsModel, i: u32, m: NodeModel)
    requires
        denotes(p, i, m),
        !(m is Union),
        i != 0,
    ensures
        node_at(p.nodes, i) is Some,
        !(node_at(p.nodes, i) matches Some(SchemaNode::Union(_))),
{
}

/// A member that `all_members_in` covers is built at the empty union or at one of the variants.
pub proof fn lemma_all_members_elim(p: PoolsModel, ws: Seq<u32>, ms: Seq<NodeModel>, n: int, k: int)
    requires
        all_members_in(p, ws, ms, n),
        0 <= k < n <= ms.len(),
    ensures
        member_in(p, ws, ms[k], ws.len() as int),
    decreases n,
{
    if k < n - 1 {
        lemma_all_members_elim(p, ws, ms, n - 1, k);
    }
}

pub proof fn lemma_member_in_elim(p: PoolsModel, ws: Seq<u32>, m: NodeModel, t: int)
    requires
        member_in(p, ws, m, t),
        0 <= t <= ws.len(),
    ensures
        denotes(p, 0, m) || exists|j: int| 0 <= j < t && denotes(p, #[trigger] ws[j], m),
    decreases t,
{
    if t > 0 && !denotes(p, ws[t - 1], m) {
        lemma_member_in_elim(p, ws, m, t - 1);
    }
}

pub proof fn lemma_all_variants_elim(p: PoolsModel, ws: Seq<u32>, ms: Seq<NodeModel>, t: int, j: int)
    requires
        all_variants_from(p, ws, ms, t),
        0 <= j < t <= ws.len(),
    ensures
        variant_from(p, ws[j], ms, ms.len() as int),
    decreases t,
{
    if j < t - 1 {
        lemma_all_variants_elim(p, ws, ms, t - 1, j);
    }
}

pub proof fn lemma_variant_from_elim(p: PoolsModel, w: u32, ms: Seq<NodeModel>, k: int)
    requires
        variant_from(p, w, ms, k),
        0 <= k <= ms.len(),
    ensures
        exists|i: int| 0 <= i < k && denotes(p, w, #[trigger] ms[i]),
    decreases k,
{
    if !denotes(p, w, ms[k - 1]) {
        lemma_variant_from_elim(p, w, ms, k - 1);
    }
}

/// Each field type that `fields_denote` covers is built at its index of the list.
pub proof fn lemma_fields_elim(p: PoolsModel, ls: Seq<u32>, ts: Seq<NodeModel>, n: int, k: int)
    requires
        fields_denote(p, ls, ts, n),
        0 <= k < n <= ts.len(),
    ensures
        denotes(p, ls[k], ts[k]),
    decreases n,
{
    if k < n - 1 {
        lemma_fields_elim(p, ls, ts, n - 1, k);
    }
}

/// Each member of a union that was built is built somewhere.
pub proof fn lemma_member_built(p: PoolsModel, x: u32, ms: Seq<NodeModel>, k: int)
    requires
        denotes(p, x, NodeModel::Union(ms)),
        0 <= k < ms.len(),
    ensures
        exists|idx: u32| #[trigger] denotes(p, idx, ms[k]),
{
    let ws = variants_of(p, x);
    lemma_all_members_elim(p, ws, ms, ms.len() as int, k);
    lemma_member_in_elim(p, ws, ms[k], ws.len() as int);
    if !denotes(p, 0, ms[k]) {
        let t = choose|t: int| 0 <= t < ws.len() && denotes(p, #[trigger] ws[t], ms[k]);
        assert(denotes(p, ws[t], ms[k]));
    }
}

/// Building the members of a built union again gives its variants: the sorted list of the
/// distinct non-empty indices the members are built at is the union's variant list.
pub proof fn lemma_union_rebuilt(p: PoolsModel, x: u32, ms: Seq<NodeModel>, built: Seq<u32>, ws: Seq<u32>)
    requires
        denotes(p, x, NodeModel::Union(ms)),
        built.len() == ms.len(),
        forall|k: int, idx: u32| 0 <= k < ms.len() && #[trigger] denotes(p, idx, ms[k]) ==> built[k] == idx,
        strictly_sorted(ws),
        forall|y: u32| #[trigger] ws.contains(y) <==> (y != 0 && exists|k: int| 0 <= k < built.len() && built[k] == y),
    ensures
        variants_of(p, x) == ws,
{
    let vs = variants_of(p, x);
    assert forall|y: u32| #[trigger] vs.contains(y) <==> ws.contains(y) by {
        if vs.contains(y) {
            let t = choose|t: int| 0 <= t < vs.len() && vs[t] == y;
            lemma_all_variants_elim(p, vs, ms, vs.len() as int, t);
            lemma_variant_from_elim(p, y, ms, ms.len() as int);
            let k = choose|k: int| 0 <= k < ms.len() && denotes(p, y, #[trigger] ms[k]);
            assert(built[k] == y);
        }
        if ws.contains(y) {
            let k = choose|k: int| 0 <= k < built.len() && built[k] == y;
            lemma_all_members_elim(p, vs, ms, ms.len() as int, k);
            lemma_member_in_elim(p, vs, ms[k], vs.len() as int);
            if denotes(p, 0, ms[k]) {
                assert(built[k] == 0);
            } else {
                let t = choose|t: int| 0 <= t < vs.len() && denotes(p, #[trigger] vs[t], ms[k]);
                assert(built[k] == vs[t]);
            }
        }
    }
    crate::sorted::lemma_sorted_unique(vs, ws);
}

/// Whether one of the pools `p` holds `u32::MAX` entries or more, so that a new entry may not get
/// an index.
pub open spec fn pools_full(p: PoolsModel) -> bool {
    ||| p.nodes.len() >= u32::MAX
    ||| p.lists.len() >= u32::MAX
    ||| p.members.len() >= u32::MAX
}

/// Whether every value of the type `m` is of no value at all: what building gives the empty
/// index for (the empty union, a union of such types, or a struct no successful trace
/// completed).
pub open spec fn empty_type(m: NodeModel) -> bool
    decreases m,
{
    match m {
        NodeModel::Union(ms) => forall|k: int| 0 <= k < ms.len() ==> empty_type(#[trigger] ms[k]),
        NodeModel::Record { field_names, keys, .. } => keys is Some && field_names is None,
        _ => false,
    }
}

/// How many of the first `k` skippable fields `skippable` a struct keeps: those whose type in
/// `types` is not empty (fields of an empty type are never serialized).
pub open spec fn kept_count(skippable: Seq<u32>, types: Seq<NodeModel>, k: int) -> nat
    decreases k,
{
    if k <= 0 || k > skippable.len() {
        0
    } else if skippable[k - 1] < types.len() && !empty_type(types[skippable[k - 1] as int]) {
        kept_count(skippable, types, k - 1) + 1
    } else {
        kept_count(skippable, types, k - 1)
    }
}

/// Whether no record in `m` that building builds keeps more skippable fields than a struct may.
pub open spec fn kept_within(m: NodeModel) -> bool
    decreases m,
{
    match m {
        NodeModel::OptionSome(inner) => kept_within(*inner),
        NodeModel::Newtype(_, inner) => kept_within(*inner),
        NodeModel::Mapping(k, v) => kept_within(*k) && kept_within(*v),
        NodeModel::Sequence(item) => kept_within(*item),
        NodeModel::Union(ms) => forall|i: int| 0 <= i < ms.len() ==> kept_within(#[trigger] ms[i]),
        NodeModel::Record { field_names, field_types, skippable, keys, .. } => {
            ||| keys is Some && field_names is None
            ||| {
                &&& kept_count(skippable, field_types, skippable.len() as int) <= 64
                &&& forall|i: int| 0 <= i < field_types.len() ==> kept_within(#[trigger] field_types[i])
            }
        },
        _ => true,
    }
}

/// A node is built at the empty index exactly when its type is empty.
pub proof fn lemma_empty_index(p: PoolsModel, i: u32, m: NodeModel)
    requires
        denotes(p, i, m),
        flat(m),
    ensures
        i == 0 <==> empty_type(m),
    decreases m,
{
    match m {
        NodeModel::Union(ms) => {
            let ws = variants_of(p, i);
            if i == 0 {
                assert(ws.len() == 0);
                assert forall|k: int| 0 <= k < ms.len() implies empty_type(#[trigger] ms[k]) by {
                    lemma_all_members_elim(p, ws, ms, ms.len() as int, k);
                    lemma_member_in_elim(p, ws, ms[k], ws.len() as int);
                    lemma_empty_index(p, 0, ms[k]);
                }
            } else {
                if !(node_at(p.nodes, i) matches Some(SchemaNode::Union(_))) {
                    assert(ws == seq![i]);
                }
                assert(ws.len() > 0);
                lemma_all_variants_elim(p, ws, ms, ws.len() as int, 0);
                lemma_variant_from_elim(p, ws[0], ms, ms.len() as int);
                let k = choose|k: int| 0 <= k < ms.len() && denotes(p, ws[0], #[trigger] ms[k]);
                assert(ws.contains(ws[0]));
                lemma_empty_index(p, ws[0], ms[k]);
            }
        },
        _ => {},
    }
}

/// The skippable fields a built record keeps are as many as its type says.
pub proof fn lemma_kept_count(skippable: Seq<u32>, built: Seq<u32>, ts: Seq<NodeModel>, k: int)
    requires
        0 <= k <= skippable.len(),
        built.len() == ts.len(),
        forall|j: int| 0 <= j < skippable.len() ==> #[trigger] skippable[j] < ts.len(),
        forall|j: int| 0 <= j < ts.len() ==> (#[trigger] built[j] == 0 <==> empty_type(ts[j])),
    ensures
        kept(skippable, built, k).len() == kept_count(skippable, ts, k),
    decreases k,
{
    if k > 0 {
        lemma_kept_count(skippable, built, ts, k - 1);
        let f = skippable[k - 1] as int;
        assert(built[f] == 0 <==> empty_type(ts[f]));
    }
}

/// Whether each of the pools `q` holds at most `n` entries more than the pools `p`.
pub open spec fn grown_by(p: PoolsModel, q: PoolsModel, n: int) -> bool {
    &&& q.nodes.len() <= p.nodes.len() + n
    &&& q.lists.len() <= p.lists.len() + n
    &&& q.members.len() <= p.members.len() + n
}

/// Whether building a node that `n` entries may be added for can still give each of them an
/// index in each of the pools `p`.
pub open spec fn room_for(p: PoolsModel, n: int) -> bool {
    &&& p.nodes.len() + n < u32::MAX
    &&& p.lists.len() + n < u32::MAX
    &&& p.members.len() + n < u32::MAX
}

pub proof fn lemma_sizes_prefix(s: Seq<NodeModel>, j: int, k: int)
    requires
        0 <= j <= k <= s.len(),
    ensures
        crate::node::sizes(s, j) <= crate::node::sizes(s, k),
    decreases k - j,
{
    if j < k {
        lemma_sizes_prefix(s, j, k - 1);
    }
}

/// A strictly increasing list of node indices, none of them 0, all in the node pool, is no
/// longer than the node pool.
pub proof fn lemma_sorted_indices_len(ws: Seq<u32>, n: int)
    requires
        strictly_sorted(ws),
        0 <= n,
        forall|k: int| 0 <= k < ws.len() ==> 1 <= #[trigger] ws[k] <= n,
    ensures
        ws.len() <= n,
{
    if ws.len() > 0 {
        let last = ws.len() - 1;
        lemma_sorted_at_least(ws, last);
        assert(1 <= ws[last] <= n);
    }
}

proof fn lemma_sorted_at_least(ws: Seq<u32>, k: int)
    requires
        strictly_sorted(ws),
        forall|j: int| 0 <= j < ws.len() ==> 1 <= #[trigger] ws[j],
        0 <= k < ws.len(),
    ensures
        ws[k] >= k + 1,
    decreases k,
{
    if k > 0 {
        lemma_sorted_at_least(ws, k - 1);
        assert(ws[k - 1] < ws[k]);
    }
}

} // verus!

verus! {

/// Whether `e` is an error that building a schema can give: a pool or a union or struct that
/// outgrew its limit.
pub open spec fn build_error(e: TraceError) -> bool {
    match e {
        TraceError::Limit(TraceLimitError(kind)) => {
            ||| kind == TraceLimitErrorKind::SchemaNodes
            ||| kind == TraceLimitErrorKind::SchemaNodeLists
            ||| kind == TraceLimitErrorKind::MemberLists
            ||| kind == TraceLimitErrorKind::UnionVariants
            ||| kind == TraceLimitErrorKind::SkippableFields
        },
        _ => false,
    }
}

/// An in-progress schema built by successive traces of values.
pub struct SchemaBuilder {
    pub root: SchemaBuilderNode,
    /// The keys of the built nodes; index 0 is the empty union.
    pub nodes: Pool,
    pub node_lists: Pool,
    pub member_lists: Pool,
    pub names: Names,
}

impl SchemaBuilder {
    /// The node pools are indexed from 1, with 0 for the empty value, and hold each value once.
    pub open spec fn pools_wf(&self) -> bool {
        &&& self.nodes.wf()
        &&& self.nodes.spec_empty_first()
        &&& self.nodes.spec_kind() == TraceLimitErrorKind::SchemaNodes
        &&& self.node_lists.wf()
        &&& self.node_lists.spec_empty_first()
        &&& self.node_lists.spec_kind() == TraceLimitErrorKind::SchemaNodeLists
        &&& self.member_lists.wf()
        &&& self.member_lists.spec_empty_first()
        &&& self.member_lists.spec_kind() == TraceLimitErrorKind::MemberLists
    }

    pub open spec fn wf(&self) -> bool {
        &&& self.pools_wf()
        &&& self.names.wf()
        &&& flat(self.root@)
    }

    /// The contents of the node pools.
    pub open spec fn pools(&self) -> PoolsModel {
        PoolsModel { nodes: self.nodes@, lists: self.node_lists@, members: self.member_lists@ }
    }

    /// Creates a new, empty builder.
    pub fn new() -> (r: Self)
        ensures
            r.wf(),
            r.root@ == crate::node::bottom(),
            r.pools() == (PoolsModel { nodes: Seq::empty(), lists: Seq::empty(), members: Seq::empty() }),
            r.names.type_names@ == Seq::<Seq<char>>::empty(),
            r.names.variant_names@ == Seq::<Seq<char>>::empty(),
            r.names.field_names@ == Seq::<Seq<char>>::empty(),
            r.names.field_name_lists@ == Seq::<Seq<u32>>::empty(),
            r.names.skipped@ == Seq::<u32>::empty(),
    {
        let root = SchemaBuilderNode::empty();
        proof {
            crate::node::lemma_flat_bottom();
        }
        SchemaBuilder {
            root,
            nodes: Pool::new(true, TraceLimitErrorKind::SchemaNodes),
            node_lists: Pool::new(true, TraceLimitErrorKind::SchemaNodeLists),
            member_lists: Pool::new(true, TraceLimitErrorKind::MemberLists),
            names: Names::new(),
        }
    }

    /// The index of `node`, interned if it is new.
    fn intern_node(&mut self, node: SchemaNode) -> (r: Result<u32, TraceError>)
        requires
            old(self).pools_wf(),
        ensures
            final(self).pools_wf(),
            final(self).root == old(self).root,
            final(self).names == old(self).names,
            extends(old(self).pools(), final(self).pools()),
            final(self).node_lists@ == old(self).node_lists@,
            final(self).member_lists@ == old(self).member_lists@,
            r matches Ok(i) ==> node_at(final(self).nodes@, i) == Some(node),
            grown_by(old(self).pools(), final(self).pools(), 1),
            forall|i: u32| #[trigger] node_at(old(self).nodes@, i) == Some(node)
                ==> r == Ok::<u32, TraceError>(i) && final(self).pools() == old(self).pools(),
            r is Err ==> pools_full(final(self).pools()),
            node == SchemaNode::Union(0) ==> r == Ok::<u32, TraceError>(0) && final(self).pools() == old(self).pools(),
            node != SchemaNode::Union(0) && r is Ok ==> r->Ok_0 != 0,
            r matches Err(e) ==> build_error(e),
    {
        proof {
            lemma_node_key_roundtrip(node);
        }
        let ghost before = self.pools();
        proof {
            self.nodes.lemma_wf();
        }
        let r = self.nodes.intern(node.key());
        proof {
            assert forall|i: u32| #[trigger] node_at(before.nodes, i) == Some(node)
                implies r == Ok::<u32, TraceLimitErrorKind>(i) && self.pools() == before by {
                if i != 0 {
                    lemma_key_of_node(before.nodes[i - 1], node);
                    if node_key(node).len() == 0 {
                        assert(before.nodes.contains(before.nodes[i - 1]));
                        assert(before.nodes[i - 1] =~= Seq::<u32>::empty());
                    }
                }
            }
            assert(before.nodes =~= self.nodes@.subrange(0, before.nodes.len() as int));
            assert(before.lists =~= self.node_lists@.subrange(0, before.lists.len() as int));
            assert(before.members =~= self.member_lists@.subrange(0, before.members.len() as int));
        }
        match r {
            Ok(i) => Ok(i),
            Err(kind) => Err(TraceError::Limit(TraceLimitError(kind))),
        }
    }

    /// The index of the node list `list`, interned if it is new.
    fn intern_list(&mut self, list: Vec<u32>) -> (r: Result<u32, TraceError>)
        requires
            old(self).pools_wf(),
        ensures
            final(self).pools_wf(),
            final(self).root == old(self).root,
            final(self).names == old(self).names,
            extends(old(self).pools(), final(self).pools()),
            final(self).nodes@ == old(self).nodes@,
            final(self).member_lists@ == old(self).member_lists@,
            r matches Ok(l) ==> list_at(final(self).node_lists@, l) == Some(list@),
            grown_by(old(self).pools(), final(self).pools(), 1),
            forall|l: u32| #[trigger] list_at(old(self).node_lists@, l) == Some(list@)
                ==> r == Ok::<u32, TraceError>(l) && final(self).pools() == old(self).pools(),
            r is Err ==> pools_full(final(self).pools()),
            list@.len() == 0 ==> r == Ok::<u32, TraceError>(0) && final(self).pools() == old(self).pools(),
            list@.len() != 0 && r is Ok ==> r->Ok_0 != 0,
            r matches Err(e) ==> build_error(e),
    {
        let ghost before = self.pools();
        let ghost lv = list@;
        proof {
            self.node_lists.lemma_wf();
        }
        let r = self.node_lists.intern(list);
        proof {
            assert forall|l: u32| #[trigger] list_at(before.lists, l) == Some(lv)
                implies r == Ok::<u32, TraceLimitErrorKind>(l) && self.pools() == before by {
                if l != 0 && lv.len() == 0 {
                    assert(before.lists.contains(before.lists[l - 1]));
                    assert(before.lists[l - 1] =~= Seq::<u32>::empty());
                }
            }
            assert(before.nodes =~= self.nodes@.subrange(0, before.nodes.len() as int));
            assert(before.lists =~= self.node_lists@.subrange(0, before.lists.len() as int));
            assert(before.members =~= self.member_lists@.subrange(0, before.members.len() as int));
        }
        match r {
            Ok(i) => Ok(i),
            Err(kind) => Err(TraceError::Limit(TraceLimitError(kind))),
        }
    }

    /// The index of the member list `list`, interned if it is new.
    fn intern_members(&mut self, list: Vec<u32>) -> (r: Result<u32, TraceError>)
        requires
            old(self).pools_wf(),
        ensures
            final(self).pools_wf(),
            final(self).root == old(self).root,
            final(self).names == old(self).names,
            extends(old(self).pools(), final(self).pools()),
            final(self).nodes@ == old(self).nodes@,
            final(self).node_lists@ == old(self).node_lists@,
            r matches Ok(l) ==> list_at(final(self).member_lists@, l) == Some(list@),
            grown_by(old(self).pools(), final(self).pools(), 1),
            forall|l: u32| #[trigger] list_at(old(self).member_lists@, l) == Some(list@)
                ==> r == Ok::<u32, TraceError>(l) && final(self).pools() == old(self).pools(),
            r is Err ==> pools_full(final(self).pools()),
            r matches Err(e) ==> build_error(e),
    {
        let ghost before = self.pools();
        let ghost lv = list@;
        proof {
            self.member_lists.lemma_wf();
        }
        let r = self.member_lists.intern(list);
        proof {
            assert forall|l: u32| #[trigger] list_at(before.members, l) == Some(lv)
                implies r == Ok::<u32, TraceLimitErrorKind>(l) && self.pools() == before by {
                if l != 0 && lv.len() == 0 {
                    assert(before.members.contains(before.members[l - 1]));
                    assert(before.members[l - 1] =~= Seq::<u32>::empty());
                }
            }
            assert(before.nodes =~= self.nodes@.subrange(0, before.nodes.len() as int));
            assert(before.lists =~= self.node_lists@.subrange(0, before.lists.len() as int));
            assert(before.members =~= self.member_lists@.subrange(0, before.members.len() as int));
        }
        match r {
            Ok(i) => Ok(i),
            Err(kind) => Err(TraceError::Limit(TraceLimitError(kind))),
        }
    }
}

} // verus!

verus! {

pub proof fn lemma_extends_trans(p: PoolsModel, q: PoolsModel, r: PoolsModel)
    requires
        extends(p, q),
        extends(q, r),
    ensures
        extends(p, r),
{
    assert(p.nodes =~= r.nodes.subrange(0, p.nodes.len() as int));
    assert(p.lists =~= r.lists.subrange(0, p.lists.len() as int));
    assert(p.members =~= r.members.subrange(0, p.members.len() as int));
}

pub proof fn lemma_extends_refl(p: PoolsModel)
    ensures
        extends(p, p),
{
    assert(p.nodes =~= p.nodes.subrange(0, p.nodes.len() as int));
    assert(p.lists =~= p.lists.subrange(0, p.lists.len() as int));
    assert(p.members =~= p.members.subrange(0, p.members.len() as int));
}

/// The limit error of `kind`.
fn limit(kind: TraceLimitErrorKind) -> (r: TraceError)
    ensures
        r == TraceError::Limit(TraceLimitError(kind)),
{
    TraceError::Limit(TraceLimitError(kind))
}

impl SchemaBuilderNode {
    /// Builds this node and everything under it into the builder's pools, and returns the index
    /// of the built node.
    pub fn build(self, builder: &mut SchemaBuilder) -> (r: Result<u32, TraceError>)
        requires
            old(builder).pools_wf(),
            flat(self@),
        ensures
            final(builder).pools_wf(),
            final(builder).root == old(builder).root,
            final(builder).names == old(builder).names,
            extends(old(builder).pools(), final(builder).pools()),
            r matches Ok(i) ==> denotes(final(builder).pools(), i, self@),
            r matches Err(e) ==> build_error(e),
            r is Err ==> pools_full(final(builder).pools()) || !kept_within(self@),
            grown_by(old(builder).pools(), final(builder).pools(), crate::node::size(self@) as int),
            r is Ok ==> kept_within(self@),
            room_for(old(builder).pools(), crate::node::size(self@) as int) && !kept_within(self@)
                ==> r == Err::<u32, TraceError>(TraceError::Limit(TraceLimitError(TraceLimitErrorKind::SkippableFields))),
            room_for(old(builder).pools(), crate::node::size(self@) as int) && kept_within(self@) ==> r is Ok,
            self@ == crate::node::bottom() || (self@ matches NodeModel::Record { keys: Some(_), field_names: None, .. })
                ==> r == Ok::<u32, TraceError>(0) && final(builder).pools() == old(builder).pools(),
            forall|i: u32| #[trigger] denotes(old(builder).pools(), i, self@) && kept_within(self@)
                ==> r == Ok::<u32, TraceError>(i) && final(builder).pools() == old(builder).pools(),
            self@ is Record && self@->field_names is Some && r is Ok ==> (node_at(final(builder).nodes@, r->Ok_0)
                matches Some(n) && list_at(final(builder).member_lists@, record_lists(n).1) matches Some(kl)
                && kl.len() <= 64),
        decreases crate::node::size(self@), 1int,
    {
        let ghost whole = self;
        let built = match self {
            SchemaBuilderNode::Bool => SchemaNode::Bool,
            SchemaBuilderNode::I8 => SchemaNode::I8,
            SchemaBuilderNode::I16 => SchemaNode::I16,
            SchemaBuilderNode::I32 => SchemaNode::I32,
            SchemaBuilderNode::I64 => SchemaNode::I64,
            SchemaBuilderNode::I128 => SchemaNode::I128,
            SchemaBuilderNode::U8 => SchemaNode::U8,
            SchemaBuilderNode::U16 => SchemaNode::U16,
            SchemaBuilderNode::U32 => SchemaNode::U32,
            SchemaBuilderNode::U64 => SchemaNode::U64,
            SchemaBuilderNode::U128 => SchemaNode::U128,
            SchemaBuilderNode::F32 => SchemaNode::F32,
            SchemaBuilderNode::F64 => SchemaNode::F64,
            SchemaBuilderNode::Char => SchemaNode::Char,
            SchemaBuilderNode::String => SchemaNode::String,
            SchemaBuilderNode::Bytes => SchemaNode::Bytes,
            SchemaBuilderNode::OptionNone => SchemaNode::OptionNone,
            SchemaBuilderNode::OptionSome(inner) => {
                let ghost p0 = builder.pools();
                let ghost im = (*inner)@;
                let inner = match (*inner).build(builder) {
                    Ok(j) => j,
                    Err(e) => {
                        proof {
                            assert forall|i: u32| #[trigger] denotes(p0, i, whole@) && kept_within(whole@) implies false by {
                                let j = node_at(p0.nodes, i).unwrap()->OptionSome_0;
                                assert(denotes(p0, j, im));
                            }
                        }
                        return Err(e);
                    },
                };
                let ghost p1 = builder.pools();
                let r = builder.intern_node(SchemaNode::OptionSome(inner));
                proof {
                    assert forall|i: u32| #[trigger] denotes(p0, i, whole@) && kept_within(whole@)
                        implies r == Ok::<u32, TraceError>(i) && builder.pools() == p0 by {
                        let j = node_at(p0.nodes, i).unwrap()->OptionSome_0;
                        assert(denotes(p0, j, im));
                        assert(node_at(p1.nodes, i) == Some(SchemaNode::OptionSome(inner)));
                    }
                    lemma_extends_trans(p0, p1, builder.pools());
                    if r is Ok {
                        lemma_denotes_extend(p1, builder.pools(), inner, *whole@->OptionSome_0);
                    }
                }
                return r;
            },
            SchemaBuilderNode::Unit(None) => SchemaNode::Unit,
            SchemaBuilderNode::Unit(Some(TypeName(name, None))) => SchemaNode::UnitStruct(name),
            SchemaBuilderNode::Unit(Some(TypeName(name, Some(variant)))) => SchemaNode::UnitVariant(name, variant),
            SchemaBuilderNode::Newtype(tname, inner) => {
                let ghost p0 = builder.pools();
                let ghost im = (*inner)@;
                let inner = match (*inner).build(builder) {
                    Ok(j) => j,
                    Err(e) => {
                        proof {
                            assert forall|i: u32| #[trigger] denotes(p0, i, whole@) && kept_within(whole@) implies false by {
                                let n = node_at(p0.nodes, i).unwrap();
                                let j = match n {
                                    SchemaNode::NewtypeStruct(_, j) => j,
                                    SchemaNode::NewtypeVariant(_, _, j) => j,
                                    _ => 0,
                                };
                                assert(denotes(p0, j, im));
                            }
                        }
                        return Err(e);
                    },
                };
                let ghost p1 = builder.pools();
                let node = match tname {
                    TypeName(name, None) => SchemaNode::NewtypeStruct(name, inner),
                    TypeName(name, Some(variant)) => SchemaNode::NewtypeVariant(name, variant, inner),
                };
                let r = builder.intern_node(node);
                proof {
                    assert forall|i: u32| #[trigger] denotes(p0, i, whole@) && kept_within(whole@)
                        implies r == Ok::<u32, TraceError>(i) && builder.pools() == p0 by {
                        let n = node_at(p0.nodes, i).unwrap();
                        let j = match n {
                            SchemaNode::NewtypeStruct(_, j) => j,
                            SchemaNode::NewtypeVariant(_, _, j) => j,
                            _ => 0,
                        };
                        assert(denotes(p0, j, im));
                        assert(node_at(p1.nodes, i) == Some(node));
                    }
                    lemma_extends_trans(p0, p1, builder.pools());
                    if r is Ok {
                        lemma_denotes_extend(p1, builder.pools(), inner, *whole@->Newtype_1);
                    }
                }
                return r;
            },
            SchemaBuilderNode::Mapping(key, value) => {
                let ghost p0 = builder.pools();
                let ghost km = (*key)@;
                let ghost vm = (*value)@;
                let key = match (*key).build(builder) {
                    Ok(j) => j,
                    Err(e) => {
                        proof {
                            assert forall|i: u32| #[trigger] denotes(p0, i, whole@) && kept_within(whole@) implies false by {
                                let a = node_at(p0.nodes, i).unwrap()->Mapping_0;
                                assert(denotes(p0, a, km));
                            }
                        }
                        return Err(e);
                    },
                };
                let ghost p1 = builder.pools();
                let value = match (*value).build(builder) {
                    Ok(j) => j,
                    Err(e) => {
                        proof {
                            lemma_extends_trans(p0, p1, builder.pools());
                            assert forall|i: u32| #[trigger] denotes(p0, i, whole@) && kept_within(whole@) implies false by {
                                let a = node_at(p0.nodes, i).unwrap()->Mapping_0;
                                let b = node_at(p0.nodes, i).unwrap()->Mapping_1;
                                assert(denotes(p0, a, km));
                                assert(denotes(p0, b, vm));
                            }
                        }
                        return Err(e);
                    },
                };
                let ghost p2 = builder.pools();
                let r = builder.intern_node(SchemaNode::Mapping(key, value));
                proof {
                    assert forall|i: u32| #[trigger] denotes(p0, i, whole@) && kept_within(whole@)
                        implies r == Ok::<u32, TraceError>(i) && builder.pools() == p0 by {
                        let a = node_at(p0.nodes, i).unwrap()->Mapping_0;
                        let b = node_at(p0.nodes, i).unwrap()->Mapping_1;
                        assert(denotes(p0, a, km));
                        assert(denotes(p0, b, vm));
                        assert(node_at(p2.nodes, i) == Some(SchemaNode::Mapping(key, value)));
                    }
                    lemma_extends_trans(p0, p1, p2);
                    lemma_extends_trans(p0, p2, builder.pools());
                    lemma_extends_trans(p1, p2, builder.pools());
                    if r is Ok {
                        lemma_denotes_extend(p1, builder.pools(), key, *whole@->Mapping_0);
                        lemma_denotes_extend(p2, builder.pools(), value, *whole@->Mapping_1);
                    }
                }
                return r;
            },
            SchemaBuilderNode::Sequence(item) => {
                let ghost p0 = builder.pools();
                let ghost im = (*item)@;
                let item = match (*item).build(builder) {
                    Ok(j) => j,
                    Err(e) => {
                        proof {
                            assert forall|i: u32| #[trigger] denotes(p0, i, whole@) && kept_within(whole@) implies false by {
                                let j = node_at(p0.nodes, i).unwrap()->Sequence_0;
                                assert(denotes(p0, j, im));
                            }
                        }
                        return Err(e);
                    },
                };
                let ghost p1 = builder.pools();
                let r = builder.intern_node(SchemaNode::Sequence(item));
                proof {
                    assert forall|i: u32| #[trigger] denotes(p0, i, whole@) && kept_within(whole@)
                        implies r == Ok::<u32, TraceError>(i) && builder.pools() == p0 by {
                        let j = node_at(p0.nodes, i).unwrap()->Sequence_0;
                        assert(denotes(p0, j, im));
                        assert(node_at(p1.nodes, i) == Some(SchemaNode::Sequence(item)));
                    }
                    lemma_extends_trans(p0, p1, builder.pools());
                    if r is Ok {
                        lemma_denotes_extend(p1, builder.pools(), item, *whole@->Sequence_0);
                    }
                }
                return r;
            },
            SchemaBuilderNode::Union(variants) => {
                proof {
                    lemma_models_of(variants);
                    assert(crate::node::size(whole@) == 1 + crate::node::sizes(models_of(variants), variants@.len() as int));
                }
                return build_union(variants, builder);
            },
            SchemaBuilderNode::Record { name, field_names, field_types, skippable, keys } => {
                proof {
                    lemma_models_of(field_types);
                    assert(crate::node::size(whole@) == 1 + crate::node::sizes(models_of(field_types), field_types@.len() as int));
                }
                return build_record(name, field_names, field_types, skippable, keys, builder);
            },
        };
        builder.intern_node(built)
    }
}

} // verus!

verus! {

/// Builds the union of `variants`: the sorted list of their distinct non-empty built nodes, or
/// the only one of them, or the empty union if there is none.
#[verifier::loop_isolation(false)]
#[verifier::rlimit(100)]
fn build_union(variants: Vec<SchemaBuilderNode>, builder: &mut SchemaBuilder) -> (r: Result<u32, TraceError>)
    requires
        old(builder).pools_wf(),
        flat(SchemaBuilderNode::Union(variants)@),
    ensures
        final(builder).pools_wf(),
        final(builder).root == old(builder).root,
        final(builder).names == old(builder).names,
        extends(old(builder).pools(), final(builder).pools()),
        r matches Ok(i) ==> denotes(final(builder).pools(), i, SchemaBuilderNode::Union(variants)@),
        r matches Err(e) ==> build_error(e),
        r is Err ==> pools_full(final(builder).pools()) || !kept_within(SchemaBuilderNode::Union(variants)@),
        grown_by(old(builder).pools(), final(builder).pools(), crate::node::size(SchemaBuilderNode::Union(variants)@) as int),
        r is Ok ==> kept_within(SchemaBuilderNode::Union(variants)@),
        room_for(old(builder).pools(), crate::node::size(SchemaBuilderNode::Union(variants)@) as int)
            && !kept_within(SchemaBuilderNode::Union(variants)@) ==> r == Err::<u32, TraceError>(TraceError::Limit(TraceLimitError(TraceLimitErrorKind::SkippableFields))),
        variants@.len() == 0 ==> r == Ok::<u32, TraceError>(0) && final(builder).pools() == old(builder).pools(),
        forall|i: u32| #[trigger] denotes(old(builder).pools(), i, SchemaBuilderNode::Union(variants)@)
            && kept_within(SchemaBuilderNode::Union(variants)@)
            ==> r == Ok::<u32, TraceError>(i) && final(builder).pools() == old(builder).pools(),
    decreases crate::node::sizes(models_of(variants), variants@.len() as int), 2int,
{
    let ghost orig = variants;
    let ghost ms = models_of(orig);
    let ghost q0 = builder.pools();
    let ghost h = exists|x: u32| #[trigger] denotes(q0, x, NodeModel::Union(ms)) && kept_within(NodeModel::Union(ms));
    proof {
        lemma_models_of(orig);
        lemma_extends_refl(builder.pools());
        assert(SchemaBuilderNode::Union(orig)@ == NodeModel::Union(ms));
    }
    let mut variants = variants;
    let mut ws: Vec<u32> = Vec::new();
    let ghost mut built: Seq<u32> = Seq::empty();
    let mut i: usize = 0;
    while i < variants.len()
        invariant
            0 <= i <= variants@.len(),
            variants@.len() == orig@.len(),
            ms.len() == orig@.len(),
            forall|k: int| 0 <= k < orig@.len() ==> #[trigger] ms[k] == orig@[k]@,
            forall|k: int| i <= k < variants@.len() ==> #[trigger] variants@[k] == orig@[k],
            forall|k: int| 0 <= k < ms.len() ==> !(#[trigger] ms[k] is Union) && flat(ms[k]),
            builder.pools_wf(),
            builder.root == old(builder).root,
            builder.names == old(builder).names,
            extends(old(builder).pools(), builder.pools()),
            built.len() == i,
            forall|k: int| 0 <= k < i ==> denotes(builder.pools(), #[trigger] built[k], ms[k]),
            grown_by(old(builder).pools(), builder.pools(), crate::node::sizes(ms, i as int) as int),
            i == 0 ==> builder.pools() == old(builder).pools(),
            crate::node::size(SchemaBuilderNode::Union(orig)@) == 1 + crate::node::sizes(ms, ms.len() as int),
            strictly_sorted(ws@),
            forall|y: u32| #[trigger] ws@.contains(y) <==> (y != 0 && exists|k: int| 0 <= k < i && built[k] == y),
            q0 == old(builder).pools(),
            h ==> builder.pools() == q0,
            h ==> forall|k: int, idx: u32| 0 <= k < i && #[trigger] denotes(q0, idx, ms[k]) ==> built[k] == idx,
            forall|k: int| 0 <= k < i ==> kept_within(#[trigger] ms[k]),
        decreases variants@.len() - i,
    {
        let mut member = SchemaBuilderNode::empty();
        std::mem::swap(&mut member, &mut variants[i]);
        assert(member == orig@[i as int]);
        proof {
            assert(ms[i as int] == member@);
            assert(flat(ms[i as int]));
            crate::node::lemma_sizes(ms, ms.len() as int, i as int);
        }
        let ghost p0 = builder.pools();
        proof {
            if h {
                let x = choose|x: u32| #[trigger] denotes(q0, x, NodeModel::Union(ms)) && kept_within(NodeModel::Union(ms));
                lemma_member_built(q0, x, ms, i as int);
                assert(kept_within(ms[i as int]));
            }
        }
        let index = match member.build(builder) {
            Ok(index) => index,
            Err(e) => {
                proof {
                    if h {
                        let idx = choose|idx: u32| #[trigger] denotes(q0, idx, ms[i as int]);
                        assert(denotes(p0, idx, member@));
                    }
                    lemma_extends_trans(old(builder).pools(), p0, builder.pools());
                    assert(crate::node::sizes(ms, i + 1) == crate::node::sizes(ms, i as int) + crate::node::size(ms[i as int]));
                    lemma_sizes_prefix(ms, i + 1, ms.len() as int);
                    if !kept_within(ms[i as int]) {
                        assert(SchemaBuilderNode::Union(orig)@ == NodeModel::Union(ms));
                        assert(!kept_within(NodeModel::Union(ms)));
                    }
                }
                return Err(e);
            },
        };
        proof {
            if h {
                let idx = choose|idx: u32| #[trigger] denotes(q0, idx, ms[i as int]);
                assert(denotes(p0, idx, member@));
                assert(builder.pools() == q0);
            }
            lemma_extends_trans(old(builder).pools(), p0, builder.pools());
            assert(crate::node::sizes(ms, i + 1) == crate::node::sizes(ms, i as int) + crate::node::size(ms[i as int]));
            assert forall|k: int| 0 <= k < i implies denotes(builder.pools(), #[trigger] built[k], ms[k]) by {
                lemma_denotes_extend(p0, builder.pools(), built[k], ms[k]);
            }
        }
        let ghost ws_before = ws@;
        if index != 0 {
            insert_sorted(&mut ws, index);
        }
        proof {
            let b2 = built.push(index);
            assert forall|y: u32| #[trigger] ws@.contains(y) <==> (y != 0 && exists|k: int| 0 <= k < i + 1 && b2[k] == y) by {
                if ws@.contains(y) {
                    if y == index && index != 0 {
                        assert(b2[i as int] == y);
                    } else {
                        assert(ws_before.contains(y));
                        let k = choose|k: int| 0 <= k < i && built[k] == y;
                        assert(b2[k] == y);
                    }
                }
                if y != 0 && exists|k: int| 0 <= k < i + 1 && b2[k] == y {
                    let k = choose|k: int| 0 <= k < i + 1 && b2[k] == y;
                    if k < i {
                        assert(built[k] == y);
                        assert(ws_before.contains(y));
                    }
                }
            }
            if h {
                assert forall|k: int, idx: u32| 0 <= k < i + 1 && #[trigger] denotes(q0, idx, ms[k]) implies b2[k] == idx by {
                    if k == i {
                        assert(denotes(p0, idx, member@));
                    } else {
                        assert(b2[k] == built[k]);
                    }
                }
            }
            built = b2;
        }
        i += 1;
    }
    let ghost p = builder.pools();
    proof {
        if h {
            assert forall|x: u32| #[trigger] denotes(q0, x, NodeModel::Union(ms)) && kept_within(NodeModel::Union(ms))
                implies variants_of(q0, x) == ws@ by {
                lemma_union_rebuilt(q0, x, ms, built, ws@);
            }
        }
    }
    proof {
        assert forall|k: int| 0 <= k < ms.len() implies member_in(p, ws@, #[trigger] ms[k], ws@.len() as int) by {
            if built[k] == 0 {
                lemma_member_in_zero(p, ws@, ms[k], ws@.len() as int);
            } else {
                assert(ws@.contains(built[k]));
                let j = choose|j: int| 0 <= j < ws@.len() && ws@[j] == built[k];
                lemma_member_in_at(p, ws@, ms[k], ws@.len() as int, j);
            }
        }
        lemma_all_members_intro(p, ws@, ms, ms.len() as int);
        assert forall|j: int| 0 <= j < ws@.len() implies variant_from(p, #[trigger] ws@[j], ms, ms.len() as int) by {
            assert(ws@.contains(ws@[j]));
            let k = choose|k: int| 0 <= k < i && built[k] == ws@[j];
            lemma_variant_from_at(p, ws@[j], ms, ms.len() as int, k);
        }
        lemma_all_variants_intro(p, ws@, ms, ws@.len() as int);
        assert(SchemaBuilderNode::Union(orig)@ == NodeModel::Union(ms));
    }
    if ws.len() == 1 {
        let w = ws[0];
        proof {
            assert(ws@.contains(w));
            let k = choose|k: int| 0 <= k < i && built[k] == w;
            lemma_not_union_node(p, w, ms[k]);
            assert(variants_of(p, w) =~= ws@);
            if h {
                assert forall|x: u32| #[trigger] denotes(q0, x, NodeModel::Union(ms)) && kept_within(NodeModel::Union(ms))
                    implies w == x by {
                    assert(variants_of(q0, x) == ws@);
                    if x == 0 {
                        assert(variants_of(q0, x).len() == 0);
                    } else if node_at(q0.nodes, x) matches Some(SchemaNode::Union(_)) {
                        assert(variants_of(q0, x).len() >= 2);
                    } else {
                        assert(variants_of(q0, x) == seq![x]);
                    }
                }
            }
        }
        return Ok(w);
    }
    if ws.len() > 0xffff_ffffusize {
        proof {
            assert forall|k: int| 0 <= k < ws@.len() implies 1 <= #[trigger] ws@[k] <= p.nodes.len() by {
                assert(ws@.contains(ws@[k]));
                let j = choose|j: int| 0 <= j < i && built[j] == ws@[k];
                lemma_not_union_node(p, ws@[k], ms[j]);
            }
            lemma_sorted_indices_len(ws@, p.nodes.len() as int);
            lemma_sorted_indices_len(ws@, u32::MAX as int);
        }
        return Err(limit(TraceLimitErrorKind::UnionVariants));
    }
    let ghost wsv = ws@;
    proof {
        if h {
            assert forall|x: u32| #[trigger] denotes(q0, x, NodeModel::Union(ms)) && kept_within(NodeModel::Union(ms))
                implies (x == 0 && wsv.len() == 0) || (node_at(q0.nodes, x) matches Some(SchemaNode::Union(l))
                    && list_at(q0.lists, l) == Some(wsv)) by {
                assert(variants_of(q0, x) == wsv);
                if x != 0 && !(node_at(q0.nodes, x) matches Some(SchemaNode::Union(_))) {
                    assert(variants_of(q0, x) == seq![x]);
                }
            }
        }
    }
    let list = match builder.intern_list(ws) {
        Ok(list) => list,
        Err(e) => {
            proof {
                lemma_extends_trans(old(builder).pools(), p, builder.pools());
                if h {
                    let x = choose|x: u32| #[trigger] denotes(q0, x, NodeModel::Union(ms)) && kept_within(NodeModel::Union(ms));
                    if x != 0 || wsv.len() != 0 {
                        let l = node_at(q0.nodes, x).unwrap()->Union_0;
                        assert(list_at(p.lists, l) == Some(wsv));
                    }
                }
            }
            return Err(e);
        },
    };
    let ghost p1 = builder.pools();
    let r = builder.intern_node(SchemaNode::Union(list));
    proof {
        if h {
            assert forall|x: u32| #[trigger] denotes(q0, x, NodeModel::Union(ms)) && kept_within(NodeModel::Union(ms))
                implies r == Ok::<u32, TraceError>(x) && builder.pools() == q0 by {
                if x == 0 && wsv.len() == 0 {
                    assert(list == 0);
                } else {
                    let l = node_at(q0.nodes, x).unwrap()->Union_0;
                    assert(list_at(p.lists, l) == Some(wsv));
                    assert(list == l);
                    assert(node_at(p1.nodes, x) == Some(SchemaNode::Union(list)));
                }
            }
        }
        lemma_extends_trans(p, p1, builder.pools());
        lemma_extends_trans(old(builder).pools(), p, builder.pools());
        if let Ok(index) = r {
            let q = builder.pools();
            lemma_all_members_extend(p, q, wsv, ms, ms.len() as int);
            lemma_all_variants_extend(p, q, wsv, ms, wsv.len() as int);
            lemma_list_at_extend(p1, q, list);
            if wsv.len() == 0 {
                assert(index == 0);
                assert(variants_of(q, index) =~= wsv);
            } else {
                assert(list != 0);
                assert(index != 0);
                assert(variants_of(q, index) =~= wsv);
            }
        }
    }
    r
}

/// Builds a record: its field types, then its node, with the list of the skippable fields whose
/// type is not the empty union for structs; a struct that no successful trace completed is the
/// empty union.
#[verifier::loop_isolation(false)]
fn build_record(
    name: Option<TypeName>,
    field_names: Option<u32>,
    field_types: Vec<SchemaBuilderNode>,
    skippable: Vec<u32>,
    keys: Option<crate::node::StructKeys>,
    builder: &mut SchemaBuilder,
) -> (r: Result<u32, TraceError>)
    requires
        old(builder).pools_wf(),
        flat((SchemaBuilderNode::Record { name, field_names, field_types, skippable, keys })@),
    ensures
        final(builder).pools_wf(),
        final(builder).root == old(builder).root,
        final(builder).names == old(builder).names,
        extends(old(builder).pools(), final(builder).pools()),
        r matches Ok(i) ==> denotes(final(builder).pools(), i,
            (SchemaBuilderNode::Record { name, field_names, field_types, skippable, keys })@),
        r matches Err(e) ==> build_error(e),
        r is Err ==> pools_full(final(builder).pools())
            || !kept_within((SchemaBuilderNode::Record { name, field_names, field_types, skippable, keys })@),
        grown_by(old(builder).pools(), final(builder).pools(),
            crate::node::size((SchemaBuilderNode::Record { name, field_names, field_types, skippable, keys })@) as int),
        r is Ok ==> kept_within((SchemaBuilderNode::Record { name, field_names, field_types, skippable, keys })@),
        room_for(old(builder).pools(), crate::node::size((SchemaBuilderNode::Record { name, field_names, field_types, skippable, keys })@) as int)
            && !kept_within((SchemaBuilderNode::Record { name, field_names, field_types, skippable, keys })@) ==> r == Err::<u32, TraceError>(TraceError::Limit(TraceLimitError(TraceLimitErrorKind::SkippableFields))),
        keys is Some && field_names is None ==> r == Ok::<u32, TraceError>(0) && final(builder).pools() == old(builder).pools(),
        field_names is Some && r is Ok ==> (node_at(final(builder).nodes@, r->Ok_0) matches Some(n)
            && list_at(final(builder).member_lists@, record_lists(n).1) matches Some(kl) && kl.len() <= 64),
        forall|i: u32| #[trigger] denotes(old(builder).pools(), i,
            (SchemaBuilderNode::Record { name, field_names, field_types, skippable, keys })@)
            && kept_within((SchemaBuilderNode::Record { name, field_names, field_types, skippable, keys })@)
            ==> r == Ok::<u32, TraceError>(i) && final(builder).pools() == old(builder).pools(),
    decreases crate::node::sizes(models_of(field_types), field_types@.len() as int), 2int,
{
    let ghost whole = SchemaBuilderNode::Record { name, field_names, field_types, skippable, keys };
    let ghost q0 = builder.pools();
    let ghost h = exists|x: u32| #[trigger] denotes(q0, x, whole@) && kept_within(whole@);
    if keys.is_some() && field_names.is_none() {
        let r = builder.intern_node(SchemaNode::Union(0));
        return r;
    }
    let ghost orig = field_types;
    let ghost ts = models_of(orig);
    proof {
        lemma_models_of(orig);
        lemma_extends_refl(builder.pools());
        assert(whole@ == NodeModel::Record {
            name,
            field_names,
            field_types: ts,
            skippable: skippable@,
            keys: crate::node::keys_opt_model(keys),
        });
        let wm = NodeModel::Record {
            name,
            field_names,
            field_types: ts,
            skippable: skippable@,
            keys: crate::node::keys_opt_model(keys),
        };
        assert(flat(wm));
        assert(wm->field_types == ts);
        assert(wm->skippable == skippable@);
        assert(forall|k: int| 0 <= k < ts.len() ==> flat(#[trigger] ts[k]));
        assert(forall|k: int| 0 <= k < skippable@.len() ==> #[trigger] skippable@[k] < ts.len());
    }
    let mut field_types = field_types;
    let mut built: Vec<u32> = Vec::new();
    let mut i: usize = 0;
    while i < field_types.len()
        invariant
            0 <= i <= field_types@.len(),
            field_types@.len() == orig@.len(),
            ts.len() == orig@.len(),
            forall|k: int| 0 <= k < orig@.len() ==> #[trigger] ts[k] == orig@[k]@,
            forall|k: int| i <= k < field_types@.len() ==> #[trigger] field_types@[k] == orig@[k],
            forall|k: int| 0 <= k < ts.len() ==> flat(#[trigger] ts[k]),
            builder.pools_wf(),
            builder.root == old(builder).root,
            builder.names == old(builder).names,
            extends(old(builder).pools(), builder.pools()),
            built@.len() == i,
            forall|k: int| 0 <= k < i ==> denotes(builder.pools(), #[trigger] built@[k], ts[k]),
            grown_by(old(builder).pools(), builder.pools(), crate::node::sizes(ts, i as int) as int),
            crate::node::size(whole@) == 1 + crate::node::sizes(ts, ts.len() as int),
            q0 == old(builder).pools(),
            h ==> builder.pools() == q0,
            h ==> forall|k: int, idx: u32| 0 <= k < i && #[trigger] denotes(q0, idx, ts[k]) ==> built@[k] == idx,
            forall|k: int| 0 <= k < i ==> kept_within(#[trigger] ts[k]),
        decreases field_types@.len() - i,
    {
        let mut field = SchemaBuilderNode::empty();
        std::mem::swap(&mut field, &mut field_types[i]);
        assert(field == orig@[i as int]);
        proof {
            assert(ts[i as int] == field@);
            assert(flat(ts[i as int]));
            crate::node::lemma_sizes(ts, ts.len() as int, i as int);
        }
        let ghost p0 = builder.pools();
        proof {
            if h {
                let x = choose|x: u32| #[trigger] denotes(q0, x, whole@) && kept_within(whole@);
                let ls = list_at(q0.lists, record_lists(node_at(q0.nodes, x).unwrap()).0).unwrap();
                lemma_fields_elim(q0, ls, ts, ts.len() as int, i as int);
                assert(denotes(p0, ls[i as int], field@));
                assert(kept_within(ts[i as int]));
            }
        }
        let index = match field.build(builder) {
            Ok(index) => index,
            Err(e) => {
                proof {
                    lemma_extends_trans(old(builder).pools(), p0, builder.pools());
                    assert(crate::node::sizes(ts, i + 1) == crate::node::sizes(ts, i as int) + crate::node::size(ts[i as int]));
                    lemma_sizes_prefix(ts, i + 1, ts.len() as int);
                    if !kept_within(ts[i as int]) {
                        assert(!kept_within(whole@));
                    }
                }
                return Err(e);
            },
        };
        proof {
            lemma_extends_trans(old(builder).pools(), p0, builder.pools());
            assert(crate::node::sizes(ts, i + 1) == crate::node::sizes(ts, i as int) + crate::node::size(ts[i as int]));
            assert forall|k: int| 0 <= k < i implies denotes(builder.pools(), #[trigger] built@[k], ts[k]) by {
                lemma_denotes_extend(p0, builder.pools(), built@[k], ts[k]);
            }
        }
        let ghost built_before = built@;
        built.push(index);
        proof {
            if h {
                assert(builder.pools() == q0);
                assert forall|k: int, idx: u32| 0 <= k < i + 1 && #[trigger] denotes(q0, idx, ts[k]) implies built@[k] == idx by {
                    if k == i {
                        assert(denotes(p0, idx, field@));
                    } else {
                        assert(built@[k] == built_before[k]);
                    }
                }
            }
        }
        i += 1;
    }
    let ghost p = builder.pools();
    let ghost types = built@;
    proof {
        lemma_fields_intro(p, types, ts, ts.len() as int);
    }
    // Fields whose type is the empty union are always skipped, not skippable.
    let mut kept_fields: Vec<u32> = Vec::new();
    let mut j: usize = 0;
    while j < skippable.len()
        invariant
            0 <= j <= skippable@.len(),
            built@ == types,
            types.len() == ts.len(),
            forall|k: int| 0 <= k < skippable@.len() ==> #[trigger] skippable@[k] < types.len(),
            kept_fields@ == kept(skippable@, types, j as int),
        decreases skippable@.len() - j,
    {
        let field = skippable[j];
        if built[field as usize] != 0 {
            kept_fields.push(field);
        }
        j += 1;
    }
    proof {
        if h {
            assert forall|x: u32| #[trigger] denotes(q0, x, whole@) && kept_within(whole@) implies ({
                let n = node_at(q0.nodes, x).unwrap();
                &&& n == record_node(name, field_names, record_lists(n).0, record_lists(n).1)
                &&& list_at(q0.lists, record_lists(n).0) == Some(types)
                &&& field_names is Some ==> list_at(q0.members, record_lists(n).1) == Some(kept_fields@)
            }) by {
                let n = node_at(q0.nodes, x).unwrap();
                let ls = list_at(q0.lists, record_lists(n).0).unwrap();
                assert forall|k: int| 0 <= k < ts.len() implies #[trigger] ls[k] == types[k] by {
                    lemma_fields_elim(q0, ls, ts, ts.len() as int, k);
                }
                assert(ls =~= types);
            }
        }
    }
    proof {
        assert forall|k: int| 0 <= k < ts.len() implies (#[trigger] types[k] == 0 <==> empty_type(ts[k])) by {
            lemma_empty_index(p, types[k], ts[k]);
        }
        lemma_kept_count(skippable@, types, ts, skippable@.len() as int);
    }
    if kept_fields.len() > MAX_SKIPPABLE_FIELDS {
        proof {
            assert(!kept_within(whole@));
        }
        return Err(limit(TraceLimitErrorKind::SkippableFields));
    }
    let list = match builder.intern_list(built) {
        Ok(list) => list,
        Err(e) => {
            proof {
                lemma_extends_trans(old(builder).pools(), p, builder.pools());
            }
            return Err(e);
        },
    };
    let ghost p1 = builder.pools();
    let ghost kept_model = kept_fields@;
    let node = match (name, field_names) {
        (Some(TypeName(name, None)), None) => SchemaNode::TupleStruct(name, list),
        (Some(TypeName(name, Some(variant))), None) => SchemaNode::TupleVariant(name, variant, list),
        (Some(TypeName(name, None)), Some(field_names)) => {
            let skip = match builder.intern_members(kept_fields) {
                Ok(skip) => skip,
                Err(e) => {
                    proof {
                        lemma_extends_trans(old(builder).pools(), p, p1);
                        lemma_extends_trans(old(builder).pools(), p1, builder.pools());
                    }
                    return Err(e);
                },
            };
            SchemaNode::Struct(name, field_names, skip, list)
        },
        (Some(TypeName(name, Some(variant))), Some(field_names)) => {
            let skip = match builder.intern_members(kept_fields) {
                Ok(skip) => skip,
                Err(e) => {
                    proof {
                        lemma_extends_trans(old(builder).pools(), p, p1);
                        lemma_extends_trans(old(builder).pools(), p1, builder.pools());
                    }
                    return Err(e);
                },
            };
            SchemaNode::StructVariant(name, variant, field_names, skip, list)
        },
        (None, _) => SchemaNode::Tuple(list),
    };
    let ghost p2 = builder.pools();
    let r = builder.intern_node(node);
    proof {
        let q = builder.pools();
        lemma_extends_trans(old(builder).pools(), p, p1);
        lemma_extends_trans(old(builder).pools(), p1, p2);
        lemma_extends_trans(old(builder).pools(), p2, q);
        lemma_extends_trans(p, p1, p2);
        lemma_extends_trans(p, p2, q);
        lemma_extends_trans(p1, p2, q);
        if let Ok(index) = r {
            lemma_fields_extend(p, q, types, ts, ts.len() as int);
            lemma_list_at_extend(p1, q, list);
            let (l2, s2) = record_lists(node);
            assert(l2 == list);
            lemma_list_at_extend(p2, q, s2);
            assert(whole@ == NodeModel::Record {
                name,
                field_names,
                field_types: ts,
                skippable: skippable@,
                keys: crate::node::keys_opt_model(keys),
            });
        }
    }
    r
}

} // verus!

verus! {

/// The contents of the pools of a built schema.
pub open spec fn schema_pools(s: Schema) -> PoolsModel {
    PoolsModel { nodes: s.node_keys(), lists: s.spec_node_lists(), members: s.spec_member_lists() }
}

impl SchemaBuilder {
    /// Converts the recorded types into a schema that describes the traces recorded so far.
    pub fn build(self) -> (r: Result<Schema, TraceError>)
        requires
            self.wf(),
        ensures
            r matches Ok(s) ==> {
                &&& s.wf()
                &&& denotes(schema_pools(s), s.root_index, self.root@)
                &&& extends(self.pools(), schema_pools(s))
                &&& s.field_names.values@.len() == self.names.field_names@.len()
                &&& forall|i: int| 0 <= i < self.names.field_names@.len()
                    ==> #[trigger] s.field_names.values@[i]@ == self.names.field_names@[i]
                &&& s.variant_names.values@.len() == self.names.variant_names@.len()
                &&& forall|i: int| 0 <= i < self.names.variant_names@.len()
                    ==> #[trigger] s.variant_names.values@[i]@ == self.names.variant_names@[i]
                &&& s.type_names.values@.len() == self.names.type_names@.len()
                &&& forall|i: int| 0 <= i < self.names.type_names@.len()
                    ==> #[trigger] s.type_names.values@[i]@ == self.names.type_names@[i]
                &&& vec_lists(s.field_name_lists.values@) == self.names.field_name_lists@
            },
            r matches Err(e) ==> build_error(e),
            room_for(self.pools(), crate::node::size(self.root@) as int) && kept_within(self.root@) ==> r is Ok,
            room_for(self.pools(), crate::node::size(self.root@) as int) && !kept_within(self.root@)
                ==> r == Err::<Schema, TraceError>(TraceError::Limit(TraceLimitError(TraceLimitErrorKind::SkippableFields))),
            r is Ok ==> kept_within(self.root@),
            self.root@ == crate::node::bottom() ==> (r matches Ok(s) && s.root_index == 0 && schema_pools(s) == self.pools()),
    {
        let mut builder = self;
        let mut root = SchemaBuilderNode::empty();
        std::mem::swap(&mut root, &mut builder.root);
        let ghost before = builder.pools();
        let root_index = match root.build(&mut builder) {
            Ok(index) => index,
            Err(e) => return Err(e),
        };
        let ghost after = builder.pools();
        let SchemaBuilder { root: _, nodes, node_lists, member_lists, names } = builder;
        let Names { field_name_lists, field_names, variant_names, type_names, skipped: _ } = names;
        let schema = Schema {
            root_index,
            nodes: nodes.into_readonly(),
            node_lists: node_lists.into_readonly(),
            member_lists: member_lists.into_readonly(),
            field_name_lists: field_name_lists.into_readonly_nonempty(),
            field_names: field_names.into_readonly(),
            variant_names: variant_names.into_readonly(),
            type_names: type_names.into_readonly(),
        };
        proof {
            assert(schema.node_keys() =~= after.nodes);
            assert(schema.spec_node_lists() =~= after.lists);
            assert(schema.spec_member_lists() =~= after.members);
            assert(schema_pools(schema) == after);
            assert(vec_lists(schema.field_name_lists.values@) =~= self.names.field_name_lists@);
        }
        Ok(schema)
    }
}

} // verus!

verus! {

/// The bytes of one traced value, as tracing appends them.
pub struct Trace(pub Vec<u8>);

impl SchemaBuilder {
    /// Gets the builder ready to trace a value: forgets the skipped fields a failed trace may have
    /// left behind.
    pub fn begin_trace(&mut self) -> (r: Vec<u8>)
        requires
            old(self).wf(),
        ensures
            final(self).wf(),
            final(self).names.skipped@ == Seq::<u32>::empty(),
            final(self).root == old(self).root,
            final(self).pools() == old(self).pools(),
            final(self).names.type_names == old(self).names.type_names,
            final(self).names.variant_names == old(self).names.variant_names,
            final(self).names.field_names == old(self).names.field_names,
            final(self).names.field_name_lists == old(self).names.field_name_lists,
            r@ == Seq::<u8>::empty(),
    {
        self.names.skipped.clear();
        Vec::new()
    }
}

/// Tracing a value only ever adds to what the schema describes: what each step keeps, the whole
/// trace keeps.
pub proof fn law_grows_trans(a: NodeModel, b: NodeModel, c: NodeModel)
    requires
        crate::tracer::grows(a, b),
        crate::tracer::grows(b, c),
    ensures
        crate::tracer::grows(a, c),
{
}

} // verus!
