//! The schema under construction: nodes that tracing merges each value's type into.

use vstd::prelude::*;
use crate::indices::{FieldNameListIndex, MemberIndex, TypeName};
use crate::sorted::sorted_union;

verus! {

/// The `&'static str` names of a traced struct or struct variant.
#[derive(Debug)]
pub struct StructKeys {
    pub name: &'static str,
    pub variant: Option<&'static str>,
    pub fields: Vec<&'static str>,
}

/// A node of the schema under construction.
#[derive(Debug)]
pub enum SchemaBuilderNode {
    Bool,
    I8,
    I16,
    I32,
    I64,
    I128,
    U8,
    U16,
    U32,
    U64,
    U128,
    F32,
    F64,
    Char,
    String,
    Bytes,
    OptionNone,
    OptionSome(Box<SchemaBuilderNode>),
    Unit(Option<TypeName>),
    Newtype(TypeName, Box<SchemaBuilderNode>),
    Mapping(Box<SchemaBuilderNode>, Box<SchemaBuilderNode>),
    Sequence(Box<SchemaBuilderNode>),
    /// The types of values that did not unify with one another; empty before anything is
    /// recorded (the bottom type).
    Union(Vec<SchemaBuilderNode>),
    /// Tuple, tuple struct, tuple variant, struct or struct variant.
    Record {
        name: Option<TypeName>,
        field_names: Option<FieldNameListIndex>,
        field_types: Vec<SchemaBuilderNode>,
        skippable: Vec<MemberIndex>,
        /// The names of a struct (`None` for tuples), kept alongside `name` and `field_names` so
        /// tracing can match a value to a recorded struct without interning them.
        keys: Option<StructKeys>,
    },
}

/// The mathematical model of [`StructKeys`].
pub struct KeysModel {
    pub name: Seq<char>,
    pub variant: Option<Seq<char>>,
    pub fields: Seq<Seq<char>>,
}

/// The mathematical model of [`SchemaBuilderNode`]: the same tree, with sequences for vectors.
pub enum NodeModel {
    Bool,
    I8,
    I16,
    I32,
    I64,
    I128,
    U8,
    U16,
    U32,
    U64,
    U128,
    F32,
    F64,
    Char,
    String,
    Bytes,
    OptionNone,
    OptionSome(Box<NodeModel>),
    Unit(Option<TypeName>),
    Newtype(TypeName, Box<NodeModel>),
    Mapping(Box<NodeModel>, Box<NodeModel>),
    Sequence(Box<NodeModel>),
    Union(Seq<NodeModel>),
    Record {
        name: Option<TypeName>,
        field_names: Option<FieldNameListIndex>,
        field_types: Seq<NodeModel>,
        skippable: Seq<MemberIndex>,
        keys: Option<KeysModel>,
    },
}

pub open spec fn str_models(s: Seq<&'static str>) -> Seq<Seq<char>> {
    Seq::new(s.len(), |i: int| s[i]@)
}

pub open spec fn keys_model(k: StructKeys) -> KeysModel {
    KeysModel {
        name: k.name@,
        variant: match k.variant {
            Some(v) => Some(v@),
            None => None,
        },
        fields: str_models(k.fields@),
    }
}

pub open spec fn keys_opt_model(k: Option<StructKeys>) -> Option<KeysModel> {
    match k {
        Some(k) => Some(keys_model(k)),
        None => None,
    }
}

impl View for StructKeys {
    type V = KeysModel;

    open spec fn view(&self) -> KeysModel {
        keys_model(*self)
    }
}

/// The model of a node.
pub open spec fn model(n: SchemaBuilderNode) -> NodeModel
    decreases n, 0int,
{
    match n {
        SchemaBuilderNode::Bool => NodeModel::Bool,
        SchemaBuilderNode::I8 => NodeModel::I8,
        SchemaBuilderNode::I16 => NodeModel::I16,
        SchemaBuilderNode::I32 => NodeModel::I32,
        SchemaBuilderNode::I64 => NodeModel::I64,
        SchemaBuilderNode::I128 => NodeModel::I128,
        SchemaBuilderNode::U8 => NodeModel::U8,
        SchemaBuilderNode::U16 => NodeModel::U16,
        SchemaBuilderNode::U32 => NodeModel::U32,
        SchemaBuilderNode::U64 => NodeModel::U64,
        SchemaBuilderNode::U128 => NodeModel::U128,
        SchemaBuilderNode::F32 => NodeModel::F32,
        SchemaBuilderNode::F64 => NodeModel::F64,
        SchemaBuilderNode::Char => NodeModel::Char,
        SchemaBuilderNode::String => NodeModel::String,
        SchemaBuilderNode::Bytes => NodeModel::Bytes,
        SchemaBuilderNode::OptionNone => NodeModel::OptionNone,
        SchemaBuilderNode::OptionSome(inner) => NodeModel::OptionSome(Box::new(model(*inner))),
        SchemaBuilderNode::Unit(name) => NodeModel::Unit(name),
        SchemaBuilderNode::Newtype(name, inner) => NodeModel::Newtype(name, Box::new(model(*inner))),
        SchemaBuilderNode::Mapping(k, v) => NodeModel::Mapping(Box::new(model(*k)), Box::new(model(*v))),
        SchemaBuilderNode::Sequence(item) => NodeModel::Sequence(Box::new(model(*item))),
        SchemaBuilderNode::Union(members) => NodeModel::Union(models(members, members@.len() as int)),
        SchemaBuilderNode::Record { name, field_names, field_types, skippable, keys } => NodeModel::Record {
            name,
            field_names,
            field_types: models(field_types, field_types@.len() as int),
            skippable: skippable@,
            keys: keys_opt_model(keys),
        },
    }
}

/// The models of the first `k` nodes of `v`.
pub open spec fn models(v: Vec<SchemaBuilderNode>, k: int) -> Seq<NodeModel>
    decreases v, k,
{
    if k <= 0 || k > v@.len() {
        Seq::empty()
    } else {
        models(v, k - 1).push(model(v@[k - 1]))
    }
}


pub proof fn lemma_models(v: Vec<SchemaBuilderNode>, k: int)
    requires
        0 <= k <= v@.len(),
    ensures
        models(v, k).len() == k,
        forall|i: int| 0 <= i < k ==> #[trigger] models(v, k)[i] == model(v@[i]),
    decreases k,
{
    if k > 0 {
        lemma_models(v, k - 1);
    }
}

/// The models of all the nodes of `v`.
pub open spec fn models_of(v: Vec<SchemaBuilderNode>) -> Seq<NodeModel> {
    models(v, v@.len() as int)
}

pub proof fn lemma_models_of(v: Vec<SchemaBuilderNode>)
    ensures
        models_of(v).len() == v@.len(),
        forall|i: int| 0 <= i < v@.len() ==> #[trigger] models_of(v)[i] == model(v@[i]),
{
    lemma_models(v, v@.len() as int);
}

impl View for SchemaBuilderNode {
    type V = NodeModel;

    open spec fn view(&self) -> NodeModel {
        model(*self)
    }
}

/// The number of nodes in a tree.
pub open spec fn size(m: NodeModel) -> nat
    decreases m, 0int,
{
    match m {
        NodeModel::OptionSome(inner) => 1 + size(*inner),
        NodeModel::Newtype(_, inner) => 1 + size(*inner),
        NodeModel::Mapping(k, v) => 1 + size(*k) + size(*v),
        NodeModel::Sequence(item) => 1 + size(*item),
        NodeModel::Union(ms) => 1 + sizes(ms, ms.len() as int),
        NodeModel::Record { field_types, .. } => 1 + sizes(field_types, field_types.len() as int),
        _ => 1,
    }
}

/// The total number of nodes in the first `k` trees of `s`.
pub open spec fn sizes(s: Seq<NodeModel>, k: int) -> nat
    decreases s, k,
{
    if k <= 0 || k > s.len() {
        0
    } else {
        sizes(s, k - 1) + size(s[k - 1])
    }
}

pub proof fn lemma_sizes(s: Seq<NodeModel>, k: int, i: int)
    requires
        0 <= i < k <= s.len(),
    ensures
        size(s[i]) <= sizes(s, k),
    decreases k,
{
    if i < k - 1 {
        lemma_sizes(s, k - 1, i);
    }
}

/// Whether a node has no children: a scalar, unit or `None`.
pub open spec fn is_leaf(m: NodeModel) -> bool {
    match m {
        NodeModel::OptionSome(_) | NodeModel::Newtype(_, _) | NodeModel::Mapping(_, _)
        | NodeModel::Sequence(_) | NodeModel::Union(_) | NodeModel::Record { .. } => false,
        _ => true,
    }
}

/// The shape of a traced value, as far as the schema records it.
pub enum ValueShape {
    /// A scalar, unit or `None`: described by exactly this leaf node.
    Leaf(NodeModel),
    Present(Box<ValueShape>),
    Newtype(TypeName, Box<ValueShape>),
    Mapping(Seq<ValueShape>, Seq<ValueShape>),
    Sequence(Seq<ValueShape>),
    /// A tuple or struct; `None` fields were skipped.
    Record {
        name: Option<TypeName>,
        field_names: Option<FieldNameListIndex>,
        fields: Seq<Option<ValueShape>>,
    },
}

/// Whether the schema node `n` describes values of shape `v`.
pub open spec fn describes(n: NodeModel, v: ValueShape) -> bool
    decreases v, n, 0int,
{
    match n {
        NodeModel::Union(ms) => any_describes(ms, v, ms.len() as int),
        NodeModel::OptionSome(inner) => match v {
            ValueShape::Present(x) => describes(*inner, *x),
            _ => false,
        },
        NodeModel::Newtype(name, inner) => match v {
            ValueShape::Newtype(vname, x) => name == vname && describes(*inner, *x),
            _ => false,
        },
        NodeModel::Mapping(k, val) => match v {
            ValueShape::Mapping(ks, vs) => {
                &&& ks.len() == vs.len()
                &&& all_described(*k, ks, ks.len() as int)
                &&& all_described(*val, vs, vs.len() as int)
            },
            _ => false,
        },
        NodeModel::Sequence(item) => match v {
            ValueShape::Sequence(xs) => all_described(*item, xs, xs.len() as int),
            _ => false,
        },
        NodeModel::Record { name, field_names, field_types, skippable, .. } => match v {
            ValueShape::Record { name: vname, field_names: vfield_names, fields } => {
                &&& name == vname
                &&& field_names == vfield_names
                &&& fields.len() == field_types.len()
                &&& fields_described(field_types, skippable, fields, fields.len() as int)
            },
            _ => false,
        },
        _ => v == ValueShape::Leaf(n),
    }
}

/// Whether one of the first `k` nodes of `ms` describes `v`.
pub open spec fn any_describes(ms: Seq<NodeModel>, v: ValueShape, k: int) -> bool
    decreases v, ms, k,
{
    if k <= 0 || k > ms.len() {
        false
    } else {
        any_describes(ms, v, k - 1) || describes(ms[k - 1], v)
    }
}

/// Whether `item` describes each of the first `k` values of `xs`.
pub open spec fn all_described(item: NodeModel, xs: Seq<ValueShape>, k: int) -> bool
    decreases xs, item, k,
{
    if k <= 0 || k > xs.len() {
        true
    } else {
        all_described(item, xs, k - 1) && describes(item, xs[k - 1])
    }
}

/// Whether each of the first `k` fields is described by its type, or skipped where that is
/// allowed.
pub open spec fn fields_described(
    types: Seq<NodeModel>,
    skippable: Seq<u32>,
    fields: Seq<Option<ValueShape>>,
    k: int,
) -> bool
    decreases fields, types, k,
{
    if k <= 0 || k > fields.len() || k > types.len() {
        true
    } else {
        fields_described(types, skippable, fields, k - 1) && match fields[k - 1] {
            Option::Some(x) => describes(types[k - 1], x),
            Option::None => skippable.contains((k - 1) as u32),
        }
    }
}

pub proof fn lemma_any_describes(ms: Seq<NodeModel>, v: ValueShape, k: int)
    requires
        0 <= k <= ms.len(),
    ensures
        any_describes(ms, v, k) == exists|i: int| 0 <= i < k && #[trigger] describes(ms[i], v),
    decreases k,
{
    if k > 0 {
        lemma_any_describes(ms, v, k - 1);
        if describes(ms[k - 1], v) {
            assert(describes(ms[k - 1], v));
        }
    }
}

pub proof fn lemma_all_described(item: NodeModel, xs: Seq<ValueShape>, k: int)
    requires
        0 <= k <= xs.len(),
    ensures
        all_described(item, xs, k) == forall|i: int| 0 <= i < k ==> #[trigger] describes(item, xs[i]),
    decreases k,
{
    if k > 0 {
        lemma_all_described(item, xs, k - 1);
        if all_described(item, xs, k) {
            assert forall|i: int| 0 <= i < k implies #[trigger] describes(item, xs[i]) by {
                if i == k - 1 {
                    assert(describes(item, xs[k - 1]));
                }
            }
        }
        if forall|i: int| 0 <= i < k ==> #[trigger] describes(item, xs[i]) {
            assert(describes(item, xs[k - 1]));
        }
    }
}

/// Whether field `i` is described by its type, or skipped where that is allowed.
pub open spec fn field_described(types: Seq<NodeModel>, skippable: Seq<u32>, f: Option<ValueShape>, i: int) -> bool {
    match f {
        Option::Some(x) => describes(types[i], x),
        Option::None => skippable.contains(i as u32),
    }
}

pub proof fn lemma_fields_described(types: Seq<NodeModel>, skippable: Seq<u32>, fields: Seq<Option<ValueShape>>, k: int)
    requires
        0 <= k <= fields.len(),
        fields.len() == types.len(),
    ensures
        fields_described(types, skippable, fields, k)
            == forall|i: int| 0 <= i < k ==> #[trigger] field_described(types, skippable, fields[i], i),
    decreases k,
{
    if k > 0 {
        lemma_fields_described(types, skippable, fields, k - 1);
        let last = field_described(types, skippable, fields[k - 1], k - 1);
        if let Option::Some(x) = fields[k - 1] {
            assert(last == describes(types[k - 1], x));
        }
        if fields_described(types, skippable, fields, k) {
            assert forall|i: int| 0 <= i < k implies #[trigger] field_described(types, skippable, fields[i], i) by {
                if i == k - 1 {
                    assert(last);
                }
            }
        }
        if forall|i: int| 0 <= i < k ==> #[trigger] field_described(types, skippable, fields[i], i) {
            assert(last);
        }
    }
}

/// Whether `n` describes every value that `m` describes.
pub open spec fn subsumes(n: NodeModel, m: NodeModel) -> bool {
    forall|v: ValueShape| #[trigger] describes(m, v) ==> describes(n, v)
}

/// Whether the union members `ms` describe `v`.
pub open spec fn covers(ms: Seq<NodeModel>, v: ValueShape) -> bool {
    exists|i: int| 0 <= i < ms.len() && #[trigger] describes(ms[i], v)
}

/// Unions are flat: no member of a union is itself a union. Records are well formed too: their
/// skippable fields are fields they have, only named records have field names, and struct
/// records have one name per field, and skippable fields are listed in order.
pub open spec fn flat(n: NodeModel) -> bool
    decreases n,
{
    match n {
        NodeModel::OptionSome(inner) => flat(*inner),
        NodeModel::Newtype(_, inner) => flat(*inner),
        NodeModel::Mapping(k, v) => flat(*k) && flat(*v),
        NodeModel::Sequence(item) => flat(*item),
        NodeModel::Union(ms) => forall|i: int| 0 <= i < ms.len() ==> !(#[trigger] ms[i] is Union) && flat(ms[i]),
        NodeModel::Record { name, field_names, field_types, skippable, keys } => {
            &&& forall|i: int| 0 <= i < field_types.len() ==> flat(#[trigger] field_types[i])
            &&& forall|i: int| 0 <= i < skippable.len() ==> #[trigger] skippable[i] < field_types.len()
            &&& field_names is Some ==> name is Some
            &&& keys matches Some(k) ==> k.fields.len() == field_types.len()
            &&& crate::sorted::strictly_sorted(skippable)
        },
        _ => true,
    }
}

/// Whether every node of `ms` is flat.
pub open spec fn all_flat(ms: Seq<NodeModel>) -> bool {
    forall|i: int| 0 <= i < ms.len() ==> flat(#[trigger] ms[i])
}

/// Whether `ms` can be the members of a flat union.
pub open spec fn flat_members(ms: Seq<NodeModel>) -> bool {
    forall|i: int| 0 <= i < ms.len() ==> !(#[trigger] ms[i] is Union) && flat(ms[i])
}

/// The number of nodes of a tree that are not unions.
pub open spec fn weight(m: NodeModel) -> nat
    decreases m, 0int,
{
    match m {
        NodeModel::OptionSome(inner) => 1 + weight(*inner),
        NodeModel::Newtype(_, inner) => 1 + weight(*inner),
        NodeModel::Mapping(k, v) => 1 + weight(*k) + weight(*v),
        NodeModel::Sequence(item) => 1 + weight(*item),
        NodeModel::Union(ms) => weights(ms),
        NodeModel::Record { field_types, .. } => 1 + weights(field_types),
        _ => 1,
    }
}

/// The total weight of the trees of `s`.
pub open spec fn weights(s: Seq<NodeModel>) -> nat
    decreases s, 1int,
{
    if s.len() == 0 {
        0
    } else {
        weight(s[0]) + weights(s.subrange(1, s.len() as int))
    }
}

/// 1 for a union, 0 for anything else.
pub open spec fn union_layer(m: NodeModel) -> nat {
    if m is Union { 1 } else { 0 }
}

pub proof fn lemma_weights_push(s: Seq<NodeModel>, x: NodeModel)
    ensures
        weights(s.push(x)) == weights(s) + weight(x),
    decreases s.len(),
{
    if s.len() == 0 {
        assert(s.push(x).subrange(1, 1) =~= Seq::<NodeModel>::empty());
        assert(weights(Seq::<NodeModel>::empty()) == 0);
    } else {
        assert(s.push(x)[0] == s[0]);
        assert(s.push(x).subrange(1, s.len() + 1int) =~= s.subrange(1, s.len() as int).push(x));
        lemma_weights_push(s.subrange(1, s.len() as int), x);
    }
}

pub proof fn lemma_weights_update(s: Seq<NodeModel>, i: int, x: NodeModel)
    requires
        0 <= i < s.len(),
    ensures
        weights(s.update(i, x)) + weight(s[i]) == weights(s) + weight(x),
        weight(s[i]) <= weights(s),
    decreases s.len(),
{
    if i == 0 {
        assert(s.update(0, x).subrange(1, s.len() as int) =~= s.subrange(1, s.len() as int));
    } else {
        let t = s.subrange(1, s.len() as int);
        assert(s.update(i, x).subrange(1, s.len() as int) =~= t.update(i - 1, x));
        lemma_weights_update(t, i - 1, x);
    }
}

pub proof fn lemma_weights_drop_first(s: Seq<NodeModel>)
    requires
        s.len() > 0,
    ensures
        weights(s) == weight(s[0]) + weights(s.drop_first()),
{
    assert(s.drop_first() =~= s.subrange(1, s.len() as int));
}

/// Whether `unify` merges `right` into `left`: the two have the same kind of node at the top,
/// with the same name where there is one.
pub open spec fn unifiable(left: NodeModel, right: NodeModel) -> bool {
    match (left, right) {
        (NodeModel::Union(_), _) => true,
        (_, NodeModel::Union(_)) => true,
        (NodeModel::Newtype(l, _), NodeModel::Newtype(r, _)) => l == r,
        (NodeModel::OptionSome(_), NodeModel::OptionSome(_)) => true,
        (
            NodeModel::Record { name: ln, field_names: lf, field_types: lt, .. },
            NodeModel::Record { name: rn, field_names: rf, field_types: rt, .. },
        ) => ln == rn && lf == rf && lt.len() == rt.len(),
        (NodeModel::Mapping(_, _), NodeModel::Mapping(_, _)) => true,
        (NodeModel::Sequence(_), NodeModel::Sequence(_)) => true,
        _ => is_leaf(left) && left == right,
    }
}


/// Whether there is no union anywhere in `m`.
pub open spec fn union_free(m: NodeModel) -> bool
    decreases m,
{
    match m {
        NodeModel::OptionSome(inner) => union_free(*inner),
        NodeModel::Newtype(_, inner) => union_free(*inner),
        NodeModel::Mapping(k, v) => union_free(*k) && union_free(*v),
        NodeModel::Sequence(item) => union_free(*item),
        NodeModel::Union(_) => false,
        NodeModel::Record { field_types, .. } =>
            forall|i: int| 0 <= i < field_types.len() ==> union_free(#[trigger] field_types[i]),
        _ => true,
    }
}

/// The empty union: the type of no value.
pub open spec fn bottom() -> NodeModel {
    NodeModel::Union(Seq::empty())
}

impl SchemaBuilderNode {
    /// The empty union, the initial content of every slot.
    pub fn empty() -> (r: Self)
        ensures
            r@ == bottom(),
    {
        let members: Vec<SchemaBuilderNode> = Vec::new();
        proof {
            lemma_models_of(members);
            assert(models_of(members) =~= Seq::<NodeModel>::empty());
        }
        SchemaBuilderNode::Union(members)
    }

    /// Whether this is a union.
    pub fn is_union(&self) -> (r: bool)
        ensures
            r == (self@ is Union),
    {
        matches!(self, SchemaBuilderNode::Union(_))
    }
}

impl Default for SchemaBuilderNode {
    fn default() -> (r: Self)
        ensures
            r@ == bottom(),
    {
        SchemaBuilderNode::empty()
    }
}

/// Whether `a` and `b` are the same node without children.
pub fn same_leaf(a: &SchemaBuilderNode, b: &SchemaBuilderNode) -> (r: bool)
    ensures
        r == (is_leaf(a@) && a@ == b@),
{
    match a {
        SchemaBuilderNode::Bool => matches!(b, SchemaBuilderNode::Bool),
        SchemaBuilderNode::I8 => matches!(b, SchemaBuilderNode::I8),
        SchemaBuilderNode::I16 => matches!(b, SchemaBuilderNode::I16),
        SchemaBuilderNode::I32 => matches!(b, SchemaBuilderNode::I32),
        SchemaBuilderNode::I64 => matches!(b, SchemaBuilderNode::I64),
        SchemaBuilderNode::I128 => matches!(b, SchemaBuilderNode::I128),
        SchemaBuilderNode::U8 => matches!(b, SchemaBuilderNode::U8),
        SchemaBuilderNode::U16 => matches!(b, SchemaBuilderNode::U16),
        SchemaBuilderNode::U32 => matches!(b, SchemaBuilderNode::U32),
        SchemaBuilderNode::U64 => matches!(b, SchemaBuilderNode::U64),
        SchemaBuilderNode::U128 => matches!(b, SchemaBuilderNode::U128),
        SchemaBuilderNode::F32 => matches!(b, SchemaBuilderNode::F32),
        SchemaBuilderNode::F64 => matches!(b, SchemaBuilderNode::F64),
        SchemaBuilderNode::Char => matches!(b, SchemaBuilderNode::Char),
        SchemaBuilderNode::String => matches!(b, SchemaBuilderNode::String),
        SchemaBuilderNode::Bytes => matches!(b, SchemaBuilderNode::Bytes),
        SchemaBuilderNode::OptionNone => matches!(b, SchemaBuilderNode::OptionNone),
        SchemaBuilderNode::Unit(left) => match b {
            SchemaBuilderNode::Unit(right) => *left == *right,
            _ => false,
        },
        _ => false,
    }
}


pub proof fn lemma_models_of_update(v1: Vec<SchemaBuilderNode>, v2: Vec<SchemaBuilderNode>, j: int, x: SchemaBuilderNode)
    requires
        0 <= j < v1@.len(),
        v2@ == v1@.update(j, x),
    ensures
        models_of(v2) == models_of(v1).update(j, model(x)),
{
    lemma_models_of(v1);
    lemma_models_of(v2);
    assert(models_of(v2) =~= models_of(v1).update(j, model(x)));
}

pub proof fn lemma_models_of_push(v1: Vec<SchemaBuilderNode>, v2: Vec<SchemaBuilderNode>, x: SchemaBuilderNode)
    requires
        v2@ == v1@.push(x),
    ensures
        models_of(v2) == models_of(v1).push(model(x)),
{
    lemma_models_of(v1);
    lemma_models_of(v2);
    assert(models_of(v2) =~= models_of(v1).push(model(x)));
}

pub proof fn lemma_models_of_remove_first(v1: Vec<SchemaBuilderNode>, v2: Vec<SchemaBuilderNode>)
    requires
        v1@.len() > 0,
        v2@ == v1@.remove(0),
    ensures
        models_of(v2) == models_of(v1).drop_first(),
{
    lemma_models_of(v1);
    lemma_models_of(v2);
    assert(models_of(v2) =~= models_of(v1).drop_first());
}

/// Elementwise bounds on weights add up.
pub proof fn lemma_weights_bound(a: Seq<NodeModel>, b: Seq<NodeModel>, c: Seq<NodeModel>)
    requires
        a.len() == b.len() == c.len(),
        forall|i: int| 0 <= i < a.len() ==> weight(#[trigger] a[i]) <= weight(b[i]) + weight(c[i]),
    ensures
        weights(a) <= weights(b) + weights(c),
    decreases a.len(),
{
    if a.len() > 0 {
        let n = a.len() as int;
        lemma_weights_bound(a.subrange(1, n), b.subrange(1, n), c.subrange(1, n));
        assert(weight(a[0]) <= weight(b[0]) + weight(c[0]));
    }
}

/// What a sequence node describes.
pub proof fn lemma_describes_sequence(item: NodeModel, v: ValueShape)
    ensures
        describes(NodeModel::Sequence(Box::new(item)), v) == (match v {
            ValueShape::Sequence(xs) => forall|i: int| 0 <= i < xs.len() ==> #[trigger] describes(item, xs[i]),
            _ => false,
        }),
{
    if let ValueShape::Sequence(xs) = v {
        lemma_all_described(item, xs, xs.len() as int);
    }
}

/// What a union describes: what one of its members does.
pub proof fn lemma_describes_union(ms: Seq<NodeModel>, v: ValueShape)
    ensures
        describes(NodeModel::Union(ms), v) == covers(ms, v),
{
    lemma_any_describes(ms, v, ms.len() as int);
}

/// What a map node describes.
pub proof fn lemma_describes_mapping(k: NodeModel, val: NodeModel, v: ValueShape)
    ensures
        describes(NodeModel::Mapping(Box::new(k), Box::new(val)), v) == (match v {
            ValueShape::Mapping(ks, vs) => {
                &&& ks.len() == vs.len()
                &&& forall|i: int| 0 <= i < ks.len() ==> #[trigger] describes(k, ks[i])
                &&& forall|i: int| 0 <= i < vs.len() ==> #[trigger] describes(val, vs[i])
            },
            _ => false,
        }),
{
    if let ValueShape::Mapping(ks, vs) = v {
        lemma_all_described(k, ks, ks.len() as int);
        lemma_all_described(val, vs, vs.len() as int);
    }
}

/// What a record describes.
pub proof fn lemma_describes_record(
    name: Option<TypeName>,
    field_names: Option<FieldNameListIndex>,
    types: Seq<NodeModel>,
    skippable: Seq<u32>,
    keys: Option<KeysModel>,
    v: ValueShape,
)
    ensures
        describes(NodeModel::Record { name, field_names, field_types: types, skippable, keys }, v) == (match v {
            ValueShape::Record { name: vname, field_names: vfield_names, fields } => {
                &&& name == vname
                &&& field_names == vfield_names
                &&& fields.len() == types.len()
                &&& forall|i: int| 0 <= i < fields.len() ==> #[trigger] field_described(types, skippable, fields[i], i)
            },
            _ => false,
        }),
{
    if let ValueShape::Record { name: vname, field_names: vfield_names, fields } = v {
        if fields.len() == types.len() {
            lemma_fields_described(types, skippable, fields, fields.len() as int);
        }
    }
}

pub proof fn lemma_flat_bottom()
    ensures
        flat(bottom()),
        flat(NodeModel::OptionSome(Box::new(bottom()))),
        flat(NodeModel::Sequence(Box::new(bottom()))),
        flat(NodeModel::Mapping(Box::new(bottom()), Box::new(bottom()))),
        forall|name: TypeName| #[trigger] flat(NodeModel::Newtype(name, Box::new(bottom()))),
{
    assert(flat(bottom()));
}

/// The empty union, the type of a value never recorded, describes no value.
pub proof fn law_bottom_describes_nothing(v: ValueShape)
    ensures
        !describes(bottom(), v),
{
    lemma_describes_union(Seq::empty(), v);
}

pub proof fn lemma_subsumes_option(a: NodeModel, b: NodeModel, c: NodeModel)
    requires
        subsumes(c, a),
        subsumes(c, b),
    ensures
        subsumes(NodeModel::OptionSome(Box::new(c)), NodeModel::OptionSome(Box::new(a))),
        subsumes(NodeModel::OptionSome(Box::new(c)), NodeModel::OptionSome(Box::new(b))),
{
    reveal_with_fuel(describes, 2);
    assert forall|v: ValueShape| #[trigger] describes(NodeModel::OptionSome(Box::new(a)), v)
        implies describes(NodeModel::OptionSome(Box::new(c)), v) by {
        if let ValueShape::Present(x) = v {
            assert(describes(a, *x));
        }
    }
    assert forall|v: ValueShape| #[trigger] describes(NodeModel::OptionSome(Box::new(b)), v)
        implies describes(NodeModel::OptionSome(Box::new(c)), v) by {
        if let ValueShape::Present(x) = v {
            assert(describes(b, *x));
        }
    }
}

pub proof fn lemma_subsumes_sequence(a: NodeModel, b: NodeModel, c: NodeModel)
    requires
        subsumes(c, a),
        subsumes(c, b),
    ensures
        subsumes(NodeModel::Sequence(Box::new(c)), NodeModel::Sequence(Box::new(a))),
        subsumes(NodeModel::Sequence(Box::new(c)), NodeModel::Sequence(Box::new(b))),
{
    assert forall|v: ValueShape| #[trigger] describes(NodeModel::Sequence(Box::new(a)), v)
        implies describes(NodeModel::Sequence(Box::new(c)), v) by {
        lemma_describes_sequence(a, v);
        lemma_describes_sequence(c, v);
        if let ValueShape::Sequence(xs) = v {
            assert forall|i: int| 0 <= i < xs.len() implies describes(c, #[trigger] xs[i]) by {
                assert(describes(a, xs[i]));
            }
        }
    }
    assert forall|v: ValueShape| #[trigger] describes(NodeModel::Sequence(Box::new(b)), v)
        implies describes(NodeModel::Sequence(Box::new(c)), v) by {
        lemma_describes_sequence(b, v);
        lemma_describes_sequence(c, v);
        if let ValueShape::Sequence(xs) = v {
            assert forall|i: int| 0 <= i < xs.len() implies describes(c, #[trigger] xs[i]) by {
                assert(describes(b, xs[i]));
            }
        }
    }
}

pub proof fn lemma_subsumes_newtype(n: TypeName, a: NodeModel, b: NodeModel, c: NodeModel)
    requires
        subsumes(c, a),
        subsumes(c, b),
    ensures
        subsumes(NodeModel::Newtype(n, Box::new(c)), NodeModel::Newtype(n, Box::new(a))),
        subsumes(NodeModel::Newtype(n, Box::new(c)), NodeModel::Newtype(n, Box::new(b))),
{
    reveal_with_fuel(describes, 2);
    assert forall|v: ValueShape| #[trigger] describes(NodeModel::Newtype(n, Box::new(a)), v)
        implies describes(NodeModel::Newtype(n, Box::new(c)), v) by {
        if let ValueShape::Newtype(_, x) = v {
            assert(describes(a, *x));
        }
    }
    assert forall|v: ValueShape| #[trigger] describes(NodeModel::Newtype(n, Box::new(b)), v)
        implies describes(NodeModel::Newtype(n, Box::new(c)), v) by {
        if let ValueShape::Newtype(_, x) = v {
            assert(describes(b, *x));
        }
    }
}

pub proof fn lemma_subsumes_mapping(
    ka: NodeModel, kb: NodeModel, kc: NodeModel,
    va: NodeModel, vb: NodeModel, vc: NodeModel,
)
    requires
        subsumes(kc, ka),
        subsumes(kc, kb),
        subsumes(vc, va),
        subsumes(vc, vb),
    ensures
        subsumes(NodeModel::Mapping(Box::new(kc), Box::new(vc)), NodeModel::Mapping(Box::new(ka), Box::new(va))),
        subsumes(NodeModel::Mapping(Box::new(kc), Box::new(vc)), NodeModel::Mapping(Box::new(kb), Box::new(vb))),
{
    assert forall|v: ValueShape| #[trigger] describes(NodeModel::Mapping(Box::new(ka), Box::new(va)), v)
        implies describes(NodeModel::Mapping(Box::new(kc), Box::new(vc)), v) by {
        lemma_describes_mapping(ka, va, v);
        lemma_describes_mapping(kc, vc, v);
        if let ValueShape::Mapping(ks, vs) = v {
            assert forall|i: int| 0 <= i < ks.len() implies describes(kc, #[trigger] ks[i]) by {
                assert(describes(ka, ks[i]));
            }
            assert forall|i: int| 0 <= i < vs.len() implies describes(vc, #[trigger] vs[i]) by {
                assert(describes(va, vs[i]));
            }
        }
    }
    assert forall|v: ValueShape| #[trigger] describes(NodeModel::Mapping(Box::new(kb), Box::new(vb)), v)
        implies describes(NodeModel::Mapping(Box::new(kc), Box::new(vc)), v) by {
        lemma_describes_mapping(kb, vb, v);
        lemma_describes_mapping(kc, vc, v);
        if let ValueShape::Mapping(ks, vs) = v {
            assert forall|i: int| 0 <= i < ks.len() implies describes(kc, #[trigger] ks[i]) by {
                assert(describes(kb, ks[i]));
            }
            assert forall|i: int| 0 <= i < vs.len() implies describes(vc, #[trigger] vs[i]) by {
                assert(describes(vb, vs[i]));
            }
        }
    }
}

/// A record whose field types and skippable fields include those of `a` describes all `a` does.
pub proof fn lemma_subsumes_record(
    name: Option<TypeName>,
    field_names: Option<FieldNameListIndex>,
    a_types: Seq<NodeModel>,
    a_skippable: Seq<u32>,
    a_keys: Option<KeysModel>,
    c_types: Seq<NodeModel>,
    c_skippable: Seq<u32>,
    c_keys: Option<KeysModel>,
)
    requires
        a_types.len() == c_types.len(),
        forall|i: int| 0 <= i < a_types.len() ==> subsumes(#[trigger] c_types[i], a_types[i]),
        forall|x: u32| a_skippable.contains(x) ==> c_skippable.contains(x),
    ensures
        subsumes(
            NodeModel::Record { name, field_names, field_types: c_types, skippable: c_skippable, keys: c_keys },
            NodeModel::Record { name, field_names, field_types: a_types, skippable: a_skippable, keys: a_keys },
        ),
{
    let c = NodeModel::Record { name, field_names, field_types: c_types, skippable: c_skippable, keys: c_keys };
    let a = NodeModel::Record { name, field_names, field_types: a_types, skippable: a_skippable, keys: a_keys };
    assert forall|v: ValueShape| #[trigger] describes(a, v) implies describes(c, v) by {
        lemma_describes_record(name, field_names, a_types, a_skippable, a_keys, v);
        lemma_describes_record(name, field_names, c_types, c_skippable, c_keys, v);
        if let ValueShape::Record { name: vn, field_names: vf, fields } = v {
            assert forall|i: int| 0 <= i < fields.len()
                implies #[trigger] field_described(c_types, c_skippable, fields[i], i) by {
                assert(field_described(a_types, a_skippable, fields[i], i));
                match fields[i] {
                    Option::Some(x) => {
                        assert(subsumes(c_types[i], a_types[i]));
                    },
                    Option::None => {
                        assert(a_skippable.contains(i as u32));
                    },
                }
            }
        }
    }
}

impl SchemaBuilderNode {
    /// Merges `other` into `self` if they are [`unifiable`], else hands it back unchanged.
    #[verifier::rlimit(50)]
    pub fn unify(&mut self, other: Self) -> (r: Result<(), Self>)
        requires
            flat(old(self)@),
            flat(other@),
        ensures
            flat(final(self)@),
            r is Err <==> !unifiable(old(self)@, other@),
            r matches Err(back) ==> back@ == other@ && final(self)@ == old(self)@,
            r is Ok ==> subsumes(final(self)@, old(self)@) && subsumes(final(self)@, other@),
            !(old(self)@ is Union) && !(other@ is Union) ==> !(final(self)@ is Union),
            old(self)@ == bottom() ==> final(self)@ == other@,
            other@ == bottom() ==> final(self)@ == old(self)@,
            is_leaf(old(self)@) && !(other@ is Union) ==> final(self)@ == old(self)@,
            other@ == old(self)@ && union_free(other@) ==> final(self)@ == old(self)@,
            old(self)@ is Union && old(self)@->Union_0.len() > 0 && !(other@ is Union)
                && (forall|k: int| 0 <= k < old(self)@->Union_0.len() ==> !unifiable(#[trigger] old(self)@->Union_0[k], other@))
                ==> final(self)@ == NodeModel::Union(old(self)@->Union_0.push(other@)),
            old(self)@ is Record && other@ is Record && unifiable(old(self)@, other@) ==> {
                let a = old(self)@;
                let b = other@;
                let c = final(self)@;
                &&& c is Record
                &&& c->name == a->name
                &&& c->field_names == a->field_names
                &&& c->keys == a->keys
                &&& c->field_types.len() == a->field_types.len()
                &&& forall|i: int| 0 <= i < a->field_types.len() ==> subsumes(#[trigger] c->field_types[i], a->field_types[i])
                    && subsumes(c->field_types[i], b->field_types[i])
                &&& crate::sorted::strictly_sorted(c->skippable)
                &&& forall|y: u32| #[trigger] c->skippable.contains(y) <==> a->skippable.contains(y) || b->skippable.contains(y)
            },
            weight(final(self)@) <= weight(old(self)@) + weight(other@),
        decreases weight(old(self)@) + weight(other@), union_layer(old(self)@) + union_layer(other@), 1int,
    {
        let ghost old_self = self@;
        let ghost other_model = other@;
        if let SchemaBuilderNode::Union(lefts) = self {
            if lefts.len() == 0 {
                proof {
                    lemma_models_of(*lefts);
                    assert(models_of(*lefts) =~= Seq::<NodeModel>::empty());
                    assert forall|v: ValueShape| #[trigger] describes(old_self, v) implies describes(other_model, v) by {
                        assert(models_of(*lefts).len() == 0);
                        lemma_describes_union(models_of(*lefts), v);
                    }
                }
                *self = other;
            } else {
                let ghost old_lefts = *lefts;
                proof {
                    lemma_models_of(old_lefts);
                    assert(old_self == NodeModel::Union(models_of(old_lefts)));
                    assert(models_of(old_lefts).len() > 0);
                }
                other.add_to_nonempty_union(lefts);
            }
            return Ok(());
        }
        if let SchemaBuilderNode::Union(rights) = other {
            let mut rights = rights;
            if rights.len() == 0 {
                proof {
                    lemma_models_of(rights);
                    assert forall|v: ValueShape| #[trigger] describes(other_model, v) implies describes(old_self, v) by {
                        assert(models_of(rights).len() == 0);
                        lemma_describes_union(models_of(rights), v);
                    }
                }
                return Ok(());
            }
            let mut left = SchemaBuilderNode::empty();
            std::mem::swap(&mut left, self);
            let ghost old_rights = rights;
            left.add_to_nonempty_union(&mut rights);
            *self = SchemaBuilderNode::Union(rights);
            proof {
                assert(other_model == NodeModel::Union(models_of(old_rights)));
                assert(self@ == NodeModel::Union(models_of(rights)));
            }
            return Ok(());
        }
        match self {
            SchemaBuilderNode::Newtype(left_name, left_inner) => match other {
                SchemaBuilderNode::Newtype(right_name, right_inner) => {
                    if *left_name == right_name {
                        let ghost a = (**left_inner)@;
                        let ghost b = (*right_inner)@;
                        left_inner.union(*right_inner);
                        proof {
                            lemma_subsumes_newtype(right_name, a, b, (**left_inner)@);
                        }
                        Ok(())
                    } else {
                        Err(SchemaBuilderNode::Newtype(right_name, right_inner))
                    }
                },
                _ => Err(other),
            },
            SchemaBuilderNode::OptionSome(left) => match other {
                SchemaBuilderNode::OptionSome(right) => {
                    let ghost a = (**left)@;
                    let ghost b = (*right)@;
                    left.union(*right);
                    proof {
                        lemma_subsumes_option(a, b, (**left)@);
                    }
                    Ok(())
                },
                _ => Err(other),
            },
            SchemaBuilderNode::Record { name, field_names, field_types, skippable, keys } => match other {
                SchemaBuilderNode::Record {
                    name: right_name,
                    field_names: right_field_names,
                    field_types: right_field_types,
                    skippable: right_skippable,
                    keys: right_keys,
                } => {
                    proof {
                        lemma_models_of(*field_types);
                        lemma_models_of(right_field_types);
                    }
                    if *name == right_name && *field_names == right_field_names
                        && field_types.len() == right_field_types.len() {
                        let ghost a_types = *field_types;
                        let ghost a_skippable = skippable@;
                        let ghost b_types = right_field_types;
                        let ghost b_skippable = right_skippable@;
                        let ghost b_keys = keys_opt_model(right_keys);
                        union_fields(field_types, right_field_types);
                        sorted_union(skippable, right_skippable);
                        proof {
                            lemma_models_of(*field_types);
                            let k = keys_opt_model(*keys);
                            assert forall|i: int| 0 <= i < a_types@.len()
                                implies subsumes(#[trigger] models_of(*field_types)[i], models_of(a_types)[i])
                                && subsumes(models_of(*field_types)[i], models_of(b_types)[i]) by {
                                assert(subsumes(field_types@[i]@, a_types@[i]@));
                                assert(subsumes(field_types@[i]@, b_types@[i]@));
                            }
                            assert forall|x: u32| a_skippable.contains(x) implies skippable@.contains(x) by {}
                            assert forall|x: u32| b_skippable.contains(x) implies skippable@.contains(x) by {}
                            assert forall|i: int| 0 <= i < skippable@.len()
                                implies #[trigger] skippable@[i] < models_of(*field_types).len() by {
                                let x = skippable@[i];
                                assert(skippable@.contains(x));
                                if a_skippable.contains(x) {
                                    let j = choose|j: int| 0 <= j < a_skippable.len() && a_skippable[j] == x;
                                    assert(old_self matches NodeModel::Record { skippable: s, field_types: t, .. }
                                        && s == a_skippable && t == models_of(a_types));
                                    assert(a_skippable[j] < models_of(a_types).len());
                                } else {
                                    let j = choose|j: int| 0 <= j < b_skippable.len() && b_skippable[j] == x;
                                    assert(other_model matches NodeModel::Record { skippable: s, field_types: t, .. }
                                        && s == b_skippable && t == models_of(b_types));
                                    assert(b_skippable[j] < models_of(b_types).len());
                                }
                            }
                            lemma_subsumes_record(*name, *field_names, models_of(a_types), a_skippable, k,
                                models_of(*field_types), skippable@, k);
                            lemma_subsumes_record(*name, *field_names, models_of(b_types), b_skippable, b_keys,
                                models_of(*field_types), skippable@, k);
                        }
                        Ok(())
                    } else {
                        Err(SchemaBuilderNode::Record {
                            name: right_name,
                            field_names: right_field_names,
                            field_types: right_field_types,
                            skippable: right_skippable,
                            keys: right_keys,
                        })
                    }
                },
                _ => Err(other),
            },
            SchemaBuilderNode::Mapping(left_keys, left_values) => match other {
                SchemaBuilderNode::Mapping(right_keys, right_values) => {
                    let ghost ka = (**left_keys)@;
                    let ghost kb = (*right_keys)@;
                    let ghost va = (**left_values)@;
                    let ghost vb = (*right_values)@;
                    left_keys.union(*right_keys);
                    left_values.union(*right_values);
                    proof {
                        lemma_subsumes_mapping(ka, kb, (**left_keys)@, va, vb, (**left_values)@);
                    }
                    Ok(())
                },
                _ => Err(other),
            },
            SchemaBuilderNode::Sequence(left) => match other {
                SchemaBuilderNode::Sequence(right) => {
                    let ghost a = (**left)@;
                    let ghost b = (*right)@;
                    left.union(*right);
                    proof {
                        lemma_subsumes_sequence(a, b, (**left)@);
                    }
                    Ok(())
                },
                _ => Err(other),
            },
            _ => {
                if same_leaf(self, &other) {
                    Ok(())
                } else {
                    Err(other)
                }
            },
        }
    }

    /// Merges `other` into `self`, making a union of the two where they don't unify.
    pub fn union(&mut self, other: Self)
        requires
            flat(old(self)@),
            flat(other@),
        ensures
            flat(final(self)@),
            subsumes(final(self)@, old(self)@),
            subsumes(final(self)@, other@),
            !unifiable(old(self)@, other@) ==> final(self)@ == NodeModel::Union(seq![old(self)@, other@]),
            unifiable(old(self)@, other@) && !(old(self)@ is Union) && !(other@ is Union)
                ==> !(final(self)@ is Union),
            old(self)@ == bottom() ==> final(self)@ == other@,
            other@ == bottom() ==> final(self)@ == old(self)@,
            is_leaf(old(self)@) && old(self)@ == other@ ==> final(self)@ == old(self)@,
            other@ == old(self)@ && union_free(other@) ==> final(self)@ == old(self)@,
            old(self)@ is Union && old(self)@->Union_0.len() > 0 && !(other@ is Union)
                && (forall|k: int| 0 <= k < old(self)@->Union_0.len() ==> !unifiable(#[trigger] old(self)@->Union_0[k], other@))
                ==> final(self)@ == NodeModel::Union(old(self)@->Union_0.push(other@)),
            weight(final(self)@) <= weight(old(self)@) + weight(other@),
        decreases weight(old(self)@) + weight(other@), union_layer(old(self)@) + union_layer(other@), 3int,
    {
        let ghost old_self = self@;
        let ghost other_model = other@;
        if let Err(other) = self.unify(other) {
            let mut left = SchemaBuilderNode::empty();
            std::mem::swap(&mut left, self);
            let mut members: Vec<SchemaBuilderNode> = Vec::new();
            members.push(left);
            members.push(other);
            proof {
                lemma_models_of(members);
                let ms = models_of(members);
                assert(ms =~= seq![old_self, other_model]);
                assert(seq![old_self, other_model] =~= Seq::<NodeModel>::empty().push(old_self).push(other_model));
                lemma_weights_push(Seq::<NodeModel>::empty(), old_self);
                lemma_weights_push(Seq::<NodeModel>::empty().push(old_self), other_model);
                assert(weights(Seq::<NodeModel>::empty()) == 0);
                assert forall|v: ValueShape| #[trigger] describes(old_self, v)
                    implies describes(NodeModel::Union(ms), v) by {
                    lemma_describes_union(ms, v);
                    assert(describes(ms[0], v));
                }
                assert forall|v: ValueShape| #[trigger] describes(other_model, v)
                    implies describes(NodeModel::Union(ms), v) by {
                    lemma_describes_union(ms, v);
                    assert(describes(ms[1], v));
                }
            }
            *self = SchemaBuilderNode::Union(members);
        }
    }

    /// Adds `self` to the non-empty union members `lefts`: merged into the first member it
    /// unifies with, else appended; a union adds each of its members in turn.
    #[verifier::loop_isolation(false)]
    pub fn add_to_nonempty_union(self, lefts: &mut Vec<SchemaBuilderNode>)
        requires
            old(lefts)@.len() > 0,
            flat(self@),
            flat_members(models_of(*old(lefts))),
        ensures
            final(lefts)@.len() > 0,
            flat_members(models_of(*final(lefts))),
            weights(models_of(*final(lefts))) <= weights(models_of(*old(lefts))) + weight(self@),
            subsumes(NodeModel::Union(models_of(*final(lefts))), NodeModel::Union(models_of(*old(lefts)))),
            subsumes(NodeModel::Union(models_of(*final(lefts))), self@),
            self@ == bottom() ==> models_of(*final(lefts)) == models_of(*old(lefts)),
            !(self@ is Union) && (forall|k: int| 0 <= k < old(lefts)@.len()
                ==> !unifiable(#[trigger] models_of(*old(lefts))[k], self@))
                ==> models_of(*final(lefts)) == models_of(*old(lefts)).push(self@),
            !(self@ is Union) ==> forall|k: int| 0 <= k < old(lefts)@.len()
                && unifiable(#[trigger] models_of(*old(lefts))[k], self@)
                && (forall|j: int| 0 <= j < k ==> !unifiable(models_of(*old(lefts))[j], self@)) ==> {
                    &&& final(lefts)@.len() == old(lefts)@.len()
                    &&& forall|j: int| 0 <= j < old(lefts)@.len() && j != k
                        ==> models_of(*final(lefts))[j] == models_of(*old(lefts))[j]
                    &&& subsumes(models_of(*final(lefts))[k], models_of(*old(lefts))[k])
                    &&& subsumes(models_of(*final(lefts))[k], self@)
                    &&& is_leaf(models_of(*old(lefts))[k]) ==> models_of(*final(lefts)) == models_of(*old(lefts))
                },
        decreases weight(self@) + weights(models_of(*old(lefts))), union_layer(self@), 2int,
    {
        let ghost self_model = self@;
        proof {
            lemma_models_of(*old(lefts));
        }
        match self {
            SchemaBuilderNode::Union(rights) => {
                let mut rights = rights;
                proof {
                    lemma_models_of(rights);
                    assert(self_model == NodeModel::Union(models_of(rights)));
                    assert forall|v: ValueShape| #[trigger] describes(self_model, v)
                        implies covers(models_of(rights), v) || describes(NodeModel::Union(models_of(*lefts)), v) by {
                        lemma_describes_union(models_of(rights), v);
                    }
                }
                while rights.len() > 0
                    invariant
                        lefts@.len() > 0,
                        self_model is Union,
                        flat_members(models_of(*lefts)),
                        flat_members(models_of(rights)),
                        weights(models_of(*lefts)) + weights(models_of(rights))
                            <= weights(models_of(*old(lefts))) + weight(self_model),
                        subsumes(NodeModel::Union(models_of(*lefts)), NodeModel::Union(models_of(*old(lefts)))),
                        forall|v: ValueShape| #[trigger] describes(self_model, v)
                            ==> covers(models_of(rights), v) || describes(NodeModel::Union(models_of(*lefts)), v),
                        self_model == bottom() ==> rights@.len() == 0 && models_of(*lefts) == models_of(*old(lefts)),
                    decreases rights@.len(),
                {
                    let ghost before = rights;
                    let ghost lefts_before = *lefts;
                    let right = rights.remove(0);
                    proof {
                        lemma_models_of_remove_first(before, rights);
                        lemma_models_of(before);
                        lemma_weights_drop_first(models_of(before));
                        assert(models_of(before)[0] == right@);
                        assert(union_layer(right@) == 0);
                        assert(union_layer(self_model) == 1);
                        assert(weight(right@) + weights(models_of(lefts_before))
                            <= weight(self_model) + weights(models_of(*old(lefts))));
                    }
                    right.add_to_nonempty_union(lefts);
                    proof {
                        assert forall|v: ValueShape| #[trigger] describes(self_model, v)
                            implies covers(models_of(rights), v) || describes(NodeModel::Union(models_of(*lefts)), v) by {
                            lemma_describes_union(models_of(*lefts), v);
                            lemma_describes_union(models_of(lefts_before), v);
                            if covers(models_of(before), v) {
                                let k = choose|k: int| 0 <= k < models_of(before).len() && #[trigger] describes(models_of(before)[k], v);
                                if k == 0 {
                                    assert(describes(right@, v));
                                } else {
                                    assert(models_of(rights)[k - 1] == models_of(before)[k]);
                                }
                            } else {
                                assert(describes(NodeModel::Union(models_of(lefts_before)), v));
                            }
                        }
                    }
                }
                proof {
                    assert forall|v: ValueShape| #[trigger] describes(self_model, v)
                        implies describes(NodeModel::Union(models_of(*lefts)), v) by {
                        lemma_models_of(rights);
                    }
                }
            },
            right => {
                let mut right = right;
                let mut j: usize = 0;
                while j < lefts.len()
                    invariant
                        0 <= j <= lefts@.len(),
                        lefts@.len() == old(lefts)@.len(),
                        models_of(*lefts) == models_of(*old(lefts)),
                        models_of(*old(lefts)).len() == old(lefts)@.len(),
                        right@ == self_model,
                        !(self_model is Union),
                        flat(self_model),
                        flat_members(models_of(*old(lefts))),
                        forall|i: int| 0 <= i < j ==> !unifiable(#[trigger] models_of(*old(lefts))[i], self_model),
                    decreases lefts@.len() - j,
                {
                    let ghost before = *lefts;
                    proof {
                        lemma_models_of(before);
                        lemma_weights_update(models_of(before), j as int, models_of(before)[j as int]);
                        assert(lefts@[j as int]@ == models_of(before)[j as int]);
                        assert(weight(lefts@[j as int]@) + weight(right@) <= weight(self_model) + weights(models_of(*old(lefts))));
                        assert(union_layer(lefts@[j as int]@) + union_layer(right@) == 0);
                        assert(union_layer(self_model) == 0);
                    }
                    match lefts[j].unify(right) {
                        Ok(()) => {
                            proof {
                                let new_j = lefts@[j as int];
                                lemma_models_of_update(before, *lefts, j as int, new_j);
                                lemma_weights_update(models_of(before), j as int, new_j@);
                                let old_ms = models_of(*old(lefts));
                                let new_ms = models_of(*lefts);
                                assert(new_ms == old_ms.update(j as int, new_j@));
                                assert(weight(new_j@) <= weight(old_ms[j as int]) + weight(self_model));
                                assert(weights(new_ms) <= weights(old_ms) + weight(self_model));
                                assert forall|v: ValueShape| #[trigger] describes(NodeModel::Union(old_ms), v)
                                    implies describes(NodeModel::Union(new_ms), v) by {
                                    lemma_describes_union(old_ms, v);
                                    lemma_describes_union(new_ms, v);
                                    let k = choose|k: int| 0 <= k < old_ms.len() && #[trigger] describes(old_ms[k], v);
                                    if k == j {
                                        assert(describes(new_ms[k], v));
                                    } else {
                                        assert(new_ms[k] == old_ms[k]);
                                    }
                                }
                                assert forall|v: ValueShape| #[trigger] describes(self_model, v)
                                    implies describes(NodeModel::Union(new_ms), v) by {
                                    lemma_describes_union(new_ms, v);
                                    assert(describes(new_ms[j as int], v));
                                }
                                assert forall|k: int| 0 <= k < new_ms.len()
                                    implies !(#[trigger] new_ms[k] is Union) && flat(new_ms[k]) by {
                                    if k != j {
                                        assert(new_ms[k] == old_ms[k]);
                                    }
                                }
                            }
                            return;
                        },
                        Err(recovered) => {
                            proof {
                                lemma_models_of_update(before, *lefts, j as int, lefts@[j as int]);
                                assert(models_of(*lefts) =~= models_of(before));
                            }
                            right = recovered;
                        },
                    }
                    j += 1;
                }
                let ghost before = *lefts;
                lefts.push(right);
                proof {
                    lemma_models_of_push(before, *lefts, right);
                    lemma_weights_push(models_of(before), right@);
                    let old_ms = models_of(*old(lefts));
                    let new_ms = models_of(*lefts);
                    assert forall|v: ValueShape| #[trigger] describes(NodeModel::Union(old_ms), v)
                        implies describes(NodeModel::Union(new_ms), v) by {
                        lemma_describes_union(old_ms, v);
                        lemma_describes_union(new_ms, v);
                        let k = choose|k: int| 0 <= k < old_ms.len() && #[trigger] describes(old_ms[k], v);
                        assert(new_ms[k] == old_ms[k]);
                    }
                    assert forall|v: ValueShape| #[trigger] describes(self_model, v)
                        implies describes(NodeModel::Union(new_ms), v) by {
                        lemma_describes_union(new_ms, v);
                        assert(new_ms[new_ms.len() - 1] == self_model);
                    }
                    assert forall|k: int| 0 <= k < new_ms.len()
                        implies !(#[trigger] new_ms[k] is Union) && flat(new_ms[k]) by {
                        if k < old_ms.len() {
                            assert(new_ms[k] == old_ms[k]);
                        }
                    }
                }
            },
        }
    }
}

/// Merges every field of `rights` into the field of `lefts` at the same position.
#[verifier::loop_isolation(false)]
pub fn union_fields(lefts: &mut Vec<SchemaBuilderNode>, rights: Vec<SchemaBuilderNode>)
    requires
        old(lefts)@.len() == rights@.len(),
        all_flat(models_of(*old(lefts))),
        all_flat(models_of(rights)),
    ensures
        final(lefts)@.len() == old(lefts)@.len(),
        all_flat(models_of(*final(lefts))),
        weights(models_of(*final(lefts))) <= weights(models_of(*old(lefts))) + weights(models_of(rights)),
        forall|i: int| 0 <= i < rights@.len() ==> subsumes(#[trigger] final(lefts)@[i]@, old(lefts)@[i]@)
            && subsumes(final(lefts)@[i]@, rights@[i]@),
        models_of(rights) == models_of(*old(lefts)) && (forall|i: int| 0 <= i < rights@.len()
            ==> union_free(#[trigger] models_of(rights)[i])) ==> models_of(*final(lefts)) == models_of(*old(lefts)),
    decreases weights(models_of(*old(lefts))) + weights(models_of(rights)), 2int, 4int,
{
    let ghost old_rights = rights;
    let n = rights.len();
    let mut rights = rights;
    let mut i = n;
    proof {
        lemma_models_of(*old(lefts));
        lemma_models_of(old_rights);
    }
    while i > 0
        invariant
            0 <= i <= n,
            n == old_rights@.len(),
            lefts@.len() == n,
            rights@ == old_rights@.subrange(0, i as int),
            forall|j: int| 0 <= j < i ==> #[trigger] lefts@[j] == old(lefts)@[j],
            models_of(old_rights) == models_of(*old(lefts)) && (forall|j: int| 0 <= j < n
                ==> union_free(#[trigger] models_of(old_rights)[j]))
                ==> forall|j: int| i <= j < n ==> #[trigger] lefts@[j]@ == old(lefts)@[j]@,
            forall|j: int| i <= j < n ==> {
                &&& flat(#[trigger] lefts@[j]@)
                &&& subsumes(lefts@[j]@, old(lefts)@[j]@)
                &&& subsumes(lefts@[j]@, old_rights@[j]@)
                &&& weight(lefts@[j]@) <= weight(old(lefts)@[j]@) + weight(old_rights@[j]@)
            },
            all_flat(models_of(*old(lefts))),
            all_flat(models_of(old_rights)),
            models_of(*old(lefts)).len() == n,
            models_of(old_rights).len() == n,
            forall|j: int| 0 <= j < n ==> #[trigger] models_of(*old(lefts))[j] == old(lefts)@[j]@,
            forall|j: int| 0 <= j < n ==> #[trigger] models_of(old_rights)[j] == old_rights@[j]@,
        decreases i,
    {
        i -= 1;
        let right = rights.pop().unwrap();
        proof {
            lemma_weights_update(models_of(*old(lefts)), i as int, models_of(*old(lefts))[i as int]);
            lemma_weights_update(models_of(old_rights), i as int, models_of(old_rights)[i as int]);
            assert(flat(models_of(*old(lefts))[i as int]));
            assert(flat(models_of(old_rights)[i as int]));
        }
        lefts[i].union(right);
    }
    proof {
        lemma_models_of(*lefts);
        assert forall|j: int| 0 <= j < n implies weight(#[trigger] models_of(*lefts)[j])
            <= weight(models_of(*old(lefts))[j]) + weight(models_of(old_rights)[j]) by {
            assert(models_of(*lefts)[j] == lefts@[j]@);
        }
        assert forall|j: int| 0 <= j < n implies flat(#[trigger] models_of(*lefts)[j]) by {
            assert(models_of(*lefts)[j] == lefts@[j]@);
        }
        lemma_weights_bound(models_of(*lefts), models_of(*old(lefts)), models_of(old_rights));
        if models_of(old_rights) == models_of(*old(lefts)) && (forall|j: int| 0 <= j < n
            ==> union_free(#[trigger] models_of(old_rights)[j])) {
            assert forall|j: int| 0 <= j < n implies #[trigger] models_of(*lefts)[j] == models_of(*old(lefts))[j] by {
                assert(models_of(*lefts)[j] == lefts@[j]@);
            }
            assert(models_of(*lefts) =~= models_of(*old(lefts)));
        }
    }
}


impl StructKeys {
    /// A copy of these names.
    pub fn copy(&self) -> (r: StructKeys)
        ensures
            r@ == self@,
            r.name == self.name,
            r.variant == self.variant,
            r.fields@ == self.fields@,
    {
        let mut fields: Vec<&'static str> = Vec::new();
        let mut i: usize = 0;
        while i < self.fields.len()
            invariant
                0 <= i <= self.fields@.len(),
                fields@ == self.fields@.subrange(0, i as int),
            decreases self.fields@.len() - i,
        {
            fields.push(self.fields[i]);
            i += 1;
        }
        assert(fields@ =~= self.fields@);
        StructKeys { name: self.name, variant: self.variant, fields }
    }
}

impl SchemaBuilderNode {
    /// A copy of this node and everything under it.
    pub fn deep_clone(&self) -> (r: SchemaBuilderNode)
        ensures
            r@ == self@,
        decreases self,
    {
        match self {
            SchemaBuilderNode::Bool => SchemaBuilderNode::Bool,
            SchemaBuilderNode::I8 => SchemaBuilderNode::I8,
            SchemaBuilderNode::I16 => SchemaBuilderNode::I16,
            SchemaBuilderNode::I32 => SchemaBuilderNode::I32,
            SchemaBuilderNode::I64 => SchemaBuilderNode::I64,
            SchemaBuilderNode::I128 => SchemaBuilderNode::I128,
            SchemaBuilderNode::U8 => SchemaBuilderNode::U8,
            SchemaBuilderNode::U16 => SchemaBuilderNode::U16,
            SchemaBuilderNode::U32 => SchemaBuilderNode::U32,
            SchemaBuilderNode::U64 => SchemaBuilderNode::U64,
            SchemaBuilderNode::U128 => SchemaBuilderNode::U128,
            SchemaBuilderNode::F32 => SchemaBuilderNode::F32,
            SchemaBuilderNode::F64 => SchemaBuilderNode::F64,
            SchemaBuilderNode::Char => SchemaBuilderNode::Char,
            SchemaBuilderNode::String => SchemaBuilderNode::String,
            SchemaBuilderNode::Bytes => SchemaBuilderNode::Bytes,
            SchemaBuilderNode::OptionNone => SchemaBuilderNode::OptionNone,
            SchemaBuilderNode::OptionSome(inner) => SchemaBuilderNode::OptionSome(Box::new((**inner).deep_clone())),
            SchemaBuilderNode::Unit(name) => SchemaBuilderNode::Unit(*name),
            SchemaBuilderNode::Newtype(name, inner) => SchemaBuilderNode::Newtype(*name, Box::new((**inner).deep_clone())),
            SchemaBuilderNode::Mapping(k, v) => SchemaBuilderNode::Mapping(
                Box::new((**k).deep_clone()),
                Box::new((**v).deep_clone()),
            ),
            SchemaBuilderNode::Sequence(item) => SchemaBuilderNode::Sequence(Box::new((**item).deep_clone())),
            SchemaBuilderNode::Union(members) => SchemaBuilderNode::Union(clone_nodes(members, members.len())),
            SchemaBuilderNode::Record { name, field_names, field_types, skippable, keys } => {
                let keys = match keys {
                    Some(k) => Some(k.copy()),
                    None => None,
                };
                let mut skip: Vec<u32> = Vec::new();
                let mut i: usize = 0;
                while i < skippable.len()
                    invariant
                        0 <= i <= skippable@.len(),
                        skip@ == skippable@.subrange(0, i as int),
                    decreases skippable@.len() - i,
                {
                    skip.push(skippable[i]);
                    i += 1;
                }
                assert(skip@ =~= skippable@);
                SchemaBuilderNode::Record {
                    name: *name,
                    field_names: *field_names,
                    field_types: clone_nodes(field_types, field_types.len()),
                    skippable: skip,
                    keys,
                }
            },
        }
    }
}

/// Copies of the first `n` nodes of `v`.
pub fn clone_nodes(v: &Vec<SchemaBuilderNode>, n: usize) -> (r: Vec<SchemaBuilderNode>)
    requires
        n <= v@.len(),
    ensures
        models_of(r) == models_of(*v).subrange(0, n as int),
        r@.len() == n,
        n == v@.len() ==> models_of(r) == models_of(*v),
    decreases v, 0int,
{
    let mut r: Vec<SchemaBuilderNode> = Vec::new();
    let mut i: usize = 0;
    while i < n
        invariant
            0 <= i <= n,
            n <= v@.len(),
            r@.len() == i,
            forall|k: int| 0 <= k < i ==> #[trigger] model(r@[k]) == model(v@[k]),
        decreases n - i,
    {
        let c = v[i].deep_clone();
        r.push(c);
        i += 1;
    }
    proof {
        lemma_models_of(r);
        lemma_models_of(*v);
        assert(models_of(r) =~= models_of(*v).subrange(0, n as int));
        if n == v@.len() {
            assert(models_of(r) =~= models_of(*v));
        }
    }
    r
}

} // verus!

