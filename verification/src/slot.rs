//! Slots of the schema under construction: where tracing puts each value's type.

use vstd::prelude::*;
use crate::indices::TypeName;
use crate::node::{
    bottom, describes, flat, is_leaf, lemma_describes_union, lemma_flat_bottom, lemma_models_of,
    lemma_models_of_push, models_of, same_leaf, subsumes, unifiable, NodeModel, SchemaBuilderNode, StructKeys,
    ValueShape,
};

verus! {

/// Where a node sits within a slot: the slot itself, or a member of the union in it.
#[derive(Clone, Copy, Debug, PartialEq, Eq, Structural)]
pub enum Location {
    Itself,
    Member(usize),
}

/// Whether `loc` points at a node of `slot`.
pub open spec fn location_valid(loc: Location, slot: SchemaBuilderNode) -> bool {
    match (loc, slot) {
        (Location::Member(i), SchemaBuilderNode::Union(ms)) => i < ms@.len(),
        _ => true,
    }
}

/// The node of `slot` that `loc` points at.
pub open spec fn at_location(loc: Location, slot: SchemaBuilderNode) -> SchemaBuilderNode {
    match (loc, slot) {
        (Location::Member(i), SchemaBuilderNode::Union(ms)) => ms@[i as int],
        (_, s) => s,
    }
}

/// Whether `new_slot` is `old_slot` with the node at `loc` replaced by `target`.
pub open spec fn replaced_at(
    loc: Location,
    old_slot: SchemaBuilderNode,
    new_slot: SchemaBuilderNode,
    target: SchemaBuilderNode,
) -> bool {
    match (loc, old_slot) {
        (Location::Member(i), SchemaBuilderNode::Union(ms)) => new_slot matches SchemaBuilderNode::Union(ms2)
            && ms2@ == ms@.update(i as int, target),
        _ => new_slot == target,
    }
}

impl Location {
    /// The node of `slot` at this location, shared.
    pub fn get_ref(self, slot: &SchemaBuilderNode) -> (r: &SchemaBuilderNode)
        requires
            location_valid(self, *slot),
        ensures
            *r == at_location(self, *slot),
    {
        match (self, slot) {
            (Location::Member(index), SchemaBuilderNode::Union(members)) => &members[index],
            (_, slot) => slot,
        }
    }

    /// The node of `slot` at this location.
    pub fn get(self, slot: &mut SchemaBuilderNode) -> (r: &mut SchemaBuilderNode)
        requires
            location_valid(self, *old(slot)),
        ensures
            *r == at_location(self, *old(slot)),
            replaced_at(self, *old(slot), *final(slot), *final(r)),
    {
        match (self, slot) {
            (Location::Member(index), SchemaBuilderNode::Union(members)) => &mut members[index],
            (_, slot) => slot,
        }
    }
}

/// Which kind of node tracing looks for in a slot.
pub enum Matcher {
    OptionSome,
    Sequence,
    Mapping,
    Newtype(TypeName),
    /// A tuple, tuple struct or tuple variant with this name and number of fields.
    Tuple(Option<TypeName>, usize),
    /// A struct or struct variant with these names that a successful trace completed.
    Struct(&'static str, Option<&'static str>),
}

pub open spec fn str_opt_model(s: Option<&'static str>) -> Option<Seq<char>> {
    match s {
        Some(s) => Some(s@),
        None => None,
    }
}

/// Whether the node `n` is the kind `m` looks for.
pub open spec fn matches(m: Matcher, n: NodeModel) -> bool {
    match (m, n) {
        (Matcher::OptionSome, NodeModel::OptionSome(_)) => true,
        (Matcher::Sequence, NodeModel::Sequence(_)) => true,
        (Matcher::Mapping, NodeModel::Mapping(_, _)) => true,
        (Matcher::Newtype(name), NodeModel::Newtype(other, _)) => other == name,
        (Matcher::Tuple(name, len), NodeModel::Record { name: other, keys: None, field_types, .. }) =>
            other == name && field_types.len() == len,
        (Matcher::Struct(name, variant), NodeModel::Record { keys: Some(keys), field_names: Some(_), .. }) =>
            keys.name == name@ && keys.variant == str_opt_model(variant),
        _ => false,
    }
}

/// The node a matcher adds when no member of the slot matches: the kind it looks for, with
/// nothing recorded inside yet.
pub open spec fn made(m: Matcher) -> NodeModel {
    match m {
        Matcher::OptionSome => NodeModel::OptionSome(Box::new(bottom())),
        Matcher::Sequence => NodeModel::Sequence(Box::new(bottom())),
        Matcher::Mapping => NodeModel::Mapping(Box::new(bottom()), Box::new(bottom())),
        Matcher::Newtype(name) => NodeModel::Newtype(name, Box::new(bottom())),
        Matcher::Tuple(name, len) => NodeModel::Record {
            name,
            field_names: None,
            field_types: Seq::new(len as nat, |i: int| bottom()),
            skippable: Seq::empty(),
            keys: None,
        },
        Matcher::Struct(_, _) => bottom(),
    }
}

/// Whether two names are the same.
pub fn same_name(left: &'static str, right: &'static str) -> (r: bool)
    ensures
        r == (left@ == right@),
{
    let lb = left.as_bytes();
    let rb = right.as_bytes();
    assert(lb@ == vstd::utf8::encode_utf8(left@));
    assert(rb@ == vstd::utf8::encode_utf8(right@));
    if lb.len() != rb.len() {
        proof {
            if left@ == right@ {
                assert(lb@ == vstd::utf8::encode_utf8(left@));
                assert(rb@ == vstd::utf8::encode_utf8(right@));
            }
        }
        return false;
    }
    let mut i: usize = 0;
    while i < lb.len()
        invariant
            0 <= i <= lb@.len(),
            lb@.len() == rb@.len(),
            lb@ == vstd::utf8::encode_utf8(left@),
            rb@ == vstd::utf8::encode_utf8(right@),
            forall|k: int| 0 <= k < i ==> lb@[k] == rb@[k],
        decreases lb@.len() - i,
    {
        if lb[i] != rb[i] {
            proof {
                if left@ == right@ {
                    assert(lb@ == vstd::utf8::encode_utf8(left@));
                    assert(rb@ == vstd::utf8::encode_utf8(right@));
                    assert(lb@[i as int] == rb@[i as int]);
                }
            }
            return false;
        }
        i += 1;
    }
    proof {
        assert(lb@ =~= rb@);
        assert(lb@ == vstd::utf8::encode_utf8(left@));
        assert(rb@ == vstd::utf8::encode_utf8(right@));
        vstd::utf8::encode_utf8_decode_utf8(left@);
        vstd::utf8::encode_utf8_decode_utf8(right@);
    }
    true
}

impl Matcher {
    /// Whether `node` is the kind this matcher looks for.
    pub fn accepts(&self, node: &SchemaBuilderNode) -> (r: bool)
        ensures
            r == matches(*self, node@),
    {
        match self {
            Matcher::OptionSome => matches!(node, SchemaBuilderNode::OptionSome(_)),
            Matcher::Sequence => matches!(node, SchemaBuilderNode::Sequence(_)),
            Matcher::Mapping => matches!(node, SchemaBuilderNode::Mapping(_, _)),
            Matcher::Newtype(name) => match node {
                SchemaBuilderNode::Newtype(other, _) => *other == *name,
                _ => false,
            },
            Matcher::Tuple(name, len) => match node {
                SchemaBuilderNode::Record { name: other, keys: None, field_types, .. } => {
                    proof {
                        lemma_models_of(*field_types);
                    }
                    *other == *name && field_types.len() == *len
                },
                _ => false,
            },
            Matcher::Struct(name, variant) => match node {
                SchemaBuilderNode::Record { keys: Some(keys), field_names: Some(_), .. } => keys.is_named(name, *variant),
                _ => false,
            },
        }
    }

    /// The node to add when no member of a slot matches.
    pub fn make(&self) -> (r: SchemaBuilderNode)
        requires
            !(*self is Struct),
        ensures
            r@ == made(*self),
            matches(*self, r@),
            flat(r@),
            !(r@ is Union),
    {
        proof {
            lemma_flat_bottom();
        }
        match self {
            Matcher::OptionSome => SchemaBuilderNode::OptionSome(Box::new(SchemaBuilderNode::empty())),
            Matcher::Sequence => SchemaBuilderNode::Sequence(Box::new(SchemaBuilderNode::empty())),
            Matcher::Mapping => SchemaBuilderNode::Mapping(
                Box::new(SchemaBuilderNode::empty()),
                Box::new(SchemaBuilderNode::empty()),
            ),
            Matcher::Newtype(name) => SchemaBuilderNode::Newtype(*name, Box::new(SchemaBuilderNode::empty())),
            Matcher::Tuple(name, len) => {
                let mut field_types: Vec<SchemaBuilderNode> = Vec::new();
                let mut i: usize = 0;
                while i < *len
                    invariant
                        0 <= i <= *len,
                        field_types@.len() == i,
                        forall|k: int| 0 <= k < i ==> #[trigger] field_types@[k]@ == bottom(),
                    decreases *len - i,
                {
                    field_types.push(SchemaBuilderNode::empty());
                    i += 1;
                }
                proof {
                    lemma_models_of(field_types);
                    assert forall|k: int| 0 <= k < *len implies #[trigger] models_of(field_types)[k] == bottom() by {
                        assert(field_types@[k]@ == bottom());
                    }
                    assert(models_of(field_types) =~= Seq::new(*len as nat, |i: int| bottom()));
                    assert forall|k: int| 0 <= k < models_of(field_types).len() implies flat(#[trigger] models_of(field_types)[k]) by {
                        lemma_flat_bottom();
                    }
                }
                SchemaBuilderNode::Record {
                    name: *name,
                    field_names: None,
                    field_types,
                    skippable: Vec::new(),
                    keys: None,
                }
            },
            Matcher::Struct(_, _) => SchemaBuilderNode::empty(),
        }
    }
}

impl StructKeys {
    /// Whether these are the names of the struct `name` (and `variant`).
    pub fn is_named(&self, name: &'static str, variant: Option<&'static str>) -> (r: bool)
        ensures
            r == (self@.name == name@ && self@.variant == str_opt_model(variant)),
    {
        same_name(self.name, name) && match (self.variant, variant) {
            (None, None) => true,
            (Some(left), Some(right)) => same_name(left, right),
            _ => false,
        }
    }
}


/// Whether the slot `slot` (a non-union slot being its own only member) has a member that `m`
/// accepts.
pub open spec fn has_match(m: Matcher, slot: NodeModel) -> bool {
    match slot {
        NodeModel::Union(ms) => exists|i: int| 0 <= i < ms.len() && #[trigger] matches(m, ms[i]),
        _ => matches(m, slot),
    }
}

/// Whether `i` is the first member of `ms` that `m` accepts.
pub open spec fn is_first_match(m: Matcher, ms: Seq<NodeModel>, i: int) -> bool {
    &&& 0 <= i < ms.len()
    &&& matches(m, ms[i])
    &&& forall|k: int| 0 <= k < i ==> !(#[trigger] matches(m, ms[k]))
}

/// The slot `slot` with `node` added as a new member.
pub open spec fn inserted(slot: NodeModel, node: NodeModel) -> NodeModel {
    match slot {
        NodeModel::Union(ms) => if ms.len() == 0 {
            node
        } else {
            NodeModel::Union(ms.push(node))
        },
        _ => NodeModel::Union(seq![slot, node]),
    }
}

/// Where [`inserted`] puts the new member.
pub open spec fn inserted_location(slot: NodeModel) -> Location {
    match slot {
        NodeModel::Union(ms) => if ms.len() == 0 {
            Location::Itself
        } else {
            Location::Member(ms.len() as usize)
        },
        _ => Location::Member(1),
    }
}

/// Whether the slot `found` is what `find` reports for `m` in `slot`.
pub open spec fn found_in(m: Matcher, slot: NodeModel, found: Option<Location>) -> bool {
    match slot {
        NodeModel::Union(ms) => match found {
            Some(Location::Member(i)) => is_first_match(m, ms, i as int),
            Some(Location::Itself) => false,
            None => !has_match(m, slot),
        },
        _ => found == (if matches(m, slot) { Some(Location::Itself) } else { None::<Location> }),
    }
}

/// Finds the member of `slot` (a non-union slot being its own only member) that `m` accepts.
#[verifier::loop_isolation(false)]
pub fn find(slot: &SchemaBuilderNode, m: &Matcher) -> (r: Option<Location>)
    ensures
        found_in(*m, slot@, r),
        r is Some <==> has_match(*m, slot@),
        r matches Some(loc) ==> location_valid(loc, *slot) && matches(*m, at_location(loc, *slot)@),
{
    match slot {
        SchemaBuilderNode::Union(members) => {
            proof {
                lemma_models_of(*members);
            }
            let mut i: usize = 0;
            while i < members.len()
                invariant
                    0 <= i <= members@.len(),
                    models_of(*members).len() == members@.len(),
                    forall|k: int| 0 <= k < members@.len() ==> #[trigger] models_of(*members)[k] == members@[k]@,
                    forall|k: int| 0 <= k < i ==> !(#[trigger] matches(*m, models_of(*members)[k])),
                decreases members@.len() - i,
            {
                if m.accepts(&members[i]) {
                    proof {
                        assert(matches(*m, models_of(*members)[i as int]));
                        assert(slot@ == NodeModel::Union(models_of(*members)));
                        assert(is_first_match(*m, models_of(*members), i as int));
                    }
                    return Some(Location::Member(i));
                }
                i += 1;
            }
            None
        },
        _ => if m.accepts(slot) {
            Some(Location::Itself)
        } else {
            None
        },
    }
}

/// Adds `node` to `slot` as a new member, which none of the existing members must unify with.
pub fn insert(slot: &mut SchemaBuilderNode, node: SchemaBuilderNode) -> (r: Location)
    requires
        flat(old(slot)@),
        flat(node@),
        !(node@ is Union),
    ensures
        r == inserted_location(old(slot)@),
        final(slot)@ == inserted(old(slot)@, node@),
        location_valid(r, *final(slot)),
        at_location(r, *final(slot)) == node,
        flat(final(slot)@),
        forall|v: ValueShape| #[trigger] describes(final(slot)@, v) <==> describes(old(slot)@, v) || describes(node@, v),
{
    let ghost old_model = slot@;
    let ghost node_model = node@;
    if let SchemaBuilderNode::Union(members) = slot {
        proof {
            lemma_models_of(*members);
        }
        if members.len() == 0 {
            proof {
                assert forall|v: ValueShape| #[trigger] describes(old_model, v) implies false by {
                    lemma_describes_union(models_of(*members), v);
                }
            }
            *slot = node;
            return Location::Itself;
        }
        let ghost before = *members;
        members.push(node);
        proof {
            lemma_models_of_push(before, *members, node);
            lemma_union_push(models_of(before), node_model);
        }
        return Location::Member(members.len() - 1);
    }
    let mut old = SchemaBuilderNode::empty();
    std::mem::swap(&mut old, slot);
    let mut members: Vec<SchemaBuilderNode> = Vec::new();
    members.push(old);
    members.push(node);
    proof {
        lemma_models_of(members);
        let ms = models_of(members);
        assert(ms =~= seq![old_model, node_model]);
        assert forall|v: ValueShape| #[trigger] describes(NodeModel::Union(ms), v)
            <==> describes(old_model, v) || describes(node_model, v) by {
            lemma_describes_union(ms, v);
            if describes(NodeModel::Union(ms), v) {
                let k = choose|k: int| 0 <= k < ms.len() && #[trigger] describes(ms[k], v);
            }
            assert(ms[0] == old_model);
            assert(ms[1] == node_model);
        }
    }
    *slot = SchemaBuilderNode::Union(members);
    Location::Member(1)
}

/// Where `m` is found in `slot`, or where its new node is added.
pub open spec fn location_for(m: Matcher, slot: NodeModel, found: Location) -> bool {
    if has_match(m, slot) {
        found_in(m, slot, Some(found))
    } else {
        found == inserted_location(slot)
    }
}

/// Finds the member of `slot` that `m` accepts, adding a new one (see [`Matcher::make`]) if
/// there is none, the same way [`SchemaBuilderNode::union`] would add a node that doesn't unify
/// with any member.
pub fn locate(slot: &mut SchemaBuilderNode, m: &Matcher) -> (r: Location)
    requires
        !(*m is Struct),
        flat(old(slot)@),
    ensures
        location_for(*m, old(slot)@, r),
        final(slot)@ == (if has_match(*m, old(slot)@) { old(slot)@ } else { inserted(old(slot)@, made(*m)) }),
        location_valid(r, *final(slot)),
        matches(*m, at_location(r, *final(slot))@),
        flat(final(slot)@),
        subsumes(final(slot)@, old(slot)@),
{
    match find(slot, m) {
        Some(location) => location,
        None => insert(slot, m.make()),
    }
}

/// The node of `slot` that `m` accepts, added if there is none.
pub fn member<'a>(slot: &'a mut SchemaBuilderNode, m: &Matcher) -> (r: &'a mut SchemaBuilderNode)
    requires
        !(*m is Struct),
        flat(old(slot)@),
    ensures
        matches(*m, r@),
        flat(r@),
        exists|loc: Location, mid: SchemaBuilderNode| {
            &&& location_for(*m, old(slot)@, loc)
            &&& mid@ == (if has_match(*m, old(slot)@) { old(slot)@ } else { inserted(old(slot)@, made(*m)) })
            &&& flat(mid@)
            &&& subsumes(mid@, old(slot)@)
            &&& location_valid(loc, mid)
            &&& *r == at_location(loc, mid)
            &&& replaced_at(loc, mid, *final(slot), *final(r))
        },
{
    let location = locate(slot, m);
    let ghost mid = *slot;
    proof {
        lemma_flat_at_location(location, mid);
    }
    location.get(slot)
}

pub proof fn lemma_flat_at_location(loc: Location, slot: SchemaBuilderNode)
    requires
        flat(slot@),
        location_valid(loc, slot),
    ensures
        flat(at_location(loc, slot)@),
{
    if let (Location::Member(i), SchemaBuilderNode::Union(ms)) = (loc, slot) {
        lemma_models_of(ms);
        assert(models_of(ms)[i as int] == ms@[i as int]@);
    }
}

/// Whether one of `members` is the node without children `node`.
pub fn contains_leaf(members: &Vec<SchemaBuilderNode>, node: &SchemaBuilderNode) -> (r: bool)
    requires
        is_leaf(node@),
    ensures
        r == exists|i: int| 0 <= i < members@.len() && #[trigger] members@[i]@ == node@,
{
    let mut i: usize = 0;
    while i < members.len()
        invariant
            0 <= i <= members@.len(),
            is_leaf(node@),
            forall|k: int| 0 <= k < i ==> #[trigger] members@[k]@ != node@,
        decreases members@.len() - i,
    {
        if same_leaf(&members[i], node) {
            return true;
        }
        i += 1;
    }
    false
}

/// Merges a node without children (a scalar, unit or `None`) into `slot`.
pub fn merge_leaf(slot: &mut SchemaBuilderNode, node: SchemaBuilderNode)
    requires
        is_leaf(node@),
        flat(old(slot)@),
    ensures
        flat(final(slot)@),
        forall|v: ValueShape| #[trigger] describes(final(slot)@, v) <==> describes(old(slot)@, v) || describes(node@, v),
        old(slot)@ == node@ ==> final(slot)@ == old(slot)@,
        old(slot)@ is Union ==> final(slot)@ == (if has_match_leaf(old(slot)@, node@) { old(slot)@ } else { inserted(old(slot)@, node@) }),
        !(old(slot)@ is Union) && old(slot)@ != node@ ==> final(slot)@ == inserted(old(slot)@, node@),
{
    let ghost old_model = slot@;
    let ghost node_model = node@;
    if let SchemaBuilderNode::Union(members) = slot {
        if members.len() > 0 {
            proof {
                lemma_models_of(*members);
            }
            if !contains_leaf(members, &node) {
                proof {
                    assert forall|k: int| 0 <= k < models_of(*members).len() implies #[trigger] models_of(*members)[k] != node_model by {
                        assert(members@[k]@ == models_of(*members)[k]);
                    }
                }
                let ghost before = *members;
                members.push(node);
                proof {
                    lemma_models_of_push(before, *members, node);
                    lemma_union_push(models_of(before), node_model);
                    assert(!models_of(before).contains(node_model));
                }
            } else {
                proof {
                    let k = choose|k: int| 0 <= k < members@.len() && #[trigger] members@[k]@ == node_model;
                    assert(models_of(*members)[k] == node_model);
                    assert forall|v: ValueShape| #[trigger] describes(node_model, v) implies describes(old_model, v) by {
                        lemma_describes_union(models_of(*members), v);
                        assert(describes(models_of(*members)[k], v));
                    }
                }
            }
            return;
        }
    }
    if same_leaf(slot, &node) {
        return;
    }
    proof {
        assert(!unifiable(old_model, node_model) || old_model == bottom());
        if old_model == bottom() {
            assert forall|v: ValueShape| #[trigger] describes(old_model, v) implies false by {
                lemma_describes_union(Seq::empty(), v);
            }
        } else {
            let pair = seq![old_model, node_model];
            assert forall|v: ValueShape| #[trigger] describes(NodeModel::Union(pair), v)
                <==> describes(old_model, v) || describes(node_model, v) by {
                lemma_describes_union(pair, v);
                if describes(NodeModel::Union(pair), v) {
                    let k = choose|k: int| 0 <= k < 2 && #[trigger] describes(pair[k], v);
                }
                assert(pair[0] == old_model);
                assert(pair[1] == node_model);
            }
        }
    }
    slot.union(node);
}

/// Adding a member to a union adds what it describes, and keeps the union flat.
pub proof fn lemma_union_push(ms: Seq<NodeModel>, x: NodeModel)
    ensures
        forall|v: ValueShape| #[trigger] describes(NodeModel::Union(ms.push(x)), v)
            <==> describes(NodeModel::Union(ms), v) || describes(x, v),
        flat(NodeModel::Union(ms)) && flat(x) && !(x is Union) ==> flat(NodeModel::Union(ms.push(x))),
{
    let ms2 = ms.push(x);
    assert forall|v: ValueShape| #[trigger] describes(NodeModel::Union(ms2), v)
        <==> describes(NodeModel::Union(ms), v) || describes(x, v) by {
        lemma_describes_union(ms, v);
        lemma_describes_union(ms2, v);
        if describes(NodeModel::Union(ms2), v) {
            let k = choose|k: int| 0 <= k < ms2.len() && #[trigger] describes(ms2[k], v);
            if k < ms.len() {
                assert(ms2[k] == ms[k]);
            }
        }
        if describes(NodeModel::Union(ms), v) {
            let k = choose|k: int| 0 <= k < ms.len() && #[trigger] describes(ms[k], v);
            assert(ms2[k] == ms[k]);
        }
        if describes(x, v) {
            assert(ms2[ms.len() as int] == x);
        }
    }
    if flat(NodeModel::Union(ms)) && flat(x) && !(x is Union) {
        assert forall|k: int| 0 <= k < ms2.len() implies !(#[trigger] ms2[k] is Union) && flat(ms2[k]) by {
            if k < ms.len() {
                assert(ms2[k] == ms[k]);
            }
        }
    }
}

/// Replacing the node at a location of a flat slot by a flat node that is not a union and
/// describes all the replaced node did keeps the slot flat, loses nothing it described, and
/// makes it describe all the new node does.
pub proof fn lemma_replace_at(
    loc: Location,
    mid: SchemaBuilderNode,
    fin: SchemaBuilderNode,
    target: SchemaBuilderNode,
)
    requires
        location_valid(loc, mid),
        replaced_at(loc, mid, fin, target),
        flat(mid@),
        flat(target@),
        !(target@ is Union),
        subsumes(target@, at_location(loc, mid)@),
    ensures
        flat(fin@),
        subsumes(fin@, mid@),
        forall|v: ValueShape| #[trigger] describes(target@, v) ==> describes(fin@, v),
{
    match (loc, mid) {
        (Location::Member(i), SchemaBuilderNode::Union(ms)) => {
            let ms2 = fin->Union_0;
            crate::node::lemma_models_of_update(ms, ms2, i as int, target);
            lemma_models_of(ms);
            lemma_models_of(ms2);
            let a = models_of(ms);
            let b = models_of(ms2);
            assert(b == a.update(i as int, target@));
            assert forall|k: int| 0 <= k < b.len() implies !(#[trigger] b[k] is Union) && flat(b[k]) by {
                if k != i {
                    assert(b[k] == a[k]);
                }
            }
            assert forall|v: ValueShape| #[trigger] describes(mid@, v) implies describes(fin@, v) by {
                lemma_describes_union(a, v);
                lemma_describes_union(b, v);
                let k = choose|k: int| 0 <= k < a.len() && #[trigger] describes(a[k], v);
                if k == i {
                    assert(describes(b[k], v));
                } else {
                    assert(b[k] == a[k]);
                }
            }
            assert forall|v: ValueShape| #[trigger] describes(target@, v) implies describes(fin@, v) by {
                lemma_describes_union(b, v);
                assert(describes(b[i as int], v));
            }
        },
        _ => {},
    }
}

/// Whether the union `slot` has the node without children `node` as a member.
pub open spec fn has_match_leaf(slot: NodeModel, node: NodeModel) -> bool {
    match slot {
        NodeModel::Union(ms) => ms.len() > 0 && ms.contains(node),
        _ => false,
    }
}

} // verus!

verus! {

/// Tracing a tuple, tuple struct or tuple variant goes into a record of its own name and length:
/// any member of a slot that the tuple's matcher accepts (and so the one tracing reuses) is a
/// tuple record with exactly that name and that many fields, and the record the matcher adds
/// when there is none is such a record too. Tuples of different names or lengths never share a
/// record.
pub proof fn law_tuple_record_has_its_name(name: Option<TypeName>, len: usize, n: NodeModel)
    ensures
        matches(Matcher::Tuple(name, len), n) ==> (n is Record && n->name == name && n->keys is None
            && n->field_types.len() == len),
        matches(Matcher::Tuple(name, len), made(Matcher::Tuple(name, len))),
        forall|other: Option<TypeName>, l: usize| #![trigger matches(Matcher::Tuple(other, l), n)]
            matches(Matcher::Tuple(name, len), n) && matches(Matcher::Tuple(other, l), n) ==> other == name && l == len,
{
}

} // verus!
