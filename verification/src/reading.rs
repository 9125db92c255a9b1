//! How a trace reads by a schema: where each node of a trace ends, if a given description is
//! what reading it gives. A reading fails where these give `None`.

use vstd::prelude::*;
use crate::describe::{bits_for, check_result, is_scalar_node, scalar_layout, scalar_value, CheckResult, Described};
use crate::reader::{node_at_pos, TraceNode};
use crate::schema::{list_at, node_at, Schema, SchemaNode};
use crate::trace::{kind_code, le_bytes, TraceNodeKind, ALL_FIELDS_PRESENT};

verus! {

/// How deep unions may nest when reading one node of a trace by the schema `s`.
pub open spec fn fuel_of(s: Schema) -> nat {
    if s.nodes.values@.len() < usize::MAX { (s.nodes.values@.len() + 1) as nat } else { s.nodes.values@.len() as nat }
}

/// The field name list at `index` of the schema `s`, if it has one.
pub open spec fn names_at(s: Schema, index: u32) -> Option<Seq<u32>> {
    if index < s.field_name_lists.values@.len() { Some(s.field_name_lists.values@[index as int]@) } else { None }
}

/// The entries of `nodes` (the first `k`) that are not the empty union.
pub open spec fn nonzero(nodes: Seq<u32>, k: int) -> Seq<u32>
    decreases k,
{
    if k <= 0 || k > nodes.len() {
        Seq::empty()
    } else if nodes[k - 1] != 0 {
        nonzero(nodes, k - 1).push(nodes[k - 1])
    } else {
        nonzero(nodes, k - 1)
    }
}

/// The entries of `nodes` that the field indices `fields` name.
pub open spec fn picked(nodes: Seq<u32>, fields: Seq<u32>) -> Seq<u32> {
    Seq::new(fields.len(), |k: int| nodes[fields[k] as int])
}

/// Where the element at `pos`, read as the schema node at `index` describes it, ends, if `d` is
/// what reading it gives: a scalar is its kind byte and bytes; anything else its header and
/// what reading that header as the node gives.
pub open spec fn element_end(s: Schema, index: u32, data: Seq<u8>, pos: int, d: Described) -> Option<int>
    decreases data.len() - pos, d, 0int,
{
    if pos < 0 || pos > data.len() {
        None
    } else {
        match node_at(s.node_keys(), index) {
            None => None,
            Some(node) => if is_scalar_node(node) {
                let width = scalar_layout(node).1;
                if pos + 1 + width <= data.len() && data[pos] == kind_code(scalar_layout(node).0)
                    && scalar_value(node, data.subrange(pos + 1, pos + 1 + width)) == Some(d) {
                    Some(pos + 1 + width)
                } else {
                    None
                }
            } else {
                match node_at_pos(data, pos) {
                    Some((trace, next)) => if pos < next <= data.len() {
                        cursor_end(s, node, trace, data, next, fuel_of(s), d)
                    } else {
                        None
                    },
                    None => None,
                }
            },
        }
    }
}

/// Where the trace node whose header `trace` ends at `pos` ends, if `d` is what reading it as
/// `node` gives: for a union, its first matching variant and the description of the node as
/// that variant; for any other node that matches, its contents.
pub open spec fn cursor_end(s: Schema, node: SchemaNode, trace: TraceNode, data: Seq<u8>, pos: int, fuel: nat, d: Described) -> Option<int>
    decreases data.len() - pos, d, 2int,
{
    if pos < 0 || pos > data.len() {
        None
    } else {
        match check_result(s, node, trace, fuel) {
            Some(Some(CheckResult::Discriminated(j, n, child))) => match d {
                Described::Variant(bits, disc, inner) => if bits == bits_for(n as nat) && disc == j && fuel > 0 {
                    cursor_end(s, child, trace, data, pos, (fuel - 1) as nat, *inner)
                } else {
                    None
                },
                _ => None,
            },
            Some(Some(CheckResult::Simple)) => finish_end(s, node, data, pos, fuel, d),
            _ => None,
        }
    }
}

/// Where the contents at `pos` of a trace node that `node` (no union) matched end, if `d` is
/// what reading them gives.
pub open spec fn finish_end(s: Schema, node: SchemaNode, data: Seq<u8>, pos: int, fuel: nat, d: Described) -> Option<int>
    decreases data.len() - pos, d, 1int,
{
    if pos < 0 || pos > data.len() {
        None
    } else if is_scalar_node(node) {
        let width = scalar_layout(node).1;
        if pos + width <= data.len() && scalar_value(node, data.subrange(pos, pos + width)) == Some(d) {
            Some(pos + width)
        } else {
            None
        }
    } else {
        match node {
            SchemaNode::String | SchemaNode::Bytes => if pos + 4 <= data.len() {
                let end = pos + 4 + crate::reader::u32_at(data, pos);
                let bytes = data.subrange(pos + 4, end);
                if end <= data.len() && (match d {
                    Described::String(b) => node is String && b@ == bytes,
                    Described::Bytes(b) => node is Bytes && b@ == bytes,
                    _ => false,
                }) {
                    Some(end)
                } else {
                    None
                }
            } else {
                None
            },
            SchemaNode::Unit | SchemaNode::UnitStruct(_) | SchemaNode::UnitVariant(_, _) | SchemaNode::OptionNone =>
                if d is Unit { Some(pos) } else { None },
            SchemaNode::OptionSome(inner) => element_end(s, inner, data, pos, d),
            SchemaNode::NewtypeStruct(_, inner) => element_end(s, inner, data, pos, d),
            SchemaNode::NewtypeVariant(_, _, inner) => element_end(s, inner, data, pos, d),
            SchemaNode::Mapping(key, value) => if pos + 4 <= data.len() {
                match d {
                    Described::Mapping(entries) => if entries@.len() == crate::reader::u32_at(data, pos) {
                        entries_end(s, key, value, data, pos + 4, entries@, entries@.len() as int)
                    } else {
                        None
                    },
                    _ => None,
                }
            } else {
                None
            },
            SchemaNode::Sequence(item) => if pos + 4 <= data.len() && seq_readable(s, item) {
                match d {
                    Described::Sequence(items) => if items@.len() == crate::reader::u32_at(data, pos) {
                        seq_end(s, item, data, pos + 4, items@, items@.len() as int)
                    } else {
                        None
                    },
                    _ => None,
                }
            } else {
                None
            },
            SchemaNode::Tuple(l) | SchemaNode::TupleStruct(_, l) | SchemaNode::TupleVariant(_, _, l) =>
                match (list_at(s.spec_node_lists(), l), d) {
                    (Some(nodes), Described::Tuple(items)) => if items@.len() == nodes.len() {
                        fields_end(s, nodes, data, pos, items@, items@.len() as int)
                    } else {
                        None
                    },
                    _ => None,
                },
            SchemaNode::Struct(_, names, skip, l) | SchemaNode::StructVariant(_, _, names, skip, l) =>
                struct_end(s, names, skip, l, data, pos, d),
            _ => None,
        }
    }
}

/// Where the first `k` of the elements `items`, read at `pos` on as the nodes `nodes`
/// describe them, one after the other, end.
pub open spec fn fields_end(s: Schema, nodes: Seq<u32>, data: Seq<u8>, pos: int, items: Seq<Described>, k: int) -> Option<int>
    decreases data.len() - pos, items, k,
{
    if k <= 0 || k > items.len() || k > nodes.len() || pos < 0 || pos > data.len() {
        if k == 0 && 0 <= pos <= data.len() { Some(pos) } else { None }
    } else {
        match fields_end(s, nodes, data, pos, items, k - 1) {
            Some(at) => if pos <= at <= data.len() {
                element_end(s, nodes[k - 1], data, at, items[k - 1])
            } else {
                None
            },
            None => None,
        }
    }
}

/// Where the first `k` of the map entries `entries`, keys and values read at `pos` on, one after
/// the other, as `key` and `value` describe them, end.
pub open spec fn entries_end(
    s: Schema,
    key: u32,
    value: u32,
    data: Seq<u8>,
    pos: int,
    entries: Seq<(Described, Described)>,
    k: int,
) -> Option<int>
    decreases data.len() - pos, entries, k,
{
    if k <= 0 || k > entries.len() || pos < 0 || pos > data.len() {
        if k == 0 && 0 <= pos <= data.len() { Some(pos) } else { None }
    } else {
        match entries_end(s, key, value, data, pos, entries, k - 1) {
            Some(at) => if pos <= at <= data.len() {
                match element_end(s, key, data, at, entries[k - 1].0) {
                    Some(mid) => if at <= mid <= data.len() {
                        element_end(s, value, data, mid, entries[k - 1].1)
                    } else {
                        None
                    },
                    None => None,
                }
            } else {
                None
            },
            None => None,
        }
    }
}

/// For a struct node without skippable fields whose fields are all serialized (none has the
/// empty union for its type), and whose lists the schema has: its name, its field name list
/// and its field types. A sequence reads items of such a node by their full header.
pub open spec fn fixed_struct(s: Schema, node: SchemaNode) -> Option<(u32, u32, Seq<u32>)> {
    match node {
        SchemaNode::Struct(name, names, skip, l) => match (list_at(s.spec_node_lists(), l), names_at(s, names)) {
            (Some(nodes), Some(name_list)) => if skip == 0 && name_list.len() == nodes.len()
                && (forall|j: int| 0 <= j < nodes.len() ==> #[trigger] nodes[j] != 0) {
                Some((name, names, nodes))
            } else {
                None
            },
            _ => None,
        },
        _ => None,
    }
}

/// Whether a sequence whose items the node at `item` describes can be read at all: the schema
/// has that node and, for a struct without skippable fields, its lists; a struct read by its
/// full header has no more fields than 32 bits count.
pub open spec fn seq_readable(s: Schema, item: u32) -> bool {
    match node_at(s.node_keys(), item) {
        Some(node) => match node {
            SchemaNode::Struct(_, names, skip, l) => skip != 0 || (list_at(s.spec_node_lists(), l) is Some
                && names_at(s, names) is Some
                && (fixed_struct(s, node) matches Some((_, _, nodes)) ==> nodes.len() <= u32::MAX)),
            _ => true,
        },
        None => false,
    }
}

/// Where an item at `pos` of a sequence whose items the node at `item` describes ends, if `d`
/// is what reading it gives: an item of a struct read by its full header (see
/// [`fixed_struct`]) is a tuple of its fields after that header; any other item ends where
/// [`element_end`] says.
pub open spec fn seq_element_end(s: Schema, item: u32, data: Seq<u8>, pos: int, d: Described) -> Option<int>
    decreases data.len() - pos, d, 1int,
{
    match node_at(s.node_keys(), item) {
        Some(node) => match fixed_struct(s, node) {
            Some((name, names, nodes)) => if 0 <= pos && pos + 17 <= data.len()
                && data.subrange(pos, pos + 17) == full_struct_header(name, names, nodes.len() as u32) {
                match d {
                    Described::Tuple(items) => if items@.len() == nodes.len() {
                        fields_end(s, nodes, data, pos + 17, items@, items@.len() as int)
                    } else {
                        None
                    },
                    _ => None,
                }
            } else {
                None
            },
            None => element_end(s, item, data, pos, d),
        },
        None => None,
    }
}

/// Where the first `k` items `items` of a sequence whose items the node at `item` describes,
/// read at `pos` on one after the other, end.
pub open spec fn seq_end(s: Schema, item: u32, data: Seq<u8>, pos: int, items: Seq<Described>, k: int) -> Option<int>
    decreases data.len() - pos, items, k,
{
    if k <= 0 || k > items.len() || pos < 0 || pos > data.len() {
        if k == 0 && 0 <= pos <= data.len() { Some(pos) } else { None }
    } else {
        match seq_end(s, item, data, pos, items, k - 1) {
            Some(at) => if pos <= at <= data.len() {
                seq_element_end(s, item, data, at, items[k - 1])
            } else {
                None
            },
            None => None,
        }
    }
}

pub proof fn lemma_fields_end_prefix(
    s: Schema,
    nodes: Seq<u32>,
    nodes2: Seq<u32>,
    data: Seq<u8>,
    pos: int,
    items: Seq<Described>,
    items2: Seq<Described>,
    k: int,
)
    requires
        0 <= k <= items.len(),
        k <= items2.len(),
        k <= nodes.len(),
        k <= nodes2.len(),
        forall|j: int| #![auto] 0 <= j < k ==> items[j] == items2[j] && nodes[j] == nodes2[j],
    ensures
        fields_end(s, nodes, data, pos, items, k) == fields_end(s, nodes2, data, pos, items2, k),
    decreases k,
{
    if k > 0 {
        lemma_fields_end_prefix(s, nodes, nodes2, data, pos, items, items2, k - 1);
    }
}

/// Reading one more element after the first `items.len()` extends where they end.
pub proof fn lemma_fields_end_push(
    s: Schema,
    nodes: Seq<u32>,
    nodes2: Seq<u32>,
    data: Seq<u8>,
    pos: int,
    items: Seq<Described>,
    x: Described,
    at: int,
)
    requires
        items.len() < nodes2.len(),
        items.len() <= nodes.len(),
        forall|j: int| 0 <= j < items.len() ==> #[trigger] nodes[j] == nodes2[j],
        fields_end(s, nodes, data, pos, items, items.len() as int) == Some(at),
        0 <= pos <= at <= data.len(),
    ensures
        fields_end(s, nodes2, data, pos, items.push(x), items.len() + 1int)
            == element_end(s, nodes2[items.len() as int], data, at, x),
{
    lemma_fields_end_prefix(s, nodes, nodes2, data, pos, items, items.push(x), items.len() as int);
}

pub proof fn lemma_seq_end_prefix(
    s: Schema,
    item: u32,
    data: Seq<u8>,
    pos: int,
    items: Seq<Described>,
    items2: Seq<Described>,
    k: int,
)
    requires
        0 <= k <= items.len(),
        k <= items2.len(),
        forall|j: int| 0 <= j < k ==> #[trigger] items[j] == items2[j],
    ensures
        seq_end(s, item, data, pos, items, k) == seq_end(s, item, data, pos, items2, k),
    decreases k,
{
    if k > 0 {
        lemma_seq_end_prefix(s, item, data, pos, items, items2, k - 1);
    }
}

pub proof fn lemma_entries_end_prefix(
    s: Schema,
    key: u32,
    value: u32,
    data: Seq<u8>,
    pos: int,
    entries: Seq<(Described, Described)>,
    entries2: Seq<(Described, Described)>,
    k: int,
)
    requires
        0 <= k <= entries.len(),
        k <= entries2.len(),
        forall|j: int| 0 <= j < k ==> #[trigger] entries[j] == entries2[j],
    ensures
        entries_end(s, key, value, data, pos, entries, k) == entries_end(s, key, value, data, pos, entries2, k),
    decreases k,
{
    if k > 0 {
        lemma_entries_end_prefix(s, key, value, data, pos, entries, entries2, k - 1);
    }
}

/// Reading one more entry after the first `entries.len()` extends where they end.
pub proof fn lemma_entries_end_push(
    s: Schema,
    key: u32,
    value: u32,
    data: Seq<u8>,
    pos: int,
    entries: Seq<(Described, Described)>,
    x: (Described, Described),
    at: int,
    mid: int,
)
    requires
        entries_end(s, key, value, data, pos, entries, entries.len() as int) == Some(at),
        0 <= pos <= at <= mid <= data.len(),
        element_end(s, key, data, at, x.0) == Some(mid),
    ensures
        entries_end(s, key, value, data, pos, entries.push(x), entries.len() + 1int)
            == element_end(s, value, data, mid, x.1),
{
    lemma_entries_end_prefix(s, key, value, data, pos, entries, entries.push(x), entries.len() as int);
}

/// Without the empty union among them, all of the first `k` entries of `nodes` are kept.
pub proof fn lemma_nonzero_all(nodes: Seq<u32>, k: int)
    requires
        0 <= k <= nodes.len(),
        forall|j: int| 0 <= j < nodes.len() ==> #[trigger] nodes[j] != 0,
    ensures
        nonzero(nodes, k) == nodes.take(k),
    decreases k,
{
    if k > 0 {
        lemma_nonzero_all(nodes, k - 1);
        assert(nodes.take(k - 1).push(nodes[k - 1]) =~= nodes.take(k));
    } else {
        assert(nodes.take(0) =~= Seq::<u32>::empty());
    }
}

/// Every reading of the first `k` elements at `pos` on, as the nodes `nodes` describe them,
/// that succeeds ends at `at`.
pub open spec fn fields_end_at(s: Schema, nodes: Seq<u32>, data: Seq<u8>, pos: int, k: int, at: int) -> bool {
    forall|its: Seq<Described>| its.len() >= k ==> (#[trigger] fields_end(s, nodes, data, pos, its, k) is None
        || fields_end(s, nodes, data, pos, its, k) == Some(at))
}

/// Every reading of the first `k` items of a sequence at `pos` on that succeeds ends at `at`.
pub open spec fn seq_end_at(s: Schema, item: u32, data: Seq<u8>, pos: int, k: int, at: int) -> bool {
    forall|its: Seq<Described>| its.len() >= k ==> (#[trigger] seq_end(s, item, data, pos, its, k) is None
        || seq_end(s, item, data, pos, its, k) == Some(at))
}

/// Every reading of the first `k` entries of a map at `pos` on that succeeds ends at `at`.
pub open spec fn entries_end_at(s: Schema, key: u32, value: u32, data: Seq<u8>, pos: int, k: int, at: int) -> bool {
    forall|its: Seq<(Described, Described)>| its.len() >= k ==> (#[trigger] entries_end(s, key, value, data, pos, its, k) is None
        || entries_end(s, key, value, data, pos, its, k) == Some(at))
}

pub proof fn lemma_fields_end_some_prefix(s: Schema, nodes: Seq<u32>, data: Seq<u8>, pos: int, its: Seq<Described>, k: int, n: int)
    requires
        0 <= k <= n,
        fields_end(s, nodes, data, pos, its, n) is Some,
    ensures
        fields_end(s, nodes, data, pos, its, k) is Some,
    decreases n - k,
{
    if k < n {
        assert(fields_end(s, nodes, data, pos, its, n - 1) is Some);
        lemma_fields_end_some_prefix(s, nodes, data, pos, its, k, n - 1);
    }
}

pub proof fn lemma_seq_end_some_prefix(s: Schema, item: u32, data: Seq<u8>, pos: int, its: Seq<Described>, k: int, n: int)
    requires
        0 <= k <= n,
        seq_end(s, item, data, pos, its, n) is Some,
    ensures
        seq_end(s, item, data, pos, its, k) is Some,
    decreases n - k,
{
    if k < n {
        assert(seq_end(s, item, data, pos, its, n - 1) is Some);
        lemma_seq_end_some_prefix(s, item, data, pos, its, k, n - 1);
    }
}

pub proof fn lemma_entries_end_some_prefix(
    s: Schema,
    key: u32,
    value: u32,
    data: Seq<u8>,
    pos: int,
    its: Seq<(Described, Described)>,
    k: int,
    n: int,
)
    requires
        0 <= k <= n,
        entries_end(s, key, value, data, pos, its, n) is Some,
    ensures
        entries_end(s, key, value, data, pos, its, k) is Some,
    decreases n - k,
{
    if k < n {
        assert(entries_end(s, key, value, data, pos, its, n - 1) is Some);
        lemma_entries_end_some_prefix(s, key, value, data, pos, its, k, n - 1);
    }
}

/// One more element, whose every reading ends at `next`, after the first `k`.
pub proof fn lemma_fields_end_at_step(s: Schema, nodes: Seq<u32>, data: Seq<u8>, pos: int, k: int, at: int, next: int)
    requires
        fields_end_at(s, nodes, data, pos, k, at),
        0 <= k < nodes.len(),
        forall|d: Described| #[trigger] element_end(s, nodes[k], data, at, d) is None
            || element_end(s, nodes[k], data, at, d) == Some(next),
    ensures
        fields_end_at(s, nodes, data, pos, k + 1, next),
{
    assert forall|its: Seq<Described>| its.len() >= k + 1 implies (#[trigger] fields_end(s, nodes, data, pos, its, k + 1) is None
        || fields_end(s, nodes, data, pos, its, k + 1) == Some(next)) by {
        let e = fields_end(s, nodes, data, pos, its, k);
        assert(e is None || e == Some(at));
        let x = element_end(s, nodes[k], data, at, its[k]);
        assert(x is None || x == Some(next));
    }
}

/// An element that no reading reads after the first `k`: no reading of all of them succeeds.
pub proof fn lemma_fields_end_at_fail(s: Schema, nodes: Seq<u32>, data: Seq<u8>, pos: int, k: int, at: int)
    requires
        fields_end_at(s, nodes, data, pos, k, at),
        0 <= k < nodes.len(),
        forall|d: Described| #[trigger] element_end(s, nodes[k], data, at, d) is None,
    ensures
        forall|its: Seq<Described>| its.len() == nodes.len()
            ==> #[trigger] fields_end(s, nodes, data, pos, its, its.len() as int) is None,
{
    assert forall|its: Seq<Described>| its.len() == nodes.len()
        implies #[trigger] fields_end(s, nodes, data, pos, its, its.len() as int) is None by {
        if fields_end(s, nodes, data, pos, its, its.len() as int) is Some {
            lemma_fields_end_some_prefix(s, nodes, data, pos, its, k + 1, its.len() as int);
            let e = fields_end(s, nodes, data, pos, its, k);
            assert(e is None || e == Some(at));
            assert(element_end(s, nodes[k], data, at, its[k]) is None);
        }
    }
}

/// One more item, whose every reading ends at `next`, after the first `k`.
pub proof fn lemma_seq_end_at_step(s: Schema, item: u32, data: Seq<u8>, pos: int, k: int, at: int, next: int)
    requires
        seq_end_at(s, item, data, pos, k, at),
        0 <= k,
        forall|d: Described| #[trigger] seq_element_end(s, item, data, at, d) is None
            || seq_element_end(s, item, data, at, d) == Some(next),
    ensures
        seq_end_at(s, item, data, pos, k + 1, next),
{
    assert forall|its: Seq<Described>| its.len() >= k + 1 implies (#[trigger] seq_end(s, item, data, pos, its, k + 1) is None
        || seq_end(s, item, data, pos, its, k + 1) == Some(next)) by {
        let e = seq_end(s, item, data, pos, its, k);
        assert(e is None || e == Some(at));
        let x = seq_element_end(s, item, data, at, its[k]);
        assert(x is None || x == Some(next));
    }
}

/// An item that no reading reads after the first `k`: no reading of `n > k` items succeeds.
pub proof fn lemma_seq_end_at_fail(s: Schema, item: u32, data: Seq<u8>, pos: int, k: int, at: int, n: int)
    requires
        seq_end_at(s, item, data, pos, k, at),
        0 <= k < n,
        forall|d: Described| #[trigger] seq_element_end(s, item, data, at, d) is None,
    ensures
        forall|its: Seq<Described>| its.len() == n ==> #[trigger] seq_end(s, item, data, pos, its, its.len() as int) is None,
{
    assert forall|its: Seq<Described>| its.len() == n implies #[trigger] seq_end(s, item, data, pos, its, its.len() as int) is None by {
        if seq_end(s, item, data, pos, its, its.len() as int) is Some {
            lemma_seq_end_some_prefix(s, item, data, pos, its, k + 1, its.len() as int);
            let e = seq_end(s, item, data, pos, its, k);
            assert(e is None || e == Some(at));
            assert(seq_element_end(s, item, data, at, its[k]) is None);
        }
    }
}

/// One more entry after the first `k`, whose keys all end at `mid` and whose values all end at
/// `next`.
pub proof fn lemma_entries_end_at_step(
    s: Schema,
    key: u32,
    value: u32,
    data: Seq<u8>,
    pos: int,
    k: int,
    at: int,
    mid: int,
    next: int,
)
    requires
        entries_end_at(s, key, value, data, pos, k, at),
        0 <= k,
        forall|d: Described| #[trigger] element_end(s, key, data, at, d) is None || element_end(s, key, data, at, d) == Some(mid),
        forall|d: Described| #[trigger] element_end(s, value, data, mid, d) is None || element_end(s, value, data, mid, d) == Some(next),
    ensures
        entries_end_at(s, key, value, data, pos, k + 1, next),
{
    assert forall|its: Seq<(Described, Described)>| its.len() >= k + 1 implies (#[trigger] entries_end(s, key, value, data, pos, its, k + 1) is None
        || entries_end(s, key, value, data, pos, its, k + 1) == Some(next)) by {
        let e = entries_end(s, key, value, data, pos, its, k);
        assert(e is None || e == Some(at));
        let x = element_end(s, key, data, at, its[k].0);
        assert(x is None || x == Some(mid));
        let y = element_end(s, value, data, mid, its[k].1);
        assert(y is None || y == Some(next));
    }
}

/// An entry after the first `k` whose key no reading reads, or whose keys all end at `mid` and
/// whose value no reading reads: no reading of `n > k` entries succeeds.
pub proof fn lemma_entries_end_at_fail(
    s: Schema,
    key: u32,
    value: u32,
    data: Seq<u8>,
    pos: int,
    k: int,
    at: int,
    mid: Option<int>,
    n: int,
)
    requires
        entries_end_at(s, key, value, data, pos, k, at),
        0 <= k < n,
        mid is None ==> forall|d: Described| #[trigger] element_end(s, key, data, at, d) is None,
        mid matches Some(m) ==> (forall|d: Described| #[trigger] element_end(s, key, data, at, d) is None
            || element_end(s, key, data, at, d) == Some(m))
            && forall|d: Described| #[trigger] element_end(s, value, data, m, d) is None,
    ensures
        forall|its: Seq<(Described, Described)>| its.len() == n
            ==> #[trigger] entries_end(s, key, value, data, pos, its, its.len() as int) is None,
{
    assert forall|its: Seq<(Described, Described)>| its.len() == n
        implies #[trigger] entries_end(s, key, value, data, pos, its, its.len() as int) is None by {
        if entries_end(s, key, value, data, pos, its, its.len() as int) is Some {
            lemma_entries_end_some_prefix(s, key, value, data, pos, its, k + 1, its.len() as int);
            let e = entries_end(s, key, value, data, pos, its, k);
            assert(e is None || e == Some(at));
            let x = element_end(s, key, data, at, its[k].0);
            if let Some(m) = mid {
                assert(x is None || x == Some(m));
                assert(element_end(s, value, data, m, its[k].1) is None);
            } else {
                assert(x is None);
            }
        }
    }
}

/// Where the fields of a struct end, at `pos` on, if `d` is what reading them gives: after the
/// number of serialized fields and the presence list offset, without skippable fields a tuple
/// of the fields that are not always skipped (then the presence list, if any); with skippable
/// fields a variant whose discriminant tells which of them were serialized (see
/// [`presence_discriminant`]; for sorted lists, [`presence_bits`]) holding a tuple of the
/// serialized fields, which the presence list follows right away if there is one.
pub open spec fn struct_end(s: Schema, names: u32, skip: u32, l: u32, data: Seq<u8>, pos: int, d: Described) -> Option<int>
    decreases data.len() - pos, d, 0int,
{
    match (list_at(s.spec_member_lists(), skip), list_at(s.spec_node_lists(), l), names_at(s, names)) {
        (Some(skip_list), Some(nodes), Some(name_list)) => if 0 <= pos && pos + 8 <= data.len() && name_list.len() == nodes.len()
            && 4 * crate::reader::u32_at(data, pos) <= usize::MAX {
            let length = crate::reader::u32_at(data, pos);
            let offset = crate::reader::u32_at(data, pos + 4);
            let start = pos + 8;
            if skip_list.len() == 0 {
                let present = nonzero(nodes, nodes.len() as int);
                match d {
                    Described::Tuple(items) => if present.len() == length && items@.len() == length {
                        match fields_end(s, present, data, start, items@, items@.len() as int) {
                            Some(e) => if offset == ALL_FIELDS_PRESENT {
                                Some(e)
                            } else if e + 4 * length <= data.len() {
                                Some(e + 4 * length)
                            } else {
                                None
                            },
                            None => None,
                        }
                    } else {
                        None
                    },
                    _ => None,
                }
            } else {
                let listed = offset != ALL_FIELDS_PRESENT;
                let at = start + offset;
                let fields = if listed {
                    crate::presence::field_indices(data.subrange(at, at + 4 * length))
                } else {
                    all_fields(length as nat)
                };
                if (listed && at + 4 * length > data.len()) || (!listed && length != nodes.len())
                    || !fields_in_range(fields, nodes.len()) {
                    None
                } else {
                    match d {
                        Described::Variant(bits, disc, inner) => match *inner {
                            Described::Tuple(items) => if bits == skip_list.len() as u32 && items@.len() == fields.len()
                                && disc == crate::presence::presence_discriminant(skip_list, fields) {
                                match fields_end(s, picked(nodes, fields), data, start, items@, items@.len() as int) {
                                    Some(e) => if !listed {
                                        Some(e)
                                    } else if e == at {
                                        Some(at + 4 * length)
                                    } else {
                                        None
                                    },
                                    None => None,
                                }
                            } else {
                                None
                            },
                            _ => None,
                        },
                        _ => None,
                    }
                }
            }
        } else {
            None
        },
        _ => None,
    }
}

/// The bytes that start a struct node with all its fields, of a struct named `name` with the
/// field name list `names` and `count` fields: its header, its field count and the presence
/// list offset that says that no field was skipped.
pub open spec fn full_struct_header(name: u32, names: u32, count: u32) -> Seq<u8> {
    seq![kind_code(TraceNodeKind::Struct)] + le_bytes(name) + le_bytes(names) + le_bytes(count)
        + le_bytes(ALL_FIELDS_PRESENT)
}

/// The four bytes at `p` are those of `x`.
pub proof fn lemma_u32_at_bytes(data: Seq<u8>, p: int, x: u32)
    requires
        data.subrange(p, p + 4) == le_bytes(x),
    ensures
        crate::reader::u32_at(data, p) == x,
{
    crate::trace::lemma_le_bytes_roundtrip(x);
}

/// What the full header of a struct node says, read back from the trace.
pub proof fn lemma_full_struct_header(data: Seq<u8>, at: int, name: u32, names: u32, count: u32)
    requires
        0 <= at,
        at + 17 <= data.len(),
        data.subrange(at, at + 17) == full_struct_header(name, names, count),
    ensures
        node_at_pos(data, at) == Some((TraceNode::Struct(name, names), at + 9)),
        crate::reader::u32_at(data, at + 9) == count,
        crate::reader::u32_at(data, at + 13) == ALL_FIELDS_PRESENT,
{
    let header = full_struct_header(name, names, count);
    let h1 = seq![kind_code(TraceNodeKind::Struct)] + le_bytes(name);
    let h2 = h1 + le_bytes(names);
    let h3 = h2 + le_bytes(count);
    crate::trace::lemma_le_bytes_roundtrip(name);
    crate::trace::lemma_le_bytes_roundtrip(names);
    crate::trace::lemma_le_bytes_roundtrip(count);
    crate::trace::lemma_le_bytes_roundtrip(ALL_FIELDS_PRESENT);
    assert(header == h3 + le_bytes(ALL_FIELDS_PRESENT));
    assert(data.subrange(at + 1, at + 5) =~= le_bytes(name)) by {
        assert(data.subrange(at + 1, at + 5) =~= header.subrange(1, 5));
        assert(header.subrange(1, 5) =~= h1.subrange(1, 5));
    }
    assert(data.subrange(at + 5, at + 9) =~= le_bytes(names)) by {
        assert(data.subrange(at + 5, at + 9) =~= header.subrange(5, 9));
        assert(header.subrange(5, 9) =~= h2.subrange(5, 9));
    }
    assert(data.subrange(at + 9, at + 13) =~= le_bytes(count)) by {
        assert(data.subrange(at + 9, at + 13) =~= header.subrange(9, 13));
        assert(header.subrange(9, 13) =~= h3.subrange(9, 13));
    }
    assert(data.subrange(at + 13, at + 17) =~= le_bytes(ALL_FIELDS_PRESENT)) by {
        assert(data.subrange(at + 13, at + 17) =~= header.subrange(13, 17));
    }
    lemma_u32_at_bytes(data, at + 1, name);
    lemma_u32_at_bytes(data, at + 5, names);
    lemma_u32_at_bytes(data, at + 9, count);
    lemma_u32_at_bytes(data, at + 13, ALL_FIELDS_PRESENT);
    assert(data[at] == header[0]);
    crate::trace::lemma_kind_code_roundtrip(TraceNodeKind::Struct);
}

/// A struct node whose bytes start with the full header of its node and whose fields follow is
/// read as a tuple of those fields.
pub proof fn lemma_full_struct_element(
    s: Schema,
    item: u32,
    name: u32,
    names: u32,
    l: u32,
    nodes: Seq<u32>,
    data: Seq<u8>,
    at: int,
    d: Described,
    end: int,
)
    requires
        node_at(s.node_keys(), item) == Some(SchemaNode::Struct(name, names, 0, l)),
        list_at(s.spec_node_lists(), l) == Some(nodes),
        names_at(s, names) matches Some(name_list) && name_list.len() == nodes.len(),
        nodes.len() <= u32::MAX,
        4 * nodes.len() <= usize::MAX,
        forall|j: int| 0 <= j < nodes.len() ==> #[trigger] nodes[j] != 0,
        0 <= at,
        at + 17 <= data.len(),
        data.subrange(at, at + 17) == full_struct_header(name, names, nodes.len() as u32),
        d matches Described::Tuple(items) && items@.len() == nodes.len()
            && fields_end(s, nodes, data, at + 17, items@, items@.len() as int) == Some(end),
    ensures
        element_end(s, item, data, at, d) == Some(end),
{
    lemma_full_struct_header(data, at, name, names, nodes.len() as u32);
    let trace = TraceNode::Struct(name, names);
    let node = SchemaNode::Struct(name, names, 0, l);
    assert(check_result(s, node, trace, fuel_of(s)) == Some(Some(CheckResult::Simple)));
    lemma_nonzero_all(nodes, nodes.len() as int);
    assert(nodes.take(nodes.len() as int) =~= nodes);
    assert(struct_end(s, names, 0, l, data, at + 9, d) == Some(end));
    assert(finish_end(s, node, data, at + 9, fuel_of(s), d) == Some(end));
    assert(cursor_end(s, node, trace, data, at + 9, fuel_of(s), d) == Some(end));
}

/// Reading an item of a sequence by the full header of its struct gives what reading it through
/// its node gives, where the struct's field count and four bytes per field fit.
pub proof fn law_seq_item_reads_as_element(s: Schema, item: u32, data: Seq<u8>, pos: int, d: Described, end: int)
    requires
        seq_element_end(s, item, data, pos, d) == Some(end),
        node_at(s.node_keys(), item) matches Some(node) && fixed_struct(s, node) matches Some((_, _, nodes))
            ==> nodes.len() <= u32::MAX && 4 * nodes.len() <= usize::MAX,
    ensures
        element_end(s, item, data, pos, d) == Some(end),
{
    if let Some(node) = node_at(s.node_keys(), item) {
        if let Some((name, names, nodes)) = fixed_struct(s, node) {
            if let SchemaNode::Struct(_, _, _, l) = node {
                lemma_full_struct_element(s, item, name, names, l, nodes, data, pos, d, end);
            }
        }
    }
}

/// The items of a sequence of scalars are the kind byte and the bytes of each.
pub proof fn lemma_seq_end_scalar(s: Schema, item: u32, node: SchemaNode, data: Seq<u8>, pos: int, its: Seq<Described>, k: int)
    requires
        node_at(s.node_keys(), item) == Some(node),
        is_scalar_node(node),
        0 <= k,
        seq_end(s, item, data, pos, its, k) is Some,
    ensures
        seq_end(s, item, data, pos, its, k) == Some(pos + k * (1 + scalar_layout(node).1)),
        pos + k * (1 + scalar_layout(node).1) <= data.len(),
    decreases k,
{
    let w = 1 + scalar_layout(node).1;
    if k > 0 {
        assert(seq_end(s, item, data, pos, its, k - 1) is Some);
        lemma_seq_end_scalar(s, item, node, data, pos, its, k - 1);
        let at = pos + (k - 1) * w;
        assert(fixed_struct(s, node) is None);
        assert(seq_element_end(s, item, data, at, its[k - 1]) == element_end(s, item, data, at, its[k - 1]));
        assert(element_end(s, item, data, at, its[k - 1]) is Some);
        assert(element_end(s, item, data, at, its[k - 1]) == Some(at + w));
        assert(at + w == pos + k * w) by (nonlinear_arith)
            requires
                at == pos + (k - 1) * w,
        ;
    } else {
        assert(pos + k * w == pos) by (nonlinear_arith)
            requires
                k == 0,
        ;
    }
}

/// Where the fields of a struct without skippable fields end, from what reading them gave.
pub proof fn lemma_struct_end_plain(s: Schema, names: u32, skip: u32, l: u32, nodes: Seq<u32>, data: Seq<u8>, pos: int, d: Described, e: int, end: int)
    requires
        list_at(s.spec_member_lists(), skip) matches Some(skip_list) && skip_list.len() == 0,
        list_at(s.spec_node_lists(), l) == Some(nodes),
        names_at(s, names) matches Some(name_list) && name_list.len() == nodes.len(),
        0 <= pos,
        pos + 8 <= data.len(),
        4 * crate::reader::u32_at(data, pos) <= usize::MAX,
        nonzero(nodes, nodes.len() as int).len() == crate::reader::u32_at(data, pos),
        d matches Described::Tuple(items) && items@.len() == crate::reader::u32_at(data, pos)
            && fields_end(s, nonzero(nodes, nodes.len() as int), data, pos + 8, items@, items@.len() as int) == Some(e),
        crate::reader::u32_at(data, pos + 4) == ALL_FIELDS_PRESENT ==> end == e,
        crate::reader::u32_at(data, pos + 4) != ALL_FIELDS_PRESENT ==> end == e + 4 * crate::reader::u32_at(data, pos)
            && end <= data.len(),
    ensures
        struct_end(s, names, skip, l, data, pos, d) == Some(end),
{
}

/// Every reading of the fields of a struct without skippable fields fails or ends at `end`,
/// from how every reading of its serialized fields ends (`e`: at one place, or never).
pub proof fn lemma_struct_plain_reads(
    s: Schema,
    names: u32,
    skip: u32,
    l: u32,
    nodes: Seq<u32>,
    data: Seq<u8>,
    pos: int,
    e: Option<int>,
    end: Option<int>,
)
    requires
        list_at(s.spec_member_lists(), skip) matches Some(skip_list) && skip_list.len() == 0,
        list_at(s.spec_node_lists(), l) == Some(nodes),
        0 <= pos,
        ({
            let present = nonzero(nodes, nodes.len() as int);
            let length = crate::reader::u32_at(data, pos);
            &&& e is None ==> forall|its: Seq<Described>| its.len() == present.len()
                ==> #[trigger] fields_end(s, present, data, pos + 8, its, its.len() as int) is None
            &&& e matches Some(x) ==> fields_end_at(s, present, data, pos + 8, present.len() as int, x)
            &&& end == match e {
                Some(x) => if crate::reader::u32_at(data, pos + 4) == ALL_FIELDS_PRESENT {
                    Some(x)
                } else if x + 4 * length <= data.len() {
                    Some(x + 4 * length)
                } else {
                    None
                },
                None => None,
            }
        }),
    ensures
        forall|d: Described| #[trigger] struct_end(s, names, skip, l, data, pos, d) is None
            || struct_end(s, names, skip, l, data, pos, d) == end,
{
    let present = nonzero(nodes, nodes.len() as int);
    assert forall|d: Described| #[trigger] struct_end(s, names, skip, l, data, pos, d) is None
        || struct_end(s, names, skip, l, data, pos, d) == end by {
        if let Described::Tuple(items) = d {
            if items@.len() == present.len() {
                let f = fields_end(s, present, data, pos + 8, items@, items@.len() as int);
                assert(f is None || e == f);
            }
        }
    }
}

/// Where the fields of a struct with skippable fields end, from what reading them gave.
pub proof fn lemma_struct_end_variant(
    s: Schema,
    names: u32,
    skip: u32,
    l: u32,
    nodes: Seq<u32>,
    data: Seq<u8>,
    pos: int,
    fields: Seq<u32>,
    d: Described,
    e: int,
    end: int,
)
    requires
        list_at(s.spec_member_lists(), skip) matches Some(skip_list) && skip_list.len() > 0,
        list_at(s.spec_node_lists(), l) == Some(nodes),
        names_at(s, names) matches Some(name_list) && name_list.len() == nodes.len(),
        0 <= pos,
        pos + 8 <= data.len(),
        4 * crate::reader::u32_at(data, pos) <= usize::MAX,
        ({
            let length = crate::reader::u32_at(data, pos);
            let offset = crate::reader::u32_at(data, pos + 4);
            let at = pos + 8 + offset;
            &&& offset == ALL_FIELDS_PRESENT ==> length == nodes.len() && end == e
                && fields =~= all_fields(length as nat)
            &&& offset != ALL_FIELDS_PRESENT ==> at + 4 * length <= data.len() && e == at && end == at + 4 * length
                && fields == crate::presence::field_indices(data.subrange(at, at + 4 * length))
        }),
        forall|k: int| 0 <= k < fields.len() ==> #[trigger] fields[k] < nodes.len(),
        d matches Described::Variant(bits, disc, inner) && *inner matches Described::Tuple(items)
            && list_at(s.spec_member_lists(), skip) matches Some(skip_list)
            && bits == skip_list.len() as u32 && items@.len() == fields.len()
            && disc == crate::presence::presence_discriminant(skip_list, fields)
            && fields_end(s, picked(nodes, fields), data, pos + 8, items@, items@.len() as int) == Some(e),
    ensures
        struct_end(s, names, skip, l, data, pos, d) == Some(end),
{
    let length = crate::reader::u32_at(data, pos);
    let offset = crate::reader::u32_at(data, pos + 4);
    let at = pos + 8 + offset;
    let spec_fields = if offset != ALL_FIELDS_PRESENT {
        crate::presence::field_indices(data.subrange(at, at + 4 * length))
    } else {
        all_fields(length as nat)
    };
    assert(spec_fields =~= fields);
}

/// Whether each of `fields` is the index of one of `n` fields.
pub open spec fn fields_in_range(fields: Seq<u32>, n: nat) -> bool {
    forall|k: int| 0 <= k < fields.len() ==> #[trigger] fields[k] < n
}

/// The indices of all of `n` fields, in order.
pub open spec fn all_fields(n: nat) -> Seq<u32> {
    Seq::new(n, |i: int| i as u32)
}

/// Whether `fields` are the serialized fields that the struct header at `pos` lists: all of them
/// in order where the presence list offset says so, else those its presence list holds.
pub open spec fn listed_fields(data: Seq<u8>, pos: int, fields: Seq<u32>) -> bool {
    let length = crate::reader::u32_at(data, pos);
    let offset = crate::reader::u32_at(data, pos + 4);
    let at = pos + 8 + offset;
    &&& offset == ALL_FIELDS_PRESENT ==> fields == all_fields(length as nat)
    &&& offset != ALL_FIELDS_PRESENT && at + 4 * length <= data.len()
        ==> fields == crate::presence::field_indices(data.subrange(at, at + 4 * length))
}

/// Every reading of the fields of a struct with skippable fields fails or ends at `end`, from
/// which fields it serialized and how every reading of them ends (`e`: at one place, or never).
pub proof fn lemma_struct_variant_reads(
    s: Schema,
    names: u32,
    skip: u32,
    l: u32,
    nodes: Seq<u32>,
    data: Seq<u8>,
    pos: int,
    fields: Seq<u32>,
    e: Option<int>,
    end: Option<int>,
)
    requires
        list_at(s.spec_member_lists(), skip) matches Some(skip_list) && skip_list.len() > 0,
        list_at(s.spec_node_lists(), l) == Some(nodes),
        0 <= pos,
        listed_fields(data, pos, fields),
        ({
            let length = crate::reader::u32_at(data, pos);
            let offset = crate::reader::u32_at(data, pos + 4);
            let at = pos + 8 + offset;
            let out_of_bounds = !fields_in_range(fields, nodes.len());
            &&& !out_of_bounds && e is None ==> forall|its: Seq<Described>| its.len() == fields.len()
                ==> #[trigger] fields_end(s, picked(nodes, fields), data, pos + 8, its, its.len() as int) is None
            &&& !out_of_bounds ==> (e matches Some(x)
                ==> fields_end_at(s, picked(nodes, fields), data, pos + 8, fields.len() as int, x))
            &&& out_of_bounds ==> end is None
            &&& !out_of_bounds ==> end == match e {
                Some(x) => if offset == ALL_FIELDS_PRESENT {
                    Some(x)
                } else if x == at {
                    Some(at + 4 * length)
                } else {
                    None
                },
                None => None,
            }
        }),
    ensures
        forall|d: Described| #[trigger] struct_end(s, names, skip, l, data, pos, d) is None
            || struct_end(s, names, skip, l, data, pos, d) == end,
{
    let length = crate::reader::u32_at(data, pos);
    let offset = crate::reader::u32_at(data, pos + 4);
    let at = pos + 8 + offset;
    let listed = offset != ALL_FIELDS_PRESENT;
    let spec_fields = if listed {
        crate::presence::field_indices(data.subrange(at, at + 4 * length))
    } else {
        all_fields(length as nat)
    };
    let out_of_bounds = !fields_in_range(fields, nodes.len());
    if listed && at + 4 * length > data.len() {
        assert forall|d: Described| #[trigger] struct_end(s, names, skip, l, data, pos, d) is None by {}
    } else {
        assert(spec_fields == fields);
        if out_of_bounds {
            assert forall|d: Described| #[trigger] struct_end(s, names, skip, l, data, pos, d) is None by {}
        } else {
            assert forall|d: Described| #[trigger] struct_end(s, names, skip, l, data, pos, d) is None
                || struct_end(s, names, skip, l, data, pos, d) == end by {
                if let Described::Variant(bits, disc, inner) = d {
                    if let Described::Tuple(items) = *inner {
                        if items@.len() == fields.len() {
                            let f = fields_end(s, picked(nodes, fields), data, pos + 8, items@, items@.len() as int);
                            assert(f is None || e == f);
                        }
                    }
                }
            }
        }
    }
}

/// Leaving out entries that are the empty union keeps the order of the rest: the first `i`
/// entries keep a prefix of what the first `n` keep.
pub proof fn lemma_nonzero_prefix(nodes: Seq<u32>, i: int, n: int)
    requires
        0 <= i <= n <= nodes.len(),
    ensures
        nonzero(nodes, i).len() <= nonzero(nodes, n).len(),
        forall|j: int| 0 <= j < nonzero(nodes, i).len() ==> #[trigger] nonzero(nodes, i)[j] == nonzero(nodes, n)[j],
    decreases n - i,
{
    if i < n {
        lemma_nonzero_prefix(nodes, i, n - 1);
    }
}

/// Whether `v` is what reading the trace `data` by the schema `s` gives: its first node read as
/// the schema's root node describes it.
pub open spec fn describes(s: Schema, data: Seq<u8>, v: Described) -> bool {
    match (node_at(s.node_keys(), s.root_index), node_at_pos(data, 0)) {
        (Some(node), Some((first, next))) => cursor_end(s, node, first, data, next, fuel_of(s), v) is Some,
        _ => false,
    }
}

/// Whether `a` and `b` are the same description: the same variant with the same contents, lists
/// compared item by item.
pub open spec fn same_described(a: Described, b: Described) -> bool
    decreases a, 0int,
{
    match (a, b) {
        (Described::String(x), Described::String(y)) => x@ == y@,
        (Described::Bytes(x), Described::Bytes(y)) => x@ == y@,
        (Described::Sequence(x), Described::Sequence(y)) => x@.len() == y@.len()
            && same_items(x@, y@, x@.len() as int),
        (Described::Tuple(x), Described::Tuple(y)) => x@.len() == y@.len()
            && same_items(x@, y@, x@.len() as int),
        (Described::Mapping(x), Described::Mapping(y)) => x@.len() == y@.len()
            && same_entries(x@, y@, x@.len() as int),
        (Described::Variant(bits, disc, x), Described::Variant(other_bits, other_disc, y)) =>
            bits == other_bits && disc == other_disc && same_described(*x, *y),
        _ => a == b,
    }
}

/// Whether the first `k` items of `x` and `y` are the same descriptions.
pub open spec fn same_items(x: Seq<Described>, y: Seq<Described>, k: int) -> bool
    decreases x, k,
{
    if k <= 0 || k > x.len() || k > y.len() {
        k <= 0
    } else {
        same_items(x, y, k - 1) && same_described(x[k - 1], y[k - 1])
    }
}

/// Whether the first `k` entries of `x` and `y` are the same descriptions.
pub open spec fn same_entries(x: Seq<(Described, Described)>, y: Seq<(Described, Described)>, k: int) -> bool
    decreases x, k,
{
    if k <= 0 || k > x.len() || k > y.len() {
        k <= 0
    } else {
        same_entries(x, y, k - 1) && same_described(x[k - 1].0, y[k - 1].0)
            && same_described(x[k - 1].1, y[k - 1].1)
    }
}

/// Two readings of an element that both succeed end at one place and give the same description.
pub proof fn lemma_element_end_unique(s: Schema, index: u32, data: Seq<u8>, pos: int, d1: Described, d2: Described)
    requires
        element_end(s, index, data, pos, d1) is Some,
        element_end(s, index, data, pos, d2) is Some,
    ensures
        element_end(s, index, data, pos, d1) == element_end(s, index, data, pos, d2),
        same_described(d1, d2),
    decreases data.len() - pos, d1, 0int,
{
    let node = node_at(s.node_keys(), index)->Some_0;
    if !is_scalar_node(node) {
        let (trace, next) = node_at_pos(data, pos)->Some_0;
        lemma_cursor_end_unique(s, node, trace, data, next, fuel_of(s), d1, d2);
    }
}

/// Two readings of a trace node that both succeed end at one place and give the same
/// description.
pub proof fn lemma_cursor_end_unique(
    s: Schema,
    node: SchemaNode,
    trace: TraceNode,
    data: Seq<u8>,
    pos: int,
    fuel: nat,
    d1: Described,
    d2: Described,
)
    requires
        cursor_end(s, node, trace, data, pos, fuel, d1) is Some,
        cursor_end(s, node, trace, data, pos, fuel, d2) is Some,
    ensures
        cursor_end(s, node, trace, data, pos, fuel, d1) == cursor_end(s, node, trace, data, pos, fuel, d2),
        same_described(d1, d2),
    decreases data.len() - pos, d1, 2int,
{
    match check_result(s, node, trace, fuel) {
        Some(Some(CheckResult::Discriminated(j, n, child))) => {
            if let (Described::Variant(_, _, x), Described::Variant(_, _, y)) = (d1, d2) {
                lemma_cursor_end_unique(s, child, trace, data, pos, (fuel - 1) as nat, *x, *y);
            }
        },
        _ => {
            lemma_finish_end_unique(s, node, data, pos, fuel, d1, d2);
        },
    }
}

/// Two readings of the contents of a node that both succeed end at one place and give the same
/// description.
pub proof fn lemma_finish_end_unique(
    s: Schema,
    node: SchemaNode,
    data: Seq<u8>,
    pos: int,
    fuel: nat,
    d1: Described,
    d2: Described,
)
    requires
        finish_end(s, node, data, pos, fuel, d1) is Some,
        finish_end(s, node, data, pos, fuel, d2) is Some,
    ensures
        finish_end(s, node, data, pos, fuel, d1) == finish_end(s, node, data, pos, fuel, d2),
        same_described(d1, d2),
    decreases data.len() - pos, d1, 1int,
{
    if !is_scalar_node(node) {
        match node {
            SchemaNode::OptionSome(inner) | SchemaNode::NewtypeStruct(_, inner) | SchemaNode::NewtypeVariant(_, _, inner) => {
                lemma_element_end_unique(s, inner, data, pos, d1, d2);
            },
            SchemaNode::Mapping(key, value) => {
                if let (Described::Mapping(x), Described::Mapping(y)) = (d1, d2) {
                    lemma_entries_end_unique(s, key, value, data, pos + 4, x@, y@, x@.len() as int);
                }
            },
            SchemaNode::Sequence(item) => {
                if let (Described::Sequence(x), Described::Sequence(y)) = (d1, d2) {
                    lemma_seq_end_unique(s, item, data, pos + 4, x@, y@, x@.len() as int);
                }
            },
            SchemaNode::Tuple(l) | SchemaNode::TupleStruct(_, l) | SchemaNode::TupleVariant(_, _, l) => {
                if let (Described::Tuple(x), Described::Tuple(y)) = (d1, d2) {
                    let nodes = list_at(s.spec_node_lists(), l)->Some_0;
                    lemma_fields_end_unique(s, nodes, data, pos, x@, y@, x@.len() as int);
                }
            },
            SchemaNode::Struct(_, names, skip, l) | SchemaNode::StructVariant(_, _, names, skip, l) => {
                lemma_struct_end_unique(s, names, skip, l, data, pos, d1, d2);
            },
            _ => {},
        }
    }
}

/// Two readings of the first `k` elements that both succeed end at one place and give the same
/// descriptions.
pub proof fn lemma_fields_end_unique(
    s: Schema,
    nodes: Seq<u32>,
    data: Seq<u8>,
    pos: int,
    x: Seq<Described>,
    y: Seq<Described>,
    k: int,
)
    requires
        fields_end(s, nodes, data, pos, x, k) is Some,
        fields_end(s, nodes, data, pos, y, k) is Some,
    ensures
        fields_end(s, nodes, data, pos, x, k) == fields_end(s, nodes, data, pos, y, k),
        same_items(x, y, k),
    decreases data.len() - pos, x, k,
{
    if k > 0 {
        lemma_fields_end_unique(s, nodes, data, pos, x, y, k - 1);
        let at = fields_end(s, nodes, data, pos, x, k - 1)->Some_0;
        lemma_element_end_unique(s, nodes[k - 1], data, at, x[k - 1], y[k - 1]);
    }
}

/// Two readings of the first `k` entries of a map that both succeed end at one place and give
/// the same descriptions.
pub proof fn lemma_entries_end_unique(
    s: Schema,
    key: u32,
    value: u32,
    data: Seq<u8>,
    pos: int,
    x: Seq<(Described, Described)>,
    y: Seq<(Described, Described)>,
    k: int,
)
    requires
        entries_end(s, key, value, data, pos, x, k) is Some,
        entries_end(s, key, value, data, pos, y, k) is Some,
    ensures
        entries_end(s, key, value, data, pos, x, k) == entries_end(s, key, value, data, pos, y, k),
        same_entries(x, y, k),
    decreases data.len() - pos, x, k,
{
    if k > 0 {
        lemma_entries_end_unique(s, key, value, data, pos, x, y, k - 1);
        let at = entries_end(s, key, value, data, pos, x, k - 1)->Some_0;
        lemma_element_end_unique(s, key, data, at, x[k - 1].0, y[k - 1].0);
        let mid = element_end(s, key, data, at, x[k - 1].0)->Some_0;
        lemma_element_end_unique(s, value, data, mid, x[k - 1].1, y[k - 1].1);
    }
}

/// Two readings of the first `k` items of a sequence that both succeed end at one place and give
/// the same descriptions.
pub proof fn lemma_seq_end_unique(
    s: Schema,
    item: u32,
    data: Seq<u8>,
    pos: int,
    x: Seq<Described>,
    y: Seq<Described>,
    k: int,
)
    requires
        seq_end(s, item, data, pos, x, k) is Some,
        seq_end(s, item, data, pos, y, k) is Some,
    ensures
        seq_end(s, item, data, pos, x, k) == seq_end(s, item, data, pos, y, k),
        same_items(x, y, k),
    decreases data.len() - pos, x, k,
{
    if k > 0 {
        lemma_seq_end_unique(s, item, data, pos, x, y, k - 1);
        let at = seq_end(s, item, data, pos, x, k - 1)->Some_0;
        lemma_seq_element_end_unique(s, item, data, at, x[k - 1], y[k - 1]);
    }
}

/// Two readings of an item of a sequence that both succeed end at one place and give the same
/// description.
pub proof fn lemma_seq_element_end_unique(s: Schema, item: u32, data: Seq<u8>, pos: int, d1: Described, d2: Described)
    requires
        seq_element_end(s, item, data, pos, d1) is Some,
        seq_element_end(s, item, data, pos, d2) is Some,
    ensures
        seq_element_end(s, item, data, pos, d1) == seq_element_end(s, item, data, pos, d2),
        same_described(d1, d2),
    decreases data.len() - pos, d1, 1int,
{
    let node = node_at(s.node_keys(), item)->Some_0;
    match fixed_struct(s, node) {
        Some((_, _, nodes)) => {
            if let (Described::Tuple(x), Described::Tuple(y)) = (d1, d2) {
                lemma_fields_end_unique(s, nodes, data, pos + 17, x@, y@, x@.len() as int);
            }
        },
        None => {
            lemma_element_end_unique(s, item, data, pos, d1, d2);
        },
    }
}

/// Two readings of the fields of a struct that both succeed end at one place and give the same
/// description.
pub proof fn lemma_struct_end_unique(
    s: Schema,
    names: u32,
    skip: u32,
    l: u32,
    data: Seq<u8>,
    pos: int,
    d1: Described,
    d2: Described,
)
    requires
        struct_end(s, names, skip, l, data, pos, d1) is Some,
        struct_end(s, names, skip, l, data, pos, d2) is Some,
    ensures
        struct_end(s, names, skip, l, data, pos, d1) == struct_end(s, names, skip, l, data, pos, d2),
        same_described(d1, d2),
    decreases data.len() - pos, d1, 0int,
{
    let skip_list = list_at(s.spec_member_lists(), skip)->Some_0;
    let nodes = list_at(s.spec_node_lists(), l)->Some_0;
    if skip_list.len() == 0 {
        if let (Described::Tuple(x), Described::Tuple(y)) = (d1, d2) {
            lemma_fields_end_unique(s, nonzero(nodes, nodes.len() as int), data, pos + 8, x@, y@, x@.len() as int);
            assert(x@.len() == y@.len());
        }
    } else {
        let length = crate::reader::u32_at(data, pos);
        let offset = crate::reader::u32_at(data, pos + 4);
        let at = pos + 8 + offset;
        let fields = if offset != ALL_FIELDS_PRESENT {
            crate::presence::field_indices(data.subrange(at, at + 4 * length))
        } else {
            all_fields(length as nat)
        };
        if let (Described::Variant(b1, c1, x), Described::Variant(b2, c2, y)) = (d1, d2) {
            if let (Described::Tuple(xs), Described::Tuple(ys)) = (*x, *y) {
                lemma_fields_end_unique(s, picked(nodes, fields), data, pos + 8, xs@, ys@, xs@.len() as int);
                assert(b1 == b2);
                assert(c1 == c2);
                assert(xs@.len() == ys@.len());
                assert(same_described(*x, *y));
            }
        }
    }
}

/// Reading a trace by a schema gives at most one description: two descriptions that both read
/// the trace are the same.
pub proof fn law_describes_unique(s: Schema, data: Seq<u8>, v1: Described, v2: Described)
    requires
        describes(s, data, v1),
        describes(s, data, v2),
    ensures
        same_described(v1, v2),
{
    let node = node_at(s.node_keys(), s.root_index)->Some_0;
    let (first, next) = node_at_pos(data, 0)->Some_0;
    lemma_cursor_end_unique(s, node, first, data, next, fuel_of(s), v1, v2);
}

} // verus!
