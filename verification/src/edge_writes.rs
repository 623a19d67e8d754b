//! The keys an edge occupies in its label's keyspace: what creating an edge
//! writes (the OUT entry with the edge data, the IN entry or, for an
//! undirected label, the reverse OUT entry, the ID lookup entry and the
//! field-index entries), and what deleting it removes.

use vstd::prelude::*;
use crate::config::StorageError;
use crate::document::{get_field, lookup_field, str_eq, string_views};
use crate::edge_keys::EdgeCardinality;
use crate::encoding::{
    encode_edge_field_index_key, encode_edge_id_key, encode_edge_id_value, encode_edge_in_key_multi,
    encode_edge_in_key_single, encode_edge_out_key_multi, encode_edge_out_key_single, spec_field_value_prefix,
    spec_pair_key, spec_triple_key, utf8, EDGE_PREFIX_ID, EDGE_PREFIX_IN, EDGE_PREFIX_OUT,
};
use crate::order::{lemma_text_order_total, text_le, text_lt, text_order};
use crate::value::{entry_models_from, Value, ValueModel};

verus! {

/// What is stored under a key an edge occupies.
#[derive(Debug, PartialEq, Eq)]
pub enum EdgeValue {
    /// The serialized edge data.
    Data,
    /// These bytes.
    Bytes(Vec<u8>),
}

pub enum EdgeValueModel {
    Data,
    Bytes(Seq<u8>),
}

impl View for EdgeValue {
    type V = EdgeValueModel;

    open spec fn view(&self) -> EdgeValueModel {
        match self {
            EdgeValue::Data => EdgeValueModel::Data,
            EdgeValue::Bytes(b) => EdgeValueModel::Bytes(b@),
        }
    }
}

/// One key written for an edge.
#[derive(Debug, PartialEq, Eq)]
pub struct EdgeKeyWrite {
    pub key: Vec<u8>,
    pub value: EdgeValue,
}

impl View for EdgeKeyWrite {
    type V = (Seq<u8>, EdgeValueModel);

    open spec fn view(&self) -> (Seq<u8>, EdgeValueModel) {
        (self.key@, self.value@)
    }
}

/// The endpoints an edge is stored under: as given for a directed label;
/// for an undirected one, the lesser (in `str` order) first.
pub open spec fn spec_stored_endpoints(undirected: bool, from: Seq<char>, to: Seq<char>) -> (Seq<char>, Seq<char>) {
    if undirected && !text_le(from, to) {
        (to, from)
    } else {
        (from, to)
    }
}

/// The OUT key of an edge stored from `f` to `t`.
pub open spec fn spec_out_key(card: EdgeCardinality, f: Seq<char>, t: Seq<char>, id: Seq<char>) -> Seq<u8> {
    match card {
        EdgeCardinality::Single => spec_pair_key(EDGE_PREFIX_OUT, f, t),
        EdgeCardinality::Multiple => spec_triple_key(EDGE_PREFIX_OUT, f, t, id),
    }
}

/// The IN key of an edge stored from `f` to `t`.
pub open spec fn spec_in_key(card: EdgeCardinality, f: Seq<char>, t: Seq<char>, id: Seq<char>) -> Seq<u8> {
    match card {
        EdgeCardinality::Single => spec_pair_key(EDGE_PREFIX_IN, t, f),
        EdgeCardinality::Multiple => spec_triple_key(EDGE_PREFIX_IN, t, f, id),
    }
}

/// The ID lookup key of an edge.
pub open spec fn spec_id_key(id: Seq<char>) -> Seq<u8> {
    seq![EDGE_PREFIX_ID] + utf8(id)
}

/// The ID lookup value: the stored endpoints, `f | 0x00 | t`.
pub open spec fn spec_id_value(f: Seq<char>, t: Seq<char>) -> Seq<u8> {
    utf8(f) + seq![0u8] + utf8(t)
}

/// The second key of an edge stored from `f` to `t`: the reverse OUT key
/// for an undirected label, the IN key for a directed one.
pub open spec fn spec_second_key(card: EdgeCardinality, undirected: bool, f: Seq<char>, t: Seq<char>, id: Seq<char>) -> Seq<u8> {
    if undirected {
        spec_out_key(card, t, f, id)
    } else {
        spec_in_key(card, f, t, id)
    }
}

/// What the second key holds: the edge data under a reverse OUT key; under
/// an IN key the edge id (single cardinality) or nothing (multiple, where
/// the key ends with the id).
pub open spec fn spec_second_value(card: EdgeCardinality, undirected: bool, id: Seq<char>) -> EdgeValueModel {
    if undirected {
        EdgeValueModel::Data
    } else {
        match card {
            EdgeCardinality::Single => EdgeValueModel::Bytes(utf8(id)),
            EdgeCardinality::Multiple => EdgeValueModel::Bytes(seq![]),
        }
    }
}

/// The entries creating an edge writes, before its field-index entries:
/// OUT, then IN or reverse OUT, then the ID lookup.
pub open spec fn spec_edge_writes(card: EdgeCardinality, undirected: bool, from: Seq<char>, to: Seq<char>, id: Seq<char>) -> Seq<(Seq<u8>, EdgeValueModel)> {
    let (f, t) = spec_stored_endpoints(undirected, from, to);
    seq![
        (spec_out_key(card, f, t, id), EdgeValueModel::Data),
        (spec_second_key(card, undirected, f, t, id), spec_second_value(card, undirected, id)),
        (spec_id_key(id), EdgeValueModel::Bytes(spec_id_value(f, t))),
    ]
}

/// The entries of an edge itself that deleting it, stored from `f` to `t`,
/// removes: OUT, IN or reverse OUT, and the ID lookup (a deletion inside a
/// batch removes these alone; `spec_edge_deletion` adds the field-index
/// entries).
pub open spec fn spec_edge_removals(card: EdgeCardinality, undirected: bool, f: Seq<char>, t: Seq<char>, id: Seq<char>) -> Seq<Seq<u8>> {
    seq![spec_out_key(card, f, t, id), spec_second_key(card, undirected, f, t, id), spec_id_key(id)]
}

/// The endpoints an edge is stored under (see `spec_stored_endpoints`).
pub fn stored_endpoints<'a>(undirected: bool, from: &'a str, to: &'a str) -> (r: (&'a str, &'a str))
    ensures
        (r.0@, r.1@) == spec_stored_endpoints(undirected, from@, to@),
{
    if undirected && text_lt(to, from) {
        (to, from)
    } else {
        (from, to)
    }
}

fn out_key(card: EdgeCardinality, f: &str, t: &str, id: &str) -> (r: Vec<u8>)
    ensures
        r@ == spec_out_key(card, f@, t@, id@),
{
    match card {
        EdgeCardinality::Single => encode_edge_out_key_single(f, t),
        EdgeCardinality::Multiple => encode_edge_out_key_multi(f, t, id),
    }
}

fn second_key(card: EdgeCardinality, undirected: bool, f: &str, t: &str, id: &str) -> (r: Vec<u8>)
    ensures
        r@ == spec_second_key(card, undirected, f@, t@, id@),
{
    if undirected {
        out_key(card, t, f, id)
    } else {
        match card {
            EdgeCardinality::Single => encode_edge_in_key_single(t, f),
            EdgeCardinality::Multiple => encode_edge_in_key_multi(t, f, id),
        }
    }
}

/// The entries creating an edge writes (before its field-index entries),
/// given its label's cardinality and direction, its endpoints as given and
/// its id.
pub fn plan_edge_writes(card: EdgeCardinality, undirected: bool, from: &str, to: &str, id: &str) -> (r: Vec<EdgeKeyWrite>)
    ensures
        r@.map_values(|w: EdgeKeyWrite| w@) == spec_edge_writes(card, undirected, from@, to@, id@),
{
    let (f, t) = stored_endpoints(undirected, from, to);
    let second_value = if undirected {
        EdgeValue::Data
    } else {
        match card {
            EdgeCardinality::Single => {
                let mut b: Vec<u8> = Vec::new();
                crate::bytes::extend_bytes(&mut b, id.as_bytes());
                EdgeValue::Bytes(b)
            },
            EdgeCardinality::Multiple => EdgeValue::Bytes(Vec::new()),
        }
    };
    let mut r: Vec<EdgeKeyWrite> = Vec::new();
    r.push(EdgeKeyWrite { key: out_key(card, f, t, id), value: EdgeValue::Data });
    r.push(EdgeKeyWrite { key: second_key(card, undirected, f, t, id), value: second_value });
    r.push(EdgeKeyWrite { key: encode_edge_id_key(id), value: EdgeValue::Bytes(encode_edge_id_value(f, t)) });
    proof {
        assert(spec_second_value(card, undirected, id@) == second_value@) by {
            if !undirected && card == EdgeCardinality::Multiple {
                assert(second_value@ == EdgeValueModel::Bytes(Seq::<u8>::empty()));
            }
        }
    }
    assert(r@.map_values(|w: EdgeKeyWrite| w@) =~= spec_edge_writes(card, undirected, from@, to@, id@));
    r
}

/// The entries deleting an edge stored from `from` to `to` removes.
pub fn plan_edge_removals(card: EdgeCardinality, undirected: bool, from: &str, to: &str, id: &str) -> (r: Vec<Vec<u8>>)
    ensures
        r@.map_values(|k: Vec<u8>| k@) == spec_edge_removals(card, undirected, from@, to@, id@),
{
    let mut r: Vec<Vec<u8>> = Vec::new();
    r.push(out_key(card, from, to, id));
    r.push(second_key(card, undirected, from, to, id));
    r.push(encode_edge_id_key(id));
    assert(r@.map_values(|k: Vec<u8>| k@) =~= spec_edge_removals(card, undirected, from@, to@, id@));
    r
}

/// The entries deleting an edge stored from `f` to `t` removes, given its
/// fields and its label's indexes: its own entries, then its field-index
/// entries.
pub open spec fn spec_edge_deletion(
    card: EdgeCardinality,
    undirected: bool,
    f: Seq<char>,
    t: Seq<char>,
    id: Seq<char>,
    indexes: Seq<Seq<Seq<char>>>,
    fields: Seq<(Seq<char>, ValueModel)>,
) -> Seq<Seq<u8>> {
    spec_edge_removals(card, undirected, f, t, id) + spec_field_index_keys(indexes, fields, id)
}

/// The entries deleting an edge stored from `from` to `to` removes, its
/// field-index entries (for its label's indexes and its fields) included.
pub fn plan_edge_deletion(
    card: EdgeCardinality,
    undirected: bool,
    from: &str,
    to: &str,
    id: &str,
    indexes: &Vec<Vec<String>>,
    fields: &Vec<(String, Value)>,
) -> (r: Vec<Vec<u8>>)
    ensures
        r@.map_values(|k: Vec<u8>| k@) == spec_edge_deletion(
            card,
            undirected,
            from@,
            to@,
            id@,
            name_lists(indexes@),
            entry_models_from(fields@, 0),
        ),
{
    let mut r = plan_edge_removals(card, undirected, from, to, id);
    let mut f = plan_field_index_keys(indexes, fields, id);
    let ghost a = r@;
    let ghost b = f@;
    r.append(&mut f);
    assert(r@.map_values(|k: Vec<u8>| k@) =~= a.map_values(|k: Vec<u8>| k@) + b.map_values(|k: Vec<u8>| k@));
    r
}

/// Law: deleting an edge by the endpoints its ID lookup entry records, with
/// the fields it was created with, removes exactly the entries creating it
/// wrote: its own entries and its field-index entries.
pub proof fn law_deletion_undoes_creation(
    card: EdgeCardinality,
    undirected: bool,
    from: Seq<char>,
    to: Seq<char>,
    id: Seq<char>,
    indexes: Seq<Seq<Seq<char>>>,
    fields: Seq<(Seq<char>, ValueModel)>,
)
    ensures
        ({
            let (f, t) = spec_stored_endpoints(undirected, from, to);
            spec_edge_deletion(card, undirected, f, t, id, indexes, fields) == spec_edge_writes(
                card,
                undirected,
                from,
                to,
                id,
            ).map_values(|e: (Seq<u8>, EdgeValueModel)| e.0) + spec_field_index_keys(indexes, fields, id)
        }),
{
    law_removal_undoes_creation(card, undirected, from, to, id);
}

/// The OUT key an edge from `a` to `b` is listed under at `a`.
pub open spec fn listed_out(card: EdgeCardinality, a: Seq<char>, b: Seq<char>, id: Seq<char>) -> Seq<u8> {
    match card {
        EdgeCardinality::Single => spec_pair_key(EDGE_PREFIX_OUT, a, b),
        EdgeCardinality::Multiple => spec_triple_key(EDGE_PREFIX_OUT, a, b, id),
    }
}

/// Law: creating an edge lists it where its scans look for it. For an
/// undirected label the edge data is written under an OUT key from `from` to
/// `to` and under one from `to` to `from`, whichever order the endpoints are
/// given in, so both endpoints list it among their outgoing edges; for a
/// directed label it is written under the OUT key from `from`, and `to`
/// gets an IN key naming `from` (holding the edge id for single
/// cardinality).
pub proof fn law_edge_listed_at_endpoints(card: EdgeCardinality, from: Seq<char>, to: Seq<char>, id: Seq<char>)
    ensures
        spec_edge_writes(card, true, from, to, id).contains((listed_out(card, from, to, id), EdgeValueModel::Data)),
        spec_edge_writes(card, true, from, to, id).contains((listed_out(card, to, from, id), EdgeValueModel::Data)),
        spec_edge_writes(card, false, from, to, id).contains((listed_out(card, from, to, id), EdgeValueModel::Data)),
        spec_edge_writes(card, false, from, to, id).contains(
            match card {
                EdgeCardinality::Single => (spec_pair_key(EDGE_PREFIX_IN, to, from), EdgeValueModel::Bytes(utf8(id))),
                EdgeCardinality::Multiple => (spec_triple_key(EDGE_PREFIX_IN, to, from, id), EdgeValueModel::Bytes(seq![])),
            },
        ),
{
    let u = spec_edge_writes(card, true, from, to, id);
    let d = spec_edge_writes(card, false, from, to, id);
    assert(u[0] == (listed_out(card, spec_stored_endpoints(true, from, to).0, spec_stored_endpoints(true, from, to).1, id), EdgeValueModel::Data));
    assert(u[1] == (listed_out(card, spec_stored_endpoints(true, from, to).1, spec_stored_endpoints(true, from, to).0, id), EdgeValueModel::Data));
    assert(d[0] == (listed_out(card, from, to, id), EdgeValueModel::Data));
    assert(d[1] == match card {
        EdgeCardinality::Single => (spec_pair_key(EDGE_PREFIX_IN, to, from), EdgeValueModel::Bytes(utf8(id))),
        EdgeCardinality::Multiple => (spec_triple_key(EDGE_PREFIX_IN, to, from, id), EdgeValueModel::Bytes(seq![])),
    });
}

/// An undirected edge is stored the same way whichever endpoint is named
/// first.
pub proof fn law_undirected_endpoints_symmetric(a: Seq<char>, b: Seq<char>)
    ensures
        spec_stored_endpoints(true, a, b) == spec_stored_endpoints(true, b, a),
{
    lemma_text_order_total();
    let r = text_order();
    assert(r(a, b) || r(b, a));
    if r(a, b) && r(b, a) {
        assert(a == b);
    }
}

/// Deleting an edge's own entries by the endpoints its ID lookup entry
/// records removes every entry but the field-index ones that creating it
/// wrote, and only those.
pub proof fn law_removal_undoes_creation(card: EdgeCardinality, undirected: bool, from: Seq<char>, to: Seq<char>, id: Seq<char>)
    ensures
        ({
            let (f, t) = spec_stored_endpoints(undirected, from, to);
            let w = spec_edge_writes(card, undirected, from, to, id);
            &&& w[2] == (spec_id_key(id), EdgeValueModel::Bytes(spec_id_value(f, t)))
            &&& spec_edge_removals(card, undirected, f, t, id) == w.map_values(
                |e: (Seq<u8>, EdgeValueModel)| e.0,
            )
        }),
{
    let (f, t) = spec_stored_endpoints(undirected, from, to);
    let w = spec_edge_writes(card, undirected, from, to, id);
    assert(spec_edge_removals(card, undirected, f, t, id) =~= w.map_values(|e: (Seq<u8>, EdgeValueModel)| e.0));
}

/// The field-index keys of an edge: for each field of each index of its
/// label, in order, the key of the edge's value of that field, when the
/// edge has the field.
pub open spec fn spec_field_index_keys(indexes: Seq<Seq<Seq<char>>>, fields: Seq<(Seq<char>, ValueModel)>, id: Seq<char>) -> Seq<Seq<u8>>
    decreases indexes.len(),
{
    if indexes.len() == 0 {
        seq![]
    } else {
        spec_field_index_keys(indexes.drop_last(), fields, id) + spec_index_field_keys(indexes.last(), fields, id)
    }
}

/// The field-index keys of an edge for the fields of one index.
pub open spec fn spec_index_field_keys(names: Seq<Seq<char>>, fields: Seq<(Seq<char>, ValueModel)>, id: Seq<char>) -> Seq<Seq<u8>>
    decreases names.len(),
{
    if names.len() == 0 {
        seq![]
    } else {
        let rest = spec_index_field_keys(names.drop_last(), fields, id);
        match lookup_field(fields, names.last()) {
            Some(v) => rest.push(spec_field_value_prefix(names.last(), v) + utf8(id)),
            None => rest,
        }
    }
}

pub open spec fn name_lists(indexes: Seq<Vec<String>>) -> Seq<Seq<Seq<char>>> {
    indexes.map_values(|v: Vec<String>| v@.map_values(|s: String| s@))
}

/// The field-index keys of an edge with the given fields, for its label's
/// indexes (each given by its field names); written when the edge is
/// created, and removed with it where the store removes them.
pub fn plan_field_index_keys(indexes: &Vec<Vec<String>>, fields: &Vec<(String, Value)>, id: &str) -> (r: Vec<Vec<u8>>)
    ensures
        r@.map_values(|k: Vec<u8>| k@) == spec_field_index_keys(name_lists(indexes@), entry_models_from(fields@, 0), id@),
{
    let ghost fm = entry_models_from(fields@, 0);
    let ghost ix = name_lists(indexes@);
    let mut r: Vec<Vec<u8>> = Vec::new();
    let mut i: usize = 0;
    while i < indexes.len()
        invariant
            i <= indexes@.len(),
            fm == entry_models_from(fields@, 0),
            ix == name_lists(indexes@),
            r@.map_values(|k: Vec<u8>| k@) == spec_field_index_keys(ix.take(i as int), fm, id@),
        decreases indexes@.len() - i,
    {
        let names = &indexes[i];
        let ghost nv = names@.map_values(|s: String| s@);
        let ghost before = r@.map_values(|k: Vec<u8>| k@);
        assert(ix[i as int] == nv);
        let mut j: usize = 0;
        while j < names.len()
            invariant
                j <= names@.len(),
                fm == entry_models_from(fields@, 0),
                nv == names@.map_values(|s: String| s@),
                r@.map_values(|k: Vec<u8>| k@) == before + spec_index_field_keys(nv.take(j as int), fm, id@),
            decreases names@.len() - j,
        {
            assert(nv.take(j + 1).drop_last() =~= nv.take(j as int));
            assert(nv.take(j + 1).last() == names@[j as int]@);
            match get_field(fields, names[j].as_str()) {
                Some(v) => {
                    let k = encode_edge_field_index_key(names[j].as_str(), v, id);
                    let ghost rb = r@;
                    r.push(k);
                    assert(r@.map_values(|k: Vec<u8>| k@) =~= rb.map_values(|k: Vec<u8>| k@).push(k@));
                    assert(before + spec_index_field_keys(nv.take(j + 1), fm, id@) =~= (before
                        + spec_index_field_keys(nv.take(j as int), fm, id@)).push(k@));
                },
                None => {},
            }
            j = j + 1;
        }
        assert(nv.take(names@.len() as int) =~= nv);
        assert(ix.take(i + 1).drop_last() =~= ix.take(i as int));
        assert(ix.take(i + 1).last() == nv);
        i = i + 1;
    }
    assert(ix.take(indexes@.len() as int) =~= ix);
    r
}

/// What deleting a node does to its edges of a label.
#[derive(Clone, Copy, PartialEq, Eq, Structural, Debug)]
pub enum OnDeletePolicy {
    /// The node's edges are deleted with it.
    Cascade,
    /// A node with edges of the label cannot be deleted.
    Restrict,
    /// The edges are left as they are.
    NoAction,
}

/// What to do with a node's edges of one label when the node is deleted.
#[derive(Clone, Copy, PartialEq, Eq, Structural, Debug)]
pub enum NodeEdgeStep {
    /// Delete its outgoing and incoming edges of the label.
    DeleteEdges,
    /// Leave them.
    Keep,
}

/// The refusal to delete a node that has edges of a RESTRICT label.
pub open spec fn restrict_message(node: Seq<char>, label: Seq<char>, outgoing: bool) -> Seq<char> {
    "Cannot delete '"@ + node + "': has "@ + (if outgoing {
        "outgoing"@
    } else {
        "incoming"@
    }) + " '"@ + label + "' edges (RESTRICT policy)"@
}

/// Decides on a node's edges of a label when the node is deleted, given
/// whether it has outgoing and incoming edges of the label: a cascading
/// label deletes them; a restricting one refuses the deletion when there is
/// an outgoing edge, else when there is an incoming one; otherwise they stay.
pub fn node_edge_step(policy: OnDeletePolicy, node_id: &str, label: &str, has_out: bool, has_in: bool) -> (r: Result<NodeEdgeStep, StorageError>)
    ensures
        policy == OnDeletePolicy::Cascade ==> r == Ok::<NodeEdgeStep, StorageError>(NodeEdgeStep::DeleteEdges),
        policy == OnDeletePolicy::NoAction ==> r == Ok::<NodeEdgeStep, StorageError>(NodeEdgeStep::Keep),
        policy == OnDeletePolicy::Restrict && has_out ==> (r matches Err(StorageError::Conflict(m)) && m@
            == restrict_message(node_id@, label@, true)),
        policy == OnDeletePolicy::Restrict && !has_out && has_in ==> (r matches Err(StorageError::Conflict(m)) && m@
            == restrict_message(node_id@, label@, false)),
        policy == OnDeletePolicy::Restrict && !has_out && !has_in ==> r == Ok::<NodeEdgeStep, StorageError>(NodeEdgeStep::Keep),
{
    match policy {
        OnDeletePolicy::Cascade => Ok(NodeEdgeStep::DeleteEdges),
        OnDeletePolicy::NoAction => Ok(NodeEdgeStep::Keep),
        OnDeletePolicy::Restrict => {
            if has_out || has_in {
                let mut m = String::from_str("Cannot delete '");
                m.append(node_id);
                m.append("': has ");
                m.append(if has_out { "outgoing" } else { "incoming" });
                m.append(" '");
                m.append(label);
                m.append("' edges (RESTRICT policy)");
                Err(StorageError::Conflict(m))
            } else {
                Ok(NodeEdgeStep::Keep)
            }
        },
    }
}

/// The labels list with `label` added at the end, unless it is there.
pub open spec fn spec_with_label(labels: Seq<Seq<char>>, label: Seq<char>) -> Seq<Seq<char>> {
    if labels.contains(label) {
        labels
    } else {
        labels.push(label)
    }
}

/// The labels list without `label`.
pub open spec fn spec_without_label(labels: Seq<Seq<char>>, label: Seq<char>) -> Seq<Seq<char>> {
    labels.filter(|l: Seq<char>| l != label)
}

/// Adds a label to the list of edge labels, unless it is there.
pub fn with_label(labels: Vec<String>, label: &str) -> (r: Vec<String>)
    ensures
        string_views(r@) == spec_with_label(string_views(labels@), label@),
{
    let ghost lv = string_views(labels@);
    let mut i: usize = 0;
    while i < labels.len()
        invariant
            i <= labels@.len(),
            lv == string_views(labels@),
            forall|j: int| 0 <= j < i ==> #[trigger] lv[j] != label@,
        decreases labels@.len() - i,
    {
        if str_eq(labels[i].as_str(), label) {
            assert(lv.contains(label@)) by {
                assert(lv[i as int] == label@);
            }
            return labels;
        }
        i = i + 1;
    }
    let mut r = labels;
    r.push(String::from_str(label));
    assert(string_views(r@) =~= lv.push(label@));
    r
}

/// Removes a label from the list of edge labels.
pub fn without_label(labels: &Vec<String>, label: &str) -> (r: Vec<String>)
    ensures
        string_views(r@) == spec_without_label(string_views(labels@), label@),
{
    let ghost lv = string_views(labels@);
    let mut r: Vec<String> = Vec::new();
    let mut i: usize = 0;
    while i < labels.len()
        invariant
            i <= labels@.len(),
            lv == string_views(labels@),
            string_views(r@) == spec_without_label(lv.take(i as int), label@),
        decreases labels@.len() - i,
    {
        proof {
            reveal(Seq::filter);
            assert(lv.take(i + 1).drop_last() =~= lv.take(i as int));
            assert(lv.take(i + 1).last() == lv[i as int]);
            assert(lv[i as int] == labels@[i as int]@);
        }
        if !str_eq(labels[i].as_str(), label) {
            let ghost r0 = string_views(r@);
            r.push(labels[i].clone());
            assert(string_views(r@) =~= r0.push(lv[i as int]));
        }
        i = i + 1;
    }
    assert(lv.take(labels@.len() as int) =~= lv);
    r
}

/// The labels list lists an added label, adding it again changes nothing,
/// and a removed label is no longer listed.
pub proof fn law_label_list_add_remove(labels: Seq<Seq<char>>, label: Seq<char>)
    ensures
        spec_with_label(labels, label).contains(label),
        spec_with_label(spec_with_label(labels, label), label) == spec_with_label(labels, label),
        !spec_without_label(labels, label).contains(label),
{
    if !labels.contains(label) {
        assert(labels.push(label)[labels.len() as int] == label);
    }
    let f = spec_without_label(labels, label);
    if f.contains(label) {
        let i = choose|i: int| 0 <= i < f.len() && f[i] == label;
        labels.lemma_filter_pred(|l: Seq<char>| l != label, i);
    }
}

} // verus!
