//! B-tree secondary index: which key a document gets in an index.

use vstd::prelude::*;
use crate::document::{
    Document, find_char, first_index_of, lookup_field, resolve_field_ref, spec_doc_key,
    spec_resolve_path, str_eq, get_field, string_views,
};
use crate::encoding::{
    deref_values, encode_index_key, spec_index_key, spec_encode_ordered, spec_byte_successor,
    byte_successor, encode_value_with_delimiter, last_ff, spec_extract_doc_key, extract_doc_key,
    lemma_last_ff_is, last_below_ff, lemma_last_below_ff,
};
use crate::key_laws::{
    lengths_fit, proper_prefix, law_ordered_encoding_prefix_free, law_byte_successor_after,
    law_byte_successor_bounds_prefix, lemma_single_index_key, lemma_tag_and_len, ordered_tag,
};
use crate::order::{
    first_lower_at, lemma_lex_lt_at, lemma_lex_lt_cases, lemma_lex_lt_extend, lemma_lex_lt_transitive,
    lemma_lex_lt_asymmetric, lemma_lex_lt_proper_prefix,
};
use crate::index_types::{RangeOp, ScanResult};
use crate::order::lex_lt;
use crate::hash_encoding::bytes_lt;
use crate::value::{Value, ValueModel, clone_value, entry_models_from};

verus! {

/// B-tree index over scalar values, supporting equality and range scans over
/// the ordered key encoding.
#[derive(Debug)]
pub struct BTreeIndex;

pub open spec fn id_field_name() -> Seq<char> {
    seq!['i', 'd']
}

/// The value a document gives an index field: its id for `id`, the value at
/// the path for a dotted field, the top-level field otherwise.
pub open spec fn spec_index_field_value(doc_id: Seq<char>, fields: Seq<(Seq<char>, ValueModel)>, field: Seq<char>) -> Option<ValueModel> {
    if field == id_field_name() {
        Some(ValueModel::String(doc_id))
    } else if first_index_of(field, '.') is Some {
        spec_resolve_path(fields, field)
    } else {
        lookup_field(fields, field)
    }
}

/// The values of the index fields, or `None` when one is missing.
pub open spec fn spec_index_values(doc_id: Seq<char>, fields: Seq<(Seq<char>, ValueModel)>, names: Seq<Seq<char>>) -> Option<Seq<ValueModel>>
    decreases names.len(),
{
    if names.len() == 0 {
        Some(seq![])
    } else {
        match spec_index_values(doc_id, fields, names.drop_last()) {
            Some(vs) => match spec_index_field_value(doc_id, fields, names.last()) {
                Some(v) => Some(vs.push(v)),
                None => None,
            },
            None => None,
        }
    }
}

/// The index key of a document: its field values in order, then its key;
/// `None` when a field is missing.
pub open spec fn spec_build_index_key(doc: Document, names: Seq<Seq<char>>) -> Option<Seq<u8>> {
    match spec_index_values(doc.id@, entry_models_from(doc.fields@, 0), names) {
        Some(vs) => Some(spec_index_key(vs, spec_doc_key(doc.id@))),
        None => None,
    }
}

/// The value at a dotted path of the fields, copied.
pub fn resolve_field_value(fields: &Vec<(String, Value)>, path: &str) -> (r: Option<Value>)
    ensures
        r matches Some(v) ==> spec_resolve_path(entry_models_from(fields@, 0), path@) == Some(v@),
        r is None ==> spec_resolve_path(entry_models_from(fields@, 0), path@) is None,
{
    match resolve_field_ref(fields, path) {
        Some(v) => Some(clone_value(v)),
        None => None,
    }
}

impl BTreeIndex {
    pub fn new() -> (r: Self) {
        BTreeIndex
    }

    /// The index key of a document for the given index fields, `None` when
    /// one of the fields is missing. Format: `[value1]...[0xFF][doc_key]`.
    pub fn build_index_key(&self, doc: &Document, fields: &[String]) -> (r: Option<Vec<u8>>)
        ensures
            r.is_some() == spec_build_index_key(*doc, fields@.map_values(|f: String| f@)).is_some(),
            r.is_some() ==> r.unwrap()@ == spec_build_index_key(
                *doc,
                fields@.map_values(|f: String| f@),
            ).unwrap(),
    {
        let ghost names = fields@.map_values(|f: String| f@);
        let ghost fm = entry_models_from(doc.fields@, 0);
        let id = "id";
        proof {
            reveal_strlit("id");
            assert(id@ =~= id_field_name());
        }
        let mut values: Vec<Value> = Vec::new();
        let mut i: usize = 0;
        while i < fields.len()
            invariant
                i <= fields@.len(),
                names == fields@.map_values(|f: String| f@),
                fm == entry_models_from(doc.fields@, 0),
                id@ == id_field_name(),
                spec_index_values(doc.id@, fm, names.take(i as int)) is Some,
                values@.map_values(|v: Value| v@) == spec_index_values(doc.id@, fm, names.take(i as int)).unwrap(),
            decreases fields@.len() - i,
        {
            let field = fields[i].as_str();
            assert(names.take(i + 1).drop_last() =~= names.take(i as int));
            assert(names.take(i + 1).last() == field@);
            let value = if str_eq(field, id) {
                Some(Value::String(doc.id.clone()))
            } else if find_char(field, '.').is_some() {
                resolve_field_value(&doc.fields, field)
            } else {
                match get_field(&doc.fields, field) {
                    Some(v) => Some(clone_value(v)),
                    None => None,
                }
            };
            match value {
                Some(v) => {
                    values.push(v);
                    assert(values@.map_values(|v: Value| v@) =~= spec_index_values(doc.id@, fm, names.take(i + 1)).unwrap());
                },
                None => {
                    proof {
                        lemma_index_values_none_extends(doc.id@, fm, names, i as int);
                    }
                    return None;
                },
            }
            i = i + 1;
        }
        assert(names.take(fields@.len() as int) =~= names);
        let mut refs: Vec<&Value> = Vec::new();
        let mut k: usize = 0;
        while k < values.len()
            invariant
                k <= values@.len(),
                refs@.len() == k,
                forall|j: int| 0 <= j < k ==> #[trigger] refs@[j]@ == values@[j]@,
            decreases values@.len() - k,
        {
            refs.push(&values[k]);
            k = k + 1;
        }
        assert(deref_values(refs@) =~= values@.map_values(|v: Value| v@));
        let key = encode_index_key(refs.as_slice(), doc.key());
        Some(key)
    }
}

proof fn lemma_index_values_none_extends(doc_id: Seq<char>, fm: Seq<(Seq<char>, ValueModel)>, names: Seq<Seq<char>>, i: int)
    requires
        0 <= i < names.len(),
        spec_index_values(doc_id, fm, names.take(i + 1)) is None,
    ensures
        spec_index_values(doc_id, fm, names) is None,
    decreases names.len() - i,
{
    if i + 1 < names.len() {
        assert(names.take(i + 2).drop_last() =~= names.take(i + 1));
        lemma_index_values_none_extends(doc_id, fm, names, i + 1);
    } else {
        assert(names.take(i + 1) =~= names);
    }
}

/// Where a range scan starts (inclusive) and ends (exclusive) in the index
/// keyspace; `None` for the first or past the last key.
pub open spec fn spec_range_bounds(op: RangeOp, value: ValueModel) -> (Option<Seq<u8>>, Option<Seq<u8>>) {
    match op {
        RangeOp::Gt => (Some(spec_encode_ordered(value)), None),
        RangeOp::Gte => (Some(spec_encode_ordered(value)), None),
        RangeOp::Lt => (None, Some(spec_encode_ordered(value))),
        RangeOp::Lte => (None, Some(spec_byte_successor(spec_encode_ordered(value)))),
        RangeOp::Between { lower, upper, upper_inclusive, .. } => (
            Some(spec_encode_ordered(lower@)),
            Some(
                if upper_inclusive {
                    spec_byte_successor(spec_encode_ordered(upper@))
                } else {
                    spec_encode_ordered(upper@)
                },
            ),
        ),
    }
}

/// The encoded value that a key's value part must exceed, beyond the start
/// of the range: the value itself for `Gt`, the lower bound of an exclusive
/// `Between`.
pub open spec fn spec_strict_lower(op: RangeOp, value: ValueModel) -> Option<Seq<u8>> {
    match op {
        RangeOp::Gt => Some(spec_encode_ordered(value)),
        RangeOp::Between { lower, lower_inclusive, .. } => if lower_inclusive {
            None
        } else {
            Some(spec_encode_ordered(lower@))
        },
        _ => None,
    }
}

pub open spec fn opt_bytes(o: Option<Vec<u8>>) -> Option<Seq<u8>> {
    match o {
        Some(v) => Some(v@),
        None => None,
    }
}

/// The document id that an index key yields in a scan: the key has a
/// `0xFF` separator, its value part lies beyond `lower` (when given), and
/// the id after the separator is valid UTF-8.
pub open spec fn scanned_id(key: Seq<u8>, lower: Option<Seq<u8>>) -> Option<Seq<char>> {
    match last_ff(key) {
        None => None,
        Some(p) => {
            let passes = match lower {
                Some(l) => lex_lt(l, key.take(p)),
                None => true,
            };
            if passes {
                spec_extract_doc_key(key)
            } else {
                None
            }
        },
    }
}

/// The ids that the keys yield, in key order.
pub open spec fn scanned_ids(keys: Seq<Seq<u8>>, lower: Option<Seq<u8>>) -> Seq<Seq<char>>
    decreases keys.len(),
{
    if keys.len() == 0 {
        seq![]
    } else {
        let rest = scanned_ids(keys.drop_last(), lower);
        match scanned_id(keys.last(), lower) {
            Some(id) => rest.push(id),
            None => rest,
        }
    }
}

pub open spec fn byte_views(keys: Seq<Vec<u8>>) -> Seq<Seq<u8>> {
    keys.map_values(|k: Vec<u8>| k@)
}

proof fn lemma_scanned_ids_prefix(keys: Seq<Seq<u8>>, lower: Option<Seq<u8>>, i: int)
    requires
        0 <= i <= keys.len(),
    ensures
        scanned_ids(keys.take(i), lower).len() <= scanned_ids(keys, lower).len(),
        scanned_ids(keys, lower).take(scanned_ids(keys.take(i), lower).len() as int) == scanned_ids(keys.take(i), lower),
    decreases keys.len() - i,
{
    if i < keys.len() {
        lemma_scanned_ids_prefix(keys, lower, i + 1);
        assert(keys.take(i + 1).drop_last() =~= keys.take(i));
        let a = scanned_ids(keys.take(i), lower);
        let b = scanned_ids(keys.take(i + 1), lower);
        let c = scanned_ids(keys, lower);
        assert(c.take(a.len() as int) =~= b.take(a.len() as int));
        assert(b.take(a.len() as int) =~= a);
    } else {
        assert(keys.take(i) =~= keys);
        assert(scanned_ids(keys, lower).take(scanned_ids(keys, lower).len() as int) =~= scanned_ids(keys, lower));
    }
}

/// The key's document id when the key passes the strict lower bound.
fn scan_key(key: &[u8], lower: Option<&[u8]>) -> (r: Option<String>)
    ensures
        opt_string_view(r) == scanned_id(key@, opt_slice_view(lower)),
{
    let n = key.len();
    let mut k: usize = n;
    while k > 0
        invariant
            k <= n,
            n == key@.len(),
            forall|j: int| k <= j < n ==> #[trigger] key@[j] != 0xFF,
        decreases k,
    {
        let i = k - 1;
        if key[i] == 0xFF {
            proof {
                lemma_last_ff_is(key@, i as int);
            }
            let passes = match lower {
                Some(l) => {
                    let head = vstd::slice::slice_subrange(key, 0, i);
                    assert(head@ =~= key@.take(i as int));
                    bytes_lt(l, head)
                },
                None => true,
            };
            if passes {
                return extract_doc_key(key);
            } else {
                return None;
            }
        }
        k = i;
    }
    proof {
        lemma_no_ff(key@);
    }
    None
}

proof fn lemma_no_ff(b: Seq<u8>)
    requires
        forall|j: int| 0 <= j < b.len() ==> #[trigger] b[j] != 0xFF,
    ensures
        last_ff(b) is None,
    decreases b.len(),
{
    if b.len() > 0 {
        assert(b.last() != 0xFF);
        lemma_no_ff(b.drop_last());
    }
}

pub open spec fn opt_string_view(o: Option<String>) -> Option<Seq<char>> {
    match o {
        Some(s) => Some(s@),
        None => None,
    }
}

pub open spec fn opt_slice_view(o: Option<&[u8]>) -> Option<Seq<u8>> {
    match o {
        Some(s) => Some(s@),
        None => None,
    }
}

/// The ids yielded by the keys, cut after the first `limit + 1`; the
/// result says whether that many came.
pub open spec fn spec_collect(keys: Seq<Seq<u8>>, lower: Option<Seq<u8>>, limit: nat) -> (Seq<Seq<char>>, bool) {
    let all = scanned_ids(keys, lower);
    if all.len() > limit {
        (all.take(limit + 1int), true)
    } else {
        (all, false)
    }
}

impl BTreeIndex {
    /// The keyspace range that a range scan reads.
    pub fn range_bounds(&self, op: &RangeOp, value: &Value) -> (r: (Option<Vec<u8>>, Option<Vec<u8>>))
        ensures
            (opt_bytes(r.0), opt_bytes(r.1)) == spec_range_bounds(*op, value@),
    {
        match op {
            RangeOp::Gt | RangeOp::Gte => (Some(encode_value_with_delimiter(value)), None),
            RangeOp::Lt => (None, Some(encode_value_with_delimiter(value))),
            RangeOp::Lte => {
                let enc = encode_value_with_delimiter(value);
                (None, Some(byte_successor(enc.as_slice())))
            },
            RangeOp::Between { lower, upper, upper_inclusive, .. } => {
                let lo = encode_value_with_delimiter(lower);
                let up = encode_value_with_delimiter(upper);
                if *upper_inclusive {
                    (Some(lo), Some(byte_successor(up.as_slice())))
                } else {
                    (Some(lo), Some(up))
                }
            },
        }
    }

    /// What a key's value part must exceed in a range scan, if anything.
    pub fn strict_lower_bound(&self, op: &RangeOp, value: &Value) -> (r: Option<Vec<u8>>)
        ensures
            opt_bytes(r) == spec_strict_lower(*op, value@),
    {
        match op {
            RangeOp::Gt => Some(encode_value_with_delimiter(value)),
            RangeOp::Between { lower, lower_inclusive, .. } => {
                if *lower_inclusive {
                    None
                } else {
                    Some(encode_value_with_delimiter(lower))
                }
            },
            _ => None,
        }
    }

    /// The scan result of the keys that the keyspace gave, in order: the
    /// document ids of the keys that pass `lower`, stopping once more than
    /// `limit` were found.
    pub fn collect_doc_ids(&self, keys: &[Vec<u8>], lower: Option<&[u8]>, limit: usize) -> (r: ScanResult)
        ensures
            (string_views(r.doc_ids@), r.exceeded_limit) == spec_collect(byte_views(keys@), opt_slice_view(lower), limit as nat),
    {
        let ghost kv = byte_views(keys@);
        let ghost lo = opt_slice_view(lower);
        let mut ids: Vec<String> = Vec::new();
        let mut i: usize = 0;
        while i < keys.len()
            invariant
                i <= keys@.len(),
                kv == byte_views(keys@),
                lo == opt_slice_view(lower),
                string_views(ids@) == scanned_ids(kv.take(i as int), lo),
                ids@.len() <= limit,
            decreases keys@.len() - i,
        {
            let found = scan_key(keys[i].as_slice(), lower);
            proof {
                assert(kv.take(i + 1).drop_last() =~= kv.take(i as int));
                assert(kv.take(i + 1).last() == keys@[i as int]@);
            }
            match found {
                Some(id) => {
                    ids.push(id);
                    assert(string_views(ids@) =~= scanned_ids(kv.take(i + 1), lo));
                    if ids.len() > limit {
                        proof {
                            lemma_scanned_ids_prefix(kv, lo, i + 1);
                        }
                        return ScanResult::new(ids, true);
                    }
                },
                None => {},
            }
            i = i + 1;
        }
        assert(kv.take(i as int) =~= kv);
        ScanResult::new(ids, false)
    }
}

pub open spec fn doc_index_key(doc: Option<&Document>, names: Seq<Seq<char>>) -> Option<Seq<u8>> {
    match doc {
        Some(d) => spec_build_index_key(*d, names),
        None => None,
    }
}

impl BTreeIndex {
    /// The index writes of a document change: the key to remove (that of
    /// the old document) and the key to insert (that of the new one), each
    /// when the document exists and has all the index fields.
    pub fn update_keys(&self, fields: &[String], old_doc: Option<&Document>, new_doc: Option<&Document>) -> (r: (Option<Vec<u8>>, Option<Vec<u8>>))
        ensures
            opt_bytes(r.0) == doc_index_key(old_doc, fields@.map_values(|f: String| f@)),
            opt_bytes(r.1) == doc_index_key(new_doc, fields@.map_values(|f: String| f@)),
    {
        let old_key = match old_doc {
            Some(d) => self.build_index_key(d, fields),
            None => None,
        };
        let new_key = match new_doc {
            Some(d) => self.build_index_key(d, fields),
            None => None,
        };
        (old_key, new_key)
    }
}

/// The value at the upper end of an operator: the value of `<` and `<=`,
/// the upper bound of `BETWEEN`.
pub open spec fn upper_value(op: RangeOp, value: ValueModel) -> ValueModel {
    match op {
        RangeOp::Between { upper, .. } => upper@,
        _ => value,
    }
}

/// The value at the lower end of an operator: the value of `>` and `>=`,
/// the lower bound of `BETWEEN`.
pub open spec fn lower_value(op: RangeOp, value: ValueModel) -> ValueModel {
    match op {
        RangeOp::Between { lower, .. } => lower@,
        _ => value,
    }
}

/// Whether an operator's upper end admits its own value: `<=`, and
/// `BETWEEN` with an inclusive upper bound.
pub open spec fn upper_admits_own(op: RangeOp) -> bool {
    match op {
        RangeOp::Lte => true,
        RangeOp::Between { upper_inclusive, .. } => upper_inclusive,
        _ => false,
    }
}

/// A byte string never sorts before one of its prefixes.
proof fn lemma_not_before_prefix(p: Seq<u8>, r: Seq<u8>)
    ensures
        !lex_lt(p + r, p),
    decreases p.len(),
{
    if p.len() > 0 {
        assert((p + r)[0] == p[0]);
        assert((p + r).drop_first() =~= p.drop_first() + r);
        lemma_not_before_prefix(p.drop_first(), r);
    }
}

/// The ordered encoding of a value other than an array or an object holds a
/// byte below `0xFF` (its type tag), so it has a byte successor bounding it.
proof fn lemma_encoding_has_low_byte(u: ValueModel)
    requires
        !(u is Array || u is Object),
    ensures
        last_below_ff(spec_encode_ordered(u)) is Some,
{
    lemma_tag_and_len(u);
    lemma_last_below_ff(spec_encode_ordered(u));
    assert(ordered_tag(u) < 0xFF);
}

/// A key of a value sorting below `u` sorts before the encoding of `u`.
proof fn lemma_key_below_encoding(w: ValueModel, u: ValueModel, k: Seq<char>)
    requires
        lengths_fit(w),
        lengths_fit(u),
        lex_lt(spec_encode_ordered(w), spec_encode_ordered(u)),
    ensures
        lex_lt(spec_index_key(seq![w], k), spec_encode_ordered(u)),
{
    let ew = spec_encode_ordered(w);
    let eu = spec_encode_ordered(u);
    law_ordered_encoding_prefix_free(w, u);
    lemma_single_index_key(w, k);
    lemma_lex_lt_extend(ew, eu, seq![0xFFu8] + crate::encoding::utf8(k), Seq::empty());
    assert(eu + Seq::<u8>::empty() =~= eu);
}

/// A key extending an encoding that sorts after `e` (and does not extend
/// `e`) does not sort before the successor of `e`.
proof fn lemma_not_before_successor(e: Seq<u8>, ew: Seq<u8>, key: Seq<u8>)
    requires
        last_below_ff(e) is Some,
        lex_lt(e, ew),
        !proper_prefix(e, ew),
        key.len() > ew.len(),
        key.take(ew.len() as int) == ew,
    ensures
        !lex_lt(key, spec_byte_successor(e)),
{
    lemma_last_below_ff(e);
    let j = last_below_ff(e).unwrap();
    let s = spec_byte_successor(e);
    lemma_lex_lt_cases(e, ew);
    let i = choose|i: int| first_lower_at(e, ew, i);
    assert(e[i] < 0xFF);
    assert(i <= j);
    assert forall|m: int| 0 <= m < i implies #[trigger] key[m] == e[m] by {
        assert(key.take(ew.len() as int)[m] == ew[m]);
    }
    assert(key[i] == ew[i]) by {
        assert(key.take(ew.len() as int)[i] == ew[i]);
    }
    if i < j {
        assert forall|m: int| 0 <= m < i implies #[trigger] s[m] == key[m] by {}
        assert(first_lower_at(s, key, i));
        lemma_lex_lt_at(s, key, i);
    } else if s[j] < key[j] {
        assert forall|m: int| 0 <= m < j implies #[trigger] s[m] == key[m] by {}
        assert(first_lower_at(s, key, j));
        lemma_lex_lt_at(s, key, j);
    } else {
        assert(s =~= key.take(s.len() as int));
        lemma_lex_lt_proper_prefix(s, key);
    }
    lemma_lex_lt_asymmetric(s, key);
}

/// Law: the end of a range scan is where the operator says. For `<`, `<=`
/// and `BETWEEN`, an index key of the upper value, whatever its document
/// key, lies before the end exactly when the operator admits the upper value
/// itself (`<=`, inclusive `BETWEEN`), and every key of a value sorting
/// below the upper value lies before the end, while no key of a value
/// sorting above it does. (An array or object encodes as the single byte
/// `0xFF`, whose successor its own keys pass: as the inclusive upper value
/// of `<=` or `BETWEEN` it is left out.)
pub proof fn law_range_end(op: RangeOp, value: ValueModel, w: ValueModel, k: Seq<char>)
    requires
        !(op is Gt || op is Gte),
        upper_admits_own(op) ==> !(upper_value(op, value) is Array || upper_value(op, value) is Object),
        lengths_fit(upper_value(op, value)),
        lengths_fit(w),
    ensures
        spec_range_bounds(op, value).1 is Some,
        lex_lt(spec_index_key(seq![upper_value(op, value)], k), spec_range_bounds(op, value).1.unwrap())
            == upper_admits_own(op),
        lex_lt(spec_encode_ordered(w), spec_encode_ordered(upper_value(op, value))) ==> lex_lt(
            spec_index_key(seq![w], k),
            spec_range_bounds(op, value).1.unwrap(),
        ),
        lex_lt(spec_encode_ordered(upper_value(op, value)), spec_encode_ordered(w)) ==> !lex_lt(
            spec_index_key(seq![w], k),
            spec_range_bounds(op, value).1.unwrap(),
        ),
{
    let u = upper_value(op, value);
    let ew = spec_encode_ordered(w);
    let kw = spec_index_key(seq![w], k);
    lemma_single_index_key(w, k);
    law_ordered_encoding_prefix_free(u, w);
    let e = spec_encode_ordered(u);
    let key = spec_index_key(seq![u], k);
    let rest = seq![0xFFu8] + crate::encoding::utf8(k);
    lemma_single_index_key(u, k);
    let end = spec_range_bounds(op, value).1.unwrap();
    if upper_admits_own(op) {
        assert(end == spec_byte_successor(e));
        lemma_encoding_has_low_byte(u);
        assert(key.take(e.len() as int) =~= e);
        law_byte_successor_bounds_prefix(e, key);
        if lex_lt(spec_encode_ordered(w), e) {
            lemma_key_below_encoding(w, u, k);
            law_byte_successor_after(e);
            lemma_lex_lt_transitive(spec_index_key(seq![w], k), e, end);
        }
        if lex_lt(e, ew) {
            assert(kw.take(ew.len() as int) =~= ew);
            lemma_not_before_successor(e, ew, kw);
        }
    } else {
        assert(end == e);
        lemma_not_before_prefix(e, rest);
        if lex_lt(spec_encode_ordered(w), e) {
            lemma_key_below_encoding(w, u, k);
        }
        if lex_lt(e, ew) {
            lemma_lex_lt_extend(e, ew, Seq::empty(), seq![0xFFu8] + crate::encoding::utf8(k));
            assert(e + Seq::<u8>::empty() =~= e);
            lemma_lex_lt_asymmetric(e, kw);
        }
    }
}

/// Law: the start of a range scan: for `>`, `>=` and `BETWEEN`, no index
/// key of the lower value lies before the start, whatever its document key,
/// nor does any key of a value sorting above it, while every key of a value
/// sorting below the lower value does. (Whether the
/// lower value itself is yielded is decided beyond the start, by
/// `spec_strict_lower`.)
pub proof fn law_range_start(op: RangeOp, value: ValueModel, w: ValueModel, k: Seq<char>)
    requires
        !(op is Lt || op is Lte),
        lengths_fit(lower_value(op, value)),
        lengths_fit(w),
    ensures
        spec_range_bounds(op, value).0 == Some(spec_encode_ordered(lower_value(op, value))),
        !lex_lt(spec_index_key(seq![lower_value(op, value)], k), spec_range_bounds(op, value).0.unwrap()),
        lex_lt(spec_encode_ordered(w), spec_encode_ordered(lower_value(op, value))) ==> lex_lt(
            spec_index_key(seq![w], k),
            spec_range_bounds(op, value).0.unwrap(),
        ),
        lex_lt(spec_encode_ordered(lower_value(op, value)), spec_encode_ordered(w)) ==> !lex_lt(
            spec_index_key(seq![w], k),
            spec_range_bounds(op, value).0.unwrap(),
        ),
{
    let l = lower_value(op, value);
    let e = spec_encode_ordered(l);
    let ew = spec_encode_ordered(w);
    lemma_single_index_key(w, k);
    if lex_lt(e, ew) {
        law_ordered_encoding_prefix_free(l, w);
        lemma_lex_lt_extend(e, ew, Seq::empty(), seq![0xFFu8] + crate::encoding::utf8(k));
        assert(e + Seq::<u8>::empty() =~= e);
        lemma_lex_lt_asymmetric(e, spec_index_key(seq![w], k));
    }
    lemma_single_index_key(l, k);
    lemma_not_before_prefix(spec_encode_ordered(l), seq![0xFFu8] + crate::encoding::utf8(k));
    if lex_lt(spec_encode_ordered(w), spec_encode_ordered(l)) {
        lemma_key_below_encoding(w, l, k);
    }
}

} // verus!
