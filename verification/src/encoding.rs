//! Key encodings of the storage layer.
//!
//! Edge keys (one keyspace per label):
//!   OUT:  0x01 | from | 0x00 | to [| 0x00 | edge_id]
//!   IN:   0x02 | to | 0x00 | from [| 0x00 | edge_id]
//!   ID:   0x03 | edge_id                       -> from | 0x00 | to
//!   IDX:  0x04 | field | 0x00 | value | 0x00 | edge_id
//!
//! Secondary index keys: `[value1][value2]...[0xFF][doc_key]`.

use vstd::prelude::*;
use vstd::utf8::{decode_utf8, encode_utf8, valid_utf8};
use crate::bytes::{extend_bytes, i64_bits, i64_to_bits, push_u32_be, push_u64_be, u32_be, u64_be};
use crate::numeric::{NUMERIC_FIXED_WIDTH, encode_f64_fixed_width, encode_i64_fixed_width, encode_number_fixed_width, lemma_decimal_text_in_range, spec_encode_decimal_text, spec_encode_float_text, spec_encode_int};
use crate::value::{Value, ValueModel};
use crate::external::{utf8_lossy, utf8_lossy_string, utf8_string};

verus! {

/// Prefix of the outgoing-edge index.
pub const EDGE_PREFIX_OUT: u8 = 0x01;

/// Prefix of the incoming-edge index.
pub const EDGE_PREFIX_IN: u8 = 0x02;

/// Prefix of the edge-id lookup.
pub const EDGE_PREFIX_ID: u8 = 0x03;

/// Prefix of the edge field index.
pub const EDGE_PREFIX_IDX: u8 = 0x04;

/// UTF-8 bytes of a text.
pub open spec fn utf8(s: Seq<char>) -> Seq<u8> {
    encode_utf8(s)
}

/// The UTF-8 form of joined texts is the joined UTF-8 forms.
pub proof fn lemma_utf8_concat(a: Seq<char>, b: Seq<char>)
    ensures
        utf8(a + b) == utf8(a) + utf8(b),
    decreases a.len(),
{
    if a.len() == 0 {
        assert(a + b =~= b);
    } else {
        lemma_utf8_concat(a.drop_first(), b);
        assert((a + b).drop_first() =~= a.drop_first() + b);
        assert((a + b)[0] == a[0]);
    }
}

/// `prefix | a | 0x00 | b`
pub open spec fn spec_pair_key(prefix: u8, a: Seq<char>, b: Seq<char>) -> Seq<u8> {
    seq![prefix] + utf8(a) + seq![0u8] + utf8(b)
}

/// `prefix | a | 0x00 | b | 0x00 | c`
pub open spec fn spec_triple_key(prefix: u8, a: Seq<char>, b: Seq<char>, c: Seq<char>) -> Seq<u8> {
    spec_pair_key(prefix, a, b) + seq![0u8] + utf8(c)
}

fn pair_key(prefix: u8, a: &str, b: &str) -> (r: Vec<u8>)
    ensures
        r@ == spec_pair_key(prefix, a@, b@),
{
    let mut buf: Vec<u8> = Vec::new();
    buf.push(prefix);
    extend_bytes(&mut buf, a.as_bytes());
    buf.push(0x00);
    extend_bytes(&mut buf, b.as_bytes());
    assert(buf@ =~= spec_pair_key(prefix, a@, b@));
    buf
}

fn triple_key(prefix: u8, a: &str, b: &str, c: &str) -> (r: Vec<u8>)
    ensures
        r@ == spec_triple_key(prefix, a@, b@, c@),
{
    let mut buf = pair_key(prefix, a, b);
    buf.push(0x00);
    extend_bytes(&mut buf, c.as_bytes());
    assert(buf@ =~= spec_triple_key(prefix, a@, b@, c@));
    buf
}

/// OUT key for single cardinality: `0x01 | from | 0x00 | to`.
pub fn encode_edge_out_key_single(from: &str, to: &str) -> (r: Vec<u8>)
    ensures
        r@ == spec_pair_key(EDGE_PREFIX_OUT, from@, to@),
{
    pair_key(EDGE_PREFIX_OUT, from, to)
}

/// OUT key for multiple cardinality: `0x01 | from | 0x00 | to | 0x00 | edge_id`.
pub fn encode_edge_out_key_multi(from: &str, to: &str, edge_id: &str) -> (r: Vec<u8>)
    ensures
        r@ == spec_triple_key(EDGE_PREFIX_OUT, from@, to@, edge_id@),
{
    triple_key(EDGE_PREFIX_OUT, from, to, edge_id)
}

/// IN key for single cardinality: `0x02 | to | 0x00 | from`.
pub fn encode_edge_in_key_single(to: &str, from: &str) -> (r: Vec<u8>)
    ensures
        r@ == spec_pair_key(EDGE_PREFIX_IN, to@, from@),
{
    pair_key(EDGE_PREFIX_IN, to, from)
}

/// IN key for multiple cardinality: `0x02 | to | 0x00 | from | 0x00 | edge_id`.
pub fn encode_edge_in_key_multi(to: &str, from: &str, edge_id: &str) -> (r: Vec<u8>)
    ensures
        r@ == spec_triple_key(EDGE_PREFIX_IN, to@, from@, edge_id@),
{
    triple_key(EDGE_PREFIX_IN, to, from, edge_id)
}

/// ID lookup key: `0x03 | edge_id`.
pub fn encode_edge_id_key(edge_id: &str) -> (r: Vec<u8>)
    ensures
        r@ == seq![EDGE_PREFIX_ID] + utf8(edge_id@),
{
    let mut buf: Vec<u8> = Vec::new();
    buf.push(EDGE_PREFIX_ID);
    extend_bytes(&mut buf, edge_id.as_bytes());
    buf
}

/// ID lookup value: `from | 0x00 | to`.
pub fn encode_edge_id_value(from: &str, to: &str) -> (r: Vec<u8>)
    ensures
        r@ == utf8(from@) + seq![0u8] + utf8(to@),
{
    let mut buf: Vec<u8> = Vec::new();
    extend_bytes(&mut buf, from.as_bytes());
    buf.push(0x00);
    extend_bytes(&mut buf, to.as_bytes());
    buf
}

/// Splits an ID lookup value at its first zero byte and decodes both halves
/// (invalid UTF-8 is replaced); `None` when there is no zero byte.
pub fn decode_edge_id_value(bytes: &[u8]) -> (r: Option<(String, String)>)
    ensures
        (forall|i: int| 0 <= i < bytes@.len() ==> bytes@[i] != 0) <==> r is None,
        forall|i: int|
            0 <= i < bytes@.len() && bytes@[i] == 0 && (forall|j: int| 0 <= j < i ==> bytes@[j] != 0)
                ==> (r matches Some((from, to)) && from@ == utf8_lossy(bytes@.subrange(0, i))
                && to@ == utf8_lossy(bytes@.subrange(i + 1, bytes@.len() as int))
                && (valid_utf8(bytes@.subrange(0, i)) ==> from@ == decode_utf8(bytes@.subrange(0, i)))
                && (valid_utf8(bytes@.subrange(i + 1, bytes@.len() as int)) ==> to@ == decode_utf8(
                bytes@.subrange(i + 1, bytes@.len() as int),
            ))),
{
    let mut sep: usize = 0;
    while sep < bytes.len()
        invariant
            sep <= bytes@.len(),
            forall|j: int| 0 <= j < sep ==> bytes@[j] != 0,
        ensures
            sep <= bytes@.len(),
            forall|j: int| 0 <= j < sep ==> bytes@[j] != 0,
            sep < bytes@.len() ==> bytes@[sep as int] == 0,
        decreases bytes@.len() - sep,
    {
        if bytes[sep] == 0 {
            break;
        }
        sep = sep + 1;
    }
    if sep == bytes.len() {
        return None;
    }
    let head = vstd::slice::slice_subrange(bytes, 0, sep);
    let tail = vstd::slice::slice_subrange(bytes, sep + 1, bytes.len());
    let from = utf8_lossy_string(head);
    let to = utf8_lossy_string(tail);
    proof {
        assert forall|i: int|
            0 <= i < bytes@.len() && bytes@[i] == 0 && (forall|j: int| 0 <= j < i ==> bytes@[j] != 0)
            implies i == sep by {
            if i < sep {
                assert(bytes@[i] != 0);
            }
            if i > sep {
                assert(bytes@[sep as int] != 0);
            }
        }
    }
    Some((from, to))
}

/// OUT prefix of all edges leaving a node: `0x01 | from | 0x00`.
pub fn encode_edge_out_prefix_v2(from: &str) -> (r: Vec<u8>)
    ensures
        r@ == seq![EDGE_PREFIX_OUT] + utf8(from@) + seq![0u8],
{
    let mut buf: Vec<u8> = Vec::new();
    buf.push(EDGE_PREFIX_OUT);
    extend_bytes(&mut buf, from.as_bytes());
    buf.push(0x00);
    buf
}

/// End of the OUT prefix: `0x01 | from | 0x01`.
pub fn encode_edge_out_prefix_end_v2(from: &str) -> (r: Vec<u8>)
    ensures
        r@ == seq![EDGE_PREFIX_OUT] + utf8(from@) + seq![1u8],
{
    let mut buf: Vec<u8> = Vec::new();
    buf.push(EDGE_PREFIX_OUT);
    extend_bytes(&mut buf, from.as_bytes());
    buf.push(0x01);
    buf
}

/// OUT prefix of the edges between two nodes: `0x01 | from | 0x00 | to | 0x00`.
pub fn encode_edge_out_target_prefix(from: &str, to: &str) -> (r: Vec<u8>)
    ensures
        r@ == spec_pair_key(EDGE_PREFIX_OUT, from@, to@) + seq![0u8],
{
    let mut buf = pair_key(EDGE_PREFIX_OUT, from, to);
    buf.push(0x00);
    buf
}

/// End of the target prefix: `0x01 | from | 0x00 | to | 0x01`.
pub fn encode_edge_out_target_prefix_end(from: &str, to: &str) -> (r: Vec<u8>)
    ensures
        r@ == spec_pair_key(EDGE_PREFIX_OUT, from@, to@) + seq![1u8],
{
    let mut buf = pair_key(EDGE_PREFIX_OUT, from, to);
    buf.push(0x01);
    buf
}

/// IN prefix of all edges entering a node: `0x02 | to | 0x00`.
pub fn encode_edge_in_prefix_v2(to: &str) -> (r: Vec<u8>)
    ensures
        r@ == seq![EDGE_PREFIX_IN] + utf8(to@) + seq![0u8],
{
    let mut buf: Vec<u8> = Vec::new();
    buf.push(EDGE_PREFIX_IN);
    extend_bytes(&mut buf, to.as_bytes());
    buf.push(0x00);
    buf
}

/// End of the IN prefix: `0x02 | to | 0x01`.
pub fn encode_edge_in_prefix_end_v2(to: &str) -> (r: Vec<u8>)
    ensures
        r@ == seq![EDGE_PREFIX_IN] + utf8(to@) + seq![1u8],
{
    let mut buf: Vec<u8> = Vec::new();
    buf.push(EDGE_PREFIX_IN);
    extend_bytes(&mut buf, to.as_bytes());
    buf.push(0x01);
    buf
}


// ---------------------------------------------------------------------------
// Values
// ---------------------------------------------------------------------------

/// Type tags, in the order in which the types sort.
pub const TAG_NULL: u8 = 0x00;

pub const TAG_BOOL: u8 = 0x01;

/// One tag for integers, doubles and decimals, which share one number space.
pub const TAG_NUMBER: u8 = 0x02;

pub const TAG_STRING: u8 = 0x04;

pub const TAG_ARRAY: u8 = 0x05;

pub const TAG_OBJECT: u8 = 0x06;

pub const TAG_DATETIME: u8 = 0x07;

pub const TAG_DURATION: u8 = 0x08;

pub const TAG_BYTES: u8 = 0x09;

pub const TAG_RANGE: u8 = 0x0A;

/// Tag of a reference in the hash encoding, where it stays apart from a
/// string with the same text.
pub const TAG_REFERENCE: u8 = 0x0B;

/// The marker that arrays and objects get in ordered keys; it sorts after all
/// scalars and cannot be searched.
pub const TAG_UNORDERED: u8 = 0xFF;

/// Escapes each zero byte as `0x00 0xFF`.
pub open spec fn escape_nul(b: Seq<u8>) -> Seq<u8>
    decreases b.len(),
{
    if b.len() == 0 {
        seq![]
    } else {
        escape_nul(b.drop_last()) + (if b.last() == 0 {
            seq![0u8, 0xFFu8]
        } else {
            seq![b.last()]
        })
    }
}

/// Ordered form of a text: tag, escaped UTF-8 bytes, `0x00 0x00`.
pub open spec fn spec_string_key(s: Seq<char>) -> Seq<u8> {
    seq![TAG_STRING] + escape_nul(utf8(s)) + seq![0u8, 0u8]
}

/// Datetimes are shifted by 2^63 so that the unsigned big-endian bytes sort
/// as the signed milliseconds do.
pub open spec fn datetime_key_bits(ms: i64) -> u64 {
    (ms as int + 0x8000_0000_0000_0000) as u64
}

/// The ordered encoding of a value, used in secondary index keys.
pub open spec fn spec_encode_ordered(v: ValueModel) -> Seq<u8>
    decreases v,
{
    match v {
        ValueModel::Null => seq![TAG_NULL],
        ValueModel::Bool(b) => seq![
            TAG_BOOL,
            if b {
                1u8
            } else {
                0u8
            },
        ],
        ValueModel::Int(n) => seq![TAG_NUMBER] + spec_encode_int(n as int),
        ValueModel::Float(f) => seq![TAG_NUMBER] + spec_encode_float_text(f),
        ValueModel::Decimal(d) => seq![TAG_NUMBER] + spec_encode_decimal_text(d),
        ValueModel::String(s) => spec_string_key(s),
        ValueModel::Array(_) => seq![TAG_UNORDERED],
        ValueModel::Object(_) => seq![TAG_UNORDERED],
        ValueModel::Reference(id) => spec_string_key(id),
        ValueModel::Datetime(ms) => seq![TAG_DATETIME] + u64_be(datetime_key_bits(ms)),
        ValueModel::Duration(ns) => seq![TAG_DURATION] + u64_be(ns),
        ValueModel::Bytes(b) => seq![TAG_BYTES] + u32_be(b.len() as u32) + b,
        ValueModel::Range(start, end) => {
            let s = spec_encode_ordered(*start);
            seq![TAG_RANGE] + u32_be(s.len() as u32) + s + spec_encode_ordered(*end)
        },
    }
}

fn push_string_key(buf: &mut Vec<u8>, s: &str)
    ensures
        final(buf)@ == old(buf)@ + spec_string_key(s@),
{
    let bytes = s.as_bytes();
    let ghost start = buf@;
    buf.push(TAG_STRING);
    let mut i: usize = 0;
    while i < bytes.len()
        invariant
            i <= bytes@.len(),
            bytes@ == utf8(s@),
            buf@ == start + seq![TAG_STRING] + escape_nul(bytes@.take(i as int)),
        decreases bytes@.len() - i,
    {
        let b = bytes[i];
        buf.push(b);
        if b == 0 {
            buf.push(0xFF);
        }
        assert(bytes@.take(i + 1).drop_last() =~= bytes@.take(i as int));
        assert(buf@ =~= start + seq![TAG_STRING] + escape_nul(bytes@.take(i + 1)));
        i = i + 1;
    }
    buf.push(0x00);
    buf.push(0x00);
    assert(bytes@.take(bytes@.len() as int) =~= bytes@);
    assert(buf@ =~= start + spec_string_key(s@));
}

/// Field-index prefix of a value: `0x04 | field | 0x00 | value | 0x00`.
pub open spec fn spec_field_value_prefix(field: Seq<char>, value: ValueModel) -> Seq<u8> {
    seq![EDGE_PREFIX_IDX] + utf8(field) + seq![0u8] + spec_encode_ordered(value) + seq![0u8]
}

/// Edge field-index key: `0x04 | field | 0x00 | value | 0x00 | edge_id`.
pub fn encode_edge_field_index_key(field: &str, value: &Value, edge_id: &str) -> (r: Vec<u8>)
    ensures
        r@ == spec_field_value_prefix(field@, value@) + utf8(edge_id@),
{
    let mut buf = encode_edge_field_index_value_prefix(field, value);
    let ghost head = buf@;
    extend_bytes(&mut buf, edge_id.as_bytes());
    buf
}

/// Field-index prefix of all values of a field: `0x04 | field | 0x00`.
pub fn encode_edge_field_index_prefix(field: &str) -> (r: Vec<u8>)
    ensures
        r@ == seq![EDGE_PREFIX_IDX] + utf8(field@) + seq![0u8],
{
    let mut buf: Vec<u8> = Vec::new();
    buf.push(EDGE_PREFIX_IDX);
    extend_bytes(&mut buf, field.as_bytes());
    buf.push(0x00);
    buf
}

/// End of a field's prefix: `0x04 | field | 0x01`.
pub fn encode_edge_field_index_prefix_end(field: &str) -> (r: Vec<u8>)
    ensures
        r@ == seq![EDGE_PREFIX_IDX] + utf8(field@) + seq![1u8],
{
    let mut buf: Vec<u8> = Vec::new();
    buf.push(EDGE_PREFIX_IDX);
    extend_bytes(&mut buf, field.as_bytes());
    buf.push(0x01);
    buf
}

/// Field-index prefix of one value: `0x04 | field | 0x00 | value | 0x00`.
pub fn encode_edge_field_index_value_prefix(field: &str, value: &Value) -> (r: Vec<u8>)
    ensures
        r@ == spec_field_value_prefix(field@, value@),
{
    let mut buf = encode_edge_field_index_prefix(field);
    let enc = encode_value_ordered(value);
    extend_bytes(&mut buf, enc.as_slice());
    buf.push(0x00);
    buf
}

/// Encodes a value so that index keys sort as the values do: nulls, then
/// booleans, then all numbers in one space, then strings; within a type
/// values keep their order.
pub fn encode_value_ordered(value: &Value) -> (r: Vec<u8>)
    ensures
        r@ == spec_encode_ordered(value@),
    decreases value,
{
    match value {
        Value::Null => vec![TAG_NULL],
        Value::Bool(b) => vec![
            TAG_BOOL,
            if *b {
                1
            } else {
                0
            },
        ],
        Value::Int(n) => {
            let mut buf = vec![TAG_NUMBER];
            let mut num = encode_i64_fixed_width(*n);
            buf.append(&mut num);
            buf
        },
        Value::Float(f) => {
            let mut buf = vec![TAG_NUMBER];
            let mut num = encode_f64_fixed_width(f);
            buf.append(&mut num);
            buf
        },
        Value::Decimal(d) => {
            let mut buf = vec![TAG_NUMBER];
            let t = d.text();
            proof {
                lemma_decimal_text_in_range(t@);
            }
            let mut num = encode_number_fixed_width(t);
            buf.append(&mut num);
            buf
        },
        Value::String(s) => {
            let mut buf: Vec<u8> = Vec::new();
            push_string_key(&mut buf, s.as_str());
            assert(buf@ =~= spec_string_key(s@));
            buf
        },
        Value::Array(_) => vec![TAG_UNORDERED],
        Value::Object(_) => vec![TAG_UNORDERED],
        Value::Reference(id) => {
            let mut buf: Vec<u8> = Vec::new();
            push_string_key(&mut buf, id.as_str());
            assert(buf@ =~= spec_string_key(id@));
            buf
        },
        Value::Datetime(ms) => {
            let mut buf = vec![TAG_DATETIME];
            let bits = i64_to_bits(*ms) ^ 0x8000_0000_0000_0000u64;
            assert(bits == datetime_key_bits(*ms)) by (bit_vector)
                requires
                    bits == i64_bits(*ms) ^ 0x8000_0000_0000_0000u64,
            ;
            push_u64_be(&mut buf, bits);
            buf
        },
        Value::Duration(ns) => {
            let mut buf = vec![TAG_DURATION];
            push_u64_be(&mut buf, *ns);
            buf
        },
        Value::Bytes(b) => {
            let mut buf = vec![TAG_BYTES];
            push_u32_be(&mut buf, b.len() as u32);
            extend_bytes(&mut buf, b.as_slice());
            buf
        },
        Value::Range { start, end } => {
            let mut buf = vec![TAG_RANGE];
            let mut start_encoded = encode_value_ordered(start);
            let mut end_encoded = encode_value_ordered(end);
            push_u32_be(&mut buf, start_encoded.len() as u32);
            buf.append(&mut start_encoded);
            buf.append(&mut end_encoded);
            buf
        },
    }
}


// ---------------------------------------------------------------------------
// Secondary index keys
// ---------------------------------------------------------------------------

/// Index keys carry each value in its ordered form; no further delimiter is
/// needed since every ordered form ends unambiguously.
pub fn encode_value_with_delimiter(value: &Value) -> (r: Vec<u8>)
    ensures
        r@ == spec_encode_ordered(value@),
{
    encode_value_ordered(value)
}

/// The ordered forms of the values, one after the other.
pub open spec fn spec_encode_values(vs: Seq<ValueModel>) -> Seq<u8>
    decreases vs.len(),
{
    if vs.len() == 0 {
        seq![]
    } else {
        spec_encode_values(vs.drop_last()) + spec_encode_ordered(vs.last())
    }
}

pub open spec fn deref_values(vs: Seq<&Value>) -> Seq<ValueModel> {
    vs.map_values(|v: &Value| v@)
}

/// Separator between the values and the document key in an index key.
pub const INDEX_KEY_SEPARATOR: u8 = 0xFF;

/// `[value1][value2]...[0xFF][doc_key]`
pub open spec fn spec_index_key(vs: Seq<ValueModel>, doc_key: Seq<char>) -> Seq<u8> {
    spec_encode_values(vs) + seq![INDEX_KEY_SEPARATOR] + utf8(doc_key)
}

/// Encodes the values of an index entry, in order.
pub fn encode_index_prefix(values: &[&Value]) -> (r: Vec<u8>)
    ensures
        r@ == spec_encode_values(deref_values(values@)),
{
    let ghost vs = deref_values(values@);
    let mut buf: Vec<u8> = Vec::new();
    let mut i: usize = 0;
    while i < values.len()
        invariant
            i <= values@.len(),
            vs == deref_values(values@),
            buf@ == spec_encode_values(vs.take(i as int)),
        decreases values@.len() - i,
    {
        let mut enc = encode_value_with_delimiter(values[i]);
        buf.append(&mut enc);
        assert(vs.take(i + 1).drop_last() =~= vs.take(i as int));
        i = i + 1;
    }
    assert(vs.take(values@.len() as int) =~= vs);
    buf
}

/// Encodes a complete index key: the values, `0xFF`, the document key.
pub fn encode_index_key(values: &[&Value], doc_key: &str) -> (r: Vec<u8>)
    ensures
        r@ == spec_index_key(deref_values(values@), doc_key@),
{
    let mut buf = encode_index_prefix(values);
    buf.push(INDEX_KEY_SEPARATOR);
    extend_bytes(&mut buf, doc_key.as_bytes());
    buf
}

/// Exclusive start bound for "greater than" scans: the value, then `0xFF`.
pub fn encode_range_bound_exclusive(value: &Value) -> (r: Vec<u8>)
    ensures
        r@ == spec_encode_ordered(value@).push(INDEX_KEY_SEPARATOR),
{
    let mut buf = encode_value_with_delimiter(value);
    buf.push(INDEX_KEY_SEPARATOR);
    buf
}

/// Index of the last byte below `0xFF`.
pub open spec fn last_below_ff(b: Seq<u8>) -> Option<int>
    decreases b.len(),
{
    if b.len() == 0 {
        None
    } else if b.last() < 0xFF {
        Some(b.len() - 1)
    } else {
        last_below_ff(b.drop_last())
    }
}

/// The last byte below `0xFF` is incremented and everything after it is
/// dropped; a string of `0xFF` bytes only gets a `0x00` appended.
pub open spec fn spec_byte_successor(b: Seq<u8>) -> Seq<u8> {
    match last_below_ff(b) {
        Some(i) => b.take(i).push((b[i] + 1) as u8),
        None => b.push(0),
    }
}

pub(crate) proof fn lemma_last_below_ff(b: Seq<u8>)
    ensures
        last_below_ff(b) matches Some(i) ==> 0 <= i < b.len() && b[i] < 0xFF && forall|j: int|
            i < j < b.len() ==> #[trigger] b[j] == 0xFF,
        last_below_ff(b) is None ==> forall|j: int| 0 <= j < b.len() ==> #[trigger] b[j] == 0xFF,
    decreases b.len(),
{
    if b.len() > 0 {
        lemma_last_below_ff(b.drop_last());
        if b.last() == 0xFF {
            assert forall|j: int| 0 <= j < b.len() - 1 implies #[trigger] b[j] == b.drop_last()[j] by {}
        }
    }
}

/// The byte string that follows `bytes` as an exclusive upper bound of the
/// keys that start with it.
pub fn byte_successor(bytes: &[u8]) -> (r: Vec<u8>)
    ensures
        r@ == spec_byte_successor(bytes@),
{
    let mut result = vstd::slice::slice_to_vec(bytes);
    let n = result.len();
    let mut k: usize = n;
    while k > 0
        invariant
            k <= n,
            n == bytes@.len(),
            result@ == bytes@,
            forall|j: int| k <= j < n ==> #[trigger] bytes@[j] == 0xFF,
        decreases k,
    {
        let i = k - 1;
        if result[i] < 0xFF {
            proof {
                lemma_last_below_ff(bytes@);
                lemma_last_below_ff_is(bytes@, i as int);
            }
            let v = result[i] + 1;
            result.set(i, v);
            result.truncate(i + 1);
            assert(result@ =~= bytes@.take(i as int).push(v));
            return result;
        }
        k = i;
    }
    proof {
        lemma_last_below_ff_none(bytes@);
    }
    result.push(0x00);
    result
}

proof fn lemma_last_below_ff_is(b: Seq<u8>, i: int)
    requires
        0 <= i < b.len(),
        b[i] < 0xFF,
        forall|j: int| i < j < b.len() ==> #[trigger] b[j] == 0xFF,
    ensures
        last_below_ff(b) == Some(i),
    decreases b.len(),
{
    if i < b.len() - 1 {
        assert(b.last() == 0xFF);
        lemma_last_below_ff_is(b.drop_last(), i);
    }
}

proof fn lemma_last_below_ff_none(b: Seq<u8>)
    requires
        forall|j: int| 0 <= j < b.len() ==> #[trigger] b[j] == 0xFF,
    ensures
        last_below_ff(b) is None,
    decreases b.len(),
{
    if b.len() > 0 {
        assert(b.last() == 0xFF);
        lemma_last_below_ff_none(b.drop_last());
    }
}

/// Index of the last `0xFF` byte.
pub open spec fn last_ff(b: Seq<u8>) -> Option<int>
    decreases b.len(),
{
    if b.len() == 0 {
        None
    } else if b.last() == 0xFF {
        Some(b.len() - 1)
    } else {
        last_ff(b.drop_last())
    }
}

/// The document key of an index key: the bytes after the last `0xFF`,
/// when they are valid UTF-8.
pub open spec fn spec_extract_doc_key(key: Seq<u8>) -> Option<Seq<char>> {
    match last_ff(key) {
        None => None,
        Some(p) => {
            let rest = key.subrange(p + 1, key.len() as int);
            if valid_utf8(rest) {
                Some(decode_utf8(rest))
            } else {
                None
            }
        },
    }
}

pub proof fn lemma_last_ff_is(b: Seq<u8>, i: int)
    requires
        0 <= i < b.len(),
        b[i] == 0xFF,
        forall|j: int| i < j < b.len() ==> #[trigger] b[j] != 0xFF,
    ensures
        last_ff(b) == Some(i),
    decreases b.len(),
{
    if i < b.len() - 1 {
        assert(b.last() != 0xFF);
        lemma_last_ff_is(b.drop_last(), i);
    }
}

proof fn lemma_last_ff_none(b: Seq<u8>)
    requires
        forall|j: int| 0 <= j < b.len() ==> #[trigger] b[j] != 0xFF,
    ensures
        last_ff(b) is None,
    decreases b.len(),
{
    if b.len() > 0 {
        assert(b.last() != 0xFF);
        lemma_last_ff_none(b.drop_last());
    }
}

/// The document key after the last `0xFF` of an index key; `None` when there
/// is no `0xFF` or what follows it is not valid UTF-8.
pub fn extract_doc_key(key: &[u8]) -> (r: Option<String>)
    ensures
        r.is_some() == spec_extract_doc_key(key@).is_some(),
        r.is_some() ==> r.unwrap()@ == spec_extract_doc_key(key@).unwrap(),
{
    let n = key.len();
    let mut k: usize = n;
    while k > 0
        invariant
            k <= n,
            n == key@.len(),
            forall|j: int| k <= j < n ==> #[trigger] key@[j] != 0xFF,
        decreases k,
    {
        let i = k - 1;
        if key[i] == 0xFF {
            proof {
                lemma_last_ff_is(key@, i as int);
            }
            let rest = vstd::slice::slice_subrange(key, i + 1, n);
            return utf8_string(rest);
        }
        k = i;
    }
    proof {
        lemma_last_ff_none(key@);
    }
    None
}

/// Where a string's `0x00 0x00` terminator ends, scanning from `i` and
/// stepping over escaped zeros (`0x00 0xFF`).
pub open spec fn string_end(d: Seq<u8>, i: int) -> Option<int>
    decreases d.len() - i,
{
    if i < 0 || i + 1 >= d.len() {
        None
    } else if d[i] == 0 && d[i + 1] == 0 {
        Some(i + 2)
    } else if d[i] == 0 && d[i + 1] == 0xFF {
        string_end(d, i + 2)
    } else {
        string_end(d, i + 1)
    }
}

/// Length of the encoded value at the start of `d`, for the types that can
/// lead a compound key: null (1), boolean (2), number (17), string (up to and
/// including its terminator). `None` when the bytes end before the value does.
pub open spec fn spec_skip_encoded_value(d: Seq<u8>) -> Option<int> {
    if d.len() == 0 {
        None
    } else if d[0] == TAG_NULL {
        Some(1)
    } else if d[0] == TAG_BOOL {
        if d.len() >= 2 { Some(2) } else { None }
    } else if d[0] == TAG_NUMBER {
        if d.len() >= 17 { Some(17) } else { None }
    } else if d[0] == TAG_STRING {
        string_end(d, 1)
    } else {
        None
    }
}

/// Skips one encoded value, giving the number of bytes it takes.
pub fn skip_encoded_value(data: &[u8]) -> (r: Option<usize>)
    ensures
        r.is_some() == spec_skip_encoded_value(data@).is_some(),
        r.is_some() ==> r.unwrap() as int == spec_skip_encoded_value(data@).unwrap(),
        r.is_some() ==> 1 <= r.unwrap() <= data@.len(),
{
    if data.len() == 0 {
        return None;
    }
    let tag = data[0];
    if tag == TAG_NULL {
        Some(1)
    } else if tag == TAG_BOOL {
        if data.len() >= 2 {
            Some(2)
        } else {
            None
        }
    } else if tag == TAG_NUMBER {
        if data.len() >= 1 + NUMERIC_FIXED_WIDTH {
            Some(1 + NUMERIC_FIXED_WIDTH)
        } else {
            None
        }
    } else if tag == TAG_STRING {
        let mut i: usize = 1;
        let last = data.len() - 1;
        while i < last
            invariant
                1 <= i,
                i <= data@.len(),
                last == data@.len() - 1,
                data@.len() > 0,
                data@[0] == TAG_STRING,
                string_end(data@, 1) == string_end(data@, i as int),
            decreases data@.len() - i,
        {
            if data[i] == 0x00 && data[i + 1] == 0x00 {
                return Some(i + 2);
            }
            if data[i] == 0x00 && data[i + 1] == 0xFF {
                i = i + 2;
            } else {
                i = i + 1;
            }
        }
        None
    } else {
        None
    }
}

} // verus!
