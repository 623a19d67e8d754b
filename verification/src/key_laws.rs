//! What the key encodings promise: the order of encoded keys follows the
//! order of what they encode, encoded values can be skipped and keys taken
//! apart again.

use vstd::prelude::*;
use vstd::utf8::{
    decode_utf8, encode_scalar, encode_utf8, encode_utf8_decode_utf8, encode_utf8_valid_utf8,
    has_width_1_encoding, has_width_2_encoding, has_width_3_encoding, is_scalar, char_is_scalar,
    valid_utf8,
};
use crate::encoding::{
    escape_nul, spec_encode_ordered, spec_string_key, spec_pair_key, spec_triple_key, utf8,
    spec_byte_successor, last_below_ff, spec_extract_doc_key, spec_index_key, spec_encode_values,
    lemma_last_ff_is, string_end, spec_skip_encoded_value, TAG_NULL, TAG_BOOL, TAG_NUMBER, TAG_STRING, TAG_DATETIME,
    TAG_DURATION, TAG_BYTES, TAG_RANGE, TAG_UNORDERED, EDGE_PREFIX_OUT, EDGE_PREFIX_IN, EDGE_PREFIX_IDX,
    spec_field_value_prefix, datetime_key_bits,
};
use crate::numeric::{law_int_encoding_preserves_order, spec_encode_int, lemma_encode_int_len, lemma_encode_float_text_len, lemma_encode_decimal_text_len};
use crate::order::{first_lower_at, lex_lt, lemma_lex_lt_at, lemma_lex_lt_prepend, lemma_lex_lt_proper_prefix, lemma_lex_lt_extend, lemma_lex_lt_cases, lemma_lex_lt_total, lemma_lex_lt_asymmetric, lemma_lex_lt_irreflexive};
use crate::bytes::{u32_be, u64_be};
use crate::value::{ValueModel, is_digit_char, nan_text, inf_text, neg_inf_text};
use crate::stats::{decimal_text, digit_char};
use crate::fulltext::int_text;
use crate::numeric::{spec_encode_float_text, decimal_value, all_digit_chars, digit_value, magnitude_text, is_zero_text as num_is_zero_text};

verus! {

/// The type tag an ordered encoding starts with.
pub open spec fn ordered_tag(v: ValueModel) -> u8 {
    match v {
        ValueModel::Null => TAG_NULL,
        ValueModel::Bool(_) => TAG_BOOL,
        ValueModel::Int(_) => TAG_NUMBER,
        ValueModel::Float(_) => TAG_NUMBER,
        ValueModel::Decimal(_) => TAG_NUMBER,
        ValueModel::String(_) => TAG_STRING,
        ValueModel::Reference(_) => TAG_STRING,
        ValueModel::Array(_) => TAG_UNORDERED,
        ValueModel::Object(_) => TAG_UNORDERED,
        ValueModel::Datetime(_) => TAG_DATETIME,
        ValueModel::Duration(_) => TAG_DURATION,
        ValueModel::Bytes(_) => TAG_BYTES,
        ValueModel::Range(..) => TAG_RANGE,
    }
}

/// Law: values of different types sort by their type tags: null, boolean,
/// number, string, datetime, duration, bytes, range, then arrays and objects.
pub proof fn law_type_order(a: ValueModel, b: ValueModel)
    requires
        ordered_tag(a) < ordered_tag(b),
    ensures
        lex_lt(spec_encode_ordered(a), spec_encode_ordered(b)),
{
    let ea = spec_encode_ordered(a);
    let eb = spec_encode_ordered(b);
    assert(ea.len() > 0 && ea[0] == ordered_tag(a));
    assert(eb.len() > 0 && eb[0] == ordered_tag(b));
    assert(first_lower_at(ea, eb, 0));
    lemma_lex_lt_at(ea, eb, 0);
}

/// Law: `false` sorts before `true`.
pub proof fn law_bool_order()
    ensures
        lex_lt(spec_encode_ordered(ValueModel::Bool(false)), spec_encode_ordered(ValueModel::Bool(true))),
{
    let ea = spec_encode_ordered(ValueModel::Bool(false));
    let eb = spec_encode_ordered(ValueModel::Bool(true));
    assert(first_lower_at(ea, eb, 1));
    lemma_lex_lt_at(ea, eb, 1);
}

/// Law: integer values sort as the integers do.
pub proof fn law_int_value_order(a: i64, b: i64)
    requires
        a < b,
    ensures
        lex_lt(spec_encode_ordered(ValueModel::Int(a)), spec_encode_ordered(ValueModel::Int(b))),
{
    law_int_encoding_preserves_order(a, b);
    lemma_lex_lt_prepend(seq![TAG_NUMBER], spec_encode_int(a as int), spec_encode_int(b as int));
}

/// The first byte at which two 8-byte big-endian forms of `x < y` differ
/// holds the lesser byte for `x`, and they do differ somewhere.
proof fn lemma_u64_be_bytes(x: u64, y: u64)
    by (bit_vector)
    requires
        x < y,
    ensures
        (x / 0x100_0000_0000_0000u64) < 256u64 && (y / 0x100_0000_0000_0000u64) < 256u64,
        (x / 0x100_0000_0000_0000u64) != (y / 0x100_0000_0000_0000u64) ==> (x / 0x100_0000_0000_0000u64) < (y / 0x100_0000_0000_0000u64),
        (x / 0x100_0000_0000_0000u64) == (y / 0x100_0000_0000_0000u64) && (((x / 0x1_0000_0000_0000u64) % 256u64)) != (((y / 0x1_0000_0000_0000u64) % 256u64)) ==> (((x / 0x1_0000_0000_0000u64) % 256u64)) < (((y / 0x1_0000_0000_0000u64) % 256u64)),
        (x / 0x1_0000_0000_0000u64) == (y / 0x1_0000_0000_0000u64) && (((x / 0x100_0000_0000u64) % 256u64)) != (((y / 0x100_0000_0000u64) % 256u64)) ==> (((x / 0x100_0000_0000u64) % 256u64)) < (((y / 0x100_0000_0000u64) % 256u64)),
        (x / 0x100_0000_0000u64) == (y / 0x100_0000_0000u64) && (((x / 0x1_0000_0000u64) % 256u64)) != (((y / 0x1_0000_0000u64) % 256u64)) ==> (((x / 0x1_0000_0000u64) % 256u64)) < (((y / 0x1_0000_0000u64) % 256u64)),
        (x / 0x1_0000_0000u64) == (y / 0x1_0000_0000u64) && (((x / 0x100_0000u64) % 256u64)) != (((y / 0x100_0000u64) % 256u64)) ==> (((x / 0x100_0000u64) % 256u64)) < (((y / 0x100_0000u64) % 256u64)),
        (x / 0x100_0000u64) == (y / 0x100_0000u64) && (((x / 0x1_0000u64) % 256u64)) != (((y / 0x1_0000u64) % 256u64)) ==> (((x / 0x1_0000u64) % 256u64)) < (((y / 0x1_0000u64) % 256u64)),
        (x / 0x1_0000u64) == (y / 0x1_0000u64) && (((x / 0x100u64) % 256u64)) != (((y / 0x100u64) % 256u64)) ==> (((x / 0x100u64) % 256u64)) < (((y / 0x100u64) % 256u64)),
        (x / 0x100u64) == (y / 0x100u64) ==> ((x % 256u64)) < ((y % 256u64)),
        (x / 0x100_0000_0000_0000u64) == (y / 0x100_0000_0000_0000u64) && (((x / 0x1_0000_0000_0000u64) % 256u64)) == (((y / 0x1_0000_0000_0000u64) % 256u64)) ==> (x / 0x1_0000_0000_0000u64) == (y / 0x1_0000_0000_0000u64),
        (x / 0x1_0000_0000_0000u64) == (y / 0x1_0000_0000_0000u64) && (((x / 0x100_0000_0000u64) % 256u64)) == (((y / 0x100_0000_0000u64) % 256u64)) ==> (x / 0x100_0000_0000u64) == (y / 0x100_0000_0000u64),
        (x / 0x100_0000_0000u64) == (y / 0x100_0000_0000u64) && (((x / 0x1_0000_0000u64) % 256u64)) == (((y / 0x1_0000_0000u64) % 256u64)) ==> (x / 0x1_0000_0000u64) == (y / 0x1_0000_0000u64),
        (x / 0x1_0000_0000u64) == (y / 0x1_0000_0000u64) && (((x / 0x100_0000u64) % 256u64)) == (((y / 0x100_0000u64) % 256u64)) ==> (x / 0x100_0000u64) == (y / 0x100_0000u64),
        (x / 0x100_0000u64) == (y / 0x100_0000u64) && (((x / 0x1_0000u64) % 256u64)) == (((y / 0x1_0000u64) % 256u64)) ==> (x / 0x1_0000u64) == (y / 0x1_0000u64),
        (x / 0x1_0000u64) == (y / 0x1_0000u64) && (((x / 0x100u64) % 256u64)) == (((y / 0x100u64) % 256u64)) ==> (x / 0x100u64) == (y / 0x100u64),
{
}

/// The 8-byte big-endian forms of two `u64`s sort as the numbers do.
pub proof fn lemma_u64_be_order(x: u64, y: u64)
    requires
        x < y,
    ensures
        lex_lt(u64_be(x), u64_be(y)),
{
    lemma_u64_be_bytes(x, y);
    let a = u64_be(x);
    let b = u64_be(y);
    let qx = x / 0x100_0000_0000_0000;
    let qy = y / 0x100_0000_0000_0000;
    assert(a[0] == qx as u8 && b[0] == qy as u8);
    assert(qx as u8 == qx && qy as u8 == qy);
    assert(a[1] == ((x / 0x1_0000_0000_0000) % 256) && b[1] == ((y / 0x1_0000_0000_0000) % 256));
    assert(a[2] == ((x / 0x100_0000_0000) % 256) && b[2] == ((y / 0x100_0000_0000) % 256));
    assert(a[3] == ((x / 0x1_0000_0000) % 256) && b[3] == ((y / 0x1_0000_0000) % 256));
    assert(a[4] == ((x / 0x100_0000) % 256) && b[4] == ((y / 0x100_0000) % 256));
    assert(a[5] == ((x / 0x1_0000) % 256) && b[5] == ((y / 0x1_0000) % 256));
    assert(a[6] == ((x / 0x100) % 256) && b[6] == ((y / 0x100) % 256));
    assert(a[7] == (x % 256) && b[7] == (y % 256));
    let mut i: int = 0;
    if a[0] == b[0] {
        i = 1;
        if a[1] == b[1] {
            i = 2;
            if a[2] == b[2] {
                i = 3;
                if a[3] == b[3] {
                    i = 4;
                    if a[4] == b[4] {
                        i = 5;
                        if a[5] == b[5] {
                            i = 6;
                            if a[6] == b[6] {
                                i = 7;
                            }
                        }
                    }
                }
            }
        }
    }
    assert(first_lower_at(a, b, i));
    lemma_lex_lt_at(a, b, i);
}

/// Law: datetimes keep their order in the ordered encoding: an earlier
/// instant sorts first, before the epoch as after it.
pub proof fn law_datetime_order(a: i64, b: i64)
    requires
        a < b,
    ensures
        lex_lt(spec_encode_ordered(ValueModel::Datetime(a)), spec_encode_ordered(ValueModel::Datetime(b))),
{
    assert(datetime_key_bits(a) < datetime_key_bits(b));
    lemma_u64_be_order(datetime_key_bits(a), datetime_key_bits(b));
    lemma_lex_lt_prepend(seq![TAG_DATETIME], u64_be(datetime_key_bits(a)), u64_be(datetime_key_bits(b)));
}

/// Law: durations keep their order in the ordered encoding.
pub proof fn law_duration_order(a: u64, b: u64)
    requires
        a < b,
    ensures
        lex_lt(spec_encode_ordered(ValueModel::Duration(a)), spec_encode_ordered(ValueModel::Duration(b))),
{
    lemma_u64_be_order(a, b);
    lemma_lex_lt_prepend(seq![TAG_DURATION], u64_be(a), u64_be(b));
}

pub open spec fn escape_byte(x: u8) -> Seq<u8> {
    if x == 0 {
        seq![0u8, 0xFFu8]
    } else {
        seq![x]
    }
}

proof fn lemma_escape_concat(a: Seq<u8>, b: Seq<u8>)
    ensures
        escape_nul(a + b) == escape_nul(a) + escape_nul(b),
    decreases b.len(),
{
    if b.len() == 0 {
        assert(a + b =~= a);
        assert(escape_nul(a) + escape_nul(b) =~= escape_nul(a));
    } else {
        assert((a + b).drop_last() =~= a + b.drop_last());
        lemma_escape_concat(a, b.drop_last());
        assert(escape_nul(a + b) =~= escape_nul(a) + escape_nul(b));
    }
}

proof fn lemma_escape_cons(b: Seq<u8>)
    requires
        b.len() > 0,
    ensures
        escape_nul(b) == escape_byte(b[0]) + escape_nul(b.drop_first()),
{
    assert(b =~= seq![b[0]] + b.drop_first());
    lemma_escape_concat(seq![b[0]], b.drop_first());
    assert(seq![b[0]].drop_last() =~= Seq::<u8>::empty());
    assert(escape_nul(Seq::<u8>::empty()) =~= Seq::<u8>::empty());
    assert(escape_nul(seq![b[0]]) =~= escape_nul(Seq::<u8>::empty()) + escape_byte(b[0]));
    assert(escape_nul(seq![b[0]]) =~= escape_byte(b[0]));
}

/// Escaped bytes followed by the terminator keep the order of the bytes.
proof fn lemma_escaped_order(b1: Seq<u8>, b2: Seq<u8>)
    requires
        lex_lt(b1, b2),
    ensures
        lex_lt(escape_nul(b1) + seq![0u8, 0u8], escape_nul(b2) + seq![0u8, 0u8]),
    decreases b1.len(),
{
    let e1 = escape_nul(b1) + seq![0u8, 0u8];
    let e2 = escape_nul(b2) + seq![0u8, 0u8];
    lemma_escape_cons(b2);
    let x2 = b2[0];
    if b1.len() == 0 {
        assert(escape_nul(b1) =~= Seq::<u8>::empty());
        assert(e1 =~= seq![0u8, 0u8]);
        if x2 == 0 {
            assert(first_lower_at(e1, e2, 1));
            lemma_lex_lt_at(e1, e2, 1);
        } else {
            assert(first_lower_at(e1, e2, 0));
            lemma_lex_lt_at(e1, e2, 0);
        }
    } else {
        lemma_escape_cons(b1);
        let x1 = b1[0];
        if x1 != x2 {
            if x1 == 0 {
                assert(first_lower_at(e1, e2, 0));
                lemma_lex_lt_at(e1, e2, 0);
            } else {
                assert(first_lower_at(e1, e2, 0));
                lemma_lex_lt_at(e1, e2, 0);
            }
        } else {
            lemma_escaped_order(b1.drop_first(), b2.drop_first());
            let p = escape_byte(x1);
            lemma_lex_lt_prepend(
                p,
                escape_nul(b1.drop_first()) + seq![0u8, 0u8],
                escape_nul(b2.drop_first()) + seq![0u8, 0u8],
            );
            assert(e1 =~= p + (escape_nul(b1.drop_first()) + seq![0u8, 0u8]));
            assert(e2 =~= p + (escape_nul(b2.drop_first()) + seq![0u8, 0u8]));
        }
    }
}

/// Law: strings sort as their UTF-8 bytes do, embedded zero bytes included.
pub proof fn law_string_order(a: Seq<char>, b: Seq<char>)
    requires
        lex_lt(utf8(a), utf8(b)),
    ensures
        lex_lt(spec_string_key(a), spec_string_key(b)),
{
    lemma_escaped_order(utf8(a), utf8(b));
    lemma_lex_lt_prepend(
        seq![TAG_STRING],
        escape_nul(utf8(a)) + seq![0u8, 0u8],
        escape_nul(utf8(b)) + seq![0u8, 0u8],
    );
    assert(spec_string_key(a) =~= seq![TAG_STRING] + (escape_nul(utf8(a)) + seq![0u8, 0u8]));
    assert(spec_string_key(b) =~= seq![TAG_STRING] + (escape_nul(utf8(b)) + seq![0u8, 0u8]));
}

/// `a` sorts before `b` or equals it.
pub open spec fn lex_le(a: Seq<u8>, b: Seq<u8>) -> bool {
    a == b || lex_lt(a, b)
}

proof fn lemma_prefix_le(p: Seq<u8>, s: Seq<u8>)
    ensures
        lex_le(p, p + s),
{
    if s.len() == 0 {
        assert(p + s =~= p);
    } else {
        assert(p =~= (p + s).take(p.len() as int));
        lemma_lex_lt_proper_prefix(p, p + s);
    }
}

/// Law: every OUT key of a node lies in the scan range
/// `[out_prefix(from), out_prefix_end(from))`, and so does every multi key.
pub proof fn law_out_keys_in_prefix_range(from: Seq<char>, to: Seq<char>, edge_id: Seq<char>)
    ensures
        lex_le(seq![EDGE_PREFIX_OUT] + utf8(from) + seq![0u8], spec_pair_key(EDGE_PREFIX_OUT, from, to)),
        lex_lt(spec_pair_key(EDGE_PREFIX_OUT, from, to), seq![EDGE_PREFIX_OUT] + utf8(from) + seq![1u8]),
        lex_le(seq![EDGE_PREFIX_OUT] + utf8(from) + seq![0u8], spec_triple_key(EDGE_PREFIX_OUT, from, to, edge_id)),
        lex_lt(spec_triple_key(EDGE_PREFIX_OUT, from, to, edge_id), seq![EDGE_PREFIX_OUT] + utf8(from) + seq![1u8]),
{
    lemma_node_range(EDGE_PREFIX_OUT, from, utf8(to));
    lemma_node_range(EDGE_PREFIX_OUT, from, utf8(to) + seq![0u8] + utf8(edge_id));
    assert(spec_pair_key(EDGE_PREFIX_OUT, from, to) =~= (seq![EDGE_PREFIX_OUT] + utf8(from) + seq![0u8]) + utf8(to));
    assert(spec_triple_key(EDGE_PREFIX_OUT, from, to, edge_id) =~= (seq![EDGE_PREFIX_OUT] + utf8(from) + seq![0u8]) + (utf8(to) + seq![0u8] + utf8(edge_id)));
}

/// Law: every IN key of a node lies in `[in_prefix(to), in_prefix_end(to))`.
pub proof fn law_in_keys_in_prefix_range(to: Seq<char>, from: Seq<char>, edge_id: Seq<char>)
    ensures
        lex_le(seq![EDGE_PREFIX_IN] + utf8(to) + seq![0u8], spec_pair_key(EDGE_PREFIX_IN, to, from)),
        lex_lt(spec_pair_key(EDGE_PREFIX_IN, to, from), seq![EDGE_PREFIX_IN] + utf8(to) + seq![1u8]),
        lex_le(seq![EDGE_PREFIX_IN] + utf8(to) + seq![0u8], spec_triple_key(EDGE_PREFIX_IN, to, from, edge_id)),
        lex_lt(spec_triple_key(EDGE_PREFIX_IN, to, from, edge_id), seq![EDGE_PREFIX_IN] + utf8(to) + seq![1u8]),
{
    lemma_node_range(EDGE_PREFIX_IN, to, utf8(from));
    lemma_node_range(EDGE_PREFIX_IN, to, utf8(from) + seq![0u8] + utf8(edge_id));
    assert(spec_pair_key(EDGE_PREFIX_IN, to, from) =~= (seq![EDGE_PREFIX_IN] + utf8(to) + seq![0u8]) + utf8(from));
    assert(spec_triple_key(EDGE_PREFIX_IN, to, from, edge_id) =~= (seq![EDGE_PREFIX_IN] + utf8(to) + seq![0u8]) + (utf8(from) + seq![0u8] + utf8(edge_id)));
}

/// Law: every multi key between two nodes lies in
/// `[target_prefix(from, to), target_prefix_end(from, to))`.
pub proof fn law_multi_keys_in_target_range(from: Seq<char>, to: Seq<char>, edge_id: Seq<char>)
    ensures
        lex_le(spec_pair_key(EDGE_PREFIX_OUT, from, to) + seq![0u8], spec_triple_key(EDGE_PREFIX_OUT, from, to, edge_id)),
        lex_lt(spec_triple_key(EDGE_PREFIX_OUT, from, to, edge_id), spec_pair_key(EDGE_PREFIX_OUT, from, to) + seq![1u8]),
{
    let p = spec_pair_key(EDGE_PREFIX_OUT, from, to);
    let k = spec_triple_key(EDGE_PREFIX_OUT, from, to, edge_id);
    assert(k =~= (p + seq![0u8]) + utf8(edge_id));
    lemma_prefix_le(p + seq![0u8], utf8(edge_id));
    let e = p + seq![1u8];
    assert forall|j: int| 0 <= j < p.len() implies #[trigger] k[j] == e[j] by {}
    assert(first_lower_at(k, e, p.len() as int));
    lemma_lex_lt_at(k, e, p.len() as int);
}

/// Law: every field-index key of a field lies in
/// `[field_prefix(field), field_prefix_end(field))`, and starts with the
/// prefix of its value.
pub proof fn law_field_keys_in_prefix_range(field: Seq<char>, value: ValueModel, edge_id: Seq<char>)
    ensures
        lex_le(seq![EDGE_PREFIX_IDX] + utf8(field) + seq![0u8], spec_field_value_prefix(field, value) + utf8(edge_id)),
        lex_lt(spec_field_value_prefix(field, value) + utf8(edge_id), seq![EDGE_PREFIX_IDX] + utf8(field) + seq![1u8]),
        lex_le(spec_field_value_prefix(field, value), spec_field_value_prefix(field, value) + utf8(edge_id)),
{
    let rest = spec_encode_ordered(value) + seq![0u8] + utf8(edge_id);
    lemma_node_range(EDGE_PREFIX_IDX, field, rest);
    assert(spec_field_value_prefix(field, value) + utf8(edge_id) =~= seq![EDGE_PREFIX_IDX] + utf8(field) + seq![0u8] + rest);
    lemma_prefix_le(spec_field_value_prefix(field, value), utf8(edge_id));
}

proof fn lemma_node_range(prefix: u8, node: Seq<char>, rest: Seq<u8>)
    ensures
        lex_le(seq![prefix] + utf8(node) + seq![0u8], seq![prefix] + utf8(node) + seq![0u8] + rest),
        lex_lt(seq![prefix] + utf8(node) + seq![0u8] + rest, seq![prefix] + utf8(node) + seq![1u8]),
{
    let p = seq![prefix] + utf8(node);
    let k = p + seq![0u8] + rest;
    let e = p + seq![1u8];
    lemma_prefix_le(p + seq![0u8], rest);
    assert forall|j: int| 0 <= j < p.len() implies #[trigger] k[j] == e[j] by {}
    assert(first_lower_at(k, e, p.len() as int));
    lemma_lex_lt_at(k, e, p.len() as int);
}

/// Law: the successor of a byte string sorts after it.
pub proof fn law_byte_successor_after(b: Seq<u8>)
    ensures
        lex_lt(b, spec_byte_successor(b)),
{
    lemma_last_below(b);
    let s = spec_byte_successor(b);
    match last_below_ff(b) {
        Some(i) => {
            assert forall|j: int| 0 <= j < i implies #[trigger] b[j] == s[j] by {}
            assert(first_lower_at(b, s, i));
            lemma_lex_lt_at(b, s, i);
        },
        None => {
            assert(b =~= s.take(b.len() as int));
            lemma_lex_lt_proper_prefix(b, s);
        },
    }
}

/// Law: when `b` holds a byte below `0xFF`, every byte string that starts
/// with `b` sorts before the successor of `b`, so the successor bounds a
/// prefix scan. (For `b` made only of `0xFF` bytes, `b ++ [0x00]` starts with
/// `b` and equals the successor.)
pub proof fn law_byte_successor_bounds_prefix(b: Seq<u8>, k: Seq<u8>)
    requires
        last_below_ff(b) is Some,
        k.len() >= b.len(),
        k.take(b.len() as int) == b,
    ensures
        lex_lt(k, spec_byte_successor(b)),
{
    lemma_last_below(b);
    let i = last_below_ff(b).unwrap();
    let s = spec_byte_successor(b);
    assert forall|j: int| 0 <= j < i implies #[trigger] k[j] == s[j] by {
        assert(k.take(b.len() as int)[j] == b[j]);
    }
    assert(k.take(b.len() as int)[i] == b[i]);
    assert(first_lower_at(k, s, i));
    lemma_lex_lt_at(k, s, i);
}

proof fn lemma_last_below(b: Seq<u8>)
    ensures
        last_below_ff(b) matches Some(i) ==> 0 <= i < b.len() && b[i] < 0xFF,
    decreases b.len(),
{
    if b.len() > 0 {
        lemma_last_below(b.drop_last());
    }
}


proof fn lemma_scalar_bytes(c: char)
    ensures
        forall|i: int|
            0 <= i < encode_scalar(c as u32).len() ==> #[trigger] encode_scalar(c as u32)[i] != 0xFF,
        c != '\0' ==> forall|i: int|
            0 <= i < encode_scalar(c as u32).len() ==> #[trigger] encode_scalar(c as u32)[i] != 0,
{
    char_is_scalar(c);
    let v = c as u32;
    if has_width_1_encoding(v) {
        assert(v <= 0x7F ==> (v & 0x7F) as u8 != 0xFF) by (bit_vector);
        assert(v <= 0x7F && v != 0 ==> (v & 0x7F) as u8 != 0) by (bit_vector);
        if c != '\0' {
            assert(v != 0);
        }
    } else if has_width_2_encoding(v) {
        assert((0xC0u8 | ((v >> 6) & 0x1F) as u8) != 0xFF) by (bit_vector);
        assert((0xC0u8 | ((v >> 6) & 0x1F) as u8) != 0) by (bit_vector);
        assert((0x80u8 | (v & 0x3F) as u8) != 0xFF) by (bit_vector);
        assert((0x80u8 | (v & 0x3F) as u8) != 0) by (bit_vector);
    } else if has_width_3_encoding(v) {
        assert((0xE0u8 | ((v >> 12) & 0x0F) as u8) != 0xFF) by (bit_vector);
        assert((0xE0u8 | ((v >> 12) & 0x0F) as u8) != 0) by (bit_vector);
        assert((0x80u8 | ((v >> 6) & 0x3F) as u8) != 0xFF) by (bit_vector);
        assert((0x80u8 | ((v >> 6) & 0x3F) as u8) != 0) by (bit_vector);
        assert((0x80u8 | (v & 0x3F) as u8) != 0xFF) by (bit_vector);
        assert((0x80u8 | (v & 0x3F) as u8) != 0) by (bit_vector);
    } else {
        assert((0xF0u8 | ((v >> 18) & 0x7) as u8) != 0xFF) by (bit_vector);
        assert((0xF0u8 | ((v >> 18) & 0x7) as u8) != 0) by (bit_vector);
        assert((0x80u8 | ((v >> 12) & 0x3F) as u8) != 0xFF) by (bit_vector);
        assert((0x80u8 | ((v >> 12) & 0x3F) as u8) != 0) by (bit_vector);
        assert((0x80u8 | ((v >> 6) & 0x3F) as u8) != 0xFF) by (bit_vector);
        assert((0x80u8 | ((v >> 6) & 0x3F) as u8) != 0) by (bit_vector);
        assert((0x80u8 | (v & 0x3F) as u8) != 0xFF) by (bit_vector);
        assert((0x80u8 | (v & 0x3F) as u8) != 0) by (bit_vector);
    }
}

/// No byte of UTF-8 text is `0xFF`; a zero byte comes only from a `'\0'`
/// character.
pub proof fn lemma_utf8_bytes(s: Seq<char>)
    ensures
        forall|i: int| 0 <= i < utf8(s).len() ==> #[trigger] utf8(s)[i] != 0xFF,
        (forall|j: int| 0 <= j < s.len() ==> #[trigger] s[j] != '\0') ==> forall|i: int|
            0 <= i < utf8(s).len() ==> #[trigger] utf8(s)[i] != 0,
    decreases s.len(),
{
    if s.len() > 0 {
        lemma_scalar_bytes(s[0]);
        lemma_utf8_bytes(s.drop_first());
        let h = encode_scalar(s[0] as u32);
        let t = utf8(s.drop_first());
        assert(utf8(s) == h + t);
        assert forall|i: int| 0 <= i < utf8(s).len() implies #[trigger] utf8(s)[i] != 0xFF by {
            if i >= h.len() {
                assert(utf8(s)[i] == t[i - h.len()]);
            } else {
                assert(utf8(s)[i] == h[i]);
            }
        }
        if forall|j: int| 0 <= j < s.len() ==> #[trigger] s[j] != '\0' {
            assert(s[0] != '\0');
            assert forall|j: int| 0 <= j < s.drop_first().len() implies #[trigger] s.drop_first()[j]
                != '\0' by {
                assert(s[j + 1] != '\0');
            }
            assert forall|i: int| 0 <= i < utf8(s).len() implies #[trigger] utf8(s)[i] != 0 by {
                if i >= h.len() {
                    assert(utf8(s)[i] == t[i - h.len()]);
                } else {
                    assert(utf8(s)[i] == h[i]);
                }
            }
        }
    }
}

/// Law: the document key of an index key comes back out of it, whatever the
/// indexed values (UTF-8 text never holds the `0xFF` separator).
pub proof fn law_extract_doc_key_roundtrip(vs: Seq<ValueModel>, doc_key: Seq<char>)
    ensures
        spec_extract_doc_key(spec_index_key(vs, doc_key)) == Some(doc_key),
{
    let key = spec_index_key(vs, doc_key);
    let head = spec_encode_values(vs);
    let p = head.len() as int;
    lemma_utf8_bytes(doc_key);
    assert forall|j: int| p < j < key.len() implies #[trigger] key[j] != 0xFF by {
        assert(key[j] == utf8(doc_key)[j - p - 1]);
    }
    assert(key[p] == 0xFF);
    lemma_last_ff_is(key, p);
    assert(key.subrange(p + 1, key.len() as int) =~= utf8(doc_key));
    encode_utf8_valid_utf8(doc_key);
    encode_utf8_decode_utf8(doc_key);
}

/// Law: an ID lookup value splits back into its endpoints: its first zero
/// byte is the separator, and both halves are the endpoints' UTF-8 text.
/// (An endpoint `from` that itself holds `'\0'` would move the split.)
pub proof fn law_edge_id_value_roundtrip(from: Seq<char>, to: Seq<char>)
    requires
        forall|j: int| 0 <= j < from.len() ==> #[trigger] from[j] != '\0',
    ensures
        ({
            let v = utf8(from) + seq![0u8] + utf8(to);
            let i = utf8(from).len() as int;
            &&& v[i] == 0
            &&& forall|j: int| 0 <= j < i ==> #[trigger] v[j] != 0
            &&& valid_utf8(v.subrange(0, i)) && decode_utf8(v.subrange(0, i)) == from
            &&& valid_utf8(v.subrange(i + 1, v.len() as int)) && decode_utf8(
                v.subrange(i + 1, v.len() as int),
            ) == to
        }),
{
    let v = utf8(from) + seq![0u8] + utf8(to);
    let i = utf8(from).len() as int;
    lemma_utf8_bytes(from);
    assert forall|j: int| 0 <= j < i implies #[trigger] v[j] != 0 by {
        assert(v[j] == utf8(from)[j]);
    }
    assert(v.subrange(0, i) =~= utf8(from));
    assert(v.subrange(i + 1, v.len() as int) =~= utf8(to));
    encode_utf8_valid_utf8(from);
    encode_utf8_decode_utf8(from);
    encode_utf8_valid_utf8(to);
    encode_utf8_decode_utf8(to);
}

proof fn lemma_string_end(p: Seq<u8>, b: Seq<u8>, rest: Seq<u8>)
    ensures
        string_end(p + escape_nul(b) + seq![0u8, 0u8] + rest, p.len() as int) == Some(
            (p.len() + escape_nul(b).len() + 2) as int,
        ),
    decreases b.len(),
{
    let d = p + escape_nul(b) + seq![0u8, 0u8] + rest;
    let i = p.len() as int;
    if b.len() == 0 {
        assert(escape_nul(b) =~= Seq::<u8>::empty());
        assert(d[i] == 0 && d[i + 1] == 0);
    } else {
        lemma_escape_cons(b);
        let x = b[0];
        let p2 = p + escape_byte(x);
        lemma_string_end(p2, b.drop_first(), rest);
        assert(d =~= p2 + escape_nul(b.drop_first()) + seq![0u8, 0u8] + rest);
        if x == 0 {
            assert(d[i] == 0 && d[i + 1] == 0xFF);
        } else {
            assert(d[i] == x);
        }
    }
}

pub proof fn lemma_numeric_lengths(v: ValueModel)
    ensures
        v is Int ==> spec_encode_ordered(v).len() == 17,
        v is Float ==> spec_encode_ordered(v).len() == 17,
        v is Decimal ==> spec_encode_ordered(v).len() == 17,
{
    match v {
        ValueModel::Int(n) => lemma_encode_int_len(n as int),
        ValueModel::Float(f) => lemma_encode_float_text_len(f),
        ValueModel::Decimal(d) => lemma_encode_decimal_text_len(d),
        _ => {},
    }
}

/// Law: a scalar that can lead a compound key (null, boolean, number,
/// string, reference) is skipped exactly, whatever follows it.
pub proof fn law_skip_encoded_value(v: ValueModel, rest: Seq<u8>)
    requires
        v is Null || v is Bool || v is Int || v is Float || v is Decimal || v is String
            || v is Reference,
    ensures
        spec_skip_encoded_value(spec_encode_ordered(v) + rest) == Some(
            spec_encode_ordered(v).len() as int,
        ),
{
    lemma_numeric_lengths(v);
    let e = spec_encode_ordered(v);
    assert((e + rest)[0] == e[0]);
    match v {
        ValueModel::String(s) => {
            lemma_string_end(seq![TAG_STRING], utf8(s), rest);
            assert(e + rest =~= seq![TAG_STRING] + escape_nul(utf8(s)) + seq![0u8, 0u8] + rest);
        },
        ValueModel::Reference(s) => {
            lemma_string_end(seq![TAG_STRING], utf8(s), rest);
            assert(e + rest =~= seq![TAG_STRING] + escape_nul(utf8(s)) + seq![0u8, 0u8] + rest);
        },
        _ => {},
    }
}

} // verus!

verus! {

proof fn lemma_digit_char(d: nat)
    requires
        d < 10,
    ensures
        is_digit_char(digit_char(d)),
        digit_value(digit_char(d)) == d,
        digit_char(d) == '0' <==> d == 0,
{
}

/// The decimal text of a number is all digits, reads back as the number,
/// and is all zeros only for zero.
proof fn lemma_decimal_text(m: nat)
    ensures
        decimal_text(m).len() >= 1,
        all_digit_chars(decimal_text(m)),
        decimal_value(decimal_text(m)) == m,
        num_is_zero_text(decimal_text(m)) <==> m == 0,
    decreases m,
{
    if m < 10 {
        lemma_digit_char(m);
        let t = decimal_text(m);
        assert(t.drop_last() =~= Seq::<char>::empty());
        assert(decimal_value(t) == 10 * decimal_value(t.drop_last()) + digit_value(t.last()) as nat);
    } else {
        lemma_decimal_text(m / 10);
        lemma_digit_char(m % 10);
        let t = decimal_text(m);
        let h = decimal_text(m / 10);
        assert(t == h.push(digit_char(m % 10)));
        assert(t.drop_last() =~= h);
        assert forall|i: int| 0 <= i < t.len() implies is_digit_char(#[trigger] t[i]) by {
            if i < h.len() {
                assert(t[i] == h[i]);
            }
        }
        if num_is_zero_text(t) {
            assert forall|i: int| 0 <= i < h.len() implies #[trigger] h[i] == '0' || h[i] == '.' by {
                assert(t[i] == h[i]);
            }
            assert(t[t.len() - 1] == '0' || t[t.len() - 1] == '.');
        }
    }
}

/// Law: a double that displays as an integer encodes exactly as that
/// integer does, so `Int(n)` and `Float(n)` fall together in index and
/// hash keys. (`i64::MIN` is the exception: as a double its magnitude
/// 2^63 saturates to `i64::MAX`.)
pub proof fn law_integral_double_encodes_as_int(n: i64)
    requires
        n != i64::MIN,
    ensures
        spec_encode_float_text(int_text(n as int)) == spec_encode_int(n as int),
{
    let t = int_text(n as int);
    if n < 0 {
        let m = (-(n as int)) as nat;
        lemma_decimal_text(m);
        let d = decimal_text(m);
        assert(t == seq!['-'] + d);
        assert(t[1] == d[0]);
        assert(is_digit_char(d[0]));
        assert(t != nan_text());
        assert(t != inf_text());
        assert(t != neg_inf_text()) by {
            assert(neg_inf_text()[1] == 'i');
        }
        assert(magnitude_text(t) =~= d);
    } else {
        let m = n as nat;
        lemma_decimal_text(m);
        let d = decimal_text(m);
        assert(t == d);
        assert(is_digit_char(d[0]));
        assert(t != nan_text());
        assert(t != inf_text());
        assert(t != neg_inf_text());
    }
}

/// Byte strings (and the ordered form of a range's start) are short
/// enough for their 32-bit length prefix.
pub open spec fn lengths_fit(v: ValueModel) -> bool
    decreases v,
{
    match v {
        ValueModel::Bytes(b) => b.len() <= u32::MAX,
        ValueModel::Range(s, e) => spec_encode_ordered(*s).len() <= u32::MAX && lengths_fit(*s) && lengths_fit(*e),
        _ => true,
    }
}

/// `a` is a proper prefix of `b`.
pub open spec fn proper_prefix(a: Seq<u8>, b: Seq<u8>) -> bool {
    a.len() < b.len() && a == b.take(a.len() as int)
}

proof fn lemma_u32_be_injective(x: u32, y: u32)
    requires
        u32_be(x) == u32_be(y),
    ensures
        x == y,
{
    assert(u32_be(x)[0] == u32_be(y)[0]);
    assert(u32_be(x)[1] == u32_be(y)[1]);
    assert(u32_be(x)[2] == u32_be(y)[2]);
    assert(u32_be(x)[3] == u32_be(y)[3]);
    assert(((x / 0x100_0000) as u8 == (y / 0x100_0000) as u8 && ((x / 0x1_0000) % 256) as u8 == ((y / 0x1_0000) % 256) as u8
        && ((x / 0x100) % 256) as u8 == ((y / 0x100) % 256) as u8 && (x % 256) as u8 == (y % 256) as u8) ==> x == y) by (bit_vector);
}

pub(crate) proof fn lemma_tag_and_len(v: ValueModel)
    ensures
        spec_encode_ordered(v).len() >= 1,
        spec_encode_ordered(v)[0] == ordered_tag(v),
        (v is Null || v is Array || v is Object) ==> spec_encode_ordered(v).len() == 1,
        v is Bool ==> spec_encode_ordered(v).len() == 2,
        (v is Datetime || v is Duration) ==> spec_encode_ordered(v).len() == 9,
        (v is Int || v is Float || v is Decimal) ==> spec_encode_ordered(v).len() == 17,
{
    lemma_numeric_lengths(v);
}

proof fn lemma_prefix_free_strings(a: ValueModel, b: ValueModel)
    requires
        a is String || a is Reference,
        b is String || b is Reference,
    ensures
        !proper_prefix(spec_encode_ordered(a), spec_encode_ordered(b)),
{
    let ea = spec_encode_ordered(a);
    let eb = spec_encode_ordered(b);
    if proper_prefix(ea, eb) {
        let rest = eb.subrange(ea.len() as int, eb.len() as int);
        assert(eb =~= ea + rest);
        law_skip_encoded_value(a, rest);
        law_skip_encoded_value(b, Seq::<u8>::empty());
        assert(eb + Seq::<u8>::empty() =~= eb);
    }
}

proof fn lemma_prefix_free_bytes(x: Seq<u8>, y: Seq<u8>)
    requires
        x.len() <= u32::MAX,
        y.len() <= u32::MAX,
    ensures
        !proper_prefix(seq![TAG_BYTES] + u32_be(x.len() as u32) + x, seq![TAG_BYTES] + u32_be(y.len() as u32) + y),
{
    let ea = seq![TAG_BYTES] + u32_be(x.len() as u32) + x;
    let eb = seq![TAG_BYTES] + u32_be(y.len() as u32) + y;
    if proper_prefix(ea, eb) {
        assert(ea.subrange(1, 5) =~= u32_be(x.len() as u32));
        assert(eb.subrange(1, 5) =~= u32_be(y.len() as u32));
        assert(ea.subrange(1, 5) =~= eb.subrange(1, 5)) by {
            assert forall|j: int| 1 <= j < 5 implies ea[j] == eb[j] by {
                assert(ea[j] == eb.take(ea.len() as int)[j]);
            }
        }
        lemma_u32_be_injective(x.len() as u32, y.len() as u32);
    }
}

proof fn lemma_prefix_free_range(es1: Seq<u8>, f1: Seq<u8>, es2: Seq<u8>, f2: Seq<u8>)
    requires
        es1.len() <= u32::MAX,
        es2.len() <= u32::MAX,
        proper_prefix(seq![TAG_RANGE] + u32_be(es1.len() as u32) + es1 + f1, seq![TAG_RANGE] + u32_be(es2.len() as u32) + es2 + f2),
    ensures
        proper_prefix(f1, f2),
{
    let ea = seq![TAG_RANGE] + u32_be(es1.len() as u32) + es1 + f1;
    let eb = seq![TAG_RANGE] + u32_be(es2.len() as u32) + es2 + f2;
    assert forall|j: int| 0 <= j < ea.len() implies ea[j] == eb[j] by {
        assert(ea[j] == eb.take(ea.len() as int)[j]);
    }
    assert(ea.subrange(1, 5) =~= u32_be(es1.len() as u32));
    assert(eb.subrange(1, 5) =~= u32_be(es2.len() as u32));
    assert(ea.subrange(1, 5) =~= eb.subrange(1, 5));
    lemma_u32_be_injective(es1.len() as u32, es2.len() as u32);
    let n = es1.len() as int;
    assert(f1 =~= ea.subrange(5 + n, ea.len() as int));
    assert(f2 =~= eb.subrange(5 + n, eb.len() as int));
    assert(f1 =~= f2.take(f1.len() as int));
}

/// Law: no ordered encoding of a value is a proper prefix of another's, so
/// an encoded value ends where its encoding says, whatever follows it.
pub proof fn law_ordered_encoding_prefix_free(a: ValueModel, b: ValueModel)
    requires
        lengths_fit(a),
        lengths_fit(b),
    ensures
        !proper_prefix(spec_encode_ordered(a), spec_encode_ordered(b)),
    decreases a,
{
    let ea = spec_encode_ordered(a);
    let eb = spec_encode_ordered(b);
    if proper_prefix(ea, eb) {
        lemma_tag_and_len(a);
        lemma_tag_and_len(b);
        assert(ea[0] == eb.take(ea.len() as int)[0]);
        if a is String || a is Reference {
            lemma_prefix_free_strings(a, b);
        } else if a is Bytes {
            let x = a->Bytes_0;
            let y = b->Bytes_0;
            assert(ea == seq![TAG_BYTES] + u32_be(x.len() as u32) + x);
            assert(eb == seq![TAG_BYTES] + u32_be(y.len() as u32) + y);
            lemma_prefix_free_bytes(x, y);
        } else if a is Range {
            let (s1, e1) = (a->Range_0, a->Range_1);
            let (s2, e2) = (b->Range_0, b->Range_1);
            let es1 = spec_encode_ordered(*s1);
            let es2 = spec_encode_ordered(*s2);
            assert(ea == seq![TAG_RANGE] + u32_be(es1.len() as u32) + es1 + spec_encode_ordered(*e1));
            assert(eb == seq![TAG_RANGE] + u32_be(es2.len() as u32) + es2 + spec_encode_ordered(*e2));
            lemma_prefix_free_range(es1, spec_encode_ordered(*e1), es2, spec_encode_ordered(*e2));
            law_ordered_encoding_prefix_free(*e1, *e2);
        }
    }
}

pub(crate) proof fn lemma_single_index_key(a: ValueModel, k: Seq<char>)
    ensures
        spec_index_key(seq![a], k) == spec_encode_ordered(a) + (seq![0xFFu8] + utf8(k)),
{
    assert(seq![a].drop_last() =~= Seq::<ValueModel>::empty());
    assert(seq![a].last() == a);
    assert(spec_encode_values(Seq::<ValueModel>::empty()) =~= Seq::<u8>::empty());
    assert(spec_encode_values(seq![a]) =~= Seq::<u8>::empty() + spec_encode_ordered(a));
    assert(spec_index_key(seq![a], k) =~= spec_encode_ordered(a) + (seq![0xFFu8] + utf8(k)));
}

/// Law: in an index key the values decide before the document key: when
/// the encoding of `a` sorts before that of `b`, every index key for `a`
/// sorts before every index key for `b`, whatever their document keys.
pub proof fn law_index_key_value_order(a: ValueModel, b: ValueModel, k1: Seq<char>, k2: Seq<char>)
    requires
        lengths_fit(a),
        lengths_fit(b),
        lex_lt(spec_encode_ordered(a), spec_encode_ordered(b)),
    ensures
        lex_lt(spec_index_key(seq![a], k1), spec_index_key(seq![b], k2)),
{
    law_ordered_encoding_prefix_free(a, b);
    lemma_single_index_key(a, k1);
    lemma_single_index_key(b, k2);
    lemma_lex_lt_extend(spec_encode_ordered(a), spec_encode_ordered(b), seq![0xFFu8] + utf8(k1), seq![0xFFu8] + utf8(k2));
}

/// `a` starts with `p`.
pub open spec fn starts_with(a: Seq<u8>, p: Seq<u8>) -> bool {
    p.len() <= a.len() && a.take(p.len() as int) == p
}

proof fn lemma_encode_values_front(vs: Seq<ValueModel>)
    requires
        vs.len() > 0,
    ensures
        spec_encode_values(vs) == spec_encode_ordered(vs[0]) + spec_encode_values(vs.drop_first()),
    decreases vs.len(),
{
    if vs.len() == 1 {
        assert(vs.drop_last() =~= Seq::<ValueModel>::empty());
        assert(vs.drop_first() =~= Seq::<ValueModel>::empty());
        assert(spec_encode_values(Seq::<ValueModel>::empty()) =~= Seq::<u8>::empty());
        assert(spec_encode_values(vs) =~= spec_encode_ordered(vs[0]) + spec_encode_values(vs.drop_first()));
    } else {
        let d = vs.drop_last();
        lemma_encode_values_front(d);
        assert(d.drop_first() =~= vs.drop_first().drop_last());
        assert(vs.drop_first().last() == vs.last());
        assert(spec_encode_values(vs) =~= spec_encode_ordered(vs[0]) + spec_encode_values(vs.drop_first()));
    }
}

proof fn lemma_encode_values_congruent(vs: Seq<ValueModel>, ws: Seq<ValueModel>)
    requires
        vs.len() == ws.len(),
        forall|i: int| 0 <= i < vs.len() ==> spec_encode_ordered(#[trigger] ws[i]) == spec_encode_ordered(vs[i]),
    ensures
        spec_encode_values(ws) == spec_encode_values(vs),
    decreases vs.len(),
{
    if vs.len() > 0 {
        assert forall|i: int| 0 <= i < vs.drop_last().len() implies spec_encode_ordered(#[trigger] ws.drop_last()[i]) == spec_encode_ordered(vs.drop_last()[i]) by {
            assert(ws.drop_last()[i] == ws[i] && vs.drop_last()[i] == vs[i]);
        }
        lemma_encode_values_congruent(vs.drop_last(), ws.drop_last());
        assert(spec_encode_ordered(ws[ws.len() - 1]) == spec_encode_ordered(vs[vs.len() - 1]));
    }
}

proof fn lemma_prefix_match(vs: Seq<ValueModel>, ws: Seq<ValueModel>, tail: Seq<u8>)
    requires
        vs.len() == ws.len(),
        forall|i: int| 0 <= i < vs.len() ==> lengths_fit(#[trigger] vs[i]) && lengths_fit(ws[i]),
        starts_with(spec_encode_values(ws) + tail, spec_encode_values(vs)),
    ensures
        forall|i: int| 0 <= i < vs.len() ==> spec_encode_ordered(#[trigger] ws[i]) == spec_encode_ordered(vs[i]),
    decreases vs.len(),
{
    if vs.len() > 0 {
        lemma_encode_values_front(vs);
        lemma_encode_values_front(ws);
        let a = spec_encode_ordered(vs[0]);
        let b = spec_encode_ordered(ws[0]);
        let rv = spec_encode_values(vs.drop_first());
        let rw = spec_encode_values(ws.drop_first());
        let x = spec_encode_values(ws) + tail;
        assert(x =~= b + (rw + tail));
        let p = spec_encode_values(vs);
        assert(p =~= a + rv);
        assert(lengths_fit(vs[0]) && lengths_fit(ws[0]));
        law_ordered_encoding_prefix_free(vs[0], ws[0]);
        law_ordered_encoding_prefix_free(ws[0], vs[0]);
        assert forall|j: int| 0 <= j < a.len() && j < b.len() implies a[j] == b[j] by {
            assert(a[j] == p[j]);
            assert(p[j] == x.take(p.len() as int)[j]);
            assert(x[j] == b[j]);
        }
        if a.len() < b.len() {
            assert(a =~= b.take(a.len() as int));
        } else if b.len() < a.len() {
            assert(b =~= a.take(b.len() as int));
        }
        assert(a =~= b);
        assert forall|i: int| 0 <= i < vs.drop_first().len() implies lengths_fit(#[trigger] vs.drop_first()[i]) && lengths_fit(ws.drop_first()[i]) by {
            assert(vs.drop_first()[i] == vs[i + 1] && ws.drop_first()[i] == ws[i + 1]);
        }
        assert(starts_with(rw + tail, rv)) by {
            assert forall|j: int| 0 <= j < rv.len() implies (rw + tail)[j] == rv[j] by {
                assert(p[a.len() + j] == rv[j]);
                assert(x[a.len() + j] == (rw + tail)[j]);
                assert(p[a.len() + j] == x.take(p.len() as int)[a.len() + j]);
            }
            assert((rw + tail).take(rv.len() as int) =~= rv);
        }
        lemma_prefix_match(vs.drop_first(), ws.drop_first(), tail);
        assert forall|i: int| 0 <= i < vs.len() implies spec_encode_ordered(#[trigger] ws[i]) == spec_encode_ordered(vs[i]) by {
            if i > 0 {
                assert(vs.drop_first()[i - 1] == vs[i] && ws.drop_first()[i - 1] == ws[i]);
            }
        }
    }
}

/// Law: an index key starts with the encoded prefix of some values exactly
/// when its own values (as many) encode the same, value by value, whatever
/// its document key; so a prefix scan finds the entries of equal values.
pub proof fn law_index_prefix_matches(vs: Seq<ValueModel>, ws: Seq<ValueModel>, doc_key: Seq<char>)
    requires
        vs.len() == ws.len(),
        forall|i: int| 0 <= i < vs.len() ==> lengths_fit(#[trigger] vs[i]) && lengths_fit(ws[i]),
    ensures
        starts_with(spec_index_key(ws, doc_key), spec_encode_values(vs)) <==> forall|i: int|
            0 <= i < vs.len() ==> spec_encode_ordered(#[trigger] ws[i]) == spec_encode_ordered(vs[i]),
{
    let tail = seq![0xFFu8] + utf8(doc_key);
    assert(spec_index_key(ws, doc_key) =~= spec_encode_values(ws) + tail);
    if starts_with(spec_index_key(ws, doc_key), spec_encode_values(vs)) {
        lemma_prefix_match(vs, ws, tail);
    }
    if forall|i: int| 0 <= i < vs.len() ==> spec_encode_ordered(#[trigger] ws[i]) == spec_encode_ordered(vs[i]) {
        lemma_encode_values_congruent(vs, ws);
        assert((spec_encode_values(ws) + tail).take(spec_encode_values(vs).len() as int) =~= spec_encode_values(vs));
    }
}

/// A key of another node (`[prefix] other 0x00 rest`) sorts before the
/// node's range or at or after its end.
proof fn lemma_node_range_excludes(prefix: u8, node: Seq<char>, other: Seq<char>, rest: Seq<u8>)
    requires
        forall|j: int| 0 <= j < node.len() ==> #[trigger] node[j] != '\0',
        forall|j: int| 0 <= j < other.len() ==> #[trigger] other[j] != '\0',
        other != node,
    ensures
        !(lex_le(seq![prefix] + utf8(node) + seq![0u8], seq![prefix] + utf8(other) + seq![0u8] + rest)
            && lex_lt(seq![prefix] + utf8(other) + seq![0u8] + rest, seq![prefix] + utf8(node) + seq![1u8])),
{
    let u = utf8(node);
    let w = utf8(other);
    let lo = seq![prefix] + u + seq![0u8];
    let hi = seq![prefix] + u + seq![1u8];
    let k = seq![prefix] + w + seq![0u8] + rest;
    lemma_utf8_bytes(node);
    lemma_utf8_bytes(other);
    encode_utf8_decode_utf8(node);
    encode_utf8_decode_utf8(other);
    assert(u != w);
    lemma_lex_lt_total(u, w);
    // Whether `k` sorts before `lo`, or `hi` sorts no later than `k`.
    let below: bool;
    if lex_lt(u, w) {
        lemma_lex_lt_cases(u, w);
        if exists|i: int| first_lower_at(u, w, i) {
            let i = choose|i: int| first_lower_at(u, w, i);
            assert forall|j: int| 0 <= j < 1 + i implies #[trigger] hi[j] == k[j] by {
                if j > 0 {
                    assert(u[j - 1] == w[j - 1]);
                }
            }
            assert(first_lower_at(hi, k, 1 + i));
            lemma_lex_lt_at(hi, k, 1 + i);
            below = false;
        } else {
            let m = u.len() as int;
            assert(w[m] != 0);
            assert forall|j: int| 0 <= j < 1 + m implies #[trigger] hi[j] == k[j] by {
                if j > 0 {
                    assert(u[j - 1] == w.take(m)[j - 1]);
                }
            }
            if w[m] > 1 {
                assert(first_lower_at(hi, k, 1 + m));
                lemma_lex_lt_at(hi, k, 1 + m);
            } else {
                assert(hi.len() == m + 2);
                assert(k.len() >= m + 3);
                assert(hi =~= k.take(hi.len() as int)) by {
                    assert forall|j: int| 0 <= j < hi.len() implies hi[j] == k.take(hi.len() as int)[j] by {
                        if j == 1 + m {
                            assert(k[1 + m] == w[m]);
                        }
                    }
                }
                lemma_lex_lt_proper_prefix(hi, k);
            }
            below = false;
        }
    } else {
        lemma_lex_lt_cases(w, u);
        if exists|i: int| first_lower_at(w, u, i) {
            let i = choose|i: int| first_lower_at(w, u, i);
            assert forall|j: int| 0 <= j < 1 + i implies #[trigger] k[j] == lo[j] by {
                if j > 0 {
                    assert(w[j - 1] == u[j - 1]);
                }
            }
            assert(first_lower_at(k, lo, 1 + i));
            lemma_lex_lt_at(k, lo, 1 + i);
        } else {
            let m = w.len() as int;
            assert(u[m] != 0);
            assert forall|j: int| 0 <= j < 1 + m implies #[trigger] k[j] == lo[j] by {
                if j > 0 {
                    assert(w[j - 1] == u.take(m)[j - 1]);
                }
            }
            assert(k[1 + m] == 0);
            assert(first_lower_at(k, lo, 1 + m));
            lemma_lex_lt_at(k, lo, 1 + m);
        }
        below = true;
    }
    if below {
        assert(lex_lt(k, lo));
        lemma_lex_lt_asymmetric(k, lo);
        lemma_lex_lt_irreflexive(k);
    } else {
        assert(lex_le(hi, k));
        if lex_lt(hi, k) {
            lemma_lex_lt_asymmetric(hi, k);
        } else {
            lemma_lex_lt_irreflexive(k);
        }
    }
}

/// Law: a node's OUT scan range `[out_prefix(from), out_prefix_end(from))`
/// holds exactly the node's own edge keys: a single or multi key of an edge
/// leaving `f2` lies in it exactly when `f2` is `from` (node ids hold no
/// `'\0'`).
pub proof fn law_out_prefix_range_exact(from: Seq<char>, f2: Seq<char>, to: Seq<char>, edge_id: Seq<char>)
    requires
        forall|j: int| 0 <= j < from.len() ==> #[trigger] from[j] != '\0',
        forall|j: int| 0 <= j < f2.len() ==> #[trigger] f2[j] != '\0',
    ensures
        (lex_le(seq![EDGE_PREFIX_OUT] + utf8(from) + seq![0u8], spec_pair_key(EDGE_PREFIX_OUT, f2, to))
            && lex_lt(spec_pair_key(EDGE_PREFIX_OUT, f2, to), seq![EDGE_PREFIX_OUT] + utf8(from) + seq![1u8]))
            <==> f2 == from,
        (lex_le(seq![EDGE_PREFIX_OUT] + utf8(from) + seq![0u8], spec_triple_key(EDGE_PREFIX_OUT, f2, to, edge_id))
            && lex_lt(spec_triple_key(EDGE_PREFIX_OUT, f2, to, edge_id), seq![EDGE_PREFIX_OUT] + utf8(from) + seq![1u8]))
            <==> f2 == from,
{
    if f2 == from {
        law_out_keys_in_prefix_range(from, to, edge_id);
    } else {
        lemma_node_range_excludes(EDGE_PREFIX_OUT, from, f2, utf8(to));
        lemma_node_range_excludes(EDGE_PREFIX_OUT, from, f2, utf8(to) + seq![0u8] + utf8(edge_id));
        assert(spec_pair_key(EDGE_PREFIX_OUT, f2, to) =~= seq![EDGE_PREFIX_OUT] + utf8(f2) + seq![0u8] + utf8(to));
        assert(spec_triple_key(EDGE_PREFIX_OUT, f2, to, edge_id) =~= seq![EDGE_PREFIX_OUT] + utf8(f2) + seq![0u8] + (utf8(to) + seq![0u8] + utf8(edge_id)));
    }
}

/// Law: a node's IN scan range holds exactly the keys of edges entering it.
pub proof fn law_in_prefix_range_exact(to: Seq<char>, t2: Seq<char>, from: Seq<char>, edge_id: Seq<char>)
    requires
        forall|j: int| 0 <= j < to.len() ==> #[trigger] to[j] != '\0',
        forall|j: int| 0 <= j < t2.len() ==> #[trigger] t2[j] != '\0',
    ensures
        (lex_le(seq![EDGE_PREFIX_IN] + utf8(to) + seq![0u8], spec_pair_key(EDGE_PREFIX_IN, t2, from))
            && lex_lt(spec_pair_key(EDGE_PREFIX_IN, t2, from), seq![EDGE_PREFIX_IN] + utf8(to) + seq![1u8]))
            <==> t2 == to,
        (lex_le(seq![EDGE_PREFIX_IN] + utf8(to) + seq![0u8], spec_triple_key(EDGE_PREFIX_IN, t2, from, edge_id))
            && lex_lt(spec_triple_key(EDGE_PREFIX_IN, t2, from, edge_id), seq![EDGE_PREFIX_IN] + utf8(to) + seq![1u8]))
            <==> t2 == to,
{
    if t2 == to {
        law_in_keys_in_prefix_range(to, from, edge_id);
    } else {
        lemma_node_range_excludes(EDGE_PREFIX_IN, to, t2, utf8(from));
        lemma_node_range_excludes(EDGE_PREFIX_IN, to, t2, utf8(from) + seq![0u8] + utf8(edge_id));
        assert(spec_pair_key(EDGE_PREFIX_IN, t2, from) =~= seq![EDGE_PREFIX_IN] + utf8(t2) + seq![0u8] + utf8(from));
        assert(spec_triple_key(EDGE_PREFIX_IN, t2, from, edge_id) =~= seq![EDGE_PREFIX_IN] + utf8(t2) + seq![0u8] + (utf8(from) + seq![0u8] + utf8(edge_id)));
    }
}

/// Law: the multi keys of one pair of nodes sort by edge id, as `str`
/// does, and each starts with the pair's target prefix.
pub proof fn law_multi_keys_by_edge_id(prefix: u8, a: Seq<char>, b: Seq<char>, id1: Seq<char>, id2: Seq<char>)
    requires
        lex_lt(utf8(id1), utf8(id2)),
    ensures
        lex_lt(spec_triple_key(prefix, a, b, id1), spec_triple_key(prefix, a, b, id2)),
        starts_with(spec_triple_key(prefix, a, b, id1), spec_pair_key(prefix, a, b) + seq![0u8]),
{
    let p = spec_pair_key(prefix, a, b) + seq![0u8];
    lemma_lex_lt_prepend(p, utf8(id1), utf8(id2));
    assert(spec_triple_key(prefix, a, b, id1) =~= p + utf8(id1));
    assert(spec_triple_key(prefix, a, b, id2) =~= p + utf8(id2));
    assert((p + utf8(id1)).take(p.len() as int) =~= p);
}

} // verus!
