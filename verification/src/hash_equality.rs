//! What the hash encoding promises: two values get the same bytes exactly
//! when they are the same value for a unique constraint: numbers equal by
//! value across integers, doubles and decimals, arrays element by element,
//! objects with the same keys and the same values under them, whatever the
//! order of their entries.

use vstd::prelude::*;
use vstd::utf8::encode_utf8_decode_utf8;
use crate::bytes::{i64_bits, u32_le, u64_le};
use crate::document::lookup_field;
use crate::encoding::{
    spec_encode_ordered, utf8, TAG_ARRAY, TAG_BOOL, TAG_BYTES, TAG_DATETIME, TAG_DURATION, TAG_NULL, TAG_NUMBER,
    TAG_OBJECT, TAG_RANGE, TAG_REFERENCE, TAG_STRING,
};
use crate::hash_encoding::{spec_encode_hash, spec_hash_elements};
use crate::hash_laws::{distinct_keys, ents, entries_sorted, spec_entries_concat, is_range_perm, listed, lemma_sorted_ents, law_object_hash_sorted_form};
use crate::hash_encoding::sorted_entry_order;
use crate::number_order::{
    finite_number, law_number_infinities, law_number_value_equal, number_fits, number_same,
};
use crate::numeric::{
    numeric_neg_infinity, numeric_pos_infinity, spec_encode_float_text, spec_encode_decimal_text,
    plain_decimal_bytes, spec_fit_decimal_bytes, decimal_pos_infinity_bytes, decimal_neg_infinity_bytes,
};
use crate::order::{lex_lt, lemma_lex_lt_irreflexive, lemma_lex_lt_asymmetric};
use crate::value::{
    ValueModel, float_text_ok, decimal_text_ok, nan_text, inf_text, neg_inf_text, decimal_nan_text,
    decimal_inf_text, decimal_neg_inf_text,
};

verus! {

/// An integer, or a double or decimal other than NaN.
pub open spec fn is_number(v: ValueModel) -> bool {
    match v {
        ValueModel::Int(_) => true,
        ValueModel::Float(t) => float_text_ok(t) && t != nan_text(),
        ValueModel::Decimal(d) => decimal_text_ok(d) && d != decimal_nan_text(),
        _ => false,
    }
}

pub open spec fn positive_infinity(v: ValueModel) -> bool {
    match v {
        ValueModel::Float(t) => t == inf_text(),
        ValueModel::Decimal(d) => d == decimal_inf_text(),
        _ => false,
    }
}

pub open spec fn negative_infinity(v: ValueModel) -> bool {
    match v {
        ValueModel::Float(t) => t == neg_inf_text(),
        ValueModel::Decimal(d) => d == decimal_neg_inf_text(),
        _ => false,
    }
}

/// Two numbers are equal: finite ones by value, infinities by sign.
pub open spec fn numbers_equal(v: ValueModel, w: ValueModel) -> bool {
    ||| (finite_number(v) && finite_number(w) && number_same(v, w))
    ||| (positive_infinity(v) && positive_infinity(w))
    ||| (negative_infinity(v) && negative_infinity(w))
}

/// Some entry has the key.
pub open spec fn key_listed(es: Seq<(Seq<char>, ValueModel)>, k: Seq<char>) -> bool {
    exists|i: int| 0 <= i < es.len() && es[i].0 == k
}

/// Two values are the same value for a unique constraint.
pub open spec fn same_value(v: ValueModel, w: ValueModel) -> bool
    decreases v, 0nat,
{
    match v {
        ValueModel::Null => w is Null,
        ValueModel::Bool(x) => match w {
            ValueModel::Bool(y) => x == y,
            _ => false,
        },
        ValueModel::Int(_) => is_number(w) && numbers_equal(v, w),
        ValueModel::Float(_) => is_number(w) && numbers_equal(v, w),
        ValueModel::Decimal(_) => is_number(w) && numbers_equal(v, w),
        ValueModel::String(x) => match w {
            ValueModel::String(y) => x == y,
            _ => false,
        },
        ValueModel::Reference(x) => match w {
            ValueModel::Reference(y) => x == y,
            _ => false,
        },
        ValueModel::Array(xs) => match w {
            ValueModel::Array(ys) => xs.len() == ys.len() && same_elems(xs, ys, 0),
            _ => false,
        },
        ValueModel::Object(es) => match w {
            ValueModel::Object(fs) => (forall|k: Seq<char>| key_listed(es, k) <==> key_listed(fs, k))
                && same_entries(es, fs, 0),
            _ => false,
        },
        ValueModel::Datetime(x) => match w {
            ValueModel::Datetime(y) => x == y,
            _ => false,
        },
        ValueModel::Duration(x) => match w {
            ValueModel::Duration(y) => x == y,
            _ => false,
        },
        ValueModel::Bytes(x) => match w {
            ValueModel::Bytes(y) => x == y,
            _ => false,
        },
        ValueModel::Range(s1, e1) => match w {
            ValueModel::Range(s2, e2) => same_value(*s1, *s2) && same_value(*e1, *e2),
            _ => false,
        },
    }
}

/// Elements from `k` on are pairwise the same value.
pub open spec fn same_elems(xs: Seq<ValueModel>, ys: Seq<ValueModel>, k: int) -> bool
    decreases xs, xs.len() - k,
{
    if k < 0 || k >= xs.len() {
        true
    } else {
        same_value(xs[k], ys[k]) && same_elems(xs, ys, k + 1)
    }
}

/// Each entry of `es` from `k` on has the same value under its key in `fs`.
pub open spec fn same_entries(es: Seq<(Seq<char>, ValueModel)>, fs: Seq<(Seq<char>, ValueModel)>, k: int) -> bool
    decreases es, es.len() - k,
{
    if k < 0 || k >= es.len() {
        true
    } else {
        match lookup_field(fs, es[k].0) {
            Some(v) => same_value(es[k].1, v) && same_entries(es, fs, k + 1),
            None => false,
        }
    }
}

/// The tag a hash encoding starts with.
pub open spec fn hash_tag(v: ValueModel) -> u8 {
    match v {
        ValueModel::Null => TAG_NULL,
        ValueModel::Bool(_) => TAG_BOOL,
        ValueModel::Int(_) => TAG_NUMBER,
        ValueModel::Float(_) => TAG_NUMBER,
        ValueModel::Decimal(_) => TAG_NUMBER,
        ValueModel::String(_) => TAG_STRING,
        ValueModel::Reference(_) => TAG_REFERENCE,
        ValueModel::Array(_) => TAG_ARRAY,
        ValueModel::Object(_) => TAG_OBJECT,
        ValueModel::Datetime(_) => TAG_DATETIME,
        ValueModel::Duration(_) => TAG_DURATION,
        ValueModel::Bytes(_) => TAG_BYTES,
        ValueModel::Range(..) => TAG_RANGE,
    }
}

proof fn lemma_hash_tag(v: ValueModel)
    ensures
        spec_encode_hash(v).len() >= 1,
        spec_encode_hash(v)[0] == hash_tag(v),
{
}

proof fn lemma_u32_le_injective(x: u32, y: u32)
    requires
        u32_le(x) == u32_le(y),
    ensures
        x == y,
{
    assert(u32_le(x)[0] == u32_le(y)[0]);
    assert(u32_le(x)[1] == u32_le(y)[1]);
    assert(u32_le(x)[2] == u32_le(y)[2]);
    assert(u32_le(x)[3] == u32_le(y)[3]);
    assert(((x % 256) as u8 == (y % 256) as u8 && ((x / 0x100) % 256) as u8 == ((y / 0x100) % 256) as u8
        && ((x / 0x1_0000) % 256) as u8 == ((y / 0x1_0000) % 256) as u8 && (x / 0x100_0000) as u8 == (y
        / 0x100_0000) as u8) ==> x == y) by (bit_vector);
}

proof fn lemma_u64_le_injective(x: u64, y: u64)
    requires
        u64_le(x) == u64_le(y),
    ensures
        x == y,
{
    let a = u64_le(x);
    let b = u64_le(y);
    assert(a[0] == b[0] && a[1] == b[1] && a[2] == b[2] && a[3] == b[3]);
    assert(a[4] == b[4] && a[5] == b[5] && a[6] == b[6] && a[7] == b[7]);
    assert(((x % 256) as u8 == (y % 256) as u8 && ((x / 0x100) % 256) as u8 == ((y / 0x100) % 256) as u8
        && ((x / 0x1_0000) % 256) as u8 == ((y / 0x1_0000) % 256) as u8 && ((x / 0x100_0000) % 256) as u8 == ((y
        / 0x100_0000) % 256) as u8 && ((x / 0x1_0000_0000) % 256) as u8 == ((y / 0x1_0000_0000) % 256) as u8
        && ((x / 0x100_0000_0000) % 256) as u8 == ((y / 0x100_0000_0000) % 256) as u8 && ((x / 0x1_0000_0000_0000)
        % 256) as u8 == ((y / 0x1_0000_0000_0000) % 256) as u8 && (x / 0x100_0000_0000_0000) as u8 == (y
        / 0x100_0000_0000_0000) as u8) ==> x == y) by (bit_vector);
}

proof fn lemma_i64_bits_injective(x: i64, y: i64)
    requires
        i64_bits(x) == i64_bits(y),
    ensures
        x == y,
{
}

proof fn lemma_utf8_injective(x: Seq<char>, y: Seq<char>)
    requires
        utf8(x) == utf8(y),
    ensures
        x == y,
{
    encode_utf8_decode_utf8(x);
    encode_utf8_decode_utf8(y);
}

/// Two texts with their terminator: equal exactly when the texts are.
proof fn lemma_text_hash(tag: u8, x: Seq<char>, y: Seq<char>)
    ensures
        (seq![tag] + utf8(x) + seq![0u8] == seq![tag] + utf8(y) + seq![0u8]) <==> x == y,
{
    let a = seq![tag] + utf8(x) + seq![0u8];
    let b = seq![tag] + utf8(y) + seq![0u8];
    if a == b {
        assert(utf8(x) =~= a.subrange(1, a.len() - 1));
        assert(utf8(y) =~= b.subrange(1, b.len() - 1));
        lemma_utf8_injective(x, y);
    }
}

/// The hash encoding of a number is its ordered encoding.
proof fn lemma_number_hash(v: ValueModel)
    requires
        v is Int || v is Float || v is Decimal,
    ensures
        spec_encode_hash(v) == spec_encode_ordered(v),
{
}

proof fn lemma_infinity_hash(v: ValueModel)
    requires
        is_number(v),
    ensures
        positive_infinity(v) ==> spec_encode_hash(v) == seq![TAG_NUMBER] + numeric_pos_infinity(),
        negative_infinity(v) ==> spec_encode_hash(v) == seq![TAG_NUMBER] + numeric_neg_infinity(),
        !positive_infinity(v) && !negative_infinity(v) ==> finite_number(v),
{
    match v {
        ValueModel::Float(t) => {
            assert(inf_text() != nan_text() && neg_inf_text() != nan_text() && inf_text() != neg_inf_text());
        },
        ValueModel::Decimal(d) => {
            assert(decimal_inf_text() != decimal_nan_text());
            assert(decimal_neg_inf_text() != decimal_nan_text());
            assert(decimal_inf_text() != decimal_neg_inf_text());
            if d == decimal_inf_text() {
                assert(plain_decimal_bytes(d) == Some(decimal_pos_infinity_bytes()));
                assert(decimal_pos_infinity_bytes() != crate::numeric::decimal_nan_bytes());
            }
            if d == decimal_neg_inf_text() {
                assert(plain_decimal_bytes(d) == Some(decimal_neg_infinity_bytes()));
                assert(decimal_neg_infinity_bytes() != crate::numeric::decimal_nan_bytes());
                assert(decimal_neg_infinity_bytes() != decimal_pos_infinity_bytes());
            }
        },
        _ => {},
    }
}

/// Two numbers hash alike exactly when they are equal numbers.
proof fn lemma_numbers_hash(v: ValueModel, w: ValueModel)
    requires
        is_number(v),
        is_number(w),
        number_fits(v),
        number_fits(w),
    ensures
        spec_encode_hash(v) == spec_encode_hash(w) <==> numbers_equal(v, w),
{
    lemma_infinity_hash(v);
    lemma_infinity_hash(w);
    let pinf = seq![TAG_NUMBER] + numeric_pos_infinity();
    let ninf = seq![TAG_NUMBER] + numeric_neg_infinity();
    assert(pinf != ninf) by {
        assert(pinf[1] != ninf[1]);
    }
    if finite_number(v) && finite_number(w) {
        law_number_value_equal(v, w);
        lemma_number_hash(v);
        lemma_number_hash(w);
    } else if finite_number(v) {
        law_number_infinities(v);
        lemma_number_hash(v);
        assert(spec_encode_ordered(ValueModel::Float(inf_text())) == pinf);
        assert(spec_encode_ordered(ValueModel::Float(neg_inf_text())) == ninf);
        lemma_lex_lt_irreflexive(spec_encode_hash(v));
        assert(!positive_infinity(v) && !negative_infinity(v));
    } else if finite_number(w) {
        law_number_infinities(w);
        lemma_number_hash(w);
        assert(spec_encode_ordered(ValueModel::Float(inf_text())) == pinf);
        assert(spec_encode_ordered(ValueModel::Float(neg_inf_text())) == ninf);
        lemma_lex_lt_irreflexive(spec_encode_hash(w));
        assert(!positive_infinity(w) && !negative_infinity(w));
    }
}

/// The values the law covers: numbers other than NaN within the
/// encoding's precision (`number_fits`); objects without repeated keys;
/// and lengths that fit the 32-bit length fields (counts of elements and
/// entries, the encodings of elements, keys, values and a range's start).
pub open spec fn hash_ok(v: ValueModel) -> bool
    decreases v, 0nat,
{
    match v {
        ValueModel::Int(_) => number_fits(v),
        ValueModel::Float(_) => is_number(v) && number_fits(v),
        ValueModel::Decimal(_) => is_number(v) && number_fits(v),
        ValueModel::Array(xs) => xs.len() <= u32::MAX && elems_ok(xs, 0),
        ValueModel::Object(es) => es.len() <= u32::MAX && distinct_keys(es) && entries_ok(es, 0),
        ValueModel::Range(s, e) => hash_ok(*s) && hash_ok(*e) && spec_encode_hash(*s).len() <= u32::MAX
            && spec_encode_hash(*e).len() <= u32::MAX,
        _ => true,
    }
}

pub open spec fn elems_ok(xs: Seq<ValueModel>, k: int) -> bool
    decreases xs, xs.len() - k,
{
    if k < 0 || k >= xs.len() {
        true
    } else {
        hash_ok(xs[k]) && spec_encode_hash(xs[k]).len() <= u32::MAX && elems_ok(xs, k + 1)
    }
}

pub open spec fn entries_ok(es: Seq<(Seq<char>, ValueModel)>, k: int) -> bool
    decreases es, es.len() - k,
{
    if k < 0 || k >= es.len() {
        true
    } else {
        hash_ok(es[k].1) && utf8(es[k].0).len() <= u32::MAX && spec_encode_hash(es[k].1).len() <= u32::MAX
            && entries_ok(es, k + 1)
    }
}

proof fn lemma_elems_ok(xs: Seq<ValueModel>, k: int)
    requires
        0 <= k,
        elems_ok(xs, k),
    ensures
        forall|i: int| k <= i < xs.len() ==> hash_ok(#[trigger] xs[i]) && spec_encode_hash(xs[i]).len() <= u32::MAX,
    decreases xs.len() - k,
{
    if k < xs.len() {
        lemma_elems_ok(xs, k + 1);
    }
}

proof fn lemma_entries_ok(es: Seq<(Seq<char>, ValueModel)>, k: int)
    requires
        0 <= k,
        entries_ok(es, k),
    ensures
        forall|i: int|
            k <= i < es.len() ==> hash_ok((#[trigger] es[i]).1) && utf8(es[i].0).len() <= u32::MAX && spec_encode_hash(
                es[i].1,
            ).len() <= u32::MAX,
    decreases es.len() - k,
{
    if k < es.len() {
        lemma_entries_ok(es, k + 1);
    }
}

proof fn lemma_same_elems(xs: Seq<ValueModel>, ys: Seq<ValueModel>, k: int)
    requires
        0 <= k,
    ensures
        same_elems(xs, ys, k) <==> forall|i: int| k <= i < xs.len() ==> same_value(#[trigger] xs[i], ys[i]),
    decreases xs.len() - k,
{
    if k < xs.len() {
        lemma_same_elems(xs, ys, k + 1);
    }
}

proof fn lemma_same_entries(es: Seq<(Seq<char>, ValueModel)>, fs: Seq<(Seq<char>, ValueModel)>, k: int)
    requires
        0 <= k,
    ensures
        same_entries(es, fs, k) <==> forall|i: int|
            k <= i < es.len() ==> (lookup_field(fs, (#[trigger] es[i]).0) matches Some(v) && same_value(es[i].1, v)),
    decreases es.len() - k,
{
    if k < es.len() {
        lemma_same_entries(es, fs, k + 1);
    }
}

/// Length-prefixed element encodings that agree, element by element.
proof fn lemma_elems_parse(xs: Seq<ValueModel>, ys: Seq<ValueModel>, k: int)
    requires
        0 <= k,
        xs.len() == ys.len(),
        forall|i: int| k <= i < xs.len() ==> spec_encode_hash(#[trigger] xs[i]).len() <= u32::MAX,
        forall|i: int| k <= i < ys.len() ==> spec_encode_hash(#[trigger] ys[i]).len() <= u32::MAX,
    ensures
        spec_hash_elements(xs, k) == spec_hash_elements(ys, k) <==> forall|i: int|
            k <= i < xs.len() ==> spec_encode_hash(#[trigger] xs[i]) == spec_encode_hash(ys[i]),
    decreases xs.len() - k,
{
    if k < xs.len() {
        lemma_elems_parse(xs, ys, k + 1);
        let ex = spec_encode_hash(xs[k]);
        let ey = spec_encode_hash(ys[k]);
        let rx = spec_hash_elements(xs, k + 1);
        let ry = spec_hash_elements(ys, k + 1);
        assert(spec_hash_elements(xs, k) == u32_le(ex.len() as u32) + ex + rx);
        assert(spec_hash_elements(ys, k) == u32_le(ey.len() as u32) + ey + ry);
        lemma_one_field(ex, rx, ey, ry);
        if forall|i: int| k <= i < xs.len() ==> spec_encode_hash(#[trigger] xs[i]) == spec_encode_hash(ys[i]) {
            assert(ex == ey);
        }
    }
}

/// A length-prefixed field and a rest: equal exactly when the parts are.
proof fn lemma_one_field(ex: Seq<u8>, rx: Seq<u8>, ey: Seq<u8>, ry: Seq<u8>)
    requires
        ex.len() <= u32::MAX,
        ey.len() <= u32::MAX,
    ensures
        (u32_le(ex.len() as u32) + ex + rx == u32_le(ey.len() as u32) + ey + ry) <==> (ex == ey && rx == ry),
{
    let a = u32_le(ex.len() as u32) + ex + rx;
    let b = u32_le(ey.len() as u32) + ey + ry;
    if a == b {
        assert(a.subrange(0, 4) =~= u32_le(ex.len() as u32));
        assert(b.subrange(0, 4) =~= u32_le(ey.len() as u32));
        lemma_u32_le_injective(ex.len() as u32, ey.len() as u32);
        let lx: int = ex.len() as int;
        assert(ex =~= a.subrange(4, 4 + lx));
        assert(ey =~= b.subrange(4, 4 + lx));
        assert(rx =~= a.subrange(4 + lx, a.len() as int));
        assert(ry =~= b.subrange(4 + lx, b.len() as int));
    }
}

/// Two length-prefixed fields and a rest: equal exactly when the parts are.
proof fn lemma_two_fields(kx: Seq<u8>, hx: Seq<u8>, rx: Seq<u8>, ky: Seq<u8>, hy: Seq<u8>, ry: Seq<u8>)
    requires
        kx.len() <= u32::MAX,
        hx.len() <= u32::MAX,
        ky.len() <= u32::MAX,
        hy.len() <= u32::MAX,
    ensures
        (u32_le(kx.len() as u32) + kx + u32_le(hx.len() as u32) + hx + rx == u32_le(ky.len() as u32) + ky + u32_le(
            hy.len() as u32,
        ) + hy + ry) <==> (kx == ky && hx == hy && rx == ry),
{
    let a = u32_le(kx.len() as u32) + kx + u32_le(hx.len() as u32) + hx + rx;
    let b = u32_le(ky.len() as u32) + ky + u32_le(hy.len() as u32) + hy + ry;
    if a == b {
        assert(a.subrange(0, 4) =~= u32_le(kx.len() as u32));
        assert(b.subrange(0, 4) =~= u32_le(ky.len() as u32));
        lemma_u32_le_injective(kx.len() as u32, ky.len() as u32);
        let p: int = 4 + kx.len() as int;
        assert(kx =~= a.subrange(4, p));
        assert(ky =~= b.subrange(4, p));
        assert(a.subrange(p, p + 4) =~= u32_le(hx.len() as u32));
        assert(b.subrange(p, p + 4) =~= u32_le(hy.len() as u32));
        lemma_u32_le_injective(hx.len() as u32, hy.len() as u32);
        let lh: int = hx.len() as int;
        assert(hx =~= a.subrange(p + 4, p + 4 + lh));
        assert(hy =~= b.subrange(p + 4, p + 4 + lh));
        assert(rx =~= a.subrange(p + 4 + lh, a.len() as int));
        assert(ry =~= b.subrange(p + 4 + lh, b.len() as int));
    }
}

/// Length-prefixed key and value encodings that agree, entry by entry.
proof fn lemma_entries_parse(ss: Seq<(Seq<char>, ValueModel)>, ts: Seq<(Seq<char>, ValueModel)>, k: int)
    requires
        0 <= k,
        ss.len() == ts.len(),
        forall|i: int|
            k <= i < ss.len() ==> utf8((#[trigger] ss[i]).0).len() <= u32::MAX && spec_encode_hash(ss[i].1).len()
                <= u32::MAX,
        forall|i: int|
            k <= i < ts.len() ==> utf8((#[trigger] ts[i]).0).len() <= u32::MAX && spec_encode_hash(ts[i].1).len()
                <= u32::MAX,
    ensures
        spec_entries_concat(ss, k) == spec_entries_concat(ts, k) <==> forall|i: int|
            k <= i < ss.len() ==> (#[trigger] ss[i]).0 == ts[i].0 && spec_encode_hash(ss[i].1) == spec_encode_hash(
                ts[i].1,
            ),
    decreases ss.len() - k,
{
    if k < ss.len() {
        lemma_entries_parse(ss, ts, k + 1);
        let kx = utf8(ss[k].0);
        let ky = utf8(ts[k].0);
        let hx = spec_encode_hash(ss[k].1);
        let hy = spec_encode_hash(ts[k].1);
        let rx = spec_entries_concat(ss, k + 1);
        let ry = spec_entries_concat(ts, k + 1);
        assert(spec_entries_concat(ss, k) == u32_le(kx.len() as u32) + kx + u32_le(hx.len() as u32) + hx + rx);
        assert(spec_entries_concat(ts, k) == u32_le(ky.len() as u32) + ky + u32_le(hy.len() as u32) + hy + ry);
        lemma_two_fields(kx, hx, rx, ky, hy, ry);
        if kx == ky {
            lemma_utf8_injective(ss[k].0, ts[k].0);
        }
        if forall|i: int|
            k <= i < ss.len() ==> (#[trigger] ss[i]).0 == ts[i].0 && spec_encode_hash(ss[i].1) == spec_encode_hash(
                ts[i].1,
            ) {
            assert(ss[k].0 == ts[k].0);
        }
    }
}

proof fn lemma_lookup_distinct(fs: Seq<(Seq<char>, ValueModel)>, i: int)
    requires
        distinct_keys(fs),
        0 <= i < fs.len(),
    ensures
        lookup_field(fs, fs[i].0) == Some(fs[i].1),
    decreases i,
{
    if i > 0 {
        assert(fs[0].0 != fs[i].0);
        let t = fs.drop_first();
        assert(distinct_keys(t)) by {
            assert forall|a: int, b: int| 0 <= a < b < t.len() implies #[trigger] t[a].0 != #[trigger] t[b].0 by {
                assert(t[a] == fs[a + 1] && t[b] == fs[b + 1]);
            }
        }
        assert(t[i - 1] == fs[i]);
        lemma_lookup_distinct(t, i - 1);
    }
}

/// Two lists sorted strictly by key with the same keys list them alike.
proof fn lemma_sorted_keys_unique(ss: Seq<(Seq<char>, ValueModel)>, ts: Seq<(Seq<char>, ValueModel)>)
    requires
        entries_sorted(ss),
        entries_sorted(ts),
        forall|k: Seq<char>| key_listed(ss, k) <==> key_listed(ts, k),
    ensures
        ss.len() == ts.len(),
        forall|i: int| 0 <= i < ss.len() ==> (#[trigger] ss[i]).0 == ts[i].0,
    decreases ss.len(),
{
    if ss.len() == 0 {
        if ts.len() > 0 {
            assert(key_listed(ts, ts[0].0));
        }
    } else {
        assert(key_listed(ss, ss[0].0));
        let p = choose|p: int| 0 <= p < ts.len() && ts[p].0 == ss[0].0;
        assert(key_listed(ts, ts[0].0));
        let q = choose|q: int| 0 <= q < ss.len() && ss[q].0 == ts[0].0;
        if p > 0 {
            assert(lex_lt(utf8(ts[0].0), utf8(ts[p].0)));
            if q > 0 {
                assert(lex_lt(utf8(ss[0].0), utf8(ss[q].0)));
                lemma_lex_lt_asymmetric(utf8(ss[0].0), utf8(ts[0].0));
            } else {
                lemma_lex_lt_irreflexive(utf8(ss[0].0));
            }
        }
        assert(ss[0].0 == ts[0].0);
        let s1 = ss.drop_first();
        let t1 = ts.drop_first();
        assert(entries_sorted(s1)) by {
            assert forall|a: int, b: int| 0 <= a < b < s1.len() implies lex_lt(utf8((#[trigger] s1[a]).0), utf8((#[trigger] s1[b]).0)) by {
                assert(s1[a] == ss[a + 1] && s1[b] == ss[b + 1]);
            }
        }
        assert(entries_sorted(t1)) by {
            assert forall|a: int, b: int| 0 <= a < b < t1.len() implies lex_lt(utf8((#[trigger] t1[a]).0), utf8((#[trigger] t1[b]).0)) by {
                assert(t1[a] == ts[a + 1] && t1[b] == ts[b + 1]);
            }
        }
        assert forall|k: Seq<char>| key_listed(s1, k) <==> key_listed(t1, k) by {
            if key_listed(s1, k) {
                let i = choose|i: int| 0 <= i < s1.len() && s1[i].0 == k;
                assert(ss[i + 1].0 == k);
                assert(lex_lt(utf8(ss[0].0), utf8(ss[i + 1].0)));
                lemma_lex_lt_irreflexive(utf8(k));
                assert(key_listed(ss, k));
                let j = choose|j: int| 0 <= j < ts.len() && ts[j].0 == k;
                assert(j != 0);
                assert(t1[j - 1].0 == k);
            }
            if key_listed(t1, k) {
                let i = choose|i: int| 0 <= i < t1.len() && t1[i].0 == k;
                assert(ts[i + 1].0 == k);
                assert(lex_lt(utf8(ts[0].0), utf8(ts[i + 1].0)));
                lemma_lex_lt_irreflexive(utf8(k));
                assert(key_listed(ts, k));
                let j = choose|j: int| 0 <= j < ss.len() && ss[j].0 == k;
                assert(j != 0);
                assert(s1[j - 1].0 == k);
            }
        }
        lemma_sorted_keys_unique(s1, t1);
        assert forall|i: int| 0 <= i < ss.len() implies (#[trigger] ss[i]).0 == ts[i].0 by {
            if i > 0 {
                assert(s1[i - 1] == ss[i] && t1[i - 1] == ts[i]);
            }
        }
    }
}

/// The sorted listing of an object's entries, and what it keeps.
proof fn lemma_sorted_listing(es: Seq<(Seq<char>, ValueModel)>)
    requires
        distinct_keys(es),
        entries_ok(es, 0),
    ensures
        ({
            let o = sorted_entry_order(es, es.len() as int);
            let ss = ents(es, o);
            &&& entries_sorted(ss)
            &&& ss.len() == es.len()
            &&& forall|i: int| 0 <= i < ss.len() ==> 0 <= #[trigger] o[i] < es.len() && ss[i] == es[o[i]]
            &&& forall|j: int| 0 <= j < es.len() ==> listed(o, j)
            &&& forall|k: Seq<char>| key_listed(ss, k) <==> key_listed(es, k)
            &&& forall|i: int|
                0 <= i < ss.len() ==> utf8((#[trigger] ss[i]).0).len() <= u32::MAX && spec_encode_hash(ss[i].1).len()
                    <= u32::MAX
            &&& spec_encode_hash(ValueModel::Object(es)) == seq![TAG_OBJECT] + u32_le(es.len() as u32) + spec_entries_concat(ss, 0)
        }),
{
    let n = es.len() as int;
    lemma_sorted_ents(es);
    lemma_entries_ok(es, 0);
    let o = sorted_entry_order(es, n);
    let ss = ents(es, o);
    assert(is_range_perm(o, n));
    law_object_hash_sorted_form(es, ss);
    assert forall|k: Seq<char>| key_listed(ss, k) <==> key_listed(es, k) by {
        if key_listed(ss, k) {
            let i = choose|i: int| 0 <= i < ss.len() && ss[i].0 == k;
            assert(es[o[i]].0 == k);
        }
        if key_listed(es, k) {
            let j = choose|j: int| 0 <= j < es.len() && es[j].0 == k;
            assert(listed(o, j));
            let i = choose|i: int| 0 <= i < o.len() && o[i] == j;
            assert(ss[i].0 == k);
        }
    }
    assert forall|i: int|
        0 <= i < ss.len() implies utf8((#[trigger] ss[i]).0).len() <= u32::MAX && spec_encode_hash(ss[i].1).len()
            <= u32::MAX by {
        assert(ss[i] == es[o[i]]);
    }
}

/// Objects hash alike exactly when they have the same keys and the same
/// values under them, given that for their values.
proof fn lemma_object_hash(es: Seq<(Seq<char>, ValueModel)>, fs: Seq<(Seq<char>, ValueModel)>)
    requires
        hash_ok(ValueModel::Object(es)),
        hash_ok(ValueModel::Object(fs)),
        forall|j: int, q: int|
            0 <= j < es.len() && 0 <= q < fs.len() ==> (spec_encode_hash(#[trigger] es[j].1) == spec_encode_hash(
                #[trigger] fs[q].1,
            ) <==> same_value(es[j].1, fs[q].1)),
    ensures
        spec_encode_hash(ValueModel::Object(es)) == spec_encode_hash(ValueModel::Object(fs)) <==> same_value(
            ValueModel::Object(es),
            ValueModel::Object(fs),
        ),
{
    let v = ValueModel::Object(es);
    let w = ValueModel::Object(fs);
    lemma_sorted_listing(es);
    lemma_sorted_listing(fs);
    let oe = sorted_entry_order(es, es.len() as int);
    let of = sorted_entry_order(fs, fs.len() as int);
    let ss = ents(es, oe);
    let ts = ents(fs, of);
    lemma_same_entries(es, fs, 0);
    if spec_encode_hash(v) == spec_encode_hash(w) {
        let a = spec_encode_hash(v);
        let b = spec_encode_hash(w);
        assert(a.subrange(1, 5) =~= u32_le(es.len() as u32));
        assert(b.subrange(1, 5) =~= u32_le(fs.len() as u32));
        lemma_u32_le_injective(es.len() as u32, fs.len() as u32);
        assert(spec_entries_concat(ss, 0) =~= a.subrange(5, a.len() as int));
        assert(spec_entries_concat(ts, 0) =~= b.subrange(5, b.len() as int));
        lemma_entries_parse(ss, ts, 0);
        assert forall|k: Seq<char>| key_listed(es, k) <==> key_listed(fs, k) by {
            if key_listed(ss, k) {
                let i = choose|i: int| 0 <= i < ss.len() && ss[i].0 == k;
                assert(ts[i].0 == k);
            }
            if key_listed(ts, k) {
                let i = choose|i: int| 0 <= i < ts.len() && ts[i].0 == k;
                assert(ss[i].0 == k);
            }
        }
        assert forall|j: int| 0 <= j < es.len() implies (lookup_field(fs, (#[trigger] es[j]).0) matches Some(x)
            && same_value(es[j].1, x)) by {
            assert(listed(oe, j));
            let i = choose|i: int| 0 <= i < oe.len() && oe[i] == j;
            assert(ss[i] == es[j]);
            let q = of[i];
            assert(ts[i] == fs[q]);
            lemma_lookup_distinct(fs, q);
            assert(spec_encode_hash(es[j].1) == spec_encode_hash(fs[q].1));
        }
    }
    if same_value(v, w) {
        assert forall|k: Seq<char>| key_listed(ss, k) <==> key_listed(ts, k) by {}
        lemma_sorted_keys_unique(ss, ts);
        assert forall|i: int| 0 <= i < ss.len() implies (#[trigger] ss[i]).0 == ts[i].0 && spec_encode_hash(ss[i].1)
            == spec_encode_hash(ts[i].1) by {
            let j = oe[i];
            let q = of[i];
            assert(ss[i] == es[j] && ts[i] == fs[q]);
            assert(lookup_field(fs, es[j].0) matches Some(x) && same_value(es[j].1, x));
            lemma_lookup_distinct(fs, q);
        }
        lemma_entries_parse(ss, ts, 0);
    }
}

/// Arrays hash alike exactly when they are alike element by element,
/// given that for their elements.
proof fn lemma_array_hash(xs: Seq<ValueModel>, ys: Seq<ValueModel>)
    requires
        hash_ok(ValueModel::Array(xs)),
        hash_ok(ValueModel::Array(ys)),
        forall|i: int|
            0 <= i < xs.len() && i < ys.len() ==> (spec_encode_hash(#[trigger] xs[i]) == spec_encode_hash(ys[i])
                <==> same_value(xs[i], ys[i])),
    ensures
        spec_encode_hash(ValueModel::Array(xs)) == spec_encode_hash(ValueModel::Array(ys)) <==> same_value(
            ValueModel::Array(xs),
            ValueModel::Array(ys),
        ),
{
    let a = spec_encode_hash(ValueModel::Array(xs));
    let b = spec_encode_hash(ValueModel::Array(ys));
    lemma_elems_ok(xs, 0);
    lemma_elems_ok(ys, 0);
    lemma_same_elems(xs, ys, 0);
    assert(a == seq![TAG_ARRAY] + u32_le(xs.len() as u32) + spec_hash_elements(xs, 0));
    assert(b == seq![TAG_ARRAY] + u32_le(ys.len() as u32) + spec_hash_elements(ys, 0));
    if a == b {
        assert(a.subrange(1, 5) =~= u32_le(xs.len() as u32));
        assert(b.subrange(1, 5) =~= u32_le(ys.len() as u32));
        lemma_u32_le_injective(xs.len() as u32, ys.len() as u32);
        assert(spec_hash_elements(xs, 0) =~= a.subrange(5, a.len() as int));
        assert(spec_hash_elements(ys, 0) =~= b.subrange(5, b.len() as int));
        lemma_elems_parse(xs, ys, 0);
    }
    if same_value(ValueModel::Array(xs), ValueModel::Array(ys)) {
        lemma_elems_parse(xs, ys, 0);
    }
}

/// Law: the hash encoding gives two values the same bytes exactly when
/// they are the same value: numbers equal by value whatever their kind
/// (`100`, `100.0` and the decimal `100` agree), texts, references, bytes,
/// datetimes and durations equal, arrays alike element by element, objects
/// with the same keys and the same values under them whatever the order of
/// their entries, ranges alike at both ends; a string and a reference never
/// agree. (Values are taken as `hash_ok` says: no NaN, numbers within the
/// encoding's precision, objects without repeated keys, lengths within the
/// 32-bit length fields.)
pub proof fn law_hash_same_value(v: ValueModel, w: ValueModel)
    requires
        hash_ok(v),
        hash_ok(w),
    ensures
        spec_encode_hash(v) == spec_encode_hash(w) <==> same_value(v, w),
    decreases v,
{
    lemma_hash_tag(v);
    lemma_hash_tag(w);
    let a = spec_encode_hash(v);
    let b = spec_encode_hash(w);
    if hash_tag(v) != hash_tag(w) {
        assert(a[0] != b[0]);
        assert(!same_value(v, w));
    } else {
        match v {
            ValueModel::Array(xs) => {
                let ys = w->Array_0;
                lemma_elems_ok(xs, 0);
                lemma_elems_ok(ys, 0);
                assert forall|i: int| 0 <= i < xs.len() && i < ys.len() implies (spec_encode_hash(#[trigger] xs[i])
                    == spec_encode_hash(ys[i]) <==> same_value(xs[i], ys[i])) by {
                    assert(decreases_to!(v => xs));
                    assert(decreases_to!(xs => xs[i]));
                    law_hash_same_value(xs[i], ys[i]);
                }
                lemma_array_hash(xs, ys);
            },
            ValueModel::Object(es) => {
                let fs = w->Object_0;
                lemma_entries_ok(es, 0);
                lemma_entries_ok(fs, 0);
                assert forall|j: int, q: int| 0 <= j < es.len() && 0 <= q < fs.len() implies (spec_encode_hash(
                    #[trigger] es[j].1,
                ) == spec_encode_hash(#[trigger] fs[q].1) <==> same_value(es[j].1, fs[q].1)) by {
                    assert(decreases_to!(v => es));
                    assert(decreases_to!(es => es[j]));
                    assert(decreases_to!(es[j] => es[j].1));
                    law_hash_same_value(es[j].1, fs[q].1);
                }
                lemma_object_hash(es, fs);
            },
            ValueModel::Range(s1, e1) => {
                let (s2, e2) = (w->Range_0, w->Range_1);
                law_hash_same_value(*s1, *s2);
                law_hash_same_value(*e1, *e2);
                lemma_range_hash(*s1, *e1, *s2, *e2);
                assert(v == ValueModel::Range(Box::new(*s1), Box::new(*e1)));
                assert(w == ValueModel::Range(Box::new(*s2), Box::new(*e2)));
            },
            _ => {
                lemma_scalar_hash(v, w);
            },
        }
    }
}

proof fn lemma_tagged_two_fields(tag: u8, x1: Seq<u8>, y1: Seq<u8>, x2: Seq<u8>, y2: Seq<u8>)
    requires
        x1.len() <= u32::MAX,
        y1.len() <= u32::MAX,
        x2.len() <= u32::MAX,
        y2.len() <= u32::MAX,
    ensures
        (seq![tag] + u32_le(x1.len() as u32) + x1 + u32_le(y1.len() as u32) + y1 == seq![tag] + u32_le(x2.len() as u32)
            + x2 + u32_le(y2.len() as u32) + y2) <==> (x1 == x2 && y1 == y2),
{
    let a = seq![tag] + u32_le(x1.len() as u32) + x1 + u32_le(y1.len() as u32) + y1;
    let b = seq![tag] + u32_le(x2.len() as u32) + x2 + u32_le(y2.len() as u32) + y2;
    let ra = u32_le(x1.len() as u32) + x1 + u32_le(y1.len() as u32) + y1 + Seq::<u8>::empty();
    let rb = u32_le(x2.len() as u32) + x2 + u32_le(y2.len() as u32) + y2 + Seq::<u8>::empty();
    assert(a.subrange(1, a.len() as int) =~= ra);
    assert(b.subrange(1, b.len() as int) =~= rb);
    lemma_two_fields(x1, y1, Seq::<u8>::empty(), x2, y2, Seq::<u8>::empty());
    if x1 == x2 && y1 == y2 {
        assert(a =~= b);
    }
}

/// Ranges hash alike exactly when both ends do.
proof fn lemma_range_hash(s1: ValueModel, e1: ValueModel, s2: ValueModel, e2: ValueModel)
    requires
        spec_encode_hash(s1).len() <= u32::MAX,
        spec_encode_hash(e1).len() <= u32::MAX,
        spec_encode_hash(s2).len() <= u32::MAX,
        spec_encode_hash(e2).len() <= u32::MAX,
    ensures
        spec_encode_hash(ValueModel::Range(Box::new(s1), Box::new(e1))) == spec_encode_hash(
            ValueModel::Range(Box::new(s2), Box::new(e2)),
        ) <==> (spec_encode_hash(s1) == spec_encode_hash(s2) && spec_encode_hash(e1) == spec_encode_hash(e2)),
{
    let a = spec_encode_hash(ValueModel::Range(Box::new(s1), Box::new(e1)));
    let b = spec_encode_hash(ValueModel::Range(Box::new(s2), Box::new(e2)));
    let hs1 = spec_encode_hash(s1);
    let he1 = spec_encode_hash(e1);
    let hs2 = spec_encode_hash(s2);
    let he2 = spec_encode_hash(e2);
    assert(a == seq![TAG_RANGE] + u32_le(hs1.len() as u32) + hs1 + u32_le(he1.len() as u32) + he1);
    assert(b == seq![TAG_RANGE] + u32_le(hs2.len() as u32) + hs2 + u32_le(he2.len() as u32) + he2);
    lemma_tagged_two_fields(TAG_RANGE, hs1, he1, hs2, he2);
}

/// Values without parts hash alike exactly when they are the same value.
proof fn lemma_scalar_hash(v: ValueModel, w: ValueModel)
    requires
        hash_ok(v),
        hash_ok(w),
        hash_tag(v) == hash_tag(w),
        !(v is Array || v is Object || v is Range),
    ensures
        spec_encode_hash(v) == spec_encode_hash(w) <==> same_value(v, w),
{
    let a = spec_encode_hash(v);
    let b = spec_encode_hash(w);
    match v {
            ValueModel::Null => {
                assert(a =~= b);
            },
            ValueModel::Bool(x) => {
                let y = w->Bool_0;
                if a == b {
                    assert(a[1] == b[1]);
                }
                if x == y {
                    assert(a =~= b);
                }
            },
            ValueModel::Int(_) | ValueModel::Float(_) | ValueModel::Decimal(_) => {
                lemma_numbers_hash(v, w);
            },
            ValueModel::String(x) => {
                lemma_text_hash(TAG_STRING, x, w->String_0);
            },
            ValueModel::Reference(x) => {
                lemma_text_hash(TAG_REFERENCE, x, w->Reference_0);
            },
            ValueModel::Datetime(x) => {
                let y = w->Datetime_0;
                if a == b {
                    assert(a.subrange(1, 9) =~= u64_le(i64_bits(x)));
                    assert(b.subrange(1, 9) =~= u64_le(i64_bits(y)));
                    lemma_u64_le_injective(i64_bits(x), i64_bits(y));
                    lemma_i64_bits_injective(x, y);
                }
            },
            ValueModel::Duration(x) => {
                let y = w->Duration_0;
                if a == b {
                    assert(a.subrange(1, 9) =~= u64_le(x));
                    assert(b.subrange(1, 9) =~= u64_le(y));
                    lemma_u64_le_injective(x, y);
                }
            },
            ValueModel::Bytes(x) => {
                let y = w->Bytes_0;
                if a == b {
                    assert(x =~= a.subrange(5, a.len() as int));
                    assert(y =~= b.subrange(5, b.len() as int));
                }
            },
            _ => {},
        }
}

} // verus!
