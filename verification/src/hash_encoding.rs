//! The value encoding behind unique-constraint lock keys: unlike the ordered
//! encoding it takes arrays and objects apart, so that equal values (and
//! numbers equal across integer, double and decimal) give equal bytes.

use vstd::prelude::*;
use crate::bytes::{extend_bytes, i64_bits, i64_to_bits, push_u32_le, push_u64_le, u32_le, u64_le};
use crate::encoding::{utf8, TAG_ARRAY, TAG_BOOL, TAG_BYTES, TAG_DATETIME, TAG_DURATION, TAG_NULL, TAG_NUMBER, TAG_OBJECT, TAG_RANGE, TAG_REFERENCE, TAG_STRING};
use crate::numeric::{encode_f64_fixed_width, encode_i64_fixed_width, encode_number_fixed_width, lemma_decimal_text_in_range, spec_encode_decimal_text, spec_encode_float_text, spec_encode_int};
use crate::order::lex_lt;
use crate::value::{Value, ValueModel, entry_models_from, lemma_entry_models_from, lemma_models_from, models_from};

verus! {

/// UTF-8 bytes of the key of entry `j`.
pub open spec fn entry_key_bytes(es: Seq<(Seq<char>, ValueModel)>, j: int) -> Seq<u8> {
    utf8(es[j].0)
}

/// Puts index `j` before the first index whose key sorts strictly after the
/// key of `j`.
pub open spec fn insert_by_key(order: Seq<int>, es: Seq<(Seq<char>, ValueModel)>, j: int) -> Seq<int>
    decreases order.len(),
{
    if order.len() == 0 {
        seq![j]
    } else if lex_lt(entry_key_bytes(es, j), entry_key_bytes(es, order[0])) {
        seq![j] + order
    } else {
        seq![order[0]] + insert_by_key(order.drop_first(), es, j)
    }
}

/// The first `n` entry indices, stably sorted by key bytes.
pub open spec fn sorted_entry_order(es: Seq<(Seq<char>, ValueModel)>, n: int) -> Seq<int>
    decreases n,
{
    if n <= 0 {
        seq![]
    } else {
        insert_by_key(sorted_entry_order(es, n - 1), es, n - 1)
    }
}

/// The hash encoding of a value.
pub open spec fn spec_encode_hash(v: ValueModel) -> Seq<u8>
    decreases v, 0nat,
{
    match v {
        ValueModel::Null => seq![TAG_NULL],
        ValueModel::Bool(b) => seq![
            TAG_BOOL,
            if b {
                1u8
            } else {
                0u8
            },
        ],
        ValueModel::Int(n) => seq![TAG_NUMBER] + spec_encode_int(n as int),
        ValueModel::Float(f) => seq![TAG_NUMBER] + spec_encode_float_text(f),
        ValueModel::Decimal(d) => seq![TAG_NUMBER] + spec_encode_decimal_text(d),
        ValueModel::String(s) => seq![TAG_STRING] + utf8(s) + seq![0u8],
        ValueModel::Reference(id) => seq![TAG_REFERENCE] + utf8(id) + seq![0u8],
        ValueModel::Array(arr) => seq![TAG_ARRAY] + u32_le(arr.len() as u32) + spec_hash_elements(
            arr,
            0,
        ),
        ValueModel::Object(es) => seq![TAG_OBJECT] + u32_le(es.len() as u32) + spec_hash_entries(
            es,
            sorted_entry_order(es, es.len() as int),
            0,
        ),
        ValueModel::Datetime(ms) => seq![TAG_DATETIME] + u64_le(i64_bits(ms)),
        ValueModel::Duration(ns) => seq![TAG_DURATION] + u64_le(ns),
        ValueModel::Bytes(b) => seq![TAG_BYTES] + u32_le(b.len() as u32) + b,
        ValueModel::Range(start, end) => {
            let s = spec_encode_hash(*start);
            let e = spec_encode_hash(*end);
            seq![TAG_RANGE] + u32_le(s.len() as u32) + s + u32_le(e.len() as u32) + e
        },
    }
}

/// Elements from `k` on, each as its length (four bytes, little endian) and
/// its hash encoding.
pub open spec fn spec_hash_elements(vs: Seq<ValueModel>, k: int) -> Seq<u8>
    decreases vs, vs.len() - k,
{
    if k < 0 || k >= vs.len() {
        seq![]
    } else {
        let e = spec_encode_hash(vs[k]);
        u32_le(e.len() as u32) + e + spec_hash_elements(vs, k + 1)
    }
}

/// Entries in the given order from position `k` on, each as key length, key
/// bytes, value length and value hash encoding.
pub open spec fn spec_hash_entries(es: Seq<(Seq<char>, ValueModel)>, order: Seq<int>, k: int) -> Seq<u8>
    decreases es, order.len() - k,
{
    if k < 0 || k >= order.len() {
        seq![]
    } else {
        let j = order[k];
        let rest = spec_hash_entries(es, order, k + 1);
        if 0 <= j < es.len() {
            let kb = utf8(es[j].0);
            let h = spec_encode_hash(es[j].1);
            u32_le(kb.len() as u32) + kb + u32_le(h.len() as u32) + h + rest
        } else {
            rest
        }
    }
}

/// `a` sorts strictly before `b` bytewise.
pub fn bytes_lt(a: &[u8], b: &[u8]) -> (r: bool)
    ensures
        r == lex_lt(a@, b@),
{
    let mut i: usize = 0;
    assert(a@.skip(0) =~= a@);
    assert(b@.skip(0) =~= b@);
    while i < a.len() && i < b.len()
        invariant
            i <= a@.len(),
            i <= b@.len(),
            lex_lt(a@, b@) == lex_lt(a@.skip(i as int), b@.skip(i as int)),
        decreases a@.len() - i,
    {
        if a[i] != b[i] {
            return a[i] < b[i];
        }
        assert(a@.skip(i + 1) =~= a@.skip(i as int).drop_first());
        assert(b@.skip(i + 1) =~= b@.skip(i as int).drop_first());
        i = i + 1;
    }
    i < b.len()
}

proof fn lemma_insert_by_key_at(order: Seq<int>, es: Seq<(Seq<char>, ValueModel)>, j: int, p: int)
    requires
        0 <= p <= order.len(),
        forall|q: int|
            0 <= q < p ==> !lex_lt(entry_key_bytes(es, j), #[trigger] entry_key_bytes(es, order[q])),
        p < order.len() ==> lex_lt(entry_key_bytes(es, j), entry_key_bytes(es, order[p])),
    ensures
        insert_by_key(order, es, j) == order.take(p).push(j) + order.skip(p),
    decreases order.len(),
{
    if order.len() == 0 {
        assert(order.take(p).push(j) + order.skip(p) =~= seq![j]);
    } else if p == 0 {
        assert(order.take(0).push(j) + order.skip(0) =~= seq![j] + order);
    } else {
        let o1 = order.drop_first();
        assert forall|q: int| 0 <= q < p - 1 implies !lex_lt(
            entry_key_bytes(es, j),
            #[trigger] entry_key_bytes(es, o1[q]),
        ) by {
            assert(o1[q] == order[q + 1]);
        }
        assert(!lex_lt(entry_key_bytes(es, j), entry_key_bytes(es, order[0])));
        lemma_insert_by_key_at(o1, es, j, p - 1);
        assert(seq![order[0]] + (o1.take(p - 1).push(j) + o1.skip(p - 1)) =~= order.take(p).push(j)
            + order.skip(p));
    }
}

/// Entry indices stably sorted by key bytes.
fn sort_entries_by_key(es: &Vec<(String, Value)>) -> (order: Vec<usize>)
    ensures
        order@.len() == es@.len(),
        forall|k: int| 0 <= k < order@.len() ==> #[trigger] order@[k] < es@.len(),
        order@.map_values(|x: usize| x as int) == sorted_entry_order(
            entry_models_from(es@, 0),
            es@.len() as int,
        ),
{
    let ghost ms = entry_models_from(es@, 0);
    proof {
        lemma_entry_models_from(es@, 0);
    }
    let n = es.len();
    let mut order: Vec<usize> = Vec::new();
    let mut j: usize = 0;
    while j < n
        invariant
            j <= n,
            n == es@.len(),
            ms == entry_models_from(es@, 0),
            ms.len() == n,
            forall|i: int| 0 <= i < n ==> #[trigger] ms[i].0 == es@[i].0@,
            order@.len() == j,
            forall|k: int| 0 <= k < order@.len() ==> #[trigger] order@[k] < j,
            order@.map_values(|x: usize| x as int) == sorted_entry_order(ms, j as int),
        decreases n - j,
    {
        let kj = es[j].0.as_str().as_bytes();
        assert(ms[j as int].0 == es@[j as int].0@);
        let mut p: usize = 0;
        while p < order.len()
            invariant
                p <= order@.len(),
                j < n,
                n == es@.len(),
                ms.len() == n,
                forall|i: int| 0 <= i < n ==> #[trigger] ms[i].0 == es@[i].0@,
                kj@ == entry_key_bytes(ms, j as int),
                forall|k: int| 0 <= k < order@.len() ==> #[trigger] order@[k] < j,
                forall|q: int|
                    0 <= q < p ==> !lex_lt(
                        entry_key_bytes(ms, j as int),
                        #[trigger] entry_key_bytes(ms, order@[q] as int),
                    ),
            ensures
                p <= order@.len(),
                forall|q: int|
                    0 <= q < p ==> !lex_lt(
                        entry_key_bytes(ms, j as int),
                        #[trigger] entry_key_bytes(ms, order@[q] as int),
                    ),
                p < order@.len() ==> lex_lt(
                    entry_key_bytes(ms, j as int),
                    entry_key_bytes(ms, order@[p as int] as int),
                ),
            decreases order@.len() - p,
        {
            let kp = es[order[p]].0.as_str().as_bytes();
            assert(ms[order@[p as int] as int].0 == es@[order@[p as int] as int].0@);
            if bytes_lt(kj, kp) {
                break;
            }
            p = p + 1;
        }
        let ghost old_order = order@;
        let ghost oi = old_order.map_values(|x: usize| x as int);
        proof {
            assert forall|q: int| 0 <= q < p implies !lex_lt(
                entry_key_bytes(ms, j as int),
                #[trigger] entry_key_bytes(ms, oi[q]),
            ) by {
                assert(oi[q] == old_order[q] as int);
            }
            lemma_insert_by_key_at(oi, ms, j as int, p as int);
        }
        order.insert(p, j);
        proof {
            assert(order@.map_values(|x: usize| x as int) =~= oi.take(p as int).push(j as int)
                + oi.skip(p as int));
            assert(sorted_entry_order(ms, (j + 1) as int) == insert_by_key(
                sorted_entry_order(ms, j as int),
                ms,
                j as int,
            ));
        }
        j = j + 1;
    }
    order
}

/// Encodes a value for unique-constraint hashing. Arrays and objects are
/// encoded element by element (object entries sorted by key), and all
/// numbers share one form, so `100`, `100.0` and the decimal `100` agree.
/// A reference has a tag of its own, so it never hashes like a string with
/// the same text: distinct values get distinct bytes.
pub fn encode_value_for_hash(value: &Value) -> (r: Vec<u8>)
    ensures
        r@ == spec_encode_hash(value@),
    decreases value, 0nat,
{
    match value {
        Value::Null => vec![TAG_NULL],
        Value::Bool(b) => vec![
            TAG_BOOL,
            if *b {
                1
            } else {
                0
            },
        ],
        Value::Int(n) => {
            let mut buf = vec![TAG_NUMBER];
            let mut num = encode_i64_fixed_width(*n);
            buf.append(&mut num);
            buf
        },
        Value::Float(f) => {
            let mut buf = vec![TAG_NUMBER];
            let mut num = encode_f64_fixed_width(f);
            buf.append(&mut num);
            buf
        },
        Value::Decimal(d) => {
            let mut buf = vec![TAG_NUMBER];
            let t = d.text();
            proof {
                lemma_decimal_text_in_range(t@);
            }
            let mut num = encode_number_fixed_width(t);
            buf.append(&mut num);
            buf
        },
        Value::String(s) => {
            let mut buf = vec![TAG_STRING];
            extend_bytes(&mut buf, s.as_str().as_bytes());
            buf.push(0x00);
            buf
        },
        Value::Reference(id) => {
            let mut buf = vec![TAG_REFERENCE];
            extend_bytes(&mut buf, id.as_str().as_bytes());
            buf.push(0x00);
            buf
        },
        Value::Array(arr) => {
            let mut buf = vec![TAG_ARRAY];
            push_u32_le(&mut buf, arr.len() as u32);
            let ghost head = buf@;
            let ghost ms = models_from(arr@, 0);
            proof {
                lemma_models_from(arr@, 0);
            }
            let n = arr.len();
            let mut k: usize = 0;
            while k < n
                invariant
                    k <= n,
                    n == arr@.len(),
                    *value == Value::Array(*arr),
                    ms == models_from(arr@, 0),
                    ms.len() == n,
                    forall|i: int| 0 <= i < n ==> #[trigger] ms[i] == arr@[i]@,
                    buf@ + spec_hash_elements(ms, k as int) == head + spec_hash_elements(ms, 0),
                decreases n - k,
            {
                proof {
                    assert(decreases_to!(*value => (*value)->Array_0));
                    assert((*value)->Array_0 == *arr);
                    assert(decreases_to!(*arr => arr@));
                    assert(decreases_to!(arr@ => arr@[k as int]));
                    assert(decreases_to!(*value => arr@[k as int]));
                }
                let mut encoded = encode_value_for_hash(&arr[k]);
                let ghost before = buf@;
                push_u32_le(&mut buf, encoded.len() as u32);
                buf.append(&mut encoded);
                assert(ms[k as int] == arr@[k as int]@);
                assert(before + spec_hash_elements(ms, k as int) =~= buf@ + spec_hash_elements(
                    ms,
                    k + 1,
                ));
                k = k + 1;
            }
            assert(spec_hash_elements(ms, n as int) =~= Seq::<u8>::empty());
            assert(buf@ =~= head + spec_hash_elements(ms, 0));
            buf
        },
        Value::Object(es) => {
            let mut buf = vec![TAG_OBJECT];
            push_u32_le(&mut buf, es.len() as u32);
            let order = sort_entries_by_key(es);
            let ghost oi = order@.map_values(|x: usize| x as int);
            let ghost head = buf@;
            let ghost ms = entry_models_from(es@, 0);
            proof {
                lemma_entry_models_from(es@, 0);
            }
            let n = order.len();
            let mut k: usize = 0;
            while k < n
                invariant
                    k <= n,
                    n == order@.len(),
                    n == es@.len(),
                    *value == Value::Object(*es),
                    oi == order@.map_values(|x: usize| x as int),
                    forall|q: int| 0 <= q < order@.len() ==> #[trigger] order@[q] < es@.len(),
                    ms == entry_models_from(es@, 0),
                    ms.len() == n,
                    forall|i: int| 0 <= i < n ==> #[trigger] ms[i] == (es@[i].0@, es@[i].1@),
                    buf@ + spec_hash_entries(ms, oi, k as int) == head + spec_hash_entries(
                        ms,
                        oi,
                        0,
                    ),
                decreases n - k,
            {
                let j = order[k];
                assert(oi[k as int] == j as int);
                let key = es[j].0.as_str().as_bytes();
                proof {
                    assert(decreases_to!(*value => (*value)->Object_0));
                    assert((*value)->Object_0 == *es);
                    assert(decreases_to!(*es => es@));
                    assert(decreases_to!(es@ => es@[j as int]));
                    assert(decreases_to!(es@[j as int] => es@[j as int].1));
                    assert(decreases_to!(*value => es@[j as int].1));
                }
                let mut encoded = encode_value_for_hash(&es[j].1);
                let ghost before = buf@;
                push_u32_le(&mut buf, key.len() as u32);
                extend_bytes(&mut buf, key);
                push_u32_le(&mut buf, encoded.len() as u32);
                buf.append(&mut encoded);
                assert(ms[j as int] == (es@[j as int].0@, es@[j as int].1@));
                assert(before + spec_hash_entries(ms, oi, k as int) =~= buf@ + spec_hash_entries(
                    ms,
                    oi,
                    k + 1,
                ));
                k = k + 1;
            }
            assert(spec_hash_entries(ms, oi, n as int) =~= Seq::<u8>::empty());
            assert(buf@ =~= head + spec_hash_entries(ms, oi, 0));
            buf
        },
        Value::Datetime(ms) => {
            let mut buf = vec![TAG_DATETIME];
            push_u64_le(&mut buf, i64_to_bits(*ms));
            buf
        },
        Value::Duration(ns) => {
            let mut buf = vec![TAG_DURATION];
            push_u64_le(&mut buf, *ns);
            buf
        },
        Value::Bytes(b) => {
            let mut buf = vec![TAG_BYTES];
            push_u32_le(&mut buf, b.len() as u32);
            extend_bytes(&mut buf, b.as_slice());
            buf
        },
        Value::Range { start, end } => {
            let mut buf = vec![TAG_RANGE];
            let mut s = encode_value_for_hash(start);
            let mut e = encode_value_for_hash(end);
            push_u32_le(&mut buf, s.len() as u32);
            buf.append(&mut s);
            push_u32_le(&mut buf, e.len() as u32);
            buf.append(&mut e);
            buf
        },
    }
}

} // verus!
