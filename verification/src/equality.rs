//! Equality of document values as the value type compares them: doubles by
//! number (`NaN` equal to nothing, the two zeros equal), objects as maps.

use vstd::prelude::*;
use crate::document::{get_field, lookup_field, str_eq};
use crate::value::{
    FloatText, Value, ValueModel, entry_models_from, lemma_entry_models_from, lemma_models_from,
    models_from,
};

verus! {

pub open spec fn is_zero_text(t: Seq<char>) -> bool {
    t == seq!['0'] || t == seq!['-', '0']
}

/// Equality of two doubles given by their display texts: the same double
/// displays the same, `NaN` equals nothing and `0` equals `-0`.
pub open spec fn float_text_eq(x: Seq<char>, y: Seq<char>) -> bool {
    x != seq!['N', 'a', 'N'] && (x == y || (is_zero_text(x) && is_zero_text(y)))
}

/// Value equality: same kind and equal contents; arrays element by
/// element, objects as maps from key to value.
pub open spec fn value_eq(a: ValueModel, b: ValueModel) -> bool
    decreases a, 0nat,
{
    match a {
        ValueModel::Null => b is Null,
        ValueModel::Bool(x) => match b {
            ValueModel::Bool(y) => x == y,
            _ => false,
        },
        ValueModel::Int(x) => match b {
            ValueModel::Int(y) => x == y,
            _ => false,
        },
        ValueModel::Float(x) => match b {
            ValueModel::Float(y) => float_text_eq(x, y),
            _ => false,
        },
        ValueModel::Decimal(x) => match b {
            ValueModel::Decimal(y) => x == y,
            _ => false,
        },
        ValueModel::String(x) => match b {
            ValueModel::String(y) => x == y,
            _ => false,
        },
        ValueModel::Reference(x) => match b {
            ValueModel::Reference(y) => x == y,
            _ => false,
        },
        ValueModel::Datetime(x) => match b {
            ValueModel::Datetime(y) => x == y,
            _ => false,
        },
        ValueModel::Duration(x) => match b {
            ValueModel::Duration(y) => x == y,
            _ => false,
        },
        ValueModel::Bytes(x) => match b {
            ValueModel::Bytes(y) => x == y,
            _ => false,
        },
        ValueModel::Array(xs) => match b {
            ValueModel::Array(ys) => xs.len() == ys.len() && elems_eq(xs, ys, 0),
            _ => false,
        },
        ValueModel::Object(es) => match b {
            ValueModel::Object(fs) => es.len() == fs.len() && entries_eq(es, fs, 0),
            _ => false,
        },
        ValueModel::Range(s1, e1) => match b {
            ValueModel::Range(s2, e2) => value_eq(*s1, *s2) && value_eq(*e1, *e2),
            _ => false,
        },
    }
}

/// Elements from `k` on are pairwise equal.
pub open spec fn elems_eq(xs: Seq<ValueModel>, ys: Seq<ValueModel>, k: int) -> bool
    decreases xs, xs.len() - k,
{
    if k < 0 || k >= xs.len() {
        true
    } else {
        value_eq(xs[k], ys[k]) && elems_eq(xs, ys, k + 1)
    }
}

/// Each entry of `es` from `k` on has an equal value under its key in `fs`.
pub open spec fn entries_eq(es: Seq<(Seq<char>, ValueModel)>, fs: Seq<(Seq<char>, ValueModel)>, k: int) -> bool
    decreases es, es.len() - k,
{
    if k < 0 || k >= es.len() {
        true
    } else {
        match lookup_field(fs, es[k].0) {
            Some(v) => value_eq(es[k].1, v) && entries_eq(es, fs, k + 1),
            None => false,
        }
    }
}

pub open spec fn opt_value_eq(a: Option<ValueModel>, b: Option<ValueModel>) -> bool {
    match (a, b) {
        (None, None) => true,
        (Some(x), Some(y)) => value_eq(x, y),
        _ => false,
    }
}

fn float_texts_equal(a: &FloatText, b: &FloatText) -> (r: bool)
    ensures
        r == float_text_eq(a@, b@),
{
    let x = a.text();
    let y = b.text();
    proof {
        reveal_strlit("NaN");
        reveal_strlit("0");
        reveal_strlit("-0");
        assert("NaN"@ =~= seq!['N', 'a', 'N']);
        assert("0"@ =~= seq!['0']);
        assert("-0"@ =~= seq!['-', '0']);
    }
    if str_eq(x, "NaN") {
        return false;
    }
    if str_eq(x, y) {
        return true;
    }
    (str_eq(x, "0") || str_eq(x, "-0")) && (str_eq(y, "0") || str_eq(y, "-0"))
}

fn bytes_equal(a: &Vec<u8>, b: &Vec<u8>) -> (r: bool)
    ensures
        r == (a@ == b@),
{
    if a.len() != b.len() {
        return false;
    }
    let mut i: usize = 0;
    while i < a.len()
        invariant
            i <= a@.len(),
            a@.len() == b@.len(),
            forall|j: int| 0 <= j < i ==> a@[j] == b@[j],
        decreases a@.len() - i,
    {
        if a[i] != b[i] {
            return false;
        }
        i = i + 1;
    }
    assert(a@ =~= b@);
    true
}

/// Whether two values are equal.
pub fn values_equal(a: &Value, b: &Value) -> (r: bool)
    ensures
        r == value_eq(a@, b@),
    decreases a, 0nat,
{
    match (a, b) {
        (Value::Null, Value::Null) => true,
        (Value::Bool(x), Value::Bool(y)) => *x == *y,
        (Value::Int(x), Value::Int(y)) => *x == *y,
        (Value::Float(x), Value::Float(y)) => float_texts_equal(x, y),
        (Value::Decimal(x), Value::Decimal(y)) => str_eq(x.text(), y.text()),
        (Value::String(x), Value::String(y)) => str_eq(x.as_str(), y.as_str()),
        (Value::Reference(x), Value::Reference(y)) => str_eq(x.as_str(), y.as_str()),
        (Value::Datetime(x), Value::Datetime(y)) => *x == *y,
        (Value::Duration(x), Value::Duration(y)) => *x == *y,
        (Value::Bytes(x), Value::Bytes(y)) => bytes_equal(x, y),
        (Value::Array(xs), Value::Array(ys)) => {
            let ghost mx = models_from(xs@, 0);
            let ghost my = models_from(ys@, 0);
            proof {
                lemma_models_from(xs@, 0);
                lemma_models_from(ys@, 0);
            }
            if xs.len() != ys.len() {
                return false;
            }
            let n = xs.len();
            let mut k: usize = n;
            let mut all = true;
            while k > 0
                invariant
                    k <= n,
                    n == xs@.len(),
                    n == ys@.len(),
                    *a == Value::Array(*xs),
                    mx == models_from(xs@, 0),
                    my == models_from(ys@, 0),
                    mx.len() == n,
                    my.len() == n,
                    forall|i: int| 0 <= i < n ==> #[trigger] mx[i] == xs@[i]@,
                    forall|i: int| 0 <= i < n ==> #[trigger] my[i] == ys@[i]@,
                    all == elems_eq(mx, my, k as int),
                decreases k,
            {
                let i = k - 1;
                proof {
                    assert(decreases_to!(*a => (*a)->Array_0));
                    assert((*a)->Array_0 == *xs);
                    assert(decreases_to!(*xs => xs@));
                    assert(decreases_to!(xs@ => xs@[i as int]));
                    assert(decreases_to!(*a => xs@[i as int]));
                }
                let e = values_equal(&xs[i], &ys[i]);
                assert(mx[i as int] == xs@[i as int]@ && my[i as int] == ys@[i as int]@);
                all = e && all;
                k = i;
            }
            all
        },
        (Value::Object(es), Value::Object(fs)) => {
            let ghost me = entry_models_from(es@, 0);
            let ghost mf = entry_models_from(fs@, 0);
            proof {
                lemma_entry_models_from(es@, 0);
                lemma_entry_models_from(fs@, 0);
            }
            if es.len() != fs.len() {
                return false;
            }
            let n = es.len();
            let mut k: usize = n;
            let mut all = true;
            while k > 0
                invariant
                    k <= n,
                    n == es@.len(),
                    n == fs@.len(),
                    *a == Value::Object(*es),
                    me == entry_models_from(es@, 0),
                    mf == entry_models_from(fs@, 0),
                    me.len() == n,
                    forall|i: int| 0 <= i < n ==> #[trigger] me[i] == (es@[i].0@, es@[i].1@),
                    all == entries_eq(me, mf, k as int),
                decreases k,
            {
                let i = k - 1;
                proof {
                    assert(decreases_to!(*a => (*a)->Object_0));
                    assert((*a)->Object_0 == *es);
                    assert(decreases_to!(*es => es@));
                    assert(decreases_to!(es@ => es@[i as int]));
                    assert(decreases_to!(es@[i as int] => es@[i as int].1));
                    assert(decreases_to!(*a => es@[i as int].1));
                }
                assert(me[i as int] == (es@[i as int].0@, es@[i as int].1@));
                let here = match get_field(fs, es[i].0.as_str()) {
                    Some(v) => values_equal(&es[i].1, v),
                    None => false,
                };
                all = here && all;
                k = i;
            }
            all
        },
        (Value::Range { start: s1, end: e1 }, Value::Range { start: s2, end: e2 }) => {
            values_equal(s1, s2) && values_equal(e1, e2)
        },
        _ => false,
    }
}

/// No object within the value lists a key twice.
pub open spec fn no_repeated_keys(v: ValueModel) -> bool
    decreases v, 0nat,
{
    match v {
        ValueModel::Array(xs) => elems_no_repeated(xs, 0),
        ValueModel::Object(es) => (forall|a: int, b: int| 0 <= a < b < es.len() ==> #[trigger] es[a].0 != #[trigger] es[b].0)
            && entries_no_repeated(es, 0),
        ValueModel::Range(s, e) => no_repeated_keys(*s) && no_repeated_keys(*e),
        _ => true,
    }
}

pub open spec fn elems_no_repeated(xs: Seq<ValueModel>, k: int) -> bool
    decreases xs, xs.len() - k,
{
    if k < 0 || k >= xs.len() {
        true
    } else {
        no_repeated_keys(xs[k]) && elems_no_repeated(xs, k + 1)
    }
}

pub open spec fn entries_no_repeated(es: Seq<(Seq<char>, ValueModel)>, k: int) -> bool
    decreases es, es.len() - k,
{
    if k < 0 || k >= es.len() {
        true
    } else {
        no_repeated_keys(es[k].1) && entries_no_repeated(es, k + 1)
    }
}

pub open spec fn opt_no_repeated_keys(v: Option<ValueModel>) -> bool {
    match v {
        Some(x) => no_repeated_keys(x),
        None => true,
    }
}

proof fn lemma_elems_no_repeated(xs: Seq<ValueModel>, k: int)
    requires
        0 <= k,
        elems_no_repeated(xs, k),
    ensures
        forall|i: int| k <= i < xs.len() ==> no_repeated_keys(#[trigger] xs[i]),
    decreases xs.len() - k,
{
    if k < xs.len() {
        lemma_elems_no_repeated(xs, k + 1);
    }
}

proof fn lemma_entries_no_repeated(es: Seq<(Seq<char>, ValueModel)>, k: int)
    requires
        0 <= k,
        entries_no_repeated(es, k),
    ensures
        forall|i: int| k <= i < es.len() ==> no_repeated_keys((#[trigger] es[i]).1),
    decreases es.len() - k,
{
    if k < es.len() {
        lemma_entries_no_repeated(es, k + 1);
    }
}

proof fn lemma_elems_eq(xs: Seq<ValueModel>, ys: Seq<ValueModel>, k: int)
    requires
        0 <= k,
    ensures
        elems_eq(xs, ys, k) <==> forall|i: int| k <= i < xs.len() ==> value_eq(#[trigger] xs[i], ys[i]),
    decreases xs.len() - k,
{
    if k < xs.len() {
        lemma_elems_eq(xs, ys, k + 1);
    }
}

proof fn lemma_entries_eq(es: Seq<(Seq<char>, ValueModel)>, fs: Seq<(Seq<char>, ValueModel)>, k: int)
    requires
        0 <= k,
    ensures
        entries_eq(es, fs, k) <==> forall|i: int|
            k <= i < es.len() ==> (lookup_field(fs, (#[trigger] es[i]).0) matches Some(v) && value_eq(es[i].1, v)),
    decreases es.len() - k,
{
    if k < es.len() {
        lemma_entries_eq(es, fs, k + 1);
    }
}

/// The value under a key: the first entry listing it.
proof fn lemma_lookup(fs: Seq<(Seq<char>, ValueModel)>, key: Seq<char>)
    ensures
        lookup_field(fs, key) matches Some(x) ==> exists|q: int| 0 <= q < fs.len() && fs[q].0 == key && fs[q].1 == x,
        lookup_field(fs, key) is None ==> forall|q: int| 0 <= q < fs.len() ==> fs[q].0 != key,
    decreases fs.len(),
{
    if fs.len() > 0 {
        lemma_lookup(fs.drop_first(), key);
        if fs[0].0 != key {
            if lookup_field(fs, key) is Some {
                let x = lookup_field(fs, key).unwrap();
                let q = choose|q: int| 0 <= q < fs.drop_first().len() && fs.drop_first()[q].0 == key && fs.drop_first()[q].1 == x;
                assert(fs[q + 1] == fs.drop_first()[q]);
            } else {
                assert forall|q: int| 0 <= q < fs.len() implies fs[q].0 != key by {
                    if q > 0 {
                        assert(fs[q] == fs.drop_first()[q - 1]);
                    }
                }
            }
        }
    }
}

proof fn lemma_lookup_unique(fs: Seq<(Seq<char>, ValueModel)>, q: int)
    requires
        forall|a: int, b: int| 0 <= a < b < fs.len() ==> #[trigger] fs[a].0 != #[trigger] fs[b].0,
        0 <= q < fs.len(),
    ensures
        lookup_field(fs, fs[q].0) == Some(fs[q].1),
{
    lemma_lookup(fs, fs[q].0);
    if lookup_field(fs, fs[q].0) is Some {
        let x = lookup_field(fs, fs[q].0).unwrap();
        let p = choose|p: int| 0 <= p < fs.len() && fs[p].0 == fs[q].0 && fs[p].1 == x;
        if p < q {
            assert(fs[p].0 != fs[q].0);
        } else if p > q {
            assert(fs[q].0 != fs[p].0);
        }
    }
}

spec fn has_key(fs: Seq<(Seq<char>, ValueModel)>, k: Seq<char>) -> bool {
    exists|q: int| 0 <= q < fs.len() && fs[q].0 == k
}

/// Two lists of the same length without repeated keys, the keys of the
/// first all among the second's: then those of the second are all among
/// the first's.
proof fn lemma_keys_onto(es: Seq<(Seq<char>, ValueModel)>, fs: Seq<(Seq<char>, ValueModel)>)
    requires
        es.len() == fs.len(),
        forall|a: int, b: int| 0 <= a < b < es.len() ==> #[trigger] es[a].0 != #[trigger] es[b].0,
        forall|a: int, b: int| 0 <= a < b < fs.len() ==> #[trigger] fs[a].0 != #[trigger] fs[b].0,
        forall|j: int| 0 <= j < es.len() ==> has_key(fs, (#[trigger] es[j]).0),
    ensures
        forall|q: int| 0 <= q < fs.len() ==> has_key(es, (#[trigger] fs[q]).0),
    decreases es.len(),
{
    if es.len() > 0 {
        let n = es.len() - 1;
        assert(has_key(fs, es[n].0));
        let p = choose|q: int| 0 <= q < fs.len() && fs[q].0 == es[n].0;
        let es1 = es.drop_last();
        let fs1 = fs.remove(p);
        assert forall|i: int| 0 <= i < fs1.len() implies #[trigger] fs1[i] == if i < p { fs[i] } else { fs[i + 1] } by {}
        assert forall|a: int, b: int| 0 <= a < b < fs1.len() implies #[trigger] fs1[a].0 != #[trigger] fs1[b].0 by {
            let a2 = if a < p { a } else { a + 1 };
            let b2 = if b < p { b } else { b + 1 };
            assert(fs1[a] == fs[a2] && fs1[b] == fs[b2]);
        }
        assert forall|a: int, b: int| 0 <= a < b < es1.len() implies #[trigger] es1[a].0 != #[trigger] es1[b].0 by {
            assert(es1[a] == es[a] && es1[b] == es[b]);
        }
        assert forall|j: int| 0 <= j < es1.len() implies has_key(fs1, (#[trigger] es1[j]).0) by {
            assert(es1[j] == es[j]);
            assert(has_key(fs, es[j].0));
            let q = choose|q: int| 0 <= q < fs.len() && fs[q].0 == es[j].0;
            assert(es[j].0 != es[n].0);
            assert(q != p);
            let w = if q < p { q } else { q - 1 };
            assert(fs1[w] == fs[q]);
            assert(0 <= w < fs1.len() && fs1[w].0 == es1[j].0);
        }
        lemma_keys_onto(es1, fs1);
        assert forall|q: int| 0 <= q < fs.len() implies has_key(es, (#[trigger] fs[q]).0) by {
            if q == p {
                assert(es[n].0 == fs[q].0);
            } else {
                let q1 = if q < p { q } else { q - 1 };
                assert(fs1[q1] == fs[q]);
                assert(has_key(es1, fs1[q1].0));
                let j = choose|j: int| 0 <= j < es1.len() && es1[j].0 == fs1[q1].0;
                assert(es[j] == es1[j]);
            }
        }
    }
}

/// Law: value equality is symmetric for values whose objects list each
/// key once.
pub proof fn law_value_eq_symmetric(a: ValueModel, b: ValueModel)
    requires
        no_repeated_keys(a),
        no_repeated_keys(b),
    ensures
        value_eq(a, b) == value_eq(b, a),
    decreases a,
{
    match a {
        ValueModel::Float(x) => {
            if let ValueModel::Float(y) = b {
                assert(!is_zero_text(seq!['N', 'a', 'N'])) by {
                    assert(seq!['N', 'a', 'N'][0] == 'N');
                }
            }
        },
        ValueModel::Array(xs) => {
            if let ValueModel::Array(ys) = b {
                lemma_elems_no_repeated(xs, 0);
                lemma_elems_no_repeated(ys, 0);
                lemma_elems_eq(xs, ys, 0);
                lemma_elems_eq(ys, xs, 0);
                assert forall|i: int| 0 <= i < xs.len() && i < ys.len() implies value_eq(#[trigger] xs[i], ys[i])
                    == value_eq(ys[i], xs[i]) by {
                    assert(decreases_to!(a => xs));
                    law_value_eq_symmetric(xs[i], ys[i]);
                }
            }
        },
        ValueModel::Object(es) => {
            if let ValueModel::Object(fs) = b {
                lemma_entries_no_repeated(es, 0);
                lemma_entries_no_repeated(fs, 0);
                lemma_entries_eq(es, fs, 0);
                lemma_entries_eq(fs, es, 0);
                assert forall|j: int, q: int| 0 <= j < es.len() && 0 <= q < fs.len() implies value_eq(
                    #[trigger] es[j].1,
                    #[trigger] fs[q].1,
                ) == value_eq(fs[q].1, es[j].1) by {
                    assert(decreases_to!(a => es));
                    assert(decreases_to!(es => es[j]));
                    assert(decreases_to!(es[j] => es[j].1));
                    law_value_eq_symmetric(es[j].1, fs[q].1);
                }
                if value_eq(a, b) {
                    lemma_entries_eq_flip(es, fs);
                }
                if value_eq(b, a) {
                    lemma_entries_eq_flip(fs, es);
                }
            }
        },
        ValueModel::Range(s1, e1) => {
            if let ValueModel::Range(s2, e2) = b {
                law_value_eq_symmetric(*s1, *s2);
                law_value_eq_symmetric(*e1, *e2);
            }
        },
        _ => {},
    }
}

/// Entries equal one way, their values equal in either order, are equal the
/// other way.
proof fn lemma_entries_eq_flip(es: Seq<(Seq<char>, ValueModel)>, fs: Seq<(Seq<char>, ValueModel)>)
    requires
        es.len() == fs.len(),
        forall|a: int, b: int| 0 <= a < b < es.len() ==> #[trigger] es[a].0 != #[trigger] es[b].0,
        forall|a: int, b: int| 0 <= a < b < fs.len() ==> #[trigger] fs[a].0 != #[trigger] fs[b].0,
        forall|i: int| 0 <= i < es.len() ==> (lookup_field(fs, (#[trigger] es[i]).0) matches Some(v) && value_eq(es[i].1, v)),
        forall|j: int, q: int|
            0 <= j < es.len() && 0 <= q < fs.len() ==> value_eq(#[trigger] es[j].1, #[trigger] fs[q].1) == value_eq(
                fs[q].1,
                es[j].1,
            ),
    ensures
        forall|i: int| 0 <= i < fs.len() ==> (lookup_field(es, (#[trigger] fs[i]).0) matches Some(v) && value_eq(fs[i].1, v)),
{
    assert forall|j: int| 0 <= j < es.len() implies has_key(fs, (#[trigger] es[j]).0) by {
        lemma_lookup(fs, es[j].0);
    }
    lemma_keys_onto(es, fs);
    assert forall|q: int| 0 <= q < fs.len() implies (lookup_field(es, (#[trigger] fs[q]).0) matches Some(v) && value_eq(fs[q].1, v)) by {
        assert(has_key(es, fs[q].0));
        let j = choose|j: int| 0 <= j < es.len() && es[j].0 == fs[q].0;
        lemma_lookup_unique(es, j);
        lemma_lookup_unique(fs, q);
        assert(lookup_field(fs, es[j].0) == Some(fs[q].1));
        assert(value_eq(es[j].1, fs[q].1));
    }
}

} // verus!

verus! {

/// Law: values of a plain kind are equal exactly when they are the same
/// value: strings and references when their texts are the same text,
/// integers, booleans, datetimes and durations when the numbers are, bytes
/// when the byte strings are, decimals when their texts are, and null equals
/// null; a value never equals one of another kind.
pub proof fn law_plain_value_equality(a: ValueModel, b: ValueModel)
    requires
        !(a is Float || a is Array || a is Object || a is Range),
    ensures
        value_eq(a, b) <==> a == b,
{
}

/// Law: doubles compare by number: two texts of the same double are equal
/// (`0` and `-0` are the same number), `NaN` equals nothing, not even
/// itself, and a double never equals a value of another kind.
pub proof fn law_double_equality(x: Seq<char>, y: Seq<char>, b: ValueModel)
    ensures
        x != seq!['N', 'a', 'N'] ==> value_eq(ValueModel::Float(x), ValueModel::Float(x)),
        value_eq(ValueModel::Float(seq!['0']), ValueModel::Float(seq!['-', '0'])),
        !value_eq(ValueModel::Float(seq!['N', 'a', 'N']), ValueModel::Float(y)),
        value_eq(ValueModel::Float(x), ValueModel::Float(y)) ==> x == y || (is_zero_text(x) && is_zero_text(y)),
        !(b is Float) ==> !value_eq(ValueModel::Float(x), b),
{
}

} // verus!
