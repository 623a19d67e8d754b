//! The text under which a document value is indexed for full-text search.

use vstd::prelude::*;
use vstd::string::*;
use crate::external::{millis_rfc3339, rfc3339_of_millis};
use crate::stats::{decimal_text, push_decimal};
use crate::value::{Value, ValueModel, models_from, entry_models_from, lemma_models_from, lemma_entry_models_from};

verus! {

/// The decimal text of an integer, with a leading `-` when negative.
pub open spec fn int_text(n: int) -> Seq<char> {
    if n < 0 {
        seq!['-'] + decimal_text((-n) as nat)
    } else {
        decimal_text(n as nat)
    }
}

/// What a datetime is indexed as: its RFC 3339 text, or its milliseconds
/// when there is none.
pub open spec fn spec_datetime_text(ms: i64, rfc: Option<Seq<char>>) -> Seq<char> {
    match rfc {
        Some(t) => t,
        None => int_text(ms as int),
    }
}

/// The text of a value: strings, references and numbers as written, booleans
/// as `true`/`false`, arrays and objects as their parts' texts joined by
/// spaces, durations with `ns`, ranges as start and end; null and bytes
/// give no text.
pub open spec fn spec_value_text(v: ValueModel) -> Seq<char>
    decreases v, 0nat,
{
    match v {
        ValueModel::Null => seq![],
        ValueModel::Bool(b) => if b {
            seq!['t', 'r', 'u', 'e']
        } else {
            seq!['f', 'a', 'l', 's', 'e']
        },
        ValueModel::Int(n) => int_text(n as int),
        ValueModel::Float(t) => t,
        ValueModel::Decimal(d) => d,
        ValueModel::String(s) => s,
        ValueModel::Reference(id) => id,
        ValueModel::Array(items) => join_texts(items, 0),
        ValueModel::Object(es) => join_entry_texts(es, 0),
        ValueModel::Datetime(ms) => spec_datetime_text(ms, rfc3339_of_millis(ms)),
        ValueModel::Duration(ns) => decimal_text(ns as nat) + seq!['n', 's'],
        ValueModel::Bytes(_) => seq![],
        ValueModel::Range(start, end) => spec_value_text(*start) + seq![' '] + spec_value_text(*end),
    }
}

/// Texts of the values from `k` on, joined by spaces.
pub open spec fn join_texts(vs: Seq<ValueModel>, k: int) -> Seq<char>
    decreases vs, vs.len() - k,
{
    if k < 0 || k >= vs.len() {
        seq![]
    } else if k == vs.len() - 1 {
        spec_value_text(vs[k])
    } else {
        spec_value_text(vs[k]) + seq![' '] + join_texts(vs, k + 1)
    }
}

/// Texts of the entry values from `k` on, joined by spaces.
pub open spec fn join_entry_texts(es: Seq<(Seq<char>, ValueModel)>, k: int) -> Seq<char>
    decreases es, es.len() - k,
{
    if k < 0 || k >= es.len() {
        seq![]
    } else if k == es.len() - 1 {
        spec_value_text(es[k].1)
    } else {
        spec_value_text(es[k].1) + seq![' '] + join_entry_texts(es, k + 1)
    }
}

/// Appends the decimal text of `n`.
fn push_int(s: &mut String, n: i64)
    ensures
        final(s)@ == old(s)@ + int_text(n as int),
{
    if n < 0 {
        proof {
            reveal_strlit("-");
        }
        s.append("-");
        let m: i128 = -(n as i128);
        push_decimal(s, m as u128);
    } else {
        push_decimal(s, n as u128);
    }
}

/// What a datetime is indexed as, given what chrono made of it.
pub fn datetime_text(ms: i64, rfc: Option<String>) -> (r: String)
    ensures
        r@ == spec_datetime_text(ms, match rfc { Some(t) => Some(t@), None => None }),
{
    match rfc {
        Some(t) => t,
        None => {
            let mut s = String::new();
            push_int(&mut s, ms);
            s
        },
    }
}

/// The text under which a value is indexed for full-text search.
pub fn value_to_text(value: &Value) -> (r: String)
    ensures
        r@ == spec_value_text(value@),
    decreases value, 0nat,
{
    match value {
        Value::Null => String::new(),
        Value::Bool(b) => {
            proof {
                reveal_strlit("true");
                reveal_strlit("false");
            }
            if *b {
                String::from_str("true")
            } else {
                String::from_str("false")
            }
        },
        Value::Int(n) => {
            let mut s = String::new();
            push_int(&mut s, *n);
            s
        },
        Value::Float(f) => f.text().to_owned(),
        Value::Decimal(d) => d.text().to_owned(),
        Value::String(t) => t.clone(),
        Value::Reference(id) => id.clone(),
        Value::Array(arr) => {
            let mut s = String::new();
            let ghost ms = models_from(arr@, 0);
            proof {
                lemma_models_from(arr@, 0);
            }
            let n = arr.len();
            let mut k: usize = 0;
            while k < n
                invariant
                    k <= n,
                    n == arr@.len(),
                    *value == Value::Array(*arr),
                    ms == models_from(arr@, 0),
                    ms.len() == n,
                    forall|i: int| 0 <= i < n ==> #[trigger] ms[i] == arr@[i]@,
                    k == 0 ==> s@ == Seq::<char>::empty(),
                    k > 0 ==> s@ + sep_rest(join_texts(ms, k as int), k < n) == join_texts(ms, 0),
                decreases n - k,
            {
                proof {
                    assert(decreases_to!(*value => (*value)->Array_0));
                    assert((*value)->Array_0 == *arr);
                    assert(decreases_to!(*arr => arr@));
                    assert(decreases_to!(arr@ => arr@[k as int]));
                    assert(decreases_to!(*value => arr@[k as int]));
                }
                let t = value_to_text(&arr[k]);
                let ghost before = s@;
                if k > 0 {
                    proof {
                        reveal_strlit(" ");
                    }
                    s.append(" ");
                }
                s.append(t.as_str());
                assert(ms[k as int] == arr@[k as int]@);
                proof {
                    if k + 1 < n {
                        assert(join_texts(ms, k as int) == spec_value_text(ms[k as int]) + seq![' '] + join_texts(ms, k + 1));
                    } else {
                        assert(join_texts(ms, k as int) == spec_value_text(ms[k as int]));
                    }
                    assert(s@ + sep_rest(join_texts(ms, k + 1), k + 1 < n) =~= before + (if k > 0 { seq![' '] } else { Seq::<char>::empty() }) + join_texts(ms, k as int));
                }
                k = k + 1;
            }
            proof {
                if n == 0 {
                    assert(join_texts(ms, 0) =~= Seq::<char>::empty());
                } else {
                    assert(s@ + sep_rest(join_texts(ms, n as int), false) =~= s@);
                }
            }
            s
        },
        Value::Object(es) => {
            let mut s = String::new();
            let ghost ms = entry_models_from(es@, 0);
            proof {
                lemma_entry_models_from(es@, 0);
            }
            let n = es.len();
            let mut k: usize = 0;
            while k < n
                invariant
                    k <= n,
                    n == es@.len(),
                    *value == Value::Object(*es),
                    ms == entry_models_from(es@, 0),
                    ms.len() == n,
                    forall|i: int| 0 <= i < n ==> #[trigger] ms[i] == (es@[i].0@, es@[i].1@),
                    k == 0 ==> s@ == Seq::<char>::empty(),
                    k > 0 ==> s@ + sep_rest(join_entry_texts(ms, k as int), k < n) == join_entry_texts(ms, 0),
                decreases n - k,
            {
                proof {
                    assert(decreases_to!(*value => (*value)->Object_0));
                    assert((*value)->Object_0 == *es);
                    assert(decreases_to!(*es => es@));
                    assert(decreases_to!(es@ => es@[k as int]));
                    assert(decreases_to!(es@[k as int] => es@[k as int].1));
                    assert(decreases_to!(*value => es@[k as int].1));
                }
                let t = value_to_text(&es[k].1);
                let ghost before = s@;
                if k > 0 {
                    proof {
                        reveal_strlit(" ");
                    }
                    s.append(" ");
                }
                s.append(t.as_str());
                assert(ms[k as int] == (es@[k as int].0@, es@[k as int].1@));
                proof {
                    if k + 1 < n {
                        assert(join_entry_texts(ms, k as int) == spec_value_text(ms[k as int].1) + seq![' '] + join_entry_texts(ms, k + 1));
                    } else {
                        assert(join_entry_texts(ms, k as int) == spec_value_text(ms[k as int].1));
                    }
                    assert(s@ + sep_rest(join_entry_texts(ms, k + 1), k + 1 < n) =~= before + (if k > 0 { seq![' '] } else { Seq::<char>::empty() }) + join_entry_texts(ms, k as int));
                }
                k = k + 1;
            }
            proof {
                if n == 0 {
                    assert(join_entry_texts(ms, 0) =~= Seq::<char>::empty());
                } else {
                    assert(s@ + sep_rest(join_entry_texts(ms, n as int), false) =~= s@);
                }
            }
            s
        },
        Value::Datetime(ms) => datetime_text(*ms, millis_rfc3339(*ms)),
        Value::Duration(ns) => {
            let mut s = String::new();
            push_decimal(&mut s, *ns as u128);
            proof {
                reveal_strlit("ns");
            }
            s.append("ns");
            s
        },
        Value::Bytes(_) => String::new(),
        Value::Range { start, end } => {
            let mut s = value_to_text(start);
            let e = value_to_text(end);
            proof {
                reveal_strlit(" ");
            }
            s.append(" ");
            s.append(e.as_str());
            s
        },
    }
}

/// A space and the text, when `more` holds; nothing otherwise.
pub open spec fn sep_rest(t: Seq<char>, more: bool) -> Seq<char> {
    if more {
        seq![' '] + t
    } else {
        seq![]
    }
}

} // verus!
