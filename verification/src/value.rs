//! The document value model that the storage layer encodes.

use vstd::prelude::*;
use vstd::string::*;

verus! {

pub open spec fn is_digit_char(c: char) -> bool {
    '0' <= c && c <= '9'
}

/// Digits, with at most one `.` strictly inside: `12`, `0.5`, `100.25`.
pub open spec fn is_plain_decimal(s: Seq<char>) -> bool {
    &&& s.len() > 0
    &&& is_digit_char(s[0])
    &&& is_digit_char(s[s.len() - 1])
    &&& forall|i: int| 0 <= i < s.len() ==> is_digit_char(#[trigger] s[i]) || s[i] == '.'
    &&& forall|i: int, j: int|
        0 <= i < s.len() && 0 <= j < s.len() && #[trigger] s[i] == '.' && #[trigger] s[j] == '.'
            ==> i == j
}

pub open spec fn nan_text() -> Seq<char> {
    seq!['N', 'a', 'N']
}

pub open spec fn inf_text() -> Seq<char> {
    seq!['i', 'n', 'f']
}

pub open spec fn neg_inf_text() -> Seq<char> {
    seq!['-', 'i', 'n', 'f']
}

/// Longest text accepted for a double; the longest text a double displays as
/// is a few hundred characters.
pub const FLOAT_TEXT_MAX_LEN: usize = 1100;

/// The text that a double displays as: `NaN`, `inf`, `-inf`, or an optional
/// `-` followed by a plain decimal (no exponent).
pub open spec fn float_text_ok(s: Seq<char>) -> bool {
    &&& s.len() <= FLOAT_TEXT_MAX_LEN
    &&& {
        ||| s == nan_text()
        ||| s == inf_text()
        ||| s == neg_inf_text()
        ||| is_plain_decimal(s)
        ||| (s.len() > 1 && s[0] == '-' && is_plain_decimal(s.drop_first()))
    }
}

/// A double held as the decimal text it displays as.
#[derive(Debug)]
pub struct FloatText {
    text: String,
}

impl View for FloatText {
    type V = Seq<char>;

    closed spec fn view(&self) -> Seq<char> {
        self.text@
    }
}

fn chars_eq_literal(s: &str, lit: &str) -> (r: bool)
    ensures
        r == (s@ == lit@),
{
    let n = s.unicode_len();
    let m = lit.unicode_len();
    if n != m {
        return false;
    }
    let mut i: usize = 0;
    while i < n
        invariant
            n == s@.len(),
            m == lit@.len(),
            n == m,
            i <= n,
            forall|k: int| 0 <= k < i ==> s@[k] == lit@[k],
        decreases n - i,
    {
        if s.get_char(i) != lit.get_char(i) {
            return false;
        }
        i = i + 1;
    }
    assert(s@ =~= lit@);
    true
}

fn check_plain_decimal(s: &str, start: usize) -> (r: bool)
    requires
        start <= s@.len(),
    ensures
        r == is_plain_decimal(s@.subrange(start as int, s@.len() as int)),
{
    let ghost t = s@.subrange(start as int, s@.len() as int);
    let n = s.unicode_len();
    if n == start {
        return false;
    }
    let first = s.get_char(start);
    let last = s.get_char(n - 1);
    if !('0' <= first && first <= '9') || !('0' <= last && last <= '9') {
        return false;
    }
    let mut dots: usize = 0;
    let mut dot_at: usize = 0;
    let mut i: usize = start;
    while i < n
        invariant
            n == s@.len(),
            start <= i <= n,
            t == s@.subrange(start as int, n as int),
            forall|k: int| 0 <= k < i - start ==> is_digit_char(#[trigger] t[k]) || t[k] == '.',
            dots <= 1,
            dots == 0 ==> forall|k: int| 0 <= k < i - start ==> #[trigger] t[k] != '.',
            dots == 1 ==> start <= dot_at < i && t[dot_at - start] == '.',
            dots == 1 ==> forall|k: int|
                0 <= k < i - start && #[trigger] t[k] == '.' ==> k == dot_at - start,
        decreases n - i,
    {
        let c = s.get_char(i);
        if c == '.' {
            if dots == 1 {
                assert(t[i - start] == '.' && t[dot_at - start] == '.');
                return false;
            }
            dots = 1;
            dot_at = i;
        } else if !('0' <= c && c <= '9') {
            assert(!is_digit_char(t[i - start]) && t[i - start] != '.');
            return false;
        }
        i = i + 1;
    }
    true
}

impl FloatText {
    /// Accepts `text` when it has the form that a double displays as.
    pub fn new(text: String) -> (r: Option<FloatText>)
        ensures
            r is Some <==> float_text_ok(text@),
            r matches Some(ft) ==> ft@ == text@,
    {
        let n = text.as_str().unicode_len();
        if n > FLOAT_TEXT_MAX_LEN {
            return None;
        }
        proof {
            reveal_strlit("NaN");
            reveal_strlit("inf");
            reveal_strlit("-inf");
            assert("NaN"@ =~= nan_text());
            assert("inf"@ =~= inf_text());
            assert("-inf"@ =~= neg_inf_text());
        }
        let s = text.as_str();
        let ok = if chars_eq_literal(s, "NaN") || chars_eq_literal(s, "inf") || chars_eq_literal(
            s,
            "-inf",
        ) {
            true
        } else if check_plain_decimal(s, 0) {
            assert(s@.subrange(0, s@.len() as int) =~= s@);
            true
        } else if n > 1 && s.get_char(0) == '-' && check_plain_decimal(s, 1) {
            assert(s@.subrange(1, s@.len() as int) =~= s@.drop_first());
            true
        } else {
            proof {
                assert(s@.subrange(0, s@.len() as int) =~= s@);
                if n > 1 {
                    assert(s@.subrange(1, s@.len() as int) =~= s@.drop_first());
                }
            }
            false
        };
        if ok {
            Some(FloatText { text })
        } else {
            None
        }
    }

    #[verifier::type_invariant]
    closed spec fn wf(self) -> bool {
        float_text_ok(self.text@)
    }

    /// The held text.
    pub fn text(&self) -> (r: &str)
        ensures
            r@ == self@,
            float_text_ok(r@),
    {
        proof {
            use_type_invariant(self);
        }
        self.text.as_str()
    }
}

impl Clone for FloatText {
    fn clone(&self) -> (r: Self)
        ensures
            r == *self,
    {
        proof {
            use_type_invariant(self);
        }
        FloatText { text: self.text.clone() }
    }
}

/// Longest text accepted for a decimal.
pub const DECIMAL_TEXT_MAX_LEN: usize = 1073741824;

pub open spec fn decimal_nan_text() -> Seq<char> {
    seq!['N', 'a', 'N']
}

pub open spec fn decimal_inf_text() -> Seq<char> {
    seq!['I', 'n', 'f', 'i', 'n', 'i', 't', 'y']
}

pub open spec fn decimal_neg_inf_text() -> Seq<char> {
    seq!['-', 'I', 'n', 'f', 'i', 'n', 'i', 't', 'y']
}

/// The text an arbitrary-precision decimal displays as: `NaN`, `Infinity`,
/// `-Infinity`, or an optional `-` followed by a plain decimal (no
/// exponent).
pub open spec fn decimal_text_ok(s: Seq<char>) -> bool {
    &&& s.len() <= DECIMAL_TEXT_MAX_LEN
    &&& {
        ||| s == decimal_nan_text()
        ||| s == decimal_inf_text()
        ||| s == decimal_neg_inf_text()
        ||| is_plain_decimal(s)
        ||| (s.len() > 1 && s[0] == '-' && is_plain_decimal(s.drop_first()))
    }
}

/// An arbitrary-precision decimal held as the text it displays as.
#[derive(Debug)]
pub struct DecimalText {
    text: String,
}

impl View for DecimalText {
    type V = Seq<char>;

    closed spec fn view(&self) -> Seq<char> {
        self.text@
    }
}

impl DecimalText {
    /// Accepts `text` when it has the form that a decimal displays as.
    pub fn new(text: String) -> (r: Option<DecimalText>)
        ensures
            r is Some <==> decimal_text_ok(text@),
            r matches Some(dt) ==> dt@ == text@,
    {
        let n = text.as_str().unicode_len();
        if n > DECIMAL_TEXT_MAX_LEN {
            return None;
        }
        let s = text.as_str();
        proof {
            reveal_strlit("NaN");
            reveal_strlit("Infinity");
            reveal_strlit("-Infinity");
            assert("NaN"@ =~= decimal_nan_text());
            assert("Infinity"@ =~= decimal_inf_text());
            assert("-Infinity"@ =~= decimal_neg_inf_text());
        }
        let ok = if chars_eq_literal(s, "NaN") || chars_eq_literal(s, "Infinity") || chars_eq_literal(
            s,
            "-Infinity",
        ) {
            true
        } else if check_plain_decimal(s, 0) {
            assert(s@.subrange(0, s@.len() as int) =~= s@);
            true
        } else if n > 1 && s.get_char(0) == '-' && check_plain_decimal(s, 1) {
            assert(s@.subrange(1, s@.len() as int) =~= s@.drop_first());
            true
        } else {
            proof {
                assert(s@.subrange(0, s@.len() as int) =~= s@);
                if n > 1 {
                    assert(s@.subrange(1, s@.len() as int) =~= s@.drop_first());
                }
            }
            false
        };
        if ok {
            Some(DecimalText { text })
        } else {
            None
        }
    }

    #[verifier::type_invariant]
    closed spec fn wf(self) -> bool {
        decimal_text_ok(self.text@)
    }

    /// The held text.
    pub fn text(&self) -> (r: &str)
        ensures
            r@ == self@,
            decimal_text_ok(r@),
    {
        proof {
            use_type_invariant(self);
        }
        self.text.as_str()
    }
}

impl Clone for DecimalText {
    fn clone(&self) -> (r: Self)
        ensures
            r == *self,
    {
        proof {
            use_type_invariant(self);
        }
        DecimalText { text: self.text.clone() }
    }
}

/// A document value. Objects are lists of `(key, value)` entries in which a
/// key occurs at most once; lookups take the first entry with the key.
#[derive(Debug)]
pub enum Value {
    Null,
    Bool(bool),
    Int(i64),
    /// A double, held as its display text.
    Float(FloatText),
    /// An arbitrary-precision decimal, held as its display text.
    Decimal(DecimalText),
    String(String),
    Array(Vec<Value>),
    Object(Vec<(String, Value)>),
    Reference(String),
    /// Milliseconds since the epoch.
    Datetime(i64),
    /// Nanoseconds.
    Duration(u64),
    Bytes(Vec<u8>),
    Range { start: Box<Value>, end: Box<Value> },
}

/// The mathematical model of a value: texts as character sequences, arrays
/// and objects as sequences.
pub enum ValueModel {
    Null,
    Bool(bool),
    Int(i64),
    Float(Seq<char>),
    Decimal(Seq<char>),
    String(Seq<char>),
    Array(Seq<ValueModel>),
    Object(Seq<(Seq<char>, ValueModel)>),
    Reference(Seq<char>),
    Datetime(i64),
    Duration(u64),
    Bytes(Seq<u8>),
    Range(Box<ValueModel>, Box<ValueModel>),
}

pub open spec fn model_of(v: Value) -> ValueModel
    decreases v, 0nat,
{
    match v {
        Value::Null => ValueModel::Null,
        Value::Bool(b) => ValueModel::Bool(b),
        Value::Int(n) => ValueModel::Int(n),
        Value::Float(f) => ValueModel::Float(f@),
        Value::Decimal(d) => ValueModel::Decimal(d@),
        Value::String(s) => ValueModel::String(s@),
        Value::Array(arr) => ValueModel::Array(models_from(arr@, 0)),
        Value::Object(es) => ValueModel::Object(entry_models_from(es@, 0)),
        Value::Reference(id) => ValueModel::Reference(id@),
        Value::Datetime(ms) => ValueModel::Datetime(ms),
        Value::Duration(ns) => ValueModel::Duration(ns),
        Value::Bytes(b) => ValueModel::Bytes(b@),
        Value::Range { start, end } => ValueModel::Range(
            Box::new(model_of(*start)),
            Box::new(model_of(*end)),
        ),
    }
}

/// Models of the values from index `k` on.
pub open spec fn models_from(vs: Seq<Value>, k: int) -> Seq<ValueModel>
    decreases vs, vs.len() - k,
{
    if k < 0 || k >= vs.len() {
        seq![]
    } else {
        seq![model_of(vs[k])] + models_from(vs, k + 1)
    }
}

/// Models of the object entries from index `k` on.
pub open spec fn entry_models_from(es: Seq<(String, Value)>, k: int) -> Seq<(Seq<char>, ValueModel)>
    decreases es, es.len() - k,
{
    if k < 0 || k >= es.len() {
        seq![]
    } else {
        seq![(es[k].0@, model_of(es[k].1))] + entry_models_from(es, k + 1)
    }
}

impl View for Value {
    type V = ValueModel;

    open spec fn view(&self) -> ValueModel {
        model_of(*self)
    }
}

pub proof fn lemma_models_from(vs: Seq<Value>, k: int)
    requires
        0 <= k <= vs.len(),
    ensures
        models_from(vs, k).len() == vs.len() - k,
        forall|i: int| 0 <= i < vs.len() - k ==> #[trigger] models_from(vs, k)[i] == model_of(vs[k + i]),
    decreases vs.len() - k,
{
    if k < vs.len() {
        lemma_models_from(vs, k + 1);
        assert forall|i: int| 0 <= i < vs.len() - k implies #[trigger] models_from(vs, k)[i] == model_of(
            vs[k + i],
        ) by {
            if i > 0 {
                assert(models_from(vs, k)[i] == models_from(vs, k + 1)[i - 1]);
            }
        }
    }
}

pub proof fn lemma_entry_models_from(es: Seq<(String, Value)>, k: int)
    requires
        0 <= k <= es.len(),
    ensures
        entry_models_from(es, k).len() == es.len() - k,
        forall|i: int|
            0 <= i < es.len() - k ==> #[trigger] entry_models_from(es, k)[i] == (
                es[k + i].0@,
                model_of(es[k + i].1),
            ),
    decreases es.len() - k,
{
    if k < es.len() {
        lemma_entry_models_from(es, k + 1);
        assert forall|i: int| 0 <= i < es.len() - k implies #[trigger] entry_models_from(es, k)[i] == (
            es[k + i].0@,
            model_of(es[k + i].1),
        ) by {
            if i > 0 {
                assert(entry_models_from(es, k)[i] == entry_models_from(es, k + 1)[i - 1]);
            }
        }
    }
}

} // verus!

verus! {

/// A copy of a value.
pub fn clone_value(v: &Value) -> (r: Value)
    ensures
        r@ == v@,
    decreases v,
{
    match v {
        Value::Null => Value::Null,
        Value::Bool(b) => Value::Bool(*b),
        Value::Int(n) => Value::Int(*n),
        Value::Float(f) => {
            Value::Float(f.clone())
        },
        Value::Decimal(d) => Value::Decimal(d.clone()),
        Value::String(s) => Value::String(s.clone()),
        Value::Array(arr) => {
            let mut out: Vec<Value> = Vec::new();
            let mut i: usize = 0;
            while i < arr.len()
                invariant
                    i <= arr@.len(),
                    *v == Value::Array(*arr),
                    out@.len() == i,
                    forall|j: int| 0 <= j < i ==> #[trigger] out@[j]@ == arr@[j]@,
                decreases arr@.len() - i,
            {
                proof {
                    assert(decreases_to!(*v => (*v)->Array_0));
                    assert(decreases_to!(*arr => arr@));
                    assert(decreases_to!(arr@ => arr@[i as int]));
                }
                out.push(clone_value(&arr[i]));
                i = i + 1;
            }
            proof {
                lemma_models_from(out@, 0);
                lemma_models_from(arr@, 0);
                assert forall|j: int| 0 <= j < out@.len() implies #[trigger] models_from(out@, 0)[j]
                    == models_from(arr@, 0)[j] by {
                    assert(out@[j]@ == arr@[j]@);
                    assert(models_from(out@, 0)[j] == model_of(out@[0 + j]));
                    assert(models_from(arr@, 0)[j] == model_of(arr@[0 + j]));
                }
                assert(models_from(out@, 0) =~= models_from(arr@, 0));
            }
            Value::Array(out)
        },
        Value::Object(es) => {
            let mut out: Vec<(String, Value)> = Vec::new();
            let mut i: usize = 0;
            while i < es.len()
                invariant
                    i <= es@.len(),
                    *v == Value::Object(*es),
                    out@.len() == i,
                    forall|j: int|
                        0 <= j < i ==> #[trigger] out@[j].0@ == es@[j].0@ && out@[j].1@ == es@[j].1@,
                decreases es@.len() - i,
            {
                proof {
                    assert(decreases_to!(*v => (*v)->Object_0));
                    assert(decreases_to!(*es => es@));
                    assert(decreases_to!(es@ => es@[i as int]));
                    assert(decreases_to!(es@[i as int] => es@[i as int].1));
                }
                let k = es[i].0.clone();
                let x = clone_value(&es[i].1);
                out.push((k, x));
                i = i + 1;
            }
            proof {
                lemma_entry_models_from(out@, 0);
                lemma_entry_models_from(es@, 0);
                assert forall|j: int| 0 <= j < out@.len() implies #[trigger] entry_models_from(out@, 0)[j]
                    == entry_models_from(es@, 0)[j] by {
                    assert(out@[j].0@ == es@[j].0@ && out@[j].1@ == es@[j].1@);
                    assert(entry_models_from(out@, 0)[j] == (out@[0 + j].0@, model_of(out@[0 + j].1)));
                    assert(entry_models_from(es@, 0)[j] == (es@[0 + j].0@, model_of(es@[0 + j].1)));
                }
                assert(entry_models_from(out@, 0) =~= entry_models_from(es@, 0));
            }
            Value::Object(out)
        },
        Value::Reference(id) => Value::Reference(id.clone()),
        Value::Datetime(ms) => Value::Datetime(*ms),
        Value::Duration(ns) => Value::Duration(*ns),
        Value::Bytes(b) => {
            let c = vstd::slice::slice_to_vec(b.as_slice());
            assert(c@ =~= b@);
            Value::Bytes(c)
        },
        Value::Range { start, end } => {
            let s = clone_value(start);
            let e = clone_value(end);
            Value::Range { start: Box::new(s), end: Box::new(e) }
        },
    }
}

} // verus!
