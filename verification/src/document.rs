//! Documents, field lookup and dotted field paths.

use vstd::prelude::*;
use vstd::string::*;
use vstd::utf8::{encode_utf8_decode_utf8, decode_utf8, encode_utf8};
use crate::value::{Value, ValueModel, entry_models_from, lemma_entry_models_from, clone_value};

verus! {

/// A stored document: its id (`collection:key`) and its top-level fields,
/// each key at most once.
#[derive(Debug)]
pub struct Document {
    pub id: String,
    pub fields: Vec<(String, Value)>,
}

/// A document as its id and the models of its fields.
pub struct DocModel {
    pub id: Seq<char>,
    pub fields: Seq<(Seq<char>, ValueModel)>,
}

impl View for Document {
    type V = DocModel;

    open spec fn view(&self) -> DocModel {
        DocModel { id: self.id@, fields: entry_models_from(self.fields@, 0) }
    }
}

pub open spec fn opt_doc_view(d: Option<Document>) -> Option<DocModel> {
    match d {
        Some(x) => Some(x@),
        None => None,
    }
}

impl Document {
    /// A copy of the document.
    pub fn copy(&self) -> (r: Self)
        ensures
            r@ == self@,
    {
        let mut fields: Vec<(String, Value)> = Vec::new();
        let mut i: usize = 0;
        proof {
            lemma_entry_models_from(self.fields@, 0);
        }
        while i < self.fields.len()
            invariant
                i <= self.fields@.len(),
                fields@.len() == i,
                entry_models_from(self.fields@, 0).len() == self.fields@.len(),
                forall|j: int| 0 <= j < self.fields@.len() ==> #[trigger] entry_models_from(self.fields@, 0)[j] == (self.fields@[j].0@, self.fields@[j].1@),
                forall|j: int| 0 <= j < i ==> (#[trigger] fields@[j]).0@ == self.fields@[j].0@ && fields@[j].1@ == self.fields@[j].1@,
            decreases self.fields@.len() - i,
        {
            let k = self.fields[i].0.clone();
            let v = clone_value(&self.fields[i].1);
            fields.push((k, v));
            i = i + 1;
        }
        proof {
            lemma_entry_models_from(fields@, 0);
            assert(entry_models_from(fields@, 0) =~= entry_models_from(self.fields@, 0));
        }
        Document { id: self.id.clone(), fields }
    }

    /// A copy of an optional document.
    pub fn copy_opt(d: &Option<Document>) -> (r: Option<Document>)
        ensures
            opt_doc_view(r) == opt_doc_view(*d),
    {
        match d {
            Some(x) => Some(x.copy()),
            None => None,
        }
    }
}

/// Index of the first occurrence of `c`.
pub open spec fn first_index_of(s: Seq<char>, c: char) -> Option<int>
    decreases s.len(),
{
    if s.len() == 0 {
        None
    } else {
        match first_index_of(s.drop_last(), c) {
            Some(i) => Some(i),
            None => if s.last() == c {
                Some(s.len() - 1)
            } else {
                None
            },
        }
    }
}

/// The key part of a document id: what follows the first `:`, or the whole
/// id when it has none.
pub open spec fn spec_doc_key(id: Seq<char>) -> Seq<char> {
    match first_index_of(id, ':') {
        Some(i) => id.subrange(i + 1, id.len() as int),
        None => id,
    }
}

proof fn lemma_first_index_of_step(s: Seq<char>, c: char, i: int)
    requires
        0 <= i < s.len(),
        first_index_of(s.take(i), c) is None,
    ensures
        s[i] == c ==> first_index_of(s.take(i + 1), c) == Some(i),
        s[i] != c ==> first_index_of(s.take(i + 1), c) is None,
{
    assert(s.take(i + 1).drop_last() =~= s.take(i));
}

proof fn lemma_first_index_of_prefix(s: Seq<char>, c: char, i: int, k: int)
    requires
        0 <= i <= s.len(),
        first_index_of(s.take(i), c) == Some(k),
    ensures
        first_index_of(s, c) == Some(k),
    decreases s.len() - i,
{
    if i < s.len() {
        assert(s.take(i + 1).drop_last() =~= s.take(i));
        lemma_first_index_of_prefix(s, c, i + 1, k);
    } else {
        assert(s.take(i) =~= s);
    }
}

/// Index of the first occurrence of `c` in `s`.
pub fn find_char(s: &str, c: char) -> (r: Option<usize>)
    ensures
        r matches Some(i) ==> first_index_of(s@, c) == Some(i as int) && i < s@.len(),
        r is None ==> first_index_of(s@, c) is None,
{
    let n = s.unicode_len();
    let mut i: usize = 0;
    while i < n
        invariant
            i <= n,
            n == s@.len(),
            first_index_of(s@.take(i as int), c) is None,
        decreases n - i,
    {
        proof {
            lemma_first_index_of_step(s@, c, i as int);
        }
        if s.get_char(i) == c {
            proof {
                lemma_first_index_of_prefix(s@, c, i + 1, i as int);
            }
            return Some(i);
        }
        i = i + 1;
    }
    assert(s@.take(n as int) =~= s@);
    None
}

/// The collection part of a document id: what precedes the first `:`, or
/// the whole id when it has none.
pub open spec fn spec_doc_collection(id: Seq<char>) -> Seq<char> {
    match first_index_of(id, ':') {
        Some(i) => id.subrange(0, i),
        None => id,
    }
}

impl Document {
    /// The collection part of the id.
    pub fn collection(&self) -> (r: &str)
        ensures
            r@ == spec_doc_collection(self.id@),
    {
        let id = self.id.as_str();
        match find_char(id, ':') {
            Some(i) => id.substring_char(0, i),
            None => id,
        }
    }

    /// The key part of the id.
    pub fn key(&self) -> (r: &str)
        ensures
            r@ == spec_doc_key(self.id@),
    {
        let id = self.id.as_str();
        match find_char(id, ':') {
            Some(i) => {
                let n = id.unicode_len();
                id.substring_char(i + 1, n)
            },
            None => id,
        }
    }
}

/// The value of the first entry with the given key.
pub open spec fn lookup_field(es: Seq<(Seq<char>, ValueModel)>, name: Seq<char>) -> Option<ValueModel>
    decreases es.len(),
{
    if es.len() == 0 {
        None
    } else if es[0].0 == name {
        Some(es[0].1)
    } else {
        lookup_field(es.drop_first(), name)
    }
}

/// The texts of strings.
pub open spec fn string_views(v: Seq<String>) -> Seq<Seq<char>> {
    v.map_values(|s: String| s@)
}

/// The text of an optional string.
pub open spec fn opt_str_view(id: Option<&str>) -> Option<Seq<char>> {
    match id {
        Some(s) => Some(s@),
        None => None,
    }
}

/// Text equality.
pub fn str_eq(a: &str, b: &str) -> (r: bool)
    ensures
        r == (a@ == b@),
{
    let x = a.as_bytes();
    let y = b.as_bytes();
    proof {
        encode_utf8_decode_utf8(a@);
        encode_utf8_decode_utf8(b@);
        assert(x@ == encode_utf8(a@));
        assert(y@ == encode_utf8(b@));
    }
    if x.len() != y.len() {
        return false;
    }
    let mut i: usize = 0;
    while i < x.len()
        invariant
            i <= x@.len(),
            x@.len() == y@.len(),
            x@ == encode_utf8(a@),
            y@ == encode_utf8(b@),
            forall|j: int| 0 <= j < i ==> x@[j] == y@[j],
        decreases x@.len() - i,
    {
        if x[i] != y[i] {
            return false;
        }
        i = i + 1;
    }
    assert(x@ =~= y@);
    true
}

proof fn lemma_lookup_field_skip(es: Seq<(Seq<char>, ValueModel)>, name: Seq<char>, i: int)
    requires
        0 <= i < es.len(),
        forall|j: int| 0 <= j < i ==> #[trigger] es[j].0 != name,
    ensures
        lookup_field(es, name) == lookup_field(es.skip(i), name),
    decreases i,
{
    if i > 0 {
        assert(es[0].0 != name);
        assert(es.drop_first().skip(i - 1) =~= es.skip(i));
        lemma_lookup_field_skip(es.drop_first(), name, i - 1);
    } else {
        assert(es.skip(0) =~= es);
    }
}

/// The value of the first entry with the given key.
pub fn get_field<'a>(es: &'a Vec<(String, Value)>, name: &str) -> (r: Option<&'a Value>)
    ensures
        r matches Some(v) ==> lookup_field(entry_models_from(es@, 0), name@) == Some(v@),
        r is None ==> lookup_field(entry_models_from(es@, 0), name@) is None,
{
    let ghost ms = entry_models_from(es@, 0);
    proof {
        lemma_entry_models_from(es@, 0);
    }
    let mut i: usize = 0;
    while i < es.len()
        invariant
            i <= es@.len(),
            ms == entry_models_from(es@, 0),
            ms.len() == es@.len(),
            forall|j: int| 0 <= j < es@.len() ==> #[trigger] ms[j] == (es@[j].0@, es@[j].1@),
            forall|j: int| 0 <= j < i ==> #[trigger] ms[j].0 != name@,
        decreases es@.len() - i,
    {
        if str_eq(es[i].0.as_str(), name) {
            proof {
                assert(ms[i as int].0 == name@);
                lemma_lookup_field_skip(ms, name@, i as int);
            }
            return Some(&es[i].1);
        }
        assert(ms[i as int].0 != name@);
        i = i + 1;
    }
    proof {
        lemma_lookup_none(ms, name@);
    }
    None
}

proof fn lemma_lookup_none(es: Seq<(Seq<char>, ValueModel)>, name: Seq<char>)
    requires
        forall|j: int| 0 <= j < es.len() ==> #[trigger] es[j].0 != name,
    ensures
        lookup_field(es, name) is None,
    decreases es.len(),
{
    if es.len() > 0 {
        assert(es[0].0 != name);
        assert forall|j: int| 0 <= j < es.drop_first().len() implies #[trigger] es.drop_first()[j].0
            != name by {
            assert(es[j + 1].0 != name);
        }
        lemma_lookup_none(es.drop_first(), name);
    }
}

/// The segments of a path separated by `.` (there is always at least one).
pub open spec fn split_dots(s: Seq<char>) -> Seq<Seq<char>>
    decreases s.len(),
{
    if s.len() == 0 {
        seq![seq![]]
    } else {
        let p = split_dots(s.drop_last());
        if s.last() == '.' {
            p.push(seq![])
        } else {
            p.update(p.len() - 1, p.last().push(s.last()))
        }
    }
}

proof fn lemma_split_dots_len(s: Seq<char>)
    ensures
        split_dots(s).len() >= 1,
    decreases s.len(),
{
    if s.len() > 0 {
        lemma_split_dots_len(s.drop_last());
    }
}

/// Splits a path at each `.`.
pub fn split_path(path: &str) -> (r: Vec<String>)
    ensures
        r@.map_values(|x: String| x@) == split_dots(path@),
{
    let n = path.unicode_len();
    let mut segs: Vec<String> = Vec::new();
    let mut start: usize = 0;
    let mut i: usize = 0;
    assert(path@.subrange(0, 0) =~= Seq::<char>::empty());
    assert(path@.take(0) =~= Seq::<char>::empty());
    assert(segs@.map_values(|x: String| x@).push(path@.subrange(0, 0)) =~= split_dots(path@.take(0)));
    while i < n
        invariant
            start <= i <= n,
            n == path@.len(),
            segs@.map_values(|x: String| x@).push(path@.subrange(start as int, i as int))
                == split_dots(path@.take(i as int)),
        decreases n - i,
    {
        proof {
            lemma_split_dots_len(path@.take(i as int));
            assert(path@.take(i + 1).drop_last() =~= path@.take(i as int));
            assert(path@.take(i + 1).last() == path@[i as int]);
            assert(path@.subrange((i + 1) as int, (i + 1) as int) =~= Seq::<char>::empty());
        }
        if path.get_char(i) == '.' {
            let seg = path.substring_char(start, i).to_owned();
            segs.push(seg);
            start = i + 1;
            assert(segs@.map_values(|x: String| x@).push(path@.subrange(start as int, (i + 1) as int))
                =~= split_dots(path@.take(i + 1)));
        } else {
            assert(path@.subrange(start as int, (i + 1) as int) =~= path@.subrange(start as int, i as int).push(path@[i as int]));
            assert(segs@.map_values(|x: String| x@).push(path@.subrange(start as int, (i + 1) as int))
                =~= split_dots(path@.take(i + 1)));
        }
        i = i + 1;
    }
    let last = path.substring_char(start, n).to_owned();
    segs.push(last);
    assert(path@.take(n as int) =~= path@);
    assert(segs@.map_values(|x: String| x@) =~= split_dots(path@));
    segs
}

/// Descends into nested objects along the segments.
pub open spec fn resolve_in(v: ValueModel, segs: Seq<Seq<char>>) -> Option<ValueModel>
    decreases segs.len(),
{
    if segs.len() == 0 {
        Some(v)
    } else {
        match v {
            ValueModel::Object(es) => match lookup_field(es, segs[0]) {
                Some(x) => resolve_in(x, segs.drop_first()),
                None => None,
            },
            _ => None,
        }
    }
}

/// The value at a dotted path: the first segment names a field, each further
/// segment a key of the object reached so far.
pub open spec fn spec_resolve_path(fields: Seq<(Seq<char>, ValueModel)>, path: Seq<char>) -> Option<ValueModel> {
    let segs = split_dots(path);
    match lookup_field(fields, segs[0]) {
        Some(v) => resolve_in(v, segs.drop_first()),
        None => None,
    }
}

/// The value at a dotted path, by reference.
pub fn resolve_field_ref<'a>(fields: &'a Vec<(String, Value)>, path: &str) -> (r: Option<&'a Value>)
    ensures
        r matches Some(v) ==> spec_resolve_path(entry_models_from(fields@, 0), path@) == Some(v@),
        r is None ==> spec_resolve_path(entry_models_from(fields@, 0), path@) is None,
{
    let segs = split_path(path);
    let ghost sv = segs@.map_values(|x: String| x@);
    proof {
        lemma_split_dots_len(path@);
    }
    assert(sv == split_dots(path@));
    assert(sv[0] == segs@[0]@);
    let root = get_field(fields, segs[0].as_str());
    let mut current: &Value = match root {
        Some(v) => v,
        None => return None,
    };
    let ghost target = resolve_in(current@, sv.drop_first());
    assert(sv.skip(1) =~= sv.drop_first());
    let mut i: usize = 1;
    while i < segs.len()
        invariant
            1 <= i <= segs@.len(),
            sv == segs@.map_values(|x: String| x@),
            resolve_in(current@, sv.skip(i as int)) == target,
            target == spec_resolve_path(entry_models_from(fields@, 0), path@),
        decreases segs@.len() - i,
    {
        assert(sv.skip(i as int).drop_first() =~= sv.skip(i + 1));
        assert(sv.skip(i as int)[0] == segs@[i as int]@);
        match current {
            Value::Object(map) => {
                match get_field(map, segs[i].as_str()) {
                    Some(x) => {
                        current = x;
                    },
                    None => return None,
                }
            },
            _ => return None,
        }
        i = i + 1;
    }
    assert(sv.skip(segs@.len() as int) =~= Seq::<Seq<char>>::empty());
    assert(sv.skip(1) =~= sv.drop_first());
    Some(current)
}

} // verus!
