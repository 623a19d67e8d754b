//! Which secondary indexes exist on each collection.

use vstd::prelude::*;
use crate::document::{str_eq, string_views};
use crate::index_types::IndexType;

verus! {

/// Definition of a secondary index.
#[derive(Debug)]
pub struct IndexDef {
    pub collection: String,
    pub fields: Vec<String>,
    pub unique: bool,
    pub index_type: IndexType,
}

pub struct IndexDefModel {
    pub collection: Seq<char>,
    pub fields: Seq<Seq<char>>,
    pub unique: bool,
    pub index_type: IndexType,
}


impl View for IndexDef {
    type V = IndexDefModel;

    open spec fn view(&self) -> IndexDefModel {
        IndexDefModel {
            collection: self.collection@,
            fields: string_views(self.fields@),
            unique: self.unique,
            index_type: self.index_type,
        }
    }
}

fn clone_strings(v: &Vec<String>) -> (r: Vec<String>)
    ensures
        string_views(r@) == string_views(v@),
{
    let mut r: Vec<String> = Vec::new();
    let mut i: usize = 0;
    while i < v.len()
        invariant
            i <= v@.len(),
            r@.len() == i,
            string_views(r@) == string_views(v@.take(i as int)),
        decreases v@.len() - i,
    {
        let c = v[i].clone();
        assert(c@ == v@[i as int]@);
        r.push(c);
        assert forall|j: int| 0 <= j < i + 1 implies #[trigger] string_views(r@)[j] == string_views(v@.take(i + 1))[j] by {
            if j < i {
                assert(string_views(r@)[j] == r@[j]@);
                assert(string_views(v@.take(i as int))[j] == string_views(r@.take(i as int))[j]);
            }
        }
        assert(string_views(r@) =~= string_views(v@.take(i + 1)));
        i = i + 1;
    }
    assert(v@.take(v@.len() as int) =~= v@);
    r
}

impl IndexDef {
    /// A non-unique B-tree index.
    pub fn new(collection: &str, fields: Vec<String>) -> (r: Self)
        ensures
            r@ == (IndexDefModel {
                collection: collection@,
                fields: string_views(fields@),
                unique: false,
                index_type: IndexType::BTree,
            }),
    {
        IndexDef { collection: collection.to_owned(), fields, unique: false, index_type: IndexType::BTree }
    }

    /// A unique B-tree index.
    pub fn unique(collection: &str, fields: Vec<String>) -> (r: Self)
        ensures
            r@ == (IndexDefModel {
                collection: collection@,
                fields: string_views(fields@),
                unique: true,
                index_type: IndexType::BTree,
            }),
    {
        IndexDef { collection: collection.to_owned(), fields, unique: true, index_type: IndexType::BTree }
    }

    /// A full-text index.
    pub fn fulltext(collection: &str, fields: Vec<String>) -> (r: Self)
        ensures
            r@ == (IndexDefModel {
                collection: collection@,
                fields: string_views(fields@),
                unique: false,
                index_type: IndexType::FullText,
            }),
    {
        IndexDef { collection: collection.to_owned(), fields, unique: false, index_type: IndexType::FullText }
    }

    /// A copy of the definition.
    pub fn copy(&self) -> (r: Self)
        ensures
            r@ == self@,
    {
        IndexDef {
            collection: self.collection.clone(),
            fields: clone_strings(&self.fields),
            unique: self.unique,
            index_type: self.index_type,
        }
    }
}

pub type RegistryModel = Seq<(Seq<char>, Seq<IndexDefModel>)>;

/// The definitions registered for a collection (none when it has no entry).
pub open spec fn indexes_of(m: RegistryModel, collection: Seq<char>) -> Seq<IndexDefModel>
    decreases m.len(),
{
    if m.len() == 0 {
        seq![]
    } else if m[0].0 == collection {
        m[0].1
    } else {
        indexes_of(m.drop_first(), collection)
    }
}

/// First definition satisfying `p`.
pub open spec fn first_def(defs: Seq<IndexDefModel>, p: spec_fn(IndexDefModel) -> bool) -> Option<IndexDefModel>
    decreases defs.len(),
{
    if defs.len() == 0 {
        None
    } else if p(defs[0]) {
        Some(defs[0])
    } else {
        first_def(defs.drop_first(), p)
    }
}

/// Tracks the index definitions of each collection.
#[derive(Debug)]
pub struct IndexRegistry {
    indexes: Vec<(String, Vec<IndexDef>)>,
}

pub open spec fn def_views(v: Seq<IndexDef>) -> Seq<IndexDefModel> {
    v.map_values(|d: IndexDef| d@)
}

impl View for IndexRegistry {
    type V = RegistryModel;

    closed spec fn view(&self) -> RegistryModel {
        self.indexes@.map_values(|e: (String, Vec<IndexDef>)| (e.0@, def_views(e.1@)))
    }
}

proof fn lemma_indexes_of_at(m: RegistryModel, c: Seq<char>, i: int)
    requires
        0 <= i < m.len(),
        m[i].0 == c,
        forall|j: int| 0 <= j < i ==> #[trigger] m[j].0 != c,
    ensures
        indexes_of(m, c) == m[i].1,
    decreases i,
{
    if i > 0 {
        assert(m[0].0 != c);
        assert forall|j: int| 0 <= j < i - 1 implies #[trigger] m.drop_first()[j].0 != c by {
            assert(m[j + 1].0 != c);
        }
        lemma_indexes_of_at(m.drop_first(), c, i - 1);
    }
}

proof fn lemma_indexes_of_absent(m: RegistryModel, c: Seq<char>)
    requires
        forall|j: int| 0 <= j < m.len() ==> #[trigger] m[j].0 != c,
    ensures
        indexes_of(m, c) == Seq::<IndexDefModel>::empty(),
    decreases m.len(),
{
    if m.len() > 0 {
        assert(m[0].0 != c);
        assert forall|j: int| 0 <= j < m.len() - 1 implies #[trigger] m.drop_first()[j].0 != c by {
            assert(m[j + 1].0 != c);
        }
        lemma_indexes_of_absent(m.drop_first(), c);
    }
}

/// In a model whose names are distinct, a collection's definitions are
/// those of its entry.
proof fn lemma_indexes_of_distinct(m: RegistryModel, c: Seq<char>, i: int)
    requires
        0 <= i < m.len(),
        m[i].0 == c,
        forall|a: int, b: int| 0 <= a < b < m.len() ==> #[trigger] m[a].0 != #[trigger] m[b].0,
    ensures
        indexes_of(m, c) == m[i].1,
{
    assert forall|j: int| 0 <= j < i implies #[trigger] m[j].0 != c by {
        assert(m[j].0 != m[i].0);
    }
    lemma_indexes_of_at(m, c, i);
}

impl IndexRegistry {
    #[verifier::type_invariant]
    closed spec fn wf(self) -> bool {
        forall|a: int, b: int|
            0 <= a < b < self.indexes@.len() ==> #[trigger] self.indexes@[a].0@ != #[trigger] self.indexes@[b].0@
    }

    pub fn new() -> (r: Self)
        ensures
            r@ == RegistryModel::empty(),
    {
        let r = IndexRegistry { indexes: Vec::new() };
        assert(r@ =~= RegistryModel::empty());
        r
    }

    /// Position of the collection's entry.
    fn position(&self, collection: &str) -> (r: Option<usize>)
        ensures
            r matches Some(i) ==> i < self.indexes@.len() && self.indexes@[i as int].0@ == collection@
                && indexes_of(self@, collection@) == def_views(self.indexes@[i as int].1@),
            r is None ==> forall|j: int| 0 <= j < self.indexes@.len() ==> #[trigger] self.indexes@[j].0@ != collection@,
            r is None ==> indexes_of(self@, collection@) == Seq::<IndexDefModel>::empty(),
    {
        proof {
            use_type_invariant(self);
        }
        let mut i: usize = 0;
        while i < self.indexes.len()
            invariant
                i <= self.indexes@.len(),
                forall|j: int| 0 <= j < i ==> #[trigger] self.indexes@[j].0@ != collection@,
                forall|a: int, b: int|
                    0 <= a < b < self.indexes@.len() ==> #[trigger] self.indexes@[a].0@ != #[trigger] self.indexes@[b].0@,
            decreases self.indexes@.len() - i,
        {
            if str_eq(self.indexes[i].0.as_str(), collection) {
                proof {
                    let m = self@;
                    assert(m[i as int].0 == collection@);
                    assert forall|a: int, b: int| 0 <= a < b < m.len() implies #[trigger] m[a].0 != #[trigger] m[b].0 by {
                        assert(self.indexes@[a].0@ != self.indexes@[b].0@);
                    }
                    lemma_indexes_of_distinct(m, collection@, i as int);
                }
                return Some(i);
            }
            i = i + 1;
        }
        proof {
            let m = self@;
            assert forall|j: int| 0 <= j < m.len() implies #[trigger] m[j].0 != collection@ by {
                assert(self.indexes@[j].0@ != collection@);
            }
            lemma_indexes_of_absent(m, collection@);
        }
        None
    }
}


proof fn lemma_indexes_of_same(m1: RegistryModel, m2: RegistryModel, c: Seq<char>)
    requires
        m1.len() == m2.len(),
        forall|j: int| 0 <= j < m1.len() ==> #[trigger] m1[j].0 == m2[j].0,
        forall|j: int| 0 <= j < m1.len() && m1[j].0 == c ==> #[trigger] m1[j].1 == m2[j].1,
    ensures
        indexes_of(m1, c) == indexes_of(m2, c),
    decreases m1.len(),
{
    if m1.len() > 0 {
        assert(m1[0].0 == m2[0].0);
        let a = m1.drop_first();
        let b = m2.drop_first();
        assert forall|j: int| 0 <= j < a.len() implies #[trigger] a[j].0 == b[j].0 by {
            assert(m1[j + 1].0 == m2[j + 1].0);
        }
        assert forall|j: int| 0 <= j < a.len() && a[j].0 == c implies #[trigger] a[j].1 == b[j].1 by {
            assert(m1[j + 1].1 == m2[j + 1].1);
        }
        lemma_indexes_of_same(a, b, c);
    }
}

proof fn lemma_indexes_of_push(m: RegistryModel, e: (Seq<char>, Seq<IndexDefModel>), c: Seq<char>)
    requires
        e.0 != c || forall|j: int| 0 <= j < m.len() ==> #[trigger] m[j].0 != c,
    ensures
        e.0 != c ==> indexes_of(m.push(e), c) == indexes_of(m, c),
        e.0 == c ==> indexes_of(m.push(e), c) == e.1,
    decreases m.len(),
{
    if m.len() > 0 {
        assert(m.push(e).drop_first() =~= m.drop_first().push(e));
        assert(m.push(e)[0] == m[0]);
        if e.0 == c {
            assert(m[0].0 != c);
            assert forall|j: int| 0 <= j < m.drop_first().len() implies #[trigger] m.drop_first()[j].0 != c by {
                assert(m[j + 1].0 != c);
            }
        }
        lemma_indexes_of_push(m.drop_first(), e, c);
    } else {
        assert(m.push(e) =~= seq![e]);
        assert(seq![e].drop_first() =~= RegistryModel::empty());
        assert(indexes_of(seq![e].drop_first(), c) == Seq::<IndexDefModel>::empty());
    }
}

/// One step of the search for the first definition passing `p`.
proof fn lemma_first_def_skip(defs: Seq<IndexDefModel>, p: spec_fn(IndexDefModel) -> bool, k: int)
    requires
        0 <= k <= defs.len(),
    ensures
        k == defs.len() ==> first_def(defs.skip(k), p) is None,
        k < defs.len() && p(defs[k]) ==> first_def(defs.skip(k), p) == Some(defs[k]),
        k < defs.len() && !p(defs[k]) ==> first_def(defs.skip(k), p) == first_def(defs.skip(k + 1), p),
{
    if k < defs.len() {
        assert(defs.skip(k).drop_first() =~= defs.skip(k + 1));
        assert(defs.skip(k)[0] == defs[k]);
    } else {
        assert(defs.skip(k) =~= Seq::<IndexDefModel>::empty());
    }
}

proof fn lemma_indexes_of_remove(m: RegistryModel, i: int, c: Seq<char>)
    requires
        0 <= i < m.len(),
        m[i].0 != c,
    ensures
        indexes_of(m.remove(i), c) == indexes_of(m, c),
    decreases i,
{
    if i > 0 {
        assert(m.remove(i).drop_first() =~= m.drop_first().remove(i - 1));
        lemma_indexes_of_remove(m.drop_first(), i - 1, c);
    } else {
        assert(m.remove(0) =~= m.drop_first());
    }
}

/// Definitions whose fields differ from `fields`.
pub open spec fn without_fields(defs: Seq<IndexDefModel>, fields: Seq<Seq<char>>) -> Seq<IndexDefModel>
    decreases defs.len(),
{
    if defs.len() == 0 {
        seq![]
    } else {
        let rest = without_fields(defs.drop_last(), fields);
        if defs.last().fields == fields {
            rest
        } else {
            rest.push(defs.last())
        }
    }
}

pub open spec fn has_fields(defs: Seq<IndexDefModel>, fields: Seq<Seq<char>>) -> bool {
    exists|j: int| 0 <= j < defs.len() && #[trigger] defs[j].fields == fields
}

pub open spec fn is_for_field(d: IndexDefModel, field: Seq<char>) -> bool {
    d.fields.len() > 0 && d.fields[0] == field
}

pub open spec fn starts_with_fields(d: IndexDefModel, fields: Seq<Seq<char>>) -> bool {
    d.fields.len() >= fields.len() && forall|i: int| 0 <= i < fields.len() ==> #[trigger] d.fields[i] == fields[i]
}

pub open spec fn covers_field(d: IndexDefModel, t: IndexType, field: Seq<char>) -> bool {
    d.index_type == t && d.fields.contains(field)
}

/// Number of definitions of the given type.
pub open spec fn count_of_type(defs: Seq<IndexDefModel>, t: IndexType) -> nat
    decreases defs.len(),
{
    if defs.len() == 0 {
        0
    } else {
        count_of_type(defs.drop_last(), t) + if defs.last().index_type == t {
            1nat
        } else {
            0nat
        }
    }
}

pub open spec fn model_count_of_type(m: RegistryModel, t: IndexType) -> nat
    decreases m.len(),
{
    if m.len() == 0 {
        0
    } else {
        model_count_of_type(m.drop_last(), t) + count_of_type(m.last().1, t)
    }
}

pub open spec fn model_total(m: RegistryModel) -> nat
    decreases m.len(),
{
    if m.len() == 0 {
        0
    } else {
        model_total(m.drop_last()) + m.last().1.len()
    }
}

fn strings_eq(a: &Vec<String>, b: &[String]) -> (r: bool)
    ensures
        r == (string_views(a@) == string_views(b@)),
{
    if a.len() != b.len() {
        assert(string_views(a@).len() != string_views(b@).len());
        return false;
    }
    let mut i: usize = 0;
    while i < a.len()
        invariant
            i <= a@.len(),
            a@.len() == b@.len(),
            forall|j: int| 0 <= j < i ==> #[trigger] a@[j]@ == b@[j]@,
        decreases a@.len() - i,
    {
        if !str_eq(a[i].as_str(), b[i].as_str()) {
            assert(string_views(a@)[i as int] != string_views(b@)[i as int]);
            return false;
        }
        i = i + 1;
    }
    assert(string_views(a@) =~= string_views(b@));
    true
}

fn copy_defs(v: &Vec<IndexDef>) -> (r: Vec<IndexDef>)
    ensures
        def_views(r@) == def_views(v@),
{
    let mut r: Vec<IndexDef> = Vec::new();
    let mut i: usize = 0;
    while i < v.len()
        invariant
            i <= v@.len(),
            r@.len() == i,
            forall|j: int| 0 <= j < i ==> #[trigger] r@[j]@ == v@[j]@,
        decreases v@.len() - i,
    {
        r.push(v[i].copy());
        i = i + 1;
    }
    assert(def_views(r@) =~= def_views(v@));
    r
}

impl IndexRegistry {
    /// Adds an index definition to a collection.
    pub fn register(&mut self, collection: &str, index: IndexDef)
        ensures
            indexes_of(final(self)@, collection@) == indexes_of(old(self)@, collection@).push(index@),
            forall|c: Seq<char>| c != collection@ ==> #[trigger] indexes_of(final(self)@, c) == indexes_of(old(self)@, c),
            model_total(final(self)@) == model_total(old(self)@) + 1,
    {
        proof {
            use_type_invariant(&*self);
        }
        let ghost m1 = self@;
        let pos = self.position(collection);
        let mut items: Vec<(String, Vec<IndexDef>)> = Vec::new();
        std::mem::swap(&mut items, &mut self.indexes);
        let ghost before = items@;
        assert(m1 == before.map_values(|e: (String, Vec<IndexDef>)| (e.0@, def_views(e.1@))));
        match pos {
            Some(i) => {
                let mut entry = items.remove(i);
                entry.1.push(index);
                let ghost new_entry = (entry.0@, def_views(entry.1@));
                items.insert(i, entry);
                proof {
                    assert(items@ =~= before.update(i as int, items@[i as int]));
                    assert forall|a: int, b: int| 0 <= a < b < items@.len() implies #[trigger] items@[a].0@ != #[trigger] items@[b].0@ by {
                        assert(items@[a].0@ == before[a].0@);
                        assert(items@[b].0@ == before[b].0@);
                    }
                }
                self.indexes = items;
                proof {
                    let m2 = self@;
                    assert(m2 =~= m1.update(i as int, new_entry));
                    assert(def_views(entry.1@) =~= def_views(before[i as int].1@).push(index@));
                    assert forall|a: int, b: int| 0 <= a < b < m2.len() implies #[trigger] m2[a].0 != #[trigger] m2[b].0 by {
                        assert(self.indexes@[a].0@ != self.indexes@[b].0@);
                    }
                    lemma_indexes_of_distinct(m2, collection@, i as int);
                    assert forall|c: Seq<char>| c != collection@ implies #[trigger] indexes_of(m2, c) == indexes_of(m1, c) by {
                        lemma_indexes_of_same(m1, m2, c);
                    }
                    lemma_model_total_update(m1, i as int, new_entry);
                }
            },
            None => {
                let mut defs: Vec<IndexDef> = Vec::new();
                defs.push(index);
                items.push((collection.to_owned(), defs));
                proof {
                    assert forall|a: int, b: int| 0 <= a < b < items@.len() implies #[trigger] items@[a].0@ != #[trigger] items@[b].0@ by {
                        if b == items@.len() - 1 {
                            assert(before[a].0@ != collection@);
                        } else {
                            assert(items@[a] == before[a]);
                            assert(items@[b] == before[b]);
                        }
                    }
                }
                self.indexes = items;
                proof {
                    let e = (collection@, seq![index@]);
                    assert(def_views(defs@) =~= seq![index@]);
                    assert(self@ =~= m1.push(e));
                    assert forall|c: Seq<char>| c != collection@ implies #[trigger] indexes_of(self@, c) == indexes_of(m1, c) by {
                        lemma_indexes_of_push(m1, e, c);
                    }
                    lemma_indexes_of_push(m1, e, collection@);
                    assert(indexes_of(m1, collection@) =~= Seq::<IndexDefModel>::empty());
                    assert(m1.push(e).drop_last() =~= m1);
                }
            },
        }
    }

    /// Copies of the definitions registered for a collection.
    pub fn get_indexes(&self, collection: &str) -> (r: Vec<IndexDef>)
        ensures
            def_views(r@) == indexes_of(self@, collection@),
    {
        match self.position(collection) {
            Some(i) => copy_defs(&self.indexes[i].1),
            None => {
                let r: Vec<IndexDef> = Vec::new();
                assert(def_views(r@) =~= Seq::<IndexDefModel>::empty());
                r
            },
        }
    }

    /// Copies of the unique definitions registered for a collection.
    pub fn get_unique_indexes(&self, collection: &str) -> (r: Vec<IndexDef>)
        ensures
            def_views(r@) == indexes_of(self@, collection@).filter(|d: IndexDefModel| d.unique),
    {
        let all = self.get_indexes(collection);
        let ghost av = def_views(all@);
        let mut r: Vec<IndexDef> = Vec::new();
        let mut i: usize = 0;
        while i < all.len()
            invariant
                i <= all@.len(),
                av == def_views(all@),
                def_views(r@) == av.take(i as int).filter(|d: IndexDefModel| d.unique),
            decreases all@.len() - i,
        {
            proof {
                assert(av.take(i + 1).drop_last() =~= av.take(i as int));
                reveal(Seq::filter);
            }
            if all[i].unique {
                r.push(all[i].copy());
                assert(def_views(r@) =~= av.take(i + 1).filter(|d: IndexDefModel| d.unique));
            } else {
                assert(def_views(r@) =~= av.take(i + 1).filter(|d: IndexDefModel| d.unique));
            }
            i = i + 1;
        }
        assert(av.take(all@.len() as int) =~= av);
        r
    }

    /// Whether the collection has an index over exactly these fields.
    pub fn has_index(&self, collection: &str, fields: &[String]) -> (r: bool)
        ensures
            r == has_fields(indexes_of(self@, collection@), string_views(fields@)),
    {
        match self.position(collection) {
            Some(i) => {
                let defs = &self.indexes[i].1;
                let ghost dv = def_views(defs@);
                assert(indexes_of(self@, collection@) == dv);
                let mut k: usize = 0;
                while k < defs.len()
                    invariant
                        k <= defs@.len(),
                        dv == def_views(defs@),
                        indexes_of(self@, collection@) == dv,
                        forall|j: int| 0 <= j < k ==> #[trigger] dv[j].fields != string_views(fields@),
                    decreases defs@.len() - k,
                {
                    if strings_eq(&defs[k].fields, fields) {
                        assert(dv[k as int].fields == string_views(fields@));
                        return true;
                    }
                    k = k + 1;
                }
                assert(indexes_of(self@, collection@) == dv);
                false
            },
            None => false,
        }
    }

    /// The first definition of the collection that passes test `kind`.
    fn find_first(&self, collection: &str, kind: u8, field: &str, fields: &[&str]) -> (r: Option<IndexDef>)
        requires
            kind <= 4,
        ensures
            def_opt_view(r) == first_def(indexes_of(self@, collection@), find_test(kind, field@, str_views(fields@))),
    {
        let ghost p = find_test(kind, field@, str_views(fields@));
        match self.position(collection) {
            Some(i) => {
                let defs = &self.indexes[i].1;
                let ghost dv = def_views(defs@);
                assert(indexes_of(self@, collection@) == dv);
                assert(dv.skip(0) =~= dv);
                let mut k: usize = 0;
                while k < defs.len()
                    invariant
                        k <= defs@.len(),
                        kind <= 4,
                        dv == def_views(defs@),
                        indexes_of(self@, collection@) == dv,
                        p == find_test(kind, field@, str_views(fields@)),
                        first_def(dv, p) == first_def(dv.skip(k as int), p),
                    decreases defs@.len() - k,
                {
                    proof {
                        lemma_first_def_skip(dv, p, k as int);
                    }
                    assert(dv[k as int] == defs@[k as int]@);
                    if matches_pred(&defs[k], kind, field, fields) {
                        return Some(defs[k].copy());
                    }
                    k = k + 1;
                }
                proof {
                    lemma_first_def_skip(dv, p, k as int);
                }
                None
            },
            None => None,
        }
    }

    /// The first index whose leading field is `field`.
    pub fn find_index_for_field(&self, collection: &str, field: &str) -> (r: Option<IndexDef>)
        ensures
            def_opt_view(r) == first_def(indexes_of(self@, collection@), |x: IndexDefModel| is_for_field(x, field@)),
    {
        let none: Vec<&str> = Vec::new();
        let r = self.find_first(collection, 0, field, none.as_slice());
        proof {
            assert(find_test(0, field@, str_views(none@)) =~= (|x: IndexDefModel| is_for_field(x, field@)));
        }
        r
    }

    /// The first index whose fields start with `fields`, in order; `None`
    /// for no fields.
    pub fn find_compound_index(&self, collection: &str, fields: &[&str]) -> (r: Option<IndexDef>)
        ensures
            fields@.len() == 0 ==> r is None,
            fields@.len() > 0 ==> def_opt_view(r) == first_def(indexes_of(self@, collection@), |x: IndexDefModel| starts_with_fields(x, str_views(fields@))),
    {
        if fields.len() == 0 {
            return None;
        }
        let r = self.find_first(collection, 1, "", fields);
        proof {
            assert(find_test(1, ""@, str_views(fields@)) =~= (|x: IndexDefModel| starts_with_fields(x, str_views(fields@))));
        }
        r
    }

    /// The first full-text index covering `field`.
    pub fn find_fts_index_for_field(&self, collection: &str, field: &str) -> (r: Option<IndexDef>)
        ensures
            def_opt_view(r) == first_def(indexes_of(self@, collection@), |x: IndexDefModel| covers_field(x, IndexType::FullText, field@)),
    {
        let none: Vec<&str> = Vec::new();
        let r = self.find_first(collection, 2, field, none.as_slice());
        proof {
            assert(find_test(2, field@, str_views(none@)) =~= (|x: IndexDefModel| covers_field(x, IndexType::FullText, field@)));
        }
        r
    }

    /// The first vector index covering `field`.
    pub fn find_hnsw_index_for_field(&self, collection: &str, field: &str) -> (r: Option<IndexDef>)
        ensures
            def_opt_view(r) == first_def(indexes_of(self@, collection@), |x: IndexDefModel| covers_field(x, IndexType::Hnsw, field@)),
    {
        let none: Vec<&str> = Vec::new();
        let r = self.find_first(collection, 3, field, none.as_slice());
        proof {
            assert(find_test(3, field@, str_views(none@)) =~= (|x: IndexDefModel| covers_field(x, IndexType::Hnsw, field@)));
        }
        r
    }

    /// The first full-text index of the collection.
    pub fn find_fts_index(&self, collection: &str) -> (r: Option<IndexDef>)
        ensures
            def_opt_view(r) == first_def(indexes_of(self@, collection@), |x: IndexDefModel| x.index_type == IndexType::FullText),
    {
        let none: Vec<&str> = Vec::new();
        let r = self.find_first(collection, 4, "", none.as_slice());
        proof {
            assert(find_test(4, ""@, str_views(none@)) =~= (|x: IndexDefModel| x.index_type == IndexType::FullText));
        }
        r
    }
}

/// The tests behind the lookups: leading field (0), field prefix (1),
/// full-text index covering a field (2), vector index covering a field (3),
/// any full-text index (4).
pub open spec fn find_pred(kind: u8, field: Seq<char>, fields: Seq<Seq<char>>, d: IndexDefModel) -> bool {
    if kind == 0 {
        is_for_field(d, field)
    } else if kind == 1 {
        starts_with_fields(d, fields)
    } else if kind == 2 {
        covers_field(d, IndexType::FullText, field)
    } else if kind == 3 {
        covers_field(d, IndexType::Hnsw, field)
    } else {
        d.index_type == IndexType::FullText
    }
}

/// A found definition, taken by its view.
pub open spec fn def_opt_view(o: Option<IndexDef>) -> Option<IndexDefModel> {
    match o {
        Some(d) => Some(d@),
        None => None,
    }
}

pub open spec fn find_test(kind: u8, field: Seq<char>, fields: Seq<Seq<char>>) -> spec_fn(IndexDefModel) -> bool {
    |d: IndexDefModel| find_pred(kind, field, fields, d)
}

pub open spec fn str_views(v: Seq<&str>) -> Seq<Seq<char>> {
    v.map_values(|s: &str| s@)
}

fn contains_str(v: &Vec<String>, s: &str) -> (r: bool)
    ensures
        r == string_views(v@).contains(s@),
{
    let mut i: usize = 0;
    while i < v.len()
        invariant
            i <= v@.len(),
            forall|j: int| 0 <= j < i ==> #[trigger] v@[j]@ != s@,
        decreases v@.len() - i,
    {
        if str_eq(v[i].as_str(), s) {
            assert(string_views(v@)[i as int] == s@);
            return true;
        }
        i = i + 1;
    }
    assert forall|j: int| 0 <= j < string_views(v@).len() implies string_views(v@)[j] != s@ by {
        assert(v@[j]@ != s@);
    }
    false
}

fn matches_pred(d: &IndexDef, kind: u8, field: &str, fields: &[&str]) -> (r: bool)
    requires
        kind <= 4,
    ensures
        r == find_pred(kind, field@, str_views(fields@), d@),
{
    if kind == 0 {
        d.fields.len() > 0 && str_eq(d.fields[0].as_str(), field)
    } else if kind == 1 {
        if d.fields.len() < fields.len() {
            assert(string_views(d.fields@).len() < str_views(fields@).len());
            return false;
        }
        let mut i: usize = 0;
        while i < fields.len()
            invariant
                kind == 1,
                i <= fields@.len(),
                fields@.len() <= d.fields@.len(),
                forall|j: int| 0 <= j < i ==> #[trigger] d.fields@[j]@ == fields@[j]@,
            decreases fields@.len() - i,
        {
            if !str_eq(d.fields[i].as_str(), fields[i]) {
                assert(string_views(d.fields@)[i as int] != str_views(fields@)[i as int]);
                return false;
            }
            i = i + 1;
        }
        assert forall|j: int| 0 <= j < fields@.len() implies #[trigger] string_views(d.fields@)[j] == str_views(fields@)[j] by {
            assert(d.fields@[j]@ == fields@[j]@);
        }
        true
    } else if kind == 2 {
        d.index_type == IndexType::FullText && contains_str(&d.fields, field)
    } else if kind == 3 {
        d.index_type == IndexType::Hnsw && contains_str(&d.fields, field)
    } else {
        d.index_type == IndexType::FullText
    }
}

proof fn lemma_model_total_update(m: RegistryModel, i: int, e: (Seq<char>, Seq<IndexDefModel>))
    requires
        0 <= i < m.len(),
        e.1.len() == m[i].1.len() + 1,
    ensures
        model_total(m.update(i, e)) == model_total(m) + 1,
    decreases m.len(),
{
    if i < m.len() - 1 {
        assert(m.update(i, e).drop_last() =~= m.drop_last().update(i, e));
        lemma_model_total_update(m.drop_last(), i, e);
    } else {
        assert(m.update(i, e).drop_last() =~= m.drop_last());
    }
}

proof fn lemma_names_distinct_view(items: Seq<(String, Vec<IndexDef>)>, m: RegistryModel)
    requires
        m == items.map_values(|e: (String, Vec<IndexDef>)| (e.0@, def_views(e.1@))),
        forall|a: int, b: int| 0 <= a < b < items.len() ==> #[trigger] items[a].0@ != #[trigger] items[b].0@,
    ensures
        forall|a: int, b: int| 0 <= a < b < m.len() ==> #[trigger] m[a].0 != #[trigger] m[b].0,
{
    assert forall|a: int, b: int| 0 <= a < b < m.len() implies #[trigger] m[a].0 != #[trigger] m[b].0 by {
        assert(items[a].0@ != items[b].0@);
    }
}

/// Replacing the entry at `i` by one of the same name changes that name's
/// definitions only.
proof fn lemma_replace_entry(m1: RegistryModel, m2: RegistryModel, i: int, c: Seq<char>)
    requires
        0 <= i < m1.len(),
        m1[i].0 == c,
        m2 == m1.update(i, (c, m2[i].1)),
        forall|a: int, b: int| 0 <= a < b < m2.len() ==> #[trigger] m2[a].0 != #[trigger] m2[b].0,
    ensures
        indexes_of(m2, c) == m2[i].1,
        forall|x: Seq<char>| x != c ==> #[trigger] indexes_of(m2, x) == indexes_of(m1, x),
{
    lemma_indexes_of_distinct(m2, c, i);
    assert forall|x: Seq<char>| x != c implies #[trigger] indexes_of(m2, x) == indexes_of(m1, x) by {
        lemma_indexes_of_same(m1, m2, x);
    }
}

impl IndexRegistry {
    /// Sets the definitions of the collection at position `i` to `defs`.
    fn replace_defs(&mut self, i: usize, defs: Vec<IndexDef>)
        requires
            i < old(self).indexes@.len(),
        ensures
            final(self)@ == old(self)@.update(i as int, (old(self)@[i as int].0, def_views(defs@))),
    {
        proof {
            use_type_invariant(&*self);
        }
        let ghost m1 = self@;
        let mut items: Vec<(String, Vec<IndexDef>)> = Vec::new();
        std::mem::swap(&mut items, &mut self.indexes);
        let ghost before = items@;
        let mut entry = items.remove(i);
        entry.1 = defs;
        items.insert(i, entry);
        proof {
            assert(items@ =~= before.update(i as int, items@[i as int]));
            assert forall|a: int, b: int| 0 <= a < b < items@.len() implies #[trigger] items@[a].0@ != #[trigger] items@[b].0@ by {
                assert(items@[a].0@ == before[a].0@);
                assert(items@[b].0@ == before[b].0@);
            }
        }
        self.indexes = items;
        assert(self@ =~= m1.update(i as int, (m1[i as int].0, def_views(defs@))));
    }

    /// Removes the collection's indexes over exactly `fields`; true when
    /// there was one.
    pub fn remove(&mut self, collection: &str, fields: &[String]) -> (r: bool)
        ensures
            r == has_fields(indexes_of(old(self)@, collection@), string_views(fields@)),
            indexes_of(final(self)@, collection@) == without_fields(indexes_of(old(self)@, collection@), string_views(fields@)),
            forall|c: Seq<char>| c != collection@ ==> #[trigger] indexes_of(final(self)@, c) == indexes_of(old(self)@, c),
    {
        proof {
            use_type_invariant(&*self);
        }
        let ghost m1 = self@;
        let ghost fv = string_views(fields@);
        match self.position(collection) {
            Some(i) => {
                let ghost dv = def_views(self.indexes@[i as int].1@);
                let mut kept: Vec<IndexDef> = Vec::new();
                let mut found = false;
                let mut k: usize = 0;
                let n = self.indexes[i].1.len();
                while k < n
                    invariant
                        i < self.indexes@.len(),
                        n == self.indexes@[i as int].1@.len(),
                        dv == def_views(self.indexes@[i as int].1@),
                        fv == string_views(fields@),
                        k <= n,
                        def_views(kept@) == without_fields(dv.take(k as int), fv),
                        found == has_fields(dv.take(k as int), fv),
                    decreases n - k,
                {
                    let d = &self.indexes[i].1[k];
                    let same = strings_eq(&d.fields, fields);
                    proof {
                        let t = dv.take(k + 1);
                        assert(t.drop_last() =~= dv.take(k as int));
                        assert(t.last() == d@);
                        if has_fields(dv.take(k as int), fv) {
                            let j = choose|j: int| 0 <= j < dv.take(k as int).len() && #[trigger] dv.take(k as int)[j].fields == fv;
                            assert(t[j] == dv.take(k as int)[j]);
                        }
                        if same {
                            assert(t[k as int].fields == fv);
                        }
                        if has_fields(t, fv) && !same {
                            let j = choose|j: int| 0 <= j < t.len() && #[trigger] t[j].fields == fv;
                            assert(j != k);
                            assert(dv.take(k as int)[j] == t[j]);
                        }
                    }
                    if !same {
                        kept.push(d.copy());
                    }
                    found = found || same;
                    k = k + 1;
                }
                proof {
                    assert(dv.take(n as int) =~= dv);
                }
                self.replace_defs(i, kept);
                proof {
                    let m2 = self@;
                    assert(m2[i as int].0 == collection@);
                    use_type_invariant(&*self);
                    lemma_names_distinct_view(self.indexes@, m2);
                    lemma_replace_entry(m1, m2, i as int, collection@);
                }
                found
            },
            None => {
                assert(without_fields(Seq::<IndexDefModel>::empty(), fv) =~= Seq::<IndexDefModel>::empty());
                false
            },
        }
    }

    /// Removes every index of the collection.
    pub fn remove_collection(&mut self, collection: &str)
        ensures
            indexes_of(final(self)@, collection@) == Seq::<IndexDefModel>::empty(),
            forall|c: Seq<char>| c != collection@ ==> #[trigger] indexes_of(final(self)@, c) == indexes_of(old(self)@, c),
    {
        proof {
            use_type_invariant(&*self);
        }
        let ghost m1 = self@;
        if let Some(i) = self.position(collection) {
            let mut items: Vec<(String, Vec<IndexDef>)> = Vec::new();
            std::mem::swap(&mut items, &mut self.indexes);
            let ghost before = items@;
            let _gone = items.remove(i);
            proof {
                assert(items@ =~= before.remove(i as int));
                assert forall|a: int, b: int| 0 <= a < b < items@.len() implies #[trigger] items@[a].0@ != #[trigger] items@[b].0@ by {
                    let a2 = if a < i { a } else { a + 1 };
                    let b2 = if b < i { b } else { b + 1 };
                    assert(items@[a] == before[a2]);
                    assert(items@[b] == before[b2]);
                }
            }
            self.indexes = items;
            proof {
                let m2 = self@;
                assert(m2 =~= m1.remove(i as int));
                assert forall|c: Seq<char>| c != collection@ implies #[trigger] indexes_of(m2, c) == indexes_of(m1, c) by {
                    lemma_indexes_of_remove(m1, i as int, c);
                }
                assert forall|j: int| 0 <= j < m2.len() implies #[trigger] m2[j].0 != collection@ by {
                    let j2 = if j < i { j } else { j + 1 };
                    assert(m2[j] == m1[j2]);
                    assert(self.indexes@[j].0@ != before[i as int].0@);
                }
                lemma_indexes_of_absent(m2, collection@);
            }
        }
    }

    /// Sets the collection's definitions to `defs`, replacing any it had.
    pub fn load(&mut self, collection: &str, defs: Vec<IndexDef>)
        ensures
            indexes_of(final(self)@, collection@) == def_views(defs@),
            forall|c: Seq<char>| c != collection@ ==> #[trigger] indexes_of(final(self)@, c) == indexes_of(old(self)@, c),
    {
        proof {
            use_type_invariant(&*self);
        }
        let ghost m1 = self@;
        let ghost dv = def_views(defs@);
        match self.position(collection) {
            Some(i) => {
                self.replace_defs(i, defs);
                proof {
                    let m2 = self@;
                    use_type_invariant(&*self);
                    lemma_names_distinct_view(self.indexes@, m2);
                    lemma_replace_entry(m1, m2, i as int, collection@);
                }
            },
            None => {
                let mut items: Vec<(String, Vec<IndexDef>)> = Vec::new();
                std::mem::swap(&mut items, &mut self.indexes);
                let ghost before = items@;
                items.push((collection.to_owned(), defs));
                proof {
                    assert forall|a: int, b: int| 0 <= a < b < items@.len() implies #[trigger] items@[a].0@ != #[trigger] items@[b].0@ by {
                        if b == items@.len() - 1 {
                            assert(before[a].0@ != collection@);
                        } else {
                            assert(items@[a] == before[a]);
                            assert(items@[b] == before[b]);
                        }
                    }
                }
                self.indexes = items;
                proof {
                    let e = (collection@, dv);
                    assert(self@ =~= m1.push(e));
                    assert forall|c: Seq<char>| c != collection@ implies #[trigger] indexes_of(self@, c) == indexes_of(m1, c) by {
                        lemma_indexes_of_push(m1, e, c);
                    }
                    lemma_indexes_of_push(m1, e, collection@);
                }
            },
        }
    }
}

proof fn lemma_count_types(defs: Seq<IndexDefModel>)
    ensures
        count_of_type(defs, IndexType::BTree) + count_of_type(defs, IndexType::Hnsw)
            + count_of_type(defs, IndexType::FullText) == defs.len(),
    decreases defs.len(),
{
    if defs.len() > 0 {
        lemma_count_types(defs.drop_last());
    }
}

proof fn lemma_model_count_types(m: RegistryModel)
    ensures
        model_count_of_type(m, IndexType::BTree) + model_count_of_type(m, IndexType::Hnsw)
            + model_count_of_type(m, IndexType::FullText) == model_total(m),
    decreases m.len(),
{
    if m.len() > 0 {
        lemma_model_count_types(m.drop_last());
        lemma_count_types(m.last().1);
    }
}

proof fn lemma_model_total_take(m: RegistryModel, i: int)
    requires
        0 <= i <= m.len(),
    ensures
        model_total(m.take(i)) <= model_total(m),
    decreases m.len() - i,
{
    if i < m.len() {
        lemma_model_total_take(m, i + 1);
        assert(m.take(i + 1).drop_last() =~= m.take(i));
    } else {
        assert(m.take(i) =~= m);
    }
}

impl IndexRegistry {
    /// Numbers of B-tree, vector and full-text indexes over all collections.
    pub fn count_by_type(&self) -> (r: (usize, usize, usize))
        requires
            model_total(self@) <= usize::MAX,
        ensures
            r.0 == model_count_of_type(self@, IndexType::BTree),
            r.1 == model_count_of_type(self@, IndexType::Hnsw),
            r.2 == model_count_of_type(self@, IndexType::FullText),
    {
        let ghost m = self@;
        let mut btree: usize = 0;
        let mut vector: usize = 0;
        let mut fts: usize = 0;
        let mut i: usize = 0;
        while i < self.indexes.len()
            invariant
                m == self@,
                i <= m.len(),
                m.len() == self.indexes@.len(),
                model_total(m) <= usize::MAX,
                btree == model_count_of_type(m.take(i as int), IndexType::BTree),
                vector == model_count_of_type(m.take(i as int), IndexType::Hnsw),
                fts == model_count_of_type(m.take(i as int), IndexType::FullText),
            decreases m.len() - i,
        {
            let defs = &self.indexes[i].1;
            let ghost dv = def_views(defs@);
            assert(m[i as int].1 == dv);
            proof {
                lemma_model_count_types(m.take(i as int));
                lemma_model_total_take(m, i + 1);
                assert(m.take(i + 1).drop_last() =~= m.take(i as int));
                assert(dv.take(0) =~= Seq::<IndexDefModel>::empty());
            }
            let mut k: usize = 0;
            while k < defs.len()
                invariant
                    dv == def_views(defs@),
                    k <= dv.len(),
                    model_total(m.take(i as int)) + dv.len() <= usize::MAX,
                    btree == model_count_of_type(m.take(i as int), IndexType::BTree) + count_of_type(dv.take(k as int), IndexType::BTree),
                    vector == model_count_of_type(m.take(i as int), IndexType::Hnsw) + count_of_type(dv.take(k as int), IndexType::Hnsw),
                    fts == model_count_of_type(m.take(i as int), IndexType::FullText) + count_of_type(dv.take(k as int), IndexType::FullText),
                    model_count_of_type(m.take(i as int), IndexType::BTree) + model_count_of_type(m.take(i as int), IndexType::Hnsw)
                        + model_count_of_type(m.take(i as int), IndexType::FullText) == model_total(m.take(i as int)),
                decreases dv.len() - k,
            {
                proof {
                    assert(dv.take(k + 1).drop_last() =~= dv.take(k as int));
                    lemma_count_types(dv.take(k as int));
                }
                match defs[k].index_type {
                    IndexType::BTree => btree = btree + 1,
                    IndexType::Hnsw => vector = vector + 1,
                    IndexType::FullText => fts = fts + 1,
                }
                k = k + 1;
            }
            assert(dv.take(k as int) =~= dv);
            i = i + 1;
        }
        assert(m.take(i as int) =~= m);
        (btree, vector, fts)
    }
}

} // verus!

verus! {

/// Law: after the indexes over some fields are removed, none over those
/// fields is left, and every index over other fields stays, in order.
pub proof fn law_remove_takes_only_those_fields(defs: Seq<IndexDefModel>, fields: Seq<Seq<char>>)
    ensures
        !has_fields(without_fields(defs, fields), fields),
        without_fields(defs, fields) == defs.filter(|d: IndexDefModel| d.fields != fields),
    decreases defs.len(),
{
    reveal(Seq::filter);
    if defs.len() > 0 {
        law_remove_takes_only_those_fields(defs.drop_last(), fields);
        let rest = without_fields(defs.drop_last(), fields);
        if defs.last().fields != fields {
            assert forall|j: int| 0 <= j < rest.push(defs.last()).len() implies #[trigger] rest.push(defs.last())[j].fields != fields by {
                if j < rest.len() {
                    assert(rest.push(defs.last())[j] == rest[j]);
                }
            }
        }
    }
}

/// Law: an index just registered is found by its fields.
pub proof fn law_registered_index_is_found(defs: Seq<IndexDefModel>, index: IndexDefModel)
    ensures
        has_fields(defs.push(index), index.fields),
{
    assert(defs.push(index)[defs.len() as int] == index);
}

} // verus!
