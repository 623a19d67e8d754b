//! The ids of a vector index: each stored vector has an internal id, paired
//! one to one with the id of its document; new internal ids are handed out
//! in turn, and vectors must have the index's dimension. The pairs and the
//! next id are kept in the index's metadata file.

use vstd::prelude::*;
use crate::config::StorageError;
use crate::external::{
    id_map_entries, id_map_get_by_left, id_map_get_by_right, id_map_insert, id_map_new, id_map_remove_by_right,
    id_pairs, injective_pairs, no_pairs, without_right, IdBiMap,
};
use crate::stats::{decimal_text, push_decimal};
use crate::vector_meta::{
    encode_vector_meta, entry_views, line_safe_id, parse_vector_meta, spec_encode_meta, spec_parse_meta, meta_error_message,
    law_vector_meta_roundtrip,
};
use crate::encoding::utf8;

verus! {

/// The ids of a vector index: the pairs (internal id to document id), the
/// next internal id, and the dimension.
pub struct VectorIdsModel {
    pub pairs: Map<u64, Seq<char>>,
    pub next_id: u64,
    pub dimension: usize,
}

/// The pairs after inserting each entry in turn, each insertion replacing
/// the pairs that share its internal id or its document id.
pub open spec fn insert_all(m: Map<u64, Seq<char>>, entries: Seq<(u64, Seq<char>)>) -> Map<u64, Seq<char>>
    decreases entries.len(),
{
    if entries.len() == 0 {
        m
    } else {
        let e = entries.last();
        without_right(insert_all(m, entries.drop_last()).remove(e.0), e.1).insert(e.0, e.1)
    }
}

/// The message of a vector whose length is not the dimension.
pub open spec fn dimension_message(prefix: Seq<char>, dimension: usize, len: usize) -> Seq<char> {
    prefix + "expected "@ + decimal_text(dimension as nat) + ", got "@ + decimal_text(len as nat)
}

fn dimension_error(prefix: &str, dimension: usize, len: usize) -> (r: StorageError)
    ensures
        r matches StorageError::InvalidOperation(m) && m@ == dimension_message(prefix@, dimension, len),
{
    let mut m = String::from_str(prefix);
    m.append("expected ");
    push_decimal(&mut m, dimension as u128);
    m.append(", got ");
    push_decimal(&mut m, len as u128);
    StorageError::InvalidOperation(m)
}

/// The ids of a vector index.
pub struct VectorIds {
    map: IdBiMap,
    next_id: u64,
    dimension: usize,
}

impl View for VectorIds {
    type V = VectorIdsModel;

    closed spec fn view(&self) -> VectorIdsModel {
        VectorIdsModel { pairs: id_pairs(self.map), next_id: self.next_id, dimension: self.dimension }
    }
}

impl VectorIds {
    /// No two internal ids are paired with the same document.
    pub closed spec fn wf(&self) -> bool {
        injective_pairs(id_pairs(self.map))
    }

    /// The ids of a new, empty index of the given dimension.
    pub fn new(dimension: usize) -> (r: Self)
        ensures
            r.wf(),
            r@ == (VectorIdsModel { pairs: no_pairs(), next_id: 0, dimension }),
    {
        VectorIds { map: id_map_new(), next_id: 0, dimension }
    }

    /// The ids kept in a metadata file (see `parse_vector_meta`): its pairs
    /// inserted in file order and its next id; the file's error when a
    /// number cannot be read.
    pub fn load(dimension: usize, text: &str) -> (r: Result<Self, StorageError>)
        ensures
            match spec_parse_meta(utf8(text@)) {
                Ok((es, next)) => r matches Ok(ids) && ids.wf() && ids@ == (VectorIdsModel {
                    pairs: insert_all(no_pairs(), es),
                    next_id: next,
                    dimension,
                }),
                Err(e) => r matches Err(StorageError::Io(m)) && m@ == meta_error_message(e),
            },
    {
        match parse_vector_meta(text) {
            Err(e) => Err(e),
            Ok((entries, next_id)) => {
                let ghost es = entry_views(entries@);
                let mut map = id_map_new();
                let mut i: usize = 0;
                while i < entries.len()
                    invariant
                        i <= entries@.len(),
                        es == entry_views(entries@),
                        injective_pairs(id_pairs(map)),
                        id_pairs(map) == insert_all(no_pairs(), es.take(i as int)),
                    decreases entries@.len() - i,
                {
                    assert(es.take(i + 1).drop_last() =~= es.take(i as int));
                    assert(es.take(i + 1).last() == (entries@[i as int].0, entries@[i as int].1@));
                    id_map_insert(&mut map, entries[i].0, entries[i].1.clone());
                    i = i + 1;
                }
                assert(es.take(entries@.len() as int) =~= es);
                Ok(VectorIds { map, next_id, dimension })
            },
        }
    }

    /// The bytes of the metadata file that keeps these ids: the pairs in
    /// some order, and the next id.
    pub fn metadata(&self) -> (r: Vec<u8>)
        requires
            self.wf(),
        ensures
            exists|es: Seq<(u64, Seq<char>)>|
                r@ == spec_encode_meta(self@.next_id, es) && #[trigger] listing_of(es, self@.pairs),
    {
        let entries = id_map_entries(&self.map);
        let r = encode_vector_meta(self.next_id, &entries);
        proof {
            let es = entry_views(entries@);
            assert forall|i: int| 0 <= i < es.len() implies #[trigger] self@.pairs.contains_key(es[i].0)
                && self@.pairs[es[i].0] == es[i].1 by {
                assert(es[i] == (entries@[i].0, entries@[i].1@));
                assert(id_pairs(self.map).contains_key(entries@[i].0));
            }
            assert forall|k: u64| #[trigger] self@.pairs.contains_key(k) implies exists|i: int| 0 <= i < es.len() && es[i].0 == k by {
                let i = choose|i: int| 0 <= i < entries@.len() && #[trigger] entries@[i].0 == k;
                assert(es[i].0 == k);
            }
            assert forall|i: int, j: int| 0 <= i < j < es.len() implies #[trigger] es[i].0 != #[trigger] es[j].0 by {
                assert(es[i].0 == entries@[i].0 && es[j].0 == entries@[j].0);
            }
            assert(listing_of(es, self@.pairs));
        }
        r
    }

    /// The dimension vectors must have.
    pub fn dimension(&self) -> (r: usize)
        ensures
            r == self@.dimension,
    {
        self.dimension
    }

    /// Refuses a vector whose length is not the dimension.
    pub fn check_dimension(&self, len: usize) -> (r: Result<(), StorageError>)
        ensures
            len == self@.dimension ==> r is Ok,
            len != self@.dimension ==> (r matches Err(StorageError::InvalidOperation(m)) && m@ == dimension_message(
                "Vector dimension mismatch: "@,
                self@.dimension,
                len,
            )),
    {
        if len != self.dimension {
            return Err(dimension_error("Vector dimension mismatch: ", self.dimension, len));
        }
        Ok(())
    }

    /// Refuses a query vector whose length is not the dimension.
    pub fn check_query_dimension(&self, len: usize) -> (r: Result<(), StorageError>)
        ensures
            len == self@.dimension ==> r is Ok,
            len != self@.dimension ==> (r matches Err(StorageError::InvalidOperation(m)) && m@ == dimension_message(
                "Query vector dimension mismatch: "@,
                self@.dimension,
                len,
            )),
    {
        if len != self.dimension {
            return Err(dimension_error("Query vector dimension mismatch: ", self.dimension, len));
        }
        Ok(())
    }

    /// Hands out the next internal id for a vector of `len` entries (the
    /// counter wraps past the largest id); refused when the length is not
    /// the dimension.
    pub fn reserve_id(&mut self, len: usize) -> (r: Result<u64, StorageError>)
        ensures
            final(self)@.pairs == old(self)@.pairs,
            final(self)@.dimension == old(self)@.dimension,
            final(self).wf() == old(self).wf(),
            len != old(self)@.dimension ==> final(self)@.next_id == old(self)@.next_id && (r matches Err(
                StorageError::InvalidOperation(m),
            ) && m@ == dimension_message("Vector dimension mismatch: "@, old(self)@.dimension, len)),
            len == old(self)@.dimension ==> r == Ok::<u64, StorageError>(old(self)@.next_id) && final(self)@.next_id == (
            if old(self)@.next_id == u64::MAX {
                0
            } else {
                old(self)@.next_id + 1
            }),
    {
        if len != self.dimension {
            return Err(dimension_error("Vector dimension mismatch: ", self.dimension, len));
        }
        let id = self.next_id;
        self.next_id = self.next_id.wrapping_add(1);
        Ok(id)
    }

    /// Pairs an internal id with a document (replacing the pairs either
    /// had).
    pub fn record(&mut self, id: u64, doc_id: String)
        requires
            old(self).wf(),
        ensures
            final(self).wf(),
            final(self)@ == (VectorIdsModel {
                pairs: without_right(old(self)@.pairs.remove(id), doc_id@).insert(id, doc_id@),
                ..old(self)@
            }),
    {
        id_map_insert(&mut self.map, id, doc_id);
    }

    /// The internal id of a document's vector.
    pub fn id_of(&self, doc_id: &str) -> (r: Option<u64>)
        requires
            self.wf(),
        ensures
            r matches Some(k) ==> self@.pairs.contains_key(k) && self@.pairs[k] == doc_id@,
            r is None ==> forall|k: u64| #[trigger] self@.pairs.contains_key(k) ==> self@.pairs[k] != doc_id@,
    {
        id_map_get_by_right(&self.map, doc_id)
    }

    /// The document of an internal id.
    pub fn doc_of(&self, id: u64) -> (r: Option<String>)
        ensures
            r matches Some(s) ==> self@.pairs.contains_key(id) && self@.pairs[id] == s@,
            r is None ==> !self@.pairs.contains_key(id),
    {
        id_map_get_by_left(&self.map, id)
    }

    /// Forgets a document's vector.
    pub fn forget(&mut self, doc_id: &str)
        requires
            old(self).wf(),
        ensures
            final(self).wf(),
            final(self)@ == (VectorIdsModel { pairs: without_right(old(self)@.pairs, doc_id@), ..old(self)@ }),
    {
        id_map_remove_by_right(&mut self.map, doc_id);
    }

    /// Forgets every vector and starts the ids again from 0.
    pub fn clear(&mut self)
        ensures
            final(self).wf(),
            final(self)@ == (VectorIdsModel { pairs: no_pairs(), next_id: 0, ..old(self)@ }),
    {
        self.map = id_map_new();
        self.next_id = 0;
    }

    /// The documents of search results, in their order: for each result's
    /// internal id that still has a document, its position and document id.
    pub fn documents_of(&self, ids: &[u64]) -> (r: Vec<(usize, String)>)
        ensures
            r@.len() <= ids@.len(),
            forall|j: int| 0 <= j < r@.len() ==> {
                let (p, s) = #[trigger] r@[j];
                &&& p < ids@.len()
                &&& self@.pairs.contains_key(ids@[p as int])
                &&& self@.pairs[ids@[p as int]] == s@
            },
            forall|j: int, k: int| 0 <= j < k < r@.len() ==> #[trigger] r@[j].0 < #[trigger] r@[k].0,
            forall|p: int| 0 <= p < ids@.len() && #[trigger] self@.pairs.contains_key(ids@[p]) ==> exists|j: int|
                0 <= j < r@.len() && #[trigger] r@[j].0 == p,
    {
        let mut r: Vec<(usize, String)> = Vec::new();
        let mut i: usize = 0;
        while i < ids.len()
            invariant
                i <= ids@.len(),
                r@.len() <= i,
                forall|j: int| 0 <= j < r@.len() ==> {
                    let (p, s) = #[trigger] r@[j];
                    &&& p < i
                    &&& self@.pairs.contains_key(ids@[p as int])
                    &&& self@.pairs[ids@[p as int]] == s@
                },
                forall|j: int, k: int| 0 <= j < k < r@.len() ==> #[trigger] r@[j].0 < #[trigger] r@[k].0,
                forall|p: int| 0 <= p < i && #[trigger] self@.pairs.contains_key(ids@[p]) ==> exists|j: int|
                    0 <= j < r@.len() && #[trigger] r@[j].0 == p,
            decreases ids@.len() - i,
        {
            let ghost r0 = r@;
            match self.doc_of(ids[i]) {
                Some(s) => {
                    r.push((i, s));
                    assert(r@[r0.len() as int].0 == i);
                },
                None => {},
            }
            assert forall|p: int| 0 <= p < i + 1 && #[trigger] self@.pairs.contains_key(ids@[p]) implies exists|j: int|
                0 <= j < r@.len() && #[trigger] r@[j].0 == p by {
                if p < i {
                    let j = choose|j: int| 0 <= j < r0.len() && #[trigger] r0[j].0 == p;
                    assert(r@[j] == r0[j]);
                } else {
                    assert(r@[r0.len() as int].0 == i);
                }
            }
            i = i + 1;
        }
        r
    }
}

/// `es` lists the pairs of `m`, each once.
pub open spec fn listing_of(es: Seq<(u64, Seq<char>)>, m: Map<u64, Seq<char>>) -> bool {
    &&& forall|i: int| 0 <= i < es.len() ==> #[trigger] m.contains_key(es[i].0) && m[es[i].0] == es[i].1
    &&& forall|k: u64| #[trigger] m.contains_key(k) ==> exists|i: int| 0 <= i < es.len() && es[i].0 == k
    &&& forall|i: int, j: int| 0 <= i < j < es.len() ==> #[trigger] es[i].0 != #[trigger] es[j].0
}

/// After a vector is recorded, its internal id and its document find each
/// other, and no other internal id keeps that document; the pairing stays
/// one to one.
pub proof fn law_recorded_pair_found_both_ways(m: Map<u64, Seq<char>>, id: u64, doc: Seq<char>)
    requires
        injective_pairs(m),
    ensures
        ({
            let m2 = without_right(m.remove(id), doc).insert(id, doc);
            &&& m2.contains_key(id) && m2[id] == doc
            &&& forall|k: u64| #[trigger] m2.contains_key(k) && m2[k] == doc ==> k == id
            &&& injective_pairs(m2)
            &&& forall|k: u64| #[trigger] m.contains_key(k) && k != id && m[k] != doc ==> m2.contains_key(k) && m2[k] == m[k]
        }),
{
    let m1 = m.remove(id);
    let m2 = without_right(m1, doc).insert(id, doc);
    assert forall|a: u64, b: u64| m2.contains_key(a) && m2.contains_key(b) && a != b implies #[trigger] m2[a] != #[trigger] m2[b] by {
        if a != id && b != id {
            assert(m2[a] == m[a] && m2[b] == m[b]);
        }
    }
}

/// After a document's vector is forgotten, no internal id has it, and every
/// other pair stays.
pub proof fn law_forgotten_document_is_gone(m: Map<u64, Seq<char>>, doc: Seq<char>)
    ensures
        forall|k: u64| #[trigger] without_right(m, doc).contains_key(k) ==> without_right(m, doc)[k] != doc,
        forall|k: u64| #[trigger] m.contains_key(k) && m[k] != doc ==> without_right(m, doc).contains_key(k)
            && without_right(m, doc)[k] == m[k],
{
}

/// The map of listed pairs.
pub open spec fn pairs_of(es: Seq<(u64, Seq<char>)>) -> Map<u64, Seq<char>>
    decreases es.len(),
{
    if es.len() == 0 {
        Map::empty()
    } else {
        pairs_of(es.drop_last()).insert(es.last().0, es.last().1)
    }
}

proof fn lemma_pairs_of(es: Seq<(u64, Seq<char>)>)
    requires
        forall|i: int, j: int| 0 <= i < j < es.len() ==> #[trigger] es[i].0 != #[trigger] es[j].0,
    ensures
        forall|k: u64| #[trigger] pairs_of(es).contains_key(k) <==> exists|i: int| 0 <= i < es.len() && es[i].0 == k,
        forall|i: int| 0 <= i < es.len() ==> #[trigger] pairs_of(es)[es[i].0] == es[i].1,
    decreases es.len(),
{
    if es.len() > 0 {
        let t = es.drop_last();
        assert forall|i: int, j: int| 0 <= i < j < t.len() implies #[trigger] t[i].0 != #[trigger] t[j].0 by {
            assert(t[i] == es[i] && t[j] == es[j]);
        }
        lemma_pairs_of(t);
        let n = es.len() - 1;
        assert(pairs_of(es) == pairs_of(t).insert(es[n].0, es[n].1));
        assert forall|k: u64| #[trigger] pairs_of(es).contains_key(k) implies exists|i: int| 0 <= i < es.len() && es[i].0 == k by {
            if k != es[n].0 {
                assert(pairs_of(t).contains_key(k));
                let i = choose|i: int| 0 <= i < t.len() && t[i].0 == k;
                assert(es[i] == t[i]);
            } else {
                assert(es[n].0 == k);
            }
        }
        assert forall|k: u64| (exists|i: int| 0 <= i < es.len() && es[i].0 == k) implies #[trigger] pairs_of(es).contains_key(k) by {
            let i = choose|i: int| 0 <= i < es.len() && es[i].0 == k;
            if i < n {
                assert(t[i] == es[i]);
                assert(t[i].0 == k);
                assert(pairs_of(t).contains_key(k));
            }
        }
        assert forall|i: int| 0 <= i < es.len() implies #[trigger] pairs_of(es)[es[i].0] == es[i].1 by {
            if i < n {
                assert(t[i] == es[i]);
                assert(es[i].0 != es[n].0);
                assert(pairs_of(t)[t[i].0] == t[i].1);
            }
        }
    }
}

/// Inserting pairs whose internal ids and documents are all distinct builds
/// exactly their map.
proof fn lemma_insert_all_distinct(es: Seq<(u64, Seq<char>)>)
    requires
        forall|i: int, j: int| 0 <= i < j < es.len() ==> #[trigger] es[i].0 != #[trigger] es[j].0,
        forall|i: int, j: int| 0 <= i < j < es.len() ==> #[trigger] es[i].1 != #[trigger] es[j].1,
    ensures
        insert_all(no_pairs(), es) == pairs_of(es),
    decreases es.len(),
{
    if es.len() > 0 {
        let t = es.drop_last();
        let n = es.len() - 1;
        let e = es[n];
        assert forall|i: int, j: int| 0 <= i < j < t.len() implies #[trigger] t[i].0 != #[trigger] t[j].0 by {
            assert(t[i] == es[i] && t[j] == es[j]);
        }
        assert forall|i: int, j: int| 0 <= i < j < t.len() implies #[trigger] t[i].1 != #[trigger] t[j].1 by {
            assert(t[i] == es[i] && t[j] == es[j]);
        }
        lemma_insert_all_distinct(t);
        lemma_pairs_of(t);
        let m = pairs_of(t);
        assert(!m.contains_key(e.0)) by {
            if m.contains_key(e.0) {
                let i = choose|i: int| 0 <= i < t.len() && t[i].0 == e.0;
                assert(es[i].0 == es[n].0);
            }
        }
        assert(m.remove(e.0) =~= m);
        assert(without_right(m, e.1) =~= m) by {
            assert forall|k: u64| #[trigger] m.contains_key(k) implies m[k] != e.1 by {
                let i = choose|i: int| 0 <= i < t.len() && t[i].0 == k;
                assert(m[t[i].0] == t[i].1);
                assert(es[i].1 != es[n].1);
            }
        }
    }
}

/// The metadata file of a vector index reloads as the same ids: whatever
/// order the pairs are listed in, reading the file back gives the listing
/// and the next id, and inserting the listed pairs gives the pairs again,
/// when no document id holds a line feed or ends with a carriage return.
pub proof fn law_vector_ids_reload(pairs: Map<u64, Seq<char>>, next_id: u64, es: Seq<(u64, Seq<char>)>)
    requires
        injective_pairs(pairs),
        listing_of(es, pairs),
        forall|i: int| 0 <= i < es.len() ==> line_safe_id(#[trigger] es[i].1),
    ensures
        spec_parse_meta(spec_encode_meta(next_id, es)) == Ok::<(Seq<(u64, Seq<char>)>, u64), crate::vector_meta::MetaError>((es, next_id)),
        insert_all(no_pairs(), es) == pairs,
{
    law_vector_meta_roundtrip(next_id, es);
    assert forall|i: int| 0 <= i < es.len() implies pairs.contains_key(#[trigger] es[i].0) && pairs[es[i].0] == es[i].1 by {
        assert(pairs.contains_key(es[i].0));
    }
    assert forall|i: int, j: int| 0 <= i < j < es.len() implies #[trigger] es[i].1 != #[trigger] es[j].1 by {
        assert(pairs.contains_key(es[i].0) && pairs[es[i].0] == es[i].1);
        assert(pairs.contains_key(es[j].0) && pairs[es[j].0] == es[j].1);
        assert(es[i].0 != es[j].0);
    }
    lemma_insert_all_distinct(es);
    lemma_pairs_of(es);
    assert(pairs_of(es) =~= pairs) by {
        assert forall|k: u64| #[trigger] pairs_of(es).contains_key(k) <==> pairs.contains_key(k) by {
            if pairs.contains_key(k) {
                let i = choose|i: int| 0 <= i < es.len() && es[i].0 == k;
            }
        }
        assert forall|k: u64| #[trigger] pairs_of(es).contains_key(k) implies pairs_of(es)[k] == pairs[k] by {
            let i = choose|i: int| 0 <= i < es.len() && es[i].0 == k;
            assert(pairs_of(es)[es[i].0] == es[i].1);
        }
    }
}

} // verus!
