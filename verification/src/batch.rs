//! Collapsing the document writes of an atomic batch: each document's
//! successive writes become one final write, decided before any constraint
//! or index is touched.

use vstd::prelude::*;
use crate::config::StorageError;
use crate::document::{Document, DocModel, opt_doc_view, str_eq};

verus! {

/// The writes of a batch to one document so far.
#[derive(Debug)]
pub struct PendingMutation {
    pub collection: String,
    pub key: String,
    /// The document as stored before the batch.
    pub initial_doc: Option<Document>,
    /// The document after the batch's writes so far.
    pub current_doc: Option<Document>,
    /// The document is created by the batch and must not exist.
    pub create_only: bool,
}

pub struct PendingModel {
    pub collection: Seq<char>,
    pub key: Seq<char>,
    pub initial: Option<DocModel>,
    pub current: Option<DocModel>,
    pub create_only: bool,
}

impl View for PendingMutation {
    type V = PendingModel;

    open spec fn view(&self) -> PendingModel {
        PendingModel {
            collection: self.collection@,
            key: self.key@,
            initial: opt_doc_view(self.initial_doc),
            current: opt_doc_view(self.current_doc),
            create_only: self.create_only,
        }
    }
}

/// The final write of a document.
#[derive(Debug)]
pub enum PlannedWrite {
    /// Store the document; `create_only` when it must not exist yet.
    Put { doc: Document, create_only: bool },
    /// Delete the stored document.
    Delete { collection: String, key: String },
}

pub enum PlannedModel {
    Put { doc: DocModel, create_only: bool },
    Delete { collection: Seq<char>, key: Seq<char> },
}

impl View for PlannedWrite {
    type V = PlannedModel;

    open spec fn view(&self) -> PlannedModel {
        match self {
            PlannedWrite::Put { doc, create_only } => PlannedModel::Put { doc: doc@, create_only: *create_only },
            PlannedWrite::Delete { collection, key } => PlannedModel::Delete { collection: collection@, key: key@ },
        }
    }
}

/// The final write of a pending mutation: the current document when there
/// is one, a delete when the stored document is gone, nothing when the
/// document neither was nor is stored.
pub open spec fn final_write_of(m: PendingModel) -> Option<PlannedModel> {
    match m.current {
        Some(doc) => Some(PlannedModel::Put { doc, create_only: m.create_only }),
        None => match m.initial {
            Some(_) => Some(PlannedModel::Delete { collection: m.collection, key: m.key }),
            None => None,
        },
    }
}

/// The final writes of the mutations, in order.
pub open spec fn final_writes(ms: Seq<PendingModel>) -> Seq<PlannedModel>
    decreases ms.len(),
{
    if ms.len() == 0 {
        seq![]
    } else {
        let rest = final_writes(ms.drop_last());
        match final_write_of(ms.last()) {
            Some(w) => rest.push(w),
            None => rest,
        }
    }
}

pub open spec fn same_identity(m: PendingModel, collection: Seq<char>, key: Seq<char>) -> bool {
    m.collection == collection && m.key == key
}

/// The pending mutations of a batch, one per document, in the order in
/// which the documents were first written.
#[derive(Debug)]
pub struct MutationLog {
    pending: Vec<PendingMutation>,
}

impl View for MutationLog {
    type V = Seq<PendingModel>;

    closed spec fn view(&self) -> Seq<PendingModel> {
        self.pending@.map_values(|m: PendingMutation| m@)
    }
}

impl MutationLog {
    #[verifier::type_invariant]
    closed spec fn wf(self) -> bool {
        forall|a: int, b: int|
            0 <= a < b < self.pending@.len() ==> !same_identity(
                (#[trigger] self.pending@[a])@,
                (#[trigger] self.pending@[b]).collection@,
                self.pending@[b].key@,
            )
    }

    /// An empty log.
    pub fn new() -> (r: Self)
        ensures
            r@ == Seq::<PendingModel>::empty(),
    {
        let r = MutationLog { pending: Vec::new() };
        assert(r@ =~= Seq::<PendingModel>::empty());
        r
    }

    /// Number of documents written.
    pub fn len(&self) -> (r: usize)
        ensures
            r == self@.len(),
    {
        self.pending.len()
    }

    /// Where the document's pending mutation stands, if it was written.
    pub fn position(&self, collection: &str, key: &str) -> (r: Option<usize>)
        ensures
            r matches Some(i) ==> i < self@.len() && same_identity(self@[i as int], collection@, key@),
            r is None ==> forall|j: int| 0 <= j < self@.len() ==> !same_identity(#[trigger] self@[j], collection@, key@),
    {
        let mut i: usize = 0;
        while i < self.pending.len()
            invariant
                i <= self.pending@.len(),
                forall|j: int| 0 <= j < i ==> !same_identity(#[trigger] self.pending@[j]@, collection@, key@),
            decreases self.pending@.len() - i,
        {
            if str_eq(self.pending[i].collection.as_str(), collection) && str_eq(self.pending[i].key.as_str(), key) {
                assert(self@[i as int] == self.pending@[i as int]@);
                return Some(i);
            }
            i = i + 1;
        }
        assert forall|j: int| 0 <= j < self@.len() implies !same_identity(#[trigger] self@[j], collection@, key@) by {
            assert(self@[j] == self.pending@[j]@);
        }
        None
    }

    /// Starts the pending mutation of a document not written yet, from the
    /// document as stored; answers its position.
    pub fn open(&mut self, collection: String, key: String, initial_doc: Option<Document>) -> (r: usize)
        requires
            forall|j: int| 0 <= j < old(self)@.len() ==> !same_identity(#[trigger] old(self)@[j], collection@, key@),
        ensures
            r == old(self)@.len(),
            final(self)@ == old(self)@.push(PendingModel {
                collection: collection@,
                key: key@,
                initial: opt_doc_view(initial_doc),
                current: opt_doc_view(initial_doc),
                create_only: false,
            }),
    {
        proof {
            use_type_invariant(&*self);
        }
        let ghost m1 = self@;
        let current = Document::copy_opt(&initial_doc);
        let m = PendingMutation { collection, key, initial_doc, current_doc: current, create_only: false };
        let mut items: Vec<PendingMutation> = Vec::new();
        std::mem::swap(&mut items, &mut self.pending);
        let ghost before = items@;
        let n = items.len();
        items.push(m);
        proof {
            assert forall|a: int, b: int| 0 <= a < b < items@.len() implies !same_identity(
                (#[trigger] items@[a])@,
                (#[trigger] items@[b]).collection@,
                items@[b].key@,
            ) by {
                if b == n {
                    assert(items@[a] == before[a]);
                    assert(m1[a] == before[a]@);
                } else {
                    assert(items@[a] == before[a] && items@[b] == before[b]);
                }
            }
        }
        self.pending = items;
        assert(self@ =~= m1.push(m@));
        n
    }

    /// Replaces the pending mutation at `i`, keeping its identity.
    fn replace(&mut self, i: usize, m: PendingMutation)
        requires
            i < old(self)@.len(),
            m.collection@ == old(self)@[i as int].collection,
            m.key@ == old(self)@[i as int].key,
        ensures
            final(self)@ == old(self)@.update(i as int, m@),
    {
        proof {
            use_type_invariant(&*self);
        }
        let ghost m1 = self@;
        let ghost mv = m@;
        let mut items: Vec<PendingMutation> = Vec::new();
        std::mem::swap(&mut items, &mut self.pending);
        let ghost before = items@;
        let _old = items.remove(i);
        items.insert(i, m);
        proof {
            assert(items@ =~= before.update(i as int, items@[i as int]));
            assert forall|a: int, b: int| 0 <= a < b < items@.len() implies !same_identity(
                (#[trigger] items@[a])@,
                (#[trigger] items@[b]).collection@,
                items@[b].key@,
            ) by {
                assert(items@[a]@.collection == before[a]@.collection && items@[a]@.key == before[a]@.key);
                assert(items@[b]@.collection == before[b]@.collection && items@[b]@.key == before[b]@.key);
            }
        }
        self.pending = items;
        assert(self@ =~= m1.update(i as int, mv));
    }

    /// A write of `doc` to the document at `i`; with `create_only` it is
    /// refused when the document exists at this point of the batch.
    pub fn put(&mut self, i: usize, doc: Document, create_only: bool) -> (r: Result<(), StorageError>)
        requires
            i < old(self)@.len(),
        ensures
            create_only && old(self)@[i as int].current is Some ==> (r matches Err(StorageError::AlreadyExists(id))
                && id@ == doc@.id && final(self)@ == old(self)@),
            !(create_only && old(self)@[i as int].current is Some) ==> (r is Ok && final(self)@ == old(self)@.update(
                i as int,
                PendingModel {
                    current: Some(doc@),
                    create_only: old(self)@[i as int].create_only || (create_only && old(self)@[i as int].initial is None),
                    ..old(self)@[i as int]
                },
            )),
    {
        let ghost m1 = self@;
        assert(m1[i as int] == self.pending@[i as int]@);
        if create_only && self.pending[i].current_doc.is_some() {
            return Err(StorageError::AlreadyExists(doc.id.clone()));
        }
        let cur = &self.pending[i];
        let m = PendingMutation {
            collection: cur.collection.clone(),
            key: cur.key.clone(),
            initial_doc: Document::copy_opt(&cur.initial_doc),
            current_doc: Some(doc),
            create_only: cur.create_only || (create_only && cur.initial_doc.is_none()),
        };
        self.replace(i, m);
        Ok(())
    }

    /// A delete of the document at `i`.
    pub fn delete(&mut self, i: usize)
        requires
            i < old(self)@.len(),
        ensures
            final(self)@ == old(self)@.update(i as int, PendingModel { current: None, ..old(self)@[i as int] }),
    {
        let ghost m1 = self@;
        assert(m1[i as int] == self.pending@[i as int]@);
        let cur = &self.pending[i];
        let m = PendingMutation {
            collection: cur.collection.clone(),
            key: cur.key.clone(),
            initial_doc: Document::copy_opt(&cur.initial_doc),
            current_doc: None,
            create_only: cur.create_only,
        };
        self.replace(i, m);
    }

    /// The final writes, one per document that is or was stored, in the
    /// order in which the documents were first written.
    pub fn finish(self) -> (r: Vec<PlannedWrite>)
        ensures
            r@.map_values(|w: PlannedWrite| w@) == final_writes(self@),
    {
        let ghost ms = self@;
        let mut pending = self.pending;
        let ghost all = pending@;
        assert(ms == all.map_values(|m: PendingMutation| m@));
        let mut out: Vec<PlannedWrite> = Vec::new();
        let mut k: usize = 0;
        let n = pending.len();
        while k < n
            invariant
                k <= n,
                n == all.len(),
                ms == all.map_values(|m: PendingMutation| m@),
                pending@.len() == n,
                forall|j: int| k <= j < n ==> #[trigger] pending@[j]@ == all[j]@,
                out@.map_values(|w: PlannedWrite| w@) == final_writes(ms.take(k as int)),
            decreases n - k,
        {
            let m = &pending[k];
            assert(m@ == ms[k as int]);
            assert(ms.take(k + 1).drop_last() =~= ms.take(k as int));
            assert(ms.take(k + 1).last() == ms[k as int]);
            let ghost before = out@;
            match &m.current_doc {
                Some(doc) => {
                    out.push(PlannedWrite::Put { doc: doc.copy(), create_only: m.create_only });
                },
                None => {
                    if m.initial_doc.is_some() {
                        out.push(PlannedWrite::Delete { collection: m.collection.clone(), key: m.key.clone() });
                    }
                },
            }
            assert(out@.map_values(|w: PlannedWrite| w@) =~= final_writes(ms.take(k + 1)));
            k = k + 1;
        }
        assert(ms.take(n as int) =~= ms);
        out
    }
}

} // verus!
