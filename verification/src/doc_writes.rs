//! The transaction writes of a document change: the document entry, the
//! existence marker (written when a document comes into being and removed
//! when it goes, never touched by an update), the keys of the collection's
//! B-tree indexes, and, when the collection has full-text or vector
//! indexes, the job that brings them up to date after the commit.

use vstd::prelude::*;
use crate::btree::{doc_index_key, opt_bytes, BTreeIndex};
use crate::document::Document;
use crate::encoding::utf8;
use crate::index_types::IndexType;
use crate::registry::{IndexDef, IndexDefModel, def_views};

verus! {

/// The keyspace a write goes to.
#[derive(Clone, Copy, PartialEq, Eq, Structural, Debug)]
pub enum WriteTarget {
    /// The collection's documents.
    Docs,
    /// The collection's existence markers.
    Exists,
    /// The keyspace of the index at this position of the collection's list.
    Index(usize),
    /// The queue of pending full-text and vector index updates.
    Jobs,
}

/// What a write does.
#[derive(Clone, Copy, PartialEq, Eq, Structural, Debug)]
pub enum WriteKind {
    /// Store the serialized document.
    PutDocument,
    /// Store an empty value.
    PutEmpty,
    /// Remove the entry.
    Remove,
    /// Store the serialized update job (the old and the new document).
    PutJob,
}

/// One write of a document change.
#[derive(Debug)]
pub struct TxWrite {
    pub target: WriteTarget,
    pub key: Vec<u8>,
    pub kind: WriteKind,
}

impl View for TxWrite {
    type V = (WriteTarget, Seq<u8>, WriteKind);

    open spec fn view(&self) -> (WriteTarget, Seq<u8>, WriteKind) {
        (self.target, self.key@, self.kind)
    }
}

/// The writes of the document entry and its existence marker, under the
/// document's key: a stored document is put, with a marker when it is new;
/// a removed one is removed with its marker.
pub open spec fn spec_entry_writes(key: Seq<char>, old_present: bool, new_present: bool) -> Seq<(WriteTarget, Seq<u8>, WriteKind)> {
    if new_present {
        if old_present {
            seq![(WriteTarget::Docs, utf8(key), WriteKind::PutDocument)]
        } else {
            seq![
                (WriteTarget::Docs, utf8(key), WriteKind::PutDocument),
                (WriteTarget::Exists, utf8(key), WriteKind::PutEmpty),
            ]
        }
    } else if old_present {
        seq![(WriteTarget::Docs, utf8(key), WriteKind::Remove), (WriteTarget::Exists, utf8(key), WriteKind::Remove)]
    } else {
        seq![]
    }
}

/// The writes of one B-tree index: the old document's key removed, the new
/// one's put, each when there is one; nothing for other index kinds.
pub open spec fn spec_one_index_writes(i: usize, def: IndexDefModel, old: Option<&Document>, new: Option<&Document>) -> Seq<(WriteTarget, Seq<u8>, WriteKind)> {
    if def.index_type != IndexType::BTree {
        seq![]
    } else {
        (match doc_index_key(old, def.fields) {
            Some(k) => seq![(WriteTarget::Index(i), k, WriteKind::Remove)],
            None => seq![],
        }) + (match doc_index_key(new, def.fields) {
            Some(k) => seq![(WriteTarget::Index(i), k, WriteKind::PutEmpty)],
            None => seq![],
        })
    }
}

/// The writes of the first `n` indexes, in order.
pub open spec fn spec_index_writes(defs: Seq<IndexDefModel>, n: int, old: Option<&Document>, new: Option<&Document>) -> Seq<(WriteTarget, Seq<u8>, WriteKind)>
    decreases n,
{
    if n <= 0 {
        seq![]
    } else {
        spec_index_writes(defs, n - 1, old, new) + spec_one_index_writes((n - 1) as usize, defs[n - 1], old, new)
    }
}

/// The collection has a full-text or vector index, kept up to date after
/// the commit.
pub open spec fn has_external_indexes(defs: Seq<IndexDefModel>) -> bool {
    exists|i: int| 0 <= i < defs.len() && #[trigger] is_external(defs[i].index_type)
}

/// Full-text and vector indexes are kept outside the key-value store.
pub open spec fn is_external(t: IndexType) -> bool {
    t == IndexType::FullText || t == IndexType::Hnsw
}

/// The key of a document's pending job: `collection:key`.
pub open spec fn job_key(collection: Seq<char>, key: Seq<char>) -> Seq<u8> {
    utf8(collection + seq![':'] + key)
}

/// The job write of a change: present when the collection has full-text or
/// vector indexes and a document is stored or removed.
pub open spec fn spec_job_writes(defs: Seq<IndexDefModel>, collection: Seq<char>, key: Seq<char>, old_present: bool, new_present: bool) -> Seq<(WriteTarget, Seq<u8>, WriteKind)> {
    if has_external_indexes(defs) && (old_present || new_present) {
        seq![(WriteTarget::Jobs, job_key(collection, key), WriteKind::PutJob)]
    } else {
        seq![]
    }
}

/// All writes of a change of the document under `key` of `collection` from
/// `old` to `new` (either absent), for a collection with the given indexes.
pub open spec fn spec_document_writes(defs: Seq<IndexDefModel>, collection: Seq<char>, key: Seq<char>, old: Option<&Document>, new: Option<&Document>) -> Seq<(WriteTarget, Seq<u8>, WriteKind)> {
    spec_entry_writes(key, old is Some, new is Some) + spec_index_writes(defs, defs.len() as int, old, new)
        + spec_job_writes(defs, collection, key, old is Some, new is Some)
}

/// Whether the collection has a full-text or vector index.
pub fn external_indexes_present(indexes: &[IndexDef]) -> (r: bool)
    ensures
        r == has_external_indexes(def_views(indexes@)),
{
    let ghost defs = def_views(indexes@);
    let mut i: usize = 0;
    while i < indexes.len()
        invariant
            i <= indexes@.len(),
            defs == def_views(indexes@),
            forall|j: int| 0 <= j < i ==> !#[trigger] is_external(defs[j].index_type),
        decreases indexes@.len() - i,
    {
        assert(defs[i as int] == indexes@[i as int]@);
        if indexes[i].index_type == IndexType::FullText || indexes[i].index_type == IndexType::Hnsw {
            assert(is_external(defs[i as int].index_type));
            return true;
        }
        i = i + 1;
    }
    false
}

pub open spec fn write_views(ws: Seq<TxWrite>) -> Seq<(WriteTarget, Seq<u8>, WriteKind)> {
    ws.map_values(|w: TxWrite| w@)
}

fn push_write(ws: &mut Vec<TxWrite>, target: WriteTarget, key: Vec<u8>, kind: WriteKind)
    ensures
        write_views(final(ws)@) == write_views(old(ws)@).push((target, key@, kind)),
{
    let ghost before = write_views(ws@);
    ws.push(TxWrite { target, key, kind });
    assert(write_views(ws@) =~= before.push((target, key@, kind)));
}

/// The transaction writes of a change of the document under `key` from
/// `old_doc` to `new_doc` (either absent), for a collection with the given
/// indexes: the document entry and existence marker, then each B-tree
/// index's key changes in the order of the indexes.
pub fn plan_document_writes(indexes: &[IndexDef], collection: &str, key: &str, old_doc: Option<&Document>, new_doc: Option<&Document>) -> (r: Vec<TxWrite>)
    ensures
        write_views(r@) == spec_document_writes(def_views(indexes@), collection@, key@, old_doc, new_doc),
{
    let ghost defs = def_views(indexes@);
    let mut ws: Vec<TxWrite> = Vec::new();
    let mut kb: Vec<u8> = Vec::new();
    crate::bytes::extend_bytes(&mut kb, key.as_bytes());
    proof {
        vstd::utf8::encode_utf8_decode_utf8(key@);
        assert(kb@ == utf8(key@));
    }
    match new_doc {
        Some(_) => {
            push_write(&mut ws, WriteTarget::Docs, kb.clone(), WriteKind::PutDocument);
            if old_doc.is_none() {
                push_write(&mut ws, WriteTarget::Exists, kb, WriteKind::PutEmpty);
            }
        },
        None => {
            if old_doc.is_some() {
                push_write(&mut ws, WriteTarget::Docs, kb.clone(), WriteKind::Remove);
                push_write(&mut ws, WriteTarget::Exists, kb, WriteKind::Remove);
            }
        },
    }
    assert(write_views(ws@) =~= spec_entry_writes(key@, old_doc is Some, new_doc is Some));
    let ghost head = write_views(ws@);
    let btree = BTreeIndex::new();
    let mut i: usize = 0;
    while i < indexes.len()
        invariant
            i <= indexes@.len(),
            defs == def_views(indexes@),
            write_views(ws@) == head + spec_index_writes(defs, i as int, old_doc, new_doc),
        decreases indexes@.len() - i,
    {
        let def = &indexes[i];
        assert(defs[i as int] == def@);
        if def.index_type == IndexType::BTree {
            let (old_key, new_key) = btree.update_keys(&def.fields, old_doc, new_doc);
            assert(def@.fields == def.fields@.map_values(|f: String| f@));
            let ghost w0 = write_views(ws@);
            match old_key {
                Some(k) => push_write(&mut ws, WriteTarget::Index(i), k, WriteKind::Remove),
                None => {},
            }
            match new_key {
                Some(k) => push_write(&mut ws, WriteTarget::Index(i), k, WriteKind::PutEmpty),
                None => {},
            }
            assert(write_views(ws@) =~= w0 + spec_one_index_writes(i, defs[i as int], old_doc, new_doc));
        } else {
            assert(spec_one_index_writes(i, defs[i as int], old_doc, new_doc) =~= Seq::<(WriteTarget, Seq<u8>, WriteKind)>::empty());
        }
        assert(head + spec_index_writes(defs, i + 1, old_doc, new_doc) =~= (head + spec_index_writes(defs, i as int, old_doc, new_doc)) + spec_one_index_writes(i, defs[i as int], old_doc, new_doc));
        i = i + 1;
    }
    let ghost before_jobs = write_views(ws@);
    if (old_doc.is_some() || new_doc.is_some()) && external_indexes_present(indexes) {
        let mut jk: Vec<u8> = Vec::new();
        crate::bytes::extend_bytes(&mut jk, collection.as_bytes());
        jk.push(0x3Au8);
        crate::bytes::extend_bytes(&mut jk, key.as_bytes());
        proof {
            vstd::utf8::encode_utf8_decode_utf8(collection@);
            vstd::utf8::encode_utf8_decode_utf8(key@);
            lemma_job_key(collection@, key@);
            assert(jk@ =~= utf8(collection@) + seq![0x3Au8] + utf8(key@));
        }
        push_write(&mut ws, WriteTarget::Jobs, jk, WriteKind::PutJob);
    }
    assert(write_views(ws@) =~= before_jobs + spec_job_writes(def_views(indexes@), collection@, key@, old_doc is Some, new_doc is Some));
    ws
}

proof fn lemma_job_key(collection: Seq<char>, key: Seq<char>)
    ensures
        job_key(collection, key) == utf8(collection) + seq![0x3Au8] + utf8(key),
{
    crate::encoding::lemma_utf8_concat(collection + seq![':'], key);
    crate::encoding::lemma_utf8_concat(collection, seq![':']);
    assert((':' as u32) == 58);
    assert((58u32 & 0x7Fu32) as u8 == 0x3Au8) by (bit_vector);
    assert(seq![':'].drop_first() =~= Seq::<char>::empty());
    assert(vstd::utf8::encode_utf8(Seq::<char>::empty()) =~= Seq::<u8>::empty());
    assert(vstd::utf8::encode_scalar(58u32) =~= seq![0x3Au8]);
    assert(utf8(seq![':']) =~= seq![0x3Au8]);
}

/// The existence marker is touched exactly when a document comes into
/// being or goes: an update of a stored document writes no marker, so
/// concurrent updates do not conflict on it.
pub proof fn law_exists_marker_only_on_create_and_delete(key: Seq<char>, old_present: bool, new_present: bool)
    ensures
        (exists|j: int| 0 <= j < spec_entry_writes(key, old_present, new_present).len()
            && #[trigger] spec_entry_writes(key, old_present, new_present)[j].0 == WriteTarget::Exists)
            <==> old_present != new_present,
{
    let w = spec_entry_writes(key, old_present, new_present);
    if old_present != new_present {
        if new_present {
            assert(w[1].0 == WriteTarget::Exists);
        } else {
            assert(w[1].0 == WriteTarget::Exists);
        }
    } else {
        assert forall|j: int| 0 <= j < w.len() implies #[trigger] w[j].0 != WriteTarget::Exists by {}
    }
}

} // verus!
