//! Unique constraints: which value a document holds for a unique index, the
//! lock key that value claims, and how a claim or release updates the lock
//! entry.

use vstd::prelude::*;
use crate::bytes::extend_bytes;
use crate::btree::{id_field_name, resolve_field_value};
use vstd::string::*;
use crate::config::StorageError;
use crate::document::{Document, DocModel, spec_doc_key, spec_resolve_path, str_eq, string_views};
use crate::equality::{opt_value_eq, values_equal, value_eq};
use crate::registry::{IndexDef, IndexDefModel, def_views};
use crate::encoding::utf8;
use crate::external::{xxh3_128_hash, xxh3_128_of, debug_strings, debug_text_of_strings};
use crate::hash_encoding::{encode_value_for_hash, spec_encode_hash};
use crate::value::{Value, ValueModel, entry_models_from, lemma_models_from, models_from};

verus! {

/// Unique-constraint handling: lock keys are claimed and released with
/// atomic read-modify-write updates of the lock keyspace.
#[derive(Debug)]
pub struct UniqueConstraintManager;

/// Little-endian bytes of a 128-bit number.
pub open spec fn u128_le(h: u128) -> Seq<u8> {
    seq![
        (h & 0xff) as u8,
        ((h >> 8u128) & 0xff) as u8,
        ((h >> 16u128) & 0xff) as u8,
        ((h >> 24u128) & 0xff) as u8,
        ((h >> 32u128) & 0xff) as u8,
        ((h >> 40u128) & 0xff) as u8,
        ((h >> 48u128) & 0xff) as u8,
        ((h >> 56u128) & 0xff) as u8,
        ((h >> 64u128) & 0xff) as u8,
        ((h >> 72u128) & 0xff) as u8,
        ((h >> 80u128) & 0xff) as u8,
        ((h >> 88u128) & 0xff) as u8,
        ((h >> 96u128) & 0xff) as u8,
        ((h >> 104u128) & 0xff) as u8,
        ((h >> 112u128) & 0xff) as u8,
        ((h >> 120u128) & 0xff) as u8,
    ]
}

/// `fields | 0x00 | hash_encoding(value)`, the data whose hash names a lock.
pub open spec fn lock_key_input(fields: Seq<char>, value: ValueModel) -> Seq<u8> {
    utf8(fields) + seq![0u8] + spec_encode_hash(value)
}

/// The value a document holds for a unique index path; `id` is not resolved
/// here.
pub open spec fn spec_unique_field_value(fields: Seq<(Seq<char>, ValueModel)>, path: Seq<char>) -> Option<ValueModel> {
    if path == id_field_name() {
        None
    } else {
        spec_resolve_path(fields, path)
    }
}

pub open spec fn all_resolved(fields: Seq<(Seq<char>, ValueModel)>, names: Seq<Seq<char>>) -> bool {
    forall|i: int| 0 <= i < names.len() ==> #[trigger] spec_unique_field_value(fields, names[i]) is Some
}

/// The value a document holds for a unique index: the single field's value,
/// or for a compound index the array of all field values (`None` when one
/// is missing).
pub open spec fn spec_index_value(fields: Seq<(Seq<char>, ValueModel)>, names: Seq<Seq<char>>) -> Option<ValueModel> {
    if names.len() == 1 {
        spec_unique_field_value(fields, names[0])
    } else if all_resolved(fields, names) {
        Some(ValueModel::Array(Seq::new(names.len(), |i: int| spec_unique_field_value(fields, names[i]).unwrap())))
    } else {
        None
    }
}

/// What a claim writes to a lock entry and whether it succeeded: a free
/// lock or one the document already holds becomes (or stays) the
/// document's; one held by another document keeps its holder.
pub open spec fn spec_claim(existing: Option<Seq<u8>>, doc_key: Seq<u8>) -> (Option<Seq<u8>>, bool) {
    match existing {
        None => (Some(doc_key), true),
        Some(v) => if v == doc_key {
            (Some(doc_key), true)
        } else {
            (Some(v), false)
        },
    }
}

/// What a release leaves in a lock entry: the document's own lock is
/// removed, another document's lock is kept.
pub open spec fn spec_release(existing: Option<Seq<u8>>, doc_key: Seq<u8>) -> Option<Seq<u8>> {
    match existing {
        None => None,
        Some(v) => if v == doc_key {
            None
        } else {
            Some(v)
        },
    }
}

fn bytes_eq(a: &[u8], b: &[u8]) -> (r: bool)
    ensures
        r == (a@ == b@),
{
    if a.len() != b.len() {
        return false;
    }
    let mut i: usize = 0;
    while i < a.len()
        invariant
            i <= a@.len(),
            a@.len() == b@.len(),
            forall|j: int| 0 <= j < i ==> a@[j] == b@[j],
        decreases a@.len() - i,
    {
        if a[i] != b[i] {
            return false;
        }
        i = i + 1;
    }
    assert(a@ =~= b@);
    true
}

/// The lock key bytes of a 128-bit hash: little endian.
pub fn lock_key_bytes(h: u128) -> (r: [u8; 16])
    ensures
        r@ == u128_le(h),
{
    let r: [u8; 16] = [
        (h & 0xff) as u8,
        ((h >> 8u128) & 0xff) as u8,
        ((h >> 16u128) & 0xff) as u8,
        ((h >> 24u128) & 0xff) as u8,
        ((h >> 32u128) & 0xff) as u8,
        ((h >> 40u128) & 0xff) as u8,
        ((h >> 48u128) & 0xff) as u8,
        ((h >> 56u128) & 0xff) as u8,
        ((h >> 64u128) & 0xff) as u8,
        ((h >> 72u128) & 0xff) as u8,
        ((h >> 80u128) & 0xff) as u8,
        ((h >> 88u128) & 0xff) as u8,
        ((h >> 96u128) & 0xff) as u8,
        ((h >> 104u128) & 0xff) as u8,
        ((h >> 112u128) & 0xff) as u8,
        ((h >> 120u128) & 0xff) as u8,
    ];
    assert(r@ =~= u128_le(h));
    r
}

impl UniqueConstraintManager {
    pub fn new() -> (r: Self) {
        UniqueConstraintManager
    }

    /// The value at a dotted path; the `id` path is left to the caller.
    pub fn resolve_field_value(&self, fields: &Vec<(String, Value)>, path: &str) -> (r: Option<Value>)
        ensures
            r matches Some(v) ==> spec_unique_field_value(entry_models_from(fields@, 0), path@) == Some(v@),
            r is None ==> spec_unique_field_value(entry_models_from(fields@, 0), path@) is None,
    {
        let id = "id";
        proof {
            reveal_strlit("id");
            assert(id@ =~= id_field_name());
        }
        if str_eq(path, id) {
            return None;
        }
        resolve_field_value(fields, path)
    }

    /// The value a document holds for a unique index over `fields`.
    pub fn get_field_value_for_index(&self, doc: &Document, fields: &[String]) -> (r: Option<Value>)
        ensures
            r matches Some(v) ==> spec_index_value(entry_models_from(doc.fields@, 0), fields@.map_values(|f: String| f@)) == Some(v@),
            r is None ==> spec_index_value(entry_models_from(doc.fields@, 0), fields@.map_values(|f: String| f@)) is None,
    {
        let ghost names = fields@.map_values(|f: String| f@);
        let ghost fm = entry_models_from(doc.fields@, 0);
        if fields.len() == 1 {
            return self.resolve_field_value(&doc.fields, fields[0].as_str());
        }
        let mut values: Vec<Value> = Vec::new();
        let mut missing = false;
        let mut i: usize = 0;
        while i < fields.len()
            invariant
                i <= fields@.len(),
                names == fields@.map_values(|f: String| f@),
                fm == entry_models_from(doc.fields@, 0),
                !missing ==> values@.len() == i,
                !missing ==> forall|j: int| 0 <= j < i ==> #[trigger] spec_unique_field_value(fm, names[j]) == Some(values@[j]@),
                missing ==> !all_resolved(fm, names),
            decreases fields@.len() - i,
        {
            match self.resolve_field_value(&doc.fields, fields[i].as_str()) {
                Some(v) => {
                    if !missing {
                        values.push(v);
                    }
                },
                None => {
                    assert(spec_unique_field_value(fm, names[i as int]) is None);
                    missing = true;
                },
            }
            i = i + 1;
        }
        if missing {
            return None;
        }
        proof {
            lemma_models_from(values@, 0);
            assert(all_resolved(fm, names));
            assert(models_from(values@, 0) =~= Seq::new(names.len(), |i: int| spec_unique_field_value(fm, names[i]).unwrap()));
        }
        Some(Value::Array(values))
    }

    /// The lock key of a value under the comma-joined field names:
    /// XXH3-128 of `fields | 0x00 | hash_encoding(value)`, little endian.
    pub fn compute_unique_lock_key(&self, fields: &str, value: &Value) -> (r: [u8; 16])
        ensures
            r@ == u128_le(xxh3_128_of(lock_key_input(fields@, value@))),
    {
        let mut data: Vec<u8> = Vec::new();
        let fb = fields.as_bytes();
        assert(fb@ == utf8(fields@));
        extend_bytes(&mut data, fb);
        data.push(0x00);
        let mut enc = encode_value_for_hash(value);
        data.append(&mut enc);
        assert(data@ =~= lock_key_input(fields@, value@));
        let h = xxh3_128_hash(data.as_slice());
        lock_key_bytes(h)
    }

    /// What a claim of a lock by `doc_key` writes, and whether it succeeded.
    pub fn claim_update(existing: Option<&[u8]>, doc_key: &[u8]) -> (r: (Option<Vec<u8>>, bool))
        ensures
            r.0.deep_view() == spec_claim(existing.deep_view(), doc_key@).0,
            r.1 == spec_claim(existing.deep_view(), doc_key@).1,
    {
        match existing {
            None => {
                let v = vstd::slice::slice_to_vec(doc_key);
                proof { assert(Some(v).deep_view() == Some(v@)); assert(v.deep_view() =~= v@); }
                (Some(v), true)
            },
            Some(v) => {
                assert(v.deep_view() =~= v@);
                if bytes_eq(v, doc_key) {
                    let w = vstd::slice::slice_to_vec(doc_key);
                    proof { assert(w.deep_view() =~= w@); }
                    (Some(w), true)
                } else {
                    let w = vstd::slice::slice_to_vec(v);
                    proof { assert(w.deep_view() =~= w@); }
                    (Some(w), false)
                }
            },
        }
    }

    /// What a release of a lock by `doc_key` leaves.
    pub fn release_update(existing: Option<&[u8]>, doc_key: &[u8]) -> (r: Option<Vec<u8>>)
        ensures
            r.deep_view() == spec_release(existing.deep_view(), doc_key@),
    {
        match existing {
            None => None,
            Some(v) => {
                assert(v.deep_view() =~= v@);
                if bytes_eq(v, doc_key) {
                    None
                } else {
                    let w = vstd::slice::slice_to_vec(v);
                    proof { assert(w.deep_view() =~= w@); }
                    Some(w)
                }
            },
        }
    }
}

/// The field names joined by commas.
pub open spec fn join_commas(names: Seq<Seq<char>>) -> Seq<char>
    decreases names.len(),
{
    if names.len() == 0 {
        seq![]
    } else if names.len() == 1 {
        names[0]
    } else {
        join_commas(names.drop_last()) + seq![','] + names.last()
    }
}

/// The lock key of a value under the comma-joined field names.
pub open spec fn spec_lock_key(fields: Seq<char>, value: ValueModel) -> Seq<u8> {
    u128_le(xxh3_128_of(lock_key_input(fields, value)))
}

/// A step of keeping unique locks in line with a document change.
#[derive(Debug)]
pub enum LockAction {
    /// Claim the lock for the document; refused when another document holds
    /// it (the fields name the constraint in the error).
    Claim { lock_key: [u8; 16], doc_key: String, fields: Vec<String> },
    /// Release the lock if the document holds it.
    Release { lock_key: [u8; 16], doc_key: String },
}

pub enum LockActionModel {
    Claim { lock_key: Seq<u8>, doc_key: Seq<char>, fields: Seq<Seq<char>> },
    Release { lock_key: Seq<u8>, doc_key: Seq<char> },
}

impl View for LockAction {
    type V = LockActionModel;

    open spec fn view(&self) -> LockActionModel {
        match self {
            LockAction::Claim { lock_key, doc_key, fields } => LockActionModel::Claim {
                lock_key: lock_key@,
                doc_key: doc_key@,
                fields: string_views(fields@),
            },
            LockAction::Release { lock_key, doc_key } => LockActionModel::Release { lock_key: lock_key@, doc_key: doc_key@ },
        }
    }
}

pub open spec fn opt_ref_doc_view(d: Option<&Document>) -> Option<DocModel> {
    match d {
        Some(x) => Some(x@),
        None => None,
    }
}

/// The value a document, if any, holds for an index.
pub open spec fn doc_index_value(doc: Option<DocModel>, names: Seq<Seq<char>>) -> Option<ValueModel> {
    match doc {
        Some(d) => spec_index_value(d.fields, names),
        None => None,
    }
}

/// The lock steps of one unique index: nothing when the indexed value is
/// unchanged; else first claiming the new value's lock for the new
/// document, then releasing the old value's lock of the old document.
pub open spec fn index_lock_actions(def: IndexDefModel, old: Option<DocModel>, new: Option<DocModel>) -> Seq<LockActionModel> {
    let nv = doc_index_value(new, def.fields);
    let ov = doc_index_value(old, def.fields);
    if opt_value_eq(nv, ov) {
        seq![]
    } else {
        let claim: Seq<LockActionModel> = match nv {
            Some(v) => seq![LockActionModel::Claim {
                lock_key: spec_lock_key(join_commas(def.fields), v),
                doc_key: spec_doc_key(new.unwrap().id),
                fields: def.fields,
            }],
            None => seq![],
        };
        let release: Seq<LockActionModel> = match ov {
            Some(v) => seq![LockActionModel::Release {
                lock_key: spec_lock_key(join_commas(def.fields), v),
                doc_key: spec_doc_key(old.unwrap().id),
            }],
            None => seq![],
        };
        claim + release
    }
}

/// The lock steps of all unique indexes, index by index.
pub open spec fn spec_lock_plan(defs: Seq<IndexDefModel>, old: Option<DocModel>, new: Option<DocModel>) -> Seq<LockActionModel>
    decreases defs.len(),
{
    if defs.len() == 0 {
        seq![]
    } else {
        spec_lock_plan(defs.drop_last(), old, new) + if defs.last().unique {
            index_lock_actions(defs.last(), old, new)
        } else {
            seq![]
        }
    }
}

/// The field names joined by commas.
pub fn join_fields(names: &[String]) -> (r: String)
    ensures
        r@ == join_commas(string_views(names@)),
{
    let ghost nv = string_views(names@);
    let mut s = String::new();
    let mut i: usize = 0;
    proof {
        reveal_strlit(",");
        assert(","@ =~= seq![',']);
    }
    while i < names.len()
        invariant
            i <= names@.len(),
            nv == string_views(names@),
            s@ == join_commas(nv.take(i as int)),
            ","@ == seq![','],
        decreases names@.len() - i,
    {
        assert(nv.take(i + 1).drop_last() =~= nv.take(i as int));
        assert(nv.take(i + 1).last() == names@[i as int]@);
        if i > 0 {
            s.append(",");
        }
        s.append(names[i].as_str());
        proof {
            if i == 0 {
                assert(nv.take(1) =~= seq![names@[0]@]);
            }
        }
        assert(s@ =~= join_commas(nv.take(i + 1)));
        i = i + 1;
    }
    assert(nv.take(names@.len() as int) =~= nv);
    s
}

impl UniqueConstraintManager {
    /// The lock steps that keep the unique constraints of `indexes` in line
    /// with a change from `old_doc` to `new_doc` (either absent for an
    /// insert or a delete). Undoing the change is the plan with the two
    /// documents swapped.
    pub fn plan_lock_updates(&self, indexes: &[IndexDef], old_doc: Option<&Document>, new_doc: Option<&Document>) -> (r: Vec<LockAction>)
        ensures
            r@.map_values(|a: LockAction| a@) == spec_lock_plan(def_views(indexes@), opt_ref_doc_view(old_doc), opt_ref_doc_view(new_doc)),
    {
        let ghost dv = def_views(indexes@);
        let ghost ov = opt_ref_doc_view(old_doc);
        let ghost nvw = opt_ref_doc_view(new_doc);
        let mut out: Vec<LockAction> = Vec::new();
        let mut k: usize = 0;
        while k < indexes.len()
            invariant
                k <= indexes@.len(),
                dv == def_views(indexes@),
                ov == opt_ref_doc_view(old_doc),
                nvw == opt_ref_doc_view(new_doc),
                out@.map_values(|a: LockAction| a@) == spec_lock_plan(dv.take(k as int), ov, nvw),
            decreases indexes@.len() - k,
        {
            let index = &indexes[k];
            assert(dv.take(k + 1).drop_last() =~= dv.take(k as int));
            assert(dv.take(k + 1).last() == index@);
            let ghost before = out@;
            if index.unique {
                let new_value = match new_doc {
                    Some(d) => self.get_field_value_for_index(d, index.fields.as_slice()),
                    None => None,
                };
                let old_value = match old_doc {
                    Some(d) => self.get_field_value_for_index(d, index.fields.as_slice()),
                    None => None,
                };
                let unchanged = match (&new_value, &old_value) {
                    (None, None) => true,
                    (Some(a), Some(b)) => values_equal(a, b),
                    _ => false,
                };
                if !unchanged {
                    let joined = join_fields(index.fields.as_slice());
                    match &new_value {
                        Some(v) => {
                            let d = new_doc.unwrap();
                            let lock_key = self.compute_unique_lock_key(joined.as_str(), v);
                            let fields = clone_names(&index.fields);
                            out.push(LockAction::Claim { lock_key, doc_key: d.key().to_owned(), fields });
                        },
                        None => {},
                    }
                    match &old_value {
                        Some(v) => {
                            let d = old_doc.unwrap();
                            let lock_key = self.compute_unique_lock_key(joined.as_str(), v);
                            out.push(LockAction::Release { lock_key, doc_key: d.key().to_owned() });
                        },
                        None => {},
                    }
                }
            }
            assert(out@.map_values(|a: LockAction| a@) =~= spec_lock_plan(dv.take(k + 1), ov, nvw));
            k = k + 1;
        }
        assert(dv.take(indexes@.len() as int) =~= dv);
        out
    }

    /// The error of a refused claim: the constraint's fields in debug form.
    pub fn claim_conflict_error(fields: &[String]) -> (r: StorageError)
        ensures
            r matches StorageError::Conflict(m) && m@ == "Unique constraint violation on "@ + debug_text_of_strings(string_views(fields@)),
    {
        let mut m = String::from_str("Unique constraint violation on ");
        let d = debug_strings(fields);
        m.append(d.as_str());
        StorageError::Conflict(m)
    }
}

fn clone_names(v: &Vec<String>) -> (r: Vec<String>)
    ensures
        string_views(r@) == string_views(v@),
{
    let mut r: Vec<String> = Vec::new();
    let mut i: usize = 0;
    while i < v.len()
        invariant
            i <= v@.len(),
            r@.len() == i,
            forall|j: int| 0 <= j < i ==> #[trigger] r@[j]@ == v@[j]@,
        decreases v@.len() - i,
    {
        r.push(v[i].clone());
        i = i + 1;
    }
    assert(string_views(r@) =~= string_views(v@));
    r
}

} // verus!

verus! {

/// Law: a document that claims a free lock, or one it holds, and then
/// releases it leaves the lock free; a lock held by another document is
/// neither taken by a claim nor dropped by a release.
pub proof fn law_claim_release(existing: Option<Seq<u8>>, doc_key: Seq<u8>)
    ensures
        (existing is None || existing == Some(doc_key)) ==> spec_claim(existing, doc_key).1
            && spec_release(spec_claim(existing, doc_key).0, doc_key) is None,
        (existing matches Some(v) && v != doc_key) ==> !spec_claim(existing, doc_key).1
            && spec_claim(existing, doc_key).0 == existing && spec_release(existing, doc_key) == existing,
{
}

/// The lock keys that the steps claim, in order.
pub open spec fn claimed_keys(actions: Seq<LockActionModel>) -> Seq<Seq<u8>>
    decreases actions.len(),
{
    if actions.len() == 0 {
        seq![]
    } else {
        let rest = claimed_keys(actions.drop_last());
        match actions.last() {
            LockActionModel::Claim { lock_key, .. } => rest.push(lock_key),
            _ => rest,
        }
    }
}

/// The lock keys that the steps release, in order.
pub open spec fn released_keys(actions: Seq<LockActionModel>) -> Seq<Seq<u8>>
    decreases actions.len(),
{
    if actions.len() == 0 {
        seq![]
    } else {
        let rest = released_keys(actions.drop_last());
        match actions.last() {
            LockActionModel::Release { lock_key, .. } => rest.push(lock_key),
            _ => rest,
        }
    }
}

/// Law: undoing a change swaps the locks: the plan for going back claims
/// the locks that the forward plan releases and releases those it claims
/// (given that the two indexed values compare equal in either order).
pub proof fn law_rollback_swaps_locks(def: IndexDefModel, old: Option<DocModel>, new: Option<DocModel>)
    requires
        opt_value_eq(doc_index_value(new, def.fields), doc_index_value(old, def.fields)) == opt_value_eq(
            doc_index_value(old, def.fields),
            doc_index_value(new, def.fields),
        ),
    ensures
        claimed_keys(index_lock_actions(def, new, old)) == released_keys(index_lock_actions(def, old, new)),
        released_keys(index_lock_actions(def, new, old)) == claimed_keys(index_lock_actions(def, old, new)),
{
    let fwd = index_lock_actions(def, old, new);
    let back = index_lock_actions(def, new, old);
    reveal_with_fuel(claimed_keys, 3);
    reveal_with_fuel(released_keys, 3);
    if fwd.len() == 2 {
        assert(fwd.drop_last() =~= seq![fwd[0]]);
        assert(back.drop_last() =~= seq![back[0]]);
        assert(seq![fwd[0]].drop_last() =~= Seq::<LockActionModel>::empty());
        assert(seq![back[0]].drop_last() =~= Seq::<LockActionModel>::empty());
    } else if fwd.len() == 1 {
        assert(fwd.drop_last() =~= Seq::<LockActionModel>::empty());
        assert(back.drop_last() =~= Seq::<LockActionModel>::empty());
    }
}

} // verus!
