//! The decisions of a document write (create, update, set or delete): when
//! to take the unique locks, open the transaction, re-check the document,
//! stage the writes and commit, and how each outcome ends the write. The
//! caller performs each action and reports what happened; a write that fails
//! once its locks are taken gives them back.

use vstd::prelude::*;
use crate::document::{DocModel, spec_doc_key};
use crate::encoding::utf8;
use crate::equality::{law_value_eq_symmetric, opt_no_repeated_keys};
use crate::registry::IndexDefModel;
use crate::unique::{LockActionModel, doc_index_value, index_lock_actions, spec_claim, spec_lock_plan, spec_release};

verus! {

/// The kind of document write.
#[derive(Clone, Copy, PartialEq, Eq, Structural, Debug)]
pub enum DocWriteKind {
    /// Store a new document; nothing is written when one exists.
    Create,
    /// Replace an existing document; nothing is written when none exists.
    Update,
    /// Store the document, new or not.
    Upsert,
    /// Remove an existing document and its edges.
    Delete,
}

/// Where a write stands: the action it last asked for.
#[derive(Clone, Copy, PartialEq, Eq, Structural, Debug)]
pub enum WriteStage {
    /// Waiting for the collection and the stored document to be looked up.
    Lookup,
    /// Waiting for the delete policies of the node's edges to be checked.
    Restrict,
    /// Waiting for the unique-lock plan to be applied.
    Locks,
    /// Waiting for the transaction to open.
    Open,
    /// Waiting for the document to be looked up again inside the transaction.
    Recheck,
    /// Waiting for the writes to be staged in the transaction.
    Stage,
    /// Waiting for the commit.
    Commit,
    /// The write has ended.
    Ended,
}

/// The state of a document write.
#[derive(Clone, Copy, PartialEq, Eq, Structural, Debug)]
pub struct DocWriteState {
    pub op: DocWriteKind,
    pub stage: WriteStage,
    /// The unique locks of the change are taken and not given back.
    pub locks_held: bool,
}

impl View for DocWriteState {
    type V = DocWriteState;

    open spec fn view(&self) -> DocWriteState {
        *self
    }
}

/// How a commit went.
#[derive(Clone, Copy, PartialEq, Eq, Structural, Debug)]
pub enum CommitOutcome {
    Committed,
    /// Another writer changed the same keys first.
    Conflict,
    /// The store failed.
    Failed,
}

/// What the caller reports after performing an action. `ok: false` stands
/// for an error of the step, which the caller keeps to hand back.
#[derive(Clone, Copy, PartialEq, Eq, Structural, Debug)]
pub enum DocWriteEvent {
    /// Whether the collection is loaded and the document is stored.
    LookedUp { collection_loaded: bool, present: bool },
    /// Whether the delete policies allow removing the node.
    RestrictChecked { ok: bool },
    /// Whether every step of the unique-lock plan went through.
    LocksApplied { ok: bool },
    /// Whether the transaction opened.
    TxOpened { ok: bool },
    /// Whether the lookup inside the transaction worked, and what it found.
    Rechecked { ok: bool, present: bool },
    /// Whether every write (and, for a delete, every edge removal) was staged.
    Staged { ok: bool },
    /// How the commit went.
    Committed { outcome: CommitOutcome },
}

impl View for DocWriteEvent {
    type V = DocWriteEvent;

    open spec fn view(&self) -> DocWriteEvent {
        *self
    }
}

/// How a write ends.
#[derive(Clone, Copy, PartialEq, Eq, Structural, Debug)]
pub enum WriteOutcome {
    /// The write is answered with `Ok`: `true` when the change was committed,
    /// `false` when there was nothing to write (or a create, update or delete
    /// lost a commit race).
    Done(bool),
    /// The write is answered with the error of the failed step.
    Error,
    /// An upsert (set) lost a commit race: it is answered with a conflict error.
    UpsertConflict,
}

/// The next action of a write.
#[derive(Clone, Copy, PartialEq, Eq, Structural, Debug)]
pub enum DocWriteAction {
    /// Check the delete policies of the node's edges.
    CheckRestrict,
    /// Apply the unique-lock plan of the change.
    ApplyLocks,
    /// Open the write transaction.
    OpenTx,
    /// Look the document up inside the transaction.
    Recheck,
    /// Stage the document's writes (and a delete's edge removals).
    StageWrites,
    /// Commit the transaction.
    Commit,
    /// End the write, first giving back the unique locks when `undo_locks`
    /// (applying the plan with the two documents swapped).
    Finish { undo_locks: bool, outcome: WriteOutcome },
}

impl View for DocWriteAction {
    type V = DocWriteAction;

    open spec fn view(&self) -> DocWriteAction {
        *self
    }
}

pub open spec fn at_stage(s: DocWriteState, stage: WriteStage, locks_held: bool) -> DocWriteState {
    DocWriteState { op: s.op, stage, locks_held }
}

/// Ends the write with `outcome`, giving back the locks it holds.
pub open spec fn end_with(s: DocWriteState, outcome: WriteOutcome) -> (DocWriteState, DocWriteAction) {
    (at_stage(s, WriteStage::Ended, false), DocWriteAction::Finish { undo_locks: s.locks_held, outcome })
}

/// One decision of a document write.
pub open spec fn spec_document_write_step(s: DocWriteState, e: DocWriteEvent) -> (DocWriteState, DocWriteAction) {
    match (s.stage, e) {
        (WriteStage::Lookup, DocWriteEvent::LookedUp { collection_loaded, present }) => {
            if (s.op == DocWriteKind::Update || s.op == DocWriteKind::Delete) && !(collection_loaded && present) {
                end_with(s, WriteOutcome::Done(false))
            } else if s.op == DocWriteKind::Delete {
                (at_stage(s, WriteStage::Restrict, false), DocWriteAction::CheckRestrict)
            } else {
                (at_stage(s, WriteStage::Locks, false), DocWriteAction::ApplyLocks)
            }
        },
        (WriteStage::Restrict, DocWriteEvent::RestrictChecked { ok }) => {
            if ok {
                (at_stage(s, WriteStage::Locks, false), DocWriteAction::ApplyLocks)
            } else {
                end_with(s, WriteOutcome::Error)
            }
        },
        (WriteStage::Locks, DocWriteEvent::LocksApplied { ok }) => {
            if ok {
                (at_stage(s, WriteStage::Open, true), DocWriteAction::OpenTx)
            } else {
                end_with(s, WriteOutcome::Error)
            }
        },
        (WriteStage::Open, DocWriteEvent::TxOpened { ok }) => {
            if !ok {
                end_with(s, WriteOutcome::Error)
            } else if s.op == DocWriteKind::Create || s.op == DocWriteKind::Update {
                (at_stage(s, WriteStage::Recheck, s.locks_held), DocWriteAction::Recheck)
            } else {
                (at_stage(s, WriteStage::Stage, s.locks_held), DocWriteAction::StageWrites)
            }
        },
        (WriteStage::Recheck, DocWriteEvent::Rechecked { ok, present }) => {
            if !ok {
                end_with(s, WriteOutcome::Error)
            } else if (s.op == DocWriteKind::Create && present) || (s.op == DocWriteKind::Update && !present) {
                end_with(s, WriteOutcome::Done(false))
            } else {
                (at_stage(s, WriteStage::Stage, s.locks_held), DocWriteAction::StageWrites)
            }
        },
        (WriteStage::Stage, DocWriteEvent::Staged { ok }) => {
            if ok {
                (at_stage(s, WriteStage::Commit, s.locks_held), DocWriteAction::Commit)
            } else {
                end_with(s, WriteOutcome::Error)
            }
        },
        (WriteStage::Commit, DocWriteEvent::Committed { outcome }) => {
            match outcome {
                CommitOutcome::Committed => (
                    at_stage(s, WriteStage::Ended, false),
                    DocWriteAction::Finish { undo_locks: false, outcome: WriteOutcome::Done(true) },
                ),
                CommitOutcome::Conflict => if s.op == DocWriteKind::Upsert {
                    end_with(s, WriteOutcome::UpsertConflict)
                } else {
                    end_with(s, WriteOutcome::Done(false))
                },
                CommitOutcome::Failed => end_with(s, WriteOutcome::Error),
            }
        },
        _ => end_with(s, WriteOutcome::Error),
    }
}

/// A write that has not started yet.
pub fn new_document_write(op: DocWriteKind) -> (r: DocWriteState)
    ensures
        r@ == (DocWriteState { op, stage: WriteStage::Lookup, locks_held: false }),
{
    DocWriteState { op, stage: WriteStage::Lookup, locks_held: false }
}

fn ended_with(s: &DocWriteState, outcome: WriteOutcome) -> (r: (DocWriteState, DocWriteAction))
    ensures
        r == end_with(*s, outcome),
{
    (
        DocWriteState { op: s.op, stage: WriteStage::Ended, locks_held: false },
        DocWriteAction::Finish { undo_locks: s.locks_held, outcome },
    )
}

/// One decision of a document write: the state after `event` and the next
/// action. An event that does not answer the last action ends the write as
/// failed, giving back the locks it holds.
pub fn document_write_step(state: &DocWriteState, event: DocWriteEvent) -> (r: (DocWriteState, DocWriteAction))
    ensures
        (r.0@, r.1@) == spec_document_write_step(state@, event@),
{
    let s = *state;
    let is_op = |x: DocWriteKind| -> (b: bool)
        ensures
            b == (s.op == x),
        {
            match (s.op, x) {
                (DocWriteKind::Create, DocWriteKind::Create) => true,
                (DocWriteKind::Update, DocWriteKind::Update) => true,
                (DocWriteKind::Upsert, DocWriteKind::Upsert) => true,
                (DocWriteKind::Delete, DocWriteKind::Delete) => true,
                _ => false,
            }
        };
    match (s.stage, event) {
        (WriteStage::Lookup, DocWriteEvent::LookedUp { collection_loaded, present }) => {
            if (is_op(DocWriteKind::Update) || is_op(DocWriteKind::Delete)) && !(collection_loaded && present) {
                ended_with(&s, WriteOutcome::Done(false))
            } else if is_op(DocWriteKind::Delete) {
                (DocWriteState { op: s.op, stage: WriteStage::Restrict, locks_held: false }, DocWriteAction::CheckRestrict)
            } else {
                (DocWriteState { op: s.op, stage: WriteStage::Locks, locks_held: false }, DocWriteAction::ApplyLocks)
            }
        },
        (WriteStage::Restrict, DocWriteEvent::RestrictChecked { ok }) => {
            if ok {
                (DocWriteState { op: s.op, stage: WriteStage::Locks, locks_held: false }, DocWriteAction::ApplyLocks)
            } else {
                ended_with(&s, WriteOutcome::Error)
            }
        },
        (WriteStage::Locks, DocWriteEvent::LocksApplied { ok }) => {
            if ok {
                (DocWriteState { op: s.op, stage: WriteStage::Open, locks_held: true }, DocWriteAction::OpenTx)
            } else {
                ended_with(&s, WriteOutcome::Error)
            }
        },
        (WriteStage::Open, DocWriteEvent::TxOpened { ok }) => {
            if !ok {
                ended_with(&s, WriteOutcome::Error)
            } else if is_op(DocWriteKind::Create) || is_op(DocWriteKind::Update) {
                (DocWriteState { op: s.op, stage: WriteStage::Recheck, locks_held: s.locks_held }, DocWriteAction::Recheck)
            } else {
                (DocWriteState { op: s.op, stage: WriteStage::Stage, locks_held: s.locks_held }, DocWriteAction::StageWrites)
            }
        },
        (WriteStage::Recheck, DocWriteEvent::Rechecked { ok, present }) => {
            if !ok {
                ended_with(&s, WriteOutcome::Error)
            } else if (is_op(DocWriteKind::Create) && present) || (is_op(DocWriteKind::Update) && !present) {
                ended_with(&s, WriteOutcome::Done(false))
            } else {
                (DocWriteState { op: s.op, stage: WriteStage::Stage, locks_held: s.locks_held }, DocWriteAction::StageWrites)
            }
        },
        (WriteStage::Stage, DocWriteEvent::Staged { ok }) => {
            if ok {
                (DocWriteState { op: s.op, stage: WriteStage::Commit, locks_held: s.locks_held }, DocWriteAction::Commit)
            } else {
                ended_with(&s, WriteOutcome::Error)
            }
        },
        (WriteStage::Commit, DocWriteEvent::Committed { outcome }) => {
            match outcome {
                CommitOutcome::Committed => (
                    DocWriteState { op: s.op, stage: WriteStage::Ended, locks_held: false },
                    DocWriteAction::Finish { undo_locks: false, outcome: WriteOutcome::Done(true) },
                ),
                CommitOutcome::Conflict => if is_op(DocWriteKind::Upsert) {
                    ended_with(&s, WriteOutcome::UpsertConflict)
                } else {
                    ended_with(&s, WriteOutcome::Done(false))
                },
                CommitOutcome::Failed => ended_with(&s, WriteOutcome::Error),
            }
        },
        _ => ended_with(&s, WriteOutcome::Error),
    }
}

/// The locks are held exactly between their application and the end.
pub open spec fn write_state_ok(s: DocWriteState) -> bool {
    s.locks_held <==> (s.stage == WriteStage::Open || s.stage == WriteStage::Recheck || s.stage
        == WriteStage::Stage || s.stage == WriteStage::Commit)
}

/// Law: every step keeps the lock bookkeeping right, and a write that ends
/// without committing gives back exactly the locks it took: after a
/// successful lock plan, every way to fail (an error, nothing to write, a
/// lost commit race) undoes the plan, and no write undoes a plan it did not
/// apply. Only a commit ends with `Done(true)`, and it keeps the locks.
pub proof fn law_failed_write_gives_locks_back(s: DocWriteState, e: DocWriteEvent)
    requires
        write_state_ok(s),
    ensures
        write_state_ok(spec_document_write_step(s, e).0),
        spec_document_write_step(s, e).1 matches DocWriteAction::Finish { undo_locks, outcome } ==> (
            outcome == WriteOutcome::Done(true) ==> (!undo_locks && s.stage == WriteStage::Commit
                && e == (DocWriteEvent::Committed { outcome: CommitOutcome::Committed })))
            && (outcome != WriteOutcome::Done(true) ==> undo_locks == s.locks_held),
        spec_document_write_step(s, e).1 is Commit ==> s.locks_held || s.stage == WriteStage::Stage,
{
}

/// Law: a write answered with `Done(true)` went through every step its kind
/// needs: an update or delete finds the document, a create and an update
/// re-check it inside the transaction, and every write takes its locks
/// before the transaction and commits last.
pub proof fn law_write_order(s: DocWriteState, e: DocWriteEvent)
    ensures
        spec_document_write_step(s, e).1 is ApplyLocks ==> (s.stage == WriteStage::Lookup && s.op != DocWriteKind::Delete)
            || s.stage == WriteStage::Restrict,
        spec_document_write_step(s, e).1 is OpenTx ==> s.stage == WriteStage::Locks,
        spec_document_write_step(s, e).1 is Recheck ==> s.op == DocWriteKind::Create || s.op == DocWriteKind::Update,
        spec_document_write_step(s, e).1 is StageWrites ==> (s.stage == WriteStage::Recheck) || (s.stage
            == WriteStage::Open && (s.op == DocWriteKind::Upsert || s.op == DocWriteKind::Delete)),
        spec_document_write_step(s, e).1 is Commit ==> s.stage == WriteStage::Stage,
{
}

/// The holder of a lock in a lock map, if any.
pub open spec fn lock_of(m: Map<Seq<u8>, Seq<u8>>, k: Seq<u8>) -> Option<Seq<u8>> {
    if m.contains_key(k) {
        Some(m[k])
    } else {
        None
    }
}

/// The lock map with the entry of `k` set to `v` (removed for `None`).
pub open spec fn with_lock(m: Map<Seq<u8>, Seq<u8>>, k: Seq<u8>, v: Option<Seq<u8>>) -> Map<Seq<u8>, Seq<u8>> {
    match v {
        Some(x) => m.insert(k, x),
        None => m.remove(k),
    }
}

pub open spec fn action_key(a: LockActionModel) -> Seq<u8> {
    match a {
        LockActionModel::Claim { lock_key, .. } => lock_key,
        LockActionModel::Release { lock_key, .. } => lock_key,
    }
}

/// The lock value of the document a step is for: its key's UTF-8 bytes.
pub open spec fn action_holder(a: LockActionModel) -> Seq<u8> {
    match a {
        LockActionModel::Claim { doc_key, .. } => utf8(doc_key),
        LockActionModel::Release { doc_key, .. } => utf8(doc_key),
    }
}

/// Applies lock steps in order to a lock map, stopping at the first refused
/// claim; the map after, and whether every step went through.
pub open spec fn apply_lock_actions(m: Map<Seq<u8>, Seq<u8>>, acts: Seq<LockActionModel>) -> (Map<Seq<u8>, Seq<u8>>, bool)
    decreases acts.len(),
{
    if acts.len() == 0 {
        (m, true)
    } else {
        let a = acts[0];
        let k = action_key(a);
        if a is Claim {
            let (next, ok) = spec_claim(lock_of(m, k), action_holder(a));
            if ok {
                apply_lock_actions(with_lock(m, k, next), acts.drop_first())
            } else {
                (with_lock(m, k, next), false)
            }
        } else {
            apply_lock_actions(with_lock(m, k, spec_release(lock_of(m, k), action_holder(a))), acts.drop_first())
        }
    }
}

/// The lock map agrees with the change: every lock the steps claim is free,
/// and every lock they release is held by its document.
pub open spec fn locks_consistent(m: Map<Seq<u8>, Seq<u8>>, acts: Seq<LockActionModel>) -> bool {
    forall|i: int|
        0 <= i < acts.len() ==> if (#[trigger] acts[i]) is Claim {
            lock_of(m, action_key(acts[i])) is None
        } else {
            lock_of(m, action_key(acts[i])) == Some(action_holder(acts[i]))
        }
}

/// `b` undoes `a`: the same lock and document, a claim for a release.
pub open spec fn undoes(b: LockActionModel, a: LockActionModel) -> bool {
    &&& action_key(b) == action_key(a)
    &&& action_holder(b) == action_holder(a)
    &&& (b is Claim <==> a is Release)
}

/// Some step of `f` is undone by `x`.
pub open spec fn undoes_some(x: LockActionModel, f: Seq<LockActionModel>) -> bool {
    exists|j: int| 0 <= j < f.len() && undoes(x, #[trigger] f[j])
}

/// Some step of `b` touches the lock `k`.
pub open spec fn touches(b: Seq<LockActionModel>, k: Seq<u8>) -> bool {
    exists|i: int| 0 <= i < b.len() && action_key(#[trigger] b[i]) == k
}

/// Every step of `back` undoes a step of `fwd`, and every lock `fwd`
/// touches, `back` touches.
pub open spec fn plans_match(back: Seq<LockActionModel>, fwd: Seq<LockActionModel>) -> bool {
    &&& forall|i: int| 0 <= i < back.len() ==> undoes_some(#[trigger] back[i], fwd)
    &&& forall|j: int| 0 <= j < fwd.len() ==> touches(back, action_key(#[trigger] fwd[j]))
}

/// An index whose two indexed values list no object key twice, as the
/// values of a document map do.
pub open spec fn plain_index_values(def: IndexDefModel, old: Option<DocModel>, new: Option<DocModel>) -> bool {
    opt_no_repeated_keys(doc_index_value(old, def.fields)) && opt_no_repeated_keys(doc_index_value(new, def.fields))
}

proof fn lemma_index_plans_match(def: IndexDefModel, old: Option<DocModel>, new: Option<DocModel>)
    requires
        plain_index_values(def, old, new),
    ensures
        plans_match(index_lock_actions(def, new, old), index_lock_actions(def, old, new)),
{
    let fwd = index_lock_actions(def, old, new);
    let back = index_lock_actions(def, new, old);
    let nv = doc_index_value(new, def.fields);
    let ov = doc_index_value(old, def.fields);
    if nv is Some && ov is Some {
        law_value_eq_symmetric(nv.unwrap(), ov.unwrap());
    }
    assert forall|i: int| 0 <= i < back.len() implies undoes_some(#[trigger] back[i], fwd) by {
        if back[i] is Claim {
            let j = if nv is Some { 1int } else { 0int };
            assert(undoes(back[i], fwd[j]));
        } else {
            assert(undoes(back[i], fwd[0]));
        }
    }
    assert forall|j: int| 0 <= j < fwd.len() implies touches(back, action_key(#[trigger] fwd[j])) by {
        if fwd[j] is Claim {
            let i = if ov is Some { 1int } else { 0int };
            assert(action_key(back[i]) == action_key(fwd[j]));
        } else {
            assert(action_key(back[0]) == action_key(fwd[j]));
        }
    }
}

proof fn lemma_undoes_some_concat(x: LockActionModel, f1: Seq<LockActionModel>, f2: Seq<LockActionModel>)
    requires
        undoes_some(x, f1) || undoes_some(x, f2),
    ensures
        undoes_some(x, f1 + f2),
{
    if undoes_some(x, f1) {
        let j = choose|j: int| 0 <= j < f1.len() && undoes(x, #[trigger] f1[j]);
        assert((f1 + f2)[j] == f1[j]);
    } else {
        let j = choose|j: int| 0 <= j < f2.len() && undoes(x, #[trigger] f2[j]);
        assert((f1 + f2)[j + f1.len()] == f2[j]);
    }
}

proof fn lemma_touches_concat(b1: Seq<LockActionModel>, b2: Seq<LockActionModel>, k: Seq<u8>)
    requires
        touches(b1, k) || touches(b2, k),
    ensures
        touches(b1 + b2, k),
{
    if touches(b1, k) {
        let i = choose|i: int| 0 <= i < b1.len() && action_key(#[trigger] b1[i]) == k;
        assert((b1 + b2)[i] == b1[i]);
    } else {
        let i = choose|i: int| 0 <= i < b2.len() && action_key(#[trigger] b2[i]) == k;
        assert((b1 + b2)[i + b1.len()] == b2[i]);
    }
}

pub(crate) proof fn lemma_plans_match_concat(b1: Seq<LockActionModel>, f1: Seq<LockActionModel>, b2: Seq<LockActionModel>, f2: Seq<LockActionModel>)
    requires
        plans_match(b1, f1),
        plans_match(b2, f2),
    ensures
        plans_match(b1 + b2, f1 + f2),
{
    let b = b1 + b2;
    let f = f1 + f2;
    assert forall|i: int| 0 <= i < b.len() implies undoes_some(#[trigger] b[i], f) by {
        if i < b1.len() {
            assert(b[i] == b1[i]);
            assert(undoes_some(b1[i], f1));
        } else {
            assert(b[i] == b2[i - b1.len()]);
            assert(undoes_some(b2[i - b1.len()], f2));
        }
        lemma_undoes_some_concat(b[i], f1, f2);
    }
    assert forall|j: int| 0 <= j < f.len() implies touches(b, action_key(#[trigger] f[j])) by {
        if j < f1.len() {
            assert(f[j] == f1[j]);
            assert(touches(b1, action_key(f1[j])));
        } else {
            assert(f[j] == f2[j - f1.len()]);
            assert(touches(b2, action_key(f2[j - f1.len()])));
        }
        lemma_touches_concat(b1, b2, action_key(f[j]));
    }
}

pub(crate) proof fn lemma_plans_match(defs: Seq<IndexDefModel>, old: Option<DocModel>, new: Option<DocModel>)
    requires
        forall|j: int| 0 <= j < defs.len() ==> plain_index_values(#[trigger] defs[j], old, new),
    ensures
        plans_match(spec_lock_plan(defs, new, old), spec_lock_plan(defs, old, new)),
    decreases defs.len(),
{
    if defs.len() == 0 {
    } else {
        let d = defs.drop_last();
        assert forall|j: int| 0 <= j < d.len() implies plain_index_values(#[trigger] d[j], old, new) by {
            assert(d[j] == defs[j]);
        }
        lemma_plans_match(d, old, new);
        let last = defs.last();
        if last.unique {
            assert(plain_index_values(defs[defs.len() - 1], old, new));
            lemma_index_plans_match(last, old, new);
            lemma_plans_match_concat(
                spec_lock_plan(d, new, old),
                spec_lock_plan(d, old, new),
                index_lock_actions(last, new, old),
                index_lock_actions(last, old, new),
            );
        } else {
            assert(spec_lock_plan(defs, new, old) =~= spec_lock_plan(d, new, old));
            assert(spec_lock_plan(defs, old, new) =~= spec_lock_plan(d, old, new));
        }
    }
}

/// Steps on one lock are all claims or all releases, all for one document.
pub open spec fn steps_coherent(acts: Seq<LockActionModel>) -> bool {
    forall|i: int, j: int|
        0 <= i < acts.len() && 0 <= j < acts.len() && action_key(#[trigger] acts[i]) == action_key(#[trigger] acts[j])
            ==> (acts[i] is Claim <==> acts[j] is Claim) && action_holder(acts[i]) == action_holder(acts[j])
}

/// Each step finds its lock free or already as the step leaves it.
pub open spec fn steps_fit(m: Map<Seq<u8>, Seq<u8>>, acts: Seq<LockActionModel>) -> bool {
    forall|i: int|
        0 <= i < acts.len() ==> if (#[trigger] acts[i]) is Claim {
            lock_of(m, action_key(acts[i])) is None || lock_of(m, action_key(acts[i])) == Some(action_holder(acts[i]))
        } else {
            lock_of(m, action_key(acts[i])) is None || lock_of(m, action_key(acts[i])) == Some(action_holder(acts[i]))
        }
}

/// The entry of `k` after coherent steps: as a step on `k` leaves it, or as
/// it was when no step touches it.
pub open spec fn touch_effect(m: Map<Seq<u8>, Seq<u8>>, acts: Seq<LockActionModel>, k: Seq<u8>) -> Option<Seq<u8>> {
    if touches(acts, k) {
        let i = choose|i: int| 0 <= i < acts.len() && action_key(#[trigger] acts[i]) == k;
        if acts[i] is Claim {
            Some(action_holder(acts[i]))
        } else {
            None
        }
    } else {
        lock_of(m, k)
    }
}

proof fn lemma_effect_at(m: Map<Seq<u8>, Seq<u8>>, acts: Seq<LockActionModel>, i: int)
    requires
        steps_coherent(acts),
        0 <= i < acts.len(),
    ensures
        touch_effect(m, acts, action_key(acts[i])) == if acts[i] is Claim {
            Some(action_holder(acts[i]))
        } else {
            None
        },
{
    let k = action_key(acts[i]);
    assert(touches(acts, k));
    let j = choose|j: int| 0 <= j < acts.len() && action_key(#[trigger] acts[j]) == k;
    assert(action_key(acts[i]) == action_key(acts[j]));
}

/// Coherent steps that fit the map all go through, and leave each lock as
/// a step on it leaves it.
proof fn lemma_apply_coherent(m: Map<Seq<u8>, Seq<u8>>, acts: Seq<LockActionModel>)
    requires
        steps_coherent(acts),
        steps_fit(m, acts),
    ensures
        apply_lock_actions(m, acts).1,
        forall|k: Seq<u8>| #[trigger] lock_of(apply_lock_actions(m, acts).0, k) == touch_effect(m, acts, k),
    decreases acts.len(),
{
    if acts.len() == 0 {
        assert forall|k: Seq<u8>| #[trigger] lock_of(apply_lock_actions(m, acts).0, k) == touch_effect(m, acts, k) by {
            assert(!touches(acts, k));
        }
    } else {
        let a = acts[0];
        let k0 = action_key(a);
        let r = acts.drop_first();
        let e0: Option<Seq<u8>> = if a is Claim { Some(action_holder(a)) } else { None };
        assert(acts[0] == a);
        let m2 = with_lock(m, k0, e0);
        assert forall|kk: Seq<u8>| #[trigger] lock_of(m2, kk) == if kk == k0 { e0 } else { lock_of(m, kk) } by {}
        assert(apply_lock_actions(m, acts) == apply_lock_actions(m2, r));
        assert forall|i: int, j: int|
            0 <= i < r.len() && 0 <= j < r.len() && action_key(#[trigger] r[i]) == action_key(#[trigger] r[j]) implies
            (r[i] is Claim <==> r[j] is Claim) && action_holder(r[i]) == action_holder(r[j]) by {
            assert(r[i] == acts[i + 1] && r[j] == acts[j + 1]);
        }
        assert forall|i: int| 0 <= i < r.len() implies (if (#[trigger] r[i]) is Claim {
            lock_of(m2, action_key(r[i])) is None || lock_of(m2, action_key(r[i])) == Some(action_holder(r[i]))
        } else {
            lock_of(m2, action_key(r[i])) is None || lock_of(m2, action_key(r[i])) == Some(action_holder(r[i]))
        }) by {
            assert(r[i] == acts[i + 1]);
            if action_key(r[i]) == k0 {
                assert(action_key(acts[0]) == action_key(acts[i + 1]));
            }
        }
        lemma_apply_coherent(m2, r);
        assert forall|k: Seq<u8>| #[trigger] lock_of(apply_lock_actions(m, acts).0, k) == touch_effect(m, acts, k) by {
            assert(lock_of(apply_lock_actions(m2, r).0, k) == touch_effect(m2, r, k));
            if k == k0 {
                lemma_effect_at(m, acts, 0);
                if touches(r, k) {
                    let j = choose|j: int| 0 <= j < r.len() && action_key(#[trigger] r[j]) == k;
                    lemma_effect_at(m2, r, j);
                    assert(r[j] == acts[j + 1]);
                    assert(action_key(acts[0]) == action_key(acts[j + 1]));
                }
            } else if touches(acts, k) {
                let i = choose|i: int| 0 <= i < acts.len() && action_key(#[trigger] acts[i]) == k;
                lemma_effect_at(m, acts, i);
                assert(i != 0);
                assert(r[i - 1] == acts[i]);
                lemma_effect_at(m2, r, i - 1);
            } else {
                if touches(r, k) {
                    let j = choose|j: int| 0 <= j < r.len() && action_key(#[trigger] r[j]) == k;
                    assert(r[j] == acts[j + 1]);
                    assert(touches(acts, k));
                }
            }
        }
    }
}

/// Claims in a lock plan are for the new document, releases for the old.
pub(crate) proof fn lemma_plan_holders(defs: Seq<IndexDefModel>, old: Option<DocModel>, new: Option<DocModel>)
    ensures
        forall|i: int| 0 <= i < spec_lock_plan(defs, old, new).len() ==> if (#[trigger] spec_lock_plan(defs, old, new)[i]) is Claim {
            new is Some && action_holder(spec_lock_plan(defs, old, new)[i]) == utf8(spec_doc_key(new.unwrap().id))
        } else {
            old is Some && action_holder(spec_lock_plan(defs, old, new)[i]) == utf8(spec_doc_key(old.unwrap().id))
        },
    decreases defs.len(),
{
    if defs.len() > 0 {
        let d = defs.drop_last();
        lemma_plan_holders(d, old, new);
        let p = spec_lock_plan(d, old, new);
        let last = if defs.last().unique { index_lock_actions(defs.last(), old, new) } else { seq![] };
        assert(spec_lock_plan(defs, old, new) == p + last);
        assert forall|i: int| 0 <= i < (p + last).len() implies if (#[trigger] (p + last)[i]) is Claim {
            new is Some && action_holder((p + last)[i]) == utf8(spec_doc_key(new.unwrap().id))
        } else {
            old is Some && action_holder((p + last)[i]) == utf8(spec_doc_key(old.unwrap().id))
        } by {
            if i < p.len() {
                assert((p + last)[i] == p[i]);
            } else {
                assert((p + last)[i] == last[i - p.len()]);
            }
        }
    }
}

/// Law: giving back the locks of a failed write leaves the lock map as it
/// was. When the lock map agrees with the change (every lock the change
/// claims is free, every lock it releases is held by the old document),
/// applying the change's lock plan goes through, and applying then the
/// plan with the two documents swapped goes through and restores the map.
/// (Indexed values list no object key twice, as values held in a document
/// map never do.) The stored document changes only at a commit, which a
/// failed write never reaches (`law_failed_write_gives_locks_back`).
pub proof fn law_failed_write_restores_locks(m: Map<Seq<u8>, Seq<u8>>, defs: Seq<IndexDefModel>, old: Option<DocModel>, new: Option<DocModel>)
    requires
        forall|j: int| 0 <= j < defs.len() ==> plain_index_values(#[trigger] defs[j], old, new),
        locks_consistent(m, spec_lock_plan(defs, old, new)),
    ensures
        apply_lock_actions(m, spec_lock_plan(defs, old, new)).1,
        apply_lock_actions(apply_lock_actions(m, spec_lock_plan(defs, old, new)).0, spec_lock_plan(defs, new, old))
            == (m, true),
{
    let fwd = spec_lock_plan(defs, old, new);
    lemma_plans_match(defs, old, new);
    lemma_plan_holders(defs, old, new);
    assert forall|i: int| 0 <= i < fwd.len() implies (if (#[trigger] fwd[i]) is Claim {
        lock_of(m, action_key(fwd[i])) is None
    } else {
        lock_of(m, action_key(fwd[i])) == Some(action_holder(fwd[i]))
    }) by {}
    assert forall|i: int, j: int|
        0 <= i < fwd.len() && 0 <= j < fwd.len() && action_key(#[trigger] fwd[i]) == action_key(#[trigger] fwd[j]) implies
        (fwd[i] is Claim <==> fwd[j] is Claim) && action_holder(fwd[i]) == action_holder(fwd[j]) by {}
    lemma_restore(m, fwd, spec_lock_plan(defs, new, old));
}

/// Steps that agree with the map and are coherent go through, and steps
/// that each undo one of them, touching every lock they touch, put the map
/// back as it was.
pub(crate) proof fn lemma_restore(m: Map<Seq<u8>, Seq<u8>>, fwd: Seq<LockActionModel>, back: Seq<LockActionModel>)
    requires
        plans_match(back, fwd),
        steps_coherent(fwd),
        locks_consistent(m, fwd),
    ensures
        apply_lock_actions(m, fwd).1,
        apply_lock_actions(apply_lock_actions(m, fwd).0, back) == (m, true),
{
    lemma_apply_coherent(m, fwd);
    let m1 = apply_lock_actions(m, fwd).0;
    assert forall|i: int, j: int|
        0 <= i < back.len() && 0 <= j < back.len() && action_key(#[trigger] back[i]) == action_key(#[trigger] back[j]) implies
        (back[i] is Claim <==> back[j] is Claim) && action_holder(back[i]) == action_holder(back[j]) by {
        assert(undoes_some(back[i], fwd));
        assert(undoes_some(back[j], fwd));
        let p = choose|p: int| 0 <= p < fwd.len() && undoes(back[i], #[trigger] fwd[p]);
        let q = choose|q: int| 0 <= q < fwd.len() && undoes(back[j], #[trigger] fwd[q]);
        assert(action_key(fwd[p]) == action_key(fwd[q]));
    }
    assert forall|i: int| 0 <= i < back.len() implies (if (#[trigger] back[i]) is Claim {
        lock_of(m1, action_key(back[i])) is None || lock_of(m1, action_key(back[i])) == Some(action_holder(back[i]))
    } else {
        lock_of(m1, action_key(back[i])) is None || lock_of(m1, action_key(back[i])) == Some(action_holder(back[i]))
    }) by {
        assert(undoes_some(back[i], fwd));
        let p = choose|p: int| 0 <= p < fwd.len() && undoes(back[i], #[trigger] fwd[p]);
        lemma_effect_at(m, fwd, p);
        assert(lock_of(m1, action_key(fwd[p])) == touch_effect(m, fwd, action_key(fwd[p])));
    }
    lemma_apply_coherent(m1, back);
    let m2 = apply_lock_actions(m1, back).0;
    assert forall|k: Seq<u8>| #[trigger] lock_of(m2, k) == lock_of(m, k) by {
        assert(lock_of(m2, k) == touch_effect(m1, back, k));
        if touches(back, k) {
            let i = choose|i: int| 0 <= i < back.len() && action_key(#[trigger] back[i]) == k;
            lemma_effect_at(m1, back, i);
            assert(undoes_some(back[i], fwd));
            let p = choose|p: int| 0 <= p < fwd.len() && undoes(back[i], #[trigger] fwd[p]);
            assert(locks_consistent(m, fwd) ==> (if fwd[p] is Claim {
                lock_of(m, action_key(fwd[p])) is None
            } else {
                lock_of(m, action_key(fwd[p])) == Some(action_holder(fwd[p]))
            }));
        } else {
            assert(lock_of(m1, k) == touch_effect(m, fwd, k));
            if touches(fwd, k) {
                let j = choose|j: int| 0 <= j < fwd.len() && action_key(#[trigger] fwd[j]) == k;
                assert(touches(back, action_key(fwd[j])));
            }
        }
    }
    assert(m2 =~= m) by {
        assert forall|k: Seq<u8>| m2.contains_key(k) <==> m.contains_key(k) by {
            assert(lock_of(m2, k) == lock_of(m, k));
        }
        assert forall|k: Seq<u8>| m2.contains_key(k) implies m2[k] == m[k] by {
            assert(lock_of(m2, k) == lock_of(m, k));
        }
    }
}

/// The entry of `k` after the steps as the first step on `k` leaves it,
/// applied to the entry as it was before: a claim as `spec_claim`, a
/// release as `spec_release`; other entries stay.
pub open spec fn lock_effect(m: Map<Seq<u8>, Seq<u8>>, acts: Seq<LockActionModel>, k: Seq<u8>) -> Option<Seq<u8>>
    decreases acts.len(),
{
    if acts.len() == 0 {
        lock_of(m, k)
    } else if action_key(acts[0]) == k {
        if acts[0] is Claim {
            spec_claim(lock_of(m, k), action_holder(acts[0])).0
        } else {
            spec_release(lock_of(m, k), action_holder(acts[0]))
        }
    } else {
        lock_effect(m, acts.drop_first(), k)
    }
}

/// Every claim of the steps finds its lock free or held by its document.
pub open spec fn claims_granted(m: Map<Seq<u8>, Seq<u8>>, acts: Seq<LockActionModel>) -> bool {
    forall|i: int| 0 <= i < acts.len() && (#[trigger] acts[i]) is Claim ==> spec_claim(
        lock_of(m, action_key(acts[i])),
        action_holder(acts[i]),
    ).1
}

proof fn lemma_lock_effect_same_entry(m1: Map<Seq<u8>, Seq<u8>>, m2: Map<Seq<u8>, Seq<u8>>, acts: Seq<LockActionModel>, k: Seq<u8>)
    requires
        lock_of(m1, k) == lock_of(m2, k),
    ensures
        lock_effect(m1, acts, k) == lock_effect(m2, acts, k),
    decreases acts.len(),
{
    if acts.len() > 0 {
        lemma_lock_effect_same_entry(m1, m2, acts.drop_first(), k);
    }
}

/// Steps on `k` that repeat the step `t` leave an entry that `t` keeps as it
/// is.
proof fn lemma_lock_effect_repeat(m: Map<Seq<u8>, Seq<u8>>, acts: Seq<LockActionModel>, k: Seq<u8>, t: LockActionModel)
    requires
        forall|i: int|
            0 <= i < acts.len() && action_key(#[trigger] acts[i]) == k ==> (acts[i] is Claim <==> t is Claim)
                && action_holder(acts[i]) == action_holder(t),
        t is Claim ==> spec_claim(lock_of(m, k), action_holder(t)).0 == lock_of(m, k),
        t is Release ==> spec_release(lock_of(m, k), action_holder(t)) == lock_of(m, k),
    ensures
        lock_effect(m, acts, k) == lock_of(m, k),
    decreases acts.len(),
{
    if acts.len() > 0 {
        if action_key(acts[0]) != k {
            assert forall|i: int|
                0 <= i < acts.drop_first().len() && action_key(#[trigger] acts.drop_first()[i]) == k implies (
                acts.drop_first()[i] is Claim <==> t is Claim) && action_holder(acts.drop_first()[i]) == action_holder(t) by {
                assert(acts.drop_first()[i] == acts[i + 1]);
            }
            lemma_lock_effect_repeat(m, acts.drop_first(), k, t);
        }
    }
}

/// Law: applying a lock plan whose steps on each lock are all claims or all
/// releases, all for one document (as a plan's are, claims for the new
/// document and releases for the old, unless a claimed and a released lock
/// key coincide), goes through exactly when every claim finds its lock free
/// or already its document's; then each lock touched ends as its first step
/// makes it from the entry it had (a claim takes the lock, a release frees
/// the document's own lock and leaves another's; a repeated step changes
/// nothing more), and every other lock stays. When a claim is refused, the
/// application stops there.
pub proof fn law_lock_plan_effect(m: Map<Seq<u8>, Seq<u8>>, acts: Seq<LockActionModel>)
    requires
        steps_coherent(acts),
    ensures
        apply_lock_actions(m, acts).1 <==> claims_granted(m, acts),
        apply_lock_actions(m, acts).1 ==> forall|k: Seq<u8>| #[trigger] lock_of(apply_lock_actions(m, acts).0, k)
            == lock_effect(m, acts, k),
    decreases acts.len(),
{
    if acts.len() > 0 {
        let a = acts[0];
        let k0 = action_key(a);
        let r = acts.drop_first();
        let h = action_holder(a);
        let step_ok = a is Claim ==> spec_claim(lock_of(m, k0), h).1;
        let m2 = if a is Claim {
            with_lock(m, k0, spec_claim(lock_of(m, k0), h).0)
        } else {
            with_lock(m, k0, spec_release(lock_of(m, k0), h))
        };
        assert forall|i: int, j: int|
            0 <= i < r.len() && 0 <= j < r.len() && action_key(#[trigger] r[i]) == action_key(#[trigger] r[j]) implies
            (r[i] is Claim <==> r[j] is Claim) && action_holder(r[i]) == action_holder(r[j]) by {
            assert(r[i] == acts[i + 1] && r[j] == acts[j + 1]);
        }
        assert forall|i: int|
            0 <= i < r.len() && action_key(#[trigger] r[i]) == k0 implies (r[i] is Claim <==> a is Claim)
                && action_holder(r[i]) == h by {
            assert(r[i] == acts[i + 1]);
            assert(action_key(acts[0]) == action_key(acts[i + 1]));
        }
        assert forall|kk: Seq<u8>| kk != k0 implies #[trigger] lock_of(m2, kk) == lock_of(m, kk) by {}
        law_lock_plan_effect(m2, r);
        if step_ok {
            assert(lock_of(m2, k0) == if a is Claim { spec_claim(lock_of(m, k0), h).0 } else { spec_release(lock_of(m, k0), h) });
            assert(claims_granted(m2, r) <==> claims_granted(m, r)) by {
                assert forall|i: int| 0 <= i < r.len() && (#[trigger] r[i]) is Claim implies spec_claim(
                    lock_of(m2, action_key(r[i])),
                    action_holder(r[i]),
                ).1 == spec_claim(lock_of(m, action_key(r[i])), action_holder(r[i])).1 by {
                    if action_key(r[i]) != k0 {
                        assert(lock_of(m2, action_key(r[i])) == lock_of(m, action_key(r[i])));
                    }
                }
            }
        }
        assert(claims_granted(m, acts) <==> (step_ok && claims_granted(m, r))) by {
            if claims_granted(m, acts) {
                assert forall|i: int| 0 <= i < r.len() && (#[trigger] r[i]) is Claim implies spec_claim(
                    lock_of(m, action_key(r[i])),
                    action_holder(r[i]),
                ).1 by {
                    assert(r[i] == acts[i + 1]);
                }
                if a is Claim {
                    assert(acts[0] is Claim);
                }
            }
            if step_ok && claims_granted(m, r) {
                assert forall|i: int| 0 <= i < acts.len() && (#[trigger] acts[i]) is Claim implies spec_claim(
                    lock_of(m, action_key(acts[i])),
                    action_holder(acts[i]),
                ).1 by {
                    if i > 0 {
                        assert(acts[i] == r[i - 1]);
                    }
                }
            }
        }
        if step_ok {
            assert(apply_lock_actions(m, acts) == apply_lock_actions(m2, r));
        }
        if apply_lock_actions(m, acts).1 {
            assert forall|k: Seq<u8>| #[trigger] lock_of(apply_lock_actions(m, acts).0, k) == lock_effect(m, acts, k) by {
                assert(lock_of(apply_lock_actions(m2, r).0, k) == lock_effect(m2, r, k));
                if k == k0 {
                    lemma_lock_effect_repeat(m2, r, k, a);
                } else {
                    lemma_lock_effect_same_entry(m2, m, r, k);
                }
            }
        }
    }
}

} // verus!
