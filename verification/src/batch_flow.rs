//! The decisions of an atomic write batch once its writes are collapsed:
//! each document write takes its unique locks in turn (a store is first
//! looked up, then its lock plan applied and its vectors checked; a removal
//! releases the locks of the stored document), then one transaction stages
//! every write and commits. A batch that fails at any step gives back the
//! locks of every document write whose lock step it reached, and commits
//! nothing. The caller performs each action and reports what happened.

use vstd::prelude::*;
use crate::doc_write_flow::{
    CommitOutcome, action_holder, action_key, apply_lock_actions, lemma_plan_holders, lemma_plans_match,
    lemma_restore, locks_consistent, plain_index_values, steps_coherent, touches, undoes, undoes_some,
};
use crate::document::DocModel;
use crate::registry::IndexDefModel;
use crate::unique::{LockActionModel, spec_lock_plan};

verus! {

/// What a collapsed document write does.
#[derive(Clone, Copy, PartialEq, Eq, Structural, Debug)]
pub enum BatchItem {
    /// Store the document (create or replace).
    Store,
    /// Remove the stored document.
    Remove,
}

/// Where a batch stands: the action it last asked for.
#[derive(Clone, Copy, PartialEq, Eq, Structural, Debug)]
pub enum BatchStage {
    /// Waiting for the collection and the stored document of the current write.
    Lookup,
    /// Waiting for the lock step of the current write.
    Locks,
    /// Waiting for the vector check of the current store.
    Vectors,
    /// Waiting for the transaction to open.
    Open,
    /// Waiting for every write to be staged in the transaction.
    Stage,
    /// Waiting for the commit.
    Commit,
    /// The batch has ended.
    Ended,
}

/// The state of a batch: its document writes, the stage, the write being
/// prepared (the count of writes once all are), and the writes whose lock
/// step was performed, in order.
pub struct BatchCommitState {
    pub items: Vec<BatchItem>,
    pub stage: BatchStage,
    pub next: usize,
    pub locked: Vec<usize>,
}

pub ghost struct BatchModel {
    pub items: Seq<BatchItem>,
    pub stage: BatchStage,
    pub next: usize,
    pub locked: Seq<usize>,
}

impl View for BatchCommitState {
    type V = BatchModel;

    open spec fn view(&self) -> BatchModel {
        BatchModel { items: self.items@, stage: self.stage, next: self.next, locked: self.locked@ }
    }
}

/// What the caller reports after performing an action. `ok: false` stands
/// for an error of the step, which the caller keeps to hand back.
#[derive(Clone, Copy, PartialEq, Eq, Structural, Debug)]
pub enum BatchCommitEvent {
    /// Whether the collection was made sure of and the document looked up,
    /// whether the document is stored and whether its collection is loaded.
    LookedUp { ok: bool, present: bool, loaded: bool },
    /// Whether the lock step of the current write went through.
    LocksApplied { ok: bool },
    /// Whether the vectors of the current store are valid.
    VectorsChecked { ok: bool },
    /// Whether the transaction opened.
    TxOpened { ok: bool },
    /// Whether every document and edge write was staged.
    Staged { ok: bool },
    /// How the commit went.
    Committed { outcome: CommitOutcome },
}

impl View for BatchCommitEvent {
    type V = BatchCommitEvent;

    open spec fn view(&self) -> BatchCommitEvent {
        *self
    }
}

/// How a batch ends.
#[derive(Clone, Copy, PartialEq, Eq, Structural, Debug)]
pub enum BatchOutcome {
    /// The batch had no operation: `Ok` with nothing done.
    Empty,
    /// The transaction committed: `Ok`.
    Committed,
    /// The error of the failed step.
    Error,
    /// Another writer committed first: a conflict error.
    Conflict,
}

/// The next action of a batch.
pub enum BatchCommitAction {
    /// Make sure of the collection of write `item` and look its document up.
    LookUp { item: usize },
    /// Perform the lock step of write `item`: the unique-lock plan of a
    /// store, the release of the stored document's locks for a removal.
    ApplyLocks { item: usize },
    /// Check the vectors of store `item`.
    CheckVectors { item: usize },
    /// Open the write transaction.
    OpenTx,
    /// Stage every document write, then the edge writes.
    StageWrites,
    /// Commit the transaction.
    Commit,
    /// End the batch, first giving back the lock steps of the writes in
    /// `undo`, in that order.
    Finish { undo: Vec<usize>, outcome: BatchOutcome },
}

pub ghost enum BatchActionModel {
    LookUp { item: usize },
    ApplyLocks { item: usize },
    CheckVectors { item: usize },
    OpenTx,
    StageWrites,
    Commit,
    Finish { undo: Seq<usize>, outcome: BatchOutcome },
}

impl View for BatchCommitAction {
    type V = BatchActionModel;

    open spec fn view(&self) -> BatchActionModel {
        match self {
            BatchCommitAction::LookUp { item } => BatchActionModel::LookUp { item: *item },
            BatchCommitAction::ApplyLocks { item } => BatchActionModel::ApplyLocks { item: *item },
            BatchCommitAction::CheckVectors { item } => BatchActionModel::CheckVectors { item: *item },
            BatchCommitAction::OpenTx => BatchActionModel::OpenTx,
            BatchCommitAction::StageWrites => BatchActionModel::StageWrites,
            BatchCommitAction::Commit => BatchActionModel::Commit,
            BatchCommitAction::Finish { undo, outcome } => BatchActionModel::Finish { undo: undo@, outcome: *outcome },
        }
    }
}

/// Write `i` is a write of `items` of kind `kind`.
pub open spec fn of_kind(items: Seq<BatchItem>, kind: BatchItem) -> spec_fn(usize) -> bool {
    |i: usize| i < items.len() && items[i as int] == kind
}

/// The writes of `locked` that are stores, in order.
pub open spec fn stores_of(items: Seq<BatchItem>, locked: Seq<usize>) -> Seq<usize> {
    locked.filter(of_kind(items, BatchItem::Store))
}

/// The writes of `locked` that are removals, in order.
pub open spec fn removes_of(items: Seq<BatchItem>, locked: Seq<usize>) -> Seq<usize> {
    locked.filter(of_kind(items, BatchItem::Remove))
}

/// The order in which a failed batch gives locks back: the stores, then
/// the removals.
pub open spec fn undo_order(items: Seq<BatchItem>, locked: Seq<usize>) -> Seq<usize> {
    stores_of(items, locked) + removes_of(items, locked)
}

pub open spec fn with_stage(s: BatchModel, stage: BatchStage, next: usize, locked: Seq<usize>) -> BatchModel {
    BatchModel { items: s.items, stage, next, locked }
}

/// Ends the batch with `outcome`, giving back the lock steps of `locked`.
pub open spec fn fail_with(s: BatchModel, locked: Seq<usize>, outcome: BatchOutcome) -> (BatchModel, BatchActionModel) {
    (
        with_stage(s, BatchStage::Ended, s.next, Seq::empty()),
        BatchActionModel::Finish { undo: undo_order(s.items, locked), outcome },
    )
}

/// Moves on to the write after the current one, or to the transaction.
pub open spec fn advance(s: BatchModel, locked: Seq<usize>) -> (BatchModel, BatchActionModel) {
    if s.next + 1 < s.items.len() {
        (with_stage(s, BatchStage::Lookup, (s.next + 1) as usize, locked), BatchActionModel::LookUp { item: (s.next + 1) as usize })
    } else {
        (with_stage(s, BatchStage::Open, s.items.len() as usize, locked), BatchActionModel::OpenTx)
    }
}

/// A batch that has not started: one with no operation ends at once; one
/// without document writes opens the transaction for its edge writes.
pub open spec fn spec_batch_start(items: Seq<BatchItem>, has_ops: bool) -> (BatchModel, BatchActionModel) {
    if !has_ops {
        (
            BatchModel { items, stage: BatchStage::Ended, next: 0, locked: Seq::empty() },
            BatchActionModel::Finish { undo: Seq::empty(), outcome: BatchOutcome::Empty },
        )
    } else if items.len() == 0 {
        (BatchModel { items, stage: BatchStage::Open, next: 0, locked: Seq::empty() }, BatchActionModel::OpenTx)
    } else {
        (BatchModel { items, stage: BatchStage::Lookup, next: 0, locked: Seq::empty() }, BatchActionModel::LookUp { item: 0 })
    }
}

/// One decision of a batch.
pub open spec fn spec_batch_commit_step(s: BatchModel, e: BatchCommitEvent) -> (BatchModel, BatchActionModel) {
    match (s.stage, e) {
        (BatchStage::Lookup, BatchCommitEvent::LookedUp { ok, present, loaded }) => {
            if !ok {
                fail_with(s, s.locked, BatchOutcome::Error)
            } else if s.items[s.next as int] == BatchItem::Store {
                if loaded {
                    (with_stage(s, BatchStage::Locks, s.next, s.locked), BatchActionModel::ApplyLocks { item: s.next })
                } else {
                    fail_with(s, s.locked, BatchOutcome::Error)
                }
            } else if present && loaded {
                (with_stage(s, BatchStage::Locks, s.next, s.locked), BatchActionModel::ApplyLocks { item: s.next })
            } else {
                advance(s, s.locked)
            }
        },
        (BatchStage::Locks, BatchCommitEvent::LocksApplied { ok }) => {
            let locked = s.locked.push(s.next);
            if !ok {
                fail_with(s, locked, BatchOutcome::Error)
            } else if s.items[s.next as int] == BatchItem::Store {
                (with_stage(s, BatchStage::Vectors, s.next, locked), BatchActionModel::CheckVectors { item: s.next })
            } else {
                advance(s, locked)
            }
        },
        (BatchStage::Vectors, BatchCommitEvent::VectorsChecked { ok }) => {
            if ok {
                advance(s, s.locked)
            } else {
                fail_with(s, s.locked, BatchOutcome::Error)
            }
        },
        (BatchStage::Open, BatchCommitEvent::TxOpened { ok }) => {
            if ok {
                (with_stage(s, BatchStage::Stage, s.next, s.locked), BatchActionModel::StageWrites)
            } else {
                fail_with(s, s.locked, BatchOutcome::Error)
            }
        },
        (BatchStage::Stage, BatchCommitEvent::Staged { ok }) => {
            if ok {
                (with_stage(s, BatchStage::Commit, s.next, s.locked), BatchActionModel::Commit)
            } else {
                fail_with(s, s.locked, BatchOutcome::Error)
            }
        },
        (BatchStage::Commit, BatchCommitEvent::Committed { outcome }) => match outcome {
            CommitOutcome::Committed => (
                with_stage(s, BatchStage::Ended, s.next, Seq::empty()),
                BatchActionModel::Finish { undo: Seq::empty(), outcome: BatchOutcome::Committed },
            ),
            CommitOutcome::Conflict => fail_with(s, s.locked, BatchOutcome::Conflict),
            CommitOutcome::Failed => fail_with(s, s.locked, BatchOutcome::Error),
        },
        _ => fail_with(s, s.locked, BatchOutcome::Error),
    }
}

/// The bookkeeping of a batch: the current write is a write of the batch
/// while writes are prepared and the count of writes afterwards; the writes
/// whose lock step was performed are listed once each, in order, and are
/// the ones before the current write (and the current store while its
/// vectors are checked).
pub open spec fn batch_wf(s: BatchModel) -> bool {
    &&& s.items.len() <= usize::MAX
    &&& (s.stage == BatchStage::Lookup || s.stage == BatchStage::Locks || s.stage == BatchStage::Vectors) ==> s.next < s.items.len()
    &&& (s.stage == BatchStage::Open || s.stage == BatchStage::Stage || s.stage == BatchStage::Commit) ==> s.next == s.items.len()
    &&& forall|a: int, b: int| 0 <= a < b < s.locked.len() ==> s.locked[a] < s.locked[b]
    &&& forall|a: int| 0 <= a < s.locked.len() ==> if s.stage == BatchStage::Vectors {
        s.locked[a] <= s.next
    } else {
        s.locked[a] < s.next
    }
    &&& s.stage == BatchStage::Vectors ==> s.locked.len() > 0 && s.locked.last() == s.next
    &&& s.stage == BatchStage::Ended ==> s.locked.len() == 0
}

impl BatchCommitState {
    pub open spec fn wf(&self) -> bool {
        batch_wf(self@)
    }
}

/// Starts a batch over its collapsed document writes; `has_ops` tells
/// whether the batch has any operation at all.
pub fn batch_commit_start(items: Vec<BatchItem>, has_ops: bool) -> (r: (BatchCommitState, BatchCommitAction))
    ensures
        r.0.wf(),
        (r.0@, r.1@) == spec_batch_start(items@, has_ops),
{
    let n = items.len();
    if !has_ops {
        (
            BatchCommitState { items, stage: BatchStage::Ended, next: 0, locked: Vec::new() },
            BatchCommitAction::Finish { undo: Vec::new(), outcome: BatchOutcome::Empty },
        )
    } else if n == 0 {
        (BatchCommitState { items, stage: BatchStage::Open, next: 0, locked: Vec::new() }, BatchCommitAction::OpenTx)
    } else {
        (BatchCommitState { items, stage: BatchStage::Lookup, next: 0, locked: Vec::new() }, BatchCommitAction::LookUp { item: 0 })
    }
}

fn undo_list(items: &Vec<BatchItem>, locked: &Vec<usize>) -> (r: Vec<usize>)
    ensures
        r@ == undo_order(items@, locked@),
{
    let ghost ps = of_kind(items@, BatchItem::Store);
    let ghost pr = of_kind(items@, BatchItem::Remove);
    proof {
        reveal(Seq::filter);
        assert(locked@.take(0) =~= Seq::<usize>::empty());
    }
    let mut stores: Vec<usize> = Vec::new();
    let mut removes: Vec<usize> = Vec::new();
    let mut k: usize = 0;
    while k < locked.len()
        invariant
            k <= locked@.len(),
            ps == of_kind(items@, BatchItem::Store),
            pr == of_kind(items@, BatchItem::Remove),
            stores@ == locked@.take(k as int).filter(ps),
            removes@ == locked@.take(k as int).filter(pr),
        decreases locked@.len() - k,
    {
        let i = locked[k];
        proof {
            assert(locked@.take(k + 1) =~= locked@.take(k as int).push(i));
            locked@.take(k as int).lemma_filter_push(i, ps);
            locked@.take(k as int).lemma_filter_push(i, pr);
        }
        if i < items.len() {
            match items[i] {
                BatchItem::Store => {
                    assert(ps(i) && !pr(i));
                    stores.push(i);
                },
                BatchItem::Remove => {
                    assert(!ps(i) && pr(i));
                    removes.push(i);
                },
            }
        } else {
            assert(!ps(i) && !pr(i));
        }
        k = k + 1;
    }
    proof {
        assert(locked@.take(locked@.len() as int) =~= locked@);
    }
    let mut all = stores;
    all.append(&mut removes);
    all
}

fn fail_batch(s: BatchCommitState, locked: Vec<usize>, outcome: BatchOutcome) -> (r: (BatchCommitState, BatchCommitAction))
    ensures
        (r.0@, r.1@) == fail_with(s@, locked@, outcome),
{
    let undo = undo_list(&s.items, &locked);
    (BatchCommitState { items: s.items, stage: BatchStage::Ended, next: s.next, locked: Vec::new() }, BatchCommitAction::Finish { undo, outcome })
}

fn advance_batch(s: BatchCommitState, locked: Vec<usize>) -> (r: (BatchCommitState, BatchCommitAction))
    requires
        s.next < s.items@.len(),
    ensures
        (r.0@, r.1@) == advance(s@, locked@),
{
    if s.next < s.items.len() - 1 {
        let n = s.next + 1;
        (BatchCommitState { items: s.items, stage: BatchStage::Lookup, next: n, locked }, BatchCommitAction::LookUp { item: n })
    } else {
        let n = s.items.len();
        (BatchCommitState { items: s.items, stage: BatchStage::Open, next: n, locked }, BatchCommitAction::OpenTx)
    }
}

/// One decision of a batch: the state after `event` and the next action.
/// An event that does not answer the last action ends the batch as failed,
/// giving back the locks it took.
pub fn batch_commit_step(state: BatchCommitState, event: BatchCommitEvent) -> (r: (BatchCommitState, BatchCommitAction))
    requires
        state.wf(),
    ensures
        r.0.wf(),
        (r.0@, r.1@) == spec_batch_commit_step(state@, event@),
{
    proof {
        law_batch_step_keeps_bookkeeping(state@, event);
    }
    let s = state;
    match (s.stage, event) {
        (BatchStage::Lookup, BatchCommitEvent::LookedUp { ok, present, loaded }) => {
            if !ok {
                let l = s.locked.clone();
                fail_batch(s, l, BatchOutcome::Error)
            } else if s.items[s.next] == BatchItem::Store {
                if loaded {
                    let n = s.next;
                    (BatchCommitState { items: s.items, stage: BatchStage::Locks, next: n, locked: s.locked }, BatchCommitAction::ApplyLocks { item: n })
                } else {
                    let l = s.locked.clone();
                    fail_batch(s, l, BatchOutcome::Error)
                }
            } else if present && loaded {
                let n = s.next;
                (BatchCommitState { items: s.items, stage: BatchStage::Locks, next: n, locked: s.locked }, BatchCommitAction::ApplyLocks { item: n })
            } else {
                let l = s.locked.clone();
                advance_batch(s, l)
            }
        },
        (BatchStage::Locks, BatchCommitEvent::LocksApplied { ok }) => {
            let mut locked = s.locked.clone();
            locked.push(s.next);
            if !ok {
                fail_batch(s, locked, BatchOutcome::Error)
            } else if s.items[s.next] == BatchItem::Store {
                let n = s.next;
                (BatchCommitState { items: s.items, stage: BatchStage::Vectors, next: n, locked }, BatchCommitAction::CheckVectors { item: n })
            } else {
                advance_batch(s, locked)
            }
        },
        (BatchStage::Vectors, BatchCommitEvent::VectorsChecked { ok }) => {
            let l = s.locked.clone();
            if ok {
                advance_batch(s, l)
            } else {
                fail_batch(s, l, BatchOutcome::Error)
            }
        },
        (BatchStage::Open, BatchCommitEvent::TxOpened { ok }) => {
            if ok {
                let n = s.next;
                (BatchCommitState { items: s.items, stage: BatchStage::Stage, next: n, locked: s.locked }, BatchCommitAction::StageWrites)
            } else {
                let l = s.locked.clone();
                fail_batch(s, l, BatchOutcome::Error)
            }
        },
        (BatchStage::Stage, BatchCommitEvent::Staged { ok }) => {
            if ok {
                let n = s.next;
                (BatchCommitState { items: s.items, stage: BatchStage::Commit, next: n, locked: s.locked }, BatchCommitAction::Commit)
            } else {
                let l = s.locked.clone();
                fail_batch(s, l, BatchOutcome::Error)
            }
        },
        (BatchStage::Commit, BatchCommitEvent::Committed { outcome }) => match outcome {
            CommitOutcome::Committed => {
                let n = s.next;
                (
                    BatchCommitState { items: s.items, stage: BatchStage::Ended, next: n, locked: Vec::new() },
                    BatchCommitAction::Finish { undo: Vec::new(), outcome: BatchOutcome::Committed },
                )
            },
            CommitOutcome::Conflict => {
                let l = s.locked.clone();
                fail_batch(s, l, BatchOutcome::Conflict)
            },
            CommitOutcome::Failed => {
                let l = s.locked.clone();
                fail_batch(s, l, BatchOutcome::Error)
            },
        },
        _ => {
            let l = s.locked.clone();
            fail_batch(s, l, BatchOutcome::Error)
        },
    }
}

/// Law: the order in which a failed batch gives locks back lists exactly
/// the writes whose lock step it performed: each of them, and nothing else.
pub proof fn law_undo_order_lists_locked(items: Seq<BatchItem>, locked: Seq<usize>)
    requires
        forall|a: int| 0 <= a < locked.len() ==> #[trigger] locked[a] < items.len(),
    ensures
        forall|a: int| 0 <= a < locked.len() ==> undo_order(items, locked).contains(#[trigger] locked[a]),
        forall|x: usize| #[trigger] undo_order(items, locked).contains(x) ==> locked.contains(x),
{
    let ps = of_kind(items, BatchItem::Store);
    let pr = of_kind(items, BatchItem::Remove);
    let u = undo_order(items, locked);
    assert forall|a: int| 0 <= a < locked.len() implies u.contains(#[trigger] locked[a]) by {
        let i = locked[a];
        if items[i as int] == BatchItem::Store {
            locked.lemma_filter_contains(ps, a);
            let q = choose|q: int| 0 <= q < locked.filter(ps).len() && locked.filter(ps)[q] == i;
            assert(u[q] == i);
        } else {
            locked.lemma_filter_contains(pr, a);
            let q = choose|q: int| 0 <= q < locked.filter(pr).len() && locked.filter(pr)[q] == i;
            assert(u[locked.filter(ps).len() + q] == i);
        }
    }
    assert forall|x: usize| #[trigger] u.contains(x) implies locked.contains(x) by {
        let q = choose|q: int| 0 <= q < u.len() && u[q] == x;
        if q < locked.filter(ps).len() {
            assert(locked.filter(ps)[q] == x);
            assert(locked.filter(ps).contains(x));
            locked.lemma_filter_contains_rev(ps, x);
        } else {
            let q2 = q - locked.filter(ps).len();
            assert(locked.filter(pr)[q2] == x);
            assert(locked.filter(pr).contains(x));
            locked.lemma_filter_contains_rev(pr, x);
        }
    }
}

/// The writes whose lock step a batch has performed once `e` is answered.
pub open spec fn taken(s: BatchModel, e: BatchCommitEvent) -> Seq<usize> {
    if s.stage == BatchStage::Locks && e is LocksApplied {
        s.locked.push(s.next)
    } else {
        s.locked
    }
}

/// Law: every step keeps the bookkeeping, and a batch gives back exactly
/// the lock steps it performed: a step that does not end the batch carries
/// them on; a batch that ends any other way than by a commit (an error of
/// any step, a lost commit race) gives back every one of them, stores
/// first; only a commit ends it with `Committed`, keeping its locks, and a
/// commit is asked for only once every write is staged. A lock step is
/// asked for only for the current write, which has not taken one yet.
pub proof fn law_batch_step_keeps_bookkeeping(s: BatchModel, e: BatchCommitEvent)
    requires
        batch_wf(s),
    ensures
        batch_wf(spec_batch_commit_step(s, e).0),
        spec_batch_commit_step(s, e).0.items == s.items,
        !(spec_batch_commit_step(s, e).1 is Finish) ==> spec_batch_commit_step(s, e).0.locked == taken(s, e),
        spec_batch_commit_step(s, e).1 matches BatchActionModel::Finish { undo, outcome } ==> (
            outcome == BatchOutcome::Committed ==> (undo.len() == 0 && s.stage == BatchStage::Commit
                && e == (BatchCommitEvent::Committed { outcome: CommitOutcome::Committed })))
            && (outcome != BatchOutcome::Committed ==> undo == undo_order(s.items, taken(s, e)))
            && outcome != BatchOutcome::Empty,
        spec_batch_commit_step(s, e).1 is Commit ==> s.stage == BatchStage::Stage,
        spec_batch_commit_step(s, e).1 matches BatchActionModel::ApplyLocks { item } ==> item == s.next
            && !s.locked.contains(item),
{
    let r = spec_batch_commit_step(s, e);
    if s.stage == BatchStage::Locks && e is LocksApplied {
        let l = s.locked.push(s.next);
        assert forall|a: int, b: int| 0 <= a < b < l.len() implies l[a] < l[b] by {
            if b == l.len() - 1 {
                assert(s.locked[a] < s.next);
            }
        }
    }
    if r.1 is ApplyLocks {
        assert forall|a: int| 0 <= a < s.locked.len() implies s.locked[a] != s.next by {}
    }
}

/// The steps of several plans, one plan after the other.
pub open spec fn flat(ps: Seq<Seq<LockActionModel>>) -> Seq<LockActionModel>
    decreases ps.len(),
{
    if ps.len() == 0 {
        Seq::empty()
    } else {
        flat(ps.drop_last()) + ps.last()
    }
}

/// The step `x` is a step of one of the plans.
pub open spec fn member(ps: Seq<Seq<LockActionModel>>, x: LockActionModel) -> bool {
    exists|j: int, p: int| 0 <= j < ps.len() && 0 <= p < ps[j].len() && ps[j][p] == x
}

proof fn lemma_flat(ps: Seq<Seq<LockActionModel>>)
    ensures
        forall|i: int| 0 <= i < flat(ps).len() ==> member(ps, #[trigger] flat(ps)[i]),
        forall|j: int, p: int| 0 <= j < ps.len() && 0 <= p < ps[j].len() ==> flat(ps).contains(#[trigger] ps[j][p]),
    decreases ps.len(),
{
    if ps.len() > 0 {
        let d = ps.drop_last();
        lemma_flat(d);
        let f = flat(ps);
        assert(f == flat(d) + ps.last());
        assert forall|i: int| 0 <= i < f.len() implies member(ps, #[trigger] f[i]) by {
            if i < flat(d).len() {
                assert(f[i] == flat(d)[i]);
                assert(member(d, flat(d)[i]));
                let (j, p) = choose|j: int, p: int| 0 <= j < d.len() && 0 <= p < d[j].len() && d[j][p] == flat(d)[i];
                assert(ps[j] == d[j]);
            } else {
                let p = i - flat(d).len();
                assert(f[i] == ps[ps.len() - 1][p]);
            }
        }
        assert forall|j: int, p: int| 0 <= j < ps.len() && 0 <= p < ps[j].len() implies f.contains(#[trigger] ps[j][p]) by {
            if j < ps.len() - 1 {
                assert(d[j] == ps[j]);
                assert(flat(d).contains(d[j][p]));
                let i = choose|i: int| 0 <= i < flat(d).len() && flat(d)[i] == d[j][p];
                assert(f[i] == flat(d)[i]);
            } else {
                assert(f[flat(d).len() + p] == ps[j][p]);
            }
        }
    }
}

/// Law: applying two lock plans one after the other is applying their
/// steps in one run: the second runs on what the first left, unless the
/// first was refused.
pub proof fn law_plans_in_turn(m: Map<Seq<u8>, Seq<u8>>, a: Seq<LockActionModel>, b: Seq<LockActionModel>)
    ensures
        apply_lock_actions(m, a + b) == if apply_lock_actions(m, a).1 {
            apply_lock_actions(apply_lock_actions(m, a).0, b)
        } else {
            apply_lock_actions(m, a)
        },
    decreases a.len(),
{
    if a.len() == 0 {
        assert(a + b =~= b);
    } else {
        assert((a + b)[0] == a[0]);
        assert((a + b).drop_first() =~= a.drop_first() + b);
        let k = action_key(a[0]);
        let m2 = crate::doc_write_flow::with_lock(m, k, if a[0] is Claim {
            crate::unique::spec_claim(crate::doc_write_flow::lock_of(m, k), action_holder(a[0])).0
        } else {
            crate::unique::spec_release(crate::doc_write_flow::lock_of(m, k), action_holder(a[0]))
        });
        law_plans_in_turn(m2, a.drop_first(), b);
    }
}

/// The lock plans of the document writes of a batch, in the order the
/// batch applies them; a write is the index definitions of its collection,
/// the document the plan starts from and the one it ends at.
pub open spec fn forward_plans(ws: Seq<(Seq<IndexDefModel>, Option<DocModel>, Option<DocModel>)>) -> Seq<Seq<LockActionModel>> {
    Seq::new(ws.len(), |j: int| spec_lock_plan(ws[j].0, ws[j].1, ws[j].2))
}

/// The plans that give the locks back, writes taken in `order`: each plan
/// with its two documents swapped.
pub open spec fn undo_plans(ws: Seq<(Seq<IndexDefModel>, Option<DocModel>, Option<DocModel>)>, order: Seq<usize>) -> Seq<Seq<LockActionModel>> {
    Seq::new(order.len(), |a: int| spec_lock_plan(ws[order[a] as int].0, ws[order[a] as int].2, ws[order[a] as int].1))
}

/// No lock is touched by the plans of two different writes.
pub open spec fn plans_apart(ps: Seq<Seq<LockActionModel>>) -> bool {
    forall|j1: int, j2: int, p: int, q: int|
        0 <= j1 < ps.len() && 0 <= j2 < ps.len() && j1 != j2 && 0 <= p < ps[j1].len() && 0 <= q < ps[j2].len()
            ==> action_key(#[trigger] ps[j1][p]) != action_key(#[trigger] ps[j2][q])
}

/// `order` lists write `j`.
pub open spec fn listed(order: Seq<usize>, j: int) -> bool {
    exists|a: int| 0 <= a < order.len() && order[a] == j
}

/// `order` lists writes of the batch, and every write at least once.
pub open spec fn covers(order: Seq<usize>, n: nat) -> bool {
    &&& forall|a: int| 0 <= a < order.len() ==> #[trigger] order[a] < n
    &&& forall|j: int| 0 <= j < n ==> #[trigger] listed(order, j)
}

/// Law: a batch that fails after taking its locks leaves the lock map as it
/// was. When each write's lock plan agrees with the map (every lock it
/// claims is free, every lock it releases is held by the stored document)
/// and no lock is touched by two writes of the batch, the plans applied in
/// turn all go through, and the swapped plans, applied in any order that
/// takes every write (a failed batch takes the stores, then the removals),
/// go through and restore the map. (Indexed values list no object key
/// twice, as values held in a document map never do.) Nothing is committed:
/// a failed batch never reaches a commit (`law_batch_step_keeps_bookkeeping`).
pub proof fn law_failed_batch_restores_locks(
    m: Map<Seq<u8>, Seq<u8>>,
    ws: Seq<(Seq<IndexDefModel>, Option<DocModel>, Option<DocModel>)>,
    order: Seq<usize>,
)
    requires
        forall|j: int, d: int|
            0 <= j < ws.len() && 0 <= d < ws[j].0.len() ==> plain_index_values(#[trigger] ws[j].0[d], ws[j].1, ws[j].2),
        forall|j: int| 0 <= j < ws.len() ==> locks_consistent(m, #[trigger] forward_plans(ws)[j]),
        plans_apart(forward_plans(ws)),
        covers(order, ws.len()),
    ensures
        apply_lock_actions(m, flat(forward_plans(ws))).1,
        apply_lock_actions(apply_lock_actions(m, flat(forward_plans(ws))).0, flat(undo_plans(ws, order))) == (m, true),
{
    let fs = forward_plans(ws);
    let bs = undo_plans(ws, order);
    let f = flat(fs);
    let b = flat(bs);
    lemma_flat(fs);
    lemma_flat(bs);
    assert forall|j: int| 0 <= j < ws.len() implies steps_coherent(#[trigger] fs[j])
        && crate::doc_write_flow::plans_match(spec_lock_plan(ws[j].0, ws[j].2, ws[j].1), fs[j]) by {
        let w = ws[j];
        lemma_plan_holders(w.0, w.1, w.2);
        assert forall|d: int| 0 <= d < w.0.len() implies plain_index_values(#[trigger] w.0[d], w.1, w.2) by {
            assert(plain_index_values(ws[j].0[d], ws[j].1, ws[j].2));
        }
        lemma_plans_match(w.0, w.1, w.2);
        let fj = fs[j];
        assert(locks_consistent(m, fj));
        assert forall|p: int, q: int|
            0 <= p < fj.len() && 0 <= q < fj.len() && action_key(#[trigger] fj[p]) == action_key(#[trigger] fj[q]) implies
            (fj[p] is Claim <==> fj[q] is Claim) && action_holder(fj[p]) == action_holder(fj[q]) by {}
    }
    assert(locks_consistent(m, f)) by {
        assert forall|i: int| 0 <= i < f.len() implies (if (#[trigger] f[i]) is Claim {
            crate::doc_write_flow::lock_of(m, action_key(f[i])) is None
        } else {
            crate::doc_write_flow::lock_of(m, action_key(f[i])) == Some(action_holder(f[i]))
        }) by {
            assert(member(fs, f[i]));
            let (j, p) = choose|j: int, p: int| 0 <= j < fs.len() && 0 <= p < fs[j].len() && fs[j][p] == f[i];
            assert(locks_consistent(m, fs[j]));
            assert(fs[j][p] == f[i]);
        }
    }
    assert(steps_coherent(f)) by {
        assert forall|i: int, i2: int|
            0 <= i < f.len() && 0 <= i2 < f.len() && action_key(#[trigger] f[i]) == action_key(#[trigger] f[i2]) implies
            (f[i] is Claim <==> f[i2] is Claim) && action_holder(f[i]) == action_holder(f[i2]) by {
            assert(member(fs, f[i]));
            assert(member(fs, f[i2]));
            let (j, p) = choose|j: int, p: int| 0 <= j < fs.len() && 0 <= p < fs[j].len() && fs[j][p] == f[i];
            let (j2, p2) = choose|j: int, p: int| 0 <= j < fs.len() && 0 <= p < fs[j].len() && fs[j][p] == f[i2];
            assert(fs[j][p] == f[i] && fs[j2][p2] == f[i2]);
            if j != j2 {
                assert(action_key(fs[j][p]) != action_key(fs[j2][p2]));
            } else {
                assert(steps_coherent(fs[j]));
            }
        }
    }
    assert(crate::doc_write_flow::plans_match(b, f)) by {
        assert forall|i: int| 0 <= i < b.len() implies undoes_some(#[trigger] b[i], f) by {
            assert(member(bs, b[i]));
            let (a, p) = choose|a: int, p: int| 0 <= a < bs.len() && 0 <= p < bs[a].len() && bs[a][p] == b[i];
            let j = order[a] as int;
            assert(bs[a] == spec_lock_plan(ws[j].0, ws[j].2, ws[j].1));
            assert(crate::doc_write_flow::plans_match(bs[a], fs[j]));
            assert(undoes_some(bs[a][p], fs[j]));
            let q = choose|q: int| 0 <= q < fs[j].len() && undoes(bs[a][p], #[trigger] fs[j][q]);
            assert(f.contains(fs[j][q]));
            let i2 = choose|i2: int| 0 <= i2 < f.len() && f[i2] == fs[j][q];
            assert(undoes(b[i], f[i2]));
        }
        assert forall|i: int| 0 <= i < f.len() implies touches(b, action_key(#[trigger] f[i])) by {
            assert(member(fs, f[i]));
            let (j, p) = choose|j: int, p: int| 0 <= j < fs.len() && 0 <= p < fs[j].len() && fs[j][p] == f[i];
            assert(listed(order, j));
            let a = choose|a: int| 0 <= a < order.len() && order[a] == j;
            assert(bs[a] == spec_lock_plan(ws[j].0, ws[j].2, ws[j].1));
            assert(crate::doc_write_flow::plans_match(bs[a], fs[j]));
            assert(touches(bs[a], action_key(fs[j][p])));
            let q = choose|q: int| 0 <= q < bs[a].len() && action_key(#[trigger] bs[a][q]) == action_key(fs[j][p]);
            assert(b.contains(bs[a][q]));
            let i2 = choose|i2: int| 0 <= i2 < b.len() && b[i2] == bs[a][q];
            assert(action_key(b[i2]) == action_key(f[i]));
        }
    }
    lemma_restore(m, f, b);
}

} // verus!

verus! {

/// Law: a batch without operations ends at once with `Ok`, giving nothing
/// back and asking for nothing: it changes nothing.
pub proof fn law_empty_batch_changes_nothing(items: Seq<BatchItem>)
    ensures
        spec_batch_start(items, false).1 == (BatchActionModel::Finish { undo: Seq::empty(), outcome: BatchOutcome::Empty }),
        spec_batch_start(items, false).0.stage == BatchStage::Ended,
{
}

} // verus!
