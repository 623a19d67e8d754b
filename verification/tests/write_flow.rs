use stellardb::doc_write_flow::{
    document_write_step, new_document_write, CommitOutcome, DocWriteAction, DocWriteEvent, DocWriteKind,
    DocWriteState, WriteOutcome,
};

/// Runs a write through the given reports, collecting the actions.
fn run(kind: DocWriteKind, events: &[DocWriteEvent]) -> Vec<DocWriteAction> {
    let mut state: DocWriteState = new_document_write(kind);
    let mut actions = Vec::new();
    for e in events {
        let (next, action) = document_write_step(&state, *e);
        state = next;
        actions.push(action);
    }
    actions
}

fn finish(undo_locks: bool, outcome: WriteOutcome) -> DocWriteAction {
    DocWriteAction::Finish { undo_locks, outcome }
}

#[test]
fn create_runs_every_step_and_commits() {
    let actions = run(
        DocWriteKind::Create,
        &[
            DocWriteEvent::LookedUp { collection_loaded: true, present: false },
            DocWriteEvent::LocksApplied { ok: true },
            DocWriteEvent::TxOpened { ok: true },
            DocWriteEvent::Rechecked { ok: true, present: false },
            DocWriteEvent::Staged { ok: true },
            DocWriteEvent::Committed { outcome: CommitOutcome::Committed },
        ],
    );
    assert_eq!(
        actions,
        vec![
            DocWriteAction::ApplyLocks,
            DocWriteAction::OpenTx,
            DocWriteAction::Recheck,
            DocWriteAction::StageWrites,
            DocWriteAction::Commit,
            finish(false, WriteOutcome::Done(true)),
        ]
    );
}

#[test]
fn create_of_existing_document_gives_locks_back() {
    let actions = run(
        DocWriteKind::Create,
        &[
            DocWriteEvent::LookedUp { collection_loaded: true, present: false },
            DocWriteEvent::LocksApplied { ok: true },
            DocWriteEvent::TxOpened { ok: true },
            DocWriteEvent::Rechecked { ok: true, present: true },
        ],
    );
    assert_eq!(actions.last(), Some(&finish(true, WriteOutcome::Done(false))));
}

#[test]
fn update_of_missing_document_writes_nothing() {
    let actions = run(DocWriteKind::Update, &[DocWriteEvent::LookedUp { collection_loaded: true, present: false }]);
    assert_eq!(actions, vec![finish(false, WriteOutcome::Done(false))]);
    let actions = run(DocWriteKind::Delete, &[DocWriteEvent::LookedUp { collection_loaded: false, present: false }]);
    assert_eq!(actions, vec![finish(false, WriteOutcome::Done(false))]);
}

#[test]
fn refused_lock_plan_fails_without_undo() {
    let actions = run(
        DocWriteKind::Upsert,
        &[
            DocWriteEvent::LookedUp { collection_loaded: true, present: true },
            DocWriteEvent::LocksApplied { ok: false },
        ],
    );
    assert_eq!(actions, vec![DocWriteAction::ApplyLocks, finish(false, WriteOutcome::Error)]);
}

#[test]
fn failed_commit_rolls_back_unique_locks() {
    for kind in [DocWriteKind::Create, DocWriteKind::Update] {
        let actions = run(
            kind,
            &[
                DocWriteEvent::LookedUp { collection_loaded: true, present: true },
                DocWriteEvent::LocksApplied { ok: true },
                DocWriteEvent::TxOpened { ok: true },
                DocWriteEvent::Rechecked { ok: true, present: kind == DocWriteKind::Update },
                DocWriteEvent::Staged { ok: true },
                DocWriteEvent::Committed { outcome: CommitOutcome::Failed },
            ],
        );
        assert_eq!(actions.last(), Some(&finish(true, WriteOutcome::Error)));
    }
}

#[test]
fn upsert_conflict_and_delete_conflict() {
    let actions = run(
        DocWriteKind::Upsert,
        &[
            DocWriteEvent::LookedUp { collection_loaded: true, present: false },
            DocWriteEvent::LocksApplied { ok: true },
            DocWriteEvent::TxOpened { ok: true },
            DocWriteEvent::Staged { ok: true },
            DocWriteEvent::Committed { outcome: CommitOutcome::Conflict },
        ],
    );
    assert_eq!(actions[2], DocWriteAction::StageWrites);
    assert_eq!(actions.last(), Some(&finish(true, WriteOutcome::UpsertConflict)));
    let actions = run(
        DocWriteKind::Delete,
        &[
            DocWriteEvent::LookedUp { collection_loaded: true, present: true },
            DocWriteEvent::RestrictChecked { ok: true },
            DocWriteEvent::LocksApplied { ok: true },
            DocWriteEvent::TxOpened { ok: true },
            DocWriteEvent::Staged { ok: true },
            DocWriteEvent::Committed { outcome: CommitOutcome::Conflict },
        ],
    );
    assert_eq!(actions[0], DocWriteAction::CheckRestrict);
    assert_eq!(actions.last(), Some(&finish(true, WriteOutcome::Done(false))));
}

#[test]
fn restricted_delete_and_failed_staging() {
    let actions = run(
        DocWriteKind::Delete,
        &[
            DocWriteEvent::LookedUp { collection_loaded: true, present: true },
            DocWriteEvent::RestrictChecked { ok: false },
        ],
    );
    assert_eq!(actions.last(), Some(&finish(false, WriteOutcome::Error)));
    let actions = run(
        DocWriteKind::Upsert,
        &[
            DocWriteEvent::LookedUp { collection_loaded: true, present: true },
            DocWriteEvent::LocksApplied { ok: true },
            DocWriteEvent::TxOpened { ok: false },
        ],
    );
    assert_eq!(actions.last(), Some(&finish(true, WriteOutcome::Error)));
}

#[test]
fn out_of_order_report_ends_the_write() {
    let actions = run(
        DocWriteKind::Create,
        &[
            DocWriteEvent::LookedUp { collection_loaded: true, present: false },
            DocWriteEvent::LocksApplied { ok: true },
            DocWriteEvent::Staged { ok: true },
        ],
    );
    assert_eq!(actions.last(), Some(&finish(true, WriteOutcome::Error)));
}
