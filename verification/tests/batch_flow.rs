use stellardb::batch_flow::{batch_commit_start, batch_commit_step, BatchCommitAction, BatchCommitEvent, BatchCommitState, BatchItem, BatchOutcome};
use stellardb::doc_write_flow::CommitOutcome;
use stellardb::format_version::{check_storage_format_version, current_format_marker, FormatCheck, CURRENT_STORAGE_FORMAT_VERSION};
use stellardb::config::StorageError;
use stellardb::progress_flow::{index_progress_start, index_progress_step, ProgressAction, ProgressEvent, ProgressOutcome};

/// Runs a batch over its writes, answering each action with the next event;
/// returns every action asked for.
fn run_batch(items: Vec<BatchItem>, has_ops: bool, events: &[BatchCommitEvent]) -> Vec<String> {
    let (mut state, mut action): (BatchCommitState, BatchCommitAction) = batch_commit_start(items, has_ops);
    let mut seen = vec![describe(&action)];
    for e in events {
        if matches!(action, BatchCommitAction::Finish { .. }) {
            break;
        }
        let (s, a) = batch_commit_step(state, *e);
        state = s;
        action = a;
        seen.push(describe(&action));
    }
    seen
}

fn describe(a: &BatchCommitAction) -> String {
    match a {
        BatchCommitAction::LookUp { item } => format!("lookup {}", item),
        BatchCommitAction::ApplyLocks { item } => format!("locks {}", item),
        BatchCommitAction::CheckVectors { item } => format!("vectors {}", item),
        BatchCommitAction::OpenTx => "open".to_string(),
        BatchCommitAction::StageWrites => "stage".to_string(),
        BatchCommitAction::Commit => "commit".to_string(),
        BatchCommitAction::Finish { undo, outcome } => format!("finish {:?} {:?}", undo, outcome),
    }
}

fn looked(present: bool) -> BatchCommitEvent {
    BatchCommitEvent::LookedUp { ok: true, present, loaded: true }
}

#[test]
fn atomic_write_batch_rolls_back_doc_insert_when_edge_delete_fails() {
    // An insert of a new document, then an edge delete that fails while the
    // batch is staged: the insert's locks are given back, nothing commits.
    let seen = run_batch(vec![BatchItem::Store], true, &[
        looked(false),
        BatchCommitEvent::LocksApplied { ok: true },
        BatchCommitEvent::VectorsChecked { ok: true },
        BatchCommitEvent::TxOpened { ok: true },
        BatchCommitEvent::Staged { ok: false },
    ]);
    assert_eq!(seen, vec!["lookup 0", "locks 0", "vectors 0", "open", "stage", "finish [0] Error"]);
    assert!(!seen.iter().any(|a| a == "commit"));
}

#[test]
fn empty_batch_does_nothing() {
    assert_eq!(run_batch(vec![], false, &[]), vec!["finish [] Empty"]);
}

#[test]
fn edge_only_batch_opens_and_commits() {
    let seen = run_batch(vec![], true, &[
        BatchCommitEvent::TxOpened { ok: true },
        BatchCommitEvent::Staged { ok: true },
        BatchCommitEvent::Committed { outcome: CommitOutcome::Committed },
    ]);
    assert_eq!(seen, vec!["open", "stage", "commit", "finish [] Committed"]);
}

#[test]
fn batch_takes_locks_in_turn_and_commits() {
    let seen = run_batch(vec![BatchItem::Remove, BatchItem::Store, BatchItem::Remove], true, &[
        looked(true),
        BatchCommitEvent::LocksApplied { ok: true },
        looked(true),
        BatchCommitEvent::LocksApplied { ok: true },
        BatchCommitEvent::VectorsChecked { ok: true },
        looked(false),
        BatchCommitEvent::TxOpened { ok: true },
        BatchCommitEvent::Staged { ok: true },
        BatchCommitEvent::Committed { outcome: CommitOutcome::Committed },
    ]);
    assert_eq!(seen, vec![
        "lookup 0", "locks 0", "lookup 1", "locks 1", "vectors 1", "lookup 2", "open", "stage", "commit",
        "finish [] Committed",
    ]);
}

#[test]
fn failed_batch_gives_locks_back_stores_first() {
    // Removal 0 and store 1 took locks; the commit race is lost.
    let seen = run_batch(vec![BatchItem::Remove, BatchItem::Store], true, &[
        looked(true),
        BatchCommitEvent::LocksApplied { ok: true },
        looked(true),
        BatchCommitEvent::LocksApplied { ok: true },
        BatchCommitEvent::VectorsChecked { ok: true },
        BatchCommitEvent::TxOpened { ok: true },
        BatchCommitEvent::Staged { ok: true },
        BatchCommitEvent::Committed { outcome: CommitOutcome::Conflict },
    ]);
    assert_eq!(seen.last().unwrap(), "finish [1, 0] Conflict");
}

#[test]
fn refused_lock_step_is_given_back_too() {
    let seen = run_batch(vec![BatchItem::Store, BatchItem::Store], true, &[
        looked(false),
        BatchCommitEvent::LocksApplied { ok: true },
        BatchCommitEvent::VectorsChecked { ok: true },
        looked(false),
        BatchCommitEvent::LocksApplied { ok: false },
    ]);
    assert_eq!(seen.last().unwrap(), "finish [0, 1] Error");
    let seen = run_batch(vec![BatchItem::Store, BatchItem::Store], true, &[
        looked(false),
        BatchCommitEvent::LocksApplied { ok: true },
        BatchCommitEvent::VectorsChecked { ok: false },
    ]);
    assert_eq!(seen.last().unwrap(), "finish [0] Error");
    let seen = run_batch(vec![BatchItem::Store], true, &[BatchCommitEvent::LookedUp { ok: false, present: false, loaded: false }]);
    assert_eq!(seen.last().unwrap(), "finish [] Error");
}

#[test]
fn removal_of_missing_document_takes_no_lock() {
    let seen = run_batch(vec![BatchItem::Remove], true, &[looked(false), BatchCommitEvent::TxOpened { ok: false }]);
    assert_eq!(seen, vec!["lookup 0", "open", "finish [] Error"]);
    let seen = run_batch(vec![BatchItem::Store], true, &[BatchCommitEvent::LookedUp { ok: true, present: false, loaded: false }]);
    assert_eq!(seen, vec!["lookup 0", "finish [] Error"]);
    // An event out of turn ends the batch as failed.
    let seen = run_batch(vec![BatchItem::Store], true, &[looked(false), BatchCommitEvent::TxOpened { ok: true }]);
    assert_eq!(seen, vec!["lookup 0", "locks 0", "finish [] Error"]);
}

#[test]
fn batch_outcome_is_copyable() {
    let o = BatchOutcome::Conflict;
    let p = o;
    assert_eq!(o, p);
}

fn run_build(events: &[ProgressEvent]) -> Vec<ProgressAction> {
    let (mut state, action) = index_progress_start();
    let mut seen = vec![action];
    for e in events {
        let (s, a) = index_progress_step(&state, *e);
        state = s;
        seen.push(a);
        if matches!(a, ProgressAction::Finish { .. }) {
            break;
        }
    }
    seen
}

#[test]
fn progress_every_256_documents_then_commit() {
    let mut events = vec![ProgressEvent::Indexed { ok: true, elapsed_ms: 0 }; 256];
    events.push(ProgressEvent::Answered { go_on: true });
    events.push(ProgressEvent::Indexed { ok: true, elapsed_ms: 10 });
    events.push(ProgressEvent::NoMoreDocs);
    events.push(ProgressEvent::Answered { go_on: true });
    events.push(ProgressEvent::Answered { go_on: true });
    events.push(ProgressEvent::Committed { ok: true });
    let seen = run_build(&events);
    assert_eq!(seen[0], ProgressAction::IndexNext { restart_clock: true });
    assert_eq!(seen[255], ProgressAction::IndexNext { restart_clock: false });
    assert_eq!(seen[256], ProgressAction::ReportBuilding { processed_items: 256 });
    assert_eq!(seen[257], ProgressAction::IndexNext { restart_clock: true });
    assert_eq!(seen[258], ProgressAction::IndexNext { restart_clock: false });
    assert_eq!(seen[259], ProgressAction::ReportBuilding { processed_items: 257 });
    assert_eq!(seen[260], ProgressAction::ReportCommitting);
    assert_eq!(seen[261], ProgressAction::Commit);
    assert_eq!(seen[262], ProgressAction::Finish { outcome: ProgressOutcome::Built });
}

#[test]
fn progress_after_250_ms_and_cancellation() {
    let seen = run_build(&[
        ProgressEvent::Indexed { ok: true, elapsed_ms: 250 },
        ProgressEvent::Answered { go_on: false },
    ]);
    assert_eq!(seen[1], ProgressAction::ReportBuilding { processed_items: 1 });
    assert_eq!(seen[2], ProgressAction::Finish { outcome: ProgressOutcome::Cancelled });
    let seen = run_build(&[ProgressEvent::NoMoreDocs, ProgressEvent::Answered { go_on: true }, ProgressEvent::Answered { go_on: false }]);
    assert_eq!(seen[1], ProgressAction::ReportBuilding { processed_items: 0 });
    assert_eq!(seen[3], ProgressAction::Finish { outcome: ProgressOutcome::Cancelled });
    let seen = run_build(&[ProgressEvent::Indexed { ok: false, elapsed_ms: 0 }]);
    assert_eq!(seen[1], ProgressAction::Finish { outcome: ProgressOutcome::Error });
    let seen = run_build(&[ProgressEvent::NoMoreDocs, ProgressEvent::Answered { go_on: true }, ProgressEvent::Answered { go_on: true }, ProgressEvent::Committed { ok: false }]);
    assert_eq!(seen[4], ProgressAction::Finish { outcome: ProgressOutcome::Error });
}

fn config_message(r: Result<FormatCheck, StorageError>) -> String {
    match r {
        Err(StorageError::InvalidConfig(m)) => m,
        other => panic!("expected an invalid-config error, got {:?}", other),
    }
}

#[test]
fn open_writes_storage_format_version_marker() {
    assert_eq!(check_storage_format_version(None).unwrap(), FormatCheck::WriteMarker);
    assert_eq!(current_format_marker(), CURRENT_STORAGE_FORMAT_VERSION.to_string().into_bytes());
    assert_eq!(check_storage_format_version(Some(b"1")).unwrap(), FormatCheck::Supported);
    assert_eq!(check_storage_format_version(Some(b"0")).unwrap(), FormatCheck::Supported);
}

#[test]
fn open_rejects_newer_storage_format_version() {
    let m = config_message(check_storage_format_version(Some(b"9999")));
    assert!(m.contains("storage format version"), "unexpected error: {m}");
    assert_eq!(m, "unsupported storage format version 9999; this binary supports up to 1");
}

#[test]
fn unreadable_format_marker_is_refused() {
    let m = config_message(check_storage_format_version(Some(b"v1")));
    assert_eq!(m, format!("invalid storage format version marker: {}", "v1".parse::<u64>().unwrap_err()));
    let m = config_message(check_storage_format_version(Some(&[0xff, 0xfe])));
    assert_eq!(m, format!("invalid storage format version marker: {}", std::str::from_utf8(&[0xff, 0xfe]).unwrap_err()));
    let m = config_message(check_storage_format_version(Some(b"")));
    assert!(m.starts_with("invalid storage format version marker: "));
}
