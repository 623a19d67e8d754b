//! The decisions of a full-text or vector index build that reports its
//! progress: documents are indexed one at a time, progress is reported
//! every 256 documents or once 250 ms have passed since the last report,
//! then once more at the end, then the commit is announced; a report
//! answered with "stop" ends the build before anything is committed. The
//! caller indexes, reports, measures the time and commits, and hands back
//! what happened.

use vstd::prelude::*;

verus! {

/// Progress is reported at least once per this many documents.
pub const PROGRESS_EVERY_DOCS: usize = 256;

/// Progress is reported once this many milliseconds have passed since the
/// last report.
pub const PROGRESS_EVERY_MS: u64 = 250;

/// Where a build stands: the action it last asked for.
#[derive(Clone, Copy, PartialEq, Eq, Structural, Debug)]
pub enum ProgressStage {
    /// Waiting for the next document to be indexed (or for the end).
    Indexing,
    /// Waiting for the answer to a report made while indexing.
    Reporting,
    /// Waiting for the answer to the final count.
    FinalReport,
    /// Waiting for the answer to the announcement of the commit.
    Announcing,
    /// Waiting for the commit.
    Commit,
    /// The build has ended.
    Ended,
}

/// The state of a build: its stage and the documents indexed so far.
#[derive(Clone, Copy, PartialEq, Eq, Structural, Debug)]
pub struct ProgressState {
    pub stage: ProgressStage,
    pub processed: usize,
}

impl View for ProgressState {
    type V = ProgressState;

    open spec fn view(&self) -> ProgressState {
        *self
    }
}

/// What the caller reports after performing an action.
#[derive(Clone, Copy, PartialEq, Eq, Structural, Debug)]
pub enum ProgressEvent {
    /// A document was read and indexed (`ok`), or reading or indexing it
    /// failed; `elapsed_ms` is the time since the last report.
    Indexed { ok: bool, elapsed_ms: u64 },
    /// There is no document left.
    NoMoreDocs,
    /// The answer to a report: whether to go on.
    Answered { go_on: bool },
    /// Whether the commit went through.
    Committed { ok: bool },
}

impl View for ProgressEvent {
    type V = ProgressEvent;

    open spec fn view(&self) -> ProgressEvent {
        *self
    }
}

/// How a build ends.
#[derive(Clone, Copy, PartialEq, Eq, Structural, Debug)]
pub enum ProgressOutcome {
    /// `Ok(true)`: the index is built and committed.
    Built,
    /// `Ok(false)`: a report was answered with "stop"; nothing is committed.
    Cancelled,
    /// The error of the failed step.
    Error,
}

/// The next action of a build.
#[derive(Clone, Copy, PartialEq, Eq, Structural, Debug)]
pub enum ProgressAction {
    /// Read and index the next document; restart the report clock first
    /// when `restart_clock`.
    IndexNext { restart_clock: bool },
    /// Report that `processed_items` documents are indexed.
    ReportBuilding { processed_items: usize },
    /// Report that the build is committing.
    ReportCommitting,
    /// Commit the index.
    Commit,
    /// End the build.
    Finish { outcome: ProgressOutcome },
}

impl View for ProgressAction {
    type V = ProgressAction;

    open spec fn view(&self) -> ProgressAction {
        *self
    }
}

/// A report is due after `processed` documents, `elapsed_ms` after the last.
pub open spec fn report_due(processed: int, elapsed_ms: u64) -> bool {
    processed % (PROGRESS_EVERY_DOCS as int) == 0 || elapsed_ms >= PROGRESS_EVERY_MS
}

pub open spec fn at(s: ProgressState, stage: ProgressStage, processed: usize) -> ProgressState {
    ProgressState { stage, processed }
}

pub open spec fn end_build(s: ProgressState, outcome: ProgressOutcome) -> (ProgressState, ProgressAction) {
    (at(s, ProgressStage::Ended, s.processed), ProgressAction::Finish { outcome })
}

/// One decision of a build.
pub open spec fn spec_index_progress_step(s: ProgressState, e: ProgressEvent) -> (ProgressState, ProgressAction) {
    match (s.stage, e) {
        (ProgressStage::Indexing, ProgressEvent::Indexed { ok, elapsed_ms }) => {
            if !ok {
                end_build(s, ProgressOutcome::Error)
            } else {
                let n = (s.processed + 1) as usize;
                if report_due(n as int, elapsed_ms) {
                    (at(s, ProgressStage::Reporting, n), ProgressAction::ReportBuilding { processed_items: n })
                } else {
                    (at(s, ProgressStage::Indexing, n), ProgressAction::IndexNext { restart_clock: false })
                }
            }
        },
        (ProgressStage::Indexing, ProgressEvent::NoMoreDocs) => (
            at(s, ProgressStage::FinalReport, s.processed),
            ProgressAction::ReportBuilding { processed_items: s.processed },
        ),
        (ProgressStage::Reporting, ProgressEvent::Answered { go_on }) => {
            if go_on {
                (at(s, ProgressStage::Indexing, s.processed), ProgressAction::IndexNext { restart_clock: true })
            } else {
                end_build(s, ProgressOutcome::Cancelled)
            }
        },
        (ProgressStage::FinalReport, ProgressEvent::Answered { go_on }) => {
            if go_on {
                (at(s, ProgressStage::Announcing, s.processed), ProgressAction::ReportCommitting)
            } else {
                end_build(s, ProgressOutcome::Cancelled)
            }
        },
        (ProgressStage::Announcing, ProgressEvent::Answered { go_on }) => {
            if go_on {
                (at(s, ProgressStage::Commit, s.processed), ProgressAction::Commit)
            } else {
                end_build(s, ProgressOutcome::Cancelled)
            }
        },
        (ProgressStage::Commit, ProgressEvent::Committed { ok }) => {
            if ok {
                end_build(s, ProgressOutcome::Built)
            } else {
                end_build(s, ProgressOutcome::Error)
            }
        },
        _ => end_build(s, ProgressOutcome::Error),
    }
}

/// A build that has not indexed anything yet; its first action is to index
/// the first document.
pub fn index_progress_start() -> (r: (ProgressState, ProgressAction))
    ensures
        r.0@ == (ProgressState { stage: ProgressStage::Indexing, processed: 0 }),
        r.1@ == (ProgressAction::IndexNext { restart_clock: true }),
{
    (ProgressState { stage: ProgressStage::Indexing, processed: 0 }, ProgressAction::IndexNext { restart_clock: true })
}

/// One decision of a build: the state after `event` and the next action.
/// An event that does not answer the last action ends the build as failed.
/// The count of indexed documents must have room for one more, as the
/// build's counter has.
pub fn index_progress_step(state: &ProgressState, event: ProgressEvent) -> (r: (ProgressState, ProgressAction))
    requires
        state.processed < usize::MAX,
    ensures
        (r.0@, r.1@) == spec_index_progress_step(state@, event@),
{
    let s = *state;
    match (s.stage, event) {
        (ProgressStage::Indexing, ProgressEvent::Indexed { ok, elapsed_ms }) => {
            if !ok {
                (ProgressState { stage: ProgressStage::Ended, processed: s.processed }, ProgressAction::Finish { outcome: ProgressOutcome::Error })
            } else {
                let n = s.processed + 1;
                if n % PROGRESS_EVERY_DOCS == 0 || elapsed_ms >= PROGRESS_EVERY_MS {
                    (ProgressState { stage: ProgressStage::Reporting, processed: n }, ProgressAction::ReportBuilding { processed_items: n })
                } else {
                    (ProgressState { stage: ProgressStage::Indexing, processed: n }, ProgressAction::IndexNext { restart_clock: false })
                }
            }
        },
        (ProgressStage::Indexing, ProgressEvent::NoMoreDocs) => (
            ProgressState { stage: ProgressStage::FinalReport, processed: s.processed },
            ProgressAction::ReportBuilding { processed_items: s.processed },
        ),
        (ProgressStage::Reporting, ProgressEvent::Answered { go_on }) => {
            if go_on {
                (ProgressState { stage: ProgressStage::Indexing, processed: s.processed }, ProgressAction::IndexNext { restart_clock: true })
            } else {
                (ProgressState { stage: ProgressStage::Ended, processed: s.processed }, ProgressAction::Finish { outcome: ProgressOutcome::Cancelled })
            }
        },
        (ProgressStage::FinalReport, ProgressEvent::Answered { go_on }) => {
            if go_on {
                (ProgressState { stage: ProgressStage::Announcing, processed: s.processed }, ProgressAction::ReportCommitting)
            } else {
                (ProgressState { stage: ProgressStage::Ended, processed: s.processed }, ProgressAction::Finish { outcome: ProgressOutcome::Cancelled })
            }
        },
        (ProgressStage::Announcing, ProgressEvent::Answered { go_on }) => {
            if go_on {
                (ProgressState { stage: ProgressStage::Commit, processed: s.processed }, ProgressAction::Commit)
            } else {
                (ProgressState { stage: ProgressStage::Ended, processed: s.processed }, ProgressAction::Finish { outcome: ProgressOutcome::Cancelled })
            }
        },
        (ProgressStage::Commit, ProgressEvent::Committed { ok }) => {
            let outcome = if ok { ProgressOutcome::Built } else { ProgressOutcome::Error };
            (ProgressState { stage: ProgressStage::Ended, processed: s.processed }, ProgressAction::Finish { outcome })
        },
        _ => (ProgressState { stage: ProgressStage::Ended, processed: s.processed }, ProgressAction::Finish { outcome: ProgressOutcome::Error }),
    }
}

/// Law: a build reports its progress at least every 256 documents (and
/// whenever 250 ms have passed), counting each indexed document once; it
/// commits only after the final count and the commit announcement were
/// both answered "go on", ends built only on a commit that went through,
/// and a report answered "stop" ends it cancelled, committing nothing.
pub proof fn law_progress_reports_and_cancels(s: ProgressState, e: ProgressEvent)
    requires
        s.processed < usize::MAX,
    ensures
        s.stage == ProgressStage::Indexing && e is Indexed && e->Indexed_ok ==> (
            spec_index_progress_step(s, e).0.processed == s.processed + 1
            && ((s.processed + 1) % 256 == 0 || e->elapsed_ms >= 250 <==> spec_index_progress_step(s, e).1
                == (ProgressAction::ReportBuilding { processed_items: (s.processed + 1) as usize }))),
        spec_index_progress_step(s, e).1 is Commit ==> s.stage == ProgressStage::Announcing
            && e == (ProgressEvent::Answered { go_on: true }),
        spec_index_progress_step(s, e).1 is ReportCommitting ==> s.stage == ProgressStage::FinalReport
            && e == (ProgressEvent::Answered { go_on: true }),
        spec_index_progress_step(s, e).1 == (ProgressAction::Finish { outcome: ProgressOutcome::Built }) ==> s.stage
            == ProgressStage::Commit && e == (ProgressEvent::Committed { ok: true }),
        e == (ProgressEvent::Answered { go_on: false }) && (s.stage == ProgressStage::Reporting || s.stage
            == ProgressStage::FinalReport || s.stage == ProgressStage::Announcing) ==> spec_index_progress_step(s, e).1
            == (ProgressAction::Finish { outcome: ProgressOutcome::Cancelled }),
{
}

} // verus!
