//! The steps of a B-tree index build over stored documents: when to report
//! progress (and stop when asked), read the next chunk, prepare its entries,
//! check a unique index's values, write the next batch, and finish. The
//! caller performs each action and reports what happened.

use vstd::prelude::*;

verus! {

/// Where a build stands: the action it last asked for.
#[derive(Clone, Copy, PartialEq, Eq, Structural, Debug)]
pub enum BuildStage {
    /// Progress asked before reading a chunk.
    BeforeChunk,
    /// The next chunk is being read.
    Reading,
    /// The chunk's entries are being prepared.
    Preparing,
    /// A unique index's values are being checked.
    Checking,
    /// Progress asked before the chunk's writes.
    BeforeWrites,
    /// Progress asked before a batch.
    BeforeBatch,
    /// A batch is being written.
    Writing,
    /// Progress asked after the chunk.
    AfterChunk,
    /// The final report is out.
    Committing,
    /// The build has ended.
    Ended,
}

/// The state of a build.
#[derive(Clone, Copy, PartialEq, Eq, Structural, Debug)]
pub struct BuildState {
    pub stage: BuildStage,
    pub unique: bool,
    /// Documents of the finished chunks.
    pub processed: usize,
    /// Documents of the chunk at hand.
    pub chunk: usize,
    /// Entries of the chunk not written yet.
    pub remaining: usize,
}

impl View for BuildState {
    type V = BuildState;

    open spec fn view(&self) -> BuildState {
        *self
    }
}

/// What the caller reports.
#[derive(Clone, Copy, PartialEq, Eq, Structural, Debug)]
pub enum BuildReport {
    /// The progress callback's answer: `false` asks to stop.
    Answer { go_on: bool },
    /// A chunk of `count` documents was read (none when the documents ran out).
    ChunkRead { count: usize },
    /// The chunk's `entries` entries are prepared and sorted.
    Prepared { entries: usize },
    /// Whether the unique check found two documents with one value, or a
    /// value held by another document.
    Checked { conflict: bool },
    /// A batch of `count` entries was written.
    BatchWritten { count: usize },
}

impl View for BuildReport {
    type V = BuildReport;

    open spec fn view(&self) -> BuildReport {
        *self
    }
}

/// How a build ends.
#[derive(Clone, Copy, PartialEq, Eq, Structural, Debug)]
pub enum BuildOutcome {
    /// `Ok` with the answer: `true` when the build ran through and the
    /// final report was not asked to stop, `false` when it stopped.
    Done(bool),
    /// Refused with the duplicate-value error of a unique index.
    Duplicate,
}

/// The next action of a build.
#[derive(Clone, Copy, PartialEq, Eq, Structural, Debug)]
pub enum BuildAction {
    /// Report `Building` with this count and pass on the answer.
    ReportBuilding { processed_items: usize },
    ReadChunk,
    PrepareEntries,
    CheckUnique,
    /// Write the next batch (within the memory budget) of the prepared entries.
    WriteBatch,
    /// Report `Committing` and pass on the answer.
    ReportCommitting,
    Finish { outcome: BuildOutcome },
}

impl View for BuildAction {
    type V = BuildAction;

    open spec fn view(&self) -> BuildAction {
        *self
    }
}

pub open spec fn build_at(s: BuildState, stage: BuildStage) -> BuildState {
    BuildState { stage, ..s }
}

pub open spec fn build_end(s: BuildState, outcome: BuildOutcome) -> (BuildState, BuildAction) {
    (build_at(s, BuildStage::Ended), BuildAction::Finish { outcome })
}

/// After the chunk's last batch: its documents count as processed.
pub open spec fn chunk_done(s: BuildState) -> (BuildState, BuildAction) {
    let p = (s.processed + s.chunk) as usize;
    (
        BuildState { stage: BuildStage::AfterChunk, processed: p, chunk: 0, remaining: 0, ..s },
        BuildAction::ReportBuilding { processed_items: p },
    )
}

/// Either the next batch or the end of the chunk.
pub open spec fn next_batch(s: BuildState) -> (BuildState, BuildAction) {
    if s.remaining > 0 {
        (build_at(s, BuildStage::BeforeBatch), BuildAction::ReportBuilding { processed_items: s.processed })
    } else {
        chunk_done(s)
    }
}

/// A report that may finish the chunk finds room in the processed count
/// for the chunk's documents.
pub open spec fn report_ok(s: BuildState, r: BuildReport) -> bool {
    ((s.stage == BuildStage::Writing && r is BatchWritten) || (s.stage == BuildStage::BeforeWrites && r
        == BuildReport::Answer { go_on: true })) ==> s.processed + s.chunk <= usize::MAX
}

/// One step of a build.
pub open spec fn spec_build_step(s: BuildState, r: BuildReport) -> (BuildState, BuildAction) {
    match (s.stage, r) {
        (BuildStage::BeforeChunk, BuildReport::Answer { go_on }) => if go_on {
            (build_at(s, BuildStage::Reading), BuildAction::ReadChunk)
        } else {
            build_end(s, BuildOutcome::Done(false))
        },
        (BuildStage::Reading, BuildReport::ChunkRead { count }) => if count == 0 {
            (build_at(s, BuildStage::Committing), BuildAction::ReportCommitting)
        } else {
            (BuildState { stage: BuildStage::Preparing, chunk: count, ..s }, BuildAction::PrepareEntries)
        },
        (BuildStage::Preparing, BuildReport::Prepared { entries }) => {
            let t = BuildState { remaining: entries, ..s };
            if s.unique {
                (build_at(t, BuildStage::Checking), BuildAction::CheckUnique)
            } else {
                (build_at(t, BuildStage::BeforeWrites), BuildAction::ReportBuilding { processed_items: s.processed })
            }
        },
        (BuildStage::Checking, BuildReport::Checked { conflict }) => if conflict {
            build_end(s, BuildOutcome::Duplicate)
        } else {
            (build_at(s, BuildStage::BeforeWrites), BuildAction::ReportBuilding { processed_items: s.processed })
        },
        (BuildStage::BeforeWrites, BuildReport::Answer { go_on }) => if go_on {
            next_batch(s)
        } else {
            build_end(s, BuildOutcome::Done(false))
        },
        (BuildStage::BeforeBatch, BuildReport::Answer { go_on }) => if go_on {
            (build_at(s, BuildStage::Writing), BuildAction::WriteBatch)
        } else {
            build_end(s, BuildOutcome::Done(false))
        },
        (BuildStage::Writing, BuildReport::BatchWritten { count }) => {
            let left = if count >= s.remaining {
                0
            } else {
                (s.remaining - count) as usize
            };
            next_batch(BuildState { remaining: left, ..s })
        },
        (BuildStage::AfterChunk, BuildReport::Answer { go_on }) => if go_on {
            (build_at(s, BuildStage::BeforeChunk), BuildAction::ReportBuilding { processed_items: s.processed })
        } else {
            build_end(s, BuildOutcome::Done(false))
        },
        (BuildStage::Committing, BuildReport::Answer { go_on }) => build_end(s, BuildOutcome::Done(go_on)),
        _ => build_end(s, BuildOutcome::Done(false)),
    }
}

/// A build that has not started: its first action is to report progress.
pub fn new_build(unique: bool) -> (r: (BuildState, BuildAction))
    ensures
        r.0@ == (BuildState { stage: BuildStage::BeforeChunk, unique, processed: 0, chunk: 0, remaining: 0 }),
        r.1@ == (BuildAction::ReportBuilding { processed_items: 0 }),
{
    (
        BuildState { stage: BuildStage::BeforeChunk, unique, processed: 0, chunk: 0, remaining: 0 },
        BuildAction::ReportBuilding { processed_items: 0 },
    )
}

fn exec_next_batch(s: BuildState) -> (r: (BuildState, BuildAction))
    requires
        s.processed + s.chunk <= usize::MAX,
    ensures
        r == next_batch(s),
{
    if s.remaining > 0 {
        (BuildState { stage: BuildStage::BeforeBatch, ..s }, BuildAction::ReportBuilding { processed_items: s.processed })
    } else {
        let p = s.processed + s.chunk;
        (
            BuildState { stage: BuildStage::AfterChunk, processed: p, chunk: 0, remaining: 0, ..s },
            BuildAction::ReportBuilding { processed_items: p },
        )
    }
}

/// One step of a build: the state after `report` and the next action. A
/// report that does not answer the last action ends the build as stopped.
pub fn build_step(state: &BuildState, report: BuildReport) -> (r: (BuildState, BuildAction))
    requires
        report_ok(state@, report@),
    ensures
        (r.0@, r.1@) == spec_build_step(state@, report@),
{
    let s = *state;
    let ended = BuildState { stage: BuildStage::Ended, ..s };
    match (s.stage, report) {
        (BuildStage::BeforeChunk, BuildReport::Answer { go_on }) => if go_on {
            (BuildState { stage: BuildStage::Reading, ..s }, BuildAction::ReadChunk)
        } else {
            (ended, BuildAction::Finish { outcome: BuildOutcome::Done(false) })
        },
        (BuildStage::Reading, BuildReport::ChunkRead { count }) => if count == 0 {
            (BuildState { stage: BuildStage::Committing, ..s }, BuildAction::ReportCommitting)
        } else {
            (BuildState { stage: BuildStage::Preparing, chunk: count, ..s }, BuildAction::PrepareEntries)
        },
        (BuildStage::Preparing, BuildReport::Prepared { entries }) => {
            if s.unique {
                (BuildState { stage: BuildStage::Checking, remaining: entries, ..s }, BuildAction::CheckUnique)
            } else {
                (
                    BuildState { stage: BuildStage::BeforeWrites, remaining: entries, ..s },
                    BuildAction::ReportBuilding { processed_items: s.processed },
                )
            }
        },
        (BuildStage::Checking, BuildReport::Checked { conflict }) => if conflict {
            (ended, BuildAction::Finish { outcome: BuildOutcome::Duplicate })
        } else {
            (BuildState { stage: BuildStage::BeforeWrites, ..s }, BuildAction::ReportBuilding { processed_items: s.processed })
        },
        (BuildStage::BeforeWrites, BuildReport::Answer { go_on }) => if go_on {
            exec_next_batch(s)
        } else {
            (ended, BuildAction::Finish { outcome: BuildOutcome::Done(false) })
        },
        (BuildStage::BeforeBatch, BuildReport::Answer { go_on }) => if go_on {
            (BuildState { stage: BuildStage::Writing, ..s }, BuildAction::WriteBatch)
        } else {
            (ended, BuildAction::Finish { outcome: BuildOutcome::Done(false) })
        },
        (BuildStage::Writing, BuildReport::BatchWritten { count }) => {
            let left = if count >= s.remaining {
                0
            } else {
                s.remaining - count
            };
            exec_next_batch(BuildState { remaining: left, ..s })
        },
        (BuildStage::AfterChunk, BuildReport::Answer { go_on }) => if go_on {
            (BuildState { stage: BuildStage::BeforeChunk, ..s }, BuildAction::ReportBuilding { processed_items: s.processed })
        } else {
            (ended, BuildAction::Finish { outcome: BuildOutcome::Done(false) })
        },
        (BuildStage::Committing, BuildReport::Answer { go_on }) => (ended, BuildAction::Finish { outcome: BuildOutcome::Done(go_on) }),
        _ => (ended, BuildAction::Finish { outcome: BuildOutcome::Done(false) }),
    }
}

/// Law: a build stops as soon as a progress report is answered `false`;
/// it writes a batch only right after a report answered `true`; it makes
/// its final `Committing` report only once the documents ran out, and
/// ends `Done(true)` only when that report is answered `true`; a unique
/// build writes nothing before its check passed.
pub proof fn law_build_steps(s: BuildState, r: BuildReport)
    ensures
        (r == BuildReport::Answer { go_on: false } && s.stage != BuildStage::Committing) ==> spec_build_step(s, r).1
            == (BuildAction::Finish { outcome: BuildOutcome::Done(false) }),
        spec_build_step(s, r).1 is WriteBatch ==> s.stage == BuildStage::BeforeBatch && r == (BuildReport::Answer {
            go_on: true,
        }),
        spec_build_step(s, r).1 is ReportCommitting ==> s.stage == BuildStage::Reading && r == (BuildReport::ChunkRead {
            count: 0,
        }),
        spec_build_step(s, r).1 == (BuildAction::Finish { outcome: BuildOutcome::Done(true) }) ==> s.stage
            == BuildStage::Committing && r == (BuildReport::Answer { go_on: true }),
        spec_build_step(s, r).0.stage == BuildStage::BeforeWrites && s.unique ==> s.stage == BuildStage::Checking
            && r == (BuildReport::Checked { conflict: false }),
{
}

/// Law: the processed count grows only when a chunk's last batch is
/// written (or a chunk has no entries), and then by the chunk's documents.
pub proof fn law_processed_count(s: BuildState, r: BuildReport)
    requires
        report_ok(s, r),
    ensures
        spec_build_step(s, r).0.processed == s.processed || (spec_build_step(s, r).0.processed == s.processed
            + s.chunk && spec_build_step(s, r).0.stage == BuildStage::AfterChunk),
{
}

} // verus!
