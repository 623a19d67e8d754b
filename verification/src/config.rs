//! Storage configuration, write operations and errors.

use vstd::prelude::*;
use crate::document::Document;
use crate::value::Value;

verus! {

/// Directory of the key-value store.
pub const DIR_STORAGE: &'static str = "storage";

/// Directory of all external indexes.
pub const DIR_INDEXES: &'static str = "indexes";

/// Full-text indexes, under the index directory.
pub const DIR_FTS: &'static str = "fts";

/// Vector indexes, under the index directory.
pub const DIR_VECTOR: &'static str = "vector";

/// Errors of the storage layer.
#[derive(Debug)]
pub enum StorageError {
    /// A configuration value is out of range.
    InvalidConfig(String),
    /// A unique constraint or a concurrent update conflicts.
    Conflict(String),
    /// A document to be created exists already; holds its id.
    AlreadyExists(String),
    /// Stored bytes do not have the expected form.
    Serialization(String),
    /// An index operation was refused.
    Index(String),
    /// A file could not be read or written, or does not have its form.
    Io(String),
    /// An operation does not apply to its input.
    InvalidOperation(String),
}

/// Resource limits of index backfill.
#[derive(Clone, Copy, PartialEq, Eq, Structural, Debug)]
pub struct IndexBuildConfig {
    /// Documents decoded per preparation chunk.
    pub chunk_size: usize,
    /// Target size of the keys of one write batch.
    pub memory_budget_bytes: usize,
    /// CPU workers that decode documents and extract keys.
    pub worker_count: usize,
}

/// Smallest memory budget accepted for index builds.
pub const MIN_MEMORY_BUDGET_BYTES: usize = 1024;

/// Most workers used by default.
pub const MAX_DEFAULT_WORKERS: usize = 8;

pub open spec fn clamp_workers(available: Option<usize>) -> usize {
    let n = match available {
        Some(n) => n,
        None => 1,
    };
    if n < 1 {
        1
    } else if n > MAX_DEFAULT_WORKERS {
        MAX_DEFAULT_WORKERS
    } else {
        n
    }
}

impl IndexBuildConfig {
    /// The default configuration on a machine offering `available` parallel
    /// workers (`None` when that is unknown): chunks of 4096 documents, a
    /// 64 MiB budget, and between one and eight workers.
    pub fn default_for_parallelism(available: Option<usize>) -> (r: Self)
        ensures
            r.chunk_size == 4096,
            r.memory_budget_bytes == 64 * 1024 * 1024,
            r.worker_count == clamp_workers(available),
    {
        let n = match available {
            Some(n) => n,
            None => 1,
        };
        let workers = if n < 1 {
            1
        } else if n > MAX_DEFAULT_WORKERS {
            MAX_DEFAULT_WORKERS
        } else {
            n
        };
        IndexBuildConfig {
            chunk_size: 4_096,
            memory_budget_bytes: 64 * 1024 * 1024,
            worker_count: workers,
        }
    }

    /// Accepts the configuration when every limit is usable: a positive
    /// chunk size, a budget of at least 1024 bytes, at least one worker.
    pub fn validate(self) -> (r: Result<Self, StorageError>)
        ensures
            r is Ok <==> (self.chunk_size > 0 && self.memory_budget_bytes >= MIN_MEMORY_BUDGET_BYTES
                && self.worker_count > 0),
            r matches Ok(c) ==> c == self,
            self.chunk_size == 0 ==> (r matches Err(StorageError::InvalidConfig(m))
                && m@ == "index build chunk size must be greater than zero"@),
            self.chunk_size > 0 && self.memory_budget_bytes < MIN_MEMORY_BUDGET_BYTES
                ==> (r matches Err(StorageError::InvalidConfig(m))
                && m@ == "index build memory budget must be at least 1024 bytes"@),
            self.chunk_size > 0 && self.memory_budget_bytes >= MIN_MEMORY_BUDGET_BYTES
                && self.worker_count == 0 ==> (r matches Err(StorageError::InvalidConfig(m))
                && m@ == "index build worker count must be greater than zero"@),
    {
        if self.chunk_size == 0 {
            return Err(
                StorageError::InvalidConfig(
                    "index build chunk size must be greater than zero".to_owned(),
                ),
            );
        }
        if self.memory_budget_bytes < MIN_MEMORY_BUDGET_BYTES {
            return Err(
                StorageError::InvalidConfig(
                    "index build memory budget must be at least 1024 bytes".to_owned(),
                ),
            );
        }
        if self.worker_count == 0 {
            return Err(
                StorageError::InvalidConfig(
                    "index build worker count must be greater than zero".to_owned(),
                ),
            );
        }
        Ok(self)
    }
}

/// Milestones of a running index build; a progress callback may ask to
/// cancel at any of them.
#[derive(Clone, Copy, PartialEq, Eq, Structural, Debug)]
pub enum IndexBuildEvent {
    Building { processed_items: usize },
    Committing,
    ValidatingUnique,
}

/// A typed, directed edge between two documents.
#[derive(Debug)]
pub struct Edge {
    /// Edge id.
    pub nanoid: String,
    /// Source document id.
    pub from: String,
    /// Edge label (its type).
    pub label: String,
    /// Target document id.
    pub to: String,
    /// Edge fields.
    pub fields: Vec<(String, Value)>,
}

/// One write of an atomic batch.
#[derive(Debug)]
pub enum WriteOp {
    /// Insert or replace a document.
    InsertDoc(Document),
    /// Insert a document only if its key is new.
    CreateDoc(Document),
    DeleteDoc { collection: String, key: String },
    InsertEdge(Edge),
    DeleteEdge { from: String, label: String, to: String },
}

} // verus!
