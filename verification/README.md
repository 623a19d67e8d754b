# stellardb storage layer

The storage-layer logic of a multi-model database (documents, graphs,
full-text and vector search), verified with Verus.

- `src/` is the verified library: the order-preserving key encodings and
  their laws (`encoding`, `numeric`, `number_order`, `hash_encoding`,
  `key_laws`, `hash_laws`, `hash_equality`); value equality (`equality`); the writes of a document change (`doc_writes`),
  the decisions of a document write and its lock rollback
  (`doc_write_flow`), the decisions of an atomic write batch and its lock
  rollback (`batch_flow`) and pages of documents (`doc_paging`); edge keys,
  what creating or deleting an edge writes, and pages of edges
  (`edge_keys`, `edge_writes`, `paging`); B-tree index keys and scans
  (`btree`); unique-constraint lock plans (`unique`);
  the index and analyzer registries (`registry`, `analyzers`, `tokenizer`);
  batch collapsing (`batch`); full-text rebuild bookkeeping (`reindex`);
  index builds and their steps (`index_build`, `build_flow`, and
  `progress_flow` for full-text and vector builds); the storage format marker
  check (`format_version`); keyspace naming and copy batches
  (`keyspace_plan`); the ids and metadata file of vector indexes
  (`vector_ids`, `vector_meta`); lock striping (`lock_stripes`) and
  statistics (`stats`). Calls into `xxhash-rust`, `decimal-bytes`, `chrono`,
  `regex` and `bimap` stand behind the trusted items of `external`.
- `app/` holds what needs locks, threads, floating point or a store: striped
  mutexes, shared registries, and the loops that run the library's plans
  against a keyspace, a text index or a vector store.
- `tests/` runs the library.
