//! Storage-layer logic of a multi-model database: order-preserving key
//! encodings for documents, edges and secondary indexes, the numeric
//! fixed-width encoding, unique-constraint lock keys, lock striping,
//! index bookkeeping and storage statistics.

pub mod bytes;
pub mod order;
pub mod value;
pub mod document;
pub mod numeric;
pub mod number_order;
pub mod external;
pub mod encoding;
pub mod key_laws;
pub mod hash_encoding;
pub mod btree;
pub mod unique;
pub mod index_types;
pub mod config;
pub mod analyzers;
pub mod registry;
pub mod stats;
pub mod lock_stripes;
pub mod fulltext;
pub mod tokenizer;
pub mod batch;
pub mod equality;
pub mod edge_keys;
pub mod hash_laws;
pub mod hash_equality;
pub mod reindex;
pub mod paging;
pub mod edge_writes;
pub mod keyspace_plan;
pub mod vector_meta;
pub mod index_build;
pub mod build_flow;
pub mod doc_writes;
pub mod doc_write_flow;
pub mod batch_flow;
pub mod progress_flow;
pub mod format_version;
pub mod doc_paging;
pub mod vector_ids;
