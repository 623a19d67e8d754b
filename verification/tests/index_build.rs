use stellardb::config::StorageError;
use stellardb::index_build::{batch_end, duplicate_value_error, entry_size, has_conflicting_neighbours, sort_locks, sort_prepared, unique_build_conflict, worker_layout, DocChunk, PreparedEntry};
use stellardb::build_flow::{build_step, new_build, BuildAction, BuildOutcome, BuildReport};

#[test]
fn chunk_closes_at_size_and_budget() {
    let mut c = DocChunk::new(3, 100);
    assert_eq!(c.budget, 50);
    assert!(c.offer(10) && c.offer(10) && c.offer(10));
    assert!(!c.has_room());
    assert!(!c.offer(1));
    let mut c = DocChunk::new(10, 100);
    assert!(c.offer(40));
    assert!(!c.offer(20));
    assert_eq!((c.count, c.bytes), (1, 40));
    assert!(c.offer(10));
    assert_eq!((c.count, c.bytes), (2, 50));
}

#[test]
fn oversized_document_goes_alone() {
    let mut c = DocChunk::new(10, 100);
    assert!(c.offer(500));
    assert!(!c.offer(1));
    assert_eq!(DocChunk::new(10, 1).budget, 1);
    assert_eq!(DocChunk::new(10, 0).budget, 1);
    let mut empty = DocChunk::new(0, 100);
    assert!(!empty.has_room());
    assert!(!empty.offer(1));
}

#[test]
fn worker_layouts() {
    assert_eq!(worker_layout(10, 4), (4, 3));
    assert_eq!(worker_layout(3, 8), (3, 1));
    assert_eq!(worker_layout(7, 7), (7, 1));
    assert_eq!(worker_layout(1, 1), (1, 1));
    assert_eq!(worker_layout(100, 3), (3, 34));
    for n in 1..50usize {
        for w in 1..12usize {
            let (wc, per) = worker_layout(n, w);
            let v: Vec<usize> = (0..n).collect();
            assert!(v.chunks(per).count() <= wc);
            assert_eq!(wc, w.min(n));
            assert_eq!(per, n.div_ceil(wc));
        }
    }
}

#[test]
fn entry_sizes() {
    assert_eq!(entry_size(Some(5), Some(3)), 24);
    assert_eq!(entry_size(Some(5), None), 5);
    assert_eq!(entry_size(None, Some(0)), 16);
    assert_eq!(entry_size(None, None), 0);
}

#[test]
fn write_batches_stay_within_budget() {
    let sizes = [10usize, 10, 10, 10];
    assert_eq!(batch_end(&sizes, 0, 25), 2);
    assert_eq!(batch_end(&sizes, 2, 25), 4);
    assert_eq!(batch_end(&sizes, 0, 40), 4);
    assert_eq!(batch_end(&[100, 1], 0, 50), 1);
    assert_eq!(batch_end(&[100, 1], 1, 50), 2);
    // Byte counts saturate: a saturated count is still within a budget of usize::MAX.
    assert_eq!(batch_end(&[usize::MAX, 1], 0, usize::MAX), 2);
    assert_eq!(batch_end(&[usize::MAX, 1], 0, usize::MAX - 1), 1);
}

fn lock(k: u8, doc: &str) -> ([u8; 16], Vec<u8>) {
    ([k; 16], doc.as_bytes().to_vec())
}

#[test]
fn neighbouring_duplicates() {
    assert!(!has_conflicting_neighbours(&[]));
    assert!(!has_conflicting_neighbours(&[lock(1, "a")]));
    assert!(has_conflicting_neighbours(&[lock(1, "a"), lock(2, "b"), lock(2, "c")]));
    assert!(!has_conflicting_neighbours(&[lock(1, "a"), lock(2, "b"), lock(2, "b")]));
    // Unsorted: the duplicate is not next to its twin.
    let mut locks = vec![lock(2, "b"), lock(1, "a"), lock(2, "c")];
    assert!(!has_conflicting_neighbours(&locks));
    locks.sort_unstable_by_key(|(k, _)| *k);
    assert!(has_conflicting_neighbours(&locks));
}

#[test]
fn duplicate_value_message() {
    let fields = vec!["email".to_string(), "org".to_string()];
    match duplicate_value_error(&fields) {
        StorageError::Conflict(m) => assert_eq!(m, format!("Duplicate value for unique index on {:?}", fields)),
        other => panic!("unexpected {:?}", other),
    }
}

#[test]
fn unique_build_conflicts() {
    let locks = vec![lock(1, "a"), lock(2, "b")];
    assert!(!unique_build_conflict(&locks, &[None, None]));
    assert!(!unique_build_conflict(&locks, &[Some(b"a".to_vec()), Some(b"b".to_vec())]));
    assert!(unique_build_conflict(&locks, &[None, Some(b"z".to_vec())]));
    assert!(unique_build_conflict(&[lock(1, "a"), lock(1, "b")], &[None, None]));
    assert!(!unique_build_conflict(&[lock(1, "a"), lock(1, "a")], &[]));
}

#[test]
fn build_steps_through_a_unique_chunk() {
    let (mut s, a) = new_build(true);
    assert_eq!(a, BuildAction::ReportBuilding { processed_items: 0 });
    let mut actions = Vec::new();
    for r in [
        BuildReport::Answer { go_on: true },
        BuildReport::ChunkRead { count: 3 },
        BuildReport::Prepared { entries: 3 },
        BuildReport::Checked { conflict: false },
        BuildReport::Answer { go_on: true },
        BuildReport::Answer { go_on: true },
        BuildReport::BatchWritten { count: 2 },
        BuildReport::Answer { go_on: true },
        BuildReport::BatchWritten { count: 1 },
        BuildReport::Answer { go_on: true },
        BuildReport::Answer { go_on: true },
        BuildReport::ChunkRead { count: 0 },
        BuildReport::Answer { go_on: true },
    ] {
        let (next, action) = build_step(&s, r);
        s = next;
        actions.push(action);
    }
    assert_eq!(
        actions,
        vec![
            BuildAction::ReadChunk,
            BuildAction::PrepareEntries,
            BuildAction::CheckUnique,
            BuildAction::ReportBuilding { processed_items: 0 },
            BuildAction::ReportBuilding { processed_items: 0 },
            BuildAction::WriteBatch,
            BuildAction::ReportBuilding { processed_items: 0 },
            BuildAction::WriteBatch,
            BuildAction::ReportBuilding { processed_items: 3 },
            BuildAction::ReportBuilding { processed_items: 3 },
            BuildAction::ReadChunk,
            BuildAction::ReportCommitting,
            BuildAction::Finish { outcome: BuildOutcome::Done(true) },
        ]
    );
}

#[test]
fn build_stops_and_refuses_duplicates() {
    let (s, _) = new_build(false);
    let (_, a) = build_step(&s, BuildReport::Answer { go_on: false });
    assert_eq!(a, BuildAction::Finish { outcome: BuildOutcome::Done(false) });
    let (s, _) = new_build(true);
    let (s, _) = build_step(&s, BuildReport::Answer { go_on: true });
    let (s, _) = build_step(&s, BuildReport::ChunkRead { count: 2 });
    let (s, _) = build_step(&s, BuildReport::Prepared { entries: 2 });
    let (_, a) = build_step(&s, BuildReport::Checked { conflict: true });
    assert_eq!(a, BuildAction::Finish { outcome: BuildOutcome::Duplicate });
}

#[test]
fn sort_locks_orders_by_lock_key_and_keeps_entries() {
    let mut k1 = [0u8; 16];
    k1[0] = 9;
    let mut k2 = [0u8; 16];
    k2[15] = 1;
    let k3 = [0u8; 16];
    let locks = vec![(k1, b"doc:a".to_vec()), (k2, b"doc:b".to_vec()), (k3, b"doc:c".to_vec()), (k2, b"doc:d".to_vec())];
    let sorted = sort_locks(locks);
    let keys: Vec<[u8; 16]> = sorted.iter().map(|(k, _)| *k).collect();
    assert_eq!(keys, vec![k3, k2, k2, k1]);
    let mut docs: Vec<Vec<u8>> = sorted.iter().map(|(_, d)| d.clone()).collect();
    docs.sort();
    assert_eq!(docs, vec![b"doc:a".to_vec(), b"doc:b".to_vec(), b"doc:c".to_vec(), b"doc:d".to_vec()]);
    assert!(unique_build_conflict(&sorted, &[]));
    assert!(sort_locks(Vec::new()).is_empty());
}

#[test]
fn sort_prepared_orders_by_index_key() {
    let entries = vec![
        PreparedEntry { index_key: Some(vec![2, 1]), unique_lock: None },
        PreparedEntry { index_key: None, unique_lock: None },
        PreparedEntry { index_key: Some(vec![2]), unique_lock: Some(([7u8; 16], b"doc:x".to_vec())) },
        PreparedEntry { index_key: Some(vec![1, 255]), unique_lock: None },
    ];
    let sorted = sort_prepared(entries);
    let keys: Vec<Option<Vec<u8>>> = sorted.iter().map(|e| e.index_key.clone()).collect();
    assert_eq!(keys, vec![None, Some(vec![1, 255]), Some(vec![2]), Some(vec![2, 1])]);
    assert_eq!(sorted[2].unique_lock, Some(([7u8; 16], b"doc:x".to_vec())));
}
