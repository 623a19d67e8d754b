use stellardb::config::StorageError;
use stellardb::reindex::{
    fts_index_name, plan_text_update, ReindexStats, ReindexTracker, SnapshotStep, WriteTargets, MAX_CONCURRENT_MODIFICATIONS,
};

fn strings(v: &[&str]) -> Vec<String> {
    v.iter().map(|s| s.to_string()).collect()
}

fn index_message(e: StorageError) -> String {
    match e {
        StorageError::Index(m) => m,
        other => panic!("unexpected error {:?}", other),
    }
}

#[test]
fn fts_index_name_sorts_fields() {
    assert_eq!(fts_index_name(&strings(&["title", "body"])), "body_title_fts");
    assert_eq!(fts_index_name(&strings(&["body", "title"])), "body_title_fts");
    assert_eq!(fts_index_name(&strings(&["content"])), "content_fts");
    assert_eq!(fts_index_name(&strings(&["c", "a", "b"])), "a_b_c_fts");
    assert_eq!(fts_index_name(&strings(&[])), "_fts");
}

#[test]
fn fts_index_name_uses_byte_order() {
    // Upper case letters sort before lower case ones, as `str` does.
    assert_eq!(fts_index_name(&strings(&["b", "B", "a"])), "B_a_b_fts");
    assert_eq!(fts_index_name(&strings(&["ab", "a"])), "a_ab_fts");
}

#[test]
fn reindex_stats_default_is_zero() {
    let s = ReindexStats::default();
    assert_eq!((s.docs_indexed, s.docs_skipped, s.concurrent_modifications), (0, 0, 0));
}

#[test]
fn written_document_is_skipped_by_snapshot() {
    let mut t = ReindexTracker::new();
    assert_eq!(t.track_write("docs:1"), WriteTargets::ActiveAndShadow);
    assert_eq!(t.snapshot_step("docs:1").unwrap(), SnapshotStep::Skip);
    assert_eq!(t.snapshot_step("docs:2").unwrap(), SnapshotStep::Index);
    t.record_indexed();
    let s = t.finish().unwrap();
    assert_eq!((s.docs_indexed, s.docs_skipped, s.concurrent_modifications), (1, 1, 1));
}

#[test]
fn repeated_writes_count_once() {
    let mut t = ReindexTracker::new();
    t.track_write("docs:1");
    t.track_write("docs:1");
    t.track_update(Some("docs:1"), Some("docs:1"));
    assert_eq!(t.stats().concurrent_modifications, 1);
}

#[test]
fn updated_documents_are_skipped_by_snapshot() {
    let mut t = ReindexTracker::new();
    assert_eq!(t.track_update(Some("docs:a"), Some("docs:b")), WriteTargets::ActiveAndShadow);
    assert_eq!(t.track_update(Some("docs:c"), None), WriteTargets::ActiveAndShadow);
    assert_eq!(t.track_update(None, None), WriteTargets::ActiveAndShadow);
    for id in ["docs:a", "docs:b", "docs:c"] {
        assert_eq!(t.snapshot_step(id).unwrap(), SnapshotStep::Skip);
    }
    assert_eq!(t.snapshot_step("docs:d").unwrap(), SnapshotStep::Index);
    let s = t.finish().unwrap();
    assert_eq!((s.docs_indexed, s.docs_skipped, s.concurrent_modifications), (0, 3, 3));
}

#[test]
fn tracking_gives_up_past_the_limit() {
    let mut t = ReindexTracker::new();
    for i in 0..MAX_CONCURRENT_MODIFICATIONS {
        assert_eq!(t.track_write(&format!("docs:{}", i)), WriteTargets::ActiveAndShadow);
    }
    assert!(!t.is_overflowed());
    // An id already tracked still finds the tracking full.
    assert_eq!(t.track_write("docs:0"), WriteTargets::ActiveOnly);
    assert!(t.is_overflowed());
    assert_eq!(t.track_write("docs:new"), WriteTargets::ActiveOnly);
    assert_eq!(t.track_update(Some("docs:x"), None), WriteTargets::ActiveOnly);
    assert_eq!(
        index_message(t.snapshot_step("docs:1").unwrap_err()),
        "REINDEX aborted: too many concurrent modifications"
    );
    assert_eq!(index_message(t.finish().unwrap_err()), "REINDEX aborted: too many concurrent modifications");
    assert_eq!(t.stats().concurrent_modifications, MAX_CONCURRENT_MODIFICATIONS);
}

#[test]
fn update_that_fills_tracking_goes_to_active_only() {
    let mut t = ReindexTracker::new();
    for i in 0..MAX_CONCURRENT_MODIFICATIONS - 1 {
        t.track_write(&format!("docs:{}", i));
    }
    // The old id takes the last place; the new one finds tracking full.
    assert_eq!(t.track_update(Some("docs:old"), Some("docs:new")), WriteTargets::ActiveOnly);
    assert!(t.is_overflowed());
    assert_eq!(t.stats().concurrent_modifications, MAX_CONCURRENT_MODIFICATIONS);
}

#[test]
fn finish_without_rebuild_is_refused() {
    match stellardb::reindex::finish_reindex(None) {
        Err(stellardb::config::StorageError::Index(m)) => assert_eq!(m, "No reindex in progress"),
        other => panic!("unexpected {:?}", other.is_ok()),
    }
    let t = stellardb::reindex::ReindexTracker::new();
    assert!(stellardb::reindex::finish_reindex(Some(&t)).is_ok());
}

#[test]
fn text_update_deletes_old_id_then_indexes_new() {
    assert_eq!(plan_text_update(Some("doc:1"), Some("doc:2")), (Some("doc:1".to_string()), true));
    assert_eq!(plan_text_update(None, Some("doc:2")), (Some("doc:2".to_string()), true));
    assert_eq!(plan_text_update(Some("doc:1"), None), (Some("doc:1".to_string()), false));
    assert_eq!(plan_text_update(None, None), (None, false));
}
