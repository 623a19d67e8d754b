use stellardb::config::StorageError;
use stellardb::vector_ids::VectorIds;

fn invalid_message(e: StorageError) -> String {
    match e {
        StorageError::InvalidOperation(m) => m,
        other => panic!("unexpected error {:?}", other),
    }
}

#[test]
fn ids_are_handed_out_in_turn_and_checked() {
    let mut ids = VectorIds::new(3);
    assert_eq!(ids.dimension(), 3);
    assert_eq!(ids.reserve_id(3).unwrap(), 0);
    assert_eq!(ids.reserve_id(3).unwrap(), 1);
    assert_eq!(invalid_message(ids.reserve_id(2).unwrap_err()), "Vector dimension mismatch: expected 3, got 2");
    assert_eq!(ids.reserve_id(3).unwrap(), 2);
    assert!(ids.check_dimension(3).is_ok());
    assert_eq!(invalid_message(ids.check_dimension(4).unwrap_err()), "Vector dimension mismatch: expected 3, got 4");
    assert_eq!(
        invalid_message(ids.check_query_dimension(0).unwrap_err()),
        "Query vector dimension mismatch: expected 3, got 0"
    );
}

#[test]
fn pairs_are_one_to_one() {
    let mut ids = VectorIds::new(2);
    ids.record(0, "docs:a".to_string());
    ids.record(1, "docs:b".to_string());
    assert_eq!(ids.id_of("docs:a"), Some(0));
    assert_eq!(ids.doc_of(1).as_deref(), Some("docs:b"));
    // Re-adding a document's vector under a new id replaces its old pair.
    ids.record(2, "docs:a".to_string());
    assert_eq!(ids.id_of("docs:a"), Some(2));
    assert_eq!(ids.doc_of(0), None);
    // Reusing an id for another document replaces that id's pair.
    ids.record(1, "docs:c".to_string());
    assert_eq!(ids.id_of("docs:b"), None);
    assert_eq!(ids.doc_of(1).as_deref(), Some("docs:c"));
    ids.forget("docs:c");
    assert_eq!(ids.id_of("docs:c"), None);
    assert_eq!(ids.doc_of(1), None);
    assert_eq!(ids.doc_of(2).as_deref(), Some("docs:a"));
}

#[test]
fn search_results_map_to_documents() {
    let mut ids = VectorIds::new(2);
    ids.record(0, "docs:a".to_string());
    ids.record(7, "docs:b".to_string());
    let docs = ids.documents_of(&[7, 3, 0]);
    assert_eq!(docs, vec![(0, "docs:b".to_string()), (2, "docs:a".to_string())]);
}

#[test]
fn metadata_reloads() {
    let mut ids = VectorIds::new(4);
    for (i, d) in ["docs:a", "docs:é", "docs:c\td"].iter().enumerate() {
        let id = ids.reserve_id(4).unwrap();
        assert_eq!(id, i as u64);
        ids.record(id, d.to_string());
    }
    ids.forget("docs:a");
    let text = String::from_utf8(ids.metadata()).unwrap();
    assert!(text.starts_with("v1\n3\n"));
    let mut back = VectorIds::load(4, &text).unwrap();
    assert_eq!(back.id_of("docs:a"), None);
    assert_eq!(back.id_of("docs:é"), Some(1));
    assert_eq!(back.id_of("docs:c\td"), Some(2));
    assert_eq!(back.reserve_id(4).unwrap(), 3);
}

#[test]
fn load_inserts_in_file_order() {
    let ids = VectorIds::load(2, "v1\n5\n1\tx\n2\tx\n3\ty\n3\tz\n").unwrap();
    assert_eq!(ids.id_of("x"), Some(2));
    assert_eq!(ids.doc_of(1), None);
    assert_eq!(ids.doc_of(3).as_deref(), Some("z"));
    assert_eq!(ids.id_of("y"), None);
    assert!(matches!(VectorIds::load(2, "v1\nx\n"), Err(StorageError::Io(_))));
}

#[test]
fn counter_wraps_and_clear_restarts() {
    let mut ids = VectorIds::load(1, "v1\n18446744073709551615\n").unwrap();
    assert_eq!(ids.reserve_id(1).unwrap(), u64::MAX);
    assert_eq!(ids.reserve_id(1).unwrap(), 0);
    ids.record(9, "d".to_string());
    ids.clear();
    assert_eq!(ids.doc_of(9), None);
    assert_eq!(ids.reserve_id(1).unwrap(), 0);
}
