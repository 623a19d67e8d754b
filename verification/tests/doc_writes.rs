use stellardb::btree::BTreeIndex;
use stellardb::doc_writes::{plan_document_writes, TxWrite, WriteKind, WriteTarget};
use stellardb::document::Document;
use stellardb::registry::IndexDef;
use stellardb::value::Value;

fn doc(id: &str, fields: Vec<(&str, Value)>) -> Document {
    Document { id: id.to_string(), fields: fields.into_iter().map(|(k, v)| (k.to_string(), v)).collect() }
}

fn strings(v: &[&str]) -> Vec<String> {
    v.iter().map(|s| s.to_string()).collect()
}

fn view(ws: &[TxWrite]) -> Vec<(WriteTarget, Vec<u8>, WriteKind)> {
    ws.iter().map(|w| (w.target, w.key.clone(), w.kind)).collect()
}

fn indexes() -> Vec<IndexDef> {
    vec![IndexDef::fulltext("users", strings(&["bio"])), IndexDef::new("users", strings(&["age"]))]
}

fn age_key(d: &Document) -> Vec<u8> {
    BTreeIndex::new().build_index_key(d, &strings(&["age"])).unwrap()
}

#[test]
fn create_writes_marker_and_index() {
    let new = doc("users:1", vec![("age", Value::Int(30))]);
    let ws = plan_document_writes(&indexes(), "users", "1", None, Some(&new));
    assert_eq!(
        view(&ws),
        vec![
            (WriteTarget::Docs, b"1".to_vec(), WriteKind::PutDocument),
            (WriteTarget::Exists, b"1".to_vec(), WriteKind::PutEmpty),
            (WriteTarget::Index(1), age_key(&new), WriteKind::PutEmpty),
            (WriteTarget::Jobs, b"users:1".to_vec(), WriteKind::PutJob),
        ]
    );
}

#[test]
fn update_leaves_marker_alone() {
    let old = doc("users:1", vec![("age", Value::Int(30))]);
    let new = doc("users:1", vec![("age", Value::Int(31))]);
    let ws = plan_document_writes(&indexes(), "users", "1", Some(&old), Some(&new));
    assert_eq!(
        view(&ws),
        vec![
            (WriteTarget::Docs, b"1".to_vec(), WriteKind::PutDocument),
            (WriteTarget::Index(1), age_key(&old), WriteKind::Remove),
            (WriteTarget::Index(1), age_key(&new), WriteKind::PutEmpty),
            (WriteTarget::Jobs, b"users:1".to_vec(), WriteKind::PutJob),
        ]
    );
}

#[test]
fn delete_removes_marker_and_index() {
    let old = doc("users:1", vec![("age", Value::Int(30))]);
    let ws = plan_document_writes(&indexes(), "users", "1", Some(&old), None);
    assert_eq!(
        view(&ws),
        vec![
            (WriteTarget::Docs, b"1".to_vec(), WriteKind::Remove),
            (WriteTarget::Exists, b"1".to_vec(), WriteKind::Remove),
            (WriteTarget::Index(1), age_key(&old), WriteKind::Remove),
            (WriteTarget::Jobs, b"users:1".to_vec(), WriteKind::PutJob),
        ]
    );
}

#[test]
fn missing_field_and_nothing_to_do() {
    let new = doc("users:2", vec![("name", Value::String("x".to_string()))]);
    let ws = plan_document_writes(&indexes(), "users", "2", None, Some(&new));
    assert_eq!(ws.len(), 3);
    assert!(plan_document_writes(&indexes(), "users", "2", None, None).is_empty());
    assert_eq!(plan_document_writes(&[], "users", "é", None, Some(&new))[0].key, "é".as_bytes().to_vec());
}

#[test]
fn no_job_without_external_indexes() {
    let new = doc("users:1", vec![("age", Value::Int(30))]);
    let btree_only = vec![IndexDef::new("users", strings(&["age"]))];
    let ws = plan_document_writes(&btree_only, "users", "1", None, Some(&new));
    assert!(ws.iter().all(|w| w.target != WriteTarget::Jobs));
    let hnsw = vec![IndexDef { collection: "users".to_string(), fields: strings(&["v"]), unique: false, index_type: stellardb::index_types::IndexType::Hnsw }];
    let ws = plan_document_writes(&hnsw, "users", "1", Some(&new), None);
    assert_eq!(view(&ws).last().cloned(), Some((WriteTarget::Jobs, b"users:1".to_vec(), WriteKind::PutJob)));
}
