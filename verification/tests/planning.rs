use stellardb::batch::{MutationLog, PlannedWrite};
use stellardb::config::StorageError;
use stellardb::document::Document;
use stellardb::equality::values_equal;
use stellardb::registry::IndexDef;
use stellardb::unique::{join_fields, LockAction, UniqueConstraintManager};
use stellardb::value::{FloatText, Value};

fn float(x: f64) -> Value {
    Value::Float(FloatText::new(x.to_string()).unwrap())
}

fn doc(id: &str, fields: Vec<(&str, Value)>) -> Document {
    Document { id: id.to_string(), fields: fields.into_iter().map(|(k, v)| (k.to_string(), v)).collect() }
}

fn strings(v: &[&str]) -> Vec<String> {
    v.iter().map(|s| s.to_string()).collect()
}

#[test]
fn value_equality_follows_numbers_and_maps() {
    assert!(values_equal(&Value::Int(1), &Value::Int(1)));
    assert!(!values_equal(&Value::Int(1), &float(1.0)));
    assert!(values_equal(&float(0.0), &float(-0.0)));
    assert!(!values_equal(&float(f64::NAN), &float(f64::NAN)));
    assert!(values_equal(&float(2.5), &float(2.5)));
    let a = Value::Object(vec![("x".to_string(), Value::Int(1)), ("y".to_string(), Value::Bool(true))]);
    let b = Value::Object(vec![("y".to_string(), Value::Bool(true)), ("x".to_string(), Value::Int(1))]);
    let c = Value::Object(vec![("x".to_string(), Value::Int(2)), ("y".to_string(), Value::Bool(true))]);
    assert!(values_equal(&a, &b));
    assert!(!values_equal(&a, &c));
    assert!(values_equal(&Value::Array(vec![Value::Null]), &Value::Array(vec![Value::Null])));
    assert!(!values_equal(&Value::Array(vec![Value::Null]), &Value::Array(vec![])));
}

#[test]
fn join_fields_with_commas() {
    assert_eq!(join_fields(&strings(&["a", "b", "c"])), "a,b,c");
    assert_eq!(join_fields(&strings(&["only"])), "only");
    assert_eq!(join_fields(&[]), "");
}

#[test]
fn lock_plan_for_insert_update_delete() {
    let m = UniqueConstraintManager::new();
    let indexes = vec![IndexDef::unique("users", strings(&["email"])), IndexDef::new("users", strings(&["age"]))];
    let old = doc("users:1", vec![("email", Value::String("a@x".to_string())), ("age", Value::Int(1))]);
    let new = doc("users:1", vec![("email", Value::String("b@x".to_string())), ("age", Value::Int(2))]);
    let key_a = m.compute_unique_lock_key("email", &Value::String("a@x".to_string()));
    let key_b = m.compute_unique_lock_key("email", &Value::String("b@x".to_string()));

    let insert = m.plan_lock_updates(&indexes, None, Some(&new));
    assert_eq!(insert.len(), 1);
    match &insert[0] {
        LockAction::Claim { lock_key, doc_key, fields } => {
            assert_eq!(*lock_key, key_b);
            assert_eq!(doc_key, "1");
            assert_eq!(fields, &strings(&["email"]));
        },
        _ => panic!("expected a claim"),
    }

    let update = m.plan_lock_updates(&indexes, Some(&old), Some(&new));
    assert_eq!(update.len(), 2);
    assert!(matches!(&update[0], LockAction::Claim { lock_key, .. } if *lock_key == key_b));
    assert!(matches!(&update[1], LockAction::Release { lock_key, .. } if *lock_key == key_a));

    let rollback = m.plan_lock_updates(&indexes, Some(&new), Some(&old));
    assert!(matches!(&rollback[0], LockAction::Claim { lock_key, .. } if *lock_key == key_a));
    assert!(matches!(&rollback[1], LockAction::Release { lock_key, .. } if *lock_key == key_b));

    let unchanged = m.plan_lock_updates(&indexes, Some(&old), Some(&old));
    assert!(unchanged.is_empty());

    let delete = m.plan_lock_updates(&indexes, Some(&old), None);
    assert_eq!(delete.len(), 1);
    assert!(matches!(&delete[0], LockAction::Release { lock_key, doc_key } if *lock_key == key_a && doc_key == "1"));
}

#[test]
fn compound_unique_lock_key_uses_joined_fields() {
    let m = UniqueConstraintManager::new();
    let indexes = vec![IndexDef::unique("t", strings(&["a", "b"]))];
    let d = doc("t:k", vec![("a", Value::Int(1)), ("b", Value::Int(2))]);
    let plan = m.plan_lock_updates(&indexes, None, Some(&d));
    let expected = m.compute_unique_lock_key("a,b", &Value::Array(vec![Value::Int(1), Value::Int(2)]));
    assert!(matches!(&plan[0], LockAction::Claim { lock_key, .. } if *lock_key == expected));
}

#[test]
fn claim_conflict_message_lists_fields() {
    match UniqueConstraintManager::claim_conflict_error(&strings(&["email"])) {
        StorageError::Conflict(m) => assert_eq!(m, format!("Unique constraint violation on {:?}", strings(&["email"]))),
        _ => panic!("expected a conflict"),
    }
}

#[test]
fn batch_collapses_writes_per_document() {
    let mut log = MutationLog::new();
    let p = log.open("users".to_string(), "1".to_string(), None);
    assert!(log.put(p, doc("users:1", vec![("v", Value::Int(1))]), true).is_ok());
    match log.put(p, doc("users:1", vec![]), true) {
        Err(StorageError::AlreadyExists(id)) => assert_eq!(id, "users:1"),
        _ => panic!("expected already exists"),
    }
    assert!(log.put(p, doc("users:1", vec![("v", Value::Int(2))]), false).is_ok());
    assert_eq!(log.position("users", "1"), Some(0));
    assert_eq!(log.position("users", "2"), None);

    let q = log.open("users".to_string(), "2".to_string(), Some(doc("users:2", vec![])));
    log.delete(q);
    let r = log.open("posts".to_string(), "9".to_string(), None);
    log.put(r, doc("posts:9", vec![]), false).unwrap();
    log.delete(r);
    assert_eq!(log.len(), 3);

    let writes = log.finish();
    assert_eq!(writes.len(), 2);
    match &writes[0] {
        PlannedWrite::Put { doc, create_only } => {
            assert_eq!(doc.id, "users:1");
            assert!(*create_only);
            assert_eq!(doc.fields.len(), 1);
        },
        _ => panic!("expected a put"),
    }
    match &writes[1] {
        PlannedWrite::Delete { collection, key } => {
            assert_eq!(collection, "users");
            assert_eq!(key, "2");
        },
        _ => panic!("expected a delete"),
    }
}

#[test]
fn create_of_stored_document_is_refused() {
    let mut log = MutationLog::new();
    let p = log.open("c".to_string(), "k".to_string(), Some(doc("c:k", vec![])));
    assert!(matches!(log.put(p, doc("c:k", vec![]), true), Err(StorageError::AlreadyExists(_))));
    log.delete(p);
    assert!(log.put(p, doc("c:k", vec![]), true).is_ok());
    let writes = log.finish();
    assert!(matches!(&writes[0], PlannedWrite::Put { create_only: false, .. }));
}

#[test]
fn document_collection_and_key() {
    let d = doc("users:alice", vec![]);
    assert_eq!(d.collection(), "users");
    assert_eq!(d.key(), "alice");
    let e = doc("plain", vec![]);
    assert_eq!(e.collection(), "plain");
    let c = d.copy();
    assert_eq!(c.id, "users:alice");
}

#[test]
fn value_equality_is_symmetric() {
    let a = Value::Object(vec![
        ("x".to_string(), Value::Array(vec![float(0.0), Value::Null])),
        ("y".to_string(), Value::Bool(true)),
    ]);
    let b = Value::Object(vec![
        ("y".to_string(), Value::Bool(true)),
        ("x".to_string(), Value::Array(vec![float(-0.0), Value::Null])),
    ]);
    let c = Value::Object(vec![("y".to_string(), Value::Bool(true))]);
    let nan = float(f64::NAN);
    let pairs = [(&a, &b), (&a, &c), (&b, &c), (&nan, &nan), (&a, &a)];
    for (x, y) in pairs {
        assert_eq!(values_equal(x, y), values_equal(y, x));
    }
    assert!(values_equal(&a, &b));
    assert!(!values_equal(&a, &c));
    assert!(!values_equal(&nan, &nan));
}

fn apply_plan(locks: &mut std::collections::HashMap<[u8; 16], Vec<u8>>, plan: &[LockAction]) -> bool {
    for action in plan {
        match action {
            LockAction::Claim { lock_key, doc_key, .. } => {
                let (next, ok) = UniqueConstraintManager::claim_update(locks.get(lock_key).map(|v| v.as_slice()), doc_key.as_bytes());
                match next {
                    Some(v) => locks.insert(*lock_key, v),
                    None => locks.remove(lock_key),
                };
                if !ok {
                    return false;
                }
            },
            LockAction::Release { lock_key, doc_key } => {
                match UniqueConstraintManager::release_update(locks.get(lock_key).map(|v| v.as_slice()), doc_key.as_bytes()) {
                    Some(v) => locks.insert(*lock_key, v),
                    None => locks.remove(lock_key),
                };
            },
        }
    }
    true
}

#[test]
fn rollback_plan_restores_locks_with_two_indexes_on_one_field() {
    let m = UniqueConstraintManager::new();
    let indexes = vec![IndexDef::unique("users", strings(&["email"])), IndexDef::unique("users", strings(&["email"]))];
    let old = doc("users:1", vec![("email", Value::String("a@x".to_string()))]);
    let new = doc("users:1", vec![("email", Value::String("b@x".to_string()))]);
    let key_a = m.compute_unique_lock_key("email", &Value::String("a@x".to_string()));
    let key_b = m.compute_unique_lock_key("email", &Value::String("b@x".to_string()));
    let mut other = [0u8; 16];
    other[0] = 1;
    let mut locks = std::collections::HashMap::new();
    locks.insert(key_a, b"1".to_vec());
    locks.insert(other, b"2".to_vec());
    let before = locks.clone();

    let forward = m.plan_lock_updates(&indexes, Some(&old), Some(&new));
    assert_eq!(forward.len(), 4);
    assert!(apply_plan(&mut locks, &forward));
    assert_eq!(locks.get(&key_b), Some(&b"1".to_vec()));
    assert_eq!(locks.get(&key_a), None);

    let back = m.plan_lock_updates(&indexes, Some(&new), Some(&old));
    assert!(apply_plan(&mut locks, &back));
    assert_eq!(locks, before);
}
