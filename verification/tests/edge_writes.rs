use stellardb::config::StorageError;
use stellardb::edge_writes::{node_edge_step, with_label, without_label, NodeEdgeStep, OnDeletePolicy};
use stellardb::edge_keys::EdgeCardinality;
use stellardb::edge_writes::{plan_edge_deletion, plan_edge_removals, plan_edge_writes, plan_field_index_keys, stored_endpoints, EdgeKeyWrite, EdgeValue};
use stellardb::encoding::{
    encode_edge_field_index_key, encode_edge_id_key, encode_edge_id_value, encode_edge_in_key_multi,
    encode_edge_in_key_single, encode_edge_out_key_multi, encode_edge_out_key_single,
};
use stellardb::value::Value;

fn write(key: Vec<u8>, value: EdgeValue) -> EdgeKeyWrite {
    EdgeKeyWrite { key, value }
}

#[test]
fn directed_single_edge_writes() {
    let w = plan_edge_writes(EdgeCardinality::Single, false, "users:b", "users:a", "e1");
    assert_eq!(
        w,
        vec![
            write(encode_edge_out_key_single("users:b", "users:a"), EdgeValue::Data),
            write(encode_edge_in_key_single("users:a", "users:b"), EdgeValue::Bytes(b"e1".to_vec())),
            write(encode_edge_id_key("e1"), EdgeValue::Bytes(encode_edge_id_value("users:b", "users:a"))),
        ]
    );
}

#[test]
fn directed_multi_edge_writes() {
    let w = plan_edge_writes(EdgeCardinality::Multiple, false, "a", "b", "e2");
    assert_eq!(
        w,
        vec![
            write(encode_edge_out_key_multi("a", "b", "e2"), EdgeValue::Data),
            write(encode_edge_in_key_multi("b", "a", "e2"), EdgeValue::Bytes(vec![])),
            write(encode_edge_id_key("e2"), EdgeValue::Bytes(encode_edge_id_value("a", "b"))),
        ]
    );
}

#[test]
fn undirected_edge_is_stored_from_lesser_endpoint() {
    assert_eq!(stored_endpoints(true, "n:2", "n:1"), ("n:1", "n:2"));
    assert_eq!(stored_endpoints(true, "n:1", "n:2"), ("n:1", "n:2"));
    assert_eq!(stored_endpoints(false, "n:2", "n:1"), ("n:2", "n:1"));
    let w = plan_edge_writes(EdgeCardinality::Multiple, true, "n:2", "n:1", "e3");
    assert_eq!(
        w,
        vec![
            write(encode_edge_out_key_multi("n:1", "n:2", "e3"), EdgeValue::Data),
            write(encode_edge_out_key_multi("n:2", "n:1", "e3"), EdgeValue::Data),
            write(encode_edge_id_key("e3"), EdgeValue::Bytes(encode_edge_id_value("n:1", "n:2"))),
        ]
    );
    assert_eq!(
        plan_edge_writes(EdgeCardinality::Single, true, "n:1", "n:2", "e4"),
        plan_edge_writes(EdgeCardinality::Single, true, "n:2", "n:1", "e4")
    );
}

#[test]
fn removals_match_writes() {
    for card in [EdgeCardinality::Single, EdgeCardinality::Multiple] {
        for undirected in [false, true] {
            let w = plan_edge_writes(card, undirected, "x:9", "x:1", "id7");
            let (f, t) = stored_endpoints(undirected, "x:9", "x:1");
            let r = plan_edge_removals(card, undirected, f, t, "id7");
            let keys: Vec<Vec<u8>> = w.into_iter().map(|w| w.key).collect();
            assert_eq!(r, keys);
        }
    }
}

#[test]
fn field_index_keys_follow_indexes_and_fields() {
    let indexes = vec![vec!["weight".to_string()], vec!["since".to_string(), "missing".to_string()]];
    let fields = vec![("since".to_string(), Value::Int(2020)), ("weight".to_string(), Value::Int(3))];
    let keys = plan_field_index_keys(&indexes, &fields, "e9");
    assert_eq!(
        keys,
        vec![
            encode_edge_field_index_key("weight", &Value::Int(3), "e9"),
            encode_edge_field_index_key("since", &Value::Int(2020), "e9"),
        ]
    );
    assert!(plan_field_index_keys(&vec![], &fields, "e9").is_empty());
}

#[test]
fn node_delete_policies() {
    assert_eq!(node_edge_step(OnDeletePolicy::Cascade, "u:1", "follows", true, true).unwrap(), NodeEdgeStep::DeleteEdges);
    assert_eq!(node_edge_step(OnDeletePolicy::NoAction, "u:1", "follows", true, true).unwrap(), NodeEdgeStep::Keep);
    assert_eq!(node_edge_step(OnDeletePolicy::Restrict, "u:1", "follows", false, false).unwrap(), NodeEdgeStep::Keep);
    match node_edge_step(OnDeletePolicy::Restrict, "u:1", "follows", true, true) {
        Err(StorageError::Conflict(m)) => assert_eq!(m, "Cannot delete 'u:1': has outgoing 'follows' edges (RESTRICT policy)"),
        other => panic!("unexpected {:?}", other),
    }
    match node_edge_step(OnDeletePolicy::Restrict, "u:1", "follows", false, true) {
        Err(StorageError::Conflict(m)) => assert_eq!(m, "Cannot delete 'u:1': has incoming 'follows' edges (RESTRICT policy)"),
        other => panic!("unexpected {:?}", other),
    }
}

#[test]
fn labels_list() {
    let l = with_label(vec![], "follows");
    let l = with_label(l, "likes");
    let l = with_label(l, "follows");
    assert_eq!(l, vec!["follows".to_string(), "likes".to_string()]);
    assert_eq!(without_label(&l, "follows"), vec!["likes".to_string()]);
    assert_eq!(without_label(&l, "absent"), l);
    let dup = vec!["a".to_string(), "b".to_string(), "a".to_string()];
    assert_eq!(without_label(&dup, "a"), vec!["b".to_string()]);
}

#[test]
fn edge_deletion_removes_field_index_entries() {
    let indexes = vec![vec!["weight".to_string()]];
    let fields = vec![("weight".to_string(), Value::Int(3))];
    let written: Vec<Vec<u8>> = plan_edge_writes(EdgeCardinality::Single, false, "users:a", "users:b", "e1")
        .into_iter()
        .map(|w| w.key)
        .chain(plan_field_index_keys(&indexes, &fields, "e1"))
        .collect();
    let removed = plan_edge_deletion(EdgeCardinality::Single, false, "users:a", "users:b", "e1", &indexes, &fields);
    assert_eq!(removed, written);
    assert_eq!(removed.last().unwrap(), &encode_edge_field_index_key("weight", &Value::Int(3), "e1"));
    assert_eq!(
        plan_edge_deletion(EdgeCardinality::Multiple, true, "b", "a", "e2", &vec![], &vec![]),
        plan_edge_removals(EdgeCardinality::Multiple, true, "b", "a", "e2")
    );
}
