use stellardb::config::StorageError;
use stellardb::edge_keys::{
    extract_edge_id_from_index_key, parse_in_key_and_value, parse_out_key_target, split_on_zero,
    EdgeCardinality,
};
use stellardb::encoding::{
    encode_edge_field_index_key, encode_edge_field_index_prefix, encode_edge_field_index_prefix_end,
    encode_edge_field_index_value_prefix, encode_edge_in_key_multi, encode_edge_in_key_single,
    encode_edge_out_key_multi, encode_edge_out_key_single,
};
use stellardb::value::Value;

fn serialization_message(e: StorageError) -> String {
    match e {
        StorageError::Serialization(m) => m,
        _ => panic!("expected a serialization error"),
    }
}

#[test]
fn split_on_zero_pieces() {
    assert_eq!(split_on_zero(b"a\x00bc\x00"), vec![b"a".to_vec(), b"bc".to_vec(), vec![]]);
    assert_eq!(split_on_zero(b""), vec![Vec::<u8>::new()]);
    assert_eq!(split_on_zero(b"xyz"), vec![b"xyz".to_vec()]);
}

#[test]
fn out_key_target_round_trips() {
    let key = encode_edge_out_key_single("user:alice", "user:bob");
    assert_eq!(parse_out_key_target(&key).unwrap(), "user:bob");
    let key = encode_edge_out_key_multi("user:alice", "user:carol", "e1");
    assert_eq!(parse_out_key_target(&key).unwrap(), "user:carol");
    assert_eq!(serialization_message(parse_out_key_target(b"\x01nozero").unwrap_err()), "Invalid OUT key format");
}

#[test]
fn in_key_source_and_id() {
    let key = encode_edge_in_key_single("user:bob", "user:alice");
    assert_eq!(
        parse_in_key_and_value(&key, b"e9", EdgeCardinality::Single).unwrap(),
        ("user:alice".to_string(), "e9".to_string())
    );
    let key = encode_edge_in_key_multi("user:bob", "user:alice", "e7");
    assert_eq!(
        parse_in_key_and_value(&key, b"", EdgeCardinality::Multiple).unwrap(),
        ("user:alice".to_string(), "e7".to_string())
    );
    let single_key = encode_edge_in_key_single("user:bob", "user:alice");
    assert_eq!(
        serialization_message(parse_in_key_and_value(&single_key, b"", EdgeCardinality::Multiple).unwrap_err()),
        "Missing edge_id in multi key"
    );
    assert_eq!(
        serialization_message(parse_in_key_and_value(b"\x02x", b"", EdgeCardinality::Single).unwrap_err()),
        "Invalid IN key format"
    );
}

#[test]
fn field_index_key_edge_id() {
    let key = encode_edge_field_index_key("amount", &Value::Int(100), "abc123");
    assert_eq!(extract_edge_id_from_index_key(&key).unwrap(), "abc123");
}

#[test]
fn field_index_key_lies_in_field_range() {
    let key = encode_edge_field_index_key("amount", &Value::Int(100), "abc123");
    let prefix = encode_edge_field_index_prefix("amount");
    let end = encode_edge_field_index_prefix_end("amount");
    let value_prefix = encode_edge_field_index_value_prefix("amount", &Value::Int(100));
    assert!(key >= prefix && key < end);
    assert!(key.starts_with(&value_prefix));
    assert_eq!(&key[..value_prefix.len()], value_prefix.as_slice());
}
