use stellardb::analyzers::{is_builtin_analyzer, list_builtin_analyzers};
use stellardb::btree::BTreeIndex;
use stellardb::document::Document;
use stellardb::encoding::{
    byte_successor, encode_index_key, encode_value_with_delimiter, extract_doc_key,
};
use stellardb::index_types::{IndexType, RangeOp, ScanResult};
use stellardb::registry::{IndexDef, IndexRegistry};
use stellardb::value::{FloatText, Value};

fn doc(id: &str, fields: Vec<(&str, Value)>) -> Document {
    Document {
        id: id.to_string(),
        fields: fields.into_iter().map(|(k, v)| (k.to_string(), v)).collect(),
    }
}

fn make_index(collection: &str, fields: &[&str], unique: bool) -> IndexDef {
    let fields_vec: Vec<String> = fields.iter().map(|s| s.to_string()).collect();
    if unique {
        IndexDef::unique(collection, fields_vec)
    } else {
        IndexDef::new(collection, fields_vec)
    }
}

fn strings(v: &[&str]) -> Vec<String> {
    v.iter().map(|s| s.to_string()).collect()
}

#[test]
fn test_build_index_key_with_bool() {
    let btree = BTreeIndex::new();
    let d = doc("test:doc1", vec![("active", Value::Bool(true)), ("count", Value::Int(42))]);
    let index_fields = vec!["active".to_string(), "count".to_string()];
    let key = btree.build_index_key(&d, &index_fields).unwrap();
    let bool_encoded = encode_value_with_delimiter(&Value::Bool(true));
    assert!(key.starts_with(&bool_encoded), "Key should start with bool value");
    assert!(key.ends_with(b"doc1"), "Key should end with doc_key");
    let doc_key = extract_doc_key(&key).unwrap();
    assert_eq!(doc_key, "doc1");
}

#[test]
fn test_build_index_key_with_positive_int() {
    let btree = BTreeIndex::new();
    let d = doc("user:alice", vec![("age", Value::Int(25))]);
    let index_fields = vec!["age".to_string()];
    let key = btree.build_index_key(&d, &index_fields).unwrap();
    let doc_key = extract_doc_key(&key).unwrap();
    assert_eq!(doc_key, "alice");
}

#[test]
fn test_build_index_key_with_nested_field() {
    let btree = BTreeIndex::new();
    let inner = Value::Object(vec![("city".to_string(), Value::String("NYC".to_string()))]);
    let d = doc("user:bob", vec![("address", inner)]);
    let index_fields = vec!["address.city".to_string()];
    let key = btree.build_index_key(&d, &index_fields).unwrap();
    let doc_key = extract_doc_key(&key).unwrap();
    assert_eq!(doc_key, "bob");
}

#[test]
fn test_build_index_key_missing_field() {
    let btree = BTreeIndex::new();
    let d = doc("test:doc1", vec![]);
    let index_fields = vec!["missing".to_string()];
    let key = btree.build_index_key(&d, &index_fields);
    assert!(key.is_none(), "Missing field should return None");
}

#[test]
fn build_index_key_of_id_field_uses_whole_id() {
    let btree = BTreeIndex::new();
    let d = doc("user:carol", vec![]);
    let key = btree.build_index_key(&d, &["id".to_string()]).unwrap();
    let expected = encode_index_key(&[&Value::String("user:carol".to_string())], "carol");
    assert_eq!(key, expected);
}

#[test]
fn update_keys_remove_old_and_insert_new() {
    let btree = BTreeIndex::new();
    let old = doc("u:1", vec![("age", Value::Int(30))]);
    let new = doc("u:1", vec![("age", Value::Int(31))]);
    let fields = vec!["age".to_string()];
    let (remove, insert) = btree.update_keys(&fields, Some(&old), Some(&new));
    assert_eq!(remove, btree.build_index_key(&old, &fields));
    assert_eq!(insert, btree.build_index_key(&new, &fields));
    let (remove, insert) = btree.update_keys(&fields, None, Some(&doc("u:2", vec![])));
    assert!(remove.is_none());
    assert!(insert.is_none());
}

#[test]
fn range_bounds_follow_the_operator() {
    let btree = BTreeIndex::new();
    let v = Value::Int(10);
    let enc = encode_value_with_delimiter(&v);
    assert_eq!(btree.range_bounds(&RangeOp::Gt, &v), (Some(enc.clone()), None));
    assert_eq!(btree.range_bounds(&RangeOp::Gte, &v), (Some(enc.clone()), None));
    assert_eq!(btree.range_bounds(&RangeOp::Lt, &v), (None, Some(enc.clone())));
    assert_eq!(btree.range_bounds(&RangeOp::Lte, &v), (None, Some(byte_successor(&enc))));
    let between = RangeOp::Between {
        lower: Value::Int(1),
        upper: Value::Int(5),
        lower_inclusive: false,
        upper_inclusive: false,
    };
    let lo = encode_value_with_delimiter(&Value::Int(1));
    let up = encode_value_with_delimiter(&Value::Int(5));
    assert_eq!(btree.range_bounds(&between, &v), (Some(lo.clone()), Some(up)));
    assert_eq!(btree.strict_lower_bound(&between, &v), Some(lo));
    assert_eq!(btree.strict_lower_bound(&RangeOp::Gt, &v), Some(enc));
    assert_eq!(btree.strict_lower_bound(&RangeOp::Gte, &v), None);
}

#[test]
fn collect_doc_ids_skips_boundary_and_stops_after_limit() {
    let btree = BTreeIndex::new();
    let v10 = Value::Int(10);
    let keys = vec![
        encode_index_key(&[&v10], "a"),
        encode_index_key(&[&Value::Int(11)], "b"),
        vec![0x01, 0x02],
        encode_index_key(&[&Value::Int(12)], "c"),
        encode_index_key(&[&Value::Int(13)], "d"),
    ];
    let lower = btree.strict_lower_bound(&RangeOp::Gt, &v10).unwrap();
    let r: ScanResult = btree.collect_doc_ids(&keys, Some(lower.as_slice()), 10);
    assert_eq!(r.doc_ids, vec!["b".to_string(), "c".to_string(), "d".to_string()]);
    assert!(!r.exceeded_limit);

    let r = btree.collect_doc_ids(&keys, None, 2);
    assert_eq!(r.doc_ids, vec!["a".to_string(), "b".to_string(), "c".to_string()]);
    assert!(r.exceeded_limit);

    let r = btree.collect_doc_ids(&keys, None, 4);
    assert_eq!(r.doc_ids.len(), 4);
    assert!(!r.exceeded_limit);
}

#[test]
fn test_builtin_analyzers() {
    assert!(is_builtin_analyzer("standard"));
    assert!(is_builtin_analyzer("keyword"));
    assert!(is_builtin_analyzer("russian"));
    assert!(is_builtin_analyzer("english"));
    assert!(!is_builtin_analyzer("nonexistent"));
}

#[test]
fn test_is_builtin() {
    assert!(is_builtin_analyzer("standard"));
    assert!(is_builtin_analyzer("russian"));
    assert!(!is_builtin_analyzer("custom"));
}

#[test]
fn test_list_builtins() {
    let list = list_builtin_analyzers();
    assert!(list.contains(&"standard"));
    assert!(list.contains(&"russian"));
    assert_eq!(list.len(), 20);
}

#[test]
fn range_op_names_round_trip() {
    for name in ["gt", "gte", "lt", "lte"] {
        let op = RangeOp::from_str(name).unwrap();
        assert_eq!(op.as_str(), name);
    }
    assert!(RangeOp::from_str("between").is_none());
    assert!(RangeOp::from_str("eq").is_none());
}

#[test]
fn index_type_defaults_to_btree() {
    assert_eq!(IndexType::default(), IndexType::BTree);
}

#[test]
fn scan_result_constructors() {
    let r = ScanResult::new(vec!["a".to_string()], true);
    assert_eq!(r.doc_ids, vec!["a".to_string()]);
    assert!(r.exceeded_limit);
    let e = ScanResult::empty();
    assert!(e.doc_ids.is_empty());
    assert!(!e.exceeded_limit);
}

#[test]
fn test_register_and_get_indexes() {
    let mut registry = IndexRegistry::new();
    assert!(registry.get_indexes("users").is_empty());

    registry.register("users", make_index("users", &["email"], true));
    let indexes = registry.get_indexes("users");
    assert_eq!(indexes.len(), 1);
    assert_eq!(indexes[0].fields, vec!["email".to_string()]);
    assert!(indexes[0].unique);

    registry.register("users", make_index("users", &["name", "created_at"], false));
    let indexes = registry.get_indexes("users");
    assert_eq!(indexes.len(), 2);
}

#[test]
fn test_has_index() {
    let mut registry = IndexRegistry::new();
    registry.register("users", make_index("users", &["email"], true));
    registry.register("users", make_index("users", &["name", "age"], false));

    assert!(registry.has_index("users", &["email".to_string()]));
    assert!(registry.has_index("users", &["name".to_string(), "age".to_string()]));
    assert!(!registry.has_index("users", &["nonexistent".to_string()]));
    assert!(!registry.has_index("other", &["email".to_string()]));
}

#[test]
fn test_remove_index() {
    let mut registry = IndexRegistry::new();
    registry.register("users", make_index("users", &["email"], true));
    registry.register("users", make_index("users", &["name"], false));

    assert!(registry.remove("users", &["email".to_string()]));
    assert!(!registry.has_index("users", &["email".to_string()]));
    assert!(registry.has_index("users", &["name".to_string()]));
    assert!(!registry.remove("users", &["nonexistent".to_string()]));
    assert!(!registry.remove("other", &["email".to_string()]));
}

#[test]
fn test_remove_collection() {
    let mut registry = IndexRegistry::new();
    registry.register("users", make_index("users", &["email"], true));
    registry.register("users", make_index("users", &["name"], false));
    registry.register("posts", make_index("posts", &["title"], false));

    registry.remove_collection("users");
    assert!(registry.get_indexes("users").is_empty());
    assert!(!registry.get_indexes("posts").is_empty());
}

#[test]
fn test_load() {
    let mut registry = IndexRegistry::new();
    registry.register("users", make_index("users", &["old"], false));
    let indexes = vec![make_index("users", &["email"], true), make_index("users", &["name", "age"], false)];
    registry.load("users", indexes);

    let loaded = registry.get_indexes("users");
    assert_eq!(loaded.len(), 2);
    assert!(!registry.has_index("users", &["old".to_string()]));
    assert!(registry.has_index("users", &["email".to_string()]));
}

#[test]
fn test_find_index_for_field() {
    let mut registry = IndexRegistry::new();
    registry.register("users", make_index("users", &["email"], true));
    registry.register("users", make_index("users", &["name", "age"], false));

    let idx = registry.find_index_for_field("users", "email");
    assert!(idx.is_some());
    assert_eq!(idx.unwrap().fields, vec!["email".to_string()]);

    let idx = registry.find_index_for_field("users", "name");
    assert!(idx.is_some());
    assert_eq!(idx.unwrap().fields, vec!["name".to_string(), "age".to_string()]);

    assert!(registry.find_index_for_field("users", "missing").is_none());
}

#[test]
fn test_find_compound_index() {
    let mut registry = IndexRegistry::new();
    registry.register("users", make_index("users", &["name", "age", "city"], false));

    assert!(registry.find_compound_index("users", &["name"]).is_some());
    assert!(registry.find_compound_index("users", &["name", "age"]).is_some());
    assert!(registry.find_compound_index("users", &["name", "age", "city"]).is_some());
    assert!(registry.find_compound_index("users", &["age", "name"]).is_none());
    assert!(registry.find_compound_index("users", &["missing"]).is_none());
}

#[test]
fn find_compound_index_with_no_fields_is_none() {
    let mut registry = IndexRegistry::new();
    registry.register("users", make_index("users", &["name"], false));
    assert!(registry.find_compound_index("users", &[]).is_none());
}

#[test]
fn unique_indexes_are_filtered_in_order() {
    let mut registry = IndexRegistry::new();
    registry.register("users", make_index("users", &["a"], true));
    registry.register("users", make_index("users", &["b"], false));
    registry.register("users", make_index("users", &["c"], true));
    let u = registry.get_unique_indexes("users");
    assert_eq!(u.len(), 2);
    assert_eq!(u[0].fields, strings(&["a"]));
    assert_eq!(u[1].fields, strings(&["c"]));
}

#[test]
fn fulltext_and_vector_lookups() {
    let mut registry = IndexRegistry::new();
    registry.register("docs", make_index("docs", &["title"], false));
    registry.register("docs", IndexDef::fulltext("docs", strings(&["title", "body"])));
    let mut vector = IndexDef::new("docs", strings(&["embedding"]));
    vector.index_type = IndexType::Hnsw;
    registry.register("docs", vector);

    let fts = registry.find_fts_index_for_field("docs", "body").unwrap();
    assert_eq!(fts.fields, strings(&["title", "body"]));
    assert!(registry.find_fts_index_for_field("docs", "embedding").is_none());
    assert_eq!(registry.find_fts_index("docs").unwrap().index_type, IndexType::FullText);
    assert_eq!(registry.find_hnsw_index_for_field("docs", "embedding").unwrap().fields, strings(&["embedding"]));
    assert!(registry.find_hnsw_index_for_field("docs", "title").is_none());
    assert!(registry.find_fts_index("other").is_none());
    assert_eq!(registry.count_by_type(), (1, 1, 1));
}

#[test]
fn remove_takes_every_index_over_the_fields() {
    let mut registry = IndexRegistry::new();
    registry.register("c", make_index("c", &["x"], false));
    registry.register("c", make_index("c", &["x"], true));
    registry.register("c", make_index("c", &["y"], false));
    assert!(registry.remove("c", &strings(&["x"])));
    let left = registry.get_indexes("c");
    assert_eq!(left.len(), 1);
    assert_eq!(left[0].fields, strings(&["y"]));
}

#[test]
fn float_text_refuses_exponent_form() {
    assert!(FloatText::new("1e5".to_string()).is_none());
    assert!(FloatText::new("2.75".to_string()).is_some());
}
