use stellardb::numeric::fit_decimal_bytes;
use std::hash::BuildHasher;
use stellardb::config::{IndexBuildConfig, StorageError};
use stellardb::document::{split_path, Document};
use stellardb::fulltext::{datetime_text, value_to_text};
use stellardb::hash_encoding::encode_value_for_hash;
use stellardb::lock_stripes::{StripeCountError, StripeLayout, DEFAULT_STRIPE_COUNT};
use stellardb::stats::StorageStats;
use stellardb::unique::UniqueConstraintManager;
use stellardb::value::{DecimalText, FloatText, Value};

fn float(x: f64) -> Value {
    Value::Float(FloatText::new(x.to_string()).unwrap())
}

fn stats_with_size(size: u64) -> StorageStats {
    let mut s = StorageStats::default();
    s.disk_size = size;
    s
}

fn human_reference(size: u64) -> String {
    if size < 1024 {
        format!("{} B", size)
    } else if size < 1024 * 1024 {
        format!("{:.1} KB", size as f64 / 1024.0)
    } else if size < 1024 * 1024 * 1024 {
        format!("{:.1} MB", size as f64 / (1024.0 * 1024.0))
    } else {
        format!("{:.1} GB", size as f64 / (1024.0 * 1024.0 * 1024.0))
    }
}

#[test]
fn total_indexes_adds_the_kinds() {
    let mut s = StorageStats::default();
    s.btree_indexes = 15;
    s.vector_indexes = 1;
    s.fts_indexes = 2;
    assert_eq!(s.total_indexes(), 18);
}

#[test]
fn indexes_summary_matches_documented_form() {
    let mut s = StorageStats::default();
    assert_eq!(s.indexes_summary(), "");
    s.btree_indexes = 15;
    s.vector_indexes = 1;
    s.fts_indexes = 2;
    assert_eq!(s.indexes_summary(), "18 idx (15b/1v/2f)");
    s.vector_indexes = 0;
    assert_eq!(s.indexes_summary(), "17 idx (15b/2f)");
    s.btree_indexes = 0;
    assert_eq!(s.indexes_summary(), "2 idx (2f)");
    s.vector_indexes = 7;
    s.fts_indexes = 0;
    assert_eq!(s.indexes_summary(), "7 idx (7v)");
}

#[test]
fn disk_size_human_small_sizes_in_bytes() {
    assert_eq!(stats_with_size(0).disk_size_human(), "0 B");
    assert_eq!(stats_with_size(512).disk_size_human(), "512 B");
    assert_eq!(stats_with_size(1023).disk_size_human(), "1023 B");
}

#[test]
fn disk_size_human_exact_values() {
    assert_eq!(stats_with_size(1024).disk_size_human(), "1.0 KB");
    assert_eq!(stats_with_size(1536).disk_size_human(), "1.5 KB");
    assert_eq!(stats_with_size(1024 * 1024).disk_size_human(), "1.0 MB");
    assert_eq!(stats_with_size(5 * 1024 * 1024 * 1024).disk_size_human(), "5.0 GB");
}

#[test]
fn disk_size_human_agrees_with_float_formatting() {
    let sizes: Vec<u64> = vec![
        1024,
        1075,
        1126,
        1280,
        1331,
        1434,
        2047,
        1048575,
        1048576,
        1153433,
        1572864,
        1073741823,
        1073741824,
        1181116006,
        1288490188,
        9007199254740991,
        9007199254740993,
        9007199254740995,
        18014398509481985,
        u64::MAX - 1,
        u64::MAX,
    ];
    for size in sizes {
        assert_eq!(stats_with_size(size).disk_size_human(), human_reference(size), "size {}", size);
    }
    let mut x: u64 = 1;
    for _ in 0..2000 {
        x = x.wrapping_mul(6364136223846793005).wrapping_add(1442695040888963407);
        for shift in [0u32, 20, 34, 40, 44] {
            let size = x >> shift;
            assert_eq!(stats_with_size(size).disk_size_human(), human_reference(size), "size {}", size);
        }
    }
}

#[test]
fn test_stripe_distribution() {
    let stripes = StripeLayout::with_count(16).unwrap();
    let mut stripe_hits = vec![0usize; 16];
    for i in 0..1000 {
        let key = format!("key_{}", i);
        let idx = stripes.key_stripe(&key);
        stripe_hits[idx] += 1;
    }
    for hits in stripe_hits {
        assert!(hits < 200, "poor stripe distribution: {} hits", hits);
    }
}

#[test]
fn test_basic_locking() {
    let stripes = StripeLayout::new();
    let a = stripes.key_stripe("key1");
    let b = stripes.key_stripe("key2");
    assert!(a < stripes.stripe_count());
    assert!(b < stripes.stripe_count());
}

#[test]
fn key_stripe_is_xxh3_hash_modulo_count() {
    let stripes = StripeLayout::with_count(64).unwrap();
    for key in ["alpha", "beta", "user@example.com", ""] {
        let h = xxhash_rust::xxh3::Xxh3DefaultBuilder.hash_one(key);
        assert_eq!(stripes.key_stripe(key), (h % 64) as usize);
        assert_eq!(stripes.stripe_index(h), (h % 64) as usize);
    }
}

#[test]
fn stripe_count_must_be_positive_power_of_two() {
    assert_eq!(StripeLayout::with_count(17).unwrap_err(), StripeCountError::NotPowerOfTwo);
    assert_eq!(StripeLayout::with_count(0).unwrap_err(), StripeCountError::Zero);
    assert_eq!(StripeLayout::with_count(1).unwrap().stripe_count(), 1);
    assert_eq!(StripeLayout::with_count(1 << 20).unwrap().stripe_count(), 1 << 20);
    assert_eq!(StripeLayout::new().stripe_count(), DEFAULT_STRIPE_COUNT);
}

#[test]
fn lock_order_is_sorted_and_distinct() {
    let stripes = StripeLayout::with_count(8).unwrap();
    let order = stripes.lock_order(&[9, 1, 17, 3, 8, 0]);
    assert_eq!(order, vec![0, 1, 3]);
    assert!(stripes.lock_order(&[]).is_empty());
}

#[test]
fn unique_lock_key_is_xxh3_of_fields_and_value() {
    let m = UniqueConstraintManager::new();
    let v = Value::String("alice@example.com".to_string());
    let key = m.compute_unique_lock_key("email", &v);
    let mut data = b"email".to_vec();
    data.push(0);
    data.extend(encode_value_for_hash(&v));
    let expected = xxhash_rust::xxh3::xxh3_128(&data).to_le_bytes();
    assert_eq!(key, expected);
    assert_ne!(key, m.compute_unique_lock_key("name", &v));
}

#[test]
fn claim_and_release_updates() {
    let (w, ok) = UniqueConstraintManager::claim_update(None, b"doc1");
    assert_eq!(w, Some(b"doc1".to_vec()));
    assert!(ok);
    let (w, ok) = UniqueConstraintManager::claim_update(Some(b"doc1"), b"doc1");
    assert_eq!(w, Some(b"doc1".to_vec()));
    assert!(ok);
    let (w, ok) = UniqueConstraintManager::claim_update(Some(b"doc2"), b"doc1");
    assert_eq!(w, Some(b"doc2".to_vec()));
    assert!(!ok);
    assert_eq!(UniqueConstraintManager::release_update(Some(b"doc1"), b"doc1"), None);
    assert_eq!(UniqueConstraintManager::release_update(None, b"doc1"), None);
    assert_eq!(UniqueConstraintManager::release_update(Some(b"doc2"), b"doc1"), Some(b"doc2".to_vec()));
}

#[test]
fn unique_field_values() {
    let m = UniqueConstraintManager::new();
    let doc = Document {
        id: "user:1".to_string(),
        fields: vec![
            ("email".to_string(), Value::String("a@b".to_string())),
            ("age".to_string(), Value::Int(3)),
            ("address".to_string(), Value::Object(vec![("city".to_string(), Value::String("X".to_string()))])),
        ],
    };
    let single = m.get_field_value_for_index(&doc, &["email".to_string()]).unwrap();
    assert_eq!(encode_value_for_hash(&single), encode_value_for_hash(&Value::String("a@b".to_string())));
    let compound = m.get_field_value_for_index(&doc, &["email".to_string(), "age".to_string()]).unwrap();
    let expected = Value::Array(vec![Value::String("a@b".to_string()), Value::Int(3)]);
    assert_eq!(encode_value_for_hash(&compound), encode_value_for_hash(&expected));
    assert!(m.get_field_value_for_index(&doc, &["email".to_string(), "missing".to_string()]).is_none());
    assert!(m.get_field_value_for_index(&doc, &["id".to_string()]).is_none());
    let nested = m.resolve_field_value(&doc.fields, "address.city").unwrap();
    assert_eq!(encode_value_for_hash(&nested), encode_value_for_hash(&Value::String("X".to_string())));
}

#[test]
fn document_key_is_after_first_colon() {
    let d = Document { id: "user:alice:x".to_string(), fields: vec![] };
    assert_eq!(d.key(), "alice:x");
    let d = Document { id: "plain".to_string(), fields: vec![] };
    assert_eq!(d.key(), "plain");
}

#[test]
fn split_path_on_dots() {
    assert_eq!(split_path("a.b.c"), vec!["a".to_string(), "b".to_string(), "c".to_string()]);
    assert_eq!(split_path("a"), vec!["a".to_string()]);
}

#[test]
fn index_build_config_validation() {
    let good = IndexBuildConfig { chunk_size: 1, memory_budget_bytes: 1024, worker_count: 1 };
    assert!(good.validate().is_ok());
    let bad = IndexBuildConfig { chunk_size: 0, memory_budget_bytes: 1024, worker_count: 1 };
    match bad.validate() {
        Err(StorageError::InvalidConfig(m)) => assert_eq!(m, "index build chunk size must be greater than zero"),
        _ => panic!("expected an invalid configuration"),
    }
    let bad = IndexBuildConfig { chunk_size: 1, memory_budget_bytes: 1023, worker_count: 1 };
    match bad.validate() {
        Err(StorageError::InvalidConfig(m)) => assert_eq!(m, "index build memory budget must be at least 1024 bytes"),
        _ => panic!("expected an invalid configuration"),
    }
    let bad = IndexBuildConfig { chunk_size: 1, memory_budget_bytes: 1024, worker_count: 0 };
    match bad.validate() {
        Err(StorageError::InvalidConfig(m)) => assert_eq!(m, "index build worker count must be greater than zero"),
        _ => panic!("expected an invalid configuration"),
    }
}

#[test]
fn index_build_config_defaults() {
    let c = IndexBuildConfig::default_for_parallelism(Some(32));
    assert_eq!(c.chunk_size, 4096);
    assert_eq!(c.memory_budget_bytes, 64 * 1024 * 1024);
    assert_eq!(c.worker_count, 8);
    assert_eq!(IndexBuildConfig::default_for_parallelism(None).worker_count, 1);
    assert_eq!(IndexBuildConfig::default_for_parallelism(Some(0)).worker_count, 1);
    assert_eq!(IndexBuildConfig::default_for_parallelism(Some(3)).worker_count, 3);
}

#[test]
fn test_value_to_text() {
    assert_eq!(value_to_text(&Value::String("hello".to_string())), "hello");
    assert_eq!(value_to_text(&Value::Int(42)), "42");
    assert_eq!(value_to_text(&float(2.75)), "2.75");
    assert_eq!(value_to_text(&Value::Bool(true)), "true");
    assert_eq!(value_to_text(&Value::Null), "");
    let arr = Value::Array(vec![Value::String("a".to_string()), Value::String("b".to_string())]);
    assert_eq!(value_to_text(&arr), "a b");
}

#[test]
fn value_to_text_other_kinds() {
    assert_eq!(value_to_text(&Value::Int(i64::MIN)), i64::MIN.to_string());
    assert_eq!(value_to_text(&Value::Int(-7)), "-7");
    assert_eq!(value_to_text(&Value::Bool(false)), "false");
    assert_eq!(value_to_text(&Value::Duration(1500)), "1500ns");
    assert_eq!(value_to_text(&Value::Bytes(vec![1, 2])), "");
    assert_eq!(value_to_text(&Value::Reference("user:1".to_string())), "user:1");
    assert_eq!(value_to_text(&Value::Decimal(DecimalText::new("12.50".to_string()).unwrap())), "12.50");
    let range = Value::Range { start: Box::new(Value::Int(1)), end: Box::new(Value::Int(9)) };
    assert_eq!(value_to_text(&range), "1 9");
    let obj = Value::Object(vec![
        ("a".to_string(), Value::String("x".to_string())),
        ("b".to_string(), Value::Array(vec![Value::Int(1), Value::Int(2)])),
    ]);
    assert_eq!(value_to_text(&obj), "x 1 2");
    assert_eq!(value_to_text(&Value::Array(vec![])), "");
}

#[test]
fn value_to_text_of_datetime_is_rfc3339() {
    let ms: i64 = 1_700_000_000_123;
    let expected = chrono::DateTime::from_timestamp_millis(ms).unwrap().to_rfc3339();
    assert_eq!(value_to_text(&Value::Datetime(ms)), expected);
    assert_eq!(value_to_text(&Value::Datetime(0)), "1970-01-01T00:00:00+00:00");
    assert_eq!(datetime_text(i64::MAX, None), i64::MAX.to_string());
    assert_eq!(datetime_text(5, Some("t".to_string())), "t");
    assert_eq!(value_to_text(&Value::Datetime(i64::MAX)), i64::MAX.to_string());
}

#[test]
fn lock_key_bytes_little_endian() {
    let h: u128 = 0x0102030405060708090a0b0c0d0e0f10;
    assert_eq!(stellardb::unique::lock_key_bytes(h), h.to_le_bytes());
}

#[test]
fn fit_decimal_bytes_pads_to_width() {
    assert_eq!(fit_decimal_bytes(&[0x80]), {
        let mut v = vec![0x80u8];
        v.extend(vec![0u8; 15]);
        v
    });
    assert_eq!(fit_decimal_bytes(&[0xFF, 0xFF, 0xFF]), vec![0xFFu8; 16]);
    let positive = fit_decimal_bytes(&[0xFF, 0x80, 0x01, 0x12]);
    assert_eq!(positive.len(), 16);
    assert_eq!(&positive[..4], &[0xFF, 0x80, 0x01, 0x12]);
    assert!(positive[4..].iter().all(|b| *b == 0));
    let negative = fit_decimal_bytes(&[0x00, 0x7F, 0xFE, 0xED]);
    assert!(negative[4..].iter().all(|b| *b == 0xFF));
}

/// A stripe layout of `count` stripes; a refused count panics, as the
/// striped mutexes built on it do.
fn stripes_with_count(count: usize) -> StripeLayout {
    match StripeLayout::with_count(count) {
        Ok(layout) => layout,
        Err(StripeCountError::Zero) => panic!("stripe count must be positive"),
        Err(StripeCountError::NotPowerOfTwo) => panic!("stripe count must be a power of 2"),
    }
}

#[test]
#[should_panic(expected = "power of 2")]
fn test_invalid_stripe_count() {
    stripes_with_count(17);
}

#[test]
#[should_panic(expected = "positive")]
fn test_zero_stripe_count() {
    stripes_with_count(0);
}
