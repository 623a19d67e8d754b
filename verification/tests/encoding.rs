use std::hint::black_box;
use std::time::Instant;
use stellardb::encoding::{
    byte_successor, decode_edge_id_value, encode_edge_field_index_key, encode_edge_id_key,
    encode_edge_id_value, encode_edge_in_key_multi, encode_edge_in_key_single,
    encode_edge_out_key_multi, encode_edge_out_key_single, encode_edge_out_prefix_end_v2,
    encode_edge_out_prefix_v2, encode_edge_out_target_prefix, encode_edge_out_target_prefix_end,
    encode_index_key, encode_range_bound_exclusive, encode_value_ordered,
    encode_value_with_delimiter, extract_doc_key, skip_encoded_value, EDGE_PREFIX_ID,
    EDGE_PREFIX_IDX, EDGE_PREFIX_IN, EDGE_PREFIX_OUT, TAG_ARRAY, TAG_BOOL, TAG_NULL, TAG_NUMBER,
    TAG_OBJECT, TAG_STRING,
};
use stellardb::hash_encoding::encode_value_for_hash;
use stellardb::numeric::{
    encode_f64_fixed_width, encode_float_string, encode_i64_fixed_width, encode_number_fixed_width,
    NUMERIC_FIXED_WIDTH,
};
use stellardb::value::{DecimalText, FloatText, Value};

fn float(x: f64) -> Value {
    Value::Float(FloatText::new(x.to_string()).unwrap())
}

fn text(s: &str) -> Value {
    Value::String(s.to_string())
}

fn object(entries: Vec<(&str, Value)>) -> Value {
    Value::Object(entries.into_iter().map(|(k, v)| (k.to_string(), v)).collect())
}

fn build_nested(depth: usize, leaf: Value) -> Value {
    if depth == 0 {
        leaf
    } else {
        let key = format!("level_{}", depth);
        Value::Object(vec![(key, build_nested(depth - 1, leaf))])
    }
}

#[test]
fn test_debug_compound_null_encoding() {
    let null_encoded = encode_value_ordered(&Value::Null);
    assert_eq!(null_encoded, vec![TAG_NULL]);

    let mut key = Vec::new();
    key.extend(b"a");
    key.push(0x00);
    key.extend(encode_value_ordered(&text("one")));
    key.push(0x00);
    key.extend(b"b");
    key.push(0x00);
    key.extend(encode_value_ordered(&Value::Bool(true)));
    key.push(0x00);
    key.extend(b"c");
    key.push(0x00);
    key.extend(encode_value_ordered(&Value::Null));
    key.push(0x00);
    key.extend(b"d1");

    let mut prefix = Vec::new();
    prefix.extend(b"a");
    prefix.push(0x00);
    prefix.extend(encode_value_ordered(&text("one")));
    prefix.push(0x00);
    prefix.extend(b"b");
    prefix.push(0x00);
    prefix.extend(encode_value_ordered(&Value::Bool(true)));
    prefix.push(0x00);
    prefix.extend(b"c");
    prefix.push(0x00);
    prefix.extend(encode_value_ordered(&Value::Null));
    prefix.push(0x00);

    assert!(key.starts_with(&prefix), "Key should start with prefix");
}

#[test]
fn test_int_ordering() {
    let neg = encode_value_ordered(&Value::Int(-100));
    let zero = encode_value_ordered(&Value::Int(0));
    let pos = encode_value_ordered(&Value::Int(100));
    assert!(neg < zero, "negative should be less than zero");
    assert!(zero < pos, "zero should be less than positive");

    let min = encode_value_ordered(&Value::Int(i64::MIN));
    let max = encode_value_ordered(&Value::Int(i64::MAX));
    assert!(min < neg, "MIN should be less than -100");
    assert!(pos < max, "100 should be less than MAX");

    let neg1 = encode_value_ordered(&Value::Int(-1));
    let pos1 = encode_value_ordered(&Value::Int(1));
    assert!(neg1 < zero, "-1 should be less than 0");
    assert!(zero < pos1, "0 should be less than 1");
}

#[test]
fn test_float_ordering() {
    let neg = encode_value_ordered(&float(-100.5));
    let zero = encode_value_ordered(&float(0.0));
    let pos = encode_value_ordered(&float(100.5));
    assert!(neg < zero, "negative float should be less than zero");
    assert!(zero < pos, "zero should be less than positive float");

    let small_neg = encode_value_ordered(&float(-0.001));
    let small_pos = encode_value_ordered(&float(0.001));
    assert!(small_neg < zero, "-0.001 should be less than 0");
    assert!(zero < small_pos, "0 should be less than 0.001");

    let neg_inf = encode_value_ordered(&float(f64::NEG_INFINITY));
    let pos_inf = encode_value_ordered(&float(f64::INFINITY));
    assert!(neg_inf < neg, "-inf should be less than -100.5");
    assert!(pos < pos_inf, "100.5 should be less than +inf");

    let neg_zero = encode_value_ordered(&float(-0.0));
    assert!(neg_zero <= zero, "-0.0 should be <= +0.0");
}

#[test]
fn test_string_ordering() {
    let a = encode_value_ordered(&text("a"));
    let b = encode_value_ordered(&text("b"));
    let aa = encode_value_ordered(&text("aa"));
    let empty = encode_value_ordered(&text(""));
    assert!(empty < a, "empty string should be less than 'a'");
    assert!(a < aa, "'a' should be less than 'aa'");
    assert!(a < b, "'a' should be less than 'b'");
    assert!(aa < b, "'aa' should be less than 'b'");

    let with_null = encode_value_ordered(&text("a\x00b"));
    let without_null = encode_value_ordered(&text("ab"));
    assert!(with_null < without_null, "'a\\x00b' should be less than 'ab'");
}

#[test]
fn test_type_ordering() {
    let null = encode_value_ordered(&Value::Null);
    let bool_false = encode_value_ordered(&Value::Bool(false));
    let bool_true = encode_value_ordered(&Value::Bool(true));
    let int_zero = encode_value_ordered(&Value::Int(0));
    let float_zero = encode_value_ordered(&float(0.0));
    let string = encode_value_ordered(&text(""));

    assert!(null < bool_false, "null should be less than bool");
    assert!(bool_false < bool_true, "false should be less than true");
    assert!(bool_true < int_zero, "bool should be less than number");
    assert_eq!(int_zero, float_zero, "Int(0) and Float(0.0) should encode identically");
    assert!(float_zero < string, "number should be less than string");
}

#[test]
fn test_edge_v2_out_key_single() {
    let key = encode_edge_out_key_single("user:alice", "user:bob");
    assert_eq!(key[0], EDGE_PREFIX_OUT);
    assert_eq!(&key[1..], b"user:alice\x00user:bob");
}

#[test]
fn test_edge_v2_out_key_multi() {
    let key = encode_edge_out_key_multi("user:alice", "user:bob", "abc123");
    assert_eq!(key[0], EDGE_PREFIX_OUT);
    assert_eq!(&key[1..], b"user:alice\x00user:bob\x00abc123");
}

#[test]
fn test_edge_v2_in_key_single() {
    let key = encode_edge_in_key_single("user:bob", "user:alice");
    assert_eq!(key[0], EDGE_PREFIX_IN);
    assert_eq!(&key[1..], b"user:bob\x00user:alice");
}

#[test]
fn test_edge_v2_in_key_multi() {
    let key = encode_edge_in_key_multi("user:bob", "user:alice", "abc123");
    assert_eq!(key[0], EDGE_PREFIX_IN);
    assert_eq!(&key[1..], b"user:bob\x00user:alice\x00abc123");
}

#[test]
fn test_edge_v2_id_key() {
    let key = encode_edge_id_key("abc123");
    assert_eq!(key[0], EDGE_PREFIX_ID);
    assert_eq!(&key[1..], b"abc123");
}

#[test]
fn test_edge_v2_id_value_roundtrip() {
    let value = encode_edge_id_value("user:alice", "user:bob");
    let (from, to) = decode_edge_id_value(&value).unwrap();
    assert_eq!(from, "user:alice");
    assert_eq!(to, "user:bob");
}

#[test]
fn test_edge_v2_out_prefix_range() {
    let prefix = encode_edge_out_prefix_v2("user:alice");
    let prefix_end = encode_edge_out_prefix_end_v2("user:alice");
    let key1 = encode_edge_out_key_single("user:alice", "user:bob");
    let key2 = encode_edge_out_key_single("user:alice", "user:carol");

    assert!(key1.as_slice() >= prefix.as_slice());
    assert!(key1.as_slice() < prefix_end.as_slice());
    assert!(key2.as_slice() >= prefix.as_slice());
    assert!(key2.as_slice() < prefix_end.as_slice());
    assert!(key1 < key2, "bob should sort before carol");
}

#[test]
fn test_edge_v2_multi_prefix_range() {
    let prefix = encode_edge_out_target_prefix("user:alice", "user:bob");
    let prefix_end = encode_edge_out_target_prefix_end("user:alice", "user:bob");
    let key1 = encode_edge_out_key_multi("user:alice", "user:bob", "id1");
    let key2 = encode_edge_out_key_multi("user:alice", "user:bob", "id2");

    assert!(key1.as_slice() >= prefix.as_slice());
    assert!(key1.as_slice() < prefix_end.as_slice());
    assert!(key2.as_slice() >= prefix.as_slice());
    assert!(key2.as_slice() < prefix_end.as_slice());
    assert!(key1 < key2);
}

#[test]
fn test_edge_v2_field_index_key() {
    let key = encode_edge_field_index_key("amount", &Value::Int(100), "abc123");
    assert_eq!(key[0], EDGE_PREFIX_IDX);
    assert!(key[1..].starts_with(b"amount\x00"));
}

#[test]
fn test_edge_v2_prefix_isolation() {
    let out_key = encode_edge_out_key_single("user:alice", "user:bob");
    let in_key = encode_edge_in_key_single("user:alice", "user:bob");
    let id_key = encode_edge_id_key("user:alice");

    assert_ne!(out_key[0], in_key[0]);
    assert_ne!(out_key[0], id_key[0]);
    assert_ne!(in_key[0], id_key[0]);
    assert!(!out_key.starts_with(&in_key));
    assert!(!in_key.starts_with(&out_key));
}

#[test]
fn test_encode_value_with_delimiter_null() {
    let encoded = encode_value_with_delimiter(&Value::Null);
    assert_eq!(encoded[0], TAG_NULL);
    assert_eq!(encoded.len(), 1);
}

#[test]
fn test_encode_value_with_delimiter_bool() {
    let encoded = encode_value_with_delimiter(&Value::Bool(true));
    assert_eq!(encoded[0], TAG_BOOL);
    assert_eq!(encoded.len(), 2);
    assert_eq!(encoded[1], 1);
}

#[test]
fn test_encode_value_with_delimiter_number() {
    let encoded = encode_value_with_delimiter(&Value::Int(42));
    assert_eq!(encoded[0], TAG_NUMBER);
    assert_eq!(encoded.len(), 1 + NUMERIC_FIXED_WIDTH);
}

#[test]
fn test_encode_value_with_delimiter_string() {
    let encoded = encode_value_with_delimiter(&text("hello"));
    assert_eq!(encoded[0], TAG_STRING);
    assert_eq!(encoded[encoded.len() - 2..], [0x00, 0x00]);
}

#[test]
fn test_encode_index_key_single() {
    let value = Value::Int(25);
    let key = encode_index_key(&[&value], "user:1");
    assert!(key.windows(2).any(|w| w[0] == 0xFF && w[1] == b'u'));
    assert!(key.ends_with(b"user:1"));
}

#[test]
fn test_encode_index_key_compound() {
    let status = text("active");
    let age = Value::Int(25);
    let key = encode_index_key(&[&status, &age], "user:1");
    assert!(key.ends_with(b"user:1"));
    assert!(key.contains(&0xFF));
}

#[test]
fn test_encode_range_bound_exclusive() {
    let value = Value::Int(25);
    let bound = encode_range_bound_exclusive(&value);
    let key_with_doc = encode_index_key(&[&value], "doc:a");
    assert!(key_with_doc > bound, "key with doc should be > bound (more bytes)");

    let larger_value = Value::Int(26);
    let larger_key = encode_index_key(&[&larger_value], "doc:a");
    assert!(larger_key > bound, "key with larger value should be > bound");
}

#[test]
fn test_extract_doc_key_from_index_key() {
    let value = Value::Int(25);
    let key = encode_index_key(&[&value], "user:alice");
    let doc_key = extract_doc_key(&key).unwrap();
    assert_eq!(doc_key, "user:alice");
}

#[test]
fn test_extract_doc_key_compound() {
    let v1 = text("active");
    let v2 = Value::Int(25);
    let key = encode_index_key(&[&v1, &v2], "doc:123");
    let doc_key = extract_doc_key(&key).unwrap();
    assert_eq!(doc_key, "doc:123");
}

#[test]
fn test_extract_doc_key_string_with_null() {
    let value = text("hello\x00world");
    let key = encode_index_key(&[&value], "test:1");
    let doc_key = extract_doc_key(&key).unwrap();
    assert_eq!(doc_key, "test:1");
}

#[test]
fn test_skip_value_null() {
    let encoded = encode_value_with_delimiter(&Value::Null);
    assert_eq!(skip_encoded_value(&encoded), Some(encoded.len()));
}

#[test]
fn test_skip_value_bool() {
    let encoded = encode_value_with_delimiter(&Value::Bool(true));
    assert_eq!(skip_encoded_value(&encoded), Some(encoded.len()));
}

#[test]
fn test_skip_value_number() {
    let encoded = encode_value_with_delimiter(&Value::Int(12345));
    assert_eq!(skip_encoded_value(&encoded), Some(encoded.len()));
}

#[test]
fn test_skip_value_string() {
    let encoded = encode_value_with_delimiter(&text("test"));
    assert_eq!(skip_encoded_value(&encoded), Some(encoded.len()));
}

#[test]
fn test_skip_value_string_with_embedded_null() {
    let encoded = encode_value_with_delimiter(&text("a\x00b"));
    let len = skip_encoded_value(&encoded).unwrap();
    assert_eq!(len, encoded.len());
}

#[test]
fn test_skip_multiple_values() {
    let v1 = text("hello");
    let v2 = Value::Int(42);
    let mut buf = encode_value_with_delimiter(&v1);
    buf.extend(encode_value_with_delimiter(&v2));
    let skip1 = skip_encoded_value(&buf).unwrap();
    let skip2 = skip_encoded_value(&buf[skip1..]).unwrap();
    assert_eq!(skip1 + skip2, buf.len());
}

#[test]
fn test_int_vs_float_ordering_fixed() {
    let v100 = encode_value_ordered(&Value::Int(100));
    let v100_5 = encode_value_ordered(&float(100.5));
    assert!(v100 < v100_5, "Int(100) should be less than Float(100.5)");

    let v100_delim = encode_value_with_delimiter(&Value::Int(100));
    let v100_5_delim = encode_value_with_delimiter(&float(100.5));
    assert!(v100_delim < v100_5_delim);

    let key100 = encode_index_key(&[&Value::Int(100)], "doc:a");
    let key100_5 = encode_index_key(&[&float(100.5)], "doc:a");
    assert!(key100 < key100_5, "Index key for 100 should be less than index key for 100.5");
}

#[test]
fn test_numeric_fixed_width_size() {
    let expected_size = 1 + NUMERIC_FIXED_WIDTH;
    let small_int = encode_value_ordered(&Value::Int(1));
    let large_int = encode_value_ordered(&Value::Int(999999999999i64));
    let small_float = encode_value_ordered(&float(0.1));
    let large_float = encode_value_ordered(&float(123_456_789.123_456_79));
    assert_eq!(small_int.len(), expected_size);
    assert_eq!(large_int.len(), expected_size);
    assert_eq!(small_float.len(), expected_size);
    assert_eq!(large_float.len(), expected_size);
}

#[test]
fn test_optimized_i64_encoder_matches_original() {
    let test_values: &[i64] = &[
        0,
        1,
        2,
        9,
        10,
        11,
        99,
        100,
        123,
        1000,
        12345,
        123456,
        -1,
        -10,
        -100,
        -12345,
        i64::MAX,
        i64::MIN,
        999999999999999999,
    ];
    for &n in test_values {
        let optimized = encode_i64_fixed_width(n);
        let original = encode_number_fixed_width(&n.to_string());
        assert_eq!(optimized, original, "Mismatch for {}", n);
    }
}

#[test]
fn test_optimized_f64_encoder_matches_original() {
    let test_values: &[f64] = &[
        0.0,
        0.5,
        0.1,
        0.01,
        0.001,
        1.0,
        1.5,
        1.23,
        1.234,
        10.0,
        10.5,
        12.34,
        100.0,
        100.5,
        123.456,
        -0.5,
        -1.5,
        -100.5,
        -12.34,
        1e10,
        1e-10,
        f64::INFINITY,
        f64::NEG_INFINITY,
        f64::NAN,
    ];
    for &f in test_values {
        let optimized = encode_f64_fixed_width(&FloatText::new(f.to_string()).unwrap());
        let original_str = if f.is_finite() {
            f.to_string()
        } else if f == f64::INFINITY {
            "Infinity".to_string()
        } else if f == f64::NEG_INFINITY {
            "-Infinity".to_string()
        } else {
            "NaN".to_string()
        };
        let original = encode_number_fixed_width(&original_str);
        if f.is_nan() {
            assert_eq!(optimized, vec![0xFFu8; 16], "NaN should encode to the NaN marker");
            continue;
        }
        assert_eq!(optimized, original, "Mismatch for {}", f);
    }
}

#[test]
fn bench_i64_encoding_comparison() {

    let test_values: &[i64] = &[0, 1, 10, 100, 12345, 123456789, -1, -100, -12345, i64::MAX, i64::MIN];
    let iterations: usize = 10_000;

    for _ in 0..1000 {
        for &n in test_values {
            black_box(encode_i64_fixed_width(n));
            black_box(encode_number_fixed_width(&n.to_string()));
        }
    }

    let start = Instant::now();
    for _ in 0..iterations {
        for &n in test_values {
            black_box(encode_i64_fixed_width(n));
        }
    }
    let optimized_time = start.elapsed();

    let start = Instant::now();
    for _ in 0..iterations {
        for &n in test_values {
            black_box(encode_number_fixed_width(&n.to_string()));
        }
    }
    let string_time = start.elapsed();

    let total_ops = iterations * test_values.len();
    println!("i64 encoding: direct {:?}, via text {:?}, {} ops", optimized_time, string_time, total_ops);
}

#[test]
fn bench_f64_encoding_comparison() {

    let test_values: &[f64] = &[0.0, 0.5, 0.1, 0.001, 1.0, 1.5, 12.34, 123.456, -0.5, -12.34, 1e10, 1e-10];
    let texts: Vec<FloatText> = test_values.iter().map(|f| FloatText::new(f.to_string()).unwrap()).collect();
    let iterations: usize = 10_000;

    for _ in 0..1000 {
        for (f, t) in test_values.iter().zip(texts.iter()) {
            black_box(encode_f64_fixed_width(t));
            black_box(encode_number_fixed_width(&f.to_string()));
        }
    }

    let start = Instant::now();
    for _ in 0..iterations {
        for t in texts.iter() {
            black_box(encode_f64_fixed_width(t));
        }
    }
    let optimized_time = start.elapsed();

    let start = Instant::now();
    for _ in 0..iterations {
        for &f in test_values {
            black_box(encode_number_fixed_width(&f.to_string()));
        }
    }
    let string_time = start.elapsed();

    let total_ops = iterations * test_values.len();
    println!("f64 encoding: direct {:?}, via decimal {:?}, {} ops", optimized_time, string_time, total_ops);
}

#[test]
fn test_numeric_ordering_property() {
    let test_pairs: &[(f64, f64)] = &[
        (-100.0, -10.0),
        (-10.0, -1.0),
        (-1.0, -0.5),
        (-0.5, 0.0),
        (0.0, 0.5),
        (0.5, 1.0),
        (1.0, 10.0),
        (10.0, 100.0),
        (0.0, 0.000001),
        (0.999999, 1.0),
        (99.9, 100.0),
        (100.0, 100.1),
        (100.0, 100.5),
        (100.5, 101.0),
        (1.0, 10.0),
        (10.0, 100.0),
        (100.0, 1000.0),
        (0.1, 1.0),
        (0.01, 0.1),
        (1e10, 1e11),
        (1e15, 1e16),
        (-1e16, -1e15),
        (0.001, 0.01),
        (0.0001, 0.001),
        (-0.001, -0.0001),
        (9007199254740990.0, 9007199254740991.0),
        (-9007199254740991.0, -9007199254740990.0),
    ];
    for &(a, b) in test_pairs {
        let enc_a = encode_value_ordered(&float(a));
        let enc_b = encode_value_ordered(&float(b));
        assert!(enc_a < enc_b, "Expected encode({}) < encode({})", a, b);
    }
}

#[test]
fn test_numeric_ordering_int_float_mixed() {
    let test_cases: &[(i64, f64)] = &[
        (0, 0.5),
        (1, 1.5),
        (99, 99.5),
        (100, 100.5),
        (100, 100.01),
        (100, 100.001),
        (-1, -0.5),
        (-100, -99.5),
        (-101, -100.5),
    ];
    for &(i, f) in test_cases {
        let enc_i = encode_value_ordered(&Value::Int(i));
        let enc_f = encode_value_ordered(&float(f));
        if (i as f64) < f {
            assert!(enc_i < enc_f, "Expected encode(Int({})) < encode(Float({}))", i, f);
        } else {
            assert!(enc_i > enc_f, "Expected encode(Int({})) > encode(Float({}))", i, f);
        }
    }
    for i in [0i64, 1, 10, 100, -1, -10, -100] {
        let enc_i = encode_value_ordered(&Value::Int(i));
        let enc_f = encode_value_ordered(&float(i as f64));
        assert_eq!(enc_i, enc_f, "Int({}) and Float({}.0) should encode identically", i, i);
    }
}

#[test]
fn test_numeric_ordering_transitivity() {
    let values: Vec<f64> = vec![
        f64::NEG_INFINITY,
        -1e100,
        -1e10,
        -1000.0,
        -100.5,
        -100.0,
        -10.0,
        -1.0,
        -0.5,
        -0.001,
        0.0,
        0.001,
        0.5,
        1.0,
        10.0,
        100.0,
        100.5,
        1000.0,
        1e10,
        1e100,
        f64::INFINITY,
    ];
    let encoded: Vec<Vec<u8>> = values.iter().map(|&v| encode_value_ordered(&float(v))).collect();
    for i in 0..values.len() {
        for j in (i + 1)..values.len() {
            assert!(encoded[i] < encoded[j], "encode({}) should be < encode({})", values[i], values[j]);
        }
    }
}

#[test]
fn test_numeric_array_sort() {
    let input: Vec<f64> = vec![
        100.5,
        -10.0,
        0.0,
        1000.0,
        -1000.0,
        0.001,
        -0.001,
        100.0,
        99.9,
        100.1,
        f64::INFINITY,
        f64::NEG_INFINITY,
    ];
    let mut encoded: Vec<(f64, Vec<u8>)> = input.iter().map(|&v| (v, encode_value_ordered(&float(v)))).collect();
    encoded.sort_by(|a, b| a.1.cmp(&b.1));
    let sorted_values: Vec<f64> = encoded.iter().map(|(v, _)| *v).collect();
    let mut expected = input.clone();
    expected.sort_by(|a, b| a.partial_cmp(b).unwrap());
    assert_eq!(sorted_values, expected, "Byte-sorted values should match mathematically sorted values");
}

#[test]
fn test_numeric_boundary_cases() {
    let min = encode_value_ordered(&Value::Int(i64::MIN));
    let min_plus_1 = encode_value_ordered(&Value::Int(i64::MIN + 1));
    assert!(min < min_plus_1, "i64::MIN should be < i64::MIN + 1");

    let max = encode_value_ordered(&Value::Int(i64::MAX));
    let max_minus_1 = encode_value_ordered(&Value::Int(i64::MAX - 1));
    assert!(max_minus_1 < max, "i64::MAX - 1 should be < i64::MAX");

    let neg_1 = encode_value_ordered(&Value::Int(-1));
    let zero = encode_value_ordered(&Value::Int(0));
    let pos_1 = encode_value_ordered(&Value::Int(1));
    assert!(neg_1 < zero, "-1 should be < 0");
    assert!(zero < pos_1, "0 should be < 1");

    let v9 = encode_value_ordered(&Value::Int(9));
    let v10 = encode_value_ordered(&Value::Int(10));
    let v11 = encode_value_ordered(&Value::Int(11));
    assert!(v9 < v10, "9 should be < 10");
    assert!(v10 < v11, "10 should be < 11");

    let v99 = encode_value_ordered(&Value::Int(99));
    let v100 = encode_value_ordered(&Value::Int(100));
    let v101 = encode_value_ordered(&Value::Int(101));
    assert!(v99 < v100, "99 should be < 100");
    assert!(v100 < v101, "100 should be < 101");

    let neg_9 = encode_value_ordered(&Value::Int(-9));
    let neg_10 = encode_value_ordered(&Value::Int(-10));
    let neg_11 = encode_value_ordered(&Value::Int(-11));
    assert!(neg_11 < neg_10, "-11 should be < -10");
    assert!(neg_10 < neg_9, "-10 should be < -9");
}

#[test]
fn test_numeric_decimal_precision() {
    let close_values: &[f64] = &[100.0, 100.001, 100.01, 100.1, 100.5, 100.9, 100.99, 100.999, 101.0];
    let encoded: Vec<Vec<u8>> = close_values.iter().map(|&v| encode_value_ordered(&float(v))).collect();
    for i in 0..(close_values.len() - 1) {
        assert!(encoded[i] < encoded[i + 1], "encode({}) should be < encode({})", close_values[i], close_values[i + 1]);
    }
}

#[test]
fn test_numeric_negative_decimal_precision() {
    let close_values: &[f64] =
        &[-101.0, -100.999, -100.99, -100.9, -100.5, -100.1, -100.01, -100.001, -100.0];
    let encoded: Vec<Vec<u8>> = close_values.iter().map(|&v| encode_value_ordered(&float(v))).collect();
    for i in 0..(close_values.len() - 1) {
        assert!(encoded[i] < encoded[i + 1], "encode({}) should be < encode({})", close_values[i], close_values[i + 1]);
    }
}

#[test]
fn test_numeric_special_floats() {
    let nan = encode_value_ordered(&float(f64::NAN));
    let pos_inf = encode_value_ordered(&float(f64::INFINITY));
    let neg_inf = encode_value_ordered(&float(f64::NEG_INFINITY));
    let max = encode_value_ordered(&float(f64::MAX));
    let min = encode_value_ordered(&float(f64::MIN));
    let zero = encode_value_ordered(&float(0.0));
    assert!(neg_inf < min, "NEG_INFINITY should be < MIN");
    assert!(min < zero, "MIN should be < 0");
    assert!(zero < max, "0 should be < MAX");
    assert!(max < pos_inf, "MAX should be < INFINITY");
    assert!(pos_inf < nan, "INFINITY should be < NAN");
}

#[test]
fn test_int_all_digit_lengths() {
    let test_values: Vec<i64> = vec![
        0,
        1,
        9,
        10,
        99,
        100,
        999,
        1000,
        9999,
        10000,
        99999,
        100000,
        999999,
        1000000,
        9999999,
        10000000,
        99999999,
        100000000,
        999999999,
        1000000000,
        9999999999,
        10000000000,
        99999999999,
        100000000000,
        999999999999,
        1000000000000,
        9999999999999,
        10000000000000,
        99999999999999,
        100000000000000,
        999999999999999,
        1000000000000000,
        9999999999999999,
        10000000000000000,
        99999999999999999,
        100000000000000000,
        999999999999999999,
        1000000000000000000,
        i64::MAX,
    ];
    let encoded: Vec<Vec<u8>> = test_values.iter().map(|&v| encode_value_ordered(&Value::Int(v))).collect();
    for i in 0..(test_values.len() - 1) {
        assert!(encoded[i] < encoded[i + 1], "encode({}) should be < encode({})", test_values[i], test_values[i + 1]);
    }

    let neg_values: Vec<i64> = test_values.iter().filter(|&&v| v > 0).map(|&v| -v).collect();
    let neg_encoded: Vec<Vec<u8>> = neg_values.iter().map(|&v| encode_value_ordered(&Value::Int(v))).collect();
    for i in 0..(neg_values.len() - 1) {
        if neg_values[i].abs() > neg_values[i + 1].abs() {
            assert!(neg_encoded[i] < neg_encoded[i + 1]);
        }
    }
}

#[test]
fn test_different_types_not_equal() {
    let null = Value::Null;
    let bool_val = Value::Bool(false);
    let int_val = Value::Int(0);
    let float_val = float(0.1);
    let string_val = text("");
    let array_val = Value::Array(vec![]);
    let object_val = Value::Object(vec![]);

    let values = [
        ("Null", &null),
        ("Bool", &bool_val),
        ("Int", &int_val),
        ("Float", &float_val),
        ("String", &string_val),
        ("Array", &array_val),
        ("Object", &object_val),
    ];
    for i in 0..values.len() {
        for j in (i + 1)..values.len() {
            let enc_i = encode_value_for_hash(values[i].1);
            let enc_j = encode_value_for_hash(values[j].1);
            if (values[i].0 == "Int" && values[j].0 == "Float") || (values[i].0 == "Float" && values[j].0 == "Int") {
                continue;
            }
            assert_ne!(enc_i, enc_j, "{} and {} should have different hash encodings", values[i].0, values[j].0);
        }
    }
}

#[test]
fn test_empty_array_not_equal_empty_object() {
    let empty_array = Value::Array(vec![]);
    let empty_object = Value::Object(vec![]);
    let enc_array = encode_value_for_hash(&empty_array);
    let enc_object = encode_value_for_hash(&empty_object);
    assert_ne!(enc_array, enc_object);
    assert_eq!(enc_array[0], TAG_ARRAY, "Array should have TAG_ARRAY");
    assert_eq!(enc_object[0], TAG_OBJECT, "Object should have TAG_OBJECT");
}

#[test]
fn test_array_equality() {
    let arr1 = Value::Array(vec![Value::Int(1), text("hello"), Value::Bool(true)]);
    let arr2 = Value::Array(vec![Value::Int(1), text("hello"), Value::Bool(true)]);
    assert_eq!(encode_value_for_hash(&arr1), encode_value_for_hash(&arr2));
    let arr3 = Value::Array(vec![Value::Int(1), text("world"), Value::Bool(true)]);
    assert_ne!(encode_value_for_hash(&arr1), encode_value_for_hash(&arr3));
}

#[test]
fn test_array_order_matters() {
    let arr1 = Value::Array(vec![Value::Int(1), Value::Int(2)]);
    let arr2 = Value::Array(vec![Value::Int(2), Value::Int(1)]);
    assert_ne!(encode_value_for_hash(&arr1), encode_value_for_hash(&arr2));
}

#[test]
fn test_array_length_matters() {
    let arr1 = Value::Array(vec![Value::Int(1)]);
    let arr2 = Value::Array(vec![Value::Int(1), Value::Int(1)]);
    assert_ne!(encode_value_for_hash(&arr1), encode_value_for_hash(&arr2));
}

#[test]
fn test_nested_arrays() {
    let nested1 = Value::Array(vec![
        Value::Array(vec![Value::Int(1), Value::Int(2)]),
        Value::Array(vec![Value::Int(3)]),
    ]);
    let nested2 = Value::Array(vec![
        Value::Array(vec![Value::Int(1), Value::Int(2)]),
        Value::Array(vec![Value::Int(3)]),
    ]);
    let nested3 = Value::Array(vec![
        Value::Array(vec![Value::Int(1), Value::Int(2)]),
        Value::Array(vec![Value::Int(4)]),
    ]);
    assert_eq!(encode_value_for_hash(&nested1), encode_value_for_hash(&nested2));
    assert_ne!(encode_value_for_hash(&nested1), encode_value_for_hash(&nested3));
}

#[test]
fn test_object_equality() {
    let obj1 = object(vec![("name", text("Alice")), ("age", Value::Int(30))]);
    let obj2 = object(vec![("age", Value::Int(30)), ("name", text("Alice"))]);
    assert_eq!(encode_value_for_hash(&obj1), encode_value_for_hash(&obj2));
    let obj3 = object(vec![("name", text("Bob")), ("age", Value::Int(30))]);
    assert_ne!(encode_value_for_hash(&obj1), encode_value_for_hash(&obj3));
}

#[test]
fn test_object_keys_matter() {
    let obj1 = object(vec![("a", Value::Int(1))]);
    let obj2 = object(vec![("b", Value::Int(1))]);
    assert_ne!(encode_value_for_hash(&obj1), encode_value_for_hash(&obj2));
}

#[test]
fn test_nested_objects() {
    let outer1 = object(vec![("inner", object(vec![("x", Value::Int(10))]))]);
    let outer2 = object(vec![("inner", object(vec![("x", Value::Int(10))]))]);
    assert_eq!(encode_value_for_hash(&outer1), encode_value_for_hash(&outer2));
    let outer3 = object(vec![("inner", object(vec![("x", Value::Int(20))]))]);
    assert_ne!(encode_value_for_hash(&outer1), encode_value_for_hash(&outer3));
}

#[test]
fn test_mixed_array_object_nesting() {
    let arr_of_obj = Value::Array(vec![object(vec![("id", Value::Int(1))])]);
    let obj_with_arr = object(vec![("items", Value::Array(vec![Value::Int(1)]))]);
    assert_ne!(encode_value_for_hash(&arr_of_obj), encode_value_for_hash(&obj_with_arr));
}

#[test]
fn test_numeric_equality_across_types() {
    let int_100 = Value::Int(100);
    let float_100 = float(100.0);
    assert_eq!(encode_value_for_hash(&int_100), encode_value_for_hash(&float_100));
    let float_100_5 = float(100.5);
    assert_ne!(encode_value_for_hash(&int_100), encode_value_for_hash(&float_100_5));
}

#[test]
fn test_deep_nesting() {
    let deep1 = build_nested(7, Value::Array(vec![Value::Int(1), Value::Int(2), Value::Int(3)]));
    let deep2 = build_nested(7, Value::Array(vec![Value::Int(1), Value::Int(2), Value::Int(3)]));
    let deep3 = build_nested(7, Value::Array(vec![Value::Int(1), Value::Int(2), Value::Int(4)]));
    assert_eq!(encode_value_for_hash(&deep1), encode_value_for_hash(&deep2));
    assert_ne!(encode_value_for_hash(&deep1), encode_value_for_hash(&deep3));
    let deep4 = build_nested(6, Value::Array(vec![Value::Int(1), Value::Int(2), Value::Int(3)]));
    assert_ne!(encode_value_for_hash(&deep1), encode_value_for_hash(&deep4));
}

#[test]
fn byte_successor_of_prefix_bounds_its_keys() {
    let prefix = encode_value_with_delimiter(&Value::Int(7));
    let end = byte_successor(&prefix);
    let key = encode_index_key(&[&Value::Int(7)], "doc:z");
    assert!(key.as_slice() >= prefix.as_slice());
    assert!(key < end);
    assert_eq!(byte_successor(&[0x01, 0xFF]), vec![0x02]);
    assert_eq!(byte_successor(&[0xFF, 0xFF]), vec![0xFF, 0xFF, 0x00]);
}

#[test]
fn skip_encoded_value_needs_the_whole_value() {
    assert_eq!(skip_encoded_value(&[TAG_NUMBER]), None);
    assert_eq!(skip_encoded_value(&[TAG_BOOL]), None);
    assert_eq!(skip_encoded_value(&[TAG_NULL]), Some(1));
    assert_eq!(skip_encoded_value(&[TAG_BOOL, 1]), Some(2));
    let mut number = vec![TAG_NUMBER];
    number.extend(encode_i64_fixed_width(7));
    assert_eq!(skip_encoded_value(&number[..16]), None);
    assert_eq!(skip_encoded_value(&number), Some(17));
}

#[test]
fn float_string_exponent_notation() {
    let plain = encode_float_string("0.000015", false);
    let exp = encode_float_string("1.5e-5", false);
    assert_eq!(plain, exp);
    assert_eq!(plain, vec![0xFF, 0x3F, 0xFC, 0x15, 0, 0, 0, 0, 0, 0, 0, 0, 0, 0, 0, 0]);
    assert_eq!(encode_float_string("1e10", false), encode_float_string("10000000000", false));
    assert_eq!(encode_float_string("2.5E+3", true), encode_float_string("2500", true));
}

#[test]
fn decimal_text_forms() {
    assert!(DecimalText::new("12.50".to_string()).is_some());
    assert!(DecimalText::new("-0.001".to_string()).is_some());
    assert!(DecimalText::new("1e5".to_string()).is_none());
    assert!(DecimalText::new("NaN".to_string()).is_some());
    assert!(DecimalText::new("-Infinity".to_string()).is_some());
    assert!(DecimalText::new("inf".to_string()).is_none());
    let inf = Value::Decimal(DecimalText::new("Infinity".to_string()).unwrap());
    assert_eq!(encode_value_ordered(&inf), encode_value_ordered(&float(f64::INFINITY)));
    assert!(DecimalText::new(".5".to_string()).is_none());
    let d = Value::Decimal(DecimalText::new("100".to_string()).unwrap());
    assert_eq!(encode_value_ordered(&d), encode_value_ordered(&Value::Int(100)));
    assert_eq!(encode_value_for_hash(&d), encode_value_for_hash(&Value::Int(100)));
}

#[test]
fn reference_hashes_apart_from_string() {
    assert_ne!(
        encode_value_for_hash(&Value::Reference("users:1".to_string())),
        encode_value_for_hash(&Value::String("users:1".to_string()))
    );
    assert_ne!(
        encode_value_for_hash(&Value::Reference("users:1".to_string())),
        encode_value_for_hash(&Value::String("users:2".to_string()))
    );
}

#[test]
fn index_keys_order_by_value_before_document_key() {
    let a = Value::Int(100);
    let b = float(100.5);
    assert!(encode_index_key(&[&a], "doc:z") < encode_index_key(&[&b], "doc:a"));
    let s1 = text("ab");
    let s2 = text("abc");
    assert!(encode_index_key(&[&s1], "zzz") < encode_index_key(&[&s2], "a"));
}

#[test]
fn edge_id_value_decodes_text_halves() {
    let v = encode_edge_id_value("user:älice", "user:bob");
    assert_eq!(decode_edge_id_value(&v), Some(("user:älice".to_string(), "user:bob".to_string())));
    assert_eq!(decode_edge_id_value(b"no-separator"), None);
}

#[test]
fn out_prefix_range_excludes_other_nodes() {
    let lo = encode_edge_out_prefix_v2("alice");
    let hi = encode_edge_out_prefix_end_v2("alice");
    for from in ["alic", "alicea", "alice\u{1}", "alicf", "bob", ""] {
        let k = encode_edge_out_key_single(from, "carol");
        assert!(!(lo <= k && k < hi), "{from}");
        let k = encode_edge_out_key_multi(from, "carol", "e1");
        assert!(!(lo <= k && k < hi), "{from}");
    }
    let k = encode_edge_out_key_single("alice", "carol");
    assert!(lo <= k && k < hi);
}

#[test]
fn numbers_sort_by_value_across_kinds() {
    let values = vec![
        float(f64::NEG_INFINITY),
        float(-1e30),
        Value::Int(-101),
        float(-100.5),
        Value::Int(-100),
        float(-0.001),
        float(-0.0),
        Value::Int(0),
        float(1e-10),
        float(0.5),
        Value::Int(1),
        float(1.5),
        Value::Int(100),
        float(100.5),
        Value::Int(101),
        float(1e30),
        float(f64::INFINITY),
        float(f64::NAN),
    ];
    let encoded: Vec<Vec<u8>> = values.iter().map(encode_value_ordered).collect();
    for i in 0..encoded.len() - 1 {
        if i == 6 {
            // -0.0 and 0 are the same value.
            assert_eq!(encoded[i], encoded[i + 1]);
        } else {
            assert!(encoded[i] < encoded[i + 1], "position {i}");
        }
    }
}

#[test]
fn hash_separates_distinct_values() {
    let values = vec![
        Value::Null,
        Value::Bool(false),
        Value::Int(0),
        float(0.1),
        text(""),
        Value::Reference(String::new()),
        Value::Array(vec![]),
        object(vec![]),
        Value::Bytes(vec![]),
        Value::Datetime(0),
        Value::Duration(0),
    ];
    let hashes: Vec<Vec<u8>> = values.iter().map(encode_value_for_hash).collect();
    for i in 0..hashes.len() {
        for j in 0..hashes.len() {
            if i != j {
                assert_ne!(hashes[i], hashes[j], "{i} {j}");
            }
        }
    }
}

#[test]
fn hash_agrees_on_equal_numbers_and_objects() {
    let d = |s: &str| Value::Decimal(DecimalText::new(s.to_string()).unwrap());
    assert_eq!(encode_value_for_hash(&Value::Int(100)), encode_value_for_hash(&float(100.0)));
    assert_eq!(encode_value_for_hash(&Value::Int(100)), encode_value_for_hash(&d("100.00")));
    assert_eq!(encode_value_for_hash(&float(0.5)), encode_value_for_hash(&d("0.50")));
    assert_eq!(encode_value_for_hash(&d("-12.5")), encode_value_for_hash(&float(-12.5)));
    assert_ne!(encode_value_for_hash(&d("12.5")), encode_value_for_hash(&d("12.51")));
    let a = object(vec![("a", Value::Int(1)), ("b", text("x"))]);
    let b = object(vec![("b", text("x")), ("a", float(1.0))]);
    assert_eq!(encode_value_for_hash(&a), encode_value_for_hash(&b));
    let c = object(vec![("a", Value::Int(1)), ("c", text("x"))]);
    assert_ne!(encode_value_for_hash(&a), encode_value_for_hash(&c));
    assert_ne!(
        encode_value_for_hash(&Value::Array(vec![text("ab")])),
        encode_value_for_hash(&Value::Array(vec![text("a"), text("b")]))
    );
}

#[test]
fn float_string_ignores_other_characters() {
    assert_eq!(encode_float_string("1.5\u{e9}", false), encode_float_string("1.5", false));
    assert_eq!(encode_float_string("\u{2212}2.25", true), encode_float_string("2.25", true));
}
