use stellardb::config::StorageError;
use stellardb::vector_meta::{encode_vector_meta, int_error_text, parse_unsigned, parse_vector_meta, IntParseError};

fn io_message(e: StorageError) -> String {
    match e {
        StorageError::Io(m) => m,
        other => panic!("unexpected error {:?}", other),
    }
}

fn entries(v: &[(u64, &str)]) -> Vec<(u64, String)> {
    v.iter().map(|(i, d)| (*i, d.to_string())).collect()
}

#[test]
fn encodes_versioned_file() {
    let bytes = encode_vector_meta(5, &entries(&[(1, "docs:a"), (3, "docs:b")]));
    assert_eq!(bytes, b"v1\n5\n1\tdocs:a\n3\tdocs:b\n".to_vec());
    assert_eq!(encode_vector_meta(0, &entries(&[])), b"v1\n0\n".to_vec());
}

#[test]
fn reads_back_what_it_writes() {
    let es = entries(&[(0, "a"), (18446744073709551615, "docs:é"), (7, "")]);
    let bytes = encode_vector_meta(u64::MAX, &es);
    let text = String::from_utf8(bytes).unwrap();
    let (read, next) = parse_vector_meta(&text).unwrap();
    assert_eq!(read, es);
    assert_eq!(next, u64::MAX);
}

#[test]
fn reads_legacy_and_short_files() {
    assert_eq!(parse_vector_meta("7\n2\tx\n").unwrap(), (entries(&[(2, "x")]), 7));
    assert_eq!(parse_vector_meta("").unwrap(), (vec![], 0));
    assert_eq!(parse_vector_meta("v1\n").unwrap(), (vec![], 0));
    assert_eq!(parse_vector_meta("v1").unwrap(), (vec![], 0));
    assert_eq!(parse_vector_meta("v1\n9").unwrap(), (vec![], 9));
}

#[test]
fn passes_over_lines_without_tab() {
    assert_eq!(parse_vector_meta("v1\n3\nnotab\n\n4\ty\n").unwrap(), (entries(&[(4, "y")]), 3));
}

#[test]
fn line_endings_and_tabs() {
    assert_eq!(parse_vector_meta("v1\r\n3\r\n1\tdoc\r\n").unwrap(), (entries(&[(1, "doc")]), 3));
    assert_eq!(parse_vector_meta("1\n2\ta\tb").unwrap(), (entries(&[(2, "a\tb")]), 1));
    assert_eq!(parse_vector_meta("1\n2\tx\r").unwrap(), (entries(&[(2, "x\r")]), 1));
    assert_eq!(parse_vector_meta("v1\n+5\n").unwrap(), (vec![], 5));
}

#[test]
fn number_errors_name_the_number() {
    let e = io_message(parse_vector_meta("vx\n1\n").unwrap_err());
    assert_eq!(e, format!("Failed to parse HNSW metadata version: {}", "x".parse::<u32>().unwrap_err()));
    let e = io_message(parse_vector_meta("v4294967296\n1\n").unwrap_err());
    assert_eq!(e, format!("Failed to parse HNSW metadata version: {}", "4294967296".parse::<u32>().unwrap_err()));
    let e = io_message(parse_vector_meta("v1\n18446744073709551616\n").unwrap_err());
    assert_eq!(e, format!("Failed to parse HNSW next_id: {}", "18446744073709551616".parse::<u64>().unwrap_err()));
    let e = io_message(parse_vector_meta("abc\n").unwrap_err());
    assert_eq!(e, format!("Failed to parse HNSW next_id: {}", "abc".parse::<u64>().unwrap_err()));
    let e = io_message(parse_vector_meta("v1\n1\n\tdoc\n").unwrap_err());
    assert_eq!(e, format!("Failed to parse HNSW internal_id: {}", "".parse::<u64>().unwrap_err()));
    let e = io_message(parse_vector_meta("v1\n1\n2\tok\n-3\tdoc\n").unwrap_err());
    assert_eq!(e, format!("Failed to parse HNSW internal_id: {}", "-3".parse::<u64>().unwrap_err()));
}

#[test]
fn unsigned_parsing_agrees_with_std() {
    let cases = [
        "", "+", "-", "0", "+0", "007", "42", "-1", "1_0", " 1", "1 ", "18446744073709551615", "18446744073709551616",
        "99999999999999999999x", "x99999999999999999999", "++1", "+-1", "١",
    ];
    for c in cases {
        let ours = parse_unsigned(c.as_bytes(), u64::MAX).map_err(|e| int_error_text(e).to_string());
        let std = c.parse::<u64>().map_err(|e| e.to_string());
        assert_eq!(ours, std, "{:?}", c);
        let ours32 = parse_unsigned(c.as_bytes(), u32::MAX as u64).map_err(|e| int_error_text(e).to_string());
        let std32 = c.parse::<u32>().map(|v| v as u64).map_err(|e| e.to_string());
        assert_eq!(ours32, std32, "{:?}", c);
    }
    assert_eq!(parse_unsigned(b"", 5), Err(IntParseError::Empty));
}
