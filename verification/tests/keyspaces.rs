use stellardb::keyspace_plan::{
    build_name, index_keyspace_name, is_build_keyspace_name, text_contains, CopyBatch, COPY_BATCH_BYTES,
    COPY_BATCH_ITEMS, INDEX_BUILD_MARKER,
};

#[test]
fn copy_batch_flushes_at_item_limit() {
    let mut b = CopyBatch::new();
    for _ in 0..COPY_BATCH_ITEMS {
        assert!(!b.add(10));
    }
    assert_eq!(b.items, COPY_BATCH_ITEMS);
    assert!(b.add(10));
    assert_eq!((b.items, b.bytes), (1, 10));
}

#[test]
fn copy_batch_flushes_at_byte_limit() {
    let mut b = CopyBatch::new();
    assert!(!b.add(60 * 1024 * 1024));
    assert!(!b.add(4 * 1024 * 1024));
    assert_eq!(b.bytes, COPY_BATCH_BYTES);
    assert!(b.add(1));
    assert_eq!((b.items, b.bytes), (1, 1));
}

#[test]
fn oversized_item_goes_alone() {
    let mut b = CopyBatch::new();
    assert!(!b.add(COPY_BATCH_BYTES + 1));
    assert_eq!(b.items, 1);
    assert!(b.add(1));
    assert_eq!((b.items, b.bytes), (1, 1));
}

#[test]
fn item_size_saturates() {
    assert_eq!(CopyBatch::item_size(3, 4), 7);
    assert_eq!(CopyBatch::item_size(usize::MAX, 1), usize::MAX);
    let mut b = CopyBatch::new();
    assert!(!b.add(usize::MAX));
    assert!(b.add(0));
}

#[test]
fn keyspace_names() {
    assert_eq!(INDEX_BUILD_MARKER, "__build_");
    assert_eq!(build_name("b42"), "__build_b42");
    assert_eq!(index_keyspace_name("users", "email_idx"), "idx_users_email_idx");
    let build = index_keyspace_name("users", &build_name("b42"));
    assert_eq!(build, "idx_users___build_b42");
    assert!(is_build_keyspace_name(&build));
    assert!(is_build_keyspace_name(&format!("{}_unique", build)));
    assert!(!is_build_keyspace_name("idx_users_email_idx"));
    assert!(!is_build_keyspace_name("docs_users"));
}

#[test]
fn text_contains_cases() {
    assert!(text_contains("abc", ""));
    assert!(text_contains("abc", "abc"));
    assert!(text_contains("xxabcxx", "bc"));
    assert!(!text_contains("ab", "abc"));
    assert!(!text_contains("", "a"));
    assert!(text_contains("été_x", "é_"));
}
