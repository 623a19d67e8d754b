use stellardb::doc_paging::DocPager;
use stellardb::paging::PageStep;

/// Lists a page over the stored keys (in order), as a store reading its
/// range from the cursor's key would; gives the page and the next cursor.
fn list(keys: &[&str], after: Option<&str>, limit: usize) -> (Vec<String>, Option<String>) {
    let range: Vec<&str> = match after {
        Some(c) => keys.iter().copied().filter(|k| *k >= c).collect(),
        None => keys.to_vec(),
    };
    let mut pager = DocPager::new(after.is_some(), limit);
    let mut read: Vec<String> = Vec::new();
    for k in range {
        match pager.step() {
            PageStep::Skip => {}
            PageStep::Stop => break,
            PageStep::Collect => {
                pager.collect(k);
                read.push(k.to_string());
            }
        }
    }
    let (keep, next) = pager.finish();
    read.truncate(keep);
    (read, next)
}

#[test]
fn document_pages_follow_the_cursor() {
    let keys = ["a", "b", "c", "d", "e"];
    let (p1, c1) = list(&keys, None, 2);
    assert_eq!(p1, vec!["a", "b"]);
    assert_eq!(c1.as_deref(), Some("b"));
    let (p2, c2) = list(&keys, c1.as_deref(), 2);
    assert_eq!(p2, vec!["c", "d"]);
    assert_eq!(c2.as_deref(), Some("d"));
    let (p3, c3) = list(&keys, c2.as_deref(), 2);
    assert_eq!(p3, vec!["e"]);
    assert_eq!(c3, None);
}

#[test]
fn zero_limit_gives_empty_page_without_cursor() {
    assert_eq!(list(&["a", "b"], None, 0), (vec![], None));
}

#[test]
fn vanished_cursor_passes_over_the_next_key() {
    // The range starts at the first key after the missing cursor, and that
    // entry is passed over as if it were the cursor.
    let (p, c) = list(&["a", "c", "d", "e"], Some("b"), 10);
    assert_eq!(p, vec!["d", "e"]);
    assert_eq!(c, None);
}

#[test]
fn large_limit_reads_everything() {
    let (p, c) = list(&["a", "b"], None, usize::MAX);
    assert_eq!(p, vec!["a", "b"]);
    assert_eq!(c, None);
}
