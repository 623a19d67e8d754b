use stellardb::paging::{EdgePager, PageStep, MAX_EDGE_PAGE};

/// Runs a listing over in-memory entries as a store would over its range;
/// gives the kept ids, the next cursor and how many entries were read.
fn list(entries: &[(&str, bool)], after: Option<&str>, limit: usize) -> (Vec<String>, Option<String>, usize) {
    let mut pager = EdgePager::new(after, limit);
    let mut collected: Vec<String> = Vec::new();
    let mut read = 0;
    for (id, present) in entries {
        read += 1;
        match pager.step(id) {
            PageStep::Skip => {}
            PageStep::Stop => break,
            PageStep::Collect => {
                if *present {
                    pager.collect(id);
                    collected.push(id.to_string());
                }
            }
        }
    }
    let (keep, next) = pager.finish();
    collected.truncate(keep);
    (collected, next, read)
}

fn all(ids: &[&'static str]) -> Vec<(&'static str, bool)> {
    ids.iter().map(|id| (*id, true)).collect()
}

#[test]
fn pages_follow_the_cursor() {
    let entries = all(&["a", "b", "c", "d", "e"]);
    let (p1, c1, _) = list(&entries, None, 2);
    assert_eq!(p1, vec!["a", "b"]);
    assert_eq!(c1.as_deref(), Some("b"));
    let (p2, c2, _) = list(&entries, c1.as_deref(), 2);
    assert_eq!(p2, vec!["c", "d"]);
    assert_eq!(c2.as_deref(), Some("d"));
    let (p3, c3, _) = list(&entries, c2.as_deref(), 2);
    assert_eq!(p3, vec!["e"]);
    assert_eq!(c3, None);
}

#[test]
fn exact_page_has_no_cursor() {
    let entries = all(&["a", "b"]);
    let (p, c, _) = list(&entries, None, 2);
    assert_eq!(p, vec!["a", "b"]);
    assert_eq!(c, None);
}

#[test]
fn reading_stops_after_one_extra_edge() {
    let entries = all(&["a", "b", "c", "d", "e", "f"]);
    let (p, c, read) = list(&entries, None, 2);
    assert_eq!(p, vec!["a", "b"]);
    assert_eq!(c.as_deref(), Some("b"));
    // a, b, c collected; d is offered and told to stop.
    assert_eq!(read, 4);
}

#[test]
fn page_size_is_clamped() {
    let entries = all(&["a", "b", "c"]);
    let (p, c, _) = list(&entries, None, 0);
    assert_eq!(p, vec!["a"]);
    assert_eq!(c.as_deref(), Some("a"));

    let many: Vec<String> = (0..1005).map(|i| format!("e{:05}", i)).collect();
    let refs: Vec<(&str, bool)> = many.iter().map(|s| (s.as_str(), true)).collect();
    let (p, c, _) = list(&refs, None, 5000);
    assert_eq!(p.len(), MAX_EDGE_PAGE);
    assert_eq!(c.as_deref(), Some("e00999"));
}

#[test]
fn unknown_cursor_gives_empty_page() {
    let entries = all(&["a", "b", "c"]);
    let (p, c, _) = list(&entries, Some("zz"), 10);
    assert!(p.is_empty());
    assert_eq!(c, None);
}

#[test]
fn entries_without_edge_are_not_counted() {
    let entries = vec![("a", true), ("b", false), ("c", true), ("d", true), ("e", true)];
    let (p, c, _) = list(&entries, None, 2);
    assert_eq!(p, vec!["a", "c"]);
    assert_eq!(c.as_deref(), Some("c"));
    let (p, c, _) = list(&entries, Some("c"), 2);
    assert_eq!(p, vec!["d", "e"]);
    assert_eq!(c, None);
    // A cursor at an entry without edge is still passed.
    let (p, _, _) = list(&entries, Some("b"), 10);
    assert_eq!(p, vec!["c", "d", "e"]);
}
