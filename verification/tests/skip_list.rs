use mtr_runner::skip_list::{SkipEntry, SkipList};

fn entry(path: &str, reason: &str, ticket: Option<&str>, note: Option<&str>) -> SkipEntry {
    SkipEntry {
        path: path.to_string(),
        reason: reason.to_string(),
        ticket: ticket.map(|t| t.to_string()),
        note: note.map(|n| n.to_string()),
    }
}

#[test]
fn empty_skip_list_finds_nothing() {
    let skip = SkipList::default();
    assert!(skip.entry("tests/main/foo.test").is_none());
    let skip = SkipList::from_entries(vec![]);
    assert!(skip.entry("").is_none());
}

#[test]
fn skip_list_finds_entries_by_path() {
    let skip = SkipList::from_entries(vec![
        entry("tests/main/foo.test", "bug", Some("https://github.com/genezhang/zeta/issues/1"), Some("test note")),
        entry("tests/main/bar.test", "not-yet-implemented", Some("https://github.com/genezhang/zeta/issues/2"), Some("another test")),
    ]);
    assert!(skip.entry("tests/main/foo.test").is_some());
    assert!(skip.entry("tests/main/bar.test").is_some());
    assert!(skip.entry("tests/main/baz.test").is_none());
    assert_eq!(skip.entry("tests/main/foo.test").unwrap().reason, "bug");
    assert_eq!(skip.entry("tests/main/bar.test").unwrap().note.as_deref(), Some("another test"));
}

#[test]
fn later_entry_for_the_same_path_wins() {
    let skip = SkipList::from_entries(vec![
        entry("tests/a.test", "first", Some("t1"), None),
        entry("tests/b.test", "other", Some("t2"), None),
        entry("tests/a.test", "second", Some("t3"), Some("n")),
    ]);
    let e = skip.entry("tests/a.test").unwrap();
    assert_eq!(e.reason, "second");
    assert_eq!(e.ticket.as_deref(), Some("t3"));
    assert_eq!(skip.entry("tests/b.test").unwrap().reason, "other");
}

#[test]
fn entries_without_a_ticket_are_found() {
    let skip = SkipList::from_entries(vec![
        entry("tests/main/untracked.test", "flaky", None, None),
        entry("tests/main/tracked.test", "bug", Some("t9"), None),
    ]);
    let e = skip.entry("tests/main/untracked.test").unwrap();
    assert_eq!(e.reason, "flaky");
    assert!(e.ticket.is_none());
    assert_eq!(skip.entry("tests/main/tracked.test").unwrap().ticket.as_deref(), Some("t9"));
}
