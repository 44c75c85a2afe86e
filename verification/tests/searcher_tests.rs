use pathsearch::searcher::{begin_search, CanonEntry, SearchRequest, Searcher};

fn file(path: &str) -> Option<CanonEntry> {
    Some(CanonEntry { path: path.to_string(), is_dir: false })
}

fn dir(path: &str) -> Option<CanonEntry> {
    Some(CanonEntry { path: path.to_string(), is_dir: true })
}

#[test]
fn absent_location_short_circuits() {
    let (mut searcher, root) = begin_search(SearchRequest { location: None, guess: "x".to_string() });
    assert_eq!(root, None);
    assert_eq!(searcher.next_directory(), None);
    assert_eq!(searcher.into_results(), Vec::<String>::new());
}

#[test]
fn present_location_is_handed_back() {
    let (searcher, root) =
        begin_search(SearchRequest { location: Some("/tmp/x".to_string()), guess: "b".to_string() });
    assert_eq!(root, Some("/tmp/x".to_string()));
    assert_eq!(searcher.into_results(), Vec::<String>::new());
}

#[test]
fn full_walk_over_offered_entries() {
    let mut s = Searcher::new("b");
    s.offer(dir("/tmp/x"));
    assert_eq!(s.next_directory(), Some("/tmp/x".to_string()));
    s.offer(file("/tmp/x/a.txt"));
    s.offer(dir("/tmp/x/sub"));
    assert_eq!(s.next_directory(), Some("/tmp/x/sub".to_string()));
    s.offer(file("/tmp/x/sub/b.txt"));
    assert_eq!(s.next_directory(), None);
    assert_eq!(
        s.into_results(),
        vec!["/tmp/x/sub".to_string(), "/tmp/x/sub/b.txt".to_string()]
    );
}

#[test]
fn failed_canonicalization_is_skipped() {
    let mut s = Searcher::new(".txt");
    s.offer(dir("/tmp/x"));
    assert_eq!(s.next_directory(), Some("/tmp/x".to_string()));
    s.offer(None);
    s.offer(file("/tmp/x/b.txt"));
    assert_eq!(s.next_directory(), None);
    assert_eq!(s.into_results(), vec!["/tmp/x/b.txt".to_string()]);
}

#[test]
fn seen_path_is_not_reentered() {
    // A symlink cycle hands the walk an ancestor's canonical path again:
    // the guard refuses it, so it is neither queued nor collected twice.
    let mut s = Searcher::new("");
    s.offer(dir("/tmp/loop"));
    assert_eq!(s.next_directory(), Some("/tmp/loop".to_string()));
    s.offer(dir("/tmp/loop/sub"));
    assert_eq!(s.next_directory(), Some("/tmp/loop/sub".to_string()));
    s.offer(dir("/tmp/loop"));
    assert_eq!(s.next_directory(), None);
    assert_eq!(
        s.into_results(),
        vec!["/tmp/loop".to_string(), "/tmp/loop/sub".to_string()]
    );
}

#[test]
fn empty_path_is_not_collected() {
    let mut s = Searcher::new("");
    s.offer(file(""));
    assert_eq!(s.into_results(), Vec::<String>::new());
}

#[test]
fn only_matching_paths_are_collected() {
    let mut s = Searcher::new("sub");
    s.offer(dir("/tmp/x"));
    s.offer(file("/tmp/x/a.txt"));
    s.offer(dir("/tmp/x/sub"));
    s.offer(file("/tmp/x/sub/b.txt"));
    assert_eq!(
        s.into_results(),
        vec!["/tmp/x/sub".to_string(), "/tmp/x/sub/b.txt".to_string()]
    );
}

#[test]
fn directories_are_listed_most_recent_first() {
    let mut s = Searcher::new("");
    s.offer(dir("/a"));
    s.offer(dir("/b"));
    assert_eq!(s.next_directory(), Some("/b".to_string()));
    assert_eq!(s.next_directory(), Some("/a".to_string()));
    assert_eq!(s.next_directory(), None);
}
