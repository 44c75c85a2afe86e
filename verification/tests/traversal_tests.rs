use pathsearch::traversal::{search, FsEntry, FsModel};

fn entry(path: &str, is_dir: bool, children: Vec<usize>) -> FsEntry {
    FsEntry { path: path.to_string(), is_dir, children, resolvable: true }
}

fn sample_tree() -> FsModel {
    // /tmp/x holds a.txt and sub; sub holds b.txt.
    FsModel {
        entries: vec![
            entry("/tmp/x", true, vec![1, 2]),
            entry("/tmp/x/a.txt", false, vec![]),
            entry("/tmp/x/sub", true, vec![3]),
            entry("/tmp/x/sub/b.txt", false, vec![]),
        ],
    }
}

#[test]
fn no_root_yields_empty() {
    let fs = sample_tree();
    let r = search(&fs, None, "x");
    assert_eq!(r, Vec::<String>::new());
    let r = search(&fs, None, "");
    assert_eq!(r, Vec::<String>::new());
}

#[test]
fn query_b_in_sample_tree() {
    // Both /tmp/x/sub and /tmp/x/sub/b.txt contain "b"; siblings pushed
    // together are visited last-listed first.
    let fs = sample_tree();
    let r = search(&fs, Some(0), "b");
    assert_eq!(r, vec!["/tmp/x/sub".to_string(), "/tmp/x/sub/b.txt".to_string()]);
}

#[test]
fn query_names_a_single_file() {
    let fs = sample_tree();
    let r = search(&fs, Some(0), "b.txt");
    assert_eq!(r, vec!["/tmp/x/sub/b.txt".to_string()]);
}

#[test]
fn empty_directory_matches_nothing() {
    let fs = FsModel { entries: vec![entry("/tmp/empty", true, vec![])] };
    let r = search(&fs, Some(0), "anything");
    assert_eq!(r, Vec::<String>::new());
}

#[test]
fn empty_query_returns_every_reachable_path() {
    let fs = sample_tree();
    let r = search(&fs, Some(0), "");
    assert_eq!(r.len(), 4);
    assert!(r.contains(&"/tmp/x".to_string()));
    assert!(r.contains(&"/tmp/x/a.txt".to_string()));
    assert!(r.contains(&"/tmp/x/sub".to_string()));
    assert!(r.contains(&"/tmp/x/sub/b.txt".to_string()));
}

#[test]
fn search_is_repeatable() {
    let fs = sample_tree();
    let first = search(&fs, Some(0), "t");
    let second = search(&fs, Some(0), "t");
    assert_eq!(first, second);
}

#[test]
fn every_result_contains_the_query() {
    let fs = sample_tree();
    for query in ["", "t", "tmp", "sub", "b", ".txt", "zzz"] {
        for path in search(&fs, Some(0), query) {
            assert!(path.contains(query));
        }
    }
}

#[test]
fn symlink_cycle_terminates_with_finite_result() {
    // A symlink inside /tmp/loop/sub points back at its ancestor: the
    // child edge of node 1 leads back to node 0. The walk still ends and
    // yields each canonical path once.
    let fs = FsModel {
        entries: vec![
            entry("/tmp/loop", true, vec![1]),
            entry("/tmp/loop/sub", true, vec![0]),
        ],
    };
    let r = search(&fs, Some(0), "");
    assert_eq!(r, vec!["/tmp/loop".to_string(), "/tmp/loop/sub".to_string()]);
}

#[test]
fn self_link_terminates() {
    // A directory whose listing yields itself again.
    let fs = FsModel { entries: vec![entry("/tmp/self", true, vec![0])] };
    let r = search(&fs, Some(0), "self");
    assert_eq!(r, vec!["/tmp/self".to_string()]);
}

#[test]
fn entry_deleted_mid_walk_is_omitted() {
    // a.txt disappears between listing and canonicalization: it no longer
    // resolves, is skipped, and the remaining matches are still returned.
    let mut fs = sample_tree();
    fs.entries[1].resolvable = false;
    let r = search(&fs, Some(0), ".txt");
    assert_eq!(r, vec!["/tmp/x/sub/b.txt".to_string()]);
}

#[test]
fn unresolvable_directory_is_not_descended_into() {
    let mut fs = sample_tree();
    fs.entries[2].resolvable = false;
    let r = search(&fs, Some(0), "");
    assert_eq!(r, vec!["/tmp/x".to_string(), "/tmp/x/a.txt".to_string()]);
}

#[test]
fn empty_canonical_path_is_dropped() {
    let fs = FsModel {
        entries: vec![entry("/tmp/x", true, vec![1]), entry("", false, vec![])],
    };
    let r = search(&fs, Some(0), "");
    assert_eq!(r, vec!["/tmp/x".to_string()]);
}

#[test]
fn shared_subdirectory_is_listed_once() {
    // Two directories both list node 3 (a symlink alias): its path shows
    // up once, not twice.
    let fs = FsModel {
        entries: vec![
            entry("/tmp/x", true, vec![1, 2]),
            entry("/tmp/x/d1", true, vec![3]),
            entry("/tmp/x/d2", true, vec![3]),
            entry("/tmp/x/d1/shared", true, vec![]),
        ],
    };
    let r = search(&fs, Some(0), "");
    assert_eq!(r.len(), 4);
    assert_eq!(r.iter().filter(|p| p.as_str() == "/tmp/x/d1/shared").count(), 1);
}
