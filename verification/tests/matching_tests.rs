use pathsearch::greet;
use pathsearch::matching::str_contains;

#[test]
fn empty_needle_matches_everything() {
    assert!(str_contains("", ""));
    assert!(str_contains("a", ""));
    assert!(str_contains("/tmp/x/sub/b.txt", ""));
}

#[test]
fn needle_longer_than_hay_never_matches() {
    assert!(!str_contains("", "a"));
    assert!(!str_contains("ab", "abc"));
}

#[test]
fn exact_and_partial_matches() {
    assert!(str_contains("abc", "abc"));
    assert!(str_contains("abc", "a"));
    assert!(str_contains("abc", "b"));
    assert!(str_contains("abc", "c"));
    assert!(str_contains("abc", "ab"));
    assert!(str_contains("abc", "bc"));
    assert!(!str_contains("abc", "ac"));
    assert!(!str_contains("abc", "d"));
}

#[test]
fn repeated_prefix_backtracking() {
    assert!(str_contains("aaab", "aab"));
    assert!(!str_contains("aab", "aaab"));
    assert!(str_contains("abababc", "ababc"));
}

#[test]
fn matching_is_case_sensitive() {
    assert!(!str_contains("/tmp/Sub", "sub"));
    assert!(str_contains("/tmp/Sub", "Sub"));
}

#[test]
fn matching_is_character_exact_beyond_ascii() {
    assert!(str_contains("/home/café/notes", "café"));
    assert!(!str_contains("/home/cafe/notes", "café"));
}

#[test]
fn greet_builds_the_greeting() {
    assert_eq!(greet("Verus"), "Hello, Verus!");
    assert_eq!(greet(""), "Hello, !");
}
