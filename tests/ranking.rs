use ccd_pick::entry::ranks_ahead;
use ccd_pick::{DirectoryEntry, DirectorySearcher, SearchResult};

fn entry(path: &str, count: u32) -> DirectoryEntry {
    DirectoryEntry::new(path.to_string(), count)
}

fn is_ordered(v: &[DirectoryEntry]) -> bool {
    v.windows(2).all(|w| {
        w[0].count > w[1].count || (w[0].count == w[1].count && w[0].path.len() <= w[1].path.len())
    })
}

#[test]
fn sort_orders_by_count_then_length() {
    let mut v = vec![
        entry("/a/bbbb", 1),
        entry("/a/b", 1),
        entry("/long/path/here", 7),
        entry("/x", 0),
        entry("/a/bb", 3),
    ];
    DirectorySearcher::sort_directories(&mut v);
    let paths: Vec<&str> = v.iter().map(|e| e.path.as_str()).collect();
    assert_eq!(paths, vec!["/long/path/here", "/a/bb", "/a/b", "/a/bbbb", "/x"]);
}

#[test]
fn sort_adjacent_pairs_are_ordered() {
    let mut v = vec![
        entry("/p/q/r", 2),
        entry("/p", 2),
        entry("/zz", 9),
        entry("/p/q", 0),
        entry("/a", 9),
        entry("/aaaaaa", 2),
    ];
    DirectorySearcher::sort_directories(&mut v);
    assert_eq!(v.len(), 6);
    assert!(is_ordered(&v));
}

#[test]
fn sort_keeps_every_entry() {
    let mut v = vec![entry("/b", 1), entry("/a", 1), entry("/b", 1), entry("/c", 4)];
    DirectorySearcher::sort_directories(&mut v);
    let mut got: Vec<(String, u32)> = v.iter().map(|e| (e.path.clone(), e.count)).collect();
    got.sort();
    assert_eq!(
        got,
        vec![
            ("/a".to_string(), 1),
            ("/b".to_string(), 1),
            ("/b".to_string(), 1),
            ("/c".to_string(), 4)
        ]
    );
}

#[test]
fn sort_is_deterministic_on_ties() {
    let make = || vec![entry("/aa", 1), entry("/bb", 1), entry("/cc", 1)];
    let mut first = make();
    let mut second = make();
    DirectorySearcher::sort_directories(&mut first);
    DirectorySearcher::sort_directories(&mut second);
    assert_eq!(first, second);
}

#[test]
fn sort_empty_list() {
    let mut v: Vec<DirectoryEntry> = Vec::new();
    DirectorySearcher::sort_directories(&mut v);
    assert!(v.is_empty());
}

#[test]
fn length_is_measured_in_bytes() {
    // "é" takes two bytes, so "/é" is longer than "/ab" is not
    let a = entry("/é", 1);
    let b = entry("/a", 1);
    assert!(ranks_ahead(&b, &a));
    assert!(!ranks_ahead(&a, &b));
    let mut v = vec![entry("/éé", 1), entry("/abc", 1)];
    DirectorySearcher::sort_directories(&mut v);
    assert_eq!(v[0].path, "/abc");
}

#[test]
fn best_is_the_first_entry() {
    let r = SearchResult::new(vec![entry("/top", 5), entry("/next", 1)], 2);
    assert_eq!(r.best().map(|e| e.path.as_str()), Some("/top"));
    let empty = SearchResult::new(Vec::new(), 0);
    assert!(empty.best().is_none());
}
