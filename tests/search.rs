use ccd_pick::text::{contains_substring, folded_contains, text_lines};
use ccd_pick::{CddError, DirectorySearcher, FrequencyMap};

fn strings(v: &[&str]) -> Vec<String> {
    v.iter().map(|s| s.to_string()).collect()
}

fn store(pairs: &[(&str, u32)]) -> FrequencyMap {
    let mut m = FrequencyMap::new();
    for (p, c) in pairs {
        m.insert(p, *c);
    }
    m
}

#[test]
fn search_merges_index_and_store() {
    let m = store(&[("/home/x/proj", 3), ("/home/x/docs", 1)]);
    let located = strings(&["/home/x/proj", "/home/x/proj/notes.txt", "/home/x/other"]);
    let dirs = strings(&["/home/x/proj", "/home/x/other"]);
    let r = DirectorySearcher::search("pro", &located, &dirs, &m).unwrap();
    let got: Vec<(&str, u32)> = r.directories.iter().map(|e| (e.path.as_str(), e.count)).collect();
    assert_eq!(got, vec![("/home/x/proj", 3), ("/home/x/other", 0)]);
    assert_eq!(r.files_filtered, 1);
}

#[test]
fn search_with_no_matches_is_no_directories_found() {
    let m = store(&[("/home/x/docs", 1)]);
    let located: Vec<String> = Vec::new();
    let dirs = strings(&["/home/x/docs"]);
    let r = DirectorySearcher::search("zzz", &located, &dirs, &m);
    assert_eq!(r.unwrap_err(), CddError::NoDirectoriesFound);
}

#[test]
fn search_with_only_files_is_no_directories_found() {
    let m = FrequencyMap::new();
    let located = strings(&["/a/file.txt", "/b/other.txt"]);
    let dirs: Vec<String> = Vec::new();
    let r = DirectorySearcher::search("t", &located, &dirs, &m);
    assert!(matches!(r, Err(CddError::NoDirectoriesFound)));
}

#[test]
fn search_recalls_store_paths_ignoring_case() {
    let m = store(&[("/srv/MyProject", 4), ("/srv/gone", 2)]);
    let located: Vec<String> = Vec::new();
    let dirs = strings(&["/srv/MyProject"]);
    let r = DirectorySearcher::search("myproj", &located, &dirs, &m).unwrap();
    assert_eq!(r.directories.len(), 1);
    assert_eq!(r.directories[0].path, "/srv/MyProject");
    assert_eq!(r.directories[0].count, 4);
    assert_eq!(r.files_filtered, 0);
}

#[test]
fn search_drops_store_paths_that_are_not_directories() {
    let m = store(&[("/srv/proj_old", 9), ("/srv/proj", 1)]);
    let located: Vec<String> = Vec::new();
    let dirs = strings(&["/srv/proj"]);
    let r = DirectorySearcher::search("proj", &located, &dirs, &m).unwrap();
    assert_eq!(r.directories.len(), 1);
    assert_eq!(r.directories[0].path, "/srv/proj");
}

#[test]
fn search_deduplicates_paths() {
    let m = store(&[("/a/proj", 2)]);
    let located = strings(&["/a/proj", "/a/proj", "/b/proj"]);
    let dirs = strings(&["/a/proj", "/b/proj"]);
    let r = DirectorySearcher::search("proj", &located, &dirs, &m).unwrap();
    let got: Vec<(&str, u32)> = r.directories.iter().map(|e| (e.path.as_str(), e.count)).collect();
    assert_eq!(got, vec![("/a/proj", 2), ("/b/proj", 0)]);
}

#[test]
fn search_counts_every_non_directory() {
    let m = FrequencyMap::new();
    let located = strings(&["/d", "/f1", "/f2", "/f1"]);
    let dirs = strings(&["/d"]);
    let r = DirectorySearcher::search("x", &located, &dirs, &m).unwrap();
    assert_eq!(r.files_filtered, 3);
}

#[test]
fn recall_candidates_match_ignoring_case() {
    let m = store(&[("/Home/Docs", 1), ("/home/music", 2), ("/var/log", 0)]);
    let mut r = DirectorySearcher::recall_candidates("HOME", &m);
    r.sort();
    assert_eq!(r, strings(&["/Home/Docs", "/home/music"]));
}

#[test]
fn lookup_output_splits_lines() {
    let r = DirectorySearcher::parse_lookup_output("/a\n/b c\r\n/d\n");
    assert_eq!(r, strings(&["/a", "/b c", "/d"]));
    assert!(DirectorySearcher::parse_lookup_output("").is_empty());
}

#[test]
fn text_lines_keeps_inner_empty_lines() {
    assert_eq!(text_lines("a\n\nb"), strings(&["a", "", "b"]));
    assert_eq!(text_lines("\n"), strings(&[""]));
}

#[test]
fn substring_search() {
    assert!(contains_substring("/home/x/proj", "x/pr"));
    assert!(contains_substring("/home", ""));
    assert!(!contains_substring("/home", "/homes"));
    assert!(!contains_substring("/Home", "home"));
}

#[test]
fn folded_search_ignores_case() {
    assert!(folded_contains("/Home/Projects", "hOME/p"));
    assert!(!folded_contains("/Home/Projects", "docs"));
}
