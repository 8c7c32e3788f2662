use ccd_pick::{bookmark_current_directory, BookmarkOutcome, FrequencyManager, FrequencyMap};

#[test]
fn load_reads_well_formed_lines() {
    let m = FrequencyManager::load("3\t/home/x/proj\n1\t/home/x/docs\n");
    assert_eq!(m.get("/home/x/proj"), Some(3));
    assert_eq!(m.get("/home/x/docs"), Some(1));
    assert_eq!(m.entries().len(), 2);
}

#[test]
fn load_skips_malformed_lines() {
    let text = "abc\t/bad/count\nno tab here\n\t/empty/count\n-1\t/negative\n99999999999\t/too/big\n+4\t/plus\n7\t/ok\n";
    let m = FrequencyManager::load(text);
    assert_eq!(m.get("/bad/count"), None);
    assert_eq!(m.get("/empty/count"), None);
    assert_eq!(m.get("/negative"), None);
    assert_eq!(m.get("/too/big"), None);
    assert_eq!(m.get("/plus"), Some(4));
    assert_eq!(m.get("/ok"), Some(7));
    assert_eq!(m.entries().len(), 2);
}

#[test]
fn load_empty_text_gives_empty_store() {
    let m = FrequencyManager::load("");
    assert!(m.entries().is_empty());
}

#[test]
fn load_handles_crlf_and_missing_final_newline() {
    let m = FrequencyManager::load("2\t/a\r\n5\t/b");
    assert_eq!(m.get("/a"), Some(2));
    assert_eq!(m.get("/b"), Some(5));
}

#[test]
fn load_later_line_wins() {
    let m = FrequencyManager::load("2\t/a\n9\t/a\n");
    assert_eq!(m.get("/a"), Some(9));
    assert_eq!(m.entries().len(), 1);
}

#[test]
fn load_splits_at_first_tab_only() {
    let m = FrequencyManager::load("4\t/with\ttab\n");
    assert_eq!(m.get("/with\ttab"), Some(4));
}

#[test]
fn save_writes_count_tab_path_lines() {
    let mut m = FrequencyMap::new();
    m.insert("/home/x/proj", 3);
    assert_eq!(FrequencyManager::save(&m), "3\t/home/x/proj\n");
    m.insert("/z", 4294967295);
    let text = FrequencyManager::save(&m);
    assert!(text.contains("4294967295\t/z\n"));
    assert!(text.contains("3\t/home/x/proj\n"));
    assert_eq!(text.lines().count(), 2);
}

#[test]
fn save_load_save_round_trip() {
    let mut m = FrequencyMap::new();
    m.insert("/home/x/proj", 3);
    m.insert("/home/x/docs", 1);
    m.insert("/tmp/zero", 0);
    m.insert("/ünï/cödé", 120);
    let first = FrequencyManager::save(&m);
    let loaded = FrequencyManager::load(&first);
    for e in m.entries() {
        assert_eq!(loaded.get(&e.path), Some(e.count));
    }
    assert_eq!(loaded.entries().len(), m.entries().len());
    let second = FrequencyManager::save(&loaded);
    let again = FrequencyManager::load(&second);
    assert_eq!(again.entries().len(), 4);
    assert_eq!(again.get("/ünï/cödé"), Some(120));
    assert_eq!(again.get("/tmp/zero"), Some(0));
}

#[test]
fn increment_new_and_existing() {
    let mut m = FrequencyMap::new();
    FrequencyManager::increment(&mut m, "/a");
    assert_eq!(m.get("/a"), Some(1));
    FrequencyManager::increment(&mut m, "/a");
    assert_eq!(m.get("/a"), Some(2));
}

#[test]
fn increment_saturates_at_max() {
    let mut m = FrequencyMap::new();
    m.insert("/a", u32::MAX);
    FrequencyManager::increment(&mut m, "/a");
    assert_eq!(m.get("/a"), Some(u32::MAX));
}

#[test]
fn reset_twice_is_same_as_once() {
    let mut m = FrequencyManager::load("3\t/a\n2\t/b\n");
    m.remove("/a");
    let once = FrequencyManager::save(&m);
    m.remove("/a");
    let twice = FrequencyManager::save(&m);
    assert_eq!(once, twice);
    assert_eq!(m.get("/a"), None);
    assert_eq!(m.get("/b"), Some(2));
}

#[test]
fn bookmark_existing_keeps_count() {
    let mut m = FrequencyMap::new();
    m.insert("/work", 5);
    let r = bookmark_current_directory(&mut m, "/work");
    assert_eq!(r, BookmarkOutcome::AlreadyBookmarked);
    assert_eq!(m.get("/work"), Some(5));
}

#[test]
fn bookmark_new_sets_one() {
    let mut m = FrequencyMap::new();
    m.insert("/work", 5);
    let r = bookmark_current_directory(&mut m, "/fresh");
    assert_eq!(r, BookmarkOutcome::Added);
    assert_eq!(m.get("/fresh"), Some(1));
    assert_eq!(m.get("/work"), Some(5));
}
