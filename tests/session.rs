use ccd_pick::{
    App, CddError, DirectoryEntry, FrequencyMap, NavigationDirection, Refresh, SearchResult,
    ViewMode,
};

fn entry(path: &str, count: u32) -> DirectoryEntry {
    DirectoryEntry::new(path.to_string(), count)
}

fn app_with(entries: Vec<DirectoryEntry>) -> App {
    let mut app = App::new(FrequencyMap::new());
    app.apply_search_result(Ok(SearchResult::new(entries, 0))).unwrap();
    app
}

fn three() -> App {
    let mut app = app_with(vec![entry("/a", 0), entry("/b", 0), entry("/c", 0)]);
    app.selected = None;
    app
}

#[test]
fn next_from_unselected_selects_first() {
    let mut app = three();
    app.navigate(NavigationDirection::Next);
    assert_eq!(app.selected, Some(0));
}

#[test]
fn next_from_last_wraps_to_first() {
    let mut app = three();
    app.selected = Some(2);
    app.navigate(NavigationDirection::Next);
    assert_eq!(app.selected, Some(0));
}

#[test]
fn previous_from_first_wraps_to_last() {
    let mut app = three();
    app.selected = Some(0);
    app.navigate(NavigationDirection::Previous);
    assert_eq!(app.selected, Some(2));
}

#[test]
fn page_moves_clamp() {
    let entries: Vec<DirectoryEntry> = (0..25).map(|i| entry(&format!("/d{i}"), 0)).collect();
    let mut app = app_with(entries);
    app.navigate(NavigationDirection::PageDown);
    assert_eq!(app.selected, Some(10));
    app.navigate(NavigationDirection::PageDown);
    assert_eq!(app.selected, Some(20));
    app.navigate(NavigationDirection::PageDown);
    assert_eq!(app.selected, Some(24));
    app.navigate(NavigationDirection::PageUp);
    assert_eq!(app.selected, Some(14));
    app.navigate(NavigationDirection::PageUp);
    app.navigate(NavigationDirection::PageUp);
    assert_eq!(app.selected, Some(0));
    app.navigate(NavigationDirection::Last);
    assert_eq!(app.selected, Some(24));
    app.navigate(NavigationDirection::First);
    assert_eq!(app.selected, Some(0));
}

#[test]
fn navigate_on_empty_list_does_nothing() {
    let mut app = App::new(FrequencyMap::new());
    app.navigate(NavigationDirection::Next);
    assert_eq!(app.selected, None);
}

#[test]
fn typing_asks_for_a_search() {
    let mut app = App::new(FrequencyMap::new());
    let r = app.handle_character_input('p');
    assert_eq!(r, Refresh::Search("p".to_string()));
    let r = app.handle_character_input('r');
    assert_eq!(r, Refresh::Search("pr".to_string()));
    assert_eq!(app.input, "pr");
}

#[test]
fn backspace_to_empty_clears_list() {
    let mut app = app_with(vec![entry("/a", 1)]);
    app.input = "a".to_string();
    app.files_filtered = 3;
    let r = app.handle_backspace();
    assert_eq!(r, Refresh::Done);
    assert_eq!(app.input, "");
    assert!(app.directories.is_empty());
    assert_eq!(app.selected, None);
    assert_eq!(app.files_filtered, 0);
    let r = app.handle_backspace();
    assert_eq!(r, Refresh::Done);
    assert_eq!(app.input, "");
}

#[test]
fn search_result_selects_first_row() {
    let mut app = App::new(FrequencyMap::new());
    let ok = app.apply_search_result(Ok(SearchResult::new(vec![entry("/a", 2), entry("/b", 1)], 4)));
    assert!(ok.is_ok());
    assert_eq!(app.selected, Some(0));
    assert_eq!(app.files_filtered, 4);
}

#[test]
fn no_directories_found_empties_list() {
    let mut app = app_with(vec![entry("/a", 2)]);
    app.files_filtered = 2;
    let ok = app.apply_search_result(Err(CddError::NoDirectoriesFound));
    assert!(ok.is_ok());
    assert!(app.directories.is_empty());
    assert_eq!(app.selected, None);
    assert_eq!(app.files_filtered, 0);
}

#[test]
fn lookup_error_is_handed_back() {
    let mut app = app_with(vec![entry("/a", 2)]);
    let err = app.apply_search_result(Err(CddError::LocateCommand("missing".to_string())));
    assert_eq!(err, Err(CddError::LocateCommand("missing".to_string())));
    assert_eq!(app.directories.len(), 1);
    assert_eq!(app.selected, Some(0));
}

fn frequent_app() -> App {
    let mut m = FrequencyMap::new();
    m.insert("/home/proj", 5);
    m.insert("/home/docs", 2);
    m.insert("/home/unused", 0);
    m.insert("/home/vanished", 9);
    App::new(m)
}

#[test]
fn frequent_view_lists_used_directories() {
    let mut app = frequent_app();
    let r = app.toggle_view_mode();
    assert_eq!(r, Refresh::Frequent);
    assert_eq!(app.view_mode, ViewMode::Frequent);
    let dirs: Vec<String> = vec!["/home/proj".into(), "/home/docs".into(), "/home/unused".into()];
    app.show_frequent_directories(&dirs);
    let got: Vec<(&str, u32)> = app.directories.iter().map(|e| (e.path.as_str(), e.count)).collect();
    assert_eq!(got, vec![("/home/proj", 5), ("/home/docs", 2)]);
    assert_eq!(app.selected, Some(0));
}

#[test]
fn frequent_view_filters_by_input() {
    let mut app = frequent_app();
    app.toggle_view_mode();
    let r = app.handle_character_input('D');
    assert_eq!(r, Refresh::Frequent);
    let dirs: Vec<String> = vec!["/home/proj".into(), "/home/docs".into()];
    app.show_frequent_directories(&dirs);
    assert_eq!(app.directories.len(), 1);
    assert_eq!(app.directories[0].path, "/home/docs");
}

#[test]
fn toggle_back_to_search() {
    let mut app = frequent_app();
    app.toggle_view_mode();
    app.show_frequent_directories(&vec!["/home/proj".to_string()]);
    let r = app.toggle_view_mode();
    assert_eq!(r, Refresh::Done);
    assert_eq!(app.view_mode, ViewMode::Search);
    assert!(app.directories.is_empty());
    app.toggle_view_mode();
    app.handle_character_input('p');
    let r = app.toggle_view_mode();
    assert_eq!(r, Refresh::Search("p".to_string()));
}

#[test]
fn reset_in_frequent_view_removes_row() {
    let mut app = frequent_app();
    app.toggle_view_mode();
    let dirs: Vec<String> = vec!["/home/proj".into(), "/home/docs".into()];
    app.show_frequent_directories(&dirs);
    app.navigate(NavigationDirection::Last);
    assert!(app.reset_frequency());
    assert_eq!(app.directories.len(), 1);
    assert_eq!(app.selected, Some(0));
    assert_eq!(app.frequency_map.get("/home/docs"), None);
    assert_eq!(app.frequency_map.get("/home/proj"), Some(5));
    assert!(app.reset_frequency());
    assert!(app.directories.is_empty());
    assert_eq!(app.selected, None);
    assert!(!app.reset_frequency());
}

#[test]
fn reset_in_search_view_zeroes_and_reranks() {
    let mut m = FrequencyMap::new();
    m.insert("/a/top", 5);
    m.insert("/b", 1);
    let mut app = App::new(m);
    app.apply_search_result(Ok(SearchResult::new(vec![entry("/a/top", 5), entry("/b", 1), entry("/cc", 0)], 0)))
        .unwrap();
    assert!(app.reset_frequency());
    let got: Vec<(&str, u32)> = app.directories.iter().map(|e| (e.path.as_str(), e.count)).collect();
    assert_eq!(got, vec![("/b", 1), ("/cc", 0), ("/a/top", 0)]);
    assert_eq!(app.selected, Some(2));
    assert_eq!(app.frequency_map.get("/a/top"), None);
}

#[test]
fn confirm_needs_a_selection() {
    let mut app = App::new(FrequencyMap::new());
    app.confirm_selection();
    assert!(!app.should_quit);
    assert!(!app.user_selected);
    let mut app = app_with(vec![entry("/a", 0)]);
    app.confirm_selection();
    assert!(app.should_quit);
    assert!(app.user_selected);
    assert_eq!(app.get_selected_directory().map(|s| s.as_str()), Some("/a"));
}

#[test]
fn quit_ends_without_selection() {
    let mut app = app_with(vec![entry("/a", 0)]);
    app.quit();
    assert!(app.should_quit);
    assert!(!app.user_selected);
}
