//! The interactive picker's state machine. Each input event changes the
//! state; where the change needs outside work (a lookup in the path index, a
//! probe of which paths are directories), the event returns a `Refresh` that
//! says which, and the caller hands the outcome back.

use vstd::prelude::*;
use crate::entry::{DirectoryEntry, DirectorySearcher, SearchResult, entry_views, is_ranked};
use crate::error::CddError;
use crate::search::{count_of, lemma_reordered, member, paths_of};
use crate::store::{FrequencyMap, keys_distinct, lists};
use crate::text::{folded_contains, folded_match, pop_char, push_char, views};

verus! {

broadcast use vstd::seq_lib::group_to_multiset_ensures;

/// How far a page move goes.
pub const PAGE_SIZE: usize = 10;

/// What the list shows: a live search of the path index, or the directories
/// of the usage store.
#[derive(Debug, Clone, Copy, PartialEq, Eq)]
pub enum ViewMode {
    Search,
    Frequent,
}

#[derive(Debug, Clone, Copy)]
pub enum NavigationDirection {
    Next,
    Previous,
    PageUp,
    PageDown,
    First,
    Last,
}

/// The outside work that an event leaves to do.
#[derive(Debug, Clone, PartialEq, Eq)]
pub enum Refresh {
    /// Nothing: the state is complete.
    Done,
    /// Search the path index for this pattern and hand the outcome to
    /// `apply_search_result`.
    Search(String),
    /// Probe which of the store's paths are directories and hand them to
    /// `show_frequent_directories`.
    Frequent,
}

/// The state of one interactive session.
pub struct App {
    pub input: String,
    pub directories: Vec<DirectoryEntry>,
    pub selected: Option<usize>,
    pub should_quit: bool,
    pub user_selected: bool,
    pub frequency_map: FrequencyMap,
    pub view_mode: ViewMode,
    pub files_filtered: usize,
}

/// The selected row after a move, on a list of `len` rows (`len > 0`): next
/// and previous wrap around, page moves and first/last stay inside the list.
pub open spec fn moved_index(direction: NavigationDirection, selected: Option<usize>, len: int) -> int {
    match direction {
        NavigationDirection::Next => match selected {
            Some(i) => if i >= len - 1 { 0 } else { i + 1 },
            None => 0,
        },
        NavigationDirection::Previous => match selected {
            Some(i) => if i == 0 { len - 1 } else { i - 1 },
            None => 0,
        },
        NavigationDirection::PageUp => match selected {
            Some(i) => if i >= PAGE_SIZE { i - PAGE_SIZE } else { 0 },
            None => 0,
        },
        NavigationDirection::PageDown => match selected {
            Some(i) => if i + PAGE_SIZE >= len { len - 1 } else { i + PAGE_SIZE },
            None => 0,
        },
        NavigationDirection::First => 0,
        NavigationDirection::Last => len - 1,
    }
}

/// The selection that a fresh list of `len` rows starts with.
pub open spec fn first_selection(len: int) -> Option<usize> {
    if len > 0 { Some(0usize) } else { None }
}

/// `t` is `s` after the list was brought up to date for `t`'s view and input,
/// as far as no outside work was needed, with `r` the work left.
pub open spec fn refreshed(s: App, t: App, r: Refresh) -> bool {
    &&& t.frequency_map == s.frequency_map
    &&& t.should_quit == s.should_quit
    &&& t.user_selected == s.user_selected
    &&& if t.view_mode == ViewMode::Search && t.input@.len() == 0 {
        &&& r == Refresh::Done
        &&& t.directories@.len() == 0
        &&& t.selected is None
        &&& t.files_filtered == 0
    } else {
        &&& t.directories == s.directories
        &&& t.selected == s.selected
        &&& t.files_filtered == s.files_filtered
        &&& t.view_mode == ViewMode::Search ==> (match r {
            Refresh::Search(q) => q@ == t.input@,
            _ => false,
        })
        &&& t.view_mode == ViewMode::Frequent ==> r == Refresh::Frequent
    }
}

/// `p` belongs in the frequent view: the store counts it above zero, it is a
/// directory, and it contains the input (ignoring case) unless that is empty.
pub open spec fn frequent_listed(
    m: Map<Seq<char>, u32>,
    dirs: Seq<Seq<char>>,
    input: Seq<char>,
    p: Seq<char>,
) -> bool {
    &&& m.contains_key(p)
    &&& m[p] > 0
    &&& dirs.contains(p)
    &&& (input.len() == 0 || folded_match(input, p))
}

impl App {
    /// The selection lies inside the list, and the store is well formed.
    pub open spec fn wf(&self) -> bool {
        &&& self.frequency_map.wf()
        &&& match self.selected {
            Some(i) => i < self.directories.len(),
            None => true,
        }
    }

    /// A session in the search view with empty input and nothing selected.
    pub fn new(frequency_map: FrequencyMap) -> (r: Self)
        requires
            frequency_map.wf(),
        ensures
            r.wf(),
            r.input@.len() == 0,
            r.directories@.len() == 0,
            r.selected is None,
            !r.should_quit,
            !r.user_selected,
            r.frequency_map == frequency_map,
            r.view_mode == ViewMode::Search,
            r.files_filtered == 0,
    {
        App {
            input: String::new(),
            directories: Vec::new(),
            selected: None,
            should_quit: false,
            user_selected: false,
            frequency_map,
            view_mode: ViewMode::Search,
            files_filtered: 0,
        }
    }

    /// Brings the search view up to date: an empty input clears the list,
    /// any other asks for a search of the index.
    fn search_directories(&mut self) -> (r: Refresh)
        requires
            old(self).wf(),
            old(self).view_mode == ViewMode::Search,
        ensures
            final(self).wf(),
            final(self).input == old(self).input,
            final(self).view_mode == old(self).view_mode,
            refreshed(*old(self), *final(self), r),
    {
        if self.input.as_str().is_empty() {
            self.directories = Vec::new();
            self.files_filtered = 0;
            self.selected = None;
            Refresh::Done
        } else {
            Refresh::Search(self.input.clone())
        }
    }

    fn refresh(&mut self) -> (r: Refresh)
        requires
            old(self).wf(),
        ensures
            final(self).wf(),
            final(self).input == old(self).input,
            final(self).view_mode == old(self).view_mode,
            refreshed(*old(self), *final(self), r),
    {
        match self.view_mode {
            ViewMode::Search => self.search_directories(),
            ViewMode::Frequent => Refresh::Frequent,
        }
    }

    /// Takes in the outcome of the search that `Refresh::Search` asked for.
    /// Finding no directory empties the list; another error leaves the state
    /// as it was and is handed back.
    pub fn apply_search_result(&mut self, outcome: Result<SearchResult, CddError>) -> (r: Result<(), CddError>)
        requires
            old(self).wf(),
        ensures
            final(self).wf(),
            final(self).input == old(self).input,
            final(self).view_mode == old(self).view_mode,
            final(self).frequency_map == old(self).frequency_map,
            final(self).should_quit == old(self).should_quit,
            final(self).user_selected == old(self).user_selected,
            match outcome {
                Ok(res) => {
                    &&& r is Ok
                    &&& final(self).directories == res.directories
                    &&& final(self).files_filtered == res.files_filtered
                    &&& final(self).selected == first_selection(res.directories.len() as int)
                },
                Err(CddError::NoDirectoriesFound) => {
                    &&& r is Ok
                    &&& final(self).directories@.len() == 0
                    &&& final(self).files_filtered == 0
                    &&& final(self).selected is None
                },
                Err(e) => r == Err::<(), CddError>(e) && *final(self) == *old(self),
            },
    {
        match outcome {
            Ok(res) => {
                self.directories = res.directories;
                self.files_filtered = res.files_filtered;
            },
            Err(CddError::NoDirectoriesFound) => {
                self.directories = Vec::new();
                self.files_filtered = 0;
            },
            Err(e) => {
                return Err(e);
            },
        }
        if self.directories.len() > 0 {
            self.selected = Some(0);
        } else {
            self.selected = None;
        }
        Ok(())
    }

    /// Fills the frequent view: the store's paths with a count above zero
    /// that are among `directories` (what the file system reports as
    /// directories) and contain the input, ignoring case, each once with its
    /// count, ranked; the first row is selected.
    pub fn show_frequent_directories(&mut self, directories: &Vec<String>)
        requires
            old(self).wf(),
        ensures
            final(self).wf(),
            final(self).input == old(self).input,
            final(self).view_mode == old(self).view_mode,
            final(self).frequency_map == old(self).frequency_map,
            final(self).should_quit == old(self).should_quit,
            final(self).user_selected == old(self).user_selected,
            final(self).files_filtered == old(self).files_filtered,
            is_ranked(entry_views(final(self).directories@)),
            keys_distinct(entry_views(final(self).directories@)),
            forall|i: int|
                0 <= i < final(self).directories.len() ==> (#[trigger] final(self).directories@[i]).count
                    == old(self).frequency_map@[final(self).directories@[i].path@],
            forall|p: Seq<char>|
                #[trigger] paths_of(entry_views(final(self).directories@)).contains(p) <==> frequent_listed(
                    old(self).frequency_map@,
                    views(directories@),
                    old(self).input@,
                    p,
                ),
            final(self).selected == first_selection(final(self).directories.len() as int),
    {
        let ghost m = self.frequency_map@;
        let ghost d = views(directories@);
        let entries = self.frequency_map.entries();
        let filter = !self.input.as_str().is_empty();
        let mut built: Vec<DirectoryEntry> = Vec::new();
        let mut j: usize = 0;
        while j < entries.len()
            invariant
                lists(m, entry_views(entries@)),
                d == views(directories@),
                filter == (self.input@.len() > 0),
                j <= entries.len(),
                paths_of(entry_views(built@)).no_duplicates(),
                forall|a: int| 0 <= a < built.len() ==> exists|k: int| 0 <= k < j && entries@[k]@ == (#[trigger] built@[a])@,
                forall|a: int| 0 <= a < built.len() ==> frequent_listed(m, d, self.input@, (#[trigger] built@[a]).path@),
                forall|k: int| 0 <= k < j && frequent_listed(m, d, self.input@, (#[trigger] entries@[k]).path@)
                    ==> paths_of(entry_views(built@)).contains(entries@[k].path@),
            decreases entries.len() - j,
        {
            let ghost before = built@;
            let ghost e = entries@[j as int];
            assert(entry_views(entries@)[j as int] == e@);
            let keep = entries[j].count > 0 && member(directories, &entries[j].path) && (!filter
                || folded_contains(entries[j].path.as_str(), self.input.as_str()));
            if keep {
                built.push(DirectoryEntry::new(entries[j].path.clone(), entries[j].count));
                assert(paths_of(entry_views(built@)) =~= paths_of(entry_views(before)).push(e.path@));
                assert forall|a: int| 0 <= a < before.len() implies paths_of(entry_views(before))[a] != e.path@ by {
                    let k = choose|k: int| 0 <= k < j && entries@[k]@ == (#[trigger] before[a])@;
                    assert(entry_views(entries@)[k].0 != entry_views(entries@)[j as int].0);
                    assert(paths_of(entry_views(before))[a] == before[a].path@);
                }
                assert(paths_of(entry_views(built@))[before.len() as int] == e.path@);
                assert(built@[before.len() as int]@ == e@);
            }
            assert(frequent_listed(m, d, self.input@, e.path@) == keep);
            assert forall|a: int| 0 <= a < built.len() implies exists|k: int| 0 <= k < j + 1 && entries@[k]@ == (#[trigger] built@[a])@ by {
                if a < before.len() {
                    assert(built@[a] == before[a]);
                    let k = choose|k: int| 0 <= k < j && entries@[k]@ == (#[trigger] before[a])@;
                }
            }
            assert forall|a: int| 0 <= a < before.len() implies paths_of(entry_views(built@)).contains(#[trigger] paths_of(entry_views(before))[a]) by {
                assert(paths_of(entry_views(built@))[a] == paths_of(entry_views(before))[a]);
            }
            assert forall|k: int| 0 <= k < j + 1 && frequent_listed(m, d, self.input@, (#[trigger] entries@[k]).path@)
                implies paths_of(entry_views(built@)).contains(entries@[k].path@) by {
                if k < j {
                    let a = choose|a: int| 0 <= a < paths_of(entry_views(before)).len() && paths_of(entry_views(before))[a] == entries@[k].path@;
                    assert(paths_of(entry_views(built@))[a] == entries@[k].path@);
                } else {
                    assert(paths_of(entry_views(built@))[before.len() as int] == e.path@);
                }
            }
            j += 1;
        }
        let ghost built_view = entry_views(built@);
        let ghost unsorted = built@;
        proof {
            assert forall|a: int| 0 <= a < built_view.len() implies (#[trigger] built_view[a]).1 == count_of(m, built_view[a].0) by {
                let k = choose|k: int| 0 <= k < j && entries@[k]@ == (#[trigger] built@[a])@;
                assert(entry_views(entries@)[k] == entries@[k]@);
            }
        }
        DirectorySearcher::sort_directories(&mut built);
        proof {
            lemma_reordered(built_view, entry_views(built@), m);
            assert forall|p: Seq<char>| #[trigger] paths_of(built_view).contains(p) <==> frequent_listed(m, d, self.input@, p) by {
                if paths_of(built_view).contains(p) {
                    let a = choose|a: int| 0 <= a < paths_of(built_view).len() && paths_of(built_view)[a] == p;
                    assert(built_view[a].0 == unsorted[a].path@);
                }
                if frequent_listed(m, d, self.input@, p) {
                    let k = choose|k: int| 0 <= k < entry_views(entries@).len() && entry_views(entries@)[k].0 == p;
                    assert(entries@[k].path@ == p);
                }
            }
            assert forall|i: int| 0 <= i < built.len() implies (#[trigger] built@[i]).count == m[built@[i].path@] by {
                assert(entry_views(built@)[i] == built@[i]@);
                assert(paths_of(entry_views(built@))[i] == built@[i].path@);
                assert(paths_of(entry_views(built@)).contains(built@[i].path@));
            }
        }
        self.directories = built;
        if self.directories.len() > 0 {
            self.selected = Some(0);
        } else {
            self.selected = None;
        }
    }

    /// Adds a character to the input and brings the list up to date.
    pub fn handle_character_input(&mut self, c: char) -> (r: Refresh)
        requires
            old(self).wf(),
        ensures
            final(self).wf(),
            final(self).input@ == old(self).input@.push(c),
            final(self).view_mode == old(self).view_mode,
            refreshed(*old(self), *final(self), r),
    {
        push_char(&mut self.input, c);
        self.refresh()
    }

    /// Removes the input's last character, if any, and brings the list up to
    /// date.
    pub fn handle_backspace(&mut self) -> (r: Refresh)
        requires
            old(self).wf(),
        ensures
            final(self).wf(),
            final(self).input@ == (if old(self).input@.len() > 0 {
                old(self).input@.drop_last()
            } else {
                old(self).input@
            }),
            final(self).view_mode == old(self).view_mode,
            refreshed(*old(self), *final(self), r),
    {
        let _ = pop_char(&mut self.input);
        self.refresh()
    }

    /// Switches between the search view and the frequent view. Back in the
    /// search view, an empty input clears the list and any other asks for a
    /// search again.
    pub fn toggle_view_mode(&mut self) -> (r: Refresh)
        requires
            old(self).wf(),
        ensures
            final(self).wf(),
            final(self).input == old(self).input,
            final(self).view_mode == (match old(self).view_mode {
                ViewMode::Search => ViewMode::Frequent,
                ViewMode::Frequent => ViewMode::Search,
            }),
            refreshed(*old(self), *final(self), r),
    {
        self.view_mode = match self.view_mode {
            ViewMode::Search => ViewMode::Frequent,
            ViewMode::Frequent => ViewMode::Search,
        };
        self.refresh()
    }

    /// The row after `Next`: the one below, wrapping to the first.
    pub fn calculate_next_index(&self) -> (r: usize)
        requires
            self.directories.len() > 0,
        ensures
            r == moved_index(NavigationDirection::Next, self.selected, self.directories.len() as int),
    {
        match self.selected {
            Some(i) => if i >= self.directories.len() - 1 { 0 } else { i + 1 },
            None => 0,
        }
    }

    /// The row after `Previous`: the one above, wrapping to the last.
    pub fn calculate_previous_index(&self) -> (r: usize)
        requires
            self.directories.len() > 0,
        ensures
            r == moved_index(NavigationDirection::Previous, self.selected, self.directories.len() as int),
    {
        match self.selected {
            Some(i) => if i == 0 { self.directories.len() - 1 } else { i - 1 },
            None => 0,
        }
    }

    /// The row after `PageUp`: a page above, or the first.
    pub fn calculate_page_up_index(&self) -> (r: usize)
        ensures
            r == moved_index(NavigationDirection::PageUp, self.selected, self.directories.len() as int),
    {
        match self.selected {
            Some(i) => if i >= PAGE_SIZE { i - PAGE_SIZE } else { 0 },
            None => 0,
        }
    }

    /// The row after `PageDown`: a page below, or the last.
    pub fn calculate_page_down_index(&self) -> (r: usize)
        requires
            self.wf(),
            self.directories.len() > 0,
        ensures
            r == moved_index(NavigationDirection::PageDown, self.selected, self.directories.len() as int),
    {
        match self.selected {
            Some(i) => {
                if self.directories.len() - i <= PAGE_SIZE {
                    self.directories.len() - 1
                } else {
                    i + PAGE_SIZE
                }
            },
            None => 0,
        }
    }

    /// Moves the selection; on an empty list nothing changes.
    pub fn navigate(&mut self, direction: NavigationDirection)
        requires
            old(self).wf(),
        ensures
            final(self).wf(),
            old(self).directories.len() == 0 ==> *final(self) == *old(self),
            old(self).directories.len() > 0 ==> final(self).selected == Some(
                moved_index(direction, old(self).selected, old(self).directories.len() as int) as usize,
            ),
            final(self).directories == old(self).directories,
            final(self).input == old(self).input,
            final(self).view_mode == old(self).view_mode,
            final(self).frequency_map == old(self).frequency_map,
            final(self).should_quit == old(self).should_quit,
            final(self).user_selected == old(self).user_selected,
            final(self).files_filtered == old(self).files_filtered,
    {
        if self.directories.len() == 0 {
            return;
        }
        let new_index = match direction {
            NavigationDirection::Next => self.calculate_next_index(),
            NavigationDirection::Previous => self.calculate_previous_index(),
            NavigationDirection::PageUp => self.calculate_page_up_index(),
            NavigationDirection::PageDown => self.calculate_page_down_index(),
            NavigationDirection::First => 0,
            NavigationDirection::Last => self.directories.len() - 1,
        };
        self.selected = Some(new_index);
    }

    /// The path of the selected row.
    pub fn get_selected_directory(&self) -> (r: Option<&String>)
        requires
            self.wf(),
        ensures
            match self.selected {
                Some(i) => r == Some(&self.directories@[i as int].path),
                None => r is None,
            },
    {
        match self.selected {
            Some(i) => Some(&self.directories[i].path),
            None => None,
        }
    }

    /// Confirms the selected row, which ends the session with a choice; with
    /// nothing selected nothing happens.
    pub fn confirm_selection(&mut self)
        requires
            old(self).wf(),
        ensures
            final(self).wf(),
            old(self).selected is Some ==> final(self).user_selected && final(self).should_quit,
            old(self).selected is None ==> final(self).user_selected == old(self).user_selected
                && final(self).should_quit == old(self).should_quit,
            final(self).selected == old(self).selected,
            final(self).directories == old(self).directories,
            final(self).input == old(self).input,
            final(self).view_mode == old(self).view_mode,
            final(self).frequency_map == old(self).frequency_map,
            final(self).files_filtered == old(self).files_filtered,
    {
        if self.selected.is_some() {
            self.user_selected = true;
            self.should_quit = true;
        }
    }

    /// Ends the session without a choice.
    pub fn quit(&mut self)
        requires
            old(self).wf(),
        ensures
            final(self).wf(),
            final(self).should_quit,
            final(self).user_selected == old(self).user_selected,
            final(self).selected == old(self).selected,
            final(self).directories == old(self).directories,
            final(self).input == old(self).input,
            final(self).view_mode == old(self).view_mode,
            final(self).frequency_map == old(self).frequency_map,
            final(self).files_filtered == old(self).files_filtered,
    {
        self.should_quit = true;
    }

    /// Clears the usage count of the selected row's path from the store.
    /// In the frequent view the row leaves the list and the selection stays
    /// at its place (or the new last row); in the search view the row stays
    /// with a count of 0, the list is ranked again and the selection follows
    /// the row. Returns whether a row was selected, that is, whether the
    /// store changed and is to be saved.
    pub fn reset_frequency(&mut self) -> (r: bool)
        requires
            old(self).wf(),
        ensures
            final(self).wf(),
            final(self).input == old(self).input,
            final(self).view_mode == old(self).view_mode,
            final(self).should_quit == old(self).should_quit,
            final(self).user_selected == old(self).user_selected,
            final(self).files_filtered == old(self).files_filtered,
            match old(self).selected {
                None => !r && *final(self) == *old(self),
                Some(i) => {
                    let p = old(self).directories@[i as int].path@;
                    let len = final(self).directories.len();
                    &&& r
                    &&& final(self).frequency_map@ == old(self).frequency_map@.remove(p)
                    &&& old(self).view_mode == ViewMode::Frequent ==> {
                        &&& final(self).directories@ == old(self).directories@.remove(i as int)
                        &&& final(self).selected == (if len == 0 {
                            None
                        } else if i >= len {
                            Some((len - 1) as usize)
                        } else {
                            Some(i)
                        })
                    }
                    &&& old(self).view_mode == ViewMode::Search ==> {
                        &&& entry_views(final(self).directories@).to_multiset() == entry_views(
                            old(self).directories@,
                        ).update(i as int, (p, 0u32)).to_multiset()
                        &&& is_ranked(entry_views(final(self).directories@))
                        &&& match final(self).selected {
                            Some(j) => final(self).directories@[j as int].path@ == p && forall|k: int|
                                0 <= k < j ==> (#[trigger] final(self).directories@[k]).path@ != p,
                            None => false,
                        }
                    }
                },
            },
    {
        let i = match self.selected {
            Some(i) => i,
            None => {
                return false;
            },
        };
        let path = self.directories[i].path.clone();
        self.frequency_map.remove(path.as_str());
        match self.view_mode {
            ViewMode::Frequent => {
                self.directories.remove(i);
                if self.directories.len() == 0 {
                    self.selected = None;
                } else if i >= self.directories.len() {
                    self.selected = Some(self.directories.len() - 1);
                } else {
                    self.selected = Some(i);
                }
            },
            ViewMode::Search => {
                let ghost updated = entry_views(self.directories@).update(i as int, (path@, 0u32));
                self.directories.set(i, DirectoryEntry::new(path.clone(), 0));
                assert(entry_views(self.directories@) =~= updated);
                DirectorySearcher::sort_directories(&mut self.directories);
                proof {
                    assert(updated[i as int] == (path@, 0u32));
                    assert(updated.to_multiset().count((path@, 0u32)) > 0);
                    assert(entry_views(self.directories@).contains((path@, 0u32)));
                }
                let mut j: usize = 0;
                while j < self.directories.len() && !(self.directories[j].path == path)
                    invariant
                        j <= self.directories.len(),
                        entry_views(self.directories@).contains((path@, 0u32)),
                        forall|k: int| 0 <= k < j ==> (#[trigger] self.directories@[k]).path@ != path@,
                    decreases self.directories.len() - j,
                {
                    j += 1;
                }
                proof {
                    if j == self.directories.len() {
                        let k = choose|k: int| 0 <= k < entry_views(self.directories@).len() && entry_views(self.directories@)[k] == (path@, 0u32);
                        assert(self.directories@[k]@ == (path@, 0u32));
                    }
                }
                self.selected = Some(j);
            },
        }
        true
    }
}

} // verus!
