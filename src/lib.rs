//! Frequency-ranked directory picking: a usage store of how often each
//! directory was chosen, the merging and ranking of search candidates, and the
//! state machine of the interactive picker.

pub mod entry;
pub mod error;
pub mod frequency;
pub mod search;
pub mod session;
pub mod store;
pub mod text;

pub use entry::{DirectoryEntry, DirectorySearcher, SearchResult};
pub use error::CddError;
pub use frequency::{bookmark_current_directory, BookmarkOutcome, FrequencyManager};
pub use session::{App, NavigationDirection, Refresh, ViewMode, PAGE_SIZE};
pub use store::FrequencyMap;
