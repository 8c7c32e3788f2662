//! The ways a search or a store operation can fail.

use vstd::prelude::*;

verus! {

#[derive(Debug, Clone, PartialEq, Eq)]
pub enum CddError {
    /// The external path index could not be run; the text says why.
    LocateCommand(String),
    /// Neither the index nor the usage store gave a directory.
    NoDirectoriesFound,
    /// The chosen path is no longer a directory.
    DirectoryNotFound(String),
    /// The usage store could not be read or written; the text says why.
    IoError(String),
}

} // verus!
