//! Where the data files live.
//!
//! Locating the installed-data directory on disk and reading the two files
//! is the surrounding program's work; the library only carries the chosen
//! path and fixes the file names.

use vstd::prelude::*;

verus! {

/// Name of the primary emoji-sequence data file.
pub const EMOJI_SEQUENCES: &'static str = "emoji-sequences.txt";

/// Name of the ZWJ-sequence data file.
pub const EMOJI_ZWJ_SEQUENCES: &'static str = "emoji-zwj-sequences.txt";

/// An already-located directory holding the two data files.
pub struct DataDir {
    pub path: String,
}

impl DataDir {
    /// Wraps a located data-directory path.
    pub fn new(path: String) -> (d: DataDir)
        ensures
            d.path == path,
    {
        DataDir { path }
    }
}

} // verus!
