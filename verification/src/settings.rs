//! Run-wide configuration, fixed before traversal starts.
use vstd::prelude::*;

verus! {

/// Settings applied for one find-and-replace run.
#[derive(Debug, Clone)]
pub struct Settings {
    /// Control verbosity of diagnostics.
    pub verbose: bool,
    /// If true, ignore case when matching lines against the pattern.
    pub ignore_case: bool,
    /// If true, hidden files and directories are searched too.
    pub search_hidden: bool,
    /// Paths whose files are omitted from the run.
    pub omit_pattern: Vec<String>,
    /// File types or glob patterns to select.
    pub selected_file_types: Vec<String>,
    /// File types or glob patterns to ignore.
    pub ignored_file_types: Vec<String>,
    /// If true, eligible replacements are written back to their files.
    pub write: bool,
    /// If true, matches are only reported; nothing is replaced or written.
    pub lookup: bool,
    /// Match ordinals eligible for replacement; `None` means every match.
    pub selection: Option<Vec<usize>>,
}

/// The command-line surface of the tool, as plain values.
pub struct Options {
    /// The pattern to search for.
    pub pattern: String,
    /// The new pattern that replaces the old one.
    pub new_pattern: String,
    /// The root of the search; the current directory when absent.
    pub path: Option<String>,
    /// Write changes to disk.
    pub write: bool,
    /// Include hidden files in the search.
    pub hidden: bool,
    /// Files or directories to exclude.
    pub omit: Vec<String>,
    /// Print additional information about files searched or errors.
    pub verbose: bool,
    /// Perform a case-insensitive search.
    pub ignore_case: bool,
    /// Only report matches; never preview or write replacements.
    pub lookup: bool,
    /// Only search files matching these file types or glob patterns.
    pub selected_file_types: Vec<String>,
    /// Ignore files matching these file types or glob patterns.
    pub ignored_file_types: Vec<String>,
    /// Index and range tokens choosing which match ordinals are eligible.
    pub select: Option<Vec<String>>,
}

} // verus!
