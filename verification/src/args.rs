//! The reduced command-line surface of the lookup-only front end.
use vstd::prelude::*;

verus! {

/// Arguments of a plain lookup invocation, as plain values.
pub struct Cli {
    /// The pattern to search for.
    pub pattern: String,
    /// The path of the folder or file to read.
    pub path: Option<String>,
    /// Files or directories to exclude.
    pub omit: Option<Vec<String>>,
    /// Print information about files being read and files that cannot be read.
    pub verbose: bool,
    /// Ignore case when searching for content.
    pub ignore_case: bool,
}

} // verus!
