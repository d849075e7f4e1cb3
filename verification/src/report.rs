//! The run's event surface: what a renderer needs to show matches,
//! previews, applied replacements, diagnostics and the final summary.
use vstd::prelude::*;

verus! {

/// What a traversal handed the orchestrator for one file.
#[derive(Debug, Clone, PartialEq, Eq)]
pub enum FileContent {
    /// The file's full text.
    Text(String),
    /// The file could not be decoded as text; the message says why.
    DecodeError(String),
    /// The file or directory entry could not be read; the message says why.
    ReadError(String),
}

/// One visited file, by path, with what could be read of it.
#[derive(Debug, Clone, PartialEq, Eq)]
pub struct FileInput {
    pub path: String,
    pub content: FileContent,
}

/// How one match was dispatched.
#[derive(Debug, Clone, Copy, PartialEq, Eq)]
pub enum MatchAction {
    /// Read-only report: never writes, ignores eligibility.
    Lookup,
    /// A before/after preview; nothing is written.
    Preview,
    /// The replacement was applied to the file's new content.
    Write,
}

/// One match, addressed by its global 1-based ordinal.
#[derive(Debug, Clone, PartialEq, Eq)]
pub struct MatchEvent {
    pub path: String,
    /// 1-based physical line number within the file.
    pub line_number: usize,
    /// 1-based position in the whole run's visitation order.
    pub ordinal: usize,
    /// The matched line, as read.
    pub text: String,
    /// The line after replacement; absent in lookup mode.
    pub new_text: Option<String>,
    /// Whether the ordinal is in the active selection (or none is active).
    pub eligible: bool,
    pub action: MatchAction,
}

/// A recovered per-file failure, reported and skipped.
#[derive(Debug, Clone, PartialEq, Eq)]
pub struct Diagnostic {
    pub path: String,
    pub message: String,
}

/// A file whose new content is ready to be written back.
#[derive(Debug, Clone, PartialEq, Eq)]
pub struct FileUpdate {
    pub path: String,
    pub content: String,
}

/// Counters accumulated across the whole run.
#[derive(Debug, Clone, Copy, PartialEq, Eq)]
pub struct RunTotals {
    /// Matches found.
    pub matches: usize,
    /// Matches eligible under the active selection.
    pub selected: usize,
    /// Lines read across all scanned files.
    pub lines_scanned: usize,
}

/// Why a write run wrote nothing.  The two causes are distinct.
#[derive(Debug, Clone, Copy, PartialEq, Eq)]
pub enum RunWarning {
    /// Writing was requested but no match was found at all.
    NoMatches,
    /// Matches were found, but none was eligible under the active selection.
    NoneSelected,
}

/// Everything one run produced, in visitation order.
#[derive(Debug, Clone, PartialEq, Eq)]
pub struct RunOutput {
    pub events: Vec<MatchEvent>,
    pub diagnostics: Vec<Diagnostic>,
    pub updates: Vec<FileUpdate>,
    pub totals: RunTotals,
    pub warning: Option<RunWarning>,
}

} // verus!
