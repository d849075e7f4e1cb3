//! fnr: a literal find-and-replace library.
//!
//! The crate walks over the contents of pre-read files, finds lines that
//! contain a literal pattern, addresses each match with a global 1-based
//! ordinal, filters the ordinals through a user selection, and either reports
//! matches, previews replacements, or produces rewritten file contents.
//! Directory traversal, terminal rendering and disk writes live outside this
//! library; everything here is pure computation with proved contracts.

pub mod args;
pub mod console;
pub mod file_types;
pub mod parsing;
pub mod pattern_matcher;
pub mod replacer;
pub mod report;
pub mod settings;
pub mod text;
pub mod utils;
pub mod walker;

pub use args::Cli;
pub use console::Console;
pub use console::Operation;
pub use file_types::TypeFilter;
pub use parsing::SelectError;
pub use parsing::parse_select;
pub use pattern_matcher::MatchRecord;
pub use pattern_matcher::ScanOutcome;
pub use pattern_matcher::Searcher;
pub use replacer::Replacer;
pub use settings::Options;
pub use settings::Settings;
pub use text::contains_seq;
pub use text::occurs_at;
pub use report::Diagnostic;
pub use report::FileContent;
pub use report::FileInput;
pub use report::FileUpdate;
pub use report::MatchAction;
pub use report::MatchEvent;
pub use report::RunOutput;
pub use report::RunTotals;
pub use report::RunWarning;
pub use utils::PathExt;
pub use walker::Walker;
