use fnr::FileContent;
use fnr::FileInput;
use fnr::MatchAction;
use fnr::RunWarning;
use fnr::Searcher;
use fnr::Settings;
use fnr::Walker;

fn settings() -> Settings {
    Settings {
        verbose: false,
        ignore_case: false,
        search_hidden: false,
        omit_pattern: vec![],
        selected_file_types: vec![],
        ignored_file_types: vec![],
        write: false,
        lookup: false,
        selection: None,
    }
}

fn text_file(path: &str, content: &str) -> FileInput {
    FileInput { path: path.to_string(), content: FileContent::Text(content.to_string()) }
}

fn walker(old: &str, new: &str, s: Settings) -> Walker {
    Walker::new(old.to_string(), new.to_string(), ".".to_string(), s)
}

#[test]
fn test_run_previews_two_matches() {
    // a dry run: two previews, totals of 2 matches, nothing written
    let w = walker("world", "new", settings());
    let files = vec![text_file("a.txt", "hello world\nbye world\n")];
    let out = w.run(files);
    assert_eq!(out.events.len(), 2);
    assert_eq!(out.events[0].action, MatchAction::Preview);
    assert_eq!(out.events[1].action, MatchAction::Preview);
    assert_eq!(out.events[0].new_text, Some("hello new".to_string()));
    assert_eq!(out.events[1].new_text, Some("bye new".to_string()));
    assert!(out.events[0].eligible && out.events[1].eligible);
    assert_eq!(out.totals.matches, 2);
    assert_eq!(out.totals.lines_scanned, 2);
    assert!(out.updates.is_empty());
    assert_eq!(out.warning, None);
}

#[test]
fn test_run_ordinals_span_files() {
    let w = walker("world", "new", settings());
    let files = vec![
        text_file("a.txt", "world\n"),
        text_file("b.txt", "x\nworld\nworld\n"),
    ];
    let out = w.run(files);
    assert_eq!(out.events.len(), 3);
    assert_eq!(out.events[0].ordinal, 1);
    assert_eq!(out.events[1].ordinal, 2);
    assert_eq!(out.events[2].ordinal, 3);
    assert_eq!(out.events[1].path, "b.txt");
    assert_eq!(out.events[1].line_number, 2);
    assert_eq!(out.totals.lines_scanned, 4);
}

#[test]
fn test_run_write_round_trip() {
    // writing a file and re-scanning it finds the new pattern and no
    // longer finds the old one
    let mut s = settings();
    s.write = true;
    let w = walker("world", "new", s);
    let out = w.run(vec![text_file("a.txt", "hello world\nplain line\n")]);
    assert_eq!(out.updates.len(), 1);
    assert_eq!(out.updates[0].path, "a.txt");
    assert_eq!(out.updates[0].content, "hello new\nplain line\n");
    assert_eq!(out.events[0].action, MatchAction::Write);

    let searcher = Searcher::new();
    let rescan_new = searcher.lookup(&out.updates[0].content, "new", false);
    assert_eq!(rescan_new.matches.len(), 1);
    assert_eq!(rescan_new.matches[0].line_number, 1);
    let rescan_old = searcher.lookup(&out.updates[0].content, "world", false);
    assert!(rescan_old.matches.is_empty());
}

#[test]
fn test_run_write_with_unmatched_selection_changes_nothing() {
    // --write with a selection matching no found ordinal: nothing is
    // written, and the warning is the none-selected one
    let mut s = settings();
    s.write = true;
    s.selection = Some(vec![5]);
    let w = walker("world", "new", s);
    let out = w.run(vec![text_file("a.txt", "hello world\n")]);
    assert_eq!(out.totals.matches, 1);
    assert_eq!(out.totals.selected, 0);
    assert!(out.updates.is_empty());
    assert!(!out.events[0].eligible);
    assert_eq!(out.events[0].action, MatchAction::Preview);
    assert_eq!(out.warning, Some(RunWarning::NoneSelected));
}

#[test]
fn test_run_write_without_matches_warns_differently() {
    let mut s = settings();
    s.write = true;
    let w = walker("absent", "new", s);
    let out = w.run(vec![text_file("a.txt", "hello world\n")]);
    assert_eq!(out.totals.matches, 0);
    assert!(out.updates.is_empty());
    assert_eq!(out.warning, Some(RunWarning::NoMatches));
}

#[test]
fn test_run_selection_picks_ordinals() {
    let mut s = settings();
    s.write = true;
    s.selection = Some(vec![2]);
    let w = walker("world", "new", s);
    let out = w.run(vec![text_file("a.txt", "world\nworld\nworld\n")]);
    assert_eq!(out.totals.matches, 3);
    assert_eq!(out.totals.selected, 1);
    assert_eq!(out.updates.len(), 1);
    assert_eq!(out.updates[0].content, "world\nnew\nworld\n");
    assert_eq!(out.events[0].action, MatchAction::Preview);
    assert_eq!(out.events[1].action, MatchAction::Write);
    assert_eq!(out.events[2].action, MatchAction::Preview);
    assert_eq!(out.warning, None);
}

#[test]
fn test_run_omitted_directory_never_reported() {
    // omitting tests/assets prunes that subtree from every report
    let mut s = settings();
    s.omit_pattern = vec!["tests/assets".to_string()];
    let w = walker("world", "new", s);
    let files = vec![
        text_file("tests/assets/classic.txt", "hello world\n"),
        text_file("src/keep.txt", "hello world\n"),
    ];
    let out = w.run(files);
    assert_eq!(out.events.len(), 1);
    assert_eq!(out.events[0].path, "src/keep.txt");
    assert!(out.events.iter().all(|e| !e.path.starts_with("tests/assets")));
    assert_eq!(out.totals.lines_scanned, 1);
}

#[test]
fn test_run_lookup_mode_never_writes() {
    let mut s = settings();
    s.lookup = true;
    s.write = true;
    let w = walker("world", "new", s);
    let out = w.run(vec![text_file("a.txt", "hello world\n")]);
    assert_eq!(out.events.len(), 1);
    assert_eq!(out.events[0].action, MatchAction::Lookup);
    assert_eq!(out.events[0].new_text, None);
    assert!(out.updates.is_empty());
}

#[test]
fn test_run_read_error_is_always_reported() {
    let w = walker("world", "new", settings());
    let out = w.run(vec![FileInput {
        path: "bad.txt".to_string(),
        content: FileContent::ReadError("permission denied".to_string()),
    }]);
    assert_eq!(out.diagnostics.len(), 1);
    assert_eq!(out.diagnostics[0].path, "bad.txt");
    assert_eq!(out.diagnostics[0].message, "permission denied");
    assert_eq!(out.totals.matches, 0);
}

#[test]
fn test_run_decode_error_is_silent_unless_verbose() {
    let quiet = walker("world", "new", settings());
    let binary = FileInput {
        path: "blob.bin".to_string(),
        content: FileContent::DecodeError("invalid utf-8".to_string()),
    };
    let out = quiet.run(vec![binary.clone()]);
    assert!(out.diagnostics.is_empty());

    let mut s = settings();
    s.verbose = true;
    let loud = walker("world", "new", s);
    let out = loud.run(vec![binary]);
    assert_eq!(out.diagnostics.len(), 1);
    assert_eq!(out.diagnostics[0].path, "blob.bin");
}

#[test]
fn test_run_case_insensitive_matches_but_replaces_literally() {
    let mut s = settings();
    s.ignore_case = true;
    s.write = true;
    let w = walker("world", "new", s);
    let out = w.run(vec![text_file("a.txt", "Hello WORLD\nhello world\n")]);
    assert_eq!(out.totals.matches, 2);
    // replacement is byte-exact: only the literal occurrence changes
    assert_eq!(out.updates.len(), 1);
    assert_eq!(out.updates[0].content, "Hello WORLD\nhello new\n");
}
