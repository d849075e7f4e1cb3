use fnr::Searcher;

#[test]
fn test_lookup_counts_matching_lines() {
    let searcher = Searcher::new();
    let out = searcher.lookup("hello world\nnothing here\nhello world\n", "world", false);
    assert_eq!(out.matches.len(), 2);
    assert_eq!(out.lines_scanned, 3);
    assert_eq!(out.matches[0].line_number, 1);
    assert_eq!(out.matches[1].line_number, 3);
    assert_eq!(out.matches[0].text, "hello world");
    assert_eq!(out.matches[1].text, "hello world");
}

#[test]
fn test_lookup_empty_content() {
    let searcher = Searcher::new();
    let out = searcher.lookup("", "world", false);
    assert!(out.matches.is_empty());
    assert_eq!(out.lines_scanned, 0);
}

#[test]
fn test_lookup_no_match() {
    let searcher = Searcher::new();
    let out = searcher.lookup("one\ntwo\nthree", "four", false);
    assert!(out.matches.is_empty());
    assert_eq!(out.lines_scanned, 3);
}

#[test]
fn test_lookup_case_insensitive_folds_both_sides() {
    let searcher = Searcher::new();
    let out = searcher.lookup("Hello World\n", "WORLD", true);
    assert_eq!(out.matches.len(), 1);
    // the record keeps the line as read, not the folded one
    assert_eq!(out.matches[0].text, "Hello World");
}

#[test]
fn test_lookup_case_sensitive_by_default() {
    let searcher = Searcher::new();
    let out = searcher.lookup("Hello World\n", "WORLD", false);
    assert!(out.matches.is_empty());
}

#[test]
fn test_lookup_no_trailing_newline() {
    let searcher = Searcher::new();
    let out = searcher.lookup("world", "world", false);
    assert_eq!(out.matches.len(), 1);
    assert_eq!(out.lines_scanned, 1);
}
