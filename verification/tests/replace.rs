use fnr::Console;
use fnr::Replacer;
use fnr::Settings;

fn plain_settings(write: bool) -> Settings {
    Settings {
        verbose: false,
        ignore_case: false,
        search_hidden: false,
        omit_pattern: vec![],
        selected_file_types: vec![],
        ignored_file_types: vec![],
        write,
        lookup: false,
        selection: None,
    }
}

#[test]
fn test_replace_line_substitutes_every_occurrence() {
    let replacer = Replacer::new(Console::new(), plain_settings(false));
    assert_eq!(replacer.replace_line("world, world!", "world", "new"), "new, new!");
}

#[test]
fn test_replace_line_is_left_to_right_without_rescan() {
    let replacer = Replacer::new(Console::new(), plain_settings(false));
    assert_eq!(replacer.replace_line("aaa", "aa", "b"), "ba");
    assert_eq!(replacer.replace_line("abb", "ab", "a"), "ab");
}

#[test]
fn test_replace_line_empty_pattern_changes_nothing() {
    let replacer = Replacer::new(Console::new(), plain_settings(false));
    assert_eq!(replacer.replace_line("abc", "", "x"), "abc");
}

#[test]
fn test_replace_rewrites_only_the_addressed_line() {
    let replacer = Replacer::new(Console::new(), plain_settings(true));
    let content = "a world\nb world\nc world";
    assert_eq!(replacer.replace(content, 2, "world", "new"), "a world\nb new\nc world");
}

#[test]
fn test_replace_keeps_trailing_newline() {
    let replacer = Replacer::new(Console::new(), plain_settings(true));
    assert_eq!(replacer.replace("world\n", 1, "world", "new"), "new\n");
}
