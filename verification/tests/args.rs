use fnr::Cli;
use fnr::Options;
use fnr::Walker;

#[test]
fn test_args_are_parsed() {
    let cli = Cli {
        pattern: "old".to_string(),
        path: Some("path".to_string()),
        omit: Some(vec!["omit".to_string()]),
        verbose: false,
        ignore_case: false,
    };

    assert_eq!(cli.pattern, "old");
    assert_eq!(cli.path, Some("path".to_string()));
    assert_eq!(cli.omit, Some(vec!["omit".to_string()]));
    assert_eq!(cli.verbose, false);
}

fn plain_options() -> Options {
    Options {
        pattern: "old".to_string(),
        new_pattern: "new".to_string(),
        path: None,
        write: true,
        hidden: false,
        omit: vec!["target".to_string()],
        verbose: false,
        ignore_case: true,
        lookup: false,
        selected_file_types: vec!["rust".to_string()],
        ignored_file_types: vec!["*md".to_string()],
        select: Some(vec!["2".to_string()]),
    }
}

#[test]
fn test_walker_from_options() {
    let w = Walker::from_options(plain_options(), Some(vec![2]));
    assert_eq!(w.old_pattern, "old");
    assert_eq!(w.new_pattern, "new");
    assert_eq!(w.path, ".");
    assert_eq!(w.settings.write, true);
    assert_eq!(w.settings.ignore_case, true);
    assert_eq!(w.settings.search_hidden, false);
    assert_eq!(w.settings.omit_pattern, vec!["target".to_string()]);
    assert_eq!(w.settings.selected_file_types, vec!["rust".to_string()]);
    assert_eq!(w.settings.ignored_file_types, vec!["*md".to_string()]);
    assert_eq!(w.settings.selection, Some(vec![2]));
}

#[test]
fn test_walker_from_options_keeps_given_path() {
    let mut options = plain_options();
    options.path = Some("tests/assets".to_string());
    let w = Walker::from_options(options, None);
    assert_eq!(w.path, "tests/assets");
    assert_eq!(w.settings.selection, None);
}
