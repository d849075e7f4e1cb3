use fnr::TypeFilter;
use fnr::file_types::build_file_type_matcher;
use fnr::file_types::classify_type_tokens;

#[test]
fn test_classify_named_and_glob() {
    let selected = vec!["rust".to_string(), "*txt".to_string()];
    let ignored = vec!["*md".to_string()];
    let (sel, ign) = classify_type_tokens(&selected, &ignored);
    assert_eq!(sel.len(), 2);
    assert_eq!(sel[0], TypeFilter::Named("rust".to_string()));
    assert_eq!(
        sel[1],
        TypeFilter::Glob { name: "type0".to_string(), pattern: "*txt".to_string() }
    );
    // glob numbering continues across the two lists
    assert_eq!(
        ign[0],
        TypeFilter::Glob { name: "type1".to_string(), pattern: "*md".to_string() }
    );
}

#[test]
fn test_build_matcher_with_known_type() {
    let selected = vec!["rust".to_string()];
    let ignored: Vec<String> = vec![];
    assert!(build_file_type_matcher(&selected, &ignored).is_ok());
}

#[test]
fn test_build_matcher_with_globs() {
    let selected = vec!["*rs".to_string(), "*toml".to_string()];
    let ignored = vec!["*txt".to_string(), "*md".to_string()];
    assert!(build_file_type_matcher(&selected, &ignored).is_ok());
}

#[test]
fn test_build_matcher_unknown_name_fails() {
    let selected = vec!["nosuchfiletype".to_string()];
    let ignored: Vec<String> = vec![];
    let r = build_file_type_matcher(&selected, &ignored);
    assert!(r.is_err());
    assert!(!r.unwrap_err().message.is_empty());
}

#[test]
fn test_build_matcher_invalid_glob_fails() {
    let selected = vec!["*[".to_string()];
    let ignored: Vec<String> = vec![];
    assert!(build_file_type_matcher(&selected, &ignored).is_err());
}

#[test]
fn test_build_matcher_empty_lists() {
    let selected: Vec<String> = vec![];
    let ignored: Vec<String> = vec![];
    assert!(build_file_type_matcher(&selected, &ignored).is_ok());
}

#[test]
fn test_build_matcher_all_token_selects_everything() {
    let selected = vec!["all".to_string()];
    let ignored: Vec<String> = vec![];
    assert!(build_file_type_matcher(&selected, &ignored).is_ok());
}
