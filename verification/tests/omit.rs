use fnr::PathExt;

#[test]
fn test_should_omit() {
    let path = "src".to_string();
    let omit = vec!["src".to_string()];
    assert!(path.should_omit(&omit));
}

#[test]
fn test_should_not_omit() {
    let path = "src".to_string();
    let omit = vec!["tests".to_string()];
    assert!(!path.should_omit(&omit));
}

#[test]
fn test_omit_bare_name_matches_anywhere() {
    let path = "project/build/artifact.o".to_string();
    let omit = vec!["build".to_string()];
    assert!(path.should_omit(&omit));
}

#[test]
fn test_omit_prefix_matches_subtree() {
    let path = "tests/assets/classic.txt".to_string();
    let omit = vec!["tests/assets".to_string()];
    assert!(path.should_omit(&omit));
}

#[test]
fn test_omit_run_must_be_contiguous() {
    let path = "tests/other/assets.txt".to_string();
    let omit = vec!["tests/assets".to_string()];
    assert!(!path.should_omit(&omit));
}

#[test]
fn test_omit_trailing_slash_is_harmless() {
    let path = "target/debug/app".to_string();
    let omit = vec!["target/".to_string()];
    assert!(path.should_omit(&omit));
}
