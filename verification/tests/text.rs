use fnr::text::chars_of;
use fnr::text::join_strings;
use fnr::text::split_str;
use fnr::text::str_contains;
use fnr::text::str_replace_all;
use fnr::text::string_from_chars;

#[test]
fn test_str_contains_substring() {
    assert!(str_contains("hello world", "o w"));
    assert!(!str_contains("hello world", "worlds"));
    assert!(str_contains("abc", ""));
    assert!(!str_contains("", "a"));
    assert!(str_contains("", ""));
}

#[test]
fn test_str_replace_all_values() {
    assert_eq!(str_replace_all("hello world", "world", "new"), "hello new");
    assert_eq!(str_replace_all("no match", "zzz", "new"), "no match");
    assert_eq!(str_replace_all("aaaa", "aa", "b"), "bb");
}

#[test]
fn test_split_join_identity() {
    let cases = ["", "a", "a\nb", "a\nb\n", "\n\n", "one\n\ntwo\n"];
    for case in cases {
        let parts = split_str(case, '\n');
        assert_eq!(join_strings(&parts, '\n'), case);
    }
}

#[test]
fn test_split_counts() {
    assert_eq!(split_str("a\nb\n", '\n').len(), 3);
    assert_eq!(split_str("", '\n').len(), 1);
    assert_eq!(split_str("a,b,c", ',').len(), 3);
}

#[test]
fn test_chars_round_trip() {
    let v = chars_of("héllo");
    assert_eq!(v.len(), 5);
    assert_eq!(string_from_chars(&v), "héllo");
}
