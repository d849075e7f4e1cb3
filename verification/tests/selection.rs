use fnr::SelectError;
use fnr::parse_select;

#[test]
fn test_parse_select_range_and_single() {
    let r = parse_select(Some(vec!["1-3,5".to_string()]));
    assert_eq!(r, Ok(Some(vec![1, 2, 3, 5])));
}

#[test]
fn test_parse_select_zero_is_refused() {
    let r = parse_select(Some(vec!["0".to_string()]));
    assert_eq!(r, Err(SelectError::ZeroIndex("0".to_string())));
}

#[test]
fn test_parse_select_empty_means_no_filter() {
    let r = parse_select(Some(vec!["".to_string()]));
    assert_eq!(r, Ok(None));
}

#[test]
fn test_parse_select_absent_means_no_filter() {
    let r = parse_select(None);
    assert_eq!(r, Ok(None));
}

#[test]
fn test_parse_select_non_numeric() {
    let r = parse_select(Some(vec!["seven".to_string()]));
    assert_eq!(r, Err(SelectError::InvalidValue("seven".to_string())));
}

#[test]
fn test_parse_select_inverted_range() {
    let r = parse_select(Some(vec!["5-2".to_string()]));
    assert_eq!(r, Err(SelectError::InvertedRange("5-2".to_string())));
}

#[test]
fn test_parse_select_bad_range_start() {
    let r = parse_select(Some(vec!["x-3".to_string()]));
    assert_eq!(r, Err(SelectError::InvalidStart("x".to_string())));
}

#[test]
fn test_parse_select_bad_range_end() {
    let r = parse_select(Some(vec!["1-y".to_string()]));
    assert_eq!(r, Err(SelectError::InvalidEnd("y".to_string())));
}

#[test]
fn test_parse_select_whitespace_and_many_inputs() {
    let r = parse_select(Some(vec![" 2 , 4-5".to_string(), "9".to_string()]));
    assert_eq!(r, Ok(Some(vec![2, 4, 5, 9])));
}

#[test]
fn test_parse_select_duplicates_are_kept_in_order() {
    let r = parse_select(Some(vec!["3,1-3".to_string()]));
    assert_eq!(r, Ok(Some(vec![3, 1, 2, 3])));
}

#[test]
fn test_parse_select_zero_range_bound() {
    let r = parse_select(Some(vec!["0-4".to_string()]));
    assert_eq!(r, Err(SelectError::ZeroIndex("0-4".to_string())));
}
