use bvr::line_index::index_buffer;
use bvr::lineset::LineSet;
use bvr::search::{search_lines, Pattern, PatternError};

const TEXT: &[u8] = b"alpha\nbeta\ngamma\nbetamax beta\ndelta\n";

#[test]
fn search_finds_matching_lines_once() {
    let idx = index_buffer(TEXT);
    let p = Pattern::new("beta").unwrap();
    assert_eq!(p.as_str(), "beta");
    assert_eq!(search_lines(&idx, TEXT, &p), Some(vec![1, 3]));
}

#[test]
fn search_with_no_match_is_empty() {
    let idx = index_buffer(TEXT);
    let p = Pattern::new("omega").unwrap();
    assert_eq!(search_lines(&idx, TEXT, &p), Some(vec![]));
}

#[test]
fn search_regex_and_literal() {
    let idx = index_buffer(b"a.c\nabc\n");
    let regex = Pattern::build("a.c", false).unwrap();
    assert_eq!(search_lines(&idx, b"a.c\nabc\n", &regex), Some(vec![0, 1]));
    let literal = Pattern::build("a.c", true).unwrap();
    assert_eq!(literal.as_str(), "a\\.c");
    assert_eq!(search_lines(&idx, b"a.c\nabc\n", &literal), Some(vec![0]));
}

#[test]
fn invalid_pattern_is_refused() {
    assert!(matches!(Pattern::new("(unclosed"), Err(PatternError::Invalid)));
}

#[test]
fn empty_match_at_end_lies_on_no_line() {
    let idx = index_buffer(b"a\n");
    let p = Pattern::new("").unwrap();
    assert_eq!(search_lines(&idx, b"a\n", &p), None);
}

#[test]
fn line_set_from_search() {
    let idx = index_buffer(TEXT);
    let p = Pattern::new("(?m)^[bd]").unwrap();
    let set = LineSet::search(&idx, TEXT, &p).unwrap();
    assert!(set.is_complete());
    assert_eq!(set.into_inner().as_slice(), &[1, 3, 4]);
}
