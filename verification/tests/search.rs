use forge_core::search::{
    find, match_columns, match_span, plain_hit, replace, replace_match, replace_plain,
    replace_regex, SearchError,
};

fn doc(lines: &[&str]) -> Vec<Vec<u8>> {
    lines.iter().map(|l| l.as_bytes().to_vec()).collect()
}

fn found(r: Result<Option<(usize, usize, usize, usize)>, SearchError>) -> Option<(usize, usize, usize, usize)> {
    match r {
        Ok(v) => v,
        Err(e) => panic!("unexpected error {:?}", e),
    }
}

#[test]
fn finds_plain_text() {
    let lines = doc(&["hello world\n"]);
    assert_eq!(found(find(&lines, 1, 1, "world", false, false, false)), Some((1, 7, 1, 12)));
}

#[test]
fn finds_on_a_later_line() {
    let lines = doc(&["abc\n", "xyz\n"]);
    assert_eq!(found(find(&lines, 1, 1, "xy", false, false, false)), Some((2, 1, 2, 3)));
}

#[test]
fn match_through_the_newline_ends_on_the_next_line() {
    let lines = doc(&["abc\n", "xyz\n"]);
    assert_eq!(found(find(&lines, 1, 1, "c\n", false, false, false)), Some((1, 3, 2, 1)));
}

#[test]
fn search_starts_at_the_given_column() {
    let lines = doc(&["abab\n"]);
    assert_eq!(found(find(&lines, 1, 2, "ab", false, false, false)), Some((1, 3, 1, 5)));
}

#[test]
fn case_insensitive_search_lowercases_both_sides() {
    let lines = doc(&["Hello\n"]);
    assert_eq!(found(find(&lines, 1, 1, "hELLO", true, false, false)), Some((1, 1, 1, 6)));
    assert_eq!(found(find(&lines, 1, 1, "hELLO", false, false, false)), None);
}

#[test]
fn finds_regex_matches() {
    let lines = doc(&["foo123\n"]);
    assert_eq!(found(find(&lines, 1, 1, "[0-9]+", false, true, false)), Some((1, 4, 1, 7)));
    let lines = doc(&["ABC\n"]);
    assert_eq!(found(find(&lines, 1, 1, "b", true, true, false)), Some((1, 2, 1, 3)));
    assert_eq!(found(find(&lines, 1, 1, "b", false, true, false)), None);
}

#[test]
fn regex_search_from_a_column() {
    let lines = doc(&["a1b2\n"]);
    assert_eq!(found(find(&lines, 1, 3, "[0-9]", false, true, false)), Some((1, 4, 1, 5)));
}

#[test]
fn reverse_search_finds_nothing() {
    let lines = doc(&["abc\n"]);
    assert_eq!(found(find(&lines, 1, 1, "abc", false, false, true)), None);
}

#[test]
fn missing_text_is_not_found() {
    let lines = doc(&["abc\n", "def\n"]);
    assert_eq!(found(find(&lines, 1, 1, "zz", false, false, false)), None);
    assert_eq!(found(find(&lines, 9, 1, "abc", false, false, false)), None);
}

#[test]
fn start_past_the_line_is_refused() {
    let lines = doc(&["abc\n"]);
    assert!(matches!(find(&lines, 1, 10, "a", false, false, false), Err(SearchError::OutOfRange)));
    assert!(matches!(find(&lines, 1, 10, "a", false, true, false), Err(SearchError::OutOfRange)));
}

#[test]
fn start_inside_a_character_is_refused() {
    let lines = doc(&["\u{e9}\n"]);
    assert!(matches!(find(&lines, 1, 2, "x", false, false, false), Err(SearchError::OutOfRange)));
}

#[test]
fn bad_regex_finds_nothing() {
    let lines = doc(&["abc\n"]);
    assert_eq!(found(find(&lines, 1, 1, "(", false, true, false)), None);
    assert_eq!(found(find(&lines, 1, 10, "(", false, true, false)), None);
}

#[test]
fn replaces_plain_text() {
    let (text, count) = replace_plain(b"a-b-c", b"-", b"+");
    assert_eq!((text, count), (b"a+b+c".to_vec(), 2));
    let (text, count) = replace_plain(b"aaa", b"aa", b"b");
    assert_eq!((text, count), (b"ba".to_vec(), 1));
    let (text, count) = replace_plain(b"xyz", b"q", b"r");
    assert_eq!((text, count), (b"xyz".to_vec(), 0));
}

#[test]
fn replaces_regex_matches() {
    match replace_regex("a1b22", "[0-9]+", "#") {
        Ok((text, count)) => assert_eq!((text, count), (b"a#b#".to_vec(), 2)),
        Err(e) => panic!("unexpected error {:?}", e),
    }
}

#[test]
fn empty_regex_matches_step_over_one_byte() {
    match replace_regex("abc", "x*", "-") {
        Ok((text, count)) => assert_eq!((text, count), (b"-a-b-c".to_vec(), 3)),
        Err(e) => panic!("unexpected error {:?}", e),
    }
}

#[test]
fn bad_regex_is_reported() {
    match replace_regex("abc", "(", "x") {
        Err(SearchError::BadPattern(msg)) => assert!(!msg.is_empty()),
        other => panic!("unexpected result {:?}", other),
    }
}

#[test]
fn replace_dispatches_on_the_regex_flag() {
    match replace("a.b", ".", "!", false) {
        Ok((text, count)) => assert_eq!((text, count), (b"a!b".to_vec(), 1)),
        Err(e) => panic!("unexpected error {:?}", e),
    }
    match replace("a.b", ".", "!", true) {
        Ok((text, count)) => assert_eq!((text, count), (b"!!!".to_vec(), 3)),
        Err(e) => panic!("unexpected error {:?}", e),
    }
}

#[test]
fn one_match_step_of_a_replacement() {
    let mut out = b"<".to_vec();
    let next = replace_match(b"abc", b"X", 0, Some((1, 2)), &mut out);
    assert!(matches!(next, Ok(Some(2))));
    assert_eq!(out, b"<aX".to_vec());

    let mut out = Vec::new();
    let next = replace_match(b"abc", b"X", 0, Some((1, 1)), &mut out);
    assert!(matches!(next, Ok(Some(2))));
    assert_eq!(out, b"aXb".to_vec());

    let mut out = Vec::new();
    let next = replace_match(b"abc", b"X", 1, None, &mut out);
    assert!(matches!(next, Ok(None)));
    assert_eq!(out, b"bc".to_vec());

    let mut out = Vec::new();
    let next = replace_match(b"abc", b"X", 2, Some((2, 3)), &mut out);
    assert!(matches!(next, Ok(None)));
    assert_eq!(out, b"X".to_vec());
}

#[test]
fn match_step_out_of_range_is_refused() {
    let mut out = Vec::new();
    assert!(matches!(replace_match(b"abc", b"X", 0, Some((5, 6)), &mut out), Err(SearchError::OutOfRange)));
    assert!(matches!(replace_match(b"abc", b"X", 2, Some((1, 3)), &mut out), Err(SearchError::OutOfRange)));
    assert!(matches!(replace_match(b"abc", b"X", 0, Some((3, 3)), &mut out), Err(SearchError::OutOfRange)));
    assert!(matches!(replace_match(b"\xc3\xa9", b"X", 0, Some((1, 2)), &mut out), Err(SearchError::OutOfRange)));
}

#[test]
fn match_offsets_become_columns() {
    assert_eq!(match_columns(Some((0, 3))), Some((1, 4)));
    assert_eq!(match_columns(None), None);
}

#[test]
fn match_span_wraps_past_the_line_end() {
    assert_eq!(match_span(0, 4, 3, 5), (1, 3, 2, 1));
    assert_eq!(match_span(2, 4, 1, 4), (3, 1, 3, 4));
}

#[test]
fn literal_search_of_one_line() {
    assert!(matches!(plain_hit(b"abcabc", b"bc", 3), Ok(Some((5, 7)))));
    assert!(matches!(plain_hit(b"abc", b"", 2), Ok(Some((2, 2)))));
    assert!(matches!(plain_hit(b"abc", b"x", 1), Ok(None)));
    assert!(matches!(plain_hit(b"abc", b"a", 0), Ok(Some((0, 1)))));
    assert!(matches!(plain_hit(b"abc", b"a", 5), Err(SearchError::OutOfRange)));
}

#[test]
fn reported_columns_hold_the_searched_text() {
    let lines = doc(&["one two\n", "three two\n"]);
    let (l, c, _, _) = found(find(&lines, 1, 6, "two", false, false, false)).unwrap();
    assert_eq!(&lines[l - 1][c - 1..c - 1 + 3], b"two");
    let (l, c, _, _) = found(find(&lines, 2, 1, "two", false, false, false)).unwrap();
    assert_eq!((l, c), (2, 7));
    assert_eq!(&lines[l - 1][c - 1..c - 1 + 3], b"two");
}
