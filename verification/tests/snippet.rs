use forge_core::snippet::{expand, parse_braced};

#[test]
fn plain_text_unchanged() {
    let s = expand("hello world");
    assert_eq!(s.text, "hello world");
    assert!(s.tabstops.is_empty());
}

#[test]
fn simple_tabstops() {
    let s = expand("fn ${1:name}($2) {\n    $0\n}");
    assert_eq!(s.text, "fn name() {\n    \n}");
    assert_eq!(s.tabstops.len(), 3);
    assert_eq!(s.tabstops[0].index, 1);
    assert_eq!(&s.text[s.tabstops[0].start..s.tabstops[0].end], "name");
    assert_eq!(s.tabstops[1].index, 2);
    assert_eq!(s.tabstops[2].index, 0); // $0 sorted last
}

#[test]
fn dollar_number() {
    let s = expand("$1 then $2");
    assert_eq!(s.text, " then ");
    assert_eq!(s.tabstops.len(), 2);
}

#[test]
fn escaped_dollar() {
    let s = expand("cost: \\$100");
    assert_eq!(s.text, "cost: $100");
    assert!(s.tabstops.is_empty());
}

#[test]
fn choice_uses_first() {
    let s = expand("${1|pub,pub(crate),fn|}");
    assert_eq!(s.text, "pub");
    assert_eq!(s.tabstops[0].index, 1);
}

#[test]
fn nested_placeholder() {
    let s = expand("${1:Vec<${2:T}>}");
    assert_eq!(s.text, "Vec<T>");
}

#[test]
fn trailing_dollar_is_kept() {
    let s = expand("a$");
    assert_eq!(s.text, "a$");
    assert!(s.tabstops.is_empty());
}

#[test]
fn dollar_before_name_is_kept() {
    let s = expand("$x");
    assert_eq!(s.text, "$x");
    assert!(s.tabstops.is_empty());
}

#[test]
fn equal_indices_keep_their_order() {
    let s = expand("$2 $1 $2");
    assert_eq!(s.text, "  ");
    let got: Vec<(u32, usize)> = s.tabstops.iter().map(|t| (t.index, t.start)).collect();
    assert_eq!(got, vec![(1, 1), (2, 0), (2, 2)]);
}

#[test]
fn nested_defaults_are_flattened() {
    let s = expand("${1:a${2:b}c}");
    assert_eq!(s.text, "abc");
    assert_eq!(s.tabstops.len(), 1);
    assert_eq!((s.tabstops[0].start, s.tabstops[0].end), (0, 3));
}

#[test]
fn characters_above_ascii_are_copied_whole() {
    let s = expand("\u{e9}");
    assert_eq!(s.text, "\u{e9}");
    assert!(s.tabstops.is_empty());
}

#[test]
fn non_ascii_defaults_and_choices_keep_their_characters() {
    let s = expand("${1:h\u{e9}llo} \u{fc}$0");
    assert_eq!(s.text, "h\u{e9}llo \u{fc}");
    assert_eq!((s.tabstops[0].start, s.tabstops[0].end), (0, 6));
    assert_eq!(s.tabstops[1].start, 9);
    let s = expand("${2|\\\u{e9}t\u{e9},b|}");
    assert_eq!(s.text, "\u{e9}t\u{e9}");
}

#[test]
fn escaped_braces_and_backslash() {
    let s = expand("\\{\\}\\\\x");
    assert_eq!(s.text, "{}\\x");
}

#[test]
fn braced_default_reads_to_its_brace() {
    let (index, default, consumed) = parse_braced(b"1:abc}rest");
    assert_eq!((index, default.as_str(), consumed), (1, "abc", 6));
}

#[test]
fn braced_without_default() {
    let (index, default, consumed) = parse_braced(b"2}");
    assert_eq!((index, default.as_str(), consumed), (2, "", 2));
    let (index, default, consumed) = parse_braced(b"3");
    assert_eq!((index, default.as_str(), consumed), (3, "", 1));
}

#[test]
fn braced_unknown_form_is_skipped() {
    let (index, default, consumed) = parse_braced(b"x}y");
    assert_eq!((index, default.as_str(), consumed), (0, "", 2));
}

#[test]
fn braced_choice_stops_at_its_close() {
    let (index, default, consumed) = parse_braced(b"4|a,b|}z");
    assert_eq!((index, default.as_str(), consumed), (4, "a", 7));
}

#[test]
fn plain_prefix_shifts_text_and_tabstops() {
    let a = expand("let x = ${1:v} + $2;");
    let b = expand("${1:v} + $2;");
    assert_eq!(a.text, format!("let x = {}", b.text));
    assert_eq!(a.tabstops.len(), b.tabstops.len());
    for (ta, tb) in a.tabstops.iter().zip(b.tabstops.iter()) {
        assert_eq!(ta.index, tb.index);
        assert_eq!(ta.start, tb.start + 8);
        assert_eq!(ta.end, tb.end + 8);
    }
    assert_eq!(a.tabstops[0].start, 8);
    assert_eq!(a.tabstops[0].end, 9);
}

#[test]
fn tabstops_fall_on_character_boundaries() {
    let s = expand("é${1:ü}ö$2");
    assert_eq!(s.text, "éüö");
    assert_eq!((s.tabstops[0].start, s.tabstops[0].end), (2, 4));
    assert_eq!(&s.text[s.tabstops[0].start..s.tabstops[0].end], "ü");
    assert_eq!((s.tabstops[1].start, s.tabstops[1].end), (6, 6));
    for t in &s.tabstops {
        assert!(s.text.is_char_boundary(t.start));
        assert!(s.text.is_char_boundary(t.end));
    }
}
