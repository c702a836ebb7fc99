use forge_core::doc::{
    apply_insert_internal, apply_remove_internal, get_text, merge_cursors, position_offset,
    sanitize_position, sanitize_selections, sort_positions, split_lines,
};

fn doc(lines: &[&str]) -> Vec<Vec<u8>> {
    lines.iter().map(|l| l.as_bytes().to_vec()).collect()
}

#[test]
fn insert_and_remove_adjust_selections() {
    let mut lines = doc(&["abc\n"]);
    let mut selections = vec![1, 3, 1, 3];
    apply_insert_internal(&mut lines, &mut selections, 1, 2, b"ZZ");
    assert_eq!(lines, doc(&["aZZbc\n"]));
    assert_eq!(selections, vec![1, 5, 1, 5]);

    apply_remove_internal(&mut lines, &mut selections, 1, 2, 1, 4);
    assert_eq!(lines, doc(&["abc\n"]));
    assert_eq!(selections, vec![1, 3, 1, 3]);
}

#[test]
fn splits_text_at_newlines() {
    assert_eq!(split_lines(b"a\nb"), vec![b"a".to_vec(), b"b".to_vec()]);
    assert_eq!(split_lines(b""), vec![Vec::<u8>::new()]);
    assert_eq!(split_lines(b"x\n"), vec![b"x".to_vec(), Vec::new()]);
}

#[test]
fn orders_positions() {
    assert_eq!(sort_positions(2, 1, 1, 5), (1, 5, 2, 1));
    assert_eq!(sort_positions(1, 4, 1, 2), (1, 2, 1, 4));
    assert_eq!(sort_positions(1, 2, 3, 1), (1, 2, 3, 1));
}

#[test]
fn sanitizes_positions() {
    let lines = doc(&["abc\n", "de\n"]);
    assert_eq!(sanitize_position(&lines, 0, 7), (1, 1));
    assert_eq!(sanitize_position(&lines, 9, 1), (2, 3));
    assert_eq!(sanitize_position(&lines, 1, 0), (1, 1));
    assert_eq!(sanitize_position(&lines, 1, 99), (1, 4));
    assert_eq!(sanitize_position(&Vec::new(), 3, 3), (1, 1));
}

#[test]
fn walks_offsets_across_lines() {
    let lines = doc(&["abc\n", "de\n"]);
    assert_eq!(position_offset(&lines, 1, 3, 2), (2, 1));
    assert_eq!(position_offset(&lines, 2, 1, -1), (1, 4));
    assert_eq!(position_offset(&lines, 1, 1, -5), (1, 1));
    assert_eq!(position_offset(&lines, 2, 1, 50), (2, 3));
}

#[test]
fn reads_text_between_positions() {
    let lines = doc(&["abc\n", "de\n", "fg\n"]);
    assert_eq!(get_text(&lines, 1, 2, 2, 2, false), b"bc\nd".to_vec());
    assert_eq!(get_text(&lines, 2, 2, 1, 2, false), b"bc\nd".to_vec());
    assert_eq!(get_text(&lines, 1, 2, 3, 2, true), b"bc\nde\nfg".to_vec());
    assert_eq!(get_text(&lines, 1, 1, 1, 3, false), b"ab".to_vec());
    assert_eq!(get_text(&lines, 1, 1, 1, 3, true), b"abc".to_vec());
}

#[test]
fn merges_cursors_that_start_together() {
    let mut selections = vec![1, 1, 1, 1, 1, 1, 1, 5, 2, 1, 2, 1];
    merge_cursors(&mut selections);
    assert_eq!(selections, vec![1, 1, 1, 1, 2, 1, 2, 1]);
    let mut single = vec![4, 4, 4, 4];
    merge_cursors(&mut single);
    assert_eq!(single, vec![4, 4, 4, 4]);
}

#[test]
fn sanitizes_every_selection_point() {
    let lines = doc(&["ab\n"]);
    let mut selections = vec![0, 0, 5, 9];
    sanitize_selections(&lines, &mut selections);
    assert_eq!(selections, vec![1, 1, 1, 3]);
}

#[test]
fn multi_line_insert_moves_later_selections() {
    let mut lines = doc(&["abc\n", "xyz\n"]);
    let mut selections = vec![1, 3, 1, 3, 2, 2, 2, 2];
    apply_insert_internal(&mut lines, &mut selections, 1, 2, b"P\nQ");
    assert_eq!(lines, doc(&["aP\n", "Qbc\n", "xyz\n"]));
    // The start column moves by the length of the last inserted piece.
    assert_eq!(selections, vec![2, 4, 2, 4, 3, 2, 3, 2]);
}

#[test]
fn removal_across_lines_merges_them() {
    let mut lines = doc(&["abc\n", "def\n", "ghi\n"]);
    let mut selections = vec![3, 2, 3, 2];
    apply_remove_internal(&mut lines, &mut selections, 1, 2, 2, 3);
    assert_eq!(lines, doc(&["af\n", "ghi\n"]));
    assert_eq!(selections, vec![2, 2, 2, 2]);
}

#[test]
fn edits_keep_every_line_ending_in_its_newline() {
    let mut lines = doc(&["ab\n", "cd\n"]);
    let mut selections = vec![];
    apply_insert_internal(&mut lines, &mut selections, 1, 2, b"x\ny\n");
    assert_eq!(lines, doc(&["ax\n", "y\n", "b\n", "cd\n"]));
    apply_remove_internal(&mut lines, &mut selections, 2, 1, 4, 2);
    assert_eq!(lines, doc(&["ax\n", "d\n"]));
    for line in &lines {
        assert_eq!(line.last(), Some(&b'\n'));
        assert_eq!(line.iter().filter(|b| **b == b'\n').count(), 1);
    }
}
