use forge_core::edit::{
    apply_packed_result, apply_single_edit, make_bulk_result, make_insert_result,
    make_remove_result, BulkEdit,
};
use forge_core::record::{pack_record, unpack_record, EditError, EditRecord};

fn doc(lines: &[&str]) -> Vec<Vec<u8>> {
    lines.iter().map(|l| l.as_bytes().to_vec()).collect()
}

fn record(kind: u8, line1: usize, col1: usize, line2: usize, col2: usize, text: &str) -> EditRecord {
    EditRecord { kind, line1, col1, line2, col2, text: text.as_bytes().to_vec() }
}

fn same(a: &EditRecord, b: &EditRecord) -> bool {
    a.kind == b.kind && a.line1 == b.line1 && a.col1 == b.col1 && a.line2 == b.line2
        && a.col2 == b.col2 && a.text == b.text
}

#[test]
fn packed_record_round_trips() {
    let initial_lines = doc(&["abc\n"]);
    let initial_selections = vec![1, 2, 1, 2];
    let undo = pack_record(&initial_selections, &[record(b'i', 1, 2, 1, 2, "ZZ")]);
    let (selection_restore, edits) = unpack_record(&undo).unwrap();
    assert_eq!(selection_restore, initial_selections);
    assert_eq!(edits.len(), 1);

    let mut lines = initial_lines.clone();
    let mut selections = initial_selections.clone();
    let inverse = apply_single_edit(&mut lines, &mut selections, &edits[0]);
    assert_eq!(lines, doc(&["aZZbc\n"]));
    assert_eq!(inverse.kind, b'r');

    let reverse = pack_record(&initial_selections, &[inverse]);
    let (_, reverse_edits) = unpack_record(&reverse).unwrap();
    apply_single_edit(&mut lines, &mut selections, &reverse_edits[0]);
    assert_eq!(lines, initial_lines);
}

#[test]
fn record_layout_is_little_endian_u32() {
    let packed = pack_record(&[1, 2], &[record(b'i', 3, 4, 5, 6, "A")]);
    let expected: Vec<u8> = vec![
        2, 0, 0, 0, 1, 0, 0, 0, 2, 0, 0, 0, 1, 0, 0, 0, b'i', 3, 0, 0, 0, 4, 0, 0, 0, 5, 0, 0, 0,
        6, 0, 0, 0, 1, 0, 0, 0, b'A',
    ];
    assert_eq!(packed, expected);
}

#[test]
fn truncated_record_is_refused() {
    assert_eq!(unpack_record(&[1, 0, 0]).err(), Some(EditError::BadRecord));
    let packed = pack_record(&[], &[record(b'i', 1, 1, 1, 1, "xyz")]);
    assert_eq!(unpack_record(&packed[..packed.len() - 1]).err(), Some(EditError::BadRecord));
}

#[test]
fn record_with_invalid_text_is_refused() {
    let mut packed = pack_record(&[], &[record(b'i', 1, 1, 1, 1, "x")]);
    let last = packed.len() - 1;
    packed[last] = 0xff;
    assert_eq!(unpack_record(&packed).err(), Some(EditError::BadRecord));
}

#[test]
fn insertion_is_undone_and_redone() {
    let lines = doc(&["abc\n"]);
    let selections = vec![1, 2, 1, 2];
    let out = make_insert_result(lines.clone(), selections.clone(), 1, 2, b"ZZ");
    assert_eq!(out.lines, doc(&["aZZbc\n"]));
    assert_eq!(out.selections, vec![1, 2, 1, 2]);
    assert_eq!(out.line_delta, 0);
    assert_eq!(out.undo, pack_record(&selections, &[record(b'r', 1, 2, 1, 4, "")]));

    let undone = apply_packed_result(out.lines.clone(), out.selections.clone(), &out.undo).unwrap();
    assert_eq!(undone.lines, lines);
    assert_eq!(undone.selections, selections);
    assert_eq!(undone.line_delta, 0);
    assert_eq!(undone.undo, pack_record(&out.selections, &[record(b'i', 1, 2, 1, 2, "ZZ")]));

    let redone = apply_packed_result(undone.lines, undone.selections, &undone.undo).unwrap();
    assert_eq!(redone.lines, out.lines);
}

#[test]
fn multi_line_insertion_is_undone() {
    let lines = doc(&["abc\n", "xyz\n"]);
    let out = make_insert_result(lines.clone(), vec![], 1, 2, b"P\nQ");
    assert_eq!(out.lines, doc(&["aP\n", "Qbc\n", "xyz\n"]));
    assert_eq!(out.line_delta, 1);
    let undone = apply_packed_result(out.lines, out.selections, &out.undo).unwrap();
    assert_eq!(undone.lines, lines);
    assert_eq!(undone.line_delta, -1);
}

#[test]
fn removal_is_undone() {
    let lines = doc(&["abc\n", "def\n"]);
    let selections = vec![2, 3, 2, 3];
    let out = make_remove_result(lines.clone(), selections.clone(), 1, 2, 2, 2);
    assert_eq!(out.lines, doc(&["aef\n"]));
    assert_eq!(out.selections, vec![1, 3, 1, 3]);
    assert_eq!(out.line_delta, -1);
    assert_eq!(out.undo, pack_record(&selections, &[record(b'i', 1, 2, 1, 2, "bc\nd")]));
    let undone = apply_packed_result(out.lines, out.selections, &out.undo).unwrap();
    assert_eq!(undone.lines, lines);
    assert_eq!(undone.selections, selections);
    assert_eq!(undone.line_delta, 1);
}

#[test]
fn bulk_edit_replaces_and_is_undone() {
    let lines = doc(&["abc\n"]);
    let edits = vec![BulkEdit { line1: 1, col1: 2, line2: 1, col2: 3, text: b"XY".to_vec() }];
    let out = make_bulk_result(lines.clone(), vec![1, 4, 1, 4], &edits).unwrap();
    assert_eq!(out.lines, doc(&["aXYc\n"]));
    let (restore, inverse) = unpack_record(&out.undo).unwrap();
    assert_eq!(restore, vec![1, 4, 1, 4]);
    assert_eq!(inverse.len(), 2);
    assert!(same(&inverse[0], &record(b'r', 1, 2, 1, 4, "")));
    assert!(same(&inverse[1], &record(b'i', 1, 2, 1, 2, "b")));
    let undone = apply_packed_result(out.lines, out.selections, &out.undo).unwrap();
    assert_eq!(undone.lines, lines);
    assert_eq!(undone.selections, vec![1, 4, 1, 4]);
}

#[test]
fn bulk_edit_out_of_the_document_is_refused() {
    let lines = doc(&["abc\n"]);
    let edits = vec![BulkEdit { line1: 5, col1: 1, line2: 5, col2: 1, text: b"X".to_vec() }];
    assert_eq!(make_bulk_result(lines, vec![], &edits).err(), Some(EditError::InvalidEdit));
}

#[test]
fn bulk_edit_with_empty_text_and_range_changes_nothing() {
    let lines = doc(&["abc\n"]);
    let edits = vec![BulkEdit { line1: 1, col1: 2, line2: 1, col2: 2, text: Vec::new() }];
    let out = make_bulk_result(lines.clone(), vec![], &edits).unwrap();
    assert_eq!(out.lines, lines);
    assert_eq!(out.undo, pack_record(&[], &[]));
}

#[test]
fn malformed_undo_record_is_refused() {
    let lines = doc(&["abc\n"]);
    assert_eq!(apply_packed_result(lines, vec![], &[7]).err(), Some(EditError::BadRecord));
}

#[test]
fn undo_record_out_of_the_document_is_refused() {
    let lines = doc(&["abc\n"]);
    let packed = pack_record(&[], &[record(b'r', 1, 1, 9, 1, "")]);
    assert_eq!(apply_packed_result(lines, vec![], &packed).err(), Some(EditError::InvalidEdit));
}

#[test]
fn bulk_edits_over_several_lines_are_undone() {
    let lines = doc(&["abc\n", "def\n"]);
    let edits = vec![
        BulkEdit { line1: 1, col1: 1, line2: 1, col2: 2, text: b"X".to_vec() },
        BulkEdit { line1: 2, col1: 2, line2: 2, col2: 3, text: Vec::new() },
        BulkEdit { line1: 1, col1: 4, line2: 1, col2: 4, text: b"\nY".to_vec() },
    ];
    let out = make_bulk_result(lines.clone(), vec![2, 1, 2, 1], &edits).unwrap();
    assert_eq!(out.lines, doc(&["Xbc\n", "Y\n", "df\n"]));
    assert_eq!(out.line_delta, 1);
    let undone = apply_packed_result(out.lines.clone(), out.selections, &out.undo).unwrap();
    assert_eq!(undone.lines, lines);
    assert_eq!(undone.selections, vec![2, 1, 2, 1]);
    let redone = apply_packed_result(undone.lines, undone.selections, &undone.undo).unwrap();
    assert_eq!(redone.lines, out.lines);
}

#[test]
fn bytes_after_a_record_are_ignored() {
    let sels = vec![1, 2, 1, 3];
    let edits = vec![record(b'r', 1, 2, 2, 1, ""), record(b'i', 2, 1, 2, 1, "é\n")];
    let mut packed = pack_record(&sels, &edits);
    packed.extend_from_slice(&[7, 0, 0xff, 1]);
    let (restore, read) = unpack_record(&packed).unwrap();
    assert_eq!(restore, sels);
    assert_eq!(read.len(), 2);
    assert!(same(&read[0], &edits[0]));
    assert!(same(&read[1], &edits[1]));
}

#[test]
fn undo_applies_with_selections_outside_the_document() {
    let lines = doc(&["abc\n"]);
    let out = make_insert_result(lines.clone(), vec![1, 2, 1, 2], 1, 2, b"ZZ");
    let undone = apply_packed_result(out.lines.clone(), vec![9, 9, 40, 1], &out.undo).unwrap();
    assert_eq!(undone.lines, lines);
    assert_eq!(undone.selections, vec![1, 2, 1, 2]);
    let redone = apply_packed_result(undone.lines, vec![7, 7, 7, 7], &undone.undo).unwrap();
    assert_eq!(redone.lines, out.lines);
}

#[test]
fn inserted_newlines_start_lines() {
    let lines = doc(&["ab\n", "cd\n"]);
    let out = make_insert_result(lines, vec![], 2, 2, b"\n\nx\n");
    assert_eq!(out.lines, doc(&["ab\n", "c\n", "\n", "x\n", "d\n"]));
    for line in &out.lines {
        assert_eq!(line.last(), Some(&b'\n'));
        assert_eq!(line.iter().filter(|&&b| b == b'\n').count(), 1);
    }
}
