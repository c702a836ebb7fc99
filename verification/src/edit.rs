//! Edit requests on a document: single insertions and removals, bulk edits
//! and the replay of packed undo records. Each returns the new lines and
//! selections, an undo record that reverts it, and how many lines were added.
use vstd::prelude::*;
use crate::doc::{
    apply_insert_internal, apply_remove_internal, check_get_text, check_insert_position,
    check_insert_selections, check_remove_range, check_remove_selections, doc_after_insert,
    doc_after_remove, doc_of, fits_usize, get_text, get_text_ok, insert_ok, ints,
    lemma_newline_pieces_nonempty, lemma_selections_after_remove_len,
    lemma_shift_after_insert_len, newline_pieces, position_offset, remove_ok,
    sanitize_selections, sanitized_selections, selections_after_insert, selections_after_remove,
    shift_after_remove, spec_get_text, spec_position_offset, split_lines,
};
use crate::record::{
    decode_record, encode_record, pack_record, unpack_record, EditError, EditRecord, EditView,
};

verus! {

broadcast use vstd::seq_lib::group_seq_properties;

/// The outcome of an edit request.
pub struct EditOutcome {
    pub lines: Vec<Vec<u8>>,
    pub selections: Vec<usize>,
    /// Packed record that reverts the edit.
    pub undo: Vec<u8>,
    /// Lines after the edit minus lines before it.
    pub line_delta: isize,
}

/// One edit of a bulk request: the range `(line1, col1)..(line2, col2)` is
/// removed unless empty, then `text` is inserted at `(line1, col1)` unless
/// empty.
#[derive(Clone, Debug)]
pub struct BulkEdit {
    pub line1: usize,
    pub col1: usize,
    pub line2: usize,
    pub col2: usize,
    pub text: Vec<u8>,
}

/// The plain contents of a bulk edit.
pub type BulkView = (usize, usize, usize, usize, Seq<u8>);

impl View for BulkEdit {
    type V = BulkView;

    open spec fn view(&self) -> BulkView {
        (self.line1, self.col1, self.line2, self.col2, self.text@)
    }
}

/// Integers as `usize` values.
pub open spec fn to_usizes(s: Seq<int>) -> Seq<usize> {
    s.map_values(|x: int| x as usize)
}

/// `to_usizes` undoes `ints`.
pub proof fn lemma_to_usizes(s: Seq<usize>, t: Seq<int>)
    requires
        ints(s) == t,
    ensures
        to_usizes(t) == s,
{
    assert(to_usizes(t) =~= s);
}

/// Kind byte of an insertion record.
pub open spec fn kind_insert() -> u8 {
    105
}

/// Kind byte of a removal record.
pub open spec fn kind_remove() -> u8 {
    114
}

/// The edit can be applied: a selection list of whole selections, and a
/// valid insertion point or removal range whose selections move without
/// overflow.
pub open spec fn single_edit_ok(d: Seq<Seq<u8>>, s: Seq<usize>, e: EditView) -> bool {
    &&& s.len() % 4 == 0
    &&& if e.0 == kind_insert() {
        &&& insert_ok(d, e.1 as int, e.2 as int)
        &&& fits_usize(selections_after_insert(s, e.1 as int, e.2 as int, e.5))
    } else {
        &&& remove_ok(d, e.1 as int, e.2 as int, e.3 as int, e.4 as int)
        &&& get_text_ok(d, e.1 as int, e.2 as int, e.3 as int, e.4 as int, false)
        &&& fits_usize(shift_after_remove(ints(s), e.1 as int, e.2 as int, e.3 as int, e.4 as int))
    }
}

/// The end of `len` bytes inserted at `(line, col)` in the document `nd`
/// that holds them.
pub open spec fn inserted_end(nd: Seq<Seq<u8>>, line: usize, col: usize, len: nat) -> (int, int) {
    spec_position_offset(nd, line as int, col as int, (len as isize) as int)
}

/// The document, the selections and the inverse edit after one edit.
pub open spec fn single_edit_result(d: Seq<Seq<u8>>, s: Seq<usize>, e: EditView) -> (
    Seq<Seq<u8>>,
    Seq<int>,
    EditView,
) {
    if e.0 == kind_insert() {
        let nd = doc_after_insert(d, e.1 as int, e.2 as int, e.5);
        let ns = to_usizes(selections_after_insert(s, e.1 as int, e.2 as int, e.5));
        let p = inserted_end(nd, e.1, e.2, e.5.len());
        (nd, sanitized_selections(nd, ns), (kind_remove(), e.1, e.2, p.0 as usize, p.1 as usize, seq![]))
    } else {
        let removed = spec_get_text(d, e.1 as int, e.2 as int, e.3 as int, e.4 as int, false);
        let nd = doc_after_remove(d, e.1 as int, e.2 as int, e.3 as int, e.4 as int);
        let ns = to_usizes(selections_after_remove(s, e.1 as int, e.2 as int, e.3 as int, e.4 as int));
        (nd, sanitized_selections(nd, ns), (kind_insert(), e.1, e.2, e.1, e.2, removed))
    }
}

/// Applies one edit record (insertion when its kind is `b'i'`, removal
/// otherwise), sanitizes the selections, and returns the record that undoes it.
pub fn apply_single_edit(lines: &mut Vec<Vec<u8>>, selections: &mut Vec<usize>, edit: &EditRecord) -> (inverse: EditRecord)
    requires
        single_edit_ok(doc_of(old(lines)@), old(selections)@, edit@),
    ensures
        doc_of(final(lines)@) == single_edit_result(doc_of(old(lines)@), old(selections)@, edit@).0,
        ints(final(selections)@) == single_edit_result(doc_of(old(lines)@), old(selections)@, edit@).1,
        inverse@ == single_edit_result(doc_of(old(lines)@), old(selections)@, edit@).2,
{
    let ghost s0 = selections@;
    if edit.kind == 105 {
        apply_insert_internal(lines, selections, edit.line1, edit.col1, edit.text.as_slice());
        proof {
            lemma_newline_pieces_nonempty(edit.text@);
            let pieces = newline_pieces(edit.text@);
            lemma_shift_after_insert_len(ints(s0), edit.line1 as int, edit.col1 as int, pieces.len() - 1, pieces.last().len() as int);
            lemma_to_usizes(selections@, selections_after_insert(s0, edit.line1 as int, edit.col1 as int, edit.text@));
        }
        sanitize_selections(lines, selections);
        let end = position_offset(lines, edit.line1, edit.col1, edit.text.len() as isize);
        EditRecord {
            kind: 114,
            line1: edit.line1,
            col1: edit.col1,
            line2: end.0,
            col2: end.1,
            text: Vec::new(),
        }
    } else {
        let removed = get_text(lines, edit.line1, edit.col1, edit.line2, edit.col2, false);
        apply_remove_internal(lines, selections, edit.line1, edit.col1, edit.line2, edit.col2);
        proof {
            lemma_selections_after_remove_len(s0, edit.line1 as int, edit.col1 as int, edit.line2 as int, edit.col2 as int);
            lemma_to_usizes(selections@, selections_after_remove(s0, edit.line1 as int, edit.col1 as int, edit.line2 as int, edit.col2 as int));
        }
        sanitize_selections(lines, selections);
        EditRecord {
            kind: 105,
            line1: edit.line1,
            col1: edit.col1,
            line2: edit.line1,
            col2: edit.col1,
            text: removed,
        }
    }
}

/// Exec test of `single_edit_ok`.
pub fn single_edit_allowed(lines: &Vec<Vec<u8>>, selections: &Vec<usize>, edit: &EditRecord) -> (r: bool)
    ensures
        r == single_edit_ok(doc_of(lines@), selections@, edit@),
{
    if selections.len() % 4 != 0 {
        return false;
    }
    if edit.kind == 105 {
        if !check_insert_position(lines, edit.line1, edit.col1) {
            return false;
        }
        let pieces = split_lines(edit.text.as_slice());
        proof {
            lemma_newline_pieces_nonempty(edit.text@);
        }
        let n = pieces.len();
        let last_len = pieces[n - 1].len();
        assert(pieces@[n - 1]@ == newline_pieces(edit.text@).last());
        check_insert_selections(selections, edit.line1, edit.col1, n - 1, last_len)
    } else {
        check_remove_range(lines, edit.line1, edit.col1, edit.line2, edit.col2) && check_get_text(
            lines,
            edit.line1,
            edit.col1,
            edit.line2,
            edit.col2,
            false,
        ) && check_remove_selections(selections, edit.line1, edit.col1, edit.line2, edit.col2)
    }
}

/// The views of a list of edit records.
pub open spec fn views(es: Seq<EditRecord>) -> Seq<EditView> {
    es.map_values(|e: EditRecord| e@)
}

/// Reverses a list of edit records.
fn reverse_records(v: Vec<EditRecord>) -> (r: Vec<EditRecord>)
    ensures
        views(r@) == views(v@).reverse(),
{
    let mut v = v;
    let ghost v0 = v@;
    let mut r: Vec<EditRecord> = Vec::new();
    while v.len() > 0
        invariant
            v@ == v0.subrange(0, v@.len() as int),
            v@.len() <= v0.len(),
            views(r@) == views(v0.subrange(v@.len() as int, v0.len() as int)).reverse(),
        decreases v@.len(),
    {
        let ghost k = v@.len();
        let ghost r_old = r@;
        let e = v.pop().unwrap();
        let ghost ev = e@;
        assert(ev == v0[k - 1]@);
        r.push(e);
        assert(views(r@) =~= views(r_old).push(ev));
        let ghost tail = views(v0.subrange(k - 1, v0.len() as int));
        assert(tail =~= seq![ev] + views(v0.subrange(k as int, v0.len() as int)));
        assert(views(r@) =~= tail.reverse());
    }
    assert(v0.subrange(0, v0.len() as int) =~= v0);
    r
}

/// Number of lines gained, when both counts fit an `isize`.
pub open spec fn line_delta_of(before: int, after: int) -> int {
    after - before
}

/// Inserts `text` at `(line, col)`: the new lines and selections, an undo
/// record that removes the inserted text and restores the selections, and
/// the number of lines added.
pub fn make_insert_result(lines: Vec<Vec<u8>>, selections: Vec<usize>, line: usize, col: usize, text: &[u8]) -> (r: EditOutcome)
    requires
        insert_ok(doc_of(lines@), line as int, col as int),
        selections@.len() % 4 == 0,
        fits_usize(selections_after_insert(selections@, line as int, col as int, text@)),
        lines@.len() <= isize::MAX,
        doc_after_insert(doc_of(lines@), line as int, col as int, text@).len() <= isize::MAX,
    ensures
        ({
            let e: EditView = (kind_insert(), line, col, line, col, text@);
            let res = single_edit_result(doc_of(lines@), selections@, e);
            &&& doc_of(r.lines@) == res.0
            &&& ints(r.selections@) == res.1
            &&& r.undo@ == encode_record(selections@, seq![res.2])
            &&& r.line_delta as int == line_delta_of(lines@.len() as int, res.0.len() as int)
        }),
{
    let mut lines = lines;
    let mut selections = selections;
    let selection_restore = selections.clone();
    let before_len = lines.len() as isize;
    let edit = EditRecord { kind: 105, line1: line, col1: col, line2: line, col2: col, text: crate::doc::copy_range(text, 0, text.len()) };
    assert(edit.text@ =~= text@);
    let inverse = apply_single_edit(&mut lines, &mut selections, &edit);
    let records = vec![inverse];
    let undo = pack_record(selection_restore.as_slice(), records.as_slice());
    assert(views(records@) =~= seq![inverse@]);
    assert(doc_of(lines@).len() == lines@.len());
    let line_delta = lines.len() as isize - before_len;
    EditOutcome { lines, selections, undo, line_delta }
}

/// Removes `(line1, col1)..(line2, col2)`: the new lines and selections, an
/// undo record that re-inserts the removed text and restores the selections,
/// and the number of lines added (zero or negative).
pub fn make_remove_result(
    lines: Vec<Vec<u8>>,
    selections: Vec<usize>,
    line1: usize,
    col1: usize,
    line2: usize,
    col2: usize,
) -> (r: EditOutcome)
    requires
        remove_ok(doc_of(lines@), line1 as int, col1 as int, line2 as int, col2 as int),
        get_text_ok(doc_of(lines@), line1 as int, col1 as int, line2 as int, col2 as int, false),
        selections@.len() % 4 == 0,
        fits_usize(shift_after_remove(ints(selections@), line1 as int, col1 as int, line2 as int, col2 as int)),
        lines@.len() <= isize::MAX,
    ensures
        ({
            let e: EditView = (kind_remove(), line1, col1, line2, col2, seq![]);
            let res = single_edit_result(doc_of(lines@), selections@, e);
            &&& doc_of(r.lines@) == res.0
            &&& ints(r.selections@) == res.1
            &&& r.undo@ == encode_record(selections@, seq![res.2])
            &&& r.line_delta as int == line_delta_of(lines@.len() as int, res.0.len() as int)
        }),
{
    let mut lines = lines;
    let mut selections = selections;
    let selection_restore = selections.clone();
    let before_len = lines.len() as isize;
    let edit = EditRecord { kind: 114, line1, col1, line2, col2, text: Vec::new() };
    let inverse = apply_single_edit(&mut lines, &mut selections, &edit);
    let records = vec![inverse];
    let undo = pack_record(selection_restore.as_slice(), records.as_slice());
    assert(views(records@) =~= seq![inverse@]);
    assert(doc_of(lines@).len() == lines@.len());
    let line_delta = lines.len() as isize - before_len;
    EditOutcome { lines, selections, undo, line_delta }
}

/// Exec test of a valid insertion point whose selections move without
/// overflow.
pub fn insert_allowed(lines: &Vec<Vec<u8>>, selections: &Vec<usize>, line: usize, col: usize, text: &[u8]) -> (r: bool)
    ensures
        r == (insert_ok(doc_of(lines@), line as int, col as int) && selections@.len() % 4 == 0
            && fits_usize(selections_after_insert(selections@, line as int, col as int, text@))),
{
    if !check_insert_position(lines, line, col) || selections.len() % 4 != 0 {
        return false;
    }
    let pieces = split_lines(text);
    proof {
        lemma_newline_pieces_nonempty(text@);
    }
    let n = pieces.len();
    let last_len = pieces[n - 1].len();
    assert(pieces@[n - 1]@ == newline_pieces(text@).last());
    check_insert_selections(selections, line, col, n - 1, last_len)
}

/// Exec test of a valid removal range that can be read and whose selections
/// move without overflow.
pub fn remove_allowed(lines: &Vec<Vec<u8>>, selections: &Vec<usize>, line1: usize, col1: usize, line2: usize, col2: usize) -> (r: bool)
    ensures
        r == (remove_ok(doc_of(lines@), line1 as int, col1 as int, line2 as int, col2 as int)
            && get_text_ok(doc_of(lines@), line1 as int, col1 as int, line2 as int, col2 as int, false)
            && fits_usize(shift_after_remove(ints(selections@), line1 as int, col1 as int, line2 as int, col2 as int))),
{
    check_remove_range(lines, line1, col1, line2, col2) && check_get_text(lines, line1, col1, line2, col2, false)
        && check_remove_selections(selections, line1, col1, line2, col2)
}

/// One bulk edit applied to the document `d`, the selections `s` and the
/// inverse edits `inv` gathered so far; `None` where a position or a
/// selection is out of the range the edit operations accept.
#[verifier::opaque]
pub open spec fn bulk_step(d: Seq<Seq<u8>>, s: Seq<usize>, e: BulkView, inv: Seq<EditView>) -> Option<
    (Seq<Seq<u8>>, Seq<usize>, Seq<EditView>),
> {
    let (l1, c1, l2, c2, text) = e;
    let removed = if l1 != l2 || c1 != c2 {
        if remove_ok(d, l1 as int, c1 as int, l2 as int, c2 as int) && get_text_ok(d, l1 as int, c1 as int, l2 as int, c2 as int, false)
            && fits_usize(shift_after_remove(ints(s), l1 as int, c1 as int, l2 as int, c2 as int)) {
            Some(
                (
                    doc_after_remove(d, l1 as int, c1 as int, l2 as int, c2 as int),
                    to_usizes(selections_after_remove(s, l1 as int, c1 as int, l2 as int, c2 as int)),
                    inv.push((kind_insert(), l1, c1, l1, c1, spec_get_text(d, l1 as int, c1 as int, l2 as int, c2 as int, false))),
                ),
            )
        } else {
            None
        }
    } else {
        Some((d, s, inv))
    };
    match removed {
        None => None,
        Some((d1, s1, inv1)) => if text.len() > 0 {
            if insert_ok(d1, l1 as int, c1 as int) && s1.len() % 4 == 0 && fits_usize(
                selections_after_insert(s1, l1 as int, c1 as int, text),
            ) {
                let nd = doc_after_insert(d1, l1 as int, c1 as int, text);
                let p = inserted_end(nd, l1, c1, text.len());
                Some(
                    (
                        nd,
                        to_usizes(selections_after_insert(s1, l1 as int, c1 as int, text)),
                        inv1.push((kind_remove(), l1, c1, p.0 as usize, p.1 as usize, seq![])),
                    ),
                )
            } else {
                None
            }
        } else {
            Some((d1, s1, inv1))
        },
    }
}

/// Bulk edits applied in order.
pub open spec fn bulk_fold(d: Seq<Seq<u8>>, s: Seq<usize>, es: Seq<BulkView>, inv: Seq<EditView>) -> Option<
    (Seq<Seq<u8>>, Seq<usize>, Seq<EditView>),
>
    decreases es.len(),
{
    if es.len() == 0 {
        Some((d, s, inv))
    } else {
        match bulk_step(d, s, es[0], inv) {
            None => None,
            Some((d1, s1, inv1)) => bulk_fold(d1, s1, es.drop_first(), inv1),
        }
    }
}

/// The views of a list of bulk edits.
pub open spec fn bulk_views(es: Seq<BulkEdit>) -> Seq<BulkView> {
    es.map_values(|e: BulkEdit| e@)
}

/// Applies one bulk edit, gathering its inverse edits; `false` (with no
/// promise about the state) where `bulk_step` gives `None`.
fn bulk_apply_one(
    lines: &mut Vec<Vec<u8>>,
    selections: &mut Vec<usize>,
    inverse: &mut Vec<EditRecord>,
    e: &BulkEdit,
) -> (ok: bool)
    ensures
        bulk_step(doc_of(old(lines)@), old(selections)@, e@, views(old(inverse)@)) matches Some(
            (d1, s1, i1),
        ) ==> ok && doc_of(final(lines)@) == d1 && final(selections)@ == s1 && views(
            final(inverse)@,
        ) == i1,
        bulk_step(doc_of(old(lines)@), old(selections)@, e@, views(old(inverse)@)) is None ==> !ok,
        ok ==> final(selections)@.len() % 4 == old(selections)@.len() % 4,
{
    reveal(bulk_step);
    if e.line1 != e.line2 || e.col1 != e.col2 {
        if !remove_allowed(lines, selections, e.line1, e.col1, e.line2, e.col2) {
            return false;
        }
        let ghost s = selections@;
        let removed = get_text(lines, e.line1, e.col1, e.line2, e.col2, false);
        apply_remove_internal(lines, selections, e.line1, e.col1, e.line2, e.col2);
        proof {
            lemma_selections_after_remove_len(s, e.line1 as int, e.col1 as int, e.line2 as int, e.col2 as int);
            lemma_to_usizes(selections@, selections_after_remove(s, e.line1 as int, e.col1 as int, e.line2 as int, e.col2 as int));
        }
        let ghost before_push = inverse@;
        inverse.push(EditRecord { kind: 105, line1: e.line1, col1: e.col1, line2: e.line1, col2: e.col1, text: removed });
        assert(views(inverse@) =~= views(before_push).push(inverse@.last()@));
    }
    if e.text.len() > 0 {
        if !insert_allowed(lines, selections, e.line1, e.col1, e.text.as_slice()) {
            return false;
        }
        let ghost s1 = selections@;
        apply_insert_internal(lines, selections, e.line1, e.col1, e.text.as_slice());
        proof {
            lemma_newline_pieces_nonempty(e.text@);
            let pieces = newline_pieces(e.text@);
            lemma_shift_after_insert_len(ints(s1), e.line1 as int, e.col1 as int, pieces.len() - 1, pieces.last().len() as int);
            lemma_to_usizes(selections@, selections_after_insert(s1, e.line1 as int, e.col1 as int, e.text@));
        }
        let end = position_offset(lines, e.line1, e.col1, e.text.len() as isize);
        let ghost before_push = inverse@;
        inverse.push(EditRecord { kind: 114, line1: e.line1, col1: e.col1, line2: end.0, col2: end.1, text: Vec::new() });
        assert(views(inverse@) =~= views(before_push).push(inverse@.last()@));
    }
    true
}

/// Replays one edit record, gathering its inverse; `false` (with no promise
/// about the state) where `replay_step` gives `None`.
fn replay_one(
    lines: &mut Vec<Vec<u8>>,
    working: &mut Vec<usize>,
    inverse: &mut Vec<EditRecord>,
    edit: &EditRecord,
) -> (ok: bool)
    ensures
        replay_step(doc_of(old(lines)@), old(working)@, edit@, views(old(inverse)@)) matches Some(
            (d1, s1, i1),
        ) ==> ok && doc_of(final(lines)@) == d1 && final(working)@ == s1 && views(
            final(inverse)@,
        ) == i1,
        replay_step(doc_of(old(lines)@), old(working)@, edit@, views(old(inverse)@)) is None ==> !ok,
{
    reveal(replay_step);
    if !single_edit_allowed(lines, working, edit) {
        return false;
    }
    let ghost s = working@;
    let ghost d = doc_of(lines@);
    let inv = apply_single_edit(lines, working, edit);
    proof {
        lemma_to_usizes(working@, single_edit_result(d, s, edit@).1);
    }
    let ghost before_push = inverse@;
    inverse.push(inv);
    assert(views(inverse@) =~= views(before_push).push(inverse@.last()@));
    true
}

/// Applies several edits in order: each removes its range unless it is
/// empty, then inserts its text unless it is empty. The undo record holds the
/// inverse edits in reverse order and the selections it started from. Fails with
/// `InvalidEdit` where a position or selection is out of range, or a line
/// count exceeds `isize::MAX`.
pub fn make_bulk_result(lines: Vec<Vec<u8>>, selections: Vec<usize>, edits: &[BulkEdit]) -> (r: Result<EditOutcome, EditError>)
    ensures
        ({
            let fold = bulk_fold(doc_of(lines@), selections@, bulk_views(edits@), seq![]);
            let bad = selections@.len() % 4 != 0 || fold is None || lines@.len() > isize::MAX
                || fold.unwrap().0.len() > isize::MAX;
            &&& r is Err <==> bad
            &&& r is Err ==> r == Err::<EditOutcome, EditError>(EditError::InvalidEdit)
            &&& r matches Ok(o) ==> {
                &&& doc_of(o.lines@) == fold.unwrap().0
                &&& ints(o.selections@) == sanitized_selections(fold.unwrap().0, fold.unwrap().1)
                &&& o.undo@ == encode_record(selections@, fold.unwrap().2.reverse())
                &&& o.line_delta as int == line_delta_of(lines@.len() as int, fold.unwrap().0.len() as int)
            }
        }),
{
    let ghost d0 = doc_of(lines@);
    let ghost s0 = selections@;
    let ghost es = bulk_views(edits@);
    if selections.len() % 4 != 0 {
        return Err(EditError::InvalidEdit);
    }
    let mut lines = lines;
    let mut selections = selections;
    let selection_restore = selections.clone();
    let before_len = lines.len();
    let mut inverse: Vec<EditRecord> = Vec::new();
    let mut i: usize = 0;
    assert(es.subrange(0, es.len() as int) =~= es);
    assert(views(inverse@) =~= Seq::<EditView>::empty());
    let mut failed = false;
    while i < edits.len() && !failed
        invariant
            i <= edits@.len(),
            es == bulk_views(edits@),
            selection_restore@ == s0,
            before_len == d0.len(),
            !failed ==> selections@.len() % 4 == 0,
            failed ==> bulk_fold(d0, s0, es, seq![]) is None,
            !failed ==> bulk_fold(d0, s0, es, seq![]) == bulk_fold(
                doc_of(lines@),
                selections@,
                es.subrange(i as int, es.len() as int),
                views(inverse@),
            ),
        decreases edits@.len() - i + (if failed { 0int } else { 1int }),
    {
        let ghost rest = es.subrange(i as int, es.len() as int);
        assert(rest[0] == edits@[i as int]@);
        assert(rest.drop_first() =~= es.subrange(i + 1, es.len() as int));
        let ghost d = doc_of(lines@);
        let ghost s = selections@;
        let ghost inv = views(inverse@);
        if !bulk_apply_one(&mut lines, &mut selections, &mut inverse, &edits[i]) {
            assert(bulk_step(d, s, rest[0], inv) is None);
            assert(bulk_fold(d, s, rest, inv) is None);
            failed = true;
        } else {
            i = i + 1;
        }
    }
    if failed {
        return Err(EditError::InvalidEdit);
    }
    assert(es.subrange(i as int, es.len() as int) =~= Seq::<BulkView>::empty());
    let inverse = reverse_records(inverse);
    sanitize_selections(&lines, &mut selections);
    let undo = pack_record(selection_restore.as_slice(), inverse.as_slice());
    if before_len > isize::MAX as usize || lines.len() > isize::MAX as usize {
        return Err(EditError::InvalidEdit);
    }
    assert(doc_of(lines@).len() == lines@.len());
    let line_delta = lines.len() as isize - before_len as isize;
    Ok(EditOutcome { lines, selections, undo, line_delta })
}

/// One edit record replayed on the document `d` and the selections `s`,
/// after the inverse edits `inv` gathered so far; `None` where the record is
/// out of the range the edit operations accept.
#[verifier::opaque]
pub open spec fn replay_step(d: Seq<Seq<u8>>, s: Seq<usize>, e: EditView, inv: Seq<EditView>) -> Option<
    (Seq<Seq<u8>>, Seq<usize>, Seq<EditView>),
> {
    if !single_edit_ok(d, s, e) {
        None
    } else {
        let r = single_edit_result(d, s, e);
        Some((r.0, to_usizes(r.1), inv.push(r.2)))
    }
}

/// Edit records replayed in order.
pub open spec fn replay_fold(d: Seq<Seq<u8>>, s: Seq<usize>, es: Seq<EditView>, inv: Seq<EditView>) -> Option<
    (Seq<Seq<u8>>, Seq<usize>, Seq<EditView>),
>
    decreases es.len(),
{
    if es.len() == 0 {
        Some((d, s, inv))
    } else {
        match replay_step(d, s, es[0], inv) {
            None => None,
            Some((d1, s1, inv1)) => replay_fold(d1, s1, es.drop_first(), inv1),
        }
    }
}

/// Replays a packed undo (or redo) record: its edits are applied in order,
/// the selections are restored from the record, and the result carries the
/// record that replays the inverse edits (with the current selections).
pub fn apply_packed_result(lines: Vec<Vec<u8>>, selections: Vec<usize>, packed: &[u8]) -> (r: Result<EditOutcome, EditError>)
    ensures
        decode_record(packed@) is None ==> r == Err::<EditOutcome, EditError>(EditError::BadRecord),
        decode_record(packed@) matches Some((restore, es)) ==> {
            let fold = replay_fold(doc_of(lines@), selections@, es, seq![]);
            let bad = fold is None || restore.len() % 4 != 0 || lines@.len() > isize::MAX
                || fold.unwrap().0.len() > isize::MAX;
            &&& r is Err <==> bad
            &&& r is Err ==> r == Err::<EditOutcome, EditError>(EditError::InvalidEdit)
            &&& r matches Ok(o) ==> {
                &&& doc_of(o.lines@) == fold.unwrap().0
                &&& ints(o.selections@) == sanitized_selections(fold.unwrap().0, restore)
                &&& o.undo@ == encode_record(selections@, fold.unwrap().2.reverse())
                &&& o.line_delta as int == line_delta_of(lines@.len() as int, fold.unwrap().0.len() as int)
            }
        },
{
    let ghost d0 = doc_of(lines@);
    let ghost s0 = selections@;
    let (selection_restore, edits) = unpack_record(packed)?;
    let ghost es = views(edits@);
    let mut lines = lines;
    let before_len = lines.len();
    let mut working = selections.clone();
    let mut inverse: Vec<EditRecord> = Vec::new();
    let mut i: usize = 0;
    assert(es.subrange(0, es.len() as int) =~= es);
    assert(views(inverse@) =~= Seq::<EditView>::empty());
    let mut failed = false;
    while i < edits.len() && !failed
        invariant
            i <= edits@.len(),
            es == views(edits@),
            selections@ == s0,
            before_len == d0.len(),
            failed ==> replay_fold(d0, s0, es, seq![]) is None,
            !failed ==> replay_fold(d0, s0, es, seq![]) == replay_fold(
                doc_of(lines@),
                working@,
                es.subrange(i as int, es.len() as int),
                views(inverse@),
            ),
        decreases edits@.len() - i + (if failed { 0int } else { 1int }),
    {
        let ghost rest = es.subrange(i as int, es.len() as int);
        assert(rest[0] == edits@[i as int]@);
        assert(rest.drop_first() =~= es.subrange(i + 1, es.len() as int));
        let ghost d = doc_of(lines@);
        let ghost s = working@;
        let ghost inv = views(inverse@);
        if !replay_one(&mut lines, &mut working, &mut inverse, &edits[i]) {
            assert(replay_step(d, s, rest[0], inv) is None);
            assert(replay_fold(d, s, rest, inv) is None);
            failed = true;
        } else {
            i = i + 1;
        }
    }
    if failed {
        return Err(EditError::InvalidEdit);
    }
    assert(es.subrange(i as int, es.len() as int) =~= Seq::<EditView>::empty());
    let inverse = reverse_records(inverse);
    let mut restored = selection_restore;
    if restored.len() % 4 != 0 {
        return Err(EditError::InvalidEdit);
    }
    sanitize_selections(&lines, &mut restored);
    let redo = pack_record(selections.as_slice(), inverse.as_slice());
    if before_len > isize::MAX as usize || lines.len() > isize::MAX as usize {
        return Err(EditError::InvalidEdit);
    }
    assert(doc_of(lines@).len() == lines@.len());
    let line_delta = lines.len() as isize - before_len as isize;
    Ok(EditOutcome { lines, selections: restored, undo: redo, line_delta })
}

} // verus!
