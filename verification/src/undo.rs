//! What undo records give back, and the line shape that edits keep.
//! Replaying the record of an insertion, a removal or a bulk edit on the
//! document it left restores the document it was made on, and the record
//! that replay returns redoes the edit; insertions and removals keep every
//! line valid UTF-8 and ended by its only newline.
use vstd::prelude::*;
use vstd::utf8::valid_utf8;
use crate::doc::{
    at_char_boundary, doc_after_insert, doc_after_remove, fits_usize, get_text_ok, insert_block,
    insert_ok, ints, join_lines, lemma_newline_pieces_join, lemma_newline_pieces_nonempty,
    lemma_sanitize_in_range, lemma_shift_after_insert_len, lemma_shift_after_remove_len, max1,
    middle_text, newline_pieces, remove_ok, remove_point, sanitize, sanitized_selections,
    selections_after_insert, selections_after_remove, shift_after_insert, shift_after_remove,
    spec_get_text, spec_position_offset, walk,
};
use crate::edit::{
    bulk_fold, bulk_step, inserted_end, kind_insert, kind_remove, replay_fold, replay_step,
    single_edit_ok, single_edit_result, to_usizes, BulkView,
};
use crate::record::{decode_record, edit_fits, encode_record, lemma_record_round_trip, EditView};

verus! {

broadcast use vstd::seq_lib::group_seq_properties;

/// The bytes a walk crosses from the start of the first of `pieces` to the
/// start of piece `j`: each piece before it and the newline that ends it.
pub open spec fn pieces_span(pieces: Seq<Seq<u8>>, j: int) -> int
    decreases j,
{
    if j <= 0 {
        0
    } else {
        pieces_span(pieces, j - 1) + pieces[j - 1].len() + 1
    }
}

proof fn lemma_span_agree(p: Seq<Seq<u8>>, q: Seq<Seq<u8>>, j: int)
    requires
        0 <= j <= p.len(),
        j <= q.len(),
        forall|i: int| 0 <= i < j ==> p[i] == q[i],
    ensures
        pieces_span(p, j) == pieces_span(q, j),
    decreases j,
{
    if j > 0 {
        lemma_span_agree(p, q, j - 1);
    }
}

/// Joining lines gives their bytes plus one newline between each two, and
/// starts with the first line.
proof fn lemma_join_shape(s: Seq<Seq<u8>>)
    requires
        s.len() >= 1,
    ensures
        join_lines(s).len() == pieces_span(s, s.len() - 1) + s.last().len(),
        join_lines(s).subrange(0, s[0].len() as int) == s[0],
    decreases s.len(),
{
    if s.len() > 1 {
        let s2 = s.drop_last();
        lemma_join_shape(s2);
        lemma_span_agree(s, s2, s.len() - 2);
        assert(join_lines(s) == join_lines(s2) + seq![10u8] + s.last());
        lemma_span_nonneg(s2, s2.len() - 1);
        assert(s2[0] == s[0]);
        assert(join_lines(s2).len() >= s[0].len());
        assert(join_lines(s).subrange(0, s[0].len() as int) =~= join_lines(s2).subrange(
            0,
            s[0].len() as int,
        ));
    }
}

proof fn lemma_span_nonneg(p: Seq<Seq<u8>>, j: int)
    ensures
        pieces_span(p, j) >= 0,
        j >= 1 ==> pieces_span(p, j) >= p[0].len() + 1,
    decreases j,
{
    if j > 0 {
        lemma_span_nonneg(p, j - 1);
    }
}

/// The first byte of a non-empty valid UTF-8 text starts a character.
proof fn lemma_utf8_lead(b: Seq<u8>)
    requires
        valid_utf8(b),
        b.len() > 0,
    ensures
        !(0x80 <= b[0] <= 0xbf),
{
}

/// Walking `k` bytes inside one line moves `k` columns.
proof fn lemma_walk_in_line(d: Seq<Seq<u8>>, l: int, c: int, k: int, m: int)
    requires
        1 <= l <= d.len(),
        1 <= c,
        0 <= k,
        0 <= m,
        c + k <= d[l - 1].len(),
    ensures
        walk(d, l, c, k + m) == walk(d, l, c + k, m),
    decreases k,
{
    if k > 0 {
        lemma_walk_in_line(d, l, c + 1, k - 1, m);
    }
}

/// The line of the document after an insertion that holds piece `j` of the
/// inserted text.
proof fn lemma_block_lines(d: Seq<Seq<u8>>, line: int, col: int, t: Seq<u8>)
    requires
        insert_ok(d, line, col),
    ensures
        ({
            let cur = d[line - 1];
            let p = newline_pieces(t);
            let nd = doc_after_insert(d, line, col, t);
            let b = insert_block(cur.subrange(0, col - 1), p, cur.subrange(col - 1, cur.len() as int));
            &&& p.len() >= 1
            &&& nd.len() == d.len() - 1 + p.len()
            &&& forall|j: int| 0 <= j < p.len() ==> #[trigger] nd[line - 1 + j] == b[j]
            &&& forall|j: int| 0 <= j < line - 1 ==> #[trigger] nd[j] == d[j]
            &&& forall|j: int| line <= j < d.len() ==> #[trigger] nd[j + p.len() - 1] == d[j]
        }),
{
    lemma_newline_pieces_nonempty(t);
}

/// The column at which piece `j` of a text inserted at column `col` starts.
pub open spec fn piece_start(col: int, j: int) -> int {
    if j == 0 {
        col
    } else {
        1
    }
}

/// Walking from the insertion point over the pieces before piece `j` and
/// their newlines reaches the start of piece `j`.
proof fn lemma_walk_block(d: Seq<Seq<u8>>, line: int, col: int, t: Seq<u8>, j: int, r: int)
    requires
        insert_ok(d, line, col),
        0 <= j < newline_pieces(t).len(),
        0 <= r,
    ensures
        walk(doc_after_insert(d, line, col, t), line, col, pieces_span(newline_pieces(t), j) + r)
            == walk(doc_after_insert(d, line, col, t), line + j, piece_start(col, j), r),
    decreases j,
{
    if j > 0 {
        let p = newline_pieces(t);
        let nd = doc_after_insert(d, line, col, t);
        let cur = d[line - 1];
        let b = insert_block(cur.subrange(0, col - 1), p, cur.subrange(col - 1, cur.len() as int));
        lemma_block_lines(d, line, col, t);
        let q = p[j - 1].len() as int;
        lemma_walk_block(d, line, col, t, j - 1, q + 1 + r);
        let l = line + j - 1;
        assert(nd[l - 1] == b[j - 1]);
        assert(nd[l - 1].len() == piece_start(col, j - 1) - 1 + q + 1);
        lemma_walk_in_line(nd, l, piece_start(col, j - 1), q, 1 + r);
        assert(l < nd.len());
        assert(walk(nd, l, piece_start(col, j - 1) + q, 1 + r) == walk(nd, l + 1, 1, r));
    }
}

/// Where a walk over the inserted bytes ends: right after the last piece,
/// in the line that holds it.
proof fn lemma_walk_inserted(d: Seq<Seq<u8>>, line: int, col: int, t: Seq<u8>)
    requires
        insert_ok(d, line, col),
        col <= d[line - 1].len(),
    ensures
        ({
            let p = newline_pieces(t);
            let nd = doc_after_insert(d, line, col, t);
            &&& walk(nd, line, col, t.len() as int) == (
                line + p.len() - 1,
                piece_start(col, p.len() - 1) + p.last().len(),
            )
            &&& nd[line + p.len() - 2].len() == piece_start(col, p.len() - 1) - 1 + p.last().len()
                + d[line - 1].len() - (col - 1)
        }),
{
    let p = newline_pieces(t);
    let n = p.len() as int;
    let nd = doc_after_insert(d, line, col, t);
    let cur = d[line - 1];
    let b = insert_block(cur.subrange(0, col - 1), p, cur.subrange(col - 1, cur.len() as int));
    lemma_block_lines(d, line, col, t);
    lemma_newline_pieces_join(t);
    lemma_join_shape(p);
    let q = p.last().len() as int;
    lemma_walk_block(d, line, col, t, n - 1, q);
    let l = line + n - 1;
    assert(nd[l - 1] == b[n - 1]);
    assert(nd[l - 1].len() == piece_start(col, n - 1) - 1 + q + cur.len() - (col - 1));
    lemma_walk_in_line(nd, l, piece_start(col, n - 1), q, 0);
}

/// Removing the text an insertion put in gives the document back, when the
/// insertion point lies before the last byte of its line.
proof fn lemma_remove_inserted(d: Seq<Seq<u8>>, line: int, col: int, t: Seq<u8>)
    requires
        insert_ok(d, line, col),
        col <= d[line - 1].len(),
    ensures
        ({
            let p = newline_pieces(t);
            let nd = doc_after_insert(d, line, col, t);
            doc_after_remove(
                nd,
                line,
                col,
                line + p.len() - 1,
                piece_start(col, p.len() - 1) + p.last().len(),
            ) == d
        }),
{
    let p = newline_pieces(t);
    let n = p.len() as int;
    let nd = doc_after_insert(d, line, col, t);
    let cur = d[line - 1];
    let before = cur.subrange(0, col - 1);
    let after = cur.subrange(col - 1, cur.len() as int);
    let b = insert_block(before, p, after);
    lemma_block_lines(d, line, col, t);
    let l2 = line + n - 1;
    let c2 = piece_start(col, n - 1) + p.last().len();
    assert(nd[line - 1] == b[0]);
    assert(nd[line - 1].subrange(0, col - 1) =~= before);
    assert(nd[l2 - 1] == b[n - 1]);
    assert(nd[l2 - 1].subrange(c2 - 1, nd[l2 - 1].len() as int) =~= after);
    assert(before + after =~= cur);
    let r = doc_after_remove(nd, line, col, l2, c2);
    assert(nd.subrange(0, line - 1) =~= d.subrange(0, line - 1));
    assert(nd.subrange(l2, nd.len() as int) =~= d.subrange(line, d.len() as int));
    assert(r =~= d);
}

/// Points `(s[k - 1], s[k])` on line `l2` past column `c2` move to a column
/// that fits in a `usize` when `(l2, c2)` ends a removal that starts at
/// column `c1`.
pub open spec fn moved_columns_fit(s: Seq<int>, c1: int, l2: int, c2: int) -> bool {
    forall|k: int|
        0 < k < s.len() && k % 2 == 1 && s[k - 1] == l2 && #[trigger] s[k] > c2 ==> s[k] - c2 + c1
            <= usize::MAX
}

/// The selections that a removal moves keep fitting in a `usize`.
proof fn lemma_shift_remove_fits(s: Seq<int>, l1: int, c1: int, l2: int, c2: int)
    requires
        s.len() % 4 == 0,
        fits_usize(s),
        1 <= l1 <= l2 <= usize::MAX,
        1 <= c1 <= usize::MAX,
        moved_columns_fit(s, c1, l2, c2),
    ensures
        fits_usize(shift_after_remove(s, l1, c1, l2, c2)),
    decreases s.len(),
{
    if !(s.len() < 4 || s[s.len() - 2] < l1) {
        let n = s.len() as int;
        let pre = s.subrange(0, n - 4);
        assert(moved_columns_fit(pre, c1, l2, c2)) by {
            assert forall|k: int|
                0 < k < pre.len() && k % 2 == 1 && pre[k - 1] == l2 && #[trigger] pre[k] > c2 implies pre[k]
                - c2 + c1 <= usize::MAX by {
                assert(s[k] == pre[k] && s[k - 1] == pre[k - 1]);
            }
        }
        lemma_shift_remove_fits(pre, l1, c1, l2, c2);
        lemma_shift_after_remove_len(pre, l1, c1, l2, c2);
        let g = s.subrange(n - 4, n);
        assert(s[n - 4] == l2 && s[n - 3] > c2 ==> s[n - 3] - c2 + c1 <= usize::MAX);
        assert(s[n - 2] == l2 && s[n - 1] > c2 ==> s[n - 1] - c2 + c1 <= usize::MAX);
        let r = shift_after_remove(s, l1, c1, l2, c2);
        let rp = shift_after_remove(pre, l1, c1, l2, c2);
        assert(r == rp + crate::doc::remove_group(g, l1, c1, l2, c2));
        assert forall|k: int| 0 <= k < r.len() implies 0 <= #[trigger] r[k] <= usize::MAX by {
            if k < rp.len() {
                assert(r[k] == rp[k]);
            }
        }
    }
}

/// The column of the end of a text inserted at column `col`.
pub open spec fn inserted_end_col(col: int, t: Seq<u8>) -> int {
    piece_start(col, newline_pieces(t).len() - 1) + newline_pieces(t).last().len()
}

/// The byte at a cut of a line that the insertion leaves at column `col` of
/// line `line` starts a character; so does the byte after the inserted text.
proof fn lemma_cuts_after_insert(d: Seq<Seq<u8>>, line: int, col: int, t: Seq<u8>)
    requires
        insert_ok(d, line, col),
        col <= d[line - 1].len(),
        valid_utf8(d[line - 1]),
        valid_utf8(t),
    ensures
        ({
            let p = newline_pieces(t);
            let nd = doc_after_insert(d, line, col, t);
            let l2 = line + p.len() - 1;
            let c2 = inserted_end_col(col, t);
            &&& at_char_boundary(nd[line - 1], col - 1)
            &&& col <= nd[line - 1].len()
            &&& at_char_boundary(nd[l2 - 1], c2 - 1)
            &&& c2 <= nd[l2 - 1].len()
        }),
{
    let p = newline_pieces(t);
    let n = p.len() as int;
    let nd = doc_after_insert(d, line, col, t);
    let cur = d[line - 1];
    let before = cur.subrange(0, col - 1);
    let after = cur.subrange(col - 1, cur.len() as int);
    let b = insert_block(before, p, after);
    lemma_block_lines(d, line, col, t);
    lemma_walk_inserted(d, line, col, t);
    lemma_newline_pieces_join(t);
    lemma_join_shape(p);
    lemma_utf8_lead(cur);
    assert(!(0x80 <= after[0] <= 0xbf)) by {
        assert(after[0] == cur[col - 1]);
    }
    assert(nd[line - 1] == b[0]);
    if p[0].len() > 0 {
        lemma_utf8_lead(t);
        lemma_span_nonneg(p, n - 1);
        assert(t[0] == p[0][0]) by {
            assert(t.subrange(0, p[0].len() as int)[0] == t[0]);
        }
        assert(nd[line - 1][col - 1] == p[0][0]);
    } else if n > 1 {
        assert(nd[line - 1][col - 1] == 10);
    } else {
        assert(nd[line - 1][col - 1] == after[0]);
    }
    let l2 = line + n - 1;
    let c2 = inserted_end_col(col, t);
    assert(nd[l2 - 1] == b[n - 1]);
    assert(nd[l2 - 1][c2 - 1] == after[0]);
}

/// Every selection point of `s` lies inside the document `d`, as
/// sanitizing leaves it: a line of the document, and a column from 1 to the
/// line's length (1 on an empty line).
pub open spec fn sane_selections(d: Seq<Seq<u8>>, s: Seq<usize>) -> bool {
    &&& s.len() % 4 == 0
    &&& forall|k: int|
        0 <= k && k + 1 < s.len() && k % 2 == 0 ==> 1 <= #[trigger] s[k] <= d.len() && 1 <= s[k
            + 1] <= max1(d[s[k] - 1].len() as int)
}

/// Sanitized selections are sane, when the document's numbers fit in a
/// `usize`.
pub proof fn lemma_sanitized_sane(d: Seq<Seq<u8>>, x: Seq<usize>)
    requires
        d.len() > 0,
        d.len() <= usize::MAX,
        forall|k: int| 0 <= k < d.len() ==> #[trigger] d[k].len() <= usize::MAX,
        x.len() % 4 == 0,
    ensures
        sane_selections(d, to_usizes(sanitized_selections(d, x))),
{
    let san = sanitized_selections(d, x);
    let y = to_usizes(san);
    assert forall|k: int| 0 <= k && k + 1 < y.len() && k % 2 == 0 implies 1 <= #[trigger] y[k] <= d.len()
        && 1 <= y[k + 1] <= max1(d[y[k] - 1].len() as int) by {
        let g = k - k % 4;
        assert(k + 1 - (k + 1) % 4 == g);
        let a = if k % 4 < 2 { x[g] as int } else { x[g + 2] as int };
        let c = if k % 4 < 2 { x[g + 1] as int } else { x[g + 3] as int };
        lemma_sanitize_in_range(d, a, c);
        let pt = sanitize(d, a, c);
        assert(san[k] == pt.0 && san[k + 1] == pt.1);
        assert(d[pt.0 - 1].len() <= usize::MAX);
    }
}

/// Undoing an insertion, with selections inside the document (see
/// `lemma_insert_undone`).
#[verifier::spinoff_prover]
#[verifier::rlimit(80)]
proof fn lemma_insert_undone_sane(
    d: Seq<Seq<u8>>,
    s: Seq<usize>,
    line: usize,
    col: usize,
    t: Seq<u8>,
    s2: Seq<usize>,
)
    requires
        single_edit_ok(d, s, (kind_insert(), line, col, line, col, t)),
        col <= d[line - 1].len(),
        valid_utf8(d[line - 1]),
        valid_utf8(t),
        d.len() + t.len() <= usize::MAX,
        d[line - 1].len() + t.len() <= usize::MAX,
        t.len() <= isize::MAX,
        sane_selections(single_edit_result(d, s, (kind_insert(), line, col, line, col, t)).0, s2),
    ensures
        ({
            let r = single_edit_result(d, s, (kind_insert(), line, col, line, col, t));
            &&& single_edit_ok(r.0, s2, r.2)
            &&& single_edit_result(r.0, s2, r.2).0 == d
            &&& single_edit_result(r.0, s2, r.2).2 == (kind_insert(), line, col, line, col, t)
        }),
{
    lemma_read_inserted(d, line as int, col as int, t);
    let e = (kind_insert(), line, col, line, col, t);
    let r = single_edit_result(d, s, e);
    let p = newline_pieces(t);
    let n = p.len() as int;
    let nd = doc_after_insert(d, line as int, col as int, t);
    let cur = d[line - 1];
    lemma_block_lines(d, line as int, col as int, t);
    lemma_walk_inserted(d, line as int, col as int, t);
    lemma_remove_inserted(d, line as int, col as int, t);
    lemma_cuts_after_insert(d, line as int, col as int, t);
    lemma_newline_pieces_join(t);
    lemma_join_shape(p);
    lemma_newline_pieces_nonempty(t);
    let l2 = line + n - 1;
    let c2 = inserted_end_col(col as int, t);
    // The end of the inserted text, as the record holds it.
    assert(sanitize(nd, line as int, col as int) == (line as int, col as int));
    assert(((t.len() as isize) as int) == t.len());
    assert(spec_position_offset(nd, line as int, col as int, t.len() as int) == (l2, c2));
    assert(c2 <= cur.len() + t.len());
    assert(r.0 == nd);
    assert(r.2 == (kind_remove(), line, col, l2 as usize, c2 as usize, Seq::<u8>::empty()));
    assert(r.2.3 as int == l2 && r.2.4 as int == c2);
    assert(remove_ok(nd, line as int, col as int, l2, c2));
    assert(get_text_ok(nd, line as int, col as int, l2, c2, false));
    // The selections move without overflow.
    let si = ints(s2);
    assert(fits_usize(si));
    assert(moved_columns_fit(si, col as int, l2, c2)) by {
        assert forall|k: int|
            0 < k < si.len() && k % 2 == 1 && si[k - 1] == l2 && #[trigger] si[k] > c2 implies si[k]
            - c2 + col <= usize::MAX by {
            assert(s2[k - 1] as int == l2);
            assert(s2[k] <= max1(nd[l2 - 1].len() as int));
        }
    }
    lemma_shift_remove_fits(si, line as int, col as int, l2, c2);
}

/// The selection list `s` holds whole selections, and those that replaying
/// `e` moves keep fitting in a `usize` (the selection part of
/// `single_edit_ok`).
pub open spec fn selections_fit(s: Seq<usize>, e: EditView) -> bool {
    &&& s.len() % 4 == 0
    &&& if e.0 == kind_insert() {
        fits_usize(selections_after_insert(s, e.1 as int, e.2 as int, e.5))
    } else {
        fits_usize(shift_after_remove(ints(s), e.1 as int, e.2 as int, e.3 as int, e.4 as int))
    }
}

/// Whether an edit applies, the document it gives and the edit that undoes
/// it depend on the selections only through `selections_fit`.
proof fn lemma_other_selections(d: Seq<Seq<u8>>, s1: Seq<usize>, s2: Seq<usize>, e: EditView)
    requires
        single_edit_ok(d, s1, e),
        selections_fit(s2, e),
    ensures
        single_edit_ok(d, s2, e),
        single_edit_result(d, s2, e).0 == single_edit_result(d, s1, e).0,
        single_edit_result(d, s2, e).2 == single_edit_result(d, s1, e).2,
        selections_fit(s1, e),
{
}

/// Undoing an insertion restores the document: the record that inserting
/// `t` at `(line, col)` returns can be applied to the document the insertion
/// left, with any selection list whose moved values fit in a `usize`,
/// applying it gives back the document the insertion was made on, and the
/// record it returns in turn (the redo) is the insertion again. This holds
/// for valid UTF-8 texts inserted before the last byte of a line (such as
/// its `\n`), with numbers that fit in a `usize`.
pub proof fn lemma_insert_undone(
    d: Seq<Seq<u8>>,
    s: Seq<usize>,
    line: usize,
    col: usize,
    t: Seq<u8>,
    s2: Seq<usize>,
)
    requires
        single_edit_ok(d, s, (kind_insert(), line, col, line, col, t)),
        col <= d[line - 1].len(),
        valid_utf8(d[line - 1]),
        valid_utf8(t),
        d.len() + t.len() <= usize::MAX,
        d[line - 1].len() + t.len() <= usize::MAX,
        t.len() <= isize::MAX,
        selections_fit(s2, single_edit_result(d, s, (kind_insert(), line, col, line, col, t)).2),
    ensures
        ({
            let r = single_edit_result(d, s, (kind_insert(), line, col, line, col, t));
            &&& single_edit_ok(r.0, s2, r.2)
            &&& single_edit_result(r.0, s2, r.2).0 == d
            &&& single_edit_result(r.0, s2, r.2).2 == (kind_insert(), line, col, line, col, t)
        }),
{
    let r = single_edit_result(d, s, (kind_insert(), line, col, line, col, t));
    lemma_insert_undone_sane(d, s, line, col, t, seq![]);
    lemma_other_selections(r.0, seq![], s2, r.2);
}

/// The removal record that undoes an insertion: it starts at the insertion
/// point and ends right after the inserted text.
proof fn lemma_insert_inverse(d: Seq<Seq<u8>>, s: Seq<usize>, line: usize, col: usize, t: Seq<u8>)
    requires
        insert_ok(d, line as int, col as int),
        col <= d[line - 1].len(),
        d.len() + t.len() < 0x1_0000_0000,
        d[line - 1].len() + t.len() < 0x1_0000_0000,
        t.len() <= isize::MAX,
    ensures
        ({
            let r = single_edit_result(d, s, (kind_insert(), line, col, line, col, t));
            &&& r.2.0 == kind_remove()
            &&& r.2.1 == line && r.2.2 == col
            &&& r.2.3 < 0x1_0000_0000 && r.2.4 < 0x1_0000_0000
            &&& r.2.5 == Seq::<u8>::empty()
            &&& line < 0x1_0000_0000 && col < 0x1_0000_0000
        }),
{
    let p = newline_pieces(t);
    let nd = doc_after_insert(d, line as int, col as int, t);
    lemma_walk_inserted(d, line as int, col as int, t);
    lemma_block_lines(d, line as int, col as int, t);
    lemma_newline_pieces_join(t);
    lemma_join_shape(p);
    lemma_newline_pieces_nonempty(t);
    let l2 = line + p.len() - 1;
    let c2 = inserted_end_col(col as int, t);
    assert(sanitize(nd, line as int, col as int) == (line as int, col as int));
    assert(((t.len() as isize) as int) == t.len());
    assert(spec_position_offset(nd, line as int, col as int, t.len() as int) == (l2, c2));
    assert(c2 <= d[line - 1].len() + t.len());
}

/// Replaying a record of one applicable edit applies that edit.
proof fn lemma_replay_one(d: Seq<Seq<u8>>, s: Seq<usize>, e: EditView)
    requires
        single_edit_ok(d, s, e),
    ensures
        replay_fold(d, s, seq![e], seq![]) == Some(
            (
                single_edit_result(d, s, e).0,
                to_usizes(single_edit_result(d, s, e).1),
                seq![single_edit_result(d, s, e).2],
            ),
        ),
{
    reveal(replay_step);
    let r = single_edit_result(d, s, e);
    let es = seq![e];
    assert(es[0] == e);
    assert(replay_step(d, s, e, seq![]) == Some((r.0, to_usizes(r.1), seq![r.2])));
    assert(es.drop_first() =~= Seq::<EditView>::empty());
    assert(replay_fold(r.0, to_usizes(r.1), Seq::<EditView>::empty(), seq![r.2]) == Some(
        (r.0, to_usizes(r.1), seq![r.2]),
    ));
}

/// The undo record that an insertion returns (see `make_insert_result`)
/// reads back as the selections before the insertion and the one removal,
/// and replaying it (see `apply_packed_result`) on the document the
/// insertion left, with any selection list whose moved values fit in a
/// `usize`, gives back the document
/// the insertion was made on, with the insertion as the edit to redo; this
/// holds under the conditions of `lemma_insert_undone`, with numbers that
/// fit the record.
pub proof fn lemma_insert_record_undone(
    d: Seq<Seq<u8>>,
    s: Seq<usize>,
    line: usize,
    col: usize,
    t: Seq<u8>,
    s2: Seq<usize>,
)
    requires
        single_edit_ok(d, s, (kind_insert(), line, col, line, col, t)),
        col <= d[line - 1].len(),
        valid_utf8(d[line - 1]),
        valid_utf8(t),
        d.len() + t.len() < 0x1_0000_0000,
        d[line - 1].len() + t.len() < 0x1_0000_0000,
        t.len() <= isize::MAX,
        s.len() < 0x1_0000_0000,
        forall|k: int| 0 <= k < s.len() ==> #[trigger] s[k] < 0x1_0000_0000,
        selections_fit(s2, single_edit_result(d, s, (kind_insert(), line, col, line, col, t)).2),
    ensures
        ({
            let r = single_edit_result(d, s, (kind_insert(), line, col, line, col, t));
            &&& decode_record(encode_record(s, seq![r.2])) == Some((s, seq![r.2]))
            &&& replay_fold(r.0, s2, seq![r.2], seq![]) matches Some(f) && f.0 == d && f.2 == seq![
                (kind_insert(), line, col, line, col, t),
            ]
        }),
{
    let r = single_edit_result(d, s, (kind_insert(), line, col, line, col, t));
    lemma_insert_undone(d, s, line, col, t, s2);
    lemma_insert_inverse(d, s, line, col, t);
    let inv = r.2;
    assert(edit_fits(inv)) by {
        assert(valid_utf8(Seq::<u8>::empty()));
    }
    lemma_record_round_trip(s, seq![inv]);
    lemma_replay_one(r.0, s2, inv);
}

/// A line whose last byte is its only `\n`.
pub open spec fn line_shape(x: Seq<u8>) -> bool {
    &&& x.len() >= 1
    &&& x.last() == 10
    &&& forall|m: int| 0 <= m < x.len() - 1 ==> x[m] != 10
}

/// A line as the editor keeps it: valid UTF-8, ending with its only `\n`.
pub open spec fn line_ok(x: Seq<u8>) -> bool {
    &&& line_shape(x)
    &&& valid_utf8(x)
}

/// Lines as the editor keeps them: each is valid UTF-8 and ends with its
/// only `\n`.
pub open spec fn well_formed_lines(d: Seq<Seq<u8>>) -> bool {
    forall|k: int| 0 <= k < d.len() ==> line_ok(#[trigger] d[k])
}

/// Splitting the join of newline-free lines gives those lines back.
proof fn lemma_pieces_unique(q: Seq<Seq<u8>>)
    requires
        q.len() >= 1,
        forall|k: int, m: int| 0 <= k < q.len() && 0 <= m < q[k].len() ==> #[trigger] q[k][m] != 10,
    ensures
        newline_pieces(join_lines(q)) == q,
    decreases join_lines(q).len(),
{
    let t = join_lines(q);
    let n = q.len() as int;
    lemma_join_shape(q);
    lemma_span_nonneg(q, n - 1);
    if n > 1 {
        lemma_span_at_least(q, n - 1);
    }
    if t.len() == 0 {
        assert(n == 1);
        assert(q =~= seq![Seq::<u8>::empty()]);
    } else if q.last().len() > 0 {
        let q2 = q.update(n - 1, q.last().drop_last());
        assert(join_lines(q2) =~= t.drop_last()) by {
            if n > 1 {
                assert(q2.drop_last() =~= q.drop_last());
                assert(join_lines(q) == join_lines(q.drop_last()) + seq![10u8] + q.last());
                assert(join_lines(q2) == join_lines(q2.drop_last()) + seq![10u8] + q2.last());
            }
        }
        assert(t.last() == q.last().last()) by {
            if n > 1 {
                assert(join_lines(q) == join_lines(q.drop_last()) + seq![10u8] + q.last());
            }
        }
        assert forall|k: int, m: int| 0 <= k < q2.len() && 0 <= m < q2[k].len() implies #[trigger] q2[k][m]
            != 10 by {
            assert(q2[k][m] == q[k][m]);
        }
        lemma_pieces_unique(q2);
        assert(t.drop_last().push(t.last()) =~= t);
        assert(q.last().drop_last().push(q.last().last()) =~= q.last());
        assert(q2.update(n - 1, q2.last().push(t.last())) =~= q);
    } else {
        assert(n > 1);
        let q2 = q.drop_last();
        assert(join_lines(q) == join_lines(q2) + seq![10u8] + q.last());
        assert(q.last() =~= Seq::<u8>::empty());
        assert(t.drop_last() =~= join_lines(q2));
        lemma_pieces_unique(q2);
        assert(q2.push(Seq::<u8>::empty()) =~= q);
    }
}

/// The newlines between the pieces of a joined text and its last piece are
/// all part of it.
proof fn lemma_pieces_total(s: Seq<Seq<u8>>)
    requires
        s.len() >= 1,
    ensures
        (s.len() - 1) + s.last().len() <= join_lines(s).len(),
{
    lemma_join_shape(s);
    lemma_span_at_least(s, s.len() - 1);
}

proof fn lemma_span_at_least(p: Seq<Seq<u8>>, j: int)
    requires
        0 <= j <= p.len(),
    ensures
        pieces_span(p, j) >= j,
    decreases j,
{
    if j > 0 {
        lemma_span_at_least(p, j - 1);
    }
}

/// The pieces of the text between `(l1, c1)` and `(l2, c2)`: the rest of the
/// first line, the lines between and the start of the last line, each
/// without its `\n`.
pub open spec fn removed_pieces(d: Seq<Seq<u8>>, l1: int, c1: int, l2: int, c2: int) -> Seq<Seq<u8>> {
    if l1 == l2 {
        seq![d[l1 - 1].subrange(c1 - 1, c2 - 1)]
    } else {
        Seq::new(
            (l2 - l1 + 1) as nat,
            |k: int|
                if k == l2 - l1 {
                    d[l2 - 1].subrange(0, c2 - 1)
                } else if k == 0 {
                    d[l1 - 1].subrange(c1 - 1, d[l1 - 1].len() - 1)
                } else {
                    d[l1 - 1 + k].drop_last()
                },
        )
    }
}

/// Joining the first pieces of a text that spans several lines, each ended
/// by its newline, gives the rest of the first line and the lines after it.
proof fn lemma_join_removed_prefix(d: Seq<Seq<u8>>, l1: int, c1: int, l2: int, c2: int, j: int)
    requires
        well_formed_lines(d),
        1 <= l1 < l2 <= d.len(),
        1 <= c1 <= d[l1 - 1].len(),
        0 <= j <= l2 - l1 - 1,
    ensures
        join_lines(removed_pieces(d, l1, c1, l2, c2).subrange(0, j + 1)) + seq![10u8] == d[l1
            - 1].subrange(c1 - 1, d[l1 - 1].len() as int) + middle_text(d, l1, l1 + j + 1),
    decreases j,
{
    let q = removed_pieces(d, l1, c1, l2, c2);
    let f = d[l1 - 1].subrange(c1 - 1, d[l1 - 1].len() as int);
    assert(d[l1 - 1].len() >= 1 && d[l1 - 1].last() == 10);
    if j == 0 {
        assert(q.subrange(0, 1) =~= seq![q[0]]);
        assert(q[0] + seq![10u8] =~= f);
        assert(middle_text(d, l1, l1 + 1) =~= Seq::<u8>::empty());
    } else {
        lemma_join_removed_prefix(d, l1, c1, l2, c2, j - 1);
        let qs = q.subrange(0, j + 1);
        assert(qs.drop_last() =~= q.subrange(0, j));
        assert(join_lines(qs) == join_lines(qs.drop_last()) + seq![10u8] + qs.last());
        let ln = d[l1 - 1 + j];
        assert(ln.len() >= 1 && ln.last() == 10);
        assert(qs.last() + seq![10u8] =~= ln);
        assert(middle_text(d, l1, l1 + j + 1) == middle_text(d, l1, l1 + j) + d[l1 + j - 1]);
        assert(join_lines(qs) + seq![10u8] =~= f + middle_text(d, l1, l1 + j + 1));
    }
}

/// The text between two positions is the join of its pieces.
proof fn lemma_removed_join(d: Seq<Seq<u8>>, l1: int, c1: int, l2: int, c2: int)
    requires
        well_formed_lines(d),
        remove_ok(d, l1, c1, l2, c2),
        c1 <= d[l1 - 1].len(),
        c2 <= d[l2 - 1].len(),
    ensures
        join_lines(removed_pieces(d, l1, c1, l2, c2)) == spec_get_text(d, l1, c1, l2, c2, false),
        removed_pieces(d, l1, c1, l2, c2).len() == l2 - l1 + 1,
{
    let q = removed_pieces(d, l1, c1, l2, c2);
    assert(d[l1 - 1].len() >= 1 && d[l2 - 1].len() >= 1);
    assert(sanitize(d, l1, c1) == (l1, c1));
    assert(sanitize(d, l2, c2) == (l2, c2));
    if l1 == l2 {
        assert(join_lines(q) == q[0]);
    } else {
        let n = l2 - l1 + 1;
        lemma_join_removed_prefix(d, l1, c1, l2, c2, n - 2);
        assert(q.subrange(0, n) =~= q);
        assert(q.subrange(0, n).drop_last() =~= q.subrange(0, n - 1));
        assert(join_lines(q) == join_lines(q.subrange(0, n - 1)) + seq![10u8] + q.last());
        assert(join_lines(q) =~= spec_get_text(d, l1, c1, l2, c2, false));
    }
}

/// No piece of the text between two positions holds a newline.
proof fn lemma_removed_no_newline(d: Seq<Seq<u8>>, l1: int, c1: int, l2: int, c2: int)
    requires
        well_formed_lines(d),
        remove_ok(d, l1, c1, l2, c2),
        c1 <= d[l1 - 1].len(),
        c2 <= d[l2 - 1].len(),
    ensures
        forall|k: int, m: int|
            0 <= k < removed_pieces(d, l1, c1, l2, c2).len() && 0 <= m < removed_pieces(
                d,
                l1,
                c1,
                l2,
                c2,
            )[k].len() ==> #[trigger] removed_pieces(d, l1, c1, l2, c2)[k][m] != 10,
{
    let q = removed_pieces(d, l1, c1, l2, c2);
    assert forall|k: int, m: int| 0 <= k < q.len() && 0 <= m < q[k].len() implies #[trigger] q[k][m] != 10 by {
        if l1 == l2 {
            assert(q[k][m] == d[l1 - 1][c1 - 1 + m]);
        } else if k == l2 - l1 {
            assert(q[k][m] == d[l2 - 1][m]);
        } else if k == 0 {
            assert(q[k][m] == d[l1 - 1][c1 - 1 + m]);
        } else {
            assert(q[k][m] == d[l1 - 1 + k][m]);
        }
    }
}

/// Putting the removed text back where the removal started gives back the
/// document.
#[verifier::spinoff_prover]
#[verifier::rlimit(50)]
proof fn lemma_reinsert_removed(d: Seq<Seq<u8>>, l1: int, c1: int, l2: int, c2: int)
    requires
        well_formed_lines(d),
        remove_ok(d, l1, c1, l2, c2),
        c1 <= d[l1 - 1].len(),
        c2 <= d[l2 - 1].len(),
    ensures
        newline_pieces(spec_get_text(d, l1, c1, l2, c2, false)) == removed_pieces(d, l1, c1, l2, c2),
        doc_after_insert(
            doc_after_remove(d, l1, c1, l2, c2),
            l1,
            c1,
            spec_get_text(d, l1, c1, l2, c2, false),
        ) == d,
{
    let q = removed_pieces(d, l1, c1, l2, c2);
    let t = spec_get_text(d, l1, c1, l2, c2, false);
    lemma_removed_join(d, l1, c1, l2, c2);
    lemma_removed_no_newline(d, l1, c1, l2, c2);
    lemma_pieces_unique(q);
    let nd = doc_after_remove(d, l1, c1, l2, c2);
    let cur = nd[l1 - 1];
    let before = cur.subrange(0, c1 - 1);
    let after = cur.subrange(c1 - 1, cur.len() as int);
    assert(before =~= d[l1 - 1].subrange(0, c1 - 1));
    assert(after =~= d[l2 - 1].subrange(c2 - 1, d[l2 - 1].len() as int));
    let b = insert_block(before, q, after);
    let n = l2 - l1 + 1;
    assert forall|k: int| 0 <= k < n implies #[trigger] b[k] == d[l1 - 1 + k] by {
        let ln = d[l1 - 1 + k];
        assert(ln.len() >= 1 && ln.last() == 10);
        if n == 1 {
            assert(b[k] =~= ln);
        } else if k == 0 {
            assert(b[k] =~= ln);
        } else if k == n - 1 {
            assert(b[k] =~= ln);
        } else {
            assert(b[k] =~= ln);
        }
    }
    let r = doc_after_insert(nd, l1, c1, t);
    assert(r =~= d) by {
        assert(nd.subrange(0, l1 - 1) =~= d.subrange(0, l1 - 1));
        assert(nd.subrange(l1, nd.len() as int) =~= d.subrange(l2, d.len() as int));
        assert forall|k: int| 0 <= k < d.len() implies #[trigger] r[k] == d[k] by {
            if l1 - 1 <= k < l2 {
                assert(r[k] == b[k - (l1 - 1)]);
            }
        }
    }
}

/// The selections that an insertion moves keep fitting in a `usize`.
proof fn lemma_shift_insert_fits(s: Seq<int>, line: int, col: int, extra: int, last_len: int)
    requires
        s.len() % 4 == 0,
        0 <= extra,
        0 <= last_len,
        forall|k: int| 0 <= k < s.len() ==> 0 <= #[trigger] s[k] && s[k] + extra + last_len <= usize::MAX,
    ensures
        fits_usize(shift_after_insert(s, line, col, extra, last_len)),
    decreases s.len(),
{
    if !(s.len() < 4 || s[s.len() - 4] < line) {
        let n = s.len() as int;
        let pre = s.subrange(0, n - 4);
        assert forall|k: int| 0 <= k < pre.len() implies 0 <= #[trigger] pre[k] && pre[k] + extra
            + last_len <= usize::MAX by {
            assert(pre[k] == s[k]);
        }
        lemma_shift_insert_fits(pre, line, col, extra, last_len);
        lemma_shift_after_insert_len(pre, line, col, extra, last_len);
        let g = s.subrange(n - 4, n);
        assert(g[0] == s[n - 4] && g[1] == s[n - 3] && g[2] == s[n - 2] && g[3] == s[n - 1]);
        let r = shift_after_insert(s, line, col, extra, last_len);
        let rp = shift_after_insert(pre, line, col, extra, last_len);
        assert(r == rp + crate::doc::insert_group(g, line, col, extra, last_len));
        assert forall|k: int| 0 <= k < r.len() implies 0 <= #[trigger] r[k] <= usize::MAX by {
            if k < rp.len() {
                assert(r[k] == rp[k]);
            }
        }
    }
}

/// Undoing a removal, with selections inside the document (see
/// `lemma_remove_undone`).
#[verifier::spinoff_prover]
#[verifier::rlimit(80)]
proof fn lemma_remove_undone_sane(
    d: Seq<Seq<u8>>,
    s: Seq<usize>,
    l1: usize,
    c1: usize,
    l2: usize,
    c2: usize,
    s2: Seq<usize>,
)
    requires
        well_formed_lines(d),
        single_edit_ok(d, s, (kind_remove(), l1, c1, l2, c2, seq![])),
        c1 <= d[l1 - 1].len(),
        c2 <= d[l2 - 1].len(),
        doc_fits(d),
        doc_fits(doc_after_remove(d, l1 as int, c1 as int, l2 as int, c2 as int)),
        spec_get_text(d, l1 as int, c1 as int, l2 as int, c2 as int, false).len() <= isize::MAX,
        sane_selections(single_edit_result(d, s, (kind_remove(), l1, c1, l2, c2, seq![])).0, s2),
    ensures
        ({
            let r = single_edit_result(d, s, (kind_remove(), l1, c1, l2, c2, seq![]));
            &&& single_edit_ok(r.0, s2, r.2)
            &&& single_edit_result(r.0, s2, r.2).0 == d
            &&& single_edit_result(r.0, s2, r.2).2 == (kind_remove(), l1, c1, l2, c2, Seq::<u8>::empty())
        }),
{
    let e = (kind_remove(), l1, c1, l2, c2, Seq::<u8>::empty());
    let r = single_edit_result(d, s, e);
    let t = spec_get_text(d, l1 as int, c1 as int, l2 as int, c2 as int, false);
    let nd = doc_after_remove(d, l1 as int, c1 as int, l2 as int, c2 as int);
    lemma_reinsert_removed(d, l1 as int, c1 as int, l2 as int, c2 as int);
    lemma_removed_join(d, l1 as int, c1 as int, l2 as int, c2 as int);
    let q = removed_pieces(d, l1 as int, c1 as int, l2 as int, c2 as int);
    assert(r.0 == nd);
    assert(r.2 == (kind_insert(), l1, c1, l1, c1, t));
    // The shape of the document after the removal.
    assert(nd.len() == d.len() - (l2 - l1));
    assert(nd[l1 - 1] == d[l1 - 1].subrange(0, c1 - 1) + d[l2 - 1].subrange(c2 - 1, d[l2 - 1].len() as int));
    // The insertion point of the undo record.
    assert(insert_ok(nd, l1 as int, c1 as int)) by {
        let ln = d[l2 - 1];
        lemma_utf8_lead(ln);
        if c1 > 1 {
            assert(nd[l1 - 1][c1 - 1] == ln[c2 - 1]);
        }
    }
    // The selections move without overflow.
    let si = ints(s2);
    let extra = q.len() - 1;
    let last_len = q.last().len() as int;
    lemma_pieces_total(q);
    assert(extra + last_len <= t.len());
    assert forall|k: int| 0 <= k < si.len() implies 0 <= #[trigger] si[k] && si[k] + extra + last_len
        <= usize::MAX by {
        let g = k - k % 2;
        assert(g % 2 == 0 && g + 1 < s2.len());
        assert(1 <= s2[g] <= nd.len());
        assert(nd[s2[g] - 1].len() <= isize::MAX);
        assert(si[k] == s2[k] as int);
    }
    lemma_shift_insert_fits(si, l1 as int, c1 as int, extra, last_len);
    assert(selections_after_insert(s2, l1 as int, c1 as int, t) == shift_after_insert(
        si,
        l1 as int,
        c1 as int,
        extra,
        last_len,
    ));
    lemma_redo_removal(d, l1, c1, l2, c2);
}

/// Undoing a removal restores the document: the record that removing
/// `(l1, c1)..(l2, c2)` returns can be applied to the document the removal
/// left, with any selection list whose moved values fit in a `usize`,
/// applying it gives back the document the removal was made on, and the
/// record it returns in turn (the redo) is the removal again. This holds for
/// documents whose lines end with their only `\n` (as the editor keeps
/// them), positions before the last byte of their lines, documents before
/// and after the removal that fit in memory (`doc_fits`), and a removed text
/// no longer than `isize::MAX`.
pub proof fn lemma_remove_undone(
    d: Seq<Seq<u8>>,
    s: Seq<usize>,
    l1: usize,
    c1: usize,
    l2: usize,
    c2: usize,
    s2: Seq<usize>,
)
    requires
        well_formed_lines(d),
        single_edit_ok(d, s, (kind_remove(), l1, c1, l2, c2, seq![])),
        c1 <= d[l1 - 1].len(),
        c2 <= d[l2 - 1].len(),
        doc_fits(d),
        doc_fits(doc_after_remove(d, l1 as int, c1 as int, l2 as int, c2 as int)),
        spec_get_text(d, l1 as int, c1 as int, l2 as int, c2 as int, false).len() <= isize::MAX,
        selections_fit(s2, single_edit_result(d, s, (kind_remove(), l1, c1, l2, c2, seq![])).2),
    ensures
        ({
            let r = single_edit_result(d, s, (kind_remove(), l1, c1, l2, c2, seq![]));
            &&& single_edit_ok(r.0, s2, r.2)
            &&& single_edit_result(r.0, s2, r.2).0 == d
            &&& single_edit_result(r.0, s2, r.2).2 == (kind_remove(), l1, c1, l2, c2, Seq::<u8>::empty())
        }),
{
    let r = single_edit_result(d, s, (kind_remove(), l1, c1, l2, c2, seq![]));
    lemma_remove_undone_sane(d, s, l1, c1, l2, c2, seq![]);
    lemma_other_selections(r.0, seq![], s2, r.2);
}

/// The bytes of a valid UTF-8 text between two character boundaries are
/// valid UTF-8.
proof fn lemma_valid_cut(x: Seq<u8>, i: int, j: int)
    requires
        valid_utf8(x),
        0 <= i <= j <= x.len(),
        at_char_boundary(x, i),
        at_char_boundary(x, j),
    ensures
        valid_utf8(x.subrange(i, j)),
{
    vstd::utf8::is_char_boundary_start_end_of_seq(x);
    if 0 < i < x.len() {
        vstd::utf8::is_char_boundary_iff_not_is_continuation_byte(x, i);
    }
    vstd::utf8::valid_utf8_split(x, i);
    let y = x.subrange(i, x.len() as int);
    vstd::utf8::is_char_boundary_start_end_of_seq(y);
    if 0 < j - i < y.len() {
        assert(y[j - i] == x[j]);
        vstd::utf8::is_char_boundary_iff_not_is_continuation_byte(y, j - i);
    }
    vstd::utf8::valid_utf8_split(y, j - i);
    assert(y.subrange(0, j - i) =~= x.subrange(i, j));
}

/// Whole lines joined are valid UTF-8.
proof fn lemma_valid_middle(d: Seq<Seq<u8>>, x1: int, x2: int)
    requires
        well_formed_lines(d),
        0 <= x1,
        x2 <= d.len() + 1,
    ensures
        valid_utf8(middle_text(d, x1, x2)),
    decreases x2 - x1,
{
    if x2 - x1 <= 1 {
        assert(valid_utf8(Seq::<u8>::empty()));
    } else {
        lemma_valid_middle(d, x1, x2 - 1);
        assert(valid_utf8(d[x2 - 2]));
        vstd::utf8::valid_utf8_concat(middle_text(d, x1, x2 - 1), d[x2 - 2]);
    }
}

/// The text between two positions of well-formed lines is valid UTF-8.
proof fn lemma_removed_valid(d: Seq<Seq<u8>>, l1: int, c1: int, l2: int, c2: int)
    requires
        well_formed_lines(d),
        remove_ok(d, l1, c1, l2, c2),
        c1 <= d[l1 - 1].len(),
        c2 <= d[l2 - 1].len(),
    ensures
        valid_utf8(spec_get_text(d, l1, c1, l2, c2, false)),
{
    let a = d[l1 - 1];
    let b = d[l2 - 1];
    assert(a.len() >= 1 && b.len() >= 1 && valid_utf8(a) && valid_utf8(b));
    assert(sanitize(d, l1, c1) == (l1, c1));
    assert(sanitize(d, l2, c2) == (l2, c2));
    if l1 == l2 {
        lemma_valid_cut(a, c1 - 1, c2 - 1);
    } else {
        lemma_valid_cut(a, c1 - 1, a.len() as int);
        lemma_valid_cut(b, 0, c2 - 1);
        lemma_valid_middle(d, l1, l2);
        let f = a.subrange(c1 - 1, a.len() as int);
        let m = middle_text(d, l1, l2);
        vstd::utf8::valid_utf8_concat(f, m);
        vstd::utf8::valid_utf8_concat(f + m, b.subrange(0, c2 - 1));
    }
}

/// The undo record that a removal returns (see `make_remove_result`) reads
/// back as the selections before the removal and the re-insertion of the
/// removed text, and replaying it (see `apply_packed_result`) on the
/// document the removal left, with any selection list whose moved values
/// fit in a `usize`, gives back the
/// document the removal was made on, with the removal as the edit to redo;
/// this holds under the conditions of `lemma_remove_undone`, with numbers
/// and a removed text that fit the record.
pub proof fn lemma_remove_record_undone(
    d: Seq<Seq<u8>>,
    s: Seq<usize>,
    l1: usize,
    c1: usize,
    l2: usize,
    c2: usize,
    s2: Seq<usize>,
)
    requires
        well_formed_lines(d),
        single_edit_ok(d, s, (kind_remove(), l1, c1, l2, c2, seq![])),
        c1 <= d[l1 - 1].len(),
        c2 <= d[l2 - 1].len(),
        doc_fits(d),
        doc_fits(doc_after_remove(d, l1 as int, c1 as int, l2 as int, c2 as int)),
        l1 < 0x1_0000_0000,
        c1 < 0x1_0000_0000,
        spec_get_text(d, l1 as int, c1 as int, l2 as int, c2 as int, false).len() < 0x1_0000_0000,
        spec_get_text(d, l1 as int, c1 as int, l2 as int, c2 as int, false).len() <= isize::MAX,
        s.len() < 0x1_0000_0000,
        forall|k: int| 0 <= k < s.len() ==> #[trigger] s[k] < 0x1_0000_0000,
        selections_fit(s2, single_edit_result(d, s, (kind_remove(), l1, c1, l2, c2, seq![])).2),
    ensures
        ({
            let r = single_edit_result(d, s, (kind_remove(), l1, c1, l2, c2, seq![]));
            &&& decode_record(encode_record(s, seq![r.2])) == Some((s, seq![r.2]))
            &&& replay_fold(r.0, s2, seq![r.2], seq![]) matches Some(f) && f.0 == d && f.2 == seq![
                (kind_remove(), l1, c1, l2, c2, Seq::<u8>::empty()),
            ]
        }),
{
    let r = single_edit_result(d, s, (kind_remove(), l1, c1, l2, c2, seq![]));
    lemma_remove_undone(d, s, l1, c1, l2, c2, s2);
    lemma_removed_valid(d, l1 as int, c1 as int, l2 as int, c2 as int);
    let inv = r.2;
    assert(edit_fits(inv));
    lemma_record_round_trip(s, seq![inv]);
    lemma_replay_one(r.0, s2, inv);
}

/// The edit that undoes the re-insertion of removed text is the removal.
#[verifier::spinoff_prover]
#[verifier::rlimit(60)]
proof fn lemma_redo_removal(d: Seq<Seq<u8>>, l1: usize, c1: usize, l2: usize, c2: usize)
    requires
        well_formed_lines(d),
        remove_ok(d, l1 as int, c1 as int, l2 as int, c2 as int),
        c1 <= d[l1 - 1].len(),
        c2 <= d[l2 - 1].len(),
        insert_ok(doc_after_remove(d, l1 as int, c1 as int, l2 as int, c2 as int), l1 as int, c1 as int),
        spec_get_text(d, l1 as int, c1 as int, l2 as int, c2 as int, false).len() <= isize::MAX,
    ensures
        crate::edit::inserted_end(
            d,
            l1,
            c1,
            spec_get_text(d, l1 as int, c1 as int, l2 as int, c2 as int, false).len(),
        ) == (l2 as int, c2 as int),
{
    let nd = doc_after_remove(d, l1 as int, c1 as int, l2 as int, c2 as int);
    let t = spec_get_text(d, l1 as int, c1 as int, l2 as int, c2 as int, false);
    let q = removed_pieces(d, l1 as int, c1 as int, l2 as int, c2 as int);
    assert(newline_pieces(t) == q && doc_after_insert(nd, l1 as int, c1 as int, t) == d) by {
        lemma_reinsert_removed(d, l1 as int, c1 as int, l2 as int, c2 as int);
    }
    assert(q.len() == l2 - l1 + 1) by {
        lemma_removed_join(d, l1 as int, c1 as int, l2 as int, c2 as int);
    }
    assert(piece_start(c1 as int, q.len() - 1) + q.last().len() == c2) by {
        assert(d[l2 - 1].len() >= 1);
    }
    assert(c1 <= nd[l1 - 1].len()) by {
        assert(nd[l1 - 1] == d[l1 - 1].subrange(0, c1 - 1) + d[l2 - 1].subrange(
            c2 - 1,
            d[l2 - 1].len() as int,
        ));
    }
    lemma_walk_inserted(nd, l1 as int, c1 as int, t);
    assert(walk(d, l1 as int, c1 as int, t.len() as int) == (l2 as int, c2 as int));
    assert(sanitize(d, l1 as int, c1 as int) == (l1 as int, c1 as int)) by {
        assert(d[l1 - 1].len() >= 1);
    }
    assert(((t.len() as isize) as int) == t.len());
}

/// Joining the first pieces of an inserted text, each ended by its newline,
/// reads the inserted lines back from the insertion point on.
proof fn lemma_join_inserted_prefix(d: Seq<Seq<u8>>, line: int, col: int, t: Seq<u8>, j: int)
    requires
        insert_ok(d, line, col),
        0 <= j <= newline_pieces(t).len() - 2,
    ensures
        ({
            let nd = doc_after_insert(d, line, col, t);
            join_lines(newline_pieces(t).subrange(0, j + 1)) + seq![10u8] == nd[line - 1].subrange(
                col - 1,
                nd[line - 1].len() as int,
            ) + middle_text(nd, line, line + j + 1)
        }),
    decreases j,
{
    let p = newline_pieces(t);
    let nd = doc_after_insert(d, line, col, t);
    let cur = d[line - 1];
    let b = insert_block(cur.subrange(0, col - 1), p, cur.subrange(col - 1, cur.len() as int));
    lemma_block_lines(d, line, col, t);
    assert(nd[line - 1] == b[0]);
    let f = nd[line - 1].subrange(col - 1, nd[line - 1].len() as int);
    if j == 0 {
        assert(p.subrange(0, 1) =~= seq![p[0]]);
        assert(p[0] + seq![10u8] =~= f);
        assert(middle_text(nd, line, line + 1) =~= Seq::<u8>::empty());
    } else {
        lemma_join_inserted_prefix(d, line, col, t, j - 1);
        let ps = p.subrange(0, j + 1);
        assert(ps.drop_last() =~= p.subrange(0, j));
        assert(join_lines(ps) == join_lines(ps.drop_last()) + seq![10u8] + ps.last());
        assert(nd[line - 1 + j] == b[j]);
        assert(ps.last() + seq![10u8] =~= nd[line + j - 1]);
        assert(middle_text(nd, line, line + j + 1) == middle_text(nd, line, line + j) + nd[line + j
            - 1]);
        assert(join_lines(ps) + seq![10u8] =~= f + middle_text(nd, line, line + j + 1));
    }
}

/// Reading the text from the insertion point to the end of the inserted
/// text gives back the inserted text.
proof fn lemma_read_inserted(d: Seq<Seq<u8>>, line: int, col: int, t: Seq<u8>)
    requires
        insert_ok(d, line, col),
        col <= d[line - 1].len(),
        valid_utf8(d[line - 1]),
        valid_utf8(t),
    ensures
        spec_get_text(
            doc_after_insert(d, line, col, t),
            line,
            col,
            line + newline_pieces(t).len() - 1,
            inserted_end_col(col, t),
            false,
        ) == t,
{
    let p = newline_pieces(t);
    let n = p.len() as int;
    let nd = doc_after_insert(d, line, col, t);
    let cur = d[line - 1];
    let b = insert_block(cur.subrange(0, col - 1), p, cur.subrange(col - 1, cur.len() as int));
    lemma_block_lines(d, line, col, t);
    lemma_walk_inserted(d, line, col, t);
    lemma_cuts_after_insert(d, line, col, t);
    lemma_newline_pieces_join(t);
    let l2 = line + n - 1;
    let c2 = inserted_end_col(col, t);
    assert(sanitize(nd, line, col) == (line, col));
    assert(sanitize(nd, l2, c2) == (l2, c2));
    assert(nd[line - 1] == b[0]);
    assert(nd[l2 - 1] == b[n - 1]);
    if n == 1 {
        assert(join_lines(p) == p[0]);
        assert(nd[line - 1].subrange(col - 1, c2 - 1) =~= p[0]);
    } else {
        lemma_join_inserted_prefix(d, line, col, t, n - 2);
        assert(p.subrange(0, n) =~= p);
        assert(p.subrange(0, n).drop_last() =~= p.subrange(0, n - 1));
        assert(join_lines(p) == join_lines(p.subrange(0, n - 1)) + seq![10u8] + p.last());
        assert(nd[l2 - 1].subrange(0, c2 - 1) =~= p.last());
        assert(spec_get_text(nd, line, col, l2, c2, false) =~= t);
    }
}

/// The pieces of a valid UTF-8 text are valid UTF-8.
proof fn lemma_pieces_valid(q: Seq<Seq<u8>>)
    requires
        q.len() >= 1,
        forall|k: int, m: int| 0 <= k < q.len() && 0 <= m < q[k].len() ==> #[trigger] q[k][m] != 10,
        valid_utf8(join_lines(q)),
    ensures
        forall|k: int| 0 <= k < q.len() ==> valid_utf8(#[trigger] q[k]),
    decreases q.len(),
{
    if q.len() == 1 {
        assert(join_lines(q) == q[0]);
    } else {
        let q2 = q.drop_last();
        let a = join_lines(q2);
        let t = join_lines(q);
        assert(t == a + seq![10u8] + q.last());
        let i = a.len() as int;
        assert(t[i] == 10);
        vstd::utf8::is_char_boundary_iff_not_is_continuation_byte(t, i);
        vstd::utf8::valid_utf8_split(t, i);
        assert(t.subrange(0, i) =~= a);
        let rest = t.subrange(i, t.len() as int);
        assert(rest =~= seq![10u8] + q.last());
        assert(valid_utf8(rest));
        assert(vstd::utf8::pop_first_scalar(rest) =~= q.last());
        assert forall|k: int, m: int| 0 <= k < q2.len() && 0 <= m < q2[k].len() implies #[trigger] q2[k][m]
            != 10 by {
            assert(q2[k][m] == q[k][m]);
        }
        lemma_pieces_valid(q2);
        assert forall|k: int| 0 <= k < q.len() implies valid_utf8(#[trigger] q[k]) by {
            if k < q.len() - 1 {
                assert(q[k] == q2[k]);
            }
        }
    }
}

/// Inserting a valid UTF-8 text before the last byte of a line keeps the
/// lines as the editor keeps them.
pub proof fn lemma_insert_keeps_lines(d: Seq<Seq<u8>>, line: int, col: int, t: Seq<u8>)
    requires
        well_formed_lines(d),
        insert_ok(d, line, col),
        col <= d[line - 1].len(),
        valid_utf8(t),
    ensures
        well_formed_lines(doc_after_insert(d, line, col, t)),
{
    let p = newline_pieces(t);
    let n = p.len() as int;
    let nd = doc_after_insert(d, line, col, t);
    let cur = d[line - 1];
    let before = cur.subrange(0, col - 1);
    let after = cur.subrange(col - 1, cur.len() as int);
    let b = insert_block(before, p, after);
    lemma_block_lines(d, line, col, t);
    lemma_newline_pieces_join(t);
    lemma_pieces_valid(p);
    assert(line_ok(cur));
    lemma_valid_cut(cur, 0, col - 1);
    lemma_valid_cut(cur, col - 1, cur.len() as int);
    assert(valid_utf8(seq![10u8])) by {
        reveal_with_fuel(valid_utf8, 2);
    }
    assert(valid_utf8(Seq::<u8>::empty()));
    assert forall|k: int| 0 <= k < n implies line_ok(#[trigger] b[k]) by {
        let head = if k == 0 { before } else { Seq::<u8>::empty() };
        let tail = if k < n - 1 { seq![10u8] } else { after };
        assert(b[k] == head + p[k] + tail);
        vstd::utf8::valid_utf8_concat(head, p[k]);
        vstd::utf8::valid_utf8_concat(head + p[k], tail);
        assert(tail.len() >= 1 && tail.last() == 10);
        assert forall|m: int| 0 <= m < b[k].len() - 1 implies b[k][m] != 10 by {
            if m < head.len() {
                assert(b[k][m] == head[m]);
            } else if m < head.len() + p[k].len() {
                assert(b[k][m] == p[k][m - head.len()]);
            } else {
                assert(b[k][m] == tail[m - head.len() - p[k].len()]);
            }
        }
    }
    assert forall|k: int| 0 <= k < nd.len() implies line_ok(#[trigger] nd[k]) by {
        if k < line - 1 {
            assert(nd[k] == d[k]);
        } else if k < line - 1 + n {
            assert(nd[k] == b[k - (line - 1)]);
        } else {
            assert(nd[k] == d[k - n + 1]);
        }
    }
}

/// Removing the text between two positions that lie before the last bytes
/// of their lines keeps the lines as the editor keeps them.
pub proof fn lemma_remove_keeps_lines(d: Seq<Seq<u8>>, l1: int, c1: int, l2: int, c2: int)
    requires
        well_formed_lines(d),
        remove_ok(d, l1, c1, l2, c2),
        c1 <= d[l1 - 1].len(),
        c2 <= d[l2 - 1].len(),
    ensures
        well_formed_lines(doc_after_remove(d, l1, c1, l2, c2)),
{
    let nd = doc_after_remove(d, l1, c1, l2, c2);
    let a = d[l1 - 1];
    let z = d[l2 - 1];
    assert(line_ok(a) && line_ok(z));
    let head = a.subrange(0, c1 - 1);
    let tail = z.subrange(c2 - 1, z.len() as int);
    lemma_valid_cut(a, 0, c1 - 1);
    lemma_valid_cut(z, c2 - 1, z.len() as int);
    vstd::utf8::valid_utf8_concat(head, tail);
    let merged_line = head + tail;
    assert(line_ok(merged_line)) by {
        assert forall|m: int| 0 <= m < merged_line.len() - 1 implies merged_line[m] != 10 by {
            if m < head.len() {
                assert(merged_line[m] == a[m]);
            } else {
                assert(merged_line[m] == z[m - head.len() + c2 - 1]);
            }
        }
    }
    assert forall|k: int| 0 <= k < nd.len() implies line_ok(#[trigger] nd[k]) by {
        if k < l1 - 1 {
            assert(nd[k] == d[k]);
        } else if k == l1 - 1 {
            assert(nd[k] == merged_line);
        } else {
            assert(nd[k] == d[k + (l2 - l1)]);
        }
    }
}

/// Every line ends with its only `\n`.
pub open spec fn newline_shaped(d: Seq<Seq<u8>>) -> bool {
    forall|k: int| 0 <= k < d.len() ==> line_shape(#[trigger] d[k])
}

/// Inserting any text before the last byte of a line keeps every line
/// ending with its only `\n`: the text's own newlines start new lines.
pub proof fn lemma_insert_keeps_newlines(d: Seq<Seq<u8>>, line: int, col: int, t: Seq<u8>)
    requires
        newline_shaped(d),
        insert_ok(d, line, col),
        col <= d[line - 1].len(),
    ensures
        newline_shaped(doc_after_insert(d, line, col, t)),
{
    let p = newline_pieces(t);
    let n = p.len() as int;
    let nd = doc_after_insert(d, line, col, t);
    let cur = d[line - 1];
    let before = cur.subrange(0, col - 1);
    let after = cur.subrange(col - 1, cur.len() as int);
    let b = insert_block(before, p, after);
    lemma_block_lines(d, line, col, t);
    lemma_newline_pieces_join(t);
    assert(line_shape(cur));
    assert forall|k: int| 0 <= k < n implies line_shape(#[trigger] b[k]) by {
        let head = if k == 0 { before } else { Seq::<u8>::empty() };
        let tail = if k < n - 1 { seq![10u8] } else { after };
        assert(b[k] == head + p[k] + tail);
        assert(tail.len() >= 1 && tail.last() == 10);
        assert forall|m: int| 0 <= m < b[k].len() - 1 implies b[k][m] != 10 by {
            if m < head.len() {
                assert(b[k][m] == head[m]);
            } else if m < head.len() + p[k].len() {
                assert(b[k][m] == p[k][m - head.len()]);
            } else {
                assert(b[k][m] == tail[m - head.len() - p[k].len()]);
            }
        }
    }
    assert forall|k: int| 0 <= k < nd.len() implies line_shape(#[trigger] nd[k]) by {
        if k < line - 1 {
            assert(nd[k] == d[k]);
        } else if k < line - 1 + n {
            assert(nd[k] == b[k - (line - 1)]);
        } else {
            assert(nd[k] == d[k - n + 1]);
        }
    }
}

/// Removing the text between two positions that lie before the last bytes
/// of their lines keeps every line ending with its only `\n`.
pub proof fn lemma_remove_keeps_newlines(d: Seq<Seq<u8>>, l1: int, c1: int, l2: int, c2: int)
    requires
        newline_shaped(d),
        remove_ok(d, l1, c1, l2, c2),
        c1 <= d[l1 - 1].len(),
        c2 <= d[l2 - 1].len(),
    ensures
        newline_shaped(doc_after_remove(d, l1, c1, l2, c2)),
{
    let nd = doc_after_remove(d, l1, c1, l2, c2);
    let a = d[l1 - 1];
    let z = d[l2 - 1];
    assert(line_shape(a) && line_shape(z));
    let head = a.subrange(0, c1 - 1);
    let tail = z.subrange(c2 - 1, z.len() as int);
    let merged_line = head + tail;
    assert(line_shape(merged_line)) by {
        assert forall|m: int| 0 <= m < merged_line.len() - 1 implies merged_line[m] != 10 by {
            if m < head.len() {
                assert(merged_line[m] == a[m]);
            } else {
                assert(merged_line[m] == z[m - head.len() + c2 - 1]);
            }
        }
    }
    assert forall|k: int| 0 <= k < nd.len() implies line_shape(#[trigger] nd[k]) by {
        if k < l1 - 1 {
            assert(nd[k] == d[k]);
        } else if k == l1 - 1 {
            assert(nd[k] == merged_line);
        } else {
            assert(nd[k] == d[k + (l2 - l1)]);
        }
    }
}

/// Replaying `e` on the document `from`, with any selections inside it,
/// is allowed and gives the document `to`.
pub open spec fn replays_to(e: EditView, from: Seq<Seq<u8>>, to: Seq<Seq<u8>>) -> bool {
    forall|s2: Seq<usize>|
        #[trigger] sane_selections(from, s2) ==> single_edit_ok(from, s2, e) && single_edit_result(
            from,
            s2,
            e,
        ).0 == to
}

/// A document that fits in memory: at least one line, and at most
/// `isize::MAX` lines of at most `isize::MAX` bytes each (no `Vec` holds
/// more).
pub open spec fn doc_fits(d: Seq<Seq<u8>>) -> bool {
    &&& 0 < d.len() <= isize::MAX
    &&& forall|k: int| 0 <= k < d.len() ==> #[trigger] d[k].len() <= isize::MAX
}

/// `inv[k]` takes `docs[k + 1]` back to `docs[k]`, for each `k`.
pub open spec fn undo_chain(docs: Seq<Seq<Seq<u8>>>, inv: Seq<EditView>) -> bool {
    &&& docs.len() == inv.len() + 1
    &&& forall|k: int| 0 <= k < inv.len() ==> #[trigger] replays_to(inv[k], docs[k + 1], docs[k])
    &&& forall|k: int| 0 <= k < docs.len() ==> #[trigger] doc_fits(docs[k])
}

/// Replaying `e` on the document `from`, with any selections inside it,
/// returns `back` as the edit that undoes it.
pub open spec fn returns_edit(e: EditView, from: Seq<Seq<u8>>, back: EditView) -> bool {
    forall|s2: Seq<usize>|
        #[trigger] sane_selections(from, s2) ==> single_edit_result(from, s2, e).2 == back
}

/// An undo chain whose edits `inv[k]` return `ops[k]` when replayed, and
/// where `ops[k]` takes `docs[k]` to `docs[k + 1]`.
pub open spec fn redo_chain(docs: Seq<Seq<Seq<u8>>>, inv: Seq<EditView>, ops: Seq<EditView>) -> bool {
    &&& undo_chain(docs, inv)
    &&& ops.len() == inv.len()
    &&& forall|k: int| 0 <= k < inv.len() ==> #[trigger] returns_edit(inv[k], docs[k + 1], ops[k])
    &&& forall|k: int| 0 <= k < ops.len() ==> #[trigger] replays_to(ops[k], docs[k], docs[k + 1])
}

/// The edits that a bulk request makes, in order: each removal of a
/// non-empty range, then each insertion of a non-empty text.
pub open spec fn bulk_ops(es: Seq<BulkView>) -> Seq<EditView>
    decreases es.len(),
{
    if es.len() == 0 {
        seq![]
    } else {
        let (l1, c1, l2, c2, text) = es[0];
        (if l1 != l2 || c1 != c2 {
            seq![(kind_remove(), l1, c1, l2, c2, Seq::<u8>::empty())]
        } else {
            seq![]
        }) + (if text.len() > 0 {
            seq![(kind_insert(), l1, c1, l1, c1, text)]
        } else {
            seq![]
        }) + bulk_ops(es.drop_first())
    }
}

/// The selections a replayed edit leaves are sane.
proof fn lemma_result_sane(d: Seq<Seq<u8>>, s: Seq<usize>, e: EditView)
    requires
        single_edit_ok(d, s, e),
        doc_fits(single_edit_result(d, s, e).0),
    ensures
        sane_selections(single_edit_result(d, s, e).0, to_usizes(single_edit_result(d, s, e).1)),
{
    let r = single_edit_result(d, s, e);
    if e.0 == kind_insert() {
        lemma_newline_pieces_nonempty(e.5);
        let pieces = newline_pieces(e.5);
        lemma_shift_after_insert_len(ints(s), e.1 as int, e.2 as int, pieces.len() - 1, pieces.last().len() as int);
        lemma_sanitized_sane(r.0, to_usizes(selections_after_insert(s, e.1 as int, e.2 as int, e.5)));
    } else {
        crate::doc::lemma_selections_after_remove_len(s, e.1 as int, e.2 as int, e.3 as int, e.4 as int);
        lemma_sanitized_sane(
            r.0,
            to_usizes(crate::doc::selections_after_remove(s, e.1 as int, e.2 as int, e.3 as int, e.4 as int)),
        );
    }
}

/// A redo chain without its last step is a redo chain.
proof fn lemma_chain_drop_last(docs: Seq<Seq<Seq<u8>>>, inv: Seq<EditView>, ops: Seq<EditView>)
    requires
        redo_chain(docs, inv, ops),
        inv.len() > 0,
    ensures
        redo_chain(docs.drop_last(), inv.drop_last(), ops.drop_last()),
{
    let docs2 = docs.drop_last();
    let inv2 = inv.drop_last();
    let ops2 = ops.drop_last();
    assert forall|k: int| 0 <= k < inv2.len() implies #[trigger] replays_to(inv2[k], docs2[k + 1], docs2[k]) by {
        assert(replays_to(inv[k], docs[k + 1], docs[k]));
    }
    assert forall|k: int| 0 <= k < docs2.len() implies #[trigger] doc_fits(docs2[k]) by {
        assert(doc_fits(docs[k]));
    }
    assert forall|k: int| 0 <= k < inv2.len() implies #[trigger] returns_edit(inv2[k], docs2[k + 1], ops2[k]) by {
        assert(returns_edit(inv[k], docs[k + 1], ops[k]));
    }
    assert forall|k: int| 0 <= k < ops2.len() implies #[trigger] replays_to(ops2[k], docs2[k], docs2[k + 1]) by {
        assert(replays_to(ops[k], docs[k], docs[k + 1]));
    }
}

/// The last edit of an undo chain, replayed on the chain's last document
/// with selections whose moved values fit, gives the document before it,
/// selections inside that document, and the forward edit.
proof fn lemma_chain_last_step(
    docs: Seq<Seq<Seq<u8>>>,
    inv: Seq<EditView>,
    ops: Seq<EditView>,
    s2: Seq<usize>,
    acc: Seq<EditView>,
) -> (s3: Seq<usize>)
    requires
        redo_chain(docs, inv, ops),
        inv.len() > 0,
        selections_fit(s2, inv.last()),
    ensures
        replay_step(docs.last(), s2, inv.last(), acc) == Some(
            (docs[inv.len() - 1], s3, acc.push(ops[inv.len() - 1])),
        ),
        sane_selections(docs[inv.len() - 1], s3),
{
    let m = inv.len() - 1;
    let e = inv[m];
    let from = docs[m + 1];
    let to = docs[m];
    assert(replays_to(e, from, to));
    assert(returns_edit(e, from, ops[m]));
    assert(sane_selections(from, Seq::<usize>::empty()));
    lemma_other_selections(from, Seq::<usize>::empty(), s2, e);
    let r = single_edit_result(from, s2, e);
    assert(doc_fits(to));
    lemma_result_sane(from, s2, e);
    let s3 = to_usizes(r.1);
    assert(replay_step(from, s2, e, acc) == Some((r.0, s3, acc.push(r.2)))) by {
        reveal(replay_step);
    }
    s3
}

/// Replaying a chain of undo edits from its last document, last edit
/// first, gives back its first document, and returns the chain's forward
/// edits, last one first.
#[verifier::spinoff_prover]
#[verifier::rlimit(40)]
proof fn lemma_replay_chain(
    docs: Seq<Seq<Seq<u8>>>,
    inv: Seq<EditView>,
    ops: Seq<EditView>,
    s2: Seq<usize>,
    acc: Seq<EditView>,
)
    requires
        redo_chain(docs, inv, ops),
        s2.len() % 4 == 0,
        inv.len() > 0 ==> selections_fit(s2, inv.last()),
    ensures
        replay_fold(docs.last(), s2, inv.reverse(), acc) matches Some(f) && f.0 == docs[0] && f.2
            == acc + ops.reverse(),
    decreases inv.len(),
{
    if inv.len() == 0 {
        assert(inv.reverse() =~= Seq::<EditView>::empty());
        assert(acc + ops.reverse() =~= acc);
    } else {
        let m = inv.len() - 1;
        let e = inv[m];
        let to = docs[m];
        let s3 = lemma_chain_last_step(docs, inv, ops, s2, acc);
        assert(inv.reverse()[0] == e);
        assert(inv.reverse().drop_first() =~= inv.drop_last().reverse());
        let docs2 = docs.drop_last();
        let inv2 = inv.drop_last();
        let ops2 = ops.drop_last();
        lemma_chain_drop_last(docs, inv, ops);
        if inv2.len() > 0 {
            let j = inv2.len() - 1;
            assert(replays_to(inv2[j], docs2[j + 1], docs2[j]));
            assert(docs2[j + 1] == to);
            assert(sane_selections(docs2[j + 1], s3));
            assert(single_edit_ok(docs2[j + 1], s3, inv2[j]));
            assert(inv2.last() == inv2[j]);
        }
        lemma_replay_chain(docs2, inv2, ops2, s3, acc.push(ops[m]));
        assert(acc.push(ops[m]) + ops2.reverse() =~= acc + ops.reverse());
    }
}

/// A redo chain without its first step is a redo chain.
proof fn lemma_chain_drop_first(docs: Seq<Seq<Seq<u8>>>, inv: Seq<EditView>, ops: Seq<EditView>)
    requires
        redo_chain(docs, inv, ops),
        inv.len() > 0,
    ensures
        redo_chain(docs.drop_first(), inv.drop_first(), ops.drop_first()),
{
    let docs2 = docs.drop_first();
    let inv2 = inv.drop_first();
    let ops2 = ops.drop_first();
    assert forall|k: int| 0 <= k < inv2.len() implies #[trigger] replays_to(inv2[k], docs2[k + 1], docs2[k]) by {
        let j = k + 1;
        assert(replays_to(inv[j], docs[j + 1], docs[j]));
    }
    assert forall|k: int| 0 <= k < docs2.len() implies #[trigger] doc_fits(docs2[k]) by {
        assert(doc_fits(docs[k + 1]));
    }
    assert forall|k: int| 0 <= k < inv2.len() implies #[trigger] returns_edit(inv2[k], docs2[k + 1], ops2[k]) by {
        let j = k + 1;
        assert(returns_edit(inv[j], docs[j + 1], ops[j]));
    }
    assert forall|k: int| 0 <= k < ops2.len() implies #[trigger] replays_to(ops2[k], docs2[k], docs2[k + 1]) by {
        let j = k + 1;
        assert(replays_to(ops[j], docs[j], docs[j + 1]));
    }
}

/// Replaying the forward edits of a chain from its first document, first
/// edit first, gives its last document.
#[verifier::spinoff_prover]
#[verifier::rlimit(40)]
proof fn lemma_replay_forward(
    docs: Seq<Seq<Seq<u8>>>,
    inv: Seq<EditView>,
    ops: Seq<EditView>,
    x: Seq<usize>,
    acc: Seq<EditView>,
)
    requires
        redo_chain(docs, inv, ops),
        x.len() % 4 == 0,
        ops.len() > 0 ==> selections_fit(x, ops[0]),
    ensures
        replay_fold(docs[0], x, ops, acc) matches Some(f) && f.0 == docs.last(),
    decreases ops.len(),
{
    if ops.len() > 0 {
        let z: int = 0;
        let e = ops[z];
        let from = docs[z];
        let to = docs[z + 1];
        assert(replays_to(ops[z], docs[z], docs[z + 1]));
        assert(sane_selections(from, Seq::<usize>::empty()));
        lemma_other_selections(from, Seq::<usize>::empty(), x, e);
        let r = single_edit_result(from, x, e);
        assert(doc_fits(to));
        lemma_result_sane(from, x, e);
        let x2 = to_usizes(r.1);
        assert(replay_step(from, x, e, acc) == Some((r.0, x2, acc.push(r.2)))) by {
            reveal(replay_step);
        }
        let docs2 = docs.drop_first();
        let inv2 = inv.drop_first();
        let ops2 = ops.drop_first();
        lemma_chain_drop_first(docs, inv, ops);
        if ops2.len() > 0 {
            let z2: int = 0;
            assert(replays_to(ops2[z2], docs2[z2], docs2[z2 + 1]));
            assert(sane_selections(docs2[z2], x2));
            assert(single_edit_ok(docs2[z2], x2, ops2[z2]));
        }
        lemma_replay_forward(docs2, inv2, ops2, x2, acc.push(r.2));
    }
}

/// The documents that a bulk edit passes through: one after each removal
/// and one after each insertion it makes.
pub open spec fn bulk_trace(d: Seq<Seq<u8>>, es: Seq<BulkView>) -> Seq<Seq<Seq<u8>>>
    decreases es.len(),
{
    if es.len() == 0 {
        seq![]
    } else {
        let e = es[0];
        let ranged = e.0 != e.2 || e.1 != e.3;
        let d1 = if ranged {
            doc_after_remove(d, e.0 as int, e.1 as int, e.2 as int, e.3 as int)
        } else {
            d
        };
        let d2 = if e.4.len() > 0 {
            doc_after_insert(d1, e.0 as int, e.1 as int, e.4)
        } else {
            d1
        };
        (if ranged {
            seq![d1]
        } else {
            seq![]
        }) + (if e.4.len() > 0 {
            seq![d2]
        } else {
            seq![]
        }) + bulk_trace(d2, es.drop_first())
    }
}

/// Each edit of a bulk request, where it applies, starts before the last
/// byte of its line and (when it removes) ends before the last byte of its
/// line, inserts valid UTF-8 text of at most `isize::MAX` bytes, removes at
/// most `isize::MAX` bytes, and leaves a document that fits in memory
/// (`doc_fits`).
pub open spec fn bulk_sane(d: Seq<Seq<u8>>, es: Seq<BulkView>) -> bool
    decreases es.len(),
{
    if es.len() == 0 {
        true
    } else {
        let e = es[0];
        let (l1, c1, l2, c2, text) = e;
        let ranged = l1 != l2 || c1 != c2;
        let d1 = if ranged {
            doc_after_remove(d, l1 as int, c1 as int, l2 as int, c2 as int)
        } else {
            d
        };
        let d2 = if text.len() > 0 {
            doc_after_insert(d1, l1 as int, c1 as int, text)
        } else {
            d1
        };
        &&& (ranged || text.len() > 0) ==> c1 <= d[l1 - 1].len()
        &&& ranged ==> {
            &&& c2 <= d[l2 - 1].len()
            &&& spec_get_text(d, l1 as int, c1 as int, l2 as int, c2 as int, false).len() <= isize::MAX
            &&& doc_fits(d1)
        }
        &&& text.len() > 0 ==> {
            &&& valid_utf8(text)
            &&& text.len() <= isize::MAX
            &&& doc_fits(d2)
        }
        &&& bulk_sane(d2, es.drop_first())
    }
}

/// A chain grows by one edit, its inverse and the document it leads to.
proof fn lemma_chain_push(
    docs: Seq<Seq<Seq<u8>>>,
    inv: Seq<EditView>,
    ops: Seq<EditView>,
    nd: Seq<Seq<u8>>,
    back: EditView,
    op: EditView,
)
    requires
        redo_chain(docs, inv, ops),
        replays_to(back, nd, docs.last()),
        returns_edit(back, nd, op),
        replays_to(op, docs.last(), nd),
        doc_fits(nd),
    ensures
        redo_chain(docs.push(nd), inv.push(back), ops.push(op)),
{
    let docs1 = docs.push(nd);
    let inv1 = inv.push(back);
    let ops1 = ops.push(op);
    assert forall|k: int| 0 <= k < inv1.len() implies #[trigger] replays_to(inv1[k], docs1[k + 1], docs1[k]) by {
        if k < inv.len() {
            assert(replays_to(inv[k], docs[k + 1], docs[k]));
        }
    }
    assert forall|k: int| 0 <= k < docs1.len() implies #[trigger] doc_fits(docs1[k]) by {
        if k < docs.len() {
            assert(doc_fits(docs[k]));
        }
    }
    assert forall|k: int| 0 <= k < inv1.len() implies #[trigger] returns_edit(inv1[k], docs1[k + 1], ops1[k]) by {
        if k < inv.len() {
            assert(returns_edit(inv[k], docs[k + 1], ops[k]));
        }
    }
    assert forall|k: int| 0 <= k < ops1.len() implies #[trigger] replays_to(ops1[k], docs1[k], docs1[k + 1]) by {
        if k < ops.len() {
            assert(replays_to(ops[k], docs[k], docs[k + 1]));
        }
    }
}

/// The removal a bulk edit makes extends its chain.
#[verifier::spinoff_prover]
proof fn lemma_bulk_removal_step(
    d: Seq<Seq<u8>>,
    s: Seq<usize>,
    l1: usize,
    c1: usize,
    l2: usize,
    c2: usize,
    docs0: Seq<Seq<Seq<u8>>>,
    inv0: Seq<EditView>,
    ops0: Seq<EditView>,
)
    requires
        redo_chain(docs0, inv0, ops0),
        docs0.last() == d,
        well_formed_lines(d),
        single_edit_ok(d, s, (kind_remove(), l1, c1, l2, c2, seq![])),
        c1 <= d[l1 - 1].len(),
        c2 <= d[l2 - 1].len(),
        spec_get_text(d, l1 as int, c1 as int, l2 as int, c2 as int, false).len() <= isize::MAX,
        doc_fits(doc_after_remove(d, l1 as int, c1 as int, l2 as int, c2 as int)),
    ensures
        ({
            let d1 = doc_after_remove(d, l1 as int, c1 as int, l2 as int, c2 as int);
            let ins: EditView = (kind_insert(), l1, c1, l1, c1, spec_get_text(
                d,
                l1 as int,
                c1 as int,
                l2 as int,
                c2 as int,
                false,
            ));
            let er: EditView = (kind_remove(), l1, c1, l2, c2, seq![]);
            &&& redo_chain(docs0.push(d1), inv0.push(ins), ops0.push(er))
            &&& well_formed_lines(d1)
            &&& to_usizes(crate::doc::selections_after_remove(s, l1 as int, c1 as int, l2 as int, c2 as int)).len()
                % 4 == 0
        }),
{
    let d1 = doc_after_remove(d, l1 as int, c1 as int, l2 as int, c2 as int);
    let ins: EditView = (kind_insert(), l1, c1, l1, c1, spec_get_text(
        d,
        l1 as int,
        c1 as int,
        l2 as int,
        c2 as int,
        false,
    ));
    let er: EditView = (kind_remove(), l1, c1, l2, c2, seq![]);
    assert(doc_fits(docs0[docs0.len() - 1]));
    assert(single_edit_result(d, s, er).0 == d1);
    assert(single_edit_result(d, s, er).2 == ins);
    assert forall|x: Seq<usize>| #[trigger] sane_selections(d1, x) implies single_edit_ok(d1, x, ins)
        && single_edit_result(d1, x, ins).0 == d && single_edit_result(d1, x, ins).2 == er by {
        lemma_remove_undone_sane(d, s, l1, c1, l2, c2, x);
    }
    assert forall|x: Seq<usize>| #[trigger] sane_selections(d, x) implies single_edit_ok(d, x, er)
        && single_edit_result(d, x, er).0 == d1 by {
        lemma_remove_applies(d, l1, c1, l2, c2, x);
    }
    lemma_chain_push(docs0, inv0, ops0, d1, ins, er);
    lemma_remove_keeps_lines(d, l1 as int, c1 as int, l2 as int, c2 as int);
    crate::doc::lemma_selections_after_remove_len(s, l1 as int, c1 as int, l2 as int, c2 as int);
}

/// The insertion a bulk edit makes extends its chain.
#[verifier::spinoff_prover]
proof fn lemma_bulk_insertion_step(
    d1: Seq<Seq<u8>>,
    s1: Seq<usize>,
    l1: usize,
    c1: usize,
    text: Seq<u8>,
    docs1: Seq<Seq<Seq<u8>>>,
    inv1: Seq<EditView>,
    ops1: Seq<EditView>,
)
    requires
        redo_chain(docs1, inv1, ops1),
        docs1.last() == d1,
        well_formed_lines(d1),
        single_edit_ok(d1, s1, (kind_insert(), l1, c1, l1, c1, text)),
        c1 <= d1[l1 - 1].len(),
        valid_utf8(text),
        text.len() <= isize::MAX,
        doc_fits(doc_after_insert(d1, l1 as int, c1 as int, text)),
    ensures
        ({
            let d2 = doc_after_insert(d1, l1 as int, c1 as int, text);
            let ei: EditView = (kind_insert(), l1, c1, l1, c1, text);
            let rem: EditView = single_edit_result(d1, s1, ei).2;
            &&& rem == (kind_remove(), l1, c1, inserted_end(d2, l1, c1, text.len()).0 as usize,
                inserted_end(d2, l1, c1, text.len()).1 as usize, Seq::<u8>::empty())
            &&& redo_chain(docs1.push(d2), inv1.push(rem), ops1.push(ei))
            &&& well_formed_lines(d2)
            &&& to_usizes(selections_after_insert(s1, l1 as int, c1 as int, text)).len() == s1.len()
        }),
{
    let d2 = doc_after_insert(d1, l1 as int, c1 as int, text);
    let ei: EditView = (kind_insert(), l1, c1, l1, c1, text);
    let rem: EditView = single_edit_result(d1, s1, ei).2;
    assert(doc_fits(docs1[docs1.len() - 1]));
    assert(line_ok(d1[l1 - 1]));
    assert(single_edit_result(d1, s1, ei).0 == d2);
    assert forall|x: Seq<usize>| #[trigger] sane_selections(d2, x) implies single_edit_ok(d2, x, rem)
        && single_edit_result(d2, x, rem).0 == d1 && single_edit_result(d2, x, rem).2 == ei by {
        lemma_insert_undone_sane(d1, s1, l1, c1, text, x);
    }
    assert forall|x: Seq<usize>| #[trigger] sane_selections(d1, x) implies single_edit_ok(d1, x, ei)
        && single_edit_result(d1, x, ei).0 == d2 by {
        lemma_insert_applies(d1, l1, c1, text, x);
    }
    lemma_chain_push(docs1, inv1, ops1, d2, rem, ei);
    lemma_insert_keeps_lines(d1, l1 as int, c1 as int, text);
    lemma_newline_pieces_nonempty(text);
    let pieces = newline_pieces(text);
    lemma_shift_after_insert_len(ints(s1), l1 as int, c1 as int, pieces.len() - 1, pieces.last().len() as int);
}

/// The inverse edits that a bulk edit gathers, and the edits it makes, form
/// a chain over the documents it passes through.
#[verifier::spinoff_prover]
#[verifier::rlimit(60)]
proof fn lemma_bulk_chain(
    d: Seq<Seq<u8>>,
    s: Seq<usize>,
    es: Seq<BulkView>,
    inv0: Seq<EditView>,
    docs0: Seq<Seq<Seq<u8>>>,
    ops0: Seq<EditView>,
)
    requires
        redo_chain(docs0, inv0, ops0),
        docs0.last() == d,
        well_formed_lines(d),
        s.len() % 4 == 0,
        bulk_sane(d, es),
        bulk_fold(d, s, es, inv0) is Some,
    ensures
        redo_chain(
            docs0 + bulk_trace(d, es),
            bulk_fold(d, s, es, inv0).unwrap().2,
            ops0 + bulk_ops(es),
        ),
        (docs0 + bulk_trace(d, es)).last() == bulk_fold(d, s, es, inv0).unwrap().0,
    decreases es.len(),
{
    if es.len() == 0 {
        assert(docs0 + bulk_trace(d, es) =~= docs0);
        assert(ops0 + bulk_ops(es) =~= ops0);
    } else {
        let e = es[0];
        let (l1, c1, l2, c2, text) = e;
        let ranged = l1 != l2 || c1 != c2;
        let d1 = if ranged {
            doc_after_remove(d, l1 as int, c1 as int, l2 as int, c2 as int)
        } else {
            d
        };
        let d2 = if text.len() > 0 {
            doc_after_insert(d1, l1 as int, c1 as int, text)
        } else {
            d1
        };
        reveal(bulk_step);
        let st = bulk_step(d, s, e, inv0);
        assert(st is Some);
        let s1 = if ranged {
            to_usizes(crate::doc::selections_after_remove(s, l1 as int, c1 as int, l2 as int, c2 as int))
        } else {
            s
        };
        let ins: EditView = (kind_insert(), l1, c1, l1, c1, spec_get_text(
            d,
            l1 as int,
            c1 as int,
            l2 as int,
            c2 as int,
            false,
        ));
        let er: EditView = (kind_remove(), l1, c1, l2, c2, seq![]);
        let inv1 = if ranged { inv0.push(ins) } else { inv0 };
        let docs1 = if ranged { docs0.push(d1) } else { docs0 };
        let ops1 = if ranged { ops0.push(er) } else { ops0 };
        if ranged {
            lemma_bulk_removal_step(d, s, l1, c1, l2, c2, docs0, inv0, ops0);
        }
        let ei: EditView = (kind_insert(), l1, c1, l1, c1, text);
        let rem: EditView = single_edit_result(d1, s1, ei).2;
        let s2 = if text.len() > 0 {
            to_usizes(selections_after_insert(s1, l1 as int, c1 as int, text))
        } else {
            s1
        };
        let inv2 = if text.len() > 0 { inv1.push(rem) } else { inv1 };
        let docs2 = if text.len() > 0 { docs1.push(d2) } else { docs1 };
        let ops2 = if text.len() > 0 { ops1.push(ei) } else { ops1 };
        if text.len() > 0 {
            if ranged {
                let z = d[l2 - 1];
                assert(d1[l1 - 1] == d[l1 - 1].subrange(0, c1 - 1) + z.subrange(c2 - 1, z.len() as int));
                assert(line_ok(z));
            }
            lemma_bulk_insertion_step(d1, s1, l1, c1, text, docs1, inv1, ops1);
        }
        assert(st == Some((d2, s2, inv2)));
        lemma_bulk_chain(d2, s2, es.drop_first(), inv2, docs2, ops2);
        assert(docs0 + bulk_trace(d, es) =~= docs2 + bulk_trace(d2, es.drop_first()));
        assert(ops0 + bulk_ops(es) =~= ops2 + bulk_ops(es.drop_first()));
    }
}

/// Undoing a bulk edit restores the document: replaying the inverse edits
/// that a bulk edit gathers (see `make_bulk_result`), last one first, on the
/// document it left, with any selection list whose moved values fit in a
/// `usize`, gives back the document
/// it was made on, and returns the edits the bulk request made (see
/// `bulk_ops`), last one first, as the edits to redo. This holds for documents whose lines end with their only
/// `\n` (as the editor keeps them) and bulk requests whose edits stay sane
/// as they apply (see `bulk_sane`).
pub proof fn lemma_bulk_undone(d: Seq<Seq<u8>>, s: Seq<usize>, es: Seq<BulkView>, s2: Seq<usize>)
    requires
        well_formed_lines(d),
        doc_fits(d),
        s.len() % 4 == 0,
        bulk_sane(d, es),
        bulk_fold(d, s, es, seq![]) is Some,
        s2.len() % 4 == 0,
        bulk_fold(d, s, es, seq![]).unwrap().2.len() > 0 ==> selections_fit(
            s2,
            bulk_fold(d, s, es, seq![]).unwrap().2.last(),
        ),
    ensures
        ({
            let f = bulk_fold(d, s, es, seq![]).unwrap();
            replay_fold(f.0, s2, f.2.reverse(), seq![]) matches Some(g) && g.0 == d && g.2
                == bulk_ops(es).reverse()
        }),
{
    let docs0 = seq![d];
    let inv0 = Seq::<EditView>::empty();
    let ops0 = Seq::<EditView>::empty();
    assert(redo_chain(docs0, inv0, ops0)) by {
        assert forall|k: int| 0 <= k < docs0.len() implies #[trigger] doc_fits(docs0[k]) by {
            assert(docs0[k] == d);
        }
    }
    lemma_bulk_chain(d, s, es, inv0, docs0, ops0);
    let f = bulk_fold(d, s, es, inv0).unwrap();
    let docs = docs0 + bulk_trace(d, es);
    assert(ops0 + bulk_ops(es) =~= bulk_ops(es));
    lemma_replay_chain(docs, f.2, bulk_ops(es), s2, seq![]);
    assert(docs[0] == d);
    assert(Seq::<EditView>::empty() + bulk_ops(es).reverse() =~= bulk_ops(es).reverse());
}

/// The undo record of a bulk edit (see `make_bulk_result`) reads back as
/// the selections before it and its inverse edits, last one first, and
/// replaying it (see `apply_packed_result`) gives back the document the bulk
/// edit was made on; this holds under the conditions of `lemma_bulk_undone`,
/// with numbers and texts that fit the record.
pub proof fn lemma_bulk_record_undone(d: Seq<Seq<u8>>, s: Seq<usize>, es: Seq<BulkView>, s2: Seq<usize>)
    requires
        well_formed_lines(d),
        doc_fits(d),
        s.len() % 4 == 0,
        bulk_sane(d, es),
        bulk_fold(d, s, es, seq![]) is Some,
        s2.len() % 4 == 0,
        bulk_fold(d, s, es, seq![]).unwrap().2.len() > 0 ==> selections_fit(
            s2,
            bulk_fold(d, s, es, seq![]).unwrap().2.last(),
        ),
        s.len() < 0x1_0000_0000,
        forall|k: int| 0 <= k < s.len() ==> #[trigger] s[k] < 0x1_0000_0000,
        bulk_fold(d, s, es, seq![]).unwrap().2.len() < 0x1_0000_0000,
        forall|k: int|
            0 <= k < bulk_fold(d, s, es, seq![]).unwrap().2.len() ==> edit_fits(
                #[trigger] bulk_fold(d, s, es, seq![]).unwrap().2[k],
            ),
    ensures
        ({
            let f = bulk_fold(d, s, es, seq![]).unwrap();
            &&& decode_record(encode_record(s, f.2.reverse())) == Some((s, f.2.reverse()))
            &&& replay_fold(f.0, s2, f.2.reverse(), seq![]) matches Some(g) && g.0 == d
        }),
{
    let f = bulk_fold(d, s, es, seq![]).unwrap();
    lemma_bulk_undone(d, s, es, s2);
    let r = f.2.reverse();
    assert forall|k: int| 0 <= k < r.len() implies edit_fits(#[trigger] r[k]) by {
        assert(r[k] == f.2[f.2.len() - 1 - k]);
    }
    lemma_record_round_trip(s, r);
}

/// An insertion applies to a small document with any selections inside it.
proof fn lemma_insert_applies(d: Seq<Seq<u8>>, line: usize, col: usize, t: Seq<u8>, x: Seq<usize>)
    requires
        insert_ok(d, line as int, col as int),
        doc_fits(d),
        t.len() <= isize::MAX,
        sane_selections(d, x),
    ensures
        single_edit_ok(d, x, (kind_insert(), line, col, line, col, t)),
        single_edit_result(d, x, (kind_insert(), line, col, line, col, t)).0 == doc_after_insert(
            d,
            line as int,
            col as int,
            t,
        ),
{
    lemma_newline_pieces_nonempty(t);
    let p = newline_pieces(t);
    let extra = p.len() - 1;
    lemma_newline_pieces_join(t);
    lemma_join_shape(p);
    lemma_pieces_total(p);
    let last_len = p.last().len() as int;
    assert(extra + last_len <= t.len());
    let si = ints(x);
    assert forall|k: int| 0 <= k < si.len() implies 0 <= #[trigger] si[k] && si[k] + extra + last_len
        <= usize::MAX by {
        let g = k - k % 2;
        assert(g % 2 == 0 && g + 1 < x.len());
        assert(1 <= x[g] <= d.len());
        assert(d[x[g] - 1].len() <= isize::MAX);
        assert(si[k] == x[k] as int);
    }
    lemma_shift_insert_fits(si, line as int, col as int, extra, last_len);
}

/// A removal applies to a small document with any selections inside it.
proof fn lemma_remove_applies(d: Seq<Seq<u8>>, l1: usize, c1: usize, l2: usize, c2: usize, x: Seq<usize>)
    requires
        remove_ok(d, l1 as int, c1 as int, l2 as int, c2 as int),
        get_text_ok(d, l1 as int, c1 as int, l2 as int, c2 as int, false),
        doc_fits(d),
        sane_selections(d, x),
    ensures
        single_edit_ok(d, x, (kind_remove(), l1, c1, l2, c2, seq![])),
        single_edit_result(d, x, (kind_remove(), l1, c1, l2, c2, seq![])).0 == doc_after_remove(
            d,
            l1 as int,
            c1 as int,
            l2 as int,
            c2 as int,
        ),
{
    let si = ints(x);
    assert(fits_usize(si));
    assert(moved_columns_fit(si, c1 as int, l2 as int, c2 as int)) by {
        assert forall|k: int|
            0 < k < si.len() && k % 2 == 1 && si[k - 1] == l2 && #[trigger] si[k] > c2 implies si[k]
            - c2 + c1 <= usize::MAX by {
            assert(x[k - 1] as int == l2 as int);
            assert(x[k] <= max1(d[l2 - 1].len() as int));
            assert(d[l2 - 1].len() <= isize::MAX);
            assert(c1 - 1 <= d[l1 - 1].len());
            assert(d[l1 - 1].len() <= isize::MAX);
        }
    }
    lemma_shift_remove_fits(si, l1 as int, c1 as int, l2 as int, c2 as int);
}

/// Redoing an undone bulk edit gives back what the bulk edit left: the
/// edits that replaying its undo record returns, replayed in their turn on
/// the restored document, with any selection list whose moved values fit in
/// a `usize`, give the document
/// the bulk edit produced. This holds under the conditions of
/// `lemma_bulk_undone`.
pub proof fn lemma_bulk_redone(
    d: Seq<Seq<u8>>,
    s: Seq<usize>,
    es: Seq<BulkView>,
    s2: Seq<usize>,
    s3: Seq<usize>,
)
    requires
        well_formed_lines(d),
        doc_fits(d),
        s.len() % 4 == 0,
        bulk_sane(d, es),
        bulk_fold(d, s, es, seq![]) is Some,
        s2.len() % 4 == 0,
        bulk_fold(d, s, es, seq![]).unwrap().2.len() > 0 ==> selections_fit(
            s2,
            bulk_fold(d, s, es, seq![]).unwrap().2.last(),
        ),
        s3.len() % 4 == 0,
        bulk_ops(es).len() > 0 ==> selections_fit(s3, bulk_ops(es)[0]),
    ensures
        ({
            let f = bulk_fold(d, s, es, seq![]).unwrap();
            let g = replay_fold(f.0, s2, f.2.reverse(), seq![]).unwrap();
            replay_fold(d, s3, g.2.reverse(), seq![]) matches Some(h) && h.0 == f.0
        }),
{
    let docs0 = seq![d];
    let inv0 = Seq::<EditView>::empty();
    let ops0 = Seq::<EditView>::empty();
    assert(redo_chain(docs0, inv0, ops0)) by {
        assert forall|k: int| 0 <= k < docs0.len() implies #[trigger] doc_fits(docs0[k]) by {
            assert(docs0[k] == d);
        }
    }
    lemma_bulk_chain(d, s, es, inv0, docs0, ops0);
    lemma_bulk_undone(d, s, es, s2);
    let docs = docs0 + bulk_trace(d, es);
    let ops = bulk_ops(es);
    assert(ops0 + ops =~= ops);
    assert(ops.reverse().reverse() =~= ops);
    assert(docs[0] == d);
    lemma_replay_forward(docs, bulk_fold(d, s, es, inv0).unwrap().2, ops, s3, seq![]);
}

} // verus!
