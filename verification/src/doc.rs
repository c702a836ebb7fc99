//! The document model: a document is a sequence of lines, each line the bytes
//! of its text (normally ending in `\n`). Positions are `(line, col)` pairs,
//! both 1-based; `col` is a byte column, so `col` designates the gap before
//! byte `col - 1` of its line.
use vstd::prelude::*;

verus! {

broadcast use vstd::seq_lib::group_seq_properties;

/// The byte contents of a document's lines.
pub open spec fn doc_of(lines: Seq<Vec<u8>>) -> Seq<Seq<u8>> {
    lines.map_values(|l: Vec<u8>| l@)
}

/// `k` is a character boundary of the UTF-8 text `line`: its start, its end,
/// or the position of a byte that does not continue a multi-byte character.
pub open spec fn at_char_boundary(line: Seq<u8>, k: int) -> bool {
    k == 0 || k == line.len() || (0 < k < line.len() && !(0x80 <= line[k] <= 0xbf))
}

/// `x`, raised to at least 1.
pub open spec fn max1(x: int) -> int {
    if x >= 1 { x } else { 1 }
}

/// Lines that a text splits into at its `\n` bytes (the `\n` bytes
/// themselves are dropped; a text always gives at least one piece).
pub open spec fn newline_pieces(t: Seq<u8>) -> Seq<Seq<u8>>
    decreases t.len(),
{
    if t.len() == 0 {
        seq![seq![]]
    } else {
        let p = newline_pieces(t.drop_last());
        if t.last() == 10 {
            p.push(seq![])
        } else {
            p.update(p.len() - 1, p.last().push(t.last()))
        }
    }
}

/// Joins lines with `\n` between them.
pub open spec fn join_lines(s: Seq<Seq<u8>>) -> Seq<u8>
    decreases s.len(),
{
    if s.len() == 0 {
        seq![]
    } else if s.len() == 1 {
        s[0]
    } else {
        join_lines(s.drop_last()) + seq![10u8] + s.last()
    }
}

/// A text has at least one piece and at most one more than its bytes.
pub proof fn lemma_newline_pieces_nonempty(t: Seq<u8>)
    ensures
        newline_pieces(t).len() >= 1,
        newline_pieces(t).len() <= t.len() + 1,
    decreases t.len(),
{
    if t.len() > 0 {
        lemma_newline_pieces_nonempty(t.drop_last());
    }
}

/// Splitting a text at its newlines and joining the pieces back with `\n`
/// gives the text again; no piece holds a `\n`.
pub proof fn lemma_newline_pieces_join(t: Seq<u8>)
    ensures
        join_lines(newline_pieces(t)) == t,
        forall|k: int, m: int|
            0 <= k < newline_pieces(t).len() && 0 <= m < newline_pieces(t)[k].len()
                ==> newline_pieces(t)[k][m] != 10,
    decreases t.len(),
{
    if t.len() > 0 {
        let p = newline_pieces(t.drop_last());
        lemma_newline_pieces_join(t.drop_last());
        lemma_newline_pieces_nonempty(t.drop_last());
        if t.last() == 10 {
            assert(p.push(seq![]).drop_last() =~= p);
            assert(join_lines(p) + seq![10u8] + Seq::<u8>::empty() =~= t);
        } else {
            let q = p.update(p.len() - 1, p.last().push(t.last()));
            if p.len() == 1 {
                assert(q[0] =~= t);
            } else {
                assert(q.drop_last() =~= p.drop_last());
                assert(join_lines(q) =~= join_lines(p.drop_last()) + seq![10u8] + p.last().push(
                    t.last(),
                ));
                assert(join_lines(p) == join_lines(p.drop_last()) + seq![10u8] + p.last());
                assert(join_lines(q) =~= join_lines(p).push(t.last()));
                assert(t.drop_last().push(t.last()) =~= t);
            }
        }
    }
}

/// Splits a text into lines at `\n` (dropping the `\n` bytes).
pub fn split_lines(text: &[u8]) -> (res: Vec<Vec<u8>>)
    ensures
        doc_of(res@) == newline_pieces(text@),
{
    let mut res: Vec<Vec<u8>> = Vec::new();
    let mut cur: Vec<u8> = Vec::new();
    let mut i: usize = 0;
    while i < text.len()
        invariant
            i <= text@.len(),
            doc_of(res@).push(cur@) == newline_pieces(text@.subrange(0, i as int)),
        decreases text@.len() - i,
    {
        let ghost pre = text@.subrange(0, i as int);
        assert(text@.subrange(0, i + 1).drop_last() =~= pre);
        if text[i] == 10 {
            let done = cur;
            cur = Vec::new();
            res.push(done);
            assert(doc_of(res@).push(cur@) =~= newline_pieces(pre).push(seq![]));
        } else {
            let ghost p = newline_pieces(pre);
            cur.push(text[i]);
            assert(doc_of(res@).push(cur@) =~= p.update(p.len() - 1, p.last().push(text@[i as int])));
        }
        i = i + 1;
    }
    assert(text@.subrange(0, text@.len() as int) =~= text@);
    res.push(cur);
    res
}

/// Orders two positions: the earlier one first.
pub open spec fn spec_sort_positions(l1: int, c1: int, l2: int, c2: int) -> (int, int, int, int) {
    if l1 > l2 || (l1 == l2 && c1 > c2) {
        (l2, c2, l1, c1)
    } else {
        (l1, c1, l2, c2)
    }
}

/// Orders two positions, the earlier one first.
pub fn sort_positions(line1: usize, col1: usize, line2: usize, col2: usize) -> (r: (
    usize,
    usize,
    usize,
    usize,
))
    ensures
        (r.0 as int, r.1 as int, r.2 as int, r.3 as int) == spec_sort_positions(
            line1 as int,
            col1 as int,
            line2 as int,
            col2 as int,
        ),
{
    if line1 > line2 || (line1 == line2 && col1 > col2) {
        (line2, col2, line1, col1)
    } else {
        (line1, col1, line2, col2)
    }
}

/// The position nearest to `(line, col)` that lies inside the document: the
/// line is brought into range and the column into `1..=max(len, 1)` of that
/// line; a line past the end goes to the last column of the last line.
pub open spec fn sanitize(d: Seq<Seq<u8>>, line: int, col: int) -> (int, int) {
    if d.len() == 0 || line < 1 {
        (1, 1)
    } else if line > d.len() {
        (d.len() as int, max1(d.last().len() as int))
    } else {
        let hi = max1(d[line - 1].len() as int);
        (line, if col < 1 { 1 } else if col > hi { hi } else { col })
    }
}

/// A sanitized position lies inside a non-empty document.
pub proof fn lemma_sanitize_in_range(d: Seq<Seq<u8>>, line: int, col: int)
    requires
        d.len() > 0,
    ensures
        1 <= sanitize(d, line, col).0 <= d.len(),
        1 <= sanitize(d, line, col).1 <= max1(d[sanitize(d, line, col).0 - 1].len() as int),
{
}

/// The position nearest to `(line, col)` inside the document (see `sanitize`).
pub fn sanitize_position(lines: &Vec<Vec<u8>>, line: usize, col: usize) -> (r: (usize, usize))
    ensures
        (r.0 as int, r.1 as int) == sanitize(doc_of(lines@), line as int, col as int),
{
    let n = lines.len();
    if n == 0 {
        return (1, 1);
    }
    if line < 1 {
        return (1, 1);
    }
    if line > n {
        let last_len = lines[n - 1].len();
        return (n, if last_len >= 1 { last_len } else { 1 });
    }
    let len = lines[line - 1].len();
    let hi = if len >= 1 { len } else { 1 };
    (line, if col < 1 { 1 } else if col > hi { hi } else { col })
}

/// One byte forward: to the next column, or to the start of the next line
/// from the last column; `None` at the very end of the document.
pub open spec fn step_forward(d: Seq<Seq<u8>>, l: int, c: int) -> Option<(int, int)> {
    if c < d[l - 1].len() {
        Some((l, c + 1))
    } else if l < d.len() {
        Some((l + 1, 1))
    } else {
        None
    }
}

/// One byte back: to the previous column, or to the last column of the
/// previous line; `None` at the very start of the document.
pub open spec fn step_back(d: Seq<Seq<u8>>, l: int, c: int) -> Option<(int, int)> {
    if c > 1 {
        Some((l, c - 1))
    } else if l > 1 {
        Some((l - 1, max1(d[l - 2].len() as int)))
    } else {
        None
    }
}

/// The absolute value of `k`.
pub open spec fn abs(k: int) -> int {
    if k < 0 { -k } else { k }
}

/// The position reached from `(l, c)` by `k` single-byte steps (forward
/// when `k > 0`, back when `k < 0`), stopping early at either end.
pub open spec fn walk(d: Seq<Seq<u8>>, l: int, c: int, k: int) -> (int, int)
    decreases abs(k),
{
    if k == 0 {
        (l, c)
    } else if k > 0 {
        match step_forward(d, l, c) {
            Some(p) => walk(d, p.0, p.1, k - 1),
            None => (l, c),
        }
    } else {
        match step_back(d, l, c) {
            Some(p) => walk(d, p.0, p.1, k + 1),
            None => (l, c),
        }
    }
}

/// The position `offset` bytes away from the sanitized `(line, col)`.
pub open spec fn spec_position_offset(d: Seq<Seq<u8>>, line: int, col: int, offset: int) -> (
    int,
    int,
) {
    if d.len() == 0 {
        (1, 1)
    } else {
        let p = sanitize(d, line, col);
        walk(d, p.0, p.1, offset)
    }
}

/// The position `offset` bytes after (or, when negative, before) the
/// sanitized `(line, col)`, stopping at either end of the document.
pub fn position_offset(lines: &Vec<Vec<u8>>, line: usize, col: usize, offset: isize) -> (r: (
    usize,
    usize,
))
    ensures
        (r.0 as int, r.1 as int) == spec_position_offset(
            doc_of(lines@),
            line as int,
            col as int,
            offset as int,
        ),
{
    let ghost d = doc_of(lines@);
    let mut remaining = offset;
    if lines.len() == 0 {
        return (1, 1);
    }
    let (mut line, mut col) = sanitize_position(lines, line, col);
    proof {
        lemma_sanitize_in_range(d, line as int, col as int);
    }
    let ghost target = spec_position_offset(d, line as int, col as int, offset as int);
    assert(target == walk(d, line as int, col as int, offset as int));
    while remaining != 0
        invariant_except_break
            d == doc_of(lines@),
            d.len() == lines@.len(),
            1 <= line <= lines@.len(),
            1 <= col,
            walk(d, line as int, col as int, remaining as int) == target,
        ensures
            (line as int, col as int) == target,
        decreases abs(remaining as int),
    {
        let len = lines[line - 1].len();
        assert(len == d[line - 1].len());
        if remaining > 0 {
            if col < len {
                col = col + 1;
            } else if line < lines.len() {
                line = line + 1;
                col = 1;
            } else {
                break;
            }
            remaining = remaining - 1;
        } else {
            if col > 1 {
                col = col - 1;
            } else if line > 1 {
                line = line - 1;
                let l = lines[line - 1].len();
                col = if l >= 1 { l } else { 1 };
            } else {
                break;
            }
            remaining = remaining + 1;
        }
    }
    (line, col)
}

/// Copies `v[a..b]`.
pub fn copy_range(v: &[u8], a: usize, b: usize) -> (r: Vec<u8>)
    requires
        a <= b <= v@.len(),
    ensures
        r@ == v@.subrange(a as int, b as int),
{
    let mut r: Vec<u8> = Vec::new();
    let mut k = a;
    while k < b
        invariant
            a <= k <= b <= v@.len(),
            r@ == v@.subrange(a as int, k as int),
        decreases b - k,
    {
        r.push(v[k]);
        k = k + 1;
        assert(r@ =~= v@.subrange(a as int, k as int));
    }
    r
}

/// Appends all of `src` to `out`.
pub fn push_all(out: &mut Vec<u8>, src: &[u8])
    ensures
        final(out)@ == old(out)@ + src@,
{
    let ghost start = out@;
    let mut k: usize = 0;
    while k < src.len()
        invariant
            k <= src@.len(),
            out@ == start + src@.subrange(0, k as int),
        decreases src@.len() - k,
    {
        out.push(src[k]);
        k = k + 1;
        assert(out@ =~= start + src@.subrange(0, k as int));
    }
    assert(src@.subrange(0, src@.len() as int) =~= src@);
}

/// `a - b`, floored at zero.
pub open spec fn sat_sub(a: int, b: int) -> int {
    if a >= b { a - b } else { 0 }
}

/// The lines strictly between lines `x1` and `x2`, concatenated.
pub open spec fn middle_text(d: Seq<Seq<u8>>, x1: int, x2: int) -> Seq<u8>
    decreases x2 - x1,
{
    if x2 - x1 <= 1 {
        seq![]
    } else {
        middle_text(d, x1, x2 - 1) + d[x2 - 2]
    }
}

/// Where a text read spans several lines, the cuts it makes fall inside its
/// first and last lines at character boundaries.
pub open spec fn get_text_ok(
    d: Seq<Seq<u8>>,
    line1: int,
    col1: int,
    line2: int,
    col2: int,
    inclusive: bool,
) -> bool {
    &&& d.len() > 0
    &&& {
        let a = sanitize(d, line1, col1);
        let b = sanitize(d, line2, col2);
        let s = spec_sort_positions(a.0, a.1, b.0, b.1);
        let hi = sat_sub(s.3, if inclusive { 0 } else { 1 });
        s.0 != s.2 ==> {
            &&& at_char_boundary(d[s.0 - 1], s.1 - 1)
            &&& hi <= d[s.2 - 1].len()
            &&& at_char_boundary(d[s.2 - 1], hi)
        }
    }
}

/// The text between two positions (sanitized, then ordered); the end column
/// itself is included when `inclusive`. Within one line, a range that is
/// reversed, too long or cuts a character gives the empty text.
pub open spec fn spec_get_text(
    d: Seq<Seq<u8>>,
    line1: int,
    col1: int,
    line2: int,
    col2: int,
    inclusive: bool,
) -> Seq<u8> {
    let a = sanitize(d, line1, col1);
    let b = sanitize(d, line2, col2);
    let s = spec_sort_positions(a.0, a.1, b.0, b.1);
    let hi = sat_sub(s.3, if inclusive { 0 } else { 1 });
    if s.0 == s.2 {
        let line = d[s.0 - 1];
        let lo = s.1 - 1;
        if lo <= hi && hi <= line.len() && at_char_boundary(line, lo) && at_char_boundary(
            line,
            hi,
        ) {
            line.subrange(lo, hi)
        } else {
            seq![]
        }
    } else {
        d[s.0 - 1].subrange(s.1 - 1, d[s.0 - 1].len() as int) + middle_text(d, s.0, s.2)
            + d[s.2 - 1].subrange(0, hi)
    }
}

/// Exec test of `at_char_boundary`.
pub fn is_boundary(line: &[u8], k: usize) -> (r: bool)
    ensures
        r == at_char_boundary(line@, k as int),
{
    k == 0 || k == line.len() || (0 < k && k < line.len() && !(0x80 <= line[k] && line[k]
        <= 0xbf))
}

/// The text between two positions (see `spec_get_text`).
pub fn get_text(
    lines: &Vec<Vec<u8>>,
    line1: usize,
    col1: usize,
    line2: usize,
    col2: usize,
    inclusive: bool,
) -> (r: Vec<u8>)
    requires
        get_text_ok(doc_of(lines@), line1 as int, col1 as int, line2 as int, col2 as int, inclusive),
    ensures
        r@ == spec_get_text(
            doc_of(lines@),
            line1 as int,
            col1 as int,
            line2 as int,
            col2 as int,
            inclusive,
        ),
{
    let ghost d = doc_of(lines@);
    let (line1, col1) = sanitize_position(lines, line1, col1);
    let (line2, col2) = sanitize_position(lines, line2, col2);
    proof {
        lemma_sanitize_in_range(d, line1 as int, col1 as int);
        lemma_sanitize_in_range(d, line2 as int, col2 as int);
    }
    let (line1, col1, line2, col2) = sort_positions(line1, col1, line2, col2);
    let col2_offset: usize = if inclusive { 0 } else { 1 };
    let hi = col2.saturating_sub(col2_offset);
    if line1 == line2 {
        let line = &lines[line1 - 1];
        let lo = col1 - 1;
        assert(line@ == d[line1 - 1]);
        if lo <= hi && hi <= line.len() && is_boundary(line.as_slice(), lo) && is_boundary(
            line.as_slice(),
            hi,
        ) {
            return copy_range(line.as_slice(), lo, hi);
        } else {
            return Vec::new();
        }
    }
    let first = &lines[line1 - 1];
    assert(first@ == d[line1 - 1]);
    let mut out = copy_range(first.as_slice(), col1 - 1, first.len());
    let ghost head = out@;
    let mut idx = line1;
    assert(middle_text(d, line1 as int, line1 as int + 1) == Seq::<u8>::empty());
    while idx < line2 - 1
        invariant
            d == doc_of(lines@),
            1 <= line1 <= idx <= line2 - 1,
            line2 <= lines@.len(),
            out@ == head + middle_text(d, line1 as int, idx + 1),
        decreases line2 - 1 - idx,
    {
        push_all(&mut out, lines[idx].as_slice());
        idx = idx + 1;
        assert(out@ =~= head + middle_text(d, line1 as int, idx + 1));
    }
    let last = &lines[line2 - 1];
    assert(last@ == d[line2 - 1]);
    let tail = copy_range(last.as_slice(), 0, hi);
    push_all(&mut out, tail.as_slice());
    out
}

/// A selection list as integers.
pub open spec fn ints(s: Seq<usize>) -> Seq<int> {
    s.map_values(|x: usize| x as int)
}

/// Every value of `s` fits in a `usize`.
pub open spec fn fits_usize(s: Seq<int>) -> bool {
    forall|k: int| 0 <= k < s.len() ==> 0 <= #[trigger] s[k] <= usize::MAX
}

/// `(line, col)` designates a gap inside line `line` that does not cut a
/// character.
pub open spec fn insert_ok(d: Seq<Seq<u8>>, line: int, col: int) -> bool {
    &&& 1 <= line <= d.len()
    &&& 1 <= col
    &&& col - 1 <= d[line - 1].len()
    &&& at_char_boundary(d[line - 1], col - 1)
}

/// The lines that replace a line cut into `before` and `after` when the text
/// whose newline pieces are `pieces` is put in the cut: each piece but the
/// last ends with `\n`, the first starts with `before` and the last ends with
/// `after`.
pub open spec fn insert_block(before: Seq<u8>, pieces: Seq<Seq<u8>>, after: Seq<u8>) -> Seq<
    Seq<u8>,
> {
    Seq::new(
        pieces.len(),
        |k: int|
            (if k == 0 {
                before
            } else {
                seq![]
            }) + pieces[k] + (if k < pieces.len() - 1 {
                seq![10u8]
            } else {
                after
            }),
    )
}

/// The document after `text` is inserted at `(line, col)`.
pub open spec fn doc_after_insert(d: Seq<Seq<u8>>, line: int, col: int, text: Seq<u8>) -> Seq<
    Seq<u8>,
> {
    let cur = d[line - 1];
    d.subrange(0, line - 1) + insert_block(
        cur.subrange(0, col - 1),
        newline_pieces(text),
        cur.subrange(col - 1, cur.len() as int),
    ) + d.subrange(line, d.len() as int)
}

/// One selection `(line1, col1, line2, col2)` after an insertion at
/// `(line, col)` that adds `extra` lines and whose last piece has `last_len`
/// bytes.
pub open spec fn insert_group(g: Seq<int>, line: int, col: int, extra: int, last_len: int) -> Seq<
    int,
> {
    let la = if line < g[0] || (line == g[0] && col < g[1]) {
        extra
    } else {
        0
    };
    let ca = if line == g[0] && g[1] > col {
        last_len
    } else {
        0
    };
    seq![g[0] + la, g[1] + ca, g[2] + la, g[3] + ca]
}

/// Selections after an insertion: from the last selection backwards, each
/// that starts at or after line `line` is moved; the first one met that
/// starts before `line` stops the walk and it and all before it are kept.
pub open spec fn shift_after_insert(s: Seq<int>, line: int, col: int, extra: int, last_len: int) -> Seq<
    int,
>
    decreases s.len(),
{
    if s.len() < 4 || s[s.len() - 4] < line {
        s
    } else {
        shift_after_insert(s.subrange(0, s.len() - 4), line, col, extra, last_len) + insert_group(
            s.subrange(s.len() - 4, s.len() as int),
            line,
            col,
            extra,
            last_len,
        )
    }
}

/// Moving selections for an insertion keeps their number.
pub proof fn lemma_shift_after_insert_len(s: Seq<int>, line: int, col: int, extra: int, last_len: int)
    ensures
        shift_after_insert(s, line, col, extra, last_len).len() == s.len(),
    decreases s.len(),
{
    if !(s.len() < 4 || s[s.len() - 4] < line) {
        lemma_shift_after_insert_len(s.subrange(0, s.len() - 4), line, col, extra, last_len);
    }
}

/// Selections after inserting `text` at `(line, col)`.
pub open spec fn selections_after_insert(s: Seq<usize>, line: int, col: int, text: Seq<u8>) -> Seq<
    int,
> {
    let pieces = newline_pieces(text);
    shift_after_insert(ints(s), line, col, pieces.len() - 1, pieces.last().len() as int)
}

/// Number of `\n` bytes in `t`.
pub open spec fn newline_count(t: Seq<u8>) -> nat
    decreases t.len(),
{
    if t.len() == 0 {
        0
    } else {
        newline_count(t.drop_last()) + if t.last() == 10 {
            1nat
        } else {
            0nat
        }
    }
}

/// A text splits into one more piece than it has newlines.
pub proof fn lemma_pieces_count(t: Seq<u8>)
    ensures
        newline_pieces(t).len() == newline_count(t) + 1,
    decreases t.len(),
{
    if t.len() > 0 {
        lemma_pieces_count(t.drop_last());
        lemma_newline_pieces_nonempty(t.drop_last());
    }
}

proof fn lemma_shift_insert_other_lines(s: Seq<int>, line: int, col: int, extra: int, last_len: int)
    requires
        s.len() % 4 == 0,
    ensures
        ({
            let r = shift_after_insert(s, line, col, extra, last_len);
            &&& r.len() == s.len()
            &&& forall|g: int|
                0 <= g && g + 3 < s.len() && g % 4 == 0 && #[trigger] s[g] != line ==> r[g + 1] == s[g + 1]
                    && r[g + 3] == s[g + 3] && ((r[g] == s[g] && r[g + 2] == s[g + 2]) || (s[g] > line
                    && r[g] == s[g] + extra && r[g + 2] == s[g + 2] + extra))
        }),
    decreases s.len(),
{
    lemma_shift_after_insert_len(s, line, col, extra, last_len);
    if !(s.len() < 4 || s[s.len() - 4] < line) {
        let n = s.len() as int;
        let pre = s.subrange(0, n - 4);
        lemma_shift_insert_other_lines(pre, line, col, extra, last_len);
        lemma_shift_after_insert_len(pre, line, col, extra, last_len);
        let g4 = s.subrange(n - 4, n);
        let r = shift_after_insert(s, line, col, extra, last_len);
        let rp = shift_after_insert(pre, line, col, extra, last_len);
        let ig = insert_group(g4, line, col, extra, last_len);
        assert(r == rp + ig);
        assert forall|g: int|
            0 <= g && g + 3 < s.len() && g % 4 == 0 && #[trigger] s[g] != line implies r[g + 1] == s[g + 1]
                && r[g + 3] == s[g + 3] && ((r[g] == s[g] && r[g + 2] == s[g + 2]) || (s[g] > line
                && r[g] == s[g] + extra && r[g + 2] == s[g + 2] + extra)) by {
            if g < n - 4 {
                assert(pre[g] == s[g]);
                assert(pre[g + 1] == s[g + 1] && pre[g + 2] == s[g + 2] && pre[g + 3] == s[g + 3]);
                assert(r[g] == rp[g] && r[g + 1] == rp[g + 1] && r[g + 2] == rp[g + 2] && r[g + 3] == rp[g + 3]);
            } else {
                assert(g == n - 4);
                assert(g4[0] == s[g] && g4[1] == s[g + 1] && g4[2] == s[g + 2] && g4[3] == s[g + 3]);
                assert(r[g] == ig[0] && r[g + 1] == ig[1] && r[g + 2] == ig[2] && r[g + 3] == ig[3]);
            }
        }
    }
}

/// An insertion moves no selection sideways unless it starts on the
/// insertion line: a selection whose start lies on another line keeps both
/// its columns, and its lines either stay or both move down by the number of
/// `\n` bytes inserted (only selections that start after the insertion line
/// move); every point keeps designating the same byte.
pub proof fn lemma_insert_keeps_other_columns(s: Seq<usize>, line: int, col: int, text: Seq<u8>)
    requires
        s.len() % 4 == 0,
    ensures
        ({
            let r = selections_after_insert(s, line, col, text);
            &&& r.len() == s.len()
            &&& forall|g: int|
                0 <= g && g + 3 < s.len() && g % 4 == 0 && #[trigger] s[g] != line ==> r[g + 1] == s[g + 1]
                    && r[g + 3] == s[g + 3] && ((r[g] == s[g] && r[g + 2] == s[g + 2]) || (s[g] > line
                    && r[g] == s[g] + newline_count(text) && r[g + 2] == s[g + 2] + newline_count(text)))
        }),
{
    let si = ints(s);
    let pieces = newline_pieces(text);
    lemma_pieces_count(text);
    lemma_shift_insert_other_lines(si, line, col, pieces.len() - 1, pieces.last().len() as int);
    let r = selections_after_insert(s, line, col, text);
    let x = newline_count(text) as int;
    assert forall|g: int|
        0 <= g && g + 3 < s.len() && g % 4 == 0 && #[trigger] s[g] != line implies r[g + 1] == s[g + 1]
            && r[g + 3] == s[g + 3] && ((r[g] == s[g] && r[g + 2] == s[g + 2]) || (s[g] > line && r[g]
            == s[g] + x && r[g + 2] == s[g + 2] + x)) by {
        assert(si[g] == s[g] as int);
        assert(si[g + 1] == s[g + 1] as int);
        assert(si[g + 2] == s[g + 2] as int);
        assert(si[g + 3] == s[g + 3] as int);
    }
}

/// Inserts `text` at `(line, col)` and moves the selections after it.
pub fn apply_insert_internal(
    lines: &mut Vec<Vec<u8>>,
    selections: &mut Vec<usize>,
    line: usize,
    col: usize,
    text: &[u8],
)
    requires
        insert_ok(doc_of(old(lines)@), line as int, col as int),
        old(selections)@.len() % 4 == 0,
        fits_usize(selections_after_insert(old(selections)@, line as int, col as int, text@)),
    ensures
        doc_of(final(lines)@) == doc_after_insert(doc_of(old(lines)@), line as int, col as int, text@),
        ints(final(selections)@) == selections_after_insert(
            old(selections)@,
            line as int,
            col as int,
            text@,
        ),
{
    let ghost d = doc_of(lines@);
    let ghost s0 = selections@;
    let insert_lines = split_lines(text);
    proof {
        lemma_newline_pieces_nonempty(text@);
    }
    let n = insert_lines.len();
    let len = insert_lines[n - 1].len();
    let ghost pieces = newline_pieces(text@);
    assert(insert_lines@[n - 1]@ == pieces[n - 1]);
    // the cut line
    let cur = &lines[line - 1];
    assert(cur@ == d[line - 1]);
    let before = copy_range(cur.as_slice(), 0, col - 1);
    let after = copy_range(cur.as_slice(), col - 1, cur.len());
    let ghost block = insert_block(before@, pieces, after@);
    let mut new_lines: Vec<Vec<u8>> = Vec::new();
    let mut k: usize = 0;
    while k < n
        invariant
            k <= n,
            n == insert_lines@.len(),
            n == pieces.len(),
            doc_of(insert_lines@) == pieces,
            block == insert_block(before@, pieces, after@),
            doc_of(new_lines@) == block.subrange(0, k as int),
        decreases n - k,
    {
        let mut item: Vec<u8> = Vec::new();
        if k == 0 {
            push_all(&mut item, before.as_slice());
        }
        push_all(&mut item, insert_lines[k].as_slice());
        if k < n - 1 {
            item.push(10);
        } else {
            push_all(&mut item, after.as_slice());
        }
        assert(item@ =~= block[k as int]);
        let ghost prev = new_lines@;
        new_lines.push(item);
        assert(new_lines@ == prev.push(item));
        assert(doc_of(new_lines@) =~= doc_of(prev).push(item@));
        k = k + 1;
        assert(doc_of(new_lines@) =~= block.subrange(0, k as int));
    }
    let ghost dl = lines@;
    let ghost nl = new_lines@;
    let mut tail = lines.split_off(line);
    lines.pop();
    assert(lines@ =~= dl.subrange(0, line - 1));
    lines.append(&mut new_lines);
    lines.append(&mut tail);
    assert(lines@ =~= dl.subrange(0, line - 1) + nl + dl.subrange(line as int, dl.len() as int));
    assert(doc_of(dl.subrange(0, line - 1)) =~= d.subrange(0, line - 1));
    assert(doc_of(dl.subrange(line as int, dl.len() as int)) =~= d.subrange(line as int, d.len() as int));
    assert(doc_of(nl) =~= block);
    assert(doc_of(lines@) =~= doc_of(dl.subrange(0, line - 1)) + doc_of(nl) + doc_of(
        dl.subrange(line as int, dl.len() as int),
    ));
    // move the selections after the insertion point
    let extra = n - 1;
    let ghost target = shift_after_insert(ints(s0), line as int, col as int, extra as int, len as int);
    proof {
        lemma_shift_after_insert_len(ints(s0), line as int, col as int, extra as int, len as int);
    }
    let mut idx = selections.len();
    assert(ints(s0).subrange(0, idx as int) =~= ints(s0));
    assert(ints(selections@).subrange(idx as int, idx as int) =~= Seq::<int>::empty());
    while idx >= 4
        invariant_except_break
            selections@.len() == s0.len(),
            s0.len() % 4 == 0,
            idx % 4 == 0,
            idx <= s0.len(),
            fits_usize(target),
            target.len() == s0.len(),
            selections@.subrange(0, idx as int) == s0.subrange(0, idx as int),
            target == shift_after_insert(
                ints(s0).subrange(0, idx as int),
                line as int,
                col as int,
                extra as int,
                len as int,
            ) + ints(selections@).subrange(idx as int, s0.len() as int),
        ensures
            ints(selections@) == target,
        decreases idx,
    {
        let ghost pre = ints(s0).subrange(0, idx as int);
        assert forall|m: int| 0 <= m < idx implies selections@[m] == s0[m] by {
            assert(selections@.subrange(0, idx as int)[m] == s0.subrange(0, idx as int)[m]);
        }
        assert(pre =~= ints(selections@).subrange(0, idx as int));
        idx = idx - 4;
        assert(pre.subrange(0, idx as int) =~= ints(s0).subrange(0, idx as int));
        assert(pre.subrange(idx as int, idx + 4) =~= ints(selections@).subrange(idx as int, idx + 4));
        let cline1 = selections[idx];
        let ccol1 = selections[idx + 1];
        let cline2 = selections[idx + 2];
        let ccol2 = selections[idx + 3];
        if cline1 < line {
            assert(ints(selections@) =~= pre + ints(selections@).subrange(idx + 4, s0.len() as int));
            break;
        }
        let ghost g = insert_group(pre.subrange(idx as int, idx + 4), line as int, col as int, extra as int, len as int);
        proof {
            lemma_shift_after_insert_len(ints(s0).subrange(0, idx as int), line as int, col as int, extra as int, len as int);
            assert(target[idx as int] == g[0]);
            assert(target[idx + 1] == g[1]);
            assert(target[idx + 2] == g[2]);
            assert(target[idx + 3] == g[3]);
        }
        let line_addition = if line < cline1 || (line == cline1 && col < ccol1) {
            extra
        } else {
            0
        };
        let column_addition = if line == cline1 && ccol1 > col {
            len
        } else {
            0
        };
        let ghost rest = ints(selections@).subrange(idx + 4, s0.len() as int);
        selections.set(idx, cline1 + line_addition);
        selections.set(idx + 1, ccol1 + column_addition);
        selections.set(idx + 2, cline2 + line_addition);
        selections.set(idx + 3, ccol2 + column_addition);
        assert(ints(selections@).subrange(idx as int, idx + 4) =~= g);
        assert(ints(selections@).subrange(idx + 4, s0.len() as int) =~= rest);
        assert(ints(selections@).subrange(idx as int, s0.len() as int) =~= g + rest);
        assert(selections@.subrange(0, idx as int) =~= s0.subrange(0, idx as int));
    }
}

/// `(line1, col1)` and `(line2, col2)` are ordered gaps of the document that
/// do not cut characters.
pub open spec fn remove_ok(d: Seq<Seq<u8>>, line1: int, col1: int, line2: int, col2: int) -> bool {
    &&& insert_ok(d, line1, col1)
    &&& insert_ok(d, line2, col2)
    &&& line1 <= line2
    &&& line1 == line2 ==> col1 <= col2
}

/// The document after the text between `(line1, col1)` and `(line2, col2)`
/// is removed.
pub open spec fn doc_after_remove(d: Seq<Seq<u8>>, line1: int, col1: int, line2: int, col2: int) -> Seq<
    Seq<u8>,
> {
    d.subrange(0, line1 - 1) + seq![
        d[line1 - 1].subrange(0, col1 - 1) + d[line2 - 1].subrange(
            col2 - 1,
            d[line2 - 1].len() as int,
        ),
    ] + d.subrange(line2, d.len() as int)
}

/// Where the point `(cl, cc)` goes when `(line1, col1)..(line2, col2)` is
/// removed: points after the start of the range move back with it.
pub open spec fn remove_point(
    cl: int,
    cc: int,
    line1: int,
    col1: int,
    line2: int,
    col2: int,
) -> (int, int) {
    if cl > line1 || (cl == line1 && cc > col1) {
        if cl > line2 {
            (cl - (line2 - line1), cc)
        } else {
            (
                line1,
                if cl == line2 && cc > col2 {
                    cc - col2 + col1
                } else {
                    col1
                },
            )
        }
    } else {
        (cl, cc)
    }
}

/// Both points of the selection `g` moved for a removal.
pub open spec fn remove_group(g: Seq<int>, line1: int, col1: int, line2: int, col2: int) -> Seq<int> {
    let p = remove_point(g[0], g[1], line1, col1, line2, col2);
    let q = remove_point(g[2], g[3], line1, col1, line2, col2);
    seq![p.0, p.1, q.0, q.1]
}

/// Selections after a removal: from the last selection backwards, each that
/// ends at or after line `line1` is moved; the first one met that ends before
/// it stops the walk, and it and all before it are kept.
pub open spec fn shift_after_remove(s: Seq<int>, line1: int, col1: int, line2: int, col2: int) -> Seq<
    int,
>
    decreases s.len(),
{
    if s.len() < 4 || s[s.len() - 2] < line1 {
        s
    } else {
        shift_after_remove(s.subrange(0, s.len() - 4), line1, col1, line2, col2) + remove_group(
            s.subrange(s.len() - 4, s.len() as int),
            line1,
            col1,
            line2,
            col2,
        )
    }
}

/// Some moved selection now starts exactly at the start of the removed range.
pub open spec fn remove_merges(s: Seq<int>, line1: int, col1: int, line2: int, col2: int) -> bool
    decreases s.len(),
{
    if s.len() < 4 || s[s.len() - 2] < line1 {
        false
    } else {
        remove_merges(s.subrange(0, s.len() - 4), line1, col1, line2, col2) || remove_point(
            s[s.len() - 4],
            s[s.len() - 3],
            line1,
            col1,
            line2,
            col2,
        ) == (line1, col1)
    }
}

/// Moving selections for a removal keeps their number.
pub proof fn lemma_shift_after_remove_len(s: Seq<int>, line1: int, col1: int, line2: int, col2: int)
    ensures
        shift_after_remove(s, line1, col1, line2, col2).len() == s.len(),
    decreases s.len(),
{
    if !(s.len() < 4 || s[s.len() - 2] < line1) {
        lemma_shift_after_remove_len(s.subrange(0, s.len() - 4), line1, col1, line2, col2);
    }
}

/// Drops, from the last selection back to the second, each selection that
/// starts at the same point as a selection at an earlier multiple of 4.
pub open spec fn merged(s: Seq<int>) -> Seq<int>
    decreases s.len(),
{
    if s.len() < 8 {
        s
    } else {
        let i = s.len() - 4;
        let rest = merged(s.subrange(0, i));
        if exists|j: int| 0 <= j && j % 4 == 0 && j + 4 <= i && s[i] == #[trigger] s[j] && s[i + 1] == s[j + 1] {
            rest
        } else {
            rest + s.subrange(i, s.len() as int)
        }
    }
}

/// Selections after removing `(line1, col1)..(line2, col2)`.
pub open spec fn selections_after_remove(s: Seq<usize>, line1: int, col1: int, line2: int, col2: int) -> Seq<
    int,
> {
    let shifted = shift_after_remove(ints(s), line1, col1, line2, col2);
    if remove_merges(ints(s), line1, col1, line2, col2) {
        merged(shifted)
    } else {
        shifted
    }
}

/// Removes selections that start at the same point as an earlier one.
#[verifier::spinoff_prover]
#[verifier::rlimit(40)]
pub fn merge_cursors(selections: &mut Vec<usize>)
    ensures
        ints(final(selections)@) == merged(ints(old(selections)@)),
{
    let ghost s0 = ints(selections@);
    let mut i = selections.len();
    assert(s0.subrange(0, i as int) =~= s0);
    assert(ints(selections@) =~= s0.subrange(0, i as int) + Seq::<int>::empty());
    let ghost mut kept: Seq<int> = Seq::empty();
    while i >= 8
        invariant
            i <= s0.len(),
            selections@.len() == i + kept.len(),
            ints(selections@) == s0.subrange(0, i as int) + kept,
            merged(s0) == merged(s0.subrange(0, i as int)) + kept,
        decreases i,
    {
        let ghost pre = s0.subrange(0, i as int);
        i = i - 4;
        assert(selections@.len() >= i + 4);
        let sl = selections.len();
        let mut j: usize = 0;
        let mut dup = false;
        while j + 4 <= i
            invariant_except_break
                j % 4 == 0,
                j <= i,
                pre.len() == i + 4,
                i + 4 <= sl,
                selections@.len() == pre.len() + kept.len(),
                ints(selections@) == pre + kept,
                !dup,
                forall|m: int|
                    0 <= m < j && m % 4 == 0 ==> !(pre[i as int] == #[trigger] pre[m] && pre[i + 1]
                        == pre[m + 1]),
            ensures
                dup <==> exists|m: int|
                    0 <= m && m % 4 == 0 && m + 4 <= i && pre[i as int] == #[trigger] pre[m] && pre[i
                        + 1] == pre[m + 1],
            decreases i - j,
        {
            assert(ints(selections@)[i as int] == pre[i as int]);
            assert(ints(selections@)[i + 1] == pre[i + 1]);
            assert(ints(selections@)[j as int] == pre[j as int]);
            assert(ints(selections@)[j + 1] == pre[j + 1]);
            if selections[i] == selections[j] && selections[i + 1] == selections[j + 1] {
                dup = true;
                break;
            }
            j = j + 4;
        }
        assert(pre.subrange(0, i as int) =~= s0.subrange(0, i as int));
        if dup {
            let ghost before = selections@;
            selections.remove(i);
            selections.remove(i);
            selections.remove(i);
            selections.remove(i);
            assert(selections@ =~= before.subrange(0, i as int) + before.subrange(i + 4, before.len() as int));
            assert(ints(before) == pre + kept);
            assert(ints(before.subrange(i + 4, before.len() as int)) =~= ints(before).subrange(i + 4, before.len() as int));
            assert(ints(before.subrange(0, i as int)) =~= ints(before).subrange(0, i as int));
            assert(ints(before.subrange(i + 4, before.len() as int)) =~= kept);
            assert(ints(before.subrange(0, i as int)) =~= s0.subrange(0, i as int));
            assert(ints(selections@) =~= s0.subrange(0, i as int) + kept);
        } else {
            proof {
                kept = pre.subrange(i as int, pre.len() as int) + kept;
            }
            assert(ints(selections@) =~= s0.subrange(0, i as int) + kept);
        }
    }
}

/// Overwrites the four entries of `s` that start at `idx`.
fn write_group(s: &mut Vec<usize>, idx: usize, v0: usize, v1: usize, v2: usize, v3: usize)
    requires
        idx + 4 <= old(s).len(),
    ensures
        final(s)@ == old(s)@.subrange(0, idx as int) + seq![v0, v1, v2, v3] + old(s)@.subrange(
            idx + 4,
            old(s)@.len() as int,
        ),
{
    s.set(idx, v0);
    s.set(idx + 1, v1);
    s.set(idx + 2, v2);
    s.set(idx + 3, v3);
    assert(s@ =~= old(s)@.subrange(0, idx as int) + seq![v0, v1, v2, v3] + old(s)@.subrange(
        idx + 4,
        old(s)@.len() as int,
    ));
}

/// Exec form of `remove_point`.
fn move_point_for_remove(cl: usize, cc: usize, line1: usize, col1: usize, line2: usize, col2: usize) -> (r: (
    usize,
    usize,
))
    requires
        line1 <= line2,
        remove_point(cl as int, cc as int, line1 as int, col1 as int, line2 as int, col2 as int).1
            <= usize::MAX,
    ensures
        (r.0 as int, r.1 as int) == remove_point(
            cl as int,
            cc as int,
            line1 as int,
            col1 as int,
            line2 as int,
            col2 as int,
        ),
{
    if cl > line1 || (cl == line1 && cc > col1) {
        if cl > line2 {
            (cl - (line2 - line1), cc)
        } else {
            (line1, if cl == line2 && cc > col2 { cc - col2 + col1 } else { col1 })
        }
    } else {
        (cl, cc)
    }
}

/// Removes the text between `(line1, col1)` and `(line2, col2)` and moves
/// the selections after it, merging those that come to start at the same
/// point when some selection lands on the start of the range.
#[verifier::rlimit(40)]
pub fn apply_remove_internal(
    lines: &mut Vec<Vec<u8>>,
    selections: &mut Vec<usize>,
    line1: usize,
    col1: usize,
    line2: usize,
    col2: usize,
)
    requires
        remove_ok(doc_of(old(lines)@), line1 as int, col1 as int, line2 as int, col2 as int),
        fits_usize(shift_after_remove(ints(old(selections)@), line1 as int, col1 as int, line2 as int, col2 as int)),
    ensures
        doc_of(final(lines)@) == doc_after_remove(doc_of(old(lines)@), line1 as int, col1 as int, line2 as int, col2 as int),
        ints(final(selections)@) == selections_after_remove(
            old(selections)@,
            line1 as int,
            col1 as int,
            line2 as int,
            col2 as int,
        ),
{
    let ghost d = doc_of(lines@);
    let ghost s0 = ints(selections@);
    let first = &lines[line1 - 1];
    assert(first@ == d[line1 - 1]);
    let mut joined = copy_range(first.as_slice(), 0, col1 - 1);
    let last = &lines[line2 - 1];
    assert(last@ == d[line2 - 1]);
    let after = copy_range(last.as_slice(), col2 - 1, last.len());
    push_all(&mut joined, after.as_slice());
    let ghost dl = lines@;
    let ghost jv = joined@;
    let mut tail = lines.split_off(line2);
    lines.truncate(line1 - 1);
    lines.push(joined);
    lines.append(&mut tail);
    assert(lines@ =~= dl.subrange(0, line1 - 1) + seq![lines@[line1 - 1]] + dl.subrange(line2 as int, dl.len() as int));
    assert(doc_of(lines@) =~= doc_of(dl.subrange(0, line1 - 1)) + seq![jv] + doc_of(
        dl.subrange(line2 as int, dl.len() as int),
    ));
    assert(doc_of(dl.subrange(0, line1 - 1)) =~= d.subrange(0, line1 - 1));
    assert(doc_of(dl.subrange(line2 as int, dl.len() as int)) =~= d.subrange(line2 as int, d.len() as int));
    // move the selections after the start of the removed range
    let ghost target = shift_after_remove(s0, line1 as int, col1 as int, line2 as int, col2 as int);
    proof {
        lemma_shift_after_remove_len(s0, line1 as int, col1 as int, line2 as int, col2 as int);
    }
    let mut merge = false;
    let mut idx = selections.len();
    assert(s0.subrange(0, idx as int) =~= s0);
    assert(ints(selections@).subrange(idx as int, idx as int) =~= Seq::<int>::empty());
    while idx >= 4
        invariant_except_break
            line1 <= line2,
            ints(selections@).len() == s0.len(),
            idx <= s0.len(),
            fits_usize(target),
            target.len() == s0.len(),
            ints(selections@).subrange(0, idx as int) == s0.subrange(0, idx as int),
            target == shift_after_remove(
                s0.subrange(0, idx as int),
                line1 as int,
                col1 as int,
                line2 as int,
                col2 as int,
            ) + ints(selections@).subrange(idx as int, s0.len() as int),
            remove_merges(s0, line1 as int, col1 as int, line2 as int, col2 as int) == (merge
                || remove_merges(
                s0.subrange(0, idx as int),
                line1 as int,
                col1 as int,
                line2 as int,
                col2 as int,
            )),
        ensures
            ints(selections@) == target,
            merge == remove_merges(s0, line1 as int, col1 as int, line2 as int, col2 as int),
        decreases idx,
    {
        let ghost pre = s0.subrange(0, idx as int);
        assert(pre =~= ints(selections@).subrange(0, idx as int));
        idx = idx - 4;
        assert(pre.subrange(0, idx as int) =~= s0.subrange(0, idx as int));
        assert(pre.subrange(idx as int, idx + 4) =~= ints(selections@).subrange(idx as int, idx + 4));
        let cline1 = selections[idx];
        let ccol1 = selections[idx + 1];
        let cline2 = selections[idx + 2];
        let ccol2 = selections[idx + 3];
        if cline2 < line1 {
            assert(ints(selections@) =~= pre + ints(selections@).subrange(idx + 4, s0.len() as int));
            break;
        }
        let ghost g = remove_group(pre.subrange(idx as int, idx + 4), line1 as int, col1 as int, line2 as int, col2 as int);
        proof {
            lemma_shift_after_remove_len(s0.subrange(0, idx as int), line1 as int, col1 as int, line2 as int, col2 as int);
            assert(target[idx as int] == g[0]);
            assert(target[idx + 1] == g[1]);
            assert(target[idx + 2] == g[2]);
            assert(target[idx + 3] == g[3]);
        }
        let (l1, c1) = move_point_for_remove(cline1, ccol1, line1, col1, line2, col2);
        let (l2, c2) = move_point_for_remove(cline2, ccol2, line1, col1, line2, col2);
        if l1 == line1 && c1 == col1 {
            merge = true;
        }
        let ghost rest = ints(selections@).subrange(idx + 4, s0.len() as int);
        let ghost before = selections@;
        write_group(selections, idx, l1, c1, l2, c2);
        assert(ints(selections@) =~= ints(before).subrange(0, idx as int) + g + rest);
        assert(ints(selections@).subrange(idx as int, idx + 4) =~= g);
        assert(ints(selections@).subrange(idx + 4, s0.len() as int) =~= rest);
        assert(ints(selections@).subrange(idx as int, s0.len() as int) =~= g + rest);
        assert(ints(selections@).subrange(0, idx as int) =~= s0.subrange(0, idx as int));
    }
    if merge {
        merge_cursors(selections);
    }
}

/// Each selection with both of its points sanitized.
pub open spec fn sanitized_selections(d: Seq<Seq<u8>>, s: Seq<usize>) -> Seq<int> {
    Seq::new(
        s.len(),
        |k: int|
            {
                let g = k - k % 4;
                let p = if k % 4 < 2 {
                    sanitize(d, s[g] as int, s[g + 1] as int)
                } else {
                    sanitize(d, s[g + 2] as int, s[g + 3] as int)
                };
                if k % 2 == 0 {
                    p.0
                } else {
                    p.1
                }
            },
    )
}

/// Brings every selection point inside the document.
pub fn sanitize_selections(lines: &Vec<Vec<u8>>, selections: &mut Vec<usize>)
    requires
        old(selections)@.len() % 4 == 0,
    ensures
        ints(final(selections)@) == sanitized_selections(doc_of(lines@), old(selections)@),
{
    let ghost d = doc_of(lines@);
    let ghost s0 = selections@;
    let ghost target = sanitized_selections(d, s0);
    let mut idx: usize = 0;
    while idx < selections.len()
        invariant
            selections@.len() == s0.len(),
            s0.len() % 4 == 0,
            idx % 4 == 0,
            idx <= s0.len(),
            target.len() == s0.len(),
            target == sanitized_selections(d, s0),
            d == doc_of(lines@),
            forall|k: int| idx <= k < s0.len() ==> selections@[k] == s0[k],
            forall|k: int| 0 <= k < idx ==> selections@[k] as int == #[trigger] target[k],
        decreases s0.len() - idx,
    {
        assert((idx + 1) % 4 == 1 && (idx + 2) % 4 == 2 && (idx + 3) % 4 == 3);
        assert(idx + 1 - (idx + 1) % 4 == idx && idx + 2 - (idx + 2) % 4 == idx && idx + 3 - (idx
            + 3) % 4 == idx);
        let (l1, c1) = sanitize_position(lines, selections[idx], selections[idx + 1]);
        let (l2, c2) = sanitize_position(lines, selections[idx + 2], selections[idx + 3]);
        assert(target[idx as int] == l1 as int);
        assert(target[idx + 1] == c1 as int);
        assert(target[idx + 2] == l2 as int);
        assert(target[idx + 3] == c2 as int);
        selections.set(idx, l1);
        selections.set(idx + 1, c1);
        selections.set(idx + 2, l2);
        selections.set(idx + 3, c2);
        idx = idx + 4;
    }
    assert(ints(selections@) =~= target);
}

/// Selections `a` and `b` (indices of their first entries) start at the
/// same point.
pub open spec fn same_start(s: Seq<int>, a: int, b: int) -> bool {
    s[a] == s[b] && s[a + 1] == s[b + 1]
}

/// Some selection of `s` starts at `(x, y)`.
pub open spec fn has_start(s: Seq<int>, x: int, y: int) -> bool {
    exists|j: int| 0 <= j && j % 4 == 0 && j + 4 <= s.len() && #[trigger] s[j] == x && s[j + 1] == y
}

/// After merging, no two selections start at the same point, and each
/// selection left starts where one of the selections before merging did.
pub proof fn lemma_merged_distinct(s: Seq<int>)
    requires
        s.len() % 4 == 0,
    ensures
        merged(s).len() % 4 == 0,
        forall|a: int, b: int|
            0 <= a < b && a % 4 == 0 && b % 4 == 0 && b + 4 <= merged(s).len() ==> !same_start(
                merged(s),
                a,
                b,
            ),
        forall|a: int|
            0 <= a && a % 4 == 0 && a + 4 <= merged(s).len() ==> has_start(
                s,
                #[trigger] merged(s)[a],
                merged(s)[a + 1],
            ),
    decreases s.len(),
{
    lemma_merged_len(s);
    if s.len() < 8 {
        assert forall|a: int| 0 <= a && a % 4 == 0 && a + 4 <= merged(s).len() implies has_start(
            s,
            #[trigger] merged(s)[a],
            merged(s)[a + 1],
        ) by {
            assert(merged(s)[a] == s[a]);
        }
    } else {
        let i = s.len() - 4;
        let pre = s.subrange(0, i);
        let rest = merged(pre);
        lemma_merged_distinct(pre);
        let dup = exists|j: int|
            0 <= j && j % 4 == 0 && j + 4 <= i && s[i] == #[trigger] s[j] && s[i + 1] == s[j + 1];
        assert forall|a: int| 0 <= a && a % 4 == 0 && a + 4 <= rest.len() implies has_start(
            s,
            #[trigger] rest[a],
            rest[a + 1],
        ) by {
            assert(has_start(pre, rest[a], rest[a + 1]));
            let j = choose|j: int|
                0 <= j && j % 4 == 0 && j + 4 <= pre.len() && #[trigger] pre[j] == rest[a] && pre[j
                    + 1] == rest[a + 1];
            assert(pre[j] == s[j] && pre[j + 1] == s[j + 1]);
        }
        if dup {
            assert(merged(s) == rest);
        } else {
            let m = rest + s.subrange(i, s.len() as int);
            assert(merged(s) == m);
            assert forall|a: int, b: int|
                0 <= a < b && a % 4 == 0 && b % 4 == 0 && b + 4 <= m.len() implies !same_start(
                m,
                a,
                b,
            ) by {
                if b + 4 <= rest.len() {
                    assert(m[a] == rest[a] && m[a + 1] == rest[a + 1]);
                    assert(m[b] == rest[b] && m[b + 1] == rest[b + 1]);
                    assert(!same_start(rest, a, b));
                } else {
                    assert(b == rest.len());
                    assert(m[b] == s[i] && m[b + 1] == s[i + 1]);
                    assert(m[a] == rest[a] && m[a + 1] == rest[a + 1]);
                    assert(has_start(pre, rest[a], rest[a + 1]));
                    let j = choose|j: int|
                        0 <= j && j % 4 == 0 && j + 4 <= pre.len() && #[trigger] pre[j] == rest[a]
                            && pre[j + 1] == rest[a + 1];
                    assert(pre[j] == s[j] && pre[j + 1] == s[j + 1]);
                    if same_start(m, a, b) {
                        assert(s[i] == s[j] && s[i + 1] == s[j + 1]);
                        assert(dup);
                    }
                }
            }
            assert forall|a: int| 0 <= a && a % 4 == 0 && a + 4 <= m.len() implies has_start(
                s,
                #[trigger] m[a],
                m[a + 1],
            ) by {
                if a + 4 <= rest.len() {
                    assert(m[a] == rest[a] && m[a + 1] == rest[a + 1]);
                    assert(has_start(s, rest[a], rest[a + 1]));
                } else {
                    assert(m[a] == s[i] && m[a + 1] == s[i + 1]);
                    assert(s[i] == s[i] && i % 4 == 0);
                }
            }
        }
    }
}

/// Merging drops whole selections and never adds any.
pub proof fn lemma_merged_len(s: Seq<int>)
    ensures
        merged(s).len() <= s.len(),
        merged(s).len() % 4 == s.len() % 4,
    decreases s.len(),
{
    if s.len() >= 8 {
        lemma_merged_len(s.subrange(0, s.len() - 4));
    }
}

/// A removal leaves whole selections, no more than there were.
pub proof fn lemma_selections_after_remove_len(s: Seq<usize>, line1: int, col1: int, line2: int, col2: int)
    ensures
        selections_after_remove(s, line1, col1, line2, col2).len() % 4 == s.len() % 4,
        selections_after_remove(s, line1, col1, line2, col2).len() <= s.len(),
{
    lemma_shift_after_remove_len(ints(s), line1, col1, line2, col2);
    lemma_merged_len(shift_after_remove(ints(s), line1, col1, line2, col2));
}

/// Exec test of `insert_ok`.
pub fn check_insert_position(lines: &Vec<Vec<u8>>, line: usize, col: usize) -> (r: bool)
    ensures
        r == insert_ok(doc_of(lines@), line as int, col as int),
{
    if line < 1 || line > lines.len() || col < 1 {
        return false;
    }
    let cur = &lines[line - 1];
    assert(cur@ == doc_of(lines@)[line - 1]);
    col - 1 <= cur.len() && is_boundary(cur.as_slice(), col - 1)
}

/// Exec test of `remove_ok`.
pub fn check_remove_range(lines: &Vec<Vec<u8>>, line1: usize, col1: usize, line2: usize, col2: usize) -> (r: bool)
    ensures
        r == remove_ok(doc_of(lines@), line1 as int, col1 as int, line2 as int, col2 as int),
{
    check_insert_position(lines, line1, col1) && check_insert_position(lines, line2, col2) && line1
        <= line2 && (line1 != line2 || col1 <= col2)
}

/// Exec test of `get_text_ok`.
pub fn check_get_text(
    lines: &Vec<Vec<u8>>,
    line1: usize,
    col1: usize,
    line2: usize,
    col2: usize,
    inclusive: bool,
) -> (r: bool)
    ensures
        r == get_text_ok(doc_of(lines@), line1 as int, col1 as int, line2 as int, col2 as int, inclusive),
{
    let ghost d = doc_of(lines@);
    if lines.len() == 0 {
        return false;
    }
    let (a1, b1) = sanitize_position(lines, line1, col1);
    let (a2, b2) = sanitize_position(lines, line2, col2);
    proof {
        lemma_sanitize_in_range(d, a1 as int, b1 as int);
        lemma_sanitize_in_range(d, a2 as int, b2 as int);
    }
    let (x1, y1, x2, y2) = sort_positions(a1, b1, a2, b2);
    let off: usize = if inclusive { 0 } else { 1 };
    let hi = y2.saturating_sub(off);
    if x1 == x2 {
        return true;
    }
    let first = &lines[x1 - 1];
    let last = &lines[x2 - 1];
    assert(first@ == d[x1 - 1]);
    assert(last@ == d[x2 - 1]);
    is_boundary(first.as_slice(), y1 - 1) && hi <= last.len() && is_boundary(last.as_slice(), hi)
}

/// Any stretch of a selection list fits in a `usize`.
pub proof fn lemma_ints_fit(s: Seq<usize>, a: int, b: int)
    requires
        0 <= a <= b <= s.len(),
    ensures
        fits_usize(ints(s).subrange(a, b)),
{
    assert forall|k: int| 0 <= k < b - a implies 0 <= #[trigger] ints(s).subrange(a, b)[k] <= usize::MAX by {
        assert(ints(s).subrange(a, b)[k] == s[a + k] as int);
    }
}

/// A joined list fits in a `usize` exactly when both of its parts do.
pub proof fn lemma_fits_concat(a: Seq<int>, b: Seq<int>)
    ensures
        fits_usize(a + b) == (fits_usize(a) && fits_usize(b)),
{
    if fits_usize(a + b) {
        assert forall|k: int| 0 <= k < a.len() implies 0 <= #[trigger] a[k] <= usize::MAX by {
            assert((a + b)[k] == a[k]);
        }
        assert forall|k: int| 0 <= k < b.len() implies 0 <= #[trigger] b[k] <= usize::MAX by {
            assert((a + b)[a.len() + k] == b[k]);
        }
    }
}

/// Exec test that moving the selections for an insertion overflows nothing.
pub fn check_insert_selections(selections: &Vec<usize>, line: usize, col: usize, extra: usize, last_len: usize) -> (r: bool)
    ensures
        r == fits_usize(shift_after_insert(ints(selections@), line as int, col as int, extra as int, last_len as int)),
{
    let ghost s0 = ints(selections@);
    let ghost target = shift_after_insert(s0, line as int, col as int, extra as int, last_len as int);
    let mut idx = selections.len();
    let mut ok = true;
    assert(s0.subrange(0, idx as int) =~= s0);
    assert(target =~= shift_after_insert(s0.subrange(0, idx as int), line as int, col as int, extra as int, last_len as int) + Seq::<int>::empty());
    let ghost mut done: Seq<int> = Seq::empty();
    let mut stop = false;
    while idx >= 4 && !stop
        invariant
            idx <= s0.len(),
            s0 == ints(selections@),
            stop ==> ok == fits_usize(target),
            !stop ==> target == shift_after_insert(s0.subrange(0, idx as int), line as int, col as int, extra as int, last_len as int) + done,
            !stop ==> ok == fits_usize(done),
        decreases idx,
    {
        let ghost pre = s0.subrange(0, idx as int);
        idx = idx - 4;
        assert(pre.subrange(0, idx as int) =~= s0.subrange(0, idx as int));
        let cline1 = selections[idx];
        let ccol1 = selections[idx + 1];
        let cline2 = selections[idx + 2];
        let ccol2 = selections[idx + 3];
        if cline1 < line {
            proof {
                lemma_ints_fit(selections@, 0, pre.len() as int);
                assert(pre =~= ints(selections@).subrange(0, pre.len() as int));
                lemma_fits_concat(pre, done);
            }
            stop = true;
        } else {
        let la = if line < cline1 || (line == cline1 && col < ccol1) { extra } else { 0 };
        let ca = if line == cline1 && ccol1 > col { last_len } else { 0 };
        let g_ok = cline1 <= usize::MAX - la && ccol1 <= usize::MAX - ca && cline2 <= usize::MAX
            - la && ccol2 <= usize::MAX - ca;
        let ghost g = insert_group(pre.subrange(idx as int, idx + 4), line as int, col as int, extra as int, last_len as int);
        proof {
            assert(g =~= seq![cline1 + la, ccol1 + ca, cline2 + la, ccol2 + ca]);
            assert(g_ok == fits_usize(g));
            lemma_fits_concat(g, done);
            assert(shift_after_insert(pre, line as int, col as int, extra as int, last_len as int) == shift_after_insert(s0.subrange(0, idx as int), line as int, col as int, extra as int, last_len as int) + g);
            done = g + done;
            assert(target =~= shift_after_insert(s0.subrange(0, idx as int), line as int, col as int, extra as int, last_len as int) + done);
        }
        ok = ok && g_ok;
        }
    }
    proof {
        if !stop {
            lemma_ints_fit(selections@, 0, idx as int);
            assert(s0.subrange(0, idx as int) =~= ints(selections@).subrange(0, idx as int));
            lemma_fits_concat(s0.subrange(0, idx as int), done);
        }
    }
    ok
}

/// Exec test that moving the selections for a removal overflows nothing.
pub fn check_remove_selections(selections: &Vec<usize>, line1: usize, col1: usize, line2: usize, col2: usize) -> (r: bool)
    requires
        line1 <= line2,
    ensures
        r == fits_usize(shift_after_remove(ints(selections@), line1 as int, col1 as int, line2 as int, col2 as int)),
{
    let ghost s0 = ints(selections@);
    let ghost target = shift_after_remove(s0, line1 as int, col1 as int, line2 as int, col2 as int);
    let mut idx = selections.len();
    let mut ok = true;
    assert(s0.subrange(0, idx as int) =~= s0);
    assert(target =~= shift_after_remove(s0.subrange(0, idx as int), line1 as int, col1 as int, line2 as int, col2 as int) + Seq::<int>::empty());
    let ghost mut done: Seq<int> = Seq::empty();
    let mut stop = false;
    while idx >= 4 && !stop
        invariant
            line1 <= line2,
            idx <= s0.len(),
            s0 == ints(selections@),
            stop ==> ok == fits_usize(target),
            !stop ==> target == shift_after_remove(s0.subrange(0, idx as int), line1 as int, col1 as int, line2 as int, col2 as int) + done,
            !stop ==> ok == fits_usize(done),
        decreases idx,
    {
        let ghost pre = s0.subrange(0, idx as int);
        idx = idx - 4;
        assert(pre.subrange(0, idx as int) =~= s0.subrange(0, idx as int));
        let cline1 = selections[idx];
        let ccol1 = selections[idx + 1];
        let cline2 = selections[idx + 2];
        let ccol2 = selections[idx + 3];
        if cline2 < line1 {
            proof {
                lemma_ints_fit(selections@, 0, pre.len() as int);
                assert(pre =~= ints(selections@).subrange(0, pre.len() as int));
                lemma_fits_concat(pre, done);
            }
            stop = true;
        } else {
        // only a column that moves past the range end can grow
        let ok1 = !(cline1 == line2 && (cline1 > line1 || ccol1 > col1) && ccol1 > col2)
            || ccol1 - col2 <= usize::MAX - col1;
        let ok2 = !(cline2 == line2 && (cline2 > line1 || ccol2 > col1) && ccol2 > col2)
            || ccol2 - col2 <= usize::MAX - col1;
        let ghost g = remove_group(pre.subrange(idx as int, idx + 4), line1 as int, col1 as int, line2 as int, col2 as int);
        proof {
            assert(ok1 && ok2 <==> fits_usize(g));
            lemma_fits_concat(g, done);
            assert(shift_after_remove(pre, line1 as int, col1 as int, line2 as int, col2 as int) == shift_after_remove(s0.subrange(0, idx as int), line1 as int, col1 as int, line2 as int, col2 as int) + g);
            done = g + done;
            assert(target =~= shift_after_remove(s0.subrange(0, idx as int), line1 as int, col1 as int, line2 as int, col2 as int) + done);
        }
        ok = ok && ok1 && ok2;
        }
    }
    proof {
        if !stop {
            lemma_ints_fit(selections@, 0, idx as int);
            assert(s0.subrange(0, idx as int) =~= ints(selections@).subrange(0, idx as int));
            lemma_fits_concat(s0.subrange(0, idx as int), done);
        }
    }
    ok
}

} // verus!
