//! Undo/redo records: a list of edits with the selections to restore, packed
//! into bytes. Every number is a little-endian `u32`:
//!
//! `count, selection * count, edit_count, edit * edit_count`
//!
//! and each edit is its kind byte, then `line1, col1, line2, col2`, the text
//! length and the text's bytes.
use vstd::prelude::*;
use vstd::utf8::valid_utf8;
use vstd::arithmetic::div_mod::lemma_fundamental_div_mod_converse;
use crate::doc::{copy_range, push_all};

verus! {

broadcast use vstd::seq_lib::group_seq_properties;

/// One edit of an undo record: insert `text` at `(line1, col1)` when `kind`
/// is `b'i'`, otherwise remove `(line1, col1)..(line2, col2)`.
#[derive(Clone, Debug)]
pub struct EditRecord {
    pub kind: u8,
    pub line1: usize,
    pub col1: usize,
    pub line2: usize,
    pub col2: usize,
    pub text: Vec<u8>,
}

/// The plain contents of an edit record.
pub type EditView = (u8, usize, usize, usize, usize, Seq<u8>);

impl View for EditRecord {
    type V = EditView;

    open spec fn view(&self) -> EditView {
        (self.kind, self.line1, self.col1, self.line2, self.col2, self.text@)
    }
}

/// Why an edit request cannot be carried out.
#[derive(Debug, Clone, Copy, PartialEq, Eq)]
pub enum EditError {
    /// The packed undo record is truncated or malformed.
    BadRecord,
    /// A position, a selection list or a number is out of the range that the
    /// edit operations accept.
    InvalidEdit,
}

/// The number of values a `u32` holds; record numbers are taken modulo it.
pub const U32_RANGE: u64 = 0x1_0000_0000u64;

/// Little-endian bytes of `v mod 2^32`.
pub open spec fn le32(v: int) -> Seq<u8> {
    let w = v % 0x1_0000_0000;
    seq![(w % 256) as u8, ((w / 256) % 256) as u8, ((w / 65536) % 256) as u8, ((w / 16777216) % 256) as u8]
}

/// Value of four little-endian bytes.
pub open spec fn decode4(b: Seq<u8>) -> int {
    b[0] + 256 * b[1] + 65536 * b[2] + 16777216 * b[3]
}

/// Little-endian `u32` of each value, in order.
pub open spec fn le32_all(s: Seq<usize>) -> Seq<u8>
    decreases s.len(),
{
    if s.len() == 0 {
        seq![]
    } else {
        le32_all(s.drop_last()) + le32(s.last() as int)
    }
}

/// Bytes of one packed edit.
pub open spec fn encode_edit(e: EditView) -> Seq<u8> {
    seq![e.0] + le32(e.1 as int) + le32(e.2 as int) + le32(e.3 as int) + le32(e.4 as int) + le32(
        e.5.len() as int,
    ) + e.5
}

/// Bytes of packed edits, in order.
pub open spec fn encode_edits(es: Seq<EditView>) -> Seq<u8>
    decreases es.len(),
{
    if es.len() == 0 {
        seq![]
    } else {
        encode_edits(es.drop_last()) + encode_edit(es.last())
    }
}

/// Bytes of a packed record.
pub open spec fn encode_record(sel: Seq<usize>, edits: Seq<EditView>) -> Seq<u8> {
    le32(sel.len() as int) + le32_all(sel) + le32(edits.len() as int) + encode_edits(edits)
}

/// The `u32` at `off`, if four bytes are there.
pub open spec fn read_at(input: Seq<u8>, off: int) -> Option<int> {
    if off + 4 > input.len() {
        None
    } else {
        Some(decode4(input.subrange(off, off + 4)))
    }
}

/// Reads `n` more `u32`s from `off` after `acc`: the values and the end.
pub open spec fn read_values(input: Seq<u8>, off: int, n: nat, acc: Seq<usize>) -> Option<
    (Seq<usize>, int),
>
    decreases n,
{
    if n == 0 {
        Some((acc, off))
    } else {
        match read_at(input, off) {
            None => None,
            Some(v) => read_values(input, off + 4, (n - 1) as nat, acc.push(v as usize)),
        }
    }
}

/// Reads one packed edit at `off`: the edit and the end.
pub open spec fn read_edit(input: Seq<u8>, off: int) -> Option<(EditView, int)> {
    if off >= input.len() {
        None
    } else {
        match read_values(input, off + 1, 5, seq![]) {
            None => None,
            Some((v, p)) => {
                let len = v[4] as int;
                if p + len > input.len() {
                    None
                } else {
                    let text = input.subrange(p, p + len);
                    if valid_utf8(text) {
                        Some(((input[off], v[0], v[1], v[2], v[3], text), p + len))
                    } else {
                        None
                    }
                }
            },
        }
    }
}

/// Where the read of a packed edit at `off` stops when it fails: past the
/// kind byte and past each of the five `u32`s that were there in full.
pub open spec fn failed_edit_end(input: Seq<u8>, off: int) -> int {
    if off >= input.len() {
        off
    } else {
        let whole = (input.len() - off - 1) / 4;
        off + 1 + 4 * (if whole < 5 { whole } else { 5 })
    }
}

/// Reads `n` more packed edits from `off` after `acc`.
pub open spec fn read_edits(input: Seq<u8>, off: int, n: nat, acc: Seq<EditView>) -> Option<
    (Seq<EditView>, int),
>
    decreases n,
{
    if n == 0 {
        Some((acc, off))
    } else {
        match read_edit(input, off) {
            None => None,
            Some((e, p)) => read_edits(input, p, (n - 1) as nat, acc.push(e)),
        }
    }
}

/// A packed record read back: the selections and the edits. Bytes after the
/// last edit are ignored.
pub open spec fn decode_record(input: Seq<u8>) -> Option<(Seq<usize>, Seq<EditView>)> {
    match read_at(input, 0) {
        None => None,
        Some(count) => match read_values(input, 4, count as nat, seq![]) {
            None => None,
            Some((sel, p)) => match read_at(input, p) {
                None => None,
                Some(ec) => match read_edits(input, p + 4, ec as nat, seq![]) {
                    None => None,
                    Some((edits, _)) => Some((sel, edits)),
                },
            },
        },
    }
}

/// Wraps std's `str::from_utf8`, which succeeds exactly on valid UTF-8.
#[verifier::external_body]
fn is_valid_utf8(bytes: &[u8]) -> (r: bool)
    ensures
        r == valid_utf8(bytes@),
{
    std::str::from_utf8(bytes).is_ok()
}

/// Appends `value mod 2^32` as a little-endian `u32`.
fn put_u32(out: &mut Vec<u8>, value: usize)
    ensures
        final(out)@ == old(out)@ + le32(value as int),
{
    let w = ((value as u64) % U32_RANGE) as u32;
    assert(w as int == (value as int) % 0x1_0000_0000);
    out.push((w % 256) as u8);
    out.push(((w / 256) % 256) as u8);
    out.push(((w / 65536) % 256) as u8);
    out.push(((w / 16777216) % 256) as u8);
    assert(final(out)@ =~= old(out)@ + le32(value as int));
}

/// Reads the `u32` at `*offset` and moves past it.
fn read_u32(input: &[u8], offset: &mut usize) -> (r: Result<usize, EditError>)
    requires
        *old(offset) <= input@.len(),
    ensures
        r is Ok <==> read_at(input@, *old(offset) as int) is Some,
        r matches Ok(v) ==> v == read_at(input@, *old(offset) as int)->0 && *final(offset)
            == *old(offset) + 4,
        r is Err ==> *final(offset) == *old(offset) && r == Err::<usize, EditError>(EditError::BadRecord),
{
    if input.len() - *offset < 4 {
        return Err(EditError::BadRecord);
    }
    let o = *offset;
    let v: u32 = input[o] as u32 + 256 * (input[o + 1] as u32) + 65536 * (input[o + 2] as u32)
        + 16777216 * (input[o + 3] as u32);
    assert(input@.subrange(o as int, o + 4)[1] == input@[o + 1]);
    assert(input@.subrange(o as int, o + 4)[2] == input@[o + 2]);
    assert(input@.subrange(o as int, o + 4)[3] == input@[o + 3]);
    *offset = o + 4;
    Ok(v as usize)
}

/// Appends one packed edit.
fn pack_edit(out: &mut Vec<u8>, edit: &EditRecord)
    ensures
        final(out)@ == old(out)@ + encode_edit(edit@),
{
    let ghost start = out@;
    out.push(edit.kind);
    put_u32(out, edit.line1);
    put_u32(out, edit.col1);
    put_u32(out, edit.line2);
    put_u32(out, edit.col2);
    put_u32(out, edit.text.len());
    push_all(out, edit.text.as_slice());
    assert(out@ =~= start + encode_edit(edit@));
}

/// Reads one packed edit at `*offset` and moves past it.
fn unpack_edit(input: &[u8], offset: &mut usize) -> (r: Result<EditRecord, EditError>)
    requires
        *old(offset) <= input@.len(),
    ensures
        r is Ok <==> read_edit(input@, *old(offset) as int) is Some,
        r matches Ok(e) ==> (e@, *final(offset) as int) == read_edit(input@, *old(offset) as int)->0,
        r is Ok ==> *final(offset) <= input@.len(),
        r is Err ==> r == Err::<EditRecord, EditError>(EditError::BadRecord) && *final(offset)
            == failed_edit_end(input@, *old(offset) as int),
{
    let ghost off0 = *offset as int;
    if *offset >= input.len() {
        return Err(EditError::BadRecord);
    }
    let kind = input[*offset];
    *offset = *offset + 1;
    let ghost o1 = *offset as int;
    let line1 = read_u32(input, offset)?;
    assert(read_values(input@, o1, 5, seq![]) == read_values(input@, o1 + 4, 4, seq![line1]));
    let col1 = read_u32(input, offset)?;
    assert(read_values(input@, o1, 5, seq![]) == read_values(input@, o1 + 8, 3, seq![line1].push(col1)));
    let line2 = read_u32(input, offset)?;
    assert(read_values(input@, o1, 5, seq![]) == read_values(
        input@,
        o1 + 12,
        2,
        seq![line1].push(col1).push(line2),
    ));
    let col2 = read_u32(input, offset)?;
    assert(read_values(input@, o1, 5, seq![]) == read_values(
        input@,
        o1 + 16,
        1,
        seq![line1].push(col1).push(line2).push(col2),
    ));
    let len = read_u32(input, offset)?;
    let ghost vals: Seq<usize> = seq![line1, col1, line2, col2, len];
    proof {
        reveal_with_fuel(read_values, 6);
        assert(seq![line1] =~= Seq::<usize>::empty().push(line1));
        assert(seq![line1, col1] =~= seq![line1].push(col1));
        assert(seq![line1, col1, line2] =~= seq![line1, col1].push(line2));
        assert(seq![line1, col1, line2, col2] =~= seq![line1, col1, line2].push(col2));
        assert(vals =~= seq![line1, col1, line2, col2].push(len));
        assert(read_values(input@, o1, 5, seq![]) == Some((vals, *offset as int)));
    }
    if len > input.len() - *offset {
        return Err(EditError::BadRecord);
    }
    let text = copy_range(input, *offset, *offset + len);
    if !is_valid_utf8(text.as_slice()) {
        return Err(EditError::BadRecord);
    }
    *offset = *offset + len;
    Ok(EditRecord { kind, line1, col1, line2, col2, text })
}

/// Packs the selections to restore and the edits into an undo record.
pub fn pack_record(selection_restore: &[usize], edits: &[EditRecord]) -> (out: Vec<u8>)
    ensures
        out@ == encode_record(selection_restore@, edits@.map_values(|e: EditRecord| e@)),
{
    let mut out: Vec<u8> = Vec::new();
    put_u32(&mut out, selection_restore.len());
    let ghost head = out@;
    let mut i: usize = 0;
    while i < selection_restore.len()
        invariant
            i <= selection_restore@.len(),
            out@ == head + le32_all(selection_restore@.subrange(0, i as int)),
        decreases selection_restore@.len() - i,
    {
        put_u32(&mut out, selection_restore[i]);
        assert(selection_restore@.subrange(0, i + 1).drop_last() =~= selection_restore@.subrange(
            0,
            i as int,
        ));
        i = i + 1;
        assert(out@ =~= head + le32_all(selection_restore@.subrange(0, i as int)));
    }
    assert(selection_restore@.subrange(0, i as int) =~= selection_restore@);
    put_u32(&mut out, edits.len());
    let ghost mid = out@;
    let ghost views = edits@.map_values(|e: EditRecord| e@);
    let mut j: usize = 0;
    while j < edits.len()
        invariant
            j <= edits@.len(),
            views == edits@.map_values(|e: EditRecord| e@),
            out@ == mid + encode_edits(views.subrange(0, j as int)),
        decreases edits@.len() - j,
    {
        pack_edit(&mut out, &edits[j]);
        assert(views.subrange(0, j + 1).drop_last() =~= views.subrange(0, j as int));
        j = j + 1;
        assert(out@ =~= mid + encode_edits(views.subrange(0, j as int)));
    }
    assert(views.subrange(0, j as int) =~= views);
    out
}

/// Reads an undo record back: the selections to restore and the edits.
pub fn unpack_record(input: &[u8]) -> (r: Result<(Vec<usize>, Vec<EditRecord>), EditError>)
    ensures
        r is Ok <==> decode_record(input@) is Some,
        r matches Ok((sel, edits)) ==> (sel@, edits@.map_values(|e: EditRecord| e@))
            == decode_record(input@)->0,
        r is Err ==> r == Err::<(Vec<usize>, Vec<EditRecord>), EditError>(EditError::BadRecord),
{
    let mut offset: usize = 0;
    let count = read_u32(input, &mut offset)?;
    let mut selections: Vec<usize> = Vec::new();
    let mut k: usize = 0;
    while k < count
        invariant
            k <= count,
            offset <= input@.len(),
            read_at(input@, 0) == Some(count as int),
            read_values(input@, 4, count as nat, seq![]) == read_values(
                input@,
                offset as int,
                (count - k) as nat,
                selections@,
            ),
        decreases count - k,
    {
        let v = match read_u32(input, &mut offset) {
            Ok(v) => v,
            Err(e) => {
                assert(read_values(input@, offset as int, (count - k) as nat, selections@) is None);
                return Err(e);
            },
        };
        selections.push(v);
        k = k + 1;
    }
    let ghost sel_end = offset as int;
    let edit_count = read_u32(input, &mut offset)?;
    let mut edits: Vec<EditRecord> = Vec::new();
    assert(edits@.map_values(|e: EditRecord| e@) =~= Seq::<EditView>::empty());
    let mut m: usize = 0;
    while m < edit_count
        invariant
            m <= edit_count,
            offset <= input@.len(),
            read_at(input@, 0) == Some(count as int),
            read_values(input@, 4, count as nat, seq![]) == Some((selections@, sel_end)),
            read_at(input@, sel_end) == Some(edit_count as int),
            read_edits(input@, sel_end + 4, edit_count as nat, seq![]) == read_edits(
                input@,
                offset as int,
                (edit_count - m) as nat,
                edits@.map_values(|e: EditRecord| e@),
            ),
        decreases edit_count - m,
    {
        let ghost before = edits@;
        let ghost off_before = offset as int;
        let e = match unpack_edit(input, &mut offset) {
            Ok(e) => e,
            Err(err) => {
                assert(read_edits(input@, off_before, (edit_count - m) as nat, before.map_values(|e: EditRecord| e@)) is None);
                return Err(err);
            },
        };
        edits.push(e);
        assert(edits@.map_values(|e: EditRecord| e@) =~= before.map_values(|e: EditRecord| e@).push(
            e@,
        ));
        m = m + 1;
    }
    Ok((selections, edits))
}

proof fn lemma_le32_decode(v: int)
    requires
        0 <= v < 0x1_0000_0000,
    ensures
        decode4(le32(v)) == v,
        le32(v).len() == 4,
{
    let w = v as u32;
    assert(w as int == v);
    assert((w % 256) as int + 256 * ((w / 256) % 256) as int + 65536 * ((w / 65536) % 256) as int
        + 16777216 * ((w / 16777216) % 256) as int == w as int) by (nonlinear_arith);
}

proof fn lemma_read_at(p: Seq<u8>, v: int, q: Seq<u8>)
    requires
        0 <= v < 0x1_0000_0000,
    ensures
        read_at(p + le32(v) + q, p.len() as int) == Some(v),
{
    lemma_le32_decode(v);
    assert((p + le32(v) + q).subrange(p.len() as int, p.len() + 4int) =~= le32(v));
}

proof fn lemma_le32_all_front(s: Seq<usize>)
    requires
        s.len() > 0,
    ensures
        le32_all(s) == le32(s[0] as int) + le32_all(s.drop_first()),
    decreases s.len(),
{
    if s.len() == 1 {
        assert(s.drop_last() =~= Seq::<usize>::empty());
        assert(s.drop_first() =~= Seq::<usize>::empty());
        assert(le32_all(s) =~= le32(s[0] as int) + le32_all(s.drop_first()));
    } else {
        lemma_le32_all_front(s.drop_last());
        assert(s.drop_last().drop_first() =~= s.drop_first().drop_last());
        assert(le32_all(s) =~= le32(s[0] as int) + le32_all(s.drop_first()));
    }
}

proof fn lemma_read_values(p: Seq<u8>, s: Seq<usize>, q: Seq<u8>, acc: Seq<usize>)
    requires
        forall|k: int| 0 <= k < s.len() ==> #[trigger] s[k] < 0x1_0000_0000,
    ensures
        read_values(p + le32_all(s) + q, p.len() as int, s.len(), acc) == Some(
            (acc + s, p.len() as int + 4 * s.len()),
        ),
    decreases s.len(),
{
    if s.len() == 0 {
        assert(acc + s =~= acc);
    } else {
        lemma_le32_all_front(s);
        let input = p + le32_all(s) + q;
        assert(input =~= p + le32(s[0] as int) + (le32_all(s.drop_first()) + q));
        lemma_read_at(p, s[0] as int, le32_all(s.drop_first()) + q);
        lemma_le32_decode(s[0] as int);
        let p2 = p + le32(s[0] as int);
        assert(input =~= p2 + le32_all(s.drop_first()) + q);
        lemma_read_values(p2, s.drop_first(), q, acc.push(s[0]));
        assert(acc.push(s[0]) + s.drop_first() =~= acc + s);
        assert((s[0] as int) as usize == s[0]);
    }
}

/// An edit that packs without loss: its numbers and text length fit in a
/// `u32` and its text is valid UTF-8.
pub open spec fn edit_fits(e: EditView) -> bool {
    &&& e.1 < 0x1_0000_0000
    &&& e.2 < 0x1_0000_0000
    &&& e.3 < 0x1_0000_0000
    &&& e.4 < 0x1_0000_0000
    &&& e.5.len() < 0x1_0000_0000
    &&& valid_utf8(e.5)
}

#[verifier::rlimit(50)]
proof fn lemma_read_edit(p: Seq<u8>, e: EditView, q: Seq<u8>)
    requires
        edit_fits(e),
    ensures
        read_edit(p + encode_edit(e) + q, p.len() as int) == Some(
            (e, p.len() as int + encode_edit(e).len()),
        ),
{
    let input = p + encode_edit(e) + q;
    let vals: Seq<usize> = seq![e.1, e.2, e.3, e.4, e.5.len() as usize];
    let p1 = p + seq![e.0];
    reveal_with_fuel(le32_all, 6);
    assert(vals.drop_last().drop_last().drop_last().drop_last().drop_last() =~= Seq::<usize>::empty());
    assert(le32_all(vals) =~= le32(e.1 as int) + le32(e.2 as int) + le32(e.3 as int) + le32(
        e.4 as int,
    ) + le32(e.5.len() as int));
    assert(input =~= p1 + le32_all(vals) + (e.5 + q));
    lemma_read_values(p1, vals, e.5 + q, seq![]);
    assert(Seq::<usize>::empty() + vals =~= vals);
    lemma_le32_decode(e.1 as int);
    lemma_le32_decode(e.2 as int);
    lemma_le32_decode(e.3 as int);
    lemma_le32_decode(e.4 as int);
    lemma_le32_decode(e.5.len() as int);
    let start: int = p1.len() as int + 20;
    assert(input.subrange(start, start + e.5.len() as int) =~= e.5);
    assert(input[p.len() as int] == e.0);
}

proof fn lemma_encode_edits_front(es: Seq<EditView>)
    requires
        es.len() > 0,
    ensures
        encode_edits(es) == encode_edit(es[0]) + encode_edits(es.drop_first()),
    decreases es.len(),
{
    if es.len() == 1 {
        assert(es.drop_last() =~= Seq::<EditView>::empty());
        assert(es.drop_first() =~= Seq::<EditView>::empty());
        assert(encode_edits(es) =~= encode_edit(es[0]) + encode_edits(es.drop_first()));
    } else {
        lemma_encode_edits_front(es.drop_last());
        assert(es.drop_last().drop_first() =~= es.drop_first().drop_last());
        assert(encode_edits(es) =~= encode_edit(es[0]) + encode_edits(es.drop_first()));
    }
}

#[verifier::rlimit(50)]
proof fn lemma_read_edits(p: Seq<u8>, es: Seq<EditView>, q: Seq<u8>, acc: Seq<EditView>)
    requires
        forall|k: int| 0 <= k < es.len() ==> edit_fits(#[trigger] es[k]),
    ensures
        read_edits(p + encode_edits(es) + q, p.len() as int, es.len(), acc) == Some(
            (acc + es, p.len() as int + encode_edits(es).len()),
        ),
    decreases es.len(),
{
    if es.len() == 0 {
        assert(acc + es =~= acc);
    } else {
        lemma_encode_edits_front(es);
        let input = p + encode_edits(es) + q;
        let rest = encode_edits(es.drop_first()) + q;
        assert(input =~= p + encode_edit(es[0]) + rest);
        lemma_read_edit(p, es[0], rest);
        let p2 = p + encode_edit(es[0]);
        assert(input =~= p2 + encode_edits(es.drop_first()) + q);
        assert(forall|k: int| 0 <= k < es.drop_first().len() ==> #[trigger] es.drop_first()[k] == es[k + 1]);
        lemma_read_edits(p2, es.drop_first(), q, acc.push(es[0]));
        assert(acc.push(es[0]) + es.drop_first() =~= acc + es);
    }
}

proof fn lemma_le32_all_len(s: Seq<usize>)
    ensures
        le32_all(s).len() == 4 * s.len(),
    decreases s.len(),
{
    if s.len() > 0 {
        lemma_le32_all_len(s.drop_last());
    }
}

/// Reading back a packed record gives the selections and edits that were
/// packed, when all of them fit the format.
pub proof fn lemma_record_round_trip(sel: Seq<usize>, edits: Seq<EditView>)
    requires
        sel.len() < 0x1_0000_0000,
        edits.len() < 0x1_0000_0000,
        forall|k: int| 0 <= k < sel.len() ==> #[trigger] sel[k] < 0x1_0000_0000,
        forall|k: int| 0 <= k < edits.len() ==> edit_fits(#[trigger] edits[k]),
    ensures
        decode_record(encode_record(sel, edits)) == Some((sel, edits)),
{
    lemma_record_tail_ignored(sel, edits, Seq::<u8>::empty());
    assert(encode_record(sel, edits) + Seq::<u8>::empty() =~= encode_record(sel, edits));
}

/// Bytes after a packed record do not change what it reads back as: the
/// selections and edits that were packed, when all of them fit the format.
#[verifier::rlimit(50)]
pub proof fn lemma_record_tail_ignored(sel: Seq<usize>, edits: Seq<EditView>, extra: Seq<u8>)
    requires
        sel.len() < 0x1_0000_0000,
        edits.len() < 0x1_0000_0000,
        forall|k: int| 0 <= k < sel.len() ==> #[trigger] sel[k] < 0x1_0000_0000,
        forall|k: int| 0 <= k < edits.len() ==> edit_fits(#[trigger] edits[k]),
    ensures
        decode_record(encode_record(sel, edits) + extra) == Some((sel, edits)),
{
    let input = encode_record(sel, edits) + extra;
    let a = le32(sel.len() as int);
    let b = le32_all(sel);
    let c = le32(edits.len() as int);
    let d = encode_edits(edits);
    lemma_le32_decode(sel.len() as int);
    lemma_le32_decode(edits.len() as int);
    lemma_le32_all_len(sel);
    assert(input == a + b + c + d + extra);
    assert(read_at(input, 0) == Some(sel.len() as int)) by {
        assert(input =~= Seq::<u8>::empty() + a + (b + c + d + extra));
        lemma_read_at(Seq::<u8>::empty(), sel.len() as int, b + c + d + extra);
    }
    let end1: int = 4 + 4 * sel.len() as int;
    assert(read_values(input, 4, sel.len(), seq![]) == Some((sel, end1))) by {
        assert(input =~= a + b + (c + d + extra));
        lemma_read_values(a, sel, c + d + extra, seq![]);
        assert(Seq::<usize>::empty() + sel =~= sel);
    }
    assert(read_at(input, end1) == Some(edits.len() as int)) by {
        assert(input =~= (a + b) + c + (d + extra));
        lemma_read_at(a + b, edits.len() as int, d + extra);
    }
    assert(read_edits(input, end1 + 4, edits.len(), seq![]) == Some((edits, end1 + 4 + d.len()))) by {
        assert(input =~= (a + b + c) + d + extra);
        lemma_read_edits(a + b + c, edits, extra, seq![]);
        assert(Seq::<EditView>::empty() + edits =~= edits);
    }
}

/// Four bytes read as a `u32` and written back are the same four bytes.
proof fn lemma_decode4_le32(b: Seq<u8>)
    requires
        b.len() == 4,
    ensures
        0 <= decode4(b) < 0x1_0000_0000,
        le32(decode4(b)) == b,
{
    let x0 = b[0] as int;
    let x1 = b[1] as int;
    let x2 = b[2] as int;
    let x3 = b[3] as int;
    let v = decode4(b);
    lemma_fundamental_div_mod_converse(v, 0x1_0000_0000, 0, v);
    lemma_fundamental_div_mod_converse(v, 256, x1 + 256 * x2 + 65536 * x3, x0);
    lemma_fundamental_div_mod_converse(x1 + 256 * x2 + 65536 * x3, 256, x2 + 256 * x3, x1);
    lemma_fundamental_div_mod_converse(v, 65536, x2 + 256 * x3, x0 + 256 * x1);
    lemma_fundamental_div_mod_converse(x2 + 256 * x3, 256, x3, x2);
    lemma_fundamental_div_mod_converse(v, 16777216, x3, x0 + 256 * x1 + 65536 * x2);
    lemma_fundamental_div_mod_converse(x3, 256, 0, x3);
    assert(le32(v) =~= b);
}

/// Values read back are the `u32`s whose bytes were read.
proof fn lemma_read_values_bytes(input: Seq<u8>, off: int, n: nat, acc: Seq<usize>)
    requires
        0 <= off <= input.len(),
        read_values(input, off, n, acc) is Some,
    ensures
        ({
            let (r, p) = read_values(input, off, n, acc)->0;
            &&& r.len() == acc.len() + n
            &&& r.subrange(0, acc.len() as int) == acc
            &&& p == off + 4 * n
            &&& p <= input.len()
            &&& forall|k: int| acc.len() <= k < r.len() ==> #[trigger] r[k] < 0x1_0000_0000
            &&& input.subrange(off, p) == le32_all(r.subrange(acc.len() as int, r.len() as int))
        }),
    decreases n,
{
    if n == 0 {
        assert(acc.subrange(0, acc.len() as int) =~= acc);
        assert(acc.subrange(acc.len() as int, acc.len() as int) =~= Seq::<usize>::empty());
        assert(input.subrange(off, off) =~= Seq::<u8>::empty());
    } else {
        let v = read_at(input, off)->0;
        lemma_decode4_le32(input.subrange(off, off + 4));
        let acc1 = acc.push(v as usize);
        lemma_read_values_bytes(input, off + 4, (n - 1) as nat, acc1);
        let (r, p) = read_values(input, off, n, acc)->0;
        assert(r.subrange(0, acc1.len() as int) == acc1);
        assert(r.subrange(0, acc.len() as int) =~= acc1.subrange(0, acc.len() as int));
        assert(acc1.subrange(0, acc.len() as int) =~= acc);
        assert(r[acc.len() as int] == acc1[acc.len() as int]);
        let tail = r.subrange(acc.len() as int, r.len() as int);
        lemma_le32_all_front(tail);
        assert(tail.drop_first() =~= r.subrange(acc1.len() as int, r.len() as int));
        assert(tail[0] == v as usize);
        assert(input.subrange(off, p) =~= input.subrange(off, off + 4) + input.subrange(off + 4, p));
    }
}

/// An edit read back is the edit whose bytes were read, and it fits the
/// format.
#[verifier::rlimit(50)]
proof fn lemma_read_edit_bytes(input: Seq<u8>, off: int)
    requires
        0 <= off,
        read_edit(input, off) is Some,
    ensures
        ({
            let (e, p) = read_edit(input, off)->0;
            &&& off < p <= input.len()
            &&& edit_fits(e)
            &&& input.subrange(off, p) == encode_edit(e)
        }),
{
    lemma_read_values_bytes(input, off + 1, 5, seq![]);
    let (v, p1) = read_values(input, off + 1, 5, seq![])->0;
    let (e, p) = read_edit(input, off)->0;
    assert(v.subrange(0, 5) =~= v);
    reveal_with_fuel(le32_all, 6);
    assert(v.drop_last().drop_last().drop_last().drop_last().drop_last() =~= Seq::<usize>::empty());
    assert(le32_all(v) =~= le32(v[0] as int) + le32(v[1] as int) + le32(v[2] as int) + le32(
        v[3] as int,
    ) + le32(v[4] as int));
    assert(v[4] < 0x1_0000_0000);
    assert(e.5.len() == v[4]);
    assert(input.subrange(off, p) =~= seq![input[off]] + input.subrange(off + 1, p1) + input.subrange(
        p1,
        p,
    ));
    assert(encode_edit(e) =~= seq![e.0] + le32_all(v) + e.5);
}

/// Edits read back are the edits whose bytes were read, and they fit the
/// format.
proof fn lemma_read_edits_bytes(input: Seq<u8>, off: int, n: nat, acc: Seq<EditView>)
    requires
        0 <= off <= input.len(),
        read_edits(input, off, n, acc) is Some,
    ensures
        ({
            let (r, p) = read_edits(input, off, n, acc)->0;
            &&& r.len() == acc.len() + n
            &&& r.subrange(0, acc.len() as int) == acc
            &&& off <= p <= input.len()
            &&& forall|k: int| acc.len() <= k < r.len() ==> edit_fits(#[trigger] r[k])
            &&& input.subrange(off, p) == encode_edits(r.subrange(acc.len() as int, r.len() as int))
        }),
    decreases n,
{
    if n == 0 {
        assert(acc.subrange(0, acc.len() as int) =~= acc);
        assert(acc.subrange(acc.len() as int, acc.len() as int) =~= Seq::<EditView>::empty());
        assert(input.subrange(off, off) =~= Seq::<u8>::empty());
    } else {
        lemma_read_edit_bytes(input, off);
        let (e, p0) = read_edit(input, off)->0;
        let acc1 = acc.push(e);
        lemma_read_edits_bytes(input, p0, (n - 1) as nat, acc1);
        let (r, p) = read_edits(input, off, n, acc)->0;
        assert(r.subrange(0, acc1.len() as int) == acc1);
        assert(r.subrange(0, acc.len() as int) =~= acc1.subrange(0, acc.len() as int));
        assert(acc1.subrange(0, acc.len() as int) =~= acc);
        assert(r[acc.len() as int] == acc1[acc.len() as int]);
        let tail = r.subrange(acc.len() as int, r.len() as int);
        lemma_encode_edits_front(tail);
        assert(tail.drop_first() =~= r.subrange(acc1.len() as int, r.len() as int));
        assert(tail[0] == e);
        assert(input.subrange(off, p) =~= input.subrange(off, p0) + input.subrange(p0, p));
    }
}

/// A record that reads back at all starts with the bytes that packing what
/// it reads back as gives; so bytes that start with no packed record never
/// read back, and what reads back always fits the format.
pub proof fn lemma_decoded_prefix(input: Seq<u8>)
    requires
        decode_record(input) is Some,
    ensures
        ({
            let (sel, edits) = decode_record(input)->0;
            &&& sel.len() < 0x1_0000_0000
            &&& edits.len() < 0x1_0000_0000
            &&& forall|k: int| 0 <= k < sel.len() ==> #[trigger] sel[k] < 0x1_0000_0000
            &&& forall|k: int| 0 <= k < edits.len() ==> edit_fits(#[trigger] edits[k])
            &&& encode_record(sel, edits).len() <= input.len()
            &&& input.subrange(0, encode_record(sel, edits).len() as int) == encode_record(sel, edits)
        }),
{
    let (sel, edits) = decode_record(input)->0;
    let count = read_at(input, 0)->0;
    lemma_decode4_le32(input.subrange(0, 4));
    lemma_read_values_bytes(input, 4, count as nat, seq![]);
    let (sel1, p) = read_values(input, 4, count as nat, seq![])->0;
    assert(sel1 == sel);
    assert(sel.subrange(0, sel.len() as int) =~= sel);
    let ec = read_at(input, p)->0;
    lemma_decode4_le32(input.subrange(p, p + 4));
    lemma_read_edits_bytes(input, p + 4, ec as nat, seq![]);
    let (edits1, q) = read_edits(input, p + 4, ec as nat, seq![])->0;
    assert(edits1 == edits);
    assert(edits.subrange(0, edits.len() as int) =~= edits);
    assert(sel.len() == count);
    assert(edits.len() == ec);
    lemma_le32_all_len(sel);
    assert(input.subrange(0, q) =~= input.subrange(0, 4) + input.subrange(4, p) + input.subrange(p, p + 4)
        + input.subrange(p + 4, q));
    assert(encode_record(sel, edits).len() == q);
}

} // verus!
