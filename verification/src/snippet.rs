//! LSP snippet parser and expander.
//!
//! Turns the LSP snippet syntax into plain text plus tabstop metadata.
//! Supports `$0`, `$1`..`$N`, `${1:default}`, `${1|a,b,c|}` and escape
//! sequences (`\$`, `\\`, `\{`, `\}`).
//!
//! The syntax is given below as a small-step reading of the UTF-8 bytes of
//! the snippet: `scan` consumes one token at a time, and `braced` reads the
//! interior of a `${...}` form. All the syntax is ASCII; every other
//! character is copied whole, so the expanded text is the snippet with its
//! syntax removed. Tabstop offsets are byte offsets into the expanded text.
use vstd::prelude::*;
use vstd::utf8::{encode_utf8, valid_utf8};
use crate::doc::{at_char_boundary, copy_range, push_all};
verus! {

broadcast use vstd::seq_lib::group_seq_properties;

/// A resolved tabstop with its byte offset range in the expanded plain text.
#[derive(Debug, Clone, Copy)]
pub struct Tabstop {
    pub index: u32,
    /// Byte offset of the tabstop start in the expanded text.
    pub start: usize,
    /// Byte offset of the tabstop end in the expanded text.
    pub end: usize,
}

/// Result of expanding a snippet body.
#[derive(Debug)]
pub struct ExpandedSnippet {
    /// Plain text to insert (all snippet syntax removed).
    pub text: String,
    /// Tabstops sorted by index then by position, with `$0` last.
    pub tabstops: Vec<Tabstop>,
}

/// `c` is an ASCII digit.
pub open spec fn is_digit(c: u8) -> bool {
    48 <= c <= 57
}

/// Bytes that a backslash escapes: `$`, `\`, `}` and `{`.
pub open spec fn is_escapable(c: u8) -> bool {
    c == 36 || c == 92 || c == 125 || c == 123
}

/// Length of the run of ASCII digits that starts at `j`.
pub open spec fn digit_run(s: Seq<u8>, j: int) -> nat
    decreases (if 0 <= j <= s.len() { s.len() - j } else { 0 }),
{
    if 0 <= j < s.len() && is_digit(s[j]) {
        1 + digit_run(s, j + 1)
    } else {
        0
    }
}

/// Decimal value of a run of ASCII digits.
pub open spec fn decimal_value(s: Seq<u8>) -> nat
    decreases s.len(),
{
    if s.len() == 0 {
        0
    } else {
        decimal_value(s.drop_last()) * 10 + (s.last() - 48) as nat
    }
}

/// The tabstop number written by the digits `s[a..e]`: its decimal value, or
/// 0 when that value does not fit in a `u32`.
pub open spec fn tabstop_index(s: Seq<u8>, a: int, e: int) -> u32 {
    let v = decimal_value(s.subrange(a, e));
    if v <= u32::MAX {
        v as u32
    } else {
        0
    }
}

/// Measure for the scanning functions: bytes left from position `i`.
pub open spec fn left(s: Seq<u8>, i: int) -> int {
    if 0 <= i <= s.len() {
        s.len() - i
    } else {
        0
    }
}


/// Number of bytes of the UTF-8 character whose first byte is `c`.
pub open spec fn char_width(c: u8) -> int {
    if c < 0x80 {
        1
    } else if c < 0xe0 {
        2
    } else if c < 0xf0 {
        3
    } else {
        4
    }
}

/// End of the character that starts at byte `j` of `s` (cut at the end of
/// `s`).
pub open spec fn char_end(s: Seq<u8>, j: int) -> int {
    if j + char_width(s[j]) <= s.len() {
        j + char_width(s[j])
    } else {
        s.len() as int
    }
}

/// The interior of `${...}`, read from just after the `{`:
/// `(index, default text, bytes consumed including the closing brace)`.
pub open spec fn braced(s: Seq<u8>) -> (u32, Seq<u8>, nat)
    decreases s.len(), s.len() + 1,
{
    let i = digit_run(s, 0) as int;
    let index = tabstop_index(s, 0, i);
    if i >= s.len() {
        (index, seq![], i as nat)
    } else if s[i] == 125 {
        (index, seq![], (i + 1) as nat)
    } else if s[i] == 58 {
        let (d, k) = default_loop(s, i + 1, 1, seq![]);
        (index, d, k as nat)
    } else if s[i] == 124 {
        let (c, k) = choice_first(s, i + 1, seq![]);
        (index, c, skip_choice_close(s, k) as nat)
    } else {
        (index, seq![], skip_to_close(s, i) as nat)
    }
}

/// Reading of a `${N:default}` default text from position `i`, at brace
/// nesting `depth`, with `acc` read so far: `(default text, end position)`.
/// Nested `${M:...}` forms contribute their own default text; nested `$M`
/// contribute nothing.
pub open spec fn default_loop(s: Seq<u8>, i: int, depth: int, acc: Seq<u8>) -> (Seq<u8>, int)
    decreases s.len(), left(s, i),
{
    if !(0 <= i < s.len() && depth > 0) {
        (acc, i)
    } else if s[i] == 92 && i + 1 < s.len() && is_escapable(s[i + 1]) {
        default_loop(s, i + 2, depth, acc.push(s[i + 1]))
    } else if s[i] == 125 && depth == 1 {
        (acc, i + 1)
    } else {
        let d2 = if s[i] == 123 {
            depth + 1
        } else if s[i] == 125 {
            depth - 1
        } else {
            depth
        };
        if s[i] == 36 && i + 1 < s.len() {
            if s[i + 1] == 123 {
                let inner = braced(s.subrange(i + 2, s.len() as int));
                default_loop(s, i + 2 + inner.2, d2, acc + inner.1)
            } else if is_digit(s[i + 1]) {
                default_loop(s, i + 1 + digit_run(s, i + 1), d2, acc)
            } else {
                default_loop(s, i + 1, d2, acc.push(36))
            }
        } else {
            default_loop(s, char_end(s, i), d2, acc + s.subrange(i, char_end(s, i)))
        }
    }
}

/// The first alternative of a `${N|a,b,c|}` choice, read from `i`; a
/// backslash makes the character after it literal.
pub open spec fn choice_first(s: Seq<u8>, i: int, acc: Seq<u8>) -> (Seq<u8>, int)
    decreases left(s, i),
{
    if !(0 <= i < s.len() && s[i] != 44 && s[i] != 124) {
        (acc, i)
    } else if s[i] == 92 && i + 1 < s.len() {
        choice_first(s, char_end(s, i + 1), acc + s.subrange(i + 1, char_end(s, i + 1)))
    } else {
        choice_first(s, char_end(s, i), acc + s.subrange(i, char_end(s, i)))
    }
}

/// Position just past the closing `|}` of a choice, or the end of input.
pub open spec fn skip_choice_close(s: Seq<u8>, i: int) -> int
    decreases left(s, i),
{
    if !(0 <= i < s.len()) {
        i
    } else if s[i] == 124 && i + 1 < s.len() && s[i + 1] == 125 {
        i + 2
    } else {
        skip_choice_close(s, i + 1)
    }
}

/// Position just past the next `}`, or the end of input.
pub open spec fn skip_to_close(s: Seq<u8>, i: int) -> int
    decreases left(s, i),
{
    if 0 <= i < s.len() && s[i] != 125 {
        skip_to_close(s, i + 1)
    } else if 0 <= i < s.len() {
        i + 1
    } else {
        i
    }
}

/// Expansion of the snippet bytes `b` from position `i`, given the bytes of
/// the text and the tabstops (in order of appearance) produced so far.
pub open spec fn scan(b: Seq<u8>, i: int, text: Seq<u8>, stops: Seq<Tabstop>) -> (
    Seq<u8>,
    Seq<Tabstop>,
)
    decreases left(b, i),
{
    if !(0 <= i < b.len()) {
        (text, stops)
    } else if b[i] == 92 && i + 1 < b.len() && is_escapable(b[i + 1]) {
        scan(b, i + 2, text.push(b[i + 1]), stops)
    } else if b[i] == 36 {
        if i + 1 >= b.len() {
            scan(b, i + 1, text.push(36), stops)
        } else if b[i + 1] == 123 {
            let inner = braced(b.subrange(i + 2, b.len() as int));
            let t2 = text + inner.1;
            scan(
                b,
                i + 2 + inner.2,
                t2,
                stops.push(Tabstop { index: inner.0, start: text.len() as usize, end: t2.len() as usize }),
            )
        } else if is_digit(b[i + 1]) {
            let e = i + 1 + digit_run(b, i + 1);
            scan(
                b,
                e,
                text,
                stops.push(
                    Tabstop {
                        index: tabstop_index(b, i + 1, e),
                        start: text.len() as usize,
                        end: text.len() as usize,
                    },
                ),
            )
        } else {
            scan(b, i + 1, text.push(36), stops)
        }
    } else {
        scan(b, char_end(b, i), text + b.subrange(i, char_end(b, i)), stops)
    }
}

/// The UTF-8 bytes of the expanded text of the snippet bytes `b`.
pub open spec fn expanded_text(b: Seq<u8>) -> Seq<u8> {
    scan(b, 0, seq![], seq![]).0
}

/// Tabstops of the snippet bytes `b`, in order of appearance.
pub open spec fn raw_tabstops(b: Seq<u8>) -> Seq<Tabstop> {
    scan(b, 0, seq![], seq![]).1
}

/// Sort key: `$1..$N` by number, `$0` after all of them.
pub open spec fn sort_key(t: Tabstop) -> u32 {
    if t.index == 0 {
        u32::MAX
    } else {
        t.index
    }
}

/// Tabstops whose sort key is `k`.
pub open spec fn has_key(k: u32) -> spec_fn(Tabstop) -> bool {
    |t: Tabstop| sort_key(t) == k
}

/// `out` is the stable sort of `inp` by `sort_key`: ordered by key, and the
/// tabstops of each key appear in `out` in the order they have in `inp`.
pub open spec fn is_stable_sort(out: Seq<Tabstop>, inp: Seq<Tabstop>) -> bool {
    &&& forall|i: int, j: int| 0 <= i <= j < out.len() ==> sort_key(out[i]) <= sort_key(out[j])
    &&& forall|k: u32| #[trigger] out.filter(has_key(k)) == inp.filter(has_key(k))
}

/// Wraps std's `String::from_utf8`, which turns valid UTF-8 bytes into the
/// string they encode (its error case is excluded by the precondition).
#[verifier::external_body]
fn string_from_utf8(bytes: Vec<u8>) -> (s: String)
    requires
        valid_utf8(bytes@),
    ensures
        encode_utf8(s@) == bytes@,
{
    String::from_utf8(bytes).unwrap()
}


proof fn lemma_digit_run_bound(s: Seq<u8>, j: int)
    requires
        0 <= j <= s.len(),
    ensures
        j + digit_run(s, j) <= s.len(),
        forall|k: int| j <= k < j + digit_run(s, j) ==> is_digit(#[trigger] s[k]),
        j + digit_run(s, j) < s.len() ==> !is_digit(s[j + digit_run(s, j)]),
    decreases s.len() - j,
{
    if j < s.len() && is_digit(s[j]) {
        lemma_digit_run_bound(s, j + 1);
    }
}

/// End of the run of ASCII digits that starts at `j`.
fn digits_end(bytes: &[u8], j: usize) -> (e: usize)
    requires
        j <= bytes@.len(),
    ensures
        e == j + digit_run(bytes@, j as int),
        e <= bytes@.len(),
{
    proof {
        lemma_digit_run_bound(bytes@, j as int);
    }
    let mut e = j;
    while e < bytes.len() && 48 <= bytes[e] && bytes[e] <= 57
        invariant
            j <= e <= bytes@.len(),
            j + digit_run(bytes@, j as int) == e + digit_run(bytes@, e as int),
        decreases bytes@.len() - e,
    {
        e = e + 1;
    }
    e
}

/// Tabstop number of the digits `bytes[a..e]` (0 when it overflows `u32`).
fn parse_index(bytes: &[u8], a: usize, e: usize) -> (r: u32)
    requires
        a <= e <= bytes@.len(),
        forall|k: int| a <= k < e ==> is_digit(#[trigger] bytes@[k]),
    ensures
        r == tabstop_index(bytes@, a as int, e as int),
{
    let mut acc: u64 = 0;
    let mut over = false;
    let mut k = a;
    assert(bytes@.subrange(a as int, a as int) =~= Seq::<u8>::empty());
    while k < e
        invariant
            a <= k <= e <= bytes@.len(),
            forall|m: int| a <= m < e ==> is_digit(#[trigger] bytes@[m]),
            !over ==> acc == decimal_value(bytes@.subrange(a as int, k as int)) && acc
                <= u32::MAX,
            over ==> decimal_value(bytes@.subrange(a as int, k as int)) > u32::MAX,
        decreases e - k,
    {
        let ghost prev = bytes@.subrange(a as int, k as int);
        let ghost next = bytes@.subrange(a as int, k + 1);
        assert(next.drop_last() =~= prev);
        assert(is_digit(bytes@[k as int]));
        let d = (bytes[k] - 48) as u64;
        assert(decimal_value(next) == decimal_value(prev) * 10 + d);
        if !over {
            let n = acc * 10 + d;
            if n > 0xffff_ffffu64 {
                over = true;
            } else {
                acc = n;
            }
        }
        k = k + 1;
    }
    if over {
        0
    } else {
        acc as u32
    }
}

/// End of the character that starts at byte `j` (see `char_end`).
fn char_end_at(bytes: &[u8], j: usize) -> (e: usize)
    requires
        j < bytes@.len(),
    ensures
        e == char_end(bytes@, j as int),
        j < e <= bytes@.len(),
{
    let c = bytes[j];
    let w: usize = if c < 0x80 {
        1
    } else if c < 0xe0 {
        2
    } else if c < 0xf0 {
        3
    } else {
        4
    };
    if w <= bytes.len() - j {
        j + w
    } else {
        bytes.len()
    }
}

/// Appends `v[a..e]` to `out`.
fn push_range(out: &mut Vec<u8>, v: &[u8], a: usize, e: usize)
    requires
        a <= e <= v@.len(),
    ensures
        final(out)@ == old(out)@ + v@.subrange(a as int, e as int),
{
    let piece = copy_range(v, a, e);
    push_all(out, piece.as_slice());
}

/// Reads a `${N|a,b,c|}` choice from just after the first `|`.
fn read_choice(bytes: &[u8], i0: usize) -> (r: (Vec<u8>, usize))
    requires
        i0 <= bytes@.len(),
    ensures
        r.0@ == choice_first(bytes@, i0 as int, seq![]).0,
        r.1 == skip_choice_close(bytes@, choice_first(bytes@, i0 as int, seq![]).1),
        r.1 <= bytes@.len(),
{
    let ghost s = bytes@;
    let len = bytes.len();
    let mut i = i0;
    let mut first: Vec<u8> = Vec::new();
    while i < len && bytes[i] != 44 && bytes[i] != 124
        invariant
            s == bytes@,
            len == s.len(),
            i0 <= i <= len,
            choice_first(s, i as int, first@) == choice_first(s, i0 as int, seq![]),
        decreases len - i,
    {
        if bytes[i] == 92 && i + 1 < len {
            let e = char_end_at(bytes, i + 1);
            push_range(&mut first, bytes, i + 1, e);
            i = e;
        } else {
            let e = char_end_at(bytes, i);
            push_range(&mut first, bytes, i, e);
            i = e;
        }
    }
    let ghost k = i as int;
    assert(choice_first(s, k, first@) == (first@, k));
    while i < len
        invariant_except_break
            s == bytes@,
            len == s.len(),
            k <= i <= len,
            skip_choice_close(s, i as int) == skip_choice_close(s, k),
        ensures
            i <= len,
            i == skip_choice_close(s, k),
        decreases len - i,
    {
        if bytes[i] == 124 && i + 1 < len && bytes[i + 1] == 125 {
            i = i + 2;
            break;
        }
        i = i + 1;
    }
    (first, i)
}

/// Reads the interior of `${...}` starting after the `{` (see `braced`).
fn braced_bytes(bytes: &[u8]) -> (r: (u32, Vec<u8>, usize))
    ensures
        r.0 == braced(bytes@).0,
        r.1@ == braced(bytes@).1,
        r.2 == braced(bytes@).2,
        r.2 <= bytes@.len(),
    decreases bytes@.len(),
{
    let ghost s = bytes@;
    let len = bytes.len();
    let i0 = digits_end(bytes, 0);
    proof {
        lemma_digit_run_bound(s, 0);
    }
    let index = parse_index(bytes, 0, i0);
    if i0 >= len {
        return (index, Vec::new(), i0);
    }
    if bytes[i0] == 125 {
        return (index, Vec::new(), i0 + 1);
    }
    if bytes[i0] == 58 {
        let mut i = i0 + 1;
        let mut default: Vec<u8> = Vec::new();
        let mut depth: usize = 1;
        let ghost start = i as int;
        while i < len && depth > 0
            invariant_except_break
                s == bytes@,
                len == s.len(),
                start <= i <= len,
                1 <= depth <= i,
                default_loop(s, i as int, depth as int, default@) == default_loop(
                    s,
                    start,
                    1,
                    seq![],
                ),
            ensures
                i <= len,
                (default@, i as int) == default_loop(s, start, 1, seq![]),
            decreases len - i,
        {
            if bytes[i] == 92 && i + 1 < len {
                let next = bytes[i + 1];
                if next == 36 || next == 92 || next == 125 || next == 123 {
                    default.push(next);
                    i = i + 2;
                    continue;
                }
            }
            if bytes[i] == 123 {
                depth = depth + 1;
            } else if bytes[i] == 125 {
                depth = depth - 1;
                if depth == 0 {
                    i = i + 1;
                    break;
                }
            }
            if bytes[i] == 36 && i + 1 < len {
                if bytes[i + 1] == 123 {
                    let sub = vstd::slice::slice_subrange(bytes, i + 2, len);
                    assert(sub@ == s.subrange(i + 2, s.len() as int));
                    let (_, nested, consumed) = braced_bytes(sub);
                    push_all(&mut default, nested.as_slice());
                    i = i + 2 + consumed;
                } else if 48 <= bytes[i + 1] && bytes[i + 1] <= 57 {
                    i = digits_end(bytes, i + 1);
                } else {
                    default.push(36);
                    i = i + 1;
                }
            } else {
                let e = char_end_at(bytes, i);
                push_range(&mut default, bytes, i, e);
                i = e;
            }
        }
        return (index, default, i);
    }
    if bytes[i0] == 124 {
        let (first, i) = read_choice(bytes, i0 + 1);
        return (index, first, i);
    }
    let mut i = i0;
    while i < len && bytes[i] != 125
        invariant
            s == bytes@,
            len == s.len(),
            i0 <= i <= len,
            skip_to_close(s, i as int) == skip_to_close(s, i0 as int),
        decreases len - i,
    {
        i = i + 1;
    }
    if i < len {
        i = i + 1;
    }
    (index, Vec::new(), i)
}

/// Parses the interior of `${...}` starting after the `{` of a snippet's
/// UTF-8 bytes: `(index, default_text, bytes_consumed_including_closing_brace)`.
pub fn parse_braced(bytes: &[u8]) -> (r: (u32, String, usize))
    requires
        valid_utf8(bytes@),
    ensures
        r.0 == braced(bytes@).0,
        encode_utf8(r.1@) == braced(bytes@).1,
        r.2 == braced(bytes@).2,
        r.2 <= bytes@.len(),
{
    let (index, default, consumed) = braced_bytes(bytes);
    proof {
        lemma_braced_valid(bytes@);
    }
    (index, string_from_utf8(default), consumed)
}

/// The first byte of a non-empty valid UTF-8 text starts a character.
proof fn lemma_lead(b: Seq<u8>)
    requires
        valid_utf8(b),
        b.len() > 0,
    ensures
        !(0x80 <= b[0] <= 0xbf),
{
}

/// A single ASCII byte is valid UTF-8, and appending one keeps a text valid.
proof fn lemma_ascii_push(acc: Seq<u8>, c: u8)
    requires
        valid_utf8(acc),
        c < 0x80,
    ensures
        valid_utf8(acc.push(c)),
{
    assert(valid_utf8(seq![c])) by {
        reveal_with_fuel(valid_utf8, 2);
        assert(vstd::utf8::pop_first_scalar(seq![c]) =~= Seq::<u8>::empty());
    }
    vstd::utf8::valid_utf8_concat(acc, seq![c]);
    assert(acc + seq![c] =~= acc.push(c));
}

/// The bytes of a valid UTF-8 text from a character boundary on are valid.
proof fn lemma_suffix_valid(s: Seq<u8>, i: int)
    requires
        valid_utf8(s),
        0 <= i <= s.len(),
        at_char_boundary(s, i),
    ensures
        valid_utf8(s.subrange(i, s.len() as int)),
{
    if i == 0 {
        assert(s.subrange(0, s.len() as int) =~= s);
    } else if i == s.len() {
        assert(s.subrange(i, s.len() as int) =~= Seq::<u8>::empty());
    } else {
        vstd::utf8::is_char_boundary_iff_not_is_continuation_byte(s, i);
        vstd::utf8::valid_utf8_split(s, i);
    }
}

/// The character at a boundary of a valid UTF-8 text is valid UTF-8, and
/// the byte after it is a boundary too.
proof fn lemma_char_piece(s: Seq<u8>, i: int)
    requires
        valid_utf8(s),
        0 <= i < s.len(),
        at_char_boundary(s, i),
    ensures
        i < char_end(s, i) <= s.len(),
        char_end(s, i) == i + char_width(s[i]),
        valid_utf8(s.subrange(i, char_end(s, i))),
        at_char_boundary(s, char_end(s, i)),
{
    lemma_suffix_valid(s, i);
    let y = s.subrange(i, s.len() as int);
    assert(y[0] == s[i]);
    let w = char_width(s[i]);
    assert(vstd::utf8::valid_first_scalar(y));
    assert(vstd::utf8::length_of_first_scalar(y) == w);
    assert(w <= y.len());
    let piece = y.subrange(0, w);
    assert(piece =~= s.subrange(i, i + w));
    assert(valid_utf8(piece)) by {
        reveal_with_fuel(valid_utf8, 2);
        assert(forall|k: int| 0 <= k < w ==> piece[k] == y[k]);
        assert(vstd::utf8::valid_first_scalar(piece));
        assert(vstd::utf8::pop_first_scalar(piece) =~= Seq::<u8>::empty());
    }
    let rest = vstd::utf8::pop_first_scalar(y);
    assert(valid_utf8(rest));
    if i + w < s.len() {
        lemma_lead(rest);
        assert(rest[0] == s[i + w]);
    }
}

/// The byte after an ASCII byte of a valid UTF-8 text is a boundary.
proof fn lemma_after_ascii(s: Seq<u8>, j: int)
    requires
        valid_utf8(s),
        0 <= j < s.len(),
        s[j] < 0x80,
    ensures
        at_char_boundary(s, j + 1),
{
    lemma_char_piece(s, j);
}

/// A boundary of a suffix that starts at a boundary is a boundary of the
/// whole text.
proof fn lemma_boundary_shift(s: Seq<u8>, a: int, c: int)
    requires
        0 <= a <= s.len(),
        0 <= c <= s.len() - a,
        at_char_boundary(s, a),
        at_char_boundary(s.subrange(a, s.len() as int), c),
    ensures
        at_char_boundary(s, a + c),
{
    if 0 < c < s.len() - a {
        assert(s.subrange(a, s.len() as int)[c] == s[a + c]);
    }
}

/// A run of digits from a boundary ends at a boundary.
proof fn lemma_digits_boundary(s: Seq<u8>, j: int)
    requires
        valid_utf8(s),
        0 <= j <= s.len(),
        at_char_boundary(s, j),
    ensures
        at_char_boundary(s, j + digit_run(s, j)),
        j + digit_run(s, j) <= s.len(),
{
    lemma_digit_run_bound(s, j);
    if digit_run(s, j) > 0 {
        let e = j + digit_run(s, j);
        assert(is_digit(s[e - 1]));
        lemma_after_ascii(s, e - 1);
    }
}

/// Skipping to the next `}` ends at a boundary.
proof fn lemma_skip_close(s: Seq<u8>, i: int)
    requires
        valid_utf8(s),
        0 <= i <= s.len(),
    ensures
        i <= skip_to_close(s, i) <= s.len(),
        at_char_boundary(s, skip_to_close(s, i)),
    decreases s.len() - i,
{
    if i < s.len() && s[i] != 125 {
        lemma_skip_close(s, i + 1);
    } else if i < s.len() {
        lemma_after_ascii(s, i);
    }
}

/// Skipping past a choice's `|}` ends at a boundary.
proof fn lemma_skip_choice(s: Seq<u8>, i: int)
    requires
        valid_utf8(s),
        0 <= i <= s.len(),
    ensures
        i <= skip_choice_close(s, i) <= s.len(),
        at_char_boundary(s, skip_choice_close(s, i)),
    decreases s.len() - i,
{
    if i < s.len() {
        if s[i] == 124 && i + 1 < s.len() && s[i + 1] == 125 {
            lemma_after_ascii(s, i + 1);
        } else {
            lemma_skip_choice(s, i + 1);
        }
    }
}

/// The first choice read from a boundary is valid UTF-8 and ends at a
/// boundary.
proof fn lemma_choice_valid(s: Seq<u8>, i: int, acc: Seq<u8>)
    requires
        valid_utf8(s),
        0 <= i <= s.len(),
        at_char_boundary(s, i),
        valid_utf8(acc),
    ensures
        valid_utf8(choice_first(s, i, acc).0),
        i <= choice_first(s, i, acc).1 <= s.len(),
        at_char_boundary(s, choice_first(s, i, acc).1),
    decreases s.len() - i,
{
    if 0 <= i < s.len() && s[i] != 44 && s[i] != 124 {
        if s[i] == 92 && i + 1 < s.len() {
            lemma_after_ascii(s, i);
            lemma_char_piece(s, i + 1);
            let e = char_end(s, i + 1);
            vstd::utf8::valid_utf8_concat(acc, s.subrange(i + 1, e));
            lemma_choice_valid(s, e, acc + s.subrange(i + 1, e));
        } else {
            lemma_char_piece(s, i);
            let e = char_end(s, i);
            vstd::utf8::valid_utf8_concat(acc, s.subrange(i, e));
            lemma_choice_valid(s, e, acc + s.subrange(i, e));
        }
    }
}

/// The interior of a `${...}` form read from valid UTF-8 gives a valid
/// default text and ends at a boundary.
proof fn lemma_braced_valid(s: Seq<u8>)
    requires
        valid_utf8(s),
    ensures
        valid_utf8(braced(s).1),
        braced(s).2 <= s.len(),
        at_char_boundary(s, braced(s).2 as int),
    decreases s.len(), s.len() + 1,
{
    let i = digit_run(s, 0) as int;
    lemma_digits_boundary(s, 0);
    assert(valid_utf8(Seq::<u8>::empty()));
    if i >= s.len() {
    } else if s[i] == 125 {
        lemma_after_ascii(s, i);
    } else if s[i] == 58 {
        lemma_after_ascii(s, i);
        lemma_default_valid(s, i + 1, 1, seq![]);
    } else if s[i] == 124 {
        lemma_after_ascii(s, i);
        lemma_choice_valid(s, i + 1, seq![]);
        lemma_skip_choice(s, choice_first(s, i + 1, seq![]).1);
    } else {
        lemma_skip_close(s, i);
    }
}

/// A default text read from a boundary is valid UTF-8 and ends at a
/// boundary.
proof fn lemma_default_valid(s: Seq<u8>, i: int, depth: int, acc: Seq<u8>)
    requires
        valid_utf8(s),
        0 <= i <= s.len(),
        at_char_boundary(s, i),
        valid_utf8(acc),
    ensures
        valid_utf8(default_loop(s, i, depth, acc).0),
        i <= default_loop(s, i, depth, acc).1 <= s.len(),
        at_char_boundary(s, default_loop(s, i, depth, acc).1),
    decreases s.len(), left(s, i),
{
    if !(0 <= i < s.len() && depth > 0) {
    } else if s[i] == 92 && i + 1 < s.len() && is_escapable(s[i + 1]) {
        lemma_after_ascii(s, i);
        lemma_after_ascii(s, i + 1);
        lemma_ascii_push(acc, s[i + 1]);
        lemma_default_valid(s, i + 2, depth, acc.push(s[i + 1]));
    } else if s[i] == 125 && depth == 1 {
        lemma_after_ascii(s, i);
    } else {
        let d2 = if s[i] == 123 {
            depth + 1
        } else if s[i] == 125 {
            depth - 1
        } else {
            depth
        };
        if s[i] == 36 && i + 1 < s.len() {
            lemma_after_ascii(s, i);
            if s[i + 1] == 123 {
                lemma_after_ascii(s, i + 1);
                let sub = s.subrange(i + 2, s.len() as int);
                lemma_suffix_valid(s, i + 2);
                lemma_braced_valid(sub);
                let inner = braced(sub);
                lemma_boundary_shift(s, i + 2, inner.2 as int);
                vstd::utf8::valid_utf8_concat(acc, inner.1);
                lemma_default_valid(s, i + 2 + inner.2, d2, acc + inner.1);
            } else if is_digit(s[i + 1]) {
                lemma_digits_boundary(s, i + 1);
                lemma_default_valid(s, i + 1 + digit_run(s, i + 1), d2, acc);
            } else {
                lemma_ascii_push(acc, 36);
                lemma_default_valid(s, i + 1, d2, acc.push(36));
            }
        } else {
            lemma_char_piece(s, i);
            let e = char_end(s, i);
            vstd::utf8::valid_utf8_concat(acc, s.subrange(i, e));
            lemma_default_valid(s, e, d2, acc + s.subrange(i, e));
        }
    }
}

/// Scanning valid UTF-8 from a boundary gives valid UTF-8.
proof fn lemma_scan_valid(b: Seq<u8>, i: int, text: Seq<u8>, stops: Seq<Tabstop>)
    requires
        valid_utf8(b),
        0 <= i <= b.len(),
        at_char_boundary(b, i),
        valid_utf8(text),
    ensures
        valid_utf8(scan(b, i, text, stops).0),
    decreases left(b, i),
{
    if !(0 <= i < b.len()) {
    } else if b[i] == 92 && i + 1 < b.len() && is_escapable(b[i + 1]) {
        lemma_after_ascii(b, i);
        lemma_after_ascii(b, i + 1);
        lemma_ascii_push(text, b[i + 1]);
        lemma_scan_valid(b, i + 2, text.push(b[i + 1]), stops);
    } else if b[i] == 36 {
        lemma_after_ascii(b, i);
        if i + 1 >= b.len() {
            lemma_ascii_push(text, 36);
            lemma_scan_valid(b, i + 1, text.push(36), stops);
        } else if b[i + 1] == 123 {
            lemma_after_ascii(b, i + 1);
            let sub = b.subrange(i + 2, b.len() as int);
            lemma_suffix_valid(b, i + 2);
            lemma_braced_valid(sub);
            let inner = braced(sub);
            lemma_boundary_shift(b, i + 2, inner.2 as int);
            vstd::utf8::valid_utf8_concat(text, inner.1);
            let t2 = text + inner.1;
            lemma_scan_valid(
                b,
                i + 2 + inner.2,
                t2,
                stops.push(Tabstop { index: inner.0, start: text.len() as usize, end: t2.len() as usize }),
            );
        } else if is_digit(b[i + 1]) {
            lemma_digits_boundary(b, i + 1);
            let e = i + 1 + digit_run(b, i + 1);
            lemma_scan_valid(
                b,
                e,
                text,
                stops.push(
                    Tabstop {
                        index: tabstop_index(b, i + 1, e),
                        start: text.len() as usize,
                        end: text.len() as usize,
                    },
                ),
            );
        } else {
            lemma_ascii_push(text, 36);
            lemma_scan_valid(b, i + 1, text.push(36), stops);
        }
    } else {
        lemma_char_piece(b, i);
        let e = char_end(b, i);
        vstd::utf8::valid_utf8_concat(text, b.subrange(i, e));
        lemma_scan_valid(b, e, text + b.subrange(i, e), stops);
    }
}

/// Tabstops whose ranges lie inside a text of `total` bytes, with starts in
/// nondecreasing order.
pub open spec fn stops_fit(total: int, stops: Seq<Tabstop>) -> bool {
    &&& forall|m: int| 0 <= m < stops.len() ==> #[trigger] stops[m].start <= stops[m].end <= total
    &&& forall|m: int, n: int| 0 <= m <= n < stops.len() ==> stops[m].start <= stops[n].start
}

/// Scanning only extends the text.
proof fn lemma_scan_grows(b: Seq<u8>, i: int, text: Seq<u8>, stops: Seq<Tabstop>)
    ensures
        text.len() <= scan(b, i, text, stops).0.len(),
    decreases left(b, i),
{
    if !(0 <= i < b.len()) {
    } else if b[i] == 92 && i + 1 < b.len() && is_escapable(b[i + 1]) {
        lemma_scan_grows(b, i + 2, text.push(b[i + 1]), stops);
    } else if b[i] == 36 {
        if i + 1 >= b.len() {
            lemma_scan_grows(b, i + 1, text.push(36), stops);
        } else if b[i + 1] == 123 {
            let inner = braced(b.subrange(i + 2, b.len() as int));
            let t2 = text + inner.1;
            let st = stops.push(Tabstop { index: inner.0, start: text.len() as usize, end: t2.len() as usize });
            lemma_scan_grows(b, i + 2 + inner.2, t2, st);
        } else if is_digit(b[i + 1]) {
            let e = i + 1 + digit_run(b, i + 1);
            let st = stops.push(
                Tabstop { index: tabstop_index(b, i + 1, e), start: text.len() as usize, end: text.len() as usize },
            );
            lemma_scan_grows(b, e, text, st);
        } else {
            lemma_scan_grows(b, i + 1, text.push(36), stops);
        }
    } else {
        lemma_scan_grows(b, char_end(b, i), text + b.subrange(i, char_end(b, i)), stops);
    }
}

/// Tabstops inside a text stay inside a longer one.
proof fn lemma_stops_fit_longer(total: int, more: int, stops: Seq<Tabstop>)
    requires
        stops_fit(total, stops),
        total <= more,
    ensures
        stops_fit(more, stops),
{
}

/// Scanning keeps tabstops inside the text and in order.
#[verifier::spinoff_prover]
proof fn lemma_scan_fits(b: Seq<u8>, i: int, text: Seq<u8>, stops: Seq<Tabstop>)
    requires
        stops_fit(text.len() as int, stops),
        scan(b, i, text, stops).0.len() <= usize::MAX,
    ensures
        stops_fit(scan(b, i, text, stops).0.len() as int, scan(b, i, text, stops).1),
    decreases left(b, i),
{
    if !(0 <= i < b.len()) {
    } else if b[i] == 92 && i + 1 < b.len() && is_escapable(b[i + 1]) {
        lemma_stops_fit_longer(text.len() as int, text.len() + 1int, stops);
        lemma_scan_fits(b, i + 2, text.push(b[i + 1]), stops);
    } else if b[i] == 36 {
        if i + 1 >= b.len() {
            lemma_stops_fit_longer(text.len() as int, text.len() + 1int, stops);
            lemma_scan_fits(b, i + 1, text.push(36), stops);
        } else if b[i + 1] == 123 {
            let inner = braced(b.subrange(i + 2, b.len() as int));
            let t2 = text + inner.1;
            let st = stops.push(Tabstop { index: inner.0, start: text.len() as usize, end: t2.len() as usize });
            lemma_scan_grows(b, i + 2 + inner.2, t2, st);
            lemma_scan_fits(b, i + 2 + inner.2, t2, st);
        } else if is_digit(b[i + 1]) {
            let e = i + 1 + digit_run(b, i + 1);
            let st = stops.push(
                Tabstop { index: tabstop_index(b, i + 1, e), start: text.len() as usize, end: text.len() as usize },
            );
            lemma_scan_grows(b, e, text, st);
            lemma_scan_fits(b, e, text, st);
        } else {
            lemma_stops_fit_longer(text.len() as int, text.len() + 1int, stops);
            lemma_scan_fits(b, i + 1, text.push(36), stops);
        }
    } else {
        let e = char_end(b, i);
        lemma_stops_fit_longer(text.len() as int, (text + b.subrange(i, e)).len() as int, stops);
        lemma_scan_fits(b, e, text + b.subrange(i, e), stops);
    }
}

proof fn lemma_filter_none(s: Seq<Tabstop>, p: spec_fn(Tabstop) -> bool)
    requires
        forall|i: int| 0 <= i < s.len() ==> !p(#[trigger] s[i]),
    ensures
        s.filter(p) == Seq::<Tabstop>::empty(),
    decreases s.len(),
{
    reveal(Seq::filter);
    if s.len() > 0 {
        lemma_filter_none(s.drop_last(), p);
    }
}

proof fn lemma_filter_single(t: Tabstop, p: spec_fn(Tabstop) -> bool)
    ensures
        seq![t].filter(p) == (if p(t) { seq![t] } else { Seq::<Tabstop>::empty() }),
{
    reveal_with_fuel(Seq::filter, 2);
    assert(seq![t].drop_last() =~= Seq::<Tabstop>::empty());
}

/// Every tabstop starts and ends on a character boundary of `t`.
pub open spec fn stops_on_boundaries(t: Seq<u8>, stops: Seq<Tabstop>) -> bool {
    forall|m: int|
        0 <= m < stops.len() ==> at_char_boundary(t, #[trigger] stops[m].start as int) && at_char_boundary(
            t,
            stops[m].end as int,
        )
}

/// A character boundary of `t` stays one when valid UTF-8 follows it.
proof fn lemma_append_keeps_boundary(t: Seq<u8>, p: Seq<u8>, k: int)
    requires
        valid_utf8(p),
        at_char_boundary(t, k),
    ensures
        at_char_boundary(t + p, k),
{
    if 0 < k < t.len() {
        assert((t + p)[k] == t[k]);
    } else if k == t.len() && p.len() > 0 {
        assert((t + p)[k] == p[0]);
    }
}

/// Tabstops on character boundaries of `t` stay on boundaries when valid
/// UTF-8 is appended.
proof fn lemma_append_keeps_boundaries(t: Seq<u8>, p: Seq<u8>, stops: Seq<Tabstop>)
    requires
        valid_utf8(p),
        stops_on_boundaries(t, stops),
    ensures
        stops_on_boundaries(t + p, stops),
{
    assert forall|m: int| 0 <= m < stops.len() implies at_char_boundary(t + p, #[trigger] stops[m].start as int)
        && at_char_boundary(t + p, stops[m].end as int) by {
        lemma_append_keeps_boundary(t, p, stops[m].start as int);
        lemma_append_keeps_boundary(t, p, stops[m].end as int);
    }
}

/// An ASCII byte is valid UTF-8 on its own.
proof fn lemma_ascii_valid(c: u8)
    requires
        c < 0x80,
    ensures
        valid_utf8(seq![c]),
{
    lemma_ascii_push(Seq::<u8>::empty(), c);
    assert(Seq::<u8>::empty().push(c) =~= seq![c]);
}

/// Scanning valid UTF-8 from a boundary puts every tabstop on a character
/// boundary of the text.
#[verifier::spinoff_prover]
#[verifier::rlimit(40)]
proof fn lemma_scan_boundaries(b: Seq<u8>, i: int, text: Seq<u8>, stops: Seq<Tabstop>)
    requires
        valid_utf8(b),
        0 <= i <= b.len(),
        at_char_boundary(b, i),
        valid_utf8(text),
        stops_on_boundaries(text, stops),
        scan(b, i, text, stops).0.len() <= usize::MAX,
    ensures
        stops_on_boundaries(scan(b, i, text, stops).0, scan(b, i, text, stops).1),
    decreases left(b, i),
{
    if !(0 <= i < b.len()) {
    } else if b[i] == 92 && i + 1 < b.len() && is_escapable(b[i + 1]) {
        lemma_after_ascii(b, i);
        lemma_after_ascii(b, i + 1);
        lemma_ascii_push(text, b[i + 1]);
        lemma_ascii_valid(b[i + 1]);
        lemma_append_keeps_boundaries(text, seq![b[i + 1]], stops);
        assert(text + seq![b[i + 1]] =~= text.push(b[i + 1]));
        lemma_scan_boundaries(b, i + 2, text.push(b[i + 1]), stops);
    } else if b[i] == 36 {
        lemma_after_ascii(b, i);
        if i + 1 >= b.len() {
            lemma_ascii_push(text, 36);
            lemma_ascii_valid(36);
            lemma_append_keeps_boundaries(text, seq![36u8], stops);
            assert(text + seq![36u8] =~= text.push(36));
            lemma_scan_boundaries(b, i + 1, text.push(36), stops);
        } else if b[i + 1] == 123 {
            lemma_after_ascii(b, i + 1);
            let sub = b.subrange(i + 2, b.len() as int);
            lemma_suffix_valid(b, i + 2);
            lemma_braced_valid(sub);
            let inner = braced(sub);
            lemma_boundary_shift(b, i + 2, inner.2 as int);
            vstd::utf8::valid_utf8_concat(text, inner.1);
            let t2 = text + inner.1;
            let t = Tabstop { index: inner.0, start: text.len() as usize, end: t2.len() as usize };
            let st = stops.push(t);
            lemma_scan_grows(b, i + 2 + inner.2, t2, st);
            lemma_append_keeps_boundaries(text, inner.1, stops);
            lemma_append_keeps_boundary(text, inner.1, text.len() as int);
            assert(stops_on_boundaries(t2, st)) by {
                assert forall|m: int| 0 <= m < st.len() implies at_char_boundary(t2, #[trigger] st[m].start as int)
                    && at_char_boundary(t2, st[m].end as int) by {
                    if m < stops.len() {
                        assert(st[m] == stops[m]);
                    }
                }
            }
            lemma_scan_boundaries(b, i + 2 + inner.2, t2, st);
        } else if is_digit(b[i + 1]) {
            lemma_digits_boundary(b, i + 1);
            let e = i + 1 + digit_run(b, i + 1);
            let t = Tabstop { index: tabstop_index(b, i + 1, e), start: text.len() as usize, end: text.len() as usize };
            let st = stops.push(t);
            lemma_scan_grows(b, e, text, st);
            assert(stops_on_boundaries(text, st)) by {
                assert forall|m: int| 0 <= m < st.len() implies at_char_boundary(text, #[trigger] st[m].start as int)
                    && at_char_boundary(text, st[m].end as int) by {
                    if m < stops.len() {
                        assert(st[m] == stops[m]);
                    }
                }
            }
            lemma_scan_boundaries(b, e, text, st);
        } else {
            lemma_ascii_push(text, 36);
            lemma_ascii_valid(36);
            lemma_append_keeps_boundaries(text, seq![36u8], stops);
            assert(text + seq![36u8] =~= text.push(36));
            lemma_scan_boundaries(b, i + 1, text.push(36), stops);
        }
    } else {
        lemma_char_piece(b, i);
        let e = char_end(b, i);
        vstd::utf8::valid_utf8_concat(text, b.subrange(i, e));
        lemma_append_keeps_boundaries(text, b.subrange(i, e), stops);
        lemma_scan_boundaries(b, e, text + b.subrange(i, e), stops);
    }
}

/// Order key of a tabstop: `$1..$N` by number, `$0` last.
fn order_key(t: &Tabstop) -> (k: u32)
    ensures
        k == sort_key(*t),
{
    if t.index == 0 {
        u32::MAX
    } else {
        t.index
    }
}

/// Stable insertion sort of tabstops by `sort_key`.
#[verifier::spinoff_prover]
#[verifier::rlimit(40)]
fn sort_tabstops(raw: &Vec<Tabstop>, Ghost(total): Ghost<int>, Ghost(text): Ghost<Seq<u8>>) -> (out: Vec<Tabstop>)
    requires
        forall|m: int| 0 <= m < raw.len() ==> #[trigger] raw[m].start <= raw[m].end <= total,
        forall|m: int, n: int| 0 <= m <= n < raw.len() ==> raw[m].start <= raw[n].start,
        stops_on_boundaries(text, raw@),
    ensures
        is_stable_sort(out@, raw@),
        forall|m: int| 0 <= m < out.len() ==> #[trigger] out[m].start <= out[m].end <= total,
        stops_on_boundaries(text, out@),
        forall|m: int, n: int|
            0 <= m <= n < out.len() && sort_key(out[m]) == sort_key(out[n]) ==> out[m].start
                <= out[n].start,
{
    let mut out: Vec<Tabstop> = Vec::new();
    let mut i: usize = 0;
    while i < raw.len()
        invariant
            i <= raw.len(),
            forall|m: int| 0 <= m < raw.len() ==> #[trigger] raw[m].start <= raw[m].end <= total,
            forall|m: int, n: int| 0 <= m <= n < raw.len() ==> raw[m].start <= raw[n].start,
            forall|m: int| 0 <= m < out.len() ==> #[trigger] out[m].start <= out[m].end <= total,
            stops_on_boundaries(text, raw@),
            stops_on_boundaries(text, out@),
            forall|m: int, j: int|
                0 <= m < out.len() && i <= j < raw.len() ==> out[m].start <= raw[j].start,
            forall|m: int, n: int|
                0 <= m <= n < out.len() ==> sort_key(out[m]) <= sort_key(out[n]) && (sort_key(
                    out[m],
                ) == sort_key(out[n]) ==> out[m].start <= out[n].start),
            forall|k: u32|
                #[trigger] out@.filter(has_key(k)) == raw@.subrange(0, i as int).filter(
                    has_key(k),
                ),
        decreases raw.len() - i,
    {
        let t = raw[i];
        let kt = order_key(&t);
        let mut pos = out.len();
        while pos > 0 && order_key(&out[pos - 1]) > kt
            invariant
                pos <= out.len(),
                kt == sort_key(t),
                forall|q: int| pos <= q < out.len() ==> sort_key(#[trigger] out[q]) > kt,
            decreases pos,
        {
            pos = pos - 1;
        }
        let ghost old_out = out@;
        out.insert(pos, t);
        proof {
            let a = old_out.subrange(0, pos as int);
            let c = old_out.subrange(pos as int, old_out.len() as int);
            assert(out@ =~= a + seq![t] + c);
            assert(old_out =~= a + c);
            let r0 = raw@.subrange(0, i as int);
            assert(raw@.subrange(0, i + 1) =~= r0 + seq![t]);
            assert forall|k: u32| #[trigger] out@.filter(has_key(k)) == raw@.subrange(
                0,
                i + 1,
            ).filter(has_key(k)) by {
                let p = has_key(k);
                Seq::filter_distributes_over_add(a + seq![t], c, p);
                Seq::filter_distributes_over_add(a, seq![t], p);
                Seq::filter_distributes_over_add(a, c, p);
                Seq::filter_distributes_over_add(r0, seq![t], p);
                lemma_filter_single(t, p);
                if sort_key(t) == k {
                    assert forall|q: int| 0 <= q < c.len() implies !p(#[trigger] c[q]) by {
                        assert(c[q] == old_out[pos + q]);
                    }
                    lemma_filter_none(c, p);
                }
            }
            assert forall|m: int, n: int| 0 <= m <= n < out.len() implies sort_key(out[m])
                <= sort_key(out[n]) && (sort_key(out[m]) == sort_key(out[n]) ==> out[m].start
                <= out[n].start) by {
                if m < pos && n > pos {
                    assert(out[m] == old_out[m]);
                    assert(out[n] == old_out[n - 1]);
                } else if m < pos && n == pos {
                    assert(out[m] == old_out[m]);
                    if pos > 0 {
                        assert(old_out[m] == out[m]);
                    }
                } else if m == pos && n > pos {
                    assert(out[n] == old_out[n - 1]);
                } else if m > pos {
                    assert(out[m] == old_out[m - 1]);
                    assert(out[n] == old_out[n - 1]);
                }
            }
            assert forall|m: int| 0 <= m < out.len() implies #[trigger] out[m].start
                <= out[m].end <= total by {
                if m < pos {
                    assert(out[m] == old_out[m]);
                } else if m > pos {
                    assert(out[m] == old_out[m - 1]);
                }
            }
            assert(raw@[i as int] == t);
            assert forall|m: int| 0 <= m < out.len() implies at_char_boundary(text, #[trigger] out@[m].start as int)
                && at_char_boundary(text, out@[m].end as int) by {
                if m < pos {
                    assert(out@[m] == old_out[m]);
                } else if m > pos {
                    assert(out@[m] == old_out[m - 1]);
                }
            }
            assert forall|m: int, j: int|
                0 <= m < out.len() && i + 1 <= j < raw.len() implies out[m].start
                <= raw[j].start by {
                if m < pos {
                    assert(out[m] == old_out[m]);
                } else if m > pos {
                    assert(out[m] == old_out[m - 1]);
                }
            }
        }
        i = i + 1;
    }
    assert(raw@.subrange(0, raw.len() as int) =~= raw@);
    out
}


/// Expands an LSP snippet body into plain text and tabstop positions.
pub fn expand(snippet: &str) -> (r: ExpandedSnippet)
    ensures
        encode_utf8(r.text@) == expanded_text(encode_utf8(snippet@)),
        is_stable_sort(r.tabstops@, raw_tabstops(encode_utf8(snippet@))),
        forall|m: int|
            0 <= m < r.tabstops.len() ==> #[trigger] r.tabstops[m].start <= r.tabstops[m].end
                <= encode_utf8(r.text@).len(),
        stops_on_boundaries(encode_utf8(r.text@), r.tabstops@),
        forall|m: int, n: int|
            0 <= m <= n < r.tabstops.len() && sort_key(r.tabstops[m]) == sort_key(r.tabstops[n])
                ==> r.tabstops[m].start <= r.tabstops[n].start,
{
    let bytes = snippet.as_bytes();
    let ghost b = bytes@;
    let len = bytes.len();
    let mut text: Vec<u8> = Vec::new();
    let mut raw: Vec<Tabstop> = Vec::new();
    let mut i: usize = 0;
    while i < len
        invariant
            b == bytes@,
            b == encode_utf8(snippet@),
            len == b.len(),
            i <= len,
            scan(b, i as int, text@, raw@) == scan(b, 0, seq![], seq![]),
        decreases len - i,
    {
        if bytes[i] == 92 && i + 1 < len {
            let next = bytes[i + 1];
            if next == 36 || next == 92 || next == 125 || next == 123 {
                text.push(next);
                i = i + 2;
                continue;
            }
        }
        if bytes[i] == 36 {
            i = i + 1;
            if i >= len {
                text.push(36);
            } else if bytes[i] == 123 {
                i = i + 1;
                let sub = vstd::slice::slice_subrange(bytes, i, len);
                let (index, default_text, consumed) = braced_bytes(sub);
                let start = text.len();
                push_all(&mut text, default_text.as_slice());
                let end = text.len();
                raw.push(Tabstop { index, start, end });
                i = i + consumed;
            } else if 48 <= bytes[i] && bytes[i] <= 57 {
                let start_idx = i;
                i = digits_end(bytes, i);
                proof {
                    lemma_digit_run_bound(b, start_idx as int);
                }
                let index = parse_index(bytes, start_idx, i);
                let pos = text.len();
                raw.push(Tabstop { index, start: pos, end: pos });
            } else {
                text.push(36);
            }
        } else {
            let e = char_end_at(bytes, i);
            push_range(&mut text, bytes, i, e);
            i = e;
        }
    }
    let total = text.len();
    proof {
        assert(scan(b, i as int, text@, raw@) == (text@, raw@));
        lemma_scan_fits(b, 0, seq![], seq![]);
        assert(valid_utf8(Seq::<u8>::empty()));
        vstd::utf8::encode_utf8_valid_utf8(snippet@);
        lemma_scan_valid(b, 0, seq![], seq![]);
        lemma_scan_boundaries(b, 0, seq![], seq![]);
        assert(stops_fit(total as int, raw@));
        assert forall|m: int| 0 <= m < raw.len() implies #[trigger] raw[m].start <= raw[m].end <= total by {
            assert(raw@[m].start <= raw@[m].end <= total);
        }
    }
    let tabstops = sort_tabstops(&raw, Ghost(total as int), Ghost(text@));
    ExpandedSnippet { text: string_from_utf8(text), tabstops }
}

proof fn lemma_plain_scan(b: Seq<u8>, i: int, text: Seq<u8>)
    requires
        0 <= i <= b.len(),
        forall|k: int| 0 <= k < b.len() ==> b[k] != 36 && b[k] != 92,
    ensures
        scan(b, i, text, seq![]) == (text + b.subrange(i, b.len() as int), Seq::<Tabstop>::empty()),
    decreases b.len() - i,
{
    if i < b.len() {
        let e = char_end(b, i);
        lemma_plain_scan(b, e, text + b.subrange(i, e));
        assert(text + b.subrange(i, e) + b.subrange(e, b.len() as int) =~= text + b.subrange(
            i,
            b.len() as int,
        ));
    } else {
        assert(text + b.subrange(i, b.len() as int) =~= text);
    }
}

/// A snippet without `$` or `\` expands to itself and has no tabstops.
pub proof fn lemma_plain_text_unchanged(b: Seq<u8>)
    requires
        forall|k: int| 0 <= k < b.len() ==> b[k] != 36 && b[k] != 92,
    ensures
        expanded_text(b) == b,
        raw_tabstops(b) == Seq::<Tabstop>::empty(),
{
    lemma_plain_scan(b, 0, seq![]);
    assert(b.subrange(0, b.len() as int) =~= b);
    assert(Seq::<u8>::empty() + b =~= b);
}

/// The text of a snippet without `$` or `\` is the snippet itself, character
/// for character.
pub proof fn lemma_plain_snippet_unchanged(snippet: Seq<char>)
    requires
        forall|k: int| 0 <= k < snippet.len() ==> snippet[k] != '$' && snippet[k] != '\\',
    ensures
        vstd::utf8::decode_utf8(expanded_text(encode_utf8(snippet))) == snippet,
        raw_tabstops(encode_utf8(snippet)) == Seq::<Tabstop>::empty(),
{
    let b = encode_utf8(snippet);
    lemma_encode_no_syntax(snippet);
    lemma_plain_text_unchanged(b);
    vstd::utf8::encode_utf8_decode_utf8(snippet);
}

/// The UTF-8 bytes of a text without `$` or `\` hold neither byte.
proof fn lemma_encode_no_syntax(snippet: Seq<char>)
    requires
        forall|k: int| 0 <= k < snippet.len() ==> snippet[k] != '$' && snippet[k] != '\\',
    ensures
        forall|k: int|
            0 <= k < encode_utf8(snippet).len() ==> encode_utf8(snippet)[k] != 36 && encode_utf8(
                snippet,
            )[k] != 92,
    decreases snippet.len(),
{
    if snippet.len() > 0 {
        let rest = snippet.drop_first();
        lemma_encode_no_syntax(rest);
        let c = snippet[0] as u32;
        vstd::utf8::char_is_scalar(snippet[0]);
        vstd::utf8::char_u32_cast(snippet[0], c);
        assert('$' as u32 == 36u32);
        assert('\\' as u32 == 92u32);
        vstd::utf8::char_u32_cast('$', 36u32);
        vstd::utf8::char_u32_cast('\\', 92u32);
        assert(c != 36 && c != 92);
        let head = vstd::utf8::encode_scalar(c);
        assert(encode_utf8(snippet) == head + encode_utf8(rest));
        lemma_scalar_bytes(c);
        assert forall|k: int| 0 <= k < head.len() implies head[k] != 36 && head[k] != 92 by {
        }
    }
}

/// The bytes of a scalar's UTF-8 encoding: the value itself when it is
/// ASCII, bytes of `0x80` or more otherwise.
proof fn lemma_scalar_bytes(c: u32)
    ensures
        c <= 0x7f ==> vstd::utf8::leading_byte_width_1(c) as u32 == c,
        vstd::utf8::leading_byte_width_2(c) >= 0x80,
        vstd::utf8::leading_byte_width_3(c) >= 0x80,
        vstd::utf8::leading_byte_width_4(c) >= 0x80,
        vstd::utf8::last_continuation_byte(c) >= 0x80,
        vstd::utf8::second_last_continuation_byte(c) >= 0x80,
        vstd::utf8::third_last_continuation_byte(c) >= 0x80,
{
    assert(c <= 0x7f ==> ((c & 0x7F) as u8) as u32 == c) by (bit_vector);
    assert((0xC0u8 | ((c >> 6u32) & 0x1Fu32) as u8) >= 0x80u8) by (bit_vector);
    assert((0xE0u8 | ((c >> 12u32) & 0x0Fu32) as u8) >= 0x80u8) by (bit_vector);
    assert((0xF0u8 | ((c >> 18u32) & 0x7u32) as u8) >= 0x80u8) by (bit_vector);
    assert((0x80u8 | (c & 0x3Fu32) as u8) >= 0x80u8) by (bit_vector);
    assert((0x80u8 | ((c >> 6u32) & 0x3Fu32) as u8) >= 0x80u8) by (bit_vector);
    assert((0x80u8 | ((c >> 12u32) & 0x3Fu32) as u8) >= 0x80u8) by (bit_vector);
}

/// Tabstops moved `n` bytes later in the text.
pub open spec fn shifted_stops(stops: Seq<Tabstop>, n: int) -> Seq<Tabstop> {
    stops.map_values(
        |t: Tabstop| Tabstop { index: t.index, start: (t.start + n) as usize, end: (t.end + n) as usize },
    )
}

/// Scanning a plain ASCII prefix copies it byte for byte.
proof fn lemma_prefix_scan(p: Seq<u8>, s: Seq<u8>, i: int, text: Seq<u8>, stops: Seq<Tabstop>)
    requires
        0 <= i <= p.len(),
        forall|k: int| 0 <= k < p.len() ==> p[k] < 128 && p[k] != 36 && p[k] != 92,
    ensures
        scan(p + s, i, text, stops) == scan(p + s, p.len() as int, text + p.subrange(i, p.len() as int), stops),
    decreases p.len() - i,
{
    let b = p + s;
    if i < p.len() {
        assert(b[i] == p[i]);
        assert(char_end(b, i) == i + 1);
        assert(b.subrange(i, i + 1) =~= seq![p[i]]);
        lemma_prefix_scan(p, s, i + 1, text + b.subrange(i, i + 1), stops);
        assert(text + b.subrange(i, i + 1) + p.subrange(i + 1, p.len() as int) =~= text + p.subrange(
            i,
            p.len() as int,
        ));
    } else {
        assert(text + p.subrange(i, p.len() as int) =~= text);
    }
}

/// The run of digits at `j` of `s` is the run at `p.len() + j` of `p + s`.
proof fn lemma_digit_run_shift(p: Seq<u8>, s: Seq<u8>, j: int)
    requires
        0 <= j,
    ensures
        digit_run(p + s, p.len() + j) == digit_run(s, j),
    decreases left(s, j),
{
    if 0 <= j < s.len() && is_digit(s[j]) {
        assert((p + s)[p.len() + j] == s[j]);
        lemma_digit_run_shift(p, s, j + 1);
        assert(p.len() + j + 1 == p.len() + (j + 1));
    } else if j < s.len() {
        assert((p + s)[p.len() + j] == s[j]);
    }
}

/// Scanning `s` behind a prefix `p` that is already in the text gives the
/// same text behind `p` and the same tabstops moved by `p`'s length, when
/// the lengths fit in a `usize`.
#[verifier::spinoff_prover]
#[verifier::rlimit(40)]
proof fn lemma_shift_scan(p: Seq<u8>, s: Seq<u8>, i: int, text: Seq<u8>, stops: Seq<Tabstop>)
    requires
        0 <= i,
        scan(s, i, text, stops).0.len() + p.len() <= usize::MAX,
    ensures
        scan(p + s, p.len() + i, p + text, shifted_stops(stops, p.len() as int)) == (
            p + scan(s, i, text, stops).0,
            shifted_stops(scan(s, i, text, stops).1, p.len() as int),
        ),
    decreases left(s, i),
{
    let b = p + s;
    let n = p.len() as int;
    let j = n + i;
    if !(i < s.len()) {
    } else {
        assert(b[j] == s[i]);
        if i + 1 < s.len() {
            assert(b[j + 1] == s[i + 1]);
        }
        if s[i] == 92 && i + 1 < s.len() && is_escapable(s[i + 1]) {
            lemma_shift_scan(p, s, i + 2, text.push(s[i + 1]), stops);
            assert((p + text).push(s[i + 1]) =~= p + text.push(s[i + 1]));
            assert(j + 2 == n + (i + 2));
        } else if s[i] == 36 {
            if i + 1 >= s.len() {
                lemma_shift_scan(p, s, i + 1, text.push(36), stops);
                assert((p + text).push(36) =~= p + text.push(36));
                assert(j + 1 == n + (i + 1));
            } else if s[i + 1] == 123 {
                assert(b.subrange(j + 2, b.len() as int) =~= s.subrange(i + 2, s.len() as int));
                let inner = braced(s.subrange(i + 2, s.len() as int));
                let t2 = text + inner.1;
                let t = Tabstop { index: inner.0, start: text.len() as usize, end: t2.len() as usize };
                lemma_scan_grows(s, i + 2 + inner.2, t2, stops.push(t));
                lemma_shift_scan(p, s, i + 2 + inner.2, t2, stops.push(t));
                assert(p + text + inner.1 =~= p + t2);
                let tb = Tabstop {
                    index: inner.0,
                    start: (p + text).len() as usize,
                    end: (p + t2).len() as usize,
                };
                assert(shifted_stops(stops, n).push(tb) =~= shifted_stops(stops.push(t), n));
                assert(j + 2 + inner.2 == n + (i + 2 + inner.2));
            } else if is_digit(s[i + 1]) {
                lemma_digit_run_shift(p, s, i + 1);
                lemma_digit_run_bound(s, i + 1);
                assert(j + 1 == n + (i + 1));
                let e = i + 1 + digit_run(s, i + 1);
                assert(b.subrange(j + 1, n + e) =~= s.subrange(i + 1, e));
                let t = Tabstop {
                    index: tabstop_index(s, i + 1, e),
                    start: text.len() as usize,
                    end: text.len() as usize,
                };
                lemma_scan_grows(s, e, text, stops.push(t));
                lemma_shift_scan(p, s, e, text, stops.push(t));
                let tb = Tabstop {
                    index: tabstop_index(b, j + 1, n + e),
                    start: (p + text).len() as usize,
                    end: (p + text).len() as usize,
                };
                assert(shifted_stops(stops, n).push(tb) =~= shifted_stops(stops.push(t), n));
            } else {
                lemma_shift_scan(p, s, i + 1, text.push(36), stops);
                assert((p + text).push(36) =~= p + text.push(36));
                assert(j + 1 == n + (i + 1));
            }
        } else {
            let e = char_end(s, i);
            assert(char_end(b, j) == n + e);
            assert(b.subrange(j, n + e) =~= s.subrange(i, e));
            lemma_shift_scan(p, s, e, text + s.subrange(i, e), stops);
            assert(p + text + s.subrange(i, e) =~= p + (text + s.subrange(i, e)));
        }
    }
}

/// A plain ASCII prefix without `$` or `\` stays in front of the expanded
/// text as it is, and moves every tabstop later by its length (when the
/// lengths fit in a `usize`).
pub proof fn lemma_plain_prefix_shifts(p: Seq<u8>, s: Seq<u8>)
    requires
        forall|k: int| 0 <= k < p.len() ==> p[k] < 128 && p[k] != 36 && p[k] != 92,
        expanded_text(s).len() + p.len() <= usize::MAX,
    ensures
        expanded_text(p + s) == p + expanded_text(s),
        raw_tabstops(p + s) == shifted_stops(raw_tabstops(s), p.len() as int),
{
    lemma_prefix_scan(p, s, 0, seq![], seq![]);
    assert(Seq::<u8>::empty() + p.subrange(0, p.len() as int) =~= p);
    assert(shifted_stops(Seq::<Tabstop>::empty(), p.len() as int) =~= Seq::<Tabstop>::empty());
    assert(p + Seq::<u8>::empty() =~= p);
    lemma_shift_scan(p, s, 0, seq![], seq![]);
    assert(p.len() + 0 == p.len());
}


/// Tabstops ordered by `sort_key`.
pub open spec fn key_sorted(s: Seq<Tabstop>) -> bool {
    forall|i: int, j: int| 0 <= i <= j < s.len() ==> sort_key(s[i]) <= sort_key(s[j])
}

/// Two key-sorted tabstop lists that hold the same tabstops of each key, in
/// the same order, are equal: a stable sort has one result.
proof fn lemma_stable_sort_unique(a: Seq<Tabstop>, b: Seq<Tabstop>)
    requires
        key_sorted(a),
        key_sorted(b),
        forall|k: u32| #[trigger] a.filter(has_key(k)) == b.filter(has_key(k)),
    ensures
        a == b,
    decreases a.len() + b.len(),
{
    reveal(Seq::filter);
    if a.len() == 0 || b.len() == 0 {
        if a.len() > 0 {
            let k = sort_key(a.last());
            assert(a.filter(has_key(k)).len() > 0);
            assert(b.filter(has_key(k)) == b);
        } else if b.len() > 0 {
            let k = sort_key(b.last());
            assert(b.filter(has_key(k)).len() > 0);
            assert(a.filter(has_key(k)) == a);
        }
        assert(a =~= b);
    } else {
        let ka = sort_key(a.last());
        let kb = sort_key(b.last());
        if kb > ka {
            assert forall|i: int| 0 <= i < a.len() implies !has_key(kb)(#[trigger] a[i]) by {
                assert(sort_key(a[i]) <= sort_key(a[a.len() - 1]));
            }
            lemma_filter_none(a, has_key(kb));
            assert(b.filter(has_key(kb)).len() > 0);
        }
        if ka > kb {
            assert forall|i: int| 0 <= i < b.len() implies !has_key(ka)(#[trigger] b[i]) by {
                assert(sort_key(b[i]) <= sort_key(b[b.len() - 1]));
            }
            lemma_filter_none(b, has_key(ka));
            assert(a.filter(has_key(ka)).len() > 0);
        }
        assert(ka == kb);
        let a2 = a.drop_last();
        let b2 = b.drop_last();
        assert(a.filter(has_key(ka)) == a2.filter(has_key(ka)).push(a.last()));
        assert(b.filter(has_key(ka)) == b2.filter(has_key(ka)).push(b.last()));
        assert(a.filter(has_key(ka)).last() == a.last());
        assert(b.filter(has_key(ka)).last() == b.last());
        assert forall|k: u32| #[trigger] a2.filter(has_key(k)) == b2.filter(has_key(k)) by {
            assert(a.filter(has_key(k)) == b.filter(has_key(k)));
            if k == ka {
                assert(a2.filter(has_key(k)) =~= a.filter(has_key(k)).drop_last());
                assert(b2.filter(has_key(k)) =~= b.filter(has_key(k)).drop_last());
            }
        }
        lemma_stable_sort_unique(a2, b2);
        assert(a =~= a2.push(a.last()));
        assert(b =~= b2.push(b.last()));
    }
}

/// Shifting tabstops keeps their keys, so it commutes with taking the
/// tabstops of one key.
proof fn lemma_filter_shift(s: Seq<Tabstop>, n: int, k: u32)
    ensures
        shifted_stops(s, n).filter(has_key(k)) == shifted_stops(s.filter(has_key(k)), n),
    decreases s.len(),
{
    reveal(Seq::filter);
    if s.len() > 0 {
        lemma_filter_shift(s.drop_last(), n, k);
        assert(shifted_stops(s, n).drop_last() =~= shifted_stops(s.drop_last(), n));
        assert(shifted_stops(s.drop_last().filter(has_key(k)).push(s.last()), n) =~= shifted_stops(
            s.drop_last().filter(has_key(k)),
            n,
        ).push(shifted_stops(s, n).last()));
    } else {
        assert(shifted_stops(s, n) =~= s);
    }
}

/// The UTF-8 bytes of two texts one after the other are the bytes of each.
proof fn lemma_encode_concat(p: Seq<char>, s: Seq<char>)
    ensures
        encode_utf8(p + s) == encode_utf8(p) + encode_utf8(s),
    decreases p.len(),
{
    if p.len() > 0 {
        lemma_encode_concat(p.drop_first(), s);
        assert((p + s).drop_first() =~= p.drop_first() + s);
        assert((p + s)[0] == p[0]);
    } else {
        assert(p + s =~= s);
    }
}

/// A plain ASCII prefix without `$` or `\` stays in front of the expanded
/// text as it is, and moves every tabstop `expand` returns (sorted as
/// `expand` sorts them) later by its length, when the lengths fit in a
/// `usize`.
pub proof fn lemma_plain_prefix_expands(p: Seq<char>, s: Seq<char>, out_p: Seq<Tabstop>, out_s: Seq<Tabstop>)
    requires
        vstd::utf8::is_ascii_chars(p),
        forall|k: int| 0 <= k < p.len() ==> p[k] != '$' && p[k] != '\\',
        expanded_text(encode_utf8(s)).len() + p.len() <= usize::MAX,
        is_stable_sort(out_p, raw_tabstops(encode_utf8(p + s))),
        is_stable_sort(out_s, raw_tabstops(encode_utf8(s))),
    ensures
        expanded_text(encode_utf8(p + s)) == encode_utf8(p) + expanded_text(encode_utf8(s)),
        encode_utf8(p).len() == p.len(),
        out_p == shifted_stops(out_s, p.len() as int),
{
    let pb = encode_utf8(p);
    let sb = encode_utf8(s);
    vstd::utf8::is_ascii_chars_encode_utf8(p);
    vstd::utf8::is_ascii_chars_nat_bound(p);
    lemma_encode_no_syntax(p);
    assert forall|k: int| 0 <= k < pb.len() implies pb[k] < 128 && pb[k] != 36 && pb[k] != 92 by {
        assert(p[k] as u8 == pb[k]);
        assert((p[k] as nat) < 128);
    }
    lemma_encode_concat(p, s);
    lemma_plain_prefix_shifts(pb, sb);
    let n = p.len() as int;
    let sh = shifted_stops(out_s, n);
    assert forall|k: u32| #[trigger] sh.filter(has_key(k)) == out_p.filter(has_key(k)) by {
        lemma_filter_shift(out_s, n, k);
        lemma_filter_shift(raw_tabstops(sb), n, k);
        assert(out_s.filter(has_key(k)) == raw_tabstops(sb).filter(has_key(k)));
    }
    assert(key_sorted(sh)) by {
        assert forall|i: int, j: int| 0 <= i <= j < sh.len() implies sort_key(sh[i]) <= sort_key(sh[j]) by {
            assert(sort_key(out_s[i]) <= sort_key(out_s[j]));
        }
    }
    lemma_stable_sort_unique(out_p, sh);
}


/// Bytes that snippet syntax reads as plain text: ASCII other than `$`,
/// `\`, `{` and `}`.
pub open spec fn plain_ascii(x: Seq<u8>) -> bool {
    forall|k: int| 0 <= k < x.len() ==> #[trigger] x[k] < 128 && x[k] != 36 && x[k] != 92 && x[k] != 123
        && x[k] != 125
}

/// Every byte of `x` is an ASCII digit.
pub open spec fn all_digits(x: Seq<u8>) -> bool {
    forall|k: int| 0 <= k < x.len() ==> is_digit(#[trigger] x[k])
}

/// A default text reads plain bytes as they are.
proof fn lemma_default_plain(s: Seq<u8>, i: int, acc: Seq<u8>, a: Seq<u8>)
    requires
        0 <= i,
        i + a.len() <= s.len(),
        s.subrange(i, i + a.len()) == a,
        plain_ascii(a),
    ensures
        default_loop(s, i, 1, acc) == default_loop(s, i + a.len(), 1, acc + a),
    decreases a.len(),
{
    if a.len() > 0 {
        assert(s[i] == s.subrange(i, i + a.len())[0]);
        assert(s[i] == a[0]);
        assert(char_end(s, i) == i + 1);
        assert(s.subrange(i, i + 1) =~= seq![a[0]]);
        let a2 = a.drop_first();
        assert(s.subrange(i + 1, i + 1 + a2.len()) =~= a2);
        assert(plain_ascii(a2)) by {
            assert forall|k: int| 0 <= k < a2.len() implies #[trigger] a2[k] < 128 && a2[k] != 36 && a2[k]
                != 92 && a2[k] != 123 && a2[k] != 125 by {
                assert(a2[k] == a[k + 1]);
            }
        }
        lemma_default_plain(s, i + 1, acc + seq![a[0]], a2);
        assert(acc + seq![a[0]] + a2 =~= acc + a);
    } else {
        assert(acc + a =~= acc);
    }
}

/// The run of digits at `j` is exactly the digits `m` that stand there.
proof fn lemma_digit_run_exact(s: Seq<u8>, j: int, m: Seq<u8>)
    requires
        0 <= j,
        j + m.len() <= s.len(),
        s.subrange(j, j + m.len()) == m,
        all_digits(m),
        j + m.len() < s.len() ==> !is_digit(s[j + m.len()]),
    ensures
        digit_run(s, j) == m.len(),
    decreases m.len(),
{
    if m.len() > 0 {
        assert(s[j] == s.subrange(j, j + m.len())[0]);
        assert(is_digit(m[0]));
        let m2 = m.drop_first();
        assert(s.subrange(j + 1, j + 1 + m2.len()) =~= m2);
        assert(all_digits(m2)) by {
            assert forall|k: int| 0 <= k < m2.len() implies is_digit(#[trigger] m2[k]) by {
                assert(m2[k] == m[k + 1]);
            }
        }
        lemma_digit_run_exact(s, j + 1, m2);
    }
}

/// The interior `n:a$mb}` of a `${...}` form, with a plain default around a
/// nested `$m`, reads as the default text `a + b`, up to and including its
/// closing brace.
#[verifier::spinoff_prover]
#[verifier::rlimit(40)]
proof fn lemma_braced_nested(n: Seq<u8>, a: Seq<u8>, m: Seq<u8>, b: Seq<u8>)
    requires
        all_digits(n),
        plain_ascii(a),
        plain_ascii(b),
        all_digits(m),
        m.len() > 0,
        b.len() > 0 ==> !is_digit(b[0]),
    ensures
        ({
            let sub = n + seq![58u8] + a + seq![36u8] + m + b + seq![125u8];
            &&& braced(sub).1 == a + b
            &&& braced(sub).2 == sub.len()
            &&& braced(sub).0 == tabstop_index(n + seq![58u8], 0, n.len() as int)
        }),
{
    let sub = n + seq![58u8] + a + seq![36u8] + m + b + seq![125u8];
    let i = n.len() as int;
    let j = i + 1 + a.len();
    let k = j + 1 + m.len() + b.len();
    assert(sub.len() == k + 1);
    assert(sub.subrange(0, i) =~= n);
    assert(sub[i] == 58);
    lemma_digit_run_exact(sub, 0, n);
    assert(sub.subrange(0, i) =~= (n + seq![58u8]).subrange(0, i));
    assert(sub.subrange(i + 1, j) =~= a);
    lemma_default_plain(sub, i + 1, seq![], a);
    assert(Seq::<u8>::empty() + a =~= a);
    assert(sub[j] == 36);
    assert(sub.subrange(j + 1, j + 1 + m.len()) =~= m);
    assert(sub[j + 1] == m[0]);
    if b.len() > 0 {
        assert(sub[j + 1 + m.len()] == b[0]);
    } else {
        assert(sub[j + 1 + m.len()] == 125);
    }
    lemma_digit_run_exact(sub, j + 1, m);
    assert(sub.subrange(j + 1 + m.len(), k) =~= b);
    lemma_default_plain(sub, j + 1 + m.len(), a, b);
    assert(sub[k] == 125);
}

/// The interior `n:c}` of a `${...}` form with a plain default `c`, with any
/// bytes `rest` after it, reads as the default text `c`, up to and including
/// its closing brace.
proof fn lemma_braced_plain(n: Seq<u8>, c: Seq<u8>, rest: Seq<u8>)
    requires
        all_digits(n),
        plain_ascii(c),
    ensures
        ({
            let sub = n + seq![58u8] + c + seq![125u8] + rest;
            &&& braced(sub).1 == c
            &&& braced(sub).2 == n.len() + c.len() + 2
            &&& braced(sub).0 == tabstop_index(n + seq![58u8], 0, n.len() as int)
        }),
{
    let sub = n + seq![58u8] + c + seq![125u8] + rest;
    let i = n.len() as int;
    assert(sub.subrange(0, i) =~= n);
    assert(sub[i] == 58);
    lemma_digit_run_exact(sub, 0, n);
    assert(sub.subrange(0, i) =~= (n + seq![58u8]).subrange(0, i));
    assert(sub.subrange(i + 1, i + 1 + c.len()) =~= c);
    lemma_default_plain(sub, i + 1, seq![], c);
    assert(Seq::<u8>::empty() + c =~= c);
    assert(sub[i + 1 + c.len()] == 125);
}

/// The interior `n:a${m:c}b}` of a `${...}` form, with plain texts around a
/// nested `${m:c}`, reads as the default text `a + c + b`, up to and
/// including its closing brace.
#[verifier::spinoff_prover]
#[verifier::rlimit(40)]
proof fn lemma_braced_nested_default(n: Seq<u8>, a: Seq<u8>, m: Seq<u8>, c: Seq<u8>, b: Seq<u8>)
    requires
        all_digits(n),
        all_digits(m),
        plain_ascii(a),
        plain_ascii(c),
        plain_ascii(b),
    ensures
        ({
            let sub = n + seq![58u8] + a + seq![36u8, 123u8] + m + seq![58u8] + c + seq![125u8] + b + seq![125u8];
            &&& braced(sub).1 == a + c + b
            &&& braced(sub).2 == sub.len()
            &&& braced(sub).0 == tabstop_index(n + seq![58u8], 0, n.len() as int)
        }),
{
    let sub = n + seq![58u8] + a + seq![36u8, 123u8] + m + seq![58u8] + c + seq![125u8] + b + seq![125u8];
    let i = n.len() as int;
    let j = i + 1 + a.len();
    let inner_start = j + 2;
    let after = inner_start + m.len() + c.len() + 2;
    let k = after + b.len();
    assert(sub.len() == k + 1);
    assert(sub.subrange(0, i) =~= n);
    assert(sub[i] == 58);
    lemma_digit_run_exact(sub, 0, n);
    assert(sub.subrange(0, i) =~= (n + seq![58u8]).subrange(0, i));
    assert(sub.subrange(i + 1, j) =~= a);
    lemma_default_plain(sub, i + 1, seq![], a);
    assert(Seq::<u8>::empty() + a =~= a);
    assert(sub[j] == 36 && sub[j + 1] == 123);
    let tail = b + seq![125u8];
    lemma_braced_plain(m, c, tail);
    assert(sub.subrange(inner_start, sub.len() as int) =~= m + seq![58u8] + c + seq![125u8] + tail);
    assert(sub.subrange(after, k) =~= b);
    lemma_default_plain(sub, after, a + c, b);
    assert(sub[k] == 125);
}

/// A whole snippet `${...}` made of the interior `sub` expands to that
/// interior's default text, with one tabstop over all of it.
proof fn lemma_scan_braced_whole(sub: Seq<u8>)
    requires
        braced(sub).2 == sub.len(),
        braced(sub).1.len() <= usize::MAX,
    ensures
        ({
            let snippet = seq![36u8, 123u8] + sub;
            &&& expanded_text(snippet) == braced(sub).1
            &&& raw_tabstops(snippet) == seq![
                Tabstop { index: braced(sub).0, start: 0, end: braced(sub).1.len() as usize },
            ]
        }),
{
    let snippet = seq![36u8, 123u8] + sub;
    assert(snippet.subrange(2, snippet.len() as int) =~= sub);
    let inner = braced(sub);
    assert(Seq::<u8>::empty() + inner.1 =~= inner.1);
    assert(scan(snippet, 2int + inner.2, inner.1, seq![Tabstop { index: inner.0, start: 0, end: inner.1.len() as usize }])
        == (inner.1, seq![Tabstop { index: inner.0, start: 0, end: inner.1.len() as usize }]));
    assert(Seq::<Tabstop>::empty().push(Tabstop { index: inner.0, start: 0, end: inner.1.len() as usize })
        =~= seq![Tabstop { index: inner.0, start: 0, end: inner.1.len() as usize }]);
}

/// Plain bytes followed by plain bytes are plain.
proof fn lemma_plain_concat(a: Seq<u8>, b: Seq<u8>)
    requires
        plain_ascii(a),
        plain_ascii(b),
    ensures
        plain_ascii(a + b),
{
    assert forall|k: int| 0 <= k < (a + b).len() implies #[trigger] (a + b)[k] < 128 && (a + b)[k] != 36
        && (a + b)[k] != 92 && (a + b)[k] != 123 && (a + b)[k] != 125 by {
        if k < a.len() {
            assert((a + b)[k] == a[k]);
        } else {
            assert((a + b)[k] == b[k - a.len()]);
        }
    }
}

/// Inside a `${N:...}` default, a `$` followed by digits is a nested
/// tabstop and contributes nothing: `${N:a$Mb}` expands exactly as
/// `${N:ab}` does, to the text `a + b` with one tabstop `N` over all of it
/// (for plain ASCII `a` and `b`, `b` not starting with a digit).
#[verifier::spinoff_prover]
pub proof fn lemma_nested_tabstop_dropped(n: Seq<u8>, a: Seq<u8>, m: Seq<u8>, b: Seq<u8>)
    requires
        all_digits(n),
        plain_ascii(a),
        plain_ascii(b),
        all_digits(m),
        m.len() > 0,
        b.len() > 0 ==> !is_digit(b[0]),
        (a + b).len() <= usize::MAX,
    ensures
        ({
            let with = seq![36u8, 123u8] + n + seq![58u8] + a + seq![36u8] + m + b + seq![125u8];
            let without = seq![36u8, 123u8] + n + seq![58u8] + (a + b) + seq![125u8];
            &&& expanded_text(with) == a + b
            &&& expanded_text(without) == a + b
            &&& raw_tabstops(with) == raw_tabstops(without)
            &&& raw_tabstops(with).len() == 1
            &&& raw_tabstops(with)[0].start == 0
            &&& raw_tabstops(with)[0].end == (a + b).len()
        }),
{
    let sub1 = n + seq![58u8] + a + seq![36u8] + m + b + seq![125u8];
    let sub2 = n + seq![58u8] + (a + b) + seq![125u8];
    let with = seq![36u8, 123u8] + n + seq![58u8] + a + seq![36u8] + m + b + seq![125u8];
    let without = seq![36u8, 123u8] + n + seq![58u8] + (a + b) + seq![125u8];
    lemma_plain_concat(a, b);
    lemma_braced_nested(n, a, m, b);
    lemma_braced_plain(n, a + b, Seq::<u8>::empty());
    assert(sub2 + Seq::<u8>::empty() =~= sub2);
    assert(with =~= seq![36u8, 123u8] + sub1);
    assert(without =~= seq![36u8, 123u8] + sub2);
    lemma_scan_braced_whole(sub1);
    lemma_scan_braced_whole(sub2);
}


/// A nested `${M:c}` inside a `${N:...}` default contributes its own default
/// text and no tabstop: `${N:a${M:c}b}` expands to the text `a + c + b`
/// with one tabstop `N` over all of it (for plain ASCII `a`, `b`, `c`).
#[verifier::spinoff_prover]
pub proof fn lemma_nested_default_kept(n: Seq<u8>, a: Seq<u8>, m: Seq<u8>, c: Seq<u8>, b: Seq<u8>)
    requires
        all_digits(n),
        all_digits(m),
        plain_ascii(a),
        plain_ascii(c),
        plain_ascii(b),
        (a + c + b).len() <= usize::MAX,
    ensures
        ({
            let snippet = seq![36u8, 123u8] + n + seq![58u8] + a + seq![36u8, 123u8] + m + seq![58u8] + c
                + seq![125u8] + b + seq![125u8];
            &&& expanded_text(snippet) == a + c + b
            &&& raw_tabstops(snippet).len() == 1
            &&& raw_tabstops(snippet)[0].start == 0
            &&& raw_tabstops(snippet)[0].end == (a + c + b).len()
        }),
{
    let sub = n + seq![58u8] + a + seq![36u8, 123u8] + m + seq![58u8] + c + seq![125u8] + b + seq![125u8];
    let snippet = seq![36u8, 123u8] + n + seq![58u8] + a + seq![36u8, 123u8] + m + seq![58u8] + c
        + seq![125u8] + b + seq![125u8];
    lemma_braced_nested_default(n, a, m, c, b);
    assert(snippet =~= seq![36u8, 123u8] + sub);
    lemma_scan_braced_whole(sub);
}

} // verus!
