//! Searching the document's lines and replacing text, literally or with a
//! PCRE2 regular expression.
use vstd::prelude::*;
use vstd::string::StringExecFns;
use vstd::utf8::encode_utf8;
use crate::doc::{at_char_boundary, copy_range, is_boundary, push_all, sat_sub};

verus! {

broadcast use vstd::seq_lib::group_seq_properties;

#[verifier::external_type_specification]
#[verifier::external_body]
pub struct ExRegex(pcre2::bytes::Regex);

/// Why a search or replacement cannot be carried out.
#[derive(Debug)]
pub enum SearchError {
    /// The regular expression does not compile; the message says why.
    BadPattern(String),
    /// A column or match offset falls outside its line or inside a character.
    OutOfRange,
}

/// A compiled regular expression together with its source text.
pub struct Pattern {
    regex: pcre2::bytes::Regex,
    source: Ghost<Seq<char>>,
}

impl View for Pattern {
    type V = Seq<char>;

    closed spec fn view(&self) -> Seq<char> {
        self.source@
    }
}

/// The message of the error that PCRE2 reports when compiling `pattern`
/// with default options, or `None` when it compiles.
pub uninterp spec fn pcre2_compile_error(pattern: Seq<char>) -> Option<Seq<char>>;

/// The overall match `(start, end)` that PCRE2 finds for `pattern` in
/// `subject` searching from byte `start`, or `None` when there is none or the
/// search fails.
pub uninterp spec fn pcre2_match_at(pattern: Seq<char>, subject: Seq<u8>, start: int) -> Option<
    (usize, usize),
>;

/// The UTF-8 bytes of the lowercase form of the text whose bytes are `s`.
pub uninterp spec fn lowercase_bytes(s: Seq<u8>) -> Seq<u8>;

/// Compiles `pattern` with `pcre2::bytes::Regex::new`. Claims: it succeeds
/// exactly when `pcre2_compile_error` gives `None`, and otherwise fails with
/// that message (the `Display` text of the `pcre2::Error`).
#[verifier::external_body]
fn compile_pattern(pattern: &str) -> (r: Result<Pattern, String>)
    ensures
        r is Ok <==> pcre2_compile_error(pattern@) is None,
        r matches Ok(p) ==> p@ == pattern@,
        r matches Err(msg) ==> pcre2_compile_error(pattern@) == Some(msg@),
{
    match pcre2::bytes::Regex::new(pattern) {
        Ok(regex) => Ok(Pattern { regex, source: Ghost(pattern@) }),
        Err(e) => Err(e.to_string()),
    }
}

/// Searches `subject` from byte `start` with `Regex::captures_read_at` and
/// reads the overall match from the capture locations (`get(0)`); a failed
/// search counts as no match. Claims: the result is `pcre2_match_at` of the
/// pattern's source, and match offsets are byte indices into `subject` (the
/// crate documents them so). `captures_read_at` asserts `start <=
/// subject.len()`, hence the precondition.
#[verifier::external_body]
fn captures_read_at(pat: &Pattern, subject: &[u8], start: usize) -> (r: Option<(usize, usize)>)
    requires
        start <= subject@.len(),
    ensures
        r == pcre2_match_at(pat@, subject@, start as int),
        r matches Some((s, e)) ==> s <= subject@.len() && e <= subject@.len(),
{
    let mut locs = pat.regex.capture_locations();
    match pat.regex.captures_read_at(&mut locs, subject, start) {
        Ok(Some(_)) => locs.get(0),
        Ok(None) => None,
        Err(_) => None,
    }
}

/// Lowercases text with std's `str::to_lowercase` (the bytes are read as
/// UTF-8 with `String::from_utf8_lossy`). Claims: the result is
/// `lowercase_bytes` of the input.
#[verifier::external_body]
fn to_lowercase_bytes(s: &[u8]) -> (r: Vec<u8>)
    ensures
        r@ == lowercase_bytes(s@),
{
    String::from_utf8_lossy(s).to_lowercase().into_bytes()
}

/// `old` occurs in `t` at byte `p`.
pub open spec fn matches_at(t: Seq<u8>, old: Seq<u8>, p: int) -> bool {
    0 <= p && p + old.len() <= t.len() && t.subrange(p, p + old.len() as int) == old
}

/// The first occurrence of `old` in `t` at or after byte `from`.
pub open spec fn first_match(t: Seq<u8>, old: Seq<u8>, from: int) -> Option<int>
    decreases t.len() + 1 - from,
{
    if from < 0 || from + old.len() > t.len() {
        None
    } else if matches_at(t, old, from) {
        Some(from)
    } else {
        first_match(t, old, from + 1)
    }
}

/// The first occurrence found from `from` is one, and none comes before it.
pub proof fn lemma_first_match_bounds(t: Seq<u8>, old: Seq<u8>, from: int)
    ensures
        first_match(t, old, from) matches Some(p) ==> from <= p && matches_at(t, old, p) && (
        forall|q: int| from <= q < p ==> !matches_at(t, old, q)),
    decreases t.len() + 1 - from,
{
    if !(from < 0 || from + old.len() > t.len()) && !matches_at(t, old, from) {
        lemma_first_match_bounds(t, old, from + 1);
    }
}

/// No occurrence starts at or after `from` when the search from `from`
/// finds none.
pub proof fn lemma_first_match_none(t: Seq<u8>, old: Seq<u8>, from: int)
    requires
        0 <= from,
        first_match(t, old, from) is None,
    ensures
        forall|q: int| from <= q ==> !#[trigger] matches_at(t, old, q),
    decreases t.len() + 1 - from,
{
    if from + old.len() <= t.len() {
        lemma_first_match_none(t, old, from + 1);
    }
}

/// The first occurrence of `needle` in `hay` at or after byte `from`.
fn find_bytes(hay: &[u8], needle: &[u8], from: usize) -> (r: Option<usize>)
    ensures
        r matches Some(p) ==> first_match(hay@, needle@, from as int) == Some(p as int),
        r is None ==> first_match(hay@, needle@, from as int) is None,
{
    let mut p = from;
    while p <= hay.len() && needle.len() <= hay.len() - p
        invariant
            from <= p,
            first_match(hay@, needle@, from as int) == first_match(hay@, needle@, p as int),
        decreases hay@.len() + 1 - p,
    {
        let mut k: usize = 0;
        let mut same = true;
        while k < needle.len()
            invariant
                k <= needle@.len(),
                p + needle@.len() <= hay.len(),
                same <==> forall|m: int| 0 <= m < k ==> hay@[p + m] == needle@[m],
            decreases needle@.len() - k,
        {
            if hay[p + k] != needle[k] {
                same = false;
            }
            k = k + 1;
        }
        assert(same <==> hay@.subrange(p as int, p + needle@.len()) =~= needle@);
        if same {
            return Some(p);
        }
        p = p + 1;
    }
    None
}

/// Replaces, left to right, every occurrence of `old` at or after byte `pos`
/// by `new`: the text from `pos` on and the number of replacements.
pub open spec fn replace_from(t: Seq<u8>, old: Seq<u8>, new: Seq<u8>, pos: int) -> (Seq<u8>, nat)
    decreases t.len() - pos,
{
    if old.len() == 0 || pos < 0 || pos > t.len() {
        (seq![], 0)
    } else {
        match first_match(t, old, pos) {
            None => (t.subrange(pos, t.len() as int), 0),
            Some(p) => {
                proof {
                    lemma_first_match_bounds(t, old, pos);
                }
                let rest = replace_from(t, old, new, p + old.len());
                (t.subrange(pos, p) + new + rest.0, rest.1 + 1)
            },
        }
    }
}

/// `starts` are the occurrences of `old` in `t` that a left-to-right
/// scan from byte `from` meets, in order: each is the first occurrence at
/// or after the end of the one before (at or after `from` for the first),
/// and no occurrence starts at or after the end of the last one.
pub open spec fn leftmost_occurrences(t: Seq<u8>, old: Seq<u8>, from: int, starts: Seq<int>) -> bool
    decreases starts.len(),
{
    if starts.len() == 0 {
        forall|q: int| from <= q ==> !#[trigger] matches_at(t, old, q)
    } else {
        &&& from <= starts[0]
        &&& matches_at(t, old, starts[0])
        &&& forall|q: int| from <= q < starts[0] ==> !#[trigger] matches_at(t, old, q)
        &&& leftmost_occurrences(t, old, starts[0] + old.len(), starts.drop_first())
    }
}

/// The bytes of `t` from `from` on, with `new` in place of the `len` bytes
/// at each of `starts`.
pub open spec fn spliced(t: Seq<u8>, len: int, new: Seq<u8>, from: int, starts: Seq<int>) -> Seq<u8>
    decreases starts.len(),
{
    if starts.len() == 0 {
        t.subrange(from, t.len() as int)
    } else {
        t.subrange(from, starts[0]) + new + spliced(t, len, new, starts[0] + len, starts.drop_first())
    }
}

proof fn lemma_replace_from_occurrences(t: Seq<u8>, old: Seq<u8>, new: Seq<u8>, pos: int) -> (starts: Seq<
    int,
>)
    requires
        old.len() > 0,
        0 <= pos <= t.len(),
    ensures
        leftmost_occurrences(t, old, pos, starts),
        replace_from(t, old, new, pos) == (spliced(t, old.len() as int, new, pos, starts), starts.len()),
    decreases t.len() - pos,
{
    lemma_first_match_bounds(t, old, pos);
    match first_match(t, old, pos) {
        None => {
            lemma_first_match_none(t, old, pos);
            Seq::<int>::empty()
        },
        Some(p) => {
            let rest = lemma_replace_from_occurrences(t, old, new, p + old.len());
            let starts = seq![p] + rest;
            assert(starts.drop_first() =~= rest);
            assert(starts[0] == p);
            starts
        },
    }
}

/// A literal replacement replaces exactly the leftmost non-overlapping
/// occurrences of `old`, left to right: the occurrences it replaces are, in
/// order, each the first one at or after the end of the one before, none is
/// left after the last, the count is their number, and the new text is the
/// old one with `new` in place of each of them and every other byte kept.
pub proof fn lemma_replace_plain_leftmost(t: Seq<u8>, old: Seq<u8>, new: Seq<u8>) -> (starts: Seq<int>)
    requires
        old.len() > 0,
    ensures
        leftmost_occurrences(t, old, 0, starts),
        replace_from(t, old, new, 0).0 == spliced(t, old.len() as int, new, 0, starts),
        replace_from(t, old, new, 0).1 == starts.len(),
{
    lemma_replace_from_occurrences(t, old, new, 0)
}

/// Replaces every occurrence of the non-empty `old` in `text` by `new`,
/// scanning left to right; returns the new text and the number of
/// replacements.
pub fn replace_plain(text: &[u8], old: &[u8], new: &[u8]) -> (r: (Vec<u8>, usize))
    requires
        old@.len() > 0,
    ensures
        (r.0@, r.1 as nat) == replace_from(text@, old@, new@, 0),
{
    let mut out: Vec<u8> = Vec::new();
    let mut pos: usize = 0;
    let mut count: usize = 0;
    let ghost target = replace_from(text@, old@, new@, 0);
    let n = text.len();
    loop
        invariant
            n == text@.len(),
            pos <= text@.len(),
            count <= pos,
            old@.len() > 0,
            target.0 == out@ + replace_from(text@, old@, new@, pos as int).0,
            target.1 == count + replace_from(text@, old@, new@, pos as int).1,
        ensures
            pos <= text@.len(),
            first_match(text@, old@, pos as int) is None,
            target.0 == out@ + replace_from(text@, old@, new@, pos as int).0,
            target.1 == count + replace_from(text@, old@, new@, pos as int).1,
        decreases text@.len() - pos,
    {
        let start = match find_bytes(text, old, pos) {
            None => break,
            Some(start) => start,
        };
        proof {
            lemma_first_match_bounds(text@, old@, pos as int);
        }
        let ghost rest = replace_from(text@, old@, new@, start + old@.len());
        let chunk = copy_range(text, pos, start);
        push_all(&mut out, chunk.as_slice());
        push_all(&mut out, new);
        pos = start + old.len();
        count = count + 1;
        assert(target.0 =~= out@ + rest.0);
    }
    proof {
        lemma_first_match_bounds(text@, old@, pos as int);
    }
    let tail = copy_range(text, pos, text.len());
    push_all(&mut out, tail.as_slice());
    assert(out@ =~= target.0);
    (out, count)
}

/// What one search result `m`, found in `t` from the search position `pos`,
/// adds to a regex replacement: the bytes to append and, when the
/// replacement goes on, the next search position. Without a match the rest
/// of the text is appended. A match puts `new` in place of the matched bytes;
/// an empty match also copies the byte after it, and the search goes on one
/// byte later. `None` where a cut would fall out of range or inside a
/// character.
pub open spec fn match_step(t: Seq<u8>, new: Seq<u8>, pos: int, m: Option<(usize, usize)>) -> Option<
    (Seq<u8>, Option<int>),
> {
    match m {
        None => Some((t.subrange(pos, t.len() as int), None)),
        Some((s, e)) => {
            if !(pos <= s && s <= t.len() && at_char_boundary(t, s as int)) {
                None
            } else {
                let skip = e <= s;
                if skip && !(s + 1 <= t.len() && at_char_boundary(t, s + 1)) {
                    None
                } else {
                    let next: int = if skip { s + 1 } else { e as int };
                    let chunk = t.subrange(pos, s as int) + new + (if skip {
                        t.subrange(s as int, s + 1)
                    } else {
                        seq![]
                    });
                    if next > t.len() {
                        None
                    } else if next == t.len() {
                        Some((chunk, None))
                    } else {
                        Some((chunk, Some(next)))
                    }
                }
            }
        },
    }
}

/// The rest of a regex replacement from the search position `pos` on, given
/// the pattern source `pat`: the text and the count, or `None` where a match
/// offset would cut the text out of range or inside a character.
pub open spec fn regex_replace_from(pat: Seq<char>, t: Seq<u8>, new: Seq<u8>, pos: int) -> Option<
    (Seq<u8>, nat),
>
    decreases t.len() - pos,
{
    if pos < 0 || pos > t.len() || !at_char_boundary(t, pos) {
        None
    } else {
        let m = pcre2_match_at(pat, t, pos);
        let found: nat = if m is Some { 1 } else { 0 };
        match match_step(t, new, pos, m) {
            None => None,
            Some((chunk, None)) => Some((chunk, found)),
            Some((chunk, Some(next))) => match regex_replace_from(pat, t, new, next) {
                None => None,
                Some(rest) => Some((chunk + rest.0, rest.1 + found)),
            },
        }
    }
}

/// Appends to `out` what the search result `m`, found in `text` from the
/// search position `pos`, adds to a regex replacement (see `match_step`), and
/// returns the next search position, `None` when the replacement is done.
/// Fails with `OutOfRange` where a cut would fall out of range or inside a
/// character.
pub fn replace_match(text: &[u8], new: &[u8], pos: usize, m: Option<(usize, usize)>, out: &mut Vec<u8>) -> (r:
    Result<Option<usize>, SearchError>)
    requires
        pos <= text@.len(),
    ensures
        match match_step(text@, new@, pos as int, m) {
            None => r matches Err(SearchError::OutOfRange),
            Some((chunk, next)) => {
                &&& final(out)@ == old(out)@ + chunk
                &&& match next {
                    None => r matches Ok(None),
                    Some(n) => r matches Ok(Some(q)) && q == n && pos < q < text@.len(),
                }
            },
        },
{
    match m {
        None => {
            let tail = copy_range(text, pos, text.len());
            push_all(out, tail.as_slice());
            Ok(None)
        },
        Some((s, e)) => {
            if !(pos <= s && s <= text.len() && is_boundary(text, s)) {
                return Err(SearchError::OutOfRange);
            }
            let skip = e <= s;
            if skip && !(s < text.len() && is_boundary(text, s + 1)) {
                return Err(SearchError::OutOfRange);
            }
            let next = if skip { s + 1 } else { e };
            if next > text.len() {
                return Err(SearchError::OutOfRange);
            }
            let chunk = copy_range(text, pos, s);
            push_all(out, chunk.as_slice());
            push_all(out, new);
            if skip {
                let one = copy_range(text, s, s + 1);
                push_all(out, one.as_slice());
            }
            proof {
                let c = text@.subrange(pos as int, s as int) + new@ + (if skip {
                    text@.subrange(s as int, s + 1)
                } else {
                    seq![]
                });
                assert(out@ =~= old(out)@ + c);
            }
            if next == text.len() {
                Ok(None)
            } else {
                Ok(Some(next))
            }
        },
    }
}

/// Replaces the matches of the regular expression `pattern` in `text` by
/// `new`, left to right; an empty match copies the byte after it and the
/// search goes on one byte later. Returns the new text and the number of
/// replacements; fails with the compiler's message when the pattern does not
/// compile, and with `OutOfRange` where a match would cut the text out of
/// range or inside a character.
pub fn replace_regex(text: &str, pattern: &str, new: &str) -> (r: Result<(Vec<u8>, usize), SearchError>)
    ensures
        pcre2_compile_error(pattern@) matches Some(msg) ==> r matches Err(SearchError::BadPattern(m))
            && m@ == msg,
        pcre2_compile_error(pattern@) is None ==> match regex_replace_from(
            pattern@,
            encode_utf8(text@),
            encode_utf8(new@),
            0,
        ) {
            None => r matches Err(SearchError::OutOfRange),
            Some(res) => r matches Ok(v) && v.0@ == res.0 && v.1 as nat == res.1,
        },
{
    let re = match compile_pattern(pattern) {
        Ok(re) => re,
        Err(msg) => return Err(SearchError::BadPattern(msg)),
    };
    let bytes = text.as_bytes();
    let new_bytes = new.as_bytes();
    let ghost t = bytes@;
    assert(t.len() == bytes.len());
    let ghost target = regex_replace_from(pattern@, t, new_bytes@, 0);
    let mut out: Vec<u8> = Vec::new();
    let mut pos: usize = 0;
    let mut count: usize = 0;
    loop
        invariant
            pcre2_compile_error(pattern@) is None,
            pos <= t.len(),
            t.len() <= usize::MAX,
            t == bytes@,
            t == encode_utf8(text@),
            new_bytes@ == encode_utf8(new@),
            target == regex_replace_from(pattern@, t, new_bytes@, 0),
            re@ == pattern@,
            count <= pos,
            pos == 0 || pos < t.len(),
            target == match regex_replace_from(pattern@, t, new_bytes@, pos as int) {
                None => None,
                Some(rest) => Some((out@ + rest.0, (count + rest.1) as nat)),
            },
        decreases t.len() - pos,
    {
        if !is_boundary(bytes, pos) {
            return Err(SearchError::OutOfRange);
        }
        let m = captures_read_at(&re, bytes, pos);
        let ghost before = out@;
        let step = replace_match(bytes, new_bytes, pos, m, &mut out);
        if m.is_some() {
            count = count + 1;
        }
        match step {
            Err(e) => return Err(e),
            Ok(None) => {
                return Ok((out, count));
            },
            Ok(Some(next)) => {
                assert(before + (out@.subrange(before.len() as int, out@.len() as int)) =~= out@);
                pos = next;
            },
        }
    }
}

/// The regular expression that `regex_find` compiles: `pattern`, wrapped in
/// a case-insensitive group when `no_case`.
pub open spec fn find_pattern(pattern: Seq<char>, no_case: bool) -> Seq<char> {
    if no_case {
        "(?i:"@ + pattern + ")"@
    } else {
        pattern
    }
}

/// The first regex match in `line` from column `start_col`, as 1-based
/// columns `(start, end)`; `None` when the pattern does not compile or does
/// not match.
pub open spec fn spec_regex_find(line: Seq<u8>, pattern: Seq<char>, no_case: bool, start_col: int) -> Option<
    (int, int),
> {
    let pat = find_pattern(pattern, no_case);
    if pcre2_compile_error(pat) is Some {
        None
    } else {
        match pcre2_match_at(pat, line, sat_sub(start_col, 1)) {
            None => None,
            Some((s, e)) => Some((s + 1, e + 1)),
        }
    }
}

fn regex_find(line: &[u8], pattern: &str, no_case: bool, start_col: usize) -> (r: Option<(usize, usize)>)
    requires
        sat_sub(start_col as int, 1) <= line@.len(),
        line@.len() < usize::MAX,
    ensures
        r matches Some((s, e)) ==> spec_regex_find(line@, pattern@, no_case, start_col as int) == Some((s as int, e as int)),
        r is None ==> spec_regex_find(line@, pattern@, no_case, start_col as int) is None,
{
    let pat = build_find_pattern(pattern, no_case);
    let re = match compile_pattern(pat.as_str()) {
        Ok(re) => re,
        Err(_) => return None,
    };
    let m = captures_read_at(&re, line, start_col.saturating_sub(1));
    match_columns(m)
}

/// The 1-based columns `(start, end)` of a match given by its byte offsets.
pub fn match_columns(m: Option<(usize, usize)>) -> (r: Option<(usize, usize)>)
    requires
        m matches Some((s, e)) ==> s < usize::MAX && e < usize::MAX,
    ensures
        match m {
            None => r is None,
            Some((s, e)) => r == Some(((s + 1) as usize, (e + 1) as usize)),
        },
{
    match m {
        None => None,
        Some((s, e)) => Some((s + 1, e + 1)),
    }
}

/// The text of the regular expression that `regex_find` compiles.
fn build_find_pattern(pattern: &str, no_case: bool) -> (r: String)
    ensures
        r@ == find_pattern(pattern@, no_case),
{
    if no_case {
        let mut p = String::from_str("(?i:");
        p.append(pattern);
        p.append(")");
        p
    } else {
        String::from_str(pattern)
    }
}

/// What searching one line from column `start_col` gives: `Err` where the
/// search cannot start there (a regex whose pattern compiles, with the start
/// past the line's end; a literal search whose start is past the end of, or
/// inside a character of, the text searched), else the match as 1-based
/// columns `(start, end)` or `None`. A case-insensitive literal search looks
/// for the lowercased needle in the lowercased line.
pub open spec fn line_hit(line: Seq<u8>, text: Seq<char>, no_case: bool, regex: bool, start_col: int) -> Result<
    Option<(int, int)>,
    (),
> {
    let from = sat_sub(start_col, 1);
    if regex {
        if pcre2_compile_error(find_pattern(text, no_case)) is None && from > line.len() {
            Err(())
        } else {
            Ok(spec_regex_find(line, text, no_case, start_col))
        }
    } else {
        let hay = if no_case { lowercase_bytes(line) } else { line };
        let needle = if no_case { lowercase_bytes(encode_utf8(text)) } else { encode_utf8(text) };
        if !(from <= hay.len() && at_char_boundary(hay, from)) {
            Err(())
        } else {
            match first_match(hay, needle, from) {
                None => Ok(None),
                Some(p) => Ok(Some((start_col + (p - from), start_col + (p - from) + needle.len()))),
            }
        }
    }
}

/// The first match at or after line index `idx` (0-based), the search
/// starting at column `col` on line number `line` and at column 1 on the
/// others: `(line, col, end_line, end_col)`, where a match that runs past
/// the end of its line ends at column 1 of the next one. `Err` where the
/// search cannot start or a column does not fit in `usize`.
pub open spec fn find_from(
    d: Seq<Seq<u8>>,
    idx: int,
    line: int,
    col: int,
    text: Seq<char>,
    no_case: bool,
    regex: bool,
) -> Result<Option<(int, int, int, int)>, ()>
    decreases d.len() - idx,
{
    if idx < 0 || idx >= d.len() {
        Ok(None)
    } else {
        let start_col = if idx + 1 == line { col } else { 1 };
        match line_hit(d[idx], text, no_case, regex, start_col) {
            Err(()) => Err(()),
            Ok(None) => find_from(d, idx + 1, line, col, text, no_case, regex),
            Ok(Some((s, e))) => {
                if e > usize::MAX {
                    Err(())
                } else if e > d[idx].len() {
                    Ok(Some((idx + 1, s, idx + 2, 1)))
                } else {
                    Ok(Some((idx + 1, s, idx + 1, e)))
                }
            },
        }
    }
}

/// Byte `q` of the line with index `i` is searched by a find from
/// `(line, col)`: line `line` from column `col` on, every later line from
/// its start.
pub open spec fn searched(line: int, col: int, i: int, q: int) -> bool {
    &&& i >= line - 1
    &&& q >= 0
    &&& i == line - 1 ==> q >= col - 1
}

proof fn lemma_find_from_first(d: Seq<Seq<u8>>, idx: int, line: int, col: int, text: Seq<char>)
    requires
        1 <= line,
        1 <= col,
        idx >= line - 1,
        find_from(d, idx, line, col, text, false, false) is Ok,
    ensures
        ({
            let n = encode_utf8(text);
            match find_from(d, idx, line, col, text, false, false) {
                Ok(Some((l, c, el, ec))) => {
                    &&& idx + 1 <= l <= d.len()
                    &&& c >= 1
                    &&& searched(line, col, l - 1, c - 1)
                    &&& matches_at(d[l - 1], n, c - 1)
                    &&& forall|i: int, q: int|
                        idx <= i < d.len() && searched(line, col, i, q) && (i < l - 1 || (i == l - 1 && q
                            < c - 1)) ==> !#[trigger] matches_at(d[i], n, q)
                    &&& (el == l && ec == c + n.len()) || (el == l + 1 && ec == 1 && c + n.len() > d[l
                        - 1].len())
                },
                Ok(None) => forall|i: int, q: int|
                    idx <= i < d.len() && searched(line, col, i, q) ==> !#[trigger] matches_at(d[i], n, q),
                Err(_) => true,
            }
        }),
    decreases d.len() - idx,
{
    let n = encode_utf8(text);
    if idx < d.len() {
        let start_col = if idx + 1 == line { col } else { 1 };
        let from = start_col - 1;
        assert(sat_sub(start_col, 1) == from);
        lemma_first_match_bounds(d[idx], n, from);
        match first_match(d[idx], n, from) {
            None => {
                lemma_first_match_none(d[idx], n, from);
                lemma_find_from_first(d, idx + 1, line, col, text);
            },
            Some(p) => {},
        }
    }
}

/// A literal, case-sensitive search from `(line, col)` reports the first
/// occurrence of the text after that position: one that starts on line
/// `line` at or after column `col`, or on a later line at any column; the
/// text occurs where it is reported, no occurrence starts at a searched
/// position before it, and `None` only when no searched position holds one.
/// The end is the column after the match, or column 1 of the next line when
/// the match takes the line's last byte.
pub proof fn lemma_find_first_occurrence(d: Seq<Seq<u8>>, line: int, col: int, text: Seq<char>)
    requires
        1 <= line,
        1 <= col,
        spec_find(d, line, col, text, false, false, false) is Ok,
    ensures
        ({
            let n = encode_utf8(text);
            match spec_find(d, line, col, text, false, false, false) {
                Ok(Some((l, c, el, ec))) => {
                    &&& 1 <= l <= d.len()
                    &&& c >= 1
                    &&& searched(line, col, l - 1, c - 1)
                    &&& matches_at(d[l - 1], n, c - 1)
                    &&& forall|i: int, q: int|
                        0 <= i < d.len() && searched(line, col, i, q) && (i < l - 1 || (i == l - 1 && q
                            < c - 1)) ==> !#[trigger] matches_at(d[i], n, q)
                    &&& (el == l && ec == c + n.len()) || (el == l + 1 && ec == 1 && c + n.len() > d[l
                        - 1].len())
                },
                Ok(None) => forall|i: int, q: int|
                    0 <= i < d.len() && searched(line, col, i, q) ==> !#[trigger] matches_at(d[i], n, q),
                Err(_) => true,
            }
        }),
{
    lemma_find_from_first(d, line - 1, line, col, text);
}

/// What `find` gives: nothing for a reverse search, else the first match
/// from `(line, col)` on.
pub open spec fn spec_find(
    d: Seq<Seq<u8>>,
    line: int,
    col: int,
    text: Seq<char>,
    no_case: bool,
    regex: bool,
    reverse: bool,
) -> Result<Option<(int, int, int, int)>, ()> {
    if reverse {
        Ok(None)
    } else {
        find_from(d, sat_sub(line, 1), line, col, text, no_case, regex)
    }
}

/// A literal search of one line: the first occurrence of `needle` in `hay`
/// from column `start_col`, as 1-based columns `(start, end)`. Fails with
/// `OutOfRange` where the search cannot start at `start_col` (past the end
/// of `hay` or inside a character) or a column does not fit in `usize`.
pub fn plain_hit(hay: &[u8], needle: &[u8], start_col: usize) -> (r: Result<Option<(usize, usize)>, SearchError>)
    ensures
        !(sat_sub(start_col as int, 1) <= hay@.len() && at_char_boundary(hay@, sat_sub(start_col as int, 1)))
            ==> r is Err,
        (sat_sub(start_col as int, 1) <= hay@.len() && at_char_boundary(hay@, sat_sub(start_col as int, 1)))
            ==> match first_match(hay@, needle@, sat_sub(start_col as int, 1)) {
            None => r matches Ok(None),
            Some(p) => {
                let s = start_col + (p - sat_sub(start_col as int, 1));
                if s + needle@.len() > usize::MAX {
                    r is Err
                } else {
                    r matches Ok(Some((a, b))) && a == s && b == s + needle@.len()
                }
            },
        },
{
    let from = start_col.saturating_sub(1);
    if !(from <= hay.len() && is_boundary(hay, from)) {
        return Err(SearchError::OutOfRange);
    }
    proof {
        lemma_first_match_bounds(hay@, needle@, from as int);
    }
    match find_bytes(hay, needle, from) {
        None => Ok(None),
        Some(p) => {
            let off = p - from;
            match start_col.checked_add(off) {
                None => Err(SearchError::OutOfRange),
                Some(s) => match s.checked_add(needle.len()) {
                    None => Err(SearchError::OutOfRange),
                    Some(e) => Ok(Some((s, e))),
                },
            }
        },
    }
}

/// Searches one line as `find` does; see `line_hit`.
fn line_search(line_text: &Vec<u8>, text: &str, needle: &[u8], no_case: bool, regex: bool, start_col: usize) -> (r: Result<Option<(usize, usize)>, SearchError>)
    requires
        line_text@.len() < usize::MAX,
        needle@ == (if no_case { lowercase_bytes(encode_utf8(text@)) } else { encode_utf8(text@) }),
    ensures
        match line_hit(line_text@, text@, no_case, regex, start_col as int) {
            Err(()) => r is Err,
            Ok(None) => r matches Ok(None),
            Ok(Some((s, e))) => if e > usize::MAX {
                r is Err
            } else {
                r matches Ok(Some((a, b))) && a == s && b == e
            },
        },
{
    if regex {
        let from = start_col.saturating_sub(1);
        if from <= line_text.len() {
            Ok(regex_find(line_text.as_slice(), text, no_case, start_col))
        } else {
            let pat = build_find_pattern(text, no_case);
            match compile_pattern(pat.as_str()) {
                Ok(_) => Err(SearchError::OutOfRange),
                Err(_) => Ok(None),
            }
        }
    } else if no_case {
        let hay = to_lowercase_bytes(line_text.as_slice());
        plain_hit(hay.as_slice(), needle, start_col)
    } else {
        plain_hit(line_text.as_slice(), needle, start_col)
    }
}

/// Where a match from column `s` to column `e` of the line with index `idx`
/// (0-based) and length `line_len` lies, as `(line, col, end_line, end_col)`:
/// a match that runs past the end of its line ends at column 1 of the next
/// one.
pub fn match_span(idx: usize, line_len: usize, s: usize, e: usize) -> (r: (usize, usize, usize, usize))
    requires
        idx + 2 <= usize::MAX,
    ensures
        e > line_len ==> r == ((idx + 1) as usize, s, (idx + 2) as usize, 1usize),
        e <= line_len ==> r == ((idx + 1) as usize, s, (idx + 1) as usize, e),
{
    if e > line_len {
        (idx + 1, s, idx + 2, 1)
    } else {
        (idx + 1, s, idx + 1, e)
    }
}

/// Finds `text` in the document from `(line, col)` on, literally or as a
/// regular expression, case-insensitively when `no_case`: the first match as
/// `(line, col, end_line, end_col)`, a match that runs past the end of its
/// line ending at column 1 of the next one; `None` when nothing matches or
/// the search is a reverse one. Fails with `OutOfRange` where the search
/// cannot start at `col` (past the line's end, or inside a character of a
/// literal search) or a column does not fit in `usize`.
pub fn find(
    lines: &Vec<Vec<u8>>,
    line: usize,
    col: usize,
    text: &str,
    no_case: bool,
    regex: bool,
    reverse: bool,
) -> (r: Result<Option<(usize, usize, usize, usize)>, SearchError>)
    requires
        lines@.len() < usize::MAX,
        forall|i: int| 0 <= i < lines@.len() ==> #[trigger] lines@[i]@.len() < usize::MAX,
    ensures
        match spec_find(crate::doc::doc_of(lines@), line as int, col as int, text@, no_case, regex, reverse) {
            Err(()) => r is Err,
            Ok(None) => r matches Ok(None),
            Ok(Some((l, c, el, ec))) => r matches Ok(Some((a, b, x, y))) && a == l && b == c && x == el
                && y == ec,
        },
{
    let ghost d = crate::doc::doc_of(lines@);
    if reverse {
        return Ok(None);
    }
    let text_bytes = text.as_bytes();
    let needle: Vec<u8> = if no_case {
        to_lowercase_bytes(text_bytes)
    } else {
        copy_range(text_bytes, 0, text_bytes.len())
    };
    assert(text_bytes@.subrange(0, text_bytes@.len() as int) =~= text_bytes@);
    let mut idx: usize = line.saturating_sub(1);
    while idx < lines.len()
        invariant
            d == crate::doc::doc_of(lines@),
            lines@.len() < usize::MAX,
            forall|i: int| 0 <= i < lines@.len() ==> #[trigger] lines@[i]@.len() < usize::MAX,
            needle@ == (if no_case { lowercase_bytes(encode_utf8(text@)) } else { encode_utf8(text@) }),
            spec_find(d, line as int, col as int, text@, no_case, regex, reverse) == find_from(
                d,
                idx as int,
                line as int,
                col as int,
                text@,
                no_case,
                regex,
            ),
        decreases lines@.len() - idx,
    {
        let start_col = if idx + 1 == line { col } else { 1 };
        let line_text = &lines[idx];
        assert(d[idx as int] == line_text@);
        match line_search(line_text, text, needle.as_slice(), no_case, regex, start_col) {
            Err(e) => return Err(e),
            Ok(None) => {},
            Ok(Some((s, e))) => {
                return Ok(Some(match_span(idx, line_text.len(), s, e)));
            },
        }
        idx = idx + 1;
    }
    Ok(None)
}

/// Replaces every occurrence of `old` in `text` by `new`, as a regular
/// expression when `regex` (see `replace_regex`) and literally otherwise (see
/// `replace_plain`): the new text and the number of replacements.
pub fn replace(text: &str, old: &str, new: &str, regex: bool) -> (r: Result<(Vec<u8>, usize), SearchError>)
    requires
        regex || old@.len() > 0,
    ensures
        regex ==> {
            &&& pcre2_compile_error(old@) matches Some(msg) ==> r matches Err(SearchError::BadPattern(m))
                && m@ == msg
            &&& pcre2_compile_error(old@) is None ==> match regex_replace_from(
                old@,
                encode_utf8(text@),
                encode_utf8(new@),
                0,
            ) {
                None => r matches Err(SearchError::OutOfRange),
                Some(res) => r matches Ok(v) && v.0@ == res.0 && v.1 as nat == res.1,
            }
        },
        !regex ==> (r matches Ok(v) && (v.0@, v.1 as nat) == replace_from(
            encode_utf8(text@),
            encode_utf8(old@),
            encode_utf8(new@),
            0,
        )),
{
    if regex {
        replace_regex(text, old, new)
    } else {
        assert(encode_utf8(old@).len() > 0);
        Ok(replace_plain(text.as_bytes(), old.as_bytes(), new.as_bytes()))
    }
}

/// A literal, case-sensitive search from line index `idx` on reports an
/// occurrence of the searched text.
proof fn lemma_find_from_reports_text(
    d: Seq<Seq<u8>>,
    idx: int,
    line: int,
    col: int,
    text: Seq<char>,
)
    requires
        col >= 1,
        find_from(d, idx, line, col, text, false, false) matches Ok(Some(_)),
    ensures
        ({
            let r = find_from(d, idx, line, col, text, false, false)->Ok_0->Some_0;
            let needle = encode_utf8(text);
            &&& 1 <= r.0 <= d.len()
            &&& 1 <= r.1
            &&& r.1 - 1 + needle.len() <= d[r.0 - 1].len()
            &&& d[r.0 - 1].subrange(r.1 - 1, r.1 - 1 + needle.len()) == needle
        }),
    decreases d.len() - idx,
{
    let start_col = if idx + 1 == line { col } else { 1 };
    let from = sat_sub(start_col, 1);
    let needle = encode_utf8(text);
    match line_hit(d[idx], text, false, false, start_col) {
        Ok(Some(_)) => {
            lemma_first_match_bounds(d[idx], needle, from);
        },
        _ => {
            lemma_find_from_reports_text(d, idx + 1, line, col, text);
        },
    }
}

/// What a literal, case-sensitive `find` from column 1 or later reports is
/// an occurrence of the searched text: its bytes start at the reported
/// column of the reported line.
pub proof fn lemma_find_reports_text(d: Seq<Seq<u8>>, line: int, col: int, text: Seq<char>)
    requires
        col >= 1,
        spec_find(d, line, col, text, false, false, false) matches Ok(Some(_)),
    ensures
        ({
            let r = spec_find(d, line, col, text, false, false, false)->Ok_0->Some_0;
            let needle = encode_utf8(text);
            &&& 1 <= r.0 <= d.len()
            &&& 1 <= r.1
            &&& r.1 - 1 + needle.len() <= d[r.0 - 1].len()
            &&& d[r.0 - 1].subrange(r.1 - 1, r.1 - 1 + needle.len()) == needle
        }),
{
    lemma_find_from_reports_text(d, sat_sub(line, 1), line, col, text);
}

} // verus!
