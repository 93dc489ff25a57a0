//! Recognition of math in Markdown source, on the source's UTF-8 bytes.
//!
//! The scanner walks the bytes once. Ranges that the Markdown parser reports as code,
//! links, images or HTML ("protected" ranges) are skipped. Display equations (`$$..$$`,
//! `\[..\]`) are recorded so that the Markdown renderer keeps them; inline formulas
//! (`$..$`, `\(..\)`) are rendered and recorded with the byte span they replace.

use vstd::prelude::*;
use vstd::string::StringSliceAdditionalSpecFns;
use vstd::utf8::{decode_utf8, is_continuation_byte, valid_utf8};

use crate::chars::{is_white_space, is_whitespace};
use crate::chars::{alphanumeric, is_ascii_digit_char, is_ascii_upper_char};
use crate::render::{render, spec_render};
use crate::bytes::{char_at, lemma_after_ascii, slice_str};
use crate::chars::{is_alphanumeric, str_chars};

verus! {

/// Inline formulas longer than this many bytes are not searched for their closer.
pub const MAX_MATH_BYTES: usize = 4096;

/// The ASCII bytes that the scanner looks for.
pub const DOLLAR: u8 = 0x24;
pub const BACKSLASH: u8 = 0x5C;
pub const LBRACKET: u8 = 0x5B;
pub const RBRACKET: u8 = 0x5D;
pub const LPAREN: u8 = 0x28;
pub const RPAREN: u8 = 0x29;
pub const LBRACE: u8 = 0x7B;
pub const NEWLINE: u8 = 0x0A;

/// A half-open range of byte offsets.
#[derive(Clone, Copy, Debug, PartialEq, Eq, Structural)]
pub struct ByteRange {
    pub start: usize,
    pub end: usize,
}

/// The delimiters of math: `$$..$$` and `\[..\]` for display equations, `\(..\)` and
/// `$..$` for inline formulas.
#[derive(Clone, Copy, Debug, PartialEq, Eq, Structural)]
pub enum Delim {
    DoubleDollar,
    Bracket,
    Paren,
    Dollar,
}

/// The bytes that open a formula.
pub open spec fn open_of(d: Delim) -> Seq<u8> {
    match d {
        Delim::DoubleDollar => seq![DOLLAR, DOLLAR],
        Delim::Bracket => seq![BACKSLASH, LBRACKET],
        Delim::Paren => seq![BACKSLASH, LPAREN],
        Delim::Dollar => seq![DOLLAR],
    }
}

/// The bytes that close a formula.
pub open spec fn close_of(d: Delim) -> Seq<u8> {
    match d {
        Delim::DoubleDollar => seq![DOLLAR, DOLLAR],
        Delim::Bracket => seq![BACKSLASH, RBRACKET],
        Delim::Paren => seq![BACKSLASH, RPAREN],
        Delim::Dollar => seq![DOLLAR],
    }
}

/// Whether the delimiter opens a display equation.
pub open spec fn is_display(d: Delim) -> bool {
    d == Delim::DoubleDollar || d == Delim::Bracket
}

/// `b[i..]` starts with `pat`.
pub open spec fn starts_with_at(b: Seq<u8>, i: int, pat: Seq<u8>) -> bool {
    0 <= i && i + pat.len() <= b.len() && b.subrange(i, i + pat.len()) == pat
}

/// The delimiter that opens at byte `i`, preferring `$$` to `$`.
pub open spec fn opener_at(b: Seq<u8>, i: int) -> Option<Delim> {
    if starts_with_at(b, i, open_of(Delim::DoubleDollar)) {
        Some(Delim::DoubleDollar)
    } else if starts_with_at(b, i, open_of(Delim::Bracket)) {
        Some(Delim::Bracket)
    } else if starts_with_at(b, i, open_of(Delim::Paren)) {
        Some(Delim::Paren)
    } else if starts_with_at(b, i, open_of(Delim::Dollar)) {
        Some(Delim::Dollar)
    } else {
        None
    }
}

/// The number of backslashes that immediately precede byte `i`.
pub open spec fn backslashes_before(b: Seq<u8>, i: int) -> nat
    decreases i,
{
    if 0 < i <= b.len() && b[i - 1] == BACKSLASH {
        1 + backslashes_before(b, i - 1)
    } else {
        0
    }
}

/// Byte `i` is escaped: an odd number of backslashes precedes it.
pub open spec fn is_escaped(b: Seq<u8>, i: int) -> bool {
    backslashes_before(b, i) % 2 == 1
}

/// `i` is a character boundary of the UTF-8 bytes `b`: the end, or a byte that does
/// not continue a character.
pub open spec fn is_boundary(b: Seq<u8>, i: int) -> bool {
    i == b.len() || (0 <= i < b.len() && !is_continuation_byte(b[i]))
}

/// The first character boundary after `i`: where the character at `i` ends.
pub open spec fn next_boundary(b: Seq<u8>, i: int) -> int
    decreases b.len() - i,
{
    if i + 1 >= b.len() {
        b.len() as int
    } else if !is_continuation_byte(b[i + 1]) {
        i + 1
    } else {
        next_boundary(b, i + 1)
    }
}

/// The first character boundary at or after `p`, or the end.
pub open spec fn boundary_from(b: Seq<u8>, p: int) -> int
    decreases b.len() - p,
{
    if p >= b.len() {
        b.len() as int
    } else if p >= 0 && !is_continuation_byte(b[p]) {
        p
    } else {
        boundary_from(b, p + 1)
    }
}

/// The first unescaped `close` in `b[p..lim]`, where occurrences are taken left to right
/// without overlapping, as `str::match_indices` yields them.
pub open spec fn find_close(b: Seq<u8>, p: int, lim: int, close: Seq<u8>) -> Option<int>
    decreases lim - p,
{
    if close.len() == 0 || p + close.len() > lim {
        None
    } else if b.subrange(p, p + close.len()) == close {
        if is_escaped(b, p) {
            find_close(b, p + close.len(), lim, close)
        } else {
            Some(p)
        }
    } else {
        find_close(b, p + 1, lim, close)
    }
}

/// Where the line that holds byte `i` starts: after the last newline before `i`.
pub open spec fn line_start(b: Seq<u8>, i: int) -> int
    decreases i,
{
    if i <= 0 {
        0
    } else if b[i - 1] == NEWLINE {
        i
    } else {
        line_start(b, i - 1)
    }
}

/// The characters that the bytes `b[i..j]` encode.
pub open spec fn chars_between(b: Seq<u8>, i: int, j: int) -> Seq<char> {
    decode_utf8(b.subrange(i, j))
}

/// The characters that end a plain number in a `$..$` formula's sense.
pub open spec fn is_operator_char(c: char) -> bool {
    c == '\\' || c == '^' || c == '_' || c == '=' || c == '+' || c == '-' || c == '*' || c
        == '/' || c == '<' || c == '>'
}

/// A `$..$` formula that reads as money or as a run of capitals is left as text:
/// it starts with a digit and holds no operator, or it is at least two bytes of
/// uppercase ASCII letters.
pub open spec fn is_plain_dollar_text(formula: Seq<char>, byte_len: int) -> bool {
    ||| formula.len() > 0 && is_ascii_digit_char(formula[0]) && !(exists|k: int|
        0 <= k < formula.len() && is_operator_char(#[trigger] formula[k]))
    ||| byte_len > 1 && forall|k: int|
        0 <= k < formula.len() ==> is_ascii_upper_char(#[trigger] formula[k])
}

/// The first protected range, from position `q` on, that does not end at or before `offset`.
pub open spec fn advance_queue(p: Seq<ByteRange>, q: int, offset: int) -> int
    decreases p.len() - q,
{
    if 0 <= q < p.len() && p[q].end <= offset {
        advance_queue(p, q + 1, offset)
    } else {
        q
    }
}

/// What the scanner has found so far.
pub struct Found {
    pub display: Seq<ByteRange>,
    pub replacements: Seq<(ByteRange, Seq<char>)>,
}

/// The scanner's state between two steps: the byte offset, the position of the next
/// protected range, and what it has found.
pub struct ScanState {
    pub offset: int,
    pub q: int,
    pub found: Found,
}

/// A state that only moves the offset.
pub open spec fn moved(s: ScanState, q: int, offset: int) -> ScanState {
    ScanState { offset, q, found: s.found }
}

/// One step of the scanner from `s`, which stands before the end of `b`.
pub open spec fn scan_step(b: Seq<u8>, p: Seq<ByteRange>, s: ScanState) -> ScanState {
    let offset = s.offset;
    let q = advance_queue(p, s.q, offset);
    if q < p.len() && p[q].start <= offset < p[q].end {
        moved(s, q, p[q].end as int)
    } else {
        match opener_at(b, offset) {
            None => moved(s, q, next_boundary(b, offset)),
            Some(d) => {
                let start = offset;
                let body = start + open_of(d).len();
                let close = close_of(d);
                if is_escaped(b, start) {
                    moved(s, q, body)
                } else if d == Delim::Dollar && body < b.len() && (is_white_space(
                    chars_between(b, body, b.len() as int)[0],
                ) || b[body] == LPAREN || b[body] == LBRACE) {
                    moved(s, q, body)
                } else {
                    let lim = if is_display(d) {
                        b.len() as int
                    } else {
                        boundary_from(b, body + MAX_MATH_BYTES)
                    };
                    let end = find_close(b, body, lim, close);
                    if is_display(d) {
                        let line = chars_between(b, line_start(b, start), start);
                        if d == Delim::DoubleDollar && end is None && exists|k: int|
                            0 <= k < line.len() && !is_white_space(#[trigger] line[k]) {
                            moved(s, q, body)
                        } else {
                            let stop = match end {
                                Some(e) => e + close.len(),
                                None => b.len() as int,
                            };
                            ScanState {
                                offset: stop,
                                q,
                                found: Found {
                                    display: s.found.display.push(
                                        ByteRange { start: start as usize, end: stop as usize },
                                    ),
                                    replacements: s.found.replacements,
                                },
                            }
                        }
                    } else {
                        match end {
                            None => moved(s, q, body),
                            Some(e) => {
                                let span_end = e + close.len();
                                let formula = chars_between(b, body, e);
                                if q < p.len() && p[q].start < span_end {
                                    moved(s, q, body)
                                } else if formula.contains('\n') {
                                    moved(s, q, body)
                                } else if d == Delim::Dollar && ((formula.len() > 0
                                    && is_white_space(formula.last())) || (span_end < b.len()
                                    && alphanumeric(chars_between(b, span_end, b.len() as int)[0]))) {
                                    moved(s, q, body)
                                } else if d == Delim::Dollar && is_plain_dollar_text(formula, e - body) {
                                    moved(s, q, span_end)
                                } else {
                                    let text = match spec_render(formula) {
                                        Some(t) => t,
                                        None => chars_between(b, start, span_end),
                                    };
                                    ScanState {
                                        offset: span_end,
                                        q,
                                        found: Found {
                                            display: s.found.display,
                                            replacements: s.found.replacements.push(
                                                (
                                                    ByteRange {
                                                        start: start as usize,
                                                        end: span_end as usize,
                                                    },
                                                    text,
                                                ),
                                            ),
                                        },
                                    }
                                }
                            },
                        }
                    }
                }
            },
        }
    }
}

} // verus!

verus! {

pub proof fn lemma_next_boundary(b: Seq<u8>, i: int)
    requires
        0 <= i < b.len(),
    ensures
        i < next_boundary(b, i) <= b.len(),
        is_boundary(b, next_boundary(b, i)),
    decreases b.len() - i,
{
    if i + 1 < b.len() && is_continuation_byte(b[i + 1]) {
        lemma_next_boundary(b, i + 1);
    }
}

pub proof fn lemma_boundary_from(b: Seq<u8>, p: int)
    requires
        0 <= p,
    ensures
        boundary_from(b, p) <= b.len(),
        p <= b.len() ==> p <= boundary_from(b, p),
        is_boundary(b, boundary_from(b, p)),
    decreases b.len() - p,
{
    if p < b.len() && is_continuation_byte(b[p]) {
        lemma_boundary_from(b, p + 1);
    }
}

pub proof fn lemma_find_close(b: Seq<u8>, p: int, lim: int, close: Seq<u8>)
    ensures
        find_close(b, p, lim, close) matches Some(e) ==> p <= e && e + close.len() <= lim
            && b.subrange(e, e + close.len()) == close && !is_escaped(b, e),
    decreases lim - p,
{
    if close.len() == 0 || p + close.len() > lim {
    } else if b.subrange(p, p + close.len()) == close {
        if is_escaped(b, p) {
            lemma_find_close(b, p + close.len(), lim, close);
        }
    } else {
        lemma_find_close(b, p + 1, lim, close);
    }
}

pub proof fn lemma_advance_queue(p: Seq<ByteRange>, q: int, offset: int)
    requires
        0 <= q <= p.len(),
    ensures
        q <= advance_queue(p, q, offset) <= p.len(),
        forall|k: int| q <= k < advance_queue(p, q, offset) ==> #[trigger] p[k].end <= offset,
        advance_queue(p, q, offset) < p.len() ==> p[advance_queue(p, q, offset)].end > offset,
    decreases p.len() - q,
{
    if q < p.len() && p[q].end <= offset {
        lemma_advance_queue(p, q + 1, offset);
    }
}

/// Each step of the scanner moves forward.
pub proof fn lemma_step_advances(b: Seq<u8>, p: Seq<ByteRange>, s: ScanState)
    requires
        0 <= s.offset < b.len(),
    ensures
        scan_step(b, p, s).offset > s.offset,
{
    lemma_next_boundary(b, s.offset);
    let q = advance_queue(p, s.q, s.offset);
    if let Some(d) = opener_at(b, s.offset) {
        let body = s.offset + open_of(d).len();
        let lim = if is_display(d) {
            b.len() as int
        } else {
            boundary_from(b, body + MAX_MATH_BYTES)
        };
        lemma_find_close(b, body, lim, close_of(d));
    }
}

/// The scanner from state `s` to the end of `b`.
pub open spec fn scan(b: Seq<u8>, p: Seq<ByteRange>, s: ScanState) -> Found
    decreases b.len() - s.offset,
{
    if s.offset < 0 || s.offset >= b.len() {
        s.found
    } else {
        let t = scan_step(b, p, s);
        proof {
            lemma_step_advances(b, p, s);
        }
        if t.offset >= b.len() {
            t.found
        } else {
            scan(b, p, t)
        }
    }
}

/// What the scanner finds in `b` when it skips the protected ranges `p`.
pub open spec fn scan_all(b: Seq<u8>, p: Seq<ByteRange>) -> Found {
    scan(
        b,
        p,
        ScanState { offset: 0, q: 0, found: Found { display: seq![], replacements: seq![] } },
    )
}

/// `b` with every byte inside one of the replaced spans turned into `$`.
pub open spec fn mask(b: Seq<u8>, replacements: Seq<(ByteRange, Seq<char>)>) -> Seq<u8> {
    Seq::new(
        b.len(),
        |i: int|
            if exists|k: int|
                0 <= k < replacements.len() && replacements[k].0.start <= i
                    < #[trigger] replacements[k].0.end {
                DOLLAR
            } else {
                b[i]
            },
    )
}

} // verus!

verus! {

/// Whether byte `i` of `input` is escaped by an odd run of backslashes before it.
pub fn escaped(input: &str, offset: usize) -> (r: bool)
    requires
        offset <= input.spec_bytes().len(),
        is_boundary(input.spec_bytes(), offset as int),
    ensures
        r == is_escaped(input.spec_bytes(), offset as int),
{
    let b = input.as_bytes();
    let mut i = offset;
    let mut count: usize = 0;
    while i > 0 && b[i - 1] == BACKSLASH
        invariant
            i <= offset <= b@.len(),
            count + i == offset,
            backslashes_before(b@, offset as int) == count + backslashes_before(b@, i as int),
        decreases i,
    {
        i -= 1;
        count += 1;
    }
    count % 2 == 1
}

/// The number of bytes of a delimiter's opener.
pub fn open_len(d: Delim) -> (n: usize)
    ensures
        n == open_of(d).len(),
{
    match d {
        Delim::Dollar => 1,
        _ => 2,
    }
}

/// The number of bytes of a delimiter's closer.
pub fn close_len(d: Delim) -> (n: usize)
    ensures
        n == close_of(d).len(),
{
    match d {
        Delim::Dollar => 1,
        _ => 2,
    }
}

/// A pattern of one byte starts at `i` exactly when that byte is there.
pub proof fn lemma_starts_with_1(b: Seq<u8>, i: int, x: u8)
    ensures
        starts_with_at(b, i, seq![x]) <==> (0 <= i && i + 1 <= b.len() && b[i] == x),
{
    if 0 <= i && i + 1 <= b.len() {
        assert(b.subrange(i, i + 1) =~= seq![b[i]]);
        if b.subrange(i, i + 1) == seq![x] {
            assert(b.subrange(i, i + 1)[0] == x);
        }
    }
}

/// A pattern of two bytes starts at `i` exactly when those bytes are there.
pub proof fn lemma_starts_with_2(b: Seq<u8>, i: int, x: u8, y: u8)
    ensures
        starts_with_at(b, i, seq![x, y]) <==> (0 <= i && i + 2 <= b.len() && b[i] == x && b[i
            + 1] == y),
{
    if 0 <= i && i + 2 <= b.len() {
        assert(b.subrange(i, i + 2) =~= seq![b[i], b[i + 1]]);
        if b.subrange(i, i + 2) == seq![x, y] {
            assert(b.subrange(i, i + 2)[0] == x);
            assert(b.subrange(i, i + 2)[1] == y);
        }
    }
}

/// The delimiter that opens at byte `i` of `b`.
pub fn opener(b: &[u8], i: usize) -> (r: Option<Delim>)
    requires
        i < b@.len(),
    ensures
        r == opener_at(b@, i as int),
{
    let n = b.len();
    proof {
        lemma_starts_with_2(b@, i as int, DOLLAR, DOLLAR);
        lemma_starts_with_2(b@, i as int, BACKSLASH, LBRACKET);
        lemma_starts_with_2(b@, i as int, BACKSLASH, LPAREN);
        lemma_starts_with_1(b@, i as int, DOLLAR);
    }
    if i + 1 < n && b[i] == DOLLAR && b[i + 1] == DOLLAR {
        Some(Delim::DoubleDollar)
    } else if i + 1 < n && b[i] == BACKSLASH && b[i + 1] == LBRACKET {
        Some(Delim::Bracket)
    } else if i + 1 < n && b[i] == BACKSLASH && b[i + 1] == LPAREN {
        Some(Delim::Paren)
    } else if b[i] == DOLLAR {
        Some(Delim::Dollar)
    } else {
        None
    }
}

/// Whether the closer of `d` stands at byte `i` of `b`.
pub fn closes_at(b: &[u8], i: usize, d: Delim) -> (r: bool)
    requires
        i + close_of(d).len() <= b@.len(),
    ensures
        r == (b@.subrange(i as int, i + close_of(d).len()) == close_of(d)),
{
    proof {
        lemma_starts_with_2(b@, i as int, DOLLAR, DOLLAR);
        lemma_starts_with_2(b@, i as int, BACKSLASH, RBRACKET);
        lemma_starts_with_2(b@, i as int, BACKSLASH, RPAREN);
        lemma_starts_with_1(b@, i as int, DOLLAR);
    }
    match d {
        Delim::Dollar => b[i] == DOLLAR,
        Delim::DoubleDollar => b[i] == DOLLAR && b[i + 1] == DOLLAR,
        Delim::Bracket => b[i] == BACKSLASH && b[i + 1] == RBRACKET,
        Delim::Paren => b[i] == BACKSLASH && b[i + 1] == RPAREN,
    }
}

/// Whether `x` continues a character in UTF-8.
pub fn is_continuation(x: u8) -> (r: bool)
    ensures
        r == is_continuation_byte(x),
{
    0x80 <= x && x <= 0xBF
}

/// Where the character that starts at byte `i` ends.
pub fn next_boundary_after(b: &[u8], i: usize) -> (j: usize)
    requires
        i < b@.len(),
    ensures
        j == next_boundary(b@, i as int),
{
    let n = b.len();
    let mut j = i + 1;
    while j < n && is_continuation(b[j])
        invariant
            n == b@.len(),
            i + 1 <= j <= b@.len(),
            next_boundary(b@, i as int) == next_boundary(b@, j - 1),
        decreases b.len() - j,
    {
        j += 1;
    }
    j
}

/// Where the search for an inline formula's closer stops: the first character boundary
/// at least `MAX_MATH_BYTES` after `body`, or the end.
pub fn inline_limit(b: &[u8], body: usize) -> (r: usize)
    requires
        body <= b@.len(),
    ensures
        r == boundary_from(b@, body + MAX_MATH_BYTES),
{
    if b.len() - body <= MAX_MATH_BYTES {
        return b.len();
    }
    let mut p = body + MAX_MATH_BYTES;
    while p < b.len() && is_continuation(b[p])
        invariant
            body + MAX_MATH_BYTES <= p <= b@.len(),
            boundary_from(b@, p as int) == boundary_from(b@, body + MAX_MATH_BYTES),
        decreases b.len() - p,
    {
        p += 1;
    }
    p
}

/// The first unescaped closer of `d` in `b[p..lim]`, as [`find_close`] describes it.
pub fn find_closer(input: &str, b: &[u8], p: usize, lim: usize, d: Delim) -> (r: Option<usize>)
    requires
        b@ == input.spec_bytes(),
        p <= lim <= b@.len(),
    ensures
        (match find_close(b@, p as int, lim as int, close_of(d)) {
            Some(e) => r == Some(e as usize) && p <= e && e + close_of(d).len() <= lim
                && b@.subrange(e, e + close_of(d).len()) == close_of(d),
            None => r is None,
        }),
{
    proof {
        lemma_find_close(b@, p as int, lim as int, close_of(d));
    }
    let cl = close_len(d);
    let mut i = p;
    while lim - i >= cl
        invariant
            b@ == input.spec_bytes(),
            p <= i <= lim <= b@.len(),
            cl == close_of(d).len(),
            find_close(b@, i as int, lim as int, close_of(d)) == find_close(
                b@,
                p as int,
                lim as int,
                close_of(d),
            ),
        decreases lim - i,
    {
        if closes_at(b, i, d) {
            assert(b@[i as int] == close_of(d)[0]);
            if escaped(input, i) {
                i += cl;
                continue;
            }
            return Some(i);
        }
        i += 1;
    }
    None
}

/// The characters of a vector, checked for one.
pub fn contains_char(v: &Vec<char>, c: char) -> (r: bool)
    ensures
        r == v@.contains(c),
{
    let mut i: usize = 0;
    while i < v.len()
        invariant
            i <= v.len(),
            forall|k: int| 0 <= k < i ==> v@[k] != c,
        decreases v.len() - i,
    {
        if v[i] == c {
            return true;
        }
        i += 1;
    }
    false
}

/// Whether some character of `v` is not whitespace.
pub fn has_non_whitespace(v: &Vec<char>) -> (r: bool)
    ensures
        r == exists|k: int| 0 <= k < v@.len() && !is_white_space(#[trigger] v@[k]),
{
    let mut i: usize = 0;
    while i < v.len()
        invariant
            i <= v.len(),
            forall|k: int| 0 <= k < i ==> is_white_space(#[trigger] v@[k]),
        decreases v.len() - i,
    {
        if !is_whitespace(v[i]) {
            return true;
        }
        i += 1;
    }
    false
}

/// Whether a formula starts with a digit and holds no operator.
pub fn is_plain_number(f: &Vec<char>) -> (r: bool)
    ensures
        r == (f@.len() > 0 && is_ascii_digit_char(f@[0]) && !(exists|k: int|
            0 <= k < f@.len() && is_operator_char(#[trigger] f@[k]))),
{
    if !(f.len() > 0 && '0' <= f[0] && f[0] <= '9') {
        return false;
    }
    let mut i: usize = 0;
    while i < f.len()
        invariant
            i <= f.len(),
            forall|k: int| 0 <= k < i ==> !is_operator_char(#[trigger] f@[k]),
        decreases f.len() - i,
    {
        let c = f[i];
        if c == '\\' || c == '^' || c == '_' || c == '=' || c == '+' || c == '-' || c == '*' || c
            == '/' || c == '<' || c == '>' {
            assert(is_operator_char(f@[i as int]));
            return false;
        }
        i += 1;
    }
    true
}

/// Whether every character of a formula is an uppercase ASCII letter.
pub fn is_all_upper(f: &Vec<char>) -> (r: bool)
    ensures
        r == forall|k: int| 0 <= k < f@.len() ==> is_ascii_upper_char(#[trigger] f@[k]),
{
    let mut i: usize = 0;
    while i < f.len()
        invariant
            i <= f.len(),
            forall|k: int| 0 <= k < i ==> is_ascii_upper_char(#[trigger] f@[k]),
        decreases f.len() - i,
    {
        if !('A' <= f[i] && f[i] <= 'Z') {
            return false;
        }
        i += 1;
    }
    true
}

/// Whether a `$..$` formula reads as money or as a run of capitals.
pub fn is_plain_dollar(f: &Vec<char>, byte_len: usize) -> (r: bool)
    ensures
        r == is_plain_dollar_text(f@, byte_len as int),
{
    is_plain_number(f) || (byte_len > 1 && is_all_upper(f))
}

} // verus!

verus! {

/// A rendered formula and the byte span of the source that it replaces.
pub struct Replacement {
    pub span: ByteRange,
    pub text: String,
}

/// The spans and texts of replacements.
pub open spec fn reps_view(v: Seq<Replacement>) -> Seq<(ByteRange, Seq<char>)> {
    Seq::new(v.len(), |k: int| (v[k].span, v[k].text@))
}

/// One step of the scanner, unfolded: it moves forward, and the scan from the state it
/// reaches finds what the scan from the state before it finds.
pub proof fn lemma_scan_unfold(b: Seq<u8>, p: Seq<ByteRange>, s: ScanState)
    requires
        0 <= s.offset < b.len(),
    ensures
        scan_step(b, p, s).offset > s.offset,
        scan(b, p, s) == scan(b, p, scan_step(b, p, s)),
{
    lemma_step_advances(b, p, s);
}

/// Where a line starts: at the beginning, or right after a newline.
pub proof fn lemma_line_start(b: Seq<u8>, i: int)
    requires
        0 <= i <= b.len(),
    ensures
        0 <= line_start(b, i) <= i,
        line_start(b, i) > 0 ==> b[line_start(b, i) - 1] == NEWLINE,
    decreases i,
{
    if i > 0 && b[i - 1] != NEWLINE {
        lemma_line_start(b, i - 1);
    }
}

/// Scans the UTF-8 bytes of `input` for math, skipping the protected ranges in the order
/// given; returns the display ranges and the replacements found.
#[verifier::rlimit(80)]
pub fn scan_found(input: &str, protected: &Vec<ByteRange>) -> (r: (Vec<ByteRange>, Vec<Replacement>))
    ensures
        r.0@ == scan_all(input.spec_bytes(), protected@).display,
        reps_view(r.1@) == scan_all(input.spec_bytes(), protected@).replacements,
{
    let b = input.as_bytes();
    let n = b.len();
    proof {
        vstd::utf8::encode_utf8_valid_utf8(input@);
    }
    let mut offset: usize = 0;
    let mut scanned: usize = 0;
    let mut line: usize = 0;
    let mut q: usize = 0;
    let mut display: Vec<ByteRange> = Vec::new();
    let mut reps: Vec<Replacement> = Vec::new();
    assert(reps_view(reps@) =~= Seq::<(ByteRange, Seq<char>)>::empty());
    while offset < n
        invariant
            b@ == input.spec_bytes(),
            n == b@.len(),
            vstd::utf8::valid_utf8(b@),
            scanned <= offset,
            scanned <= n,
            line == line_start(b@, scanned as int),
            q <= protected@.len(),
            scan(
                b@,
                protected@,
                ScanState {
                    offset: offset as int,
                    q: q as int,
                    found: Found { display: display@, replacements: reps_view(reps@) },
                },
            ) == scan_all(b@, protected@),
        decreases n - offset,
    {
        let ghost st = ScanState {
            offset: offset as int,
            q: q as int,
            found: Found { display: display@, replacements: reps_view(reps@) },
        };
        let ghost next = scan_step(b@, protected@, st);
        proof {
            lemma_scan_unfold(b@, protected@, st);
            lemma_advance_queue(protected@, q as int, offset as int);
        }
        let mut k = offset;
        while k > scanned && b[k - 1] != NEWLINE
            invariant
                scanned <= k <= offset < n,
                n == b@.len(),
                line_start(b@, offset as int) == line_start(b@, k as int),
            decreases k,
        {
            k -= 1;
        }
        if k > scanned {
            line = k;
        }
        scanned = offset;
        assert(line == line_start(b@, offset as int));
        let ghost q0 = q;
        while q < protected.len() && protected[q].end <= offset
            invariant
                q0 <= q <= protected@.len(),
                advance_queue(protected@, q as int, offset as int) == advance_queue(
                    protected@,
                    q0 as int,
                    offset as int,
                ),
            decreases protected.len() - q,
        {
            q += 1;
        }
        assert(q == advance_queue(protected@, st.q, st.offset));
        if q < protected.len() && protected[q].start <= offset && offset < protected[q].end {
            let stop = protected[q].end;
            offset = if stop < n { stop } else { n };
            continue;
        }
        let d = match opener(b, offset) {
            None => {
                proof {
                    lemma_next_boundary(b@, offset as int);
                }
                offset = next_boundary_after(b, offset);
                continue;
            },
            Some(d) => d,
        };
        let start = offset;
        let body = start + open_len(d);
        assert(b@[body - 1] == open_of(d)[open_of(d).len() - 1]);
        proof {
            lemma_after_ascii(b@, body - 1);
        }
        if escaped(input, start) {
            offset = body;
            continue;
        }
        if d == Delim::Dollar && body < n {
            if is_whitespace(char_at(input, body)) || b[body] == LPAREN || b[body] == LBRACE {
                offset = body;
                continue;
            }
        }
        let display_math = match d {
            Delim::DoubleDollar | Delim::Bracket => true,
            _ => false,
        };
        let lim = if display_math {
            n
        } else {
            inline_limit(b, body)
        };
        proof {
            lemma_boundary_from(b@, body + MAX_MATH_BYTES);
        }
        let end = find_closer(input, b, body, lim, d);
        if display_math {
            if d == Delim::DoubleDollar && end.is_none() {
                proof {
                    lemma_line_start(b@, start as int);
                    if line > 0 {
                        lemma_after_ascii(b@, line - 1);
                    }
                }
                let line_text = str_chars(slice_str(input, line, start));
                if has_non_whitespace(&line_text) {
                    offset = body;
                    continue;
                }
            }
            let stop = match end {
                Some(e) => e + close_len(d),
                None => n,
            };
            display.push(ByteRange { start, end: stop });
            offset = stop;
            continue;
        }
        let e = match end {
            None => {
                offset = body;
                continue;
            },
            Some(e) => e,
        };
        let span_end = e + close_len(d);
        proof {
            lemma_after_ascii(b@, span_end - 1);
        }
        if q < protected.len() && protected[q].start < span_end {
            offset = body;
            continue;
        }
        let formula = slice_str(input, body, e);
        let fchars = str_chars(formula);
        if contains_char(&fchars, '\n') {
            offset = body;
            continue;
        }
        if d == Delim::Dollar {
            if fchars.len() > 0 && is_whitespace(fchars[fchars.len() - 1]) {
                offset = body;
                continue;
            }
            if span_end < n && is_alphanumeric(char_at(input, span_end)) {
                offset = body;
                continue;
            }
            if is_plain_dollar(&fchars, e - body) {
                offset = span_end;
                continue;
            }
        }
        let text = match render(formula) {
            Some(t) => t,
            None => slice_str(input, start, span_end).to_owned(),
        };
        let ghost old_reps = reps@;
        reps.push(Replacement { span: ByteRange { start, end: span_end }, text });
        assert(reps_view(reps@) =~= reps_view(old_reps).push(
            (ByteRange { start, end: span_end }, text@),
        ));
        offset = span_end;
    }
    (display, reps)
}

} // verus!

verus! {

/// Two byte ranges share no byte.
pub open spec fn disjoint(x: ByteRange, y: ByteRange) -> bool {
    x.end <= y.start || y.end <= x.start
}

/// Replacement spans are nonempty ranges within the text between character boundaries,
/// in increasing order without overlap.
pub open spec fn replacements_in_order(b: Seq<u8>, r: Seq<(ByteRange, Seq<char>)>) -> bool {
    &&& forall|k: int|
        0 <= k < r.len() ==> {
            let x = #[trigger] r[k].0;
            &&& x.start < x.end <= b.len()
            &&& is_boundary(b, x.start as int)
            &&& is_boundary(b, x.end as int)
        }
    &&& forall|k: int, j: int| 0 <= k < j < r.len() ==> #[trigger] r[k].0.end <= #[trigger] r[j].0.start
}

/// What the scanner finds is in order: the replacements as [`replacements_in_order`]
/// says, display ranges nonempty, within the text and in increasing order without
/// overlap, and no replacement overlapping a display range.
pub open spec fn found_ordered(b: Seq<u8>, f: Found) -> bool {
    &&& replacements_in_order(b, f.replacements)
    &&& forall|k: int|
        0 <= k < f.display.len() ==> #[trigger] f.display[k].start < f.display[k].end <= b.len()
    &&& forall|k: int, j: int|
        0 <= k < j < f.display.len() ==> #[trigger] f.display[k].end
            <= #[trigger] f.display[j].start
    &&& forall|k: int, j: int|
        0 <= k < f.replacements.len() && 0 <= j < f.display.len() ==> disjoint(
            #[trigger] f.replacements[k].0,
            #[trigger] f.display[j],
        )
}

/// Everything found so far ends at or before `upto`.
pub open spec fn found_before(f: Found, upto: int) -> bool {
    &&& forall|k: int| 0 <= k < f.replacements.len() ==> #[trigger] f.replacements[k].0.end <= upto
    &&& forall|k: int| 0 <= k < f.display.len() ==> #[trigger] f.display[k].end <= upto
}

/// What one step adds: nothing, a display range from the offset to where the step
/// stops, or a replacement span from the offset to where the step stops.
proof fn lemma_step_shape(b: Seq<u8>, p: Seq<ByteRange>, s: ScanState)
    requires
        b.len() <= usize::MAX,
        valid_utf8(b),
        0 <= s.offset < b.len(),
    ensures
        scan_step(b, p, s).offset > s.offset,
        ({
            let t = scan_step(b, p, s);
            let r = ByteRange { start: s.offset as usize, end: t.offset as usize };
            ||| t.found == s.found
            ||| (t.found.replacements == s.found.replacements && t.found.display
                == s.found.display.push(r) && t.offset <= b.len())
            ||| (t.found.display == s.found.display && t.found.replacements.len()
                == s.found.replacements.len() + 1 && t.found.replacements.drop_last()
                == s.found.replacements && t.found.replacements.last().0 == r && t.offset
                <= b.len() && is_boundary(b, s.offset) && is_boundary(b, t.offset))
        }),
{
    lemma_step_advances(b, p, s);
    if let Some(d) = opener_at(b, s.offset) {
        let body = s.offset + open_of(d).len();
        let lim = if is_display(d) {
            b.len() as int
        } else {
            boundary_from(b, body + MAX_MATH_BYTES)
        };
        lemma_boundary_from(b, body + MAX_MATH_BYTES);
        lemma_find_close(b, body, lim, close_of(d));
        if let Some(e) = find_close(b, body, lim, close_of(d)) {
            let span_end = e + close_of(d).len();
            assert(b[span_end - 1] == b.subrange(e, span_end)[close_of(d).len() - 1]);
            lemma_after_ascii(b, span_end - 1);
        }
        assert(b[s.offset] == b.subrange(s.offset, body)[0]);
    }
}

/// Adding a display range after everything found keeps what is found in order.
proof fn lemma_push_display(b: Seq<u8>, f: Found, upto: int, r: ByteRange)
    requires
        found_ordered(b, f),
        found_before(f, upto),
        upto <= r.start < r.end <= b.len(),
    ensures
        found_ordered(b, Found { display: f.display.push(r), replacements: f.replacements }),
        found_before(Found { display: f.display.push(r), replacements: f.replacements }, r.end as int),
{
    let g = Found { display: f.display.push(r), replacements: f.replacements };
    assert forall|k: int, j: int|
        0 <= k < g.replacements.len() && 0 <= j < g.display.len() implies disjoint(
        #[trigger] g.replacements[k].0,
        #[trigger] g.display[j],
    ) by {
        if j < f.display.len() {
            assert(g.display[j] == f.display[j]);
        }
    }
    assert forall|k: int, j: int|
        0 <= k < j < g.display.len() implies #[trigger] g.display[k].end
        <= #[trigger] g.display[j].start by {
        assert(g.display[k] == f.display[k]);
        if j < f.display.len() {
            assert(g.display[j] == f.display[j]);
        }
    }
}

/// Adding a replacement after everything found keeps what is found in order.
proof fn lemma_push_replacement(b: Seq<u8>, f: Found, upto: int, g: Found)
    requires
        found_ordered(b, f),
        found_before(f, upto),
        g.display == f.display,
        g.replacements.len() == f.replacements.len() + 1,
        g.replacements.drop_last() == f.replacements,
        upto <= g.replacements.last().0.start < g.replacements.last().0.end <= b.len(),
        is_boundary(b, g.replacements.last().0.start as int),
        is_boundary(b, g.replacements.last().0.end as int),
    ensures
        found_ordered(b, g),
        found_before(g, g.replacements.last().0.end as int),
{
    let n = f.replacements.len() as int;
    assert forall|k: int| 0 <= k < n implies #[trigger] g.replacements[k] == f.replacements[k] by {
        assert(g.replacements.drop_last()[k] == g.replacements[k]);
    }
    assert forall|k: int, j: int|
        0 <= k < g.replacements.len() && 0 <= j < g.display.len() implies disjoint(
        #[trigger] g.replacements[k].0,
        #[trigger] g.display[j],
    ) by {
        if k < n {
            assert(g.replacements[k] == f.replacements[k]);
        }
    }
    assert forall|k: int, j: int|
        0 <= k < j < g.replacements.len() implies #[trigger] g.replacements[k].0.end
        <= #[trigger] g.replacements[j].0.start by {
        assert(g.replacements[k] == f.replacements[k]);
        if j < n {
            assert(g.replacements[j] == f.replacements[j]);
        }
    }
    assert forall|k: int|
        0 <= k < g.replacements.len() implies #[trigger] g.replacements[k].0.end <= g.replacements.last().0.end by {
        if k < n {
            assert(g.replacements[k] == f.replacements[k]);
        }
    }
}

/// One step keeps what is found in order.
proof fn lemma_step_ordered(b: Seq<u8>, p: Seq<ByteRange>, s: ScanState)
    requires
        b.len() <= usize::MAX,
        valid_utf8(b),
        0 <= s.offset < b.len(),
        found_ordered(b, s.found),
        found_before(s.found, s.offset),
    ensures
        scan_step(b, p, s).offset > s.offset,
        found_ordered(b, scan_step(b, p, s).found),
        found_before(scan_step(b, p, s).found, scan_step(b, p, s).offset),
{
    lemma_step_shape(b, p, s);
    let t = scan_step(b, p, s);
    let r = ByteRange { start: s.offset as usize, end: t.offset as usize };
    assert(r.start == s.offset && (t.offset <= b.len() ==> r.end == t.offset));
    if t.found == s.found {
    } else if t.found.replacements == s.found.replacements && t.found.display
        == s.found.display.push(r) && t.offset <= b.len() {
        lemma_push_display(b, s.found, s.offset, r);
    } else {
        lemma_push_replacement(b, s.found, s.offset, t.found);
    }
}

/// The scanner finds things in order (see [`found_ordered`]).
pub proof fn lemma_scan_ordered(b: Seq<u8>, p: Seq<ByteRange>, s: ScanState)
    requires
        b.len() <= usize::MAX,
        valid_utf8(b),
        0 <= s.offset,
        found_ordered(b, s.found),
        found_before(s.found, s.offset),
    ensures
        found_ordered(b, scan(b, p, s)),
    decreases b.len() - s.offset,
{
    if s.offset < b.len() {
        lemma_step_ordered(b, p, s);
        let t = scan_step(b, p, s);
        if t.offset < b.len() {
            lemma_scan_ordered(b, p, t);
        }
    }
}

} // verus!
