//! Properties that hold of every text: what the scanner may and may not touch, and what
//! the renderer and the event splitting promise.

use vstd::prelude::*;
use vstd::string::StringSliceAdditionalSpecFns;
use vstd::utf8::{is_continuation_byte, valid_utf8};

use crate::math::{
    source_piece, text_pieces, Piece, has_math_delimiter, lemma_scan_without_delimiters, scanned_markdown, MathMarkdownView,
    split_events, skip_before, EventSpan,
};
use crate::chars::{
    alphanumeric, is_white_space, lemma_trim_end_prefix, lemma_trim_start_suffix, trim, trim_end,
    trim_start,
};
use crate::render::{
    alpha_prefix_len, first_index, is_first_index, lemma_alpha_prefix, next_has_base, next_sub,
    next_sup, refused_atom_char, spec_argument, spec_atom, spec_atom_inner, spec_command,
    spec_render, spec_sequence, spec_sequence_loop, spec_text_body, MAX_DEPTH, MAX_WIDTH, done,
    stop, Step, blackboard_of, lemma_first_index_is, refused_text_char,
};
use crate::width::display_width;
use crate::tables::{subscript_of, superscript_of, symbol_of};
use crate::scan::{
    advance_queue, boundary_from, chars_between, close_of, disjoint, find_close, found_ordered,
    is_display, lemma_advance_queue, lemma_boundary_from, lemma_find_close, lemma_scan_ordered,
    lemma_step_advances, mask, open_of, opener_at, scan, scan_all, scan_step, ByteRange, Delim,
    Found, ScanState, DOLLAR, MAX_MATH_BYTES, is_escaped, line_start, is_plain_dollar_text,
    starts_with_at,
};

verus! {

/// The ranges are sorted by their start.
pub open spec fn sorted_by_start(p: Seq<ByteRange>) -> bool {
    forall|i: int, j: int| 0 <= i < j < p.len() ==> #[trigger] p[i].start <= #[trigger] p[j].start
}

/// The scanner's state keeps clear of the protected ranges: the ranges it has passed end
/// at or before its offset, and no replacement found overlaps any protected range.
pub open spec fn clear_of_protected(p: Seq<ByteRange>, s: ScanState) -> bool {
    &&& 0 <= s.q <= p.len()
    &&& forall|k: int| 0 <= k < s.q ==> #[trigger] p[k].end <= s.offset
    &&& forall|k: int, j: int|
        0 <= k < s.found.replacements.len() && 0 <= j < p.len() ==> disjoint(
            #[trigger] s.found.replacements[k].0,
            #[trigger] p[j],
        )
}

proof fn lemma_step_clear(b: Seq<u8>, p: Seq<ByteRange>, s: ScanState)
    requires
        b.len() <= usize::MAX,
        sorted_by_start(p),
        0 <= s.offset < b.len(),
        clear_of_protected(p, s),
    ensures
        clear_of_protected(p, scan_step(b, p, s)),
{
    lemma_step_advances(b, p, s);
    lemma_advance_queue(p, s.q, s.offset);
    let q = advance_queue(p, s.q, s.offset);
    let t = scan_step(b, p, s);
    assert(t.q == q);
    if t.found.replacements.len() != s.found.replacements.len() {
        let d = opener_at(b, s.offset)->0;
        let body = s.offset + open_of(d).len();
        let lim = boundary_from(b, body + MAX_MATH_BYTES);
        lemma_boundary_from(b, body + MAX_MATH_BYTES);
        lemma_find_close(b, body, lim, close_of(d));
        lemma_close_within_budget(b, body, d);
        let e = find_close(b, body, lim, close_of(d))->0;
        let x = t.found.replacements.last().0;
        assert(x.start == s.offset && x.end == e + close_of(d).len());
        assert(t.found.replacements == s.found.replacements.push(t.found.replacements.last()));
        assert forall|k: int, j: int|
            0 <= k < t.found.replacements.len() && 0 <= j < p.len() implies disjoint(
            #[trigger] t.found.replacements[k].0,
            #[trigger] p[j],
        ) by {
            if k < s.found.replacements.len() {
                assert(t.found.replacements[k] == s.found.replacements[k]);
            } else if j < q {
                assert(p[j].end <= s.offset);
            } else {
                assert(p[q].start <= p[j].start);
            }
        }
    }
}

proof fn lemma_scan_clear(b: Seq<u8>, p: Seq<ByteRange>, s: ScanState)
    requires
        b.len() <= usize::MAX,
        sorted_by_start(p),
        0 <= s.offset,
        clear_of_protected(p, s),
    ensures
        forall|k: int, j: int|
            0 <= k < scan(b, p, s).replacements.len() && 0 <= j < p.len() ==> disjoint(
                #[trigger] scan(b, p, s).replacements[k].0,
                #[trigger] p[j],
            ),
    decreases b.len() - s.offset,
{
    if s.offset < b.len() {
        lemma_step_advances(b, p, s);
        lemma_step_clear(b, p, s);
        let t = scan_step(b, p, s);
        if t.offset < b.len() {
            lemma_scan_clear(b, p, t);
            assert(scan(b, p, s) == scan(b, p, t));
        } else {
            assert(scan(b, p, s) == t.found);
        }
    } else {
        assert(scan(b, p, s) == s.found);
    }
}

/// Math is never recognized inside what the Markdown parser protects: no replacement
/// span overlaps a protected range (code, HTML, a link, an image or a reference
/// definition), when the protected ranges are sorted by start.
pub proof fn law_replacements_avoid_protected(b: Seq<u8>, p: Seq<ByteRange>)
    requires
        b.len() <= usize::MAX,
        sorted_by_start(p),
    ensures
        forall|k: int, j: int|
            0 <= k < scan_all(b, p).replacements.len() && 0 <= j < p.len() ==> disjoint(
                #[trigger] scan_all(b, p).replacements[k].0,
                #[trigger] p[j],
            ),
{
    let s0 = ScanState { offset: 0, q: 0, found: Found { display: seq![], replacements: seq![] } };
    lemma_scan_clear(b, p, s0);
}

/// Everything the scanner finds in a UTF-8 text is in order: replacements and display
/// equations are nonempty ranges within the text, each list increasing without overlap,
/// replacements lie between character boundaries, and no replacement overlaps a display
/// equation.
pub proof fn law_found_in_order(b: Seq<u8>, p: Seq<ByteRange>)
    requires
        valid_utf8(b),
        b.len() <= usize::MAX,
    ensures
        found_ordered(b, scan_all(b, p)),
{
    let s0 = ScanState { offset: 0, q: 0, found: Found { display: seq![], replacements: seq![] } };
    lemma_scan_ordered(b, p, s0);
}

/// Masking keeps the text's offsets: the masked Markdown has as many bytes as the text,
/// holds `$` inside each replaced span, and the text's own byte everywhere else.
pub proof fn law_mask_keeps_offsets(b: Seq<u8>, p: Seq<ByteRange>)
    ensures
        scanned_markdown(b, p).markdown.len() == b.len(),
        forall|k: int, i: int|
            0 <= k < scanned_markdown(b, p).replacements.len() && 0 <= i < b.len()
                && scanned_markdown(b, p).replacements[k].0.start <= i
                < #[trigger] scanned_markdown(b, p).replacements[k].0.end ==> #[trigger] scanned_markdown(
                b,
                p,
            ).markdown[i] == DOLLAR,
        forall|i: int|
            0 <= i < b.len() && (forall|k: int|
                0 <= k < scanned_markdown(b, p).replacements.len() ==> !(scanned_markdown(
                    b,
                    p,
                ).replacements[k].0.start <= i
                    < #[trigger] scanned_markdown(b, p).replacements[k].0.end))
                ==> #[trigger] scanned_markdown(b, p).markdown[i] == b[i],
{
    let v = scanned_markdown(b, p);
    let r = scan_all(b, p).replacements;
    assert(v.replacements == r);
    assert forall|i: int|
        0 <= i < b.len() && (forall|k: int|
            0 <= k < v.replacements.len() ==> !(v.replacements[k].0.start <= i
                < #[trigger] v.replacements[k].0.end)) implies #[trigger] v.markdown[i] == b[i] by {
        assert(!(exists|k: int| 0 <= k < r.len() && r[k].0.start <= i < #[trigger] r[k].0.end));
    }
}

/// A text without `$`, `\(` or `\[` comes back unchanged, with nothing found.
pub proof fn law_no_delimiter_no_change(b: Seq<u8>, p: Seq<ByteRange>)
    requires
        !has_math_delimiter(b),
    ensures
        scanned_markdown(b, p).markdown == b,
        scanned_markdown(b, p).display_ranges.len() == 0,
        scanned_markdown(b, p).replacements.len() == 0,
{
    let s0 = ScanState { offset: 0, q: 0, found: Found { display: seq![], replacements: seq![] } };
    lemma_scan_without_delimiters(b, p, s0);
    assert(mask(b, seq![]) =~= b);
}

} // verus!

verus! {

/// Below `boundary_from(b, p)` there is no character boundary at or after `p`.
proof fn lemma_boundary_from_first(b: Seq<u8>, p: int, j: int)
    requires
        0 <= p <= j < boundary_from(b, p),
    ensures
        j < b.len() && is_continuation_byte(b[j]),
    decreases b.len() - p,
{
    if p < b.len() && is_continuation_byte(b[p]) && p < j {
        lemma_boundary_from_first(b, p + 1, j);
    }
}

/// An inline closer found within the conversion budget starts less than
/// `MAX_MATH_BYTES` bytes after the formula's start.
proof fn lemma_close_within_budget(b: Seq<u8>, body: int, d: Delim)
    requires
        0 <= body,
        !is_display(d),
        find_close(b, body, boundary_from(b, body + MAX_MATH_BYTES), close_of(d)) is Some,
    ensures
        find_close(b, body, boundary_from(b, body + MAX_MATH_BYTES), close_of(d))->0 < body
            + MAX_MATH_BYTES,
{
    let lim = boundary_from(b, body + MAX_MATH_BYTES);
    let close = close_of(d);
    lemma_boundary_from(b, body + MAX_MATH_BYTES);
    lemma_find_close(b, body, lim, close);
    let e = find_close(b, body, lim, close)->0;
    assert(b[e] == b.subrange(e, e + close.len())[0]);
    if e >= body + MAX_MATH_BYTES {
        lemma_boundary_from_first(b, body + MAX_MATH_BYTES, e);
    }
}

/// A replacement is an inline formula, `$..$` or `\(..\)`, opened by an unescaped
/// opener at its span's start and closed by the first unescaped closer within the
/// conversion budget at its end; the formula between them is shorter than
/// `MAX_MATH_BYTES` bytes and holds no newline. A `$..$` formula is also tight at both
/// dollars, is not followed by a letter or digit, and reads neither as money nor as
/// capitals. Its text is the rendering of the formula, or, where the renderer refuses
/// the formula, the span's source as it stands.
pub open spec fn is_rendered_inline(b: Seq<u8>, x: (ByteRange, Seq<char>)) -> bool {
    match opener_at(b, x.0.start as int) {
        Some(d) => {
            let body = x.0.start + open_of(d).len();
            let e = x.0.end - close_of(d).len();
            &&& !is_display(d)
            &&& !is_escaped(b, x.0.start as int)
            &&& body <= e < body + 4096
            &&& find_close(b, body, boundary_from(b, body + MAX_MATH_BYTES), close_of(d)) == Some(
                e,
            )
            &&& b.subrange(e, x.0.end as int) == close_of(d)
            &&& !is_escaped(b, e)
            &&& !chars_between(b, body, e).contains('\n')
            &&& d == Delim::Dollar ==> {
                let f = chars_between(b, body, e);
                // The opening `$` is tight: no space, `(` or `{` follows it.
                &&& !is_white_space(chars_between(b, body, b.len() as int)[0])
                &&& b[body] != 0x28u8 && b[body] != 0x7Bu8
                // The closing `$` is tight too, and no letter or digit follows it.
                &&& !(f.len() > 0 && is_white_space(f.last()))
                &&& x.0.end < b.len() ==> !alphanumeric(chars_between(b, x.0.end as int, b.len() as int)[0])
                // It reads neither as money nor as capitals.
                &&& !is_plain_dollar_text(f, e - body)
            }
            &&& x.1 == match spec_render(chars_between(b, body, e)) {
                Some(t) => t,
                None => chars_between(b, x.0.start as int, x.0.end as int),
            }
        },
        None => false,
    }
}

proof fn lemma_step_rendered(b: Seq<u8>, p: Seq<ByteRange>, s: ScanState)
    requires
        b.len() <= usize::MAX,
        0 <= s.offset < b.len(),
        forall|k: int|
            0 <= k < s.found.replacements.len() ==> is_rendered_inline(
                b,
                #[trigger] s.found.replacements[k],
            ),
    ensures
        forall|k: int|
            0 <= k < scan_step(b, p, s).found.replacements.len() ==> is_rendered_inline(
                b,
                #[trigger] scan_step(b, p, s).found.replacements[k],
            ),
{
    let t = scan_step(b, p, s);
    if t.found.replacements.len() != s.found.replacements.len() {
        let d = opener_at(b, s.offset)->0;
        let body = s.offset + open_of(d).len();
        let lim = boundary_from(b, body + MAX_MATH_BYTES);
        lemma_boundary_from(b, body + MAX_MATH_BYTES);
        lemma_find_close(b, body, lim, close_of(d));
        lemma_close_within_budget(b, body, d);
        assert(t.found.replacements == s.found.replacements.push(t.found.replacements.last()));
        assert(is_rendered_inline(b, t.found.replacements.last()));
        assert forall|k: int|
            0 <= k < t.found.replacements.len() implies is_rendered_inline(
            b,
            #[trigger] t.found.replacements[k],
        ) by {
            if k < s.found.replacements.len() {
                assert(t.found.replacements[k] == s.found.replacements[k]);
            }
        }
    }
}

proof fn lemma_scan_rendered(b: Seq<u8>, p: Seq<ByteRange>, s: ScanState)
    requires
        b.len() <= usize::MAX,
        0 <= s.offset,
        forall|k: int|
            0 <= k < s.found.replacements.len() ==> is_rendered_inline(
                b,
                #[trigger] s.found.replacements[k],
            ),
    ensures
        forall|k: int|
            0 <= k < scan(b, p, s).replacements.len() ==> is_rendered_inline(
                b,
                #[trigger] scan(b, p, s).replacements[k],
            ),
    decreases b.len() - s.offset,
{
    if s.offset < b.len() {
        lemma_step_advances(b, p, s);
        lemma_step_rendered(b, p, s);
        let t = scan_step(b, p, s);
        if t.offset < b.len() {
            lemma_scan_rendered(b, p, t);
            assert(scan(b, p, s) == scan(b, p, t));
        } else {
            assert(scan(b, p, s) == t.found);
        }
    } else {
        assert(scan(b, p, s) == s.found);
    }
}

/// A display range is an equation, `$$..$$` or `\[..\]`, opened by an unescaped opener
/// at its start. It ends right after the first unescaped closer, which is searched for
/// without the conversion budget; without a closer it runs to the end of the text, which
/// for `$$` happens only where nothing but whitespace precedes the opener on its line.
pub open spec fn is_display_equation(b: Seq<u8>, r: ByteRange) -> bool {
    match opener_at(b, r.start as int) {
        Some(d) => {
            let body = r.start + open_of(d).len();
            let line = chars_between(b, line_start(b, r.start as int), r.start as int);
            &&& is_display(d)
            &&& !is_escaped(b, r.start as int)
            &&& match find_close(b, body, b.len() as int, close_of(d)) {
                Some(e) => r.end == e + close_of(d).len(),
                None => r.end == b.len() && (d == Delim::DoubleDollar ==> forall|k: int|
                    0 <= k < line.len() ==> is_white_space(#[trigger] line[k])),
            }
        },
        None => false,
    }
}

proof fn lemma_step_display(b: Seq<u8>, p: Seq<ByteRange>, s: ScanState)
    requires
        b.len() <= usize::MAX,
        0 <= s.offset < b.len(),
        forall|k: int|
            0 <= k < s.found.display.len() ==> is_display_equation(
                b,
                #[trigger] s.found.display[k],
            ),
    ensures
        forall|k: int|
            0 <= k < scan_step(b, p, s).found.display.len() ==> is_display_equation(
                b,
                #[trigger] scan_step(b, p, s).found.display[k],
            ),
{
    let t = scan_step(b, p, s);
    if t.found.display.len() != s.found.display.len() {
        let d = opener_at(b, s.offset)->0;
        let body = s.offset + open_of(d).len();
        lemma_find_close(b, body, b.len() as int, close_of(d));
        assert(t.found.display == s.found.display.push(t.found.display.last()));
        assert(is_display_equation(b, t.found.display.last()));
        assert forall|k: int|
            0 <= k < t.found.display.len() implies is_display_equation(
            b,
            #[trigger] t.found.display[k],
        ) by {
            if k < s.found.display.len() {
                assert(t.found.display[k] == s.found.display[k]);
            }
        }
    }
}

proof fn lemma_scan_display(b: Seq<u8>, p: Seq<ByteRange>, s: ScanState)
    requires
        b.len() <= usize::MAX,
        0 <= s.offset,
        forall|k: int|
            0 <= k < s.found.display.len() ==> is_display_equation(
                b,
                #[trigger] s.found.display[k],
            ),
    ensures
        forall|k: int|
            0 <= k < scan(b, p, s).display.len() ==> is_display_equation(
                b,
                #[trigger] scan(b, p, s).display[k],
            ),
    decreases b.len() - s.offset,
{
    if s.offset < b.len() {
        lemma_step_advances(b, p, s);
        lemma_step_display(b, p, s);
        let t = scan_step(b, p, s);
        if t.offset < b.len() {
            lemma_scan_display(b, p, t);
            assert(scan(b, p, s) == scan(b, p, t));
        } else {
            assert(scan(b, p, s) == t.found);
        }
    } else {
        assert(scan(b, p, s) == s.found);
    }
}

/// Every display range is a display equation as [`is_display_equation`] describes it:
/// its boundaries outlive the conversion budget, and an unfinished one runs to the end.
pub proof fn law_display_ranges_are_equations(b: Seq<u8>, p: Seq<ByteRange>)
    requires
        b.len() <= usize::MAX,
    ensures
        forall|k: int|
            0 <= k < scan_all(b, p).display.len() ==> is_display_equation(
                b,
                #[trigger] scan_all(b, p).display[k],
            ),
{
    let s0 = ScanState { offset: 0, q: 0, found: Found { display: seq![], replacements: seq![] } };
    lemma_scan_display(b, p, s0);
}

/// Every replacement is an inline formula, replaced by its rendering, or restored
/// verbatim where the renderer does not support it (see [`is_rendered_inline`]); display
/// equations are never replaced.
pub proof fn law_replacements_are_rendered_inline(b: Seq<u8>, p: Seq<ByteRange>)
    requires
        b.len() <= usize::MAX,
    ensures
        forall|k: int|
            0 <= k < scan_all(b, p).replacements.len() ==> is_rendered_inline(
                b,
                #[trigger] scan_all(b, p).replacements[k],
            ),
{
    let s0 = ScanState { offset: 0, q: 0, found: Found { display: seq![], replacements: seq![] } };
    lemma_scan_rendered(b, p, s0);
}

} // verus!

verus! {

/// `rest` is what is left of `rem` after a prefix of it was read.
pub open spec fn is_suffix(rest: Seq<char>, rem: Seq<char>) -> bool {
    rest.len() <= rem.len() && rest == rem.skip(rem.len() - rest.len())
}

proof fn lemma_suffix_trans(a: Seq<char>, b: Seq<char>, c: Seq<char>)
    requires
        is_suffix(a, b),
        is_suffix(b, c),
    ensures
        is_suffix(a, c),
{
    assert(c.skip(c.len() - b.len()).skip(b.len() - a.len()) =~= c.skip(c.len() - a.len()));
}

proof fn lemma_suffix_skip(s: Seq<char>, k: int)
    requires
        0 <= k <= s.len(),
    ensures
        is_suffix(s.skip(k), s),
{
}

proof fn lemma_suffix_self(s: Seq<char>)
    ensures
        is_suffix(s, s),
{
    assert(s.skip(0) =~= s);
}

proof fn lemma_suffix_drop_first(s: Seq<char>)
    requires
        s.len() > 0,
    ensures
        is_suffix(s.drop_first(), s),
{
    assert(s.skip(1) =~= s.drop_first());
}

proof fn lemma_suffix_trim(s: Seq<char>)
    ensures
        is_suffix(trim_start(s), s),
{
    lemma_trim_start_suffix(s);
}

proof fn lemma_sequence_progress(rem: Seq<char>, depth: nat, group: bool)
    ensures
        is_suffix(spec_sequence(rem, depth, group).rest, rem),
    decreases rem.len(), 4nat,
{
    lemma_suffix_self(rem);
    if depth < MAX_DEPTH {
        lemma_loop_progress(rem, depth + 1, group, seq![], false, false, false);
    }
}

proof fn lemma_loop_progress(
    rem: Seq<char>,
    depth: nat,
    group: bool,
    out: Seq<char>,
    sup: bool,
    sub: bool,
    has_base: bool,
)
    ensures
        is_suffix(spec_sequence_loop(rem, depth, group, out, sup, sub, has_base).rest, rem),
    decreases rem.len(), 3nat,
{
    lemma_suffix_self(rem);
    if rem.len() > 0 {
        let ch = rem[0];
        lemma_suffix_drop_first(rem);
        if ch != '}' {
            lemma_atom_progress(rem, depth);
            let a = spec_atom(rem, depth);
            if let Some(atom) = a.out {
                if a.rest.len() < rem.len() {
                    let (sup2, sub2, base2) = (
                        next_sup(ch, sup),
                        next_sub(ch, sub),
                        next_has_base(ch, has_base, atom),
                    );
                    lemma_loop_progress(a.rest, depth, group, out + atom, sup2, sub2, base2);
                    lemma_suffix_trans(
                        spec_sequence_loop(a.rest, depth, group, out + atom, sup2, sub2, base2).rest,
                        a.rest,
                        rem,
                    );
                }
            }
        }
    }
}

proof fn lemma_argument_progress(rem: Seq<char>, depth: nat)
    ensures
        is_suffix(spec_argument(rem, depth).rest, rem),
    decreases rem.len(), 3nat,
{
    let t = trim_start(rem);
    lemma_suffix_trim(rem);
    lemma_atom_progress(t, depth);
    lemma_suffix_trans(spec_atom(t, depth).rest, t, rem);
}

proof fn lemma_atom_progress(rem: Seq<char>, depth: nat)
    ensures
        is_suffix(spec_atom(rem, depth).rest, rem),
        spec_atom(rem, depth).out is Some ==> spec_atom(rem, depth).rest.len() < rem.len(),
    decreases rem.len(), 2nat,
{
    lemma_suffix_self(rem);
    if depth < MAX_DEPTH {
        lemma_atom_inner_progress(rem, depth + 1);
    }
}

proof fn lemma_atom_inner_progress(rem: Seq<char>, depth: nat)
    ensures
        is_suffix(spec_atom_inner(rem, depth).rest, rem),
        spec_atom_inner(rem, depth).out is Some ==> spec_atom_inner(rem, depth).rest.len()
            < rem.len(),
    decreases rem.len(), 1nat,
{
    lemma_suffix_self(rem);
    if rem.len() > 0 {
        let rest = rem.drop_first();
        lemma_suffix_drop_first(rem);
        let r = spec_atom_inner(rem, depth).rest;
        if rem[0] == '{' {
            lemma_sequence_progress(rest, depth, true);
            lemma_suffix_trans(r, rest, rem);
        } else if rem[0] == '\\' {
            lemma_command_progress(rest, depth);
            lemma_suffix_trans(r, rest, rem);
        } else if rem[0] == '^' || rem[0] == '_' {
            lemma_argument_progress(rest, depth);
            lemma_suffix_trans(r, rest, rem);
        } else if is_white_space(rem[0]) && !refused_atom_char(rem[0]) {
            lemma_suffix_trim(rest);
            lemma_suffix_trans(r, rest, rem);
        }
    }
}

proof fn lemma_text_body_progress(rem: Seq<char>, depth: nat)
    ensures
        is_suffix(spec_text_body(rem, depth).rest, rem),
{
    lemma_suffix_self(rem);
    let t = trim_start(rem);
    lemma_suffix_trim(rem);
    if t.len() > 0 && t[0] == '{' {
        let body = t.drop_first();
        lemma_suffix_drop_first(t);
        lemma_suffix_trans(body, t, rem);
        if let Some(end) = first_index(body, '}') {
            let i = choose|i: int| is_first_index(body, '}', i);
            assert(is_first_index(body, '}', i));
            lemma_suffix_skip(body, end + 1);
            lemma_suffix_trans(body.skip(end + 1), body, rem);
        }
    }
}

#[verifier::rlimit(40)]
proof fn lemma_command_progress(rem: Seq<char>, depth: nat)
    ensures
        is_suffix(spec_command(rem, depth).rest, rem),
    decreases rem.len(), 0nat,
{
    lemma_suffix_self(rem);
    lemma_alpha_prefix(rem);
    let len = alpha_prefix_len(rem);
    if len == 0 {
        if rem.len() > 0 {
            lemma_suffix_drop_first(rem);
        }
    } else {
        let rest = rem.skip(len as int);
        lemma_suffix_skip(rem, len as int);
        lemma_argument_progress(rest, depth);
        let a1 = spec_argument(rest, depth);
        lemma_suffix_trans(a1.rest, rest, rem);
        if a1.out is Some && a1.rest.len() <= rest.len() {
            lemma_argument_progress(a1.rest, depth);
            lemma_suffix_trans(spec_argument(a1.rest, depth).rest, a1.rest, rem);
        }
        lemma_text_body_progress(rest, depth);
        lemma_suffix_trans(spec_text_body(rest, depth).rest, rest, rem);
        let t = trim_start(rest);
        lemma_suffix_trim(rest);
        lemma_suffix_trans(t, rest, rem);
        if t.len() > 0 {
            lemma_suffix_drop_first(t);
            lemma_suffix_trans(t.drop_first(), t, rem);
        }
    }
}

/// The parser only reads forward: every step, whether it renders or refuses, leaves a
/// suffix of its input, and every atom that renders reads at least one character. (So
/// the length checks in `spec_sequence_loop` and `spec_command` always pass.)
pub proof fn law_parser_moves_forward(rem: Seq<char>, depth: nat, group: bool)
    ensures
        is_suffix(spec_sequence(rem, depth, group).rest, rem),
        is_suffix(spec_argument(rem, depth).rest, rem),
        is_suffix(spec_command(rem, depth).rest, rem),
        is_suffix(spec_atom(rem, depth).rest, rem),
        is_suffix(spec_atom_inner(rem, depth).rest, rem),
        spec_atom(rem, depth).out is Some ==> spec_atom(rem, depth).rest.len() < rem.len(),
        spec_atom_inner(rem, depth).out is Some ==> spec_atom_inner(rem, depth).rest.len()
            < rem.len(),
{
    lemma_sequence_progress(rem, depth, group);
    lemma_argument_progress(rem, depth);
    lemma_command_progress(rem, depth);
    lemma_atom_progress(rem, depth);
    lemma_atom_inner_progress(rem, depth);
}

proof fn lemma_loop_width(
    rem: Seq<char>,
    depth: nat,
    group: bool,
    out: Seq<char>,
    sup: bool,
    sub: bool,
    has_base: bool,
)
    ensures
        spec_sequence_loop(rem, depth, group, out, sup, sub, has_base).out matches Some(o) ==> o
            == out || display_width(o) <= MAX_WIDTH,
    decreases rem.len(),
{
    if rem.len() > 0 && rem[0] != '}' {
        let ch = rem[0];
        let a = spec_atom(rem, depth);
        if let Some(atom) = a.out {
            if a.rest.len() < rem.len() {
                lemma_loop_width(
                    a.rest,
                    depth,
                    group,
                    out + atom,
                    next_sup(ch, sup),
                    next_sub(ch, sub),
                    next_has_base(ch, has_base, atom),
                );
            }
        }
    }
}

/// A rendered formula is never blank and never wider than 256 columns.
pub proof fn law_rendering_is_bounded(source: Seq<char>)
    ensures
        spec_render(source) matches Some(out) ==> trim(out).len() > 0 && display_width(out)
            <= 256,
{
    if spec_render(source) is Some {
        lemma_loop_width(trim(source), 1, false, seq![], false, false, false);
        let out = spec_render(source)->0;
        if out.len() == 0 {
            assert(trim_start(out) == out);
            assert(trim_end(out) == out);
        }
    }
}

} // verus!

verus! {

/// The source range that a piece of a text event stands for.
pub open spec fn piece_range(spans: Seq<ByteRange>, piece: Piece) -> ByteRange {
    match piece {
        Piece::Source(r) => r,
        Piece::Formula(k) => spans[k as int],
        Piece::Event(_) => ByteRange { start: 0, end: 0 },
    }
}

/// The pieces stand for nonempty ranges that follow one another without gap from `from`
/// to `to`.
pub open spec fn tiles(spans: Seq<ByteRange>, ps: Seq<Piece>, from: int, to: int) -> bool
    decreases ps.len(),
{
    if ps.len() == 0 {
        from == to
    } else {
        let r = piece_range(spans, ps[0]);
        &&& !(ps[0] is Event)
        &&& r.start == from
        &&& r.start < r.end
        &&& tiles(spans, ps.drop_first(), r.end as int, to)
    }
}

/// The replacement spans are nonempty and in increasing order without overlap.
pub open spec fn spans_in_order(spans: Seq<ByteRange>) -> bool {
    &&& forall|k: int| 0 <= k < spans.len() ==> #[trigger] spans[k].start < spans[k].end
    &&& forall|k: int, m: int| 0 <= k < m < spans.len() ==> #[trigger] spans[k].end
        <= #[trigger] spans[m].start
}

/// A text event is replaced exactly: when the replacements that end inside it start
/// inside it too, its pieces, text from the masked Markdown and rendered formulas, cover
/// its range from `offset` to `end` in order, without gap or overlap.
pub proof fn law_text_pieces_tile(spans: Seq<ByteRange>, j: int, offset: int, end: int)
    requires
        spans_in_order(spans),
        spans.len() <= usize::MAX,
        0 <= offset <= end <= usize::MAX,
        0 <= j,
        j < spans.len() && spans[j].end <= end ==> offset <= spans[j].start,
    ensures
        tiles(spans, text_pieces(spans, j, offset, end).0, offset, end),
    decreases spans.len() - j,
{
    if 0 <= j < spans.len() && spans[j].end <= end {
        let sj = spans[j];
        if j + 1 < spans.len() {
            assert(sj.end <= spans[j + 1].start);
        }
        law_text_pieces_tile(spans, j + 1, sj.end as int, end);
        let rest = text_pieces(spans, j + 1, sj.end as int, end).0;
        let f = seq![Piece::Formula(j as usize)] + rest;
        assert(f.drop_first() =~= rest);
        assert(f[0] == Piece::Formula(j as usize));
        assert(piece_range(spans, f[0]) == sj);
        assert(tiles(spans, f, sj.start as int, end));
        assert(text_pieces(spans, j, offset, end).0 == source_piece(offset, sj.start as int) + f);
        if offset < sj.start {
            let ps = source_piece(offset, sj.start as int) + f;
            assert(ps.drop_first() =~= f);
            assert(ps[0] == Piece::Source(ByteRange { start: offset as usize, end: sj.start }));
            assert(tiles(spans, ps, offset, end));
        } else {
            assert(source_piece(offset, sj.start as int) + f =~= f);
        }
    } else {
        assert(text_pieces(spans, j, offset, end).0 == source_piece(offset, end));
        if offset < end {
            let ps = source_piece(offset, end);
            assert(ps.drop_first() =~= Seq::<Piece>::empty());
            assert(ps[0] == Piece::Source(ByteRange { start: offset as usize, end: end as usize }));
            assert(tiles(spans, ps.drop_first(), end, end));
            assert(tiles(spans, ps, offset, end));
        }
    }
}

} // verus!

verus! {

/// The positions of the events that pass whole, in the order the pieces give them.
pub open spec fn event_indices(ps: Seq<Piece>) -> Seq<usize>
    decreases ps.len(),
{
    if ps.len() == 0 {
        seq![]
    } else {
        let rest = event_indices(ps.drop_first());
        match ps[0] {
            Piece::Event(i) => seq![i] + rest,
            _ => rest,
        }
    }
}

proof fn lemma_event_indices_add(a: Seq<Piece>, b: Seq<Piece>)
    ensures
        event_indices(a + b) == event_indices(a) + event_indices(b),
    decreases a.len(),
{
    if a.len() == 0 {
        assert(a + b =~= b);
    } else {
        assert((a + b).drop_first() =~= a.drop_first() + b);
        lemma_event_indices_add(a.drop_first(), b);
        assert((a + b)[0] == a[0]);
    }
}

proof fn lemma_event_indices_single(p: Piece)
    ensures
        event_indices(seq![p]) == match p {
            Piece::Event(i) => seq![i],
            _ => Seq::<usize>::empty(),
        },
{
    let ps = seq![p];
    assert(ps.drop_first() =~= Seq::<Piece>::empty());
    assert(event_indices(ps.drop_first()) == Seq::<usize>::empty());
    if let Piece::Event(i) = p {
        assert(seq![i] + Seq::<usize>::empty() =~= seq![i]);
    }
}

proof fn lemma_source_piece_no_events(start: int, end: int)
    ensures
        event_indices(source_piece(start, end)) == Seq::<usize>::empty(),
{
    if start < end {
        lemma_event_indices_single(Piece::Source(ByteRange { start: start as usize, end: end as usize }));
    }
}

proof fn lemma_text_pieces_no_events(spans: Seq<ByteRange>, j: int, offset: int, end: int)
    ensures
        event_indices(text_pieces(spans, j, offset, end).0) == Seq::<usize>::empty(),
    decreases spans.len() - j,
{
    if 0 <= j < spans.len() && spans[j].end <= end {
        lemma_text_pieces_no_events(spans, j + 1, spans[j].end as int, end);
        let rest = text_pieces(spans, j + 1, spans[j].end as int, end).0;
        let f = seq![Piece::Formula(j as usize)];
        lemma_source_piece_no_events(offset, spans[j].start as int);
        lemma_event_indices_add(source_piece(offset, spans[j].start as int), f);
        lemma_event_indices_add(source_piece(offset, spans[j].start as int) + f, rest);
        lemma_event_indices_single(Piece::Formula(j as usize));
        assert(event_indices(source_piece(offset, spans[j].start as int) + f) =~= Seq::<
            usize,
        >::empty());
    } else {
        lemma_source_piece_no_events(offset, end);
    }
}

/// The events that pass whole from position `i` on: in increasing order, each at or after
/// `i`, and among them every event that is not text.
pub open spec fn passes_events_in_order(ev: Seq<usize>, events: Seq<EventSpan>, i: int) -> bool {
    &&& forall|a: int, c: int| 0 <= a < c < ev.len() ==> #[trigger] ev[a] < #[trigger] ev[c]
    &&& forall|a: int| 0 <= a < ev.len() ==> i <= #[trigger] ev[a] < events.len()
    &&& forall|k: int|
        i <= k < events.len() && !(#[trigger] events[k]).is_text ==> ev.contains(k as usize)
}

proof fn lemma_split_events_order(spans: Seq<ByteRange>, events: Seq<EventSpan>, i: int, j: int)
    requires
        0 <= i,
        events.len() <= usize::MAX,
    ensures
        passes_events_in_order(event_indices(split_events(spans, events, i, j)), events, i),
    decreases events.len() - i,
{
    if i < events.len() {
        let e = events[i];
        let j1 = skip_before(spans, j, e.range.start as int);
        if !e.is_text || j1 >= spans.len() || j1 < 0 || spans[j1].start >= e.range.end {
            let rest = split_events(spans, events, i + 1, j1);
            lemma_split_events_order(spans, events, i + 1, j1);
            lemma_event_indices_add(seq![Piece::Event(i as usize)], rest);
            lemma_event_indices_single(Piece::Event(i as usize));
            let ev = event_indices(split_events(spans, events, i, j));
            let er = event_indices(rest);
            assert(ev =~= seq![i as usize] + er);
            assert forall|k: int| i <= k < events.len() && !(#[trigger] events[k]).is_text implies ev.contains(
                k as usize,
            ) by {
                if k == i {
                    assert(ev[0] == i as usize);
                } else {
                    let w = choose|w: int| 0 <= w < er.len() && er[w] == k as usize;
                    assert(ev[w + 1] == er[w]);
                }
            }
            assert forall|a: int, c: int| 0 <= a < c < ev.len() implies #[trigger] ev[a]
                < #[trigger] ev[c] by {
                assert(ev[c] == er[c - 1]);
                if a > 0 {
                    assert(ev[a] == er[a - 1]);
                }
            }
            assert forall|a: int| 0 <= a < ev.len() implies i <= #[trigger] ev[a] < events.len() by {
                if a > 0 {
                    assert(ev[a] == er[a - 1]);
                }
            }
        } else {
            let (pieces, j2) = text_pieces(spans, j1, e.range.start as int, e.range.end as int);
            let rest = split_events(spans, events, i + 1, j2);
            lemma_split_events_order(spans, events, i + 1, j2);
            lemma_text_pieces_no_events(spans, j1, e.range.start as int, e.range.end as int);
            lemma_event_indices_add(pieces, rest);
            let ev = event_indices(split_events(spans, events, i, j));
            assert(ev =~= event_indices(rest));
        }
    }
}

/// Every event that is not text passes exactly once and unchanged, in the order of the
/// input: the events that pass whole come in increasing order, so none twice, and every
/// event that is not text is among them.
pub proof fn law_events_pass_non_text(spans: Seq<ByteRange>, events: Seq<EventSpan>)
    requires
        events.len() <= usize::MAX,
    ensures
        passes_events_in_order(event_indices(split_events(spans, events, 0, 0)), events, 0),
{
    lemma_split_events_order(spans, events, 0, 0);
}

proof fn lemma_split_events_plain(events: Seq<EventSpan>, i: int, j: int)
    requires
        0 <= i <= events.len(),
        events.len() <= usize::MAX,
    ensures
        split_events(Seq::<ByteRange>::empty(), events, i, j) == Seq::new(
            (events.len() - i) as nat,
            |k: int| Piece::Event((i + k) as usize),
        ),
    decreases events.len() - i,
{
    let spans = Seq::<ByteRange>::empty();
    if i < events.len() {
        lemma_split_events_plain(events, i + 1, skip_before(spans, j, events[i].range.start as int));
        assert(split_events(spans, events, i, j) =~= Seq::new(
            (events.len() - i) as nat,
            |k: int| Piece::Event((i + k) as usize),
        ));
    } else {
        assert(split_events(spans, events, i, j) =~= Seq::new(
            (events.len() - i) as nat,
            |k: int| Piece::Event((i + k) as usize),
        ));
    }
}

/// Without replacements every event passes whole and unchanged, in order.
pub proof fn law_events_without_replacements(events: Seq<EventSpan>)
    requires
        events.len() <= usize::MAX,
    ensures
        split_events(Seq::<ByteRange>::empty(), events, 0, 0) == Seq::new(
            events.len(),
            |k: int| Piece::Event(k as usize),
        ),
{
    lemma_split_events_plain(events, 0, 0);
    assert(Seq::new((events.len() - 0) as nat, |k: int| Piece::Event((0 + k) as usize)) =~= Seq::new(
        events.len(),
        |k: int| Piece::Event(k as usize),
    ));
}

} // verus!

verus! {

/// A `$..$` formula is left as text exactly when it reads as money or as capitals: it
/// starts with an ASCII digit and holds none of `\ ^ _ = + - * / < >`, or it is more
/// than one byte of ASCII capitals only. So a formula such as `2^n` is math.
pub proof fn law_plain_dollar_text(f: Seq<char>, byte_len: int)
    ensures
        is_plain_dollar_text(f, byte_len) <==> ({
            ||| f.len() > 0 && '0' <= f[0] <= '9' && forall|k: int|
                0 <= k < f.len() ==> {
                    let c = #[trigger] f[k];
                    c != '\\' && c != '^' && c != '_' && c != '=' && c != '+' && c != '-' && c
                        != '*' && c != '/' && c != '<' && c != '>'
                }
            ||| byte_len > 1 && forall|k: int| 0 <= k < f.len() ==> 'A' <= #[trigger] f[k] <= 'Z'
        }),
{
}

/// How an atom moves the script state of a sequence. After a space the state is kept;
/// after `^` or `_` that script is taken and the base kept; after any other atom, that
/// atom is the new base, a single character or not, and neither script follows it yet.
/// (So in `x^2 + y^2` the second `^` is accepted.)
pub proof fn law_scripts_follow_the_base(
    rem: Seq<char>,
    depth: nat,
    group: bool,
    out: Seq<char>,
    sup: bool,
    sub: bool,
    has_base: bool,
)
    requires
        rem.len() > 0,
        rem[0] != '}',
        !(rem[0] == '^' && (!has_base || sup)),
        !(rem[0] == '_' && (!has_base || sub)),
        spec_atom(rem, depth).out is Some,
        spec_atom(rem, depth).rest.len() < rem.len(),
        display_width(out + spec_atom(rem, depth).out->0) <= MAX_WIDTH,
    ensures
        ({
            let ch = rem[0];
            let atom = spec_atom(rem, depth).out->0;
            let rest = spec_atom(rem, depth).rest;
            let next = |s: bool, b: bool, h: bool|
                spec_sequence_loop(rest, depth, group, out + atom, s, b, h);
            &&& is_white_space(ch) ==> spec_sequence_loop(rem, depth, group, out, sup, sub, has_base)
                == next(sup, sub, has_base)
            &&& ch == '^' ==> spec_sequence_loop(rem, depth, group, out, sup, sub, has_base)
                == next(true, sub, has_base)
            &&& ch == '_' ==> spec_sequence_loop(rem, depth, group, out, sup, sub, has_base)
                == next(sup, true, has_base)
            &&& !is_white_space(ch) && ch != '^' && ch != '_' ==> spec_sequence_loop(
                rem,
                depth,
                group,
                out,
                sup,
                sub,
                has_base,
            ) == next(false, false, atom.len() == 1)
        }),
{
}

/// Every replacement that ends within a text event is placed in it as a formula: when
/// the replacements from position `j` on end in increasing order, the pieces of a text
/// event that ends at `end` hold `Formula(k)` for each such replacement `k` that ends at
/// or before `end`, the event's own end included.
pub proof fn law_text_pieces_place_every_formula(
    spans: Seq<ByteRange>,
    j: int,
    offset: int,
    end: int,
)
    requires
        0 <= j,
        forall|a: int, b: int| j <= a < b < spans.len() ==> #[trigger] spans[a].end <= #[trigger] spans[b].end,
    ensures
        forall|k: int|
            j <= k < spans.len() && #[trigger] spans[k].end <= end ==> text_pieces(
                spans,
                j,
                offset,
                end,
            ).0.contains(Piece::Formula(k as usize)),
    decreases spans.len() - j,
{
    if j < spans.len() && spans[j].end <= end {
        let sj = spans[j];
        law_text_pieces_place_every_formula(spans, j + 1, sj.end as int, end);
        let head = source_piece(offset, sj.start as int) + seq![Piece::Formula(j as usize)];
        let rest = text_pieces(spans, j + 1, sj.end as int, end).0;
        let ps = text_pieces(spans, j, offset, end).0;
        assert(ps == head + rest);
        assert forall|k: int| j <= k < spans.len() && #[trigger] spans[k].end <= end implies ps.contains(
            Piece::Formula(k as usize),
        ) by {
            if k == j {
                assert(ps[head.len() - 1] == Piece::Formula(j as usize));
            } else {
                let w = choose|w: int| 0 <= w < rest.len() && rest[w] == Piece::Formula(k as usize);
                assert(ps[head.len() + w] == rest[w]);
            }
        }
    } else if j < spans.len() {
        assert forall|k: int| j <= k < spans.len() implies #[trigger] spans[k].end > end by {
            if k > j {
                assert(spans[j].end <= spans[k].end);
            }
        }
    }
}

} // verus!

verus! {

/// The superscript of each character is its own superscript form: the characters of
/// `0123456789+-=()abcdefghijklmnoprstuvwxyz`, position by position, have the superscript
/// forms of `⁰¹²³⁴⁵⁶⁷⁸⁹⁺⁻⁼⁽⁾ᵃᵇᶜᵈᵉᶠᵍʰⁱʲᵏˡᵐⁿᵒᵖʳˢᵗᵘᵛʷˣʸᶻ`, and no other character has one.
pub proof fn law_superscript_letters()
    ensures
        "0123456789+-=()abcdefghijklmnoprstuvwxyz"@.len() == 40,
        "⁰¹²³⁴⁵⁶⁷⁸⁹⁺⁻⁼⁽⁾ᵃᵇᶜᵈᵉᶠᵍʰⁱʲᵏˡᵐⁿᵒᵖʳˢᵗᵘᵛʷˣʸᶻ"@.len() == 40,
        forall|i: int| 0 <= i < 40 ==> superscript_of("0123456789+-=()abcdefghijklmnoprstuvwxyz"@[i]) == Some("⁰¹²³⁴⁵⁶⁷⁸⁹⁺⁻⁼⁽⁾ᵃᵇᶜᵈᵉᶠᵍʰⁱʲᵏˡᵐⁿᵒᵖʳˢᵗᵘᵛʷˣʸᶻ"@[i]),
        forall|c: char| #[trigger] superscript_of(c) is Some ==> "0123456789+-=()abcdefghijklmnoprstuvwxyz"@.contains(c),
{
    reveal_strlit("0123456789+-=()abcdefghijklmnoprstuvwxyz");
    reveal_strlit("⁰¹²³⁴⁵⁶⁷⁸⁹⁺⁻⁼⁽⁾ᵃᵇᶜᵈᵉᶠᵍʰⁱʲᵏˡᵐⁿᵒᵖʳˢᵗᵘᵛʷˣʸᶻ");
    let p = "0123456789+-=()abcdefghijklmnoprstuvwxyz"@;
    let a = "⁰¹²³⁴⁵⁶⁷⁸⁹⁺⁻⁼⁽⁾ᵃᵇᶜᵈᵉᶠᵍʰⁱʲᵏˡᵐⁿᵒᵖʳˢᵗᵘᵛʷˣʸᶻ"@;
    assert forall|i: int| 0 <= i < 40 implies superscript_of(p[i]) == Some(a[i]) by {
        assert(i == 0 || i == 1 || i == 2 || i == 3 || i == 4 || i == 5 || i == 6 || i == 7 || i == 8 || i == 9 || i == 10 || i == 11 || i == 12 || i == 13 || i == 14 || i == 15 || i == 16 || i == 17 || i == 18 || i == 19 || i == 20 || i == 21 || i == 22 || i == 23 || i == 24 || i == 25 || i == 26 || i == 27 || i == 28 || i == 29 || i == 30 || i == 31 || i == 32 || i == 33 || i == 34 || i == 35 || i == 36 || i == 37 || i == 38 || i == 39);
    }
    assert forall|c: char| #[trigger] superscript_of(c) is Some implies p.contains(c) by {
        if c == '0' {
            assert(p[0] == c);
        } else if c == '1' {
            assert(p[1] == c);
        } else if c == '2' {
            assert(p[2] == c);
        } else if c == '3' {
            assert(p[3] == c);
        } else if c == '4' {
            assert(p[4] == c);
        } else if c == '5' {
            assert(p[5] == c);
        } else if c == '6' {
            assert(p[6] == c);
        } else if c == '7' {
            assert(p[7] == c);
        } else if c == '8' {
            assert(p[8] == c);
        } else if c == '9' {
            assert(p[9] == c);
        } else if c == '+' {
            assert(p[10] == c);
        } else if c == '-' {
            assert(p[11] == c);
        } else if c == '=' {
            assert(p[12] == c);
        } else if c == '(' {
            assert(p[13] == c);
        } else if c == ')' {
            assert(p[14] == c);
        } else if c == 'a' {
            assert(p[15] == c);
        } else if c == 'b' {
            assert(p[16] == c);
        } else if c == 'c' {
            assert(p[17] == c);
        } else if c == 'd' {
            assert(p[18] == c);
        } else if c == 'e' {
            assert(p[19] == c);
        } else if c == 'f' {
            assert(p[20] == c);
        } else if c == 'g' {
            assert(p[21] == c);
        } else if c == 'h' {
            assert(p[22] == c);
        } else if c == 'i' {
            assert(p[23] == c);
        } else if c == 'j' {
            assert(p[24] == c);
        } else if c == 'k' {
            assert(p[25] == c);
        } else if c == 'l' {
            assert(p[26] == c);
        } else if c == 'm' {
            assert(p[27] == c);
        } else if c == 'n' {
            assert(p[28] == c);
        } else if c == 'o' {
            assert(p[29] == c);
        } else if c == 'p' {
            assert(p[30] == c);
        } else if c == 'r' {
            assert(p[31] == c);
        } else if c == 's' {
            assert(p[32] == c);
        } else if c == 't' {
            assert(p[33] == c);
        } else if c == 'u' {
            assert(p[34] == c);
        } else if c == 'v' {
            assert(p[35] == c);
        } else if c == 'w' {
            assert(p[36] == c);
        } else if c == 'x' {
            assert(p[37] == c);
        } else if c == 'y' {
            assert(p[38] == c);
        } else if c == 'z' {
            assert(p[39] == c);
        }
    }
}

/// The subscript of each character is its own subscript form: the characters of
/// `0123456789+-=()aehijklmnoprstuvx`, position by position, have the subscript forms of
/// `₀₁₂₃₄₅₆₇₈₉₊₋₌₍₎ₐₑₕᵢⱼₖₗₘₙₒₚᵣₛₜᵤᵥₓ`, and no other character has one.
pub proof fn law_subscript_letters()
    ensures
        "0123456789+-=()aehijklmnoprstuvx"@.len() == 32,
        "₀₁₂₃₄₅₆₇₈₉₊₋₌₍₎ₐₑₕᵢⱼₖₗₘₙₒₚᵣₛₜᵤᵥₓ"@.len() == 32,
        forall|i: int| 0 <= i < 32 ==> subscript_of("0123456789+-=()aehijklmnoprstuvx"@[i]) == Some("₀₁₂₃₄₅₆₇₈₉₊₋₌₍₎ₐₑₕᵢⱼₖₗₘₙₒₚᵣₛₜᵤᵥₓ"@[i]),
        forall|c: char| #[trigger] subscript_of(c) is Some ==> "0123456789+-=()aehijklmnoprstuvx"@.contains(c),
{
    reveal_strlit("0123456789+-=()aehijklmnoprstuvx");
    reveal_strlit("₀₁₂₃₄₅₆₇₈₉₊₋₌₍₎ₐₑₕᵢⱼₖₗₘₙₒₚᵣₛₜᵤᵥₓ");
    let p = "0123456789+-=()aehijklmnoprstuvx"@;
    let a = "₀₁₂₃₄₅₆₇₈₉₊₋₌₍₎ₐₑₕᵢⱼₖₗₘₙₒₚᵣₛₜᵤᵥₓ"@;
    assert forall|i: int| 0 <= i < 32 implies subscript_of(p[i]) == Some(a[i]) by {
        assert(i == 0 || i == 1 || i == 2 || i == 3 || i == 4 || i == 5 || i == 6 || i == 7 || i == 8 || i == 9 || i == 10 || i == 11 || i == 12 || i == 13 || i == 14 || i == 15 || i == 16 || i == 17 || i == 18 || i == 19 || i == 20 || i == 21 || i == 22 || i == 23 || i == 24 || i == 25 || i == 26 || i == 27 || i == 28 || i == 29 || i == 30 || i == 31);
    }
    assert forall|c: char| #[trigger] subscript_of(c) is Some implies p.contains(c) by {
        if c == '0' {
            assert(p[0] == c);
        } else if c == '1' {
            assert(p[1] == c);
        } else if c == '2' {
            assert(p[2] == c);
        } else if c == '3' {
            assert(p[3] == c);
        } else if c == '4' {
            assert(p[4] == c);
        } else if c == '5' {
            assert(p[5] == c);
        } else if c == '6' {
            assert(p[6] == c);
        } else if c == '7' {
            assert(p[7] == c);
        } else if c == '8' {
            assert(p[8] == c);
        } else if c == '9' {
            assert(p[9] == c);
        } else if c == '+' {
            assert(p[10] == c);
        } else if c == '-' {
            assert(p[11] == c);
        } else if c == '=' {
            assert(p[12] == c);
        } else if c == '(' {
            assert(p[13] == c);
        } else if c == ')' {
            assert(p[14] == c);
        } else if c == 'a' {
            assert(p[15] == c);
        } else if c == 'e' {
            assert(p[16] == c);
        } else if c == 'h' {
            assert(p[17] == c);
        } else if c == 'i' {
            assert(p[18] == c);
        } else if c == 'j' {
            assert(p[19] == c);
        } else if c == 'k' {
            assert(p[20] == c);
        } else if c == 'l' {
            assert(p[21] == c);
        } else if c == 'm' {
            assert(p[22] == c);
        } else if c == 'n' {
            assert(p[23] == c);
        } else if c == 'o' {
            assert(p[24] == c);
        } else if c == 'p' {
            assert(p[25] == c);
        } else if c == 'r' {
            assert(p[26] == c);
        } else if c == 's' {
            assert(p[27] == c);
        } else if c == 't' {
            assert(p[28] == c);
        } else if c == 'u' {
            assert(p[29] == c);
        } else if c == 'v' {
            assert(p[30] == c);
        } else if c == 'x' {
            assert(p[31] == c);
        }
    }
}

} // verus!

verus! {

/// What tells the symbol names apart: their lengths, and the characters where names of
/// one length differ.
proof fn lemma_symbol_names()
    ensures
        "alpha"@.len() == 5,
        "alpha"@[0] == 'a',
        "beta"@.len() == 4,
        "beta"@[0] == 'b',
        "gamma"@.len() == 5,
        "gamma"@[0] == 'g',
        "delta"@.len() == 5,
        "delta"@[0] == 'd',
        "epsilon"@.len() == 7,
        "epsilon"@[0] == 'e',
        "varepsilon"@.len() == 10,
        "varepsilon"@[0] == 'v',
        "zeta"@.len() == 4,
        "zeta"@[0] == 'z',
        "eta"@.len() == 3,
        "eta"@[0] == 'e',
        "theta"@.len() == 5,
        "theta"@[0] == 't',
        "theta"@[1] == 'h',
        "vartheta"@.len() == 8,
        "vartheta"@[0] == 'v',
        "iota"@.len() == 4,
        "iota"@[0] == 'i',
        "kappa"@.len() == 5,
        "kappa"@[0] == 'k',
        "lambda"@.len() == 6,
        "lambda"@[0] == 'l',
        "mu"@.len() == 2,
        "mu"@[0] == 'm',
        "mu"@[1] == 'u',
        "nu"@.len() == 2,
        "nu"@[0] == 'n',
        "nu"@[1] == 'u',
        "xi"@.len() == 2,
        "xi"@[0] == 'x',
        "pi"@.len() == 2,
        "pi"@[0] == 'p',
        "pi"@[1] == 'i',
        "rho"@.len() == 3,
        "rho"@[0] == 'r',
        "sigma"@.len() == 5,
        "sigma"@[0] == 's',
        "tau"@.len() == 3,
        "tau"@[0] == 't',
        "upsilon"@.len() == 7,
        "upsilon"@[0] == 'u',
        "phi"@.len() == 3,
        "phi"@[0] == 'p',
        "phi"@[1] == 'h',
        "varphi"@.len() == 6,
        "varphi"@[0] == 'v',
        "chi"@.len() == 3,
        "chi"@[0] == 'c',
        "chi"@[1] == 'h',
        "psi"@.len() == 3,
        "psi"@[0] == 'p',
        "psi"@[1] == 's',
        "omega"@.len() == 5,
        "omega"@[0] == 'o',
        "Gamma"@.len() == 5,
        "Gamma"@[0] == 'G',
        "Delta"@.len() == 5,
        "Delta"@[0] == 'D',
        "Theta"@.len() == 5,
        "Theta"@[0] == 'T',
        "Lambda"@.len() == 6,
        "Lambda"@[0] == 'L',
        "Xi"@.len() == 2,
        "Xi"@[0] == 'X',
        "Pi"@.len() == 2,
        "Pi"@[0] == 'P',
        "Sigma"@.len() == 5,
        "Sigma"@[0] == 'S',
        "Upsilon"@.len() == 7,
        "Upsilon"@[0] == 'U',
        "Phi"@.len() == 3,
        "Phi"@[0] == 'P',
        "Phi"@[1] == 'h',
        "Psi"@.len() == 3,
        "Psi"@[0] == 'P',
        "Psi"@[1] == 's',
        "Omega"@.len() == 5,
        "Omega"@[0] == 'O',
        "sum"@.len() == 3,
        "sum"@[0] == 's',
        "prod"@.len() == 4,
        "prod"@[0] == 'p',
        "int"@.len() == 3,
        "int"@[0] == 'i',
        "infty"@.len() == 5,
        "infty"@[0] == 'i',
        "partial"@.len() == 7,
        "partial"@[0] == 'p',
        "nabla"@.len() == 5,
        "nabla"@[0] == 'n',
        "nabla"@[1] == 'a',
        "pm"@.len() == 2,
        "pm"@[0] == 'p',
        "pm"@[1] == 'm',
        "mp"@.len() == 2,
        "mp"@[0] == 'm',
        "mp"@[1] == 'p',
        "times"@.len() == 5,
        "times"@[0] == 't',
        "times"@[1] == 'i',
        "cdot"@.len() == 4,
        "cdot"@[0] == 'c',
        "div"@.len() == 3,
        "div"@[0] == 'd',
        "le"@.len() == 2,
        "le"@[0] == 'l',
        "leq"@.len() == 3,
        "leq"@[0] == 'l',
        "ge"@.len() == 2,
        "ge"@[0] == 'g',
        "geq"@.len() == 3,
        "geq"@[0] == 'g',
        "ne"@.len() == 2,
        "ne"@[0] == 'n',
        "ne"@[1] == 'e',
        "neq"@.len() == 3,
        "neq"@[0] == 'n',
        "approx"@.len() == 6,
        "approx"@[0] == 'a',
        "equiv"@.len() == 5,
        "equiv"@[0] == 'e',
        "in"@.len() == 2,
        "in"@[0] == 'i',
        "notin"@.len() == 5,
        "notin"@[0] == 'n',
        "notin"@[1] == 'o',
        "subset"@.len() == 6,
        "subset"@[0] == 's',
        "subseteq"@.len() == 8,
        "subseteq"@[0] == 's',
        "cup"@.len() == 3,
        "cup"@[0] == 'c',
        "cup"@[1] == 'u',
        "cap"@.len() == 3,
        "cap"@[0] == 'c',
        "cap"@[1] == 'a',
        "emptyset"@.len() == 8,
        "emptyset"@[0] == 'e',
        "forall"@.len() == 6,
        "forall"@[0] == 'f',
        "exists"@.len() == 6,
        "exists"@[0] == 'e',
        "to"@.len() == 2,
        "to"@[0] == 't',
        "rightarrow"@.len() == 10,
        "rightarrow"@[0] == 'r',
        "leftarrow"@.len() == 9,
        "Rightarrow"@.len() == 10,
        "Rightarrow"@[0] == 'R',
        "Leftrightarrow"@.len() == 14,
        "ldots"@.len() == 5,
        "ldots"@[0] == 'l',
        "dots"@.len() == 4,
        "dots"@[0] == 'd',
        "cdots"@.len() == 5,
        "cdots"@[0] == 'c',
{
    reveal_strlit("alpha");
    reveal_strlit("beta");
    reveal_strlit("gamma");
    reveal_strlit("delta");
    reveal_strlit("epsilon");
    reveal_strlit("varepsilon");
    reveal_strlit("zeta");
    reveal_strlit("eta");
    reveal_strlit("theta");
    reveal_strlit("vartheta");
    reveal_strlit("iota");
    reveal_strlit("kappa");
    reveal_strlit("lambda");
    reveal_strlit("mu");
    reveal_strlit("nu");
    reveal_strlit("xi");
    reveal_strlit("pi");
    reveal_strlit("rho");
    reveal_strlit("sigma");
    reveal_strlit("tau");
    reveal_strlit("upsilon");
    reveal_strlit("phi");
    reveal_strlit("varphi");
    reveal_strlit("chi");
    reveal_strlit("psi");
    reveal_strlit("omega");
    reveal_strlit("Gamma");
    reveal_strlit("Delta");
    reveal_strlit("Theta");
    reveal_strlit("Lambda");
    reveal_strlit("Xi");
    reveal_strlit("Pi");
    reveal_strlit("Sigma");
    reveal_strlit("Upsilon");
    reveal_strlit("Phi");
    reveal_strlit("Psi");
    reveal_strlit("Omega");
    reveal_strlit("sum");
    reveal_strlit("prod");
    reveal_strlit("int");
    reveal_strlit("infty");
    reveal_strlit("partial");
    reveal_strlit("nabla");
    reveal_strlit("pm");
    reveal_strlit("mp");
    reveal_strlit("times");
    reveal_strlit("cdot");
    reveal_strlit("div");
    reveal_strlit("le");
    reveal_strlit("leq");
    reveal_strlit("ge");
    reveal_strlit("geq");
    reveal_strlit("ne");
    reveal_strlit("neq");
    reveal_strlit("approx");
    reveal_strlit("equiv");
    reveal_strlit("in");
    reveal_strlit("notin");
    reveal_strlit("subset");
    reveal_strlit("subseteq");
    reveal_strlit("cup");
    reveal_strlit("cap");
    reveal_strlit("emptyset");
    reveal_strlit("forall");
    reveal_strlit("exists");
    reveal_strlit("to");
    reveal_strlit("rightarrow");
    reveal_strlit("leftarrow");
    reveal_strlit("Rightarrow");
    reveal_strlit("Leftrightarrow");
    reveal_strlit("ldots");
    reveal_strlit("dots");
    reveal_strlit("cdots");
}

/// The named symbols are those of the table below, name by name (`le` and `leq` are
/// both `≤`, `ge` and `geq` both `≥`, and so on), and no other name has one.
#[verifier::rlimit(100)]
pub proof fn law_symbol_table(name: Seq<char>)
    ensures
        symbol_of("alpha"@) == Some("α"@),
        symbol_of("beta"@) == Some("β"@),
        symbol_of("gamma"@) == Some("γ"@),
        symbol_of("delta"@) == Some("δ"@),
        symbol_of("epsilon"@) == Some("ϵ"@),
        symbol_of("varepsilon"@) == Some("ε"@),
        symbol_of("zeta"@) == Some("ζ"@),
        symbol_of("eta"@) == Some("η"@),
        symbol_of("theta"@) == Some("θ"@),
        symbol_of("vartheta"@) == Some("ϑ"@),
        symbol_of("iota"@) == Some("ι"@),
        symbol_of("kappa"@) == Some("κ"@),
        symbol_of("lambda"@) == Some("λ"@),
        symbol_of("mu"@) == Some("μ"@),
        symbol_of("nu"@) == Some("ν"@),
        symbol_of("xi"@) == Some("ξ"@),
        symbol_of("pi"@) == Some("π"@),
        symbol_of("rho"@) == Some("ρ"@),
        symbol_of("sigma"@) == Some("σ"@),
        symbol_of("tau"@) == Some("τ"@),
        symbol_of("upsilon"@) == Some("υ"@),
        symbol_of("phi"@) == Some("ϕ"@),
        symbol_of("varphi"@) == Some("φ"@),
        symbol_of("chi"@) == Some("χ"@),
        symbol_of("psi"@) == Some("ψ"@),
        symbol_of("omega"@) == Some("ω"@),
        symbol_of("Gamma"@) == Some("Γ"@),
        symbol_of("Delta"@) == Some("Δ"@),
        symbol_of("Theta"@) == Some("Θ"@),
        symbol_of("Lambda"@) == Some("Λ"@),
        symbol_of("Xi"@) == Some("Ξ"@),
        symbol_of("Pi"@) == Some("Π"@),
        symbol_of("Sigma"@) == Some("Σ"@),
        symbol_of("Upsilon"@) == Some("Υ"@),
        symbol_of("Phi"@) == Some("Φ"@),
        symbol_of("Psi"@) == Some("Ψ"@),
        symbol_of("Omega"@) == Some("Ω"@),
        symbol_of("sum"@) == Some("∑"@),
        symbol_of("prod"@) == Some("∏"@),
        symbol_of("int"@) == Some("∫"@),
        symbol_of("infty"@) == Some("∞"@),
        symbol_of("partial"@) == Some("∂"@),
        symbol_of("nabla"@) == Some("∇"@),
        symbol_of("pm"@) == Some("±"@),
        symbol_of("mp"@) == Some("∓"@),
        symbol_of("times"@) == Some("×"@),
        symbol_of("cdot"@) == Some("·"@),
        symbol_of("div"@) == Some("÷"@),
        symbol_of("le"@) == Some("≤"@),
        symbol_of("leq"@) == Some("≤"@),
        symbol_of("ge"@) == Some("≥"@),
        symbol_of("geq"@) == Some("≥"@),
        symbol_of("ne"@) == Some("≠"@),
        symbol_of("neq"@) == Some("≠"@),
        symbol_of("approx"@) == Some("≈"@),
        symbol_of("equiv"@) == Some("≡"@),
        symbol_of("in"@) == Some("∈"@),
        symbol_of("notin"@) == Some("∉"@),
        symbol_of("subset"@) == Some("⊂"@),
        symbol_of("subseteq"@) == Some("⊆"@),
        symbol_of("cup"@) == Some("∪"@),
        symbol_of("cap"@) == Some("∩"@),
        symbol_of("emptyset"@) == Some("∅"@),
        symbol_of("forall"@) == Some("∀"@),
        symbol_of("exists"@) == Some("∃"@),
        symbol_of("to"@) == Some("→"@),
        symbol_of("rightarrow"@) == Some("→"@),
        symbol_of("leftarrow"@) == Some("←"@),
        symbol_of("Rightarrow"@) == Some("⇒"@),
        symbol_of("Leftrightarrow"@) == Some("⇔"@),
        symbol_of("ldots"@) == Some("…"@),
        symbol_of("dots"@) == Some("…"@),
        symbol_of("cdots"@) == Some("⋯"@),
        symbol_of(name) is Some ==> (name == "alpha"@ || name == "beta"@ || name == "gamma"@ || name == "delta"@ || name == "epsilon"@ || name == "varepsilon"@ || name == "zeta"@ || name == "eta"@ || name == "theta"@ || name == "vartheta"@ || name == "iota"@ || name == "kappa"@ || name == "lambda"@ || name == "mu"@ || name == "nu"@ || name == "xi"@ || name == "pi"@ || name == "rho"@ || name == "sigma"@ || name == "tau"@ || name == "upsilon"@ || name == "phi"@ || name == "varphi"@ || name == "chi"@ || name == "psi"@ || name == "omega"@ || name == "Gamma"@ || name == "Delta"@ || name == "Theta"@ || name == "Lambda"@ || name == "Xi"@ || name == "Pi"@ || name == "Sigma"@ || name == "Upsilon"@ || name == "Phi"@ || name == "Psi"@ || name == "Omega"@ || name == "sum"@ || name == "prod"@ || name == "int"@ || name == "infty"@ || name == "partial"@ || name == "nabla"@ || name == "pm"@ || name == "mp"@ || name == "times"@ || name == "cdot"@ || name == "div"@ || name == "le"@ || name == "leq"@ || name == "ge"@ || name == "geq"@ || name == "ne"@ || name == "neq"@ || name == "approx"@ || name == "equiv"@ || name == "in"@ || name == "notin"@ || name == "subset"@ || name == "subseteq"@ || name == "cup"@ || name == "cap"@ || name == "emptyset"@ || name == "forall"@ || name == "exists"@ || name == "to"@ || name == "rightarrow"@ || name == "leftarrow"@ || name == "Rightarrow"@ || name == "Leftrightarrow"@ || name == "ldots"@ || name == "dots"@ || name == "cdots"@),
{
    lemma_symbol_names();
}

} // verus!


verus! {

/// A byte is escaped exactly when an odd run of backslashes precedes it: the first byte
/// and a byte after anything but a backslash are not escaped, and a backslash before a
/// byte flips whether it is escaped.
pub proof fn law_escaping(b: Seq<u8>, i: int)
    requires
        0 <= i <= b.len(),
    ensures
        i == 0 ==> !is_escaped(b, i),
        i > 0 && b[i - 1] != 0x5Cu8 ==> !is_escaped(b, i),
        i > 0 && b[i - 1] == 0x5Cu8 ==> is_escaped(b, i) == !is_escaped(b, i - 1),
{
}

} // verus!

verus! {

/// What one atom gives for its first character `ch`, other than a group, a command or a
/// script: `}`, `$`, `%`, `#`, `&` and a backquote are refused after being read; a space
/// renders as one space and swallows the spaces after it; another control character is
/// refused after being read; any other character renders as itself.
pub proof fn law_atom_characters(rem: Seq<char>, depth: nat)
    requires
        rem.len() > 0,
        rem[0] != '{' && rem[0] != '\\' && rem[0] != '^' && rem[0] != '_',
    ensures
        ({
            let ch = rem[0];
            let rest = rem.drop_first();
            let u = ch as u32;
            let r = spec_atom_inner(rem, depth);
            &&& (ch == '}' || ch == '$' || ch == '%' || ch == '#' || ch == '&' || ch == '`') ==> r
                == stop(rest, depth)
            &&& is_white_space(ch) ==> r == done(seq![' '], trim_start(rest), depth)
            &&& !is_white_space(ch) && (u <= 0x1F || (0x7F <= u && u <= 0x9F)) ==> r == stop(
                rest,
                depth,
            )
            &&& !(ch == '}' || ch == '$' || ch == '%' || ch == '#' || ch == '&' || ch == '`')
                && !is_white_space(ch) && !(u <= 0x1F || (0x7F <= u && u <= 0x9F)) ==> r == done(
                seq![ch],
                rest,
                depth,
            )
        }),
{
}

/// A command whose first character is not an ASCII letter reads that one character:
/// `\,`, `\;`, `\:` and `\ ` give a space, `\!` nothing, `\{`, `\}` and `\|` the
/// characters `{`, `}` and `‖`; any other character is refused after being read, and an
/// empty command is refused in place.
pub proof fn law_single_character_commands(rem: Seq<char>, depth: nat)
    requires
        rem.len() == 0 || !(('A' <= rem[0] <= 'Z') || ('a' <= rem[0] <= 'z')),
    ensures
        rem.len() == 0 ==> spec_command(rem, depth) == stop(rem, depth),
        rem.len() > 0 ==> ({
            let c = rem[0];
            let rest = rem.drop_first();
            let r = spec_command(rem, depth);
            &&& (c == ',' || c == ';' || c == ':' || c == ' ') ==> r == done(seq![' '], rest, depth)
            &&& c == '!' ==> r == done(seq![], rest, depth)
            &&& c == '{' ==> r == done(seq!['{'], rest, depth)
            &&& c == '}' ==> r == done(seq!['}'], rest, depth)
            &&& c == '|' ==> r == done(seq!['‖'], rest, depth)
            &&& !(c == ',' || c == ';' || c == ':' || c == ' ' || c == '!' || c == '{' || c == '}'
                || c == '|') ==> r == stop(rest, depth)
        }),
{
    assert(alpha_prefix_len(rem) == 0);
}

} // verus!

verus! {

/// What tells the command names apart: their lengths, and the characters where names of
/// one length differ.
proof fn lemma_command_names()
    ensures
        "frac"@.len() == 4,
        "frac"@[0] == 'f',
        "dfrac"@.len() == 5,
        "dfrac"@[0] == 'd',
        "tfrac"@.len() == 5,
        "tfrac"@[0] == 't',
        "sqrt"@.len() == 4,
        "sqrt"@[0] == 's',
        "mathbb"@.len() == 6,
        "mathbb"@[4] == 'b',
        "mathbb"@[5] == 'b',
        "mathrm"@.len() == 6,
        "mathrm"@[4] == 'r',
        "mathbf"@.len() == 6,
        "mathbf"@[4] == 'b',
        "mathbf"@[5] == 'f',
        "mathit"@.len() == 6,
        "mathit"@[4] == 'i',
        "text"@.len() == 4,
        "text"@[0] == 't',
        "operatorname"@.len() == 12,
        "left"@.len() == 4,
        "left"@[0] == 'l',
        "right"@.len() == 5,
        "right"@[0] == 'r',
        "quad"@.len() == 4,
        "quad"@[0] == 'q',
        "qquad"@.len() == 5,
        "qquad"@[0] == 'q',
        "sin"@.len() == 3,
        "sin"@[0] == 's',
        "cos"@.len() == 3,
        "cos"@[0] == 'c',
        "tan"@.len() == 3,
        "tan"@[0] == 't',
        "log"@.len() == 3,
        "log"@[0] == 'l',
        "log"@[1] == 'o',
        "ln"@.len() == 2,
        "exp"@.len() == 3,
        "exp"@[0] == 'e',
        "lim"@.len() == 3,
        "lim"@[0] == 'l',
        "lim"@[1] == 'i',
        "max"@.len() == 3,
        "max"@[0] == 'm',
        "max"@[1] == 'a',
        "min"@.len() == 3,
        "min"@[0] == 'm',
        "min"@[1] == 'i',
        "R"@.len() == 1,
        "R"@[0] == 'R',
        "C"@.len() == 1,
        "C"@[0] == 'C',
        "N"@.len() == 1,
        "N"@[0] == 'N',
        "Z"@.len() == 1,
        "Z"@[0] == 'Z',
        "Q"@.len() == 1,
        "Q"@[0] == 'Q',
        "P"@.len() == 1,
        "P"@[0] == 'P',
{
    reveal_strlit("frac");
    reveal_strlit("dfrac");
    reveal_strlit("tfrac");
    reveal_strlit("sqrt");
    reveal_strlit("mathbb");
    reveal_strlit("mathrm");
    reveal_strlit("mathbf");
    reveal_strlit("mathit");
    reveal_strlit("text");
    reveal_strlit("operatorname");
    reveal_strlit("left");
    reveal_strlit("right");
    reveal_strlit("quad");
    reveal_strlit("qquad");
    reveal_strlit("sin");
    reveal_strlit("cos");
    reveal_strlit("tan");
    reveal_strlit("log");
    reveal_strlit("ln");
    reveal_strlit("exp");
    reveal_strlit("lim");
    reveal_strlit("max");
    reveal_strlit("min");
    reveal_strlit("R");
    reveal_strlit("C");
    reveal_strlit("N");
    reveal_strlit("Z");
    reveal_strlit("Q");
    reveal_strlit("P");
}

/// `\mathbb` gives the blackboard-bold letters `ℝ ℂ ℕ ℤ ℚ ℙ` for `R C N Z Q P`, and
/// nothing for any other argument.
pub proof fn law_blackboard_letters(arg: Seq<char>)
    ensures
        blackboard_of("R"@) == Some("ℝ"@),
        blackboard_of("C"@) == Some("ℂ"@),
        blackboard_of("N"@) == Some("ℕ"@),
        blackboard_of("Z"@) == Some("ℤ"@),
        blackboard_of("Q"@) == Some("ℚ"@),
        blackboard_of("P"@) == Some("ℙ"@),
        blackboard_of(arg) is Some ==> (arg == "R"@ || arg == "C"@ || arg == "N"@ || arg == "Z"@ || arg == "Q"@ || arg == "P"@),
{
    lemma_command_names();
}

/// What a command with a name (its leading ASCII letters) gives, by name:
/// `\sin` and the other operator names stand for themselves; `\quad` and `\qquad` give a
/// space; `\mathrm`, `\mathbf` and `\mathit` give their argument; `\text` and
/// `\operatorname` their braced text; `\frac`, `\dfrac` and `\tfrac` give
/// `((numerator)/(denominator))`; `\sqrt` gives `√(radicand)` and refuses an index in
/// brackets; `\mathbb` gives the blackboard letter of its argument; `\left` and `\right`
/// give the delimiter that follows, nothing for `.`, and refuse anything else; every
/// other name is looked up among the symbols. A refused argument refuses the command
/// where the argument stopped.
pub proof fn law_named_commands(rem: Seq<char>, depth: nat)
    requires
        alpha_prefix_len(rem) > 0,
    ensures
        ({
            let len = alpha_prefix_len(rem) as int;
            let name = rem.take(len);
            let rest = rem.skip(len);
            let t = trim_start(rest);
            let r = spec_command(rem, depth);
            let a1 = spec_argument(rest, depth);
            let a2 = spec_argument(a1.rest, depth);
            &&& (name == "sin"@ || name == "cos"@ || name == "tan"@ || name == "log"@ || name == "ln"@ || name == "exp"@ || name == "lim"@ || name == "max"@ || name == "min"@) ==> r == done(name, rest, depth)
            &&& (name == "quad"@ || name == "qquad"@) ==> r == done(seq![' '], rest, depth)
            &&& (name == "mathrm"@ || name == "mathbf"@ || name == "mathit"@) ==> r == a1
            &&& (name == "text"@ || name == "operatorname"@) ==> r == spec_text_body(rest, depth)
            &&& (name == "frac"@ || name == "dfrac"@ || name == "tfrac"@) ==> {
                &&& a1.out is None ==> r == a1
                &&& a1.out is Some && a2.out is None ==> r == a2
                &&& a1.out is Some && a2.out is Some ==> r == done(
                    seq!['(', '('] + a1.out->0 + seq![')', '/', '('] + a2.out->0 + seq![')', ')'],
                    a2.rest,
                    depth,
                )
            }
            &&& name == "sqrt"@ ==> {
                &&& t.len() > 0 && t[0] == '[' ==> r == stop(rest, depth)
                &&& !(t.len() > 0 && t[0] == '[') && a1.out is None ==> r == a1
                &&& !(t.len() > 0 && t[0] == '[') && a1.out is Some ==> r == done(
                    seq!['√', '('] + a1.out->0 + seq![')'],
                    a1.rest,
                    depth,
                )
            }
            &&& name == "mathbb"@ ==> {
                &&& a1.out is None ==> r == a1
                &&& a1.out is Some ==> r == Step {
                    out: blackboard_of(a1.out->0),
                    rest: a1.rest,
                    depth,
                }
            }
            &&& (name == "left"@ || name == "right"@) ==> {
                &&& t.len() == 0 ==> r == stop(t, depth)
                &&& t.len() > 0 && t[0] == '.' ==> r == done(seq![], t.drop_first(), depth)
                &&& t.len() > 0 && (t[0] == '(' || t[0] == ')' || t[0] == '[' || t[0] == ']' || t[0]
                    == '|') ==> r == done(seq![t[0]], t.drop_first(), depth)
                &&& t.len() > 0 && !(t[0] == '.' || t[0] == '(' || t[0] == ')' || t[0] == '['
                    || t[0] == ']' || t[0] == '|') ==> r == stop(t.drop_first(), depth)
            }
            &&& !(name == "sin"@ || name == "cos"@ || name == "tan"@ || name == "log"@ || name == "ln"@ || name == "exp"@ || name == "lim"@ || name == "max"@ || name == "min"@ || name == "quad"@ || name == "qquad"@ || name == "mathrm"@ || name
                == "mathbf"@ || name == "mathit"@ || name == "text"@ || name == "operatorname"@
                || name == "frac"@ || name == "dfrac"@ || name == "tfrac"@ || name == "sqrt"@
                || name == "mathbb"@ || name == "left"@ || name == "right"@) ==> r == Step {
                out: symbol_of(name),
                rest,
                depth,
            }
        }),
{
    lemma_command_names();
    let len = alpha_prefix_len(rem) as int;
    let rest = rem.skip(len);
    lemma_argument_progress(rest, depth);
}

} // verus!

verus! {

/// The braced text of `\text{..}`: without a `{` after the spaces nothing is read; else
/// the text runs to the first `}` and is shown as it is, unless it holds a `{`, `\`, `$`,
/// `%`, `#`, `&` or a control character, or there is no `}`, which refuses it right
/// after the `{`.
pub proof fn law_text_body(rem: Seq<char>, depth: nat)
    ensures
        ({
            let t = trim_start(rem);
            let body = t.drop_first();
            let r = spec_text_body(rem, depth);
            &&& !(t.len() > 0 && t[0] == '{') ==> r == stop(rem, depth)
            &&& t.len() > 0 && t[0] == '{' && (forall|k: int| 0 <= k < body.len() ==> body[k] != '}')
                ==> r == stop(body, depth)
            &&& forall|e: int|
                #![trigger body[e]]
                t.len() > 0 && t[0] == '{' && 0 <= e < body.len() && body[e] == '}' && (forall|k: int|
                    0 <= k < e ==> body[k] != '}') ==> r == if exists|k: int|
                    0 <= k < e && {
                        let c = #[trigger] body[k];
                        let u = c as u32;
                        c == '{' || c == '\\' || c == '$' || c == '%' || c == '#' || c == '&' || u
                            <= 0x1F || (0x7F <= u && u <= 0x9F)
                    } {
                    stop(body, depth)
                } else {
                    done(body.take(e), body.skip(e + 1), depth)
                }
        }),
{
    let t = trim_start(rem);
    let body = t.drop_first();
    let r = spec_text_body(rem, depth);
    assert forall|e: int|
        #![trigger body[e]]
        t.len() > 0 && t[0] == '{' && 0 <= e < body.len() && body[e] == '}' && (forall|k: int|
            0 <= k < e ==> body[k] != '}') implies r == if exists|k: int|
            0 <= k < e && {
                let c = #[trigger] body[k];
                let u = c as u32;
                c == '{' || c == '\\' || c == '$' || c == '%' || c == '#' || c == '&' || u <= 0x1F
                    || (0x7F <= u && u <= 0x9F)
            } {
            stop(body, depth)
        } else {
            done(body.take(e), body.skip(e + 1), depth)
        } by {
        lemma_first_index_is(body, '}', e);
        let text = body.take(e);
        if exists|i: int| 0 <= i < text.len() && refused_text_char(#[trigger] text[i]) {
            let i = choose|i: int| 0 <= i < text.len() && refused_text_char(#[trigger] text[i]);
            assert(text[i] == body[i]);
        }
        if exists|k: int|
            0 <= k < e && {
                let c = #[trigger] body[k];
                let u = c as u32;
                c == '{' || c == '\\' || c == '$' || c == '%' || c == '#' || c == '&' || u <= 0x1F
                    || (0x7F <= u && u <= 0x9F)
            } {
            let k = choose|k: int|
                0 <= k < e && {
                    let c = #[trigger] body[k];
                    let u = c as u32;
                    c == '{' || c == '\\' || c == '$' || c == '%' || c == '#' || c == '&' || u
                        <= 0x1F || (0x7F <= u && u <= 0x9F)
                };
            assert(text[k] == body[k]);
            assert(refused_text_char(text[k]));
        }
    }
}

} // verus!

verus! {

/// Where a sequence ends or refuses, given the rendered text so far (`out`) and the
/// script state: at the end of the input it closes its level, rendered unless it is a
/// group; a `}` closes a group and is refused outside one; a `^` without a single-character
/// base or after a superscript, and a `_` without one or after a subscript, are refused in
/// place; a refused atom refuses the sequence where the atom stopped; and a rendering
/// wider than 256 columns is refused after the atom that made it so.
pub proof fn law_sequence_ends(
    rem: Seq<char>,
    depth: nat,
    group: bool,
    out: Seq<char>,
    sup: bool,
    sub: bool,
    has_base: bool,
)
    ensures
        ({
            let r = spec_sequence_loop(rem, depth, group, out, sup, sub, has_base);
            let a = spec_atom(rem, depth);
            &&& rem.len() == 0 && group ==> r == stop(rem, (depth - 1) as nat)
            &&& rem.len() == 0 && !group ==> r == done(out, rem, (depth - 1) as nat)
            &&& rem.len() > 0 && rem[0] == '}' && group ==> r == done(
                out,
                rem.drop_first(),
                (depth - 1) as nat,
            )
            &&& rem.len() > 0 && rem[0] == '}' && !group ==> r == stop(rem, depth)
            &&& rem.len() > 0 && rem[0] == '^' && (!has_base || sup) ==> r == stop(rem, depth)
            &&& rem.len() > 0 && rem[0] == '_' && (!has_base || sub) ==> r == stop(rem, depth)
            &&& rem.len() > 0 && rem[0] != '}' && !(rem[0] == '^' && (!has_base || sup)) && !(
            rem[0] == '_' && (!has_base || sub)) ==> {
                &&& a.out is None ==> r == a
                &&& a.out is Some && display_width(out + a.out->0) > 256 ==> r == stop(a.rest, depth)
            }
        }),
{
}

/// Nesting is limited to 32 levels: a sequence or an atom at depth 32 or more is refused
/// in place; below that, a sequence opens one level, and an atom opens one level and
/// closes it again whether it renders or not.
pub proof fn law_depth_limit(rem: Seq<char>, depth: nat, group: bool)
    ensures
        depth >= 32 ==> spec_sequence(rem, depth, group) == stop(rem, depth),
        depth >= 32 ==> spec_atom(rem, depth) == stop(rem, depth),
        depth < 32 ==> spec_sequence(rem, depth, group) == spec_sequence_loop(
            rem,
            depth + 1,
            group,
            seq![],
            false,
            false,
            false,
        ),
        depth < 32 ==> ({
            let s = spec_atom_inner(rem, depth + 1);
            spec_atom(rem, depth) == Step { out: s.out, rest: s.rest, depth: (s.depth - 1) as nat }
        }),
{
}

proof fn lemma_trim_start_fixed(s: Seq<char>)
    requires
        s.len() == 0 || !is_white_space(s[0]),
    ensures
        trim_start(s) == s,
{
}

proof fn lemma_trim_end_fixed(s: Seq<char>)
    requires
        s.len() == 0 || !is_white_space(s.last()),
    ensures
        trim_end(s) == s,
{
}

/// Rendering ignores the spaces around a formula: a formula renders as its trimmed self.
pub proof fn law_render_ignores_surrounding_space(source: Seq<char>)
    ensures
        spec_render(source) == spec_render(trim(source)),
{
    let x = trim_start(source);
    let y = trim_end(x);
    lemma_trim_start_suffix(source);
    lemma_trim_end_prefix(x);
    if y.len() > 0 {
        assert(y[0] == x[0]);
    }
    lemma_trim_start_fixed(y);
    lemma_trim_end_fixed(y);
    assert(trim(trim(source)) == trim(source));
}

/// Which delimiter opens at byte `i`: `$$` before `$`, then `\[` and `\(`; nothing else
/// opens math. `$$` and `\[` open display equations, closed by `$$` and `\]`; `$` and
/// `\(` open inline formulas, closed by `$` and `\)`.
pub proof fn law_openers(b: Seq<u8>, i: int)
    requires
        0 <= i < b.len(),
    ensures
        ({
            let two = i + 1 < b.len();
            &&& b[i] == 0x24u8 && two && b[i + 1] == 0x24u8 ==> opener_at(b, i) == Some(
                Delim::DoubleDollar,
            )
            &&& b[i] == 0x24u8 && !(two && b[i + 1] == 0x24u8) ==> opener_at(b, i) == Some(
                Delim::Dollar,
            )
            &&& b[i] == 0x5Cu8 && two && b[i + 1] == 0x5Bu8 ==> opener_at(b, i) == Some(
                Delim::Bracket,
            )
            &&& b[i] == 0x5Cu8 && two && b[i + 1] == 0x28u8 ==> opener_at(b, i) == Some(
                Delim::Paren,
            )
            &&& b[i] != 0x24u8 && !(b[i] == 0x5Cu8 && two && (b[i + 1] == 0x5Bu8 || b[i + 1]
                == 0x28u8)) ==> opener_at(b, i) is None
        }),
        open_of(Delim::DoubleDollar) == seq![0x24u8, 0x24u8] && close_of(Delim::DoubleDollar)
            == seq![0x24u8, 0x24u8],
        open_of(Delim::Bracket) == seq![0x5Cu8, 0x5Bu8] && close_of(Delim::Bracket) == seq![
            0x5Cu8,
            0x5Du8,
        ],
        open_of(Delim::Paren) == seq![0x5Cu8, 0x28u8] && close_of(Delim::Paren) == seq![
            0x5Cu8,
            0x29u8,
        ],
        open_of(Delim::Dollar) == seq![0x24u8] && close_of(Delim::Dollar) == seq![0x24u8],
        is_display(Delim::DoubleDollar) && is_display(Delim::Bracket),
        !is_display(Delim::Paren) && !is_display(Delim::Dollar),
{
    assert(b.subrange(i, i + 1) =~= seq![b[i]]);
    let o2 = open_of(Delim::DoubleDollar);
    let ob = open_of(Delim::Bracket);
    let op = open_of(Delim::Paren);
    let o1 = open_of(Delim::Dollar);
    assert(starts_with_at(b, i, o1) == (b[i] == 0x24u8)) by {
        if starts_with_at(b, i, o1) {
            assert(b.subrange(i, i + 1)[0] == o1[0]);
        }
    }
    if i + 1 < b.len() {
        let w = b.subrange(i, i + 2);
        assert(w =~= seq![b[i], b[i + 1]]);
        assert(starts_with_at(b, i, o2) == (b[i] == 0x24u8 && b[i + 1] == 0x24u8)) by {
            if starts_with_at(b, i, o2) {
                assert(w[0] == o2[0] && w[1] == o2[1]);
            }
        }
        assert(starts_with_at(b, i, ob) == (b[i] == 0x5Cu8 && b[i + 1] == 0x5Bu8)) by {
            if starts_with_at(b, i, ob) {
                assert(w[0] == ob[0] && w[1] == ob[1]);
            }
        }
        assert(starts_with_at(b, i, op) == (b[i] == 0x5Cu8 && b[i + 1] == 0x28u8)) by {
            if starts_with_at(b, i, op) {
                assert(w[0] == op[0] && w[1] == op[1]);
            }
        }
    } else {
        assert(!starts_with_at(b, i, o2) && !starts_with_at(b, i, ob) && !starts_with_at(b, i, op));
    }
}

} // verus!

verus! {

/// The replacements placed as formulas, in the order the pieces give them.
pub open spec fn formula_indices(ps: Seq<Piece>) -> Seq<usize>
    decreases ps.len(),
{
    if ps.len() == 0 {
        seq![]
    } else {
        let rest = formula_indices(ps.drop_first());
        match ps[0] {
            Piece::Formula(k) => seq![k] + rest,
            _ => rest,
        }
    }
}

proof fn lemma_formula_indices_add(a: Seq<Piece>, b: Seq<Piece>)
    ensures
        formula_indices(a + b) == formula_indices(a) + formula_indices(b),
    decreases a.len(),
{
    if a.len() == 0 {
        assert(a + b =~= b);
    } else {
        assert((a + b).drop_first() =~= a.drop_first() + b);
        lemma_formula_indices_add(a.drop_first(), b);
        assert((a + b)[0] == a[0]);
    }
}

proof fn lemma_formula_indices_single(p: Piece)
    ensures
        formula_indices(seq![p]) == match p {
            Piece::Formula(k) => seq![k],
            _ => Seq::<usize>::empty(),
        },
{
    let ps = seq![p];
    assert(ps.drop_first() =~= Seq::<Piece>::empty());
    assert(formula_indices(ps.drop_first()) == Seq::<usize>::empty());
    if let Piece::Formula(k) = p {
        assert(seq![k] + Seq::<usize>::empty() =~= seq![k]);
    }
}

/// Indices increase and lie in `[lo, hi)`.
pub open spec fn increasing_within(ks: Seq<usize>, lo: int, hi: int) -> bool {
    &&& forall|a: int, c: int| 0 <= a < c < ks.len() ==> #[trigger] ks[a] < #[trigger] ks[c]
    &&& forall|a: int| 0 <= a < ks.len() ==> lo <= #[trigger] ks[a] < hi
}

proof fn lemma_increasing_concat(x: Seq<usize>, y: Seq<usize>, lo: int, mid: int, hi: int)
    requires
        lo <= mid <= hi,
        increasing_within(x, lo, mid),
        increasing_within(y, mid, hi),
    ensures
        increasing_within(x + y, lo, hi),
{
    let z = x + y;
    assert forall|a: int, c: int| 0 <= a < c < z.len() implies #[trigger] z[a] < #[trigger] z[c] by {
        if a < x.len() && c >= x.len() {
            assert(z[a] == x[a] && z[c] == y[c - x.len()]);
        } else if a >= x.len() {
            assert(z[a] == y[a - x.len()] && z[c] == y[c - x.len()]);
        } else {
            assert(z[a] == x[a] && z[c] == x[c]);
        }
    }
    assert forall|a: int| 0 <= a < z.len() implies lo <= #[trigger] z[a] < hi by {
        if a < x.len() {
            assert(z[a] == x[a]);
        } else {
            assert(z[a] == y[a - x.len()]);
        }
    }
}

proof fn lemma_skip_before_forward(spans: Seq<ByteRange>, j: int, pos: int)
    ensures
        skip_before(spans, j, pos) >= j,
    decreases spans.len() - j,
{
    if 0 <= j < spans.len() && spans[j].end <= pos {
        lemma_skip_before_forward(spans, j + 1, pos);
    }
}

proof fn lemma_text_pieces_formulas(spans: Seq<ByteRange>, j: int, offset: int, end: int)
    requires
        0 <= j,
        spans.len() <= usize::MAX,
    ensures
        text_pieces(spans, j, offset, end).1 >= j,
        j <= spans.len() ==> text_pieces(spans, j, offset, end).1 <= spans.len(),
        increasing_within(
            formula_indices(text_pieces(spans, j, offset, end).0),
            j,
            text_pieces(spans, j, offset, end).1,
        ),
    decreases spans.len() - j,
{
    if 0 <= j < spans.len() && spans[j].end <= end {
        let sj = spans[j];
        lemma_text_pieces_formulas(spans, j + 1, sj.end as int, end);
        let (rest, j2) = text_pieces(spans, j + 1, sj.end as int, end);
        let head = source_piece(offset, sj.start as int);
        let f = seq![Piece::Formula(j as usize)];
        lemma_formula_indices_add(head + f, rest);
        lemma_formula_indices_add(head, f);
        lemma_formula_indices_single(Piece::Formula(j as usize));
        if offset < sj.start {
            lemma_formula_indices_single(head[0]);
        }
        assert(formula_indices(head) =~= Seq::<usize>::empty());
        assert(formula_indices(head + f) =~= seq![j as usize]);
        lemma_increasing_concat(seq![j as usize], formula_indices(rest), j, j + 1, j2);
    } else {
        let ps = source_piece(offset, end);
        if offset < end {
            lemma_formula_indices_single(ps[0]);
            assert(ps =~= seq![ps[0]]);
        }
    }
}

proof fn lemma_split_events_formulas(spans: Seq<ByteRange>, events: Seq<EventSpan>, i: int, j: int)
    requires
        0 <= i,
        0 <= j,
        spans.len() <= usize::MAX,
    ensures
        increasing_within(formula_indices(split_events(spans, events, i, j)), j, spans.len() as int),
    decreases events.len() - i,
{
    if i < events.len() {
        let e = events[i];
        let j1 = skip_before(spans, j, e.range.start as int);
        lemma_skip_before_forward(spans, j, e.range.start as int);
        if !e.is_text || j1 >= spans.len() || j1 < 0 || spans[j1].start >= e.range.end {
            let rest = split_events(spans, events, i + 1, j1);
            lemma_split_events_formulas(spans, events, i + 1, j1);
            lemma_formula_indices_add(seq![Piece::Event(i as usize)], rest);
            lemma_formula_indices_single(Piece::Event(i as usize));
            assert(formula_indices(split_events(spans, events, i, j)) =~= formula_indices(rest));
        } else {
            let (pieces, j2) = text_pieces(spans, j1, e.range.start as int, e.range.end as int);
            lemma_text_pieces_formulas(spans, j1, e.range.start as int, e.range.end as int);
            let rest = split_events(spans, events, i + 1, j2);
            lemma_split_events_formulas(spans, events, i + 1, j2);
            lemma_formula_indices_add(pieces, rest);
            lemma_increasing_concat(formula_indices(pieces), formula_indices(rest), j, j2, spans.len() as int);
        }
    } else {
        assert(split_events(spans, events, i, j) =~= Seq::<Piece>::empty());
    }
}

/// Each replacement is put back at most once, and in order: the formulas of the output
/// are replacements of the list, in increasing position.
pub proof fn law_formulas_once_in_order(spans: Seq<ByteRange>, events: Seq<EventSpan>)
    requires
        spans.len() <= usize::MAX,
    ensures
        increasing_within(formula_indices(split_events(spans, events, 0, 0)), 0, spans.len() as int),
{
    lemma_split_events_formulas(spans, events, 0, 0);
}

/// The line of byte `i` starts at `line_start(b, i)`: at the start of the text or right
/// after a newline, with no newline between it and `i`.
pub proof fn law_line_start(b: Seq<u8>, i: int)
    requires
        0 <= i <= b.len(),
    ensures
        0 <= line_start(b, i) <= i,
        line_start(b, i) == 0 || b[line_start(b, i) - 1] == 0x0Au8,
        forall|k: int| line_start(b, i) <= k < i ==> #[trigger] b[k] != 0x0Au8,
    decreases i,
{
    if i > 0 && b[i - 1] != 0x0Au8 {
        law_line_start(b, i - 1);
    }
}

/// A closer found is an unescaped occurrence of the closer within the search window; for a
/// one-byte closer (`$`) it is the first unescaped one, and none is found only when every
/// occurrence in the window is escaped.
pub proof fn law_find_close(b: Seq<u8>, p: int, lim: int, close: Seq<u8>)
    requires
        0 <= p,
        lim <= b.len(),
    ensures
        find_close(b, p, lim, close) matches Some(e) ==> p <= e && e + close.len() <= lim
            && b.subrange(e, e + close.len()) == close && !is_escaped(b, e),
        close.len() == 1 ==> (find_close(b, p, lim, close) matches Some(e) ==> forall|k: int|
            p <= k < e && #[trigger] b[k] == close[0] ==> is_escaped(b, k)),
        close.len() == 1 && find_close(b, p, lim, close) is None ==> forall|k: int|
            p <= k < lim && #[trigger] b[k] == close[0] ==> is_escaped(b, k),
    decreases lim - p,
{
    lemma_find_close(b, p, lim, close);
    if close.len() == 1 && p + 1 <= lim {
        assert(b.subrange(p, p + 1) =~= seq![b[p]]);
        if b.subrange(p, p + 1) == close {
            if is_escaped(b, p) {
                law_find_close(b, p + 1, lim, close);
            }
        } else {
            assert(b[p] != close[0]) by {
                if b[p] == close[0] {
                    assert(b.subrange(p, p + 1) =~= close);
                }
            }
            law_find_close(b, p + 1, lim, close);
        }
    }
}

} // verus!
