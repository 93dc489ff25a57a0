//! Math in Markdown: the masked Markdown source, the display equations, and the rendered
//! inline formulas with the spans they replace.

use vstd::prelude::*;
use vstd::string::StringSliceAdditionalSpecFns;
use vstd::relations::{sorted_by, total_ordering};
use vstd::utf8::{encode_utf8, encode_scalar, valid_utf8};

use vstd::multiset::Multiset;

use crate::bytes::slice_str;
use crate::cmark::{
    markdown_event_ranges, markdown_events, reference_definition_spans, reference_definitions,
    EventKind, SourceEvent,
};
use crate::scan::{
    is_boundary, lemma_scan_ordered, lemma_starts_with_1, lemma_starts_with_2, lemma_step_advances,
    mask, opener_at, replacements_in_order, reps_view, scan, scan_all, scan_found, scan_step,
    ByteRange, Found, Replacement, ScanState, BACKSLASH, DOLLAR, LBRACKET, LPAREN,
};

verus! {

/// The UTF-8 encoding of a concatenation is the concatenation of the encodings.
pub proof fn lemma_encode_concat(x: Seq<char>, y: Seq<char>)
    ensures
        encode_utf8(x + y) == encode_utf8(x) + encode_utf8(y),
    decreases x.len(),
{
    if x.len() == 0 {
        assert(x + y =~= y);
        assert(encode_utf8(x) =~= Seq::<u8>::empty());
        assert(Seq::<u8>::empty() + encode_utf8(y) =~= encode_utf8(y));
    } else {
        lemma_encode_concat(x.drop_first(), y);
        assert((x + y).drop_first() =~= x.drop_first() + y);
        assert((x + y)[0] == x[0]);
        assert(encode_scalar(x[0] as u32) + (encode_utf8(x.drop_first()) + encode_utf8(y))
            =~= (encode_scalar(x[0] as u32) + encode_utf8(x.drop_first())) + encode_utf8(y));
    }
}

/// `$` is encoded as the single byte `DOLLAR`.
pub proof fn lemma_encode_dollar()
    ensures
        encode_utf8(seq!['$']) == seq![DOLLAR],
{
    let v = '$' as u32;
    assert(v == 36);
    assert((36u32 & 0x7F) as u8 == 36u8) by (bit_vector);
    assert(encode_scalar(v) =~= seq![DOLLAR]);
    assert(encode_utf8(Seq::<char>::empty()) =~= Seq::<u8>::empty());
    assert(seq!['$'].drop_first() =~= Seq::<char>::empty());
    assert(encode_utf8(seq!['$']) =~= seq![DOLLAR]);
}

/// Outside every replacement span, the mask keeps the byte.
proof fn lemma_mask_outside(b: Seq<u8>, r: Seq<(ByteRange, Seq<char>)>, i: int)
    requires
        0 <= i < b.len(),
        forall|k: int| 0 <= k < r.len() ==> !(r[k].0.start <= i < #[trigger] r[k].0.end),
    ensures
        mask(b, r)[i] == b[i],
{
}

/// Inside a replacement span, the mask holds `$`.
proof fn lemma_mask_inside(b: Seq<u8>, r: Seq<(ByteRange, Seq<char>)>, k: int, i: int)
    requires
        0 <= i < b.len(),
        0 <= k < r.len(),
        r[k].0.start <= i < r[k].0.end,
    ensures
        mask(b, r)[i] == DOLLAR,
{
}

/// `input` with the bytes of each replacement span turned into `$`, which keeps every
/// offset into the text valid and cannot form Markdown syntax.
pub fn masked_markdown(input: &str, reps: &Vec<Replacement>) -> (s: String)
    requires
        replacements_in_order(input.spec_bytes(), reps_view(reps@)),
    ensures
        encode_utf8(s@) == mask(input.spec_bytes(), reps_view(reps@)),
{
    let ghost b = input.spec_bytes();
    let ghost r = reps_view(reps@);
    let n = input.as_bytes().len();
    let mut out = String::new();
    let mut prev: usize = 0;
    let mut k: usize = 0;
    proof {
        vstd::utf8::encode_utf8_valid_utf8(input@);
        crate::bytes::lemma_char_boundary(b, 0);
        reveal_strlit("$");
        lemma_encode_dollar();
        assert(encode_utf8(out@) =~= mask(b, r).subrange(0, 0));
    }
    while k < reps.len()
        invariant
            b == input.spec_bytes(),
            n == b.len(),
            r == reps_view(reps@),
            replacements_in_order(b, r),
            "$"@ == seq!['$'],
            encode_utf8(seq!['$']) == seq![DOLLAR],
            k <= reps.len(),
            prev <= n,
            is_boundary(b, prev as int),
            k == 0 ==> prev == 0,
            k > 0 ==> prev == r[k - 1].0.end,
            encode_utf8(out@) == mask(b, r).subrange(0, prev as int),
        decreases reps.len() - k,
    {
        let sp = reps[k].span;
        assert(r[k as int].0 == sp);
        if k > 0 {
            assert(r[k - 1].0.end <= r[k as int].0.start);
        }
        assert(sp.start < sp.end <= b.len());
        assert(prev <= sp.start);
        assert(is_boundary(b, sp.start as int));
        assert forall|i: int| prev <= i < sp.start implies mask(b, r)[i] == b[i] by {
            assert forall|j: int| 0 <= j < r.len() implies !(r[j].0.start <= i
                < #[trigger] r[j].0.end) by {
                if j < k {
                    if j < k - 1 {
                        assert(r[j].0.end <= r[k - 1].0.start);
                    }
                } else if j > k {
                    assert(r[k as int].0.end <= r[j].0.start);
                }
            }
            lemma_mask_outside(b, r, i);
        }
        let gap = slice_str(input, prev, sp.start);
        proof {
            lemma_encode_concat(out@, gap@);
            assert(mask(b, r).subrange(0, sp.start as int) =~= mask(b, r).subrange(0, prev as int)
                + b.subrange(prev as int, sp.start as int));
        }
        out.append(gap);
        assert(gap.spec_bytes() == encode_utf8(gap@));
        let mut j = sp.start;
        while j < sp.end
            invariant
                b == input.spec_bytes(),
                n == b.len(),
                r == reps_view(reps@),
                k < reps.len(),
                r[k as int].0 == sp,
                sp.start <= j <= sp.end <= n,
                "$"@ == seq!['$'],
                encode_utf8(seq!['$']) == seq![DOLLAR],
                encode_utf8(out@) == mask(b, r).subrange(0, j as int),
            decreases sp.end - j,
        {
            proof {
                lemma_encode_concat(out@, seq!['$']);
                lemma_mask_inside(b, r, k as int, j as int);
                assert(mask(b, r).subrange(0, j + 1) =~= mask(b, r).subrange(0, j as int).push(
                    DOLLAR,
                ));
            }
            out.append("$");
            j += 1;
        }
        prev = sp.end;
        k += 1;
    }
    assert forall|i: int| prev <= i < n implies mask(b, r)[i] == b[i] by {
        assert forall|j: int| 0 <= j < r.len() implies !(r[j].0.start <= i
            < #[trigger] r[j].0.end) by {
            if j < k - 1 {
                assert(r[j].0.end <= r[k - 1].0.start);
            }
        }
        lemma_mask_outside(b, r, i);
    }
    let tail = slice_str(input, prev, n);
    proof {
        lemma_encode_concat(out@, tail@);
        assert(mask(b, r) =~= mask(b, r).subrange(0, prev as int) + b.subrange(prev as int, n as int));
    }
    out.append(tail);
    out
}

} // verus!

verus! {

/// The order in which protected ranges are kept: by start, then by end.
pub open spec fn range_leq(x: ByteRange, y: ByteRange) -> bool {
    x.start < y.start || (x.start == y.start && x.end <= y.end)
}

/// [`range_leq`] as a relation.
pub open spec fn range_order() -> spec_fn(ByteRange, ByteRange) -> bool {
    |x: ByteRange, y: ByteRange| range_leq(x, y)
}

/// [`range_order`] is a total order.
pub proof fn lemma_range_order_total()
    ensures
        total_ordering(range_order()),
{
    let leq = range_order();
    assert forall|x: ByteRange, y: ByteRange| #[trigger] leq(x, y) && #[trigger] leq(y, x) implies x == y by {
    }
}

/// Whether `x` comes before or with `y` in the order of protected ranges.
pub fn range_le(x: ByteRange, y: ByteRange) -> (r: bool)
    ensures
        r == range_leq(x, y),
{
    x.start < y.start || (x.start == y.start && x.end <= y.end)
}

/// The ranges of `v`, sorted by start and then by end.
pub fn sort_ranges(v: &Vec<ByteRange>) -> (r: Vec<ByteRange>)
    ensures
        sorted_by(r@, range_order()),
        r@.to_multiset() == v@.to_multiset(),
{
    broadcast use vstd::seq_lib::group_to_multiset_ensures;

    let ghost leq = range_order();
    let mut out: Vec<ByteRange> = Vec::new();
    let mut k: usize = 0;
    assert(v@.take(0) =~= Seq::<ByteRange>::empty());
    while k < v.len()
        invariant
            k <= v.len(),
            leq == range_order(),
            sorted_by(out@, leq),
            out@.to_multiset() == v@.take(k as int).to_multiset(),
        decreases v.len() - k,
    {
        let x = v[k];
        let mut i = out.len();
        while i > 0 && !range_le(out[i - 1], x)
            invariant
                i <= out.len(),
                forall|j: int| i <= j < out.len() ==> !range_leq(#[trigger] out@[j], x),
            decreases i,
        {
            i -= 1;
        }
        let ghost before = out@;
        out.insert(i, x);
        proof {
            vstd::seq_lib::to_multiset_insert(before, i as int, x);
            assert(out@ == before.insert(i as int, x));
            assert(v@.take(k + 1) =~= v@.take(k as int).push(x));
            v@.take(k as int).to_multiset_ensures();
            assert(v@.take(k as int).push(x).to_multiset() =~= v@.take(k as int).to_multiset().insert(x));
            assert forall|a: int, c: int| 0 <= a < c < out@.len() implies #[trigger] leq(
                out@[a],
                out@[c],
            ) by {
                if c < i {
                    assert(leq(before[a], before[c]));
                } else if c == i {
                    if a < i - 1 {
                        assert(leq(before[a], before[i - 1]));
                    }
                } else if a == i {
                    assert(!range_leq(before[c - 1], x));
                } else if a < i {
                    assert(!range_leq(before[c - 1], x));
                    if i > 0 {
                        assert(leq(before[a], before[i - 1]));
                    }
                    assert(leq(before[a], before[c - 1]));
                } else {
                    assert(leq(before[a - 1], before[c - 1]));
                }
            }
        }
        k += 1;
    }
    assert(v@.take(v.len() as int) =~= v@);
    out
}

} // verus!

verus! {

/// Markdown events whose source the scanner leaves alone: code, HTML, and the insides
/// of code blocks, links and images; everything but the other events.
pub open spec fn is_protected_kind(k: EventKind) -> bool {
    k != EventKind::Other
}

/// The source ranges of the protected events, in order.
pub open spec fn protected_of(events: Seq<SourceEvent>) -> Seq<ByteRange>
    decreases events.len(),
{
    if events.len() == 0 {
        seq![]
    } else {
        let rest = protected_of(events.drop_last());
        if is_protected_kind(events.last().kind) {
            rest.push(events.last().range)
        } else {
            rest
        }
    }
}

/// The source ranges of the protected events of `events`, in order.
pub fn protected_events(events: &Vec<SourceEvent>) -> (r: Vec<ByteRange>)
    ensures
        r@ == protected_of(events@),
{
    let mut r: Vec<ByteRange> = Vec::new();
    let mut i: usize = 0;
    assert(events@.take(0) =~= Seq::<SourceEvent>::empty());
    while i < events.len()
        invariant
            i <= events.len(),
            r@ == protected_of(events@.take(i as int)),
        decreases events.len() - i,
    {
        let e = events[i];
        assert(events@.take(i + 1).drop_last() =~= events@.take(i as int));
        assert(events@.take(i + 1).last() == e);
        if e.kind != EventKind::Other {
            r.push(e.range);
        }
        i += 1;
    }
    assert(events@.take(events.len() as int) =~= events@);
    r
}

/// The multiset of ranges that the Markdown parser protects in `text`: the spans of link
/// reference definitions and the ranges of protected events.
pub open spec fn protected_multiset(text: Seq<char>, options: u32) -> Multiset<ByteRange> {
    reference_definition_spans(text, options).add(
        protected_of(markdown_event_ranges(text, options)).to_multiset(),
    )
}

/// The ranges that the Markdown parser protects in `text`, sorted by [`range_order`].
pub open spec fn protected_ranges(text: Seq<char>, options: u32) -> Seq<ByteRange> {
    choose|s: Seq<ByteRange>|
        sorted_by(s, range_order()) && s.to_multiset() == protected_multiset(text, options)
}

/// A `$`, `\(` or `\[` starts at byte `i`.
pub open spec fn delimiter_at(b: Seq<u8>, i: int) -> bool {
    0 <= i < b.len() && (b[i] == DOLLAR || (b[i] == BACKSLASH && i + 1 < b.len() && (b[i + 1]
        == LPAREN || b[i + 1] == LBRACKET)))
}

/// Whether the bytes hold a `$`, `\(` or `\[`, without which there is no math.
pub open spec fn has_math_delimiter(b: Seq<u8>) -> bool {
    exists|i: int| #[trigger] delimiter_at(b, i)
}

/// Whether `input` holds a `$`, `\(` or `\[`.
pub fn contains_math_delimiter(input: &str) -> (r: bool)
    ensures
        r == has_math_delimiter(input.spec_bytes()),
{
    let b = input.as_bytes();
    let mut i: usize = 0;
    while i < b.len()
        invariant
            b@ == input.spec_bytes(),
            i <= b@.len(),
            forall|j: int| 0 <= j < i ==> !#[trigger] delimiter_at(b@, j),
        decreases b.len() - i,
    {
        if b[i] == DOLLAR || (b[i] == BACKSLASH && i + 1 < b.len() && (b[i + 1] == LPAREN || b[i
            + 1] == LBRACKET)) {
            assert(delimiter_at(b@, i as int));
            return true;
        }
        i += 1;
    }
    false
}

/// Without a `$`, `\(` or `\[`, the scanner finds nothing.
pub proof fn lemma_scan_without_delimiters(b: Seq<u8>, p: Seq<ByteRange>, s: ScanState)
    requires
        !has_math_delimiter(b),
    ensures
        scan(b, p, s) == s.found,
    decreases b.len() - s.offset,
{
    if 0 <= s.offset < b.len() {
        lemma_step_advances(b, p, s);
        let i = s.offset;
        lemma_starts_with_2(b, i, DOLLAR, DOLLAR);
        lemma_starts_with_2(b, i, BACKSLASH, LBRACKET);
        lemma_starts_with_2(b, i, BACKSLASH, LPAREN);
        lemma_starts_with_1(b, i, DOLLAR);
        assert(!delimiter_at(b, i));
        assert(opener_at(b, i) is None);
        let t = scan_step(b, p, s);
        assert(t.found == s.found);
        if t.offset < b.len() {
            lemma_scan_without_delimiters(b, p, t);
        }
    }
}

/// Math found in a Markdown text: the text with each replaced formula masked by `$`
/// bytes (`markdown`), the byte ranges of display equations, which the Markdown renderer
/// keeps, and the rendered inline formulas with the spans they replace.
pub struct MathMarkdown {
    pub markdown: String,
    pub display_ranges: Vec<ByteRange>,
    pub replacements: Vec<Replacement>,
}

/// A [`MathMarkdown`] as values: the UTF-8 bytes of the masked text, the display
/// ranges, and each replacement's span and text.
pub struct MathMarkdownView {
    pub markdown: Seq<u8>,
    pub display_ranges: Seq<ByteRange>,
    pub replacements: Seq<(ByteRange, Seq<char>)>,
}

impl View for MathMarkdown {
    type V = MathMarkdownView;

    open spec fn view(&self) -> MathMarkdownView {
        MathMarkdownView {
            markdown: encode_utf8(self.markdown@),
            display_ranges: self.display_ranges@,
            replacements: reps_view(self.replacements@),
        }
    }
}

/// What scanning the bytes `b` for math gives when the protected ranges are `p`.
pub open spec fn scanned_markdown(b: Seq<u8>, p: Seq<ByteRange>) -> MathMarkdownView {
    let f = scan_all(b, p);
    MathMarkdownView {
        markdown: mask(b, f.replacements),
        display_ranges: f.display,
        replacements: f.replacements,
    }
}

impl MathMarkdown {
    /// Scans `input` for math, skipping the `protected` ranges in the order given.
    pub fn scan(input: &str, protected: &Vec<ByteRange>) -> (r: MathMarkdown)
        ensures
            r@ == scanned_markdown(input.spec_bytes(), protected@),
    {
        let (display_ranges, replacements) = scan_found(input, protected);
        let n = input.as_bytes().len();
        proof {
            let b = input.spec_bytes();
            vstd::utf8::encode_utf8_valid_utf8(input@);
            assert(b.len() == n);
            let s0 = ScanState {
                offset: 0,
                q: 0,
                found: Found { display: seq![], replacements: seq![] },
            };
            lemma_scan_ordered(b, protected@, s0);
        }
        let markdown = masked_markdown(input, &replacements);
        MathMarkdown { markdown, display_ranges, replacements }
    }

    /// Recognizes the math in the Markdown text `input`, parsed with the
    /// `pulldown_cmark` option bits `options`.
    pub fn new(input: &str, options: u32) -> (r: MathMarkdown)
        ensures
            r@ == scanned_markdown(input.spec_bytes(), protected_ranges(input@, options)),
    {
        if !contains_math_delimiter(input) {
            proof {
                let b = input.spec_bytes();
                let s0 = ScanState {
                    offset: 0,
                    q: 0,
                    found: Found { display: seq![], replacements: seq![] },
                };
                lemma_scan_without_delimiters(b, protected_ranges(input@, options), s0);
                assert(mask(b, seq![]) =~= b);
            }
            let r = MathMarkdown {
                markdown: input.to_owned(),
                display_ranges: Vec::new(),
                replacements: Vec::new(),
            };
            assert(reps_view(r.replacements@) =~= seq![]);
            return r;
        }
        let mut all = reference_definitions(input, options);
        let events = markdown_events(input, options);
        let protected_events = protected_events(&events);
        let ghost refs = all@;
        let mut i: usize = 0;
        while i < protected_events.len()
            invariant
                i <= protected_events.len(),
                all@ == refs + protected_events@.take(i as int),
            decreases protected_events.len() - i,
        {
            all.push(protected_events[i]);
            i += 1;
            assert(protected_events@.take(i as int) =~= protected_events@.take(i - 1).push(
                protected_events@[i - 1],
            ));
        }
        let sorted = sort_ranges(&all);
        proof {
            assert(protected_events@.take(protected_events.len() as int) =~= protected_events@);
            vstd::seq_lib::lemma_multiset_commutative(refs, protected_events@);
            assert(sorted@.to_multiset() == protected_multiset(input@, options));
            let c = protected_ranges(input@, options);
            lemma_range_order_total();
            vstd::seq_lib::lemma_sorted_unique(sorted@, c, range_order());
        }
        Self::scan(input, &sorted)
    }
}

} // verus!

verus! {

/// A Markdown event of the masked text, as the renderer sees it: whether it is text,
/// and the byte range of the masked text that it covers.
#[derive(Clone, Copy, Debug, PartialEq, Eq, Structural)]
pub struct EventSpan {
    pub is_text: bool,
    pub range: ByteRange,
}

/// One piece of the renderer's event stream after math is put back.
#[derive(Clone, Copy, Debug, PartialEq, Eq, Structural)]
pub enum Piece {
    /// The event at this position of the input, unchanged.
    Event(usize),
    /// Text taken from the masked Markdown over this range.
    Source(ByteRange),
    /// The rendered text of the replacement at this position, over its span.
    Formula(usize),
}

/// The first replacement, from position `j` on, that does not end at or before `pos`.
pub open spec fn skip_before(spans: Seq<ByteRange>, j: int, pos: int) -> int
    decreases spans.len() - j,
{
    if 0 <= j < spans.len() && spans[j].end <= pos {
        skip_before(spans, j + 1, pos)
    } else {
        j
    }
}

/// A piece of text over `start..end`, if that range is not empty.
pub open spec fn source_piece(start: int, end: int) -> Seq<Piece> {
    if start < end {
        seq![Piece::Source(ByteRange { start: start as usize, end: end as usize })]
    } else {
        seq![]
    }
}

/// The pieces of a text event that ends at `end`, from byte `offset` on, taking the
/// replacements from position `j` that end within the event; and the position of the
/// first replacement left.
pub open spec fn text_pieces(spans: Seq<ByteRange>, j: int, offset: int, end: int) -> (
    Seq<Piece>,
    int,
)
    decreases spans.len() - j,
{
    if 0 <= j < spans.len() && spans[j].end <= end {
        let (rest, j2) = text_pieces(spans, j + 1, spans[j].end as int, end);
        (source_piece(offset, spans[j].start as int) + seq![Piece::Formula(j as usize)] + rest, j2)
    } else {
        (source_piece(offset, end), j)
    }
}

/// The pieces for the events from position `i` on, with the replacements from position
/// `j` still to be placed.
pub open spec fn split_events(spans: Seq<ByteRange>, events: Seq<EventSpan>, i: int, j: int) -> Seq<
    Piece,
>
    decreases events.len() - i,
{
    if i < 0 || i >= events.len() {
        seq![]
    } else {
        let e = events[i];
        let j1 = skip_before(spans, j, e.range.start as int);
        if !e.is_text || j1 >= spans.len() || j1 < 0 || spans[j1].start >= e.range.end {
            seq![Piece::Event(i as usize)] + split_events(spans, events, i + 1, j1)
        } else {
            let (pieces, j2) = text_pieces(spans, j1, e.range.start as int, e.range.end as int);
            pieces + split_events(spans, events, i + 1, j2)
        }
    }
}

/// The spans of the replacements.
pub open spec fn replacement_spans(r: Seq<(ByteRange, Seq<char>)>) -> Seq<ByteRange> {
    Seq::new(r.len(), |k: int| r[k].0)
}

impl MathMarkdown {
    /// Puts the rendered formulas back into the event stream of the masked Markdown:
    /// each text event that a replacement overlaps is cut into text from the masked
    /// Markdown and the rendered formulas of the replacements that end inside it; every
    /// other event passes unchanged.
    pub fn events(&self, events: &Vec<EventSpan>) -> (r: Vec<Piece>)
        ensures
            r@ == split_events(replacement_spans(self@.replacements), events@, 0, 0),
    {
        let ghost spans = replacement_spans(self@.replacements);
        let mut out: Vec<Piece> = Vec::new();
        let mut j: usize = 0;
        let mut i: usize = 0;
        let n = self.replacements.len();
        while i < events.len()
            invariant
                spans == replacement_spans(self@.replacements),
                n == spans.len(),
                i <= events.len(),
                j <= n,
                out@ + split_events(spans, events@, i as int, j as int) == split_events(
                    spans,
                    events@,
                    0,
                    0,
                ),
            decreases events.len() - i,
        {
            let e = events[i];
            let ghost out0 = out@;
            let ghost j0 = j;
            while j < n && self.replacements[j].span.end <= e.range.start
                invariant
                    spans == replacement_spans(self@.replacements),
                    n == spans.len(),
                    j0 <= j <= n,
                    skip_before(spans, j as int, e.range.start as int) == skip_before(
                        spans,
                        j0 as int,
                        e.range.start as int,
                    ),
                decreases n - j,
            {
                assert(spans[j as int] == self.replacements@[j as int].span);
                j += 1;
            }
            if j < n {
                assert(spans[j as int] == self.replacements@[j as int].span);
            }
            if !e.is_text || j >= n || self.replacements[j].span.start >= e.range.end {
                out.push(Piece::Event(i));
                assert(out@ =~= out0 + seq![Piece::Event(i)]);
                i += 1;
                continue;
            }
            let mut offset = e.range.start;
            let ghost j1 = j;
            let ghost pieces = text_pieces(spans, j1 as int, e.range.start as int, e.range.end as int);
            while j < n && self.replacements[j].span.end <= e.range.end
                invariant
                    spans == replacement_spans(self@.replacements),
                    n == spans.len(),
                    j1 <= j <= n,
                    out@ + text_pieces(spans, j as int, offset as int, e.range.end as int).0
                        == out0 + pieces.0,
                    text_pieces(spans, j as int, offset as int, e.range.end as int).1 == pieces.1,
                decreases n - j,
            {
                let sp = self.replacements[j].span;
                assert(spans[j as int] == sp);
                let ghost before = out@;
                if offset < sp.start {
                    out.push(Piece::Source(ByteRange { start: offset, end: sp.start }));
                }
                out.push(Piece::Formula(j));
                assert(out@ =~= before + source_piece(offset as int, sp.start as int) + seq![
                    Piece::Formula(j),
                ]);
                offset = sp.end;
                j += 1;
            }
            if j < n {
                assert(spans[j as int] == self.replacements@[j as int].span);
            }
            let ghost before = out@;
            if offset < e.range.end {
                out.push(Piece::Source(ByteRange { start: offset, end: e.range.end }));
            }
            assert(out@ =~= before + source_piece(offset as int, e.range.end as int));
            i += 1;
        }
        assert(split_events(spans, events@, i as int, j as int) =~= Seq::<Piece>::empty());
        assert(out@ =~= out@ + Seq::<Piece>::empty());
        out
    }
}

} // verus!
