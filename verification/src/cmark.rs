//! What the Markdown parser (`pulldown_cmark`) reports about a text, as plain values.

use vstd::prelude::*;
use vstd::multiset::Multiset;

use pulldown_cmark::{Event, Options, Parser, Tag};

use crate::scan::ByteRange;

verus! {

/// The kinds of Markdown events that math recognition tells apart.
#[derive(Clone, Copy, Debug, PartialEq, Eq, Structural)]
pub enum EventKind {
    Code,
    Html,
    InlineHtml,
    CodeBlockStart,
    LinkStart,
    ImageStart,
    Other,
}

/// A Markdown event's kind and the byte range of the source that it covers.
#[derive(Clone, Copy, Debug, PartialEq, Eq, Structural)]
pub struct SourceEvent {
    pub kind: EventKind,
    pub range: ByteRange,
}

/// The events, with their source ranges and in order, that `pulldown_cmark::Parser`
/// yields through `into_offset_iter` for `text` parsed with the option bits `options`;
/// a function of the text and the options alone.
pub uninterp spec fn markdown_event_ranges(text: Seq<char>, options: u32) -> Seq<SourceEvent>;

/// The source spans of the link reference definitions that `pulldown_cmark::Parser`
/// finds in `text` parsed with the option bits `options`, counted with multiplicity.
/// The parser keeps them in a `HashMap`, so only their multiset is a function of the
/// text and the options; the order in which they come out is not.
pub uninterp spec fn reference_definition_spans(text: Seq<char>, options: u32) -> Multiset<
    ByteRange,
>;

/// Runs `Parser::new_ext(text, Options::from_bits_retain(options)).into_offset_iter()`
/// and reports each event's kind and source range; the list is named
/// `markdown_event_ranges`.
#[verifier::external_body]
pub(crate) fn markdown_events(text: &str, options: u32) -> (r: Vec<SourceEvent>)
    ensures
        r@ == markdown_event_ranges(text@, options),
{
    let parser = Parser::new_ext(text, Options::from_bits_retain(options));
    parser.into_offset_iter().map(|(event, range)| SourceEvent {
        kind: match event {
            Event::Code(_) => EventKind::Code,
            Event::Html(_) => EventKind::Html,
            Event::InlineHtml(_) => EventKind::InlineHtml,
            Event::Start(Tag::CodeBlock(_)) => EventKind::CodeBlockStart,
            Event::Start(Tag::Link { .. }) => EventKind::LinkStart,
            Event::Start(Tag::Image { .. }) => EventKind::ImageStart,
            _ => EventKind::Other,
        },
        range: ByteRange { start: range.start, end: range.end },
    }).collect()
}

/// Runs `Parser::new_ext(text, Options::from_bits_retain(options)).reference_definitions()`
/// and reports the span of each definition; their multiset is named
/// `reference_definition_spans`, while their order is left unsaid.
#[verifier::external_body]
pub(crate) fn reference_definitions(text: &str, options: u32) -> (r: Vec<ByteRange>)
    ensures
        r@.to_multiset() == reference_definition_spans(text@, options),
{
    let parser = Parser::new_ext(text, Options::from_bits_retain(options));
    parser.reference_definitions().iter().map(|(_, def)| ByteRange {
        start: def.span.start,
        end: def.span.end,
    }).collect()
}

} // verus!
