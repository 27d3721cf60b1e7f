use pulldown_cmark::{Event, Parser, Tag};
use vstd::prelude::*;

verus! {

/// What the heading extractor and the marker scan need to know of a parser event.
pub enum EventKind {
    /// A heading opens, with the level the parser gives it.
    HeadingStart(i32),
    /// A heading closes.
    HeadingEnd,
    /// Raw HTML, with its text.
    Html(String),
    /// Any other event.
    Other,
}

/// A parser event with the byte range of the source that the parser gives for it.
pub struct ParseEvent {
    pub kind: EventKind,
    pub start: usize,
    pub end: usize,
}

/// The events, in order, that the CommonMark parser reports for a document: they depend on
/// the document's text alone.
pub uninterp spec fn markdown_events(doc: Seq<char>) -> Seq<ParseEvent>;

/// Relies on `pulldown_cmark::Parser::into_offset_iter` for the event stream of `doc`, each
/// event with its byte range.
#[verifier::external_body]
pub(crate) fn parse_events(doc: &str) -> (r: Vec<ParseEvent>)
    ensures
        r@ == markdown_events(doc@),
{
    Parser::new(doc).into_offset_iter().map(|(event, range)| ParseEvent {
        kind: match event {
            Event::Start(Tag::Header(level)) => EventKind::HeadingStart(level),
            Event::End(Tag::Header(_)) => EventKind::HeadingEnd,
            Event::Html(html) => EventKind::Html(html.into_string()),
            _ => EventKind::Other,
        },
        start: range.start,
        end: range.end,
    }).collect()
}

} // verus!
