//! The events that a markdown tokenizer reports, each with the byte range of
//! the source it was read from.

use crate::range::Range;
use pulldown_cmark::{Options, Parser, Tag, TagEnd};
use vstd::prelude::*;

verus! {

/// What the tokenizer found.
#[derive(Clone, Copy, Debug, PartialEq, Eq)]
pub enum EventKind {
    /// A list begins. An ordered list carries the number of its first item;
    /// a bullet list, the only kind that makes a checklist, carries none.
    ListStart(Option<u64>),
    /// A list ends; the flag says whether it was an ordered one.
    ListEnd(bool),
    /// A list item begins.
    ItemStart,
    /// A list item ends.
    ItemEnd,
    /// The checkbox of a task item, checked or not.
    TaskMarker(bool),
    /// Anything else: text, emphasis, code, paragraphs, headings.
    Other,
}

/// One event of the stream and the bytes of the source it stands for.
#[derive(Debug, PartialEq, Eq)]
pub struct Event {
    pub kind: EventKind,
    pub range: Range,
}

/// The events that the tokenizer reports for a markdown source, in order.
pub uninterp spec fn markdown_events(source: Seq<char>) -> Seq<Event>;

/// Runs pulldown-cmark's `Parser::new_ext` with task lists enabled over
/// `source`, walks the parser's `into_offset_iter`, and keeps of every event
/// its range and what a checklist needs of its kind. The contract claims,
/// without proof, that the events depend on the source alone.
#[verifier::external_body]
pub(crate) fn tokenize(source: &str) -> (events: Vec<Event>)
    ensures
        events@ == markdown_events(source@),
{
    let mut events = Vec::new();
    for (event, range) in Parser::new_ext(source, Options::ENABLE_TASKLISTS).into_offset_iter() {
        let kind = match event {
            pulldown_cmark::Event::Start(Tag::List(first)) => EventKind::ListStart(first),
            pulldown_cmark::Event::End(TagEnd::List(ordered)) => EventKind::ListEnd(ordered),
            pulldown_cmark::Event::Start(Tag::Item) => EventKind::ItemStart,
            pulldown_cmark::Event::End(TagEnd::Item) => EventKind::ItemEnd,
            pulldown_cmark::Event::TaskListMarker(checked) => EventKind::TaskMarker(checked),
            _ => EventKind::Other,
        };
        events.push(Event { kind, range });
    }
    events
}

} // verus!
