//! The markdown event stream that a deck is built from.
//!
//! pulldown-cmark turns the source text into a stream of events; this module
//! gives those events a plain shape of the library's own (`MdEvent`) and names
//! the stream that the parser hands out for a given text.

use pulldown_cmark::{Event, Tag, TagEnd};
use pulldown_cmark::Alignment as CmarkAlignment;
use vstd::prelude::*;

verus! {

/// Horizontal alignment of a table column, as written in the separator row.
#[derive(Clone, Copy, Debug, PartialEq, Eq, Structural)]
pub enum Alignment {
    Unset,
    Left,
    Center,
    Right,
}

/// One markdown event, reduced to what the deck builder reads.
/// Events that the builder ignores arrive as `Other`.
#[derive(Debug)]
pub enum MdEvent {
    StartHeading(usize),
    EndHeading,
    StartTable(Vec<Alignment>),
    EndTable,
    StartTableHead,
    EndTableHead,
    StartTableRow,
    EndTableRow,
    StartTableCell,
    EndTableCell,
    StartItem,
    EndItem,
    EndParagraph,
    StartCodeBlock,
    EndCodeBlock,
    StartStrong,
    EndStrong,
    StartEmphasis,
    EndEmphasis,
    Text(String),
    Code(String),
    SoftBreak,
    HardBreak,
    Rule,
    Other,
}

/// `pulldown_cmark::Event`, carried only from the parser into the conversion.
#[verifier::external_type_specification]
#[verifier::external_body]
pub struct ExEvent<'a>(Event<'a>);

/// `pulldown_cmark::Tag`, carried only from an event into the conversion.
#[verifier::external_type_specification]
#[verifier::external_body]
pub struct ExTag<'a>(Tag<'a>);

/// `pulldown_cmark::Alignment`, carried only from a table tag into the conversion.
#[verifier::external_type_specification]
#[verifier::external_body]
pub struct ExAlignment(CmarkAlignment);

/// `pulldown_cmark::TagEnd`, carried only from an event into the conversion.
#[verifier::external_type_specification]
#[verifier::external_body]
pub struct ExTagEnd(TagEnd);

/// The events that `pulldown_cmark::Parser::new_ext(md, Options::ENABLE_TABLES)`
/// yields for the text `md`, each in the shape of `MdEvent`.
pub uninterp spec fn markdown_events_of(md: Seq<char>) -> Seq<MdEvent>;

/// Whether the heading events of `evs`, read from a point where a heading
/// is open (`open`) or not, alternate start, end, start, end, ... and leave
/// no heading open at the end.
pub open spec fn headings_paired(open: bool, evs: Seq<MdEvent>) -> bool
    decreases evs.len(),
{
    if evs.len() == 0 {
        !open
    } else {
        match evs[0] {
            MdEvent::StartHeading(_) => !open && headings_paired(true, evs.drop_first()),
            MdEvent::EndHeading => open && headings_paired(false, evs.drop_first()),
            _ => headings_paired(open, evs.drop_first()),
        }
    }
}

/// Whether every heading of `evs` has a level from 1 to 6.
pub open spec fn heading_levels_ok(evs: Seq<MdEvent>) -> bool {
    forall|i: int|
        0 <= i < evs.len() ==> (#[trigger] evs[i] matches MdEvent::StartHeading(l) ==> 1 <= l <= 6)
}

/// Runs pulldown-cmark's parser, with tables enabled, over `md` and collects
/// its events in order. The contract claims that the result is the named
/// event stream of `md`; that headings open and close in turn, as the
/// parser's documented balance of start and end events gives for headings
/// (which hold only inline content, so never another heading); and that
/// every heading level is one of `HeadingLevel`'s, 1 to 6. Nothing else
/// about the CommonMark grammar is stated.
#[verifier::external_body]
pub(crate) fn markdown_events(md: &str) -> (evs: Vec<MdEvent>)
    ensures
        evs@ == markdown_events_of(md@),
        headings_paired(false, evs@),
        heading_levels_ok(evs@),
{
    let opts = pulldown_cmark::Options::ENABLE_TABLES;
    pulldown_cmark::Parser::new_ext(md, opts).map(event_from).collect()
}

/// Gives a pulldown-cmark event the shape of `MdEvent`, one variant for one
/// variant; the text of `Text` and `Code` is copied. Claims nothing.
#[verifier::external_body]
fn event_from(ev: Event<'_>) -> MdEvent {
    match ev {
        Event::Start(tag) => start_from(tag),
        Event::End(tag) => end_from(tag),
        Event::Text(t) => MdEvent::Text(t.to_string()),
        Event::Code(t) => MdEvent::Code(t.to_string()),
        Event::SoftBreak => MdEvent::SoftBreak,
        Event::HardBreak => MdEvent::HardBreak,
        Event::Rule => MdEvent::Rule,
        _ => MdEvent::Other,
    }
}

/// Gives the opening tag of an event the shape of `MdEvent`; a heading keeps
/// its level (1 to 6), a table its column alignments. Claims nothing.
#[verifier::external_body]
fn start_from(tag: Tag<'_>) -> MdEvent {
    match tag {
        Tag::Heading { level, .. } => MdEvent::StartHeading(level as usize),
        Tag::Table(a) => MdEvent::StartTable(a.into_iter().map(align_from).collect()),
        Tag::TableHead => MdEvent::StartTableHead,
        Tag::TableRow => MdEvent::StartTableRow,
        Tag::TableCell => MdEvent::StartTableCell,
        Tag::Item => MdEvent::StartItem,
        Tag::CodeBlock(_) => MdEvent::StartCodeBlock,
        Tag::Strong => MdEvent::StartStrong,
        Tag::Emphasis => MdEvent::StartEmphasis,
        _ => MdEvent::Other,
    }
}

/// Gives a column alignment the library's shape; `None` becomes `Unset`.
/// Claims nothing.
#[verifier::external_body]
fn align_from(a: CmarkAlignment) -> Alignment {
    match a {
        CmarkAlignment::None => Alignment::Unset,
        CmarkAlignment::Left => Alignment::Left,
        CmarkAlignment::Center => Alignment::Center,
        CmarkAlignment::Right => Alignment::Right,
    }
}

/// Gives the closing tag of an event the shape of `MdEvent`. Claims nothing.
#[verifier::external_body]
fn end_from(tag: TagEnd) -> MdEvent {
    match tag {
        TagEnd::Heading(_) => MdEvent::EndHeading,
        TagEnd::Table => MdEvent::EndTable,
        TagEnd::TableHead => MdEvent::EndTableHead,
        TagEnd::TableRow => MdEvent::EndTableRow,
        TagEnd::TableCell => MdEvent::EndTableCell,
        TagEnd::Item => MdEvent::EndItem,
        TagEnd::Paragraph => MdEvent::EndParagraph,
        TagEnd::CodeBlock => MdEvent::EndCodeBlock,
        TagEnd::Strong => MdEvent::EndStrong,
        TagEnd::Emphasis => MdEvent::EndEmphasis,
        _ => MdEvent::Other,
    }
}

} // verus!
