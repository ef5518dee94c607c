//! The Markdown events that the parser reads: pulldown-cmark's event stream, held as plain values.
use vstd::prelude::*;
use std::ops::Range;
use pulldown_cmark::{
    Alignment, CodeBlockKind, Event, HeadingLevel, Options, Parser as CmarkParser, Tag, TagEnd,
};
use crate::document::ColumnAlignment;

verus! {

/// The start of a Markdown element.
#[derive(Debug)]
pub enum MdTag {
    Paragraph,
    /// A heading, with its level (1 to 6).
    Heading(u8),
    BlockQuote,
    /// A code block: `Some(info)` for a fenced one, `None` for an indented one.
    CodeBlock(Option<String>),
    /// A list: `Some(first number)` for an ordered one.
    List(Option<u64>),
    Item,
    Table(Vec<ColumnAlignment>),
    TableHead,
    TableRow,
    TableCell,
    Emphasis,
    Strong,
    Strikethrough,
    Link { dest: String, title: String },
    Image { dest: String, title: String },
    /// An element that markdownlang gives no meaning.
    Other,
}

/// The end of a Markdown element.
#[derive(Debug, Clone, Copy, PartialEq, Eq, Structural)]
pub enum MdTagEnd {
    Paragraph,
    Heading,
    BlockQuote,
    CodeBlock,
    /// The end of a list: `true` for an ordered one.
    List(bool),
    Item,
    Table,
    TableHead,
    TableRow,
    TableCell,
    Emphasis,
    Strong,
    Strikethrough,
    Link,
    Image,
    Other,
}

/// One event of a Markdown document.
#[derive(Debug)]
pub enum MdEvent {
    Start(MdTag),
    End(MdTagEnd),
    Text(String),
    Code(String),
    SoftBreak,
    HardBreak,
    Rule,
    /// An event that markdownlang gives no meaning (HTML, math, footnotes, task markers).
    Other,
}

/// pulldown-cmark's event.
#[verifier::external_type_specification]
#[verifier::external_body]
pub struct ExEvent<'a>(Event<'a>);

/// pulldown-cmark's start tag.
#[verifier::external_type_specification]
#[verifier::external_body]
pub struct ExTag<'a>(Tag<'a>);

/// pulldown-cmark's end tag.
#[verifier::external_type_specification]
#[verifier::external_body]
pub struct ExTagEnd(TagEnd);

/// pulldown-cmark's heading level.
#[verifier::external_type_specification]
#[verifier::external_body]
pub struct ExHeadingLevel(HeadingLevel);

/// pulldown-cmark's column alignment.
#[verifier::external_type_specification]
#[verifier::external_body]
pub struct ExAlignment(Alignment);

/// What pulldown-cmark reads from a source text, with strikethrough and tables enabled:
/// its events, each with the byte range of the source it comes from.
pub uninterp spec fn markdown_events(source: Seq<char>) -> Seq<(MdEvent, Range<usize>)>;

/// Runs pulldown-cmark's `Parser::new_ext` (with `ENABLE_STRIKETHROUGH` and `ENABLE_TABLES`)
/// through `into_offset_iter` and keeps every event with its range, in order. The events
/// depend on the source text alone; they are named, not described.
#[verifier::external_body]
pub fn read_markdown(source: &str) -> (r: Vec<(MdEvent, Range<usize>)>)
    ensures
        r@ == markdown_events(source@),
{
    let options = Options::ENABLE_STRIKETHROUGH | Options::ENABLE_TABLES;
    CmarkParser::new_ext(source, options).into_offset_iter().map(|(e, r)| (event_of(e), r)).collect()
}

/// Converts a pulldown-cmark event, one variant for one variant.
#[verifier::external_body]
fn event_of(e: Event) -> MdEvent {
    match e {
        Event::Start(t) => MdEvent::Start(tag_of(t)),
        Event::End(t) => MdEvent::End(tag_end_of(t)),
        Event::Text(s) => MdEvent::Text(s.to_string()),
        Event::Code(s) => MdEvent::Code(s.to_string()),
        Event::SoftBreak => MdEvent::SoftBreak,
        Event::HardBreak => MdEvent::HardBreak,
        Event::Rule => MdEvent::Rule,
        _ => MdEvent::Other,
    }
}

/// Converts a pulldown-cmark block-level start tag, one variant for one variant.
#[verifier::external_body]
fn tag_of(t: Tag) -> MdTag {
    match t {
        Tag::Paragraph => MdTag::Paragraph,
        Tag::Heading { level, .. } => MdTag::Heading(heading_level_of(level)),
        Tag::BlockQuote(_) => MdTag::BlockQuote,
        Tag::CodeBlock(CodeBlockKind::Fenced(info)) => MdTag::CodeBlock(Some(info.to_string())),
        Tag::CodeBlock(CodeBlockKind::Indented) => MdTag::CodeBlock(None),
        Tag::List(n) => MdTag::List(n),
        Tag::Item => MdTag::Item,
        Tag::Table(a) => MdTag::Table(a.into_iter().map(alignment_of).collect()),
        other => inline_tag_of(other),
    }
}

/// Converts a pulldown-cmark table-part or span-level start tag, one variant for one variant.
#[verifier::external_body]
fn inline_tag_of(t: Tag) -> MdTag {
    match t {
        Tag::TableHead => MdTag::TableHead,
        Tag::TableRow => MdTag::TableRow,
        Tag::TableCell => MdTag::TableCell,
        Tag::Emphasis => MdTag::Emphasis,
        Tag::Strong => MdTag::Strong,
        Tag::Strikethrough => MdTag::Strikethrough,
        Tag::Link { dest_url, title, .. } => MdTag::Link { dest: dest_url.to_string(), title: title.to_string() },
        Tag::Image { dest_url, title, .. } => MdTag::Image { dest: dest_url.to_string(), title: title.to_string() },
        _ => MdTag::Other,
    }
}

/// Converts a pulldown-cmark end tag, one variant for one variant.
#[verifier::external_body]
fn tag_end_of(t: TagEnd) -> MdTagEnd {
    match t {
        TagEnd::Paragraph => MdTagEnd::Paragraph,
        TagEnd::Heading(_) => MdTagEnd::Heading,
        TagEnd::BlockQuote(_) => MdTagEnd::BlockQuote,
        TagEnd::CodeBlock => MdTagEnd::CodeBlock,
        TagEnd::List(ordered) => MdTagEnd::List(ordered),
        TagEnd::Item => MdTagEnd::Item,
        TagEnd::Table => MdTagEnd::Table,
        other => inline_tag_end_of(other),
    }
}

/// Converts a pulldown-cmark table-part or span-level end tag, one variant for one variant.
#[verifier::external_body]
fn inline_tag_end_of(t: TagEnd) -> MdTagEnd {
    match t {
        TagEnd::TableHead => MdTagEnd::TableHead,
        TagEnd::TableRow => MdTagEnd::TableRow,
        TagEnd::TableCell => MdTagEnd::TableCell,
        TagEnd::Emphasis => MdTagEnd::Emphasis,
        TagEnd::Strong => MdTagEnd::Strong,
        TagEnd::Strikethrough => MdTagEnd::Strikethrough,
        TagEnd::Link => MdTagEnd::Link,
        TagEnd::Image => MdTagEnd::Image,
        _ => MdTagEnd::Other,
    }
}

/// Converts a pulldown-cmark heading level to its number.
#[verifier::external_body]
fn heading_level_of(l: HeadingLevel) -> u8 {
    l as u8
}

/// Converts a pulldown-cmark column alignment, one variant for one variant.
#[verifier::external_body]
fn alignment_of(a: Alignment) -> ColumnAlignment {
    match a {
        Alignment::None => ColumnAlignment::Unspecified,
        Alignment::Left => ColumnAlignment::Left,
        Alignment::Center => ColumnAlignment::Center,
        Alignment::Right => ColumnAlignment::Right,
    }
}

} // verus!
