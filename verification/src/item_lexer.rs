//! Tokens from the Markdown events of an ordered-list item, and instructions from tokens.
use vstd::prelude::*;
use std::ops::Range;
use crate::ast::{Value, TemplateString, TemplateStringPart, Instruction, parse_block_reference, copy_span};
use crate::lexer::{Token, MatchArm, tokenize_text, lexes};
use crate::text::utf8_len_seq;
use crate::markdown::{MdEvent, MdTag, MdTagEnd};
use crate::number::{Number, number_as_usize, as_usize_spec};
use crate::parse_error::{ParseError, ParseContext, error_in, error_from, Severity};
use crate::expression::{
    parse_expr, parse_argument_list, parse_template_parts, tokens_strings_below, simple_chain, chain_tree,
    token_strings_below, arms_strings_below, arm_strings_below, offsets_fit, argument_bounds,
};
use crate::text::{chars_of, string_from};
use crate::structure::{end_index, lemma_end_index_bounds};

verus! {

/// An event with its source range.
pub type SpannedEvent = (MdEvent, Range<usize>);

/// Two tags are the same by content: the same kind, with equal texts and alignments.
pub open spec fn tag_same(a: MdTag, b: MdTag) -> bool {
    match (a, b) {
        (MdTag::CodeBlock(x), MdTag::CodeBlock(y)) => match (x, y) {
            (Some(p), Some(q)) => p@ == q@,
            (None, None) => true,
            _ => false,
        },
        (MdTag::Table(x), MdTag::Table(y)) => x@ == y@,
        (MdTag::Link { dest: d1, title: t1 }, MdTag::Link { dest: d2, title: t2 }) => d1@ == d2@ && t1@ == t2@,
        (MdTag::Image { dest: d1, title: t1 }, MdTag::Image { dest: d2, title: t2 }) => d1@ == d2@ && t1@ == t2@,
        (MdTag::CodeBlock(_), _) | (MdTag::Table(_), _) | (MdTag::Link { .. }, _) | (MdTag::Image { .. }, _) => false,
        _ => a == b,
    }
}

/// Two events are the same by content.
pub open spec fn event_same(a: MdEvent, b: MdEvent) -> bool {
    match (a, b) {
        (MdEvent::Start(x), MdEvent::Start(y)) => tag_same(x, y),
        (MdEvent::Text(x), MdEvent::Text(y)) => x@ == y@,
        (MdEvent::Code(x), MdEvent::Code(y)) => x@ == y@,
        (MdEvent::Start(_), _) | (MdEvent::Text(_), _) | (MdEvent::Code(_), _) => false,
        _ => a == b,
    }
}

/// A copy of a Markdown tag.
fn clone_tag(t: &MdTag) -> (r: MdTag)
    ensures
        tag_same(r, *t),
{
    match t {
        MdTag::Paragraph => MdTag::Paragraph,
        MdTag::Heading(l) => MdTag::Heading(*l),
        MdTag::BlockQuote => MdTag::BlockQuote,
        MdTag::CodeBlock(info) => MdTag::CodeBlock(
            match info {
                Some(s) => Some(s.clone()),
                None => None,
            },
        ),
        MdTag::List(n) => MdTag::List(*n),
        MdTag::Item => MdTag::Item,
        MdTag::Table(a) => {
            let mut c = Vec::new();
            let mut k: usize = 0;
            while k < a.len()
                invariant
                    k <= a.len(),
                    c@ == a@.take(k as int),
                decreases a.len() - k,
            {
                assert(a@.take(k + 1) =~= a@.take(k as int).push(a@[k as int]));
                c.push(a[k]);
                k += 1;
            }
            assert(a@.take(a.len() as int) =~= a@);
            MdTag::Table(c)
        },
        MdTag::TableHead => MdTag::TableHead,
        MdTag::TableRow => MdTag::TableRow,
        MdTag::TableCell => MdTag::TableCell,
        MdTag::Emphasis => MdTag::Emphasis,
        MdTag::Strong => MdTag::Strong,
        MdTag::Strikethrough => MdTag::Strikethrough,
        MdTag::Link { dest, title } => MdTag::Link { dest: dest.clone(), title: title.clone() },
        MdTag::Image { dest, title } => MdTag::Image { dest: dest.clone(), title: title.clone() },
        MdTag::Other => MdTag::Other,
    }
}

/// A copy of an event with its range.
pub fn clone_event(e: &SpannedEvent) -> (r: SpannedEvent)
    ensures
        event_same(r.0, e.0),
        r.1 == e.1,
{
    let ev = match &e.0 {
        MdEvent::Start(t) => MdEvent::Start(clone_tag(t)),
        MdEvent::End(t) => MdEvent::End(*t),
        MdEvent::Text(s) => MdEvent::Text(s.clone()),
        MdEvent::Code(s) => MdEvent::Code(s.clone()),
        MdEvent::SoftBreak => MdEvent::SoftBreak,
        MdEvent::HardBreak => MdEvent::HardBreak,
        MdEvent::Rule => MdEvent::Rule,
        MdEvent::Other => MdEvent::Other,
    };
    (ev, copy_span(&e.1))
}

// ---------------------------------------------------------------------------
// Merging operators that the Markdown reader split across text events
// ---------------------------------------------------------------------------

/// The token that two neighbours merge into: `>` `=`, `<` `=`, `#` `*`, and `#` followed
/// by a number (an argument reference spanning the `#` and the two bytes after it).
pub open spec fn merge_pair(a: Token, b: Token) -> Option<Token> {
    match (a, b) {
        (Token::Gt, Token::Eq) => Some(Token::GtEq),
        (Token::Lt, Token::Eq) => Some(Token::LtEq),
        (Token::Hash(_), Token::Star) => Some(Token::SpreadRef),
        (Token::Hash(o), Token::Number(n)) => Some(
            Token::ArgRef(
                as_usize_spec(n.bits) as usize,
                Range { start: o, end: if o <= usize::MAX - 2 { (o + 2) as usize } else { usize::MAX } },
            ),
        ),
        _ => None,
    }
}

/// Merging from the front: a pair that merges is replaced by its merge, which is then
/// looked at with the token after it.
pub open spec fn merged(s: Seq<Token>) -> Seq<Token>
    decreases s.len(),
{
    if s.len() < 2 {
        s
    } else {
        match merge_pair(s[0], s[1]) {
            Some(t) => merged(seq![t] + s.skip(2)),
            None => seq![s[0]] + merged(s.drop_first()),
        }
    }
}

fn merge_at(a: &Token, b: &Token) -> (r: Option<Token>)
    ensures
        r == merge_pair(*a, *b),
{
    match (a, b) {
        (Token::Gt, Token::Eq) => Some(Token::GtEq),
        (Token::Lt, Token::Eq) => Some(Token::LtEq),
        (Token::Hash(_), Token::Star) => Some(Token::SpreadRef),
        (Token::Hash(o), Token::Number(n)) => {
            let end = if *o <= usize::MAX - 2 { *o + 2 } else { usize::MAX };
            Some(Token::ArgRef(number_as_usize(*n), Range { start: *o, end }))
        },
        _ => None,
    }
}

/// Merges compound operators that were split across text events.
pub fn merge_compound_operators(tokens: &mut Vec<Token>)
    ensures
        final(tokens)@ == merged(old(tokens)@),
{
    let ghost orig = tokens@;
    let mut i: usize = 0;
    assert(tokens@.take(0) + tokens@.skip(0) =~= tokens@);
    while tokens.len() > 0 && i < tokens.len() - 1
        invariant
            i <= tokens.len(),
            merged(orig) == tokens@.take(i as int) + merged(tokens@.skip(i as int)),
        decreases tokens.len() - i,
    {
        let m = merge_at(&tokens[i], &tokens[i + 1]);
        let ghost before = tokens@;
        match m {
            Some(t) => {
                tokens.set(i, t);
                tokens.remove(i + 1);
                assert(before.skip(i as int)[0] == before[i as int]);
                assert(before.skip(i as int)[1] == before[i + 1]);
                assert(before.skip(i as int).skip(2) =~= before.skip(i + 2));
                assert(tokens@.skip(i as int) =~= seq![t] + before.skip(i + 2));
                assert(tokens@.take(i as int) =~= before.take(i as int));
            },
            None => {
                assert(before.skip(i as int).drop_first() =~= before.skip(i + 1));
                assert(before.take(i + 1) =~= before.take(i as int) + seq![before[i as int]]);
                i += 1;
            },
        }
    }
    assert(tokens@.skip(i as int).len() < 2);
    assert(tokens@.take(i as int) + tokens@.skip(i as int) =~= tokens@);
}

// ---------------------------------------------------------------------------
// Events to tokens
// ---------------------------------------------------------------------------

/// An event that opens no element.
pub open spec fn flat_event(e: MdEvent) -> bool {
    !(e is Start)
}

/// Every event opens no element.
pub open spec fn all_flat(events: Seq<SpannedEvent>) -> bool {
    forall|k: int| 0 <= k < events.len() ==> flat_event(#[trigger] events[k].0)
}

/// The tokens that the text `cs`, which starts at byte `start` of the source, is read
/// into: spans count from `start` where the offsets fit in a `usize`, else from 0.
pub open spec fn text_reads(cs: Seq<char>, start: int, toks: Seq<Token>) -> bool {
    if start + utf8_len_seq(cs) <= usize::MAX {
        lexes(cs, 0, start, toks)
    } else if utf8_len_seq(cs) <= usize::MAX {
        lexes(cs, 0, 0, toks)
    } else {
        toks.len() == 0
    }
}

/// The first `n` events, none of which opens an element, are read into `toks` (before
/// compound operators are merged): text by the text tokenizer, inline code as a string,
/// and the other events give nothing.
pub open spec fn flat_reads(events: Seq<SpannedEvent>, n: int, toks: Seq<Token>) -> bool
    decreases n,
{
    if n <= 0 || n > events.len() {
        toks.len() == 0
    } else {
        match events[n - 1].0 {
            MdEvent::Text(s) => exists|k: int|
                0 <= k <= toks.len() && flat_reads(events, n - 1, #[trigger] toks.take(k)) && text_reads(
                    s@,
                    events[n - 1].1.start as int,
                    toks.skip(k),
                ),
            MdEvent::Code(s) => toks.len() > 0 && (toks.last() matches Token::StringLit(x) && x@ == s@)
                && flat_reads(events, n - 1, toks.drop_last()),
            _ => flat_reads(events, n - 1, toks),
        }
    }
}

/// Reading the events from `i` on into tokens cannot fail: each bold or struck span is a
/// template with no interpolation and no invocation, the text of each link, image and
/// emphasis opens no element, and each item of a nested list opens no element.
pub open spec fn tokenizes_ok(events: Seq<SpannedEvent>, i: int) -> bool
    decreases events.len() - i,
{
    if i < 0 || i >= events.len() {
        true
    } else {
        match events[i].0 {
            MdEvent::Start(MdTag::Strong) => match plain_template(events, i + 1, MdTagEnd::Strong) {
                Some((e, _)) => i < e <= events.len() && tokenizes_ok(events, e),
                None => false,
            },
            MdEvent::Start(MdTag::Strikethrough) => match plain_template(events, i + 1, MdTagEnd::Strikethrough) {
                Some((e, _)) => i < e <= events.len() && tokenizes_ok(events, e),
                None => false,
            },
            MdEvent::Start(MdTag::Link { .. }) => closed_flat(events, i, MdTagEnd::Link),
            MdEvent::Start(MdTag::Image { .. }) => closed_flat(events, i, MdTagEnd::Image),
            MdEvent::Start(MdTag::Emphasis) => closed_flat(events, i, MdTagEnd::Emphasis),
            MdEvent::Start(MdTag::List(None)) => {
                let scan = arms_scan(events, i + 1);
                &&& forall|m: int|
                    0 <= m < scan.0.len() ==> all_flat(
                        events.subrange(#[trigger] scan.0[m] + 1, end_index(events, scan.0[m] + 1, MdTagEnd::Item)),
                    )
                &&& i < scan.1 <= events.len()
                &&& tokenizes_ok(events, scan.1)
            },
            _ => tokenizes_ok(events, i + 1),
        }
    }
}

/// The element opened at `i` holds, up to its end tag `end`, events that open no
/// element, and reading on after it cannot fail.
pub open spec fn closed_flat(events: Seq<SpannedEvent>, i: int, end: MdTagEnd) -> bool
    decreases events.len() - i, 0nat,
{
    let j = until_close(events, i + 1, 1, end);
    let next = if j < events.len() {
        j + 1
    } else {
        j
    };
    0 <= i && i + 1 <= j && all_flat(events.subrange(i + 1, j)) && i < next <= events.len() && tokenizes_ok(events, next)
}

/// Reads the events of an item into tokens: text is read by the text tokenizer, inline
/// code is a string, bold and strikethrough are template strings, links and images are
/// invocations with their inner tokens, a nested unordered list gives match arms, and
/// emphasis is transparent. Compound operators split across events are merged at the end.
pub fn tokenize_events(events: &Vec<SpannedEvent>, file_id: usize, span: &Range<usize>) -> (r: Result<Vec<Token>, ParseError>)
    ensures
        error_from(r, file_id),
        all_flat(events@) ==> (r matches Ok(t) && exists|toks: Seq<Token>|
            flat_reads(events@, events@.len() as int, toks) && t@ == merged(toks)),
        tokenizes_ok(events@, 0) ==> r is Ok,
    decreases events@.len(), 0nat,
{
    let mut tokens: Vec<Token> = Vec::new();
    let mut i: usize = 0;
    let len = events.len();
    while i < len
        invariant
            i <= len == events@.len(),
            all_flat(events@) ==> flat_reads(events@, i as int, tokens@),
            tokenizes_ok(events@, 0) ==> tokenizes_ok(events@, i as int),
        decreases len - i,
    {
        let start = events[i].1.start;
        let ghost before = tokens@;
        let ghost at = i as int;
        match &events[i].0 {
            MdEvent::Text(s) => {
                let cs = chars_of(s.as_str());
                if offsets_fit(&cs, start) {
                    tokenize_text(s.as_str(), &mut tokens, start);
                } else if offsets_fit(&cs, 0) {
                    tokenize_text(s.as_str(), &mut tokens, 0);
                }
                proof {
                    if all_flat(events@) {
                        let k = before.len() as int;
                        assert(tokens@.take(k) =~= before);
                        if !(start + utf8_len_seq(s@) <= usize::MAX) && !(utf8_len_seq(s@) <= usize::MAX) {
                            assert(tokens@ == before);
                            assert(tokens@.skip(k).len() == 0);
                        }
                        assert(text_reads(s@, events@[i as int].1.start as int, tokens@.skip(k)));
                        assert(flat_reads(events@, i as int, tokens@.take(k)));
                        assert(flat_reads(events@, i + 1, tokens@));
                    }
                }
                i += 1;
            },
            MdEvent::Code(s) => {
                tokens.push(Token::StringLit(s.clone()));
                proof {
                    assert(tokens@.drop_last() =~= before);
                }
                i += 1;
            },
            MdEvent::Start(MdTag::Strong) => {
                i += 1;
                let ts = collect_template_string(events, &mut i, MdTagEnd::Strong, file_id, span)?;
                tokens.push(Token::Bold(ts));
            },
            MdEvent::Start(MdTag::Strikethrough) => {
                i += 1;
                let ts = collect_template_string(events, &mut i, MdTagEnd::Strikethrough, file_id, span)?;
                tokens.push(Token::Strike(ts));
            },
            MdEvent::Start(MdTag::Link { dest, .. }) => {
                let dest = dest.clone();
                i += 1;
                let inner_r = collect_until_end(events, &mut i, MdTagEnd::Link, file_id, span);
                proof {
                    if tokenizes_ok(events@, 0) {
                        assert(tokenizes_ok(events@, at));
                        assert(closed_flat(events@, at, MdTagEnd::Link));
                        let j = until_close(events@, at + 1, 1, MdTagEnd::Link);
                        let inner_ev = choose|inner_ev: Seq<SpannedEvent>|
                            inner_ev.len() == j - (at + 1) && events_copied(inner_ev, events@, at + 1)
                                && #[trigger] tokens_of_events(inner_ev, inner_r);
                        lemma_copied_flat(inner_ev, events@, at + 1, j);
                    }
                }
                let inner = match inner_r {
                    Ok(t) => t,
                    Err(e) => {
                        return Err(e);
                    },
                };
                tokens.push(Token::Link { text_tokens: inner, dest });
            },
            MdEvent::Start(MdTag::Image { dest, .. }) => {
                let dest = dest.clone();
                i += 1;
                let inner_r = collect_until_end(events, &mut i, MdTagEnd::Image, file_id, span);
                proof {
                    if tokenizes_ok(events@, 0) {
                        assert(tokenizes_ok(events@, at));
                        assert(closed_flat(events@, at, MdTagEnd::Image));
                        let j = until_close(events@, at + 1, 1, MdTagEnd::Image);
                        let inner_ev = choose|inner_ev: Seq<SpannedEvent>|
                            inner_ev.len() == j - (at + 1) && events_copied(inner_ev, events@, at + 1)
                                && #[trigger] tokens_of_events(inner_ev, inner_r);
                        lemma_copied_flat(inner_ev, events@, at + 1, j);
                    }
                }
                let inner = match inner_r {
                    Ok(t) => t,
                    Err(e) => {
                        return Err(e);
                    },
                };
                tokens.push(Token::Image { text_tokens: inner, dest });
            },
            MdEvent::Start(MdTag::List(None)) => {
                i += 1;
                let arms = collect_match_arms(events, &mut i, file_id)?;
                tokens.push(Token::MatchArms(arms));
            },
            MdEvent::Start(MdTag::Emphasis) => {
                i += 1;
                let inner_r = collect_until_end(events, &mut i, MdTagEnd::Emphasis, file_id, span);
                proof {
                    if tokenizes_ok(events@, 0) {
                        assert(tokenizes_ok(events@, at));
                        assert(closed_flat(events@, at, MdTagEnd::Emphasis));
                        let j = until_close(events@, at + 1, 1, MdTagEnd::Emphasis);
                        let inner_ev = choose|inner_ev: Seq<SpannedEvent>|
                            inner_ev.len() == j - (at + 1) && events_copied(inner_ev, events@, at + 1)
                                && #[trigger] tokens_of_events(inner_ev, inner_r);
                        lemma_copied_flat(inner_ev, events@, at + 1, j);
                    }
                }
                let mut inner = match inner_r {
                    Ok(t) => t,
                    Err(e) => {
                        return Err(e);
                    },
                };
                tokens.append(&mut inner);
            },
            _ => {
                i += 1;
            },
        }
    }
    let ghost unmerged = tokens@;
    merge_compound_operators(&mut tokens);
    assert(all_flat(events@) ==> flat_reads(events@, events@.len() as int, unmerged));
    Ok(tokens)
}

/// The tokens `t` are what events that open no element read into, compound operators
/// merged (nothing is said of other events).
pub open spec fn tokens_read(events: Seq<SpannedEvent>, t: Seq<Token>) -> bool {
    all_flat(events) ==> exists|toks: Seq<Token>| flat_reads(events, events.len() as int, toks) && t == merged(toks)
}

/// What reading the events into tokens gives, as far as it is determined: events that
/// open no element give `Ok` of their tokens, compound operators merged.
pub open spec fn tokens_of_events(events: Seq<SpannedEvent>, r: Result<Vec<Token>, ParseError>) -> bool {
    &&& all_flat(events) ==> r is Ok
    &&& r matches Ok(t) ==> tokens_read(events, t@)
}

/// `copy` is a copy of the events of `events` from `from` on, one for one.
pub open spec fn events_copied(copy: Seq<SpannedEvent>, events: Seq<SpannedEvent>, from: int) -> bool {
    &&& 0 <= from
    &&& from + copy.len() <= events.len()
    &&& forall|k: int|
        0 <= k < copy.len() ==> event_same((#[trigger] copy[k]).0, events[from + k].0) && copy[k].1 == events[from
            + k].1
}

/// The index of the end tag `end` that closes, at depth `depth`, the element being read
/// from `i` on: each start tag opens one level and each end tag closes one; the length
/// where there is none.
pub open spec fn until_close(events: Seq<SpannedEvent>, i: int, depth: int, end: MdTagEnd) -> int
    decreases events.len() - i,
{
    if i < 0 || i >= events.len() {
        events.len() as int
    } else {
        match events[i].0 {
            MdEvent::End(t) => if depth == 1 && t == end {
                i
            } else {
                until_close(
                    events,
                    i + 1,
                    if depth > 0 {
                        depth - 1
                    } else {
                        depth
                    },
                    end,
                )
            },
            MdEvent::Start(_) => until_close(
                events,
                i + 1,
                if depth < u64::MAX {
                    depth + 1
                } else {
                    depth
                },
                end,
            ),
            _ => until_close(events, i + 1, depth, end),
        }
    }
}

proof fn lemma_until_close_bounds(events: Seq<SpannedEvent>, i: int, depth: int, end: MdTagEnd)
    requires
        0 <= i,
    ensures
        i <= until_close(events, i, depth, end) <= events.len() || (i > events.len() && until_close(
            events,
            i,
            depth,
            end,
        ) == events.len()),
    decreases events.len() - i,
{
    if i < events.len() {
        match events[i].0 {
            MdEvent::End(t) => if !(depth == 1 && t == end) {
                lemma_until_close_bounds(
                    events,
                    i + 1,
                    if depth > 0 {
                        depth - 1
                    } else {
                        depth
                    },
                    end,
                );
            },
            MdEvent::Start(_) => lemma_until_close_bounds(
                events,
                i + 1,
                if depth < u64::MAX {
                    depth + 1
                } else {
                    depth
                },
                end,
            ),
            _ => lemma_until_close_bounds(events, i + 1, depth, end),
        }
    }
}

/// Collects the events up to the end tag `end` that closes the element opened just before
/// `*i` (nested elements counted), moves `*i` past it, and reads them into tokens.
fn collect_until_end(
    events: &Vec<SpannedEvent>,
    i: &mut usize,
    end: MdTagEnd,
    file_id: usize,
    span: &Range<usize>,
) -> (r: Result<Vec<Token>, ParseError>)
    requires
        *old(i) <= events@.len(),
    ensures
        error_from(r, file_id),
        *old(i) <= *final(i) <= events@.len(),
        ({
            let j = until_close(events@, *old(i) as int, 1, end);
            &&& *final(i) == if j < events@.len() {
                j + 1
            } else {
                j
            }
            &&& exists|inner: Seq<SpannedEvent>|
                inner.len() == j - *old(i) && events_copied(inner, events@, *old(i) as int)
                    && #[trigger] tokens_of_events(inner, r)
        }),
    decreases events@.len() - *old(i), 1nat,
{
    let ghost i0 = *i;
    let mut inner: Vec<SpannedEvent> = Vec::new();
    let mut depth: u64 = 1;
    proof {
        lemma_until_close_bounds(events@, i0 as int, 1, end);
    }
    while *i < events.len()
        invariant_except_break
            inner@.len() == *i - i0,
            until_close(events@, *i as int, depth as int, end) == until_close(events@, i0 as int, 1, end),
        invariant
            i0 == *old(i),
            i0 <= *i <= events@.len(),
            inner@.len() <= *i - i0,
            events_copied(inner@, events@, i0 as int),
        ensures
            ({
                let j = until_close(events@, i0 as int, 1, end);
                &&& inner@.len() == j - i0
                &&& *i == if j < events@.len() {
                    j + 1
                } else {
                    j
                }
            }),
        decreases events@.len() - *i,
    {
        let e = &events[*i];
        match &e.0 {
            MdEvent::End(t) => {
                if depth == 1 && *t == end {
                    *i += 1;
                    break;
                }
                if depth > 0 {
                    depth -= 1;
                }
            },
            MdEvent::Start(_) => {
                if depth < u64::MAX {
                    depth += 1;
                }
            },
            _ => {},
        }
        let c = clone_event(e);
        inner.push(c);
        *i += 1;
    }
    let r = tokenize_events(&inner, file_id, span);
    assert(tokens_of_events(inner@, r));
    r
}

/// Whether an event opens a link or an image.
fn starts_invocation(e: &MdEvent) -> (r: bool)
    ensures
        r == (*e matches MdEvent::Start(MdTag::Link { .. }) || *e matches MdEvent::Start(MdTag::Image { .. })),
{
    match e {
        MdEvent::Start(MdTag::Link { .. }) | MdEvent::Start(MdTag::Image { .. }) => true,
        _ => false,
    }
}

/// Where reading a template string from `i` on stops: after the end tag `end`, links and
/// images taken up to their own end tags and emphasis read as a template of its own; the
/// end of the events otherwise.
pub open spec fn template_end(events: Seq<SpannedEvent>, i: int, end: MdTagEnd) -> int
    decreases events.len() - i,
{
    if i < 0 || i >= events.len() {
        events.len() as int
    } else {
        match events[i].0 {
            MdEvent::End(t) => if t == end {
                i + 1
            } else {
                template_end(events, i + 1, end)
            },
            MdEvent::Start(MdTag::Link { .. }) => {
                let j = until_close(events, i + 1, 1, MdTagEnd::Link);
                let next = if j < events.len() {
                    j + 1
                } else {
                    j
                };
                if i < next <= events.len() {
                    template_end(events, next, end)
                } else {
                    events.len() as int
                }
            },
            MdEvent::Start(MdTag::Image { .. }) => {
                let j = until_close(events, i + 1, 1, MdTagEnd::Image);
                let next = if j < events.len() {
                    j + 1
                } else {
                    j
                };
                if i < next <= events.len() {
                    template_end(events, next, end)
                } else {
                    events.len() as int
                }
            },
            MdEvent::Start(MdTag::Emphasis) => {
                let k = template_end(events, i + 1, MdTagEnd::Emphasis);
                if i < k <= events.len() {
                    template_end(events, k, end)
                } else {
                    events.len() as int
                }
            },
            _ => template_end(events, i + 1, end),
        }
    }
}

/// The parts of a template, with one empty literal where there are none.
pub open spec fn some_parts(ps: Seq<Seq<char>>) -> Seq<Seq<char>> {
    if ps.len() == 0 {
        seq![seq![]]
    } else {
        ps
    }
}

/// Reading a template string from `i` on, up to the end tag `end`, where it holds no
/// interpolation and no invocation: where it stops and the texts of its literal parts
/// (a text with no `{` as it is, inline code as its code, a soft break as a space, a
/// hard break as a newline, emphasis as its own template's parts). `None` where a text
/// holds `{` or a link or an image comes.
pub open spec fn plain_template(events: Seq<SpannedEvent>, i: int, end: MdTagEnd) -> Option<(int, Seq<Seq<char>>)>
    decreases events.len() - i,
{
    if i < 0 || i >= events.len() {
        Some((events.len() as int, seq![]))
    } else {
        let with = |first: Seq<Seq<char>>, rest: Option<(int, Seq<Seq<char>>)>| match rest {
            Some((e, ps)) => Some((e, first + ps)),
            None => None,
        };
        match events[i].0 {
            MdEvent::End(t) => if t == end {
                Some((i + 1, seq![]))
            } else {
                plain_template(events, i + 1, end)
            },
            MdEvent::Text(x) => if x@.contains('{') {
                None
            } else {
                with(
                    if x@.len() > 0 {
                        seq![x@]
                    } else {
                        seq![]
                    },
                    plain_template(events, i + 1, end),
                )
            },
            MdEvent::Code(x) => with(seq![x@], plain_template(events, i + 1, end)),
            MdEvent::SoftBreak => with(seq![seq![' ']], plain_template(events, i + 1, end)),
            MdEvent::HardBreak => with(seq![seq!['\n']], plain_template(events, i + 1, end)),
            MdEvent::Start(MdTag::Link { .. }) => None,
            MdEvent::Start(MdTag::Image { .. }) => None,
            MdEvent::Start(MdTag::Emphasis) => match plain_template(events, i + 1, MdTagEnd::Emphasis) {
                Some((k, inner)) => if i < k <= events.len() {
                    with(some_parts(inner), plain_template(events, k, end))
                } else {
                    None
                },
                None => None,
            },
            _ => plain_template(events, i + 1, end),
        }
    }
}

/// The texts of the parts that a plain template read gives (none where it gives none).
pub open spec fn tpl_parts(o: Option<(int, Seq<Seq<char>>)>) -> Seq<Seq<char>> {
    match o {
        Some((_, ps)) => ps,
        None => seq![],
    }
}

/// The parts are literals with the texts `ps`, in order.
pub open spec fn literal_parts(parts: Seq<TemplateStringPart>, ps: Seq<Seq<char>>) -> bool {
    &&& parts.len() == ps.len()
    &&& forall|k: int| 0 <= k < parts.len() ==> (#[trigger] parts[k] matches TemplateStringPart::Literal(x) && x@ == ps[k])
}

proof fn lemma_literal_parts_append(a: Seq<TemplateStringPart>, pa: Seq<Seq<char>>, b: Seq<TemplateStringPart>, pb: Seq<Seq<char>>)
    requires
        literal_parts(a, pa),
        literal_parts(b, pb),
    ensures
        literal_parts(a + b, pa + pb),
{
    assert forall|k: int| 0 <= k < (a + b).len() implies (#[trigger] (a + b)[k] matches TemplateStringPart::Literal(x) && x@ == (pa + pb)[k]) by {
        if k < a.len() {
            assert((a + b)[k] == a[k]);
            assert((pa + pb)[k] == pa[k]);
        } else {
            assert((a + b)[k] == b[k - a.len()]);
            assert((pa + pb)[k] == pb[k - a.len()]);
        }
    }
}

/// Collects the contents of a bold or strikethrough element, up to the end tag `end`, as
/// a template string: text with `{expr}` interpolations, inline code as literal text,
/// breaks as a space or a newline, links and images as invocations (braces around one,
/// `{[args](#block)}`, are dropped), emphasis transparent.
fn collect_template_string(
    events: &Vec<SpannedEvent>,
    i: &mut usize,
    end: MdTagEnd,
    file_id: usize,
    span: &Range<usize>,
) -> (r: Result<TemplateString, ParseError>)
    requires
        *old(i) <= events@.len(),
    ensures
        error_from(r, file_id),
        *old(i) <= *final(i) <= events@.len(),
        r matches Ok(t) ==> t.parts@.len() > 0,
        r is Ok ==> *final(i) == template_end(events@, *old(i) as int, end),
        plain_template(events@, *old(i) as int, end) matches Some((e, ps)) ==> (r matches Ok(t) && literal_parts(
            t.parts@,
            some_parts(ps),
        ) && *final(i) == e),
    decreases events@.len() - *old(i), 2nat,
{
    let ghost i0 = *i as int;
    let ghost ev = events@;
    let cx = ParseContext { span: copy_span(span), file_id };
    let mut parts: Vec<TemplateStringPart> = Vec::new();
    let mut open_brace = false;
    let ghost mut seen: Seq<Seq<char>> = Seq::empty();
    let ghost plain = plain_template(ev, i0, end) is Some;
    while *i < events.len()
        invariant_except_break
            template_end(ev, *i as int, end) == template_end(ev, i0, end),
            plain ==> (plain_template(ev, *i as int, end) matches Some((e, ps)) && plain_template(ev, i0, end)
                == Some((e, seen + ps))),
        invariant
            ev == events@,
            cx.file_id == file_id,
            i0 == *old(i),
            i0 <= *i <= events@.len(),
            plain == (plain_template(ev, i0, end) is Some),
            plain ==> !open_brace && literal_parts(parts@, seen),
        ensures
            *i == template_end(ev, i0, end),
            plain ==> plain_template(ev, i0, end) == Some((*i as int, seen)),
        decreases events@.len() - *i,
    {
        let ghost at = *i as int;
        let ghost parts_before = parts@;
        let ghost seen_before = seen;
        match &events[*i].0 {
            MdEvent::End(t) => {
                *i += 1;
                if *t == end {
                    proof {
                        assert(seen + Seq::<Seq<char>>::empty() =~= seen);
                    }
                    break;
                }
            },
            MdEvent::Text(s) => {
                let cs = chars_of(s.as_str());
                let mut from: usize = 0;
                let mut to: usize = cs.len();
                if open_brace && to > 0 && cs[0] == '}' {
                    from = 1;
                    open_brace = false;
                }
                if to > from && cs[to - 1] == '{' && *i + 1 < events.len() && starts_invocation(&events[*i + 1].0) {
                    to = to - 1;
                    open_brace = true;
                    proof {
                        if plain {
                            assert(s@[to as int] == '{');
                            assert(s@.contains('{'));
                        }
                    }
                }
                if to > from {
                    let text = string_from(&cs, from, to);
                    proof {
                        if plain {
                            assert(text@ =~= s@);
                        }
                    }
                    let mut text_parts = match parse_template_parts(text.as_str(), &cx) {
                        Ok(v) => v,
                        Err(e) => {
                            return Err(e);
                        },
                    };
                    parts.append(&mut text_parts);
                }
                proof {
                    if plain {
                        let x = if s@.len() > 0 {
                            seq![s@]
                        } else {
                            Seq::<Seq<char>>::empty()
                        };
                        if s@.len() > 0 {
                            assert(literal_parts(parts@.skip(parts_before.len() as int), x));
                            assert(parts@ =~= parts_before + parts@.skip(parts_before.len() as int));
                        } else {
                            assert(parts@ =~= parts_before + Seq::<TemplateStringPart>::empty());
                        }
                        lemma_literal_parts_append(parts_before, seen_before, parts@.skip(parts_before.len() as int), x);
                        assert(parts@ =~= parts_before + parts@.skip(parts_before.len() as int));
                        seen = seen_before + x;
                        assert(seen_before + (x + tpl_parts(plain_template(ev, at + 1, end))) =~= seen + tpl_parts(plain_template(ev, at + 1, end)));
                    }
                }
                *i += 1;
            },
            MdEvent::Code(s) => {
                parts.push(TemplateStringPart::Literal(s.clone()));
                proof {
                    if plain {
                        let x = seq![s@];
                        lemma_literal_parts_append(parts_before, seen_before, seq![parts@.last()], x);
                        assert(parts@ =~= parts_before + seq![parts@.last()]);
                        seen = seen_before + x;
                        assert(seen_before + (x + tpl_parts(plain_template(ev, at + 1, end))) =~= seen + tpl_parts(plain_template(ev, at + 1, end)));
                    }
                }
                *i += 1;
            },
            MdEvent::SoftBreak => {
                let lit = " ".to_owned();
                proof {
                    reveal_strlit(" ");
                }
                parts.push(TemplateStringPart::Literal(lit));
                proof {
                    if plain {
                        let x = seq![seq![' ']];
                        assert(lit@ =~= seq![' ']);
                        lemma_literal_parts_append(parts_before, seen_before, seq![parts@.last()], x);
                        assert(parts@ =~= parts_before + seq![parts@.last()]);
                        seen = seen_before + x;
                        assert(seen_before + (x + tpl_parts(plain_template(ev, at + 1, end))) =~= seen + tpl_parts(plain_template(ev, at + 1, end)));
                    }
                }
                *i += 1;
            },
            MdEvent::HardBreak => {
                let lit = "\n".to_owned();
                proof {
                    reveal_strlit("\n");
                }
                parts.push(TemplateStringPart::Literal(lit));
                proof {
                    if plain {
                        let x = seq![seq!['\n']];
                        assert(lit@ =~= seq!['\n']);
                        lemma_literal_parts_append(parts_before, seen_before, seq![parts@.last()], x);
                        assert(parts@ =~= parts_before + seq![parts@.last()]);
                        seen = seen_before + x;
                        assert(seen_before + (x + tpl_parts(plain_template(ev, at + 1, end))) =~= seen + tpl_parts(plain_template(ev, at + 1, end)));
                    }
                }
                *i += 1;
            },
            MdEvent::Start(MdTag::Link { dest, .. }) => {
                let dest = dest.clone();
                *i += 1;
                proof {
                    lemma_until_close_bounds(ev, at + 1, 1, MdTagEnd::Link);
                }
                let inner = collect_until_end(events, i, MdTagEnd::Link, file_id, span)?;
                let block_ref = parse_block_reference(dest.as_str());
                let args = match parse_inner_arguments(&inner, &cx) {
                    Ok(v) => v,
                    Err(e) => {
                        return Err(e);
                    },
                };
                parts.push(TemplateStringPart::Expression(Value::BlockInvocation(args, block_ref)));
            },
            MdEvent::Start(MdTag::Image { dest, .. }) => {
                let dest = dest.clone();
                *i += 1;
                proof {
                    lemma_until_close_bounds(ev, at + 1, 1, MdTagEnd::Image);
                }
                let inner = collect_until_end(events, i, MdTagEnd::Image, file_id, span)?;
                let block_ref = parse_block_reference(dest.as_str());
                let args = match parse_inner_arguments(&inner, &cx) {
                    Ok(v) => v,
                    Err(e) => {
                        return Err(e);
                    },
                };
                parts.push(
                    TemplateStringPart::Expression(Value::EvaluatedBlockInvocation(args, block_ref)),
                );
            },
            MdEvent::Start(MdTag::Emphasis) => {
                *i += 1;
                let mut inner = collect_template_string(events, i, MdTagEnd::Emphasis, file_id, span)?;
                let ghost inner_parts = inner.parts@;
                parts.append(&mut inner.parts);
                proof {
                    if plain {
                        let x = some_parts(tpl_parts(plain_template(ev, at + 1, MdTagEnd::Emphasis)));
                        assert(parts@ =~= parts_before + inner_parts);
                        lemma_literal_parts_append(parts_before, seen_before, inner_parts, x);
                        seen = seen_before + x;
                        assert(seen_before + (x + tpl_parts(plain_template(ev, *i as int, end))) =~= seen + tpl_parts(plain_template(ev, *i as int, end)));
                    }
                }
            },
            _ => {
                *i += 1;
            },
        }
    }
    if parts.len() == 0 {
        parts.push(TemplateStringPart::Literal(String::new()));
        proof {
            if plain {
                assert(seen.len() == 0);
                assert(some_parts(seen) =~= seq![Seq::<char>::empty()]);
            }
        }
    }
    Ok(TemplateString { parts })
}

/// The largest length of a string literal in the tokens, plus one.
fn strings_bound(tokens: &Vec<Token>) -> (b: Ghost<nat>)
    ensures
        tokens_strings_below(tokens@, b@),
{
    Ghost(lemma_strings_bound(tokens@))
}

/// Some bound on the string literals of a run of tokens.
proof fn lemma_strings_bound(s: Seq<Token>) -> (b: nat)
    ensures
        tokens_strings_below(s, b),
    decreases s, 0nat,
{
    if s.len() == 0 {
        0
    } else {
        let b1 = lemma_strings_bound(s.drop_last());
        let b2 = lemma_token_bound(s.last());
        let b = if b1 < b2 { b2 } else { b1 };
        lemma_below_mono_tokens(s.drop_last(), b1, b);
        lemma_below_mono_token(s.last(), b2, b);
        assert forall|k: int| 0 <= k < s.len() implies token_strings_below(#[trigger] s[k], b) by {
            if k < s.len() - 1 {
                assert(s[k] == s.drop_last()[k]);
            }
        }
        b
    }
}

proof fn lemma_token_bound(t: Token) -> (b: nat)
    ensures
        token_strings_below(t, b),
    decreases t, 1nat,
{
    match t {
        Token::StringLit(s) => s@.len() + 1,
        Token::Link { text_tokens, .. } => lemma_strings_bound(text_tokens@),
        Token::Image { text_tokens, .. } => lemma_strings_bound(text_tokens@),
        Token::MatchArms(arms) => lemma_arms_bound(arms@),
        _ => 0,
    }
}

proof fn lemma_arms_bound(s: Seq<MatchArm>) -> (b: nat)
    ensures
        arms_strings_below(s, b),
    decreases s, 0nat,
{
    if s.len() == 0 {
        0
    } else {
        let b1 = lemma_arms_bound(s.drop_last());
        let a = s.last();
        let b2 = lemma_strings_bound(a.pattern.0@);
        let b3 = lemma_strings_bound(a.result.0@);
        let b = b1 + b2 + b3;
        lemma_below_mono_arms(s.drop_last(), b1, b);
        lemma_below_mono_tokens(a.pattern.0@, b2, b);
        lemma_below_mono_tokens(a.result.0@, b3, b);
        assert forall|k: int| 0 <= k < s.len() implies arm_strings_below(#[trigger] s[k], b) by {
            if k < s.len() - 1 {
                assert(s[k] == s.drop_last()[k]);
            }
        }
        b
    }
}

proof fn lemma_below_mono_token(t: Token, b: nat, c: nat)
    requires
        token_strings_below(t, b),
        b <= c,
    ensures
        token_strings_below(t, c),
    decreases t, 1nat,
{
    match t {
        Token::Link { text_tokens, .. } => lemma_below_mono_tokens(text_tokens@, b, c),
        Token::Image { text_tokens, .. } => lemma_below_mono_tokens(text_tokens@, b, c),
        Token::MatchArms(arms) => lemma_below_mono_arms(arms@, b, c),
        _ => {},
    }
}

proof fn lemma_below_mono_tokens(s: Seq<Token>, b: nat, c: nat)
    requires
        tokens_strings_below(s, b),
        b <= c,
    ensures
        tokens_strings_below(s, c),
    decreases s, 0nat,
{
    assert forall|k: int| 0 <= k < s.len() implies token_strings_below(#[trigger] s[k], c) by {
        lemma_below_mono_token(s[k], b, c);
    }
}

proof fn lemma_below_mono_arms(s: Seq<MatchArm>, b: nat, c: nat)
    requires
        arms_strings_below(s, b),
        b <= c,
    ensures
        arms_strings_below(s, c),
    decreases s, 0nat,
{
    assert forall|k: int| 0 <= k < s.len() implies arm_strings_below(#[trigger] s[k], c) by {
        lemma_below_mono_tokens(s[k].pattern.0@, b, c);
        lemma_below_mono_tokens(s[k].result.0@, b, c);
    }
}

/// Parses the tokens of a link or image text as its arguments.
fn parse_inner_arguments(tokens: &Vec<Token>, cx: &ParseContext) -> (r: Result<Vec<Value>, ParseError>)
    ensures
        error_from(r, cx.file_id),
        tokens@.len() == 0 ==> (r matches Ok(v) && v@.len() == 0),
        r matches Ok(v) ==> v@.len() == argument_bounds(tokens@).len(),
        (forall|k: int|
            0 <= k < argument_bounds(tokens@).len() ==> simple_chain(
                tokens@,
                #[trigger] argument_bounds(tokens@)[k].0,
                argument_bounds(tokens@)[k].1,
            )) ==> (r matches Ok(v) && forall|k: int|
            0 <= k < v@.len() ==> #[trigger] v@[k] == chain_tree(
                tokens@,
                argument_bounds(tokens@)[k].0,
                argument_bounds(tokens@)[k].1,
            )),
{
    let b = strings_bound(tokens);
    parse_argument_list(tokens, cx, b)
}

/// Where the items of an unordered list of match arms, read from `i` on, start, and
/// where the list ends: after its end tag, each item taken up to its own end tag, or at
/// the end of the events.
pub open spec fn arms_scan(events: Seq<SpannedEvent>, i: int) -> (Seq<int>, int)
    decreases events.len() - i,
{
    if i < 0 || i >= events.len() {
        (seq![], events.len() as int)
    } else {
        match events[i].0 {
            MdEvent::End(MdTagEnd::List(false)) => (seq![], i + 1),
            MdEvent::Start(MdTag::Item) => {
                let next = item_end(events, i + 1);
                if i < next <= events.len() {
                    let rest = arms_scan(events, next);
                    (seq![i].add(rest.0), rest.1)
                } else {
                    (seq![i], events.len() as int)
                }
            },
            _ => arms_scan(events, i + 1),
        }
    }
}

/// Collects the arms of a match from an unordered list, up to its end.
fn collect_match_arms(events: &Vec<SpannedEvent>, i: &mut usize, file_id: usize) -> (r: Result<Vec<MatchArm>, ParseError>)
    requires
        *old(i) <= events@.len(),
    ensures
        error_from(r, file_id),
        *old(i) <= *final(i) <= events@.len(),
        ({
            let starts = arms_scan(events@, *old(i) as int).0;
            &&& (forall|m: int|
                0 <= m < starts.len() ==> all_flat(
                    events@.subrange(#[trigger] starts[m] + 1, end_index(events@, starts[m] + 1, MdTagEnd::Item)),
                )) ==> r is Ok
            &&& r matches Ok(arms) ==> {
                &&& *final(i) == arms_scan(events@, *old(i) as int).1
                &&& arms@.len() == starts.len()
                &&& forall|m: int| 0 <= m < arms@.len() ==> arm_read(events@, starts[m] + 1, #[trigger] arms@[m])
            }
        }),
    decreases events@.len() - *old(i), 3nat,
{
    let ghost i0 = *i as int;
    let ghost ev = events@;
    let ghost mut seen: Seq<int> = Seq::empty();
    let mut arms: Vec<MatchArm> = Vec::new();
    while *i < events.len()
        invariant_except_break
            seen + arms_scan(ev, *i as int).0 == arms_scan(ev, i0).0,
            arms_scan(ev, *i as int).1 == arms_scan(ev, i0).1,
        invariant
            ev == events@,
            i0 == *old(i),
            i0 <= *i <= events@.len(),
            arms@.len() == seen.len(),
            forall|m: int| 0 <= m < seen.len() ==> arm_read(ev, #[trigger] seen[m] + 1, arms@[m]),
        ensures
            *i == arms_scan(ev, i0).1,
            seen == arms_scan(ev, i0).0,
        decreases events@.len() - *i,
    {
        let ghost at = *i as int;
        match &events[*i].0 {
            MdEvent::End(MdTagEnd::List(false)) => {
                *i += 1;
                proof {
                    assert(seen + Seq::<int>::empty() =~= seen);
                }
                break;
            },
            MdEvent::Start(MdTag::Item) => {
                let sp = copy_span(&events[*i].1);
                *i += 1;
                let res = collect_single_match_arm(events, i, file_id, &sp);
                proof {
                    lemma_end_index_bounds(ev, at + 1, MdTagEnd::Item);
                    assert(arms_scan(ev, at).0[0] == at);
                    assert((seen + arms_scan(ev, at).0)[seen.len() as int] == at);
                }
                let arm = match res {
                    Ok(a) => a,
                    Err(e) => {
                        return Err(e);
                    },
                };
                arms.push(arm);
                proof {
                    assert(item_end(ev, at + 1) == *i as int);
                    assert(seen + arms_scan(ev, at).0 =~= seen.push(at) + arms_scan(ev, *i as int).0);
                    seen = seen.push(at);
                    assert(arm_read(ev, seen[seen.len() - 1] + 1, arms@[seen.len() - 1]));
                }
            },
            _ => {
                *i += 1;
            },
        }
    }
    Ok(arms)
}

/// The index of the first `:` in a text, if any.
fn find_colon(cs: &Vec<char>) -> (r: Option<usize>)
    ensures
        match r {
            Some(k) => k < cs@.len() && cs@[k as int] == ':' && forall|j: int| 0 <= j < k ==> cs@[j] != ':',
            None => forall|j: int| 0 <= j < cs@.len() ==> cs@[j] != ':',
        },
{
    let mut k: usize = 0;
    while k < cs.len()
        invariant
            k <= cs.len(),
            forall|j: int| 0 <= j < k ==> cs@[j] != ':',
        decreases cs.len() - k,
    {
        if cs[k] == ':' {
            return Some(k);
        }
        k += 1;
    }
    None
}

/// The first index from `i` on, before `c`, whose event is a text with a `:`; `c` where
/// there is none.
pub open spec fn colon_at(events: Seq<SpannedEvent>, i: int, c: int) -> int
    decreases c - i,
{
    if i < 0 || i >= c || i >= events.len() {
        c
    } else if events[i].0 matches MdEvent::Text(t) && t@.contains(':') {
        i
    } else {
        colon_at(events, i + 1, c)
    }
}

/// How the events of a match arm's item, from `i0` up to the item's end tag, split into
/// the pattern's events `pev` and the result's events `rev` (each copied one for one): at
/// the first `:` of the first text that has one, the text before it ends the pattern and
/// the text after it begins the result; with no `:`, all are the pattern's.
pub open spec fn arm_events(
    events: Seq<SpannedEvent>,
    i0: int,
    pev: Seq<SpannedEvent>,
    rev: Seq<SpannedEvent>,
) -> bool {
    let c = end_index(events, i0, MdTagEnd::Item);
    let k = colon_at(events, i0, c);
    if k < c {
        &&& i0 <= k < events.len()
        &&& pev.len() == k - i0 + 1
        &&& events_copied(pev.drop_last(), events, i0)
        &&& rev.len() == c - k
        &&& events_copied(rev.drop_first(), events, k + 1)
        &&& events[k].0 matches MdEvent::Text(s) && exists|q: int|
            0 <= q < s@.len() && s@[q] == ':' && (forall|j: int| 0 <= j < q ==> s@[j] != ':') && (
            pev.last().0 matches MdEvent::Text(b) && b@ == s@.take(q)) && (rev[0].0 matches MdEvent::Text(
                a,
            ) && a@ == s@.skip(q + 1))
    } else {
        &&& pev.len() == c - i0
        &&& events_copied(pev, events, i0)
        &&& rev.len() == 0
    }
}

/// Whether tokens start with the word `otherwise` and one more token.
pub open spec fn starts_otherwise(pt: Seq<Token>) -> bool {
    pt.len() >= 2 && (pt[0] matches Token::Ident(w, _) && w@ == "otherwise"@)
}

/// The arm built from the pattern's tokens `pt` and the result's events `rev`: an arm
/// that starts with `otherwise` and has no result of its own keeps `otherwise` and its
/// binding as the pattern and the rest (a `:` after the binding dropped) as the result;
/// any other arm has `pt` as its pattern and the tokens of `rev` as its result.
pub open spec fn arm_from(pt: Seq<Token>, rev: Seq<SpannedEvent>, arm: MatchArm) -> bool {
    &&& arm.is_otherwise == starts_otherwise(pt)
    &&& if starts_otherwise(pt) && rev.len() == 0 {
        &&& arm.pattern.0@ == pt.take(2)
        &&& arm.result.0@ == if pt.len() > 2 && pt[2] is Colon {
            pt.skip(3)
        } else {
            pt.skip(2)
        }
    } else {
        &&& arm.pattern.0@ == pt
        &&& tokens_read(rev, arm.result.0@)
    }
}

/// The arm read from the item whose events start at `i0`.
pub open spec fn arm_read(events: Seq<SpannedEvent>, i0: int, arm: MatchArm) -> bool {
    exists|pev: Seq<SpannedEvent>, rev: Seq<SpannedEvent>, pt: Seq<Token>|
        #![trigger arm_events(events, i0, pev, rev), tokens_read(pev, pt)]
        arm_events(events, i0, pev, rev) && tokens_read(pev, pt) && arm_from(pt, rev, arm)
}

/// Where the item whose events start at `i0` ends: after its end tag, or at the end.
pub open spec fn item_end(events: Seq<SpannedEvent>, i0: int) -> int {
    let c = end_index(events, i0, MdTagEnd::Item);
    if c < events.len() {
        c + 1
    } else {
        c
    }
}

proof fn lemma_copied_flat(copy: Seq<SpannedEvent>, events: Seq<SpannedEvent>, from: int, to: int)
    requires
        events_copied(copy, events, from),
        from + copy.len() <= to <= events.len(),
        all_flat(events.subrange(from, to)),
    ensures
        all_flat(copy),
{
    assert forall|k: int| 0 <= k < copy.len() implies flat_event(#[trigger] copy[k].0) by {
        assert(event_same(copy[k].0, events[from + k].0));
        assert(events.subrange(from, to)[k] == events[from + k]);
        assert(flat_event(events.subrange(from, to)[k].0));
    }
}

/// The events of an arm's pattern and result open no element where the item's events
/// open none.
proof fn lemma_arm_flat(events: Seq<SpannedEvent>, i0: int, pev: Seq<SpannedEvent>, rev: Seq<SpannedEvent>)
    requires
        0 <= i0 <= events.len(),
        arm_events(events, i0, pev, rev),
        all_flat(events.subrange(i0, end_index(events, i0, MdTagEnd::Item))),
    ensures
        all_flat(pev),
        all_flat(rev),
{
    let c = end_index(events, i0, MdTagEnd::Item);
    lemma_end_index_bounds(events, i0, MdTagEnd::Item);
    let k = colon_at(events, i0, c);
    if k < c {
        lemma_copied_flat(pev.drop_last(), events, i0, c);
        assert forall|m: int| 0 <= m < pev.len() implies flat_event(#[trigger] pev[m].0) by {
            if m < pev.len() - 1 {
                assert(pev[m] == pev.drop_last()[m]);
            }
        }
        let sub = events.subrange(i0, c);
        assert forall|m: int| 0 <= m < c - (k + 1) implies flat_event(#[trigger] events.subrange(k + 1, c)[m].0) by {
            assert(events.subrange(k + 1, c)[m] == sub[m + k + 1 - i0]);
        }
        lemma_copied_flat(rev.drop_first(), events, k + 1, c);
        assert forall|m: int| 0 <= m < rev.len() implies flat_event(#[trigger] rev[m].0) by {
            if m > 0 {
                assert(rev[m] == rev.drop_first()[m - 1]);
            }
        }
    } else {
        lemma_copied_flat(pev, events, i0, c);
    }
}

/// Collects one match arm, up to the end of its item: the events before the first `:` of
/// its text are the pattern, those after it the result. An arm whose pattern starts with
/// `otherwise` and one more token is the fallback.
#[verifier::spinoff_prover]
fn collect_single_match_arm(
    events: &Vec<SpannedEvent>,
    i: &mut usize,
    file_id: usize,
    item_span: &Range<usize>,
) -> (r: Result<MatchArm, ParseError>)
    requires
        *old(i) <= events@.len(),
    ensures
        error_from(r, file_id),
        *old(i) <= *final(i) <= events@.len(),
        *final(i) == item_end(events@, *old(i) as int),
        all_flat(events@.subrange(*old(i) as int, end_index(events@, *old(i) as int, MdTagEnd::Item))) ==> r is Ok,
        r matches Ok(arm) ==> arm_read(events@, *old(i) as int, arm),
    decreases events@.len() - *old(i), 4nat,
{
    let ghost i0 = *i as int;
    let ghost c = end_index(events@, i0, MdTagEnd::Item);
    let ghost ev = events@;
    let mut pattern_span: Range<usize> = Range { start: 0, end: 0 };
    let mut result_span: Range<usize> = Range { start: 0, end: 0 };
    let mut pattern_events: Vec<SpannedEvent> = Vec::new();
    let mut result_events: Vec<SpannedEvent> = Vec::new();
    let mut in_result = false;
    proof {
        lemma_end_index_bounds(ev, i0, MdTagEnd::Item);
    }
    while *i < events.len()
        invariant_except_break
            *i <= c,
            end_index(ev, *i as int, MdTagEnd::Item) == c,
            !in_result ==> colon_at(ev, *i as int, c) == colon_at(ev, i0, c),
            !in_result ==> {
                &&& pattern_events@.len() == *i - i0
                &&& events_copied(pattern_events@, ev, i0)
                &&& result_events@.len() == 0
            },
            in_result ==> {
                let k = colon_at(ev, i0, c);
                &&& i0 <= k < *i
                &&& k < c
                &&& pattern_events@.len() == k - i0 + 1
                &&& events_copied(pattern_events@.drop_last(), ev, i0)
                &&& result_events@.len() == *i - k
                &&& events_copied(result_events@.drop_first(), ev, k + 1)
                &&& ev[k].0 matches MdEvent::Text(s) && exists|q: int|
                    0 <= q < s@.len() && s@[q] == ':' && (forall|j: int| 0 <= j < q ==> s@[j] != ':') && (
                    pattern_events@.last().0 matches MdEvent::Text(b) && b@ == s@.take(q)) && (
                    result_events@[0].0 matches MdEvent::Text(a) && a@ == s@.skip(q + 1))
            },
        invariant
            ev == events@,
            i0 == *old(i),
            i0 <= *i <= events@.len(),
            i0 <= c <= events@.len(),
            c == end_index(ev, i0, MdTagEnd::Item),
            pattern_events@.len() <= *i - i0 + 1,
            result_events@.len() <= *i - i0 + 1,
        ensures
            *i == item_end(ev, i0),
            arm_events(ev, i0, pattern_events@, result_events@),
        decreases events@.len() - *i,
    {
        let ghost at = *i as int;
        let sp = copy_span(&events[*i].1);
        if in_result {
            if result_span.start == 0 {
                result_span = copy_span(&sp);
            }
        } else if pattern_span.start == 0 {
            pattern_span = copy_span(&sp);
        }
        let mut split: Option<usize> = None;
        let mut cs: Vec<char> = Vec::new();
        if !in_result {
            if let MdEvent::Text(text) = &events[*i].0 {
                cs = chars_of(text.as_str());
                split = find_colon(&cs);
            }
        }
        assert(split matches Some(k) ==> k < cs@.len());
        if let MdEvent::End(MdTagEnd::Item) = &events[*i].0 {
            *i += 1;
            if in_result {
                result_span.end = sp.end;
            } else {
                pattern_span.end = sp.end;
            }
            proof {
                assert(end_index(ev, at, MdTagEnd::Item) == at);
                if !in_result {
                    assert(colon_at(ev, at, c) == c);
                }
                assert(arm_events(ev, i0, pattern_events@, result_events@));
            }
            break;
        }
        proof {
            assert(end_index(ev, at, MdTagEnd::Item) == end_index(ev, at + 1, MdTagEnd::Item));
            lemma_end_index_bounds(ev, at + 1, MdTagEnd::Item);
            assert(at < c);
        }
        *i += 1;
        match split {
            Some(k) => {
                let n = cs.len();
                assert(k < n);
                let before = string_from(&cs, 0, k);
                let after = string_from(&cs, k + 1, n);
                let ghost pe_before = pattern_events@;
                pattern_events.push((MdEvent::Text(before), Range { start: pattern_span.end, end: sp.start }));
                pattern_span.end = sp.start;
                in_result = true;
                result_span = copy_span(&sp);
                result_events.push((MdEvent::Text(after), copy_span(&sp)));
                proof {
                    assert(ev[at].0 matches MdEvent::Text(t) && t@ == cs@ && t@.contains(':'));
                    assert(colon_at(ev, at, c) == at);
                    assert(pattern_events@.drop_last() =~= pe_before);
                    assert(result_events@.drop_first() =~= Seq::<SpannedEvent>::empty());
                    assert(before@ =~= cs@.take(k as int));
                    assert(after@ =~= cs@.skip(k + 1));
                }
            },
            None => {
                let e = clone_event(&events[*i - 1]);
                if in_result {
                    result_span.end = sp.end;
                    let ghost re_before = result_events@;
                    result_events.push(e);
                    proof {
                        assert(result_events@.drop_first() =~= re_before.drop_first().push(e));
                        assert(result_events@.drop_first().drop_last() =~= re_before.drop_first());
                    }
                } else {
                    pattern_span.end = sp.end;
                    pattern_events.push(e);
                    proof {
                        match ev[at].0 {
                            MdEvent::Text(t) => {
                                assert(t@ == cs@);
                                assert(!t@.contains(':'));
                            },
                            _ => {},
                        }
                        assert(colon_at(ev, at, c) == colon_at(ev, at + 1, c));
                    }
                }
            },
        }
    }
    proof {
        if *i >= events.len() && !(*i == item_end(ev, i0)) {
            assert(false);
        }
    }
    let ghost pev = pattern_events@;
    let ghost rev = result_events@;
    proof {
        if all_flat(ev.subrange(i0, c)) {
            lemma_arm_flat(ev, i0, pev, rev);
        }
    }
    let mut pattern = tokenize_events(&pattern_events, file_id, &pattern_span)?;
    let ghost pt = pattern@;
    let is_otherwise = pattern.len() >= 2 && match &pattern[0] {
        Token::Ident(w, _) => is_word(w.as_str(), "otherwise"),
        _ => false,
    };
    let result = if is_otherwise && result_events.len() == 0 {
        result_span = copy_span(&pattern_span);
        if pattern.len() > 2 {
            if let Token::Colon = &pattern[2] {
                pattern.remove(2);
            }
        }
        let rest = pattern.split_off(2);
        proof {
            assert(pattern@ =~= pt.take(2));
            if pt.len() > 2 && pt[2] is Colon {
                assert(rest@ =~= pt.skip(3));
            } else {
                assert(rest@ =~= pt.skip(2));
            }
        }
        rest
    } else {
        let rest = tokenize_events(&result_events, file_id, &result_span)?;
        assert(tokens_of_events(rev, Ok::<Vec<Token>, ParseError>(rest)));
        rest
    };
    let arm = MatchArm { pattern: (pattern, pattern_span), result: (result, result_span), is_otherwise };
    proof {
        assert(tokens_read(pev, pt));
        assert(arm_from(pt, rev, arm));
        assert(arm_events(ev, i0, pev, rev));
    }
    Ok(arm)
}

/// Whether a text is exactly the given word.
pub fn is_word(s: &str, w: &str) -> (r: bool)
    ensures
        r == (s@ == w@),
{
    let a = chars_of(s);
    let b = chars_of(w);
    if a.len() != b.len() {
        assert(a@.len() != b@.len());
        return false;
    }
    let mut k: usize = 0;
    while k < a.len()
        invariant
            k <= a.len() == b.len(),
            a@ == s@,
            b@ == w@,
            a@.take(k as int) == b@.take(k as int),
        decreases a.len() - k,
    {
        if a[k] != b[k] {
            assert(a@[k as int] != b@[k as int]);
            return false;
        }
        assert(a@.take(k + 1) =~= a@.take(k as int).push(a@[k as int]));
        assert(b@.take(k + 1) =~= b@.take(k as int).push(b@[k as int]));
        k += 1;
    }
    assert(a@.take(a.len() as int) =~= a@);
    assert(b@.take(b.len() as int) =~= b@);
    true
}

// ---------------------------------------------------------------------------
// Instructions
// ---------------------------------------------------------------------------

/// Whether the tokens are an assignment: a name, a single `=` and at least one more token.
pub open spec fn is_assignment(tokens: Seq<Token>) -> bool {
    tokens.len() >= 3 && tokens[0] is Ident && tokens[1] is Eq
}

/// What the tokens `m` of an item give, where the expression is a chain of operands and
/// binary operators: `name = chain` assigns the chain's expression, and a chain on its
/// own is an expression instruction.
pub open spec fn instruction_from(m: Seq<Token>, span: Range<usize>, r: Result<Instruction, ParseError>) -> bool {
    if is_assignment(m) {
        simple_chain(m, 2, m.len() as int) ==> (r matches Ok(Instruction::Assignment { variable, value, span: s })
            && (m[0] matches Token::Ident(name, _) && variable == name) && value == chain_tree(m, 2, m.len() as int)
            && s == span)
    } else {
        simple_chain(m, 0, m.len() as int) ==> r == Ok::<Instruction, ParseError>(
            Instruction::Expression { value: chain_tree(m, 0, m.len() as int), span },
        )
    }
}

/// Parses the events of one ordered-list item into an instruction: `name = expression`
/// is an assignment, anything else an expression; all tokens must be used.
pub fn parse_instruction(
    events: &Vec<SpannedEvent>,
    span: Range<usize>,
    file_id: usize,
) -> (r: Result<Instruction, ParseError>)
    ensures
        error_from(r, file_id),
        r matches Ok(ins) ==> match ins {
            Instruction::Assignment { span: s, .. } => s == span,
            Instruction::Expression { span: s, .. } => s == span,
        },
        all_flat(events@) ==> exists|toks: Seq<Token>|
            flat_reads(events@, events@.len() as int, toks) && instruction_from(merged(toks), span, r),
{
    let ghost span0 = span;
    let tokens = tokenize_events(events, file_id, &span)?;
    let ghost toks = choose|toks: Seq<Token>| flat_reads(events@, events@.len() as int, toks) && tokens@ == merged(toks);
    let b = strings_bound(&tokens);
    let cx = ParseContext { span: copy_span(&span), file_id };
    let len = tokens.len();
    let assignment = len >= 3 && (match &tokens[0] {
        Token::Ident(..) => true,
        _ => false,
    }) && (match &tokens[1] {
        Token::Eq => true,
        _ => false,
    });
    if assignment {
        let name = match &tokens[0] {
            Token::Ident(n, _) => n.clone(),
            _ => String::new(),
        };
        let mut p: usize = 2;
        let value = parse_expr(&tokens, &mut p, len, 0, &cx, b)?;
        if p < len {
            return Err(error_in(&cx, "unexpected tokens after assignment"));
        }
        let r = Ok(Instruction::Assignment { variable: name, value, span });
        proof {
            if all_flat(events@) {
                assert(is_assignment(tokens@));
                assert(flat_reads(events@, events@.len() as int, toks) && instruction_from(merged(toks), span0, r));
            }
        }
        r
    } else {
        let mut p: usize = 0;
        let value = parse_expr(&tokens, &mut p, len, 0, &cx, b)?;
        if p < len {
            return Err(error_in(&cx, "unexpected tokens after expression"));
        }
        let r = Ok(Instruction::Expression { value, span });
        proof {
            if all_flat(events@) {
                assert(!is_assignment(tokens@));
                assert(flat_reads(events@, events@.len() as int, toks) && instruction_from(merged(toks), span0, r));
            }
        }
        r
    }
}

} // verus!
