//! The structural parser: Markdown events into blocks, chains and bodies.
use vstd::prelude::*;
use std::ops::Range;
use crate::ast::{Block, Chain, FenceGroup, Instruction, Program, copy_span};
use crate::document::{Document, DocumentNode, InlineNode, ColumnAlignment};
use crate::markdown::{MdEvent, MdTag, MdTagEnd, read_markdown, markdown_events};
use crate::item_lexer::{SpannedEvent, clone_event, parse_instruction, event_same};
use crate::parse_error::{ParseError, errors_from};
use crate::source_text::{normalize_block_name, extract_item_number, item_number_spec, join_words, words, law_normalize_idempotent};
use crate::text::{push_str, utf8_len_seq};

verus! {

// ---------------------------------------------------------------------------
// Text of events
// ---------------------------------------------------------------------------

/// The first index at or after `i` whose event is the end tag `end`, or the length.
pub open spec fn end_index(events: Seq<SpannedEvent>, i: int, end: MdTagEnd) -> int
    decreases events.len() - i,
{
    if i >= events.len() || i < 0 {
        events.len() as int
    } else if events[i].0 == MdEvent::End(end) {
        i
    } else {
        end_index(events, i + 1, end)
    }
}

/// The text that an event contributes: its text, and the code of inline code when
/// `with_code` holds.
pub open spec fn event_text(e: MdEvent, with_code: bool) -> Seq<char> {
    match e {
        MdEvent::Text(s) => s@,
        MdEvent::Code(s) => if with_code {
            s@
        } else {
            seq![]
        },
        _ => seq![],
    }
}

/// The texts of `events[i..j]`, one after another.
pub open spec fn texts_in(events: Seq<SpannedEvent>, i: int, j: int, with_code: bool) -> Seq<char>
    decreases j - i,
{
    if j <= i {
        seq![]
    } else {
        texts_in(events, i, j - 1, with_code) + event_text(events[j - 1].0, with_code)
    }
}

pub(crate) proof fn lemma_end_index_bounds(events: Seq<SpannedEvent>, i: int, end: MdTagEnd)
    requires
        0 <= i <= events.len(),
    ensures
        i <= end_index(events, i, end) <= events.len(),
        end_index(events, i, end) < events.len() ==> events[end_index(events, i, end)].0
            == MdEvent::End(end),
    decreases events.len() - i,
{
    if i < events.len() {
        lemma_end_index_bounds(events, i + 1, end);
    }
}

/// Collects the text of the events from `*i` up to the end tag `end`, and moves `*i` past
/// that tag (or to the end).
fn collect_texts(events: &Vec<SpannedEvent>, i: &mut usize, end: MdTagEnd, with_code: bool) -> (r: String)
    requires
        *old(i) <= events@.len(),
    ensures
        *old(i) <= *final(i) <= events@.len(),
        ({
            let j = end_index(events@, *old(i) as int, end);
            &&& r@ == texts_in(events@, *old(i) as int, j, with_code)
            &&& *final(i) == if j < events@.len() {
                j + 1
            } else {
                j
            }
        }),
{
    let ghost i0 = *i as int;
    let mut text = String::new();
    proof {
        lemma_end_index_bounds(events@, i0, end);
    }
    while *i < events.len()
        invariant
            i0 == *old(i),
            i0 <= *i <= events@.len(),
            end_index(events@, *i as int, end) == end_index(events@, i0, end),
            text@ == texts_in(events@, i0, *i as int, with_code),
        decreases events@.len() - *i,
    {
        let ghost k = *i as int;
        match &events[*i].0 {
            MdEvent::End(t) => {
                if *t == end {
                    assert(events@[k].0 == MdEvent::End(end));
                    assert(end_index(events@, k, end) == k);
                    *i += 1;
                    return text;
                }
            },
            MdEvent::Text(s) => {
                push_str(&mut text, s.as_str());
            },
            MdEvent::Code(s) => {
                if with_code {
                    push_str(&mut text, s.as_str());
                }
            },
            _ => {},
        }
        *i += 1;
    }
    text
}

/// Collects the heading text (text and inline code) up to the end of the heading.
pub fn collect_heading_text(events: &Vec<SpannedEvent>, i: &mut usize) -> (r: String)
    requires
        *old(i) <= events@.len(),
    ensures
        *old(i) <= *final(i) <= events@.len(),
        ({
            let j = end_index(events@, *old(i) as int, MdTagEnd::Heading);
            &&& r@ == texts_in(events@, *old(i) as int, j, true)
            &&& *final(i) == if j < events@.len() {
                j + 1
            } else {
                j
            }
        }),
{
    collect_texts(events, i, MdTagEnd::Heading, true)
}

/// Collects the text (without inline code) up to the end tag `end`.
pub fn collect_text_until(events: &Vec<SpannedEvent>, i: &mut usize, end: MdTagEnd) -> (r: String)
    requires
        *old(i) <= events@.len(),
    ensures
        *old(i) <= *final(i) <= events@.len(),
        ({
            let j = end_index(events@, *old(i) as int, end);
            &&& r@ == texts_in(events@, *old(i) as int, j, false)
            &&& *final(i) == if j < events@.len() {
                j + 1
            } else {
                j
            }
        }),
{
    collect_texts(events, i, end, false)
}

// ---------------------------------------------------------------------------
// Blocks under construction
// ---------------------------------------------------------------------------

/// A block whose heading has been read and whose content is being collected.
pub struct BlockBuilder {
    pub name: String,
    pub level: u8,
    pub chain_groups: Vec<FenceGroup>,
    pub children: Vec<Block>,
    pub body_nodes: Vec<DocumentNode>,
    pub span_start: usize,
}

impl BlockBuilder {
    /// The finished block, whose span ends at `span_end`.
    pub fn into_block(self, span_end: usize) -> (b: Block)
        ensures
            b.name == self.name,
            b.level == self.level,
            b.chain.groups@ == self.chain_groups@,
            b.children@ == self.children@,
            b.body.nodes@ == self.body_nodes@,
            b.span == (Range { start: self.span_start, end: span_end }),
    {
        let chain = if self.chain_groups.len() == 0 {
            Chain::empty()
        } else {
            Chain { groups: self.chain_groups }
        };
        Block {
            name: self.name,
            level: self.level,
            chain,
            children: self.children,
            body: Document { nodes: self.body_nodes },
            span: Range { start: self.span_start, end: span_end },
        }
    }
}

/// The levels of the open blocks rise strictly from the outermost to the innermost.
pub open spec fn levels_rising(stack: Seq<BlockBuilder>) -> bool {
    forall|a: int, b: int| 0 <= a < b < stack.len() ==> stack[a].level < stack[b].level
}

/// A block name in normal form: words joined by single spaces.
pub open spec fn name_normal(n: Seq<char>) -> bool {
    n == join_words(words(n))
}

/// A chain is well formed: each fence group holds at least one instruction, and
/// neighbouring groups have different fence indices (items with the same index join one
/// group).
pub open spec fn chain_ok(groups: Seq<FenceGroup>) -> bool {
    &&& forall|g: int| 0 <= g < groups.len() ==> (#[trigger] groups[g]).instructions@.len() > 0
    &&& forall|g: int| #![trigger groups[g]] 0 <= g < groups.len() - 1 ==> groups[g].index != groups[g + 1].index
}

/// The fence groups of a chain, each as its index and its instructions.
pub open spec fn groups_view(gs: Seq<FenceGroup>) -> Seq<(u64, Seq<Instruction>)> {
    gs.map_values(|g: FenceGroup| (g.index, g.instructions@))
}

/// Adds an instruction under a fence index: to the last group where that group has the
/// same index, else as a new group of its own.
pub open spec fn add_grouped(v: Seq<(u64, Seq<Instruction>)>, index: u64, ins: Instruction) -> Seq<
    (u64, Seq<Instruction>),
> {
    if v.len() > 0 && v.last().0 == index {
        v.drop_last().push((index, v.last().1.push(ins)))
    } else {
        v.push((index, seq![ins]))
    }
}

/// The groups after the outcomes of a list's items, in order: each instruction that
/// parsed is added under its item's index; an item that did not parse adds nothing.
pub open spec fn grouped(
    v: Seq<(u64, Seq<Instruction>)>,
    outcomes: Seq<(u64, Result<Instruction, ParseError>)>,
) -> Seq<(u64, Seq<Instruction>)>
    decreases outcomes.len(),
{
    if outcomes.len() == 0 {
        v
    } else {
        let prev = grouped(v, outcomes.drop_last());
        match outcomes.last().1 {
            Ok(ins) => add_grouped(prev, outcomes.last().0, ins),
            Err(_) => prev,
        }
    }
}

/// The errors among the outcomes of a list's items, in order.
pub open spec fn failures(outcomes: Seq<(u64, Result<Instruction, ParseError>)>) -> Seq<ParseError>
    decreases outcomes.len(),
{
    if outcomes.len() == 0 {
        seq![]
    } else {
        let prev = failures(outcomes.drop_last());
        match outcomes.last().1 {
            Ok(_) => prev,
            Err(e) => prev.push(e),
        }
    }
}

/// The number written before the list item that starts at byte `byte` of the source,
/// or 1 where no character starts there.
pub open spec fn item_fence_index(cs: Seq<char>, byte: int) -> u64 {
    if exists|k: int| 0 <= k <= cs.len() && utf8_len_seq(#[trigger] cs.take(k)) == byte {
        item_number_spec(cs, choose|k: int| 0 <= k <= cs.len() && utf8_len_seq(#[trigger] cs.take(k)) == byte)
    } else {
        1
    }
}

/// A block is well nested: its name is in normal form, its chain is well formed, and
/// each of its sub-blocks is deeper than it and well nested.
pub open spec fn block_nested(b: Block) -> bool
    decreases b, 1nat,
{
    name_normal(b.name@) && chain_ok(b.chain.groups@) && blocks_under(b.children@, b.level)
}

/// Blocks that are all deeper than `level` and well nested.
pub open spec fn blocks_under(s: Seq<Block>, level: u8) -> bool
    decreases s, 0nat,
{
    s.len() == 0 || (blocks_under(s.drop_last(), level) && s.last().level > level && block_nested(s.last()))
}

/// Well-nested blocks, at any level.
pub open spec fn all_nested(s: Seq<Block>) -> bool {
    forall|i: int| 0 <= i < s.len() ==> #[trigger] block_nested(s[i])
}

/// An open block has a name in normal form, a well-formed chain so far, and well-nested
/// sub-blocks deeper than it.
pub open spec fn builder_ok(b: BlockBuilder) -> bool {
    name_normal(b.name@) && chain_ok(b.chain_groups@) && blocks_under(b.children@, b.level)
}

pub open spec fn builders_ok(stack: Seq<BlockBuilder>) -> bool {
    forall|a: int| 0 <= a < stack.len() ==> #[trigger] builder_ok(stack[a])
}

proof fn lemma_blocks_under_push(s: Seq<Block>, level: u8, b: Block)
    requires
        blocks_under(s, level),
        b.level > level,
        block_nested(b),
    ensures
        blocks_under(s.push(b), level),
{
    assert(s.push(b).drop_last() =~= s);
}

/// What a document holds, in order: a heading (its level and its name in normal form) or
/// a piece of body content.
pub enum DocItem {
    Head(u8, Seq<char>),
    Body(DocumentNode),
}

/// Body content as items.
pub open spec fn body_items(nodes: Seq<DocumentNode>) -> Seq<DocItem> {
    Seq::new(nodes.len(), |k: int| DocItem::Body(nodes[k]))
}

/// The items of a block in document order: its heading, its body, then its sub-blocks.
pub open spec fn block_items(b: Block) -> Seq<DocItem>
    decreases b, 1nat,
{
    seq![DocItem::Head(b.level, b.name@)] + body_items(b.body.nodes@) + blocks_items(b.children@)
}

/// The items of blocks in document order.
pub open spec fn blocks_items(s: Seq<Block>) -> Seq<DocItem>
    decreases s, 0nat,
{
    if s.len() == 0 {
        seq![]
    } else {
        blocks_items(s.drop_last()) + block_items(s.last())
    }
}

/// The items of the open blocks, outermost first: each one's heading, body so far and
/// finished sub-blocks.
pub open spec fn open_items(stack: Seq<BlockBuilder>) -> Seq<DocItem>
    decreases stack.len(),
{
    if stack.len() == 0 {
        seq![]
    } else {
        open_items(stack.drop_last()) + seq![DocItem::Head(stack.last().level, stack.last().name@)] + body_items(
            stack.last().body_nodes@,
        ) + blocks_items(stack.last().children@)
    }
}

/// Open blocks with the same levels, names, bodies and sub-blocks have the same items.
proof fn lemma_open_items_same(a: Seq<BlockBuilder>, b: Seq<BlockBuilder>)
    requires
        a.len() == b.len(),
        forall|k: int|
            0 <= k < a.len() ==> (#[trigger] a[k]).level == b[k].level && a[k].name == b[k].name && a[k].children
                == b[k].children && a[k].body_nodes@ == b[k].body_nodes@,
    ensures
        open_items(a) == open_items(b),
    decreases a.len(),
{
    if a.len() > 0 {
        assert forall|k: int| 0 <= k < a.drop_last().len() implies (#[trigger] a.drop_last()[k]).level
            == b.drop_last()[k].level && a.drop_last()[k].name == b.drop_last()[k].name && a.drop_last()[k].children
            == b.drop_last()[k].children && a.drop_last()[k].body_nodes@ == b.drop_last()[k].body_nodes@ by {
            assert(a.drop_last()[k] == a[k]);
            assert(b.drop_last()[k] == b[k]);
        }
        lemma_open_items_same(a.drop_last(), b.drop_last());
        assert(a.last() == a[a.len() - 1]);
        assert(b.last() == b[b.len() - 1]);
    }
}

/// Adding body content to the innermost open block, which has no sub-block yet, adds it
/// last among the items.
proof fn lemma_open_items_body(a: Seq<BlockBuilder>, b: Seq<BlockBuilder>, node: DocumentNode)
    requires
        a.len() == b.len(),
        a.len() > 0,
        a.last().children@.len() == 0,
        forall|k: int|
            0 <= k < a.len() ==> (#[trigger] a[k]).level == b[k].level && a[k].name == b[k].name && a[k].children
                == b[k].children,
        forall|k: int| 0 <= k < a.len() - 1 ==> (#[trigger] a[k]).body_nodes@ == b[k].body_nodes@,
        b.last().body_nodes@ == a.last().body_nodes@.push(node),
    ensures
        open_items(b) == open_items(a).push(DocItem::Body(node)),
{
    lemma_open_items_same(a.drop_last(), b.drop_last());
    assert(a.last() == a[a.len() - 1]);
    assert(b.last() == b[b.len() - 1]);
    assert(b.last().children@.len() == 0);
    assert(blocks_items(b.last().children@) == Seq::<DocItem>::empty());
    assert(blocks_items(a.last().children@) == Seq::<DocItem>::empty());
    assert(body_items(b.last().body_nodes@) =~= body_items(a.last().body_nodes@).push(DocItem::Body(node)));
    assert(open_items(b) =~= open_items(a).push(DocItem::Body(node)));
}

/// Closing the innermost open block, as the last sub-block of the one around it, keeps the
/// items in the same order.
proof fn lemma_close_into_parent(stack: Seq<BlockBuilder>, parent: BlockBuilder, b: Block)
    requires
        stack.len() >= 2,
        b.level == stack.last().level,
        b.name == stack.last().name,
        b.children@ == stack.last().children@,
        b.body.nodes@ == stack.last().body_nodes@,
        parent.level == stack[stack.len() - 2].level,
        parent.name == stack[stack.len() - 2].name,
        parent.body_nodes@ == stack[stack.len() - 2].body_nodes@,
        parent.children@ == stack[stack.len() - 2].children@.push(b),
    ensures
        open_items(stack.drop_last().drop_last().push(parent)) == open_items(stack),
{
    let s2 = stack.drop_last().drop_last().push(parent);
    let base = stack.drop_last().drop_last();
    let p_old = stack[stack.len() - 2];
    let last = stack.last();
    assert(s2.drop_last() =~= base);
    assert(s2.last() == parent);
    assert(stack.drop_last().last() == p_old);
    assert(parent.children@.drop_last() =~= p_old.children@);
    assert(parent.children@.last() == b);
    assert(block_items(b) == seq![DocItem::Head(b.level, b.name@)] + body_items(b.body.nodes@) + blocks_items(
        b.children@,
    ));
    assert(blocks_items(parent.children@) == blocks_items(p_old.children@) + block_items(b));
    assert(open_items(s2) == open_items(base) + seq![DocItem::Head(parent.level, parent.name@)] + body_items(
        parent.body_nodes@,
    ) + blocks_items(parent.children@));
    assert(open_items(stack.drop_last()) == open_items(base) + seq![DocItem::Head(p_old.level, p_old.name@)]
        + body_items(p_old.body_nodes@) + blocks_items(p_old.children@));
    assert(open_items(stack) == open_items(stack.drop_last()) + seq![DocItem::Head(last.level, last.name@)]
        + body_items(last.body_nodes@) + blocks_items(last.children@));
    assert(open_items(s2) =~= open_items(stack));
}

/// Closing the only open block, as the last top-level block, keeps the items in order.
proof fn lemma_close_to_top(top: Seq<Block>, stack: Seq<BlockBuilder>, b: Block)
    requires
        stack.len() == 1,
        b.level == stack[0].level,
        b.name == stack[0].name,
        b.children@ == stack[0].children@,
        b.body.nodes@ == stack[0].body_nodes@,
    ensures
        blocks_items(top.push(b)) + open_items(stack.drop_last()) == blocks_items(top) + open_items(stack),
{
    assert(top.push(b).drop_last() =~= top);
    assert(top.push(b).last() == b);
    assert(stack.drop_last() =~= Seq::<BlockBuilder>::empty());
    assert(stack.last() == stack[0]);
    assert(open_items(stack.drop_last()) == Seq::<DocItem>::empty());
    assert(blocks_items(top.push(b)) == blocks_items(top) + block_items(b));
    assert(block_items(b) == seq![DocItem::Head(b.level, b.name@)] + body_items(b.body.nodes@) + blocks_items(
        b.children@,
    ));
    assert(open_items(stack) == open_items(stack.drop_last()) + seq![DocItem::Head(stack[0].level, stack[0].name@)]
        + body_items(stack[0].body_nodes@) + blocks_items(stack[0].children@));
    assert(blocks_items(top.push(b)) + open_items(stack.drop_last()) =~= blocks_items(top) + open_items(stack));
}

/// Once a heading has been read (`started`), the item at the front of `items` is body
/// content for which `node` holds; before any heading, body content gives no item.
pub open spec fn body_ok(started: bool, items: Seq<DocItem>, node: spec_fn(DocumentNode) -> bool) -> bool {
    started ==> (items.len() > 0 && (items[0] matches DocItem::Body(n) && node(n)))
}

/// What remains of `items` after a piece of body content.
pub open spec fn after_body(started: bool, items: Seq<DocItem>) -> Seq<DocItem> {
    if started {
        items.drop_first()
    } else {
        items
    }
}

/// Reading the events from `i` on as a document's top-level structure meets the items
/// `items` in order: each heading, read up to its end (its name in normal form), and, once
/// a heading has been read (`started`), each piece of body content: a paragraph, an
/// unordered list, a code block, a table, a block quote, a rule. Content before any
/// heading is read and dropped; an ordered list is read up to its end and gives no item
/// (it becomes instructions); other events are passed over.
pub open spec fn doc_read(events: Seq<SpannedEvent>, i: int, started: bool, items: Seq<DocItem>) -> bool
    decreases events.len() - i,
{
    if i < 0 {
        false
    } else if i >= events.len() {
        items.len() == 0
    } else {
        match events[i].0 {
            MdEvent::Start(MdTag::Heading(level)) => {
                let j = end_index(events, i + 1, MdTagEnd::Heading);
                let next = if j < events.len() {
                    j + 1
                } else {
                    j
                };
                &&& items.len() > 0
                &&& items[0] == DocItem::Head(level, join_words(words(texts_in(events, i + 1, j, true))))
                &&& i < next <= events.len()
                &&& doc_read(events, next, true, items.drop_first())
            },
            MdEvent::Start(MdTag::List(Some(_))) => {
                let k = ParseState::olist_end(events, i + 1);
                i < k <= events.len() && doc_read(events, k, started, items)
            },
            MdEvent::Start(MdTag::List(None)) => exists|its: Seq<Document>|
                #[trigger] list_read(events, i + 1, its) matches Some(k) && i < k <= events.len() && body_ok(
                    started,
                    items,
                    |n: DocumentNode| n matches DocumentNode::UnorderedList { items: x } && x@ == its,
                ) && doc_read(events, k, started, after_body(started, items)),
            MdEvent::Start(MdTag::Paragraph) => exists|r: Seq<InlineNode>|
                #[trigger] inlines_read(events, i + 1, MdTagEnd::Paragraph, r) matches Some(k) && i < k <= events.len()
                    && body_ok(started, items, |n: DocumentNode| n matches DocumentNode::Paragraph(x) && x@ == r)
                    && doc_read(events, k, started, after_body(started, items)),
            MdEvent::Start(MdTag::CodeBlock(info)) => {
                let j = end_index(events, i + 1, MdTagEnd::CodeBlock);
                let next = if j < events.len() {
                    j + 1
                } else {
                    j
                };
                &&& i < next <= events.len()
                &&& body_ok(
                    started,
                    items,
                    |n: DocumentNode| n matches DocumentNode::CodeBlock { language, content } && content@ == texts_in(
                        events,
                        i + 1,
                        j,
                        false,
                    ) && match info {
                        Some(l) => if l@.len() > 0 {
                            language matches Some(x) && x@ == l@
                        } else {
                            language is None
                        },
                        None => language is None,
                    },
                )
                &&& doc_read(events, next, started, after_body(started, items))
            },
            MdEvent::Start(MdTag::Table(aligns)) => exists|cells: Seq<Vec<InlineNode>>|
                #[trigger] table_pos(events, i + 1, cells) matches Some(k) && i < k <= events.len() && body_ok(
                    started,
                    items,
                    |n: DocumentNode| n matches DocumentNode::Table { alignments, .. } && alignments@ == aligns@,
                ) && doc_read(events, k, started, after_body(started, items)),
            MdEvent::Start(MdTag::BlockQuote) => exists|r: Seq<DocumentNode>|
                #[trigger] paragraphs_read(events, i + 1, MdTagEnd::BlockQuote, false, r) matches Some(k) && i < k
                    <= events.len() && body_ok(
                    started,
                    items,
                    |n: DocumentNode| n matches DocumentNode::Blockquote(d) && d.nodes@ == r,
                ) && doc_read(events, k, started, after_body(started, items)),
            MdEvent::Rule => body_ok(started, items, |n: DocumentNode| n is HorizontalRule) && doc_read(
                events,
                i + 1,
                started,
                after_body(started, items),
            ),
            _ => doc_read(events, i + 1, started, items),
        }
    }
}

/// Pushing body content keeps every open block's place and adds the content last among
/// the items when a block is open (it is dropped when none is).
proof fn lemma_body_pushed(a: Seq<BlockBuilder>, b: Seq<BlockBuilder>, node: DocumentNode, started: bool)
    requires
        started == (a.len() > 0),
        a.len() == b.len(),
        a.len() > 0 ==> a.last().children@.len() == 0,
        forall|k: int|
            0 <= k < b.len() ==> (#[trigger] b[k]).level == a[k].level && b[k].name == a[k].name && b[k].children
                == a[k].children && b[k].chain_groups == a[k].chain_groups,
        a.len() == 0 ==> b == a,
        forall|k: int| 0 <= k < a.len() - 1 ==> #[trigger] b[k] == a[k],
        a.len() > 0 ==> b.last().body_nodes@ == a.last().body_nodes@.push(node),
    ensures
        open_items(b) == open_items(a) + (if started {
            seq![DocItem::Body(node)]
        } else {
            Seq::<DocItem>::empty()
        }),
        b.len() > 0 ==> b.last().children@.len() == 0,
{
    if a.len() > 0 {
        assert forall|k: int| 0 <= k < a.len() - 1 implies (#[trigger] a[k]).body_nodes@ == b[k].body_nodes@ by {
            assert(b[k] == a[k]);
        }
        lemma_open_items_body(a, b, node);
        assert(open_items(a).push(DocItem::Body(node)) =~= open_items(a) + seq![DocItem::Body(node)]);
        assert(b.last() == b[b.len() - 1]);
        assert(a.last() == a[a.len() - 1]);
    } else {
        assert(open_items(a) + Seq::<DocItem>::empty() =~= open_items(a));
    }
}

/// Items added after the open blocks extend the items read so far.
proof fn lemma_items_extend(
    top: Seq<Block>,
    before: Seq<BlockBuilder>,
    after: Seq<BlockBuilder>,
    start: Seq<DocItem>,
    done: Seq<DocItem>,
    x: Seq<DocItem>,
)
    requires
        blocks_items(top) + open_items(before) == start + done,
        open_items(after) == open_items(before) + x,
    ensures
        blocks_items(top) + open_items(after) == start + (done + x),
{
    assert(blocks_items(top) + open_items(after) =~= (blocks_items(top) + open_items(before)) + x);
    assert(start + (done + x) =~= (start + done) + x);
}

/// A step that reads the items `x` from `at` up to `next` extends the items read so far
/// by `x`.
proof fn lemma_items_step(
    ev: Seq<SpannedEvent>,
    at: int,
    s0: bool,
    next: int,
    s1: bool,
    x: Seq<DocItem>,
    done: Seq<DocItem>,
    start: bool,
)
    requires
        forall|rest: Seq<DocItem>| doc_read(ev, at, s0, rest) ==> #[trigger] doc_read(ev, 0, start, done + rest),
        forall|rest: Seq<DocItem>| doc_read(ev, next, s1, rest) ==> #[trigger] doc_read(ev, at, s0, x + rest),
    ensures
        forall|rest: Seq<DocItem>| doc_read(ev, next, s1, rest) ==> #[trigger] doc_read(ev, 0, start, (done + x) + rest),
{
    assert forall|rest: Seq<DocItem>| doc_read(ev, next, s1, rest) implies #[trigger] doc_read(
        ev,
        0,
        start,
        (done + x) + rest,
    ) by {
        assert(doc_read(ev, at, s0, x + rest));
        assert(doc_read(ev, 0, start, done + (x + rest)));
        assert((done + x) + rest =~= done + (x + rest));
    }
}

/// The state of the structural parser.
pub struct ParseState {
    pub file_id: usize,
    /// The blocks being built; the innermost is last.
    pub block_stack: Vec<BlockBuilder>,
    /// The finished top-level blocks.
    pub top_blocks: Vec<Block>,
    pub errors: Vec<ParseError>,
}

impl ParseState {
    pub fn new(file_id: usize) -> (s: ParseState)
        ensures
            s.file_id == file_id,
            s.block_stack@.len() == 0,
            s.top_blocks@.len() == 0,
            s.errors@.len() == 0,
    {
        ParseState { file_id, block_stack: Vec::new(), top_blocks: Vec::new(), errors: Vec::new() }
    }

    /// Closes the open blocks whose level is `new_level` or deeper, innermost first: each
    /// becomes the last child of the block that encloses it, or a top-level block. The
    /// blocks that stay open are the outer ones, all shallower than `new_level`.
    pub fn close_blocks_to_level(&mut self, new_level: u8, span_end: usize)
        requires
            levels_rising(old(self).block_stack@),
            builders_ok(old(self).block_stack@),
            all_nested(old(self).top_blocks@),
        ensures
            levels_rising(final(self).block_stack@),
            builders_ok(final(self).block_stack@),
            all_nested(final(self).top_blocks@),
            final(self).block_stack@.len() <= old(self).block_stack@.len(),
            forall|a: int|
                0 <= a < final(self).block_stack@.len() ==> #[trigger] final(self).block_stack@[a].level
                    == old(self).block_stack@[a].level && final(self).block_stack@[a].level < new_level,
            forall|a: int|
                final(self).block_stack@.len() <= a < old(self).block_stack@.len()
                    ==> #[trigger] old(self).block_stack@[a].level >= new_level,
            final(self).file_id == old(self).file_id,
            final(self).errors@ == old(self).errors@,
            final(self).top_blocks@.len() >= old(self).top_blocks@.len(),
            blocks_items(final(self).top_blocks@) + open_items(final(self).block_stack@) == blocks_items(
                old(self).top_blocks@,
            ) + open_items(old(self).block_stack@),
    {
        let ghost orig = self.block_stack@;
        while self.block_stack.len() > 0 && self.block_stack[self.block_stack.len() - 1].level >= new_level
            invariant
                blocks_items(self.top_blocks@) + open_items(self.block_stack@) == blocks_items(old(self).top_blocks@)
                    + open_items(old(self).block_stack@),
                levels_rising(self.block_stack@),
                levels_rising(orig),
                self.block_stack@.len() <= orig.len(),
                forall|a: int|
                    0 <= a < self.block_stack@.len() - 1 ==> #[trigger] self.block_stack@[a].level
                        == orig[a].level,
                self.block_stack@.len() > 0 ==> self.block_stack@.last().level == orig[self.block_stack@.len() - 1].level,
                forall|a: int|
                    self.block_stack@.len() <= a < orig.len() ==> #[trigger] orig[a].level >= new_level,
                self.file_id == old(self).file_id,
                self.errors@ == old(self).errors@,
                self.top_blocks@.len() >= old(self).top_blocks@.len(),
                builders_ok(self.block_stack@),
                all_nested(self.top_blocks@),
            decreases self.block_stack@.len(),
        {
            let ghost before = self.block_stack@;
            let ghost top_before = self.top_blocks@;
            let builder = self.block_stack.pop().unwrap();
            assert(builder_ok(before[before.len() - 1]));
            let block = builder.into_block(span_end);
            assert(block_nested(block));
            let n = self.block_stack.len();
            if n > 0 {
                let mut parent = self.block_stack.pop().unwrap();
                assert(builder_ok(before[n - 1]));
                assert(parent.level < block.level);
                proof {
                    lemma_blocks_under_push(parent.children@, parent.level, block);
                }
                parent.children.push(block);
                self.block_stack.push(parent);
                assert(self.block_stack@ =~= before.drop_last().update(n - 1, self.block_stack@[n - 1]));
                proof {
                    assert(self.block_stack@ =~= before.drop_last().drop_last().push(parent));
                    lemma_close_into_parent(before, parent, block);
                }
                assert forall|a: int| 0 <= a < self.block_stack@.len() implies #[trigger] builder_ok(self.block_stack@[a]) by {
                    if a < n - 1 {
                        assert(self.block_stack@[a] == before[a]);
                    }
                }
            } else {
                proof {
                    lemma_close_to_top(top_before, before, block);
                }
                self.top_blocks.push(block);
                assert forall|a: int| 0 <= a < self.top_blocks@.len() implies #[trigger] block_nested(self.top_blocks@[a]) by {
                    if a < top_before.len() {
                        assert(self.top_blocks@[a] == top_before[a]);
                    }
                }
            }
            assert forall|a: int| 0 <= a < self.block_stack@.len() implies #[trigger] self.block_stack@[a].level == before[a].level by {
            }
        }
        proof {
            let m = self.block_stack@.len();
            if m > 0 {
                assert(self.block_stack@[m - 1].level < new_level);
            }
        }
    }

    /// Closes every open block, innermost first, with its span ending at `end`, and gives
    /// the top-level blocks, or the errors of the instructions that did not parse.
    pub fn finalize(self, end: usize) -> (r: Result<Vec<Block>, Vec<ParseError>>)
        requires
            levels_rising(self.block_stack@),
            builders_ok(self.block_stack@),
            all_nested(self.top_blocks@),
        ensures
            r is Err <==> self.errors@.len() > 0,
            r matches Err(es) ==> es@ == self.errors@,
            r matches Ok(bs) ==> all_nested(bs@),
            r matches Ok(bs) ==> blocks_items(bs@) == blocks_items(self.top_blocks@) + open_items(self.block_stack@),
    {
        let mut s = self;
        while s.block_stack.len() > 0
            invariant
                blocks_items(s.top_blocks@) + open_items(s.block_stack@) == blocks_items(self.top_blocks@) + open_items(
                    self.block_stack@,
                ),
                s.errors@ == self.errors@,
                levels_rising(s.block_stack@),
                builders_ok(s.block_stack@),
                all_nested(s.top_blocks@),
            decreases s.block_stack@.len(),
        {
            let ghost before = s.block_stack@;
            let ghost top_before = s.top_blocks@;
            let builder = s.block_stack.pop().unwrap();
            assert(builder_ok(before[before.len() - 1]));
            let block = builder.into_block(end);
            let n = s.block_stack.len();
            if n > 0 {
                let mut parent = s.block_stack.pop().unwrap();
                assert(builder_ok(before[n - 1]));
                assert(parent.level < block.level);
                proof {
                    lemma_blocks_under_push(parent.children@, parent.level, block);
                }
                parent.children.push(block);
                s.block_stack.push(parent);
                assert(s.block_stack@ =~= before.drop_last().update(n - 1, s.block_stack@[n - 1]));
                proof {
                    assert(s.block_stack@ =~= before.drop_last().drop_last().push(parent));
                    lemma_close_into_parent(before, parent, block);
                }
                assert forall|a: int| 0 <= a < s.block_stack@.len() implies #[trigger] builder_ok(s.block_stack@[a]) by {
                    if a < n - 1 {
                        assert(s.block_stack@[a] == before[a]);
                    }
                }
                assert forall|a: int, b: int| 0 <= a < b < s.block_stack@.len() implies s.block_stack@[a].level
                    < s.block_stack@[b].level by {
                    assert(s.block_stack@[a].level == before[a].level);
                    assert(s.block_stack@[b].level == before[b].level);
                }
            } else {
                proof {
                    lemma_close_to_top(top_before, before, block);
                }
                s.top_blocks.push(block);
                assert forall|a: int| 0 <= a < s.top_blocks@.len() implies #[trigger] block_nested(s.top_blocks@[a]) by {
                    if a < top_before.len() {
                        assert(s.top_blocks@[a] == top_before[a]);
                    }
                }
            }
        }
        proof {
            assert(open_items(s.block_stack@) == Seq::<DocItem>::empty());
            assert(blocks_items(s.top_blocks@) + open_items(s.block_stack@) =~= blocks_items(s.top_blocks@));
        }
        if s.errors.len() == 0 {
            Ok(s.top_blocks)
        } else {
            Err(s.errors)
        }
    }

    /// Adds a body node to the innermost open block (content before any heading is dropped).
    fn push_body(&mut self, node: DocumentNode)
        ensures
            final(self).block_stack@.len() == old(self).block_stack@.len(),
            forall|a: int|
                0 <= a < final(self).block_stack@.len() ==> #[trigger] final(self).block_stack@[a].level
                    == old(self).block_stack@[a].level,
            final(self).file_id == old(self).file_id,
            final(self).errors@ == old(self).errors@,
            final(self).top_blocks@ == old(self).top_blocks@,
            forall|a: int|
                0 <= a < final(self).block_stack@.len() ==> (#[trigger] final(self).block_stack@[a]).name
                    == old(self).block_stack@[a].name && final(self).block_stack@[a].children == old(
                    self,
                ).block_stack@[a].children && final(self).block_stack@[a].chain_groups == old(
                    self,
                ).block_stack@[a].chain_groups,
            builders_ok(old(self).block_stack@) ==> builders_ok(final(self).block_stack@),
            old(self).block_stack@.len() == 0 ==> final(self).block_stack@ == old(self).block_stack@,
            forall|a: int|
                0 <= a < old(self).block_stack@.len() - 1 ==> #[trigger] final(self).block_stack@[a] == old(
                    self,
                ).block_stack@[a],
            old(self).block_stack@.len() > 0 ==> final(self).block_stack@.last().body_nodes@ == old(
                self,
            ).block_stack@.last().body_nodes@.push(node),
    {
        let n = self.block_stack.len();
        if n > 0 {
            let mut b = self.block_stack.pop().unwrap();
            b.body_nodes.push(node);
            self.block_stack.push(b);
            assert forall|a: int| 0 <= a < n - 1 implies #[trigger] self.block_stack@[a] == old(self).block_stack@[a] by {}
            assert forall|a: int| 0 <= a < self.block_stack@.len() implies (#[trigger] self.block_stack@[a]).name
                == old(self).block_stack@[a].name && self.block_stack@[a].children == old(self).block_stack@[a].children
                && self.block_stack@[a].chain_groups == old(self).block_stack@[a].chain_groups by {
                if a < n - 1 {
                    assert(self.block_stack@[a] == old(self).block_stack@[a]);
                }
            }
            assert forall|a: int| 0 <= a < self.block_stack@.len() implies #[trigger] self.block_stack@[a].level == old(self).block_stack@[a].level by {
                if a < n - 1 {
                    assert(self.block_stack@[a] == old(self).block_stack@[a]);
                }
            }
            proof {
                if builders_ok(old(self).block_stack@) {
                    assert forall|a: int| 0 <= a < self.block_stack@.len() implies #[trigger] builder_ok(self.block_stack@[a]) by {
                        assert(builder_ok(old(self).block_stack@[a]));
                        assert(self.block_stack@[a].name == old(self).block_stack@[a].name);
                        assert(self.block_stack@[a].children == old(self).block_stack@[a].children);
                        assert(self.block_stack@[a].chain_groups == old(self).block_stack@[a].chain_groups);
                        assert(self.block_stack@[a].level == old(self).block_stack@[a].level);
                    }
                }
            }
        }
    }

    /// Reads the events of a document: headings open blocks (closing those at the same or
    /// a deeper level), ordered lists become instruction chains, and paragraphs, unordered
    /// lists, code blocks, tables, block quotes and rules become body content of the
    /// innermost open block (dropped while none is open). The items of the blocks, in
    /// document order, grow by exactly the items that the events are read to have.
    pub fn process_events(&mut self, source: &str, events: &Vec<SpannedEvent>) -> (r: Result<(), Vec<ParseError>>)
        requires
            levels_rising(old(self).block_stack@),
            builders_ok(old(self).block_stack@),
            all_nested(old(self).top_blocks@),
            old(self).block_stack@.len() > 0 ==> old(self).block_stack@.last().children@.len() == 0,
        ensures
            r is Ok,
            levels_rising(final(self).block_stack@),
            builders_ok(final(self).block_stack@),
            all_nested(final(self).top_blocks@),
            final(self).file_id == old(self).file_id,
            final(self).errors@.len() >= old(self).errors@.len(),
            errors_from(old(self).errors@, old(self).file_id) ==> errors_from(final(self).errors@, final(self).file_id),
            exists|items: Seq<DocItem>|
                doc_read(events@, 0, old(self).block_stack@.len() > 0, items) && blocks_items(final(self).top_blocks@)
                    + open_items(final(self).block_stack@) == blocks_items(old(self).top_blocks@) + open_items(
                    old(self).block_stack@,
                ) + items,
    {
        let ghost ev = events@;
        let ghost start_items = blocks_items(self.top_blocks@) + open_items(self.block_stack@);
        let ghost started0 = self.block_stack@.len() > 0;
        let ghost mut started = started0;
        let ghost mut done: Seq<DocItem> = Seq::empty();
        let mut i: usize = 0;
        assert forall|rest: Seq<DocItem>| doc_read(ev, 0, started, rest) implies #[trigger] doc_read(
            ev,
            0,
            started0,
            done + rest,
        ) by {
            assert(done + rest =~= rest);
        }
        while i < events.len()
            invariant
                ev == events@,
                i <= events@.len(),
                levels_rising(self.block_stack@),
                builders_ok(self.block_stack@),
                all_nested(self.top_blocks@),
                self.file_id == old(self).file_id,
                self.errors@.len() >= old(self).errors@.len(),
                errors_from(old(self).errors@, old(self).file_id) ==> errors_from(self.errors@, self.file_id),
                started == (self.block_stack@.len() > 0),
                self.block_stack@.len() > 0 ==> self.block_stack@.last().children@.len() == 0,
                start_items == blocks_items(old(self).top_blocks@) + open_items(old(self).block_stack@),
                started0 == (old(self).block_stack@.len() > 0),
                blocks_items(self.top_blocks@) + open_items(self.block_stack@) == start_items + done,
                forall|rest: Seq<DocItem>| doc_read(ev, i as int, started, rest) ==> #[trigger] doc_read(
                    ev,
                    0,
                    started0,
                    done + rest,
                ),
            decreases events@.len() - i,
        {
            let ghost at = i as int;
            let ghost stack_before = self.block_stack@;
            let start = events[i].1.start;
            match &events[i].0 {
                MdEvent::Start(MdTag::Heading(level)) => {
                    let level = *level;
                    i += 1;
                    let raw = collect_heading_text(events, &mut i);
                    let name = normalize_block_name(raw.as_str());
                    proof {
                        law_normalize_idempotent(raw@);
                    }
                    self.close_blocks_to_level(level, start);
                    let ghost before = self.block_stack@;
                    let ghost closed_items = blocks_items(self.top_blocks@) + open_items(self.block_stack@);
                    self.block_stack.push(
                        BlockBuilder {
                            name,
                            level,
                            chain_groups: Vec::new(),
                            children: Vec::new(),
                            body_nodes: Vec::new(),
                            span_start: start,
                        },
                    );
                    assert forall|a: int, b: int| 0 <= a < b < self.block_stack@.len() implies self.block_stack@[a].level < self.block_stack@[b].level by {
                        if b < before.len() {
                            assert(self.block_stack@[a] == before[a]);
                            assert(self.block_stack@[b] == before[b]);
                        } else {
                            assert(self.block_stack@[a] == before[a]);
                        }
                    }
                    assert forall|a: int| 0 <= a < self.block_stack@.len() implies #[trigger] builder_ok(self.block_stack@[a]) by {
                        if a < before.len() {
                            assert(self.block_stack@[a] == before[a]);
                        }
                    }
                    proof {
                        let x: Seq<DocItem> = seq![DocItem::Head(level, name@)];
                        assert(self.block_stack@.drop_last() =~= before);
                        assert(blocks_items(Seq::<Block>::empty()) == Seq::<DocItem>::empty());
                        assert(body_items(Seq::<DocumentNode>::empty()) =~= Seq::<DocItem>::empty());
                        assert(open_items(self.block_stack@) =~= open_items(before) + x);
                        assert(blocks_items(self.top_blocks@) + open_items(self.block_stack@) =~= closed_items + x);
                        assert forall|rest: Seq<DocItem>| doc_read(ev, i as int, true, rest) implies #[trigger] doc_read(
                            ev,
                            at,
                            started,
                            x + rest,
                        ) by {
                            assert((x + rest).drop_first() =~= rest);
                            assert((x + rest)[0] == DocItem::Head(level, name@));
                        }
                        lemma_items_step(ev, at, started, i as int, true, x, done, started0);
                        done = done + x;
                        started = true;
                        assert(blocks_items(self.top_blocks@) + open_items(self.block_stack@) =~= start_items + done);
                    }
                },
                MdEvent::Start(MdTag::List(Some(_))) => {
                    i += 1;
                    self.process_ordered_list(source, events, &mut i);
                    proof {
                        assert forall|k: int| 0 <= k < self.block_stack@.len() implies (#[trigger] self.block_stack@[k]).level
                            == stack_before[k].level && self.block_stack@[k].name == stack_before[k].name
                            && self.block_stack@[k].children == stack_before[k].children
                            && self.block_stack@[k].body_nodes@ == stack_before[k].body_nodes@ by {}
                        lemma_open_items_same(self.block_stack@, stack_before);
                        lemma_items_step(ev, at, started, i as int, started, Seq::<DocItem>::empty(), done, started0);
                        assert(done + Seq::<DocItem>::empty() =~= done);
                        if self.block_stack@.len() > 0 {
                            assert(self.block_stack@.last() == self.block_stack@[self.block_stack@.len() - 1]);
                            assert(stack_before.last() == stack_before[stack_before.len() - 1]);
                        }
                    }
                },
                MdEvent::Start(MdTag::List(None)) => {
                    i += 1;
                    let doc = collect_unordered_list_as_document(events, &mut i);
                    let ghost node = doc;
                    proof {
                        let its = doc->UnorderedList_items@;
                        let x: Seq<DocItem> = if started {
                            seq![DocItem::Body(node)]
                        } else {
                            Seq::empty()
                        };
                        assert forall|rest: Seq<DocItem>| doc_read(ev, i as int, started, rest) implies #[trigger] doc_read(
                            ev,
                            at,
                            started,
                            x + rest,
                        ) by {
                            if started {
                                assert((x + rest)[0] == DocItem::Body(node));
                                assert((x + rest).drop_first() =~= rest);
                            } else {
                                assert(x + rest =~= rest);
                            }
                            assert(list_read(ev, at + 1, its) matches Some(k) && at < k <= ev.len() && body_ok(
                                started,
                                x + rest,
                                |n: DocumentNode| n matches DocumentNode::UnorderedList { items: y } && y@ == its,
                            ) && doc_read(ev, k, started, after_body(started, x + rest)));
                        }
                        lemma_items_step(ev, at, started, i as int, started, x, done, started0);
                    }
                    self.push_body(doc);
                    proof {
                        let x: Seq<DocItem> = if started {
                            seq![DocItem::Body(node)]
                        } else {
                            Seq::<DocItem>::empty()
                        };
                        lemma_body_pushed(stack_before, self.block_stack@, node, started);
                        lemma_items_extend(self.top_blocks@, stack_before, self.block_stack@, start_items, done, x);
                        done = done + x;
                    }
                },
                MdEvent::Start(MdTag::Paragraph) => {
                    i += 1;
                    let inlines = collect_inlines(events, &mut i, MdTagEnd::Paragraph);
                    let node = DocumentNode::Paragraph(inlines);
                    proof {
                        let x: Seq<DocItem> = if started {
                            seq![DocItem::Body(node)]
                        } else {
                            Seq::empty()
                        };
                        assert forall|rest: Seq<DocItem>| doc_read(ev, i as int, started, rest) implies #[trigger] doc_read(
                            ev,
                            at,
                            started,
                            x + rest,
                        ) by {
                            if started {
                                assert((x + rest)[0] == DocItem::Body(node));
                                assert((x + rest).drop_first() =~= rest);
                            } else {
                                assert(x + rest =~= rest);
                            }
                            assert(inlines_read(ev, at + 1, MdTagEnd::Paragraph, inlines@) matches Some(k) && at < k
                                <= ev.len() && body_ok(
                                started,
                                x + rest,
                                |n: DocumentNode| n matches DocumentNode::Paragraph(y) && y@ == inlines@,
                            ) && doc_read(ev, k, started, after_body(started, x + rest)));
                        }
                        lemma_items_step(ev, at, started, i as int, started, x, done, started0);
                    }
                    self.push_body(node);
                    proof {
                        let x: Seq<DocItem> = if started {
                            seq![DocItem::Body(node)]
                        } else {
                            Seq::<DocItem>::empty()
                        };
                        lemma_body_pushed(stack_before, self.block_stack@, node, started);
                        lemma_items_extend(self.top_blocks@, stack_before, self.block_stack@, start_items, done, x);
                        done = done + x;
                    }
                },
                MdEvent::Start(MdTag::CodeBlock(info)) => {
                    let language = match info {
                        Some(l) => if l.as_str().is_empty() {
                            None
                        } else {
                            Some(l.clone())
                        },
                        None => None,
                    };
                    i += 1;
                    let content = collect_text_until(events, &mut i, MdTagEnd::CodeBlock);
                    let node = DocumentNode::CodeBlock { language, content };
                    proof {
                        let x: Seq<DocItem> = if started {
                            seq![DocItem::Body(node)]
                        } else {
                            Seq::empty()
                        };
                        assert forall|rest: Seq<DocItem>| doc_read(ev, i as int, started, rest) implies #[trigger] doc_read(
                            ev,
                            at,
                            started,
                            x + rest,
                        ) by {
                            if started {
                                assert((x + rest)[0] == DocItem::Body(node));
                                assert((x + rest).drop_first() =~= rest);
                            } else {
                                assert(x + rest =~= rest);
                            }
                        }
                        lemma_items_step(ev, at, started, i as int, started, x, done, started0);
                    }
                    self.push_body(node);
                    proof {
                        let x: Seq<DocItem> = if started {
                            seq![DocItem::Body(node)]
                        } else {
                            Seq::<DocItem>::empty()
                        };
                        lemma_body_pushed(stack_before, self.block_stack@, node, started);
                        lemma_items_extend(self.top_blocks@, stack_before, self.block_stack@, start_items, done, x);
                        done = done + x;
                    }
                },
                MdEvent::Start(MdTag::Table(alignments)) => {
                    let mut aligns: Vec<ColumnAlignment> = Vec::new();
                    let mut k: usize = 0;
                    while k < alignments.len()
                        invariant
                            k <= alignments.len(),
                            aligns@ == alignments@.take(k as int),
                        decreases alignments.len() - k,
                    {
                        assert(alignments@.take(k + 1) =~= alignments@.take(k as int).push(alignments@[k as int]));
                        aligns.push(alignments[k]);
                        k += 1;
                    }
                    assert(alignments@.take(alignments.len() as int) =~= alignments@);
                    i += 1;
                    let (headers, rows) = collect_table(events, &mut i);
                    let node = DocumentNode::Table { alignments: aligns, headers, rows };
                    proof {
                        let cells = choose|cells: Seq<Vec<InlineNode>>| #[trigger] table_pos(ev, at + 1, cells) == Some(i as int);
                        let x: Seq<DocItem> = if started {
                            seq![DocItem::Body(node)]
                        } else {
                            Seq::empty()
                        };
                        assert forall|rest: Seq<DocItem>| doc_read(ev, i as int, started, rest) implies #[trigger] doc_read(
                            ev,
                            at,
                            started,
                            x + rest,
                        ) by {
                            if started {
                                assert((x + rest)[0] == DocItem::Body(node));
                                assert((x + rest).drop_first() =~= rest);
                            } else {
                                assert(x + rest =~= rest);
                            }
                            assert(table_pos(ev, at + 1, cells) matches Some(k) && at < k <= ev.len() && body_ok(
                                started,
                                x + rest,
                                |n: DocumentNode| n matches DocumentNode::Table { alignments: a2, .. } && a2@
                                    == alignments@,
                            ) && doc_read(ev, k, started, after_body(started, x + rest)));
                        }
                        lemma_items_step(ev, at, started, i as int, started, x, done, started0);
                    }
                    self.push_body(node);
                    proof {
                        let x: Seq<DocItem> = if started {
                            seq![DocItem::Body(node)]
                        } else {
                            Seq::<DocItem>::empty()
                        };
                        lemma_body_pushed(stack_before, self.block_stack@, node, started);
                        lemma_items_extend(self.top_blocks@, stack_before, self.block_stack@, start_items, done, x);
                        done = done + x;
                    }
                },
                MdEvent::Start(MdTag::BlockQuote) => {
                    i += 1;
                    let inner = collect_blockquote(events, &mut i);
                    let ghost inner_nodes = inner.nodes@;
                    let node = DocumentNode::Blockquote(inner);
                    proof {
                        let x: Seq<DocItem> = if started {
                            seq![DocItem::Body(node)]
                        } else {
                            Seq::empty()
                        };
                        assert forall|rest: Seq<DocItem>| doc_read(ev, i as int, started, rest) implies #[trigger] doc_read(
                            ev,
                            at,
                            started,
                            x + rest,
                        ) by {
                            if started {
                                assert((x + rest)[0] == DocItem::Body(node));
                                assert((x + rest).drop_first() =~= rest);
                            } else {
                                assert(x + rest =~= rest);
                            }
                            assert(paragraphs_read(ev, at + 1, MdTagEnd::BlockQuote, false, inner_nodes) matches Some(k)
                                && at < k <= ev.len() && body_ok(
                                started,
                                x + rest,
                                |n: DocumentNode| n matches DocumentNode::Blockquote(d) && d.nodes@ == inner_nodes,
                            ) && doc_read(ev, k, started, after_body(started, x + rest)));
                        }
                        lemma_items_step(ev, at, started, i as int, started, x, done, started0);
                    }
                    self.push_body(node);
                    proof {
                        let x: Seq<DocItem> = if started {
                            seq![DocItem::Body(node)]
                        } else {
                            Seq::<DocItem>::empty()
                        };
                        lemma_body_pushed(stack_before, self.block_stack@, node, started);
                        lemma_items_extend(self.top_blocks@, stack_before, self.block_stack@, start_items, done, x);
                        done = done + x;
                    }
                },
                MdEvent::Rule => {
                    let node = DocumentNode::HorizontalRule;
                    self.push_body(node);
                    i += 1;
                    proof {
                        let x: Seq<DocItem> = if started {
                            seq![DocItem::Body(node)]
                        } else {
                            Seq::empty()
                        };
                        assert forall|rest: Seq<DocItem>| doc_read(ev, i as int, started, rest) implies #[trigger] doc_read(
                            ev,
                            at,
                            started,
                            x + rest,
                        ) by {
                            if started {
                                assert((x + rest)[0] == DocItem::Body(node));
                                assert((x + rest).drop_first() =~= rest);
                            } else {
                                assert(x + rest =~= rest);
                            }
                        }
                        lemma_items_step(ev, at, started, i as int, started, x, done, started0);
                        lemma_body_pushed(stack_before, self.block_stack@, node, started);
                        lemma_items_extend(self.top_blocks@, stack_before, self.block_stack@, start_items, done, x);
                        done = done + x;
                    }
                },
                _ => {
                    i += 1;
                    proof {
                        assert forall|rest: Seq<DocItem>| doc_read(ev, i as int, started, rest) implies #[trigger] doc_read(
                            ev,
                            at,
                            started,
                            Seq::<DocItem>::empty() + rest,
                        ) by {
                            assert(Seq::<DocItem>::empty() + rest =~= rest);
                        }
                        lemma_items_step(ev, at, started, i as int, started, Seq::<DocItem>::empty(), done, started0);
                        assert(done + Seq::<DocItem>::empty() =~= done);
                    }
                },
            }
        }
        proof {
            assert(doc_read(ev, i as int, started, Seq::<DocItem>::empty()));
            assert(done + Seq::<DocItem>::empty() =~= done);
            assert(doc_read(ev, 0, started0, done));
        }
        Ok(())
    }

    /// Where an ordered list whose events begin at `i` ends: after its end tag, each item
    /// taken whole (nested items counted), or at the end of the events.
    pub open spec fn olist_end(events: Seq<SpannedEvent>, i: int) -> int
        decreases events.len() - i,
    {
        if i < 0 || i >= events.len() {
            events.len() as int
        } else {
            match events[i].0 {
                MdEvent::End(MdTagEnd::List(true)) => i + 1,
                MdEvent::Start(MdTag::Item) => {
                    let j = item_close(events, i + 1, 1);
                    let next = if j < events.len() {
                        j + 1
                    } else {
                        j
                    };
                    if i < next <= events.len() {
                        Self::olist_end(events, next)
                    } else {
                        events.len() as int
                    }
                },
                _ => Self::olist_end(events, i + 1),
            }
        }
    }

    /// Where the items of an ordered list whose events begin at `i` start: the item start
    /// tags at the list's own level, up to its end tag.
    pub open spec fn olist_items(events: Seq<SpannedEvent>, i: int) -> Seq<int>
        decreases events.len() - i,
    {
        if i < 0 || i >= events.len() {
            seq![]
        } else {
            match events[i].0 {
                MdEvent::End(MdTagEnd::List(true)) => seq![],
                MdEvent::Start(MdTag::Item) => {
                    let j = item_close(events, i + 1, 1);
                    let next = if j < events.len() {
                        j + 1
                    } else {
                        j
                    };
                    if i < next <= events.len() {
                        seq![i].add(Self::olist_items(events, next))
                    } else {
                        seq![i]
                    }
                },
                _ => Self::olist_items(events, i + 1),
            }
        }
    }

    /// Reads an ordered list: each item's number (from the source text) is its fence
    /// index, and its events parse into an instruction. Consecutive items with the same
    /// index join one fence group of the innermost open block; an item that does not
    /// parse adds its error instead.
    pub fn process_ordered_list(&mut self, source: &str, events: &Vec<SpannedEvent>, i: &mut usize)
        requires
            *old(i) <= events@.len(),
        ensures
            *old(i) <= *final(i) <= events@.len(),
            *final(i) == Self::olist_end(events@, *old(i) as int),
            final(self).block_stack@.len() == old(self).block_stack@.len(),
            final(self).block_stack@.len() > 0 ==> final(self).block_stack@.drop_last() == old(
                self,
            ).block_stack@.drop_last(),
            forall|a: int|
                0 <= a < final(self).block_stack@.len() ==> #[trigger] final(self).block_stack@[a].level
                    == old(self).block_stack@[a].level,
            final(self).file_id == old(self).file_id,
            final(self).errors@.len() >= old(self).errors@.len(),
            errors_from(old(self).errors@, old(self).file_id) ==> errors_from(final(self).errors@, final(self).file_id),
            final(self).top_blocks@ == old(self).top_blocks@,
            forall|a: int|
                0 <= a < final(self).block_stack@.len() ==> (#[trigger] final(self).block_stack@[a]).name
                    == old(self).block_stack@[a].name && final(self).block_stack@[a].children == old(
                    self,
                ).block_stack@[a].children && final(self).block_stack@[a].body_nodes == old(
                    self,
                ).block_stack@[a].body_nodes,
            builders_ok(old(self).block_stack@) ==> builders_ok(final(self).block_stack@),
            old(self).block_stack@.len() == 0 ==> final(self).errors@ == old(self).errors@,
            old(self).block_stack@.len() > 0 ==> exists|outcomes: Seq<(u64, Result<Instruction, ParseError>)>|
                {
                    let starts = Self::olist_items(events@, *old(i) as int);
                    let n = old(self).block_stack@.len() - 1;
                    &&& outcomes.len() == starts.len()
                    &&& forall|k: int|
                        0 <= k < outcomes.len() ==> (#[trigger] outcomes[k]).0 == item_fence_index(
                            source@,
                            events@[starts[k]].1.start as int,
                        )
                    &&& groups_view(final(self).block_stack@[n].chain_groups@) == grouped(
                        groups_view(old(self).block_stack@[n].chain_groups@),
                        outcomes,
                    )
                    &&& final(self).errors@ == old(self).errors@ + #[trigger] failures(outcomes)
                },
    {
        let mut items: Vec<(u64, Vec<SpannedEvent>)> = Vec::new();
        let ghost i0 = *i;
        let ghost mut starts: Seq<int> = Seq::empty();
        while *i < events.len()
            invariant_except_break
                Self::olist_end(events@, *i as int) == Self::olist_end(events@, i0 as int),
                starts + Self::olist_items(events@, *i as int) == Self::olist_items(events@, i0 as int),
            invariant
                i0 == *old(i),
                i0 <= *i <= events@.len(),
                items@.len() == starts.len(),
                forall|k: int|
                    0 <= k < starts.len() ==> 0 <= #[trigger] starts[k] < events@.len() && items@[k].0
                        == item_fence_index(source@, events@[starts[k]].1.start as int),
            ensures
                *i == Self::olist_end(events@, i0 as int),
                starts == Self::olist_items(events@, i0 as int),
            decreases events@.len() - *i,
        {
            let ghost at = *i as int;
            match &events[*i].0 {
                MdEvent::End(MdTagEnd::List(true)) => {
                    *i += 1;
                    proof {
                        assert(starts + Seq::<int>::empty() =~= starts);
                    }
                    break;
                },
                MdEvent::Start(MdTag::Item) => {
                    let fence_index = extract_item_number(source, events[*i].1.start);
                    proof {
                        let byte = events@[at].1.start as int;
                        if exists|k: int|
                            0 <= k <= source@.len() && utf8_len_seq(#[trigger] source@.take(k)) == byte {
                            let k = choose|k: int|
                                0 <= k <= source@.len() && utf8_len_seq(#[trigger] source@.take(k)) == byte;
                            assert(fence_index == item_number_spec(source@, k));
                        }
                        assert(fence_index == item_fence_index(source@, byte));
                    }
                    *i += 1;
                    let item_events = collect_item_events(events, i);
                    items.push((fence_index, item_events));
                    proof {
                        assert(seq![at].add(Self::olist_items(events@, *i as int)) == Self::olist_items(events@, at));
                        assert(starts + Self::olist_items(events@, at) =~= starts.push(at) + Self::olist_items(
                            events@,
                            *i as int,
                        ));
                        starts = starts.push(at);
                    }
                },
                _ => {
                    *i += 1;
                },
            }
        }
        let n = self.block_stack.len();
        if n == 0 {
            return;
        }
        let mut builder = self.block_stack.pop().unwrap();
        proof {
            if builders_ok(old(self).block_stack@) {
                assert(builder_ok(old(self).block_stack@[n - 1]));
            }
        }
        let ghost groups0 = groups_view(old(self).block_stack@[n - 1].chain_groups@);
        let ghost mut outs: Seq<(u64, Result<Instruction, ParseError>)> = Seq::empty();
        let mut k: usize = 0;
        while k < items.len()
            invariant
                k <= items.len(),
                outs.len() == k,
                forall|q: int| 0 <= q < k ==> (#[trigger] outs[q]).0 == items@[q].0,
                groups_view(builder.chain_groups@) == grouped(groups0, outs),
                self.errors@ == old(self).errors@ + failures(outs),
                builder.level == old(self).block_stack@[n - 1].level,
                builder.name == old(self).block_stack@[n - 1].name,
                builder.children == old(self).block_stack@[n - 1].children,
                builder.body_nodes == old(self).block_stack@[n - 1].body_nodes,
                builders_ok(old(self).block_stack@) ==> chain_ok(builder.chain_groups@),
                self.top_blocks@ == old(self).top_blocks@,
                self.block_stack@ == old(self).block_stack@.drop_last(),
                self.file_id == old(self).file_id,
                self.errors@.len() >= old(self).errors@.len(),
                errors_from(old(self).errors@, old(self).file_id) ==> errors_from(self.errors@, self.file_id),
            decreases items.len() - k,
        {
            let fence_index = items[k].0;
            let item_events = &items[k].1;
            let span = if item_events.len() > 0 {
                copy_span(&item_events[0].1)
            } else {
                Range { start: 0, end: 0 }
            };
            let outcome = parse_instruction(item_events, span, self.file_id);
            let ghost this = (fence_index, outcome);
            let ghost before_view = groups_view(builder.chain_groups@);
            let ghost errors_before = self.errors@;
            match outcome {
                Ok(instruction) => {
                    let g = builder.chain_groups.len();
                    let ghost before = builder.chain_groups@;
                    if g > 0 && builder.chain_groups[g - 1].index == fence_index {
                        let mut group = builder.chain_groups.pop().unwrap();
                        group.instructions.push(instruction);
                        builder.chain_groups.push(group);
                        proof {
                            assert forall|j: int| 0 <= j < g - 1 implies builder.chain_groups@[j] == before[j] by {}
                            assert(builder.chain_groups@[g - 1].index == before[g - 1].index);
                            assert(groups_view(builder.chain_groups@) =~= add_grouped(before_view, fence_index, instruction));
                        }
                    } else {
                        let mut instructions = Vec::new();
                        instructions.push(instruction);
                        builder.chain_groups.push(FenceGroup { index: fence_index, instructions });
                        proof {
                            assert forall|j: int| 0 <= j < g implies builder.chain_groups@[j] == before[j] by {}
                            assert(groups_view(builder.chain_groups@) =~= add_grouped(before_view, fence_index, instruction));
                        }
                    }
                },
                Err(err) => {
                    self.errors.push(err);
                },
            }
            proof {
                let outs1 = outs.push(this);
                assert(outs1.drop_last() =~= outs);
                assert(outs1.last() == this);
                assert(groups_view(builder.chain_groups@) == grouped(groups0, outs1));
                assert(self.errors@ =~= old(self).errors@ + failures(outs1));
                outs = outs1;
            }
            k += 1;
        }
        self.block_stack.push(builder);
        assert forall|a: int| 0 <= a < self.block_stack@.len() implies #[trigger] self.block_stack@[a].level == old(self).block_stack@[a].level by {
            if a < n - 1 {
                assert(self.block_stack@[a] == old(self).block_stack@[a]);
            }
        }
        assert forall|a: int| 0 <= a < self.block_stack@.len() implies (#[trigger] self.block_stack@[a]).name
            == old(self).block_stack@[a].name && self.block_stack@[a].children == old(self).block_stack@[a].children
            && self.block_stack@[a].body_nodes == old(self).block_stack@[a].body_nodes by {
            if a < n - 1 {
                assert(self.block_stack@[a] == old(self).block_stack@[a]);
            }
        }
        proof {
            assert(self.block_stack@.drop_last() =~= old(self).block_stack@.drop_last());
            if builders_ok(old(self).block_stack@) {
                assert forall|a: int| 0 <= a < self.block_stack@.len() implies #[trigger] builder_ok(self.block_stack@[a]) by {
                    assert(builder_ok(old(self).block_stack@[a]));
                    assert(self.block_stack@[a].name == old(self).block_stack@[a].name);
                    assert(self.block_stack@[a].children == old(self).block_stack@[a].children);
                    assert(self.block_stack@[a].level == old(self).block_stack@[a].level);
                    if a < n - 1 {
                        assert(self.block_stack@[a] == old(self).block_stack@[a]);
                    }
                }
            }
            assert forall|q: int| 0 <= q < outs.len() implies (#[trigger] outs[q]).0 == item_fence_index(
                source@,
                events@[starts[q]].1.start as int,
            ) by {}
            assert(self.errors@ == old(self).errors@ + failures(outs));
        }
    }
}

/// Where the list item whose events begin at `i` ends: at the end tag of an item that
/// finds `depth` items open (nested items counted, up to the largest count), or at the end.
pub open spec fn item_close(events: Seq<SpannedEvent>, i: int, depth: int) -> int
    decreases events.len() - i,
{
    if i < 0 || i >= events.len() {
        events.len() as int
    } else {
        match events[i].0 {
            MdEvent::End(MdTagEnd::Item) => if depth == 1 {
                i
            } else {
                item_close(events, i + 1, depth - 1)
            },
            MdEvent::Start(MdTag::Item) => item_close(
                events,
                i + 1,
                if depth < u64::MAX {
                    depth + 1
                } else {
                    depth
                },
            ),
            _ => item_close(events, i + 1, depth),
        }
    }
}

/// Collects the events of one list item, up to the end of the item that opened just
/// before `*i` (nested items counted), and moves `*i` past it.
pub fn collect_item_events(events: &Vec<SpannedEvent>, i: &mut usize) -> (r: Vec<SpannedEvent>)
    requires
        *old(i) <= events@.len(),
    ensures
        *old(i) <= *final(i) <= events@.len(),
        r@.len() <= *final(i) - *old(i),
        ({
            let j = item_close(events@, *old(i) as int, 1);
            &&& r@.len() == j - *old(i)
            &&& *final(i) == if j < events@.len() {
                j + 1
            } else {
                j
            }
            &&& forall|k: int|
                0 <= k < r@.len() ==> event_same((#[trigger] r@[k]).0, events@[*old(i) + k].0) && r@[k].1
                    == events@[*old(i) + k].1
        }),
{
    let ghost i0 = *i;
    let mut item_events: Vec<SpannedEvent> = Vec::new();
    let mut depth: u64 = 1;
    while *i < events.len()
        invariant_except_break
            item_events@.len() == *i - i0,
            item_close(events@, *i as int, depth as int) == item_close(events@, i0 as int, 1),
        invariant
            i0 == *old(i),
            i0 <= *i <= events@.len(),
            item_events@.len() <= *i - i0,
            depth >= 1,
            forall|k: int|
                0 <= k < item_events@.len() ==> event_same((#[trigger] item_events@[k]).0, events@[i0 + k].0)
                    && item_events@[k].1 == events@[i0 + k].1,
        ensures
            ({
                let j = item_close(events@, i0 as int, 1);
                &&& item_events@.len() == j - i0
                &&& *i == if j < events@.len() {
                    j + 1
                } else {
                    j
                }
            }),
        decreases events@.len() - *i,
    {
        match &events[*i].0 {
            MdEvent::End(MdTagEnd::Item) => {
                if depth == 1 {
                    *i += 1;
                    break;
                }
                depth -= 1;
            },
            MdEvent::Start(MdTag::Item) => {
                if depth < u64::MAX {
                    depth += 1;
                }
            },
            _ => {},
        }
        item_events.push(clone_event(&events[*i]));
        *i += 1;
    }
    item_events
}

/// Reading the events from `i` on as inline nodes up to the end tag `end` gives exactly
/// `r` (compared by content) and stops at the position returned; `None` when it gives
/// something else. Text, inline code and breaks become their nodes; strong, emphasis,
/// strikethrough, links and images nest the inline nodes up to their own end tag; other
/// end tags and other events are skipped; the end of the events ends it too.
pub open spec fn inlines_read(events: Seq<SpannedEvent>, i: int, end: MdTagEnd, r: Seq<InlineNode>) -> Option<int>
    decreases events.len() - i, 1nat,
{
    if i < 0 {
        None
    } else if i >= events.len() {
        if r.len() == 0 {
            Some(i)
        } else {
            None
        }
    } else {
        match events[i].0 {
            MdEvent::End(t) => if t == end {
                if r.len() == 0 {
                    Some(i + 1)
                } else {
                    None
                }
            } else {
                inlines_read(events, i + 1, end, r)
            },
            MdEvent::Text(s) => if r.len() > 0 && (r[0] matches InlineNode::Text(x) && x@ == s@) {
                inlines_read(events, i + 1, end, r.drop_first())
            } else {
                None
            },
            MdEvent::Code(s) => if r.len() > 0 && (r[0] matches InlineNode::CodeSpan(x) && x@ == s@) {
                inlines_read(events, i + 1, end, r.drop_first())
            } else {
                None
            },
            MdEvent::SoftBreak => if r.len() > 0 && r[0] is SoftBreak {
                inlines_read(events, i + 1, end, r.drop_first())
            } else {
                None
            },
            MdEvent::HardBreak => if r.len() > 0 && r[0] is HardBreak {
                inlines_read(events, i + 1, end, r.drop_first())
            } else {
                None
            },
            MdEvent::Start(tag) => match tag {
                MdTag::Strong => nested_read(events, i, end, r, MdTagEnd::Strong),
                MdTag::Emphasis => nested_read(events, i, end, r, MdTagEnd::Emphasis),
                MdTag::Strikethrough => nested_read(events, i, end, r, MdTagEnd::Strikethrough),
                MdTag::Link { dest, title } => nested_read(events, i, end, r, MdTagEnd::Link),
                MdTag::Image { dest, title } => nested_read(events, i, end, r, MdTagEnd::Image),
                _ => inlines_read(events, i + 1, end, r),
            },
            _ => inlines_read(events, i + 1, end, r),
        }
    }
}

/// The first node of `r` is the element that starts at `i` (closed by `inner`), with the
/// inline nodes read up to its end, and the rest of `r` is read after it.
pub open spec fn nested_read(
    events: Seq<SpannedEvent>,
    i: int,
    end: MdTagEnd,
    r: Seq<InlineNode>,
    inner: MdTagEnd,
) -> Option<int>
    decreases events.len() - i, 0nat,
{
    if r.len() == 0 || i < 0 || i >= events.len() {
        None
    } else {
        match (events[i].0, r[0]) {
            (MdEvent::Start(MdTag::Link { dest, title }), InlineNode::Link { dest: d2, title: t2, content }) => if dest@ == d2@
                && title@ == t2@ && inner == MdTagEnd::Link {
                match inlines_read(events, i + 1, inner, content@) {
                    Some(k) => if i < k <= events.len() {
                        inlines_read(events, k, end, r.drop_first())
                    } else {
                        None
                    },
                    None => None,
                }
            } else {
                None
            },
            (MdEvent::Start(MdTag::Image { dest, title }), InlineNode::Image { dest: d2, title: t2, alt }) => if dest@ == d2@
                && title@ == t2@ && inner == MdTagEnd::Image {
                match inlines_read(events, i + 1, inner, alt@) {
                    Some(k) => if i < k <= events.len() {
                        inlines_read(events, k, end, r.drop_first())
                    } else {
                        None
                    },
                    None => None,
                }
            } else {
                None
            },
            (_, InlineNode::Strong(c)) => if inner == MdTagEnd::Strong {
                match inlines_read(events, i + 1, inner, c@) {
                    Some(k) => if i < k <= events.len() {
                        inlines_read(events, k, end, r.drop_first())
                    } else {
                        None
                    },
                    None => None,
                }
            } else {
                None
            },
            (_, InlineNode::Emphasis(c)) => if inner == MdTagEnd::Emphasis {
                match inlines_read(events, i + 1, inner, c@) {
                    Some(k) => if i < k <= events.len() {
                        inlines_read(events, k, end, r.drop_first())
                    } else {
                        None
                    },
                    None => None,
                }
            } else {
                None
            },
            (_, InlineNode::Strikethrough(c)) => if inner == MdTagEnd::Strikethrough {
                match inlines_read(events, i + 1, inner, c@) {
                    Some(k) => if i < k <= events.len() {
                        inlines_read(events, k, end, r.drop_first())
                    } else {
                        None
                    },
                    None => None,
                }
            } else {
                None
            },
            _ => None,
        }
    }
}

/// A node that the event at `at` reads as on its own is read there before the rest.
proof fn lemma_read_one(ev: Seq<SpannedEvent>, at: int, end: MdTagEnd, t: InlineNode)
    requires
        0 <= at < ev.len(),
        match (ev[at].0, t) {
            (MdEvent::Text(s), InlineNode::Text(x)) => x@ == s@,
            (MdEvent::Code(s), InlineNode::CodeSpan(x)) => x@ == s@,
            (MdEvent::SoftBreak, InlineNode::SoftBreak) => true,
            (MdEvent::HardBreak, InlineNode::HardBreak) => true,
            _ => false,
        },
    ensures
        forall|rest: Seq<InlineNode>| #[trigger] inlines_read(ev, at, end, seq![t] + rest) == inlines_read(
            ev,
            at + 1,
            end,
            rest,
        ),
{
    assert forall|rest: Seq<InlineNode>| #[trigger] inlines_read(ev, at, end, seq![t] + rest) == inlines_read(
        ev,
        at + 1,
        end,
        rest,
    ) by {
        assert((seq![t] + rest).drop_first() =~= rest);
        assert((seq![t] + rest)[0] == t);
    }
}

/// An element that starts at `at` and whose content was read up to `k` is read there
/// before the rest.
proof fn lemma_read_nested(ev: Seq<SpannedEvent>, at: int, k: int, end: MdTagEnd, t: InlineNode, inner: MdTagEnd)
    requires
        0 <= at < k <= ev.len(),
        match (ev[at].0, t) {
            (MdEvent::Start(MdTag::Strong), InlineNode::Strong(c)) => inner == MdTagEnd::Strong
                && inlines_read(ev, at + 1, inner, c@) == Some(k),
            (MdEvent::Start(MdTag::Emphasis), InlineNode::Emphasis(c)) => inner == MdTagEnd::Emphasis
                && inlines_read(ev, at + 1, inner, c@) == Some(k),
            (MdEvent::Start(MdTag::Strikethrough), InlineNode::Strikethrough(c)) => inner
                == MdTagEnd::Strikethrough && inlines_read(ev, at + 1, inner, c@) == Some(k),
            (
                MdEvent::Start(MdTag::Link { dest, title }),
                InlineNode::Link { dest: d2, title: t2, content },
            ) => inner == MdTagEnd::Link && dest@ == d2@ && title@ == t2@ && inlines_read(
                ev,
                at + 1,
                inner,
                content@,
            ) == Some(k),
            (
                MdEvent::Start(MdTag::Image { dest, title }),
                InlineNode::Image { dest: d2, title: t2, alt },
            ) => inner == MdTagEnd::Image && dest@ == d2@ && title@ == t2@ && inlines_read(
                ev,
                at + 1,
                inner,
                alt@,
            ) == Some(k),
            _ => false,
        },
    ensures
        forall|rest: Seq<InlineNode>| #[trigger] inlines_read(ev, at, end, seq![t] + rest) == inlines_read(
            ev,
            k,
            end,
            rest,
        ),
{
    assert forall|rest: Seq<InlineNode>| #[trigger] inlines_read(ev, at, end, seq![t] + rest) == inlines_read(
        ev,
        k,
        end,
        rest,
    ) by {
        assert((seq![t] + rest).drop_first() =~= rest);
        assert((seq![t] + rest)[0] == t);
        assert(inlines_read(ev, at, end, seq![t] + rest) == nested_read(ev, at, end, seq![t] + rest, inner));
    }
}

/// Appending a node that is read from `at` up to `next` keeps the reading of what was
/// collected so far in step with the position.
proof fn lemma_read_push(
    ev: Seq<SpannedEvent>,
    i0: int,
    at: int,
    next: int,
    end: MdTagEnd,
    before: Seq<InlineNode>,
    t: InlineNode,
)
    requires
        forall|rest: Seq<InlineNode>| #[trigger] inlines_read(ev, i0, end, before + rest) == inlines_read(
            ev,
            at,
            end,
            rest,
        ),
        forall|rest: Seq<InlineNode>| #[trigger] inlines_read(ev, at, end, seq![t] + rest) == inlines_read(
            ev,
            next,
            end,
            rest,
        ),
    ensures
        forall|rest: Seq<InlineNode>| #[trigger] inlines_read(ev, i0, end, before.push(t) + rest) == inlines_read(
            ev,
            next,
            end,
            rest,
        ),
{
    assert forall|rest: Seq<InlineNode>| #[trigger] inlines_read(ev, i0, end, before.push(t) + rest) == inlines_read(
        ev,
        next,
        end,
        rest,
    ) by {
        assert(before.push(t) + rest =~= before + (seq![t] + rest));
        assert(inlines_read(ev, i0, end, before + (seq![t] + rest)) == inlines_read(ev, at, end, seq![t] + rest));
    }
}

/// Collects inline nodes up to the end tag `end`, and moves `*i` past it.
pub fn collect_inlines(events: &Vec<SpannedEvent>, i: &mut usize, end: MdTagEnd) -> (r: Vec<InlineNode>)
    requires
        *old(i) <= events@.len(),
    ensures
        *old(i) <= *final(i) <= events@.len(),
        inlines_read(events@, *old(i) as int, end, r@) == Some(*final(i) as int),
    decreases events@.len() - *old(i),
{
    let ghost i0 = *i as int;
    let ghost ev = events@;
    let mut inlines: Vec<InlineNode> = Vec::new();
    assert forall|rest: Seq<InlineNode>| #[trigger] inlines_read(ev, i0, end, inlines@ + rest) == inlines_read(
        ev,
        i0,
        end,
        rest,
    ) by {
        assert(inlines@ + rest =~= rest);
    }
    loop
        invariant_except_break
            forall|rest: Seq<InlineNode>| #[trigger] inlines_read(ev, i0, end, inlines@ + rest) == inlines_read(
                ev,
                *i as int,
                end,
                rest,
            ),
        invariant
            ev == events@,
            i0 == *old(i),
            i0 <= *i <= events@.len(),
        ensures
            inlines_read(ev, i0, end, inlines@) == Some(*i as int),
        decreases events@.len() - *i,
    {
        if *i >= events.len() {
            proof {
                assert(inlines@ + Seq::<InlineNode>::empty() =~= inlines@);
                assert(inlines_read(ev, i0, end, inlines@ + Seq::<InlineNode>::empty()) == inlines_read(
                    ev,
                    *i as int,
                    end,
                    Seq::<InlineNode>::empty(),
                ));
            }
            break;
        }
        let ghost at = *i as int;
        let ghost before = inlines@;
        match &events[*i].0 {
            MdEvent::End(t) => {
                *i += 1;
                if *t == end {
                    proof {
                        assert(before + Seq::<InlineNode>::empty() =~= before);
                        assert(inlines_read(ev, i0, end, before + Seq::<InlineNode>::empty()) == inlines_read(
                            ev,
                            at,
                            end,
                            Seq::<InlineNode>::empty(),
                        ));
                    }
                    break;
                }
                proof {
                    assert forall|rest: Seq<InlineNode>| #[trigger] inlines_read(ev, at, end, rest) == inlines_read(
                        ev,
                        at + 1,
                        end,
                        rest,
                    ) by {}
                }
            },
            MdEvent::Text(s) => {
                let node = InlineNode::Text(s.clone());
                proof {
                    lemma_read_one(ev, at, end, node);
                    lemma_read_push(ev, i0, at, at + 1, end, before, node);
                }
                inlines.push(node);
                *i += 1;
            },
            MdEvent::Code(s) => {
                let node = InlineNode::CodeSpan(s.clone());
                proof {
                    lemma_read_one(ev, at, end, node);
                    lemma_read_push(ev, i0, at, at + 1, end, before, node);
                }
                inlines.push(node);
                *i += 1;
            },
            MdEvent::SoftBreak => {
                proof {
                    lemma_read_one(ev, at, end, InlineNode::SoftBreak);
                    lemma_read_push(ev, i0, at, at + 1, end, before, InlineNode::SoftBreak);
                }
                inlines.push(InlineNode::SoftBreak);
                *i += 1;
            },
            MdEvent::HardBreak => {
                proof {
                    lemma_read_one(ev, at, end, InlineNode::HardBreak);
                    lemma_read_push(ev, i0, at, at + 1, end, before, InlineNode::HardBreak);
                }
                inlines.push(InlineNode::HardBreak);
                *i += 1;
            },
            MdEvent::Start(MdTag::Strong) => {
                *i += 1;
                let children = collect_inlines(events, i, MdTagEnd::Strong);
                let node = InlineNode::Strong(children);
                proof {
                    lemma_read_nested(ev, at, *i as int, end, node, MdTagEnd::Strong);
                    lemma_read_push(ev, i0, at, *i as int, end, before, node);
                }
                inlines.push(node);
            },
            MdEvent::Start(MdTag::Emphasis) => {
                *i += 1;
                let children = collect_inlines(events, i, MdTagEnd::Emphasis);
                let node = InlineNode::Emphasis(children);
                proof {
                    lemma_read_nested(ev, at, *i as int, end, node, MdTagEnd::Emphasis);
                    lemma_read_push(ev, i0, at, *i as int, end, before, node);
                }
                inlines.push(node);
            },
            MdEvent::Start(MdTag::Strikethrough) => {
                *i += 1;
                let children = collect_inlines(events, i, MdTagEnd::Strikethrough);
                let node = InlineNode::Strikethrough(children);
                proof {
                    lemma_read_nested(ev, at, *i as int, end, node, MdTagEnd::Strikethrough);
                    lemma_read_push(ev, i0, at, *i as int, end, before, node);
                }
                inlines.push(node);
            },
            MdEvent::Start(MdTag::Link { dest, title }) => {
                let dest = dest.clone();
                let title = title.clone();
                *i += 1;
                let content = collect_inlines(events, i, MdTagEnd::Link);
                let node = InlineNode::Link { dest, title, content };
                proof {
                    lemma_read_nested(ev, at, *i as int, end, node, MdTagEnd::Link);
                    lemma_read_push(ev, i0, at, *i as int, end, before, node);
                }
                inlines.push(node);
            },
            MdEvent::Start(MdTag::Image { dest, title }) => {
                let dest = dest.clone();
                let title = title.clone();
                *i += 1;
                let alt = collect_inlines(events, i, MdTagEnd::Image);
                let node = InlineNode::Image { dest, title, alt };
                proof {
                    lemma_read_nested(ev, at, *i as int, end, node, MdTagEnd::Image);
                    lemma_read_push(ev, i0, at, *i as int, end, before, node);
                }
                inlines.push(node);
            },
            _ => {
                *i += 1;
                proof {
                    assert forall|rest: Seq<InlineNode>| #[trigger] inlines_read(ev, at, end, rest) == inlines_read(
                        ev,
                        at + 1,
                        end,
                        rest,
                    ) by {}
                }
            },
        }
    }
    inlines
}

/// Reading the events from `i` on as the cells of a table, up to its end, gives the cells
/// `cells` in order (each compared by content) and stops at the position returned; the
/// events between cells (head, rows) are passed over.
pub open spec fn table_pos(events: Seq<SpannedEvent>, i: int, cells: Seq<Vec<InlineNode>>) -> Option<int>
    decreases events.len() - i,
{
    if i < 0 {
        None
    } else if i >= events.len() {
        if cells.len() == 0 {
            Some(i)
        } else {
            None
        }
    } else {
        match events[i].0 {
            MdEvent::End(MdTagEnd::Table) => if cells.len() == 0 {
                Some(i + 1)
            } else {
                None
            },
            MdEvent::Start(MdTag::TableCell) => if cells.len() > 0 {
                match inlines_read(events, i + 1, MdTagEnd::TableCell, cells[0]@) {
                    Some(k) => if i < k <= events.len() {
                        table_pos(events, k, cells.drop_first())
                    } else {
                        None
                    },
                    None => None,
                }
            } else {
                None
            },
            _ => table_pos(events, i + 1, cells),
        }
    }
}

/// Collects the header cells and the body rows of a table, up to its end.
pub fn collect_table(events: &Vec<SpannedEvent>, i: &mut usize) -> (r: (Vec<Vec<InlineNode>>, Vec<Vec<Vec<InlineNode>>>))
    requires
        *old(i) <= events@.len(),
    ensures
        *old(i) <= *final(i) <= events@.len(),
        exists|cells: Seq<Vec<InlineNode>>| table_pos(events@, *old(i) as int, cells) == Some(*final(i) as int),
{
    let ghost i0 = *i as int;
    let ghost ev = events@;
    let ghost mut read: Seq<Vec<InlineNode>> = Seq::empty();
    let mut headers: Vec<Vec<InlineNode>> = Vec::new();
    let mut rows: Vec<Vec<Vec<InlineNode>>> = Vec::new();
    let mut in_head = false;
    let mut current_row: Vec<Vec<InlineNode>> = Vec::new();
    assert forall|rest: Seq<Vec<InlineNode>>| #[trigger] table_pos(ev, i0, read + rest) == table_pos(ev, i0, rest) by {
        assert(read + rest =~= rest);
    }
    loop
        invariant_except_break
            forall|rest: Seq<Vec<InlineNode>>| #[trigger] table_pos(ev, i0, read + rest) == table_pos(
                ev,
                *i as int,
                rest,
            ),
        invariant
            ev == events@,
            i0 == *old(i),
            i0 <= *i <= events@.len(),
        ensures
            table_pos(ev, i0, read) == Some(*i as int),
        decreases events@.len() - *i,
    {
        if *i >= events.len() {
            proof {
                assert(read + Seq::<Vec<InlineNode>>::empty() =~= read);
                assert(table_pos(ev, i0, read + Seq::<Vec<InlineNode>>::empty()) == table_pos(
                    ev,
                    *i as int,
                    Seq::<Vec<InlineNode>>::empty(),
                ));
            }
            break;
        }
        let ghost at = *i as int;
        match &events[*i].0 {
            MdEvent::End(MdTagEnd::Table) => {
                *i += 1;
                proof {
                    assert(read + Seq::<Vec<InlineNode>>::empty() =~= read);
                    assert(table_pos(ev, i0, read + Seq::<Vec<InlineNode>>::empty()) == table_pos(
                        ev,
                        at,
                        Seq::<Vec<InlineNode>>::empty(),
                    ));
                }
                break;
            },
            MdEvent::Start(MdTag::TableHead) => {
                in_head = true;
                *i += 1;
            },
            MdEvent::End(MdTagEnd::TableHead) => {
                in_head = false;
                headers = current_row;
                current_row = Vec::new();
                *i += 1;
            },
            MdEvent::Start(MdTag::TableRow) => {
                current_row = Vec::new();
                *i += 1;
            },
            MdEvent::End(MdTagEnd::TableRow) => {
                if !in_head {
                    rows.push(current_row);
                    current_row = Vec::new();
                }
                *i += 1;
            },
            MdEvent::Start(MdTag::TableCell) => {
                *i += 1;
                let cell = collect_inlines(events, i, MdTagEnd::TableCell);
                proof {
                    let before = read;
                    assert forall|rest: Seq<Vec<InlineNode>>| #[trigger] table_pos(ev, at, seq![cell] + rest)
                        == table_pos(ev, *i as int, rest) by {
                        assert((seq![cell] + rest).drop_first() =~= rest);
                        assert((seq![cell] + rest)[0] == cell);
                    }
                    assert forall|rest: Seq<Vec<InlineNode>>| #[trigger] table_pos(ev, i0, before.push(cell) + rest)
                        == table_pos(ev, *i as int, rest) by {
                        assert(before.push(cell) + rest =~= before + (seq![cell] + rest));
                        assert(table_pos(ev, i0, before + (seq![cell] + rest)) == table_pos(ev, at, seq![cell] + rest));
                    }
                    read = before.push(cell);
                }
                current_row.push(cell);
            },
            _ => {
                *i += 1;
            },
        }
        proof {
            if !(ev[at].0 matches MdEvent::Start(MdTag::TableCell)) {
                assert forall|rest: Seq<Vec<InlineNode>>| #[trigger] table_pos(ev, at, rest) == table_pos(ev, at + 1, rest) by {}
            }
        }
    }
    (headers, rows)
}

/// Reading the events from `i` on as the paragraphs of a block quote or of a list item,
/// up to the end tag `end`, gives exactly `r` (compared by content) and stops at the
/// position returned; `None` when it gives something else. A paragraph is its inline
/// nodes; with `texts`, a bare text (as in a tight list item) is a paragraph of that
/// text; other events are skipped; the end of the events ends it too.
pub open spec fn paragraphs_read(
    events: Seq<SpannedEvent>,
    i: int,
    end: MdTagEnd,
    texts: bool,
    r: Seq<DocumentNode>,
) -> Option<int>
    decreases events.len() - i,
{
    if i < 0 {
        None
    } else if i >= events.len() {
        if r.len() == 0 {
            Some(i)
        } else {
            None
        }
    } else {
        match events[i].0 {
            MdEvent::End(t) => if t == end {
                if r.len() == 0 {
                    Some(i + 1)
                } else {
                    None
                }
            } else {
                paragraphs_read(events, i + 1, end, texts, r)
            },
            MdEvent::Start(MdTag::Paragraph) => if r.len() > 0 && r[0] is Paragraph {
                match inlines_read(events, i + 1, MdTagEnd::Paragraph, r[0]->Paragraph_0@) {
                    Some(k) => if i < k <= events.len() {
                        paragraphs_read(events, k, end, texts, r.drop_first())
                    } else {
                        None
                    },
                    None => None,
                }
            } else {
                None
            },
            MdEvent::Text(s) => if texts {
                if r.len() > 0 && (r[0] matches DocumentNode::Paragraph(inl) && inl@.len() == 1 && (
                inl@[0] matches InlineNode::Text(x) && x@ == s@)) {
                    paragraphs_read(events, i + 1, end, texts, r.drop_first())
                } else {
                    None
                }
            } else {
                paragraphs_read(events, i + 1, end, texts, r)
            },
            _ => paragraphs_read(events, i + 1, end, texts, r),
        }
    }
}

/// Appending a node that is read from `at` up to `next` keeps what was collected so far in
/// step with the position.
proof fn lemma_paragraphs_push(
    ev: Seq<SpannedEvent>,
    i0: int,
    at: int,
    next: int,
    end: MdTagEnd,
    texts: bool,
    before: Seq<DocumentNode>,
    t: DocumentNode,
)
    requires
        forall|rest: Seq<DocumentNode>| #[trigger] paragraphs_read(ev, i0, end, texts, before + rest)
            == paragraphs_read(ev, at, end, texts, rest),
        forall|rest: Seq<DocumentNode>| #[trigger] paragraphs_read(ev, at, end, texts, seq![t] + rest)
            == paragraphs_read(ev, next, end, texts, rest),
    ensures
        forall|rest: Seq<DocumentNode>| #[trigger] paragraphs_read(ev, i0, end, texts, before.push(t) + rest)
            == paragraphs_read(ev, next, end, texts, rest),
{
    assert forall|rest: Seq<DocumentNode>| #[trigger] paragraphs_read(ev, i0, end, texts, before.push(t) + rest)
        == paragraphs_read(ev, next, end, texts, rest) by {
        assert(before.push(t) + rest =~= before + (seq![t] + rest));
        assert(paragraphs_read(ev, i0, end, texts, before + (seq![t] + rest)) == paragraphs_read(
            ev,
            at,
            end,
            texts,
            seq![t] + rest,
        ));
    }
}

/// Collects the paragraphs up to the end tag `end` (with `texts`, bare texts too), and
/// moves `*i` past it.
fn collect_paragraphs(events: &Vec<SpannedEvent>, i: &mut usize, end: MdTagEnd, texts: bool) -> (r: Vec<DocumentNode>)
    requires
        *old(i) <= events@.len(),
    ensures
        *old(i) <= *final(i) <= events@.len(),
        paragraphs_read(events@, *old(i) as int, end, texts, r@) == Some(*final(i) as int),
{
    let ghost i0 = *i as int;
    let ghost ev = events@;
    let mut nodes: Vec<DocumentNode> = Vec::new();
    assert forall|rest: Seq<DocumentNode>| #[trigger] paragraphs_read(ev, i0, end, texts, nodes@ + rest)
        == paragraphs_read(ev, i0, end, texts, rest) by {
        assert(nodes@ + rest =~= rest);
    }
    loop
        invariant_except_break
            forall|rest: Seq<DocumentNode>| #[trigger] paragraphs_read(ev, i0, end, texts, nodes@ + rest)
                == paragraphs_read(ev, *i as int, end, texts, rest),
        invariant
            ev == events@,
            i0 == *old(i),
            i0 <= *i <= events@.len(),
        ensures
            paragraphs_read(ev, i0, end, texts, nodes@) == Some(*i as int),
        decreases events@.len() - *i,
    {
        if *i >= events.len() {
            proof {
                assert(nodes@ + Seq::<DocumentNode>::empty() =~= nodes@);
                assert(paragraphs_read(ev, i0, end, texts, nodes@ + Seq::<DocumentNode>::empty())
                    == paragraphs_read(ev, *i as int, end, texts, Seq::<DocumentNode>::empty()));
            }
            break;
        }
        let ghost at = *i as int;
        let ghost before = nodes@;
        match &events[*i].0 {
            MdEvent::End(t) => {
                *i += 1;
                if *t == end {
                    proof {
                        assert(before + Seq::<DocumentNode>::empty() =~= before);
                        assert(paragraphs_read(ev, i0, end, texts, before + Seq::<DocumentNode>::empty())
                            == paragraphs_read(ev, at, end, texts, Seq::<DocumentNode>::empty()));
                    }
                    break;
                }
                proof {
                    assert forall|rest: Seq<DocumentNode>| #[trigger] paragraphs_read(ev, at, end, texts, rest)
                        == paragraphs_read(ev, at + 1, end, texts, rest) by {}
                }
            },
            MdEvent::Start(MdTag::Paragraph) => {
                *i += 1;
                let inlines = collect_inlines(events, i, MdTagEnd::Paragraph);
                let node = DocumentNode::Paragraph(inlines);
                proof {
                    assert forall|rest: Seq<DocumentNode>| #[trigger] paragraphs_read(ev, at, end, texts, seq![node] + rest)
                        == paragraphs_read(ev, *i as int, end, texts, rest) by {
                        assert((seq![node] + rest).drop_first() =~= rest);
                        assert((seq![node] + rest)[0] == node);
                    }
                    lemma_paragraphs_push(ev, i0, at, *i as int, end, texts, before, node);
                }
                nodes.push(node);
            },
            MdEvent::Text(s) => {
                if texts {
                    let mut inl: Vec<InlineNode> = Vec::new();
                    inl.push(InlineNode::Text(s.clone()));
                    let node = DocumentNode::Paragraph(inl);
                    proof {
                        assert forall|rest: Seq<DocumentNode>| #[trigger] paragraphs_read(
                            ev,
                            at,
                            end,
                            texts,
                            seq![node] + rest,
                        ) == paragraphs_read(ev, at + 1, end, texts, rest) by {
                            assert((seq![node] + rest).drop_first() =~= rest);
                            assert((seq![node] + rest)[0] == node);
                        }
                        lemma_paragraphs_push(ev, i0, at, at + 1, end, texts, before, node);
                    }
                    nodes.push(node);
                } else {
                    proof {
                        assert forall|rest: Seq<DocumentNode>| #[trigger] paragraphs_read(ev, at, end, texts, rest)
                            == paragraphs_read(ev, at + 1, end, texts, rest) by {}
                    }
                }
                *i += 1;
            },
            _ => {
                *i += 1;
                proof {
                    assert forall|rest: Seq<DocumentNode>| #[trigger] paragraphs_read(ev, at, end, texts, rest)
                        == paragraphs_read(ev, at + 1, end, texts, rest) by {}
                }
            },
        }
    }
    nodes
}

/// Collects the paragraphs of a block quote, up to its end.
pub fn collect_blockquote(events: &Vec<SpannedEvent>, i: &mut usize) -> (r: Document)
    requires
        *old(i) <= events@.len(),
    ensures
        *old(i) <= *final(i) <= events@.len(),
        paragraphs_read(events@, *old(i) as int, MdTagEnd::BlockQuote, false, r.nodes@) == Some(*final(i) as int),
{
    let nodes = collect_paragraphs(events, i, MdTagEnd::BlockQuote, false);
    Document { nodes }
}

/// Reading the events from `i` on as the items of an unordered list, up to its end, gives
/// exactly `items` and stops at the position returned: each item is read as its
/// paragraphs and bare texts up to the end of the item; other events are skipped.
pub open spec fn list_read(events: Seq<SpannedEvent>, i: int, items: Seq<Document>) -> Option<int>
    decreases events.len() - i,
{
    if i < 0 {
        None
    } else if i >= events.len() {
        if items.len() == 0 {
            Some(i)
        } else {
            None
        }
    } else {
        match events[i].0 {
            MdEvent::End(MdTagEnd::List(false)) => if items.len() == 0 {
                Some(i + 1)
            } else {
                None
            },
            MdEvent::Start(MdTag::Item) => if items.len() > 0 {
                match paragraphs_read(events, i + 1, MdTagEnd::Item, true, items[0].nodes@) {
                    Some(k) => if i < k <= events.len() {
                        list_read(events, k, items.drop_first())
                    } else {
                        None
                    },
                    None => None,
                }
            } else {
                None
            },
            _ => list_read(events, i + 1, items),
        }
    }
}

/// Collects an unordered list (outside an instruction) as a document node: each item is
/// a document of its paragraphs and bare texts.
pub fn collect_unordered_list_as_document(events: &Vec<SpannedEvent>, i: &mut usize) -> (r: DocumentNode)
    requires
        *old(i) <= events@.len(),
    ensures
        *old(i) <= *final(i) <= events@.len(),
        r matches DocumentNode::UnorderedList { items } && list_read(events@, *old(i) as int, items@) == Some(
            *final(i) as int,
        ),
{
    let ghost i0 = *i as int;
    let ghost ev = events@;
    let mut items: Vec<Document> = Vec::new();
    assert forall|rest: Seq<Document>| #[trigger] list_read(ev, i0, items@ + rest) == list_read(ev, i0, rest) by {
        assert(items@ + rest =~= rest);
    }
    loop
        invariant_except_break
            forall|rest: Seq<Document>| #[trigger] list_read(ev, i0, items@ + rest) == list_read(ev, *i as int, rest),
        invariant
            ev == events@,
            i0 == *old(i),
            i0 <= *i <= events@.len(),
        ensures
            list_read(ev, i0, items@) == Some(*i as int),
        decreases events@.len() - *i,
    {
        if *i >= events.len() {
            proof {
                assert(items@ + Seq::<Document>::empty() =~= items@);
                assert(list_read(ev, i0, items@ + Seq::<Document>::empty()) == list_read(
                    ev,
                    *i as int,
                    Seq::<Document>::empty(),
                ));
            }
            break;
        }
        let ghost at = *i as int;
        let ghost before = items@;
        match &events[*i].0 {
            MdEvent::End(MdTagEnd::List(false)) => {
                *i += 1;
                proof {
                    assert(before + Seq::<Document>::empty() =~= before);
                    assert(list_read(ev, i0, before + Seq::<Document>::empty()) == list_read(
                        ev,
                        at,
                        Seq::<Document>::empty(),
                    ));
                }
                break;
            },
            MdEvent::Start(MdTag::Item) => {
                *i += 1;
                let item_nodes = collect_paragraphs(events, i, MdTagEnd::Item, true);
                let item = Document { nodes: item_nodes };
                proof {
                    assert forall|rest: Seq<Document>| #[trigger] list_read(ev, at, seq![item] + rest) == list_read(
                        ev,
                        *i as int,
                        rest,
                    ) by {
                        assert((seq![item] + rest).drop_first() =~= rest);
                        assert((seq![item] + rest)[0] == item);
                    }
                    assert forall|rest: Seq<Document>| #[trigger] list_read(ev, i0, before.push(item) + rest)
                        == list_read(ev, *i as int, rest) by {
                        assert(before.push(item) + rest =~= before + (seq![item] + rest));
                        assert(list_read(ev, i0, before + (seq![item] + rest)) == list_read(ev, at, seq![item] + rest));
                    }
                }
                items.push(item);
            },
            _ => {
                *i += 1;
                proof {
                    assert forall|rest: Seq<Document>| #[trigger] list_read(ev, at, rest) == list_read(ev, at + 1, rest) by {}
                }
            },
        }
    }
    DocumentNode::UnorderedList { items }
}

/// The event at `k` is a text.
pub open spec fn is_text_at(s: Seq<SpannedEvent>, k: int) -> bool {
    s[k].0 is Text
}

/// An event as content: a text by its characters, any other event as it is.
pub enum EventView {
    Text(Seq<char>),
    Other(MdEvent),
}

pub open spec fn view_of(e: MdEvent) -> EventView {
    match e {
        MdEvent::Text(s) => EventView::Text(s@),
        _ => EventView::Other(e),
    }
}

/// Events as content, with their ranges.
pub open spec fn views(s: Seq<SpannedEvent>) -> Seq<(EventView, Range<usize>)> {
    Seq::new(s.len(), |k: int| (view_of(s[k].0), s[k].1))
}

/// The events `inp` as content, with each run of adjacent text events merged into one
/// text: its characters the run's texts one after another, its range from the first one's
/// start to the last one's end; every other event stays as it is.
pub open spec fn merge_views(inp: Seq<SpannedEvent>) -> Seq<(EventView, Range<usize>)>
    decreases inp.len(),
{
    if inp.len() == 0 {
        seq![]
    } else {
        let m = merge_views(inp.drop_last());
        let e = inp.last();
        if m.len() > 0 && m.last().0 is Text && e.0 is Text {
            m.update(
                m.len() - 1,
                (EventView::Text(m.last().0->Text_0 + e.0->Text_0@), Range { start: m.last().1.start, end: e.1.end }),
            )
        } else {
            m.push((view_of(e.0), e.1))
        }
    }
}

/// `out` is `inp` with its adjacent text events merged.
pub open spec fn text_merged(inp: Seq<SpannedEvent>, out: Seq<SpannedEvent>) -> bool {
    views(out) == merge_views(inp)
}

/// Joins each run of neighbouring text events into one text event, whose range runs from
/// the first one's start to the last one's end (the Markdown reader may split a text
/// around characters such as `<` and `>`).
pub fn merge_adjacent_text(events: Vec<SpannedEvent>) -> (r: Vec<SpannedEvent>)
    ensures
        r@.len() <= events@.len(),
        forall|k: int| 0 < k < r@.len() ==> !(is_text_at(r@, k - 1) && #[trigger] is_text_at(r@, k)),
        text_merged(events@, r@),
{
    let mut out: Vec<SpannedEvent> = Vec::new();
    let ghost orig = events@;
    let mut events = events;
    let ghost total = events@.len();
    let ghost mut consumed: int = 0;
    assert(orig.take(0) =~= Seq::<SpannedEvent>::empty());
    while events.len() > 0
        invariant
            out@.len() + events@.len() <= total,
            forall|k: int| 0 < k < out@.len() ==> !(is_text_at(out@, k - 1) && #[trigger] is_text_at(out@, k)),
            total == orig.len(),
            0 <= consumed <= orig.len(),
            events@ == orig.skip(consumed),
            views(out@) == merge_views(orig.take(consumed)),
        decreases events@.len(),
    {
        let ghost inp = orig.take(consumed + 1);
        assert(events@[0] == orig[consumed]);
        assert(inp.drop_last() =~= orig.take(consumed));
        assert(inp.last() == orig[consumed]);
        let e = events.remove(0);
        assert(events@ =~= orig.skip(consumed + 1));
        let n = out.len();
        let ghost before = out@;
        let joined = n > 0 && (match (&out[n - 1].0, &e.0) {
            (MdEvent::Text(_), MdEvent::Text(_)) => true,
            _ => false,
        });
        if joined {
            let ghost e_copy = e;
            let (prev, prev_span) = out.pop().unwrap();
            match (prev, e.0) {
                (MdEvent::Text(mut a), MdEvent::Text(b)) => {
                    push_str(&mut a, b.as_str());
                    out.push((MdEvent::Text(a), Range { start: prev_span.start, end: e.1.end }));
                },
                (p, _) => {
                    out.push((p, prev_span));
                },
            }
            proof {
                let m = merge_views(orig.take(consumed));
                assert(views(before)[n - 1] == (view_of(before[n - 1].0), before[n - 1].1));
                assert(m.last() == views(before)[n - 1]);
                assert(inp.last() == e_copy);
                assert(views(out@) =~= m.update(
                    m.len() - 1,
                    (EventView::Text(m.last().0->Text_0 + e_copy.0->Text_0@), Range {
                        start: m.last().1.start,
                        end: e_copy.1.end,
                    }),
                ));
                consumed = consumed + 1;
            }
            proof {
                assert forall|k: int| 0 < k < out@.len() implies !(is_text_at(out@, k - 1) && #[trigger] is_text_at(out@, k)) by {
                    assert(out@[k - 1] == before[k - 1] || k - 1 == n - 1);
                    if k < n - 1 {
                        assert(out@[k] == before[k]);
                        assert(is_text_at(before, k) == is_text_at(out@, k));
                        assert(is_text_at(before, k - 1) == is_text_at(out@, k - 1));
                    } else {
                        assert(is_text_at(before, n - 1));
                        assert(out@[k - 1] == before[k - 1]);
                        assert(!is_text_at(before, n - 2) || !is_text_at(before, n - 1));
                    }
                }
            }
        } else {
            let ghost e_copy = e;
            out.push(e);
            proof {
                let m = merge_views(orig.take(consumed));
                assert(inp.last() == e_copy);
                if n > 0 {
                    assert(views(before)[n - 1] == (view_of(before[n - 1].0), before[n - 1].1));
                    assert(m.last() == views(before)[n - 1]);
                }
                assert(views(out@) =~= m.push((view_of(e_copy.0), e_copy.1)));
                consumed = consumed + 1;
            }
            proof {
                assert forall|k: int| 0 < k < out@.len() implies !(is_text_at(out@, k - 1) && #[trigger] is_text_at(out@, k)) by {
                    if k < n {
                        assert(out@[k] == before[k]);
                        assert(out@[k - 1] == before[k - 1]);
                        assert(is_text_at(before, k) == is_text_at(out@, k));
                        assert(is_text_at(before, k - 1) == is_text_at(out@, k - 1));
                    } else {
                        assert(out@[k - 1] == before[k - 1]);
                    }
                }
            }
        }
    }
    proof {
        assert(orig.take(consumed) =~= orig);
    }
    out
}

/// The items of top-level blocks in document order, each one's heading taken at the level
/// it was written with (`lv`, one per block).
pub open spec fn program_items(s: Seq<Block>, lv: Seq<u8>) -> Seq<DocItem>
    decreases s.len(),
{
    if s.len() == 0 || lv.len() == 0 {
        seq![]
    } else {
        program_items(s.drop_last(), lv.drop_last()) + (seq![DocItem::Head(lv.last(), s.last().name@)]
            + body_items(s.last().body.nodes@) + blocks_items(s.last().children@))
    }
}

/// A top-level block: level 1, its name in normal form, its chain well formed, and its
/// sub-blocks well nested and deeper than the level `written` of its heading.
pub open spec fn top_block_ok(b: Block, written: u8) -> bool {
    &&& b.level == 1
    &&& name_normal(b.name@)
    &&& chain_ok(b.chain.groups@)
    &&& blocks_under(b.children@, written)
}

/// The blocks `bs` are what the source text reads as: Markdown events (adjacent texts
/// merged) whose document-order reading gives the blocks' items, each top-level heading
/// at the level `lv` it was written with, and each top-level block well formed.
pub open spec fn program_read(source: Seq<char>, bs: Seq<Block>, lv: Seq<u8>) -> bool {
    &&& lv.len() == bs.len()
    &&& forall|k: int| 0 <= k < bs.len() ==> top_block_ok(#[trigger] bs[k], lv[k])
    &&& exists|events: Seq<SpannedEvent>|
        text_merged(markdown_events(source), events) && doc_read(events, 0, false, #[trigger] program_items(bs, lv))
}

/// `t` is `s` with each block's level set to 1.
pub open spec fn leveled(s: Seq<Block>, t: Seq<Block>) -> bool {
    &&& t.len() == s.len()
    &&& forall|k: int| 0 <= k < s.len() ==> #[trigger] t[k] == (Block { level: 1, ..s[k] })
}

proof fn lemma_program_items(s: Seq<Block>, t: Seq<Block>)
    requires
        leveled(s, t),
    ensures
        program_items(t, s.map_values(|b: Block| b.level)) == blocks_items(s),
    decreases s.len(),
{
    if s.len() > 0 {
        let lv = s.map_values(|b: Block| b.level);
        assert(lv.drop_last() =~= s.drop_last().map_values(|b: Block| b.level));
        assert(t.drop_last().len() == s.drop_last().len());
        assert forall|k: int| 0 <= k < s.drop_last().len() implies #[trigger] t.drop_last()[k] == (Block {
            level: 1,
            ..s.drop_last()[k]
        }) by {
            assert(t.drop_last()[k] == t[k]);
        }
        lemma_program_items(s.drop_last(), t.drop_last());
        assert(t.last() == (Block { level: 1, ..s.last() }));
        assert(lv.last() == s.last().level);
        assert(block_items(s.last()) == seq![DocItem::Head(s.last().level, s.last().name@)] + body_items(
            s.last().body.nodes@,
        ) + blocks_items(s.last().children@));
        assert(blocks_items(s) == blocks_items(s.drop_last()) + block_items(s.last()));
        assert(program_items(t, lv) == program_items(t.drop_last(), lv.drop_last()) + (seq![
            DocItem::Head(lv.last(), t.last().name@),
        ] + body_items(t.last().body.nodes@) + blocks_items(t.last().children@)));
        assert(program_items(t, lv) =~= blocks_items(s));
    }
}

/// Sets the level of each top-level block to 1: top-level blocks are level-1 blocks,
/// whatever level of heading opened them.
fn set_top_level(blocks: Vec<Block>) -> (r: Vec<Block>)
    ensures
        leveled(blocks@, r@),
{
    let mut rest = blocks;
    let ghost s = rest@;
    let mut reversed: Vec<Block> = Vec::new();
    while rest.len() > 0
        invariant
            rest@ == s.take(rest@.len() as int),
            rest@.len() + reversed@.len() == s.len(),
            forall|k: int|
                0 <= k < reversed@.len() ==> #[trigger] reversed@[k] == (Block { level: 1, ..s[s.len() - 1 - k] }),
        decreases rest@.len(),
    {
        let mut b = rest.pop().unwrap();
        b.level = 1;
        reversed.push(b);
        proof {
            assert(rest@ =~= s.take(rest@.len() as int));
        }
    }
    let mut out: Vec<Block> = Vec::new();
    while reversed.len() > 0
        invariant
            out@.len() + reversed@.len() == s.len(),
            forall|k: int|
                0 <= k < reversed@.len() ==> #[trigger] reversed@[k] == (Block { level: 1, ..s[s.len() - 1 - k] }),
            forall|k: int| 0 <= k < out@.len() ==> #[trigger] out@[k] == (Block { level: 1, ..s[k] }),
        decreases reversed@.len(),
    {
        let ghost n = reversed@.len();
        let b = reversed.pop().unwrap();
        proof {
            assert(b == (Block { level: 1, ..s[s.len() - n] }));
        }
        out.push(b);
    }
    out
}

/// Parses Markdown source text into its top-level blocks, or the errors of the
/// instructions that did not parse. Top-level blocks have level 1; the levels their
/// headings were written with are those of the document-order reading.
pub fn parse_blocks(source: &str, file_id: usize) -> (r: Result<Vec<Block>, Vec<ParseError>>)
    ensures
        r matches Err(es) ==> es@.len() > 0 && errors_from(es@, file_id),
        r is Ok ==> exists|lv: Seq<u8>| #[trigger] program_read(source@, r->Ok_0@, lv),
{
    let events = merge_adjacent_text(read_markdown(source));
    let mut state = ParseState::new(file_id);
    proof {
        assert(blocks_items(state.top_blocks@) + open_items(state.block_stack@) =~= Seq::<DocItem>::empty());
    }
    match state.process_events(source, &events) {
        Ok(()) => {},
        Err(es) => {
            return Err(es);
        },
    }
    let ghost h = choose|h: Seq<DocItem>|
        doc_read(events@, 0, false, h) && blocks_items(state.top_blocks@) + open_items(state.block_stack@)
            == Seq::<DocItem>::empty() + h;
    let raw = match state.finalize(source.len()) {
        Ok(bs) => bs,
        Err(es) => {
            return Err(es);
        },
    };
    let r = set_top_level(raw);
    let ghost lv = raw@.map_values(|b: Block| b.level);
    proof {
        assert(Seq::<DocItem>::empty() + h =~= h);
        lemma_program_items(raw@, r@);
        assert(doc_read(events@, 0, false, program_items(r@, lv)));
        assert forall|k: int| 0 <= k < r@.len() implies top_block_ok(#[trigger] r@[k], lv[k]) by {
            assert(block_nested(raw@[k]));
            assert(r@[k] == (Block { level: 1, ..raw@[k] }));
        }
        assert(text_merged(markdown_events(source@), events@));
        assert(text_merged(markdown_events(source@), events@) && doc_read(events@, 0, false, program_items(r@, lv)));
        assert(program_read(source@, r@, lv));
    }
    let ghost rv = r@;
    let res: Result<Vec<Block>, Vec<ParseError>> = Ok(r);
    assert(res->Ok_0@ == rv);
    assert(program_read(source@, res->Ok_0@, lv));
    res
}

/// The parser's entry point.
pub struct Parser {
    pub source: String,
    pub file_id: usize,
}

impl Parser {
    pub fn new(source: String, file_id: usize) -> (p: Parser)
        ensures
            p.source == source,
            p.file_id == file_id,
    {
        Parser { source, file_id }
    }

    /// Parses the source into a program.
    pub fn parse(&self) -> (r: Result<Program, Vec<ParseError>>)
        ensures
            r matches Ok(p) ==> p.source_id == self.file_id,
            r is Ok ==> exists|lv: Seq<u8>| #[trigger] program_read(self.source@, r->Ok_0.blocks@, lv),
            r matches Err(es) ==> es@.len() > 0 && errors_from(es@, self.file_id),
    {
        let blocks = match parse_blocks(self.source.as_str(), self.file_id) {
            Ok(bs) => bs,
            Err(es) => {
                return Err(es);
            },
        };
        let ghost lv = choose|lv: Seq<u8>| program_read(self.source@, blocks@, lv);
        let ghost bv = blocks@;
        let res: Result<Program, Vec<ParseError>> = Ok(Program { blocks, source_id: self.file_id });
        assert(res->Ok_0.blocks@ == bv);
        assert(program_read(self.source@, res->Ok_0.blocks@, lv));
        res
    }
}

} // verus!
