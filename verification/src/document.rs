//! The Markdown document model: the first-class Markdown values of markdownlang.
use vstd::prelude::*;
use crate::text::{push_char, push_str};
use crate::number::{nat_text, push_nat_text};

verus! {

/// A Document is a sequence of document nodes representing Markdown content.
#[derive(Debug)]
pub struct Document {
    pub nodes: Vec<DocumentNode>,
}

/// A single node in the Markdown AST.
#[derive(Debug)]
#[allow(inconsistent_fields)]
pub enum DocumentNode {
    Paragraph(Vec<InlineNode>),
    Heading { level: u8, content: Vec<InlineNode> },
    CodeBlock { language: Option<String>, content: String },
    Blockquote(Document),
    Table {
        alignments: Vec<ColumnAlignment>,
        headers: Vec<Vec<InlineNode>>,
        rows: Vec<Vec<Vec<InlineNode>>>,
    },
    OrderedList { start: u64, items: Vec<Document> },
    UnorderedList { items: Vec<Document> },
    HorizontalRule,
}

/// Inline elements that appear within a line of text.
#[derive(Debug)]
pub enum InlineNode {
    Text(String),
    Strong(Vec<InlineNode>),
    Emphasis(Vec<InlineNode>),
    Strikethrough(Vec<InlineNode>),
    CodeSpan(String),
    Link { dest: String, title: String, content: Vec<InlineNode> },
    Image { dest: String, title: String, alt: Vec<InlineNode> },
    SoftBreak,
    HardBreak,
}

#[derive(Debug, Clone, Copy, PartialEq, Eq, Structural)]
pub enum ColumnAlignment {
    Unspecified,
    Left,
    Center,
    Right,
}

impl Document {
    pub fn empty() -> (d: Document)
        ensures
            d.nodes@.len() == 0,
    {
        Document { nodes: Vec::new() }
    }

    pub fn is_empty(&self) -> (r: bool)
        ensures
            r == (self.nodes@.len() == 0),
    {
        self.nodes.len() == 0
    }
}

// ---------------------------------------------------------------------------
// Rendering as Markdown text
// ---------------------------------------------------------------------------

/// The Markdown text of an inline node.
pub open spec fn inline_text(n: InlineNode) -> Seq<char>
    decreases n, 1nat,
{
    match n {
        InlineNode::Text(s) => s@,
        InlineNode::Strong(c) => seq!['*', '*'] + inlines_text(c@) + seq!['*', '*'],
        InlineNode::Emphasis(c) => seq!['*'] + inlines_text(c@) + seq!['*'],
        InlineNode::Strikethrough(c) => seq!['~', '~'] + inlines_text(c@) + seq!['~', '~'],
        InlineNode::CodeSpan(s) => seq!['`'] + s@ + seq!['`'],
        InlineNode::Link { dest, content, .. } => seq!['['] + inlines_text(content@) + seq![
            ']',
            '(',
        ] + dest@ + seq![')'],
        InlineNode::Image { dest, alt, .. } => seq!['!', '['] + inlines_text(alt@) + seq![
            ']',
            '(',
        ] + dest@ + seq![')'],
        InlineNode::SoftBreak => seq!['\n'],
        InlineNode::HardBreak => seq!['\n'],
    }
}

/// The Markdown text of a run of inline nodes: their texts one after another.
pub open spec fn inlines_text(s: Seq<InlineNode>) -> Seq<char>
    decreases s, 0nat,
{
    if s.len() == 0 {
        seq![]
    } else {
        inlines_text(s.drop_last()) + inline_text(s.last())
    }
}


/// The text of a document node.
pub open spec fn node_text(n: DocumentNode) -> Seq<char>
    decreases n, 1nat,
{
    match n {
        DocumentNode::Paragraph(c) => inlines_text(c@) + seq!['\n'],
        DocumentNode::Heading { level, content } => Seq::new(level as nat, |i: int| '#') + seq![' ']
            + inlines_text(content@) + seq!['\n'],
        DocumentNode::CodeBlock { language, content } => seq!['`', '`', '`'] + (match language {
            Some(l) => l@,
            None => Seq::empty(),
        }) + seq!['\n'] + content@ + seq!['`', '`', '`', '\n'],
        DocumentNode::Blockquote(d) => quote_lines(text_lines(nodes_text(d.nodes@))),
        DocumentNode::Table { headers, rows, .. } => seq!['|'] + header_cells_text(headers@)
            + seq!['\n', '|'] + separator_text(headers@.len()) + seq!['\n'] + rows_text(rows@),
        DocumentNode::OrderedList { start, items } => ordered_items_text(start as nat, items@),
        DocumentNode::UnorderedList { items } => unordered_items_text(items@),
        DocumentNode::HorizontalRule => seq!['-', '-', '-', '\n'],
    }
}

/// The text of a sequence of document nodes: their texts one after another.
pub open spec fn nodes_text(s: Seq<DocumentNode>) -> Seq<char>
    decreases s, 0nat,
{
    if s.len() == 0 {
        seq![]
    } else {
        nodes_text(s.drop_last()) + node_text(s.last())
    }
}

pub open spec fn document_text(d: Document) -> Seq<char> {
    nodes_text(d.nodes@)
}

/// A document prints node after node: one more node adds its text at the end; text, bold,
/// emphasis and struck spans print as Markdown around their children, one child after
/// another; a paragraph prints its inlines and a newline; a table one line per row.
pub proof fn law_document_text_in_order(
    s: Seq<DocumentNode>,
    n: DocumentNode,
    inl: Seq<InlineNode>,
    i: InlineNode,
    rows: Seq<Vec<Vec<InlineNode>>>,
    row: Vec<Vec<InlineNode>>,
    c: Vec<InlineNode>,
    t: String,
)
    ensures
        nodes_text(s.push(n)) == nodes_text(s) + node_text(n),
        inlines_text(inl.push(i)) == inlines_text(inl) + inline_text(i),
        node_text(DocumentNode::Paragraph(c)) == inlines_text(c@) + seq!['\n'],
        inline_text(InlineNode::Text(t)) == t@,
        inline_text(InlineNode::Strong(c)) == seq!['*', '*'] + inlines_text(c@) + seq!['*', '*'],
        inline_text(InlineNode::Emphasis(c)) == seq!['*'] + inlines_text(c@) + seq!['*'],
        rows_text(rows.push(row)) == rows_text(rows) + seq!['|'] + header_cells_text(row@) + seq!['\n'],
        node_text(DocumentNode::HorizontalRule) == "---\n"@,
{
    assert(s.push(n).drop_last() =~= s);
    assert(inl.push(i).drop_last() =~= inl);
    assert(rows.push(row).drop_last() =~= rows);
    reveal_strlit("---\n");
}

/// `" cell |"` for each header cell.
pub open spec fn header_cells_text(cells: Seq<Vec<InlineNode>>) -> Seq<char>
    decreases cells, 0nat,
{
    if cells.len() == 0 {
        seq![]
    } else {
        header_cells_text(cells.drop_last()) + seq![' '] + inlines_text(cells.last()@) + seq![
            ' ',
            '|',
        ]
    }
}

pub open spec fn separator_text(n: nat) -> Seq<char>
    decreases n,
{
    if n == 0 {
        seq![]
    } else {
        separator_text((n - 1) as nat) + seq!['-', '-', '-', '|']
    }
}

/// Each row: `|`, its cells as for the header, and a newline.
pub open spec fn rows_text(rows: Seq<Vec<Vec<InlineNode>>>) -> Seq<char>
    decreases rows, 0nat,
{
    if rows.len() == 0 {
        seq![]
    } else {
        rows_text(rows.drop_last()) + seq!['|'] + header_cells_text(rows.last()@) + seq!['\n']
    }
}

/// Items numbered from `start`: `n. ` and the item's text.
pub open spec fn ordered_items_text(start: nat, items: Seq<Document>) -> Seq<char>
    decreases items, 0nat,
{
    if items.len() == 0 {
        seq![]
    } else {
        ordered_items_text(start, items.drop_last()) + nat_text(
            start + (items.len() - 1) as nat,
        ) + seq!['.', ' '] + nodes_text(items.last().nodes@)
    }
}

pub open spec fn unordered_items_text(items: Seq<Document>) -> Seq<char>
    decreases items, 0nat,
{
    if items.len() == 0 {
        seq![]
    } else {
        unordered_items_text(items.drop_last()) + seq!['-', ' '] + nodes_text(items.last().nodes@)
    }
}

/// Each line prefixed by `> ` and ended by a newline.
pub open spec fn quote_lines(lines: Seq<Seq<char>>) -> Seq<char>
    decreases lines.len(),
{
    if lines.len() == 0 {
        seq![]
    } else {
        seq!['>', ' '] + lines[0] + seq!['\n'] + quote_lines(lines.drop_first())
    }
}

/// A line without the carriage return that ends it, if any.
pub open spec fn strip_cr(l: Seq<char>) -> Seq<char> {
    if l.len() > 0 && l.last() == '\r' {
        l.drop_last()
    } else {
        l
    }
}

/// The index of the first `\n` in `s`, or its length when there is none.
pub open spec fn first_newline(s: Seq<char>) -> nat
    decreases s.len(),
{
    if s.len() == 0 {
        0
    } else if s[0] == '\n' {
        0
    } else {
        first_newline(s.drop_first()) + 1
    }
}

/// The lines of a text as `str::lines` yields them: split after each `\n`, each line
/// without its `\n` and a `\r` before it; no empty line after a final `\n`.
pub open spec fn text_lines(s: Seq<char>) -> Seq<Seq<char>>
    decreases s.len(),
{
    let k = first_newline(s);
    if s.len() == 0 {
        seq![]
    } else if k < s.len() {
        seq![strip_cr(s.take(k as int))] + text_lines(s.skip((k + 1) as int))
    } else {
        seq![s]
    }
}


// ---------------------------------------------------------------------------
// Writing the text
// ---------------------------------------------------------------------------

fn push_literal(out: &mut String, lit: &str)
    ensures
        final(out)@ == old(out)@ + lit@,
{
    push_str(out, lit);
}

/// Appends the Markdown text of an inline node.
pub fn write_inline(n: &InlineNode, out: &mut String)
    ensures
        final(out)@ == old(out)@ + inline_text(*n),
    decreases *n, 1nat,
{
    match n {
        InlineNode::Text(s) => {
            push_str(out, s.as_str());
        },
        InlineNode::Strong(c) => {
            push_char(out, '*');
            push_char(out, '*');
            write_inlines(c, out);
            push_char(out, '*');
            push_char(out, '*');
        },
        InlineNode::Emphasis(c) => {
            push_char(out, '*');
            write_inlines(c, out);
            push_char(out, '*');
        },
        InlineNode::Strikethrough(c) => {
            push_char(out, '~');
            push_char(out, '~');
            write_inlines(c, out);
            push_char(out, '~');
            push_char(out, '~');
        },
        InlineNode::CodeSpan(s) => {
            push_char(out, '`');
            push_str(out, s.as_str());
            push_char(out, '`');
        },
        InlineNode::Link { dest, content, .. } => {
            push_char(out, '[');
            write_inlines(content, out);
            push_char(out, ']');
            push_char(out, '(');
            push_str(out, dest.as_str());
            push_char(out, ')');
        },
        InlineNode::Image { dest, alt, .. } => {
            push_char(out, '!');
            push_char(out, '[');
            write_inlines(alt, out);
            push_char(out, ']');
            push_char(out, '(');
            push_str(out, dest.as_str());
            push_char(out, ')');
        },
        InlineNode::SoftBreak => {
            push_char(out, '\n');
        },
        InlineNode::HardBreak => {
            push_char(out, '\n');
        },
    }
    assert(final(out)@ =~= old(out)@ + inline_text(*n));
}

/// Appends the texts of inline nodes one after another.
pub fn write_inlines(v: &Vec<InlineNode>, out: &mut String)
    ensures
        final(out)@ == old(out)@ + inlines_text(v@),
    decreases *v, 0nat,
{
    let ghost start = out@;
    let mut i: usize = 0;
    while i < v.len()
        invariant
            i <= v.len(),
            out@ == start + inlines_text(v@.take(i as int)),
        decreases v.len() - i,
    {
        proof {
            vstd::std_specs::vec::axiom_vec_index_decreases(*v, i as int);
        }
        write_inline(&v[i], out);
        proof {
            assert(v@.take(i + 1).drop_last() =~= v@.take(i as int));
        }
        i += 1;
    }
    assert(v@.take(v.len() as int) =~= v@);
}

impl InlineNode {
    /// The Markdown text of the node, as it is displayed.
    pub fn to_text(&self) -> (s: String)
        ensures
            s@ == inline_text(*self),
    {
        let mut s = String::new();
        write_inline(self, &mut s);
        assert(s@ =~= inline_text(*self));
        s
    }
}


proof fn lemma_first_newline(s: Seq<char>, k: int)
    requires
        0 <= k <= s.len(),
        k < s.len() ==> s[k] == '\n',
        forall|j: int| 0 <= j < k ==> s[j] != '\n',
    ensures
        first_newline(s) == k,
    decreases s.len(),
{
    if s.len() > 0 && k > 0 {
        lemma_first_newline(s.drop_first(), k - 1);
    }
}

/// Appends each line of `text` after `> `, each ended by a newline.
fn write_quoted_lines(text: &Vec<char>, out: &mut String)
    ensures
        final(out)@ == old(out)@ + quote_lines(text_lines(text@)),
{
    let ghost start = out@;
    let n = text.len();
    let mut i: usize = 0;
    assert(text@.skip(0) =~= text@);
    while i < n
        invariant
            n == text.len(),
            i <= n,
            start + quote_lines(text_lines(text@)) == out@ + quote_lines(text_lines(text@.skip(i as int))),
        decreases n - i,
    {
        let mut j = i;
        while j < n && text[j] != '\n'
            invariant
                i <= j <= n,
                n == text.len(),
                forall|k: int| i <= k < j ==> text@[k] != '\n',
            decreases n - j,
        {
            j += 1;
        }
        let ghost rest = text@.skip(i as int);
        proof {
            lemma_first_newline(rest, (j - i) as int);
        }
        let end = if j < n && j > i && text[j - 1] == '\r' { j - 1 } else { j };
        let line = crate::text::string_from(text, i, end);
        push_char(out, '>');
        push_char(out, ' ');
        push_str(out, line.as_str());
        push_char(out, '\n');
        if j < n {
            proof {
                assert(strip_cr(rest.take((j - i) as int)) =~= text@.subrange(i as int, end as int));
                assert(rest.skip((j - i) + 1) =~= text@.skip(j + 1));
                assert(text_lines(rest) == seq![strip_cr(rest.take((j - i) as int))] + text_lines(text@.skip(j + 1)));
            }
            i = j + 1;
        } else {
            proof {
                assert(rest =~= text@.subrange(i as int, end as int));
                assert(text_lines(rest) == seq![rest]);
                assert(text@.skip(n as int) =~= Seq::<char>::empty());
            }
            i = n;
        }
        proof {
            let ls = text_lines(rest);
            assert(ls.drop_first() == text_lines(text@.skip(i as int)));
        }
        assert(out@ + quote_lines(text_lines(text@.skip(i as int))) =~= start + quote_lines(text_lines(text@)));
    }
    assert(text@.skip(n as int) =~= Seq::<char>::empty());
    assert(final(out)@ =~= old(out)@ + quote_lines(text_lines(text@)));
}

fn write_cells(cells: &Vec<Vec<InlineNode>>, out: &mut String)
    ensures
        final(out)@ == old(out)@ + header_cells_text(cells@),
{
    let ghost start = out@;
    let mut i: usize = 0;
    while i < cells.len()
        invariant
            i <= cells.len(),
            out@ == start + header_cells_text(cells@.take(i as int)),
        decreases cells.len() - i,
    {
        push_char(out, ' ');
        write_inlines(&cells[i], out);
        push_char(out, ' ');
        push_char(out, '|');
        proof {
            assert(cells@.take(i + 1).drop_last() =~= cells@.take(i as int));
        }
        i += 1;
        assert(out@ =~= start + header_cells_text(cells@.take(i as int)));
    }
    assert(cells@.take(cells.len() as int) =~= cells@);
}

/// Appends the Markdown text of a document node.
pub fn write_node(n: &DocumentNode, out: &mut String)
    ensures
        final(out)@ == old(out)@ + node_text(*n),
    decreases *n,
{
    let ghost start = out@;
    match n {
        DocumentNode::Paragraph(c) => {
            write_inlines(c, out);
            push_char(out, '\n');
        },
        DocumentNode::Heading { level, content } => {
            let mut k: u8 = 0;
            while k < *level
                invariant
                    k <= *level,
                    out@ == start + Seq::new(k as nat, |i: int| '#'),
                decreases *level - k,
            {
                push_char(out, '#');
                k += 1;
                assert(out@ =~= start + Seq::new(k as nat, |i: int| '#'));
            }
            push_char(out, ' ');
            write_inlines(content, out);
            push_char(out, '\n');
        },
        DocumentNode::CodeBlock { language, content } => {
            push_char(out, '`');
            push_char(out, '`');
            push_char(out, '`');
            match language {
                Some(l) => {
                    push_str(out, l.as_str());
                },
                None => {},
            }
            push_char(out, '\n');
            push_str(out, content.as_str());
            push_char(out, '`');
            push_char(out, '`');
            push_char(out, '`');
            push_char(out, '\n');
        },
        DocumentNode::Blockquote(d) => {
            let mut inner = String::new();
            write_document(d, &mut inner);
            let chars = crate::text::chars_of(inner.as_str());
            write_quoted_lines(&chars, out);
        },
        DocumentNode::Table { headers, rows, .. } => {
            push_char(out, '|');
            write_cells(headers, out);
            push_char(out, '\n');
            push_char(out, '|');
            let ghost mid = out@;
            let mut k: usize = 0;
            while k < headers.len()
                invariant
                    k <= headers.len(),
                    out@ == mid + separator_text(k as nat),
                decreases headers.len() - k,
            {
                push_char(out, '-');
                push_char(out, '-');
                push_char(out, '-');
                push_char(out, '|');
                k += 1;
                assert(out@ =~= mid + separator_text(k as nat));
            }
            push_char(out, '\n');
            let ghost mid2 = out@;
            let mut r: usize = 0;
            while r < rows.len()
                invariant
                    r <= rows.len(),
                    out@ == mid2 + rows_text(rows@.take(r as int)),
                decreases rows.len() - r,
            {
                push_char(out, '|');
                write_cells(&rows[r], out);
                push_char(out, '\n');
                proof {
                    assert(rows@.take(r + 1).drop_last() =~= rows@.take(r as int));
                }
                r += 1;
                assert(out@ =~= mid2 + rows_text(rows@.take(r as int)));
            }
            assert(rows@.take(rows.len() as int) =~= rows@);
        },
        DocumentNode::OrderedList { start: first, items } => {
            write_ordered_items(*first, items, out);
        },
        DocumentNode::UnorderedList { items } => {
            write_unordered_items(items, out);
        },
        DocumentNode::HorizontalRule => {
            push_char(out, '-');
            push_char(out, '-');
            push_char(out, '-');
            push_char(out, '\n');
        },
    }
    assert(final(out)@ =~= old(out)@ + node_text(*n));
}

fn write_ordered_items(first: u64, items: &Vec<Document>, out: &mut String)
    ensures
        final(out)@ == old(out)@ + ordered_items_text(first as nat, items@),
    decreases *items,
{
    let ghost start = out@;
            let mut i: usize = 0;
            while i < items.len()
                invariant
                    i <= items.len(),
                    out@ == start + ordered_items_text(first as nat, items@.take(i as int)),
                decreases items.len() - i,
            {
                proof {
                    vstd::std_specs::vec::axiom_vec_index_decreases(*items, i as int);
                }
                push_nat_text(out, first as u128 + i as u128);
                push_char(out, '.');
                push_char(out, ' ');
                write_document(&items[i], out);
                proof {
                    assert(items@.take(i + 1).drop_last() =~= items@.take(i as int));
                }
                i += 1;
                assert(out@ =~= start + ordered_items_text(first as nat, items@.take(i as int)));
            }
            assert(items@.take(items.len() as int) =~= items@);
}

fn write_unordered_items(items: &Vec<Document>, out: &mut String)
    ensures
        final(out)@ == old(out)@ + unordered_items_text(items@),
    decreases *items,
{
    let ghost start = out@;
            let mut i: usize = 0;
            while i < items.len()
                invariant
                    i <= items.len(),
                    out@ == start + unordered_items_text(items@.take(i as int)),
                decreases items.len() - i,
            {
                proof {
                    vstd::std_specs::vec::axiom_vec_index_decreases(*items, i as int);
                }
                push_char(out, '-');
                push_char(out, ' ');
                write_document(&items[i], out);
                proof {
                    assert(items@.take(i + 1).drop_last() =~= items@.take(i as int));
                }
                i += 1;
                assert(out@ =~= start + unordered_items_text(items@.take(i as int)));
            }
            assert(items@.take(items.len() as int) =~= items@);
}

/// Appends the Markdown text of a document.
pub fn write_document(d: &Document, out: &mut String)
    ensures
        final(out)@ == old(out)@ + document_text(*d),
    decreases *d,
{
    write_nodes(&d.nodes, out);
}

/// Appends the texts of document nodes one after another.
pub fn write_nodes(v: &Vec<DocumentNode>, out: &mut String)
    ensures
        final(out)@ == old(out)@ + nodes_text(v@),
    decreases *v,
{
    let ghost start = out@;
    let mut i: usize = 0;
    while i < v.len()
        invariant
            i <= v.len(),
            out@ == start + nodes_text(v@.take(i as int)),
        decreases v.len() - i,
    {
        proof {
            vstd::std_specs::vec::axiom_vec_index_decreases(*v, i as int);
        }
        write_node(&v[i], out);
        proof {
            assert(v@.take(i + 1).drop_last() =~= v@.take(i as int));
        }
        i += 1;
    }
    assert(v@.take(v.len() as int) =~= v@);
}

impl Document {
    /// The Markdown text of the document, as it is displayed.
    pub fn to_text(&self) -> (s: String)
        ensures
            s@ == document_text(*self),
    {
        let mut s = String::new();
        write_nodes(&self.nodes, &mut s);
        assert(s@ =~= document_text(*self));
        s
    }
}

impl DocumentNode {
    /// The Markdown text of the node, as it is displayed.
    pub fn to_text(&self) -> (s: String)
        ensures
            s@ == node_text(*self),
    {
        let mut s = String::new();
        write_node(self, &mut s);
        assert(s@ =~= node_text(*self));
        s
    }
}


// ---------------------------------------------------------------------------
// Structural equality and copies
// ---------------------------------------------------------------------------

/// Two inline nodes have the same variant and equal fields (what a derived `==` compares).
pub open spec fn inline_same(a: InlineNode, b: InlineNode) -> bool
    decreases a, 1nat,
{
    match a {
        InlineNode::Text(x) => b matches InlineNode::Text(y) && x@ == y@,
        InlineNode::Strong(x) => b matches InlineNode::Strong(y) && inlines_same(x@, y@),
        InlineNode::Emphasis(x) => b matches InlineNode::Emphasis(y) && inlines_same(x@, y@),
        InlineNode::Strikethrough(x) => b matches InlineNode::Strikethrough(y) && inlines_same(
            x@,
            y@,
        ),
        InlineNode::CodeSpan(x) => b matches InlineNode::CodeSpan(y) && x@ == y@,
        InlineNode::Link { dest, title, content } => b matches InlineNode::Link {
            dest: d2,
            title: t2,
            content: c2,
        } && dest@ == d2@ && title@ == t2@ && inlines_same(content@, c2@),
        InlineNode::Image { dest, title, alt } => b matches InlineNode::Image {
            dest: d2,
            title: t2,
            alt: a2,
        } && dest@ == d2@ && title@ == t2@ && inlines_same(alt@, a2@),
        InlineNode::SoftBreak => b is SoftBreak,
        InlineNode::HardBreak => b is HardBreak,
    }
}

pub open spec fn inlines_same(a: Seq<InlineNode>, b: Seq<InlineNode>) -> bool
    decreases a, 0nat,
{
    a.len() == b.len() && (a.len() == 0 || (inlines_same(a.drop_last(), b.drop_last())
        && inline_same(a.last(), b.last())))
}

pub open spec fn cells_same(a: Seq<Vec<InlineNode>>, b: Seq<Vec<InlineNode>>) -> bool
    decreases a,
{
    a.len() == b.len() && (a.len() == 0 || (cells_same(a.drop_last(), b.drop_last())
        && inlines_same(a.last()@, b.last()@)))
}

pub open spec fn rows_same(a: Seq<Vec<Vec<InlineNode>>>, b: Seq<Vec<Vec<InlineNode>>>) -> bool
    decreases a,
{
    a.len() == b.len() && (a.len() == 0 || (rows_same(a.drop_last(), b.drop_last())
        && cells_same(a.last()@, b.last()@)))
}

pub open spec fn node_same(a: DocumentNode, b: DocumentNode) -> bool
    decreases a, 2nat,
{
    match a {
        DocumentNode::Paragraph(x) => b matches DocumentNode::Paragraph(y) && inlines_same(x@, y@),
        DocumentNode::Heading { level, content } => b matches DocumentNode::Heading {
            level: l2,
            content: c2,
        } && level == l2 && inlines_same(content@, c2@),
        DocumentNode::CodeBlock { language, content } => b matches DocumentNode::CodeBlock {
            language: l2,
            content: c2,
        } && content@ == c2@ && (match (language, l2) {
            (Some(x), Some(y)) => x@ == y@,
            (None, None) => true,
            _ => false,
        }),
        DocumentNode::Blockquote(d) => b matches DocumentNode::Blockquote(d2) && nodes_same(
            d.nodes@,
            d2.nodes@,
        ),
        DocumentNode::Table { alignments, headers, rows } => b matches DocumentNode::Table {
            alignments: a2,
            headers: h2,
            rows: r2,
        } && alignments@ == a2@ && cells_same(headers@, h2@) && rows_same(rows@, r2@),
        DocumentNode::OrderedList { start, items } => b matches DocumentNode::OrderedList {
            start: s2,
            items: i2,
        } && start == s2 && documents_same(items@, i2@),
        DocumentNode::UnorderedList { items } => b matches DocumentNode::UnorderedList {
            items: i2,
        } && documents_same(items@, i2@),
        DocumentNode::HorizontalRule => b is HorizontalRule,
    }
}

pub open spec fn nodes_same(a: Seq<DocumentNode>, b: Seq<DocumentNode>) -> bool
    decreases a, 1nat,
{
    a.len() == b.len() && (a.len() == 0 || (nodes_same(a.drop_last(), b.drop_last())
        && node_same(a.last(), b.last())))
}

pub open spec fn documents_same(a: Seq<Document>, b: Seq<Document>) -> bool
    decreases a, 0nat,
{
    a.len() == b.len() && (a.len() == 0 || (documents_same(a.drop_last(), b.drop_last())
        && nodes_same(a.last().nodes@, b.last().nodes@)))
}

pub open spec fn document_same(a: Document, b: Document) -> bool {
    nodes_same(a.nodes@, b.nodes@)
}

proof fn lemma_inline_same_sym(a: InlineNode, b: InlineNode)
    requires
        inline_same(a, b),
    ensures
        inline_same(b, a),
    decreases a, 1nat,
{
    match a {
        InlineNode::Strong(x) => {
            if let InlineNode::Strong(y) = b {
                lemma_inlines_same_sym(x@, y@);
            }
        },
        InlineNode::Emphasis(x) => {
            if let InlineNode::Emphasis(y) = b {
                lemma_inlines_same_sym(x@, y@);
            }
        },
        InlineNode::Strikethrough(x) => {
            if let InlineNode::Strikethrough(y) = b {
                lemma_inlines_same_sym(x@, y@);
            }
        },
        InlineNode::Link { content, .. } => {
            if let InlineNode::Link { content: c2, .. } = b {
                lemma_inlines_same_sym(content@, c2@);
            }
        },
        InlineNode::Image { alt, .. } => {
            if let InlineNode::Image { alt: a2, .. } = b {
                lemma_inlines_same_sym(alt@, a2@);
            }
        },
        _ => {},
    }
}

proof fn lemma_inlines_same_sym(a: Seq<InlineNode>, b: Seq<InlineNode>)
    requires
        inlines_same(a, b),
    ensures
        inlines_same(b, a),
    decreases a, 0nat,
{
    if a.len() > 0 {
        lemma_inlines_same_sym(a.drop_last(), b.drop_last());
        lemma_inline_same_sym(a.last(), b.last());
    }
}

proof fn lemma_cells_same_sym(a: Seq<Vec<InlineNode>>, b: Seq<Vec<InlineNode>>)
    requires
        cells_same(a, b),
    ensures
        cells_same(b, a),
    decreases a.len(),
{
    if a.len() > 0 {
        lemma_cells_same_sym(a.drop_last(), b.drop_last());
        lemma_inlines_same_sym(a.last()@, b.last()@);
    }
}

proof fn lemma_rows_same_sym(a: Seq<Vec<Vec<InlineNode>>>, b: Seq<Vec<Vec<InlineNode>>>)
    requires
        rows_same(a, b),
    ensures
        rows_same(b, a),
    decreases a.len(),
{
    if a.len() > 0 {
        lemma_rows_same_sym(a.drop_last(), b.drop_last());
        lemma_cells_same_sym(a.last()@, b.last()@);
    }
}

proof fn lemma_node_same_sym(a: DocumentNode, b: DocumentNode)
    requires
        node_same(a, b),
    ensures
        node_same(b, a),
    decreases a, 2nat,
{
    match a {
        DocumentNode::Paragraph(x) => {
            if let DocumentNode::Paragraph(y) = b {
                lemma_inlines_same_sym(x@, y@);
            }
        },
        DocumentNode::Heading { content, .. } => {
            if let DocumentNode::Heading { content: c2, .. } = b {
                lemma_inlines_same_sym(content@, c2@);
            }
        },
        DocumentNode::Blockquote(d) => {
            if let DocumentNode::Blockquote(d2) = b {
                lemma_nodes_same_sym(d.nodes@, d2.nodes@);
            }
        },
        DocumentNode::Table { headers, rows, .. } => {
            if let DocumentNode::Table { headers: h2, rows: r2, .. } = b {
                lemma_cells_same_sym(headers@, h2@);
                lemma_rows_same_sym(rows@, r2@);
            }
        },
        DocumentNode::OrderedList { items, .. } => {
            if let DocumentNode::OrderedList { items: i2, .. } = b {
                lemma_documents_same_sym(items@, i2@);
            }
        },
        DocumentNode::UnorderedList { items } => {
            if let DocumentNode::UnorderedList { items: i2 } = b {
                lemma_documents_same_sym(items@, i2@);
            }
        },
        _ => {},
    }
}

proof fn lemma_nodes_same_sym(a: Seq<DocumentNode>, b: Seq<DocumentNode>)
    requires
        nodes_same(a, b),
    ensures
        nodes_same(b, a),
    decreases a, 1nat,
{
    if a.len() > 0 {
        lemma_nodes_same_sym(a.drop_last(), b.drop_last());
        lemma_node_same_sym(a.last(), b.last());
    }
}

proof fn lemma_documents_same_sym(a: Seq<Document>, b: Seq<Document>)
    requires
        documents_same(a, b),
    ensures
        documents_same(b, a),
    decreases a, 0nat,
{
    if a.len() > 0 {
        lemma_documents_same_sym(a.drop_last(), b.drop_last());
        lemma_nodes_same_sym(a.last().nodes@, b.last().nodes@);
    }
}

proof fn lemma_inline_same_refl(a: InlineNode)
    ensures
        inline_same(a, a),
    decreases a, 1nat,
{
    match a {
        InlineNode::Strong(x) => {
            lemma_inlines_same_refl(x@);
        },
        InlineNode::Emphasis(x) => {
            lemma_inlines_same_refl(x@);
        },
        InlineNode::Strikethrough(x) => {
            lemma_inlines_same_refl(x@);
        },
        InlineNode::Link { content, .. } => {
            lemma_inlines_same_refl(content@);
        },
        InlineNode::Image { alt, .. } => {
            lemma_inlines_same_refl(alt@);
        },
        _ => {},
    }
}

proof fn lemma_inlines_same_refl(a: Seq<InlineNode>)
    ensures
        inlines_same(a, a),
    decreases a, 0nat,
{
    if a.len() > 0 {
        lemma_inlines_same_refl(a.drop_last());
        lemma_inline_same_refl(a.last());
    }
}

proof fn lemma_cells_same_refl(a: Seq<Vec<InlineNode>>)
    ensures
        cells_same(a, a),
    decreases a.len(),
{
    if a.len() > 0 {
        lemma_cells_same_refl(a.drop_last());
        lemma_inlines_same_refl(a.last()@);
    }
}

proof fn lemma_rows_same_refl(a: Seq<Vec<Vec<InlineNode>>>)
    ensures
        rows_same(a, a),
    decreases a.len(),
{
    if a.len() > 0 {
        lemma_rows_same_refl(a.drop_last());
        lemma_cells_same_refl(a.last()@);
    }
}

proof fn lemma_node_same_refl(a: DocumentNode)
    ensures
        node_same(a, a),
    decreases a, 2nat,
{
    match a {
        DocumentNode::Paragraph(x) => {
            lemma_inlines_same_refl(x@);
        },
        DocumentNode::Heading { content, .. } => {
            lemma_inlines_same_refl(content@);
        },
        DocumentNode::Blockquote(d) => {
            lemma_nodes_same_refl(d.nodes@);
        },
        DocumentNode::Table { headers, rows, .. } => {
            lemma_cells_same_refl(headers@);
            lemma_rows_same_refl(rows@);
        },
        DocumentNode::OrderedList { items, .. } => {
            lemma_documents_same_refl(items@);
        },
        DocumentNode::UnorderedList { items } => {
            lemma_documents_same_refl(items@);
        },
        _ => {},
    }
}

proof fn lemma_nodes_same_refl(a: Seq<DocumentNode>)
    ensures
        nodes_same(a, a),
    decreases a, 1nat,
{
    if a.len() > 0 {
        lemma_nodes_same_refl(a.drop_last());
        lemma_node_same_refl(a.last());
    }
}

proof fn lemma_documents_same_refl(a: Seq<Document>)
    ensures
        documents_same(a, a),
    decreases a, 0nat,
{
    if a.len() > 0 {
        lemma_documents_same_refl(a.drop_last());
        lemma_nodes_same_refl(a.last().nodes@);
    }
}

/// Structural equality of documents is reflexive.
pub proof fn law_document_same_reflexive(a: Document)
    ensures
        document_same(a, a),
{
    lemma_nodes_same_refl(a.nodes@);
}

/// Structural equality of documents is symmetric.
pub proof fn law_document_same_symmetric(a: Document, b: Document)
    ensures
        document_same(a, b) == document_same(b, a),
{
    if document_same(a, b) {
        lemma_nodes_same_sym(a.nodes@, b.nodes@);
    }
    if document_same(b, a) {
        lemma_nodes_same_sym(b.nodes@, a.nodes@);
    }
}

fn strings_equal(a: &String, b: &String) -> (r: bool)
    ensures
        r == (a@ == b@),
{
    *a == *b
}

/// Whether two inline nodes are structurally equal.
pub fn inline_equal(a: &InlineNode, b: &InlineNode) -> (r: bool)
    ensures
        r == inline_same(*a, *b),
    decreases *a,
{
    match (a, b) {
        (InlineNode::Text(x), InlineNode::Text(y)) => strings_equal(x, y),
        (InlineNode::Strong(x), InlineNode::Strong(y)) => inlines_equal(x, y),
        (InlineNode::Emphasis(x), InlineNode::Emphasis(y)) => inlines_equal(x, y),
        (InlineNode::Strikethrough(x), InlineNode::Strikethrough(y)) => inlines_equal(x, y),
        (InlineNode::CodeSpan(x), InlineNode::CodeSpan(y)) => strings_equal(x, y),
        (
            InlineNode::Link { dest, title, content },
            InlineNode::Link { dest: d2, title: t2, content: c2 },
        ) => strings_equal(dest, d2) && strings_equal(title, t2) && inlines_equal(content, c2),
        (
            InlineNode::Image { dest, title, alt },
            InlineNode::Image { dest: d2, title: t2, alt: a2 },
        ) => strings_equal(dest, d2) && strings_equal(title, t2) && inlines_equal(alt, a2),
        (InlineNode::SoftBreak, InlineNode::SoftBreak) => true,
        (InlineNode::HardBreak, InlineNode::HardBreak) => true,
        _ => false,
    }
}

pub fn inlines_equal(a: &Vec<InlineNode>, b: &Vec<InlineNode>) -> (r: bool)
    ensures
        r == inlines_same(a@, b@),
    decreases *a,
{
    if a.len() != b.len() {
        return false;
    }
    let mut i: usize = 0;
    while i < a.len()
        invariant
            i <= a.len() == b.len(),
            inlines_same(a@.take(i as int), b@.take(i as int)),
        decreases a.len() - i,
    {
        proof {
            vstd::std_specs::vec::axiom_vec_index_decreases(*a, i as int);
        }
        let e = inline_equal(&a[i], &b[i]);
        proof {
            assert(a@.take(i + 1).drop_last() =~= a@.take(i as int));
            assert(b@.take(i + 1).drop_last() =~= b@.take(i as int));
        }
        if !e {
            proof {
                if inlines_same(a@, b@) {
                    lemma_inlines_same_prefix(a@, b@, i + 1);
                    assert(a@.take(i + 1).last() == a@[i as int]);
                    assert(b@.take(i + 1).last() == b@[i as int]);
                }
            }
            return false;
        }
        i += 1;
    }
    assert(a@.take(a.len() as int) =~= a@);
    assert(b@.take(b.len() as int) =~= b@);
    true
}

proof fn lemma_inlines_same_prefix(a: Seq<InlineNode>, b: Seq<InlineNode>, k: int)
    requires
        0 <= k <= a.len(),
        inlines_same(a, b),
    ensures
        inlines_same(a.take(k), b.take(k)),
    decreases a.len(),
{
    if k < a.len() {
        assert(a.drop_last().take(k) =~= a.take(k));
        assert(b.drop_last().take(k) =~= b.take(k));
        lemma_inlines_same_prefix(a.drop_last(), b.drop_last(), k);
    } else {
        assert(a.take(k) =~= a);
        assert(b.take(k) =~= b);
    }
}

/// Inline nodes that are the same by content are the same one for one.
pub(crate) proof fn lemma_inlines_same_index(x: Seq<InlineNode>, y: Seq<InlineNode>)
    requires
        inlines_same(x, y),
    ensures
        x.len() == y.len(),
        forall|i: int| 0 <= i < x.len() ==> inline_same(#[trigger] x[i], y[i]),
    decreases x.len(),
{
    if x.len() > 0 {
        lemma_inlines_same_index(x.drop_last(), y.drop_last());
        assert forall|i: int| 0 <= i < x.len() implies inline_same(#[trigger] x[i], y[i]) by {
            if i < x.len() - 1 {
                assert(x[i] == x.drop_last()[i]);
                assert(y[i] == y.drop_last()[i]);
            }
        }
    }
}

/// Cells that are the same by content are the same one for one.
pub(crate) proof fn lemma_cells_same_index(x: Seq<Vec<InlineNode>>, y: Seq<Vec<InlineNode>>)
    requires
        cells_same(x, y),
    ensures
        x.len() == y.len(),
        forall|i: int| 0 <= i < x.len() ==> inlines_same(#[trigger] x[i]@, y[i]@),
    decreases x.len(),
{
    if x.len() > 0 {
        lemma_cells_same_index(x.drop_last(), y.drop_last());
        assert forall|i: int| 0 <= i < x.len() implies inlines_same(#[trigger] x[i]@, y[i]@) by {
            if i < x.len() - 1 {
                assert(x[i] == x.drop_last()[i]);
                assert(y[i] == y.drop_last()[i]);
            }
        }
    }
}

/// Rows that are the same by content are the same one for one.
pub(crate) proof fn lemma_rows_same_index(x: Seq<Vec<Vec<InlineNode>>>, y: Seq<Vec<Vec<InlineNode>>>)
    requires
        rows_same(x, y),
    ensures
        x.len() == y.len(),
        forall|i: int| 0 <= i < x.len() ==> cells_same(#[trigger] x[i]@, y[i]@),
    decreases x.len(),
{
    if x.len() > 0 {
        lemma_rows_same_index(x.drop_last(), y.drop_last());
        assert forall|i: int| 0 <= i < x.len() implies cells_same(#[trigger] x[i]@, y[i]@) by {
            if i < x.len() - 1 {
                assert(x[i] == x.drop_last()[i]);
                assert(y[i] == y.drop_last()[i]);
            }
        }
    }
}

/// Nodes that are the same by content are the same one for one.
pub(crate) proof fn lemma_nodes_same_index(x: Seq<DocumentNode>, y: Seq<DocumentNode>)
    requires
        nodes_same(x, y),
    ensures
        x.len() == y.len(),
        forall|i: int| 0 <= i < x.len() ==> node_same(#[trigger] x[i], y[i]),
    decreases x.len(),
{
    if x.len() > 0 {
        lemma_nodes_same_index(x.drop_last(), y.drop_last());
        assert forall|i: int| 0 <= i < x.len() implies node_same(#[trigger] x[i], y[i]) by {
            if i < x.len() - 1 {
                assert(x[i] == x.drop_last()[i]);
                assert(y[i] == y.drop_last()[i]);
            }
        }
    }
}

/// Inline nodes that are the same by content have the same Markdown text.
pub(crate) proof fn lemma_inline_text_same(a: InlineNode, b: InlineNode)
    requires
        inline_same(a, b),
    ensures
        inline_text(a) == inline_text(b),
    decreases a, 1nat,
{
    match (a, b) {
        (InlineNode::Strong(x), InlineNode::Strong(y)) => lemma_inlines_text_same(x@, y@),
        (InlineNode::Emphasis(x), InlineNode::Emphasis(y)) => lemma_inlines_text_same(x@, y@),
        (InlineNode::Strikethrough(x), InlineNode::Strikethrough(y)) => lemma_inlines_text_same(x@, y@),
        (InlineNode::Link { content: x, .. }, InlineNode::Link { content: y, .. }) => lemma_inlines_text_same(x@, y@),
        (InlineNode::Image { alt: x, .. }, InlineNode::Image { alt: y, .. }) => lemma_inlines_text_same(x@, y@),
        _ => {},
    }
}

pub(crate) proof fn lemma_inlines_text_same(a: Seq<InlineNode>, b: Seq<InlineNode>)
    requires
        inlines_same(a, b),
    ensures
        inlines_text(a) == inlines_text(b),
    decreases a, 0nat,
{
    if a.len() > 0 {
        lemma_inlines_text_same(a.drop_last(), b.drop_last());
        lemma_inline_text_same(a.last(), b.last());
    }
}

/// A copy of an inline node.
pub fn clone_inline(a: &InlineNode) -> (r: InlineNode)
    ensures
        inline_same(r, *a),
    decreases *a,
{
    match a {
        InlineNode::Text(x) => InlineNode::Text(x.clone()),
        InlineNode::Strong(x) => InlineNode::Strong(clone_inlines(x)),
        InlineNode::Emphasis(x) => InlineNode::Emphasis(clone_inlines(x)),
        InlineNode::Strikethrough(x) => InlineNode::Strikethrough(clone_inlines(x)),
        InlineNode::CodeSpan(x) => InlineNode::CodeSpan(x.clone()),
        InlineNode::Link { dest, title, content } => InlineNode::Link {
            dest: dest.clone(),
            title: title.clone(),
            content: clone_inlines(content),
        },
        InlineNode::Image { dest, title, alt } => InlineNode::Image {
            dest: dest.clone(),
            title: title.clone(),
            alt: clone_inlines(alt),
        },
        InlineNode::SoftBreak => InlineNode::SoftBreak,
        InlineNode::HardBreak => InlineNode::HardBreak,
    }
}

pub fn clone_inlines(a: &Vec<InlineNode>) -> (r: Vec<InlineNode>)
    ensures
        inlines_same(r@, a@),
    decreases *a,
{
    let mut r: Vec<InlineNode> = Vec::new();
    let mut i: usize = 0;
    while i < a.len()
        invariant
            i <= a.len(),
            inlines_same(r@, a@.take(i as int)),
        decreases a.len() - i,
    {
        proof {
            vstd::std_specs::vec::axiom_vec_index_decreases(*a, i as int);
        }
        let c = clone_inline(&a[i]);
        let ghost before = r@;
        r.push(c);
        proof {
            assert(r@.drop_last() =~= before);
            assert(a@.take(i + 1).drop_last() =~= a@.take(i as int));
        }
        i += 1;
    }
    assert(a@.take(a.len() as int) =~= a@);
    r
}

impl Clone for InlineNode {
    fn clone(&self) -> (r: Self)
        ensures
            inline_same(r, *self),
    {
        clone_inline(self)
    }
}


proof fn lemma_cells_prefix(a: Seq<Vec<InlineNode>>, b: Seq<Vec<InlineNode>>, k: int)
    requires
        0 <= k <= a.len(),
        cells_same(a, b),
    ensures
        cells_same(a.take(k), b.take(k)),
    decreases a.len(),
{
    if k < a.len() {
        assert(a.drop_last().take(k) =~= a.take(k));
        assert(b.drop_last().take(k) =~= b.take(k));
        lemma_cells_prefix(a.drop_last(), b.drop_last(), k);
    } else {
        assert(a.take(k) =~= a);
        assert(b.take(k) =~= b);
    }
}

pub fn cells_equal(a: &Vec<Vec<InlineNode>>, b: &Vec<Vec<InlineNode>>) -> (r: bool)
    ensures
        r == cells_same(a@, b@),
    decreases *a,
{
    if a.len() != b.len() {
        return false;
    }
    let mut i: usize = 0;
    while i < a.len()
        invariant
            i <= a.len() == b.len(),
            cells_same(a@.take(i as int), b@.take(i as int)),
        decreases a.len() - i,
    {
        proof {
            vstd::std_specs::vec::axiom_vec_index_decreases(*a, i as int);
        }
        let e = inlines_equal(&a[i], &b[i]);
        proof {
            assert(a@.take(i + 1).drop_last() =~= a@.take(i as int));
            assert(b@.take(i + 1).drop_last() =~= b@.take(i as int));
            assert(a@.take(i + 1).last() == a@[i as int]);
            assert(b@.take(i + 1).last() == b@[i as int]);
        }
        if !e {
            proof {
                if cells_same(a@, b@) {
                    lemma_cells_prefix(a@, b@, i + 1);
                }
            }
            return false;
        }
        i += 1;
    }
    assert(a@.take(a.len() as int) =~= a@);
    assert(b@.take(b.len() as int) =~= b@);
    true
}

pub fn clone_cells(a: &Vec<Vec<InlineNode>>) -> (r: Vec<Vec<InlineNode>>)
    ensures
        cells_same(r@, a@),
    decreases *a,
{
    let mut r: Vec<Vec<InlineNode>> = Vec::new();
    let mut i: usize = 0;
    while i < a.len()
        invariant
            i <= a.len(),
            cells_same(r@, a@.take(i as int)),
        decreases a.len() - i,
    {
        proof {
            vstd::std_specs::vec::axiom_vec_index_decreases(*a, i as int);
        }
        let c = clone_inlines(&a[i]);
        let ghost before = r@;
        r.push(c);
        proof {
            assert(r@.drop_last() =~= before);
            assert(a@.take(i + 1).drop_last() =~= a@.take(i as int));
        }
        i += 1;
    }
    assert(a@.take(a.len() as int) =~= a@);
    r
}

proof fn lemma_rows_prefix(a: Seq<Vec<Vec<InlineNode>>>, b: Seq<Vec<Vec<InlineNode>>>, k: int)
    requires
        0 <= k <= a.len(),
        rows_same(a, b),
    ensures
        rows_same(a.take(k), b.take(k)),
    decreases a.len(),
{
    if k < a.len() {
        assert(a.drop_last().take(k) =~= a.take(k));
        assert(b.drop_last().take(k) =~= b.take(k));
        lemma_rows_prefix(a.drop_last(), b.drop_last(), k);
    } else {
        assert(a.take(k) =~= a);
        assert(b.take(k) =~= b);
    }
}

pub fn rows_equal(a: &Vec<Vec<Vec<InlineNode>>>, b: &Vec<Vec<Vec<InlineNode>>>) -> (r: bool)
    ensures
        r == rows_same(a@, b@),
    decreases *a,
{
    if a.len() != b.len() {
        return false;
    }
    let mut i: usize = 0;
    while i < a.len()
        invariant
            i <= a.len() == b.len(),
            rows_same(a@.take(i as int), b@.take(i as int)),
        decreases a.len() - i,
    {
        proof {
            vstd::std_specs::vec::axiom_vec_index_decreases(*a, i as int);
        }
        let e = cells_equal(&a[i], &b[i]);
        proof {
            assert(a@.take(i + 1).drop_last() =~= a@.take(i as int));
            assert(b@.take(i + 1).drop_last() =~= b@.take(i as int));
            assert(a@.take(i + 1).last() == a@[i as int]);
            assert(b@.take(i + 1).last() == b@[i as int]);
        }
        if !e {
            proof {
                if rows_same(a@, b@) {
                    lemma_rows_prefix(a@, b@, i + 1);
                }
            }
            return false;
        }
        i += 1;
    }
    assert(a@.take(a.len() as int) =~= a@);
    assert(b@.take(b.len() as int) =~= b@);
    true
}

pub fn clone_rows(a: &Vec<Vec<Vec<InlineNode>>>) -> (r: Vec<Vec<Vec<InlineNode>>>)
    ensures
        rows_same(r@, a@),
    decreases *a,
{
    let mut r: Vec<Vec<Vec<InlineNode>>> = Vec::new();
    let mut i: usize = 0;
    while i < a.len()
        invariant
            i <= a.len(),
            rows_same(r@, a@.take(i as int)),
        decreases a.len() - i,
    {
        proof {
            vstd::std_specs::vec::axiom_vec_index_decreases(*a, i as int);
        }
        let c = clone_cells(&a[i]);
        let ghost before = r@;
        r.push(c);
        proof {
            assert(r@.drop_last() =~= before);
            assert(a@.take(i + 1).drop_last() =~= a@.take(i as int));
        }
        i += 1;
    }
    assert(a@.take(a.len() as int) =~= a@);
    r
}

proof fn lemma_nodes_prefix(a: Seq<DocumentNode>, b: Seq<DocumentNode>, k: int)
    requires
        0 <= k <= a.len(),
        nodes_same(a, b),
    ensures
        nodes_same(a.take(k), b.take(k)),
    decreases a.len(),
{
    if k < a.len() {
        assert(a.drop_last().take(k) =~= a.take(k));
        assert(b.drop_last().take(k) =~= b.take(k));
        lemma_nodes_prefix(a.drop_last(), b.drop_last(), k);
    } else {
        assert(a.take(k) =~= a);
        assert(b.take(k) =~= b);
    }
}

pub fn nodes_equal(a: &Vec<DocumentNode>, b: &Vec<DocumentNode>) -> (r: bool)
    ensures
        r == nodes_same(a@, b@),
    decreases *a,
{
    if a.len() != b.len() {
        return false;
    }
    let mut i: usize = 0;
    while i < a.len()
        invariant
            i <= a.len() == b.len(),
            nodes_same(a@.take(i as int), b@.take(i as int)),
        decreases a.len() - i,
    {
        proof {
            vstd::std_specs::vec::axiom_vec_index_decreases(*a, i as int);
        }
        let e = node_equal(&a[i], &b[i]);
        proof {
            assert(a@.take(i + 1).drop_last() =~= a@.take(i as int));
            assert(b@.take(i + 1).drop_last() =~= b@.take(i as int));
            assert(a@.take(i + 1).last() == a@[i as int]);
            assert(b@.take(i + 1).last() == b@[i as int]);
        }
        if !e {
            proof {
                if nodes_same(a@, b@) {
                    lemma_nodes_prefix(a@, b@, i + 1);
                }
            }
            return false;
        }
        i += 1;
    }
    assert(a@.take(a.len() as int) =~= a@);
    assert(b@.take(b.len() as int) =~= b@);
    true
}

pub fn clone_nodes(a: &Vec<DocumentNode>) -> (r: Vec<DocumentNode>)
    ensures
        nodes_same(r@, a@),
    decreases *a,
{
    let mut r: Vec<DocumentNode> = Vec::new();
    let mut i: usize = 0;
    while i < a.len()
        invariant
            i <= a.len(),
            nodes_same(r@, a@.take(i as int)),
        decreases a.len() - i,
    {
        proof {
            vstd::std_specs::vec::axiom_vec_index_decreases(*a, i as int);
        }
        let c = clone_node(&a[i]);
        let ghost before = r@;
        r.push(c);
        proof {
            assert(r@.drop_last() =~= before);
            assert(a@.take(i + 1).drop_last() =~= a@.take(i as int));
        }
        i += 1;
    }
    assert(a@.take(a.len() as int) =~= a@);
    r
}

proof fn lemma_documents_prefix(a: Seq<Document>, b: Seq<Document>, k: int)
    requires
        0 <= k <= a.len(),
        documents_same(a, b),
    ensures
        documents_same(a.take(k), b.take(k)),
    decreases a.len(),
{
    if k < a.len() {
        assert(a.drop_last().take(k) =~= a.take(k));
        assert(b.drop_last().take(k) =~= b.take(k));
        lemma_documents_prefix(a.drop_last(), b.drop_last(), k);
    } else {
        assert(a.take(k) =~= a);
        assert(b.take(k) =~= b);
    }
}

pub fn documents_equal(a: &Vec<Document>, b: &Vec<Document>) -> (r: bool)
    ensures
        r == documents_same(a@, b@),
    decreases *a,
{
    if a.len() != b.len() {
        return false;
    }
    let mut i: usize = 0;
    while i < a.len()
        invariant
            i <= a.len() == b.len(),
            documents_same(a@.take(i as int), b@.take(i as int)),
        decreases a.len() - i,
    {
        proof {
            vstd::std_specs::vec::axiom_vec_index_decreases(*a, i as int);
        }
        let e = document_equal(&a[i], &b[i]);
        proof {
            assert(a@.take(i + 1).drop_last() =~= a@.take(i as int));
            assert(b@.take(i + 1).drop_last() =~= b@.take(i as int));
            assert(a@.take(i + 1).last() == a@[i as int]);
            assert(b@.take(i + 1).last() == b@[i as int]);
        }
        if !e {
            proof {
                if documents_same(a@, b@) {
                    lemma_documents_prefix(a@, b@, i + 1);
                }
            }
            return false;
        }
        i += 1;
    }
    assert(a@.take(a.len() as int) =~= a@);
    assert(b@.take(b.len() as int) =~= b@);
    true
}

pub fn clone_documents(a: &Vec<Document>) -> (r: Vec<Document>)
    ensures
        documents_same(r@, a@),
    decreases *a,
{
    let mut r: Vec<Document> = Vec::new();
    let mut i: usize = 0;
    while i < a.len()
        invariant
            i <= a.len(),
            documents_same(r@, a@.take(i as int)),
        decreases a.len() - i,
    {
        proof {
            vstd::std_specs::vec::axiom_vec_index_decreases(*a, i as int);
        }
        let c = clone_document(&a[i]);
        let ghost before = r@;
        r.push(c);
        proof {
            assert(r@.drop_last() =~= before);
            assert(a@.take(i + 1).drop_last() =~= a@.take(i as int));
        }
        i += 1;
    }
    assert(a@.take(a.len() as int) =~= a@);
    r
}

fn alignments_equal(a: &Vec<ColumnAlignment>, b: &Vec<ColumnAlignment>) -> (r: bool)
    ensures
        r == (a@ == b@),
{
    if a.len() != b.len() {
        return false;
    }
    let mut i: usize = 0;
    while i < a.len()
        invariant
            i <= a.len() == b.len(),
            forall|j: int| 0 <= j < i ==> a@[j] == b@[j],
        decreases a.len() - i,
    {
        if a[i] != b[i] {
            return false;
        }
        i += 1;
    }
    assert(a@ =~= b@);
    true
}

fn clone_alignments(a: &Vec<ColumnAlignment>) -> (r: Vec<ColumnAlignment>)
    ensures
        r@ == a@,
{
    let mut r: Vec<ColumnAlignment> = Vec::new();
    let mut i: usize = 0;
    while i < a.len()
        invariant
            i <= a.len(),
            r@ == a@.take(i as int),
        decreases a.len() - i,
    {
        r.push(a[i]);
        i += 1;
        assert(r@ =~= a@.take(i as int));
    }
    assert(a@.take(a.len() as int) =~= a@);
    r
}

/// Whether two document nodes are structurally equal.
pub fn node_equal(a: &DocumentNode, b: &DocumentNode) -> (r: bool)
    ensures
        r == node_same(*a, *b),
    decreases *a,
{
    match (a, b) {
        (DocumentNode::Paragraph(x), DocumentNode::Paragraph(y)) => inlines_equal(x, y),
        (
            DocumentNode::Heading { level, content },
            DocumentNode::Heading { level: l2, content: c2 },
        ) => *level == *l2 && inlines_equal(content, c2),
        (
            DocumentNode::CodeBlock { language, content },
            DocumentNode::CodeBlock { language: l2, content: c2 },
        ) => {
            let same_language = match (language, l2) {
                (Some(x), Some(y)) => strings_equal(x, y),
                (None, None) => true,
                _ => false,
            };
            same_language && strings_equal(content, c2)
        },
        (DocumentNode::Blockquote(d), DocumentNode::Blockquote(d2)) => document_equal(d, d2),
        (
            DocumentNode::Table { alignments, headers, rows },
            DocumentNode::Table { alignments: a2, headers: h2, rows: r2 },
        ) => alignments_equal(alignments, a2) && cells_equal(headers, h2) && rows_equal(rows, r2),
        (
            DocumentNode::OrderedList { start, items },
            DocumentNode::OrderedList { start: s2, items: i2 },
        ) => *start == *s2 && documents_equal(items, i2),
        (DocumentNode::UnorderedList { items }, DocumentNode::UnorderedList { items: i2 }) => {
            documents_equal(items, i2)
        },
        (DocumentNode::HorizontalRule, DocumentNode::HorizontalRule) => true,
        _ => false,
    }
}

/// Whether two documents are structurally equal.
pub fn document_equal(a: &Document, b: &Document) -> (r: bool)
    ensures
        r == document_same(*a, *b),
    decreases *a,
{
    nodes_equal(&a.nodes, &b.nodes)
}

/// A copy of a document node.
pub fn clone_node(a: &DocumentNode) -> (r: DocumentNode)
    ensures
        node_same(r, *a),
    decreases *a,
{
    match a {
        DocumentNode::Paragraph(x) => DocumentNode::Paragraph(clone_inlines(x)),
        DocumentNode::Heading { level, content } => DocumentNode::Heading {
            level: *level,
            content: clone_inlines(content),
        },
        DocumentNode::CodeBlock { language, content } => DocumentNode::CodeBlock {
            language: match language {
                Some(l) => Some(l.clone()),
                None => None,
            },
            content: content.clone(),
        },
        DocumentNode::Blockquote(d) => DocumentNode::Blockquote(clone_document(d)),
        DocumentNode::Table { alignments, headers, rows } => DocumentNode::Table {
            alignments: clone_alignments(alignments),
            headers: clone_cells(headers),
            rows: clone_rows(rows),
        },
        DocumentNode::OrderedList { start, items } => DocumentNode::OrderedList {
            start: *start,
            items: clone_documents(items),
        },
        DocumentNode::UnorderedList { items } => DocumentNode::UnorderedList {
            items: clone_documents(items),
        },
        DocumentNode::HorizontalRule => DocumentNode::HorizontalRule,
    }
}

/// A copy of a document.
pub fn clone_document(a: &Document) -> (r: Document)
    ensures
        document_same(r, *a),
    decreases *a,
{
    Document { nodes: clone_nodes(&a.nodes) }
}

impl Clone for DocumentNode {
    fn clone(&self) -> (r: Self)
        ensures
            node_same(r, *self),
    {
        clone_node(self)
    }
}

impl Clone for Document {
    fn clone(&self) -> (r: Self)
        ensures
            document_same(r, *self),
    {
        clone_document(self)
    }
}

} // verus!
