//! The program model: blocks, their instruction chains, and the expression tree.
use vstd::prelude::*;
use std::ops::Range;
use crate::document::{Document, clone_document};
use crate::number::Number;
use crate::text::chars_of;

verus! {

/// A reference to a block, used in invocations like `[args](#block)`.
#[derive(Debug)]
pub enum BlockReference {
    /// Reference to a block by name within the current document: `#block-name`.
    Local(String),
    /// Reference to a block in a local file: `./path#block`.
    LocalImport { path: String, block: String },
    /// Reference to a block at a remote URL: `https://url#block`.
    RemoteImport { url: String, block: String },
}

pub open spec fn block_name_spec(r: BlockReference) -> Seq<char> {
    match r {
        BlockReference::Local(name) => name@,
        BlockReference::LocalImport { block, .. } => block@,
        BlockReference::RemoteImport { block, .. } => block@,
    }
}

impl BlockReference {
    pub fn block_name(&self) -> (r: &str)
        ensures
            r@ == block_name_spec(*self),
    {
        match self {
            BlockReference::Local(name) => name.as_str(),
            BlockReference::LocalImport { block, .. } => block.as_str(),
            BlockReference::RemoteImport { block, .. } => block.as_str(),
        }
    }
}

impl Clone for BlockReference {
    fn clone(&self) -> (r: Self)
        ensures
            r == *self,
    {
        match self {
            BlockReference::Local(n) => BlockReference::Local(n.clone()),
            BlockReference::LocalImport { path, block } => BlockReference::LocalImport {
                path: path.clone(),
                block: block.clone(),
            },
            BlockReference::RemoteImport { url, block } => BlockReference::RemoteImport {
                url: url.clone(),
                block: block.clone(),
            },
        }
    }
}

#[derive(Debug, Clone, Copy, PartialEq, Eq, Structural)]
pub enum UnaryOperator {
    /// Arithmetic negation: `-x`.
    Negation,
    /// Logical not: `!x`.
    LogicalNot,
}

#[derive(Debug, Clone, Copy, PartialEq, Eq, Structural)]
pub enum BinaryOperator {
    Addition,
    Subtraction,
    Multiplication,
    Division,
    Modulo,
    LogicalAnd,
    LogicalOr,
    Equality,
    Inequality,
    GreaterThan,
    LessThan,
    GreaterThanOrEqual,
    LessThanOrEqual,
}

/// An expression of the language.
#[derive(Debug)]
#[allow(inconsistent_fields)]
pub enum Value {
    StringLiteral(String),
    NumberLiteral(Number),
    BooleanLiteral(bool),
    UnitLiteral,
    VariableReference(String, Range<usize>),
    /// `#0`, `#1`, ...
    PositionalArgumentReference(usize, Range<usize>),
    /// `#*`
    SpreadArgumentReference,
    /// `[args](#block)`: invoke a block, giving its Document.
    BlockInvocation(Vec<Value>, BlockReference),
    /// `![args](#block)`: invoke a block and evaluate its Document.
    EvaluatedBlockInvocation(Vec<Value>, BlockReference),
    /// `**{expr}**`: print.
    Print(TemplateString),
    /// String interpolation.
    Interpolation(TemplateString),
    /// `~~expr~~`: a struck (null) value.
    Strikethrough(TemplateString),
    UnaryOperation { operator: UnaryOperator, operand: Box<Value> },
    BinaryOperation { operator: BinaryOperator, left: Box<Value>, right: Box<Value> },
    /// `cond ? expr` (falsy: struck) and `cond ? expr : expr`.
    Conditional {
        condition: Box<Value>,
        true_branch: Box<Value>,
        false_branch: Option<Box<Value>>,
    },
    /// Pattern match.
    Match {
        value: Box<Value>,
        arms: Vec<(Template, Value)>,
        otherwise: Option<(Option<String>, Box<Value>)>,
    },
}

/// A string that can contain interpolated expressions.
#[derive(Debug)]
pub struct TemplateString {
    pub parts: Vec<TemplateStringPart>,
}

#[derive(Debug)]
pub enum TemplateStringPart {
    Literal(String),
    Expression(Value),
}

/// A pattern used in match arms.
#[derive(Debug)]
pub enum Template {
    NumberLiteral(Number),
    StringLiteral(String),
    BooleanLiteral(bool),
    UnitLiteral,
    Strikethrough(Option<Box<Template>>),
    Binding(String),
    DocumentPattern(DocumentPattern),
    Compound(Vec<Template>),
    Wildcard,
    Alternation(Vec<Template>),
}

/// Pattern for matching Markdown document structure.
#[derive(Debug)]
pub enum DocumentPattern {
    Inline(InlinePattern),
    Block(BlockPattern),
}

/// Pattern for matching inline Markdown elements.
#[derive(Debug)]
pub enum InlinePattern {
    Text(String),
    Strong(Vec<InlinePattern>),
    Emphasis(Vec<InlinePattern>),
    Strikethrough(Vec<InlinePattern>),
    CodeSpan(String),
    Link { dest: String, content: Vec<InlinePattern> },
    /// Capture binding within a document pattern: `{name}`.
    Capture(String),
}

/// Pattern for matching block-level Markdown elements.
#[derive(Debug)]
#[allow(inconsistent_fields)]
pub enum BlockPattern {
    Paragraph(Vec<InlinePattern>),
    Heading { level: u8, content: Vec<InlinePattern> },
    CodeBlock { language: Option<String>, content: Option<String> },
}

impl TemplateString {
    pub fn literal(s: String) -> (t: TemplateString)
        ensures
            t.parts@.len() == 1,
            t.parts@[0] matches TemplateStringPart::Literal(l) && l == s,
    {
        let mut parts = Vec::new();
        parts.push(TemplateStringPart::Literal(s));
        TemplateString { parts }
    }

    pub fn single_expression(v: Value) -> (t: TemplateString)
        ensures
            t.parts@.len() == 1,
            t.parts@[0] matches TemplateStringPart::Expression(e) && e == v,
    {
        let mut parts = Vec::new();
        parts.push(TemplateStringPart::Expression(v));
        TemplateString { parts }
    }
}

/// A single executable instruction parsed from an ordered list item.
#[derive(Debug)]
pub enum Instruction {
    /// `variable = expression`
    Assignment { variable: String, value: Value, span: Range<usize> },
    /// An expression evaluated for its effects.
    Expression { value: Value, span: Range<usize> },
}

impl Instruction {
    pub fn span(&self) -> (r: &Range<usize>)
        ensures
            r == match *self {
                Instruction::Assignment { span, .. } => span,
                Instruction::Expression { span, .. } => span,
            },
    {
        match self {
            Instruction::Assignment { span, .. } => span,
            Instruction::Expression { span, .. } => span,
        }
    }
}

/// A group of instructions sharing the same fence index; all complete before the next group.
#[derive(Debug)]
pub struct FenceGroup {
    pub index: u64,
    pub instructions: Vec<Instruction>,
}

/// The fence groups of a block, in execution order.
#[derive(Debug)]
pub struct Chain {
    pub groups: Vec<FenceGroup>,
}

impl Chain {
    pub fn empty() -> (c: Chain)
        ensures
            c.groups@.len() == 0,
    {
        Chain { groups: Vec::new() }
    }

    pub fn is_empty(&self) -> (r: bool)
        ensures
            r == (self.groups@.len() == 0),
    {
        self.groups.len() == 0
    }
}

/// A named block defined by a Markdown heading.
#[derive(Debug)]
pub struct Block {
    /// The block name (from the heading text), whitespace-normalized.
    pub name: String,
    /// Heading level: 1 for top-level blocks, 2 to 6 for sub-blocks.
    pub level: u8,
    pub chain: Chain,
    /// Sub-blocks defined within this block's scope.
    pub children: Vec<Block>,
    /// Non-instruction content, returned when the block has no chain.
    pub body: Document,
    /// Byte span in the source.
    pub span: Range<usize>,
}

/// A parsed markdownlang program.
#[derive(Debug)]
pub struct Program {
    /// Top-level blocks (heading level 1).
    pub blocks: Vec<Block>,
    /// The source file id, for diagnostics.
    pub source_id: usize,
}

pub fn copy_span(r: &Range<usize>) -> (c: Range<usize>)
    ensures
        c == *r,
{
    Range { start: r.start, end: r.end }
}


// ---------------------------------------------------------------------------
// Copies of expressions and patterns
// ---------------------------------------------------------------------------

/// Two expressions have the same variant and equal fields (what a derived `==` compares).
pub open spec fn value_same(a: Value, b: Value) -> bool
    decreases a, 3nat,
{
    match a {
        Value::StringLiteral(x) => b matches Value::StringLiteral(y) && x == y,
        Value::NumberLiteral(x) => b matches Value::NumberLiteral(y) && x == y,
        Value::BooleanLiteral(x) => b matches Value::BooleanLiteral(y) && x == y,
        Value::UnitLiteral => b is UnitLiteral,
        Value::VariableReference(n, s) => b matches Value::VariableReference(n2, s2) && n == n2 && s == s2,
        Value::PositionalArgumentReference(i, s) => b matches Value::PositionalArgumentReference(i2, s2) && i == i2
            && s == s2,
        Value::SpreadArgumentReference => b is SpreadArgumentReference,
        Value::BlockInvocation(args, r) => b matches Value::BlockInvocation(a2, r2) && values_same(args@, a2@) && r
            == r2,
        Value::EvaluatedBlockInvocation(args, r) => b matches Value::EvaluatedBlockInvocation(a2, r2) && values_same(
            args@,
            a2@,
        ) && r == r2,
        Value::Print(t) => b matches Value::Print(t2) && parts_same(t.parts@, t2.parts@),
        Value::Interpolation(t) => b matches Value::Interpolation(t2) && parts_same(t.parts@, t2.parts@),
        Value::Strikethrough(t) => b matches Value::Strikethrough(t2) && parts_same(t.parts@, t2.parts@),
        Value::UnaryOperation { operator, operand } => b matches Value::UnaryOperation {
            operator: o2,
            operand: p2,
        } && operator == o2 && value_same(*operand, *p2),
        Value::BinaryOperation { operator, left, right } => b matches Value::BinaryOperation {
            operator: o2,
            left: l2,
            right: r2,
        } && operator == o2 && value_same(*left, *l2) && value_same(*right, *r2),
        Value::Conditional { condition, true_branch, false_branch } => b matches Value::Conditional {
            condition: c2,
            true_branch: t2,
            false_branch: f2,
        } && value_same(*condition, *c2) && value_same(*true_branch, *t2) && match (false_branch, f2) {
            (Some(x), Some(y)) => value_same(*x, *y),
            (None, None) => true,
            _ => false,
        },
        Value::Match { value, arms, otherwise } => b matches Value::Match { value: v2, arms: a2, otherwise: o2 }
            && value_same(*value, *v2) && arms_same(arms@, a2@) && match (otherwise, o2) {
            (Some((n1, r1)), Some((n2, r2))) => n1 == n2 && value_same(*r1, *r2),
            (None, None) => true,
            _ => false,
        },
    }
}

pub open spec fn values_same(a: Seq<Value>, b: Seq<Value>) -> bool
    decreases a, 2nat,
{
    a.len() == b.len() && (a.len() == 0 || (values_same(a.drop_last(), b.drop_last()) && value_same(
        a.last(),
        b.last(),
    )))
}

pub open spec fn part_same(a: TemplateStringPart, b: TemplateStringPart) -> bool
    decreases a, 1nat,
{
    match a {
        TemplateStringPart::Literal(s) => b matches TemplateStringPart::Literal(t) && s == t,
        TemplateStringPart::Expression(e) => b matches TemplateStringPart::Expression(f) && value_same(e, f),
    }
}

pub open spec fn parts_same(a: Seq<TemplateStringPart>, b: Seq<TemplateStringPart>) -> bool
    decreases a, 2nat,
{
    a.len() == b.len() && (a.len() == 0 || (parts_same(a.drop_last(), b.drop_last()) && part_same(
        a.last(),
        b.last(),
    )))
}

pub open spec fn arms_same(a: Seq<(Template, Value)>, b: Seq<(Template, Value)>) -> bool
    decreases a, 2nat,
{
    a.len() == b.len() && (a.len() == 0 || (arms_same(a.drop_last(), b.drop_last()) && template_same(
        a.last().0,
        b.last().0,
    ) && value_same(a.last().1, b.last().1)))
}

/// Two patterns have the same variant and equal fields.
pub open spec fn template_same(a: Template, b: Template) -> bool
    decreases a, 1nat,
{
    match a {
        Template::NumberLiteral(n) => b matches Template::NumberLiteral(m) && n == m,
        Template::StringLiteral(s) => b matches Template::StringLiteral(t) && s == t,
        Template::BooleanLiteral(x) => b matches Template::BooleanLiteral(y) && x == y,
        Template::UnitLiteral => b is UnitLiteral,
        Template::Strikethrough(o) => b matches Template::Strikethrough(o2) && match (o, o2) {
            (Some(x), Some(y)) => template_same(*x, *y),
            (None, None) => true,
            _ => false,
        },
        Template::Binding(s) => b matches Template::Binding(t) && s == t,
        Template::DocumentPattern(p) => b matches Template::DocumentPattern(q) && document_pattern_same(p, q),
        Template::Compound(v) => b matches Template::Compound(w) && templates_same(v@, w@),
        Template::Wildcard => b is Wildcard,
        Template::Alternation(v) => b matches Template::Alternation(w) && templates_same(v@, w@),
    }
}

pub open spec fn templates_same(a: Seq<Template>, b: Seq<Template>) -> bool
    decreases a, 0nat,
{
    a.len() == b.len() && (a.len() == 0 || (templates_same(a.drop_last(), b.drop_last()) && template_same(
        a.last(),
        b.last(),
    )))
}

pub open spec fn inline_pattern_same(a: InlinePattern, b: InlinePattern) -> bool
    decreases a, 1nat,
{
    match a {
        InlinePattern::Text(s) => b matches InlinePattern::Text(t) && s == t,
        InlinePattern::Strong(v) => b matches InlinePattern::Strong(w) && inline_patterns_same(v@, w@),
        InlinePattern::Emphasis(v) => b matches InlinePattern::Emphasis(w) && inline_patterns_same(v@, w@),
        InlinePattern::Strikethrough(v) => b matches InlinePattern::Strikethrough(w) && inline_patterns_same(v@, w@),
        InlinePattern::CodeSpan(s) => b matches InlinePattern::CodeSpan(t) && s == t,
        InlinePattern::Link { dest, content } => b matches InlinePattern::Link { dest: d2, content: c2 } && dest
            == d2 && inline_patterns_same(content@, c2@),
        InlinePattern::Capture(s) => b matches InlinePattern::Capture(t) && s == t,
    }
}

pub open spec fn inline_patterns_same(a: Seq<InlinePattern>, b: Seq<InlinePattern>) -> bool
    decreases a, 0nat,
{
    a.len() == b.len() && (a.len() == 0 || (inline_patterns_same(a.drop_last(), b.drop_last())
        && inline_pattern_same(a.last(), b.last())))
}

pub open spec fn document_pattern_same(a: DocumentPattern, b: DocumentPattern) -> bool {
    match a {
        DocumentPattern::Inline(i) => b matches DocumentPattern::Inline(j) && inline_pattern_same(i, j),
        DocumentPattern::Block(p) => b matches DocumentPattern::Block(q) && match p {
            BlockPattern::Paragraph(v) => q matches BlockPattern::Paragraph(w) && inline_patterns_same(v@, w@),
            BlockPattern::Heading { level, content } => q matches BlockPattern::Heading { level: l2, content: c2 }
                && level == l2 && inline_patterns_same(content@, c2@),
            BlockPattern::CodeBlock { language, content } => q matches BlockPattern::CodeBlock {
                language: l2,
                content: c2,
            } && language == l2 && content == c2,
        },
    }
}

fn clone_opt_string(s: &Option<String>) -> (r: Option<String>)
    ensures
        r == *s,
{
    match s {
        Some(x) => Some(x.clone()),
        None => None,
    }
}

/// A copy of an expression.
pub fn clone_value(v: &Value) -> (r: Value)
    ensures
        value_same(r, *v),
    decreases *v,
{
    match v {
        Value::StringLiteral(s) => Value::StringLiteral(s.clone()),
        Value::NumberLiteral(n) => Value::NumberLiteral(*n),
        Value::BooleanLiteral(b) => Value::BooleanLiteral(*b),
        Value::UnitLiteral => Value::UnitLiteral,
        Value::VariableReference(n, sp) => Value::VariableReference(n.clone(), copy_span(sp)),
        Value::PositionalArgumentReference(i, sp) => Value::PositionalArgumentReference(*i, copy_span(sp)),
        Value::SpreadArgumentReference => Value::SpreadArgumentReference,
        Value::BlockInvocation(args, r) => Value::BlockInvocation(clone_values(args), r.clone()),
        Value::EvaluatedBlockInvocation(args, r) => Value::EvaluatedBlockInvocation(clone_values(args), r.clone()),
        Value::Print(t) => Value::Print(clone_template_string(t)),
        Value::Interpolation(t) => Value::Interpolation(clone_template_string(t)),
        Value::Strikethrough(t) => Value::Strikethrough(clone_template_string(t)),
        Value::UnaryOperation { operator, operand } => Value::UnaryOperation {
            operator: *operator,
            operand: Box::new(clone_value(operand)),
        },
        Value::BinaryOperation { operator, left, right } => Value::BinaryOperation {
            operator: *operator,
            left: Box::new(clone_value(left)),
            right: Box::new(clone_value(right)),
        },
        Value::Conditional { condition, true_branch, false_branch } => Value::Conditional {
            condition: Box::new(clone_value(condition)),
            true_branch: Box::new(clone_value(true_branch)),
            false_branch: match false_branch {
                Some(f) => Some(Box::new(clone_value(f))),
                None => None,
            },
        },
        Value::Match { value, arms, otherwise } => Value::Match {
            value: Box::new(clone_value(value)),
            arms: clone_arms(arms),
            otherwise: match otherwise {
                Some((b, r)) => Some((clone_opt_string(b), Box::new(clone_value(r)))),
                None => None,
            },
        },
    }
}

pub fn clone_values(v: &Vec<Value>) -> (r: Vec<Value>)
    ensures
        values_same(r@, v@),
    decreases *v,
{
    let mut r: Vec<Value> = Vec::new();
    let mut i: usize = 0;
    while i < v.len()
        invariant
            i <= v.len(),
            values_same(r@, v@.take(i as int)),
        decreases v.len() - i,
    {
        proof {
            vstd::std_specs::vec::axiom_vec_index_decreases(*v, i as int);
        }
        let c = clone_value(&v[i]);
        let ghost before = r@;
        r.push(c);
        proof {
            assert(r@.drop_last() =~= before);
            assert(v@.take(i + 1).drop_last() =~= v@.take(i as int));
        }
        i += 1;
    }
    assert(v@.take(v.len() as int) =~= v@);
    r
}

fn clone_arms(v: &Vec<(Template, Value)>) -> (r: Vec<(Template, Value)>)
    ensures
        arms_same(r@, v@),
    decreases *v,
{
    let mut r: Vec<(Template, Value)> = Vec::new();
    let mut i: usize = 0;
    while i < v.len()
        invariant
            i <= v.len(),
            arms_same(r@, v@.take(i as int)),
        decreases v.len() - i,
    {
        proof {
            vstd::std_specs::vec::axiom_vec_index_decreases(*v, i as int);
        }
        let c = (clone_template(&v[i].0), clone_value(&v[i].1));
        let ghost before = r@;
        r.push(c);
        proof {
            assert(r@.drop_last() =~= before);
            assert(v@.take(i + 1).drop_last() =~= v@.take(i as int));
        }
        i += 1;
    }
    assert(v@.take(v.len() as int) =~= v@);
    r
}

/// A copy of a template string.
pub fn clone_template_string(t: &TemplateString) -> (r: TemplateString)
    ensures
        parts_same(r.parts@, t.parts@),
    decreases *t,
{
    let mut parts: Vec<TemplateStringPart> = Vec::new();
    let mut i: usize = 0;
    while i < t.parts.len()
        invariant
            i <= t.parts.len(),
            parts_same(parts@, t.parts@.take(i as int)),
        decreases t.parts.len() - i,
    {
        proof {
            vstd::std_specs::vec::axiom_vec_index_decreases(t.parts, i as int);
        }
        let p = match &t.parts[i] {
            TemplateStringPart::Literal(s) => TemplateStringPart::Literal(s.clone()),
            TemplateStringPart::Expression(e) => TemplateStringPart::Expression(clone_value(e)),
        };
        assert(part_same(p, t.parts@[i as int]));
        let ghost before = parts@;
        parts.push(p);
        proof {
            assert(parts@.drop_last() =~= before);
            assert(t.parts@.take(i + 1).drop_last() =~= t.parts@.take(i as int));
        }
        i += 1;
    }
    assert(t.parts@.take(t.parts.len() as int) =~= t.parts@);
    TemplateString { parts }
}

/// A copy of a match pattern.
pub fn clone_template(t: &Template) -> (r: Template)
    ensures
        template_same(r, *t),
    decreases *t,
{
    match t {
        Template::NumberLiteral(n) => Template::NumberLiteral(*n),
        Template::StringLiteral(s) => Template::StringLiteral(s.clone()),
        Template::BooleanLiteral(b) => Template::BooleanLiteral(*b),
        Template::UnitLiteral => Template::UnitLiteral,
        Template::Strikethrough(inner) => Template::Strikethrough(
            match inner {
                Some(i) => Some(Box::new(clone_template(i))),
                None => None,
            },
        ),
        Template::Binding(s) => Template::Binding(s.clone()),
        Template::DocumentPattern(p) => Template::DocumentPattern(clone_document_pattern(p)),
        Template::Compound(v) => Template::Compound(clone_templates(v)),
        Template::Wildcard => Template::Wildcard,
        Template::Alternation(v) => Template::Alternation(clone_templates(v)),
    }
}

fn clone_templates(v: &Vec<Template>) -> (r: Vec<Template>)
    ensures
        templates_same(r@, v@),
    decreases *v,
{
    let mut r: Vec<Template> = Vec::new();
    let mut i: usize = 0;
    while i < v.len()
        invariant
            i <= v.len(),
            templates_same(r@, v@.take(i as int)),
        decreases v.len() - i,
    {
        proof {
            vstd::std_specs::vec::axiom_vec_index_decreases(*v, i as int);
        }
        let c = clone_template(&v[i]);
        let ghost before = r@;
        r.push(c);
        proof {
            assert(r@.drop_last() =~= before);
            assert(v@.take(i + 1).drop_last() =~= v@.take(i as int));
        }
        i += 1;
    }
    assert(v@.take(v.len() as int) =~= v@);
    r
}

fn clone_document_pattern(p: &DocumentPattern) -> (r: DocumentPattern)
    ensures
        document_pattern_same(r, *p),
{
    match p {
        DocumentPattern::Inline(i) => DocumentPattern::Inline(clone_inline_pattern(i)),
        DocumentPattern::Block(b) => DocumentPattern::Block(
            match b {
                BlockPattern::Paragraph(v) => BlockPattern::Paragraph(clone_inline_patterns(v)),
                BlockPattern::Heading { level, content } => BlockPattern::Heading {
                    level: *level,
                    content: clone_inline_patterns(content),
                },
                BlockPattern::CodeBlock { language, content } => BlockPattern::CodeBlock {
                    language: clone_opt_string(language),
                    content: clone_opt_string(content),
                },
            },
        ),
    }
}

fn clone_inline_pattern(p: &InlinePattern) -> (r: InlinePattern)
    ensures
        inline_pattern_same(r, *p),
    decreases *p,
{
    match p {
        InlinePattern::Text(s) => InlinePattern::Text(s.clone()),
        InlinePattern::Strong(v) => InlinePattern::Strong(clone_inline_patterns(v)),
        InlinePattern::Emphasis(v) => InlinePattern::Emphasis(clone_inline_patterns(v)),
        InlinePattern::Strikethrough(v) => InlinePattern::Strikethrough(clone_inline_patterns(v)),
        InlinePattern::CodeSpan(s) => InlinePattern::CodeSpan(s.clone()),
        InlinePattern::Link { dest, content } => InlinePattern::Link {
            dest: dest.clone(),
            content: clone_inline_patterns(content),
        },
        InlinePattern::Capture(s) => InlinePattern::Capture(s.clone()),
    }
}

fn clone_inline_patterns(v: &Vec<InlinePattern>) -> (r: Vec<InlinePattern>)
    ensures
        inline_patterns_same(r@, v@),
    decreases *v,
{
    let mut r: Vec<InlinePattern> = Vec::new();
    let mut i: usize = 0;
    while i < v.len()
        invariant
            i <= v.len(),
            inline_patterns_same(r@, v@.take(i as int)),
        decreases v.len() - i,
    {
        proof {
            vstd::std_specs::vec::axiom_vec_index_decreases(*v, i as int);
        }
        let c = clone_inline_pattern(&v[i]);
        let ghost before = r@;
        r.push(c);
        proof {
            assert(r@.drop_last() =~= before);
            assert(v@.take(i + 1).drop_last() =~= v@.take(i as int));
        }
        i += 1;
    }
    assert(v@.take(v.len() as int) =~= v@);
    r
}


// ---------------------------------------------------------------------------
// Reading a link destination as a block reference
// ---------------------------------------------------------------------------

/// The index of the last occurrence of `c` in `s`, or -1.
pub open spec fn last_index_of(s: Seq<char>, c: char) -> int
    decreases s.len(),
{
    if s.len() == 0 {
        -1
    } else if s.last() == c {
        s.len() - 1
    } else {
        last_index_of(s.drop_last(), c)
    }
}

pub open spec fn starts_with(s: Seq<char>, p: Seq<char>) -> bool {
    p.len() <= s.len() && s.take(p.len() as int) == p
}

pub open spec fn is_web_address(path: Seq<char>) -> bool {
    starts_with(path, seq!['h', 't', 't', 'p', ':', '/', '/']) || starts_with(
        path,
        seq!['h', 't', 't', 'p', 's', ':', '/', '/'],
    )
}

/// `#name` names a local block; otherwise the text before the last `#` is a path (a remote
/// one when it starts with `http://` or `https://`) and the text after it the block; with
/// no `#` at all, the whole destination names a local block.
pub open spec fn reference_of(r: BlockReference, d: Seq<char>) -> bool {
    let k = last_index_of(d, '#');
    if d.len() > 0 && d[0] == '#' {
        r matches BlockReference::Local(n) && n@ == d.drop_first()
    } else if k >= 0 {
        if is_web_address(d.take(k)) {
            r matches BlockReference::RemoteImport { url, block } && url@ == d.take(k) && block@
                == d.skip(k + 1)
        } else {
            r matches BlockReference::LocalImport { path, block } && path@ == d.take(k) && block@
                == d.skip(k + 1)
        }
    } else {
        r matches BlockReference::Local(n) && n@ == d
    }
}

fn has_prefix(cs: &Vec<char>, end: usize, p: &Vec<char>) -> (r: bool)
    requires
        end <= cs.len(),
    ensures
        r == starts_with(cs@.take(end as int), p@),
{
    if p.len() > end {
        return false;
    }
    let mut i: usize = 0;
    while i < p.len()
        invariant
            i <= p.len() <= end <= cs.len(),
            forall|j: int| 0 <= j < i ==> cs@[j] == p@[j],
        decreases p.len() - i,
    {
        if cs[i] != p[i] {
            assert(cs@.take(end as int).take(p.len() as int)[i as int] != p@[i as int]);
            return false;
        }
        i += 1;
    }
    assert(cs@.take(end as int).take(p.len() as int) =~= p@);
    true
}

/// Reads a link destination as a block reference.
pub fn parse_block_reference(dest: &str) -> (r: BlockReference)
    ensures
        reference_of(r, dest@),
{
    let cs = chars_of(dest);
    let n = cs.len();
    if n > 0 && cs[0] == '#' {
        let name = crate::text::string_from(&cs, 1, n);
        assert(cs@.subrange(1, n as int) =~= cs@.drop_first());
        return BlockReference::Local(name);
    }
    let mut k = n;
    assert(cs@.take(n as int) =~= cs@);
    while k > 0 && cs[k - 1] != '#'
        invariant
            k <= n == cs.len(),
            last_index_of(cs@, '#') == last_index_of(cs@.take(k as int), '#'),
        decreases k,
    {
        assert(cs@.take(k as int).drop_last() =~= cs@.take(k - 1));
        k -= 1;
    }
    assert(cs@.take(n as int) =~= cs@);
    if k == 0 {
        assert(cs@.take(0) =~= Seq::<char>::empty());
        let name = crate::text::string_from(&cs, 0, n);
        assert(cs@.subrange(0, n as int) =~= cs@);
        return BlockReference::Local(name);
    }
    let h = k - 1;
    assert(last_index_of(cs@.take(k as int), '#') == h);
    let path = crate::text::string_from(&cs, 0, h);
    let block = crate::text::string_from(&cs, k, n);
    assert(cs@.subrange(0, h as int) =~= cs@.take(h as int));
    assert(cs@.subrange(k as int, n as int) =~= cs@.skip(h + 1));
    let http = vec!['h', 't', 't', 'p', ':', '/', '/'];
    let https = vec!['h', 't', 't', 'p', 's', ':', '/', '/'];
    assert(http@ =~= seq!['h', 't', 't', 'p', ':', '/', '/']);
    assert(https@ =~= seq!['h', 't', 't', 'p', 's', ':', '/', '/']);
    if has_prefix(&cs, h, &http) || has_prefix(&cs, h, &https) {
        BlockReference::RemoteImport { url: path, block }
    } else {
        BlockReference::LocalImport { path, block }
    }
}


/// Two instructions are the same: same kind, variable, expression and span.
pub open spec fn instruction_same(a: Instruction, b: Instruction) -> bool {
    match a {
        Instruction::Assignment { variable, value, span } => b matches Instruction::Assignment {
            variable: v2,
            value: x2,
            span: s2,
        } && variable == v2 && value_same(value, x2) && span == s2,
        Instruction::Expression { value, span } => b matches Instruction::Expression { value: x2, span: s2 }
            && value_same(value, x2) && span == s2,
    }
}

pub open spec fn instructions_same(a: Seq<Instruction>, b: Seq<Instruction>) -> bool
    decreases a.len(),
{
    a.len() == b.len() && (a.len() == 0 || (instructions_same(a.drop_last(), b.drop_last())
        && instruction_same(a.last(), b.last())))
}

pub open spec fn groups_same(a: Seq<FenceGroup>, b: Seq<FenceGroup>) -> bool
    decreases a.len(),
{
    a.len() == b.len() && (a.len() == 0 || (groups_same(a.drop_last(), b.drop_last()) && a.last().index
        == b.last().index && instructions_same(a.last().instructions@, b.last().instructions@)))
}

/// Two blocks are the same: name, level, chain, sub-blocks, body and span.
pub open spec fn block_same(a: Block, b: Block) -> bool
    decreases a, 1nat,
{
    &&& a.name == b.name
    &&& a.level == b.level
    &&& groups_same(a.chain.groups@, b.chain.groups@)
    &&& blocks_same(a.children@, b.children@)
    &&& crate::document::document_same(a.body, b.body)
    &&& a.span == b.span
}

pub open spec fn blocks_same(a: Seq<Block>, b: Seq<Block>) -> bool
    decreases a, 0nat,
{
    a.len() == b.len() && (a.len() == 0 || (blocks_same(a.drop_last(), b.drop_last()) && block_same(
        a.last(),
        b.last(),
    )))
}

/// A copy of an instruction.
pub fn clone_instruction(i: &Instruction) -> (r: Instruction)
    ensures
        instruction_same(r, *i),
{
    match i {
        Instruction::Assignment { variable, value, span } => Instruction::Assignment {
            variable: variable.clone(),
            value: clone_value(value),
            span: copy_span(span),
        },
        Instruction::Expression { value, span } => Instruction::Expression {
            value: clone_value(value),
            span: copy_span(span),
        },
    }
}

/// A copy of a chain.
pub fn clone_chain(c: &Chain) -> (r: Chain)
    ensures
        groups_same(r.groups@, c.groups@),
{
    let mut groups: Vec<FenceGroup> = Vec::new();
    let mut i: usize = 0;
    while i < c.groups.len()
        invariant
            i <= c.groups.len(),
            groups_same(groups@, c.groups@.take(i as int)),
        decreases c.groups.len() - i,
    {
        let g = &c.groups[i];
        let mut instructions: Vec<Instruction> = Vec::new();
        let mut j: usize = 0;
        while j < g.instructions.len()
            invariant
                j <= g.instructions.len(),
                instructions_same(instructions@, g.instructions@.take(j as int)),
            decreases g.instructions.len() - j,
        {
            let x = clone_instruction(&g.instructions[j]);
            let ghost before = instructions@;
            instructions.push(x);
            proof {
                assert(instructions@.drop_last() =~= before);
                assert(g.instructions@.take(j + 1).drop_last() =~= g.instructions@.take(j as int));
            }
            j += 1;
        }
        assert(g.instructions@.take(g.instructions.len() as int) =~= g.instructions@);
        let ghost before = groups@;
        groups.push(FenceGroup { index: g.index, instructions });
        proof {
            assert(groups@.drop_last() =~= before);
            assert(c.groups@.take(i + 1).drop_last() =~= c.groups@.take(i as int));
        }
        i += 1;
    }
    assert(c.groups@.take(c.groups.len() as int) =~= c.groups@);
    Chain { groups }
}

/// A copy of a block with its sub-blocks.
pub fn clone_block(b: &Block) -> (r: Block)
    ensures
        block_same(r, *b),
        r.name == b.name,
        r.level == b.level,
        r.span == b.span,
        r.children@.len() == b.children@.len(),
        r.chain.groups@.len() == b.chain.groups@.len(),
    decreases *b,
{
    let mut children: Vec<Block> = Vec::new();
    let mut i: usize = 0;
    while i < b.children.len()
        invariant
            i <= b.children.len(),
            blocks_same(children@, b.children@.take(i as int)),
        decreases b.children.len() - i,
    {
        proof {
            vstd::std_specs::vec::axiom_vec_index_decreases(b.children, i as int);
        }
        let c = clone_block(&b.children[i]);
        let ghost before = children@;
        children.push(c);
        proof {
            assert(children@.drop_last() =~= before);
            assert(b.children@.take(i + 1).drop_last() =~= b.children@.take(i as int));
        }
        i += 1;
    }
    assert(b.children@.take(b.children.len() as int) =~= b.children@);
    Block {
        name: b.name.clone(),
        level: b.level,
        chain: clone_chain(&b.chain),
        children,
        body: clone_document(&b.body),
        span: copy_span(&b.span),
    }
}

} // verus!
