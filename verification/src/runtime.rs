//! Runtime values and errors, with how they are printed and compared.
use vstd::prelude::*;
use std::ops::Range;
use crate::ast::{Value, TemplateString, TemplateStringPart, UnaryOperator, BinaryOperator, block_name_spec,
    clone_value, clone_template_string, value_same, parts_same};
use crate::document::{Document, document_text, write_document, document_same, document_equal, clone_document,
    law_document_same_symmetric, law_document_same_reflexive};
use crate::number::{Number, number_text_spec, number_text, num_eq_spec, nat_text, push_nat_text, is_nan};
use crate::source_text::{trimmed, trim};
use crate::text::{push_char, push_str};

verus! {

/// A runtime value produced by evaluating an expression.
#[derive(Debug)]
pub enum RuntimeValue {
    Number(Number),
    Boolean(bool),
    String(String),
    Unit,
    Document(Document),
    /// A struck (null) value, with what it holds.
    Strikethrough(StrikethroughPayload),
    /// A table: a one-row table is a record, a one-column table an array.
    Table { headers: Vec<String>, rows: Vec<Vec<RuntimeValue>> },
}

/// What a struck value holds.
#[derive(Debug)]
pub enum StrikethroughPayload {
    /// A value evaluated when the strikethrough was made.
    Eager(Box<RuntimeValue>),
    /// An expression evaluated only when the value is demanded.
    Lazy(Box<Value>),
    /// A template whose invocations run only when the value is demanded.
    Template(Box<TemplateString>),
}

/// Falsy values: `false`, struck values and unit.
pub open spec fn falsy(v: RuntimeValue) -> bool {
    v matches RuntimeValue::Boolean(false) || v is Strikethrough || v is Unit
}

impl RuntimeValue {
    pub fn is_truthy(&self) -> (r: bool)
        ensures
            r == !falsy(*self),
    {
        !self.is_falsy()
    }

    pub fn is_falsy(&self) -> (r: bool)
        ensures
            r == falsy(*self),
    {
        match self {
            RuntimeValue::Boolean(b) => !*b,
            RuntimeValue::Strikethrough(_) => true,
            RuntimeValue::Unit => true,
            _ => false,
        }
    }

    pub fn kind_name(&self) -> (r: &'static str)
        ensures
            r@ == kind_name_spec(*self),
    {
        let r = match self {
            RuntimeValue::Number(_) => "Number",
            RuntimeValue::Boolean(_) => "Boolean",
            RuntimeValue::String(_) => "String",
            RuntimeValue::Unit => "Unit",
            RuntimeValue::Document(_) => "Document",
            RuntimeValue::Strikethrough(_) => "Strikethrough",
            RuntimeValue::Table { .. } => "Table",
        };
        proof {
            reveal_strlit("Number");
            reveal_strlit("Boolean");
            reveal_strlit("String");
            reveal_strlit("Unit");
            reveal_strlit("Document");
            reveal_strlit("Strikethrough");
            reveal_strlit("Table");
        }
        r
    }
}

/// The name of a value's type.
pub open spec fn kind_name_spec(v: RuntimeValue) -> Seq<char> {
    match v {
        RuntimeValue::Number(_) => seq!['N', 'u', 'm', 'b', 'e', 'r'],
        RuntimeValue::Boolean(_) => seq!['B', 'o', 'o', 'l', 'e', 'a', 'n'],
        RuntimeValue::String(_) => seq!['S', 't', 'r', 'i', 'n', 'g'],
        RuntimeValue::Unit => seq!['U', 'n', 'i', 't'],
        RuntimeValue::Document(_) => seq!['D', 'o', 'c', 'u', 'm', 'e', 'n', 't'],
        RuntimeValue::Strikethrough(_) => seq!['S', 't', 'r', 'i', 'k', 'e', 't', 'h', 'r', 'o', 'u', 'g', 'h'],
        RuntimeValue::Table { .. } => seq!['T', 'a', 'b', 'l', 'e'],
    }
}

// ---------------------------------------------------------------------------
// Expressions as Markdown-like text (how a struck expression is shown)
// ---------------------------------------------------------------------------

pub open spec fn bool_text(b: bool) -> Seq<char> {
    if b {
        seq!['t', 'r', 'u', 'e']
    } else {
        seq!['f', 'a', 'l', 's', 'e']
    }
}

pub open spec fn binary_symbol(op: BinaryOperator) -> Seq<char> {
    match op {
        BinaryOperator::Addition => seq!['+'],
        BinaryOperator::Subtraction => seq!['-'],
        BinaryOperator::Multiplication => seq!['*'],
        BinaryOperator::Division => seq!['/'],
        BinaryOperator::Modulo => seq!['%'],
        BinaryOperator::LogicalAnd => seq!['&', '&'],
        BinaryOperator::LogicalOr => seq!['|', '|'],
        BinaryOperator::Equality => seq!['=', '='],
        BinaryOperator::Inequality => seq!['!', '='],
        BinaryOperator::GreaterThan => seq!['>'],
        BinaryOperator::LessThan => seq!['<'],
        BinaryOperator::GreaterThanOrEqual => seq!['>', '='],
        BinaryOperator::LessThanOrEqual => seq!['<', '='],
    }
}

/// An expression written back as Markdown-like source text: literals as written, names,
/// `#n`, `#*`, invocations as `[](#block)` / `![](#block)`, prints as `**...**`,
/// interpolations in quotes, strikethroughs as `~~...~~`, operators between operands,
/// conditionals as `c ? t : f`, and a match as `match` and its scrutinee.
pub open spec fn value_md_text(v: Value) -> Seq<char>
    decreases v, 1nat,
{
    match v {
        Value::StringLiteral(s) => seq!['"'] + s@ + seq!['"'],
        Value::NumberLiteral(n) => number_text_spec(n.bits),
        Value::BooleanLiteral(b) => bool_text(b),
        Value::UnitLiteral => seq!['(', ')'],
        Value::VariableReference(name, _) => name@,
        Value::PositionalArgumentReference(i, _) => seq!['#'] + nat_text(i as nat),
        Value::SpreadArgumentReference => seq!['#', '*'],
        Value::BlockInvocation(_, r) => seq!['[', ']', '(', '#'] + block_name_spec(r) + seq![')'],
        Value::EvaluatedBlockInvocation(_, r) => seq!['!', '[', ']', '(', '#'] + block_name_spec(r)
            + seq![')'],
        Value::Print(ts) => seq!['*', '*'] + template_md_text(ts.parts@) + seq!['*', '*'],
        Value::Interpolation(ts) => seq!['"'] + template_md_text(ts.parts@) + seq!['"'],
        Value::Strikethrough(ts) => seq!['~', '~'] + template_md_text(ts.parts@) + seq!['~', '~'],
        Value::UnaryOperation { operator, operand } => (match operator {
            UnaryOperator::Negation => seq!['-'],
            UnaryOperator::LogicalNot => seq!['!'],
        }) + value_md_text(*operand),
        Value::BinaryOperation { operator, left, right } => value_md_text(*left) + seq![' ']
            + binary_symbol(operator) + seq![' '] + value_md_text(*right),
        Value::Conditional { condition, true_branch, false_branch } => value_md_text(*condition)
            + seq![' ', '?', ' '] + value_md_text(*true_branch) + match false_branch {
            Some(f) => seq![' ', ':', ' '] + value_md_text(*f),
            None => seq![],
        },
        Value::Match { value, .. } => seq!['m', 'a', 't', 'c', 'h', ' '] + value_md_text(*value),
    }
}

/// A template written back: literal text as it is, expressions in braces.
pub open spec fn template_md_text(parts: Seq<TemplateStringPart>) -> Seq<char>
    decreases parts, 0nat,
{
    if parts.len() == 0 {
        seq![]
    } else {
        template_md_text(parts.drop_last()) + match parts.last() {
            TemplateStringPart::Literal(s) => s@,
            TemplateStringPart::Expression(e) => seq!['{'] + value_md_text(e) + seq!['}'],
        }
    }
}

fn push_lit(out: &mut String, s: &str)
    ensures
        final(out)@ == old(out)@ + s@,
{
    push_str(out, s);
}

fn write_bool(b: bool, out: &mut String)
    ensures
        final(out)@ == old(out)@ + bool_text(b),
{
    if b {
        push_char(out, 't');
        push_char(out, 'r');
        push_char(out, 'u');
        push_char(out, 'e');
    } else {
        push_char(out, 'f');
        push_char(out, 'a');
        push_char(out, 'l');
        push_char(out, 's');
        push_char(out, 'e');
    }
    assert(final(out)@ =~= old(out)@ + bool_text(b));
}

fn write_binary_symbol(op: BinaryOperator, out: &mut String)
    ensures
        final(out)@ == old(out)@ + binary_symbol(op),
{
    match op {
        BinaryOperator::Addition => push_char(out, '+'),
        BinaryOperator::Subtraction => push_char(out, '-'),
        BinaryOperator::Multiplication => push_char(out, '*'),
        BinaryOperator::Division => push_char(out, '/'),
        BinaryOperator::Modulo => push_char(out, '%'),
        BinaryOperator::LogicalAnd => {
            push_char(out, '&');
            push_char(out, '&');
        },
        BinaryOperator::LogicalOr => {
            push_char(out, '|');
            push_char(out, '|');
        },
        BinaryOperator::Equality => {
            push_char(out, '=');
            push_char(out, '=');
        },
        BinaryOperator::Inequality => {
            push_char(out, '!');
            push_char(out, '=');
        },
        BinaryOperator::GreaterThan => push_char(out, '>'),
        BinaryOperator::LessThan => push_char(out, '<'),
        BinaryOperator::GreaterThanOrEqual => {
            push_char(out, '>');
            push_char(out, '=');
        },
        BinaryOperator::LessThanOrEqual => {
            push_char(out, '<');
            push_char(out, '=');
        },
    }
    assert(final(out)@ =~= old(out)@ + binary_symbol(op));
}

/// Appends an expression written back as Markdown-like text.
pub fn write_value_md(v: &Value, out: &mut String)
    ensures
        final(out)@ == old(out)@ + value_md_text(*v),
    decreases *v, 1nat,
{
    let ghost o = out@;
    match v {
        Value::StringLiteral(s) => {
            push_char(out, '"');
            push_str(out, s.as_str());
            push_char(out, '"');
        },
        Value::NumberLiteral(n) => {
            let t = number_text(*n);
            push_str(out, t.as_str());
        },
        Value::BooleanLiteral(b) => write_bool(*b, out),
        Value::UnitLiteral => {
            push_char(out, '(');
            push_char(out, ')');
        },
        Value::VariableReference(name, _) => push_str(out, name.as_str()),
        Value::PositionalArgumentReference(i, _) => {
            push_char(out, '#');
            push_nat_text(out, *i as u128);
        },
        Value::SpreadArgumentReference => {
            push_char(out, '#');
            push_char(out, '*');
        },
        Value::BlockInvocation(_, r) => {
            push_char(out, '[');
            push_char(out, ']');
            push_char(out, '(');
            push_char(out, '#');
            push_str(out, r.block_name());
            push_char(out, ')');
        },
        Value::EvaluatedBlockInvocation(_, r) => {
            push_char(out, '!');
            push_char(out, '[');
            push_char(out, ']');
            push_char(out, '(');
            push_char(out, '#');
            push_str(out, r.block_name());
            push_char(out, ')');
        },
        Value::Print(ts) => {
            push_char(out, '*');
            push_char(out, '*');
            write_template_md(&ts.parts, out);
            push_char(out, '*');
            push_char(out, '*');
        },
        Value::Interpolation(ts) => {
            push_char(out, '"');
            write_template_md(&ts.parts, out);
            push_char(out, '"');
        },
        Value::Strikethrough(ts) => {
            push_char(out, '~');
            push_char(out, '~');
            write_template_md(&ts.parts, out);
            push_char(out, '~');
            push_char(out, '~');
        },
        Value::UnaryOperation { operator, operand } => {
            match operator {
                UnaryOperator::Negation => push_char(out, '-'),
                UnaryOperator::LogicalNot => push_char(out, '!'),
            }
            write_value_md(operand, out);
        },
        Value::BinaryOperation { operator, left, right } => {
            write_value_md(left, out);
            push_char(out, ' ');
            write_binary_symbol(*operator, out);
            push_char(out, ' ');
            write_value_md(right, out);
        },
        Value::Conditional { condition, true_branch, false_branch } => {
            write_value_md(condition, out);
            push_char(out, ' ');
            push_char(out, '?');
            push_char(out, ' ');
            write_value_md(true_branch, out);
            match false_branch {
                Some(f) => {
                    push_char(out, ' ');
                    push_char(out, ':');
                    push_char(out, ' ');
                    write_value_md(f, out);
                },
                None => {},
            }
        },
        Value::Match { value, .. } => {
            push_char(out, 'm');
            push_char(out, 'a');
            push_char(out, 't');
            push_char(out, 'c');
            push_char(out, 'h');
            push_char(out, ' ');
            write_value_md(value, out);
        },
    }
    assert(out@ =~= o + value_md_text(*v));
}

/// Appends a template written back as text.
pub fn write_template_md(parts: &Vec<TemplateStringPart>, out: &mut String)
    ensures
        final(out)@ == old(out)@ + template_md_text(parts@),
    decreases *parts, 0nat,
{
    let ghost start = out@;
    let mut i: usize = 0;
    while i < parts.len()
        invariant
            i <= parts.len(),
            out@ == start + template_md_text(parts@.take(i as int)),
        decreases parts.len() - i,
    {
        proof {
            vstd::std_specs::vec::axiom_vec_index_decreases(*parts, i as int);
        }
        let ghost before = out@;
        match &parts[i] {
            TemplateStringPart::Literal(s) => push_str(out, s.as_str()),
            TemplateStringPart::Expression(e) => {
                push_char(out, '{');
                write_value_md(e, out);
                push_char(out, '}');
            },
        }
        proof {
            assert(parts@.take(i + 1).drop_last() =~= parts@.take(i as int));
            assert(out@ =~= start + template_md_text(parts@.take(i + 1)));
        }
        i += 1;
    }
    assert(parts@.take(parts.len() as int) =~= parts@);
}

/// Renders an expression as Markdown-like text, for a struck representation.
pub fn value_to_markdown_text(value: &Value) -> (s: String)
    ensures
        s@ == value_md_text(*value),
{
    let mut s = String::new();
    write_value_md(value, &mut s);
    s
}

/// Renders a template as text: literal parts as they are, expressions in braces.
pub fn template_to_text(ts: &TemplateString) -> (s: String)
    ensures
        s@ == template_md_text(ts.parts@),
{
    let mut s = String::new();
    write_template_md(&ts.parts, &mut s);
    s
}

// ---------------------------------------------------------------------------
// Values as text
// ---------------------------------------------------------------------------

/// How a value is printed: numbers as numbers, booleans as `true`/`false`, strings as
/// they are, unit as `()`, documents as Markdown, struck values as `~~...~~` around their
/// trimmed text, and tables as Markdown tables.
pub open spec fn value_text(v: RuntimeValue) -> Seq<char>
    decreases v, 3nat,
{
    match v {
        RuntimeValue::Number(n) => number_text_spec(n.bits),
        RuntimeValue::Boolean(b) => bool_text(b),
        RuntimeValue::String(s) => s@,
        RuntimeValue::Unit => seq!['(', ')'],
        RuntimeValue::Document(d) => document_text(d),
        RuntimeValue::Strikethrough(p) => seq!['~', '~'] + trimmed(payload_text(p)) + seq!['~', '~'],
        RuntimeValue::Table { headers, rows } => seq!['|'] + header_text(headers@) + seq!['\n', '|']
            + dashes(headers@.len()) + seq!['\n'] + table_rows_text(rows@),
    }
}

/// The text of what a struck value holds: an evaluated value's text, or the expression or
/// template written back.
pub open spec fn payload_text(p: StrikethroughPayload) -> Seq<char>
    decreases p, 2nat,
{
    match p {
        StrikethroughPayload::Eager(v) => value_text(*v),
        StrikethroughPayload::Lazy(e) => value_md_text(*e),
        StrikethroughPayload::Template(t) => template_md_text(t.parts@),
    }
}

/// `" h |"` for each header.
pub open spec fn header_text(hs: Seq<String>) -> Seq<char>
    decreases hs.len(),
{
    if hs.len() == 0 {
        seq![]
    } else {
        header_text(hs.drop_last()) + seq![' '] + hs.last()@ + seq![' ', '|']
    }
}

/// `"---|"` repeated.
pub open spec fn dashes(n: nat) -> Seq<char>
    decreases n,
{
    if n == 0 {
        seq![]
    } else {
        dashes((n - 1) as nat) + seq!['-', '-', '-', '|']
    }
}

/// `" cell |"` for each cell of a row.
pub open spec fn cells_text(row: Seq<RuntimeValue>) -> Seq<char>
    decreases row, 1nat,
{
    if row.len() == 0 {
        seq![]
    } else {
        cells_text(row.drop_last()) + seq![' '] + value_text(row.last()) + seq![' ', '|']
    }
}

/// Each row as `"|"`, its cells, and a newline.
pub open spec fn table_rows_text(rows: Seq<Vec<RuntimeValue>>) -> Seq<char>
    decreases rows, 1nat,
{
    if rows.len() == 0 {
        seq![]
    } else {
        table_rows_text(rows.drop_last()) + seq!['|'] + cells_text(rows.last()@) + seq!['\n']
    }
}

/// Appends the printed text of a value.
pub fn write_value(v: &RuntimeValue, out: &mut String)
    ensures
        final(out)@ == old(out)@ + value_text(*v),
    decreases *v, 3nat,
{
    let ghost o = out@;
    match v {
        RuntimeValue::Number(n) => {
            let t = number_text(*n);
            push_str(out, t.as_str());
        },
        RuntimeValue::Boolean(b) => write_bool(*b, out),
        RuntimeValue::String(s) => push_str(out, s.as_str()),
        RuntimeValue::Unit => {
            push_char(out, '(');
            push_char(out, ')');
        },
        RuntimeValue::Document(d) => write_document(d, out),
        RuntimeValue::Strikethrough(p) => {
            let mut inner = String::new();
            write_payload(p, &mut inner);
            let t = trim(inner.as_str());
            push_char(out, '~');
            push_char(out, '~');
            push_str(out, t.as_str());
            push_char(out, '~');
            push_char(out, '~');
        },
        RuntimeValue::Table { headers, rows } => {
            push_char(out, '|');
            let ghost o1 = out@;
            let mut k: usize = 0;
            while k < headers.len()
                invariant
                    k <= headers.len(),
                    out@ == o1 + header_text(headers@.take(k as int)),
                decreases headers.len() - k,
            {
                push_char(out, ' ');
                push_str(out, headers[k].as_str());
                push_char(out, ' ');
                push_char(out, '|');
                proof {
                    assert(headers@.take(k + 1).drop_last() =~= headers@.take(k as int));
                    assert(out@ =~= o1 + header_text(headers@.take(k + 1)));
                }
                k += 1;
            }
            assert(headers@.take(headers.len() as int) =~= headers@);
            push_char(out, '\n');
            push_char(out, '|');
            let ghost o2 = out@;
            let mut k: usize = 0;
            while k < headers.len()
                invariant
                    k <= headers.len(),
                    out@ == o2 + dashes(k as nat),
                decreases headers.len() - k,
            {
                push_char(out, '-');
                push_char(out, '-');
                push_char(out, '-');
                push_char(out, '|');
                proof {
                    assert(out@ =~= o2 + dashes((k + 1) as nat));
                }
                k += 1;
            }
            push_char(out, '\n');
            write_table_rows(rows, out);
        },
    }
    assert(out@ =~= o + value_text(*v));
}

/// Appends the text of what a struck value holds.
pub fn write_payload(p: &StrikethroughPayload, out: &mut String)
    ensures
        final(out)@ == old(out)@ + payload_text(*p),
    decreases *p, 2nat,
{
    match p {
        StrikethroughPayload::Eager(v) => write_value(v, out),
        StrikethroughPayload::Lazy(e) => write_value_md(e, out),
        StrikethroughPayload::Template(t) => write_template_md(&t.parts, out),
    }
}

fn write_table_rows(rows: &Vec<Vec<RuntimeValue>>, out: &mut String)
    ensures
        final(out)@ == old(out)@ + table_rows_text(rows@),
    decreases *rows, 1nat,
{
    let ghost start = out@;
    let mut i: usize = 0;
    while i < rows.len()
        invariant
            i <= rows.len(),
            out@ == start + table_rows_text(rows@.take(i as int)),
        decreases rows.len() - i,
    {
        proof {
            vstd::std_specs::vec::axiom_vec_index_decreases(*rows, i as int);
        }
        let ghost before = out@;
        push_char(out, '|');
        write_cells(&rows[i], out);
        push_char(out, '\n');
        proof {
            assert(rows@.take(i + 1).drop_last() =~= rows@.take(i as int));
            assert(out@ =~= start + table_rows_text(rows@.take(i + 1)));
        }
        i += 1;
    }
    assert(rows@.take(rows.len() as int) =~= rows@);
}

fn write_cells(row: &Vec<RuntimeValue>, out: &mut String)
    ensures
        final(out)@ == old(out)@ + cells_text(row@),
    decreases *row, 1nat,
{
    let ghost start = out@;
    let mut i: usize = 0;
    while i < row.len()
        invariant
            i <= row.len(),
            out@ == start + cells_text(row@.take(i as int)),
        decreases row.len() - i,
    {
        proof {
            vstd::std_specs::vec::axiom_vec_index_decreases(*row, i as int);
        }
        push_char(out, ' ');
        write_value(&row[i], out);
        push_char(out, ' ');
        push_char(out, '|');
        proof {
            assert(row@.take(i + 1).drop_last() =~= row@.take(i as int));
            assert(out@ =~= start + cells_text(row@.take(i + 1)));
        }
        i += 1;
    }
    assert(row@.take(row.len() as int) =~= row@);
}

impl RuntimeValue {
    /// The printed text of the value.
    pub fn to_text(&self) -> (s: String)
        ensures
            s@ == value_text(*self),
    {
        let mut s = String::new();
        write_value(self, &mut s);
        s
    }
}

// ---------------------------------------------------------------------------
// Equality
// ---------------------------------------------------------------------------

/// When two values are equal: numbers by IEEE equality (NaN unequal to itself), booleans,
/// strings and unit by value, documents by structure, struck values by the text of what
/// they hold, and tables by headers and cells.
pub open spec fn values_equal(a: RuntimeValue, b: RuntimeValue) -> bool
    decreases a, 1nat,
{
    match (a, b) {
        (RuntimeValue::Number(x), RuntimeValue::Number(y)) => num_eq_spec(x.bits, y.bits),
        (RuntimeValue::Boolean(x), RuntimeValue::Boolean(y)) => x == y,
        (RuntimeValue::String(x), RuntimeValue::String(y)) => x@ == y@,
        (RuntimeValue::Unit, RuntimeValue::Unit) => true,
        (RuntimeValue::Document(x), RuntimeValue::Document(y)) => document_same(x, y),
        (RuntimeValue::Strikethrough(p), RuntimeValue::Strikethrough(q)) => payload_text(p)
            == payload_text(q),
        (RuntimeValue::Table { headers: h1, rows: r1 }, RuntimeValue::Table {
            headers: h2,
            rows: r2,
        }) => headers_equal(h1@, h2@) && rows_equal(r1@, r2@),
        _ => false,
    }
}

pub open spec fn headers_equal(a: Seq<String>, b: Seq<String>) -> bool {
    a.len() == b.len() && forall|i: int| 0 <= i < a.len() ==> #[trigger] a[i]@ == b[i]@
}

pub open spec fn row_equal(a: Seq<RuntimeValue>, b: Seq<RuntimeValue>) -> bool
    decreases a, 0nat,
{
    a.len() == b.len() && (a.len() == 0 || (row_equal(a.drop_last(), b.drop_last())
        && values_equal(a.last(), b.last())))
}

pub open spec fn rows_equal(a: Seq<Vec<RuntimeValue>>, b: Seq<Vec<RuntimeValue>>) -> bool
    decreases a, 0nat,
{
    a.len() == b.len() && (a.len() == 0 || (rows_equal(a.drop_last(), b.drop_last())
        && row_equal(a.last()@, b.last()@)))
}

proof fn lemma_values_equal_sym(a: RuntimeValue, b: RuntimeValue)
    requires
        values_equal(a, b),
    ensures
        values_equal(b, a),
    decreases a, 1nat,
{
    match (a, b) {
        (RuntimeValue::Document(x), RuntimeValue::Document(y)) => {
            law_document_same_symmetric(x, y);
        },
        (RuntimeValue::Table { headers: h1, rows: r1 }, RuntimeValue::Table { headers: h2, rows: r2 }) => {
            lemma_rows_equal_sym(r1@, r2@);
        },
        _ => {},
    }
}

proof fn lemma_row_equal_sym(a: Seq<RuntimeValue>, b: Seq<RuntimeValue>)
    requires
        row_equal(a, b),
    ensures
        row_equal(b, a),
    decreases a, 0nat,
{
    if a.len() > 0 {
        lemma_row_equal_sym(a.drop_last(), b.drop_last());
        lemma_values_equal_sym(a.last(), b.last());
    }
}

proof fn lemma_rows_equal_sym(a: Seq<Vec<RuntimeValue>>, b: Seq<Vec<RuntimeValue>>)
    requires
        rows_equal(a, b),
    ensures
        rows_equal(b, a),
    decreases a, 0nat,
{
    if a.len() > 0 {
        lemma_rows_equal_sym(a.drop_last(), b.drop_last());
        lemma_row_equal_sym(a.last()@, b.last()@);
    }
}

/// `==` on values is symmetric.
pub proof fn law_values_equal_symmetric(a: RuntimeValue, b: RuntimeValue)
    ensures
        values_equal(a, b) == values_equal(b, a),
{
    if values_equal(a, b) {
        lemma_values_equal_sym(a, b);
    }
    if values_equal(b, a) {
        lemma_values_equal_sym(b, a);
    }
}

/// No number in the value (or in a table's cells) is NaN.
pub open spec fn holds_no_nan(v: RuntimeValue) -> bool
    decreases v, 1nat,
{
    match v {
        RuntimeValue::Number(n) => !is_nan(n.bits),
        RuntimeValue::Table { rows, .. } => rows_hold_no_nan(rows@),
        _ => true,
    }
}

pub open spec fn row_holds_no_nan(a: Seq<RuntimeValue>) -> bool
    decreases a, 0nat,
{
    a.len() == 0 || (row_holds_no_nan(a.drop_last()) && holds_no_nan(a.last()))
}

pub open spec fn rows_hold_no_nan(a: Seq<Vec<RuntimeValue>>) -> bool
    decreases a, 0nat,
{
    a.len() == 0 || (rows_hold_no_nan(a.drop_last()) && row_holds_no_nan(a.last()@))
}

proof fn lemma_values_equal_refl(a: RuntimeValue)
    requires
        holds_no_nan(a),
    ensures
        values_equal(a, a),
    decreases a, 1nat,
{
    match a {
        RuntimeValue::Document(x) => {
            law_document_same_reflexive(x);
        },
        RuntimeValue::Table { rows, .. } => {
            lemma_rows_equal_refl(rows@);
        },
        _ => {},
    }
}

proof fn lemma_row_equal_refl(a: Seq<RuntimeValue>)
    requires
        row_holds_no_nan(a),
    ensures
        row_equal(a, a),
    decreases a, 0nat,
{
    if a.len() > 0 {
        lemma_row_equal_refl(a.drop_last());
        lemma_values_equal_refl(a.last());
    }
}

proof fn lemma_rows_equal_refl(a: Seq<Vec<RuntimeValue>>)
    requires
        rows_hold_no_nan(a),
    ensures
        rows_equal(a, a),
    decreases a, 0nat,
{
    if a.len() > 0 {
        lemma_rows_equal_refl(a.drop_last());
        lemma_row_equal_refl(a.last()@);
    }
}

/// Two strings are equal under `==` exactly when they hold the same characters in the same
/// order: strings that differ in some character, or in length, are unequal.
pub proof fn law_string_equality(a: RuntimeValue, b: RuntimeValue)
    requires
        a is String,
        b is String,
    ensures
        values_equal(a, b) <==> a->String_0@ == b->String_0@,
        (exists|i: int| 0 <= i < a->String_0@.len() && i < b->String_0@.len() && a->String_0@[i] != b->String_0@[i])
            ==> !values_equal(a, b),
{
}

/// Two booleans are equal under `==` exactly when they are the same boolean.
pub proof fn law_boolean_equality(x: bool, y: bool)
    ensures
        values_equal(RuntimeValue::Boolean(x), RuntimeValue::Boolean(y)) <==> x == y,
{
}

/// Unit equals unit, and values of different kinds are never equal.
pub proof fn law_kinds_equality(a: RuntimeValue, b: RuntimeValue)
    ensures
        values_equal(RuntimeValue::Unit, RuntimeValue::Unit),
        kind_name_spec(a) != kind_name_spec(b) ==> !values_equal(a, b),
{
}

/// A value is falsy exactly when it is `false`, unit or a struck value; every number,
/// string, document, table and `true` is truthy.
pub proof fn law_falsy_values(v: RuntimeValue)
    ensures
        falsy(v) <==> (v == RuntimeValue::Boolean(false) || v is Unit || v is Strikethrough),
        falsy(RuntimeValue::Boolean(false)),
        !falsy(RuntimeValue::Boolean(true)),
        (v is Number || v is String || v is Document || v is Table) ==> !falsy(v),
{
}

/// Booleans print as `true` and `false`, strings as they are, unit as `()`.
pub proof fn law_simple_texts(b: bool, s: String)
    ensures
        value_text(RuntimeValue::Boolean(b)) == (if b { "true"@ } else { "false"@ }),
        value_text(RuntimeValue::String(s)) == s@,
        value_text(RuntimeValue::Unit) == "()"@,
{
    reveal_strlit("true");
    reveal_strlit("false");
    reveal_strlit("()");
}

/// A document prints as its nodes' text; a struck value as `~~`, the trimmed text of what
/// it holds, and `~~`; the dash line of a table has one `---|` per header.
pub proof fn law_value_texts(d: Document, v: RuntimeValue, n: nat)
    ensures
        value_text(RuntimeValue::Document(d)) == crate::document::nodes_text(d.nodes@),
        value_text(RuntimeValue::Strikethrough(StrikethroughPayload::Eager(Box::new(v)))) == seq!['~', '~'] + trimmed(
            value_text(v),
        ) + seq!['~', '~'],
        dashes(n + 1) == dashes(n) + seq!['-', '-', '-', '|'],
        dashes(n).len() == 4 * n,
    decreases n,
{
    if n > 0 {
        law_value_texts(d, v, (n - 1) as nat);
    }
}

/// A table with no rows prints as its header line and its dash line.
pub proof fn law_table_text_without_rows(t: RuntimeValue)
    requires
        t is Table,
        t->rows@.len() == 0,
    ensures
        value_text(t) == seq!['|'] + header_text(t->headers@) + seq!['\n'] + seq!['|'] + dashes(t->headers@.len())
            + seq!['\n'],
{
    assert(seq!['|'] + header_text(t->headers@) + seq!['\n', '|'] =~= seq!['|'] + header_text(t->headers@) + seq!['\n']
        + seq!['|']);
    assert(value_text(t) =~= seq!['|'] + header_text(t->headers@) + seq!['\n'] + seq!['|'] + dashes(t->headers@.len())
        + seq!['\n']);
}

/// A table printed with one more row is the table's text followed by one more line: `|`,
/// that row's cells in order, and a newline. So every row of a table gets a line of its own,
/// in order, after the header and dash lines.
pub proof fn law_table_text_adds_a_line_per_row(t1: RuntimeValue, t2: RuntimeValue, row: Vec<RuntimeValue>)
    requires
        t1 is Table,
        t2 is Table,
        t2->headers@ == t1->headers@,
        t2->rows@ == t1->rows@.push(row),
    ensures
        value_text(t2) == value_text(t1) + seq!['|'] + cells_text(row@) + seq!['\n'],
{
    assert(t2->rows@.drop_last() =~= t1->rows@);
    assert(t2->rows@.last() == row);
    let pre = seq!['|'] + header_text(t1->headers@) + seq!['\n', '|'] + dashes(t1->headers@.len()) + seq!['\n'];
    assert(value_text(t2) == pre + table_rows_text(t2->rows@));
    assert(table_rows_text(t2->rows@) == table_rows_text(t1->rows@) + seq!['|'] + cells_text(row@) + seq!['\n']);
    assert(value_text(t2) =~= value_text(t1) + seq!['|'] + cells_text(row@) + seq!['\n']);
}

/// A row printed with one more cell is the row's text followed by ` `, that cell's text
/// and ` |`: every cell of a row is printed, in order.
pub proof fn law_row_text_adds_each_cell(row: Seq<RuntimeValue>, v: RuntimeValue)
    ensures
        cells_text(row.push(v)) == cells_text(row) + seq![' '] + value_text(v) + seq![' ', '|'],
{
    assert(row.push(v).drop_last() =~= row);
}

/// `==` on values is reflexive on every value that holds no NaN.
pub proof fn law_values_equal_reflexive(a: RuntimeValue)
    requires
        holds_no_nan(a),
    ensures
        values_equal(a, a),
{
    lemma_values_equal_refl(a);
}

/// A NaN is equal to nothing, itself included.
pub proof fn law_nan_equals_nothing(n: Number, b: RuntimeValue)
    requires
        is_nan(n.bits),
    ensures
        !values_equal(RuntimeValue::Number(n), b),
{
}

fn text_equal(a: &str, b: &str) -> (r: bool)
    ensures
        r == (a@ == b@),
{
    crate::item_lexer::is_word(a, b)
}

/// Compares two values as `==` does.
pub fn values_eq(a: &RuntimeValue, b: &RuntimeValue) -> (r: bool)
    ensures
        r == values_equal(*a, *b),
    decreases *a, 1nat,
{
    match (a, b) {
        (RuntimeValue::Number(x), RuntimeValue::Number(y)) => x.num_eq(*y),
        (RuntimeValue::Boolean(x), RuntimeValue::Boolean(y)) => *x == *y,
        (RuntimeValue::String(x), RuntimeValue::String(y)) => text_equal(x.as_str(), y.as_str()),
        (RuntimeValue::Unit, RuntimeValue::Unit) => true,
        (RuntimeValue::Document(x), RuntimeValue::Document(y)) => document_equal(x, y),
        (RuntimeValue::Strikethrough(p), RuntimeValue::Strikethrough(q)) => {
            let mut s = String::new();
            write_payload(p, &mut s);
            let mut t = String::new();
            write_payload(q, &mut t);
            text_equal(s.as_str(), t.as_str())
        },
        (RuntimeValue::Table { headers: h1, rows: r1 }, RuntimeValue::Table { headers: h2, rows: r2 }) => {
            headers_eq(h1, h2) &&             rows_eq(r1, r2)
        },
        _ => false,
    }
}

fn headers_eq(h1: &Vec<String>, h2: &Vec<String>) -> (r: bool)
    ensures
        r == headers_equal(h1@, h2@),
{
    if h1.len() != h2.len() {
        return false;
    }
    let mut k: usize = 0;
    while k < h1.len()
        invariant
            k <= h1.len() == h2.len(),
            forall|i: int| 0 <= i < k ==> #[trigger] h1@[i]@ == h2@[i]@,
        decreases h1.len() - k,
    {
        if !text_equal(h1[k].as_str(), h2[k].as_str()) {
            assert(h1@[k as int]@ != h2@[k as int]@);
            return false;
        }
        k += 1;
    }
    true
}

fn rows_eq(a: &Vec<Vec<RuntimeValue>>, b: &Vec<Vec<RuntimeValue>>) -> (r: bool)
    ensures
        r == rows_equal(a@, b@),
    decreases *a, 0nat,
{
    if a.len() != b.len() {
        return false;
    }
    let mut i: usize = 0;
    while i < a.len()
        invariant
            i <= a.len() == b.len(),
            rows_equal(a@.take(i as int), b@.take(i as int)),
        decreases a.len() - i,
    {
        proof {
            vstd::std_specs::vec::axiom_vec_index_decreases(*a, i as int);
        }
        assert(a@.take(i + 1).drop_last() =~= a@.take(i as int));
        assert(b@.take(i + 1).drop_last() =~= b@.take(i as int));
        if !row_eq(&a[i], &b[i]) {
            proof {
                lemma_rows_prefix(a@, b@, i + 1);
            }
            return false;
        }
        i += 1;
    }
    assert(a@.take(a.len() as int) =~= a@);
    assert(b@.take(b.len() as int) =~= b@);
    true
}

proof fn lemma_rows_prefix(a: Seq<Vec<RuntimeValue>>, b: Seq<Vec<RuntimeValue>>, k: int)
    requires
        0 <= k <= a.len(),
        a.len() == b.len(),
        !rows_equal(a.take(k), b.take(k)),
    ensures
        !rows_equal(a, b),
    decreases a.len() - k,
{
    if k < a.len() {
        assert(a.take(k + 1).drop_last() =~= a.take(k));
        assert(b.take(k + 1).drop_last() =~= b.take(k));
        lemma_rows_prefix(a, b, k + 1);
    } else {
        assert(a.take(k) =~= a);
        assert(b.take(k) =~= b);
    }
}

proof fn lemma_row_prefix(a: Seq<RuntimeValue>, b: Seq<RuntimeValue>, k: int)
    requires
        0 <= k <= a.len(),
        a.len() == b.len(),
        !row_equal(a.take(k), b.take(k)),
    ensures
        !row_equal(a, b),
    decreases a.len() - k,
{
    if k < a.len() {
        assert(a.take(k + 1).drop_last() =~= a.take(k));
        assert(b.take(k + 1).drop_last() =~= b.take(k));
        lemma_row_prefix(a, b, k + 1);
    } else {
        assert(a.take(k) =~= a);
        assert(b.take(k) =~= b);
    }
}

fn row_eq(a: &Vec<RuntimeValue>, b: &Vec<RuntimeValue>) -> (r: bool)
    ensures
        r == row_equal(a@, b@),
    decreases *a, 0nat,
{
    if a.len() != b.len() {
        return false;
    }
    let mut i: usize = 0;
    while i < a.len()
        invariant
            i <= a.len() == b.len(),
            row_equal(a@.take(i as int), b@.take(i as int)),
        decreases a.len() - i,
    {
        proof {
            vstd::std_specs::vec::axiom_vec_index_decreases(*a, i as int);
        }
        assert(a@.take(i + 1).drop_last() =~= a@.take(i as int));
        assert(b@.take(i + 1).drop_last() =~= b@.take(i as int));
        if !values_eq(&a[i], &b[i]) {
            proof {
                lemma_row_prefix(a@, b@, i + 1);
            }
            return false;
        }
        i += 1;
    }
    assert(a@.take(a.len() as int) =~= a@);
    assert(b@.take(b.len() as int) =~= b@);
    true
}

// ---------------------------------------------------------------------------
// Copies
// ---------------------------------------------------------------------------

/// Two runtime values have the same variant and equal contents (what a derived `==`
/// compares, NaNs included).
pub open spec fn runtime_same(a: RuntimeValue, b: RuntimeValue) -> bool
    decreases a, 1nat,
{
    match a {
        RuntimeValue::Number(x) => b matches RuntimeValue::Number(y) && x == y,
        RuntimeValue::Boolean(x) => b matches RuntimeValue::Boolean(y) && x == y,
        RuntimeValue::String(x) => b matches RuntimeValue::String(y) && x == y,
        RuntimeValue::Unit => b is Unit,
        RuntimeValue::Document(d) => b matches RuntimeValue::Document(e) && document_same(d, e),
        RuntimeValue::Strikethrough(p) => b matches RuntimeValue::Strikethrough(q) && match p {
            StrikethroughPayload::Eager(v) => q matches StrikethroughPayload::Eager(w) && runtime_same(*v, *w),
            StrikethroughPayload::Lazy(e) => q matches StrikethroughPayload::Lazy(f) && value_same(*e, *f),
            StrikethroughPayload::Template(t) => q matches StrikethroughPayload::Template(u) && parts_same(
                t.parts@,
                u.parts@,
            ),
        },
        RuntimeValue::Table { headers, rows } => b matches RuntimeValue::Table { headers: h2, rows: r2 }
            && headers@ == h2@ && runtime_rows_same(rows@, r2@),
    }
}

pub open spec fn runtime_row_same(a: Seq<RuntimeValue>, b: Seq<RuntimeValue>) -> bool
    decreases a, 0nat,
{
    a.len() == b.len() && (a.len() == 0 || (runtime_row_same(a.drop_last(), b.drop_last()) && runtime_same(
        a.last(),
        b.last(),
    )))
}

pub open spec fn runtime_rows_same(a: Seq<Vec<RuntimeValue>>, b: Seq<Vec<RuntimeValue>>) -> bool
    decreases a, 0nat,
{
    a.len() == b.len() && (a.len() == 0 || (runtime_rows_same(a.drop_last(), b.drop_last())
        && runtime_row_same(a.last()@, b.last()@)))
}

/// A copy of a runtime value.
pub fn clone_runtime_value(v: &RuntimeValue) -> (r: RuntimeValue)
    ensures
        runtime_same(r, *v),
        v is Number ==> r == *v,
        v is Boolean ==> r == *v,
        v is Unit ==> r == *v,
        v matches RuntimeValue::String(s) ==> (r matches RuntimeValue::String(t) && t@ == s@),
    decreases *v,
{
    match v {
        RuntimeValue::Number(n) => RuntimeValue::Number(*n),
        RuntimeValue::Boolean(b) => RuntimeValue::Boolean(*b),
        RuntimeValue::String(s) => RuntimeValue::String(s.clone()),
        RuntimeValue::Unit => RuntimeValue::Unit,
        RuntimeValue::Document(d) => RuntimeValue::Document(clone_document(d)),
        RuntimeValue::Strikethrough(p) => RuntimeValue::Strikethrough(
            match p {
                StrikethroughPayload::Eager(inner) => StrikethroughPayload::Eager(
                    Box::new(clone_runtime_value(inner)),
                ),
                StrikethroughPayload::Lazy(e) => StrikethroughPayload::Lazy(Box::new(clone_value(e))),
                StrikethroughPayload::Template(t) => StrikethroughPayload::Template(
                    Box::new(clone_template_string(t)),
                ),
            },
        ),
        RuntimeValue::Table { headers, rows } => {
            let mut h: Vec<String> = Vec::new();
            let mut k: usize = 0;
            while k < headers.len()
                invariant
                    k <= headers.len(),
                    h@ == headers@.take(k as int),
                decreases headers.len() - k,
            {
                h.push(headers[k].clone());
                k += 1;
                assert(h@ =~= headers@.take(k as int));
            }
            assert(headers@.take(headers.len() as int) =~= headers@);
            let rs = clone_rows(rows);
            RuntimeValue::Table { headers: h, rows: rs }
        },
    }
}

fn clone_rows(rows: &Vec<Vec<RuntimeValue>>) -> (r: Vec<Vec<RuntimeValue>>)
    ensures
        runtime_rows_same(r@, rows@),
    decreases *rows,
{
    let mut rs: Vec<Vec<RuntimeValue>> = Vec::new();
    let mut i: usize = 0;
    while i < rows.len()
        invariant
            i <= rows.len(),
            runtime_rows_same(rs@, rows@.take(i as int)),
        decreases rows.len() - i,
    {
        proof {
            vstd::std_specs::vec::axiom_vec_index_decreases(*rows, i as int);
        }
        let c = clone_runtime_values(&rows[i]);
        let ghost before = rs@;
        rs.push(c);
        proof {
            assert(rs@.drop_last() =~= before);
            assert(rows@.take(i + 1).drop_last() =~= rows@.take(i as int));
        }
        i += 1;
    }
    assert(rows@.take(rows.len() as int) =~= rows@);
    rs
}

pub fn clone_runtime_values(v: &Vec<RuntimeValue>) -> (r: Vec<RuntimeValue>)
    ensures
        r@.len() == v@.len(),
        runtime_row_same(r@, v@),
    decreases *v,
{
    let mut r: Vec<RuntimeValue> = Vec::new();
    let mut i: usize = 0;
    while i < v.len()
        invariant
            i <= v.len(),
            runtime_row_same(r@, v@.take(i as int)),
        decreases v.len() - i,
    {
        proof {
            vstd::std_specs::vec::axiom_vec_index_decreases(*v, i as int);
        }
        let c = clone_runtime_value(&v[i]);
        let ghost before = r@;
        r.push(c);
        proof {
            assert(r@.drop_last() =~= before);
            assert(v@.take(i + 1).drop_last() =~= v@.take(i as int));
        }
        i += 1;
    }
    assert(v@.take(v.len() as int) =~= v@);
    r
}

// ---------------------------------------------------------------------------
// Errors
// ---------------------------------------------------------------------------

#[derive(Debug)]
pub enum RuntimeError {
    TypeError { expected: String, got: String },
    UndefinedVariable(String),
    UndefinedBlock(String),
    ArgumentOutOfBounds(usize),
    NonExhaustiveMatch,
    DivisionByZero,
    NoEntryPoint,
    ImportNotImplemented(String),
    IoError(String),
    StackOverflow,
    Custom(String),
}

/// The message of a runtime error.
pub open spec fn error_text(e: RuntimeError) -> Seq<char> {
    match e {
        RuntimeError::TypeError { expected, got } => "type error: expected "@ + expected@ + ", got "@
            + got@,
        RuntimeError::UndefinedVariable(n) => "undefined variable: "@ + n@,
        RuntimeError::UndefinedBlock(n) => "undefined block: "@ + n@,
        RuntimeError::ArgumentOutOfBounds(i) => "argument index "@ + nat_text(i as nat)
            + " out of bounds"@,
        RuntimeError::NonExhaustiveMatch => "non-exhaustive match: no arm matched"@,
        RuntimeError::DivisionByZero => "division by zero"@,
        RuntimeError::NoEntryPoint => "no entry point: no top-level block"@,
        RuntimeError::ImportNotImplemented(p) => "imports not yet implemented: "@ + p@,
        RuntimeError::IoError(m) => "I/O error: "@ + m@,
        RuntimeError::StackOverflow => "stack overflow"@,
        RuntimeError::Custom(m) => m@,
    }
}

impl RuntimeError {
    /// The message of the error.
    pub fn to_text(&self) -> (s: String)
        ensures
            s@ == error_text(*self),
    {
        let mut s = String::new();
        match self {
            RuntimeError::TypeError { expected, got } => {
                push_lit(&mut s, "type error: expected ");
                push_str(&mut s, expected.as_str());
                push_lit(&mut s, ", got ");
                push_str(&mut s, got.as_str());
            },
            RuntimeError::UndefinedVariable(n) => {
                push_lit(&mut s, "undefined variable: ");
                push_str(&mut s, n.as_str());
            },
            RuntimeError::UndefinedBlock(n) => {
                push_lit(&mut s, "undefined block: ");
                push_str(&mut s, n.as_str());
            },
            RuntimeError::ArgumentOutOfBounds(i) => {
                push_lit(&mut s, "argument index ");
                push_nat_text(&mut s, *i as u128);
                push_lit(&mut s, " out of bounds");
            },
            RuntimeError::NonExhaustiveMatch => push_lit(&mut s, "non-exhaustive match: no arm matched"),
            RuntimeError::DivisionByZero => push_lit(&mut s, "division by zero"),
            RuntimeError::NoEntryPoint => push_lit(&mut s, "no entry point: no top-level block"),
            RuntimeError::ImportNotImplemented(p) => {
                push_lit(&mut s, "imports not yet implemented: ");
                push_str(&mut s, p.as_str());
            },
            RuntimeError::IoError(m) => {
                push_lit(&mut s, "I/O error: ");
                push_str(&mut s, m.as_str());
            },
            RuntimeError::StackOverflow => push_lit(&mut s, "stack overflow"),
            RuntimeError::Custom(m) => push_str(&mut s, m.as_str()),
        }
        s
    }
}

/// A runtime error or warning, with the place in the source it is about.
#[derive(Debug)]
pub struct DiagnosticError {
    pub error: RuntimeError,
    pub span: Option<Range<usize>>,
    pub source_id: usize,
    pub is_warning: bool,
}

impl DiagnosticError {
    /// A warning with a message and a span.
    pub fn warning(message: String, span: Range<usize>, source_id: usize) -> (d: DiagnosticError)
        ensures
            d.error == RuntimeError::Custom(message),
            d.span == Some(span),
            d.source_id == source_id,
            d.is_warning,
    {
        DiagnosticError { error: RuntimeError::Custom(message), span: Some(span), source_id, is_warning: true }
    }

    /// An error with no span, in source 0.
    pub fn from_error(error: RuntimeError) -> (d: DiagnosticError)
        ensures
            d.error == error,
            d.span is None,
            d.source_id == 0,
            !d.is_warning,
    {
        DiagnosticError { error, span: None, source_id: 0, is_warning: false }
    }

    /// An error with a span.
    pub fn located(error: RuntimeError, span: Range<usize>, source_id: usize) -> (d: DiagnosticError)
        ensures
            d.error == error,
            d.span == Some(span),
            d.source_id == source_id,
            !d.is_warning,
    {
        DiagnosticError { error, span: Some(span), source_id, is_warning: false }
    }

    /// The message of the error or warning.
    pub fn to_text(&self) -> (s: String)
        ensures
            s@ == error_text(self.error),
    {
        self.error.to_text()
    }
}

impl From<RuntimeError> for DiagnosticError {
    fn from(error: RuntimeError) -> (d: DiagnosticError) {
        DiagnosticError::from_error(error)
    }
}

impl vstd::std_specs::convert::FromSpecImpl<RuntimeError> for DiagnosticError {
    open spec fn obeys_from_spec() -> bool {
        true
    }

    open spec fn from_spec(error: RuntimeError) -> DiagnosticError {
        DiagnosticError { error, span: None, source_id: 0, is_warning: false }
    }
}

} // verus!
