//! Expressions from tokens: a Pratt parser, string templates, argument lists and patterns.
use vstd::prelude::*;
use crate::ast::{
    Value, UnaryOperator, BinaryOperator, TemplateString, TemplateStringPart, Template,
    parse_block_reference, clone_template_string, copy_span, reference_of, parts_same,
};
use crate::lexer::{Token, TokenKind, MatchArm, token_kind, kind_of, tokenize_text, lexes};
use crate::parse_error::{ParseError, ParseContext, error_in, error_from, Severity};
use crate::text::{chars_of, string_from, push_char, utf8_len_seq, utf8_len, char_utf8_len};

verus! {

// Binding powers: higher binds tighter. Left-associative operators bind their right
// operand one step tighter; the conditional binds both sides alike.
pub const BP_CONDITIONAL: u8 = 2;
pub const BP_OR: u8 = 4;
pub const BP_AND: u8 = 6;
pub const BP_EQUALITY: u8 = 8;
pub const BP_COMPARISON: u8 = 10;
pub const BP_ADDITIVE: u8 = 12;
pub const BP_MULTIPLICATIVE: u8 = 14;
pub const BP_UNARY: u8 = 16;

/// The binding powers `(left, right)` of the infix operators.
pub open spec fn infix_power(kind: TokenKind) -> Option<(u8, u8)> {
    match kind {
        TokenKind::Question => Some((BP_CONDITIONAL, BP_CONDITIONAL)),
        TokenKind::PipePipe => Some((BP_OR, (BP_OR + 1) as u8)),
        TokenKind::AmpAmp => Some((BP_AND, (BP_AND + 1) as u8)),
        TokenKind::EqEq | TokenKind::BangEq => Some((BP_EQUALITY, (BP_EQUALITY + 1) as u8)),
        TokenKind::Gt | TokenKind::Lt | TokenKind::GtEq | TokenKind::LtEq => Some(
            (BP_COMPARISON, (BP_COMPARISON + 1) as u8),
        ),
        TokenKind::Plus | TokenKind::Minus => Some((BP_ADDITIVE, (BP_ADDITIVE + 1) as u8)),
        TokenKind::Star | TokenKind::Slash | TokenKind::Percent => Some(
            (BP_MULTIPLICATIVE, (BP_MULTIPLICATIVE + 1) as u8),
        ),
        _ => None,
    }
}

/// The precedence of the infix operators, loosest first: `?:`, `||`, `&&`, `==` and `!=`,
/// the comparisons `>`, `<`, `>=`, `<=`, then `+` and `-`, then `*`, `/` and `%`, all
/// looser than a prefix operator. Operators of one level bind alike; the binary ones
/// associate to the left (their right power is one more than their left) and `?:` to the
/// right. So `3 > 1 + 1` reads as `3 > (1 + 1)` and `a || b && c` as `a || (b && c)`.
pub proof fn law_operator_precedence(c: TokenKind, a: TokenKind, m: TokenKind)
    requires
        c is Gt || c is Lt || c is GtEq || c is LtEq,
        a is Plus || a is Minus,
        m is Star || m is Slash || m is Percent,
    ensures
        infix_power(TokenKind::Question) is Some && infix_power(TokenKind::PipePipe) is Some && infix_power(
            TokenKind::AmpAmp,
        ) is Some && infix_power(TokenKind::EqEq) is Some && infix_power(TokenKind::BangEq) is Some,
        infix_power(c) is Some && infix_power(a) is Some && infix_power(m) is Some,
        infix_power(TokenKind::Question).unwrap().0 < infix_power(TokenKind::PipePipe).unwrap().0,
        infix_power(TokenKind::PipePipe).unwrap().0 < infix_power(TokenKind::AmpAmp).unwrap().0,
        infix_power(TokenKind::AmpAmp).unwrap().0 < infix_power(TokenKind::EqEq).unwrap().0,
        infix_power(TokenKind::EqEq) == infix_power(TokenKind::BangEq),
        infix_power(TokenKind::EqEq).unwrap().0 < infix_power(c).unwrap().0,
        infix_power(c) == infix_power(TokenKind::Gt),
        infix_power(c).unwrap().0 < infix_power(a).unwrap().0,
        infix_power(c).unwrap().1 <= infix_power(a).unwrap().0,
        infix_power(a) == infix_power(TokenKind::Plus),
        infix_power(a).unwrap().0 < infix_power(m).unwrap().0,
        infix_power(a).unwrap().1 <= infix_power(m).unwrap().0,
        infix_power(m) == infix_power(TokenKind::Star),
        infix_power(m).unwrap().0 < BP_UNARY,
        infix_power(m).unwrap().1 <= BP_UNARY,
        infix_power(c).unwrap().1 == infix_power(c).unwrap().0 + 1,
        infix_power(a).unwrap().1 == infix_power(a).unwrap().0 + 1,
        infix_power(m).unwrap().1 == infix_power(m).unwrap().0 + 1,
        infix_power(TokenKind::AmpAmp).unwrap().1 == infix_power(TokenKind::AmpAmp).unwrap().0 + 1,
        infix_power(TokenKind::PipePipe).unwrap().1 == infix_power(TokenKind::PipePipe).unwrap().0 + 1,
        infix_power(TokenKind::EqEq).unwrap().1 == infix_power(TokenKind::EqEq).unwrap().0 + 1,
        infix_power(TokenKind::Question).unwrap().1 == infix_power(TokenKind::Question).unwrap().0,
        infix_power(TokenKind::Eq) is None && infix_power(TokenKind::Colon) is None && infix_power(TokenKind::Bang)
            is None && infix_power(TokenKind::Number) is None && infix_power(TokenKind::Ident) is None,
{
}

/// Infix binding powers: `(left, right)`, or `None` when the token is no infix operator.
pub fn infix_bp(kind: TokenKind) -> (r: Option<(u8, u8)>)
    ensures
        r == infix_power(kind),
{
    match kind {
        TokenKind::Question => Some((BP_CONDITIONAL, BP_CONDITIONAL)),
        TokenKind::PipePipe => Some((BP_OR, BP_OR + 1)),
        TokenKind::AmpAmp => Some((BP_AND, BP_AND + 1)),
        TokenKind::EqEq | TokenKind::BangEq => Some((BP_EQUALITY, BP_EQUALITY + 1)),
        TokenKind::Gt | TokenKind::Lt | TokenKind::GtEq | TokenKind::LtEq => Some(
            (BP_COMPARISON, BP_COMPARISON + 1),
        ),
        TokenKind::Plus | TokenKind::Minus => Some((BP_ADDITIVE, BP_ADDITIVE + 1)),
        TokenKind::Star | TokenKind::Slash | TokenKind::Percent => Some(
            (BP_MULTIPLICATIVE, BP_MULTIPLICATIVE + 1),
        ),
        _ => None,
    }
}

/// The binary operator that an infix token stands for.
pub open spec fn binary_operator_of(kind: TokenKind) -> Option<BinaryOperator> {
    match kind {
        TokenKind::Plus => Some(BinaryOperator::Addition),
        TokenKind::Minus => Some(BinaryOperator::Subtraction),
        TokenKind::Star => Some(BinaryOperator::Multiplication),
        TokenKind::Slash => Some(BinaryOperator::Division),
        TokenKind::Percent => Some(BinaryOperator::Modulo),
        TokenKind::EqEq => Some(BinaryOperator::Equality),
        TokenKind::BangEq => Some(BinaryOperator::Inequality),
        TokenKind::Gt => Some(BinaryOperator::GreaterThan),
        TokenKind::Lt => Some(BinaryOperator::LessThan),
        TokenKind::GtEq => Some(BinaryOperator::GreaterThanOrEqual),
        TokenKind::LtEq => Some(BinaryOperator::LessThanOrEqual),
        TokenKind::AmpAmp => Some(BinaryOperator::LogicalAnd),
        TokenKind::PipePipe => Some(BinaryOperator::LogicalOr),
        _ => None,
    }
}

fn binary_operator(kind: TokenKind) -> (r: Option<BinaryOperator>)
    ensures
        r == binary_operator_of(kind),
{
    match kind {
        TokenKind::Plus => Some(BinaryOperator::Addition),
        TokenKind::Minus => Some(BinaryOperator::Subtraction),
        TokenKind::Star => Some(BinaryOperator::Multiplication),
        TokenKind::Slash => Some(BinaryOperator::Division),
        TokenKind::Percent => Some(BinaryOperator::Modulo),
        TokenKind::EqEq => Some(BinaryOperator::Equality),
        TokenKind::BangEq => Some(BinaryOperator::Inequality),
        TokenKind::Gt => Some(BinaryOperator::GreaterThan),
        TokenKind::Lt => Some(BinaryOperator::LessThan),
        TokenKind::GtEq => Some(BinaryOperator::GreaterThanOrEqual),
        TokenKind::LtEq => Some(BinaryOperator::LessThanOrEqual),
        TokenKind::AmpAmp => Some(BinaryOperator::LogicalAnd),
        TokenKind::PipePipe => Some(BinaryOperator::LogicalOr),
        _ => None,
    }
}

/// The name of a token kind, as diagnostics print it.
pub open spec fn token_kind_text(kind: TokenKind) -> Seq<char> {
    match kind {
        TokenKind::Number => "Number"@,
        TokenKind::StringLit => "StringLit"@,
        TokenKind::True => "True"@,
        TokenKind::False => "False"@,
        TokenKind::Unit => "Unit"@,
        TokenKind::Ident => "Ident"@,
        TokenKind::ArgRef => "ArgRef"@,
        TokenKind::SpreadRef => "SpreadRef"@,
        TokenKind::Hash => "Hash"@,
        TokenKind::Match => "Match"@,
        TokenKind::Plus => "Plus"@,
        TokenKind::Minus => "Minus"@,
        TokenKind::Star => "Star"@,
        TokenKind::Slash => "Slash"@,
        TokenKind::Percent => "Percent"@,
        TokenKind::Eq => "Eq"@,
        TokenKind::EqEq => "EqEq"@,
        TokenKind::BangEq => "BangEq"@,
        TokenKind::Gt => "Gt"@,
        TokenKind::Lt => "Lt"@,
        TokenKind::GtEq => "GtEq"@,
        TokenKind::LtEq => "LtEq"@,
        TokenKind::Amp => "Amp"@,
        TokenKind::AmpAmp => "AmpAmp"@,
        TokenKind::Pipe => "Pipe"@,
        TokenKind::PipePipe => "PipePipe"@,
        TokenKind::Bang => "Bang"@,
        TokenKind::Question => "Question"@,
        TokenKind::Colon => "Colon"@,
        TokenKind::Comma => "Comma"@,
        TokenKind::Underscore => "Underscore"@,
        TokenKind::LParen => "LParen"@,
        TokenKind::RParen => "RParen"@,
        TokenKind::LBrace => "LBrace"@,
        TokenKind::RBrace => "RBrace"@,
        TokenKind::Bold => "Bold"@,
        TokenKind::Strike => "Strike"@,
        TokenKind::Link => "Link"@,
        TokenKind::Image => "Image"@,
        TokenKind::MatchArms => "MatchArms"@,
    }
}

/// The name of a token kind, as diagnostics print it.
pub fn token_kind_name(kind: TokenKind) -> (s: &'static str)
    ensures
        s@ == token_kind_text(kind),
{
    match kind {
        TokenKind::Number => "Number",
        TokenKind::StringLit => "StringLit",
        TokenKind::True => "True",
        TokenKind::False => "False",
        TokenKind::Unit => "Unit",
        TokenKind::Ident => "Ident",
        TokenKind::ArgRef => "ArgRef",
        TokenKind::SpreadRef => "SpreadRef",
        TokenKind::Hash => "Hash",
        TokenKind::Match => "Match",
        TokenKind::Plus => "Plus",
        TokenKind::Minus => "Minus",
        TokenKind::Star => "Star",
        TokenKind::Slash => "Slash",
        TokenKind::Percent => "Percent",
        TokenKind::Eq => "Eq",
        TokenKind::EqEq => "EqEq",
        TokenKind::BangEq => "BangEq",
        TokenKind::Gt => "Gt",
        TokenKind::Lt => "Lt",
        TokenKind::GtEq => "GtEq",
        TokenKind::LtEq => "LtEq",
        TokenKind::Amp => "Amp",
        TokenKind::AmpAmp => "AmpAmp",
        TokenKind::Pipe => "Pipe",
        TokenKind::PipePipe => "PipePipe",
        TokenKind::Bang => "Bang",
        TokenKind::Question => "Question",
        TokenKind::Colon => "Colon",
        TokenKind::Comma => "Comma",
        TokenKind::Underscore => "Underscore",
        TokenKind::LParen => "LParen",
        TokenKind::RParen => "RParen",
        TokenKind::LBrace => "LBrace",
        TokenKind::RBrace => "RBrace",
        TokenKind::Bold => "Bold",
        TokenKind::Strike => "Strike",
        TokenKind::Link => "Link",
        TokenKind::Image => "Image",
        TokenKind::MatchArms => "MatchArms",
    }
}

/// An error whose message is `prefix` followed by the name of a token kind.
fn kind_error(cx: &ParseContext, prefix: &str, kind: TokenKind) -> (e: ParseError)
    ensures
        e.span == cx.span,
        e.file_id == cx.file_id,
        e.severity == Severity::Error,
{
    let mut e = error_in(cx, prefix);
    crate::text::push_str(&mut e.message, token_kind_name(kind));
    e
}

// ---------------------------------------------------------------------------
// A bound on the string literals inside tokens, which makes the parsing of
// string interpolations terminate.
// ---------------------------------------------------------------------------

/// Every string literal in `t`, nested tokens included, has fewer than `b` characters.
pub open spec fn token_strings_below(t: Token, b: nat) -> bool
    decreases t, 1nat,
{
    match t {
        Token::StringLit(s) => s@.len() < b,
        Token::Link { text_tokens, .. } => tokens_strings_below(text_tokens@, b),
        Token::Image { text_tokens, .. } => tokens_strings_below(text_tokens@, b),
        Token::MatchArms(arms) => arms_strings_below(arms@, b),
        _ => true,
    }
}

pub open spec fn tokens_strings_below(s: Seq<Token>, b: nat) -> bool
    decreases s, 0nat,
{
    forall|i: int| 0 <= i < s.len() ==> token_strings_below(#[trigger] s[i], b)
}

pub open spec fn arms_strings_below(s: Seq<MatchArm>, b: nat) -> bool
    decreases s, 0nat,
{
    forall|i: int| 0 <= i < s.len() ==> arm_strings_below(#[trigger] s[i], b)
}

pub open spec fn arm_strings_below(a: MatchArm, b: nat) -> bool
    decreases a, 1nat,
{
    tokens_strings_below(a.pattern.0@, b) && tokens_strings_below(a.result.0@, b)
}

proof fn lemma_strings_cons(t: Token, toks: Seq<Token>, b: nat)
    requires
        toks.len() > 0,
        toks[0] == t,
        token_strings_below(t, b),
        tokens_strings_below(toks.drop_first(), b),
    ensures
        tokens_strings_below(toks, b),
{
    assert forall|k: int| 0 <= k < toks.len() implies token_strings_below(#[trigger] toks[k], b) by {
        if k > 0 {
            assert(toks[k] == toks.drop_first()[k - 1]);
        }
    }
}

proof fn lemma_operator_plain(cs: Seq<char>, i: int)
    requires
        0 <= i < cs.len(),
    ensures
        match crate::lexer::operator_token(cs, i) {
            Some((t, n)) => token_strings_below(t, 0) && 1 <= n <= 2,
            None => true,
        },
{
}

proof fn lemma_lexed_strings(cs: Seq<char>, i: int, base: int, toks: Seq<Token>)
    requires
        0 <= i,
        lexes(cs, i, base, toks),
    ensures
        tokens_strings_below(toks, cs.len() as nat),
    decreases cs.len() - i,
{
    let len = cs.len() as nat;
    if i < cs.len() {
        crate::lexer::lemma_scans(cs, i);
        crate::lexer::lemma_scans(cs, i + 1);
        let c = cs[i];
        if crate::lexer::is_blank(c) {
            lemma_lexed_strings(cs, i + 1, base, toks);
        } else if c == '"' {
            let j = crate::lexer::scan_to_quote(cs, i + 1);
            let next = if j < cs.len() { j + 1 } else { j };
            lemma_lexed_strings(cs, next, base, toks.drop_first());
            lemma_strings_cons(toks[0], toks, len);
        } else if crate::text::is_digit(c) {
            let j = crate::lexer::scan_numeral(cs, i);
            match crate::number::parse_number_spec(cs.subrange(i, j)) {
                Some(_) => {
                    lemma_lexed_strings(cs, j, base, toks.drop_first());
                    lemma_strings_cons(toks[0], toks, len);
                },
                None => {
                    lemma_lexed_strings(cs, j, base, toks);
                },
            }
        } else if crate::text::is_ascii_letter(c) || c == '_' {
            let j = crate::lexer::scan_word(cs, i + 1);
            lemma_lexed_strings(cs, j, base, toks.drop_first());
            lemma_strings_cons(toks[0], toks, len);
        } else if c == '#' {
            if i + 1 < cs.len() && cs[i + 1] == '*' {
                lemma_lexed_strings(cs, i + 2, base, toks.drop_first());
                lemma_strings_cons(toks[0], toks, len);
            } else if i + 1 < cs.len() && crate::text::is_digit(cs[i + 1]) {
                let j = crate::lexer::scan_digits(cs, i + 1);
                let v = crate::lexer::digits_value(cs.subrange(i + 1, j));
                if v <= usize::MAX {
                    lemma_lexed_strings(cs, j, base, toks.drop_first());
                    lemma_strings_cons(toks[0], toks, len);
                } else {
                    lemma_lexed_strings(cs, j, base, toks);
                }
            } else {
                lemma_lexed_strings(cs, i + 1, base, toks.drop_first());
                lemma_strings_cons(toks[0], toks, len);
            }
        } else {
            lemma_operator_plain(cs, i);
            match crate::lexer::operator_token(cs, i) {
                Some((t, n)) => {
                    lemma_lexed_strings(cs, i + n, base, toks.drop_first());
                    lemma_strings_cons(toks[0], toks, len);
                },
                None => {
                    lemma_lexed_strings(cs, i + 1, base, toks);
                },
            }
        }
    }
}

// ---------------------------------------------------------------------------
// The Pratt parser
// ---------------------------------------------------------------------------

/// The operand that a single token stands for on its own: a number, boolean or unit
/// literal, a variable, a positional argument, or all the arguments.
pub open spec fn atom_value(t: Token) -> Option<Value> {
    match t {
        Token::Number(n) => Some(Value::NumberLiteral(n)),
        Token::True => Some(Value::BooleanLiteral(true)),
        Token::False => Some(Value::BooleanLiteral(false)),
        Token::Unit => Some(Value::UnitLiteral),
        Token::Ident(name, sp) => Some(Value::VariableReference(name, sp)),
        Token::ArgRef(n, sp) => Some(Value::PositionalArgumentReference(n, sp)),
        Token::SpreadRef => Some(Value::SpreadArgumentReference),
        _ => None,
    }
}

/// A token that cannot begin an operand: an infix or closing token, a comma, `_`, a bare
/// `#`, or match arms.
pub open spec fn starts_no_operand(t: Token) -> bool {
    match t {
        Token::Number(_) | Token::StringLit(_) | Token::True | Token::False | Token::Unit | Token::Ident(..)
        | Token::ArgRef(..) | Token::SpreadRef | Token::Bang | Token::Minus | Token::LParen | Token::LBrace
        | Token::Bold(_) | Token::Strike(_) | Token::Link { .. } | Token::Image { .. } | Token::Match => false,
        _ => true,
    }
}

/// An expression whose operators bind at least as tightly as `min_bp` stops at `p`: at
/// the end, or before a token that is no infix operator or binds more loosely.
pub open spec fn operand_ends(tokens: Seq<Token>, p: int, end: int, min_bp: u8) -> bool {
    p >= end || match infix_power(kind_of(tokens[p])) {
        None => true,
        Some((l, _)) => l < min_bp,
    }
}

/// How tightly an infix token binds its left operand.
pub open spec fn op_power(t: Token) -> int {
    match infix_power(kind_of(t)) {
        Some((l, _)) => l as int,
        None => 0,
    }
}

/// The binary operator of a token (addition when it is none).
pub open spec fn op_of(t: Token) -> BinaryOperator {
    match binary_operator_of(kind_of(t)) {
        Some(o) => o,
        None => BinaryOperator::Addition,
    }
}

/// `tokens[p..e]` alternate single-token operands and binary operators, beginning and
/// ending with an operand.
pub open spec fn simple_chain(ts: Seq<Token>, p: int, e: int) -> bool {
    &&& 0 <= p < e <= ts.len()
    &&& (e - p) % 2 == 1
    &&& forall|k: int|
        p <= k < e ==> if (k - p) % 2 == 0 {
            atom_value(#[trigger] ts[k]) is Some
        } else {
            binary_operator_of(kind_of(ts[k])) is Some
        }
}

/// In a chain `tokens[p..e]` of operands and operators, the operator applied last: the
/// rightmost of those that bind most loosely (operators of equal power group to the left).
pub open spec fn weakest(ts: Seq<Token>, p: int, e: int) -> int
    decreases e - p,
{
    if e - p < 5 {
        p + 1
    } else {
        let w = weakest(ts, p, e - 2);
        if op_power(ts[e - 2]) <= op_power(ts[w]) {
            e - 2
        } else {
            w
        }
    }
}

/// The expression that a chain `tokens[p..e]` of operands and binary operators stands for:
/// the operator applied last splits it, and each side is read the same way.
pub open spec fn chain_tree(ts: Seq<Token>, p: int, e: int) -> Value
    decreases e - p,
{
    if e - p < 3 {
        match atom_value(ts[p]) {
            Some(v) => v,
            None => Value::UnitLiteral,
        }
    } else {
        let q = weakest(ts, p, e);
        if p < q < e - 1 {
            Value::BinaryOperation {
                operator: op_of(ts[q]),
                left: Box::new(chain_tree(ts, p, q)),
                right: Box::new(chain_tree(ts, q + 1, e)),
            }
        } else {
            Value::UnitLiteral
        }
    }
}

/// The operator applied last binds no more tightly than any operator before it, and more
/// loosely than every operator after it.
proof fn lemma_weakest(ts: Seq<Token>, p: int, e: int)
    requires
        e - p >= 3,
        (e - p) % 2 == 1,
    ensures
        p < weakest(ts, p, e) < e - 1,
        (weakest(ts, p, e) - p) % 2 == 1,
        forall|k: int|
            p < k < weakest(ts, p, e) && (k - p) % 2 == 1 ==> op_power(#[trigger] ts[k]) >= op_power(
                ts[weakest(ts, p, e)],
            ),
        forall|k: int|
            weakest(ts, p, e) < k < e && (k - p) % 2 == 1 ==> op_power(#[trigger] ts[k]) > op_power(
                ts[weakest(ts, p, e)],
            ),
    decreases e - p,
{
    if e - p >= 5 {
        lemma_weakest(ts, p, e - 2);
        let w = weakest(ts, p, e - 2);
        assert((e - 2 - p) % 2 == 1);
        assert forall|k: int| weakest(ts, p, e) < k < e && (k - p) % 2 == 1 implies op_power(#[trigger] ts[k])
            > op_power(ts[weakest(ts, p, e)]) by {
            assert(k != e - 1);
        }
    }
}

/// An operator that binds no more tightly than those before it and more loosely than those
/// after it is the one applied last.
proof fn lemma_weakest_unique(ts: Seq<Token>, p: int, e: int, q: int)
    requires
        e - p >= 3,
        (e - p) % 2 == 1,
        p < q < e - 1,
        (q - p) % 2 == 1,
        forall|k: int| p < k < q && (k - p) % 2 == 1 ==> op_power(#[trigger] ts[k]) >= op_power(ts[q]),
        forall|k: int| q < k < e && (k - p) % 2 == 1 ==> op_power(#[trigger] ts[k]) > op_power(ts[q]),
    ensures
        weakest(ts, p, e) == q,
{
    lemma_weakest(ts, p, e);
    let w = weakest(ts, p, e);
    if w < q {
        assert(op_power(ts[q]) > op_power(ts[w]));
        assert(op_power(ts[w]) >= op_power(ts[q]));
    } else if w > q {
        assert(op_power(ts[w]) > op_power(ts[q]));
        assert(op_power(ts[q]) >= op_power(ts[w]));
    }
}

/// A chain read up to an operator, followed by that operator and the chain read after it
/// with operators binding more tightly, is the operator applied to both.
proof fn lemma_chain_extend(ts: Seq<Token>, p0: int, q: int, e2: int, left: Value, right: Value)
    requires
        p0 < q,
        q + 1 < e2,
        (q - p0) % 2 == 1,
        (e2 - (q + 1)) % 2 == 1,
        left == chain_tree(ts, p0, q),
        right == chain_tree(ts, q + 1, e2),
        forall|k: int| p0 < k < q && (k - p0) % 2 == 1 ==> op_power(#[trigger] ts[k]) >= op_power(ts[q]),
        forall|k: int| q + 1 < k < e2 && (k - (q + 1)) % 2 == 1 ==> op_power(#[trigger] ts[k]) >= op_power(ts[q]) + 1,
    ensures
        chain_tree(ts, p0, e2) == (Value::BinaryOperation {
            operator: op_of(ts[q]),
            left: Box::new(left),
            right: Box::new(right),
        }),
        (e2 - p0) % 2 == 1,
{
    assert forall|k: int| q < k < e2 && (k - p0) % 2 == 1 implies op_power(#[trigger] ts[k]) > op_power(ts[q]) by {
        assert((k - (q + 1)) % 2 == 1);
    }
    lemma_weakest_unique(ts, p0, e2, q);
}

/// The rest of a chain after one of its operators is a chain.
proof fn lemma_chain_suffix(ts: Seq<Token>, p: int, e: int, q: int)
    requires
        simple_chain(ts, p, e),
        p < q < e - 1,
        (q - p) % 2 == 1,
    ensures
        simple_chain(ts, q + 1, e),
{
    assert forall|k: int| q + 1 <= k < e implies if (k - (q + 1)) % 2 == 0 {
        atom_value(#[trigger] ts[k]) is Some
    } else {
        binary_operator_of(kind_of(ts[k])) is Some
    } by {
        assert((k - p) % 2 == (k - (q + 1)) % 2);
    }
}

/// Consumes a token of the given kind, or fails with "expected <kind>".
fn expect_kind(
    tokens: &Vec<Token>,
    pos: &mut usize,
    end: usize,
    kind: TokenKind,
    cx: &ParseContext,
) -> (r: Result<(), ParseError>)
    requires
        *old(pos) <= end <= tokens.len(),
    ensures
        error_from(r, cx.file_id),
        *final(pos) <= end,
        r is Ok <==> (*old(pos) < end && kind_of(tokens@[*old(pos) as int]) == kind),
        r is Ok ==> *final(pos) == *old(pos) + 1,
        *final(pos) >= *old(pos),
{
    if *pos < end {
        let k = token_kind(&tokens[*pos]);
        *pos += 1;
        if k == kind {
            return Ok(());
        }
    }
    Err(kind_error(cx, "expected ", kind))
}

/// Parses an expression from `tokens[*pos..end]` whose operators bind at least as tightly
/// as `min_bp`, leaving `*pos` after the last token it took. On success it took at least
/// one token.
pub fn parse_expr(
    tokens: &Vec<Token>,
    pos: &mut usize,
    end: usize,
    min_bp: u8,
    cx: &ParseContext,
    Ghost(b): Ghost<nat>,
) -> (r: Result<Value, ParseError>)
    requires
        *old(pos) <= end <= tokens.len(),
        tokens_strings_below(tokens@, b),
    ensures
        error_from(r, cx.file_id),
        *old(pos) <= *final(pos) <= end,
        r is Ok ==> *old(pos) < *final(pos),
        *old(pos) >= end ==> r is Err,
        *old(pos) < end ==> (atom_value(tokens@[*old(pos) as int]) matches Some(v) ==> (operand_ends(
            tokens@,
            *old(pos) + 1,
            end as int,
            min_bp,
        ) ==> r == Ok::<Value, ParseError>(v) && *final(pos) == *old(pos) + 1)),
        simple_chain(tokens@, *old(pos) as int, end as int) ==> ({
            let p0 = *old(pos) as int;
            let e = *final(pos) as int;
            &&& r == Ok::<Value, ParseError>(chain_tree(tokens@, p0, e))
            &&& (e - p0) % 2 == 1
            &&& forall|k: int| p0 < k < e && (k - p0) % 2 == 1 ==> op_power(#[trigger] tokens@[k]) >= min_bp
            &&& e < end ==> op_power(tokens@[e]) < min_bp
        }),
    decreases b, *tokens, end - *old(pos), 1nat,
{
    let ghost p0 = *pos;
    let mut left = match parse_prefix(tokens, pos, end, cx, Ghost(b)) {
        Ok(v) => v,
        Err(e) => return Err(e),
    };
    let ghost single = atom_value(tokens@[p0 as int]) is Some && operand_ends(tokens@, p0 + 1, end as int, min_bp);
    let ghost chain = simple_chain(tokens@, p0 as int, end as int);
    proof {
        if chain {
            assert(atom_value(tokens@[p0 as int]) is Some);
        }
    }
    loop
        invariant
            p0 == *old(pos),
            p0 < *pos <= end <= tokens.len(),
            tokens_strings_below(tokens@, b),
            single == (atom_value(tokens@[p0 as int]) is Some && operand_ends(tokens@, p0 + 1, end as int, min_bp)),
            single ==> *pos == p0 + 1 && atom_value(tokens@[p0 as int]) == Some(left),
            chain == simple_chain(tokens@, p0 as int, end as int),
            chain ==> {
                &&& (*pos - p0) % 2 == 1
                &&& left == chain_tree(tokens@, p0 as int, *pos as int)
                &&& forall|k: int| p0 < k < *pos && (k - p0) % 2 == 1 ==> op_power(#[trigger] tokens@[k]) >= min_bp
                &&& *pos < end ==> forall|k: int|
                    p0 < k < *pos && (k - p0) % 2 == 1 ==> op_power(#[trigger] tokens@[k]) >= op_power(
                        tokens@[*pos as int],
                    )
            },
        ensures
            chain ==> (*pos < end ==> op_power(tokens@[*pos as int]) < min_bp),
        decreases end - *pos,
    {
        if *pos >= end {
            break;
        }
        let ghost q = *pos as int;
        proof {
            if chain {
                assert(binary_operator_of(kind_of(tokens@[q])) is Some);
            }
        }
        let kind = token_kind(&tokens[*pos]);
        let (l_bp, r_bp) = match infix_bp(kind) {
            Some(p) => p,
            None => break,
        };
        assert(op_power(tokens@[q]) == l_bp);
        if l_bp < min_bp {
            break;
        }
        if kind == TokenKind::Question {
            *pos += 1;
            let true_branch = parse_expr(tokens, pos, end, 0, cx, Ghost(b))?;
            let false_branch = if *pos < end && token_kind(&tokens[*pos]) == TokenKind::Colon {
                *pos += 1;
                let f = parse_expr(tokens, pos, end, 0, cx, Ghost(b))?;
                Some(Box::new(f))
            } else {
                None
            };
            left = Value::Conditional {
                condition: Box::new(left),
                true_branch: Box::new(true_branch),
                false_branch,
            };
            continue;
        }
        *pos += 1;
        proof {
            if chain {
                lemma_chain_suffix(tokens@, p0 as int, end as int, q);
            }
        }
        let right = parse_expr(tokens, pos, end, r_bp, cx, Ghost(b))?;
        let operator = match binary_operator(kind) {
            Some(op) => op,
            None => return Err(error_in(cx, "unexpected infix operator")),
        };
        let ghost old_left = left;
        left = Value::BinaryOperation { operator, left: Box::new(left), right: Box::new(right) };
        proof {
            if chain {
                lemma_chain_extend(tokens@, p0 as int, q, *pos as int, old_left, right);
            }
        }
    }
    Ok(left)
}

/// Parses one operand: a literal, a reference, a unary operation, a parenthesized or
/// braced expression, a print, a strikethrough, a block invocation or a match.
fn parse_prefix(
    tokens: &Vec<Token>,
    pos: &mut usize,
    end: usize,
    cx: &ParseContext,
    Ghost(b): Ghost<nat>,
) -> (r: Result<Value, ParseError>)
    requires
        *old(pos) <= end <= tokens.len(),
        tokens_strings_below(tokens@, b),
    ensures
        error_from(r, cx.file_id),
        *old(pos) <= *final(pos) <= end,
        r is Ok ==> *old(pos) < *final(pos),
        *old(pos) >= end ==> r is Err,
        *old(pos) < end ==> ({
            let t = tokens@[*old(pos) as int];
            &&& (atom_value(t) matches Some(v) ==> r == Ok::<Value, ParseError>(v) && *final(pos) == *old(pos)
                + 1)
            &&& (starts_no_operand(t) ==> r is Err)
            &&& (t matches Token::StringLit(s) ==> (!s@.contains('{') ==> (r matches Ok(Value::StringLiteral(x))
                && x@ == s@ && *final(pos) == *old(pos) + 1)))
            &&& (t matches Token::Bold(ts) ==> (r matches Ok(Value::Print(x)) && parts_same(x.parts@, ts.parts@)
                && *final(pos) == *old(pos) + 1))
            &&& (t matches Token::Strike(ts) ==> (r matches Ok(Value::Strikethrough(x)) && parts_same(
                x.parts@,
                ts.parts@,
            ) && *final(pos) == *old(pos) + 1))
            &&& (t is Bang ==> (r matches Ok(v) ==> v matches Value::UnaryOperation {
                operator: UnaryOperator::LogicalNot,
                ..
            }))
            &&& (t is Minus ==> (r matches Ok(v) ==> v matches Value::UnaryOperation {
                operator: UnaryOperator::Negation,
                ..
            }))
            &&& (t matches Token::Link { dest, .. } ==> (r matches Ok(v) ==> (v matches Value::BlockInvocation(
                _,
                br,
            ) && reference_of(br, dest@))))
            &&& (t matches Token::Image { dest, .. } ==> (r matches Ok(v) ==> (
            v matches Value::EvaluatedBlockInvocation(_, br) && reference_of(br, dest@))))
            &&& (t is Match ==> (r matches Ok(v) ==> v is Match))
        }),
    decreases b, *tokens, end - *old(pos), 0nat,
{
    if *pos >= end {
        return Err(error_in(cx, "unexpected end of expression"));
    }
    let p = *pos;
    *pos += 1;
    proof {
        vstd::std_specs::vec::axiom_vec_index_decreases(*tokens, p as int);
        assert(token_strings_below(tokens@[p as int], b));
    }
    match &tokens[p] {
        Token::Number(n) => Ok(Value::NumberLiteral(*n)),
        Token::StringLit(s) => {
            let parts = parse_template_parts(s.as_str(), cx)?;
            if parts.len() == 1 {
                if let TemplateStringPart::Literal(_) = &parts[0] {
                    return Ok(Value::StringLiteral(s.clone()));
                }
            }
            if all_literal(&parts) {
                return Ok(Value::StringLiteral(s.clone()));
            }
            Ok(Value::Interpolation(TemplateString { parts }))
        },
        Token::True => Ok(Value::BooleanLiteral(true)),
        Token::False => Ok(Value::BooleanLiteral(false)),
        Token::Unit => Ok(Value::UnitLiteral),
        Token::Ident(name, sp) => Ok(Value::VariableReference(name.clone(), copy_span(sp))),
        Token::ArgRef(n, sp) => Ok(Value::PositionalArgumentReference(*n, copy_span(sp))),
        Token::SpreadRef => Ok(Value::SpreadArgumentReference),
        Token::Bang => {
            let operand = parse_expr(tokens, pos, end, BP_UNARY, cx, Ghost(b))?;
            Ok(Value::UnaryOperation { operator: UnaryOperator::LogicalNot, operand: Box::new(operand) })
        },
        Token::Minus => {
            let operand = parse_expr(tokens, pos, end, BP_UNARY, cx, Ghost(b))?;
            Ok(Value::UnaryOperation { operator: UnaryOperator::Negation, operand: Box::new(operand) })
        },
        Token::LParen => {
            let e = parse_expr(tokens, pos, end, 0, cx, Ghost(b))?;
            expect_kind(tokens, pos, end, TokenKind::RParen, cx)?;
            Ok(e)
        },
        Token::LBrace => {
            let e = parse_expr(tokens, pos, end, 0, cx, Ghost(b))?;
            expect_kind(tokens, pos, end, TokenKind::RBrace, cx)?;
            Ok(e)
        },
        Token::Bold(ts) => Ok(Value::Print(clone_template_string(ts))),
        Token::Strike(ts) => Ok(Value::Strikethrough(clone_template_string(ts))),
        Token::Link { text_tokens, dest } => {
            let block_ref = parse_block_reference(dest.as_str());
            let args = parse_argument_list(text_tokens, cx, Ghost(b))?;
            Ok(Value::BlockInvocation(args, block_ref))
        },
        Token::Image { text_tokens, dest } => {
            let block_ref = parse_block_reference(dest.as_str());
            let args = parse_argument_list(text_tokens, cx, Ghost(b))?;
            Ok(Value::EvaluatedBlockInvocation(args, block_ref))
        },
        Token::Match => {
            let scrutinee = parse_expr(tokens, pos, end, BP_UNARY, cx, Ghost(b))?;
            if *pos < end {
                let q = *pos;
                *pos += 1;
                proof {
                    vstd::std_specs::vec::axiom_vec_index_decreases(*tokens, q as int);
                    assert(token_strings_below(tokens@[q as int], b));
                }
                if let Token::MatchArms(arms) = &tokens[q] {
                    return build_match_expr(scrutinee, arms, cx, Ghost(b));
                }
            }
            Err(error_in(cx, "expected match arms (unordered list) after 'match'"))
        },
        other => {
            let k = token_kind(other);
            Err(kind_error(cx, "unexpected token: ", k))
        },
    }
}

/// Whether every part is a literal.
fn all_literal(parts: &Vec<TemplateStringPart>) -> (r: bool)
    ensures
        r == (forall|i: int| 0 <= i < parts@.len() ==> #[trigger] parts@[i] is Literal),
{
    let mut i: usize = 0;
    while i < parts.len()
        invariant
            i <= parts.len(),
            forall|k: int| 0 <= k < i ==> #[trigger] parts@[k] is Literal,
        decreases parts.len() - i,
    {
        if let TemplateStringPart::Expression(_) = &parts[i] {
            return false;
        }
        i += 1;
    }
    true
}

/// The binding token of an `otherwise` arm is acceptable: there is none, or it is a name
/// or `_`.
pub open spec fn binding_ok(a: MatchArm) -> bool {
    a.pattern.0@.len() < 2 || a.pattern.0@[1] is Ident || a.pattern.0@[1] is Underscore
}

/// The name that an `otherwise` arm binds the value to: the name after `otherwise`, none
/// for `_` or where there is nothing after it.
pub open spec fn binding_of(a: MatchArm) -> Option<Seq<char>> {
    if a.pattern.0@.len() < 2 {
        None
    } else {
        match a.pattern.0@[1] {
            Token::Ident(w, _) => Some(w@),
            _ => None,
        }
    }
}

/// Each piece of the arm parses: its result is a chain of operands and operators, and its
/// binding (for `otherwise`) or its pattern (for the others) is well formed.
pub open spec fn arm_parses(a: MatchArm) -> bool {
    &&& simple_chain(a.result.0@, 0, a.result.0@.len() as int)
    &&& if a.is_otherwise {
        binding_ok(a)
    } else {
        runs_are_patterns(pipe_runs(a.pattern.0@))
    }
}

/// The arms other than `otherwise`, in order.
pub open spec fn regular_arms(s: Seq<MatchArm>) -> Seq<MatchArm>
    decreases s.len(),
{
    if s.len() == 0 {
        seq![]
    } else if s.last().is_otherwise {
        regular_arms(s.drop_last())
    } else {
        regular_arms(s.drop_last()).push(s.last())
    }
}

/// The last `otherwise` arm, if any.
pub open spec fn last_otherwise(s: Seq<MatchArm>) -> Option<MatchArm>
    decreases s.len(),
{
    if s.len() == 0 {
        None
    } else if s.last().is_otherwise {
        Some(s.last())
    } else {
        last_otherwise(s.drop_last())
    }
}

/// The template `t` is what the pattern tokens read as: one pattern, or an alternation
/// of the runs between `|`.
pub open spec fn pattern_of(tokens: Seq<Token>, t: Template) -> bool {
    if pipe_runs(tokens).len() == 1 {
        Some(t) == single_pattern_of(pipe_runs(tokens)[0])
    } else {
        t matches Template::Alternation(alts) && alts@.len() == pipe_runs(tokens).len() && forall|k: int|
            0 <= k < alts@.len() ==> Some(#[trigger] alts@[k]) == single_pattern_of(pipe_runs(tokens)[k])
    }
}

/// A parsed regular arm: its pattern read from the arm's pattern tokens, and its result
/// the arm's chain where the result tokens are one.
pub open spec fn arm_built(a: MatchArm, p: (Template, Value)) -> bool {
    &&& pattern_of(a.pattern.0@, p.0)
    &&& simple_chain(a.result.0@, 0, a.result.0@.len() as int) ==> p.1 == chain_tree(
        a.result.0@,
        0,
        a.result.0@.len() as int,
    )
}

/// The fallback built from the last `otherwise` arm: its binding and, where the result
/// tokens are a chain, that chain.
pub open spec fn otherwise_built(o: Option<MatchArm>, f: Option<(Option<String>, Box<Value>)>) -> bool {
    match o {
        None => f is None,
        Some(a) => f matches Some((b, v)) && (match b {
            Some(name) => binding_of(a) == Some(name@),
            None => binding_of(a) is None,
        }) && (simple_chain(a.result.0@, 0, a.result.0@.len() as int) ==> *v == chain_tree(
            a.result.0@,
            0,
            a.result.0@.len() as int,
        )),
    }
}

/// Builds a match expression from its scrutinee and arms: an `otherwise` arm gives the
/// fallback, binding the value to the name that follows `otherwise` (none for `_`); the
/// others give a pattern and a result each.
fn build_match_expr(
    scrutinee: Value,
    arms: &Vec<MatchArm>,
    cx: &ParseContext,
    Ghost(b): Ghost<nat>,
) -> (r: Result<Value, ParseError>)
    requires
        arms_strings_below(arms@, b),
    ensures
        error_from(r, cx.file_id),
        r matches Ok(v) ==> v is Match,
        (forall|k: int| 0 <= k < arms@.len() ==> arm_parses(#[trigger] arms@[k])) ==> r is Ok,
        r matches Ok(Value::Match { value, arms: pa, otherwise }) ==> {
            &&& *value == scrutinee
            &&& pa@.len() == regular_arms(arms@).len()
            &&& forall|m: int| 0 <= m < pa@.len() ==> arm_built(regular_arms(arms@)[m], #[trigger] pa@[m])
            &&& otherwise_built(last_otherwise(arms@), otherwise)
        },
    decreases b, *arms, 0nat, 0nat,
{
    let mut parsed_arms: Vec<(Template, Value)> = Vec::new();
    let mut otherwise: Option<(Option<String>, Box<Value>)> = None;
    let mut j: usize = 0;
    while j < arms.len()
        invariant
            j <= arms.len(),
            arms_strings_below(arms@, b),
            parsed_arms@.len() == regular_arms(arms@.take(j as int)).len(),
            forall|m: int|
                0 <= m < parsed_arms@.len() ==> arm_built(regular_arms(arms@.take(j as int))[m], #[trigger] parsed_arms@[m]),
            otherwise_built(last_otherwise(arms@.take(j as int)), otherwise),
        decreases arms.len() - j,
    {
        proof {
            vstd::std_specs::vec::axiom_vec_index_decreases(*arms, j as int);
            assert(arm_strings_below(arms@[j as int], b));
        }
        let ghost before = arms@.take(j as int);
        let ghost after = arms@.take(j + 1);
        proof {
            assert(after.drop_last() =~= before);
            assert(after.last() == arms@[j as int]);
        }
        let arm = &arms[j];
        let rcx = ParseContext { span: copy_span(&arm.result.1), file_id: cx.file_id };
        if arm.is_otherwise {
            let binding = if arm.pattern.0.len() < 2 {
                None
            } else {
                match &arm.pattern.0[1] {
                    Token::Ident(ident, _) => Some(ident.clone()),
                    Token::Underscore => None,
                    _ => {
                        return Err(
                            ParseError::error(
                                "expected binding".to_owned(),
                                copy_span(&arm.pattern.1),
                                cx.file_id,
                            ),
                        );
                    },
                }
            };
            let mut p: usize = 0;
            let result_value = parse_expr(&arm.result.0, &mut p, arm.result.0.len(), 0, &rcx, Ghost(b))?;
            otherwise = Some((binding, Box::new(result_value)));
            proof {
                assert(regular_arms(after) == regular_arms(before));
                assert(last_otherwise(after) == Some(arms@[j as int]));
            }
        } else {
            let template = parse_pattern(&arm.pattern.0, &arm.pattern.1, cx.file_id)?;
            let mut p: usize = 0;
            let result_value = parse_expr(&arm.result.0, &mut p, arm.result.0.len(), 0, &rcx, Ghost(b))?;
            let ghost pair = (template, result_value);
            let ghost pa_before = parsed_arms@;
            parsed_arms.push((template, result_value));
            proof {
                assert(regular_arms(after) == regular_arms(before).push(arms@[j as int]));
                assert(last_otherwise(after) == last_otherwise(before));
                assert(parsed_arms@.last() == pair);
                assert forall|m: int|
                    0 <= m < parsed_arms@.len() implies arm_built(regular_arms(after)[m], #[trigger] parsed_arms@[m]) by {
                    if m < parsed_arms@.len() - 1 {
                        assert(parsed_arms@[m] == pa_before[m]);
                    }
                }
            }
        }
        j += 1;
    }
    proof {
        assert(arms@.take(arms@.len() as int) =~= arms@);
    }
    Ok(Value::Match { value: Box::new(scrutinee), arms: parsed_arms, otherwise })
}

/// The bounds of the non-empty runs between the commas of `tokens[0..n]` that a comma
/// has closed, and where the run still open begins.
pub open spec fn comma_bounds(ts: Seq<Token>, n: int) -> (Seq<(int, int)>, int)
    decreases n,
{
    if n <= 0 {
        (seq![], 0)
    } else {
        let (b, st) = comma_bounds(ts, n - 1);
        if ts[n - 1] is Comma {
            (if n - 1 > st {
                b.push((st, n - 1))
            } else {
                b
            }, n)
        } else {
            (b, st)
        }
    }
}

/// The bounds of the non-empty runs of tokens between commas: the arguments of a link.
pub open spec fn argument_bounds(ts: Seq<Token>) -> Seq<(int, int)> {
    let (b, st) = comma_bounds(ts, ts.len() as int);
    if st < ts.len() {
        b.push((st, ts.len() as int))
    } else {
        b
    }
}

proof fn lemma_comma_bounds(ts: Seq<Token>, n: int)
    requires
        0 <= n <= ts.len(),
    ensures
        comma_bounds(ts, n).1 <= n,
        comma_bounds(ts, n).1 >= 0,
    decreases n,
{
    if n > 0 {
        lemma_comma_bounds(ts, n - 1);
    }
}

/// The runs closed by position `n` stay closed, as they are, at any later position.
proof fn lemma_comma_bounds_prefix(ts: Seq<Token>, n: int, m: int)
    requires
        0 <= n <= m <= ts.len(),
    ensures
        comma_bounds(ts, n).0.len() <= comma_bounds(ts, m).0.len(),
        forall|k: int| 0 <= k < comma_bounds(ts, n).0.len() ==> comma_bounds(ts, m).0[k] == #[trigger] comma_bounds(
            ts,
            n,
        ).0[k],
    decreases m - n,
{
    if n < m {
        lemma_comma_bounds_prefix(ts, n, m - 1);
    }
}

/// The runs closed by position `m` are the first arguments.
proof fn lemma_comma_bounds_final(ts: Seq<Token>, m: int)
    requires
        0 <= m <= ts.len(),
    ensures
        comma_bounds(ts, m).0.len() <= argument_bounds(ts).len(),
        forall|k: int| 0 <= k < comma_bounds(ts, m).0.len() ==> argument_bounds(ts)[k] == #[trigger] comma_bounds(
            ts,
            m,
        ).0[k],
{
    lemma_comma_bounds_prefix(ts, m, ts.len() as int);
}

/// Splits link-text tokens at commas and parses each non-empty run as one argument.
pub fn parse_argument_list(
    tokens: &Vec<Token>,
    cx: &ParseContext,
    Ghost(b): Ghost<nat>,
) -> (r: Result<Vec<Value>, ParseError>)
    requires
        tokens_strings_below(tokens@, b),
    ensures
        error_from(r, cx.file_id),
        tokens@.len() == 0 ==> (r matches Ok(v) && v@.len() == 0),
        r matches Ok(v) ==> v@.len() == argument_bounds(tokens@).len(),
        (forall|k: int|
            0 <= k < argument_bounds(tokens@).len() ==> simple_chain(
                tokens@,
                #[trigger] argument_bounds(tokens@)[k].0,
                argument_bounds(tokens@)[k].1,
            )) ==> (r matches Ok(v) && forall|k: int|
            0 <= k < v@.len() ==> #[trigger] v@[k] == chain_tree(
                tokens@,
                argument_bounds(tokens@)[k].0,
                argument_bounds(tokens@)[k].1,
            )),
    decreases b, *tokens, tokens@.len() + 1, 0nat,
{
    let mut args: Vec<Value> = Vec::new();
    let len = tokens.len();
    let mut start: usize = 0;
    let mut i: usize = 0;
    let ghost all_simple = forall|k: int|
        0 <= k < argument_bounds(tokens@).len() ==> simple_chain(
            tokens@,
            #[trigger] argument_bounds(tokens@)[k].0,
            argument_bounds(tokens@)[k].1,
        );
    while i < len
        invariant
            start <= i <= len == tokens.len(),
            tokens_strings_below(tokens@, b),
            len == 0 ==> args@.len() == 0,
            comma_bounds(tokens@, i as int).1 == start,
            comma_bounds(tokens@, i as int).0.len() == args@.len(),
            all_simple == forall|k: int|
                0 <= k < argument_bounds(tokens@).len() ==> simple_chain(
                    tokens@,
                    #[trigger] argument_bounds(tokens@)[k].0,
                    argument_bounds(tokens@)[k].1,
                ),
            all_simple ==> forall|k: int|
                0 <= k < args@.len() ==> #[trigger] args@[k] == chain_tree(
                    tokens@,
                    argument_bounds(tokens@)[k].0,
                    argument_bounds(tokens@)[k].1,
                ),
        decreases len - i,
    {
        proof {
            lemma_comma_bounds(tokens@, i as int);
            lemma_comma_bounds_prefix(tokens@, i as int, i + 1);
            lemma_comma_bounds_final(tokens@, i + 1);
        }
        if let Token::Comma = &tokens[i] {
            if i > start {
                let mut p = start;
                proof {
                    let k = args@.len() as int;
                    assert(comma_bounds(tokens@, i + 1).0.len() == k + 1);
                    assert(comma_bounds(tokens@, i + 1).0[k] == (start as int, i as int));
                    assert(argument_bounds(tokens@)[k] == (start as int, i as int));
                    if all_simple {
                        assert(simple_chain(tokens@, argument_bounds(tokens@)[k].0, argument_bounds(tokens@)[k].1));
                    }
                }
                let v = parse_expr(tokens, &mut p, i, 0, cx, Ghost(b))?;
                args.push(v);
            }
            start = i + 1;
        }
        i += 1;
    }
    proof {
        lemma_comma_bounds(tokens@, len as int);
        lemma_comma_bounds_final(tokens@, len as int);
    }
    if start < len {
        let mut p = start;
        proof {
            let k = args@.len() as int;
            assert(argument_bounds(tokens@)[k] == (start as int, len as int));
            if all_simple {
                assert(simple_chain(tokens@, argument_bounds(tokens@)[k].0, argument_bounds(tokens@)[k].1));
            }
        }
        let v = parse_expr(tokens, &mut p, len, 0, cx, Ghost(b))?;
        args.push(v);
    }
    Ok(args)
}

// ---------------------------------------------------------------------------
// Template strings
// ---------------------------------------------------------------------------

/// Whether `base` plus the UTF-8 length of `cs` fits in a `usize`.
pub fn offsets_fit(cs: &Vec<char>, base: usize) -> (r: bool)
    ensures
        r == (base + utf8_len_seq(cs@) <= usize::MAX),
{
    let mut total: usize = base;
    let mut i: usize = 0;
    while i < cs.len()
        invariant
            i <= cs.len(),
            total == base + utf8_len_seq(cs@.take(i as int)),
        decreases cs.len() - i,
    {
        assert(cs@.take(i + 1).drop_last() =~= cs@.take(i as int));
        let n = char_utf8_len(cs[i]);
        if total > usize::MAX - n {
            proof {
                lemma_utf8_len_prefix(cs@, i + 1);
            }
            return false;
        }
        total = total + n;
        i += 1;
    }
    assert(cs@.take(cs.len() as int) =~= cs@);
    true
}

proof fn lemma_utf8_len_prefix(s: Seq<char>, k: int)
    requires
        0 <= k <= s.len(),
    ensures
        utf8_len_seq(s.take(k)) <= utf8_len_seq(s),
    decreases s.len() - k,
{
    if k < s.len() {
        lemma_utf8_len_prefix(s, k + 1);
        assert(s.take(k + 1).drop_last() =~= s.take(k));
    } else {
        assert(s.take(k) =~= s);
    }
}

/// Reads the text of a string for `{expr}` interpolations: literal runs become literal
/// parts, and each braced expression (nested braces counted) is parsed into an
/// expression part. The result is never empty.
pub fn parse_template_parts(s: &str, cx: &ParseContext) -> (r: Result<Vec<TemplateStringPart>, ParseError>)
    ensures
        error_from(r, cx.file_id),
        r matches Ok(v) ==> v@.len() > 0,
        !s@.contains('{') ==> (r matches Ok(v) && v@.len() == 1 && (v@[0] matches TemplateStringPart::Literal(t)
            && t@ == s@)),
    decreases s@.len(), *cx, 0nat, 0nat,
{
    let mut parts: Vec<TemplateStringPart> = Vec::new();
    let mut current = String::new();
    let chars = chars_of(s);
    let n = chars.len();
    let mut i: usize = 0;
    while i < n
        invariant
            i <= n == chars@.len() == s@.len(),
            chars@ == s@,
            !s@.contains('{') ==> parts@.len() == 0 && current@ == s@.take(i as int),
        decreases n - i,
    {
        if chars[i] == '{' {
            assert(s@[i as int] == '{');
            assert(s@.contains('{'));
            if !current.as_str().is_empty() {
                parts.push(TemplateStringPart::Literal(current));
                current = String::new();
            }
            i += 1;
            let mut depth: u64 = 1;
            let start = i;
            while i < n
                invariant
                    1 <= start <= i <= n == chars@.len(),
                    s@.contains('{'),
                    depth >= 1,
                decreases n - i,
            {
                if chars[i] == '{' {
                    if depth == u64::MAX {
                        return Err(error_in(cx, "interpolation nested too deeply"));
                    }
                    depth += 1;
                } else if chars[i] == '}' {
                    if depth == 1 {
                        break;
                    }
                    depth -= 1;
                }
                i += 1;
            }
            let expr = string_from(&chars, start, i);
            if i < n {
                i += 1;
            }
            let ecs = chars_of(expr.as_str());
            if !offsets_fit(&ecs, 0) {
                return Err(error_in(cx, "interpolation too long"));
            }
            let mut tokens: Vec<Token> = Vec::new();
            tokenize_text(expr.as_str(), &mut tokens, 0);
            proof {
                assert(tokens@.skip(0) =~= tokens@);
                lemma_lexed_strings(expr@, 0, 0, tokens@);
            }
            let mut p: usize = 0;
            let e = parse_expr(&tokens, &mut p, tokens.len(), 0, cx, Ghost(expr@.len()))?;
            parts.push(TemplateStringPart::Expression(e));
        } else {
            proof {
                assert(s@.take(i + 1) =~= s@.take(i as int).push(chars@[i as int]));
            }
            push_char(&mut current, chars[i]);
            i += 1;
        }
    }
    proof {
        if !s@.contains('{') {
            assert(s@.take(n as int) =~= s@);
        }
    }
    if !current.as_str().is_empty() {
        parts.push(TemplateStringPart::Literal(current));
    }
    if parts.len() == 0 {
        parts.push(TemplateStringPart::Literal(String::new()));
    }
    Ok(parts)
}

/// Reads a text with `{expr}` interpolations as a template string.
pub fn parse_text_template(s: &str, file_id: usize) -> (r: Result<TemplateString, ParseError>)
    ensures
        error_from(r, file_id),
        r matches Ok(t) ==> t.parts@.len() > 0,
        !s@.contains('{') ==> (r matches Ok(t) && t.parts@.len() == 1 && (t.parts@[0] matches TemplateStringPart::Literal(x)
            && x@ == s@)),
{
    let cx = ParseContext { span: 0..0, file_id };
    let parts = parse_template_parts(s, &cx)?;
    Ok(TemplateString { parts })
}

// ---------------------------------------------------------------------------
// Patterns of match arms
// ---------------------------------------------------------------------------

/// The pattern that a run of tokens stands for, if it is a single literal, `_` or a name.
pub open spec fn single_pattern_of(seg: Seq<Token>) -> Option<Template> {
    if seg.len() != 1 {
        None
    } else {
        match seg[0] {
            Token::Number(v) => Some(Template::NumberLiteral(v)),
            Token::True => Some(Template::BooleanLiteral(true)),
            Token::False => Some(Template::BooleanLiteral(false)),
            Token::Unit => Some(Template::UnitLiteral),
            Token::StringLit(s) => Some(Template::StringLiteral(s)),
            Token::Underscore => Some(Template::Wildcard),
            Token::Ident(name, _) => Some(Template::Binding(name)),
            _ => None,
        }
    }
}

/// Parses `tokens[start..end]` as a single pattern.
fn parse_single_pattern(
    tokens: &Vec<Token>,
    start: usize,
    end: usize,
    span: &std::ops::Range<usize>,
    file_id: usize,
) -> (r: Result<Template, ParseError>)
    requires
        start <= end <= tokens.len(),
    ensures
        error_from(r, file_id),
        match single_pattern_of(tokens@.subrange(start as int, end as int)) {
            Some(t) => r == Ok::<Template, ParseError>(t),
            None => (r matches Err(e) && e.span == *span && e.file_id == file_id),
        },
{
    if end - start == 1 {
        let t = match &tokens[start] {
            Token::Number(v) => Some(Template::NumberLiteral(*v)),
            Token::True => Some(Template::BooleanLiteral(true)),
            Token::False => Some(Template::BooleanLiteral(false)),
            Token::Unit => Some(Template::UnitLiteral),
            Token::StringLit(s) => Some(Template::StringLiteral(s.clone())),
            Token::Underscore => Some(Template::Wildcard),
            Token::Ident(name, _) => Some(Template::Binding(name.clone())),
            _ => None,
        };
        if let Some(t) = t {
            return Ok(t);
        }
    }
    Err(ParseError::error("expected pattern".to_owned(), copy_span(span), file_id))
}

/// The runs of tokens between the `|` tokens (one run when there is none).
pub open spec fn pipe_runs(ts: Seq<Token>) -> Seq<Seq<Token>>
    decreases ts.len(),
{
    if ts.len() == 0 {
        seq![seq![]]
    } else {
        let init = pipe_runs(ts.drop_last());
        if ts.last() is Pipe {
            init.push(seq![])
        } else {
            init.update(init.len() - 1, init.last().push(ts.last()))
        }
    }
}

proof fn lemma_pipe_runs_nonempty(ts: Seq<Token>)
    ensures
        pipe_runs(ts).len() > 0,
    decreases ts.len(),
{
    if ts.len() > 0 {
        lemma_pipe_runs_nonempty(ts.drop_last());
    }
}

/// Every run between the `|` tokens is a single pattern.
pub open spec fn runs_are_patterns(runs: Seq<Seq<Token>>) -> bool {
    forall|k: int| 0 <= k < runs.len() ==> #[trigger] single_pattern_of(runs[k]) is Some
}

/// Parses the tokens of a match arm's pattern: alternatives separated by `|`, each a
/// single pattern; one alternative is that pattern, several an alternation.
pub fn parse_pattern(
    tokens: &Vec<Token>,
    span: &std::ops::Range<usize>,
    file_id: usize,
) -> (r: Result<Template, ParseError>)
    ensures
        error_from(r, file_id),
        r is Err ==> (r matches Err(e) && e.span == *span && e.file_id == file_id),
        r is Ok <==> runs_are_patterns(pipe_runs(tokens@)),
        r matches Ok(t) ==> if pipe_runs(tokens@).len() == 1 {
            Some(t) == single_pattern_of(pipe_runs(tokens@)[0])
        } else {
            t matches Template::Alternation(alts) && alts@.len() == pipe_runs(tokens@).len() && forall|k: int|
                0 <= k < alts@.len() ==> Some(#[trigger] alts@[k]) == single_pattern_of(pipe_runs(tokens@)[k])
        },
{
    let mut templates: Vec<Template> = Vec::new();
    let len = tokens.len();
    let mut start: usize = 0;
    let mut i: usize = 0;
    proof {
        assert(tokens@.take(0) =~= Seq::<Token>::empty());
        assert(tokens@.subrange(0, 0) =~= Seq::<Token>::empty());
    }
    while i < len
        invariant
            start <= i <= len == tokens.len(),
            pipe_runs(tokens@.take(i as int)).len() == templates@.len() + 1,
            pipe_runs(tokens@.take(i as int)).last() == tokens@.subrange(start as int, i as int),
            forall|k: int|
                0 <= k < templates@.len() ==> Some(#[trigger] templates@[k]) == single_pattern_of(
                    pipe_runs(tokens@.take(i as int))[k],
                ),
        decreases len - i,
    {
        let ghost before = pipe_runs(tokens@.take(i as int));
        assert(tokens@.take(i + 1).drop_last() =~= tokens@.take(i as int));
        assert(tokens@.take(i + 1).last() == tokens@[i as int]);
        if let Token::Pipe = &tokens[i] {
            let t = match parse_single_pattern(tokens, start, i, span, file_id) {
                Ok(t) => t,
                Err(e) => {
                    proof {
                        lemma_runs_prefix_fail(tokens@, i as int, templates@.len() as int);
                    }
                    return Err(e);
                },
            };
            templates.push(t);
            start = i + 1;
            proof {
                assert(tokens@.subrange(start as int, i + 1) =~= Seq::<Token>::empty());
            }
        } else {
            proof {
                assert(tokens@.subrange(start as int, i + 1) =~= tokens@.subrange(start as int, i as int).push(
                    tokens@[i as int],
                ));
            }
        }
        i += 1;
    }
    proof {
        assert(tokens@.take(len as int) =~= tokens@);
    }
    let t = match parse_single_pattern(tokens, start, len, span, file_id) {
        Ok(t) => t,
        Err(e) => {
            proof {
                assert(single_pattern_of(pipe_runs(tokens@)[templates@.len() as int]) is None);
            }
            return Err(e);
        },
    };
    templates.push(t);
    proof {
        assert forall|k: int| 0 <= k < pipe_runs(tokens@).len() implies #[trigger] single_pattern_of(
            pipe_runs(tokens@)[k],
        ) is Some by {
            assert(Some(templates@[k]) == single_pattern_of(pipe_runs(tokens@)[k]));
        }
    }
    if templates.len() == 1 {
        let t = templates.remove(0);
        return Ok(t);
    }
    Ok(Template::Alternation(templates))
}

/// A run that is no pattern, found before the end, makes the whole pattern fail.
proof fn lemma_runs_prefix_fail(ts: Seq<Token>, i: int, k: int)
    requires
        0 <= i < ts.len(),
        ts[i] is Pipe,
        0 <= k < pipe_runs(ts.take(i)).len(),
        single_pattern_of(pipe_runs(ts.take(i))[k]) is None,
    ensures
        !runs_are_patterns(pipe_runs(ts)),
    decreases ts.len(),
{
    lemma_runs_keep(ts, i + 1, k);
}

/// The runs that are complete before position `i` stay as they are.
proof fn lemma_runs_keep(ts: Seq<Token>, i: int, k: int)
    requires
        0 < i <= ts.len(),
        ts[i - 1] is Pipe,
        0 <= k < pipe_runs(ts.take(i - 1)).len(),
    ensures
        k < pipe_runs(ts).len() - 1,
        pipe_runs(ts)[k] == pipe_runs(ts.take(i - 1))[k],
    decreases ts.len(),
{
    if ts.len() == i {
        assert(ts.drop_last() =~= ts.take(i - 1));
    } else {
        assert(ts.drop_last().take(i - 1) =~= ts.take(i - 1));
        lemma_runs_keep(ts.drop_last(), i, k);
        lemma_pipe_runs_nonempty(ts.drop_last());
    }
}

} // verus!
