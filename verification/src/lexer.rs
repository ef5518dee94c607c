//! Tokens of the expression language, and the reading of plain text into tokens.
use vstd::prelude::*;
use std::ops::Range;
use crate::ast::TemplateString;
use crate::number::{Number, parse_number_spec, parse_number};
use crate::text::{
    utf8_len, utf8_len_seq, char_utf8_len, unicode_alphanumeric, is_alphanumeric, is_digit,
    is_ascii_letter, string_from,
};

verus! {

#[derive(Debug)]
pub enum Token {
    Number(Number),
    StringLit(String),
    True,
    False,
    Unit,
    Ident(String, Range<usize>),
    /// `#0`, `#1`, ...
    ArgRef(usize, Range<usize>),
    /// `#*`
    SpreadRef,
    /// A bare `#`, with its byte offset.
    Hash(usize),
    Match,
    Plus,
    Minus,
    Star,
    Slash,
    Percent,
    Eq,
    EqEq,
    BangEq,
    Gt,
    Lt,
    GtEq,
    LtEq,
    Amp,
    AmpAmp,
    Pipe,
    PipePipe,
    Bang,
    Question,
    Colon,
    Comma,
    Underscore,
    LParen,
    RParen,
    LBrace,
    RBrace,
    Bold(TemplateString),
    Strike(TemplateString),
    Link { text_tokens: Vec<Token>, dest: String },
    Image { text_tokens: Vec<Token>, dest: String },
    /// A nested unordered list: the arms of a match.
    MatchArms(Vec<MatchArm>),
}

#[derive(Debug)]
pub struct MatchArm {
    /// Tokens of the pattern (before the colon).
    pub pattern: (Vec<Token>, Range<usize>),
    /// Tokens of the result (after the colon).
    pub result: (Vec<Token>, Range<usize>),
    /// Whether the arm's pattern starts with `otherwise`.
    pub is_otherwise: bool,
}

/// The kind of a token, without its payload.
#[derive(Debug, Clone, Copy, PartialEq, Eq, Structural)]
pub enum TokenKind {
    Number,
    StringLit,
    True,
    False,
    Unit,
    Ident,
    ArgRef,
    SpreadRef,
    Hash,
    Match,
    Plus,
    Minus,
    Star,
    Slash,
    Percent,
    Eq,
    EqEq,
    BangEq,
    Gt,
    Lt,
    GtEq,
    LtEq,
    Amp,
    AmpAmp,
    Pipe,
    PipePipe,
    Bang,
    Question,
    Colon,
    Comma,
    Underscore,
    LParen,
    RParen,
    LBrace,
    RBrace,
    Bold,
    Strike,
    Link,
    Image,
    MatchArms,
}

pub open spec fn kind_of(t: Token) -> TokenKind {
    match t {
        Token::Number(_) => TokenKind::Number,
        Token::StringLit(_) => TokenKind::StringLit,
        Token::True => TokenKind::True,
        Token::False => TokenKind::False,
        Token::Unit => TokenKind::Unit,
        Token::Ident(..) => TokenKind::Ident,
        Token::ArgRef(..) => TokenKind::ArgRef,
        Token::SpreadRef => TokenKind::SpreadRef,
        Token::Hash(_) => TokenKind::Hash,
        Token::Match => TokenKind::Match,
        Token::Plus => TokenKind::Plus,
        Token::Minus => TokenKind::Minus,
        Token::Star => TokenKind::Star,
        Token::Slash => TokenKind::Slash,
        Token::Percent => TokenKind::Percent,
        Token::Eq => TokenKind::Eq,
        Token::EqEq => TokenKind::EqEq,
        Token::BangEq => TokenKind::BangEq,
        Token::Gt => TokenKind::Gt,
        Token::Lt => TokenKind::Lt,
        Token::GtEq => TokenKind::GtEq,
        Token::LtEq => TokenKind::LtEq,
        Token::Amp => TokenKind::Amp,
        Token::AmpAmp => TokenKind::AmpAmp,
        Token::Pipe => TokenKind::Pipe,
        Token::PipePipe => TokenKind::PipePipe,
        Token::Bang => TokenKind::Bang,
        Token::Question => TokenKind::Question,
        Token::Colon => TokenKind::Colon,
        Token::Comma => TokenKind::Comma,
        Token::Underscore => TokenKind::Underscore,
        Token::LParen => TokenKind::LParen,
        Token::RParen => TokenKind::RParen,
        Token::LBrace => TokenKind::LBrace,
        Token::RBrace => TokenKind::RBrace,
        Token::Bold(_) => TokenKind::Bold,
        Token::Strike(_) => TokenKind::Strike,
        Token::Link { .. } => TokenKind::Link,
        Token::Image { .. } => TokenKind::Image,
        Token::MatchArms(_) => TokenKind::MatchArms,
    }
}

pub fn token_kind(t: &Token) -> (k: TokenKind)
    ensures
        k == kind_of(*t),
{
    match t {
        Token::Number(_) => TokenKind::Number,
        Token::StringLit(_) => TokenKind::StringLit,
        Token::True => TokenKind::True,
        Token::False => TokenKind::False,
        Token::Unit => TokenKind::Unit,
        Token::Ident(..) => TokenKind::Ident,
        Token::ArgRef(..) => TokenKind::ArgRef,
        Token::SpreadRef => TokenKind::SpreadRef,
        Token::Hash(_) => TokenKind::Hash,
        Token::Match => TokenKind::Match,
        Token::Plus => TokenKind::Plus,
        Token::Minus => TokenKind::Minus,
        Token::Star => TokenKind::Star,
        Token::Slash => TokenKind::Slash,
        Token::Percent => TokenKind::Percent,
        Token::Eq => TokenKind::Eq,
        Token::EqEq => TokenKind::EqEq,
        Token::BangEq => TokenKind::BangEq,
        Token::Gt => TokenKind::Gt,
        Token::Lt => TokenKind::Lt,
        Token::GtEq => TokenKind::GtEq,
        Token::LtEq => TokenKind::LtEq,
        Token::Amp => TokenKind::Amp,
        Token::AmpAmp => TokenKind::AmpAmp,
        Token::Pipe => TokenKind::Pipe,
        Token::PipePipe => TokenKind::PipePipe,
        Token::Bang => TokenKind::Bang,
        Token::Question => TokenKind::Question,
        Token::Colon => TokenKind::Colon,
        Token::Comma => TokenKind::Comma,
        Token::Underscore => TokenKind::Underscore,
        Token::LParen => TokenKind::LParen,
        Token::RParen => TokenKind::RParen,
        Token::LBrace => TokenKind::LBrace,
        Token::RBrace => TokenKind::RBrace,
        Token::Bold(_) => TokenKind::Bold,
        Token::Strike(_) => TokenKind::Strike,
        Token::Link { .. } => TokenKind::Link,
        Token::Image { .. } => TokenKind::Image,
        Token::MatchArms(_) => TokenKind::MatchArms,
    }
}

// ---------------------------------------------------------------------------
// What reading a text gives
// ---------------------------------------------------------------------------

/// The first index at or after `j` that holds `"`, or the end.
pub open spec fn scan_to_quote(cs: Seq<char>, j: int) -> int
    decreases cs.len() - j,
{
    if j >= cs.len() || j < 0 {
        cs.len() as int
    } else if cs[j] == '"' {
        j
    } else {
        scan_to_quote(cs, j + 1)
    }
}

/// The end of the run of digits and dots that starts at `j`.
pub open spec fn scan_numeral(cs: Seq<char>, j: int) -> int
    decreases cs.len() - j,
{
    if j >= cs.len() || j < 0 {
        cs.len() as int
    } else if is_digit(cs[j]) || cs[j] == '.' {
        scan_numeral(cs, j + 1)
    } else {
        j
    }
}

/// The end of the run of alphanumeric characters and `_` that starts at `j`.
pub open spec fn scan_word(cs: Seq<char>, j: int) -> int
    decreases cs.len() - j,
{
    if j >= cs.len() || j < 0 {
        cs.len() as int
    } else if unicode_alphanumeric(cs[j]) || cs[j] == '_' {
        scan_word(cs, j + 1)
    } else {
        j
    }
}

/// The end of the run of ASCII digits that starts at `j`.
pub open spec fn scan_digits(cs: Seq<char>, j: int) -> int
    decreases cs.len() - j,
{
    if j >= cs.len() || j < 0 {
        cs.len() as int
    } else if is_digit(cs[j]) {
        scan_digits(cs, j + 1)
    } else {
        j
    }
}

/// The value of a run of decimal digits.
pub open spec fn digits_value(s: Seq<char>) -> nat
    decreases s.len(),
{
    if s.len() == 0 {
        0
    } else {
        digits_value(s.drop_last()) * 10 + ((s.last() as u32) - 48) as nat
    }
}

pub proof fn lemma_scans(cs: Seq<char>, j: int)
    requires
        0 <= j <= cs.len(),
    ensures
        j <= scan_to_quote(cs, j) <= cs.len(),
        j <= scan_numeral(cs, j) <= cs.len(),
        j <= scan_word(cs, j) <= cs.len(),
        j <= scan_digits(cs, j) <= cs.len(),
        j < cs.len() && (is_digit(cs[j]) || cs[j] == '.') ==> scan_numeral(cs, j) > j,
        j < cs.len() && is_digit(cs[j]) ==> scan_digits(cs, j) > j,
    decreases cs.len() - j,
{
    if j < cs.len() {
        lemma_scans(cs, j + 1);
    }
}

/// The byte offset, in the whole source, of character `k` of a text starting at `base`.
pub open spec fn byte_offset(cs: Seq<char>, base: int, k: int) -> int {
    base + utf8_len_seq(cs.take(k))
}

/// Operators and delimiters: the token that starts at `i` and how many characters it takes.
pub open spec fn operator_token(cs: Seq<char>, i: int) -> Option<(Token, int)> {
    let c = cs[i];
    let next_is = |d: char| i + 1 < cs.len() && cs[i + 1] == d;
    if c == '=' {
        Some(if next_is('=') { (Token::EqEq, 2) } else { (Token::Eq, 1) })
    } else if c == '!' {
        Some(if next_is('=') { (Token::BangEq, 2) } else { (Token::Bang, 1) })
    } else if c == '>' {
        Some(if next_is('=') { (Token::GtEq, 2) } else { (Token::Gt, 1) })
    } else if c == '<' {
        Some(if next_is('=') { (Token::LtEq, 2) } else { (Token::Lt, 1) })
    } else if c == '&' {
        Some(if next_is('&') { (Token::AmpAmp, 2) } else { (Token::Amp, 1) })
    } else if c == '|' {
        Some(if next_is('|') { (Token::PipePipe, 2) } else { (Token::Pipe, 1) })
    } else if c == '(' {
        Some(if next_is(')') { (Token::Unit, 2) } else { (Token::LParen, 1) })
    } else if c == '+' {
        Some((Token::Plus, 1))
    } else if c == '-' {
        Some((Token::Minus, 1))
    } else if c == '*' {
        Some((Token::Star, 1))
    } else if c == '/' {
        Some((Token::Slash, 1))
    } else if c == '%' {
        Some((Token::Percent, 1))
    } else if c == '?' {
        Some((Token::Question, 1))
    } else if c == ':' {
        Some((Token::Colon, 1))
    } else if c == ',' {
        Some((Token::Comma, 1))
    } else if c == ')' {
        Some((Token::RParen, 1))
    } else if c == '{' {
        Some((Token::LBrace, 1))
    } else if c == '}' {
        Some((Token::RBrace, 1))
    } else {
        None
    }
}

pub open spec fn is_blank(c: char) -> bool {
    c == ' ' || c == '\t' || c == '\n' || c == '\r'
}

/// `toks` is what reading `cs` from character `i` on gives, for a text whose first byte is
/// at offset `base` of the source: blanks and unknown characters are skipped; `"..."`
/// (closed or running to the end) is a string; a run of digits and dots is a number when
/// `f64` reads it and nothing otherwise; a word is `true`, `false`, `match` or an
/// identifier with its byte span; `#*` is a spread, `#` and digits an argument reference
/// (nothing when the index does not fit), a bare `#` a hash with its offset; operators
/// are read longest first.
pub open spec fn lexes(cs: Seq<char>, i: int, base: int, toks: Seq<Token>) -> bool
    decreases cs.len() - i,
{
    if i >= cs.len() || i < 0 {
        toks.len() == 0
    } else {
        proof {
            lemma_scans(cs, i);
            lemma_scans(cs, i + 1);
        }
        let c = cs[i];
        if is_blank(c) {
            lexes(cs, i + 1, base, toks)
        } else if c == '"' {
            let j = scan_to_quote(cs, i + 1);
            let next = if j < cs.len() { j + 1 } else { j };
            toks.len() > 0 && (toks[0] matches Token::StringLit(s) && s@ == cs.subrange(i + 1, j))
                && lexes(cs, next, base, toks.drop_first())
        } else if is_digit(c) {
            let j = scan_numeral(cs, i);
            match parse_number_spec(cs.subrange(i, j)) {
                Some(b) => toks.len() > 0 && (toks[0] matches Token::Number(n) && n.bits == b)
                    && lexes(cs, j, base, toks.drop_first()),
                None => lexes(cs, j, base, toks),
            }
        } else if is_ascii_letter(c) || c == '_' {
            let j = scan_word(cs, i + 1);
            let w = cs.subrange(i, j);
            let t = if w == seq!['t', 'r', 'u', 'e'] {
                Some(Token::True)
            } else if w == seq!['f', 'a', 'l', 's', 'e'] {
                Some(Token::False)
            } else if w == seq!['m', 'a', 't', 'c', 'h'] {
                Some(Token::Match)
            } else {
                None
            };
            toks.len() > 0 && (match t {
                Some(k) => toks[0] == k,
                None => toks[0] matches Token::Ident(s, r) && s@ == w && r.start == byte_offset(
                    cs,
                    base,
                    i,
                ) && r.end == byte_offset(cs, base, j),
            }) && lexes(cs, j, base, toks.drop_first())
        } else if c == '#' {
            if i + 1 < cs.len() && cs[i + 1] == '*' {
                toks.len() > 0 && toks[0] == Token::SpreadRef && lexes(
                    cs,
                    i + 2,
                    base,
                    toks.drop_first(),
                )
            } else if i + 1 < cs.len() && is_digit(cs[i + 1]) {
                let j = scan_digits(cs, i + 1);
                let v = digits_value(cs.subrange(i + 1, j));
                if v <= usize::MAX {
                    toks.len() > 0 && (toks[0] matches Token::ArgRef(n, r) && n == v && r.start
                        == byte_offset(cs, base, i) && r.end == byte_offset(cs, base, j))
                        && lexes(cs, j, base, toks.drop_first())
                } else {
                    lexes(cs, j, base, toks)
                }
            } else {
                toks.len() > 0 && (toks[0] matches Token::Hash(o) && o == byte_offset(cs, base, i))
                    && lexes(cs, i + 1, base, toks.drop_first())
            }
        } else {
            match operator_token(cs, i) {
                Some((t, n)) => toks.len() > 0 && toks[0] == t && lexes(
                    cs,
                    i + n,
                    base,
                    toks.drop_first(),
                ),
                None => lexes(cs, i + 1, base, toks),
            }
        }
    }
}


// ---------------------------------------------------------------------------
// Reading
// ---------------------------------------------------------------------------

proof fn lemma_utf8_prefix(s: Seq<char>, k: int)
    requires
        0 <= k <= s.len(),
    ensures
        utf8_len_seq(s.take(k)) <= utf8_len_seq(s),
    decreases s.len() - k,
{
    if k < s.len() {
        lemma_utf8_prefix(s, k + 1);
        assert(s.take(k + 1).drop_last() =~= s.take(k));
    } else {
        assert(s.take(k) =~= s);
    }
}

/// The byte offset of each character of `cs`, and of its end.
pub fn byte_offsets(cs: &Vec<char>, base: usize) -> (bp: Vec<usize>)
    requires
        base + utf8_len_seq(cs@) <= usize::MAX,
    ensures
        bp@.len() == cs@.len() + 1,
        forall|k: int| 0 <= k <= cs@.len() ==> bp@[k] == byte_offset(cs@, base as int, k),
{
    let mut bp: Vec<usize> = Vec::new();
    let mut offset = base;
    let mut k: usize = 0;
    proof {
        assert(cs@.take(0) =~= Seq::<char>::empty());
    }
    while k < cs.len()
        invariant
            k <= cs.len(),
            base + utf8_len_seq(cs@) <= usize::MAX,
            bp@.len() == k,
            offset == byte_offset(cs@, base as int, k as int),
            forall|m: int| 0 <= m < k ==> bp@[m] == byte_offset(cs@, base as int, m),
        decreases cs.len() - k,
    {
        bp.push(offset);
        proof {
            assert(cs@.take(k + 1).drop_last() =~= cs@.take(k as int));
            lemma_utf8_prefix(cs@, k + 1);
        }
        offset = offset + char_utf8_len(cs[k]);
        k += 1;
    }
    bp.push(offset);
    bp
}

fn word_is(cs: &Vec<char>, i: usize, j: usize, w: &Vec<char>) -> (r: bool)
    requires
        i <= j <= cs.len(),
    ensures
        r == (cs@.subrange(i as int, j as int) == w@),
{
    if j - i != w.len() {
        return false;
    }
    let mut k: usize = 0;
    while k < w.len()
        invariant
            i <= j <= cs.len(),
            j - i == w.len(),
            k <= w.len(),
            forall|m: int| 0 <= m < k ==> cs@[i + m] == w@[m],
        decreases w.len() - k,
    {
        if cs[i + k] != w[k] {
            assert(cs@.subrange(i as int, j as int)[k as int] != w@[k as int]);
            return false;
        }
        k += 1;
    }
    assert(cs@.subrange(i as int, j as int) =~= w@);
    true
}

pub proof fn lemma_digits_value_grows(s: Seq<char>, k: int)
    requires
        0 <= k <= s.len(),
        forall|m: int| 0 <= m < s.len() ==> is_digit(#[trigger] s[m]),
    ensures
        digits_value(s.take(k)) <= digits_value(s),
    decreases s.len() - k,
{
    if k < s.len() {
        lemma_digits_value_grows(s, k + 1);
        assert(s.take(k + 1).drop_last() =~= s.take(k));
    } else {
        assert(s.take(k) =~= s);
    }
}

/// Reads the digits `cs[from..to]` as a `usize`, or `None` when the value does not fit.
fn read_index(cs: &Vec<char>, from: usize, to: usize) -> (r: Option<usize>)
    requires
        from <= to <= cs.len(),
        forall|m: int| from <= m < to ==> is_digit(#[trigger] cs@[m]),
    ensures
        r matches Some(v) ==> v == digits_value(cs@.subrange(from as int, to as int)),
        r is None ==> digits_value(cs@.subrange(from as int, to as int)) > usize::MAX,
{
    let mut v: usize = 0;
    let mut k = from;
    let ghost ds = cs@.subrange(from as int, to as int);
    while k < to
        invariant
            from <= k <= to <= cs.len(),
            ds == cs@.subrange(from as int, to as int),
            forall|m: int| from <= m < to ==> is_digit(#[trigger] cs@[m]),
            v == digits_value(ds.take(k - from)),
        decreases to - k,
    {
        assert(ds.take(k + 1 - from).drop_last() =~= ds.take(k - from));
        assert(ds.take(k + 1 - from).last() == cs@[k as int]);
        let d = (cs[k] as u32 - 48) as usize;
        assert(is_digit(cs@[k as int]));
        if v > (usize::MAX - d) / 10 {
            proof {
                assert(forall|m: int| 0 <= m < ds.len() ==> is_digit(#[trigger] ds[m]));
                lemma_digits_value_grows(ds, k + 1 - from);
                assert(digits_value(ds.take(k + 1 - from)) == v * 10 + d);
                assert(v * 10 + d > usize::MAX) by (nonlinear_arith)
                    requires
                        v > (usize::MAX - d) / 10,
                        d < 10,
                ;
            }
            return None;
        }
        assert(v * 10 + d <= usize::MAX) by (nonlinear_arith)
            requires
                v <= (usize::MAX - d) / 10,
                d < 10,
        ;
        v = v * 10 + d;
        k += 1;
    }
    assert(ds.take(to - from) =~= ds);
    Some(v)
}

/// One token (or none) of a text, read from character `i`: the characters it takes are
/// `i..next`, and what it gives followed by what the rest gives is what reading from `i` gives.
pub open spec fn step_ok(cs: Seq<char>, base: int, i: int, next: int, pushed: Seq<Token>) -> bool {
    &&& i < next <= cs.len()
    &&& forall|rest: Seq<Token>| #[trigger] lexes(cs, next, base, rest) ==> lexes(cs, i, base, pushed + rest)
}

pub open spec fn offsets_ok(cs: Seq<char>, bp: Seq<usize>, base: int) -> bool {
    bp.len() == cs.len() + 1 && forall|k: int| 0 <= k <= cs.len() ==> bp[k] == byte_offset(cs, base, k)
}

proof fn lemma_push_one(cs: Seq<char>, base: int, i: int, next: int, t: Token)
    requires
        0 <= i < cs.len(),
        i < next <= cs.len(),
        forall|rest: Seq<Token>| lexes(cs, next, base, rest) ==> lexes(cs, i, base, seq![t] + rest),
    ensures
        step_ok(cs, base, i, next, seq![t]),
{
}

fn lex_string(cs: &Vec<char>, i: usize, tokens: &mut Vec<Token>, Ghost(base): Ghost<int>) -> (next: usize)
    requires
        i < cs.len(),
        cs@[i as int] == '"',
    ensures
        final(tokens)@ == old(tokens)@ + final(tokens)@.skip(old(tokens)@.len() as int),
        step_ok(cs@, base, i as int, next as int, final(tokens)@.skip(old(tokens)@.len() as int)),
{
    let len = cs.len();
    proof {
        lemma_scans(cs@, i + 1);
    }
    let mut j = i + 1;
    while j < len && cs[j] != '"'
        invariant
            i < j <= len == cs@.len(),
            scan_to_quote(cs@, j as int) == scan_to_quote(cs@, i + 1),
        decreases len - j,
    {
        j += 1;
    }
    let s = string_from(cs, i + 1, j);
    let next = if j < len { j + 1 } else { j };
    let t = Token::StringLit(s);
    let ghost before = tokens@;
    tokens.push(t);
    proof {
        assert forall|rest: Seq<Token>| lexes(cs@, next as int, base, rest) implies lexes(
            cs@,
            i as int,
            base,
            seq![t] + rest,
        ) by {
            assert((seq![t] + rest).drop_first() =~= rest);
        }
        lemma_push_one(cs@, base, i as int, next as int, t);
        assert(tokens@.skip(before.len() as int) =~= seq![t]);
        assert(tokens@ =~= before + seq![t]);
    }
    next
}

fn lex_numeral(cs: &Vec<char>, i: usize, tokens: &mut Vec<Token>, Ghost(base): Ghost<int>) -> (next: usize)
    requires
        i < cs.len(),
        is_digit(cs@[i as int]),
    ensures
        final(tokens)@ == old(tokens)@ + final(tokens)@.skip(old(tokens)@.len() as int),
        step_ok(cs@, base, i as int, next as int, final(tokens)@.skip(old(tokens)@.len() as int)),
{
    let len = cs.len();
    proof {
        lemma_scans(cs@, i as int);
    }
    let mut j = i;
    while j < len && (('0' <= cs[j] && cs[j] <= '9') || cs[j] == '.')
        invariant
            i <= j <= len == cs@.len(),
            scan_numeral(cs@, j as int) == scan_numeral(cs@, i as int),
        decreases len - j,
    {
        j += 1;
    }
    let num_str = string_from(cs, i, j);
    let ghost before = tokens@;
    match parse_number(num_str.as_str()) {
        Some(n) => {
            let t = Token::Number(n);
            tokens.push(t);
            proof {
                assert forall|rest: Seq<Token>| lexes(cs@, j as int, base, rest) implies lexes(
                    cs@,
                    i as int,
                    base,
                    seq![t] + rest,
                ) by {
                    assert((seq![t] + rest).drop_first() =~= rest);
                }
                lemma_push_one(cs@, base, i as int, j as int, t);
                assert(tokens@.skip(before.len() as int) =~= seq![t]);
                assert(tokens@ =~= before + seq![t]);
            }
        },
        None => {
            proof {
                assert(tokens@.skip(before.len() as int) =~= Seq::<Token>::empty());
                assert forall|rest: Seq<Token>| #[trigger] lexes(cs@, j as int, base, rest) implies lexes(
                    cs@,
                    i as int,
                    base,
                    tokens@.skip(before.len() as int) + rest,
                ) by {
                    assert(tokens@.skip(before.len() as int) + rest =~= rest);
                }
                assert(tokens@ =~= before + Seq::<Token>::empty());
            }
        },
    }
    j
}

fn lex_word(
    cs: &Vec<char>,
    bp: &Vec<usize>,
    i: usize,
    tokens: &mut Vec<Token>,
    Ghost(base): Ghost<int>,
) -> (next: usize)
    requires
        i < cs.len(),
        is_ascii_letter(cs@[i as int]) || cs@[i as int] == '_',
        offsets_ok(cs@, bp@, base),
    ensures
        final(tokens)@ == old(tokens)@ + final(tokens)@.skip(old(tokens)@.len() as int),
        step_ok(cs@, base, i as int, next as int, final(tokens)@.skip(old(tokens)@.len() as int)),
{
    let len = cs.len();
    proof {
        lemma_scans(cs@, i + 1);
    }
    let mut j = i + 1;
    while j < len && (is_alphanumeric(cs[j]) || cs[j] == '_')
        invariant
            i < j <= len == cs@.len(),
            scan_word(cs@, j as int) == scan_word(cs@, i + 1),
        decreases len - j,
    {
        j += 1;
    }
    let w_true = vec!['t', 'r', 'u', 'e'];
    let w_false = vec!['f', 'a', 'l', 's', 'e'];
    let w_match = vec!['m', 'a', 't', 'c', 'h'];
    assert(w_true@ =~= seq!['t', 'r', 'u', 'e']);
    assert(w_false@ =~= seq!['f', 'a', 'l', 's', 'e']);
    assert(w_match@ =~= seq!['m', 'a', 't', 'c', 'h']);
    let t = if word_is(cs, i, j, &w_true) {
        Token::True
    } else if word_is(cs, i, j, &w_false) {
        Token::False
    } else if word_is(cs, i, j, &w_match) {
        Token::Match
    } else {
        Token::Ident(string_from(cs, i, j), Range { start: bp[i], end: bp[j] })
    };
    let ghost before = tokens@;
    tokens.push(t);
    proof {
        assert forall|rest: Seq<Token>| lexes(cs@, j as int, base, rest) implies lexes(
            cs@,
            i as int,
            base,
            seq![t] + rest,
        ) by {
            assert((seq![t] + rest).drop_first() =~= rest);
        }
        lemma_push_one(cs@, base, i as int, j as int, t);
        assert(tokens@.skip(before.len() as int) =~= seq![t]);
        assert(tokens@ =~= before + seq![t]);
    }
    j
}

fn lex_hash(
    cs: &Vec<char>,
    bp: &Vec<usize>,
    i: usize,
    tokens: &mut Vec<Token>,
    Ghost(base): Ghost<int>,
) -> (next: usize)
    requires
        i < cs.len(),
        cs@[i as int] == '#',
        offsets_ok(cs@, bp@, base),
    ensures
        final(tokens)@ == old(tokens)@ + final(tokens)@.skip(old(tokens)@.len() as int),
        step_ok(cs@, base, i as int, next as int, final(tokens)@.skip(old(tokens)@.len() as int)),
{
    let len = cs.len();
    let ghost before = tokens@;
    proof {
        lemma_scans(cs@, i + 1);
    }
    if i + 1 < len && cs[i + 1] == '*' {
        let t = Token::SpreadRef;
        tokens.push(t);
        proof {
            assert forall|rest: Seq<Token>| lexes(cs@, i + 2, base, rest) implies lexes(
                cs@,
                i as int,
                base,
                seq![t] + rest,
            ) by {
                assert((seq![t] + rest).drop_first() =~= rest);
            }
            lemma_push_one(cs@, base, i as int, i + 2, t);
            assert(tokens@.skip(before.len() as int) =~= seq![t]);
            assert(tokens@ =~= before + seq![t]);
        }
        i + 2
    } else if i + 1 < len && '0' <= cs[i + 1] && cs[i + 1] <= '9' {
        let mut j = i + 1;
        while j < len && '0' <= cs[j] && cs[j] <= '9'
            invariant
                i < j <= len == cs@.len(),
                scan_digits(cs@, j as int) == scan_digits(cs@, i + 1),
                forall|m: int| i + 1 <= m < j ==> is_digit(#[trigger] cs@[m]),
            decreases len - j,
        {
            j += 1;
        }
        match read_index(cs, i + 1, j) {
            Some(n) => {
                let t = Token::ArgRef(n, Range { start: bp[i], end: bp[j] });
                tokens.push(t);
                proof {
                    assert forall|rest: Seq<Token>| lexes(cs@, j as int, base, rest) implies lexes(
                        cs@,
                        i as int,
                        base,
                        seq![t] + rest,
                    ) by {
                        assert((seq![t] + rest).drop_first() =~= rest);
                    }
                    lemma_push_one(cs@, base, i as int, j as int, t);
                    assert(tokens@.skip(before.len() as int) =~= seq![t]);
                    assert(tokens@ =~= before + seq![t]);
                }
            },
            None => {
                proof {
                    assert(tokens@.skip(before.len() as int) =~= Seq::<Token>::empty());
                    assert forall|rest: Seq<Token>| #[trigger] lexes(cs@, j as int, base, rest) implies lexes(
                        cs@,
                        i as int,
                        base,
                        tokens@.skip(before.len() as int) + rest,
                    ) by {
                        assert(tokens@.skip(before.len() as int) + rest =~= rest);
                    }
                    assert(tokens@ =~= before + Seq::<Token>::empty());
                }
            },
        }
        j
    } else {
        let t = Token::Hash(bp[i]);
        tokens.push(t);
        proof {
            assert forall|rest: Seq<Token>| lexes(cs@, i + 1, base, rest) implies lexes(
                cs@,
                i as int,
                base,
                seq![t] + rest,
            ) by {
                assert((seq![t] + rest).drop_first() =~= rest);
            }
            lemma_push_one(cs@, base, i as int, i + 1, t);
            assert(tokens@.skip(before.len() as int) =~= seq![t]);
            assert(tokens@ =~= before + seq![t]);
        }
        i + 1
    }
}

fn lex_other(cs: &Vec<char>, i: usize, tokens: &mut Vec<Token>, Ghost(base): Ghost<int>) -> (next: usize)
    requires
        i < cs.len(),
        !is_blank(cs@[i as int]),
        cs@[i as int] != '"',
        !is_digit(cs@[i as int]),
        !(is_ascii_letter(cs@[i as int]) || cs@[i as int] == '_'),
        cs@[i as int] != '#',
    ensures
        final(tokens)@ == old(tokens)@ + final(tokens)@.skip(old(tokens)@.len() as int),
        step_ok(cs@, base, i as int, next as int, final(tokens)@.skip(old(tokens)@.len() as int)),
{
    let ghost before = tokens@;
    let (op, width) = read_operator(cs, i);
    match op {
        Some(t) => {
            tokens.push(t);
            proof {
                assert forall|rest: Seq<Token>| lexes(cs@, i + width, base, rest) implies lexes(
                    cs@,
                    i as int,
                    base,
                    seq![t] + rest,
                ) by {
                    assert((seq![t] + rest).drop_first() =~= rest);
                }
                lemma_push_one(cs@, base, i as int, i + width, t);
                assert(tokens@.skip(before.len() as int) =~= seq![t]);
                assert(tokens@ =~= before + seq![t]);
            }
        },
        None => {
            proof {
                assert(tokens@.skip(before.len() as int) =~= Seq::<Token>::empty());
                assert forall|rest: Seq<Token>| #[trigger] lexes(cs@, i + 1, base, rest) implies lexes(
                    cs@,
                    i as int,
                    base,
                    tokens@.skip(before.len() as int) + rest,
                ) by {
                    assert(tokens@.skip(before.len() as int) + rest =~= rest);
                }
                assert(tokens@ =~= before + Seq::<Token>::empty());
            }
        },
    }
    i + width
}

proof fn lemma_compose(
    cs: Seq<char>,
    base: int,
    n0: int,
    before: Seq<Token>,
    after: Seq<Token>,
    i: int,
    next: int,
)
    requires
        0 <= n0 <= before.len(),
        forall|rest: Seq<Token>| lexes(cs, i, base, rest) ==> lexes(cs, 0, base, before.skip(n0) + rest),
        after == before + after.skip(before.len() as int),
        step_ok(cs, base, i, next, after.skip(before.len() as int)),
    ensures
        forall|rest: Seq<Token>| lexes(cs, next, base, rest) ==> lexes(cs, 0, base, after.skip(n0) + rest),
{
    let pushed = after.skip(before.len() as int);
    assert forall|rest: Seq<Token>| lexes(cs, next, base, rest) implies lexes(
        cs,
        0,
        base,
        after.skip(n0) + rest,
    ) by {
        assert(lexes(cs, i, base, pushed + rest));
        assert(after.skip(n0) + rest =~= before.skip(n0) + (pushed + rest));
    }
}

/// Reads one token (or skips characters) from position `i`.
fn lex_step(
    cs: &Vec<char>,
    bp: &Vec<usize>,
    i: usize,
    tokens: &mut Vec<Token>,
    Ghost(base): Ghost<int>,
) -> (next: usize)
    requires
        i < cs.len(),
        offsets_ok(cs@, bp@, base),
    ensures
        final(tokens)@ == old(tokens)@ + final(tokens)@.skip(old(tokens)@.len() as int),
        step_ok(cs@, base, i as int, next as int, final(tokens)@.skip(old(tokens)@.len() as int)),
{
    let c = cs[i];
    if c == ' ' || c == '\t' || c == '\n' || c == '\r' {
        proof {
            assert(tokens@.skip(tokens@.len() as int) =~= Seq::<Token>::empty());
            assert(tokens@ =~= tokens@ + Seq::<Token>::empty());
            assert forall|rest: Seq<Token>| #[trigger] lexes(cs@, i + 1, base, rest) implies lexes(
                cs@,
                i as int,
                base,
                Seq::<Token>::empty() + rest,
            ) by {
                assert(Seq::<Token>::empty() + rest =~= rest);
            }
        }
        i + 1
    } else if c == '"' {
        lex_string(cs, i, tokens, Ghost(base))
    } else if '0' <= c && c <= '9' {
        lex_numeral(cs, i, tokens, Ghost(base))
    } else if ('a' <= c && c <= 'z') || ('A' <= c && c <= 'Z') || c == '_' {
        lex_word(cs, bp, i, tokens, Ghost(base))
    } else if c == '#' {
        lex_hash(cs, bp, i, tokens, Ghost(base))
    } else {
        lex_other(cs, i, tokens, Ghost(base))
    }
}

/// Reads plain text into tokens, appending them to `tokens`; `base_offset` is the byte
/// offset of the text in the source, used for the spans of identifiers and arguments.
pub fn tokenize_text(text: &str, tokens: &mut Vec<Token>, base_offset: usize)
    requires
        base_offset + utf8_len_seq(text@) <= usize::MAX,
    ensures
        final(tokens)@.len() >= old(tokens)@.len(),
        final(tokens)@.take(old(tokens)@.len() as int) == old(tokens)@,
        lexes(text@, 0, base_offset as int, final(tokens)@.skip(old(tokens)@.len() as int)),
{
    let cs = crate::text::chars_of(text);
    let len = cs.len();
    let bp = byte_offsets(&cs, base_offset);
    let ghost base = base_offset as int;
    let ghost n0 = tokens@.len() as int;
    let ghost start = tokens@;
    let mut i: usize = 0;
    proof {
        assert forall|rest: Seq<Token>| lexes(cs@, 0, base, rest) implies lexes(
            cs@,
            0,
            base,
            tokens@.skip(n0) + rest,
        ) by {
            assert(tokens@.skip(n0) + rest =~= rest);
        }
    }
    while i < len
        invariant
            i <= len == cs@.len(),
            cs@ == text@,
            base == base_offset,
            offsets_ok(cs@, bp@, base),
            0 <= n0 <= tokens@.len(),
            tokens@.take(n0) == start,
            forall|rest: Seq<Token>|
                lexes(cs@, i as int, base, rest) ==> lexes(cs@, 0, base, tokens@.skip(n0) + rest),
        decreases len - i,
    {
        let ghost before = tokens@;
        let next = lex_step(&cs, &bp, i, tokens, Ghost(base));
        proof {
            lemma_compose(cs@, base, n0, before, tokens@, i as int, next as int);
            assert(tokens@.take(n0) =~= before.take(n0));
        }
        i = next;
    }
    assert(lexes(cs@, len as int, base, Seq::<Token>::empty()));
    assert(tokens@.skip(n0) + Seq::<Token>::empty() =~= tokens@.skip(n0));
}

/// The operator token at `i`, with the characters it takes (1 when there is none).
fn read_operator(cs: &Vec<char>, i: usize) -> (r: (Option<Token>, usize))
    requires
        i < cs.len(),
    ensures
        match operator_token(cs@, i as int) {
            Some((t, n)) => r.0 == Some(t) && r.1 == n,
            None => r.0 is None && r.1 == 1,
        },
{
    let c = cs[i];
    let next = if i + 1 < cs.len() { cs[i + 1] } else { ' ' };
    let (t, n) = if c == '=' {
        if next == '=' { (Token::EqEq, 2) } else { (Token::Eq, 1) }
    } else if c == '!' {
        if next == '=' { (Token::BangEq, 2) } else { (Token::Bang, 1) }
    } else if c == '>' {
        if next == '=' { (Token::GtEq, 2) } else { (Token::Gt, 1) }
    } else if c == '<' {
        if next == '=' { (Token::LtEq, 2) } else { (Token::Lt, 1) }
    } else if c == '&' {
        if next == '&' { (Token::AmpAmp, 2) } else { (Token::Amp, 1) }
    } else if c == '|' {
        if next == '|' { (Token::PipePipe, 2) } else { (Token::Pipe, 1) }
    } else if c == '(' {
        if next == ')' { (Token::Unit, 2) } else { (Token::LParen, 1) }
    } else if c == '+' {
        (Token::Plus, 1)
    } else if c == '-' {
        (Token::Minus, 1)
    } else if c == '*' {
        (Token::Star, 1)
    } else if c == '/' {
        (Token::Slash, 1)
    } else if c == '%' {
        (Token::Percent, 1)
    } else if c == '?' {
        (Token::Question, 1)
    } else if c == ':' {
        (Token::Colon, 1)
    } else if c == ',' {
        (Token::Comma, 1)
    } else if c == ')' {
        (Token::RParen, 1)
    } else if c == '{' {
        (Token::LBrace, 1)
    } else if c == '}' {
        (Token::RBrace, 1)
    } else {
        return (None, 1);
    };
    (Some(t), n)
}

} // verus!
