//! Test files for markdownlang programs: front matter, expected outcomes and warnings,
//! and how a run is judged against them.
use vstd::prelude::*;
use crate::ast::Program;
use crate::number::{nat_text, push_nat_text, parse_number, parse_number_spec};
use crate::parse_error::ParseError;
use crate::runtime::{RuntimeValue, DiagnosticError, error_text};
use crate::text::{chars_of, push_str, push_char, string_from, utf8_len_seq, utf8_len, char_utf8_len, drop_leading,
    drop_trailing, leading_run, trailing_end};
use crate::item_lexer::is_word;

verus! {

/// A warning that a test expects.
#[derive(Debug)]
pub struct ExpectedWarning {
    /// Text that the warning's message must contain.
    pub contains: String,
    /// If set, the 1-based source line that the warning's span must start on.
    pub line: Option<usize>,
}

/// What a test expects of a run.
#[derive(Debug)]
pub struct TestExpectations {
    /// The exact output, compared with surrounding whitespace trimmed.
    pub expect_output: Option<String>,
    /// Text that the runtime error's message must contain.
    pub expect_error: Option<String>,
    /// The program must fail to parse.
    pub expect_parse_error: bool,
    /// When present (even empty), the warnings are checked one for one.
    pub expect_warnings: Option<Vec<ExpectedWarning>>,
}

/// How a test ended.
#[derive(Debug)]
pub enum TestOutcome {
    Pass,
    Fail(String),
}

/// A test file's outcome, with its path and description.
#[derive(Debug)]
pub struct TestResult {
    pub path: String,
    pub description: Option<String>,
    pub outcome: TestOutcome,
}

/// The entry block that a test runs when it names none.
pub fn default_entry() -> (s: String)
    ensures
        s@ == "main"@,
{
    "main".to_owned()
}

/// The label of a passing test, green unless colors are off.
pub fn pass_label(no_color: bool) -> (s: &'static str)
    ensures
        no_color ==> s@ == "PASS"@,
        !no_color ==> s@ == "\x1b[32mPASS\x1b[0m"@,
{
    if no_color {
        "PASS"
    } else {
        "\x1b[32mPASS\x1b[0m"
    }
}

/// The label of a failing test, red unless colors are off.
pub fn fail_label(no_color: bool) -> (s: &'static str)
    ensures
        no_color ==> s@ == "FAIL"@,
        !no_color ==> s@ == "\x1b[31mFAIL\x1b[0m"@,
{
    if no_color {
        "FAIL"
    } else {
        "\x1b[31mFAIL\x1b[0m"
    }
}

/// A text in bold, unless colors are off.
pub fn bold(s: &str, no_color: bool) -> (r: String)
    ensures
        no_color ==> r@ == s@,
        !no_color ==> r@ == "\x1b[1m"@ + s@ + "\x1b[0m"@,
{
    if no_color {
        s.to_owned()
    } else {
        let mut r = "\x1b[1m".to_owned();
        push_str(&mut r, s);
        push_str(&mut r, "\x1b[0m");
        r
    }
}

// ---------------------------------------------------------------------------
// Front matter
// ---------------------------------------------------------------------------

/// `t` occurs in `s` at `i`.
pub open spec fn occurs_at(s: Seq<char>, t: Seq<char>, i: int) -> bool {
    0 <= i && i + t.len() <= s.len() && s.subrange(i, i + t.len()) == t
}

/// The first index where `t` occurs in `s` at or after `from`.
pub open spec fn find_from(s: Seq<char>, t: Seq<char>, from: int) -> Option<int>
    decreases s.len() + 1 - from,
{
    if from < 0 || from + t.len() > s.len() {
        None
    } else if occurs_at(s, t, from) {
        Some(from)
    } else {
        find_from(s, t, from + 1)
    }
}

/// `t` occurs somewhere in `s`.
pub open spec fn contains_text(s: Seq<char>, t: Seq<char>) -> bool {
    exists|i: int| occurs_at(s, t, i)
}

proof fn lemma_find_from(s: Seq<char>, t: Seq<char>, from: int)
    requires
        0 <= from,
    ensures
        match find_from(s, t, from) {
            Some(i) => from <= i && occurs_at(s, t, i) && forall|j: int| from <= j < i ==> !occurs_at(s, t, j),
            None => forall|j: int| from <= j ==> !occurs_at(s, t, j),
        },
    decreases s.len() + 1 - from,
{
    if from + t.len() <= s.len() && !occurs_at(s, t, from) {
        lemma_find_from(s, t, from + 1);
    }
}

/// Whether `cs[i..]` starts with `t`.
fn occurs(cs: &Vec<char>, t: &Vec<char>, i: usize) -> (r: bool)
    ensures
        r == occurs_at(cs@, t@, i as int),
{
    if i > cs.len() || t.len() > cs.len() - i {
        return false;
    }
    let mut k: usize = 0;
    assert(i + t.len() <= cs.len());
    while k < t.len()
        invariant
            i + t.len() <= cs.len(),
            i + t@.len() <= cs@.len(),
            k <= t.len(),
            forall|j: int| 0 <= j < k ==> cs@[i + j] == t@[j],
        decreases t.len() - k,
    {
        if cs[i + k] != t[k] {
            assert(cs@.subrange(i as int, i + t@.len())[k as int] != t@[k as int]);
            return false;
        }
        k += 1;
    }
    assert(cs@.subrange(i as int, i + t@.len()) =~= t@);
    true
}

/// The first index at or after `from` where `t` occurs in `cs`.
fn find_text(cs: &Vec<char>, t: &Vec<char>, from: usize) -> (r: Option<usize>)
    ensures
        r == match find_from(cs@, t@, from as int) {
            Some(i) => Some(i as usize),
            None => None::<usize>,
        },
        r matches Some(i) ==> from <= i <= cs@.len(),
{
    proof {
        lemma_find_from(cs@, t@, from as int);
    }
    if from > cs.len() {
        return None;
    }
    let mut i = from;
    loop
        invariant
            from <= i <= cs.len(),
            find_from(cs@, t@, i as int) == find_from(cs@, t@, from as int),
            forall|j: int| from <= j < i ==> !occurs_at(cs@, t@, j),
        decreases cs.len() - i,
    {
        if t.len() > cs.len() - i {
            return None;
        }
        if occurs(cs, t, i) {
            return Some(i);
        }
        assert(t@.len() > 0) by {
            if t@.len() == 0 {
                assert(cs@.subrange(i as int, i as int) =~= t@);
            }
        }
        i += 1;
    }
}

/// Whether `s` contains `t`.
pub fn contains(s: &str, t: &str) -> (r: bool)
    ensures
        r == contains_text(s@, t@),
{
    let cs = chars_of(s);
    let ts = chars_of(t);
    proof {
        lemma_find_from(cs@, ts@, 0);
    }
    let r = find_text(&cs, &ts, 0);
    proof {
        if r is None {
            assert forall|i: int| !occurs_at(s@, t@, i) by {
                if i >= 0 {
                    assert(!occurs_at(cs@, ts@, i));
                }
            }
        }
    }
    r.is_some()
}

/// `s` after a line break at its start (`\n` or `\r\n`, the first that matches in `order`).
pub open spec fn after_break(s: Seq<char>, crlf_first: bool) -> Seq<char> {
    if crlf_first {
        if occurs_at(s, "\r\n"@, 0) {
            s.skip(2)
        } else if occurs_at(s, "\n"@, 0) {
            s.skip(1)
        } else {
            s
        }
    } else {
        if occurs_at(s, "\n"@, 0) {
            s.skip(1)
        } else if occurs_at(s, "\r\n"@, 0) {
            s.skip(2)
        } else {
            s
        }
    }
}

/// How a test file splits into its front matter and its program: after any byte-order
/// marks, `---` and a line break, the TOML text up to the first line that starts with
/// `---` (without the carriage returns at its end), and after that line's `---` and
/// break, the program.
pub open spec fn split_test_file(content: Seq<char>) -> Result<(Seq<char>, Seq<char>), Seq<char>> {
    let c = drop_leading(content, '\u{feff}');
    if !occurs_at(c, "---"@, 0) {
        Err("missing opening --- frontmatter delimiter"@)
    } else {
        let after_open = after_break(c.skip(3), false);
        match find_from(after_open, "\n---"@, 0) {
            None => Err("missing closing --- frontmatter delimiter"@),
            Some(p) => Ok(
                (drop_trailing(after_open.take(p), '\r'), after_break(after_open.skip(p + 4), true)),
            ),
        }
    }
}

/// A test file made of `---`, its front matter and a `---` line before its program splits
/// back into that front matter and that program, when the front matter holds no line that
/// starts with `---` and does not end with a carriage return.
pub proof fn law_test_file_round_trip(toml: Seq<char>, program: Seq<char>)
    requires
        !contains_text(toml, "\n---"@),
        toml.len() == 0 || toml.last() != '\r',
    ensures
        split_test_file("---\n"@ + toml + "\n---\n"@ + program) == Ok::<(Seq<char>, Seq<char>), Seq<char>>(
            (toml, program),
        ),
{
    reveal_strlit("---\n");
    reveal_strlit("\n---\n");
    reveal_strlit("\n---");
    reveal_strlit("---");
    reveal_strlit("\n");
    reveal_strlit("\r\n");
    let pat = "\n---"@;
    let content = "---\n"@ + toml + "\n---\n"@ + program;
    assert(content[0] == '-');
    assert(drop_leading(content, '\u{feff}') == content);
    assert(content.subrange(0, 3) =~= "---"@);
    let a = content.skip(3);
    assert(a.subrange(0, 1) =~= "\n"@);
    let ao = a.skip(1);
    assert(ao =~= toml + ("\n---\n"@ + program));
    let n = toml.len() as int;
    assert(ao.subrange(n, n + 4) =~= pat);
    assert(ao[n] == '\n');
    assert forall|j: int| 0 <= j < n implies !occurs_at(ao, pat, j) by {
        if occurs_at(ao, pat, j) {
            if j + 4 <= n {
                assert(toml.subrange(j, j + 4) =~= ao.subrange(j, j + 4));
                assert(occurs_at(toml, pat, j));
            } else {
                assert(ao.subrange(j, j + 4)[n - j] == ao[n]);
                assert(pat[n - j] == '-');
            }
        }
    }
    assert(occurs_at(ao, pat, n));
    lemma_find_from(ao, pat, 0);
    match find_from(ao, pat, 0) {
        Some(i) => {
            if i < n {
                assert(!occurs_at(ao, pat, i));
            }
        },
        None => {},
    }
    assert(find_from(ao, pat, 0) == Some(n));
    assert(ao.take(n) =~= toml);
    assert(drop_trailing(toml, '\r') == toml);
    let rest = ao.skip(n + 4);
    assert(rest =~= seq!['\n'] + program);
    assert(!occurs_at(rest, "\r\n"@, 0)) by {
        if occurs_at(rest, "\r\n"@, 0) {
            assert(rest.subrange(0, 2)[0] == rest[0]);
        }
    }
    assert(rest.subrange(0, 1) =~= "\n"@);
    assert(rest.skip(1) =~= program);
}

/// Where `v[from..]` goes on after a line break at its start, as `after_break` says.
fn skip_break(v: &Vec<char>, from: usize, crlf_first: bool) -> (r: usize)
    requires
        from <= v.len(),
    ensures
        from <= r <= v.len(),
        v@.skip(r as int) == after_break(v@.skip(from as int), crlf_first),
{
    proof {
        reveal_strlit("\n");
        reveal_strlit("\r\n");
    }
    let ghost s = v@.skip(from as int);
    let n = v.len();
    let lf = from < n && v[from] == '\n';
    let cr = from < n && n - from >= 2 && v[from] == '\r' && v[from + 1] == '\n';
    proof {
        if from < n {
            assert(s[0] == v@[from as int]);
        }
        if from + 1 < n {
            assert(s[1] == v@[from + 1]);
        }
        assert(lf ==> s.subrange(0, 1) =~= "\n"@);
        assert(cr ==> s.subrange(0, 2) =~= "\r\n"@);
        assert(occurs_at(s, "\n"@, 0) ==> s.subrange(0, 1)[0] == '\n');
        assert(occurs_at(s, "\r\n"@, 0) ==> s.subrange(0, 2)[0] == '\r' && s.subrange(0, 2)[1] == '\n');
        assert(lf == occurs_at(s, "\n"@, 0));
        assert(cr == occurs_at(s, "\r\n"@, 0));
        if lf {
            assert(v@.skip(from + 1) =~= s.skip(1));
        }
        if cr {
            assert(v@.skip(from + 2) =~= s.skip(2));
        }
    }
    if crlf_first {
        if cr {
            from + 2
        } else if lf {
            from + 1
        } else {
            from
        }
    } else {
        if lf {
            from + 1
        } else if cr {
            from + 2
        } else {
            from
        }
    }
}

/// Splits a `.test.md` file into the TOML text of its front matter and its program.
pub fn parse_test_file(content: &str) -> (r: Result<(String, String), String>)
    ensures
        match split_test_file(content@) {
            Ok((t, s)) => r matches Ok((t2, s2)) && t2@ == t && s2@ == s,
            Err(m) => r matches Err(m2) && m2@ == m,
        },
{
    proof {
        reveal_strlit("---");
        reveal_strlit("\n---");
        reveal_strlit("missing opening --- frontmatter delimiter");
        reveal_strlit("missing closing --- frontmatter delimiter");
    }
    let all = chars_of(content);
    let start = leading_run(&all, '\u{feff}');
    let c = vec_from(&all, start);
    let dashes = chars_of("---");
    let close = chars_of("\n---");
    if !occurs(&c, &dashes, 0) {
        return Err("missing opening --- frontmatter delimiter".to_owned());
    }
    let open_end = skip_break(&c, 3, false);
    let after_open = vec_from(&c, open_end);
    proof {
        lemma_find_from(after_open@, close@, 0);
    }
    match find_text(&after_open, &close, 0) {
        None => Err("missing closing --- frontmatter delimiter".to_owned()),
        Some(p) => {
            let toml_end = trailing_end(&after_open, p, '\r');
            let toml = string_from(&after_open, 0, toml_end);
            assert(after_open@.subrange(0, toml_end as int) =~= after_open@.take(toml_end as int));
            let source_start = skip_break(&after_open, p + 4, true);
            let source = string_from(&after_open, source_start, after_open.len());
            assert(after_open@.subrange(source_start as int, after_open@.len() as int)
                =~= after_open@.skip(source_start as int));
            Ok((toml, source))
        },
    }
}

/// The characters `v[from..]`.
fn vec_from(v: &Vec<char>, from: usize) -> (r: Vec<char>)
    requires
        from <= v.len(),
    ensures
        r@ == v@.skip(from as int),
{
    let mut r: Vec<char> = Vec::new();
    let mut k = from;
    while k < v.len()
        invariant
            from <= k <= v.len(),
            r@ == v@.subrange(from as int, k as int),
        decreases v.len() - k,
    {
        r.push(v[k]);
        k += 1;
        assert(r@ =~= v@.subrange(from as int, k as int));
    }
    assert(v@.skip(from as int) =~= v@.subrange(from as int, v@.len() as int));
    r
}

// ---------------------------------------------------------------------------
// Lines and warnings
// ---------------------------------------------------------------------------

/// The number of newlines that start before byte `offset` of a text.
pub open spec fn newlines_before(cs: Seq<char>, offset: int) -> nat
    decreases cs.len(),
{
    if cs.len() == 0 {
        0
    } else {
        newlines_before(cs.drop_last(), offset) + if cs.last() == '\n' && utf8_len_seq(cs.drop_last())
            < offset {
            1nat
        } else {
            0nat
        }
    }
}

/// A later byte of a source text is on the same line or a later one.
pub proof fn law_line_monotone(source: Seq<char>, a: int, b: int)
    requires
        a <= b,
    ensures
        newlines_before(source, a) <= newlines_before(source, b),
    decreases source.len(),
{
    if source.len() > 0 {
        law_line_monotone(source.drop_last(), a, b);
    }
}

/// The 1-based line of byte `offset` of a source text: one more than the number of
/// newlines before it (an offset past the end counts them all).
pub fn byte_offset_to_line(source: &str, offset: usize) -> (r: usize)
    requires
        source@.len() < usize::MAX,
    ensures
        r == newlines_before(source@, offset as int) + 1,
{
    let cs = chars_of(source);
    let mut count: usize = 0;
    let mut pos: u128 = 0;
    let mut k: usize = 0;
    assert(cs@.take(0) =~= Seq::<char>::empty());
    while k < cs.len()
        invariant
            k <= cs.len(),
            cs@ == source@,
            cs@.len() < usize::MAX,
            pos == utf8_len_seq(cs@.take(k as int)),
            pos <= 4 * k,
            count == newlines_before(cs@.take(k as int), offset as int),
            count <= k,
        decreases cs.len() - k,
    {
        assert(cs@.take(k + 1).drop_last() =~= cs@.take(k as int));
        if cs[k] == '\n' && pos < offset as u128 {
            count += 1;
        }
        pos = pos + char_utf8_len(cs[k]) as u128;
        k += 1;
    }
    assert(cs@.take(cs.len() as int) =~= cs@);
    count + 1
}

/// The warnings among diagnostics, in order.
pub open spec fn warnings_of(ds: Seq<DiagnosticError>) -> Seq<DiagnosticError>
    decreases ds.len(),
{
    if ds.len() == 0 {
        seq![]
    } else if ds.last().is_warning {
        warnings_of(ds.drop_last()).push(ds.last())
    } else {
        warnings_of(ds.drop_last())
    }
}

/// A warning meets what is expected of it: its message contains the expected text and,
/// when a line is expected, its span starts on that line.
pub open spec fn warning_meets(source: Seq<char>, w: DiagnosticError, e: ExpectedWarning) -> bool {
    &&& contains_text(error_text(w.error), e.contains@)
    &&& match e.line {
        Some(l) => match w.span {
            Some(sp) => newlines_before(source, sp.start as int) + 1 == l,
            None => false,
        },
        None => true,
    }
}

/// The warnings among diagnostics are as many as expected, and each meets its
/// expectation in order.
pub open spec fn warnings_agree(source: Seq<char>, ds: Seq<DiagnosticError>, expected: Seq<ExpectedWarning>) -> bool {
    &&& warnings_of(ds).len() == expected.len()
    &&& forall|i: int|
        0 <= i < expected.len() ==> warning_meets(source, #[trigger] warnings_of(ds)[i], expected[i])
}

/// Checks the warnings of a run against the expected ones: as many, and each meeting its
/// expectation in order. Gives why not, or nothing when they agree.
pub fn check_warnings(source: &str, diagnostics: &Vec<DiagnosticError>, expected: &Vec<ExpectedWarning>) -> (r: Option<String>)
    requires
        source@.len() < usize::MAX,
    ensures
        r is None <==> warnings_agree(source@, diagnostics@, expected@),
{
    let mut actual: Vec<&DiagnosticError> = Vec::new();
    let mut k: usize = 0;
    assert(diagnostics@.take(0) =~= Seq::<DiagnosticError>::empty());
    while k < diagnostics.len()
        invariant
            k <= diagnostics.len(),
            actual@.len() == warnings_of(diagnostics@.take(k as int)).len(),
            forall|i: int| 0 <= i < actual@.len() ==> *actual@[i] == warnings_of(diagnostics@.take(k as int))[i],
        decreases diagnostics.len() - k,
    {
        assert(diagnostics@.take(k + 1).drop_last() =~= diagnostics@.take(k as int));
        if diagnostics[k].is_warning {
            actual.push(&diagnostics[k]);
        }
        k += 1;
    }
    assert(diagnostics@.take(diagnostics.len() as int) =~= diagnostics@);
    let ghost ws = warnings_of(diagnostics@);
    if actual.len() != expected.len() {
        let mut m = "expected ".to_owned();
        push_nat_text(&mut m, expected.len() as u128);
        push_str(&mut m, " warning(s), got ");
        push_nat_text(&mut m, actual.len() as u128);
        push_str(&mut m, "\n  actual warnings:\n");
        if actual.len() == 0 {
            push_str(&mut m, "    (none)");
        } else {
            let mut j: usize = 0;
            while j < actual.len()
                invariant
                    j <= actual.len(),
                decreases actual.len() - j,
            {
                if j > 0 {
                    push_char(&mut m, '\n');
                }
                push_str(&mut m, "  - ");
                let t = actual[j].to_text();
                push_str(&mut m, t.as_str());
                j += 1;
            }
        }
        return Some(m);
    }
    let mut i: usize = 0;
    while i < actual.len()
        invariant
            i <= actual.len() == expected.len(),
            ws == warnings_of(diagnostics@),
            actual@.len() == ws.len(),
            forall|q: int| 0 <= q < actual@.len() ==> *actual@[q] == ws[q],
            source@.len() < usize::MAX,
            forall|q: int| 0 <= q < i ==> warning_meets(source@, #[trigger] ws[q], expected@[q]),
        decreases actual.len() - i,
    {
        let w = actual[i];
        let e = &expected[i];
        let msg = w.to_text();
        assert(*w == ws[i as int]);
        if !contains(msg.as_str(), e.contains.as_str()) {
            assert(!warning_meets(source@, ws[i as int], expected@[i as int]));
            let mut m = "warning[".to_owned();
            push_nat_text(&mut m, i as u128);
            push_str(&mut m, "]: expected message containing \"");
            push_str(&mut m, e.contains.as_str());
            push_str(&mut m, "\", got: ");
            push_str(&mut m, msg.as_str());
            return Some(m);
        }
        if let Some(expected_line) = e.line {
            match &w.span {
                Some(span) => {
                    let actual_line = byte_offset_to_line(source, span.start);
                    if actual_line != expected_line {
                        assert(!warning_meets(source@, ws[i as int], expected@[i as int]));
                        let mut m = "warning[".to_owned();
                        push_nat_text(&mut m, i as u128);
                        push_str(&mut m, "]: expected on line ");
                        push_nat_text(&mut m, expected_line as u128);
                        push_str(&mut m, ", but span is on line ");
                        push_nat_text(&mut m, actual_line as u128);
                        return Some(m);
                    }
                },
                None => {
                    assert(!warning_meets(source@, ws[i as int], expected@[i as int]));
                    let mut m = "warning[".to_owned();
                    push_nat_text(&mut m, i as u128);
                    push_str(&mut m, "]: expected on line ");
                    push_nat_text(&mut m, expected_line as u128);
                    push_str(&mut m, ", but warning has no span");
                    return Some(m);
                },
            }
        }
        i += 1;
    }
    None
}

// ---------------------------------------------------------------------------
// Judging a run
// ---------------------------------------------------------------------------

/// The messages of parse errors, joined by `; `.
pub open spec fn joined_messages(errs: Seq<ParseError>) -> Seq<char>
    decreases errs.len(),
{
    if errs.len() == 0 {
        seq![]
    } else if errs.len() == 1 {
        errs[0].message@
    } else {
        joined_messages(errs.drop_last()) + "; "@ + errs.last().message@
    }
}

/// Judges the parse of a test's program: a test that expects a parse error passes exactly
/// when parsing failed; otherwise a parse failure fails the test with the messages joined
/// by `; `. Gives nothing when the test goes on to run.
pub fn judge_parse(expect_parse_error: bool, parsed: &Result<Program, Vec<ParseError>>) -> (r: Option<TestOutcome>)
    ensures
        expect_parse_error && parsed is Err ==> r matches Some(TestOutcome::Pass),
        expect_parse_error && parsed is Ok ==> (r matches Some(TestOutcome::Fail(m)) && m@
            == "expected parse error, but parsing succeeded"@),
        !expect_parse_error && parsed is Ok ==> r is None,
        !expect_parse_error ==> (parsed matches Err(es) ==> (r matches Some(TestOutcome::Fail(m)) && m@
            == "unexpected parse error: "@ + joined_messages(es@))),
{
    if expect_parse_error {
        return match parsed {
            Err(_) => Some(TestOutcome::Pass),
            Ok(_) => Some(TestOutcome::Fail("expected parse error, but parsing succeeded".to_owned())),
        };
    }
    match parsed {
        Ok(_) => None,
        Err(errs) => {
            let mut m = "unexpected parse error: ".to_owned();
            let ghost head = m@;
            let mut k: usize = 0;
            assert(errs@.take(0) =~= Seq::<ParseError>::empty());
            while k < errs.len()
                invariant
                    k <= errs.len(),
                    m@ == head + joined_messages(errs@.take(k as int)),
                decreases errs.len() - k,
            {
                assert(errs@.take(k + 1).drop_last() =~= errs@.take(k as int));
                if k > 0 {
                    push_str(&mut m, "; ");
                }
                push_str(&mut m, errs[k].message.as_str());
                proof {
                    if k == 0 {
                        assert(errs@.take(1) =~= seq![errs@[0]]);
                    }
                }
                k += 1;
            }
            assert(errs@.take(errs@.len() as int) =~= errs@);
            Some(TestOutcome::Fail(m))
        },
    }
}

/// A run meets what its test expects: an expected error came and its message contains
/// the expected text; or no error was expected, none came, and the printed output, when
/// one is expected, equals it once both are trimmed; and, when warnings are expected,
/// they agree with the run's diagnostics (none where the run failed).
pub open spec fn run_passes(
    expect: TestExpectations,
    source: Seq<char>,
    result: Result<(RuntimeValue, Vec<DiagnosticError>), DiagnosticError>,
    output: Seq<char>,
) -> bool {
    &&& match (expect.expect_error, result) {
        (Some(x), Err(e)) => contains_text(error_text(e.error), x@),
        (Some(_), Ok(_)) => false,
        (None, Err(_)) => false,
        (None, Ok(_)) => match expect.expect_output {
            Some(x) => crate::source_text::trimmed(output) == crate::source_text::trimmed(x@),
            None => true,
        },
    }
    &&& match (expect.expect_warnings, result) {
        (Some(ws), Ok((_, d))) => warnings_agree(source, d@, ws@),
        (Some(ws), Err(_)) => warnings_agree(source, Seq::<DiagnosticError>::empty(), ws@),
        _ => true,
    }
}

/// Judges a run against what the test expects: an expected error must come and contain
/// the expected text; an expected output must match the printed output (both trimmed);
/// an unexpected error fails; then the warnings are checked when they are expected.
pub fn judge_run(
    expect: &TestExpectations,
    source: &str,
    result: &Result<(RuntimeValue, Vec<DiagnosticError>), DiagnosticError>,
    output: &str,
) -> (r: TestOutcome)
    requires
        source@.len() < usize::MAX,
    ensures
        r is Pass <==> run_passes(*expect, source@, *result, output@),
{
    let outcome: Option<String> = match (&expect.expect_error, &expect.expect_output, result) {
        (Some(expected_err), _, Err(runtime_err)) => {
            let err_str = runtime_err.to_text();
            if contains(err_str.as_str(), expected_err.as_str()) {
                None
            } else {
                let mut m = "expected error containing \"".to_owned();
                push_str(&mut m, expected_err.as_str());
                push_str(&mut m, "\", got: ");
                push_str(&mut m, err_str.as_str());
                Some(m)
            }
        },
        (Some(expected_err), _, Ok(_)) => {
            let mut m = "expected error containing \"".to_owned();
            push_str(&mut m, expected_err.as_str());
            push_str(&mut m, "\", but execution succeeded");
            Some(m)
        },
        (None, _, Err(runtime_err)) => {
            let mut m = "unexpected runtime error: ".to_owned();
            let t = runtime_err.to_text();
            push_str(&mut m, t.as_str());
            Some(m)
        },
        (None, Some(expected_output), Ok(_)) => {
            let actual = crate::source_text::trim(output);
            let wanted = crate::source_text::trim(expected_output.as_str());
            if is_word(actual.as_str(), wanted.as_str()) {
                None
            } else {
                let mut m = "output mismatch\n  expected: ".to_owned();
                push_str(&mut m, wanted.as_str());
                push_str(&mut m, "\n  actual:   ");
                push_str(&mut m, actual.as_str());
                Some(m)
            }
        },
        (None, None, Ok(_)) => None,
    };
    if let Some(reason) = outcome {
        return TestOutcome::Fail(reason);
    }
    if let Some(expected_warnings) = &expect.expect_warnings {
        let none: Vec<DiagnosticError> = Vec::new();
        let diagnostics: &Vec<DiagnosticError> = match result {
            Ok((_, d)) => d,
            Err(_) => &none,
        };
        assert(result is Err ==> diagnostics@ =~= Seq::<DiagnosticError>::empty());
        if let Some(reason) = check_warnings(source, diagnostics, expected_warnings) {
            return TestOutcome::Fail(reason);
        }
    }
    TestOutcome::Pass
}

// ---------------------------------------------------------------------------
// Categories
// ---------------------------------------------------------------------------

/// `a` sorts strictly before `b`: the first differing character is smaller, or `a` is a
/// proper prefix of `b` (the order of `str`, since UTF-8 keeps the order of characters).
pub open spec fn text_less(a: Seq<char>, b: Seq<char>) -> bool
    decreases a.len(),
{
    if a.len() == 0 {
        b.len() > 0
    } else if b.len() == 0 {
        false
    } else if a[0] != b[0] {
        (a[0] as u32) < (b[0] as u32)
    } else {
        text_less(a.drop_first(), b.drop_first())
    }
}

/// Whether `a` sorts strictly before `b`.
pub fn less_text(a: &str, b: &str) -> (r: bool)
    ensures
        r == text_less(a@, b@),
{
    let x = chars_of(a);
    let y = chars_of(b);
    let mut k: usize = 0;
    assert(a@.skip(0) =~= a@);
    assert(b@.skip(0) =~= b@);
    while k < x.len() && k < y.len() && x[k] == y[k]
        invariant
            k <= x.len(),
            k <= y.len(),
            x@ == a@,
            y@ == b@,
            text_less(a@, b@) == text_less(a@.skip(k as int), b@.skip(k as int)),
        decreases x.len() - k,
    {
        assert(a@.skip(k as int).drop_first() =~= a@.skip(k + 1));
        assert(b@.skip(k as int).drop_first() =~= b@.skip(k + 1));
        k += 1;
    }
    if k == x.len() {
        return k < y.len();
    }
    if k == y.len() {
        return false;
    }
    (x[k] as u32) < (y[k] as u32)
}

/// `a` sorts before `b` or equals it.
pub open spec fn text_le(a: Seq<char>, b: Seq<char>) -> bool {
    text_less(a, b) || a == b
}

/// Texts in order, each at most the next.
pub open spec fn texts_sorted(v: Seq<String>) -> bool {
    forall|i: int, j: int| 0 <= i < j < v.len() ==> text_le(v[i]@, v[j]@)
}

/// A file of the given category and path stands in the groups.
pub open spec fn in_groups(groups: Seq<(String, Vec<String>)>, cat: Seq<char>, path: Seq<char>) -> bool {
    exists|g: int, i: int|
        0 <= g < groups.len() && groups[g].0@ == cat && 0 <= i < groups[g].1@.len() && #[trigger] groups[g].1@[i]@
            == path
}

/// One of the first `n` files found has this category and path.
pub open spec fn is_found(found: Seq<(String, String)>, n: int, cat: Seq<char>, path: Seq<char>) -> bool {
    exists|q: int| 0 <= q < n && (#[trigger] found[q]).0@ == cat && found[q].1@ == path
}

/// Each file of the groups is one of the first `n` found, of the group's category.
pub open spec fn files_found(groups: Seq<(String, Vec<String>)>, found: Seq<(String, String)>, n: int) -> bool {
    forall|g: int, i: int|
        0 <= g < groups.len() && 0 <= i < groups[g].1@.len() ==> #[trigger] is_found(
            found,
            n,
            groups[g].0@,
            groups[g].1@[i]@,
        )
}

/// No text sorts strictly before itself.
proof fn lemma_text_less_irreflexive(a: Seq<char>)
    ensures
        !text_less(a, a),
    decreases a.len(),
{
    if a.len() > 0 {
        lemma_text_less_irreflexive(a.drop_first());
    }
}

/// Groups test files by category, categories in order and the files of each in order
/// (`found` holds each file's category and path). Every file stands in the group of its
/// category, every group holds at least one file, and only files that were found.
pub fn discover_categorized(found: Vec<(String, String)>) -> (r: Vec<(String, Vec<String>)>)
    ensures
        forall|i: int, j: int| 0 <= i < j < r@.len() ==> text_less(r@[i].0@, r@[j].0@),
        forall|i: int, j: int| 0 <= i < j < r@.len() ==> r@[i].0@ != r@[j].0@,
        forall|g: int| 0 <= g < r@.len() ==> r@[g].1@.len() > 0 && texts_sorted(#[trigger] r@[g].1@),
        forall|k: int| 0 <= k < found@.len() ==> in_groups(r@, (#[trigger] found@[k]).0@, found@[k].1@),
        files_found(r@, found@, found@.len() as int),
{
    let mut groups: Vec<(String, Vec<String>)> = Vec::new();
    let mut k: usize = 0;
    while k < found.len()
        invariant
            k <= found.len(),
            forall|i: int, j: int| 0 <= i < j < groups@.len() ==> text_less(groups@[i].0@, groups@[j].0@),
            forall|g: int| 0 <= g < groups@.len() ==> groups@[g].1@.len() > 0 && texts_sorted(#[trigger] groups@[g].1@),
            forall|q: int| 0 <= q < k ==> in_groups(groups@, (#[trigger] found@[q]).0@, found@[q].1@),
            files_found(groups@, found@, k as int),
        decreases found.len() - k,
    {
        let cat = &found[k].0;
        let path = found[k].1.clone();
        let ghost before = groups@;
        let mut p: usize = 0;
        while p < groups.len() && less_text(groups[p].0.as_str(), cat.as_str())
            invariant
                p <= groups.len(),
                forall|i: int| 0 <= i < p ==> text_less(groups@[i].0@, cat@),
            decreases groups.len() - p,
        {
            p += 1;
        }
        if p < groups.len() && is_word(groups[p].0.as_str(), cat.as_str()) {
            let (name, mut files) = groups.remove(p);
            let ghost old_files = files@;
            let pp = insert_sorted(&mut files, path);
            groups.insert(p, (name, files));
            proof {
                assert(groups@ =~= before.update(p as int, (name, files)));
                assert forall|q: int| 0 <= q <= k implies in_groups(groups@, (#[trigger] found@[q]).0@, found@[q].1@) by {
                    if q == k {
                        assert(groups@[p as int].1@[pp as int]@ == found@[q].1@);
                    } else {
                        let (g, i) = choose|g: int, i: int|
                            0 <= g < before.len() && before[g].0@ == found@[q].0@ && 0 <= i < before[g].1@.len()
                                && #[trigger] before[g].1@[i]@ == found@[q].1@;
                        if g == p {
                            if i < pp {
                                assert(groups@[g].1@[i] == old_files[i]);
                            } else {
                                assert(groups@[g].1@[i + 1] == old_files[i]);
                            }
                        } else {
                            assert(groups@[g].1@[i]@ == found@[q].1@);
                        }
                    }
                }
                assert forall|g: int, i: int|
                    0 <= g < groups@.len() && 0 <= i < groups@[g].1@.len() implies #[trigger] is_found(
                        found@,
                        k + 1,
                        groups@[g].0@,
                        groups@[g].1@[i]@,
                    ) by {
                    if g == p && i == pp {
                        assert(found@[k as int].1@ == groups@[g].1@[i]@);
                    } else {
                        let i0 = if g == p && i > pp { i - 1 } else { i };
                        assert(groups@[g].1@[i] == before[g].1@[i0]);
                        assert(groups@[g].0@ == before[g].0@);
                        assert(is_found(found@, k as int, before[g].0@, before[g].1@[i0]@));
                        let q = choose|q: int|
                            0 <= q < k && (#[trigger] found@[q]).0@ == before[g].0@ && found@[q].1@ == before[g].1@[i0]@;
                        assert(found@[q].0@ == groups@[g].0@ && found@[q].1@ == groups@[g].1@[i]@);
                    }
                }
                assert(files_found(groups@, found@, k + 1));
            }
        } else {
            let mut files = Vec::new();
            files.push(path);
            groups.insert(p, (cat.clone(), files));
            proof {
                assert forall|i: int, j: int| 0 <= i < j < groups@.len() implies text_less(groups@[i].0@, groups@[j].0@) by {
                    if j < p {
                        assert(groups@[i] == before[i] && groups@[j] == before[j]);
                    } else if j == p {
                        assert(groups@[i] == before[i]);
                    } else if i == p {
                        assert(groups@[j] == before[j - 1]);
                        assert(!text_less(before[p as int].0@, cat@));
                        lemma_text_order(cat@, before[p as int].0@, before[j - 1].0@);
                    } else if i < p {
                        assert(groups@[i] == before[i] && groups@[j] == before[j - 1]);
                        if j - 1 > p {
                            lemma_text_less_trans(before[i].0@, before[p as int].0@, before[j - 1].0@);
                        } else {
                            assert(groups@[j] == before[p as int]);
                            lemma_text_less_trans(before[i].0@, before[p as int].0@, before[p as int].0@);
                        }
                    } else {
                        assert(groups@[i] == before[i - 1] && groups@[j] == before[j - 1]);
                    }
                }
                assert forall|g: int| 0 <= g < groups@.len() implies groups@[g].1@.len() > 0 && texts_sorted(
                    #[trigger] groups@[g].1@,
                ) by {
                    if g < p {
                        assert(groups@[g] == before[g]);
                    } else if g > p {
                        assert(groups@[g] == before[g - 1]);
                    }
                }
                assert forall|q: int| 0 <= q <= k implies in_groups(groups@, (#[trigger] found@[q]).0@, found@[q].1@) by {
                    if q == k {
                        assert(groups@[p as int].1@[0]@ == found@[q].1@);
                    } else {
                        let (g, i) = choose|g: int, i: int|
                            0 <= g < before.len() && before[g].0@ == found@[q].0@ && 0 <= i < before[g].1@.len()
                                && #[trigger] before[g].1@[i]@ == found@[q].1@;
                        if g < p {
                            assert(groups@[g] == before[g]);
                            assert(groups@[g].1@[i]@ == found@[q].1@);
                        } else {
                            assert(groups@[g + 1] == before[g]);
                            assert(groups@[g + 1].1@[i]@ == found@[q].1@);
                        }
                    }
                }
                assert forall|g: int, i: int|
                    0 <= g < groups@.len() && 0 <= i < groups@[g].1@.len() implies #[trigger] is_found(
                        found@,
                        k + 1,
                        groups@[g].0@,
                        groups@[g].1@[i]@,
                    ) by {
                    if g == p {
                        assert(found@[k as int].1@ == groups@[g].1@[i]@);
                    } else {
                        let g0 = if g < p { g } else { g - 1 };
                        assert(groups@[g] == before[g0]);
                        assert(is_found(found@, k as int, before[g0].0@, before[g0].1@[i]@));
                        let q = choose|q: int|
                            0 <= q < k && (#[trigger] found@[q]).0@ == before[g0].0@ && found@[q].1@ == before[g0].1@[i]@;
                        assert(found@[q].0@ == groups@[g].0@ && found@[q].1@ == groups@[g].1@[i]@);
                    }
                }
                assert(files_found(groups@, found@, k + 1));
            }
        }
        k += 1;
    }
    proof {
        assert forall|i: int, j: int| 0 <= i < j < groups@.len() implies groups@[i].0@ != groups@[j].0@ by {
            lemma_text_less_irreflexive(groups@[i].0@);
        }
    }
    groups
}

proof fn lemma_text_less_asym(a: Seq<char>, b: Seq<char>)
    requires
        text_less(a, b),
    ensures
        !text_less(b, a),
        a != b,
    decreases a.len(),
{
    if a.len() > 0 && b.len() > 0 && a[0] == b[0] {
        lemma_text_less_asym(a.drop_first(), b.drop_first());
    }
}

/// The order in which categories and test files are sorted is a strict total order on
/// texts.
pub proof fn law_text_order(a: Seq<char>, b: Seq<char>, c: Seq<char>)
    ensures
        !text_less(a, a),
        text_less(a, b) ==> !text_less(b, a),
        a != b ==> text_less(a, b) || text_less(b, a),
        text_less(a, b) && text_less(b, c) ==> text_less(a, c),
{
    if text_less(a, a) {
        lemma_text_less_asym(a, a);
    }
    if text_less(a, b) {
        lemma_text_less_asym(a, b);
        if text_less(b, c) {
            lemma_text_less_trans(a, b, c);
        }
    }
    if a != b {
        lemma_text_total(a, b);
    }
}

proof fn lemma_text_less_trans(a: Seq<char>, b: Seq<char>, c: Seq<char>)
    requires
        text_less(a, b),
        !text_less(c, b) || text_less(b, c) || b == c,
        text_less(b, c) || b == c,
    ensures
        text_less(a, c),
    decreases a.len(),
{
    if b != c && a.len() > 0 && b.len() > 0 && c.len() > 0 && a[0] == b[0] && b[0] == c[0] {
        lemma_text_less_trans(a.drop_first(), b.drop_first(), c.drop_first());
    }
}

proof fn lemma_text_order(a: Seq<char>, b: Seq<char>, c: Seq<char>)
    requires
        !text_less(b, a),
        a != b,
        b == c || text_less(b, c),
    ensures
        text_less(a, c),
    decreases a.len(),
{
    lemma_text_total(a, b);
    if b == c {
    } else {
        lemma_text_less_trans(a, b, c);
    }
}

proof fn lemma_text_total(a: Seq<char>, b: Seq<char>)
    requires
        a != b,
    ensures
        text_less(a, b) || text_less(b, a),
    decreases a.len(),
{
    if a.len() == 0 && b.len() == 0 {
        assert(a =~= b);
    } else if a.len() > 0 && b.len() > 0 {
        if a[0] == b[0] {
            if a.drop_first() =~= b.drop_first() {
                assert(a =~= seq![a[0]] + a.drop_first());
                assert(b =~= seq![b[0]] + b.drop_first());
                assert(a =~= b);
            }
            lemma_text_total(a.drop_first(), b.drop_first());
        } else {
            vstd::utf8::char_u32_cast(a[0], a[0] as u32);
            vstd::utf8::char_u32_cast(b[0], b[0] as u32);
        }
    }
}

/// Inserts a path into a sorted list of paths, keeping it sorted; gives where it went.
fn insert_sorted(files: &mut Vec<String>, path: String) -> (p: usize)
    ensures
        p <= old(files)@.len(),
        final(files)@ == old(files)@.insert(p as int, path),
        texts_sorted(old(files)@) ==> texts_sorted(final(files)@),
{
    let mut p: usize = 0;
    while p < files.len() && less_text(files[p].as_str(), path.as_str())
        invariant
            p <= files.len(),
            forall|i: int| 0 <= i < p ==> text_less(files@[i]@, path@),
        decreases files.len() - p,
    {
        p += 1;
    }
    let ghost before = files@;
    files.insert(p, path);
    proof {
        if texts_sorted(before) {
            assert forall|i: int, j: int| 0 <= i < j < files@.len() implies text_le(files@[i]@, files@[j]@) by {
                if j < p {
                    assert(files@[i] == before[i] && files@[j] == before[j]);
                } else if j == p {
                    assert(files@[i] == before[i]);
                } else if i == p {
                    assert(files@[j] == before[j - 1]);
                    assert(!text_less(before[p as int]@, path@));
                    lemma_text_le_of_not_less(path@, before[p as int]@);
                    lemma_text_le_trans(path@, before[p as int]@, before[j - 1]@);
                } else if i < p {
                    assert(files@[i] == before[i] && files@[j] == before[j - 1]);
                    lemma_text_le_of_not_less(path@, before[p as int]@);
                    lemma_text_le_trans(path@, before[p as int]@, before[j - 1]@);
                    lemma_text_le_trans(before[i]@, path@, before[j - 1]@);
                    assert(text_le(before[i]@, before[j - 1]@));
                } else {
                    assert(files@[i] == before[i - 1] && files@[j] == before[j - 1]);
                }
            }
        }
    }
    p
}

proof fn lemma_text_le_of_not_less(a: Seq<char>, b: Seq<char>)
    requires
        !text_less(b, a),
    ensures
        text_le(a, b),
{
    if a != b {
        lemma_text_total(a, b);
    }
}

proof fn lemma_text_le_trans(a: Seq<char>, b: Seq<char>, c: Seq<char>)
    requires
        text_le(a, b),
        text_le(b, c),
    ensures
        text_le(a, c),
{
    if a != b && b != c {
        lemma_text_less_trans(a, b, c);
    }
}

/// A requested category without the slashes at its two ends.
pub open spec fn slashes_trimmed(s: Seq<char>) -> Seq<char> {
    drop_trailing(drop_leading(s, '/'), '/')
}

/// A category answers a request: it is the requested one (slashes at its ends removed)
/// or lies inside it.
pub open spec fn request_matches(cat: Seq<char>, req: Seq<char>) -> bool {
    let r = slashes_trimmed(req);
    cat == r || occurs_at(cat, r.push('/'), 0)
}

/// One of the requests picks the category.
pub open spec fn chosen_by(cat: Seq<char>, reqs: Seq<String>) -> bool {
    exists|q: int| 0 <= q < reqs.len() && request_matches(cat, (#[trigger] reqs[q])@)
}

/// The category at `c` is run: nothing was requested, or a request picks it.
pub open spec fn category_selected(all: Seq<(String, Vec<String>)>, requested: Seq<String>, c: int) -> bool {
    requested.len() == 0 || chosen_by(all[c].0@, requested)
}

/// Some category answers the request.
pub open spec fn matches_some(all: Seq<(String, Vec<String>)>, req: Seq<char>) -> bool {
    exists|c: int| 0 <= c < all.len() && request_matches((#[trigger] all[c]).0@, req)
}

/// The requests that no category answers, slashes at their ends removed, in order.
pub open spec fn missing_requests(all: Seq<(String, Vec<String>)>, reqs: Seq<String>) -> Seq<Seq<char>>
    decreases reqs.len(),
{
    if reqs.len() == 0 {
        seq![]
    } else {
        let m = missing_requests(all, reqs.drop_last());
        if matches_some(all, reqs.last()@) {
            m
        } else {
            m.push(slashes_trimmed(reqs.last()@))
        }
    }
}

/// The categories to run: all of them when none is requested, else those that a request
/// picks; and the requests that pick none. Gives the indices of the chosen categories, in
/// order, each once.
pub fn select_categories(all: &Vec<(String, Vec<String>)>, requested: &Vec<String>) -> (r: (Vec<usize>, Vec<String>))
    ensures
        forall|i: int| 0 <= i < r.0@.len() ==> r.0@[i] < all@.len(),
        forall|i: int, j: int| 0 <= i < j < r.0@.len() ==> r.0@[i] < r.0@[j],
        forall|c: int| 0 <= c < all@.len() ==> (#[trigger] category_selected(all@, requested@, c) <==> r.0@.contains(c as usize)),
        r.1@.len() == missing_requests(all@, requested@).len(),
        forall|i: int| 0 <= i < r.1@.len() ==> (#[trigger] r.1@[i])@ == missing_requests(all@, requested@)[i],
{
    let mut chosen: Vec<bool> = Vec::new();
    let mut i: usize = 0;
    while i < all.len()
        invariant
            i <= all.len(),
            chosen@.len() == i,
            forall|x: int| 0 <= x < i ==> chosen@[x] == (requested@.len() == 0),
        decreases all.len() - i,
    {
        chosen.push(requested.len() == 0);
        i += 1;
    }
    let mut missing: Vec<String> = Vec::new();
    let mut q: usize = 0;
    assert(requested@.take(0) =~= Seq::<String>::empty());
    while q < requested.len()
        invariant
            q <= requested.len(),
            chosen@.len() == all@.len(),
            forall|x: int|
                0 <= x < all@.len() ==> #[trigger] chosen@[x] == (requested@.len() == 0 || chosen_by(
                    all@[x].0@,
                    requested@.take(q as int),
                )),
            missing@.len() == missing_requests(all@, requested@.take(q as int)).len(),
            forall|m: int| 0 <= m < missing@.len() ==> (#[trigger] missing@[m])@ == missing_requests(all@, requested@.take(q as int))[m],
        decreases requested.len() - q,
    {
        let req = trim_slashes(requested[q].as_str());
        let mut prefix = req.clone();
        push_char(&mut prefix, '/');
        let mut found = false;
        let ghost before = chosen@;
        let mut c: usize = 0;
        while c < all.len()
            invariant
                c <= all.len(),
                q < requested@.len(),
                chosen@.len() == all@.len() == before.len(),
                req@ == slashes_trimmed(requested@[q as int]@),
                prefix@ == req@.push('/'),
                forall|x: int| 0 <= x < c ==> #[trigger] chosen@[x] == (before[x] || request_matches(
                    all@[x].0@,
                    requested@[q as int]@,
                )),
                forall|x: int| c <= x < all@.len() ==> chosen@[x] == before[x],
                found == exists|x: int| 0 <= x < c && request_matches((#[trigger] all@[x]).0@, requested@[q as int]@),
            decreases all.len() - c,
        {
            let cat = all[c].0.as_str();
            if is_word(cat, req.as_str()) || starts_with_text(cat, prefix.as_str()) {
                chosen.set(c, true);
                found = true;
            }
            c += 1;
        }
        proof {
            let t = requested@.take(q + 1);
            assert(t.drop_last() =~= requested@.take(q as int));
            assert(t.last() == requested@[q as int]);
            assert(found == matches_some(all@, requested@[q as int]@));
            assert forall|x: int| 0 <= x < all@.len() implies #[trigger] chosen@[x] == (requested@.len() == 0 || chosen_by(
                all@[x].0@,
                t,
            )) by {
                if chosen_by(all@[x].0@, t) {
                    let w = choose|w: int| 0 <= w < t.len() && request_matches(all@[x].0@, (#[trigger] t[w])@);
                    if w < q {
                        assert(requested@.take(q as int)[w] == t[w]);
                    }
                }
                if chosen_by(all@[x].0@, requested@.take(q as int)) {
                    let w = choose|w: int|
                        0 <= w < q && request_matches(all@[x].0@, (#[trigger] requested@.take(q as int)[w])@);
                    assert(t[w] == requested@.take(q as int)[w]);
                }
                if request_matches(all@[x].0@, requested@[q as int]@) {
                    assert(t[q as int] == requested@[q as int]);
                }
            }
        }
        if !found {
            missing.push(req);
        }
        q += 1;
    }
    assert(requested@.take(requested@.len() as int) =~= requested@);
    let mut picked: Vec<usize> = Vec::new();
    let mut c: usize = 0;
    while c < all.len()
        invariant
            c <= all.len(),
            chosen@.len() == all@.len(),
            forall|x: int|
                0 <= x < all@.len() ==> #[trigger] chosen@[x] == (requested@.len() == 0 || chosen_by(
                    all@[x].0@,
                    requested@,
                )),
            forall|x: int| 0 <= x < picked@.len() ==> picked@[x] < c,
            forall|x: int, y: int| 0 <= x < y < picked@.len() ==> picked@[x] < picked@[y],
            forall|x: int| 0 <= x < c ==> (chosen@[x] <==> picked@.contains(x as usize)),
        decreases all.len() - c,
    {
        let ghost old_picked = picked@;
        if chosen[c] {
            picked.push(c);
            proof {
                assert(picked@[old_picked.len() as int] == c);
            }
        }
        proof {
            assert forall|x: int| 0 <= x < c + 1 implies (chosen@[x] <==> picked@.contains(x as usize)) by {
                if x < c {
                    if old_picked.contains(x as usize) {
                        let w = choose|w: int| 0 <= w < old_picked.len() && old_picked[w] == x as usize;
                        assert(picked@[w] == x as usize);
                    }
                    if picked@.contains(x as usize) {
                        let w = choose|w: int| 0 <= w < picked@.len() && picked@[w] == x as usize;
                        assert(w < old_picked.len());
                        assert(old_picked[w] == x as usize);
                    }
                } else if chosen@[x] {
                    assert(picked@[old_picked.len() as int] == x as usize);
                } else {
                    if picked@.contains(x as usize) {
                        let w = choose|w: int| 0 <= w < picked@.len() && picked@[w] == x as usize;
                        assert(old_picked[w] < c);
                    }
                }
            }
        }
        c += 1;
    }
    assert forall|x: int| 0 <= x < all@.len() implies (#[trigger] category_selected(all@, requested@, x)
        <==> picked@.contains(x as usize)) by {
        assert(chosen@[x] <==> picked@.contains(x as usize));
    }
    (picked, missing)
}

/// A text without the slashes at its two ends.
fn trim_slashes(s: &str) -> (r: String)
    ensures
        r@ == slashes_trimmed(s@),
{
    let cs = chars_of(s);
    let a = leading_run(&cs, '/');
    let mut b: usize = cs.len();
    assert(cs@.subrange(a as int, b as int) =~= cs@.skip(a as int));
    while b > a && cs[b - 1] == '/'
        invariant
            a <= b <= cs.len(),
            drop_trailing(cs@.subrange(a as int, b as int), '/') == drop_trailing(cs@.skip(a as int), '/'),
        decreases b,
    {
        assert(cs@.subrange(a as int, b as int).drop_last() =~= cs@.subrange(a as int, b - 1));
        b -= 1;
    }
    string_from(&cs, a, b)
}

/// Whether `s` starts with `p`.
pub fn starts_with_text(s: &str, p: &str) -> (r: bool)
    ensures
        r == occurs_at(s@, p@, 0),
{
    let cs = chars_of(s);
    let ps = chars_of(p);
    occurs(&cs, &ps, 0)
}

/// The summary line of a test run.
pub open spec fn summary_text(passed: nat, failed: nat, no_color: bool) -> Seq<char> {
    if failed == 0 {
        "test result: "@ + (if no_color {
            "ok"@
        } else {
            "\x1b[32mok\x1b[0m"@
        }) + ". "@ + nat_text(passed) + " passed, 0 failed"@
    } else {
        "test result: "@ + (if no_color {
            "FAILED"@
        } else {
            "\x1b[31mFAILED\x1b[0m"@
        }) + ". "@ + nat_text(passed) + " passed, "@ + nat_text(failed) + " failed (of "@ + nat_text(
            passed + failed,
        ) + ")"@
    }
}

/// The summary line of a test run.
pub fn summary_line(passed: usize, failed: usize, no_color: bool) -> (s: String)
    ensures
        s@ == summary_text(passed as nat, failed as nat, no_color),
{
    let mut s = "test result: ".to_owned();
    if failed == 0 {
        if no_color {
            push_str(&mut s, "ok");
        } else {
            push_str(&mut s, "\x1b[32mok\x1b[0m");
        }
        push_str(&mut s, ". ");
        push_nat_text(&mut s, passed as u128);
        push_str(&mut s, " passed, 0 failed");
    } else {
        if no_color {
            push_str(&mut s, "FAILED");
        } else {
            push_str(&mut s, "\x1b[31mFAILED\x1b[0m");
        }
        push_str(&mut s, ". ");
        push_nat_text(&mut s, passed as u128);
        push_str(&mut s, " passed, ");
        push_nat_text(&mut s, failed as u128);
        push_str(&mut s, " failed (of ");
        push_nat_text(&mut s, passed as u128 + failed as u128);
        push_str(&mut s, ")");
    }
    s
}

// ---------------------------------------------------------------------------
// Arguments
// ---------------------------------------------------------------------------

/// Reads a command-line argument as a value: a number when it reads as one, `true` and
/// `false` as booleans, anything else as a string.
pub fn parse_arg(s: &str) -> (r: RuntimeValue)
    ensures
        parse_number_spec(s@) matches Some(b) ==> (r matches RuntimeValue::Number(n) && n.bits == b),
        parse_number_spec(s@) is None && s@ == "true"@ ==> r == RuntimeValue::Boolean(true),
        parse_number_spec(s@) is None && s@ == "false"@ ==> r == RuntimeValue::Boolean(false),
        parse_number_spec(s@) is None && s@ != "true"@ && s@ != "false"@ ==> (r matches RuntimeValue::String(t) && t@ == s@),
{
    proof {
        reveal_strlit("true");
        reveal_strlit("false");
    }
    if let Some(n) = parse_number(s) {
        return RuntimeValue::Number(n);
    }
    if is_word(s, "true") {
        RuntimeValue::Boolean(true)
    } else if is_word(s, "false") {
        RuntimeValue::Boolean(false)
    } else {
        RuntimeValue::String(s.to_owned())
    }
}

} // verus!
