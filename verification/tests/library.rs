use markdownlang::ast::{
    parse_block_reference, BinaryOperator, BlockReference, DocumentPattern, InlinePattern, Template,
    TemplateStringPart, Value,
};
use markdownlang::document::{Document, DocumentNode, InlineNode};
use markdownlang::expression::parse_text_template;
use markdownlang::item_lexer::{merge_compound_operators, tokenize_events};
use markdownlang::markdown::MdEvent;
use markdownlang::pattern::match_pattern;
use markdownlang::environment::{Environment, Scope, VariableLookup};
use markdownlang::expression::infix_bp;
use markdownlang::interpreter::{eval_binary_op, evaluate, execute_program, execute_program_entry};
use markdownlang::lexer::{Token, TokenKind};
use markdownlang::number::{number_text, parse_number, Number};
use markdownlang::registry::BlockRegistry;
use markdownlang::runtime::{values_eq, DiagnosticError, RuntimeError, RuntimeValue};
use markdownlang::source_text::{extract_item_number, normalize_block_name, parse_list_marker};
use markdownlang::structure::Parser;
use markdownlang::testing::{
    bold, byte_offset_to_line, check_warnings, discover_categorized, fail_label, judge_parse, judge_run,
    parse_arg, parse_test_file, pass_label, select_categories, summary_line, ExpectedWarning,
    TestExpectations, TestOutcome,
};

fn num(x: f64) -> RuntimeValue {
    RuntimeValue::Number(Number::from_bits(x.to_bits()))
}

fn as_f64(v: &RuntimeValue) -> f64 {
    match v {
        RuntimeValue::Number(n) => f64::from_bits(n.bits),
        other => panic!("not a number: {:?}", other),
    }
}

type RunResult = Result<(RuntimeValue, Vec<DiagnosticError>), DiagnosticError>;

fn run_full(source: &str) -> (RunResult, String) {
    let program = Parser::new(source.to_string(), 0).parse().expect("parse failed");
    let mut output = String::new();
    let r = execute_program(&program, &mut output);
    (r, output)
}

fn error_of(source: &str) -> String {
    match run_full(source).0 {
        Err(e) => e.to_text(),
        Ok(_) => panic!("expected an error from {:?}", source),
    }
}

fn warnings_of(source: &str) -> Vec<String> {
    match run_full(source).0 {
        Ok((_, diags)) => diags.iter().filter(|d| d.is_warning).map(|d| d.to_text()).collect(),
        Err(e) => panic!("unexpected error: {}", e.to_text()),
    }
}

fn scope(name: &str, hoisted: &[&str], ancestors: &[&str]) -> Scope {
    Scope::new(
        Vec::new(),
        hoisted.iter().map(|s| s.to_string()).collect(),
        name.to_string(),
        ancestors.iter().map(|s| s.to_string()).collect(),
    )
}

// --- Environment: reads give back writes, scopes nest ---

#[test]
fn environment_read_after_write() {
    let mut env = Environment::new();
    env.push_scope(scope("Main", &[], &[]));
    env.set_variable("x", num(1.0));
    env.set_variable("y", num(2.0));
    env.set_variable("x", num(3.0));
    assert_eq!(as_f64(env.get_variable("x").unwrap()), 3.0);
    assert_eq!(as_f64(env.get_variable("y").unwrap()), 2.0);
    assert!(env.get_variable("z").is_none());
    assert!(env.has_variable("x"));
    assert!(!env.has_variable("z"));
}

#[test]
fn environment_inner_scope_shadows_and_pop_restores() {
    let mut env = Environment::new();
    env.push_scope(scope("Main", &[], &[]));
    env.set_variable("x", num(1.0));
    env.push_scope(scope("Child", &[], &["Main"]));
    env.set_variable("x", num(2.0));
    assert_eq!(as_f64(env.get_variable("x").unwrap()), 2.0);
    let popped = env.pop_scope().unwrap();
    assert_eq!(popped.block_name, "Child");
    assert_eq!(as_f64(env.get_variable("x").unwrap()), 1.0);
    env.pop_scope();
    assert!(env.pop_scope().is_none());
}

#[test]
fn environment_lookup_kinds() {
    let mut env = Environment::new();
    env.push_scope(scope("A", &[], &[]));
    env.set_variable("x", num(1.0));
    env.push_scope(scope("B", &["h"], &["Main"]));
    match env.get_variable_info("x") {
        VariableLookup::Found { cross_scope, non_lexical_scope, .. } => {
            assert!(cross_scope);
            assert!(non_lexical_scope);
        }
        _ => panic!("x should be found"),
    }
    assert!(matches!(env.get_variable_info("h"), VariableLookup::HoistedUnassigned));
    assert!(matches!(env.get_variable_info("nope"), VariableLookup::NotFound));
    env.current_scope_mut().set_variable("h", num(5.0));
    assert_eq!(as_f64(env.get_variable("h").unwrap()), 5.0);
}

#[test]
fn environment_arguments() {
    let mut env = Environment::new();
    assert!(env.get_argument(0).is_none());
    env.push_scope(Scope::new(vec![num(7.0), num(8.0)], Vec::new(), "M".to_string(), Vec::new()));
    assert_eq!(as_f64(env.get_argument(1).unwrap()), 8.0);
    assert!(env.get_argument(2).is_none());
    assert_eq!(env.get_all_arguments().len(), 2);
}

#[test]
fn fence_context_reports_reads_of_names_written_by_another_instruction() {
    let mut env = Environment::new();
    env.push_fence_context();
    env.set_fence_instruction(0);
    env.record_fence_write("x");
    env.set_fence_instruction(1);
    env.record_fence_read("x", 10..11);
    env.record_fence_read("y", 12..13);
    let v = env.pop_fence_context();
    assert_eq!(v.len(), 1);
    assert_eq!(v[0].0, "x");
    assert_eq!(v[0].1, vec![10..11]);
}

#[test]
fn fence_context_ignores_reads_in_the_writing_instruction() {
    let mut env = Environment::new();
    env.push_fence_context();
    env.set_fence_instruction(0);
    env.record_fence_read("x", 1..2);
    env.record_fence_write("x");
    assert!(env.pop_fence_context().is_empty());
}

// --- Values: equality is symmetric, reflexive except on NaN ---

#[test]
fn equality_laws_on_values() {
    let a = RuntimeValue::String("a".to_string());
    let b = RuntimeValue::String("b".to_string());
    assert!(values_eq(&a, &a));
    assert_eq!(values_eq(&a, &b), values_eq(&b, &a));
    assert!(!values_eq(&num(1.0), &RuntimeValue::Boolean(true)));
    assert!(values_eq(&num(0.0), &num(-0.0)));
    let nan = num(f64::NAN);
    assert!(!values_eq(&nan, &nan));
    assert!(values_eq(&RuntimeValue::Unit, &RuntimeValue::Unit));
}

#[test]
fn truthiness() {
    assert!(RuntimeValue::Boolean(false).is_falsy());
    assert!(RuntimeValue::Unit.is_falsy());
    assert!(num(0.0).is_truthy());
    assert!(RuntimeValue::String(String::new()).is_truthy());
    assert_eq!(num(1.0).kind_name(), "Number");
    assert_eq!(RuntimeValue::Unit.kind_name(), "Unit");
}

#[test]
fn binary_operations() {
    let r = eval_binary_op(BinaryOperator::Division, &num(7.0), &num(2.0)).unwrap();
    assert_eq!(as_f64(&r), 3.5);
    let r = eval_binary_op(BinaryOperator::Modulo, &num(-7.0), &num(3.0)).unwrap();
    assert_eq!(as_f64(&r), -1.0);
    let e = eval_binary_op(BinaryOperator::Division, &num(1.0), &num(0.0)).unwrap_err();
    assert!(matches!(e, RuntimeError::DivisionByZero));
    let e = eval_binary_op(BinaryOperator::Modulo, &num(1.0), &num(0.0)).unwrap_err();
    assert!(matches!(e, RuntimeError::DivisionByZero));
    let r = eval_binary_op(
        BinaryOperator::Addition,
        &RuntimeValue::String("a".to_string()),
        &RuntimeValue::String("b".to_string()),
    )
    .unwrap();
    match r {
        RuntimeValue::String(s) => assert_eq!(s, "ab"),
        other => panic!("expected a string, got {:?}", other),
    }
    let e = eval_binary_op(BinaryOperator::Addition, &RuntimeValue::String("a".to_string()), &num(1.0)).unwrap_err();
    assert_eq!(e.to_text(), "type error: expected matching numeric or string types, got String + Number");
    let e = eval_binary_op(BinaryOperator::Subtraction, &RuntimeValue::Boolean(true), &num(1.0)).unwrap_err();
    assert!(matches!(e, RuntimeError::TypeError { .. }));
}

#[test]
fn number_texts() {
    assert_eq!(number_text(Number::from_bits(5.0f64.to_bits())), "5");
    assert_eq!(number_text(Number::from_bits((-12.0f64).to_bits())), "-12");
    assert_eq!(number_text(Number::from_bits(2.5f64.to_bits())), "2.5");
    let n = parse_number("3.25").unwrap();
    assert_eq!(f64::from_bits(n.bits), 3.25);
    assert!(parse_number("abc").is_none());
    let sum = Number::from_bits(0.5f64.to_bits()).add(Number::from_bits(0.25f64.to_bits()));
    assert_eq!(f64::from_bits(sum.bits), 0.75);
}

// --- Errors: one program per error ---

#[test]
fn error_messages() {
    assert_eq!(RuntimeError::DivisionByZero.to_text(), "division by zero");
    assert_eq!(RuntimeError::NoEntryPoint.to_text(), "no entry point: no top-level block");
    assert_eq!(RuntimeError::ArgumentOutOfBounds(3).to_text(), "argument index 3 out of bounds");
    assert_eq!(
        RuntimeError::TypeError { expected: "Number".to_string(), got: "Boolean".to_string() }.to_text(),
        "type error: expected Number, got Boolean"
    );
    assert_eq!(RuntimeError::IoError("x".to_string()).to_text(), "I/O error: x");
    assert_eq!(RuntimeError::Custom("plain".to_string()).to_text(), "plain");
    assert_eq!(RuntimeError::StackOverflow.to_text(), "stack overflow");
    assert_eq!(
        RuntimeError::ImportNotImplemented("u".to_string()).to_text(),
        "imports not yet implemented: u"
    );
}

#[test]
fn runtime_errors_from_programs() {
    assert_eq!(error_of("# M\n1. **{1 / 0}**"), "division by zero");
    assert_eq!(error_of("# M\n1. **{y}**"), "undefined variable: y");
    assert_eq!(error_of("# M\n1. [](#Nope)"), "undefined block: Nope");
    assert_eq!(error_of("# M\n1. **{#3}**"), "argument index 3 out of bounds");
    assert_eq!(
        error_of("# M\n1. x = match 5\n    - 1: \"one\"\n2. **{x}**"),
        "non-exhaustive match: no arm matched"
    );
    assert_eq!(error_of("# M\n1. [](#M)"), "stack overflow");
    assert!(error_of("# M\n1. [](https://example.com/lib#B)").starts_with("imports not yet implemented"));
}

#[test]
fn empty_program_has_no_entry_point() {
    let program = Parser::new(String::new(), 0).parse().expect("parse failed");
    let mut output = String::new();
    let e = execute_program(&program, &mut output).unwrap_err();
    assert!(matches!(e.error, RuntimeError::NoEntryPoint));
    assert!(output.is_empty());
}

// --- Warnings ---

#[test]
fn warning_reading_before_assignment() {
    let w = warnings_of("# M\n1. **{x}**\n2. x = 5");
    assert_eq!(w.len(), 1);
    assert!(w[0].contains("reading variable 'x' before assignment"), "{:?}", w);
}

#[test]
fn warning_same_fence_read_and_write() {
    let w = warnings_of("# M\n1. x = 1\n2. x = 2\n2. y = x");
    assert_eq!(w.len(), 1, "{:?}", w);
    assert!(w[0].contains("at the same fence as its assignment"), "{:?}", w);
}

#[test]
fn warning_non_lexical_scope() {
    let src = "# Main\n1. [](#A)\n\n## A\n1. x = 1\n2. [](#B)\n\n## B\n1. **{x}**";
    let w = warnings_of(src);
    assert_eq!(w.len(), 1, "{:?}", w);
    assert!(w[0].contains("non-lexical scope"), "{:?}", w);
}

#[test]
fn output_only_grows() {
    let (r, out) = run_full("# M\n1. **{\"a\"}**\n2. **{1 / 0}**");
    assert!(r.is_err());
    assert_eq!(out.trim(), "a");
}

// --- Entry blocks and the registry ---

#[test]
fn entry_block_is_found_case_insensitively() {
    let program = Parser::new("# Main\n1. **{#0 + 1}**\n\n# Other\n1. **{\"o\"}**".to_string(), 0)
        .parse()
        .expect("parse failed");
    let registry = BlockRegistry::from_program(&program);
    assert!(registry.get_entry("MAIN").is_some());
    assert!(registry.get_entry("missing").is_none());
    assert_eq!(registry.block_names(), vec!["Main".to_string(), "Other".to_string()]);
    let mut output = String::new();
    let r = execute_program_entry(&program, &mut output, &registry, "mAiN", vec![num(41.0)]);
    assert!(r.is_ok());
    assert_eq!(output.trim(), "42");
}

#[test]
fn unknown_entry_block() {
    let program = Parser::new("# Main\n1. **{1}**".to_string(), 0).parse().expect("parse failed");
    let registry = BlockRegistry::from_program(&program);
    let mut output = String::new();
    let e = execute_program_entry(&program, &mut output, &registry, "Nope", Vec::new()).unwrap_err();
    assert!(matches!(e.error, RuntimeError::UndefinedBlock(_)));
}

#[test]
fn lexical_ancestors_follow_headings() {
    let program = Parser::new("# A\n1. **{1}**\n\n## B\n1. **{2}**\n\n### C\n1. **{3}**".to_string(), 0)
        .parse()
        .expect("parse failed");
    let registry = BlockRegistry::from_program(&program);
    assert_eq!(registry.lexical_ancestors("C"), vec!["B".to_string(), "A".to_string()]);
    assert!(registry.lexical_ancestors("A").is_empty());
}

#[test]
fn imports_are_pending_until_added() {
    let program = Parser::new("# Main\n1. [2](lib#Double)".to_string(), 0).parse().expect("parse failed");
    let mut registry = BlockRegistry::from_program_with_base(&program, ".".to_string());
    let pending = registry.pending_imports();
    assert_eq!(pending.len(), 1);
    registry.add_import(pending[0].clone(), Err(RuntimeError::IoError("cannot read 'lib'".to_string())));
    assert!(registry.pending_imports().is_empty());
    let e = registry.get_imported(&pending[0], "Double").unwrap_err();
    assert_eq!(e.to_text(), "I/O error: cannot read 'lib'");
}

// --- Source text ---

#[test]
fn block_names_are_normalized() {
    assert_eq!(normalize_block_name("  Hello   World  "), "Hello World");
    assert_eq!(normalize_block_name("one\ttwo\nthree"), "one two three");
    assert_eq!(normalize_block_name("   "), "");
    let once = normalize_block_name(" a  b ");
    assert_eq!(normalize_block_name(&once), once);
}

#[test]
fn list_markers() {
    assert_eq!(parse_list_marker("3. x"), Some(3));
    assert_eq!(parse_list_marker("  12) y"), Some(12));
    assert_eq!(parse_list_marker("x. y"), None);
    assert_eq!(parse_list_marker(". y"), None);
    let src = "# M\n1. a\n7. b\n";
    let pos = src.find("b").unwrap();
    assert_eq!(extract_item_number(src, pos), 7);
    assert_eq!(extract_item_number(src, 0), 1);
}

#[test]
fn block_references() {
    match parse_block_reference("#Foo") {
        BlockReference::Local(n) => assert_eq!(n, "Foo"),
        other => panic!("{:?}", other),
    }
    match parse_block_reference("lib#Add") {
        BlockReference::LocalImport { path, block } => {
            assert_eq!(path, "lib");
            assert_eq!(block, "Add");
        }
        other => panic!("{:?}", other),
    }
    match parse_block_reference("https://x.org/a.md#B") {
        BlockReference::RemoteImport { url, block } => {
            assert_eq!(url, "https://x.org/a.md");
            assert_eq!(block, "B");
        }
        other => panic!("{:?}", other),
    }
    match parse_block_reference("Plain") {
        BlockReference::Local(n) => assert_eq!(n, "Plain"),
        other => panic!("{:?}", other),
    }
    assert_eq!(parse_block_reference("a#b#c").block_name(), "c");
}

// --- Expressions ---

#[test]
fn binding_powers() {
    assert_eq!(infix_bp(TokenKind::Plus), Some((12, 13)));
    assert_eq!(infix_bp(TokenKind::Star), Some((14, 15)));
    assert_eq!(infix_bp(TokenKind::Question), Some((2, 2)));
    assert_eq!(infix_bp(TokenKind::AmpAmp), Some((6, 7)));
    assert_eq!(infix_bp(TokenKind::Comma), None);
}

#[test]
fn compound_operators_are_merged() {
    let three = Number::from_bits(3.0f64.to_bits());
    let mut tokens = vec![
        Token::Gt,
        Token::Eq,
        Token::Lt,
        Token::Eq,
        Token::Hash(4),
        Token::Star,
        Token::Hash(9),
        Token::Number(three),
        Token::Eq,
        Token::Eq,
    ];
    merge_compound_operators(&mut tokens);
    assert_eq!(tokens.len(), 6);
    assert!(matches!(tokens[0], Token::GtEq));
    assert!(matches!(tokens[1], Token::LtEq));
    assert!(matches!(tokens[2], Token::SpreadRef));
    match &tokens[3] {
        Token::ArgRef(3, span) => assert_eq!(*span, 9..11),
        other => panic!("{:?}", other),
    }
    assert!(matches!(tokens[4], Token::Eq));
    assert!(matches!(tokens[5], Token::Eq));
}

#[test]
fn program_with_identifier_digits_and_underscores() {
    let (r, out) = run_full("# M\n1. my_var2 = 4\n2. **{my_var2 * 2}**");
    assert!(r.is_ok());
    assert_eq!(out.trim(), "8");
}

// --- Test files ---

#[test]
fn test_file_splits_into_front_matter_and_program() {
    let (toml, src) = parse_test_file("---\nexpect_output = \"5\"\n---\n# M\n1. **{5}**\n").unwrap();
    assert_eq!(toml, "expect_output = \"5\"");
    assert_eq!(src, "# M\n1. **{5}**\n");
    let (toml, src) = parse_test_file("\u{feff}---\r\na = 1\r\n---\r\nbody").unwrap();
    assert_eq!(toml, "a = 1");
    assert_eq!(src, "body");
    assert_eq!(parse_test_file("no front matter").unwrap_err(), "missing opening --- frontmatter delimiter");
    assert_eq!(parse_test_file("---\na = 1\n").unwrap_err(), "missing closing --- frontmatter delimiter");
}

#[test]
fn lines_of_byte_offsets() {
    let s = "a\nbc\n\nd";
    assert_eq!(byte_offset_to_line(s, 0), 1);
    assert_eq!(byte_offset_to_line(s, 2), 2);
    assert_eq!(byte_offset_to_line(s, 5), 3);
    assert_eq!(byte_offset_to_line(s, 6), 4);
    assert_eq!(byte_offset_to_line(s, 100), 4);
}

#[test]
fn warnings_are_checked_one_for_one() {
    let source = "# M\n1. y = x\n2. x = 5";
    let (r, _) = run_full(source);
    let diags = r.unwrap().1;
    let ok = vec![ExpectedWarning { contains: "before assignment".to_string(), line: Some(2) }];
    assert_eq!(check_warnings(source, &diags, &ok), None);
    let wrong_line = vec![ExpectedWarning { contains: "before assignment".to_string(), line: Some(3) }];
    assert_eq!(
        check_warnings(source, &diags, &wrong_line).unwrap(),
        "warning[0]: expected on line 3, but span is on line 2"
    );
    let wrong_text = vec![ExpectedWarning { contains: "zzz".to_string(), line: None }];
    assert!(check_warnings(source, &diags, &wrong_text).unwrap().starts_with("warning[0]: expected message containing \"zzz\""));
    let none: Vec<ExpectedWarning> = Vec::new();
    assert!(check_warnings(source, &diags, &none).unwrap().starts_with("expected 0 warning(s), got 1"));
}

#[test]
fn judging_parses_and_runs() {
    let parsed = Parser::new("# M\n1. **{1}**".to_string(), 0).parse();
    assert!(judge_parse(false, &parsed).is_none());
    assert!(matches!(judge_parse(true, &parsed), Some(TestOutcome::Fail(_))));

    let source = "# M\n1. **{5}**";
    let (r, out) = run_full(source);
    let expect = TestExpectations {
        expect_output: Some(" 5\n".to_string()),
        expect_error: None,
        expect_parse_error: false,
        expect_warnings: None,
    };
    assert!(matches!(judge_run(&expect, source, &r, &out), TestOutcome::Pass));
    let expect_wrong = TestExpectations {
        expect_output: Some("6".to_string()),
        expect_error: None,
        expect_parse_error: false,
        expect_warnings: None,
    };
    match judge_run(&expect_wrong, source, &r, &out) {
        TestOutcome::Fail(m) => assert_eq!(m, "output mismatch\n  expected: 6\n  actual:   5"),
        TestOutcome::Pass => panic!("should fail"),
    }
    let source = "# M\n1. **{1 / 0}**";
    let (r, out) = run_full(source);
    let expect_err = TestExpectations {
        expect_output: None,
        expect_error: Some("division".to_string()),
        expect_parse_error: false,
        expect_warnings: None,
    };
    assert!(matches!(judge_run(&expect_err, source, &r, &out), TestOutcome::Pass));
}

#[test]
fn an_expected_error_still_checks_expected_warnings() {
    let source = "# M\n1. **{1 / 0}**";
    let (r, out) = run_full(source);
    let expect = TestExpectations {
        expect_output: None,
        expect_error: Some("division".to_string()),
        expect_parse_error: false,
        expect_warnings: Some(vec![ExpectedWarning { contains: "x".to_string(), line: None }]),
    };
    assert!(matches!(judge_run(&expect, source, &r, &out), TestOutcome::Fail(_)));
    let expect_none = TestExpectations {
        expect_output: None,
        expect_error: Some("division".to_string()),
        expect_parse_error: false,
        expect_warnings: Some(Vec::new()),
    };
    assert!(matches!(judge_run(&expect_none, source, &r, &out), TestOutcome::Pass));
}

#[test]
fn top_level_blocks_have_level_one() {
    let program = Parser::new("## A\n1. **{1}**\n\n### B\n\n## C\n1. **{2}**".to_string(), 0).parse().expect("parses");
    assert_eq!(program.blocks.len(), 2);
    assert!(program.blocks.iter().all(|b| b.level == 1));
    assert_eq!(program.blocks[0].children.len(), 1);
    assert_eq!(program.blocks[0].children[0].level, 3);
}

#[test]
fn an_invoked_block_gives_its_body_text() {
    let (r, out) = run_full("# Main\n1. **{[](#Greet)}**\n\n## Greet\nHello, world!");
    r.expect("runs");
    assert_eq!(out, "Hello, world!\n");
}

#[test]
fn an_alternation_binds_what_its_first_matching_alternative_binds() {
    let alts = Template::Alternation(vec![
        Template::NumberLiteral(Number::from_bits(1f64.to_bits())),
        Template::Binding("x".to_string()),
        Template::Binding("y".to_string()),
    ]);
    let bindings = match_pattern(&alts, &num(5.0)).expect("matches");
    assert_eq!(bindings.len(), 1);
    assert_eq!(bindings[0].0, "x");
    assert_eq!(as_f64(&bindings[0].1), 5.0);
    let none = match_pattern(&alts, &num(1.0)).expect("matches");
    assert!(none.is_empty());
}

#[test]
fn variables_print_through_templates() {
    let (r, out) = run_full("# M\n1. x = 5\n2. y = x * 2 - 1\n3. **{y - x} and {x > y}**");
    r.expect("runs");
    assert_eq!(out, "4 and false\n");
}

#[test]
fn block_names_lists_top_level_blocks() {
    let program = Parser::new("# Main\n1. **{1}**\n\n## Inner\n1. **{2}**\n\n# Other\n1. **{3}**".to_string(), 0)
        .parse()
        .expect("parse failed");
    let registry = BlockRegistry::from_program(&program);
    assert!(registry.get("Inner").is_some());
    assert_eq!(registry.block_names(), vec!["Main".to_string(), "Other".to_string()]);
    let mut output = String::new();
    match execute_program_entry(&program, &mut output, &registry, "nope", Vec::new()) {
        Err(e) => assert!(e.to_text().contains("(available blocks: Main, Other)")),
        Ok(_) => panic!("expected an error"),
    }
}

#[test]
fn a_conditional_assigns_a_string_that_prints_later() {
    let (r, out) = run_full("# M\n1. x = 10 > 5 ? \"yes\" : \"no\"\n2. **{x}, {\"!\"}**");
    r.expect("runs");
    assert_eq!(out, "yes, !\n");
}

#[test]
fn expressions_without_variables_evaluate_with_no_scope() {
    let registry = BlockRegistry::from_program(&Parser::new("# M\n1. **{1}**".to_string(), 0).parse().expect("parses"));
    let mut env = Environment::new();
    let mut output = String::new();
    let mut diagnostics = Vec::new();
    let value = Value::BinaryOperation {
        operator: BinaryOperator::Addition,
        left: Box::new(Value::NumberLiteral(Number::from_bits(2f64.to_bits()))),
        right: Box::new(Value::NumberLiteral(Number::from_bits(3f64.to_bits()))),
    };
    let r = evaluate(&value, &mut env, &registry, &mut output, 0, &mut diagnostics, 0, &(0..0));
    assert_eq!(as_f64(&r.expect("evaluates")), 5.0);
    let arg = Value::PositionalArgumentReference(0, 0..0);
    assert!(evaluate(&arg, &mut env, &registry, &mut output, 0, &mut diagnostics, 0, &(0..0)).is_err());
}

#[test]
fn categories_are_sorted_and_selected() {
    let found = vec![
        ("b".to_string(), "b/2.test.md".to_string()),
        ("a/x".to_string(), "a/x/1.test.md".to_string()),
        ("b".to_string(), "b/1.test.md".to_string()),
        ("".to_string(), "0.test.md".to_string()),
    ];
    let groups = discover_categorized(found);
    let names: Vec<&str> = groups.iter().map(|g| g.0.as_str()).collect();
    assert_eq!(names, vec!["", "a/x", "b"]);
    assert_eq!(groups[2].1, vec!["b/1.test.md".to_string(), "b/2.test.md".to_string()]);
    let (picked, missing) = select_categories(&groups, &vec!["/a/".to_string(), "zzz".to_string()]);
    assert_eq!(picked, vec![1]);
    assert_eq!(missing, vec!["zzz".to_string()]);
    let (all, none) = select_categories(&groups, &Vec::new());
    assert_eq!(all, vec![0, 1, 2]);
    assert!(none.is_empty());
}

#[test]
fn labels_and_summary() {
    assert_eq!(pass_label(true), "PASS");
    assert_eq!(fail_label(false), "\x1b[31mFAIL\x1b[0m");
    assert_eq!(bold("x", true), "x");
    assert_eq!(bold("x", false), "\x1b[1mx\x1b[0m");
    assert_eq!(summary_line(3, 0, true), "test result: ok. 3 passed, 0 failed");
    assert_eq!(summary_line(3, 2, true), "test result: FAILED. 3 passed, 2 failed (of 5)");
}

#[test]
fn command_line_arguments() {
    assert_eq!(as_f64(&parse_arg("2.5")), 2.5);
    assert!(matches!(parse_arg("true"), RuntimeValue::Boolean(true)));
    assert!(matches!(parse_arg("false"), RuntimeValue::Boolean(false)));
    match parse_arg("hello") {
        RuntimeValue::String(s) => assert_eq!(s, "hello"),
        other => panic!("{:?}", other),
    }
}

#[test]
fn numbers_print_as_rust_prints_doubles() {
    let values = [
        0.1, 0.2, 0.1 + 0.2, 1.0 / 3.0, 2.0 / 3.0, 2.5, -2.5, 1e15, 1e16, 1.5e300, 123456789.125,
        1e20, 1.5e-7, 5e-324, f64::MAX, f64::MIN_POSITIVE, -0.001, 3.141592653589793, 1e-5, 0.3,
        100.25, 9007199254740993.0, 4.35, 0.7, 1e21, 2.0f64.powi(60),
    ];
    for x in values {
        assert_eq!(number_text(Number::from_bits(x.to_bits())), format!("{}", x), "bits {:x}", x.to_bits());
    }
    assert_eq!(number_text(Number::from_bits(f64::INFINITY.to_bits())), "inf");
    assert_eq!(number_text(Number::from_bits(f64::NEG_INFINITY.to_bits())), "-inf");
    assert_eq!(number_text(Number::from_bits(f64::NAN.to_bits())), "NaN");
    let mut seed: u64 = 0x9E37_79B9_7F4A_7C15;
    for _ in 0..2000 {
        seed ^= seed << 13;
        seed ^= seed >> 7;
        seed ^= seed << 17;
        let x = f64::from_bits(seed);
        if x.is_finite() {
            assert_eq!(number_text(Number::from_bits(seed)), format!("{}", x), "bits {:x}", seed);
        }
    }
}

// --- Constant expressions, patterns, templates, events, chains ---

#[test]
fn constant_expressions_follow_precedence() {
    let (r, out) = run_full(
        "# M\n1. **{1 + 2 * 3}**\n2. **{(1 + 2) * 3}**\n3. **{!true || 3 > 2}**\n4. **{-4 % 3}**\n5. **{1 < 2 ? 10 : 20}**\n6. **{2 - 3 - 4}**",
    );
    assert!(r.is_ok());
    assert_eq!(out, "7\n9\ntrue\n-1\n10\n-5\n");
}

#[test]
fn document_patterns_match_single_inline_paragraphs() {
    let doc = RuntimeValue::Document(Document {
        nodes: vec![
            DocumentNode::Paragraph(vec![InlineNode::Text("a".to_string()), InlineNode::Text("b".to_string())]),
            DocumentNode::Paragraph(vec![InlineNode::Strong(vec![InlineNode::Text("hi".to_string())])]),
        ],
    });
    let strong_capture = Template::DocumentPattern(DocumentPattern::Inline(InlinePattern::Strong(vec![
        InlinePattern::Capture("x".to_string()),
    ])));
    let bindings = match_pattern(&strong_capture, &doc).expect("the bold paragraph matches");
    assert_eq!(bindings.len(), 1);
    assert_eq!(bindings[0].0, "x");
    assert!(matches!(&bindings[0].1, RuntimeValue::String(s) if s == "hi"));
    let emphasis = Template::DocumentPattern(DocumentPattern::Inline(InlinePattern::Emphasis(vec![
        InlinePattern::Capture("x".to_string()),
    ])));
    assert!(match_pattern(&emphasis, &doc).is_none());
    let compound_one = Template::Compound(vec![Template::Wildcard]);
    assert!(match_pattern(&compound_one, &doc).is_none());
    let compound_two = Template::Compound(vec![Template::Wildcard, strong_capture]);
    assert!(match_pattern(&compound_two, &doc).is_some());
    assert!(match_pattern(&Template::NumberLiteral(Number::from_bits(1f64.to_bits())), &doc).is_none());
}

#[test]
fn text_without_braces_is_one_literal() {
    let t = parse_text_template("plain text", 0).expect("parses");
    assert_eq!(t.parts.len(), 1);
    assert!(matches!(&t.parts[0], TemplateStringPart::Literal(s) if s == "plain text"));
    let t = parse_text_template("a {1 + 1} b", 0).expect("parses");
    assert_eq!(t.parts.len(), 3);
    assert!(matches!(&t.parts[1], TemplateStringPart::Expression(_)));
}

#[test]
fn flat_events_read_as_tokens() {
    let events = vec![
        (MdEvent::Code("s".to_string()), 0..3),
        (MdEvent::Text(" + x >".to_string()), 3..9),
        (MdEvent::SoftBreak, 9..10),
        (MdEvent::Text("= 2".to_string()), 10..13),
    ];
    let tokens = tokenize_events(&events, 0, &(0..13)).expect("flat events always read");
    assert_eq!(tokens.len(), 5);
    assert!(matches!(&tokens[0], Token::StringLit(s) if s == "s"));
    assert!(matches!(&tokens[1], Token::Plus));
    assert!(matches!(&tokens[2], Token::Ident(n, sp) if n == "x" && sp.start == 6 && sp.end == 7));
    assert!(matches!(&tokens[3], Token::GtEq));
    assert!(matches!(&tokens[4], Token::Number(_)));
}

#[test]
fn items_with_the_same_number_share_a_fence_group() {
    let program = Parser::new("# M\n1. a = 1\n1. b = 2\n2. c = 3\n\n1. d = 4".to_string(), 0).parse().expect("parses");
    let groups = &program.blocks[0].chain.groups;
    let shape: Vec<(u64, usize)> = groups.iter().map(|g| (g.index, g.instructions.len())).collect();
    assert_eq!(shape, vec![(1, 2), (2, 1), (1, 1)]);
}

#[test]
fn an_item_that_does_not_parse_gives_one_error() {
    let errors = match Parser::new("# M\n1. a = 1\n1. (\n2. b = 2".to_string(), 0).parse() {
        Ok(_) => panic!("expected an error"),
        Err(errors) => errors,
    };
    assert_eq!(errors.len(), 1);
}

#[test]
fn bold_text_keeps_emphasis_and_code_as_literal_parts() {
    let (r, out) = run_full("# M\n1. **a *b* `c`**");
    let (v, diags) = r.expect("runs");
    assert!(matches!(v, RuntimeValue::Unit));
    assert!(diags.is_empty());
    assert_eq!(out, "a b c\n");
}

#[test]
fn constant_prints_give_exactly_their_text() {
    let (r, out) = run_full("# M\n1. **hello**\n2. **{1 + 2} and {2 > 1}**\n2. **{\"x\"}**");
    let (v, diags) = r.expect("runs");
    assert!(matches!(v, RuntimeValue::Unit));
    assert!(diags.is_empty());
    assert_eq!(out, "hello\n3 and true\nx\n");
}

#[test]
fn a_block_without_a_chain_gives_its_table() {
    let (r, out) = run_full("# M\n\n| a | b |\n|---|---|\n| 1 | x |\n");
    let (v, _) = r.expect("runs");
    assert!(out.is_empty());
    match v {
        RuntimeValue::Table { headers, rows } => {
            assert_eq!(headers, vec!["a".to_string(), "b".to_string()]);
            assert_eq!(rows.len(), 1);
            assert_eq!(as_f64(&rows[0][0]), 1.0);
            assert!(matches!(&rows[0][1], RuntimeValue::String(s) if s == "x"));
        },
        other => panic!("expected a table, got {:?}", other),
    }
}

#[test]
fn block_quotes_and_lists_keep_their_paragraphs() {
    let (r, _) = run_full("# M\n\n> a\n>\n> b\n\n- x\n- y\n");
    let (v, _) = r.expect("runs");
    let doc = match v {
        RuntimeValue::Document(d) => d,
        other => panic!("expected a document, got {:?}", other),
    };
    assert_eq!(doc.nodes.len(), 2);
    match &doc.nodes[0] {
        DocumentNode::Blockquote(q) => {
            assert_eq!(q.nodes.len(), 2);
            assert!(matches!(&q.nodes[1], DocumentNode::Paragraph(inl) if inl.len() == 1 && matches!(&inl[0], InlineNode::Text(t) if t == "b")));
        },
        other => panic!("expected a block quote, got {:?}", other),
    }
    match &doc.nodes[1] {
        DocumentNode::UnorderedList { items } => {
            assert_eq!(items.len(), 2);
            assert!(matches!(&items[0].nodes[0], DocumentNode::Paragraph(inl) if matches!(&inl[0], InlineNode::Text(t) if t == "x")));
        },
        other => panic!("expected a list, got {:?}", other),
    }
}

#[test]
fn blocks_follow_the_document_order() {
    let program = Parser::new("intro\n\n# A\n\npara\n\n## B\n\n- x\n\n# C\n".to_string(), 0).parse().expect("parses");
    assert_eq!(program.blocks.len(), 2);
    let a = &program.blocks[0];
    assert_eq!(a.name, "A");
    assert_eq!(a.body.nodes.len(), 1);
    assert!(matches!(&a.body.nodes[0], DocumentNode::Paragraph(_)));
    assert_eq!(a.children.len(), 1);
    assert_eq!(a.children[0].name, "B");
    assert_eq!(a.children[0].level, 2);
    assert!(matches!(&a.children[0].body.nodes[0], DocumentNode::UnorderedList { .. }));
    assert_eq!(program.blocks[1].name, "C");
    assert!(program.blocks[1].body.nodes.is_empty());
}

#[test]
fn bold_text_in_a_document_prints_its_text() {
    let (r, out) = run_full("# M\n1. ![](#D)\n\n## D\n\n**plain words**\n");
    assert!(r.is_ok());
    assert_eq!(out, "plain words\n");
}

#[test]
fn a_compound_pattern_binds_what_its_parts_capture() {
    let doc = RuntimeValue::Document(Document {
        nodes: vec![
            DocumentNode::Paragraph(vec![InlineNode::Text("a".to_string()), InlineNode::Text("b".to_string())]),
            DocumentNode::Paragraph(vec![InlineNode::Strong(vec![
                InlineNode::Text("h".to_string()),
                InlineNode::Emphasis(vec![InlineNode::Text("i".to_string())]),
            ])]),
        ],
    });
    let strong_capture = Template::DocumentPattern(DocumentPattern::Inline(InlinePattern::Strong(vec![
        InlinePattern::Capture("x".to_string()),
    ])));
    let pattern = Template::Compound(vec![Template::Binding("first".to_string()), strong_capture]);
    let bindings = match_pattern(&pattern, &doc).expect("both nodes match");
    let x = bindings.iter().find(|b| b.0 == "x").expect("x is bound");
    assert!(matches!(&x.1, RuntimeValue::String(s) if s == "hi"));
    let first = bindings.iter().find(|b| b.0 == "first").expect("first is bound");
    assert!(matches!(&first.1, RuntimeValue::Document(d) if d.nodes.len() == 1));
}

#[test]
fn operators_on_variables_report_their_errors() {
    let (r, _) = run_full("# M\n1. z = 0\n2. **{1 / z}**");
    match r {
        Err(e) => assert!(matches!(e.error, RuntimeError::DivisionByZero)),
        Ok(_) => panic!("expected a division by zero"),
    }
    let (r, _) = run_full("# M\n1. s = \"a\"\n2. **{s - 1}**");
    match r {
        Err(e) => assert!(
            matches!(&e.error, RuntimeError::TypeError { expected, got } if expected == "Number" && got == "String")
        ),
        Ok(_) => panic!("expected a type error"),
    }
    let (r, out) = run_full("# M\n1. t = \"a\"\n2. **{t == \"a\" ? 1 : 2} {t + \"b\"}**");
    r.expect("runs");
    assert_eq!(out, "1 ab\n");
}
