//! Evaluation of expressions and execution of blocks.
use vstd::prelude::*;
use std::ops::Range;
use crate::ast::{
    Value, UnaryOperator, BinaryOperator, TemplateString, TemplateStringPart, Instruction, Block, Chain, FenceGroup,
    BlockReference, Program, Template, copy_span, clone_value, clone_template_string, parse_block_reference, reference_of,
    parts_same, value_same,
};
use crate::document::{Document, DocumentNode, InlineNode, clone_document, clone_node, write_inlines, inlines_text,
    node_same, nodes_same, lemma_nodes_same_index, lemma_inlines_same_index, lemma_cells_same_index, lemma_rows_same_index,
    lemma_inlines_text_same};
use crate::environment::{Environment, Scope, VariableLookup, contains_name, scope_index, env_value, outside_lineage,
    lookup, lemma_lookup_none, violations};
use crate::expression::parse_text_template;
use crate::number::{Number, double_sum, double_difference, double_product, double_quotient, double_remainder,
    num_eq_spec, num_lt_spec, num_le_spec, neg_bits, parse_number, parse_number_spec, ZERO_BITS};
use crate::pattern::{match_pattern, template_matches};
use crate::registry::{BlockRegistry, top_level_names};
use crate::runtime::{
    RuntimeValue, StrikethroughPayload, RuntimeError, DiagnosticError, falsy, values_equal, values_eq,
    clone_runtime_value, kind_name_spec, value_text, runtime_same, error_text,
};
use crate::source_text::{trim, trimmed};
use crate::text::{push_str, push_char, chars_of, unicode_lowercase};

verus! {

/// How deep evaluation may nest before it stops with a stack overflow.
pub const MAX_DEPTH: usize = 128;

/// `b` begins with `a`.
pub open spec fn extends<A>(a: Seq<A>, b: Seq<A>) -> bool {
    a.len() <= b.len() && forall|i: int| 0 <= i < a.len() ==> #[trigger] b[i] == a[i]
}

/// What every step of execution keeps: output and diagnostics only grow, and the scope and
/// fence stacks never shrink; a step that succeeds leaves them as deep as it found them.
pub open spec fn effects_ok(
    env0: Environment,
    env1: Environment,
    out0: Seq<char>,
    out1: Seq<char>,
    d0: Seq<DiagnosticError>,
    d1: Seq<DiagnosticError>,
    ok: bool,
) -> bool {
    &&& extends(out0, out1)
    &&& extends(d0, d1)
    &&& env1.scopes@.len() >= env0.scopes@.len()
    &&& env1.fence_stack@.len() >= env0.fence_stack@.len()
    &&& ok ==> env1.scopes@.len() == env0.scopes@.len() && env1.fence_stack@.len()
        == env0.fence_stack@.len()
}

/// The nesting left before the depth limit; every recursive step either lowers it or
/// stays at it while going down in rank or structure.
pub open spec fn budget(depth: usize) -> nat {
    (MAX_DEPTH + 2 - depth) as nat
}

// ---------------------------------------------------------------------------
// Operators
// ---------------------------------------------------------------------------

/// `r` is the type error "expected <expected>, got <got>".
pub open spec fn type_error_is<T>(r: Result<T, RuntimeError>, expected: Seq<char>, got: Seq<char>) -> bool {
    r matches Err(RuntimeError::TypeError { expected: e, got: g }) && e@ == expected && g@ == got
}

/// Reading a value as a number.
pub fn coerce_number(val: &RuntimeValue) -> (r: Result<Number, RuntimeError>)
    ensures
        match *val {
            RuntimeValue::Number(n) => r == Ok::<Number, RuntimeError>(n),
            _ => type_error_is(r, "Number"@, kind_name_spec(*val)),
        },
{
    match val {
        RuntimeValue::Number(n) => Ok(*n),
        other => Err(RuntimeError::TypeError { expected: "Number".to_owned(), got: other.kind_name().to_owned() }),
    }
}

/// The result of a numeric operation: both operands must be numbers.
pub open spec fn numeric_holds(l: RuntimeValue, r: RuntimeValue, res: Result<RuntimeValue, RuntimeError>, f: spec_fn(u64, u64) -> RuntimeValue) -> bool {
    match (l, r) {
        (RuntimeValue::Number(a), RuntimeValue::Number(b)) => res == Ok::<RuntimeValue, RuntimeError>(f(a.bits, b.bits)),
        (RuntimeValue::Number(_), _) => type_error_is(res, "Number"@, kind_name_spec(r)),
        _ => type_error_is(res, "Number"@, kind_name_spec(l)),
    }
}

/// The result of a division-like operation: numbers, and a zero divisor is an error.
pub open spec fn dividing_holds(l: RuntimeValue, r: RuntimeValue, res: Result<RuntimeValue, RuntimeError>, f: spec_fn(u64, u64) -> u64) -> bool {
    match (l, r) {
        (RuntimeValue::Number(a), RuntimeValue::Number(b)) => if num_eq_spec(b.bits, ZERO_BITS) {
            res matches Err(RuntimeError::DivisionByZero)
        } else {
            res == Ok::<RuntimeValue, RuntimeError>(RuntimeValue::Number(Number { bits: f(a.bits, b.bits) }))
        },
        (RuntimeValue::Number(_), _) => type_error_is(res, "Number"@, kind_name_spec(r)),
        _ => type_error_is(res, "Number"@, kind_name_spec(l)),
    }
}

/// What a binary operator gives: arithmetic on numbers (and `+` on strings), comparisons
/// of numbers, `==` and `!=` of any values, and `&&`, `||` by truthiness.
pub open spec fn binop_holds(op: BinaryOperator, l: RuntimeValue, r: RuntimeValue, res: Result<RuntimeValue, RuntimeError>) -> bool {
    match op {
        BinaryOperator::Addition => match (l, r) {
            (RuntimeValue::Number(a), RuntimeValue::Number(b)) => res == Ok::<RuntimeValue, RuntimeError>(
                RuntimeValue::Number(Number { bits: double_sum(a.bits, b.bits) }),
            ),
            (RuntimeValue::String(a), RuntimeValue::String(b)) => res matches Ok(RuntimeValue::String(s)) && s@ == a@ + b@,
            _ => type_error_is(res, "matching numeric or string types"@, kind_name_spec(l) + " + "@ + kind_name_spec(r)),
        },
        BinaryOperator::Subtraction => numeric_holds(l, r, res, |a: u64, b: u64| RuntimeValue::Number(Number { bits: double_difference(a, b) })),
        BinaryOperator::Multiplication => numeric_holds(l, r, res, |a: u64, b: u64| RuntimeValue::Number(Number { bits: double_product(a, b) })),
        BinaryOperator::Division => dividing_holds(l, r, res, |a: u64, b: u64| double_quotient(a, b)),
        BinaryOperator::Modulo => dividing_holds(l, r, res, |a: u64, b: u64| double_remainder(a, b)),
        BinaryOperator::Equality => res == Ok::<RuntimeValue, RuntimeError>(RuntimeValue::Boolean(values_equal(l, r))),
        BinaryOperator::Inequality => res == Ok::<RuntimeValue, RuntimeError>(RuntimeValue::Boolean(!values_equal(l, r))),
        BinaryOperator::GreaterThan => numeric_holds(l, r, res, |a: u64, b: u64| RuntimeValue::Boolean(num_lt_spec(b, a))),
        BinaryOperator::LessThan => numeric_holds(l, r, res, |a: u64, b: u64| RuntimeValue::Boolean(num_lt_spec(a, b))),
        BinaryOperator::GreaterThanOrEqual => numeric_holds(l, r, res, |a: u64, b: u64| RuntimeValue::Boolean(num_le_spec(b, a))),
        BinaryOperator::LessThanOrEqual => numeric_holds(l, r, res, |a: u64, b: u64| RuntimeValue::Boolean(num_le_spec(a, b))),
        BinaryOperator::LogicalAnd => res == Ok::<RuntimeValue, RuntimeError>(RuntimeValue::Boolean(!falsy(l) && !falsy(r))),
        BinaryOperator::LogicalOr => res == Ok::<RuntimeValue, RuntimeError>(RuntimeValue::Boolean(!falsy(l) || !falsy(r))),
    }
}

/// A value with no text in it and nothing left to evaluate: a number, a boolean or unit.
pub open spec fn plain_value(v: RuntimeValue) -> bool {
    v is Number || v is Boolean || v is Unit
}

/// What a binary operator gives on two plain values; `None` where it stops with an error.
pub open spec fn plain_binop(op: BinaryOperator, l: RuntimeValue, r: RuntimeValue) -> Option<RuntimeValue> {
    match op {
        BinaryOperator::Equality => Some(RuntimeValue::Boolean(values_equal(l, r))),
        BinaryOperator::Inequality => Some(RuntimeValue::Boolean(!values_equal(l, r))),
        BinaryOperator::LogicalAnd => Some(RuntimeValue::Boolean(!falsy(l) && !falsy(r))),
        BinaryOperator::LogicalOr => Some(RuntimeValue::Boolean(!falsy(l) || !falsy(r))),
        _ => match (l, r) {
            (RuntimeValue::Number(a), RuntimeValue::Number(b)) => match op {
                BinaryOperator::Addition => Some(RuntimeValue::Number(Number { bits: double_sum(a.bits, b.bits) })),
                BinaryOperator::Subtraction => Some(
                    RuntimeValue::Number(Number { bits: double_difference(a.bits, b.bits) }),
                ),
                BinaryOperator::Multiplication => Some(
                    RuntimeValue::Number(Number { bits: double_product(a.bits, b.bits) }),
                ),
                BinaryOperator::Division => if num_eq_spec(b.bits, ZERO_BITS) {
                    None
                } else {
                    Some(RuntimeValue::Number(Number { bits: double_quotient(a.bits, b.bits) }))
                },
                BinaryOperator::Modulo => if num_eq_spec(b.bits, ZERO_BITS) {
                    None
                } else {
                    Some(RuntimeValue::Number(Number { bits: double_remainder(a.bits, b.bits) }))
                },
                BinaryOperator::GreaterThan => Some(RuntimeValue::Boolean(num_lt_spec(b.bits, a.bits))),
                BinaryOperator::LessThan => Some(RuntimeValue::Boolean(num_lt_spec(a.bits, b.bits))),
                BinaryOperator::GreaterThanOrEqual => Some(RuntimeValue::Boolean(num_le_spec(b.bits, a.bits))),
                BinaryOperator::LessThanOrEqual => Some(RuntimeValue::Boolean(num_le_spec(a.bits, b.bits))),
                _ => None,
            },
            _ => None,
        },
    }
}

/// What a constant expression evaluates to at nesting depth `depth`: number, boolean and
/// unit literals, `-` and `!`, binary operators, and conditionals (one without an else
/// only when its condition holds). `Some(Some(v))` is the value, `Some(None)` an error
/// (the depth limit among them), and `None` an expression outside this fragment.
/// Operands are evaluated left to right, and an error stops at once.
pub open spec fn constant_eval(v: Value, depth: int) -> Option<Option<RuntimeValue>>
    decreases v,
{
    if depth > MAX_DEPTH {
        Some(None)
    } else {
        match v {
            Value::NumberLiteral(n) => Some(Some(RuntimeValue::Number(n))),
            Value::BooleanLiteral(b) => Some(Some(RuntimeValue::Boolean(b))),
            Value::UnitLiteral => Some(Some(RuntimeValue::Unit)),
            Value::UnaryOperation { operator, operand } => match constant_eval(*operand, depth + 1) {
                Some(Some(x)) => match operator {
                    UnaryOperator::Negation => match x {
                        RuntimeValue::Number(n) => Some(Some(RuntimeValue::Number(Number { bits: neg_bits(n.bits) }))),
                        _ => Some(None),
                    },
                    UnaryOperator::LogicalNot => Some(Some(RuntimeValue::Boolean(falsy(x)))),
                },
                Some(None) => Some(None),
                None => None,
            },
            Value::BinaryOperation { operator, left, right } => match constant_eval(*left, depth + 1) {
                Some(Some(a)) => match constant_eval(*right, depth + 1) {
                    Some(Some(b)) => Some(plain_binop(operator, a, b)),
                    Some(None) => Some(None),
                    None => None,
                },
                Some(None) => Some(None),
                None => None,
            },
            Value::Conditional { condition, true_branch, false_branch } => match constant_eval(
                *condition,
                depth + 1,
            ) {
                Some(Some(c)) => if !falsy(c) {
                    constant_eval(*true_branch, depth + 1)
                } else {
                    match false_branch {
                        Some(fb) => constant_eval(*fb, depth + 1),
                        None => None,
                    }
                },
                Some(None) => Some(None),
                None => None,
            },
            _ => None,
        }
    }
}

/// The variables that the scopes hold, innermost first: each name that some scope has,
/// with its value (none for a hoisted name not yet assigned).
pub open spec fn store_of(scopes: Seq<Scope>) -> Map<Seq<char>, Option<RuntimeValue>> {
    Map::new(|n: Seq<char>| scope_index(scopes, n) >= 0, |n: Seq<char>| env_value(scopes, n))
}

/// What an expression over literals and variables gives with the variables `store`, as
/// `constant_eval` does for literals: a variable read gives the plain value it holds (an
/// undefined variable is an error); operators and conditionals as there, operands left
/// to right; a match on such a value takes the first arm whose pattern matches, when that
/// pattern binds nothing, or else a fallback that binds nothing (no arm and no fallback is
/// an error). `None` for anything else (a variable holding a document or a struck value
/// among them).
pub open spec fn env_eval(v: Value, store: Map<Seq<char>, Option<RuntimeValue>>, depth: int) -> Option<Option<RuntimeValue>>
    decreases v,
{
    if depth > MAX_DEPTH {
        Some(None)
    } else {
        match v {
            Value::NumberLiteral(n) => Some(Some(RuntimeValue::Number(n))),
            Value::BooleanLiteral(b) => Some(Some(RuntimeValue::Boolean(b))),
            Value::UnitLiteral => Some(Some(RuntimeValue::Unit)),
            Value::StringLiteral(x) => Some(Some(RuntimeValue::String(x))),
            Value::VariableReference(name, _) => if !store.dom().contains(name@) {
                Some(None)
            } else {
                match store[name@] {
                    Some(w) => if plain_value(w) || w is String {
                        Some(Some(w))
                    } else {
                        None
                    },
                    None => None,
                }
            },
            Value::UnaryOperation { operator, operand } => match env_eval(*operand, store, depth + 1) {
                Some(Some(x)) => if !plain_value(x) {
                    None
                } else {
                    match operator {
                    UnaryOperator::Negation => match x {
                        RuntimeValue::Number(n) => Some(Some(RuntimeValue::Number(Number { bits: neg_bits(n.bits) }))),
                        _ => Some(None),
                    },
                    UnaryOperator::LogicalNot => Some(Some(RuntimeValue::Boolean(falsy(x)))),
                }
                },
                Some(None) => Some(None),
                None => None,
            },
            Value::BinaryOperation { operator, left, right } => match env_eval(*left, store, depth + 1) {
                Some(Some(a)) => match env_eval(*right, store, depth + 1) {
                    Some(Some(b)) => if plain_value(a) && plain_value(b) {
                        Some(plain_binop(operator, a, b))
                    } else {
                        None
                    },
                    Some(None) => Some(None),
                    None => None,
                },
                Some(None) => Some(None),
                None => None,
            },
            Value::Conditional { condition, true_branch, false_branch } => match env_eval(
                *condition,
                store,
                depth + 1,
            ) {
                Some(Some(c)) => if !plain_value(c) {
                    None
                } else if !falsy(c) {
                    env_eval(*true_branch, store, depth + 1)
                } else {
                    match false_branch {
                        Some(fb) => env_eval(*fb, store, depth + 1),
                        None => None,
                    }
                },
                Some(None) => Some(None),
                None => None,
            },
            Value::Match { value: scrutinee, arms, otherwise } => match env_eval(*scrutinee, store, depth + 1) {
                Some(Some(x)) => {
                    let k = first_matching(arms@, x, 0);
                    if 0 <= k < arms@.len() {
                        if binds_nothing(arms@[k].0) {
                            proof {
                                vstd::std_specs::vec::axiom_vec_index_decreases(arms, k);
                            }
                            env_eval(arms@[k].1, store, depth + 1)
                        } else {
                            None
                        }
                    } else {
                        match otherwise {
                            Some((None, res)) => env_eval(*res, store, depth + 1),
                            Some(_) => None,
                            None => Some(None),
                        }
                    }
                },
                Some(None) => Some(None),
                None => None,
            },
            _ => None,
        }
    }
}

/// A pattern that binds no name: a literal or `_`.
pub open spec fn binds_nothing(t: Template) -> bool {
    t is NumberLiteral || t is StringLiteral || t is BooleanLiteral || t is UnitLiteral || t is Wildcard
}

/// An expression over literals and variables evaluates to a plain value or a string.
proof fn lemma_env_simple(v: Value, store: Map<Seq<char>, Option<RuntimeValue>>, depth: int)
    ensures
        env_eval(v, store, depth) matches Some(Some(w)) ==> plain_value(w) || w is String,
    decreases v,
{
    if depth <= MAX_DEPTH {
        match v {
            Value::UnaryOperation { operator, operand } => lemma_env_simple(*operand, store, depth + 1),
            Value::BinaryOperation { operator, left, right } => {
                lemma_env_simple(*left, store, depth + 1);
                lemma_env_simple(*right, store, depth + 1);
            },
            Value::Conditional { condition, true_branch, false_branch } => {
                lemma_env_simple(*condition, store, depth + 1);
                lemma_env_simple(*true_branch, store, depth + 1);
                match false_branch {
                    Some(fb) => lemma_env_simple(*fb, store, depth + 1),
                    None => {},
                }
            },
            Value::Match { value: scrutinee, arms, otherwise } => {
                lemma_env_simple(*scrutinee, store, depth + 1);
                if let Some(Some(x)) = env_eval(*scrutinee, store, depth + 1) {
                    let k = first_matching(arms@, x, 0);
                    if 0 <= k < arms@.len() {
                        vstd::std_specs::vec::axiom_vec_index_decreases(arms, k);
                        lemma_env_simple(arms@[k].1, store, depth + 1);
                    } else {
                        match otherwise {
                            Some((_, res)) => lemma_env_simple(*res, store, depth + 1),
                            None => {},
                        }
                    }
                }
            },
            _ => {},
        }
    }
}

/// A constant expression evaluates to a plain value.
proof fn lemma_constant_plain(v: Value, depth: int)
    ensures
        constant_eval(v, depth) matches Some(Some(w)) ==> plain_value(w),
    decreases v,
{
    if depth <= MAX_DEPTH {
        match v {
            Value::UnaryOperation { operator, operand } => lemma_constant_plain(*operand, depth + 1),
            Value::BinaryOperation { operator, left, right } => {
                lemma_constant_plain(*left, depth + 1);
                lemma_constant_plain(*right, depth + 1);
            },
            Value::Conditional { condition, true_branch, false_branch } => {
                lemma_constant_plain(*condition, depth + 1);
                lemma_constant_plain(*true_branch, depth + 1);
                match false_branch {
                    Some(fb) => lemma_constant_plain(*fb, depth + 1),
                    None => {},
                }
            },
            _ => {},
        }
    }
}

/// On plain values, a binary operator gives what `plain_binop` says, or an error.
proof fn lemma_plain_binop(op: BinaryOperator, l: RuntimeValue, r: RuntimeValue, res: Result<RuntimeValue, RuntimeError>)
    requires
        plain_value(l),
        plain_value(r),
        binop_holds(op, l, r, res),
    ensures
        match plain_binop(op, l, r) {
            Some(w) => res == Ok::<RuntimeValue, RuntimeError>(w),
            None => res is Err,
        },
{
}

/// `&&` gives `true` exactly when both operands are truthy: a falsy operand on either side,
/// the left included, gives `false`.
pub proof fn law_and_needs_both(l: RuntimeValue, r: RuntimeValue, res: Result<RuntimeValue, RuntimeError>)
    requires
        binop_holds(BinaryOperator::LogicalAnd, l, r, res),
    ensures
        res matches Ok(RuntimeValue::Boolean(b)) && (b ==> !falsy(l) && !falsy(r)) && (!falsy(l) && !falsy(r) ==> b),
        falsy(l) ==> res == Ok::<RuntimeValue, RuntimeError>(RuntimeValue::Boolean(false)),
        falsy(r) ==> res == Ok::<RuntimeValue, RuntimeError>(RuntimeValue::Boolean(false)),
{
}

/// `||` gives `true` exactly when some operand is truthy: two falsy operands give `false`.
pub proof fn law_or_needs_one(l: RuntimeValue, r: RuntimeValue, res: Result<RuntimeValue, RuntimeError>)
    requires
        binop_holds(BinaryOperator::LogicalOr, l, r, res),
    ensures
        res matches Ok(RuntimeValue::Boolean(b)) && (b ==> !falsy(l) || !falsy(r)) && (!falsy(l) || !falsy(r) ==> b),
        !falsy(l) ==> res == Ok::<RuntimeValue, RuntimeError>(RuntimeValue::Boolean(true)),
        falsy(l) && falsy(r) ==> res == Ok::<RuntimeValue, RuntimeError>(RuntimeValue::Boolean(false)),
{
}

/// `==` and `!=` always give booleans, opposite to each other, and `==` gives `true`
/// exactly when the operands are equal values; strings that differ are unequal.
pub proof fn law_equality_operators(
    l: RuntimeValue,
    r: RuntimeValue,
    eq: Result<RuntimeValue, RuntimeError>,
    ne: Result<RuntimeValue, RuntimeError>,
)
    requires
        binop_holds(BinaryOperator::Equality, l, r, eq),
        binop_holds(BinaryOperator::Inequality, l, r, ne),
    ensures
        eq matches Ok(RuntimeValue::Boolean(x)) && ne matches Ok(RuntimeValue::Boolean(y)) && x == !y,
        eq == Ok::<RuntimeValue, RuntimeError>(RuntimeValue::Boolean(values_equal(l, r))),
        l is String && r is String ==> (eq == Ok::<RuntimeValue, RuntimeError>(RuntimeValue::Boolean(true))
            <==> l->String_0@ == r->String_0@),
        l is Boolean && r is Boolean ==> (eq == Ok::<RuntimeValue, RuntimeError>(RuntimeValue::Boolean(true))
            <==> l == r),
{
    if l is String && r is String {
        crate::runtime::law_string_equality(l, r);
    }
}

/// Comparisons turn around with their operands: `l > r` gives what `r < l` gives, and
/// `l >= r` what `r <= l` gives; they take numbers only.
pub proof fn law_comparisons_turn_around(
    l: RuntimeValue,
    r: RuntimeValue,
    gt: Result<RuntimeValue, RuntimeError>,
    lt: Result<RuntimeValue, RuntimeError>,
    ge: Result<RuntimeValue, RuntimeError>,
    le: Result<RuntimeValue, RuntimeError>,
)
    requires
        l is Number,
        r is Number,
        binop_holds(BinaryOperator::GreaterThan, l, r, gt),
        binop_holds(BinaryOperator::LessThan, r, l, lt),
        binop_holds(BinaryOperator::GreaterThanOrEqual, l, r, ge),
        binop_holds(BinaryOperator::LessThanOrEqual, r, l, le),
    ensures
        gt == lt,
        ge == le,
        gt is Ok && ge is Ok,
{
}

/// On two numbers `a` and `b`: `+`, `-`, `*` give the binary64 sum, difference and product of
/// `a` and `b` in that order; `/` and `%` the quotient and remainder of `a` by `b` unless `b`
/// is zero; `<` holds when `a` is less than `b`, `<=` when `a` is at most `b`, and `>`, `>=`
/// the same with the operands turned around.
pub proof fn law_number_operators(op: BinaryOperator, a: Number, b: Number, res: Result<RuntimeValue, RuntimeError>)
    requires
        binop_holds(op, RuntimeValue::Number(a), RuntimeValue::Number(b), res),
    ensures
        op is Addition ==> res == Ok::<RuntimeValue, RuntimeError>(RuntimeValue::Number(Number { bits: double_sum(a.bits, b.bits) })),
        op is Subtraction ==> res == Ok::<RuntimeValue, RuntimeError>(
            RuntimeValue::Number(Number { bits: double_difference(a.bits, b.bits) }),
        ),
        op is Multiplication ==> res == Ok::<RuntimeValue, RuntimeError>(
            RuntimeValue::Number(Number { bits: double_product(a.bits, b.bits) }),
        ),
        op is Division && !num_eq_spec(b.bits, ZERO_BITS) ==> res == Ok::<RuntimeValue, RuntimeError>(
            RuntimeValue::Number(Number { bits: double_quotient(a.bits, b.bits) }),
        ),
        op is Modulo && !num_eq_spec(b.bits, ZERO_BITS) ==> res == Ok::<RuntimeValue, RuntimeError>(
            RuntimeValue::Number(Number { bits: double_remainder(a.bits, b.bits) }),
        ),
        op is LessThan ==> res == Ok::<RuntimeValue, RuntimeError>(RuntimeValue::Boolean(num_lt_spec(a.bits, b.bits))),
        op is LessThanOrEqual ==> res == Ok::<RuntimeValue, RuntimeError>(RuntimeValue::Boolean(num_le_spec(a.bits, b.bits))),
        op is GreaterThan ==> res == Ok::<RuntimeValue, RuntimeError>(RuntimeValue::Boolean(num_lt_spec(b.bits, a.bits))),
        op is GreaterThanOrEqual ==> res == Ok::<RuntimeValue, RuntimeError>(RuntimeValue::Boolean(num_le_spec(b.bits, a.bits))),
        op is Equality ==> res == Ok::<RuntimeValue, RuntimeError>(RuntimeValue::Boolean(num_eq_spec(a.bits, b.bits))),
{
}

/// Arithmetic and comparison take numbers: any other operand is a type error that names
/// the operand's kind; `+` also joins two strings, and a zero divisor is an error.
pub proof fn law_numeric_operands(op: BinaryOperator, l: RuntimeValue, r: RuntimeValue, res: Result<RuntimeValue, RuntimeError>)
    requires
        binop_holds(op, l, r, res),
    ensures
        (op is Subtraction || op is Multiplication || op is Division || op is Modulo || op is GreaterThan
            || op is LessThan || op is GreaterThanOrEqual || op is LessThanOrEqual) ==> {
            &&& !(l is Number) ==> type_error_is(res, "Number"@, kind_name_spec(l))
            &&& l is Number && !(r is Number) ==> type_error_is(res, "Number"@, kind_name_spec(r))
        },
        op is Addition && l is String && r is String ==> (res matches Ok(RuntimeValue::String(s))
            && s@ == l->String_0@ + r->String_0@),
        op is Addition && !(l is Number && r is Number) && !(l is String && r is String) ==> res is Err,
        (op is Division || op is Modulo) && l is Number && r is Number && num_eq_spec(r->Number_0.bits, ZERO_BITS)
            ==> res matches Err(RuntimeError::DivisionByZero),
{
}

/// On plain values (numbers, booleans, unit) the operators give what `binop_holds` says,
/// and `&&`, `||`, `==` and `!=` behave as the laws above say.
pub proof fn law_plain_operators(op: BinaryOperator, l: RuntimeValue, r: RuntimeValue, res: Result<RuntimeValue, RuntimeError>)
    requires
        plain_value(l),
        plain_value(r),
        binop_holds(op, l, r, res),
    ensures
        match plain_binop(op, l, r) {
            Some(w) => res == Ok::<RuntimeValue, RuntimeError>(w),
            None => res is Err,
        },
        plain_binop(BinaryOperator::LogicalAnd, l, r) matches Some(RuntimeValue::Boolean(b)) && (b <==> (!falsy(l)
            && !falsy(r))),
        plain_binop(BinaryOperator::LogicalOr, l, r) matches Some(RuntimeValue::Boolean(b)) && (b <==> (!falsy(l)
            || !falsy(r))),
        plain_binop(BinaryOperator::Equality, l, r) == Some(RuntimeValue::Boolean(values_equal(l, r))),
        plain_binop(BinaryOperator::Inequality, l, r) == Some(RuntimeValue::Boolean(!values_equal(l, r))),
{
    lemma_plain_binop(op, l, r, res);
}

/// Applies a binary operator to two evaluated operands.
pub fn eval_binary_op(op: BinaryOperator, left: &RuntimeValue, right: &RuntimeValue) -> (r: Result<RuntimeValue, RuntimeError>)
    ensures
        binop_holds(op, *left, *right, r),
{
    match op {
        BinaryOperator::Addition => match (left, right) {
            (RuntimeValue::Number(a), RuntimeValue::Number(b)) => Ok(RuntimeValue::Number(a.add(*b))),
            (RuntimeValue::String(a), RuntimeValue::String(b)) => {
                let mut s = a.clone();
                push_str(&mut s, b.as_str());
                Ok(RuntimeValue::String(s))
            },
            _ => {
                let mut got = left.kind_name().to_owned();
                push_str(&mut got, " + ");
                push_str(&mut got, right.kind_name());
                Err(RuntimeError::TypeError { expected: "matching numeric or string types".to_owned(), got })
            },
        },
        BinaryOperator::Subtraction => {
            let a = coerce_number(left)?;
            let b = coerce_number(right)?;
            Ok(RuntimeValue::Number(a.sub(b)))
        },
        BinaryOperator::Multiplication => {
            let a = coerce_number(left)?;
            let b = coerce_number(right)?;
            Ok(RuntimeValue::Number(a.mul(b)))
        },
        BinaryOperator::Division => {
            let a = coerce_number(left)?;
            let b = coerce_number(right)?;
            if b.is_zero() {
                return Err(RuntimeError::DivisionByZero);
            }
            Ok(RuntimeValue::Number(a.div(b)))
        },
        BinaryOperator::Modulo => {
            let a = coerce_number(left)?;
            let b = coerce_number(right)?;
            if b.is_zero() {
                return Err(RuntimeError::DivisionByZero);
            }
            Ok(RuntimeValue::Number(a.rem(b)))
        },
        BinaryOperator::Equality => Ok(RuntimeValue::Boolean(values_eq(left, right))),
        BinaryOperator::Inequality => Ok(RuntimeValue::Boolean(!values_eq(left, right))),
        BinaryOperator::GreaterThan => {
            let a = coerce_number(left)?;
            let b = coerce_number(right)?;
            Ok(RuntimeValue::Boolean(a.num_gt(b)))
        },
        BinaryOperator::LessThan => {
            let a = coerce_number(left)?;
            let b = coerce_number(right)?;
            Ok(RuntimeValue::Boolean(a.num_lt(b)))
        },
        BinaryOperator::GreaterThanOrEqual => {
            let a = coerce_number(left)?;
            let b = coerce_number(right)?;
            Ok(RuntimeValue::Boolean(a.num_ge(b)))
        },
        BinaryOperator::LessThanOrEqual => {
            let a = coerce_number(left)?;
            let b = coerce_number(right)?;
            Ok(RuntimeValue::Boolean(a.num_le(b)))
        },
        BinaryOperator::LogicalAnd => Ok(RuntimeValue::Boolean(left.is_truthy() && right.is_truthy())),
        BinaryOperator::LogicalOr => Ok(RuntimeValue::Boolean(left.is_truthy() || right.is_truthy())),
    }
}

/// Reads a link destination as a block reference at run time.
pub fn parse_runtime_block_ref(dest: &str) -> (r: BlockReference)
    ensures
        reference_of(r, dest@),
{
    parse_block_reference(dest)
}

fn warning_text(prefix: &str, name: &str, suffix: &str) -> (s: String)
    ensures
        s@ == prefix@ + name@ + suffix@,
{
    let mut s = prefix.to_owned();
    push_str(&mut s, name);
    push_str(&mut s, suffix);
    s
}

/// A part of the template invokes a block.
pub open spec fn template_invokes(parts: Seq<TemplateStringPart>) -> bool {
    exists|i: int|
        0 <= i < parts.len() && (#[trigger] parts[i] matches TemplateStringPart::Expression(e) && (
        e is BlockInvocation || e is EvaluatedBlockInvocation))
}

/// An expression that needs no scope to be evaluated: it reads no variable, invokes no
/// block and has no match (which binds names).
pub open spec fn scope_free(v: Value) -> bool
    decreases v, 3nat,
{
    match v {
        Value::VariableReference(..) => false,
        Value::BlockInvocation(..) => false,
        Value::EvaluatedBlockInvocation(..) => false,
        Value::Match { .. } => false,
        Value::Print(t) => parts_free(t.parts@),
        Value::Interpolation(t) => parts_free(t.parts@),
        Value::Strikethrough(t) => parts_free(t.parts@),
        Value::UnaryOperation { operand, .. } => scope_free(*operand),
        Value::BinaryOperation { left, right, .. } => scope_free(*left) && scope_free(*right),
        Value::Conditional { condition, true_branch, false_branch } => scope_free(*condition) && scope_free(
            *true_branch,
        ) && match false_branch {
            Some(fb) => scope_free(*fb),
            None => true,
        },
        _ => true,
    }
}

/// Template parts that need no scope.
pub open spec fn parts_free(p: Seq<TemplateStringPart>) -> bool
    decreases p, 2nat,
{
    p.len() == 0 || (parts_free(p.drop_last()) && part_free(p.last()))
}

pub open spec fn part_free(x: TemplateStringPart) -> bool
    decreases x, 1nat,
{
    match x {
        TemplateStringPart::Literal(_) => true,
        TemplateStringPart::Expression(e) => scope_free(e),
    }
}

/// A value whose demand needs no scope: a struck expression or template that needs none,
/// or any value that is not struck lazily.
pub open spec fn value_free(w: RuntimeValue) -> bool {
    match w {
        RuntimeValue::Strikethrough(StrikethroughPayload::Lazy(e)) => scope_free(*e),
        RuntimeValue::Strikethrough(StrikethroughPayload::Template(t)) => parts_free(t.parts@),
        _ => true,
    }
}

proof fn lemma_parts_free_index(p: Seq<TemplateStringPart>, i: int)
    requires
        parts_free(p),
        0 <= i < p.len(),
    ensures
        part_free(p[i]),
    decreases p.len(),
{
    if i < p.len() - 1 {
        lemma_parts_free_index(p.drop_last(), i);
    }
}

proof fn lemma_value_same_free(a: Value, b: Value)
    requires
        value_same(a, b),
    ensures
        scope_free(a) == scope_free(b),
    decreases a, 3nat,
{
    match a {
        Value::Print(t) => lemma_parts_same_free(t.parts@, b->Print_0.parts@),
        Value::Interpolation(t) => lemma_parts_same_free(t.parts@, b->Interpolation_0.parts@),
        Value::Strikethrough(t) => lemma_parts_same_free(t.parts@, b->Strikethrough_0.parts@),
        Value::UnaryOperation { operator, operand } => lemma_value_same_free(*operand, *b->operand),
        Value::BinaryOperation { operator, left, right } => {
            lemma_value_same_free(*left, *b->left);
            lemma_value_same_free(*right, *b->right);
        },
        Value::Conditional { condition, true_branch, false_branch } => {
            lemma_value_same_free(*condition, *b->condition);
            lemma_value_same_free(*true_branch, *b->true_branch);
            match false_branch {
                Some(fb) => lemma_value_same_free(*fb, *b->false_branch.unwrap()),
                None => {},
            }
        },
        _ => {},
    }
}

proof fn lemma_parts_same_free(a: Seq<TemplateStringPart>, b: Seq<TemplateStringPart>)
    requires
        parts_same(a, b),
    ensures
        parts_free(a) == parts_free(b),
    decreases a, 2nat,
{
    if a.len() > 0 {
        lemma_parts_same_free(a.drop_last(), b.drop_last());
        lemma_part_same_free(a.last(), b.last());
    }
}

proof fn lemma_part_same_free(a: TemplateStringPart, b: TemplateStringPart)
    requires
        crate::ast::part_same(a, b),
    ensures
        part_free(a) == part_free(b),
    decreases a, 1nat,
{
    match a {
        TemplateStringPart::Expression(e) => lemma_value_same_free(e, b->Expression_0),
        _ => {},
    }
}

/// Whether a part of a template invokes a block.
fn has_invocations(ts: &TemplateString) -> (r: bool)
    ensures
        r == template_invokes(ts.parts@),
{
    let mut i: usize = 0;
    while i < ts.parts.len()
        invariant
            i <= ts.parts.len(),
            forall|j: int|
                0 <= j < i ==> !(#[trigger] ts.parts@[j] matches TemplateStringPart::Expression(e) && (
                e is BlockInvocation || e is EvaluatedBlockInvocation)),
        decreases ts.parts.len() - i,
    {
        if let TemplateStringPart::Expression(e) = &ts.parts[i] {
            match e {
                Value::BlockInvocation(..) | Value::EvaluatedBlockInvocation(..) => {
                    return true;
                },
                _ => {},
            }
        }
        i += 1;
    }
    false
}

/// The texts of values, joined by `, `.
pub open spec fn joined_texts(vs: Seq<RuntimeValue>) -> Seq<char>
    decreases vs.len(),
{
    if vs.len() == 0 {
        seq![]
    } else if vs.len() == 1 {
        value_text(vs[0])
    } else {
        joined_texts(vs.drop_last()) + ", "@ + value_text(vs.last())
    }
}

/// The spread of the arguments lists their texts joined by `, `: one more argument adds
/// `, ` and its text after the others.
pub proof fn law_spread_text(vs: Seq<RuntimeValue>, v: RuntimeValue)
    ensures
        joined_texts(seq![v]) == value_text(v),
        vs.len() > 0 ==> joined_texts(vs.push(v)) == joined_texts(vs) + ", "@ + value_text(v),
{
    assert(vs.push(v).drop_last() =~= vs);
}

fn contains_brace(s: &str) -> (r: bool)
    ensures
        r == s@.contains('{'),
{
    let cs = chars_of(s);
    let mut i: usize = 0;
    while i < cs.len()
        invariant
            i <= cs.len(),
            cs@ == s@,
            forall|j: int| 0 <= j < i ==> cs@[j] != '{',
        decreases cs.len() - i,
    {
        if cs[i] == '{' {
            assert(s@[i as int] == '{');
            return true;
        }
        i += 1;
    }
    false
}

fn empty_span() -> (r: Range<usize>)
    ensures
        r.start == 0 && r.end == 0,
{
    Range { start: 0, end: 0 }
}

// ---------------------------------------------------------------------------
// Evaluation
// ---------------------------------------------------------------------------

/// The span an error or warning about a reference is given: the reference's own span
/// where it is not empty, else the instruction's.
pub open spec fn reference_span(own: Range<usize>, instruction: Range<usize>) -> Range<usize> {
    if own.start < own.end {
        own
    } else {
        instruction
    }
}

/// What reading a variable gives: the innermost scope that has it decides. An assigned
/// value is copied, with a warning when its scope belongs neither to the current block nor
/// to one of its lexical ancestors; a hoisted, unassigned one reads as unit, with a
/// warning; a name that no scope has is an error.
pub open spec fn variable_read(
    env: Environment,
    name: Seq<char>,
    r: Result<RuntimeValue, DiagnosticError>,
    before: Seq<DiagnosticError>,
    after: Seq<DiagnosticError>,
    span: Range<usize>,
    source_id: usize,
) -> bool {
    let scopes = env.scopes@;
    let k = scope_index(scopes, name);
    if k < 0 {
        &&& r matches Err(e) && e.error matches RuntimeError::UndefinedVariable(n) && n@ == name
        &&& r->Err_0.span == Some(span) && r->Err_0.source_id == source_id && !r->Err_0.is_warning
        &&& after == before
    } else {
        match env_value(scopes, name) {
            Some(v) => r matches Ok(w) && runtime_same(w, v) && if k < scopes.len() - 1 && outside_lineage(
                scopes[k],
                scopes.last(),
            ) {
                &&& after.len() == before.len() + 1
                &&& after.drop_last() =~= before
                &&& after.last().is_warning
                &&& after.last().span == Some(span) && after.last().source_id == source_id
                &&& error_text(after.last().error) == "reading variable '"@ + name
                    + "' from a non-lexical scope (undefined behavior)"@
            } else {
                after == before
            },
            None => {
                &&& r matches Ok(RuntimeValue::Unit)
                &&& after.len() == before.len() + 1
                &&& after.drop_last() =~= before
                &&& after.last().is_warning
                &&& after.last().span == Some(span) && after.last().source_id == source_id
                &&& error_text(after.last().error) == "reading variable '"@ + name
                    + "' before assignment (undefined behavior)"@
            },
        }
    }
}

/// A variable that has a value reads as that value: evaluating a reference to it gives a
/// copy of it (the same by content). With the contract of an assignment, which stores the
/// value it gives, this is what a read gives back of a write.
pub proof fn law_assigned_variable_reads_back(
    env: Environment,
    name: Seq<char>,
    w: RuntimeValue,
    r: Result<RuntimeValue, DiagnosticError>,
    before: Seq<DiagnosticError>,
    after: Seq<DiagnosticError>,
    span: Range<usize>,
    source_id: usize,
)
    requires
        env_value(env.scopes@, name) == Some(w),
        variable_read(env, name, r, before, after, span, source_id),
    ensures
        r matches Ok(x) && runtime_same(x, w),
{
}

/// The state that evaluation reads and changes: the environment, the text printed so far
/// and the diagnostics collected so far.
pub type EvalState = (Environment, Seq<char>, Seq<DiagnosticError>);

/// The operator error carried by `r`, or its value.
pub open spec fn lowered(r: Result<RuntimeValue, DiagnosticError>) -> Result<RuntimeValue, RuntimeError> {
    match r {
        Ok(v) => Ok(v),
        Err(d) => Err(d.error),
    }
}

/// `r` is what an operator gives: its value, or its error with no span and as no warning.
pub open spec fn operator_result(res_holds: bool, r: Result<RuntimeValue, DiagnosticError>) -> bool {
    &&& res_holds
    &&& r matches Err(d) ==> d.span is None && !d.is_warning
}

/// The part of demanding `val` that needs no evaluation, from state `s0` to `s1` with result
/// `r`: a value that is not struck is given back and an evaluated struck value gives what it
/// holds, both with the state unchanged.
pub open spec fn demand_step(val: RuntimeValue, s0: EvalState, s1: EvalState, r: Result<RuntimeValue, DiagnosticError>) -> bool {
    match val {
        RuntimeValue::Strikethrough(StrikethroughPayload::Eager(inner)) => r == Ok::<RuntimeValue, DiagnosticError>(*inner)
            && s1 == s0,
        RuntimeValue::Strikethrough(_) => true,
        _ => r == Ok::<RuntimeValue, DiagnosticError>(val) && s1 == s0,
    }
}

/// What demanding `val` at `depth` does: `demand_step`, and an unevaluated expression or
/// template is evaluated now, with no span of its own.
pub open spec fn demanded(
    val: RuntimeValue,
    blocks: BlockRegistry,
    depth: int,
    s0: EvalState,
    s1: EvalState,
    r: Result<RuntimeValue, DiagnosticError>,
) -> bool {
    &&& demand_step(val, s0, s1, r)
    &&& val matches RuntimeValue::Strikethrough(StrikethroughPayload::Lazy(e)) ==> evaluation(
        *e,
        blocks,
        depth,
        blocks.source_id,
        Range { start: 0usize, end: 0usize },
        s0,
        s1,
        r,
    )
    &&& val matches RuntimeValue::Strikethrough(StrikethroughPayload::Template(t)) ==> template_value(
        t.parts@,
        blocks,
        depth,
        blocks.source_id,
        Range { start: 0usize, end: 0usize },
        s0,
        s1,
        r,
    )
}

/// A step of evaluation that ended in state `s` with result `r`; it names the intermediate
/// states and results over which the contracts below speak.
pub open spec fn stepped(s: EvalState, r: Result<RuntimeValue, DiagnosticError>) -> bool {
    true
}

/// After a step with result `rx` that left state `sx`: an error ends the evaluation there
/// with that error; a value goes on as `rest` says.
pub open spec fn then_step(
    rx: Result<RuntimeValue, DiagnosticError>,
    sx: EvalState,
    s1: EvalState,
    r: Result<RuntimeValue, DiagnosticError>,
    rest: bool,
) -> bool {
    match rx {
        Err(_) => r == rx && s1 == sx,
        Ok(_) => rest,
    }
}

/// A unary operation once its operand has value `v` in state `s2`: `!` gives whether the
/// value is falsy; `-` demands it and negates a number.
pub open spec fn unary_rest(op: UnaryOperator, v: RuntimeValue, s2: EvalState, s1: EvalState, r: Result<RuntimeValue, DiagnosticError>) -> bool {
    match op {
        UnaryOperator::LogicalNot => r == Ok::<RuntimeValue, DiagnosticError>(RuntimeValue::Boolean(falsy(v))) && s1 == s2,
        UnaryOperator::Negation => exists|s3: EvalState, dv: Result<RuntimeValue, DiagnosticError>|
            #[trigger] demand_step(v, s2, s3, dv) && then_step(dv, s3, s1, r, s1 == s3 && operator_result(
                match dv->Ok_0 {
                    RuntimeValue::Number(n) => r == Ok::<RuntimeValue, DiagnosticError>(
                        RuntimeValue::Number(Number { bits: neg_bits(n.bits) }),
                    ),
                    _ => type_error_is(lowered(r), "Number"@, kind_name_spec(dv->Ok_0)),
                },
                r,
            )),
    }
}

/// `!` gives whether its operand is falsy: `!true` is `false`, and `!false`, `!()` are
/// `true`; it changes nothing.
pub proof fn law_not_negates(v: RuntimeValue, s2: EvalState, s1: EvalState, r: Result<RuntimeValue, DiagnosticError>)
    requires
        unary_rest(UnaryOperator::LogicalNot, v, s2, s1, r),
    ensures
        r matches Ok(RuntimeValue::Boolean(b)) && (b <==> falsy(v)),
        v == RuntimeValue::Boolean(true) ==> r == Ok::<RuntimeValue, DiagnosticError>(RuntimeValue::Boolean(false)),
        v == RuntimeValue::Boolean(false) ==> r == Ok::<RuntimeValue, DiagnosticError>(RuntimeValue::Boolean(true)),
        s1 == s2,
{
}

/// `-` on a number flips its sign, and flipping twice gives the number back; on a value of
/// another kind that is not struck it is a type error naming that kind. It changes nothing.
pub proof fn law_negation(v: RuntimeValue, s2: EvalState, s1: EvalState, r: Result<RuntimeValue, DiagnosticError>)
    requires
        unary_rest(UnaryOperator::Negation, v, s2, s1, r),
        !(v is Strikethrough),
    ensures
        s1 == s2,
        v matches RuntimeValue::Number(n) ==> r == Ok::<RuntimeValue, DiagnosticError>(
            RuntimeValue::Number(Number { bits: neg_bits(n.bits) }),
        ),
        v matches RuntimeValue::Number(n) ==> neg_bits(neg_bits(n.bits)) == n.bits,
        !(v is Number) ==> type_error_is(lowered(r), "Number"@, kind_name_spec(v)),
{
    let (s3, dv) = choose|s3: EvalState, dv: Result<RuntimeValue, DiagnosticError>|
        #[trigger] demand_step(v, s2, s3, dv) && then_step(dv, s3, s1, r, s1 == s3 && operator_result(
            match dv->Ok_0 {
                RuntimeValue::Number(n) => r == Ok::<RuntimeValue, DiagnosticError>(
                    RuntimeValue::Number(Number { bits: neg_bits(n.bits) }),
                ),
                _ => type_error_is(lowered(r), "Number"@, kind_name_spec(dv->Ok_0)),
            },
            r,
        ));
    assert(dv == Ok::<RuntimeValue, DiagnosticError>(v));
}

/// Whether an operator demands its operands before it applies: all but `==`, `!=`, `&&`
/// and `||`, which take struck operands as they are.
pub open spec fn demands_operands(op: BinaryOperator) -> bool {
    !(op is Equality || op is Inequality || op is LogicalAnd || op is LogicalOr)
}

/// A binary operation once both operands have values `lv` and `rv` in state `s2`: the
/// operands are demanded, left first, where the operator needs it, and the operator applies.
pub open spec fn binary_rest(
    op: BinaryOperator,
    lv: RuntimeValue,
    rv: RuntimeValue,
    s2: EvalState,
    s1: EvalState,
    r: Result<RuntimeValue, DiagnosticError>,
) -> bool {
    if !demands_operands(op) {
        s1 == s2 && operator_result(binop_holds(op, lv, rv, lowered(r)), r)
    } else {
        exists|s3: EvalState, dl: Result<RuntimeValue, DiagnosticError>|
            #[trigger] demand_step(lv, s2, s3, dl) && match dl {
                Err(_) => r == dl && s1 == s3,
                Ok(l2) => exists|s4: EvalState, dr: Result<RuntimeValue, DiagnosticError>|
                    #[trigger] demand_step(rv, s3, s4, dr) && match dr {
                        Err(_) => r == dr && s1 == s4,
                        Ok(r2) => s1 == s4 && operator_result(binop_holds(op, l2, r2, lowered(r)), r),
                    },
            }
    }
}

/// A prefix of a template evaluated to state `s` with text (or error) `r`; it names the
/// intermediate states and texts over which the contracts below speak.
pub open spec fn text_stepped(s: EvalState, r: Result<Seq<char>, DiagnosticError>) -> bool {
    true
}

/// What evaluating the parts of a template at `depth` does, in order, from state `s0` to
/// `s1`: literal parts add their text, an expression is evaluated (as `evaluation` says) and
/// adds the printed text of its value; the first error stops it, with that error.
pub open spec fn template_evaluation(
    parts: Seq<TemplateStringPart>,
    blocks: BlockRegistry,
    depth: int,
    source_id: usize,
    ispan: Range<usize>,
    s0: EvalState,
    s1: EvalState,
    r: Result<Seq<char>, DiagnosticError>,
) -> bool
    decreases (MAX_DEPTH + 2 - depth) as nat, 1int, parts.len() as int,
{
    if parts.len() == 0 {
        r matches Ok(t) && t.len() == 0 && s1 == s0
    } else {
        exists|sm: EvalState, rm: Result<Seq<char>, DiagnosticError>|
            #[trigger] text_stepped(sm, rm) && template_evaluation(parts.drop_last(), blocks, depth, source_id, ispan, s0, sm, rm)
                && match rm {
                Err(_) => r == rm && s1 == sm,
                Ok(t) => match parts.last() {
                    TemplateStringPart::Literal(x) => r matches Ok(u) && u =~= t + x@ && s1 == sm,
                    TemplateStringPart::Expression(e) => exists|se: EvalState, re: Result<RuntimeValue, DiagnosticError>|
                        #[trigger] stepped(se, re) && evaluation(e, blocks, depth, source_id, ispan, sm, se, re) && s1 == se
                            && match re {
                            Err(x) => r == Err::<Seq<char>, DiagnosticError>(x),
                            Ok(v) => r matches Ok(u) && u =~= t + value_text(v),
                        },
                },
            }
    }
}

/// What evaluating a template to a value at `depth` does, from `s0` to `s1`: a template of
/// one expression gives that expression's value (`evaluation`); any other gives its text
/// (`template_evaluation`) as a string.
pub open spec fn template_value(
    parts: Seq<TemplateStringPart>,
    blocks: BlockRegistry,
    depth: int,
    source_id: usize,
    ispan: Range<usize>,
    s0: EvalState,
    s1: EvalState,
    r: Result<RuntimeValue, DiagnosticError>,
) -> bool
    decreases (MAX_DEPTH + 2 - depth) as nat, 2int, 0int,
{
    if parts.len() == 1 && parts[0] is Expression {
        evaluation(parts[0]->Expression_0, blocks, depth, source_id, ispan, s0, s1, r)
    } else {
        exists|s2: EvalState, rt: Result<Seq<char>, DiagnosticError>|
            #[trigger] text_stepped(s2, rt) && template_evaluation(parts, blocks, depth, source_id, ispan, s0, s2, rt) && s1 == s2
                && match rt {
                Err(e) => r == Err::<RuntimeValue, DiagnosticError>(e),
                Ok(x) => r matches Ok(RuntimeValue::String(u)) && u@ =~= x,
            }
    }
}

/// The text of a template's result, as a sequence.
pub open spec fn text_of(r: Result<String, DiagnosticError>) -> Result<Seq<char>, DiagnosticError> {
    match r {
        Ok(s) => Ok(s@),
        Err(e) => Err(e),
    }
}

/// An error in a prefix of a template's parts is the error of the whole.
proof fn lemma_template_error_spreads(
    parts: Seq<TemplateStringPart>,
    blocks: BlockRegistry,
    depth: int,
    source_id: usize,
    ispan: Range<usize>,
    s0: EvalState,
    s1: EvalState,
    e: DiagnosticError,
    i: int,
    j: int,
)
    requires
        0 < i <= j <= parts.len(),
        template_evaluation(parts.take(i), blocks, depth, source_id, ispan, s0, s1, Err(e)),
    ensures
        template_evaluation(parts.take(j), blocks, depth, source_id, ispan, s0, s1, Err(e)),
    decreases j - i,
{
    if i < j {
        lemma_template_error_spreads(parts, blocks, depth, source_id, ispan, s0, s1, e, i, j - 1);
        assert(parts.take(j).drop_last() =~= parts.take(j - 1));
        assert(text_stepped(s1, Err(e)));
    }
}

/// A state that an evaluation step was entered in; it names the states over which the
/// contracts below speak.
pub open spec fn entered(s: EvalState) -> bool {
    true
}

/// What a match on the value `v` does at `depth`, from state `s2` to `s1`: the first arm
/// whose pattern matches is chosen, else the fallback; the chosen result is evaluated once
/// the pattern's bindings are made (with output and diagnostics as they were, and the
/// environment unchanged where the pattern binds nothing); with neither, the match is not
/// exhaustive.
pub open spec fn match_evaluation(
    arms: Seq<(Template, Value)>,
    otherwise: Option<(Option<String>, Box<Value>)>,
    v: RuntimeValue,
    blocks: BlockRegistry,
    depth: int,
    source_id: usize,
    ispan: Range<usize>,
    s2: EvalState,
    s1: EvalState,
    r: Result<RuntimeValue, DiagnosticError>,
) -> bool
    decreases (MAX_DEPTH + 2 - depth) as nat, 1int, 0int,
{
    let k = first_matching(arms, v, 0);
    if 0 <= k < arms.len() {
        exists|s3: EvalState|
            #[trigger] entered(s3) && s3.1 == s2.1 && s3.2 == s2.2 && (binds_nothing(arms[k].0) ==> s3 == s2)
                && evaluation(arms[k].1, blocks, depth, source_id, ispan, s3, s1, r)
    } else {
        match otherwise {
            Some((name, res)) => exists|s3: EvalState|
                #[trigger] entered(s3) && s3.1 == s2.1 && s3.2 == s2.2 && (name is None ==> s3 == s2)
                    && evaluation(*res, blocks, depth, source_id, ispan, s3, s1, r),
            None => r matches Err(e) && e.error is NonExhaustiveMatch && e.span is None && !e.is_warning && s1 == s2,
        }
    }
}

/// Values (or the first error) that a step of evaluation reached in state `s`; it names the
/// intermediate states and values over which the contracts below speak.
pub open spec fn values_stepped(s: EvalState, r: Result<Seq<RuntimeValue>, DiagnosticError>) -> bool {
    true
}

/// Evaluating the first `k` arguments of an invocation at `depth`, in order, from `s0` to
/// `s1`: their values, or the first error.
pub open spec fn arguments_evaluation(
    args: Seq<Value>,
    k: int,
    blocks: BlockRegistry,
    depth: int,
    source_id: usize,
    ispan: Range<usize>,
    s0: EvalState,
    s1: EvalState,
    r: Result<Seq<RuntimeValue>, DiagnosticError>,
) -> bool
    decreases (MAX_DEPTH + 2 - depth) as nat, 1int, k,
{
    if k <= 0 || k > args.len() {
        r matches Ok(vs) && vs.len() == 0 && s1 == s0
    } else {
        exists|sm: EvalState, rm: Result<Seq<RuntimeValue>, DiagnosticError>|
            #[trigger] values_stepped(sm, rm) && arguments_evaluation(args, k - 1, blocks, depth, source_id, ispan, s0, sm, rm)
                && match rm {
                Err(_) => r == rm && s1 == sm,
                Ok(vs) => exists|se: EvalState, re: Result<RuntimeValue, DiagnosticError>|
                    #[trigger] stepped(se, re) && evaluation(args[k - 1], blocks, depth, source_id, ispan, sm, se, re) && s1 == se
                        && match re {
                        Err(x) => r == Err::<Seq<RuntimeValue>, DiagnosticError>(x),
                        Ok(v) => r matches Ok(ws) && ws =~= vs.push(v),
                    },
            }
    }
}

/// The environment `e1` is `e0` with `v` stored in the variable `name`: the other variables,
/// the enclosing scopes and every scope's arguments are as they were.
pub open spec fn stored(e0: Environment, e1: Environment, name: Seq<char>, v: RuntimeValue) -> bool {
    &&& e1.scopes@.len() == e0.scopes@.len()
    &&& env_value(e1.scopes@, name) matches Some(w) && runtime_same(w, v)
    &&& scope_index(e1.scopes@, name) >= 0
    &&& forall|other: Seq<char>| other != name ==> #[trigger] env_value(e1.scopes@, other) == env_value(e0.scopes@, other)
    &&& e1.scopes@.drop_last() == e0.scopes@.drop_last()
    &&& forall|j: int| 0 <= j < e1.scopes@.len() ==> (#[trigger] e1.scopes@[j]).arguments@ == e0.scopes@[j].arguments@
}

/// What running an instruction at `depth` does, from `s0` to `s1` with result `r`, in a
/// block of `source_id`: its value is evaluated with the instruction's span; an assignment
/// then stores the value in its variable (`stored`); an error without a span is given the
/// instruction's.
pub open spec fn instruction_run(
    i: Instruction,
    blocks: BlockRegistry,
    depth: int,
    source_id: usize,
    s0: EvalState,
    s1: EvalState,
    r: Result<RuntimeValue, DiagnosticError>,
) -> bool
    decreases (MAX_DEPTH + 2 - depth) as nat, 1int, 0int,
{
    let (value, span) = match i {
        Instruction::Assignment { value, span, .. } => (value, span),
        Instruction::Expression { value, span } => (value, span),
    };
    exists|s2: EvalState, rv: Result<RuntimeValue, DiagnosticError>|
        #[trigger] stepped(s2, rv) && evaluation(value, blocks, depth, source_id, span, s0, s2, rv) && match rv {
            Err(e) => s1 == s2 && (r matches Err(x) && x.error == e.error && x.is_warning == e.is_warning && (e.span is Some
                ==> x == e) && (e.span is None ==> x.span == Some(span) && x.source_id == source_id)),
            Ok(v) => r == Ok::<RuntimeValue, DiagnosticError>(v) && s1.1 == s2.1 && s1.2 == s2.2 && match i {
                Instruction::Assignment { variable, .. } => stored(s2.0, s1.0, variable@, v),
                Instruction::Expression { .. } => s1 == s2,
            },
        }
}

/// Running the first `k` instructions of a fence group at `depth`, from `s0` to `s1`: the
/// value of the last one (`start` before any), or the first error. Before each instruction
/// only the fence bookkeeping changes.
pub open spec fn instructions_run(
    instrs: Seq<Instruction>,
    k: int,
    start: RuntimeValue,
    blocks: BlockRegistry,
    depth: int,
    source_id: usize,
    s0: EvalState,
    s1: EvalState,
    r: Result<RuntimeValue, DiagnosticError>,
) -> bool
    decreases (MAX_DEPTH + 2 - depth) as nat, 2int, k,
{
    if k <= 0 || k > instrs.len() {
        r == Ok::<RuntimeValue, DiagnosticError>(start) && s1 == s0
    } else {
        exists|sm: EvalState, rm: Result<RuntimeValue, DiagnosticError>|
            #[trigger] stepped(sm, rm) && instructions_run(instrs, k - 1, start, blocks, depth, source_id, s0, sm, rm)
                && match rm {
                Err(_) => r == rm && s1 == sm,
                Ok(_) => exists|sk: EvalState|
                    #[trigger] entered(sk) && sk.0.scopes@ == sm.0.scopes@ && sk.1 == sm.1 && sk.2 == sm.2
                        && instruction_run(instrs[k - 1], blocks, depth, source_id, sk, s1, r),
            }
    }
}

/// Running the first `g` fence groups of a chain at `depth`, from `s0` to `s1`: each group
/// runs its instructions (`instructions_run`, from the value the groups before it left) and
/// then warns of reads at the same fence as a write, which adds diagnostics only.
pub open spec fn groups_run(
    groups: Seq<FenceGroup>,
    g: int,
    blocks: BlockRegistry,
    depth: int,
    source_id: usize,
    s0: EvalState,
    s1: EvalState,
    r: Result<RuntimeValue, DiagnosticError>,
) -> bool
    decreases (MAX_DEPTH + 2 - depth) as nat, 3int, g,
{
    if g <= 0 || g > groups.len() {
        r == Ok::<RuntimeValue, DiagnosticError>(RuntimeValue::Unit) && s1 == s0
    } else {
        exists|sm: EvalState, rm: Result<RuntimeValue, DiagnosticError>|
            #[trigger] stepped(sm, rm) && groups_run(groups, g - 1, blocks, depth, source_id, s0, sm, rm) && match rm {
                Err(_) => r == rm && s1 == sm,
                Ok(prev) => exists|sg: EvalState, se: EvalState, re: Result<RuntimeValue, DiagnosticError>|
                    #![trigger entered(sg), stepped(se, re)]
                    entered(sg) && stepped(se, re) && sg.0.scopes@ == sm.0.scopes@ && sg.1 == sm.1 && sg.2 == sm.2
                        && instructions_run(groups[g - 1].instructions@, groups[g - 1].instructions@.len() as int, prev, blocks,
                        depth, source_id, sg, se, re) && match re {
                        Err(_) => r == re && s1 == se,
                        Ok(v) => r == Ok::<RuntimeValue, DiagnosticError>(v) && s1.0.scopes@ == se.0.scopes@ && s1.1 == se.1
                            && extends(se.2, s1.2),
                    },
            }
    }
}

/// The state `si` is `s0` with the scope of a run of `block` with `args` entered: the scope
/// holds the arguments and the chain's assigned variables (hoisted, unassigned), and the
/// output and diagnostics are as they were.
pub open spec fn block_entered(block: Block, args: Seq<RuntimeValue>, s0: EvalState, si: EvalState) -> bool {
    &&& si.1 == s0.1 && si.2 == s0.2
    &&& si.0.scopes@.len() == s0.0.scopes@.len() + 1
    &&& si.0.scopes@.drop_last() == s0.0.scopes@
    &&& si.0.scopes@.last().arguments@ == args
    &&& forall|n: Seq<char>|
        #[trigger] lookup(si.0.scopes@.last().variables@, n) == if is_assigned(block.chain.groups@, n) {
            Some(None::<RuntimeValue>)
        } else {
            None
        }
}

/// What running a block with `args` at `depth` does, from `s0` to `s1`: a block without a
/// chain gives its body unwrapped and changes nothing; otherwise a scope is entered with the
/// arguments and the chain's assigned variables (hoisted, unassigned), the groups run
/// (`groups_run`), and on success the scope is left and the last value given.
pub open spec fn block_run(
    block: Block,
    args: Seq<RuntimeValue>,
    blocks: BlockRegistry,
    depth: int,
    s0: EvalState,
    s1: EvalState,
    r: Result<RuntimeValue, DiagnosticError>,
) -> bool
    decreases (MAX_DEPTH + 2 - depth) as nat, 5int, 0int,
{
    if block.chain.groups@.len() == 0 {
        r matches Ok(v) && unwrapped(block.body.nodes@, v) && s1 == s0
    } else {
        exists|si: EvalState, se: EvalState, re: Result<RuntimeValue, DiagnosticError>|
            #![trigger entered(si), stepped(se, re)]
            entered(si) && stepped(se, re) && block_entered(block, args, s0, si) && groups_run(block.chain.groups@, block.chain.groups@.len() as int, blocks, depth, blocks.source_id, si,
                se, re) && match re {
                Err(_) => r == re && s1 == se,
                Ok(v) => r == Ok::<RuntimeValue, DiagnosticError>(v) && s1.0.scopes@ == se.0.scopes@.drop_last() && s1.1 == se.1
                    && s1.2 == se.2,
            }
    }
}

/// What invoking a block by reference with argument values `vals` at `depth` does, from
/// `s0` to `s1`: past the depth limit a stack overflow; a reference that names no block
/// fails as `reference_failure` says and changes nothing; a found block runs one level
/// deeper (`block_run`), and its value is given (where it is a Document and the invocation
/// evaluates results, what follows is not described here).
pub open spec fn invocation(
    br: BlockReference,
    vals: Seq<RuntimeValue>,
    blocks: BlockRegistry,
    evaluate_result: bool,
    depth: int,
    s0: EvalState,
    s1: EvalState,
    r: Result<RuntimeValue, DiagnosticError>,
) -> bool
    decreases (MAX_DEPTH + 2 - depth) as nat, 6int, 0int,
{
    if depth > MAX_DEPTH {
        r matches Err(e) && e.error is StackOverflow && s1 == s0
    } else {
        match found_block(br, blocks) {
            None => reference_failure(br, blocks, r) && s1 == s0,
            Some(b) => exists|sb: EvalState, rb: Result<RuntimeValue, DiagnosticError>|
                #[trigger] stepped(sb, rb) && block_run(b, vals, blocks, depth + 1, s0, sb, rb) && match rb {
                    Err(_) => r == rb && s1 == sb,
                    Ok(v) => (evaluate_result && v is Document) || (r == Ok::<RuntimeValue, DiagnosticError>(v) && s1 == sb),
                },
        }
    }
}

/// What evaluating `value` at `depth` does, from state `s0` to `s1` with result `r`, in a
/// block of `source_id` whose instruction has span `ispan`. Past the depth limit it is a
/// stack overflow that changes nothing. Literals give their values; a variable or argument
/// reads as `variable_read` and the argument list say; operators and conditionals evaluate
/// their operands left to right, stop at the first error, and apply as `binop_holds` says;
/// a print or interpolation evaluates its template (`template_evaluation`); a match its
/// value and then the chosen arm (`match_evaluation`); an invocation its arguments in order
/// (`arguments_evaluation`) and then the block (`invocation`). Where parts are constant or
/// environment-evaluable, `constant_eval`, `env_eval` and `found_outcome` give the result
/// directly.
pub open spec fn evaluation(
    value: Value,
    blocks: BlockRegistry,
    depth: int,
    source_id: usize,
    ispan: Range<usize>,
    s0: EvalState,
    s1: EvalState,
    r: Result<RuntimeValue, DiagnosticError>,
) -> bool
    decreases (MAX_DEPTH + 2 - depth) as nat, 0int, 0int,
{
    let (env0, out0, d0) = s0;
    let (env1, out1, d1) = s1;
    if depth > MAX_DEPTH {
        &&& r matches Err(e) && e.error is StackOverflow && e.span is None && !e.is_warning
        &&& s1 == s0
    } else {
        &&& match value {
            Value::NumberLiteral(n) => r matches Ok(RuntimeValue::Number(m)) && m == n,
            Value::BooleanLiteral(b) => r matches Ok(RuntimeValue::Boolean(x)) && x == b,
            Value::StringLiteral(s) => r == Ok::<RuntimeValue, DiagnosticError>(RuntimeValue::String(s)) && s1 == s0,
            Value::UnitLiteral => r matches Ok(RuntimeValue::Unit),
            Value::VariableReference(name, own) => variable_read(env0, name@, r, d0, d1, reference_span(own, ispan), source_id)
                && env1.scopes@ == env0.scopes@ && out1 == out0,
            Value::PositionalArgumentReference(i, own) => (if env0.scopes@.len() > 0 && i < env0.scopes@.last().arguments@.len() {
                r matches Ok(w) && runtime_same(w, env0.scopes@.last().arguments@[i as int])
            } else {
                &&& r matches Err(e) && e.error == RuntimeError::ArgumentOutOfBounds(i)
                &&& r->Err_0.span == Some(reference_span(own, ispan))
                &&& r->Err_0.source_id == source_id && !r->Err_0.is_warning
            }) && s1 == s0,
            Value::SpreadArgumentReference => r matches Ok(RuntimeValue::String(s)) && s@ =~= seq!['['] + (if env0.scopes@.len() > 0 {
                joined_texts(env0.scopes@.last().arguments@)
            } else {
                seq![]
            }) + seq![']'] && s1 == s0,
            Value::UnaryOperation { operator, operand } => exists|s2: EvalState, rv: Result<RuntimeValue, DiagnosticError>|
                #[trigger] stepped(s2, rv) && evaluation(*operand, blocks, depth + 1, source_id, ispan, s0, s2, rv) && then_step(rv, s2, s1, r,
                unary_rest(operator, rv->Ok_0, s2, s1, r)),
            Value::BinaryOperation { operator, left, right } => exists|s2: EvalState, rl: Result<RuntimeValue, DiagnosticError>|
                #[trigger] stepped(s2, rl) && evaluation(*left, blocks, depth + 1, source_id, ispan, s0, s2, rl) && then_step(rl, s2, s1, r,
                exists|s3: EvalState, rr: Result<RuntimeValue, DiagnosticError>|
                    #[trigger] stepped(s3, rr) && evaluation(*right, blocks, depth + 1, source_id, ispan, s2, s3, rr) && then_step(rr, s3, s1, r,
                    binary_rest(operator, rl->Ok_0, rr->Ok_0, s3, s1, r))),
            Value::Print(t) => (exists|s2: EvalState, rt: Result<Seq<char>, DiagnosticError>|
                #[trigger] text_stepped(s2, rt) && template_evaluation(t.parts@, blocks, depth + 1, source_id, ispan, s0, s2, rt)
                    && match rt {
                    Err(e) => r == Err::<RuntimeValue, DiagnosticError>(e) && s1 == s2,
                    Ok(x) => r == Ok::<RuntimeValue, DiagnosticError>(RuntimeValue::Unit) && env1 == s2.0 && d1 == s2.2
                        && out1 =~= s2.1 + x + seq!['\n'],
                }) && (r is Ok ==> (r matches Ok(RuntimeValue::Unit) && out1.len() > 0
                && out1.last() == '\n')) && (constant_text(t.parts@, depth + 1) matches Some(x) ==> {
                &&& r == Ok::<RuntimeValue, DiagnosticError>(RuntimeValue::Unit)
                &&& out1 =~= out0 + x + seq!['\n']
                &&& env1 == env0
                &&& d1 == d0
            }) && (env_text(t.parts@, store_of(env0.scopes@), depth + 1) matches Some(x) ==> {
                &&& r == Ok::<RuntimeValue, DiagnosticError>(RuntimeValue::Unit)
                &&& out1 =~= out0 + x + seq!['\n']
                &&& env1.scopes@ == env0.scopes@
            }),
            Value::Conditional { condition, true_branch, false_branch } => exists|s2: EvalState, rc: Result<RuntimeValue, DiagnosticError>|
                #[trigger] stepped(s2, rc) && evaluation(*condition, blocks, depth + 1, source_id, ispan, s0, s2, rc) && then_step(rc, s2, s1, r,
                if !falsy(rc->Ok_0) {
                    evaluation(*true_branch, blocks, depth + 1, source_id, ispan, s2, s1, r)
                } else {
                    match false_branch {
                        Some(fb) => evaluation(*fb, blocks, depth + 1, source_id, ispan, s2, s1, r),
                        None => r matches Ok(RuntimeValue::Strikethrough(StrikethroughPayload::Lazy(e)))
                            && value_same(*e, *true_branch) && s1 == s2,
                    }
                }),
            Value::BlockInvocation(args, br) => (exists|s2: EvalState, ra: Result<Seq<RuntimeValue>, DiagnosticError>|
                #[trigger] values_stepped(s2, ra) && arguments_evaluation(args@, args@.len() as int, blocks, depth + 1, source_id,
                ispan, s0, s2, ra) && match ra {
                    Err(e) => r == Err::<RuntimeValue, DiagnosticError>(e) && s1 == s2,
                    Ok(vals) => invocation(br, vals, blocks, false, depth + 1, s2, s1, r),
                }) && (arguments_constant(args@, depth + 1) ==> ((depth + 1 > MAX_DEPTH ==> (
            r matches Err(e) && e.error is StackOverflow)) && (depth + 1 <= MAX_DEPTH ==> reference_failure(br, blocks, r))
                && (depth + 1 <= MAX_DEPTH ==> found_outcome(br, blocks, false, depth + 1, r, out0, out1, d0, d1)))),
            Value::EvaluatedBlockInvocation(args, br) => (exists|s2: EvalState, ra: Result<Seq<RuntimeValue>, DiagnosticError>|
                #[trigger] values_stepped(s2, ra) && arguments_evaluation(args@, args@.len() as int, blocks, depth + 1, source_id,
                ispan, s0, s2, ra) && match ra {
                    Err(e) => r == Err::<RuntimeValue, DiagnosticError>(e) && s1 == s2,
                    Ok(vals) => invocation(br, vals, blocks, true, depth + 1, s2, s1, r),
                }) && (arguments_constant(args@, depth + 1) ==> ((depth + 1
                > MAX_DEPTH ==> (r matches Err(e) && e.error is StackOverflow)) && (depth + 1 <= MAX_DEPTH
                ==> reference_failure(br, blocks, r)) && (depth + 1 <= MAX_DEPTH ==> found_outcome(br, blocks, true,
                depth + 1, r, out0, out1, d0, d1)))),
            Value::Interpolation(t) => (exists|s2: EvalState, rt: Result<Seq<char>, DiagnosticError>|
                #[trigger] text_stepped(s2, rt) && template_evaluation(t.parts@, blocks, depth + 1, source_id, ispan, s0, s2, rt)
                    && s1 == s2 && match rt {
                    Err(e) => r == Err::<RuntimeValue, DiagnosticError>(e),
                    Ok(x) => r matches Ok(RuntimeValue::String(u)) && u@ =~= x,
                }) && (constant_text(t.parts@, depth + 1) matches Some(x) ==> {
                &&& r matches Ok(RuntimeValue::String(s)) && s@ == x
                &&& s1 == s0
            }) && (env_text(t.parts@, store_of(env0.scopes@), depth + 1) matches Some(x) ==> {
                &&& r matches Ok(RuntimeValue::String(s)) && s@ == x
                &&& env1.scopes@ == env0.scopes@
                &&& out1 == out0
            }),
            Value::Match { arms, otherwise, value: scrutinee } => (exists|s2: EvalState, rs: Result<RuntimeValue, DiagnosticError>|
                #[trigger] stepped(s2, rs) && evaluation(*scrutinee, blocks, depth + 1, source_id, ispan, s0, s2, rs)
                    && then_step(rs, s2, s1, r, match_evaluation(arms@, otherwise, rs->Ok_0, blocks, depth + 1, source_id,
                    ispan, s2, s1, r))) && (arms@.len() == 0 && otherwise is None ==> r is Err)
                && (constant_eval(*scrutinee, depth + 1) matches Some(Some(v)) ==> (match_outcome(arms@, otherwise, v, depth + 1)
                matches Some(x) ==> match x {
                Some(w) => r == Ok::<RuntimeValue, DiagnosticError>(w),
                None => r is Err,
            })),
            Value::Strikethrough(t) => if template_invokes(t.parts@) {
                r matches Ok(RuntimeValue::Strikethrough(StrikethroughPayload::Template(u))) && parts_same(u.parts@, t.parts@)
                    && s1 == s0
            } else {
                exists|s2: EvalState, rv: Result<RuntimeValue, DiagnosticError>|
                    #[trigger] stepped(s2, rv) && template_value(t.parts@, blocks, depth + 1, source_id, ispan, s0, s2, rv)
                        && s1 == s2 && match rv {
                        Err(e) => r == Err::<RuntimeValue, DiagnosticError>(e),
                        Ok(v) => r matches Ok(RuntimeValue::Strikethrough(StrikethroughPayload::Eager(b))) && *b == v,
                    }
            },
        }
        &&& constant_eval(value, depth) matches Some(x) ==> {
            &&& s1 == s0
            &&& match x {
                Some(w) => r == Ok::<RuntimeValue, DiagnosticError>(w),
                None => r is Err,
            }
        }
        &&& env_eval(value, store_of(env0.scopes@), depth) matches Some(x) ==> {
            &&& env1.scopes@ == env0.scopes@
            &&& out1 == out0
            &&& match x {
                Some(w) => r == Ok::<RuntimeValue, DiagnosticError>(w),
                None => r is Err,
            }
        }
    }
}

/// The rest of a binary operation once both operands have values: where the operator needs
/// it, each operand is demanded, left first, and then the operator applies.
fn binary_operands(
    op: BinaryOperator,
    l: RuntimeValue,
    r: RuntimeValue,
    env: &mut Environment,
    blocks: &BlockRegistry,
    output: &mut String,
    depth: usize,
    diagnostics: &mut Vec<DiagnosticError>,
) -> (res: Result<RuntimeValue, DiagnosticError>)
    requires
        old(env).scopes@.len() > 0 || (value_free(l) && value_free(r)),
    ensures
        effects_ok(*old(env), *final(env), old(output)@, final(output)@, old(diagnostics)@, final(diagnostics)@, res is Ok),
        binary_rest(
            op,
            l,
            r,
            (*old(env), old(output)@, old(diagnostics)@),
            (*final(env), final(output)@, final(diagnostics)@),
            res,
        ),
        plain_value(l) && plain_value(r) ==> binop_holds(op, l, r, lowered(res)),
    decreases budget(depth), 5nat,
{
    let needs_demand = match op {
        BinaryOperator::Equality | BinaryOperator::Inequality | BinaryOperator::LogicalAnd
        | BinaryOperator::LogicalOr => false,
        _ => true,
    };
    if needs_demand {
        let ghost s2: EvalState = (*env, output@, diagnostics@);
        let dl = demand(l, env, blocks, output, depth, diagnostics);
        let ghost s3: EvalState = (*env, output@, diagnostics@);
        let res = match dl {
            Err(e) => Err(e),
            Ok(l2) => {
                let dr = demand(r, env, blocks, output, depth, diagnostics);
                match dr {
                    Err(e) => Err(e),
                    Ok(r2) => match eval_binary_op(op, &l2, &r2) {
                        Ok(v) => Ok(v),
                        Err(e) => Err(DiagnosticError::from_error(e)),
                    },
                }
            },
        };
        assert(binary_rest(op, l, r, s2, (*env, output@, diagnostics@), res));
        res
    } else {
        match eval_binary_op(op, &l, &r) {
            Ok(v) => Ok(v),
            Err(e) => Err(DiagnosticError::from_error(e)),
        }
    }
}

/// A conditional whose condition is a boolean literal takes the branch it names, from the
/// state it was entered in: `true` gives what the first branch gives; `false` what the
/// `else` branch gives, or, with none, the first branch unevaluated as a struck value.
pub proof fn law_literal_condition_chooses(
    b: bool,
    tb: Box<Value>,
    fb: Option<Box<Value>>,
    blocks: BlockRegistry,
    depth: int,
    source_id: usize,
    ispan: Range<usize>,
    s0: EvalState,
    s1: EvalState,
    r: Result<RuntimeValue, DiagnosticError>,
)
    requires
        0 <= depth,
        depth + 1 <= MAX_DEPTH,
        evaluation(
            Value::Conditional { condition: Box::new(Value::BooleanLiteral(b)), true_branch: tb, false_branch: fb },
            blocks,
            depth,
            source_id,
            ispan,
            s0,
            s1,
            r,
        ),
    ensures
        b ==> evaluation(*tb, blocks, depth + 1, source_id, ispan, s0, s1, r),
        !b ==> (fb matches Some(f) ==> evaluation(*f, blocks, depth + 1, source_id, ispan, s0, s1, r)),
        !b && fb is None ==> (r matches Ok(RuntimeValue::Strikethrough(StrikethroughPayload::Lazy(e))) && value_same(
            *e,
            *tb,
        ) && s1 == s0),
{
    reveal_with_fuel(evaluation, 2);
    let c = Value::BooleanLiteral(b);
    let (s2, rc) = choose|s2: EvalState, rc: Result<RuntimeValue, DiagnosticError>|
        #[trigger] stepped(s2, rc) && evaluation(c, blocks, depth + 1, source_id, ispan, s0, s2, rc) && then_step(
            rc,
            s2,
            s1,
            r,
            if !falsy(rc->Ok_0) {
                evaluation(*tb, blocks, depth + 1, source_id, ispan, s2, s1, r)
            } else {
                match fb {
                    Some(f) => evaluation(*f, blocks, depth + 1, source_id, ispan, s2, s1, r),
                    None => r matches Ok(RuntimeValue::Strikethrough(StrikethroughPayload::Lazy(e))) && value_same(
                        *e,
                        *tb,
                    ) && s1 == s2,
                }
            },
        );
    assert(constant_eval(c, depth + 1) == Some(Some(RuntimeValue::Boolean(b))));
    assert(rc == Ok::<RuntimeValue, DiagnosticError>(RuntimeValue::Boolean(b)));
    assert(s2 == s0);
}

/// Evaluates an expression to a runtime value.
#[verifier::rlimit(60)]
pub fn evaluate(
    value: &Value,
    env: &mut Environment,
    blocks: &BlockRegistry,
    output: &mut String,
    depth: usize,
    diagnostics: &mut Vec<DiagnosticError>,
    source_id: usize,
    instruction_span: &Range<usize>,
) -> (r: Result<RuntimeValue, DiagnosticError>)
    requires
        old(env).scopes@.len() > 0 || scope_free(*value) || depth > MAX_DEPTH,
    ensures
        scope_free(*value) && old(env).scopes@.len() == 0 ==> (r matches Ok(w) ==> value_free(w)),
        effects_ok(*old(env), *final(env), old(output)@, final(output)@, old(diagnostics)@, final(diagnostics)@, r is Ok),
        evaluation(
            *value,
            *blocks,
            depth as int,
            source_id,
            *instruction_span,
            (*old(env), old(output)@, old(diagnostics)@),
            (*final(env), final(output)@, final(diagnostics)@),
            r,
        ),
    decreases budget(depth), 1nat, *value,
{
    if depth > MAX_DEPTH {
        return Err(DiagnosticError::from_error(RuntimeError::StackOverflow));
    }
    let ghost s_init: EvalState = (*env, output@, diagnostics@);
    let result = match value {
        Value::NumberLiteral(n) => Ok(RuntimeValue::Number(*n)),
        Value::StringLiteral(s) => Ok(RuntimeValue::String(s.clone())),
        Value::BooleanLiteral(b) => Ok(RuntimeValue::Boolean(*b)),
        Value::UnitLiteral => Ok(RuntimeValue::Unit),
        Value::VariableReference(name, value_span) => {
            let span = if value_span.start < value_span.end {
                copy_span(value_span)
            } else {
                copy_span(instruction_span)
            };
            let (found, cross_scope, non_lexical, hoisted) = match env.get_variable_info(name.as_str()) {
                VariableLookup::Found { value, cross_scope, non_lexical_scope } => (
                    Some(clone_runtime_value(value)),
                    cross_scope,
                    non_lexical_scope,
                    false,
                ),
                VariableLookup::HoistedUnassigned => (None, false, false, true),
                VariableLookup::NotFound => (None, false, false, false),
            };
            match found {
                Some(v) => {
                    if non_lexical {
                        let msg = warning_text(
                            "reading variable '",
                            name.as_str(),
                            "' from a non-lexical scope (undefined behavior)",
                        );
                        diagnostics.push(DiagnosticError::warning(msg, span, source_id));
                    } else if !cross_scope {
                        env.record_fence_read(name.as_str(), span);
                    }
                    Ok(v)
                },
                None => {
                    if hoisted {
                        env.record_fence_read(name.as_str(), copy_span(&span));
                        let msg = warning_text(
                            "reading variable '",
                            name.as_str(),
                            "' before assignment (undefined behavior)",
                        );
                        diagnostics.push(DiagnosticError::warning(msg, span, source_id));
                        Ok(RuntimeValue::Unit)
                    } else {
                        Err(DiagnosticError::located(RuntimeError::UndefinedVariable(name.clone()), span, source_id))
                    }
                },
            }
        },
        Value::PositionalArgumentReference(idx, value_span) => {
            let span = if value_span.start < value_span.end {
                copy_span(value_span)
            } else {
                copy_span(instruction_span)
            };
            match env.get_argument(*idx) {
                Some(v) => Ok(clone_runtime_value(v)),
                None => Err(DiagnosticError::located(RuntimeError::ArgumentOutOfBounds(*idx), span, source_id)),
            }
        },
        Value::SpreadArgumentReference => {
            let args = env.get_all_arguments();
            let mut s = String::new();
            push_char(&mut s, '[');
            let mut k: usize = 0;
            assert(args@.take(0) =~= Seq::<RuntimeValue>::empty());
            while k < args.len()
                invariant
                    k <= args@.len(),
                    s@ == seq!['['] + joined_texts(args@.take(k as int)),
                decreases args@.len() - k,
            {
                assert(args@.take(k + 1).drop_last() =~= args@.take(k as int));
                if k > 0 {
                    push_str(&mut s, ", ");
                }
                let t = args[k].to_text();
                push_str(&mut s, t.as_str());
                proof {
                    if k == 0 {
                        assert(args@.take(1) =~= seq![args@[0]]);
                    }
                }
                k += 1;
            }
            assert(args@.take(args@.len() as int) =~= args@);
            push_char(&mut s, ']');
            Ok(RuntimeValue::String(s))
        },
        Value::UnaryOperation { operator, operand } => {
            proof {
                lemma_constant_plain(**operand, depth + 1);
                lemma_env_simple(**operand, store_of(env.scopes@), depth + 1);
            }
            let ghost s0: EvalState = (*env, output@, diagnostics@);
            let rv = evaluate(operand, env, blocks, output, depth + 1, diagnostics, source_id, instruction_span);
            let ghost s2: EvalState = (*env, output@, diagnostics@);
            assert(stepped(s2, rv));
            let res = match rv {
                Err(e) => Err(e),
                Ok(val) => match operator {
                    UnaryOperator::Negation => {
                        let dv = demand(val, env, blocks, output, depth + 1, diagnostics);
                        match dv {
                            Err(e) => Err(e),
                            Ok(val2) => match coerce_number(&val2) {
                                Ok(n) => Ok(RuntimeValue::Number(n.neg())),
                                Err(e) => Err(DiagnosticError::from_error(e)),
                            },
                        }
                    },
                    UnaryOperator::LogicalNot => Ok(RuntimeValue::Boolean(val.is_falsy())),
                },
            };
            assert(evaluation(*value, *blocks, depth as int, source_id, *instruction_span, s0, (*env, output@, diagnostics@), res));
            res
        },
        Value::BinaryOperation { operator, left, right } => {
            proof {
                lemma_constant_plain(**left, depth + 1);
                lemma_constant_plain(**right, depth + 1);
                lemma_env_simple(**left, store_of(env.scopes@), depth + 1);
                lemma_env_simple(**right, store_of(env.scopes@), depth + 1);
            }
            let ghost s0: EvalState = (*env, output@, diagnostics@);
            let rl = evaluate(left, env, blocks, output, depth + 1, diagnostics, source_id, instruction_span);
            let ghost s2: EvalState = (*env, output@, diagnostics@);
            assert(stepped(s2, rl));
            let res = match rl {
                Err(e) => Err(e),
                Ok(l) => {
                    let rr = evaluate(right, env, blocks, output, depth + 1, diagnostics, source_id, instruction_span);
                    let ghost s3: EvalState = (*env, output@, diagnostics@);
                    assert(stepped(s3, rr));
                    match rr {
                        Err(e) => Err(e),
                        Ok(r) => {
                            let res2 = binary_operands(*operator, l, r, env, blocks, output, depth + 1, diagnostics);
                            proof {
                                if plain_value(l) && plain_value(r) {
                                    lemma_plain_binop(*operator, l, r, lowered(res2));
                                }
                            }
                            res2
                        },
                    }
                },
            };
            assert(evaluation(*value, *blocks, depth as int, source_id, *instruction_span, s0, (*env, output@, diagnostics@), res));
            res
        },
        Value::Print(template) => {
            let rt = eval_template_string(template, env, blocks, output, depth + 1, diagnostics, source_id, instruction_span);
            let ghost s2: EvalState = (*env, output@, diagnostics@);
            assert(text_stepped(s2, text_of(rt)));
            match rt {
                Ok(s) => {
                    push_str(output, s.as_str());
                    push_char(output, '\n');
                    Ok(RuntimeValue::Unit)
                },
                Err(e) => Err(e),
            }
        },
        Value::Interpolation(template) => {
            let rt = eval_template_string(template, env, blocks, output, depth + 1, diagnostics, source_id, instruction_span);
            let ghost s2: EvalState = (*env, output@, diagnostics@);
            assert(text_stepped(s2, text_of(rt)));
            match rt {
                Ok(s) => Ok(RuntimeValue::String(s)),
                Err(e) => Err(e),
            }
        },
        Value::Strikethrough(template) => {
            proof {
                if parts_free(template.parts@) && template_invokes(template.parts@) {
                    let k = choose|k: int|
                        0 <= k < template.parts@.len() && (#[trigger] template.parts@[k] matches TemplateStringPart::Expression(e) && (
                        e is BlockInvocation || e is EvaluatedBlockInvocation));
                    lemma_parts_free_index(template.parts@, k);
                }
            }
            if has_invocations(template) {
                Ok(RuntimeValue::Strikethrough(StrikethroughPayload::Template(Box::new(clone_template_string(template)))))
            } else {
                let rv = evaluate_template_to_value(template, env, blocks, output, depth + 1, diagnostics, source_id, instruction_span);
                let ghost s2: EvalState = (*env, output@, diagnostics@);
                assert(stepped(s2, rv));
                match rv {
                    Ok(inner) => Ok(RuntimeValue::Strikethrough(StrikethroughPayload::Eager(Box::new(inner)))),
                    Err(e) => Err(e),
                }
            }
        },
        Value::Conditional { condition, true_branch, false_branch } => {
            let ghost s0: EvalState = (*env, output@, diagnostics@);
            let rc = evaluate(condition, env, blocks, output, depth + 1, diagnostics, source_id, instruction_span);
            let ghost s2: EvalState = (*env, output@, diagnostics@);
            assert(stepped(s2, rc));
            let res = match rc {
                Err(e) => Err(e),
                Ok(c) => if c.is_truthy() {
                    evaluate(true_branch, env, blocks, output, depth + 1, diagnostics, source_id, instruction_span)
                } else {
                    match false_branch {
                        Some(fb) => evaluate(fb, env, blocks, output, depth + 1, diagnostics, source_id, instruction_span),
                        None => {
                            let e = clone_value(true_branch);
                            proof {
                                lemma_value_same_free(e, **true_branch);
                            }
                            Ok(RuntimeValue::Strikethrough(StrikethroughPayload::Lazy(Box::new(e))))
                        },
                    }
                },
            };
            assert(evaluation(*value, *blocks, depth as int, source_id, *instruction_span, s0, (*env, output@, diagnostics@), res));
            res
        },
        Value::Match { value: scrutinee, arms, otherwise } => {
            let rs = evaluate(scrutinee, env, blocks, output, depth + 1, diagnostics, source_id, instruction_span);
            let ghost s2: EvalState = (*env, output@, diagnostics@);
            assert(stepped(s2, rs));
            match rs {
                Ok(val) => evaluate_match(val, arms, otherwise, env, blocks, output, depth + 1, diagnostics, source_id, instruction_span),
                Err(e) => Err(e),
            }
        },
        Value::BlockInvocation(args, block_ref) => {
            let ra = evaluate_arguments(args, env, blocks, output, depth + 1, diagnostics, source_id, instruction_span);
            let ghost s2: EvalState = (*env, output@, diagnostics@);
            assert(values_stepped(s2, values_of(ra)));
            match ra {
                Ok(evaluated) => invoke_block(block_ref, evaluated, env, blocks, output, false, depth + 1, diagnostics),
                Err(e) => Err(e),
            }
        },
        Value::EvaluatedBlockInvocation(args, block_ref) => {
            let ra = evaluate_arguments(args, env, blocks, output, depth + 1, diagnostics, source_id, instruction_span);
            let ghost s2: EvalState = (*env, output@, diagnostics@);
            assert(values_stepped(s2, values_of(ra)));
            match ra {
                Ok(evaluated) => invoke_block(block_ref, evaluated, env, blocks, output, true, depth + 1, diagnostics),
                Err(e) => Err(e),
            }
        },
    };
    assert(evaluation(*value, *blocks, depth as int, source_id, *instruction_span, s_init, (*env, output@, diagnostics@), result));
    result
}

/// The index of the first arm at or after `i` whose pattern matches `v`, or the number of
/// arms when none does.
pub open spec fn first_matching(arms: Seq<(Template, Value)>, v: RuntimeValue, i: int) -> int
    decreases arms.len() - i,
{
    if i < 0 || i >= arms.len() {
        arms.len() as int
    } else if template_matches(arms[i].0, v) {
        i
    } else {
        first_matching(arms, v, i + 1)
    }
}

/// The arm a match chooses is the first whose pattern matches the value: it matches, and no
/// arm before it does; where none matches, the index is the number of arms.
pub proof fn law_first_matching_arm(arms: Seq<(Template, Value)>, v: RuntimeValue, i: int)
    requires
        0 <= i <= arms.len(),
    ensures
        i <= first_matching(arms, v, i) <= arms.len(),
        first_matching(arms, v, i) < arms.len() ==> template_matches(arms[first_matching(arms, v, i)].0, v),
        forall|j: int| i <= j < first_matching(arms, v, i) ==> !template_matches(#[trigger] arms[j].0, v),
    decreases arms.len() - i,
{
    if i < arms.len() && !template_matches(arms[i].0, v) {
        law_first_matching_arm(arms, v, i + 1);
    }
}

/// What a match on `v` gives when the chosen result is a constant expression (see
/// `constant_eval`): the first arm whose pattern matches decides, else the fallback; with
/// neither, an error. `None` when the chosen result is not constant.
pub open spec fn match_outcome(
    arms: Seq<(Template, Value)>,
    otherwise: Option<(Option<String>, Box<Value>)>,
    v: RuntimeValue,
    depth: int,
) -> Option<Option<RuntimeValue>> {
    let k = first_matching(arms, v, 0);
    if k < arms.len() {
        constant_eval(arms[k].1, depth)
    } else {
        match otherwise {
            Some((_, res)) => constant_eval(*res, depth),
            None => Some(None),
        }
    }
}

/// Picks the first arm whose pattern matches the value, binds what the pattern binds and
/// evaluates the arm's result; else the fallback binds the value to its name (if any) and
/// gives its result; with neither, the match is not exhaustive.
fn evaluate_match(
    val: RuntimeValue,
    arms: &Vec<(crate::ast::Template, Value)>,
    otherwise: &Option<(Option<String>, Box<Value>)>,
    env: &mut Environment,
    blocks: &BlockRegistry,
    output: &mut String,
    depth: usize,
    diagnostics: &mut Vec<DiagnosticError>,
    source_id: usize,
    instruction_span: &Range<usize>,
) -> (r: Result<RuntimeValue, DiagnosticError>)
    requires
        old(env).scopes@.len() > 0,
    ensures
        effects_ok(*old(env), *final(env), old(output)@, final(output)@, old(diagnostics)@, final(diagnostics)@, r is Ok),
        (forall|k: int|
            0 <= k < arms@.len() ==> !template_matches(#[trigger] arms@[k].0, val))
            && otherwise is None ==> (r matches Err(e) && e.error is NonExhaustiveMatch),
        match_outcome(arms@, *otherwise, val, depth as int) matches Some(x) ==> match x {
            Some(w) => r == Ok::<RuntimeValue, DiagnosticError>(w),
            None => r is Err,
        },
        match_evaluation(
            arms@,
            *otherwise,
            val,
            *blocks,
            depth as int,
            source_id,
            *instruction_span,
            (*old(env), old(output)@, old(diagnostics)@),
            (*final(env), final(output)@, final(diagnostics)@),
            r,
        ),
        ({
            let k = first_matching(arms@, val, 0);
            let st = store_of(old(env).scopes@);
            let chosen = if 0 <= k < arms@.len() {
                if binds_nothing(arms@[k].0) {
                    env_eval(arms@[k].1, st, depth as int)
                } else {
                    None
                }
            } else {
                match *otherwise {
                    Some((None, res)) => env_eval(*res, st, depth as int),
                    Some(_) => None,
                    None => Some(None),
                }
            };
            chosen matches Some(x) ==> {
                &&& final(env).scopes@ == old(env).scopes@
                &&& final(output)@ == old(output)@
                &&& match x {
                    Some(w) => r == Ok::<RuntimeValue, DiagnosticError>(w),
                    None => r is Err,
                }
            }
        }),
    decreases budget(depth), 2nat, *arms,
{
    let mut i: usize = 0;
    while i < arms.len()
        invariant
            i <= arms.len(),
            first_matching(arms@, val, 0) == first_matching(arms@, val, i as int),
            env.scopes@.len() == old(env).scopes@.len(),
            env.scopes@.len() > 0,
            env.fence_stack@.len() == old(env).fence_stack@.len(),
            output@ == old(output)@,
            diagnostics@ == old(diagnostics)@,
            *env == *old(env),
        decreases arms.len() - i,
    {
        if let Some(bindings) = match_pattern(&arms[i].0, &val) {
            proof {
                assert(first_matching(arms@, val, i as int) == i);
                if binds_nothing(arms@[i as int].0) {
                    assert(bindings@ =~= Seq::<(String, RuntimeValue)>::empty());
                }
            }
            let mut bs = bindings;
            let ghost nothing = binds_nothing(arms@[i as int].0);
            while bs.len() > 0
                invariant
                    nothing ==> bs@.len() == 0 && *env == *old(env),
                    output@ == old(output)@,
                    diagnostics@ == old(diagnostics)@,
                    env.scopes@.len() == old(env).scopes@.len(),
                    env.scopes@.len() > 0,
                    env.fence_stack@.len() == old(env).fence_stack@.len(),
                decreases bs@.len(),
            {
                let (name, bound) = bs.pop().unwrap();
                env.set_variable(name.as_str(), bound);
            }
            let ghost s3: EvalState = (*env, output@, diagnostics@);
            assert(entered(s3));
            return evaluate(&arms[i].1, env, blocks, output, depth, diagnostics, source_id, instruction_span);
        }
        i += 1;
    }
    match otherwise {
        Some((binding, result)) => {
            if let Some(name) = binding {
                env.set_variable(name.as_str(), val);
            }
            let ghost s3: EvalState = (*env, output@, diagnostics@);
            assert(entered(s3));
            evaluate(result, env, blocks, output, depth, diagnostics, source_id, instruction_span)
        },
        None => Err(DiagnosticError::from_error(RuntimeError::NonExhaustiveMatch)),
    }
}

/// The values of an argument list's result, as a sequence.
pub open spec fn values_of(r: Result<Vec<RuntimeValue>, DiagnosticError>) -> Result<Seq<RuntimeValue>, DiagnosticError> {
    match r {
        Ok(v) => Ok(v@),
        Err(e) => Err(e),
    }
}

/// An error in evaluating some of the arguments is the error of them all.
proof fn lemma_arguments_error_spreads(
    args: Seq<Value>,
    blocks: BlockRegistry,
    depth: int,
    source_id: usize,
    ispan: Range<usize>,
    s0: EvalState,
    s1: EvalState,
    e: DiagnosticError,
    i: int,
    j: int,
)
    requires
        0 < i <= j <= args.len(),
        arguments_evaluation(args, i, blocks, depth, source_id, ispan, s0, s1, Err(e)),
    ensures
        arguments_evaluation(args, j, blocks, depth, source_id, ispan, s0, s1, Err(e)),
    decreases j - i,
{
    if i < j {
        lemma_arguments_error_spreads(args, blocks, depth, source_id, ispan, s0, s1, e, i, j - 1);
        assert(values_stepped(s1, Err(e)));
    }
}

/// Evaluates the arguments of an invocation, in order.
fn evaluate_arguments(
    args: &Vec<Value>,
    env: &mut Environment,
    blocks: &BlockRegistry,
    output: &mut String,
    depth: usize,
    diagnostics: &mut Vec<DiagnosticError>,
    source_id: usize,
    instruction_span: &Range<usize>,
) -> (r: Result<Vec<RuntimeValue>, DiagnosticError>)
    requires
        old(env).scopes@.len() > 0,
    ensures
        effects_ok(*old(env), *final(env), old(output)@, final(output)@, old(diagnostics)@, final(diagnostics)@, r is Ok),
        r matches Ok(v) ==> v@.len() == args@.len(),
        arguments_constant(args@, depth as int) ==> (r matches Ok(v) && (forall|k: int|
            0 <= k < v@.len() ==> constant_eval(args@[k], depth as int) == Some(Some(#[trigger] v@[k])))
            && *final(env) == *old(env) && final(output)@ == old(output)@ && final(diagnostics)@ == old(
            diagnostics,
        )@),
        arguments_evaluation(
            args@,
            args@.len() as int,
            *blocks,
            depth as int,
            source_id,
            *instruction_span,
            (*old(env), old(output)@, old(diagnostics)@),
            (*final(env), final(output)@, final(diagnostics)@),
            values_of(r),
        ),
    decreases budget(depth), 2nat, *args,
{
    let mut evaluated: Vec<RuntimeValue> = Vec::new();
    let mut i: usize = 0;
    while i < args.len()
        invariant
            i <= args.len(),
            evaluated@.len() == i,
            arguments_constant(args@, depth as int) ==> (forall|k: int|
                0 <= k < i ==> constant_eval(args@[k], depth as int) == Some(Some(#[trigger] evaluated@[k])))
                && *env == *old(env) && output@ == old(output)@ && diagnostics@ == old(diagnostics)@,
            env.scopes@.len() == old(env).scopes@.len(),
            env.scopes@.len() > 0,
            env.fence_stack@.len() == old(env).fence_stack@.len(),
            extends(old(output)@, output@),
            extends(old(diagnostics)@, diagnostics@),
            arguments_evaluation(
                args@,
                i as int,
                *blocks,
                depth as int,
                source_id,
                *instruction_span,
                (*old(env), old(output)@, old(diagnostics)@),
                (*env, output@, diagnostics@),
                Ok(evaluated@),
            ),
        decreases args.len() - i,
    {
        let ghost sm: EvalState = (*env, output@, diagnostics@);
        let ghost vm = evaluated@;
        let re = evaluate(&args[i], env, blocks, output, depth, diagnostics, source_id, instruction_span);
        let ghost se: EvalState = (*env, output@, diagnostics@);
        assert(stepped(se, re));
        assert(values_stepped(sm, Ok(vm)));
        let v = match re {
            Ok(v) => v,
            Err(e) => {
                proof {
                    assert(arguments_evaluation(args@, i + 1, *blocks, depth as int, source_id, *instruction_span,
                        (*old(env), old(output)@, old(diagnostics)@), se, Err(e)));
                    lemma_arguments_error_spreads(args@, *blocks, depth as int, source_id, *instruction_span,
                        (*old(env), old(output)@, old(diagnostics)@), se, e, i + 1, args@.len() as int);
                }
                return Err(e);
            },
        };
        evaluated.push(v);
        i += 1;
    }
    Ok(evaluated)
}

/// Demands a struck value: an evaluated one gives what it holds, an unevaluated
/// expression or template is evaluated now; any other value is given back.
pub fn demand(
    val: RuntimeValue,
    env: &mut Environment,
    blocks: &BlockRegistry,
    output: &mut String,
    depth: usize,
    diagnostics: &mut Vec<DiagnosticError>,
) -> (r: Result<RuntimeValue, DiagnosticError>)
    requires
        old(env).scopes@.len() > 0 || value_free(val) || depth > MAX_DEPTH,
    ensures
        effects_ok(*old(env), *final(env), old(output)@, final(output)@, old(diagnostics)@, final(diagnostics)@, r is Ok),
        !(val is Strikethrough) ==> r == Ok::<RuntimeValue, DiagnosticError>(val),
        demanded(
            val,
            *blocks,
            depth as int,
            (*old(env), old(output)@, old(diagnostics)@),
            (*final(env), final(output)@, final(diagnostics)@),
            r,
        ),
        val matches RuntimeValue::Strikethrough(StrikethroughPayload::Lazy(e)) ==> (constant_eval(*e, depth as int) matches Some(
            x,
        ) ==> match x {
            Some(w) => r == Ok::<RuntimeValue, DiagnosticError>(w),
            None => r is Err,
        }),
    decreases budget(depth), 4nat, val,
{
    match val {
        RuntimeValue::Strikethrough(StrikethroughPayload::Eager(inner)) => Ok(*inner),
        RuntimeValue::Strikethrough(StrikethroughPayload::Lazy(ast)) => {
            let span = empty_span();
            evaluate(&ast, env, blocks, output, depth, diagnostics, blocks.source_id, &span)
        },
        RuntimeValue::Strikethrough(StrikethroughPayload::Template(ts)) => {
            let span = empty_span();
            evaluate_template_to_value(&ts, env, blocks, output, depth, diagnostics, blocks.source_id, &span)
        },
        other => Ok(other),
    }
}

/// Evaluates a template string to text: literal parts as they are, expressions as the
/// printed text of their values.
pub fn eval_template_string(
    ts: &TemplateString,
    env: &mut Environment,
    blocks: &BlockRegistry,
    output: &mut String,
    depth: usize,
    diagnostics: &mut Vec<DiagnosticError>,
    source_id: usize,
    instruction_span: &Range<usize>,
) -> (r: Result<String, DiagnosticError>)
    requires
        old(env).scopes@.len() > 0 || parts_free(ts.parts@) || depth > MAX_DEPTH,
    ensures
        effects_ok(*old(env), *final(env), old(output)@, final(output)@, old(diagnostics)@, final(diagnostics)@, r is Ok),
        (forall|k: int| 0 <= k < ts.parts@.len() ==> #[trigger] ts.parts@[k] is Literal) ==> (r matches Ok(s)
            && s@ == literal_text(ts.parts@)),
        constant_text(ts.parts@, depth as int) matches Some(t) ==> {
            &&& r matches Ok(s) && s@ == t
            &&& *final(env) == *old(env)
            &&& final(output)@ == old(output)@
            &&& final(diagnostics)@ == old(diagnostics)@
        },
        env_text(ts.parts@, store_of(old(env).scopes@), depth as int) matches Some(t) ==> {
            &&& r matches Ok(s) && s@ == t
            &&& final(env).scopes@ == old(env).scopes@
            &&& final(output)@ == old(output)@
        },
        template_evaluation(
            ts.parts@,
            *blocks,
            depth as int,
            source_id,
            *instruction_span,
            (*old(env), old(output)@, old(diagnostics)@),
            (*final(env), final(output)@, final(diagnostics)@),
            text_of(r),
        ),
    decreases budget(depth), 2nat, *ts,
{
    let mut result = String::new();
    let mut i: usize = 0;
    while i < ts.parts.len()
        invariant
            i <= ts.parts.len(),
            env.scopes@.len() == old(env).scopes@.len(),
            old(env).scopes@.len() > 0 || parts_free(ts.parts@) || depth > MAX_DEPTH,
            env.fence_stack@.len() == old(env).fence_stack@.len(),
            extends(old(output)@, output@),
            extends(old(diagnostics)@, diagnostics@),
            (forall|k: int| 0 <= k < ts.parts@.len() ==> #[trigger] ts.parts@[k] is Literal) ==> result@
                == literal_text(ts.parts@.take(i as int)),
            constant_text(ts.parts@, depth as int) is Some ==> {
                &&& constant_text(ts.parts@.take(i as int), depth as int) == Some(result@)
                &&& *env == *old(env)
                &&& output@ == old(output)@
                &&& diagnostics@ == old(diagnostics)@
            },
            env_text(ts.parts@, store_of(old(env).scopes@), depth as int) is Some ==> {
                &&& env_text(ts.parts@.take(i as int), store_of(old(env).scopes@), depth as int) == Some(result@)
                &&& env.scopes@ == old(env).scopes@
                &&& output@ == old(output)@
            },
            template_evaluation(
                ts.parts@.take(i as int),
                *blocks,
                depth as int,
                source_id,
                *instruction_span,
                (*old(env), old(output)@, old(diagnostics)@),
                (*env, output@, diagnostics@),
                Ok(result@),
            ),
        decreases ts.parts.len() - i,
    {
        let ghost sm: EvalState = (*env, output@, diagnostics@);
        let ghost tm = result@;
        assert(ts.parts@.take(i + 1).drop_last() =~= ts.parts@.take(i as int));
        proof {
            if constant_text(ts.parts@, depth as int) is Some {
                lemma_constant_text_prefix(ts.parts@, depth as int, i + 1);
            }
            if env_text(ts.parts@, store_of(old(env).scopes@), depth as int) is Some {
                lemma_env_text_prefix(ts.parts@, store_of(old(env).scopes@), depth as int, i + 1);
            }
        }
        match &ts.parts[i] {
            TemplateStringPart::Literal(s) => push_str(&mut result, s.as_str()),
            TemplateStringPart::Expression(expr) => {
                proof {
                    if old(env).scopes@.len() == 0 && depth <= MAX_DEPTH {
                        lemma_parts_free_index(ts.parts@, i as int);
                    }
                }
                let re = evaluate(expr, env, blocks, output, depth, diagnostics, source_id, instruction_span);
                let ghost se: EvalState = (*env, output@, diagnostics@);
                assert(stepped(se, re));
                assert(text_stepped(sm, Ok(tm)));
                let val = match re {
                    Ok(v) => v,
                    Err(e) => {
                        proof {
                            assert(template_evaluation(ts.parts@.take(i + 1), *blocks, depth as int, source_id, *instruction_span,
                                (*old(env), old(output)@, old(diagnostics)@), se, Err(e)));
                            lemma_template_error_spreads(ts.parts@, *blocks, depth as int, source_id, *instruction_span,
                                (*old(env), old(output)@, old(diagnostics)@), se, e, i + 1, ts.parts@.len() as int);
                            assert(ts.parts@.take(ts.parts@.len() as int) =~= ts.parts@);
                        }
                        return Err(e);
                    },
                };
                let t = val.to_text();
                push_str(&mut result, t.as_str());
            },
        }
        proof {
            assert(text_stepped(sm, Ok(tm)));
        }
        i += 1;
    }
    assert(ts.parts@.take(ts.parts@.len() as int) =~= ts.parts@);
    Ok(result)
}

/// The text of a template whose expressions are all constant (see `constant_eval`) and
/// evaluate without error at depth `depth`: literal parts as they are, expressions as the
/// printed text of their values; `None` otherwise.
pub open spec fn constant_text(parts: Seq<TemplateStringPart>, depth: int) -> Option<Seq<char>>
    decreases parts.len(),
{
    if parts.len() == 0 {
        Some(seq![])
    } else {
        match constant_text(parts.drop_last(), depth) {
            Some(t) => match parts.last() {
                TemplateStringPart::Literal(s) => Some(t + s@),
                TemplateStringPart::Expression(e) => match constant_eval(e, depth) {
                    Some(Some(v)) => Some(t + value_text(v)),
                    _ => None,
                },
            },
            None => None,
        }
    }
}

/// The text of two templates one after the other is the text of the first followed by the
/// text of the second; where either has no text (an expression that is not constant or
/// fails), neither has the whole.
pub proof fn law_template_text_concatenates(p1: Seq<TemplateStringPart>, p2: Seq<TemplateStringPart>, depth: int)
    ensures
        constant_text(p1 + p2, depth) == match (constant_text(p1, depth), constant_text(p2, depth)) {
            (Some(a), Some(b)) => Some(a + b),
            _ => None::<Seq<char>>,
        },
    decreases p2.len(),
{
    if p2.len() == 0 {
        assert(p1 + p2 =~= p1);
        if let Some(a) = constant_text(p1, depth) {
            assert(a + seq![] =~= a);
        }
    } else {
        law_template_text_concatenates(p1, p2.drop_last(), depth);
        assert((p1 + p2).drop_last() =~= p1 + p2.drop_last());
        assert((p1 + p2).last() == p2.last());
        if let (Some(a), Some(b)) = (constant_text(p1, depth), constant_text(p2.drop_last(), depth)) {
            match p2.last() {
                TemplateStringPart::Literal(s) => {
                    assert(a + b + s@ =~= a + (b + s@));
                },
                TemplateStringPart::Expression(e) => {
                    if let Some(Some(v)) = constant_eval(e, depth) {
                        assert(a + b + value_text(v) =~= a + (b + value_text(v)));
                    }
                },
            }
        }
    }
}

/// The text of a template whose expressions are all over literals and variables (see
/// `env_eval`) and evaluate without error with the variables `store`: literal parts as
/// they are, expressions as the printed text of their values; `None` otherwise.
pub open spec fn env_text(parts: Seq<TemplateStringPart>, store: Map<Seq<char>, Option<RuntimeValue>>, depth: int) -> Option<Seq<char>>
    decreases parts.len(),
{
    if parts.len() == 0 {
        Some(seq![])
    } else {
        match env_text(parts.drop_last(), store, depth) {
            Some(t) => match parts.last() {
                TemplateStringPart::Literal(s) => Some(t + s@),
                TemplateStringPart::Expression(e) => match env_eval(e, store, depth) {
                    Some(Some(v)) => Some(t + value_text(v)),
                    _ => None,
                },
            },
            None => None,
        }
    }
}

proof fn lemma_env_text_prefix(parts: Seq<TemplateStringPart>, store: Map<Seq<char>, Option<RuntimeValue>>, depth: int, i: int)
    requires
        0 <= i <= parts.len(),
        env_text(parts, store, depth) is Some,
    ensures
        env_text(parts.take(i), store, depth) is Some,
    decreases parts.len(),
{
    if i < parts.len() {
        assert(parts.drop_last().take(i) =~= parts.take(i));
        lemma_env_text_prefix(parts.drop_last(), store, depth, i);
    } else {
        assert(parts.take(i) =~= parts);
    }
}

/// A template whose text is constant has a constant text on every prefix.
proof fn lemma_constant_text_prefix(parts: Seq<TemplateStringPart>, depth: int, i: int)
    requires
        0 <= i <= parts.len(),
        constant_text(parts, depth) is Some,
    ensures
        constant_text(parts.take(i), depth) is Some,
    decreases parts.len(),
{
    if i < parts.len() {
        assert(parts.drop_last().take(i) =~= parts.take(i));
        lemma_constant_text_prefix(parts.drop_last(), depth, i);
    } else {
        assert(parts.take(i) =~= parts);
    }
}

/// The literal parts of a template, one after another.
pub open spec fn literal_text(parts: Seq<TemplateStringPart>) -> Seq<char>
    decreases parts.len(),
{
    if parts.len() == 0 {
        seq![]
    } else {
        literal_text(parts.drop_last()) + match parts.last() {
            TemplateStringPart::Literal(s) => s@,
            TemplateStringPart::Expression(_) => seq![],
        }
    }
}

/// Evaluates a template to a value: a template that is a single expression gives that
/// expression's value; any other gives the text of its parts as a string.
pub fn evaluate_template_to_value(
    ts: &TemplateString,
    env: &mut Environment,
    blocks: &BlockRegistry,
    output: &mut String,
    depth: usize,
    diagnostics: &mut Vec<DiagnosticError>,
    source_id: usize,
    instruction_span: &Range<usize>,
) -> (r: Result<RuntimeValue, DiagnosticError>)
    requires
        old(env).scopes@.len() > 0 || parts_free(ts.parts@) || depth > MAX_DEPTH,
    ensures
        parts_free(ts.parts@) && old(env).scopes@.len() == 0 ==> (r matches Ok(w) ==> value_free(w)),
        effects_ok(*old(env), *final(env), old(output)@, final(output)@, old(diagnostics)@, final(diagnostics)@, r is Ok),
        !(ts.parts@.len() == 1 && ts.parts@[0] is Expression) ==> (r is Ok ==> r matches Ok(RuntimeValue::String(_))),
        !(ts.parts@.len() == 1 && ts.parts@[0] is Expression) ==> (constant_text(ts.parts@, depth as int) matches Some(t)
            ==> {
            &&& r matches Ok(RuntimeValue::String(s)) && s@ == t
            &&& *final(env) == *old(env)
            &&& final(output)@ == old(output)@
            &&& final(diagnostics)@ == old(diagnostics)@
        }),
        ts.parts@.len() == 1 ==> (ts.parts@[0] matches TemplateStringPart::Expression(e) ==> (constant_eval(
            e,
            depth as int,
        ) matches Some(x) ==> {
            &&& *final(env) == *old(env)
            &&& final(output)@ == old(output)@
            &&& final(diagnostics)@ == old(diagnostics)@
            &&& match x {
                Some(w) => r == Ok::<RuntimeValue, DiagnosticError>(w),
                None => r is Err,
            }
        })),
        template_value(
            ts.parts@,
            *blocks,
            depth as int,
            source_id,
            *instruction_span,
            (*old(env), old(output)@, old(diagnostics)@),
            (*final(env), final(output)@, final(diagnostics)@),
            r,
        ),
    decreases budget(depth), 3nat, *ts,
{
    if ts.parts.len() == 1 {
        if let TemplateStringPart::Expression(expr) = &ts.parts[0] {
            proof {
                if parts_free(ts.parts@) {
                    lemma_parts_free_index(ts.parts@, 0);
                }
            }
            return evaluate(expr, env, blocks, output, depth, diagnostics, source_id, instruction_span);
        }
    }
    let rt = eval_template_string(ts, env, blocks, output, depth, diagnostics, source_id, instruction_span);
    let ghost s2: EvalState = (*env, output@, diagnostics@);
    assert(text_stepped(s2, text_of(rt)));
    match rt {
        Ok(s) => Ok(RuntimeValue::String(s)),
        Err(e) => Err(e),
    }
}

// ---------------------------------------------------------------------------
// Blocks
// ---------------------------------------------------------------------------

/// How invoking a block through `block_ref` fails before the block runs: a local block
/// that the registry does not have, an imported block that the loaded file does not
/// have, an import whose file failed to load or was not loaded, and any remote import.
pub open spec fn reference_failure(
    block_ref: BlockReference,
    registry: BlockRegistry,
    r: Result<RuntimeValue, DiagnosticError>,
) -> bool {
    match block_ref {
        BlockReference::Local(n) => lookup(registry.blocks@, n@) is None ==> (r matches Err(e)
            && e.error matches RuntimeError::UndefinedBlock(m) && m@ == n@),
        BlockReference::LocalImport { path, block } => match lookup(registry.import_cache@, path@) {
            Some(Ok(bs)) => lookup(bs@, block@) is None ==> (r matches Err(e)
                && e.error matches RuntimeError::UndefinedBlock(m) && m@ == path@ + seq!['#'] + block@),
            Some(Err(x)) => r matches Err(e) && error_text(e.error) == error_text(x),
            None => r matches Err(e) && e.error matches RuntimeError::IoError(m) && m@ == "cannot resolve '"@
                + path@ + "': the file was not loaded"@,
        },
        BlockReference::RemoteImport { url, .. } => r matches Err(e)
            && e.error matches RuntimeError::ImportNotImplemented(u) && u@ == url@,
    }
}

/// The block that a reference names, where the registry (or the loaded import) has it.
pub open spec fn found_block(block_ref: BlockReference, registry: BlockRegistry) -> Option<Block> {
    match block_ref {
        BlockReference::Local(n) => lookup(registry.blocks@, n@),
        BlockReference::LocalImport { path, block } => match lookup(registry.import_cache@, path@) {
            Some(Ok(bs)) => lookup(bs@, block@),
            _ => None,
        },
        BlockReference::RemoteImport { .. } => None,
    }
}

/// A body that unwraps to a value that is no Document: one paragraph of one text, or
/// one table.
pub open spec fn body_scalar(nodes: Seq<DocumentNode>) -> bool {
    nodes.len() == 1 && match nodes[0] {
        DocumentNode::Paragraph(inl) => single_text(inl@) is Some,
        DocumentNode::Table { .. } => true,
        _ => false,
    }
}

/// What invoking a block that the registry has gives: a block with no chain gives its
/// body unwrapped (unless that is a Document to be evaluated) and prints nothing; a block
/// whose chain only prints constant templates gives unit and prints their texts.
pub open spec fn found_outcome(
    block_ref: BlockReference,
    registry: BlockRegistry,
    evaluate_result: bool,
    depth: int,
    r: Result<RuntimeValue, DiagnosticError>,
    out0: Seq<char>,
    out1: Seq<char>,
    diags0: Seq<DiagnosticError>,
    diags1: Seq<DiagnosticError>,
) -> bool {
    found_block(block_ref, registry) matches Some(b) ==> {
        &&& (b.chain.groups@.len() == 0 && (!evaluate_result || body_scalar(b.body.nodes@))) ==> (r matches Ok(v)
            && unwrapped(b.body.nodes@, v) && out1 == out0 && diags1 == diags0)
        &&& b.chain.groups@.len() > 0 ==> (chain_prints(b.chain.groups@, depth + 1) matches Some(x) ==> {
            &&& r == Ok::<RuntimeValue, DiagnosticError>(RuntimeValue::Unit)
            &&& out1 == out0 + x
            &&& diags1 == diags0
        })
    }
}

/// Every argument is a constant expression that evaluates without error.
pub open spec fn arguments_constant(args: Seq<Value>, depth: int) -> bool {
    forall|k: int| 0 <= k < args.len() ==> constant_eval(#[trigger] args[k], depth) matches Some(Some(_))
}

/// Invokes a block by reference with evaluated arguments; with `evaluate_result` a
/// Document that the block gives is itself evaluated.
pub fn invoke_block(
    block_ref: &BlockReference,
    arguments: Vec<RuntimeValue>,
    env: &mut Environment,
    registry: &BlockRegistry,
    output: &mut String,
    evaluate_result: bool,
    depth: usize,
    diagnostics: &mut Vec<DiagnosticError>,
) -> (r: Result<RuntimeValue, DiagnosticError>)
    requires
        old(env).scopes@.len() > 0 || !evaluate_result || depth > MAX_DEPTH,
    ensures
        effects_ok(*old(env), *final(env), old(output)@, final(output)@, old(diagnostics)@, final(diagnostics)@, r is Ok),
        depth > MAX_DEPTH ==> (r matches Err(e) && e.error is StackOverflow && e.span is None && !e.is_warning),
        depth > MAX_DEPTH || found_block(*block_ref, *registry) is None ==> {
            &&& *final(env) == *old(env)
            &&& final(output)@ == old(output)@
            &&& final(diagnostics)@ == old(diagnostics)@
        },
        depth <= MAX_DEPTH ==> reference_failure(*block_ref, *registry, r),
        depth <= MAX_DEPTH ==> found_outcome(
            *block_ref,
            *registry,
            evaluate_result,
            depth as int,
            r,
            old(output)@,
            final(output)@,
            old(diagnostics)@,
            final(diagnostics)@,
        ),
        invocation(
            *block_ref,
            arguments@,
            *registry,
            evaluate_result,
            depth as int,
            (*old(env), old(output)@, old(diagnostics)@),
            (*final(env), final(output)@, final(diagnostics)@),
            r,
        ),
    decreases budget(depth), 5nat, *block_ref,
{
    let block_name = block_ref.block_name();
    if depth > MAX_DEPTH {
        return Err(DiagnosticError::from_error(RuntimeError::StackOverflow));
    }
    let block: &Block = match block_ref {
        BlockReference::Local(_) => match registry.get(block_name) {
            Some(b) => b,
            None => {
                return Err(DiagnosticError::from_error(RuntimeError::UndefinedBlock(block_name.to_owned())));
            },
        },
        BlockReference::LocalImport { path, .. } => match registry.get_imported(path.as_str(), block_name) {
            Ok(b) => b,
            Err(e) => {
                return Err(DiagnosticError::from_error(e));
            },
        },
        BlockReference::RemoteImport { url, .. } => {
            return Err(DiagnosticError::from_error(RuntimeError::ImportNotImplemented(url.clone())));
        },
    };
    assert(found_block(*block_ref, *registry) matches Some(b) ==> *block == b);
    let rb = execute_block(block, arguments, env, registry, output, depth + 1, diagnostics);
    let ghost sb: EvalState = (*env, output@, diagnostics@);
    assert(stepped(sb, rb));
    let result = match rb {
        Ok(v) => v,
        Err(e) => {
            return Err(e);
        },
    };
    proof {
        if block.chain.groups@.len() == 0 && body_scalar(block.body.nodes@) {
            assert(!(result is Document));
        }
    }
    if evaluate_result {
        match result {
            RuntimeValue::Document(doc) => evaluate_document(&doc, env, registry, output, depth + 1, diagnostics),
            other => Ok(other),
        }
    } else {
        Ok(result)
    }
}

/// Evaluates a Document as markdownlang: each inline of each paragraph in turn (the last
/// one's value counts), and any other node gives itself as a Document.
pub fn evaluate_document(
    doc: &Document,
    env: &mut Environment,
    registry: &BlockRegistry,
    output: &mut String,
    depth: usize,
    diagnostics: &mut Vec<DiagnosticError>,
) -> (r: Result<RuntimeValue, DiagnosticError>)
    requires
        old(env).scopes@.len() > 0 || forall|k: int| 0 <= k < doc.nodes@.len() ==> quiet_node(#[trigger] doc.nodes@[k]),
    ensures
        effects_ok(*old(env), *final(env), old(output)@, final(output)@, old(diagnostics)@, final(diagnostics)@, r is Ok),
        doc.nodes@.len() == 0 ==> (r matches Ok(RuntimeValue::Unit)),
        doc.nodes@.len() > 0 && !(doc.nodes@.last() is Paragraph) ==> (r is Ok ==> (r matches Ok(
            RuntimeValue::Document(d),
        ) && d.nodes@.len() == 1 && node_same(d.nodes@[0], doc.nodes@.last()))),
        doc.nodes@.len() > 0 ==> (doc.nodes@.last() matches DocumentNode::Paragraph(inl) ==> (inl@.len() > 0 && r is Ok
            ==> inline_outcome(inl@.last(), r))),
        (forall|k: int| 0 <= k < doc.nodes@.len() ==> quiet_node(#[trigger] doc.nodes@[k])) ==> {
            &&& r is Ok
            &&& *final(env) == *old(env)
            &&& final(output)@ == old(output)@
            &&& final(diagnostics)@ == old(diagnostics)@
        },
    decreases budget(depth), 7nat, *doc,
{
    let mut last = RuntimeValue::Unit;
    let mut k: usize = 0;
    while k < doc.nodes.len()
        invariant
            k <= doc.nodes.len(),
            env.scopes@.len() == old(env).scopes@.len(),
            old(env).scopes@.len() > 0 || forall|q: int| 0 <= q < doc.nodes@.len() ==> quiet_node(#[trigger] doc.nodes@[q]),
            env.fence_stack@.len() == old(env).fence_stack@.len(),
            extends(old(output)@, output@),
            extends(old(diagnostics)@, diagnostics@),
            k == 0 ==> last is Unit,
            k > 0 && !(doc.nodes@[k - 1] is Paragraph) ==> (last matches RuntimeValue::Document(d)
                && d.nodes@.len() == 1 && node_same(d.nodes@[0], doc.nodes@[k - 1])),
            k > 0 ==> (doc.nodes@[k - 1] matches DocumentNode::Paragraph(inl) ==> (inl@.len() > 0 ==> inline_outcome(
                inl@.last(),
                Ok::<RuntimeValue, DiagnosticError>(last),
            ))),
            (forall|j: int| 0 <= j < k ==> quiet_node(#[trigger] doc.nodes@[j])) ==> {
                &&& *env == *old(env)
                &&& output@ == old(output)@
                &&& diagnostics@ == old(diagnostics)@
            },
        decreases doc.nodes.len() - k,
    {
        proof {
            if forall|j: int| 0 <= j < k + 1 ==> quiet_node(#[trigger] doc.nodes@[j]) {
                assert forall|j: int| 0 <= j < k implies quiet_node(#[trigger] doc.nodes@[j]) by {
                    assert(quiet_node(doc.nodes@[j]));
                }
                assert(quiet_node(doc.nodes@[k as int]));
            }
        }
        match &doc.nodes[k] {
            DocumentNode::Paragraph(inlines) => {
                let v = evaluate_inlines(inlines, env, registry, output, depth, diagnostics)?;
                if inlines.len() > 0 {
                    last = v;
                }
            },
            node => {
                let mut nodes = Vec::new();
                nodes.push(clone_node(node));
                last = RuntimeValue::Document(Document { nodes });
            },
        }
        k += 1;
    }
    Ok(last)
}

/// What evaluating an inline node gives when it succeeds, as far as it does not depend
/// on the environment: a text gives its text as a string, bold and the quiet nodes give
/// unit, a struck span gives its eager value.
pub open spec fn inline_outcome(n: InlineNode, r: Result<RuntimeValue, DiagnosticError>) -> bool {
    match n {
        InlineNode::Text(s) => r matches Ok(RuntimeValue::String(t)) && t@ == s@,
        InlineNode::Strikethrough(_) => r matches Ok(RuntimeValue::Strikethrough(StrikethroughPayload::Eager(_))),
        InlineNode::Link { .. } => r is Ok,
        InlineNode::Image { .. } => r is Ok,
        _ => r matches Ok(RuntimeValue::Unit),
    }
}

/// A node whose evaluation reads and changes nothing: any node but a paragraph, or a
/// paragraph of quiet inline nodes.
pub open spec fn quiet_node(n: DocumentNode) -> bool {
    match n {
        DocumentNode::Paragraph(inl) => forall|k: int| 0 <= k < inl@.len() ==> quiet_inline(#[trigger] inl@[k]),
        _ => true,
    }
}

/// An inline node whose evaluation reads and changes nothing: text, inline code, breaks
/// and emphasis.
pub open spec fn quiet_inline(n: InlineNode) -> bool {
    n is Text || n is CodeSpan || n is SoftBreak || n is HardBreak || n is Emphasis
}

/// Evaluates inline nodes in turn, giving the last one's value (unit for none).
fn evaluate_inlines(
    inlines: &Vec<InlineNode>,
    env: &mut Environment,
    registry: &BlockRegistry,
    output: &mut String,
    depth: usize,
    diagnostics: &mut Vec<DiagnosticError>,
) -> (r: Result<RuntimeValue, DiagnosticError>)
    requires
        old(env).scopes@.len() > 0 || forall|k: int| 0 <= k < inlines@.len() ==> quiet_inline(#[trigger] inlines@[k]),
    ensures
        effects_ok(*old(env), *final(env), old(output)@, final(output)@, old(diagnostics)@, final(diagnostics)@, r is Ok),
        inlines@.len() == 0 ==> r == Ok::<RuntimeValue, DiagnosticError>(RuntimeValue::Unit),
        inlines@.len() > 0 && r is Ok ==> inline_outcome(inlines@.last(), r),
        (forall|k: int| 0 <= k < inlines@.len() ==> quiet_inline(#[trigger] inlines@[k])) ==> {
            &&& r is Ok
            &&& *final(env) == *old(env)
            &&& final(output)@ == old(output)@
            &&& final(diagnostics)@ == old(diagnostics)@
        },
    decreases budget(depth), 6nat, *inlines,
{
    let mut last = RuntimeValue::Unit;
    let mut j: usize = 0;
    while j < inlines.len()
        invariant
            j <= inlines.len(),
            env.scopes@.len() == old(env).scopes@.len(),
            old(env).scopes@.len() > 0 || forall|q: int| 0 <= q < inlines@.len() ==> quiet_inline(#[trigger] inlines@[q]),
            env.fence_stack@.len() == old(env).fence_stack@.len(),
            extends(old(output)@, output@),
            extends(old(diagnostics)@, diagnostics@),
            j == 0 ==> last is Unit,
            j > 0 ==> inline_outcome(inlines@[j - 1], Ok::<RuntimeValue, DiagnosticError>(last)),
            (forall|k: int| 0 <= k < j ==> quiet_inline(#[trigger] inlines@[k])) ==> {
                &&& *env == *old(env)
                &&& output@ == old(output)@
                &&& diagnostics@ == old(diagnostics)@
            },
        decreases inlines.len() - j,
    {
        proof {
            vstd::std_specs::vec::axiom_vec_index_decreases(*inlines, j as int);
        }
        let ghost env_before = *env;
        let ghost out_before = output@;
        let ghost diags_before = diagnostics@;
        last = evaluate_inline(&inlines[j], env, registry, output, depth, diagnostics)?;
        proof {
            if forall|k: int| 0 <= k < j + 1 ==> quiet_inline(#[trigger] inlines@[k]) {
                assert(quiet_inline(inlines@[j as int]));
                assert forall|k: int| 0 <= k < j implies quiet_inline(#[trigger] inlines@[k]) by {
                    assert(quiet_inline(inlines@[k]));
                }
            }
        }
        j += 1;
    }
    Ok(last)
}

/// Inline nodes that are all plain texts with no `{`.
pub open spec fn plain_texts(s: Seq<InlineNode>) -> bool {
    forall|k: int| 0 <= k < s.len() ==> (#[trigger] s[k] matches InlineNode::Text(t) && !t@.contains('{'))
}

/// The texts of plain text nodes, one after another.
pub open spec fn texts_joined(s: Seq<InlineNode>) -> Seq<char>
    decreases s.len(),
{
    if s.len() == 0 {
        seq![]
    } else {
        texts_joined(s.drop_last()) + match s.last() {
            InlineNode::Text(t) => t@,
            _ => seq![],
        }
    }
}

/// The printed text of the children of a bold node: a text with `{expr}` is evaluated as
/// a template (and kept as it is when it does not parse); other children are evaluated.
fn strong_text(
    children: &Vec<InlineNode>,
    env: &mut Environment,
    registry: &BlockRegistry,
    output: &mut String,
    depth: usize,
    diagnostics: &mut Vec<DiagnosticError>,
) -> (r: Result<String, DiagnosticError>)
    requires
        old(env).scopes@.len() > 0,
    ensures
        effects_ok(*old(env), *final(env), old(output)@, final(output)@, old(diagnostics)@, final(diagnostics)@, r is Ok),
        plain_texts(children@) ==> {
            &&& r matches Ok(t) && t@ == texts_joined(children@)
            &&& *final(env) == *old(env)
            &&& final(output)@ == old(output)@
            &&& final(diagnostics)@ == old(diagnostics)@
        },
    decreases budget(depth), 6nat, *children,
{
    let mut text = String::new();
    let mut k: usize = 0;
    while k < children.len()
        invariant
            k <= children.len(),
            plain_texts(children@) ==> {
                &&& text@ == texts_joined(children@.take(k as int))
                &&& *env == *old(env)
                &&& output@ == old(output)@
                &&& diagnostics@ == old(diagnostics)@
            },
            env.scopes@.len() == old(env).scopes@.len(),
            env.scopes@.len() > 0,
            env.fence_stack@.len() == old(env).fence_stack@.len(),
            extends(old(output)@, output@),
            extends(old(diagnostics)@, diagnostics@),
        decreases children.len() - k,
    {
        proof {
            vstd::std_specs::vec::axiom_vec_index_decreases(*children, k as int);
        }
        proof {
            assert(children@.take(k + 1).drop_last() =~= children@.take(k as int));
            if plain_texts(children@) {
                assert(children@[k as int] is Text);
            }
        }
        let child = &children[k];
        let templated = match child {
            InlineNode::Text(s) => contains_brace(s.as_str()),
            _ => false,
        };
        if templated {
            if let InlineNode::Text(s) = child {
                let source_id = registry.source_id;
                match parse_text_template(s.as_str(), source_id) {
                    Ok(ts) => {
                        let span = empty_span();
                        let v = eval_template_string(&ts, env, registry, output, depth, diagnostics, source_id, &span)?;
                        push_str(&mut text, v.as_str());
                    },
                    Err(_) => push_str(&mut text, s.as_str()),
                }
            }
        } else {
            let val = evaluate_inline(child, env, registry, output, depth, diagnostics)?;
            let t = val.to_text();
            push_str(&mut text, t.as_str());
        }
        k += 1;
    }
    proof {
        assert(children@.take(children@.len() as int) =~= children@);
    }
    Ok(text)
}

/// Evaluates an inline node of a Document: text is a string, bold prints, strikethrough
/// is a struck value of what its children give, a link invokes a block and an image
/// invokes and evaluates one; anything else is unit.
fn evaluate_inline(
    inline: &InlineNode,
    env: &mut Environment,
    registry: &BlockRegistry,
    output: &mut String,
    depth: usize,
    diagnostics: &mut Vec<DiagnosticError>,
) -> (r: Result<RuntimeValue, DiagnosticError>)
    requires
        old(env).scopes@.len() > 0 || quiet_inline(*inline),
    ensures
        effects_ok(*old(env), *final(env), old(output)@, final(output)@, old(diagnostics)@, final(diagnostics)@, r is Ok),
        inline matches InlineNode::Text(s) ==> (r matches Ok(RuntimeValue::String(t)) && t@ == s@
            && *final(env) == *old(env) && final(output)@ == old(output)@ && final(diagnostics)@ == old(
            diagnostics,
        )@),
        *inline is Strong ==> (r is Ok ==> (r matches Ok(RuntimeValue::Unit) && final(output)@.len() > 0
            && final(output)@.last() == '\n')),
        inline matches InlineNode::Strong(c) ==> (plain_texts(c@) ==> {
            &&& r == Ok::<RuntimeValue, DiagnosticError>(RuntimeValue::Unit)
            &&& final(output)@ == old(output)@ + texts_joined(c@) + seq!['\n']
            &&& *final(env) == *old(env)
            &&& final(diagnostics)@ == old(diagnostics)@
        }),
        *inline is Strikethrough ==> (r is Ok ==> r matches Ok(
            RuntimeValue::Strikethrough(StrikethroughPayload::Eager(_)),
        )),
        inline matches InlineNode::Link { dest, .. } ==> exists|br: BlockReference|
            #[trigger] reference_of(br, dest@) && (depth > MAX_DEPTH ==> (r matches Err(e) && e.error is StackOverflow))
                && (depth <= MAX_DEPTH ==> reference_failure(br, *registry, r)) && (depth <= MAX_DEPTH ==> found_outcome(
                br,
                *registry,
                false,
                depth as int,
                r,
                old(output)@,
                final(output)@,
                old(diagnostics)@,
                final(diagnostics)@,
            )) && invocation(
                br,
                seq![],
                *registry,
                false,
                depth as int,
                (*old(env), old(output)@, old(diagnostics)@),
                (*final(env), final(output)@, final(diagnostics)@),
                r,
            ),
        inline matches InlineNode::Image { dest, .. } ==> exists|br: BlockReference|
            #[trigger] reference_of(br, dest@) && (depth > MAX_DEPTH ==> (r matches Err(e) && e.error is StackOverflow))
                && (depth <= MAX_DEPTH ==> reference_failure(br, *registry, r)) && (depth <= MAX_DEPTH ==> found_outcome(
                br,
                *registry,
                true,
                depth as int,
                r,
                old(output)@,
                final(output)@,
                old(diagnostics)@,
                final(diagnostics)@,
            )) && invocation(
                br,
                seq![],
                *registry,
                true,
                depth as int,
                (*old(env), old(output)@, old(diagnostics)@),
                (*final(env), final(output)@, final(diagnostics)@),
                r,
            ),
        (*inline is CodeSpan || *inline is SoftBreak || *inline is HardBreak || *inline is Emphasis) ==> {
            &&& r == Ok::<RuntimeValue, DiagnosticError>(RuntimeValue::Unit)
            &&& *final(env) == *old(env)
            &&& final(output)@ == old(output)@
            &&& final(diagnostics)@ == old(diagnostics)@
        },
    decreases budget(depth), 6nat, *inline,
{
    match inline {
        InlineNode::Text(s) => Ok(RuntimeValue::String(s.clone())),
        InlineNode::Strong(children) => {
            let text = strong_text(children, env, registry, output, depth, diagnostics)?;
            push_str(output, text.as_str());
            push_char(output, '\n');
            Ok(RuntimeValue::Unit)
        },
        InlineNode::Strikethrough(children) => {
            let inner = evaluate_inlines(children, env, registry, output, depth, diagnostics)?;
            Ok(RuntimeValue::Strikethrough(StrikethroughPayload::Eager(Box::new(inner))))
        },
        InlineNode::Link { dest, .. } => {
            let block_ref = parse_runtime_block_ref(dest.as_str());
            let r = invoke_block(&block_ref, Vec::new(), env, registry, output, false, depth, diagnostics);
            assert(reference_of(block_ref, dest@) && (depth > MAX_DEPTH ==> (r matches Err(e) && e.error is StackOverflow))
                && (depth <= MAX_DEPTH ==> reference_failure(block_ref, *registry, r)) && (depth <= MAX_DEPTH
                ==> found_outcome(
                block_ref,
                *registry,
                false,
                depth as int,
                r,
                old(output)@,
                output@,
                old(diagnostics)@,
                diagnostics@,
            )) && invocation(
                block_ref,
                seq![],
                *registry,
                false,
                depth as int,
                (*old(env), old(output)@, old(diagnostics)@),
                (*env, output@, diagnostics@),
                r,
            ));
            r
        },
        InlineNode::Image { dest, .. } => {
            let block_ref = parse_runtime_block_ref(dest.as_str());
            let r = invoke_block(&block_ref, Vec::new(), env, registry, output, true, depth, diagnostics);
            assert(reference_of(block_ref, dest@) && (depth > MAX_DEPTH ==> (r matches Err(e) && e.error is StackOverflow))
                && (depth <= MAX_DEPTH ==> reference_failure(block_ref, *registry, r)) && (depth <= MAX_DEPTH
                ==> found_outcome(
                block_ref,
                *registry,
                true,
                depth as int,
                r,
                old(output)@,
                output@,
                old(diagnostics)@,
                diagnostics@,
            )) && invocation(
                block_ref,
                seq![],
                *registry,
                true,
                depth as int,
                (*old(env), old(output)@, old(diagnostics)@),
                (*env, output@, diagnostics@),
                r,
            ));
            r
        },
        _ => Ok(RuntimeValue::Unit),
    }
}

/// `name` is one of `names`.
pub open spec fn names_have(names: Seq<String>, name: Seq<char>) -> bool {
    exists|i: int| 0 <= i < names.len() && (#[trigger] names[i])@ == name
}

proof fn lemma_names_push(names: Seq<String>, x: String, name: Seq<char>)
    requires
        names_have(names, name),
    ensures
        names_have(names.push(x), name),
{
    let i = choose|i: int| 0 <= i < names.len() && (#[trigger] names[i])@ == name;
    assert(names.push(x)[i] == names[i]);
}

/// The variable an instruction assigns, if it is an assignment.
pub open spec fn assigned(i: Instruction) -> Option<Seq<char>> {
    match i {
        Instruction::Assignment { variable, .. } => Some(variable@),
        _ => None,
    }
}

/// Some instruction of the fence groups assigns the variable `n`.
pub open spec fn is_assigned(groups: Seq<FenceGroup>, n: Seq<char>) -> bool {
    exists|g: int, k: int|
        0 <= g < groups.len() && 0 <= k < groups[g].instructions@.len() && #[trigger] assigned(
            groups[g].instructions@[k],
        ) == Some(n)
}

/// The variables assigned in a chain, each once, in the order of their first assignment.
pub fn collect_hoisted_variables(chain: &Chain) -> (r: Vec<String>)
    ensures
        forall|i: int, j: int| 0 <= i < j < r@.len() ==> r@[i]@ != r@[j]@,
        forall|i: int| 0 <= i < r@.len() ==> is_assigned(chain.groups@, (#[trigger] r@[i])@),
        forall|g: int, k: int|
            0 <= g < chain.groups@.len() && 0 <= k < chain.groups@[g].instructions@.len()
                && #[trigger] assigned(chain.groups@[g].instructions@[k]) is Some
                ==> names_have(r@, assigned(chain.groups@[g].instructions@[k]).unwrap()),
{
    let mut vars: Vec<String> = Vec::new();
    let mut g: usize = 0;
    while g < chain.groups.len()
        invariant
            g <= chain.groups.len(),
            forall|i: int, j: int| 0 <= i < j < vars@.len() ==> vars@[i]@ != vars@[j]@,
            forall|i: int| 0 <= i < vars@.len() ==> is_assigned(chain.groups@, (#[trigger] vars@[i])@),
            forall|g2: int, k2: int|
                0 <= g2 < g && 0 <= k2 < chain.groups@[g2].instructions@.len()
                    && #[trigger] assigned(chain.groups@[g2].instructions@[k2]) is Some
                    ==> names_have(vars@, assigned(chain.groups@[g2].instructions@[k2]).unwrap()),
        decreases chain.groups.len() - g,
    {
        let group = &chain.groups[g];
        let mut k: usize = 0;
        while k < group.instructions.len()
            invariant
                g < chain.groups.len(),
                *group == chain.groups@[g as int],
                k <= group.instructions.len(),
                forall|i: int, j: int| 0 <= i < j < vars@.len() ==> vars@[i]@ != vars@[j]@,
                forall|i: int| 0 <= i < vars@.len() ==> is_assigned(chain.groups@, (#[trigger] vars@[i])@),
                forall|g2: int, k2: int|
                    0 <= g2 < g && 0 <= k2 < chain.groups@[g2].instructions@.len()
                        && #[trigger] assigned(chain.groups@[g2].instructions@[k2]) is Some
                        ==> names_have(vars@, assigned(chain.groups@[g2].instructions@[k2]).unwrap()),
                forall|k2: int|
                    0 <= k2 < k && #[trigger] assigned(group.instructions@[k2]) is Some
                        ==> names_have(vars@, assigned(group.instructions@[k2]).unwrap()),
            decreases group.instructions.len() - k,
        {
            if let Instruction::Assignment { variable, .. } = &group.instructions[k] {
                if !contains_name(&vars, variable.as_str()) {
                    let ghost before = vars@;
                    vars.push(variable.clone());
                    proof {
                        assert(assigned(chain.groups@[g as int].instructions@[k as int]) == Some(variable@));
                        assert(is_assigned(chain.groups@, variable@));
                        assert forall|i: int| 0 <= i < vars@.len() implies is_assigned(chain.groups@, (#[trigger] vars@[i])@) by {
                            if i < vars@.len() - 1 {
                                assert(vars@[i] == before[i]);
                            }
                        }
                        assert forall|g2: int, k2: int|
                            0 <= g2 < g && 0 <= k2 < chain.groups@[g2].instructions@.len()
                                && #[trigger] assigned(chain.groups@[g2].instructions@[k2]) is Some
                                implies names_have(vars@, assigned(chain.groups@[g2].instructions@[k2]).unwrap()) by {
                            lemma_names_push(before, vars@.last(), assigned(chain.groups@[g2].instructions@[k2]).unwrap());
                        }
                        assert forall|k2: int|
                            0 <= k2 < k + 1 && #[trigger] assigned(group.instructions@[k2]) is Some
                                implies names_have(vars@, assigned(group.instructions@[k2]).unwrap()) by {
                            if k2 < k {
                                lemma_names_push(before, vars@.last(), assigned(group.instructions@[k2]).unwrap());
                            } else {
                                assert(vars@[vars@.len() - 1]@ == variable@);
                            }
                        }
                    }
                } else {
                    proof {
                        assert(names_have(vars@, variable@));
                    }
                }
            }
            k += 1;
        }
        g += 1;
    }
    vars
}

/// The text of a run of inlines that is a single text.
pub open spec fn single_text(inl: Seq<InlineNode>) -> Option<Seq<char>> {
    if inl.len() == 1 {
        match inl[0] {
            InlineNode::Text(s) => Some(s@),
            _ => None,
        }
    } else {
        None
    }
}

/// The value of a table cell: a number when its trimmed text reads as one, else its text.
pub open spec fn cell_value_holds(cell: Seq<InlineNode>, v: RuntimeValue) -> bool {
    match parse_number_spec(trimmed(inlines_text(cell))) {
        Some(b) => v matches RuntimeValue::Number(n) && n.bits == b,
        None => v matches RuntimeValue::String(s) && s@ == inlines_text(cell),
    }
}

/// A table read as a value: the texts of its headers, and the value of each cell.
pub open spec fn table_unwrapped(headers: Seq<Vec<InlineNode>>, rows: Seq<Vec<Vec<InlineNode>>>, v: RuntimeValue) -> bool {
    v matches RuntimeValue::Table { headers: hs, rows: rs } && hs@.len() == headers.len() && (forall|i: int|
        0 <= i < hs@.len() ==> (#[trigger] hs@[i])@ == inlines_text(headers[i]@)) && rs@.len() == rows.len() && (
    forall|j: int|
        0 <= j < rs@.len() ==> (#[trigger] rs@[j])@.len() == rows[j]@.len() && forall|c: int|
            0 <= c < rs@[j]@.len() ==> cell_value_holds(rows[j]@[c]@, #[trigger] rs@[j]@[c]))
}

/// What a body with the nodes `nodes` gives as a value: the text of a single paragraph
/// that is a single text, the cells of a single table, and otherwise the body itself (its
/// nodes the same by content).
pub open spec fn unwrapped(nodes: Seq<DocumentNode>, v: RuntimeValue) -> bool {
    if nodes.len() == 1 {
        match nodes[0] {
            DocumentNode::Paragraph(inl) => match single_text(inl@) {
                Some(s) => v matches RuntimeValue::String(t) && t@ == s,
                None => v matches RuntimeValue::Document(d) && nodes_same(d.nodes@, nodes),
            },
            DocumentNode::Table { headers, rows, .. } => table_unwrapped(headers@, rows@, v),
            _ => v matches RuntimeValue::Document(d) && nodes_same(d.nodes@, nodes),
        }
    } else {
        v matches RuntimeValue::Document(d) && nodes_same(d.nodes@, nodes)
    }
}

/// A Document with one paragraph of one text gives that text; one with just a table gives
/// a Table value (each cell a number when its trimmed text reads as one); any other stays
/// a Document.
pub fn auto_unwrap_document(doc: Document) -> (r: RuntimeValue)
    ensures
        doc.nodes@.len() == 1 ==> match doc.nodes@[0] {
            DocumentNode::Paragraph(inl) => match single_text(inl@) {
                Some(s) => r matches RuntimeValue::String(t) && t@ == s,
                None => r == RuntimeValue::Document(doc),
            },
            DocumentNode::Table { headers, rows, .. } => table_unwrapped(headers@, rows@, r),
            _ => r == RuntimeValue::Document(doc),
        },
        doc.nodes@.len() != 1 ==> r == RuntimeValue::Document(doc),
{
    if doc.nodes.len() == 1 {
        match &doc.nodes[0] {
            DocumentNode::Paragraph(inlines) => {
                if inlines.len() == 1 {
                    if let InlineNode::Text(s) = &inlines[0] {
                        return RuntimeValue::String(s.clone());
                    }
                }
            },
            DocumentNode::Table { headers, rows, .. } => {
                let mut hs: Vec<String> = Vec::new();
                let mut i: usize = 0;
                while i < headers.len()
                    invariant
                        i <= headers.len(),
                        hs@.len() == i,
                        forall|k: int| 0 <= k < i ==> (#[trigger] hs@[k])@ == inlines_text(headers@[k]@),
                    decreases headers.len() - i,
                {
                    let mut t = String::new();
                    write_inlines(&headers[i], &mut t);
                    hs.push(t);
                    i += 1;
                }
                let mut rs: Vec<Vec<RuntimeValue>> = Vec::new();
                let mut j: usize = 0;
                while j < rows.len()
                    invariant
                        j <= rows.len(),
                        rs@.len() == j,
                        forall|j2: int|
                            0 <= j2 < j ==> (#[trigger] rs@[j2])@.len() == rows@[j2]@.len() && forall|c: int|
                                0 <= c < rs@[j2]@.len() ==> cell_value_holds(rows@[j2]@[c]@, #[trigger] rs@[j2]@[c]),
                    decreases rows.len() - j,
                {
                    let row = &rows[j];
                    let mut cells: Vec<RuntimeValue> = Vec::new();
                    let mut c: usize = 0;
                    while c < row.len()
                        invariant
                            c <= row.len(),
                            cells@.len() == c,
                            forall|c2: int| 0 <= c2 < c ==> cell_value_holds(row@[c2]@, #[trigger] cells@[c2]),
                        decreases row.len() - c,
                    {
                        cells.push(table_cell_value(&row[c]));
                        c += 1;
                    }
                    rs.push(cells);
                    j += 1;
                }
                return RuntimeValue::Table { headers: hs, rows: rs };
            },
            _ => {},
        }
    }
    RuntimeValue::Document(doc)
}

/// A table cell's value: a number when its trimmed text reads as one, else its text.
pub fn table_cell_value(cell: &Vec<InlineNode>) -> (r: RuntimeValue)
    ensures
        cell_value_holds(cell@, r),
{
    let mut text = String::new();
    write_inlines(cell, &mut text);
    let t = trim(text.as_str());
    match parse_number(t.as_str()) {
        Some(n) => RuntimeValue::Number(n),
        None => RuntimeValue::String(text),
    }
}

/// What a body unwraps to is the same for bodies that are the same by content.
proof fn lemma_unwrapped_same(a: Seq<DocumentNode>, b: Seq<DocumentNode>, v: RuntimeValue)
    requires
        nodes_same(a, b),
        a.len() == 1 ==> match a[0] {
            DocumentNode::Paragraph(inl) => match single_text(inl@) {
                Some(s) => v matches RuntimeValue::String(t) && t@ == s,
                None => v matches RuntimeValue::Document(d) && d.nodes@ == a,
            },
            DocumentNode::Table { headers, rows, .. } => table_unwrapped(headers@, rows@, v),
            _ => v matches RuntimeValue::Document(d) && d.nodes@ == a,
        },
        a.len() != 1 ==> (v matches RuntimeValue::Document(d) && d.nodes@ == a),
    ensures
        unwrapped(b, v),
{
    lemma_nodes_same_index(a, b);
    if a.len() == 1 {
        match (a[0], b[0]) {
            (DocumentNode::Paragraph(x), DocumentNode::Paragraph(y)) => {
                lemma_inlines_same_index(x@, y@);
            },
            (DocumentNode::Table { headers: h1, rows: r1, .. }, DocumentNode::Table { headers: h2, rows: r2, .. }) => {
                lemma_cells_same_index(h1@, h2@);
                lemma_rows_same_index(r1@, r2@);
                assert forall|i: int| 0 <= i < h1@.len() implies inlines_text(#[trigger] h1@[i]@) == inlines_text(h2@[i]@) by {
                    lemma_inlines_text_same(h1@[i]@, h2@[i]@);
                }
                assert forall|j: int, c: int| 0 <= j < r1@.len() && 0 <= c < r1@[j]@.len() implies inlines_text(
                    #[trigger] r1@[j]@[c]@,
                ) == inlines_text(r2@[j]@[c]@) by {
                    lemma_cells_same_index(r1@[j]@, r2@[j]@);
                    lemma_inlines_text_same(r1@[j]@[c]@, r2@[j]@[c]@);
                }
            },
            _ => {},
        }
    }
}

/// What an instruction that prints a constant template prints at depth `depth`: the
/// template's text and a newline; `None` for any other instruction.
pub open spec fn constant_print(i: Instruction, depth: int) -> Option<Seq<char>> {
    if depth > MAX_DEPTH {
        None
    } else {
        match i {
        Instruction::Expression { value: Value::Print(t), .. } => match constant_text(t.parts@, depth + 1) {
                Some(x) => Some(x + seq!['\n']),
                None => None,
            },
            _ => None,
        }
    }
}

/// What an instruction over literals and variables does with the variables `store`: an
/// assignment of such an expression stores its value; a print of a template of such
/// expressions prints its text and a newline; another such expression changes nothing.
/// `None` for anything else.
pub open spec fn instr_step(i: Instruction, store: Map<Seq<char>, Option<RuntimeValue>>, depth: int) -> Option<
    (Map<Seq<char>, Option<RuntimeValue>>, Seq<char>),
> {
    match i {
        Instruction::Assignment { variable, value, .. } => match env_eval(value, store, depth) {
            Some(Some(w)) => Some((store.insert(variable@, Some(w)), seq![])),
            _ => None,
        },
        Instruction::Expression { value, .. } => match value {
            Value::Print(t) => if depth > MAX_DEPTH {
                None
            } else {
                match env_text(t.parts@, store, depth + 1) {
                    Some(x) => Some((store, x + seq!['\n'])),
                    None => None,
                }
            },
            _ => match env_eval(value, store, depth) {
                Some(Some(_)) => Some((store, seq![])),
                _ => None,
            },
        },
    }
}

/// What a run of instructions that all print constant templates prints, one after another.
pub open spec fn prints_of(instrs: Seq<Instruction>, depth: int) -> Option<Seq<char>>
    decreases instrs.len(),
{
    if instrs.len() == 0 {
        Some(seq![])
    } else {
        match (prints_of(instrs.drop_last(), depth), constant_print(instrs.last(), depth)) {
            (Some(a), Some(b)) => Some(a + b),
            _ => None,
        }
    }
}

/// What a chain of fence groups that only print constant templates prints, group after group.
pub open spec fn chain_prints(groups: Seq<FenceGroup>, depth: int) -> Option<Seq<char>>
    decreases groups.len(),
{
    if groups.len() == 0 {
        Some(seq![])
    } else {
        match (chain_prints(groups.drop_last(), depth), prints_of(groups.last().instructions@, depth)) {
            (Some(a), Some(b)) => Some(a + b),
            _ => None,
        }
    }
}

proof fn lemma_prints_prefix(instrs: Seq<Instruction>, depth: int, i: int)
    requires
        0 <= i <= instrs.len(),
        prints_of(instrs, depth) is Some,
    ensures
        prints_of(instrs.take(i), depth) is Some,
        i < instrs.len() ==> constant_print(instrs[i], depth) is Some,
    decreases instrs.len(),
{
    if i < instrs.len() {
        assert(instrs.drop_last().take(i) =~= instrs.take(i));
        if i < instrs.len() - 1 {
            lemma_prints_prefix(instrs.drop_last(), depth, i);
            assert(instrs.drop_last()[i] == instrs[i]);
        }
        lemma_prints_prefix(instrs.drop_last(), depth, i);
    } else {
        assert(instrs.take(i) =~= instrs);
    }
}

proof fn lemma_chain_prints_prefix(groups: Seq<FenceGroup>, depth: int, g: int)
    requires
        0 <= g <= groups.len(),
        chain_prints(groups, depth) is Some,
    ensures
        chain_prints(groups.take(g), depth) is Some,
        g < groups.len() ==> prints_of(groups[g].instructions@, depth) is Some,
    decreases groups.len(),
{
    if g < groups.len() {
        assert(groups.drop_last().take(g) =~= groups.take(g));
        if g < groups.len() - 1 {
            assert(groups.drop_last()[g] == groups[g]);
        }
        lemma_chain_prints_prefix(groups.drop_last(), depth, g);
    } else {
        assert(groups.take(g) =~= groups);
    }
}

/// What a run of instructions over literals and variables does, one after another (see
/// `instr_step`): the variables at the end and the text printed.
pub open spec fn instrs_run(instrs: Seq<Instruction>, store: Map<Seq<char>, Option<RuntimeValue>>, depth: int) -> Option<
    (Map<Seq<char>, Option<RuntimeValue>>, Seq<char>),
>
    decreases instrs.len(),
{
    if instrs.len() == 0 {
        Some((store, seq![]))
    } else {
        match instrs_run(instrs.drop_last(), store, depth) {
            Some((s1, a)) => match instr_step(instrs.last(), s1, depth) {
                Some((s2, b)) => Some((s2, a + b)),
                None => None,
            },
            None => None,
        }
    }
}

/// What a chain of such fence groups does, group after group.
pub open spec fn chain_run(groups: Seq<FenceGroup>, store: Map<Seq<char>, Option<RuntimeValue>>, depth: int) -> Option<
    (Map<Seq<char>, Option<RuntimeValue>>, Seq<char>),
>
    decreases groups.len(),
{
    if groups.len() == 0 {
        Some((store, seq![]))
    } else {
        match chain_run(groups.drop_last(), store, depth) {
            Some((s1, a)) => match instrs_run(groups.last().instructions@, s1, depth) {
                Some((s2, b)) => Some((s2, a + b)),
                None => None,
            },
            None => None,
        }
    }
}

/// The variables when a block's scope opens over `base`: each variable that the chain
/// assigns is there without a value (hoisted); the others are as in `base`.
pub open spec fn hoisted_store(base: Map<Seq<char>, Option<RuntimeValue>>, groups: Seq<FenceGroup>) -> Map<
    Seq<char>,
    Option<RuntimeValue>,
> {
    Map::new(
        |n: Seq<char>| base.dom().contains(n) || is_assigned(groups, n),
        |n: Seq<char>| if is_assigned(groups, n) {
            None
        } else {
            base[n]
        },
    )
}

proof fn lemma_instrs_run_prefix(instrs: Seq<Instruction>, store: Map<Seq<char>, Option<RuntimeValue>>, depth: int, i: int)
    requires
        0 <= i <= instrs.len(),
        instrs_run(instrs, store, depth) is Some,
    ensures
        instrs_run(instrs.take(i), store, depth) is Some,
    decreases instrs.len(),
{
    if i < instrs.len() {
        assert(instrs.drop_last().take(i) =~= instrs.take(i));
        lemma_instrs_run_prefix(instrs.drop_last(), store, depth, i);
    } else {
        assert(instrs.take(i) =~= instrs);
    }
}

proof fn lemma_chain_run_prefix(groups: Seq<FenceGroup>, store: Map<Seq<char>, Option<RuntimeValue>>, depth: int, g: int)
    requires
        0 <= g <= groups.len(),
        chain_run(groups, store, depth) is Some,
    ensures
        chain_run(groups.take(g), store, depth) is Some,
    decreases groups.len(),
{
    if g < groups.len() {
        assert(groups.drop_last().take(g) =~= groups.take(g));
        lemma_chain_run_prefix(groups.drop_last(), store, depth, g);
    } else {
        assert(groups.take(g) =~= groups);
    }
}

/// An error in running some of a group's instructions is the error of them all.
proof fn lemma_instructions_error_spreads(
    instrs: Seq<Instruction>,
    start: RuntimeValue,
    blocks: BlockRegistry,
    depth: int,
    source_id: usize,
    s0: EvalState,
    s1: EvalState,
    e: DiagnosticError,
    i: int,
    j: int,
)
    requires
        0 < i <= j <= instrs.len(),
        instructions_run(instrs, i, start, blocks, depth, source_id, s0, s1, Err(e)),
    ensures
        instructions_run(instrs, j, start, blocks, depth, source_id, s0, s1, Err(e)),
    decreases j - i,
{
    if i < j {
        lemma_instructions_error_spreads(instrs, start, blocks, depth, source_id, s0, s1, e, i, j - 1);
        assert(stepped(s1, Err(e)));
    }
}

/// An error in running some of a chain's groups is the error of them all.
proof fn lemma_groups_error_spreads(
    groups: Seq<FenceGroup>,
    blocks: BlockRegistry,
    depth: int,
    source_id: usize,
    s0: EvalState,
    s1: EvalState,
    e: DiagnosticError,
    i: int,
    j: int,
)
    requires
        0 < i <= j <= groups.len(),
        groups_run(groups, i, blocks, depth, source_id, s0, s1, Err(e)),
    ensures
        groups_run(groups, j, blocks, depth, source_id, s0, s1, Err(e)),
    decreases j - i,
{
    if i < j {
        lemma_groups_error_spreads(groups, blocks, depth, source_id, s0, s1, e, i, j - 1);
        assert(stepped(s1, Err(e)));
    }
}

/// Executes a block with its arguments: a block without a chain gives its body (unwrapped
/// when it is a single text or table); otherwise its fence groups run in order in a new
/// scope where every assigned variable is hoisted, the last instruction's value is the
/// result, and a read and a write of one variable by different instructions of one fence
/// group add a warning.
#[verifier::rlimit(60)]
pub fn execute_block(
    block: &Block,
    arguments: Vec<RuntimeValue>,
    env: &mut Environment,
    registry: &BlockRegistry,
    output: &mut String,
    depth: usize,
    diagnostics: &mut Vec<DiagnosticError>,
) -> (r: Result<RuntimeValue, DiagnosticError>)
    ensures
        effects_ok(*old(env), *final(env), old(output)@, final(output)@, old(diagnostics)@, final(diagnostics)@, r is Ok),
        block.chain.groups@.len() == 0 ==> (r matches Ok(v) && unwrapped(block.body.nodes@, v) && final(output)@
            == old(output)@ && final(diagnostics)@ == old(diagnostics)@),
        chain_prints(block.chain.groups@, depth as int) matches Some(x) ==> block.chain.groups@.len() > 0 ==> {
            &&& r == Ok::<RuntimeValue, DiagnosticError>(RuntimeValue::Unit)
            &&& final(output)@ == old(output)@ + x
            &&& final(diagnostics)@ == old(diagnostics)@
        },
        block.chain.groups@.len() > 0 ==> (chain_run(
            block.chain.groups@,
            hoisted_store(store_of(old(env).scopes@), block.chain.groups@),
            depth as int,
        ) matches Some((st, x)) ==> (r is Ok && final(output)@ == old(output)@ + x)),
        block_run(
            *block,
            arguments@,
            *registry,
            depth as int,
            (*old(env), old(output)@, old(diagnostics)@),
            (*final(env), final(output)@, final(diagnostics)@),
            r,
        ),
    decreases budget(depth), 9nat, *block,
{
    if block.chain.is_empty() {
        let doc = clone_document(&block.body);
        let v = auto_unwrap_document(doc);
        proof {
            lemma_unwrapped_same(doc.nodes@, block.body.nodes@, v);
        }
        return Ok(v);
    }
    let ghost args_g = arguments@;
    let hoisted = collect_hoisted_variables(&block.chain);
    let ancestors = registry.lexical_ancestors(block.name.as_str());
    let ghost hoisted_names = hoisted@;
    let scope = Scope::new(arguments, hoisted, block.name.clone(), ancestors);
    env.push_scope(scope);
    let ghost si: EvalState = (*env, output@, diagnostics@);
    let ghost st0 = hoisted_store(store_of(old(env).scopes@), block.chain.groups@);
    proof {
        let gs = block.chain.groups@;
        assert forall|n: Seq<char>| #[trigger] is_assigned(gs, n) implies (exists|k: int|
            0 <= k < hoisted_names.len() && hoisted_names[k]@ == n) by {
            let (g, k) = choose|g: int, k: int|
                0 <= g < gs.len() && 0 <= k < gs[g].instructions@.len() && #[trigger] assigned(gs[g].instructions@[k])
                    == Some(n);
            assert(assigned(gs[g].instructions@[k]) is Some);
            assert(names_have(hoisted_names, n));
        }
        assert forall|n: Seq<char>| (exists|k: int| 0 <= k < hoisted_names.len() && hoisted_names[k]@ == n) implies #[trigger] is_assigned(gs, n) by {
            let k = choose|k: int| 0 <= k < hoisted_names.len() && hoisted_names[k]@ == n;
            assert(is_assigned(gs, hoisted_names[k]@));
        }
        let sc = env.scopes@;
        assert(sc == old(env).scopes@.push(sc.last()));
        assert(sc.drop_last() =~= old(env).scopes@);
        assert forall|n: Seq<char>| #![trigger store_of(sc).dom().contains(n)] #![trigger st0.dom().contains(n)]
            store_of(sc).dom().contains(n) == st0.dom().contains(n) && (st0.dom().contains(n) ==> store_of(sc)[n]
            == st0[n]) by {
            crate::environment::law_inner_scope_shadows(old(env).scopes@, sc.last(), n);
            assert(lookup(sc.last().variables@, n) is Some == is_assigned(gs, n));
        }
        assert(store_of(env.scopes@) =~= st0);
        assert forall|n: Seq<char>| #[trigger] lookup(si.0.scopes@.last().variables@, n) == if is_assigned(gs, n) {
            Some(None::<RuntimeValue>)
        } else {
            None
        } by {
            if is_assigned(gs, n) {
                assert(exists|k: int| 0 <= k < hoisted_names.len() && hoisted_names[k]@ == n);
            }
        }
        assert(entered(si));
        assert(block_entered(*block, args_g, (*old(env), old(output)@, old(diagnostics)@), si));
    }
    let ghost run = chain_run(block.chain.groups@, st0, depth as int) is Some;
    let source_id = registry.source_id;
    let mut last = RuntimeValue::Unit;
    let mut g: usize = 0;
    let ghost constant = chain_prints(block.chain.groups@, depth as int) is Some;
    while g < block.chain.groups.len()
        invariant
            g <= block.chain.groups.len(),
            block.chain.groups@.len() > 0,
            env.scopes@.len() == old(env).scopes@.len() + 1,
            env.fence_stack@.len() == old(env).fence_stack@.len(),
            extends(old(output)@, output@),
            extends(old(diagnostics)@, diagnostics@),
            constant == chain_prints(block.chain.groups@, depth as int) is Some,
            constant ==> {
                &&& chain_prints(block.chain.groups@.take(g as int), depth as int) matches Some(x)
                    && output@ == old(output)@ + x
                &&& diagnostics@ == old(diagnostics)@
                &&& last == RuntimeValue::Unit
            },
            run == chain_run(block.chain.groups@, st0, depth as int) is Some,
            st0 == hoisted_store(store_of(old(env).scopes@), block.chain.groups@),
            run ==> (chain_run(block.chain.groups@.take(g as int), st0, depth as int) matches Some((s1, x))
                && store_of(env.scopes@) == s1 && output@ == old(output)@ + x),
            source_id == registry.source_id,
            entered(si),
            block_entered(*block, args_g, (*old(env), old(output)@, old(diagnostics)@), si),
            args_g == arguments@,
            groups_run(block.chain.groups@, g as int, *registry, depth as int, source_id, si, (*env, output@, diagnostics@), Ok(last)),
        decreases block.chain.groups.len() - g,
    {
        let ghost sm_g: EvalState = (*env, output@, diagnostics@);
        let ghost prev = last;
        let group = &block.chain.groups[g];
        proof {
            if constant {
                lemma_chain_prints_prefix(block.chain.groups@, depth as int, g as int);
                lemma_chain_prints_prefix(block.chain.groups@, depth as int, g + 1);
                assert(block.chain.groups@.take(g + 1).drop_last() =~= block.chain.groups@.take(g as int));
            }
            if run {
                lemma_chain_run_prefix(block.chain.groups@, st0, depth as int, g + 1);
                assert(block.chain.groups@.take(g + 1).drop_last() =~= block.chain.groups@.take(g as int));
                assert(block.chain.groups@.take(g + 1).last() == block.chain.groups@[g as int]);
            }
        }
        let ghost group_start = output@;
        let ghost group_store = store_of(env.scopes@);
        env.push_fence_context();
        let ghost sg: EvalState = (*env, output@, diagnostics@);
        proof {
            assert(entered(sg));
            assert(stepped(sm_g, Ok(prev)));
        }
        let mut k: usize = 0;
        while k < group.instructions.len()
            invariant
                k <= group.instructions.len(),
                g < block.chain.groups.len(),
                *group == block.chain.groups@[g as int],
                block.chain.groups@.len() > 0,
                env.scopes@.len() == old(env).scopes@.len() + 1,
                env.fence_stack@.len() == old(env).fence_stack@.len() + 1,
                extends(old(output)@, output@),
                extends(old(diagnostics)@, diagnostics@),
                constant == chain_prints(block.chain.groups@, depth as int) is Some,
                constant ==> {
                    &&& prints_of(group.instructions@, depth as int) is Some
                    &&& prints_of(group.instructions@.take(k as int), depth as int) matches Some(y)
                        && output@ == group_start + y
                    &&& diagnostics@ == old(diagnostics)@
                    &&& last == RuntimeValue::Unit
                    &&& env.fence_stack@.last().reads@.len() == 0
                },
                run == chain_run(block.chain.groups@, st0, depth as int) is Some,
                st0 == hoisted_store(store_of(old(env).scopes@), block.chain.groups@),
                run ==> {
                    &&& chain_run(block.chain.groups@.take(g as int), st0, depth as int) matches Some((s1, x))
                        && group_store == s1 && group_start == old(output)@ + x
                    &&& instrs_run(group.instructions@, group_store, depth as int) is Some
                    &&& instrs_run(group.instructions@.take(k as int), group_store, depth as int) matches Some((s2, y))
                        && store_of(env.scopes@) == s2 && output@ == group_start + y
                },
                source_id == registry.source_id,
                entered(si),
                block_entered(*block, args_g, (*old(env), old(output)@, old(diagnostics)@), si),
                args_g == arguments@,
                entered(sg),
                stepped(sm_g, Ok(prev)),
                groups_run(block.chain.groups@, g as int, *registry, depth as int, source_id, si, sm_g, Ok(prev)),
                sg.0.scopes@ == sm_g.0.scopes@ && sg.1 == sm_g.1 && sg.2 == sm_g.2,
                instructions_run(group.instructions@, k as int, prev, *registry, depth as int, source_id, sg,
                    (*env, output@, diagnostics@), Ok(last)),
            decreases group.instructions.len() - k,
        {
            let ghost sm_k: EvalState = (*env, output@, diagnostics@);
            let ghost lm = last;
            proof {
                if constant {
                    lemma_prints_prefix(group.instructions@, depth as int, k as int);
                    lemma_prints_prefix(group.instructions@, depth as int, k + 1);
                    assert(group.instructions@.take(k + 1).drop_last() =~= group.instructions@.take(k as int));
                }
                if run {
                    lemma_instrs_run_prefix(group.instructions@, group_store, depth as int, k + 1);
                    assert(group.instructions@.take(k + 1).drop_last() =~= group.instructions@.take(k as int));
                    assert(group.instructions@.take(k + 1).last() == group.instructions@[k as int]);
                    assert(instr_step(group.instructions@[k as int], store_of(env.scopes@), depth as int) is Some);
                }
            }
            env.set_fence_instruction(k);
            let ghost sk: EvalState = (*env, output@, diagnostics@);
            let ghost before_call = store_of(env.scopes@);
            let res = execute_instruction(&group.instructions[k], env, registry, output, depth, diagnostics, source_id);
            let ghost s_after: EvalState = (*env, output@, diagnostics@);
            proof {
                assert(entered(sk));
                assert(stepped(sm_k, Ok(lm)));
                assert(instructions_run(group.instructions@, k + 1, prev, *registry, depth as int, source_id, sg, s_after, res));
            }
            last = match res {
                Ok(v) => v,
                Err(e) => {
                    proof {
                        if run {
                            assert(instr_step(group.instructions@[k as int], before_call, depth as int) is Some);
                        }
                        lemma_instructions_error_spreads(group.instructions@, prev, *registry, depth as int, source_id, sg,
                            s_after, e, k + 1, group.instructions@.len() as int);
                        assert(stepped(s_after, Err(e)));
                        assert(groups_run(block.chain.groups@, g + 1, *registry, depth as int, source_id, si, s_after, Err(e)));
                        lemma_groups_error_spreads(block.chain.groups@, *registry, depth as int, source_id, si, s_after, e,
                            g + 1, block.chain.groups@.len() as int);
                        assert(stepped(s_after, Err(e)));
                        assert(block_run(*block, args_g, *registry, depth as int, (*old(env), old(output)@, old(diagnostics)@),
                            s_after, Err(e)));
                    }
                    return Err(e);
                },
            };
            k += 1;
        }
        let ghost se: EvalState = (*env, output@, diagnostics@);
        proof {
            assert(stepped(se, Ok(last)));
        }
        proof {
            if constant {
                assert(group.instructions@.take(k as int) =~= group.instructions@);
                assert(violations(env.fence_stack@.last().reads@, env.fence_stack@.last().writes@).len() == 0);
            }
            if run {
                assert(group.instructions@.take(k as int) =~= group.instructions@);
            }
        }
        let violations = env.pop_fence_context();
        let mut v: usize = 0;
        while v < violations.len()
            invariant
                v <= violations.len(),
                extends(old(diagnostics)@, diagnostics@),
                extends(se.2, diagnostics@),
                output@ == se.1,
                constant ==> violations@.len() == 0 && diagnostics@ == old(diagnostics)@,
            decreases violations.len() - v,
        {
            let (name, spans) = &violations[v];
            let mut s: usize = 0;
            while s < spans.len()
                invariant
                    s <= spans.len(),
                    extends(old(diagnostics)@, diagnostics@),
                    extends(se.2, diagnostics@),
                    output@ == se.1,
                decreases spans.len() - s,
            {
                let msg = warning_text(
                    "reading variable '",
                    name.as_str(),
                    "' at the same fence as its assignment (undefined behavior)",
                );
                diagnostics.push(DiagnosticError::warning(msg, copy_span(&spans[s]), source_id));
                s += 1;
            }
            v += 1;
        }
        proof {
            assert(groups_run(block.chain.groups@, g + 1, *registry, depth as int, source_id, si, (*env, output@,
                diagnostics@), Ok(last)));
        }
        g += 1;
    }
    proof {
        if constant {
            assert(block.chain.groups@.take(g as int) =~= block.chain.groups@);
        }
        if run {
            assert(block.chain.groups@.take(g as int) =~= block.chain.groups@);
        }
    }
    let ghost s_end: EvalState = (*env, output@, diagnostics@);
    proof {
        assert(stepped(s_end, Ok(last)));
    }
    env.pop_scope();
    Ok(last)
}

/// Executes one instruction: an assignment evaluates its expression, stores the value in
/// the current scope and records the write; an expression is evaluated. An error without
/// a span is given the instruction's.
pub fn execute_instruction(
    instruction: &Instruction,
    env: &mut Environment,
    registry: &BlockRegistry,
    output: &mut String,
    depth: usize,
    diagnostics: &mut Vec<DiagnosticError>,
    source_id: usize,
) -> (r: Result<RuntimeValue, DiagnosticError>)
    requires
        old(env).scopes@.len() > 0,
    ensures
        effects_ok(*old(env), *final(env), old(output)@, final(output)@, old(diagnostics)@, final(diagnostics)@, r is Ok),
        r matches Err(e) ==> e.span is Some,
        constant_print(*instruction, depth as int) matches Some(x) ==> {
            &&& r == Ok::<RuntimeValue, DiagnosticError>(RuntimeValue::Unit)
            &&& final(output)@ == old(output)@ + x
            &&& *final(env) == *old(env)
            &&& final(diagnostics)@ == old(diagnostics)@
        },
        instruction matches Instruction::Assignment { variable, .. } ==> (r matches Ok(v) ==> (env_value(
            final(env).scopes@,
            variable@,
        ) matches Some(w) && runtime_same(w, v))),
        instr_step(*instruction, store_of(old(env).scopes@), depth as int) matches Some((st, x)) ==> {
            &&& r is Ok
            &&& store_of(final(env).scopes@) == st
            &&& final(output)@ == old(output)@ + x
        },
        instruction_run(
            *instruction,
            *registry,
            depth as int,
            source_id,
            (*old(env), old(output)@, old(diagnostics)@),
            (*final(env), final(output)@, final(diagnostics)@),
            r,
        ),
    decreases budget(depth), 8nat, *instruction,
{
    let span = copy_span(instruction.span());
    let result = match instruction {
        Instruction::Assignment { variable, value, .. } => {
            let rv = evaluate(value, env, registry, output, depth, diagnostics, source_id, &span);
            let ghost s2: EvalState = (*env, output@, diagnostics@);
            assert(stepped(s2, rv));
            match rv {
                Ok(val) => {
                    let ghost scopes0 = env.scopes@;
                    let stored = clone_runtime_value(&val);
                    env.set_variable(variable.as_str(), stored);
                    env.record_fence_write(variable.as_str());
                    proof {
                        if instr_step(*instruction, store_of(old(env).scopes@), depth as int) is Some {
                            let st = store_of(old(env).scopes@).insert(variable@, Some(val));
                            lemma_env_simple(*value, store_of(old(env).scopes@), depth as int);
                            assert(plain_value(val) || val is String);
                            assert(stored == val);
                            assert(store_of(env.scopes@) =~= st);
                        }
                    }
                    Ok(val)
                },
                Err(e) => Err(e),
            }
        },
        Instruction::Expression { value, .. } => {
            let rv = evaluate(value, env, registry, output, depth, diagnostics, source_id, &span);
            let ghost s2: EvalState = (*env, output@, diagnostics@);
            assert(stepped(s2, rv));
            rv
        },
    };
    match result {
        Ok(v) => Ok(v),
        Err(e) => {
            let mut e = e;
            if e.span.is_none() {
                e.span = Some(span);
                e.source_id = source_id;
            }
            Err(e)
        },
    }
}

// ---------------------------------------------------------------------------
// Programs
// ---------------------------------------------------------------------------

/// Executes a program: its first top-level block runs with no arguments. Imports are
/// resolved from the registry's cache, which this does not fill.
pub fn execute_program(program: &Program, output: &mut String) -> (r: Result<(RuntimeValue, Vec<DiagnosticError>), DiagnosticError>)
    ensures
        extends(old(output)@, final(output)@),
        program.blocks@.len() == 0 ==> (r matches Err(e) && e.error is NoEntryPoint && final(output)@ == old(output)@),
        program.blocks@.len() > 0 && program.blocks@[0].chain.groups@.len() == 0 ==> (r matches Ok((v, d))
            && unwrapped(program.blocks@[0].body.nodes@, v) && d@.len() == 0 && final(output)@ == old(output)@),
        program.blocks@.len() > 0 && program.blocks@[0].chain.groups@.len() > 0 ==> (chain_prints(
            program.blocks@[0].chain.groups@,
            0,
        ) matches Some(x) ==> (r matches Ok((v, d)) && v is Unit && d@.len() == 0 && final(output)@ == old(output)@
            + x)),
        program.blocks@.len() > 0 && program.blocks@[0].chain.groups@.len() > 0 ==> (chain_run(
            program.blocks@[0].chain.groups@,
            hoisted_store(Map::empty(), program.blocks@[0].chain.groups@),
            0,
        ) matches Some((st, x)) ==> (r is Ok && final(output)@ == old(output)@ + x)),
{
    let registry = BlockRegistry::from_program(program);
    execute_program_with_base(program, output, &registry)
}

/// Executes a program's first top-level block with a registry that was made for the
/// program (with the base directory of its imports, and their files loaded).
pub fn execute_program_with_base(
    program: &Program,
    output: &mut String,
    registry: &BlockRegistry,
) -> (r: Result<(RuntimeValue, Vec<DiagnosticError>), DiagnosticError>)
    ensures
        extends(old(output)@, final(output)@),
        program.blocks@.len() == 0 ==> (r matches Err(e) && e.error is NoEntryPoint && final(output)@ == old(output)@),
        program.blocks@.len() > 0 && program.blocks@[0].chain.groups@.len() == 0 ==> (r matches Ok((v, d))
            && unwrapped(program.blocks@[0].body.nodes@, v) && d@.len() == 0 && final(output)@ == old(output)@),
        program.blocks@.len() > 0 && program.blocks@[0].chain.groups@.len() > 0 ==> (chain_prints(
            program.blocks@[0].chain.groups@,
            0,
        ) matches Some(x) ==> (r matches Ok((v, d)) && v is Unit && d@.len() == 0 && final(output)@ == old(output)@
            + x)),
        program.blocks@.len() > 0 && program.blocks@[0].chain.groups@.len() > 0 ==> (chain_run(
            program.blocks@[0].chain.groups@,
            hoisted_store(Map::empty(), program.blocks@[0].chain.groups@),
            0,
        ) matches Some((st, x)) ==> (r is Ok && final(output)@ == old(output)@ + x)),
        program.blocks@.len() > 0 ==> exists|s0: EvalState, s1: EvalState, rb: Result<RuntimeValue, DiagnosticError>|
            #![trigger entered(s0), stepped(s1, rb)]
            entered(s0) && stepped(s1, rb) && s0.0.scopes@.len() == 0 && s0.0.fence_stack@.len() == 0 && s0.1
                == old(output)@ && s0.2.len() == 0 && block_run(program.blocks@[0], seq![], *registry, 0, s0, s1, rb)
                && final(output)@ == s1.1 && match rb {
                Ok(v) => r matches Ok((w, d)) && w == v && d@ == s1.2,
                Err(e) => r == Err::<(RuntimeValue, Vec<DiagnosticError>), DiagnosticError>(e),
            },
{
    let mut env = Environment::new();
    let mut diagnostics: Vec<DiagnosticError> = Vec::new();
    if program.blocks.len() == 0 {
        return Err(DiagnosticError::from_error(RuntimeError::NoEntryPoint));
    }
    assert(store_of(env.scopes@) =~= Map::<Seq<char>, Option<RuntimeValue>>::empty());
    let ghost s0: EvalState = (env, output@, diagnostics@);
    let rb = execute_block(&program.blocks[0], Vec::new(), &mut env, registry, output, 0, &mut diagnostics);
    let ghost s1: EvalState = (env, output@, diagnostics@);
    proof {
        assert(entered(s0));
        assert(stepped(s1, rb));
    }
    match rb {
        Ok(result) => Ok((result, diagnostics)),
        Err(e) => Err(e),
    }
}

/// The first `n` names, joined by `, `.
pub open spec fn names_joined(names: Seq<Seq<char>>, n: int) -> Seq<char>
    decreases n,
{
    if n <= 0 {
        seq![]
    } else if n == 1 {
        names[0]
    } else {
        names_joined(names, n - 1) + ", "@ + names[n - 1]
    }
}

/// The names, joined by `, `, or `none`.
pub open spec fn listed_names(names: Seq<Seq<char>>) -> Seq<char> {
    if names.len() == 0 {
        "none"@
    } else {
        names_joined(names, names.len() as int)
    }
}

/// Executes a program from the block named `entry_name` (matched exactly, else ignoring
/// case) with the given arguments.
pub fn execute_program_entry(
    program: &Program,
    output: &mut String,
    registry: &BlockRegistry,
    entry_name: &str,
    arguments: Vec<RuntimeValue>,
) -> (r: Result<(RuntimeValue, Vec<DiagnosticError>), DiagnosticError>)
    ensures
        extends(old(output)@, final(output)@),
        program.blocks@.len() == 0 ==> (r matches Err(e) && e.error is NoEntryPoint && final(output)@ == old(output)@),
        program.blocks@.len() > 0 && (forall|k: int|
            0 <= k < registry.blocks@.len() ==> unicode_lowercase(#[trigger] registry.blocks@[k].0@)
                != unicode_lowercase(entry_name@)) ==> (r matches Err(e) && e.error matches RuntimeError::UndefinedBlock(
            m,
        ) && m@ == seq!['\''] + entry_name@ + "' (available blocks: "@ + listed_names(
            top_level_names(registry.blocks@, registry.parent_map@),
        ) + seq![')']),
        program.blocks@.len() > 0 ==> (lookup(registry.blocks@, entry_name@) matches Some(b) ==> {
            &&& b.chain.groups@.len() == 0 ==> (r matches Ok((v, d)) && unwrapped(b.body.nodes@, v) && d@.len() == 0
                && final(output)@ == old(output)@)
            &&& b.chain.groups@.len() > 0 ==> (chain_prints(b.chain.groups@, 0) matches Some(x) ==> (r matches Ok(
                (v, d),
            ) && v is Unit && d@.len() == 0 && final(output)@ == old(output)@ + x))
            &&& b.chain.groups@.len() > 0 ==> (chain_run(b.chain.groups@, hoisted_store(Map::empty(), b.chain.groups@), 0)
                matches Some((st, x)) ==> (r is Ok && final(output)@ == old(output)@ + x))
        }),
{
    let mut env = Environment::new();
    let mut diagnostics: Vec<DiagnosticError> = Vec::new();
    if program.blocks.len() == 0 {
        return Err(DiagnosticError::from_error(RuntimeError::NoEntryPoint));
    }
    proof {
        if forall|k: int|
            0 <= k < registry.blocks@.len() ==> unicode_lowercase(#[trigger] registry.blocks@[k].0@)
                != unicode_lowercase(entry_name@) {
            assert forall|j: int| 0 <= j < registry.blocks@.len() implies (#[trigger] registry.blocks@[j]).0@
                != entry_name@ by {
                if registry.blocks@[j].0@ == entry_name@ {
                    assert(unicode_lowercase(registry.blocks@[j].0@) == unicode_lowercase(entry_name@));
                }
            }
            lemma_lookup_none(registry.blocks@, entry_name@);
        }
    }
    let entry = match registry.get_entry(entry_name) {
        Some(b) => b,
        None => {
            let names = registry.block_names();
            let mut m = String::new();
            push_char(&mut m, '\'');
            push_str(&mut m, entry_name);
            push_str(&mut m, "' (available blocks: ");
            let ghost head = m@;
            if names.len() == 0 {
                push_str(&mut m, "none");
            } else {
                let mut k: usize = 0;
                while k < names.len()
                    invariant
                        k <= names.len() == top_level_names(registry.blocks@, registry.parent_map@).len(),
                        names@.len() > 0,
                        forall|j: int|
                            0 <= j < names@.len() ==> (#[trigger] names@[j])@ == top_level_names(
                                registry.blocks@,
                                registry.parent_map@,
                            )[j],
                        m@ == head + names_joined(top_level_names(registry.blocks@, registry.parent_map@), k as int),
                    decreases names.len() - k,
                {
                    let ghost before = m@;
                    if k > 0 {
                        push_str(&mut m, ", ");
                    }
                    push_str(&mut m, names[k].as_str());
                    proof {
                        let tn = top_level_names(registry.blocks@, registry.parent_map@);
                        if k > 0 {
                            assert(m@ =~= head + (names_joined(tn, k as int) + ", "@ + tn[k as int]));
                        } else {
                            assert(m@ =~= head + names_joined(tn, 1));
                        }
                    }
                    k += 1;
                }
            }
            push_char(&mut m, ')');
            return Err(DiagnosticError::from_error(RuntimeError::UndefinedBlock(m)));
        },
    };
    assert(store_of(env.scopes@) =~= Map::<Seq<char>, Option<RuntimeValue>>::empty());
    let result = execute_block(entry, arguments, &mut env, registry, output, 0, &mut diagnostics)?;
    Ok((result, diagnostics))
}

} // verus!
