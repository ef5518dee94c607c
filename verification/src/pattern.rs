//! Matching runtime values against the patterns of match arms.
use vstd::prelude::*;
use crate::ast::{Template, DocumentPattern, InlinePattern};
use crate::document::{
    Document, DocumentNode, InlineNode, clone_node, node_same, inline_same, inlines_same, lemma_inlines_same_index,
};
use crate::environment::lookup;
use crate::item_lexer::is_word;
use crate::number::{Number, num_lt_spec, magnitude, double_difference, EPSILON_BITS};
use crate::runtime::{RuntimeValue, StrikethroughPayload, clone_runtime_value, runtime_same};
use crate::text::push_str;

verus! {

/// Bindings made by a match: names with values; a later binding of a name replaces it.
pub type Bindings = Vec<(String, RuntimeValue)>;

/// Binds `name` to `value`: afterwards the name has that value, and the other names keep theirs.
pub fn bind(bindings: &mut Bindings, name: &str, value: RuntimeValue)
    ensures
        lookup(final(bindings)@, name@) == Some(value),
        forall|other: Seq<char>|
            other != name@ ==> #[trigger] lookup(final(bindings)@, other) == lookup(old(bindings)@, other),
{
    let mut k: usize = 0;
    while k < bindings.len()
        invariant
            k <= bindings.len(),
            bindings@ == old(bindings)@,
            forall|j: int| 0 <= j < k ==> (#[trigger] bindings@[j]).0@ != name@,
        decreases bindings.len() - k,
    {
        if is_word(bindings[k].0.as_str(), name) {
            let ghost before = bindings@;
            let key = name.to_owned();
            bindings.set(k, (key, value));
            proof {
                assert forall|other: Seq<char>| #[trigger] lookup(bindings@, other) == if other == name@ {
                    Some(value)
                } else {
                    lookup(before, other)
                } by {
                    lemma_lookup_replace(before, name@, k as int, bindings@[k as int].0, value, other);
                }
            }
            return;
        }
        k += 1;
    }
    let ghost before = bindings@;
    bindings.push((name.to_owned(), value));
    proof {
        lemma_lookup_absent(before, name@);
        assert forall|other: Seq<char>| #[trigger] lookup(bindings@, other) == if other == name@ {
            Some(value)
        } else {
            lookup(before, other)
        } by {
            lemma_lookup_append(before, bindings@.last().0, value, other);
        }
    }
}

proof fn lemma_lookup_absent<V>(entries: Seq<(String, V)>, name: Seq<char>)
    requires
        forall|j: int| 0 <= j < entries.len() ==> (#[trigger] entries[j]).0@ != name,
    ensures
        lookup(entries, name) is None,
    decreases entries.len(),
{
    if entries.len() > 0 {
        lemma_lookup_absent(entries.drop_first(), name);
    }
}

proof fn lemma_lookup_replace<V>(entries: Seq<(String, V)>, name: Seq<char>, k: int, key: String, v: V, other: Seq<char>)
    requires
        0 <= k < entries.len(),
        entries[k].0@ == name,
        key@ == name,
        forall|j: int| 0 <= j < k ==> (#[trigger] entries[j]).0@ != name,
    ensures
        lookup(entries.update(k, (key, v)), name) == Some(v),
        other != name ==> lookup(entries.update(k, (key, v)), other) == lookup(entries, other),
    decreases k,
{
    let u = entries.update(k, (key, v));
    if k > 0 {
        assert(u.drop_first() =~= entries.drop_first().update(k - 1, (key, v)));
        lemma_lookup_replace(entries.drop_first(), name, k - 1, key, v, other);
    } else {
        assert(u.drop_first() =~= entries.drop_first());
    }
}

proof fn lemma_lookup_append<V>(entries: Seq<(String, V)>, key: String, v: V, other: Seq<char>)
    requires
        lookup(entries, key@) is None,
    ensures
        lookup(entries.push((key, v)), key@) == Some(v),
        other != key@ ==> lookup(entries.push((key, v)), other) == lookup(entries, other),
    decreases entries.len(),
{
    let p = entries.push((key, v));
    if entries.len() > 0 {
        assert(p.drop_first() =~= entries.drop_first().push((key, v)));
        assert(p[0] == entries[0]);
        lemma_lookup_append(entries.drop_first(), key, v, other);
        if entries[0].0@ != other {
            assert(lookup(p, other) == lookup(p.drop_first(), other));
            assert(lookup(entries, other) == lookup(entries.drop_first(), other));
        }
    } else {
        assert(p.drop_first() =~= Seq::<(String, V)>::empty());
        assert(p[0] == (key, v));
        if other != key@ {
            assert(lookup(p, other) == lookup(p.drop_first(), other));
        }
    }
}

// ---------------------------------------------------------------------------
// What a pattern matches
// ---------------------------------------------------------------------------

/// The value a struck value is matched as: an evaluated value is itself; an unevaluated
/// expression or template is matched as unit (there is no environment to evaluate it in).
pub open spec fn struck_inner(p: StrikethroughPayload) -> RuntimeValue {
    match p {
        StrikethroughPayload::Eager(v) => *v,
        _ => RuntimeValue::Unit,
    }
}

/// Whether a pattern matches a value. A document is matched by its nodes (see
/// `template_matches_nodes`); any other value by: a number within machine epsilon of the
/// literal, an equal string or boolean, unit, anything for `_` and for a name, a struck
/// value whose inner value matches the inner pattern, and any alternative.
pub open spec fn template_matches(t: Template, v: RuntimeValue) -> bool
    decreases t, 2nat,
{
    match v {
        RuntimeValue::Document(d) => template_matches_nodes(t, d.nodes@),
        _ => match t {
            Template::NumberLiteral(n) => v matches RuntimeValue::Number(x) && num_lt_spec(
                magnitude(double_difference(x.bits, n.bits)) as u64,
                EPSILON_BITS,
            ),
            Template::StringLiteral(s) => v matches RuntimeValue::String(x) && x@ == s@,
            Template::BooleanLiteral(b) => v matches RuntimeValue::Boolean(x) && x == b,
            Template::UnitLiteral => v is Unit,
            Template::Wildcard => true,
            Template::Binding(_) => true,
            Template::Strikethrough(inner) => v matches RuntimeValue::Strikethrough(p) && match inner {
                Some(i) => template_matches(*i, struck_inner(p)),
                None => true,
            },
            Template::Alternation(alts) => any_matches(alts@, v),
            _ => false,
        },
    }
}

pub open spec fn any_matches(s: Seq<Template>, v: RuntimeValue) -> bool
    decreases s, 0nat,
{
    exists|i: int| 0 <= i < s.len() && template_matches(#[trigger] s[i], v)
}

/// A boolean pattern matches exactly that boolean: `true` never matches `false`, nor any
/// value of another kind.
pub proof fn law_boolean_pattern(b: bool, v: RuntimeValue)
    ensures
        template_matches(Template::BooleanLiteral(b), v) <==> v == RuntimeValue::Boolean(b),
        !template_matches(Template::BooleanLiteral(b), RuntimeValue::Boolean(!b)),
{
}

/// A string pattern matches exactly the strings with its text; the unit pattern exactly
/// unit; `_` and a name match every value.
pub proof fn law_literal_patterns(s: String, v: RuntimeValue, name: String)
    ensures
        template_matches(Template::StringLiteral(s), v) <==> (v is String && v->String_0@ == s@),
        template_matches(Template::UnitLiteral, v) <==> v is Unit,
        template_matches(Template::Wildcard, v),
        template_matches(Template::Binding(name), v),
{
}

/// A struck pattern matches struck values only; with an inner pattern, exactly those whose
/// evaluated value the inner pattern matches.
pub proof fn law_struck_pattern(inner: Template, v: RuntimeValue, w: RuntimeValue)
    requires
        !(w is Document),
    ensures
        template_matches(Template::Strikethrough(None), w) <==> w is Strikethrough,
        template_matches(Template::Strikethrough(Some(Box::new(inner))), RuntimeValue::Strikethrough(
            StrikethroughPayload::Eager(Box::new(v)),
        )) <==> template_matches(inner, v),
{
}

/// A number pattern matches numbers only.
pub proof fn law_number_pattern(n: Number, v: RuntimeValue)
    ensures
        template_matches(Template::NumberLiteral(n), v) ==> v is Number,
{
}

/// An alternation matches a value that is no document exactly when one of its
/// alternatives does.
pub proof fn law_alternation_pattern(alts: Vec<Template>, v: RuntimeValue)
    requires
        !(v is Document),
    ensures
        template_matches(Template::Alternation(alts), v) <==> exists|i: int|
            0 <= i < alts@.len() && template_matches(#[trigger] alts@[i], v),
{
    assert(template_matches(Template::Alternation(alts), v) == any_matches(alts@, v));
    if template_matches(Template::Alternation(alts), v) {
        let i = choose|i: int| 0 <= i < alts@.len() && template_matches(#[trigger] alts@[i], v);
        assert(template_matches(alts@[i], v));
    }
    if exists|i: int| 0 <= i < alts@.len() && template_matches(#[trigger] alts@[i], v) {
        let i = choose|i: int| 0 <= i < alts@.len() && template_matches(#[trigger] alts@[i], v);
        assert(any_matches(alts@, v));
    }
}

/// Whether a pattern matches a document with the nodes `nodes`: `_` and a name match any;
/// a document pattern as `doc_pattern_matches` says; a compound pattern matches a
/// document with as many nodes, each node (as a document of its own) matching its
/// sub-pattern; an alternation when one alternative matches; other patterns never.
pub open spec fn template_matches_nodes(t: Template, nodes: Seq<DocumentNode>) -> bool
    decreases t, 1nat,
{
    match t {
        Template::Wildcard => true,
        Template::Binding(_) => true,
        Template::DocumentPattern(dp) => doc_pattern_matches(dp, nodes),
        Template::Compound(subs) => compound_matches(subs@, nodes),
        Template::Alternation(alts) => any_matches_nodes(alts@, nodes),
        _ => false,
    }
}

pub open spec fn compound_matches(subs: Seq<Template>, nodes: Seq<DocumentNode>) -> bool
    decreases subs, 0nat,
{
    subs.len() == nodes.len() && forall|i: int|
        0 <= i < subs.len() ==> template_matches_nodes(#[trigger] subs[i], seq![nodes[i]])
}

pub open spec fn any_matches_nodes(s: Seq<Template>, nodes: Seq<DocumentNode>) -> bool
    decreases s, 0nat,
{
    exists|i: int| 0 <= i < s.len() && template_matches_nodes(#[trigger] s[i], nodes)
}

/// An inline pattern matches a document when some paragraph of it holds exactly one
/// inline node and the pattern matches that node; block patterns match no document.
pub open spec fn doc_pattern_matches(dp: DocumentPattern, nodes: Seq<DocumentNode>) -> bool {
    match dp {
        DocumentPattern::Inline(ip) => exists|k: int|
            0 <= k < nodes.len() && (#[trigger] nodes[k] matches DocumentNode::Paragraph(inl) && inl@.len() == 1
                && inline_pattern_matches(ip, inl@[0])),
        DocumentPattern::Block(_) => false,
    }
}

/// Whether an inline pattern matches an inline node: equal text or code, a capture any
/// node, and bold, emphasis and strikethrough by their children.
pub open spec fn inline_pattern_matches(p: InlinePattern, n: InlineNode) -> bool
    decreases p, 1nat,
{
    match (p, n) {
        (InlinePattern::Text(e), InlineNode::Text(a)) => e@ == a@,
        (InlinePattern::Capture(_), _) => true,
        (InlinePattern::Strong(ps), InlineNode::Strong(cs)) => inline_children_match(ps@, cs@),
        (InlinePattern::Emphasis(ps), InlineNode::Emphasis(cs)) => inline_children_match(ps@, cs@),
        (InlinePattern::Strikethrough(ps), InlineNode::Strikethrough(cs)) => inline_children_match(ps@, cs@),
        (InlinePattern::CodeSpan(e), InlineNode::CodeSpan(a)) => e@ == a@,
        _ => false,
    }
}

/// A single capture takes all the children; otherwise the patterns match the children one
/// for one.
pub open spec fn inline_children_match(ps: Seq<InlinePattern>, cs: Seq<InlineNode>) -> bool
    decreases ps, 0nat,
{
    if ps.len() == 1 && ps[0] is Capture {
        true
    } else {
        ps.len() == cs.len() && forall|k: int| 0 <= k < ps.len() ==> inline_pattern_matches(#[trigger] ps[k], cs[k])
    }
}

/// Matching a pattern against a document of one node gives the same for nodes that are
/// the same by content.
proof fn lemma_single_node_same(t: Template, a: DocumentNode, b: DocumentNode)
    requires
        node_same(a, b),
    ensures
        template_matches_nodes(t, seq![a]) == template_matches_nodes(t, seq![b]),
    decreases t,
{
    match t {
        Template::DocumentPattern(dp) => {
            match dp {
                DocumentPattern::Inline(ip) => {
                    match (a, b) {
                        (DocumentNode::Paragraph(x), DocumentNode::Paragraph(y)) => {
                            lemma_inlines_same_index(x@, y@);
                            if x@.len() == 1 {
                                lemma_inline_pattern_same(ip, x@[0], y@[0]);
                            }
                            assert(seq![a][0] == a);
                            assert(seq![b][0] == b);
                        },
                        _ => {
                            assert(seq![a][0] == a);
                            assert(seq![b][0] == b);
                        },
                    }
                },
                DocumentPattern::Block(_) => {},
            }
        },
        Template::Compound(subs) => {
            if subs@.len() == 1 {
                lemma_single_node_same(subs@[0], a, b);
                assert(seq![a][0] == a);
                assert(seq![b][0] == b);
            }
        },
        Template::Alternation(alts) => {
            assert forall|i: int| 0 <= i < alts@.len() implies template_matches_nodes(#[trigger] alts@[i], seq![a])
                == template_matches_nodes(alts@[i], seq![b]) by {
                lemma_single_node_same(alts@[i], a, b);
            }
        },
        _ => {},
    }
}

/// An inline pattern matches inline nodes that are the same by content alike.
proof fn lemma_inline_pattern_same(p: InlinePattern, a: InlineNode, b: InlineNode)
    requires
        inline_same(a, b),
    ensures
        inline_pattern_matches(p, a) == inline_pattern_matches(p, b),
    decreases p, 1nat,
{
    match (p, a, b) {
        (InlinePattern::Strong(ps), InlineNode::Strong(x), InlineNode::Strong(y)) => lemma_children_same(ps@, x@, y@),
        (InlinePattern::Emphasis(ps), InlineNode::Emphasis(x), InlineNode::Emphasis(y)) => lemma_children_same(ps@, x@, y@),
        (InlinePattern::Strikethrough(ps), InlineNode::Strikethrough(x), InlineNode::Strikethrough(y)) => lemma_children_same(
            ps@,
            x@,
            y@,
        ),
        _ => {},
    }
}

proof fn lemma_children_same(ps: Seq<InlinePattern>, x: Seq<InlineNode>, y: Seq<InlineNode>)
    requires
        inlines_same(x, y),
    ensures
        inline_children_match(ps, x) == inline_children_match(ps, y),
    decreases ps, 0nat,
{
    lemma_inlines_same_index(x, y);
    assert forall|k: int| 0 <= k < ps.len() && k < x.len() implies inline_pattern_matches(#[trigger] ps[k], x[k])
        == inline_pattern_matches(ps[k], y[k]) by {
        lemma_inline_pattern_same(ps[k], x[k], y[k]);
    }
}

/// The texts that an inline pattern captures from a node it matches, added to `m` (a later
/// capture of a name replaces an earlier one): a capture takes the node's plain text; bold,
/// emphasis and strikethrough patterns capture from the children.
pub open spec fn inline_captures(p: InlinePattern, n: InlineNode, m: Map<Seq<char>, Seq<char>>) -> Map<Seq<char>, Seq<char>>
    decreases p, 2nat, 0int,
{
    match (p, n) {
        (InlinePattern::Capture(name), _) => m.insert(name@, inline_plain_text(n)),
        (InlinePattern::Strong(ps), InlineNode::Strong(cs)) => children_captures(ps@, cs@, m),
        (InlinePattern::Emphasis(ps), InlineNode::Emphasis(cs)) => children_captures(ps@, cs@, m),
        (InlinePattern::Strikethrough(ps), InlineNode::Strikethrough(cs)) => children_captures(ps@, cs@, m),
        _ => m,
    }
}

/// A single capture takes the plain text of all the children; otherwise the patterns
/// capture from the children one for one, in order.
pub open spec fn children_captures(ps: Seq<InlinePattern>, cs: Seq<InlineNode>, m: Map<Seq<char>, Seq<char>>) -> Map<Seq<char>, Seq<char>>
    decreases ps, 1nat, 0int,
{
    if ps.len() == 1 && ps[0] is Capture {
        m.insert(ps[0]->Capture_0@, inlines_plain_text(cs))
    } else {
        children_fold(ps, cs, ps.len() as int, m)
    }
}

/// What the first `k` patterns capture from the first `k` children, added to `m`.
pub open spec fn children_fold(ps: Seq<InlinePattern>, cs: Seq<InlineNode>, k: int, m: Map<Seq<char>, Seq<char>>) -> Map<Seq<char>, Seq<char>>
    decreases ps, 0nat, k,
{
    if k <= 0 || k > ps.len() || k > cs.len() {
        m
    } else {
        inline_captures(ps[k - 1], cs[k - 1], children_fold(ps, cs, k - 1, m))
    }
}

/// The index of the first node from `k` on that is a paragraph of one inline node matching
/// `ip`, or the number of nodes.
pub open spec fn first_paragraph(ip: InlinePattern, nodes: Seq<DocumentNode>, k: int) -> int
    decreases nodes.len() - k,
{
    if k < 0 || k >= nodes.len() {
        nodes.len() as int
    } else if nodes[k] matches DocumentNode::Paragraph(inl) && inl@.len() == 1 && inline_pattern_matches(ip, inl@[0]) {
        k
    } else {
        first_paragraph(ip, nodes, k + 1)
    }
}

/// What a document pattern captures from the nodes of a document it matches: what its
/// inline pattern captures from the first paragraph that it matches.
pub open spec fn doc_captures(dp: DocumentPattern, nodes: Seq<DocumentNode>) -> Map<Seq<char>, Seq<char>> {
    match dp {
        DocumentPattern::Inline(ip) => {
            let k = first_paragraph(ip, nodes, 0);
            if 0 <= k < nodes.len() && nodes[k] is Paragraph {
                inline_captures(ip, nodes[k]->Paragraph_0@[0], Map::empty())
            } else {
                Map::empty()
            }
        },
        DocumentPattern::Block(_) => Map::empty(),
    }
}

/// A capture takes the plain text of the node it stands for; a lone capture among
/// children takes the plain text of all of them, one child's after another's.
pub proof fn law_captures_take_plain_text(
    name: String,
    n: InlineNode,
    cs: Seq<InlineNode>,
    c: InlineNode,
    m: Map<Seq<char>, Seq<char>>,
)
    ensures
        inline_captures(InlinePattern::Capture(name), n, m)[name@] == inline_plain_text(n),
        children_captures(seq![InlinePattern::Capture(name)], cs, m)[name@] == inlines_plain_text(cs),
        inlines_plain_text(cs.push(c)) == inlines_plain_text(cs) + inline_plain_text(c),
        n matches InlineNode::Text(t) ==> inline_plain_text(n) == t@,
{
    assert(cs.push(c).drop_last() =~= cs);
}

/// The bindings `b` hold each name of `m` bound to its text, as a string.
pub open spec fn captures_bound(b: Seq<(String, RuntimeValue)>, m: Map<Seq<char>, Seq<char>>) -> bool {
    forall|name: Seq<char>|
        m.dom().contains(name) ==> (#[trigger] lookup(b, name) matches Some(RuntimeValue::String(s)) && s@ == m[name])
}

/// The bindings `b` hold each name of `m` bound to its text, as a string, and every other
/// name as `base` holds it.
pub open spec fn captures_held(b: Seq<(String, RuntimeValue)>, base: Seq<(String, RuntimeValue)>, m: Map<Seq<char>, Seq<char>>) -> bool {
    &&& forall|name: Seq<char>|
        m.dom().contains(name) ==> (#[trigger] lookup(b, name) matches Some(RuntimeValue::String(s)) && s@ == m[name])
    &&& forall|name: Seq<char>| !m.dom().contains(name) ==> #[trigger] lookup(b, name) == lookup(base, name)
}

/// The bindings `b1` are `b0` with `name` bound to (a copy of) `v`.
pub open spec fn binds_name(b0: Seq<(String, RuntimeValue)>, b1: Seq<(String, RuntimeValue)>, name: Seq<char>, v: RuntimeValue) -> bool {
    &&& lookup(b1, name) matches Some(w) && runtime_same(w, v)
    &&& forall|other: Seq<char>| other != name ==> #[trigger] lookup(b1, other) == lookup(b0, other)
}

/// A successful match of `t` against `v` turns the bindings `b0` into `b1`: a name binds
/// the value; a struck pattern binds what its inner pattern binds on the struck value; an
/// alternation adds, after the bindings there were, the bindings of its first alternative
/// that matches (made afresh); a document pattern binds each name it captures to the
/// captured text (`doc_captures`); a compound pattern binds what its sub-patterns bind, in
/// order (`compound_binds`); literals and `_` bind nothing.
pub open spec fn match_binds(t: Template, v: RuntimeValue, b0: Seq<(String, RuntimeValue)>, b1: Seq<(String, RuntimeValue)>) -> bool
    decreases t, 1nat, 0int,
{
    match t {
        Template::Binding(n) => binds_name(b0, b1, n@, v),
        Template::Alternation(alts) => alt_binds(alts@, v, b0, b1),
        Template::Strikethrough(inner) => match inner {
            Some(i) => match v {
                RuntimeValue::Strikethrough(p) => match_binds(*i, struck_inner(p), b0, b1),
                _ => true,
            },
            None => b1 == b0,
        },
        Template::DocumentPattern(dp) => match v {
            RuntimeValue::Document(d) => captures_bound(b1, doc_captures(dp, d.nodes@)),
            _ => true,
        },
        Template::Compound(subs) => match v {
            RuntimeValue::Document(d) => compound_binds(subs@, d.nodes@, subs@.len() as int, b0, b1),
            _ => true,
        },
        _ => b1 == b0,
    }
}

/// Bindings reached in a chain of matches; it names the intermediate bindings over which
/// `compound_binds` speaks.
pub open spec fn bound_at(b: Seq<(String, RuntimeValue)>) -> bool {
    true
}

/// A document that a sub-pattern of a compound pattern is matched against.
pub open spec fn matched_document(d: Document) -> bool {
    true
}

/// The first `k` sub-patterns of a compound pattern, each matched against a document of
/// its one node, turn the bindings `b0` into `b1`, one after the other.
pub open spec fn compound_binds(
    subs: Seq<Template>,
    nodes: Seq<DocumentNode>,
    k: int,
    b0: Seq<(String, RuntimeValue)>,
    b1: Seq<(String, RuntimeValue)>,
) -> bool
    decreases subs, 0nat, k,
{
    if k <= 0 || k > subs.len() || k > nodes.len() {
        b1 == b0
    } else {
        exists|bm: Seq<(String, RuntimeValue)>, d: Document|
            #![trigger bound_at(bm), matched_document(d)]
            bound_at(bm) && matched_document(d) && compound_binds(subs, nodes, k - 1, b0, bm) && d.nodes@.len() == 1
                && node_same(d.nodes@[0], nodes[k - 1]) && match_binds(subs[k - 1], RuntimeValue::Document(d), bm, b1)
    }
}

/// A name pattern binds the name to (a copy of) the matched value and leaves every other
/// name as it was; a literal pattern or `_` binds nothing.
pub proof fn law_binding_pattern_binds(
    name: String,
    v: RuntimeValue,
    b0: Seq<(String, RuntimeValue)>,
    b1: Seq<(String, RuntimeValue)>,
    other: Seq<char>,
)
    ensures
        match_binds(Template::Binding(name), v, b0, b1) ==> (lookup(b1, name@) matches Some(w) && runtime_same(w, v)),
        match_binds(Template::Binding(name), v, b0, b1) && other != name@ ==> lookup(b1, other) == lookup(b0, other),
        match_binds(Template::Wildcard, v, b0, b1) ==> b1 == b0,
        match_binds(Template::UnitLiteral, v, b0, b1) ==> b1 == b0,
{
}

/// The index of the first alternative from `i` on that matches `v`, or the length.
pub open spec fn first_alt(s: Seq<Template>, v: RuntimeValue, i: int) -> int
    decreases s.len() - i,
{
    if i < 0 || i >= s.len() {
        s.len() as int
    } else if template_matches(s[i], v) {
        i
    } else {
        first_alt(s, v, i + 1)
    }
}

proof fn lemma_first_alt(s: Seq<Template>, v: RuntimeValue, j: int, i: int)
    requires
        0 <= j <= i < s.len(),
        template_matches(s[i], v),
        forall|k: int| j <= k < i ==> !template_matches(#[trigger] s[k], v),
    ensures
        first_alt(s, v, j) == i,
    decreases i - j,
{
    if j < i {
        lemma_first_alt(s, v, j + 1, i);
    }
}

/// The first alternative that matches `v` binds, from no bindings, what is added after
/// `b0` (which `b1` keeps as it was).
pub open spec fn alt_binds(s: Seq<Template>, v: RuntimeValue, b0: Seq<(String, RuntimeValue)>, b1: Seq<(String, RuntimeValue)>) -> bool
    decreases s, 0nat, 0int,
{
    let i = first_alt(s, v, 0);
    &&& 0 <= i < s.len()
    &&& b0.len() <= b1.len()
    &&& b1.take(b0.len() as int) == b0
    &&& match_binds(s[i], v, seq![], b1.skip(b0.len() as int))
}

/// Binding `name` to a string with text `text` keeps every agreement and adds the name.
proof fn lemma_bind_held(
    b0: Seq<(String, RuntimeValue)>,
    b1: Seq<(String, RuntimeValue)>,
    name: Seq<char>,
    v: RuntimeValue,
    text: Seq<char>,
)
    requires
        lookup(b1, name) == Some(v),
        v matches RuntimeValue::String(s) && s@ == text,
        forall|other: Seq<char>| other != name ==> #[trigger] lookup(b1, other) == lookup(b0, other),
    ensures
        forall|base: Seq<(String, RuntimeValue)>, m: Map<Seq<char>, Seq<char>>|
            captures_held(b0, base, m) ==> #[trigger] captures_held(b1, base, m.insert(name, text)),
{
    assert forall|base: Seq<(String, RuntimeValue)>, m: Map<Seq<char>, Seq<char>>|
        captures_held(b0, base, m) implies #[trigger] captures_held(b1, base, m.insert(name, text)) by {
        assert forall|n: Seq<char>| m.insert(name, text).dom().contains(n) implies (#[trigger] lookup(b1, n) matches Some(
            RuntimeValue::String(s),
        ) && s@ == m.insert(name, text)[n]) by {
            if n != name {
                assert(lookup(b1, n) == lookup(b0, n));
            }
        }
        assert forall|n: Seq<char>| !m.insert(name, text).dom().contains(n) implies #[trigger] lookup(b1, n) == lookup(
            base,
            n,
        ) by {
            assert(lookup(b1, n) == lookup(b0, n));
        }
    }
}

proof fn lemma_first_paragraph(ip: InlinePattern, nodes: Seq<DocumentNode>, j: int, k: int)
    requires
        0 <= j <= k < nodes.len(),
        nodes[k] matches DocumentNode::Paragraph(inl) && inl@.len() == 1 && inline_pattern_matches(ip, inl@[0]),
        forall|i: int|
            j <= i < k ==> !(#[trigger] nodes[i] matches DocumentNode::Paragraph(inl) && inl@.len() == 1
                && inline_pattern_matches(ip, inl@[0])),
    ensures
        first_paragraph(ip, nodes, j) == k,
    decreases k - j,
{
    if j < k {
        lemma_first_paragraph(ip, nodes, j + 1, k);
    }
}

/// Matches a value against a pattern, giving the bindings it makes when it matches.
pub fn match_pattern(template: &Template, value: &RuntimeValue) -> (r: Option<Bindings>)
    ensures
        r is Some <==> template_matches(*template, *value),
        *template is Wildcard ==> (r matches Some(b) && b@.len() == 0),
        template matches Template::Binding(n) ==> (r matches Some(b) && lookup(b@, n@) matches Some(w)
            && runtime_same(w, *value)),
        r matches Some(b) ==> match_binds(*template, *value, seq![], b@),
{
    let mut bindings: Bindings = Vec::new();
    if match_inner(template, value, &mut bindings) {
        Some(bindings)
    } else {
        None
    }
}

fn match_inner(template: &Template, value: &RuntimeValue, bindings: &mut Bindings) -> (r: bool)
    ensures
        r == template_matches(*template, *value),
        *template is Wildcard ==> r && final(bindings)@ == old(bindings)@,
        template matches Template::Binding(n) ==> r,
        template matches Template::Binding(n) ==> (lookup(final(bindings)@, n@) matches Some(w) && runtime_same(
            w,
            *value,
        )),
        r ==> match_binds(*template, *value, old(bindings)@, final(bindings)@),
    decreases *template,
{
    match template {
        Template::NumberLiteral(n) => match value {
            RuntimeValue::Number(v) => {
                let d = v.sub(*n).abs();
                let eps = Number::from_bits(EPSILON_BITS);
                assert(d.bits == magnitude(double_difference(v.bits, n.bits)) as u64);
                d.num_lt(eps)
            },
            _ => false,
        },
        Template::StringLiteral(s) => match value {
            RuntimeValue::String(v) => is_word(v.as_str(), s.as_str()),
            _ => false,
        },
        Template::BooleanLiteral(b) => match value {
            RuntimeValue::Boolean(v) => *v == *b,
            _ => false,
        },
        Template::UnitLiteral => match value {
            RuntimeValue::Unit => true,
            _ => false,
        },
        Template::Wildcard => true,
        Template::Binding(name) => {
            bind(bindings, name.as_str(), clone_runtime_value(value));
            true
        },
        Template::Strikethrough(inner) => match value {
            RuntimeValue::Strikethrough(payload) => match inner {
                Some(inner_pattern) => match payload {
                    StrikethroughPayload::Eager(v) => match_inner(inner_pattern, v, bindings),
                    _ => {
                        let unit = RuntimeValue::Unit;
                        match_inner(inner_pattern, &unit, bindings)
                    },
                },
                None => true,
            },
            _ => false,
        },
        Template::DocumentPattern(doc_pattern) => match value {
            RuntimeValue::Document(doc) => match_document_pattern(doc_pattern, doc, bindings),
            _ => false,
        },
        Template::Alternation(alternatives) => match_any(alternatives, value, bindings),
        Template::Compound(sub_patterns) => match value {
            RuntimeValue::Document(doc) => match_compound(sub_patterns, doc, bindings),
            _ => false,
        },
    }
}

/// Tries the alternatives in order; the first that matches gives its bindings.
fn match_any(alternatives: &Vec<Template>, value: &RuntimeValue, bindings: &mut Bindings) -> (r: bool)
    ensures
        r == any_matches(alternatives@, *value),
        r ==> alt_binds(alternatives@, *value, old(bindings)@, final(bindings)@),
    decreases *alternatives,
{
    let mut i: usize = 0;
    while i < alternatives.len()
        invariant
            i <= alternatives.len(),
            forall|j: int| 0 <= j < i ==> !template_matches(#[trigger] alternatives@[j], *value),
            bindings@ == old(bindings)@,
        decreases alternatives.len() - i,
    {
        proof {
            vstd::std_specs::vec::axiom_vec_index_decreases(*alternatives, i as int);
        }
        let mut alt_bindings: Bindings = Vec::new();
        let m = match_inner(&alternatives[i], value, &mut alt_bindings);
        if m {
            let ghost mid = alt_bindings@;
            let ghost b0 = bindings@;
            bindings.append(&mut alt_bindings);
            proof {
                assert(match_binds(alternatives@[i as int], *value, seq![], mid));
                assert(bindings@ == b0 + mid);
                assert(template_matches(alternatives@[i as int], *value));
                assert forall|j: int| 0 <= j < i implies !template_matches(#[trigger] alternatives@[j], *value) by {
                    assert(!template_matches(alternatives@[j], *value));
                }
                assert forall|j: int| 0 <= j <= i implies first_alt(alternatives@, *value, j) == i by {
                    lemma_first_alt(alternatives@, *value, j, i as int);
                }
                assert(exists|m2: Seq<(String, RuntimeValue)>|
                    #[trigger] match_binds(alternatives@[i as int], *value, seq![], m2) && bindings@ == b0 + m2);
                assert(bindings@.take(b0.len() as int) =~= b0);
                assert(bindings@.skip(b0.len() as int) =~= mid);
                assert(alt_binds(alternatives@, *value, b0, bindings@));
            }
            return true;
        }
        i += 1;
    }
    false
}

/// Matches the nodes of a document one for one, each as a document of its own.
fn match_compound(sub_patterns: &Vec<Template>, doc: &Document, bindings: &mut Bindings) -> (r: bool)
    ensures
        r == compound_matches(sub_patterns@, doc.nodes@),
        r ==> compound_binds(sub_patterns@, doc.nodes@, sub_patterns@.len() as int, old(bindings)@, final(bindings)@),
    decreases *sub_patterns,
{
    if doc.nodes.len() != sub_patterns.len() {
        return false;
    }
    let mut i: usize = 0;
    while i < sub_patterns.len()
        invariant
            i <= sub_patterns.len() == doc.nodes.len(),
            forall|j: int| 0 <= j < i ==> template_matches_nodes(#[trigger] sub_patterns@[j], seq![doc.nodes@[j]]),
            compound_binds(sub_patterns@, doc.nodes@, i as int, old(bindings)@, bindings@),
        decreases sub_patterns.len() - i,
    {
        proof {
            vstd::std_specs::vec::axiom_vec_index_decreases(*sub_patterns, i as int);
        }
        let mut nodes = Vec::new();
        nodes.push(clone_node(&doc.nodes[i]));
        let one = Document { nodes };
        let ghost d = one;
        let ghost bm = bindings@;
        let node_val = RuntimeValue::Document(one);
        let m = match_inner(&sub_patterns[i], &node_val, bindings);
        proof {
            assert(bound_at(bm));
            assert(matched_document(d));
        }
        proof {
            lemma_single_node_same(sub_patterns@[i as int], d.nodes@[0], doc.nodes@[i as int]);
            assert(d.nodes@ =~= seq![d.nodes@[0]]);
        }
        if !m {
            return false;
        }
        i += 1;
    }
    true
}

/// Matches a document pattern against a document: an inline pattern matches the only
/// inline of some single-inline paragraph; block patterns match nothing.
fn match_document_pattern(pattern: &DocumentPattern, doc: &Document, bindings: &mut Bindings) -> (r: bool)
    ensures
        r == doc_pattern_matches(*pattern, doc.nodes@),
        r ==> captures_bound(final(bindings)@, doc_captures(*pattern, doc.nodes@)),
    decreases *pattern,
{
    match pattern {
        DocumentPattern::Inline(inline_pat) => {
            let mut k: usize = 0;
            while k < doc.nodes.len()
                invariant
                    k <= doc.nodes.len(),
                    *pattern == DocumentPattern::Inline(*inline_pat),
                    forall|j: int|
                        0 <= j < k ==> !(#[trigger] doc.nodes@[j] matches DocumentNode::Paragraph(inl) && inl@.len()
                            == 1 && inline_pattern_matches(*inline_pat, inl@[0])),
                decreases doc.nodes.len() - k,
            {
                if let DocumentNode::Paragraph(inlines) = &doc.nodes[k] {
                    if inlines.len() == 1 {
                        let ghost b0 = bindings@;
                        if match_inline_pattern(inline_pat, &inlines[0], bindings) {
                            assert(doc.nodes@[k as int] matches DocumentNode::Paragraph(inl) && inl@.len() == 1
                                && inline_pattern_matches(*inline_pat, inl@[0]));
                            proof {
                                lemma_first_paragraph(*inline_pat, doc.nodes@, 0, k as int);
                                assert(captures_held(b0, b0, Map::empty()));
                                assert(captures_held(bindings@, b0, inline_captures(*inline_pat, inlines@[0], Map::empty())));
                            }
                            return true;
                        }
                    }
                }
                k += 1;
            }
            false
        },
        DocumentPattern::Block(_) => false,
    }
}

/// Matches an inline pattern against an inline node.
fn match_inline_pattern(pattern: &InlinePattern, inline: &InlineNode, bindings: &mut Bindings) -> (r: bool)
    ensures
        r == inline_pattern_matches(*pattern, *inline),
        r ==> forall|base: Seq<(String, RuntimeValue)>, m: Map<Seq<char>, Seq<char>>|
            captures_held(old(bindings)@, base, m) ==> #[trigger] captures_held(
                final(bindings)@,
                base,
                inline_captures(*pattern, *inline, m),
            ),
    decreases *pattern, 1nat,
{
    match (pattern, inline) {
        (InlinePattern::Text(expected), InlineNode::Text(actual)) => is_word(expected.as_str(), actual.as_str()),
        (InlinePattern::Capture(name), node) => {
            let val = inline_node_to_value(node);
            let ghost b0 = bindings@;
            let ghost v = val;
            bind(bindings, name.as_str(), val);
            proof {
                lemma_bind_held(b0, bindings@, name@, v, inline_plain_text(*node));
            }
            true
        },
        (InlinePattern::Strong(subs), InlineNode::Strong(children))
        | (InlinePattern::Emphasis(subs), InlineNode::Emphasis(children))
        | (InlinePattern::Strikethrough(subs), InlineNode::Strikethrough(children)) => {
            let r = match_inline_children(subs, children, bindings);
            proof {
                if r {
                    assert forall|base: Seq<(String, RuntimeValue)>, m: Map<Seq<char>, Seq<char>>|
                        captures_held(old(bindings)@, base, m) implies #[trigger] captures_held(
                            bindings@,
                            base,
                            inline_captures(*pattern, *inline, m),
                        ) by {
                        assert(inline_captures(*pattern, *inline, m) == children_captures(subs@, children@, m));
                    }
                }
            }
            r
        },
        (InlinePattern::CodeSpan(expected), InlineNode::CodeSpan(actual)) => is_word(expected.as_str(), actual.as_str()),
        _ => false,
    }
}

/// Matches inline patterns against inline nodes: a single capture takes the plain text of
/// all the nodes; otherwise they match one for one.
fn match_inline_children(patterns: &Vec<InlinePattern>, children: &Vec<InlineNode>, bindings: &mut Bindings) -> (r: bool)
    ensures
        r == inline_children_match(patterns@, children@),
        r ==> forall|base: Seq<(String, RuntimeValue)>, m: Map<Seq<char>, Seq<char>>|
            captures_held(old(bindings)@, base, m) ==> #[trigger] captures_held(
                final(bindings)@,
                base,
                children_captures(patterns@, children@, m),
            ),
    decreases *patterns, 0nat,
{
    if patterns.len() == 1 {
        if let InlinePattern::Capture(name) = &patterns[0] {
            let mut text = String::new();
            let mut k: usize = 0;
            while k < children.len()
                invariant
                    k <= children.len(),
                    text@ == inlines_plain_text(children@.take(k as int)),
                decreases children.len() - k,
            {
                let t = inline_node_to_string(&children[k]);
                push_str(&mut text, t.as_str());
                proof {
                    assert(children@.take(k + 1).drop_last() =~= children@.take(k as int));
                }
                k += 1;
            }
            assert(children@.take(children.len() as int) =~= children@);
            let ghost b0 = bindings@;
            let val = RuntimeValue::String(text);
            let ghost v = val;
            bind(bindings, name.as_str(), val);
            proof {
                lemma_bind_held(b0, bindings@, name@, v, inlines_plain_text(children@));
            }
            return true;
        }
    }
    if patterns.len() != children.len() {
        return false;
    }
    let mut k: usize = 0;
    while k < patterns.len()
        invariant
            k <= patterns.len() == children.len(),
            !(patterns@.len() == 1 && patterns@[0] is Capture),
            forall|j: int| 0 <= j < k ==> inline_pattern_matches(#[trigger] patterns@[j], children@[j]),
            forall|base: Seq<(String, RuntimeValue)>, m: Map<Seq<char>, Seq<char>>|
                captures_held(old(bindings)@, base, m) ==> #[trigger] captures_held(
                    bindings@,
                    base,
                    children_fold(patterns@, children@, k as int, m),
                ),
        decreases patterns.len() - k,
    {
        proof {
            vstd::std_specs::vec::axiom_vec_index_decreases(*patterns, k as int);
        }
        let ghost bk = bindings@;
        if !match_inline_pattern(&patterns[k], &children[k], bindings) {
            return false;
        }
        proof {
            assert forall|base: Seq<(String, RuntimeValue)>, m: Map<Seq<char>, Seq<char>>|
                captures_held(old(bindings)@, base, m) implies #[trigger] captures_held(
                    bindings@,
                    base,
                    children_fold(patterns@, children@, k + 1, m),
                ) by {
                assert(captures_held(bk, base, children_fold(patterns@, children@, k as int, m)));
                assert(children_fold(patterns@, children@, k + 1, m) == inline_captures(
                    patterns@[k as int],
                    children@[k as int],
                    children_fold(patterns@, children@, k as int, m),
                ));
                assert(captures_held(
                    bindings@,
                    base,
                    inline_captures(patterns@[k as int], children@[k as int], children_fold(patterns@, children@, k as int, m)),
                ));
            }
        }
        k += 1;
    }
    proof {
        assert forall|base: Seq<(String, RuntimeValue)>, m: Map<Seq<char>, Seq<char>>|
            captures_held(old(bindings)@, base, m) implies #[trigger] captures_held(
                bindings@,
                base,
                children_captures(patterns@, children@, m),
            ) by {
            assert(children_captures(patterns@, children@, m) == children_fold(
                patterns@,
                children@,
                patterns@.len() as int,
                m,
            ));
        }
    }
    true
}

/// The value an inline node is captured as: its plain text, as a string.
pub fn inline_node_to_value(node: &InlineNode) -> (r: RuntimeValue)
    ensures
        r matches RuntimeValue::String(s) && s@ == inline_plain_text(*node),
{
    RuntimeValue::String(inline_node_to_string(node))
}

/// The plain text of an inline node: text and code as they are, the texts of the children
/// of bold, emphasis and strikethrough, a space for a soft break, a newline for a hard
/// break, and nothing for links and images.
pub open spec fn inline_plain_text(node: InlineNode) -> Seq<char>
    decreases node, 1nat,
{
    match node {
        InlineNode::Text(s) => s@,
        InlineNode::Strong(c) => inlines_plain_text(c@),
        InlineNode::Emphasis(c) => inlines_plain_text(c@),
        InlineNode::Strikethrough(c) => inlines_plain_text(c@),
        InlineNode::CodeSpan(s) => s@,
        InlineNode::SoftBreak => seq![' '],
        InlineNode::HardBreak => seq!['\n'],
        _ => seq![],
    }
}

pub open spec fn inlines_plain_text(s: Seq<InlineNode>) -> Seq<char>
    decreases s, 0nat,
{
    if s.len() == 0 {
        seq![]
    } else {
        inlines_plain_text(s.drop_last()) + inline_plain_text(s.last())
    }
}

/// Converts an inline node to its plain text.
pub fn inline_node_to_string(node: &InlineNode) -> (s: String)
    ensures
        s@ == inline_plain_text(*node),
    decreases *node, 1nat,
{
    match node {
        InlineNode::Text(t) => t.clone(),
        InlineNode::Strong(c) => inlines_to_string(c),
        InlineNode::Emphasis(c) => inlines_to_string(c),
        InlineNode::Strikethrough(c) => inlines_to_string(c),
        InlineNode::CodeSpan(t) => t.clone(),
        InlineNode::SoftBreak => {
            proof {
                reveal_strlit(" ");
            }
            " ".to_owned()
        },
        InlineNode::HardBreak => {
            proof {
                reveal_strlit("\n");
            }
            "\n".to_owned()
        },
        _ => String::new(),
    }
}

fn inlines_to_string(v: &Vec<InlineNode>) -> (s: String)
    ensures
        s@ == inlines_plain_text(v@),
    decreases *v, 0nat,
{
    let mut s = String::new();
    let mut i: usize = 0;
    while i < v.len()
        invariant
            i <= v.len(),
            s@ == inlines_plain_text(v@.take(i as int)),
        decreases v.len() - i,
    {
        proof {
            vstd::std_specs::vec::axiom_vec_index_decreases(*v, i as int);
        }
        let t = inline_node_to_string(&v[i]);
        push_str(&mut s, t.as_str());
        proof {
            assert(v@.take(i + 1).drop_last() =~= v@.take(i as int));
        }
        i += 1;
    }
    assert(v@.take(v.len() as int) =~= v@);
    s
}

} // verus!
