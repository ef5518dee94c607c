//! Scopes, variables and the tracking of same-fence reads and writes.
use vstd::prelude::*;
use std::ops::Range;
use crate::runtime::{RuntimeValue, clone_runtime_value};
use crate::ast::copy_span;
use crate::item_lexer::is_word;

verus! {

// ---------------------------------------------------------------------------
// Association lists keyed by name: the first entry with a name is the one that counts
// ---------------------------------------------------------------------------

/// The value of the first entry named `name`.
pub open spec fn lookup<V>(entries: Seq<(String, V)>, name: Seq<char>) -> Option<V>
    decreases entries.len(),
{
    if entries.len() == 0 {
        None
    } else if entries[0].0@ == name {
        Some(entries[0].1)
    } else {
        lookup(entries.drop_first(), name)
    }
}

pub proof fn lemma_lookup_at<V>(entries: Seq<(String, V)>, name: Seq<char>, k: int)
    requires
        0 <= k < entries.len(),
        entries[k].0@ == name,
        forall|j: int| 0 <= j < k ==> (#[trigger] entries[j]).0@ != name,
    ensures
        lookup(entries, name) == Some(entries[k].1),
    decreases k,
{
    if k > 0 {
        lemma_lookup_at(entries.drop_first(), name, k - 1);
    }
}

pub proof fn lemma_lookup_none<V>(entries: Seq<(String, V)>, name: Seq<char>)
    requires
        forall|j: int| 0 <= j < entries.len() ==> (#[trigger] entries[j]).0@ != name,
    ensures
        lookup(entries, name) is None,
    decreases entries.len(),
{
    if entries.len() > 0 {
        lemma_lookup_none(entries.drop_first(), name);
    }
}

proof fn lemma_lookup_update<V>(entries: Seq<(String, V)>, name: Seq<char>, k: int, v: V, other: Seq<char>)
    requires
        0 <= k < entries.len(),
        entries[k].0@ == name,
        forall|j: int| 0 <= j < k ==> (#[trigger] entries[j]).0@ != name,
    ensures
        lookup(entries.update(k, (entries[k].0, v)), name) == Some(v),
        other != name ==> lookup(entries.update(k, (entries[k].0, v)), other) == lookup(entries, other),
    decreases k,
{
    let u = entries.update(k, (entries[k].0, v));
    if k > 0 {
        assert(u.drop_first() =~= entries.drop_first().update(k - 1, (entries[k].0, v)));
        lemma_lookup_update(entries.drop_first(), name, k - 1, v, other);
    } else {
        assert(u.drop_first() =~= entries.drop_first());
    }
}

proof fn lemma_lookup_push<V>(entries: Seq<(String, V)>, key: String, v: V, other: Seq<char>)
    requires
        lookup(entries, key@) is None,
    ensures
        lookup(entries.push((key, v)), key@) == Some(v),
        other != key@ ==> lookup(entries.push((key, v)), other) == lookup(entries, other),
    decreases entries.len(),
{
    let p = entries.push((key, v));
    if entries.len() > 0 {
        assert(p.drop_first() =~= entries.drop_first().push((key, v)));
        assert(p[0] == entries[0]);
        lemma_lookup_push(entries.drop_first(), key, v, other);
        if entries[0].0@ != other {
            assert(lookup(p, other) == lookup(p.drop_first(), other));
            assert(lookup(entries, other) == lookup(entries.drop_first(), other));
        }
    } else {
        assert(p.drop_first() =~= Seq::<(String, V)>::empty());
        assert(p[0] == (key, v));
        if other != key@ {
            assert(lookup(p, other) == lookup(p.drop_first(), other));
        }
    }
}

/// The index of the first entry named `name`.
pub fn find_entry<V>(entries: &Vec<(String, V)>, name: &str) -> (r: Option<usize>)
    ensures
        match r {
            Some(k) => k < entries@.len() && entries@[k as int].0@ == name@ && forall|j: int|
                0 <= j < k ==> (#[trigger] entries@[j]).0@ != name@,
            None => forall|j: int| 0 <= j < entries@.len() ==> (#[trigger] entries@[j]).0@ != name@,
        },
{
    let mut k: usize = 0;
    while k < entries.len()
        invariant
            k <= entries.len(),
            forall|j: int| 0 <= j < k ==> (#[trigger] entries@[j]).0@ != name@,
        decreases entries.len() - k,
    {
        if is_word(entries[k].0.as_str(), name) {
            return Some(k);
        }
        k += 1;
    }
    None
}

/// The index of the first entry named `name`.
pub open spec fn entry_index<V>(entries: Seq<(String, V)>, name: Seq<char>) -> Option<int>
    decreases entries.len(),
{
    if entries.len() == 0 {
        None
    } else if entries[0].0@ == name {
        Some(0)
    } else {
        match entry_index(entries.drop_first(), name) {
            Some(k) => Some(k + 1),
            None => None,
        }
    }
}

proof fn lemma_entry_index<V>(entries: Seq<(String, V)>, name: Seq<char>, k: int)
    requires
        0 <= k <= entries.len(),
        k < entries.len() ==> entries[k].0@ == name,
        forall|j: int| 0 <= j < k ==> (#[trigger] entries[j]).0@ != name,
    ensures
        entry_index(entries, name) == if k < entries.len() {
            Some(k)
        } else {
            None::<int>
        },
    decreases k,
{
    if k > 0 {
        assert forall|j: int| 0 <= j < k - 1 implies (#[trigger] entries.drop_first()[j]).0@ != name by {
            assert(entries.drop_first()[j] == entries[j + 1]);
        }
        lemma_entry_index(entries.drop_first(), name, k - 1);
    } else if entries.len() > 0 {
    }
}

/// `after` is `before` with `item` added to the list of the first entry named `name`, or
/// with a new entry for `name` holding just `item` at the end.
pub open spec fn appended_entry<T>(
    before: Seq<(String, Vec<T>)>,
    after: Seq<(String, Vec<T>)>,
    name: Seq<char>,
    item: T,
) -> bool {
    match entry_index(before, name) {
        Some(k) => {
            &&& after.len() == before.len()
            &&& forall|j: int| 0 <= j < before.len() && j != k ==> after[j] == before[j]
            &&& after[k].0 == before[k].0
            &&& after[k].1@ == before[k].1@.push(item)
        },
        None => {
            &&& after.len() == before.len() + 1
            &&& forall|j: int| 0 <= j < before.len() ==> after[j] == before[j]
            &&& after.last().0@ == name
            &&& after.last().1@ == seq![item]
        },
    }
}

/// Adds `item` to the list of `name`, as `appended_entry` says.
fn append_to_entry<T>(entries: &mut Vec<(String, Vec<T>)>, name: &str, item: T)
    ensures
        appended_entry(old(entries)@, final(entries)@, name@, item),
{
    match find_entry(entries, name) {
        Some(k) => {
            proof {
                lemma_entry_index(old(entries)@, name@, k as int);
            }
            let (key, mut list) = entries.remove(k);
            list.push(item);
            entries.insert(k, (key, list));
        },
        None => {
            proof {
                lemma_entry_index(old(entries)@, name@, old(entries)@.len() as int);
            }
            let mut list = Vec::new();
            list.push(item);
            entries.push((name.to_owned(), list));
        },
    }
}

/// Sets the entry named `key`: afterwards `key` has `v`, and every other name keeps its value.
pub fn insert_entry<V>(entries: &mut Vec<(String, V)>, key: String, v: V)
    ensures
        lookup(final(entries)@, key@) == Some(v),
        forall|other: Seq<char>|
            other != key@ ==> #[trigger] lookup(final(entries)@, other) == lookup(old(entries)@, other),
{
    let ghost before = entries@;
    let ghost name = key@;
    match find_entry(entries, key.as_str()) {
        Some(k) => {
            entries.set(k, (key, v));
            proof {
                assert forall|other: Seq<char>| #[trigger] lookup(entries@, other) == if other == name {
                    Some(v)
                } else {
                    lookup(before, other)
                } by {
                    lemma_lookup_update_key(before, name, k as int, entries@[k as int].0, v, other);
                    assert(entries@ =~= before.update(k as int, (entries@[k as int].0, v)));
                }
            }
        },
        None => {
            entries.push((key, v));
            proof {
                lemma_lookup_none(before, name);
                assert forall|other: Seq<char>| #[trigger] lookup(entries@, other) == if other == name {
                    Some(v)
                } else {
                    lookup(before, other)
                } by {
                    lemma_lookup_push(before, entries@.last().0, v, other);
                    assert(entries@ =~= before.push((entries@.last().0, v)));
                }
            }
        },
    }
}

// ---------------------------------------------------------------------------
// Scopes
// ---------------------------------------------------------------------------

/// A single scope level, belonging to one block invocation.
#[derive(Debug)]
pub struct Scope {
    /// The variables, each hoisted (`None`) or assigned (`Some`).
    pub variables: Vec<(String, Option<RuntimeValue>)>,
    /// The positional arguments (`#0`, `#1`, ...).
    pub arguments: Vec<RuntimeValue>,
    /// The name of the block this scope belongs to.
    pub block_name: String,
    /// The names of the block's lexical ancestors: parent, grandparent, ...
    pub lexical_ancestors: Vec<String>,
}

impl Scope {
    /// A scope where every hoisted variable exists and none is assigned yet.
    pub fn new(
        arguments: Vec<RuntimeValue>,
        hoisted_vars: Vec<String>,
        block_name: String,
        lexical_ancestors: Vec<String>,
    ) -> (s: Scope)
        ensures
            forall|name: Seq<char>| #[trigger] lookup(s.variables@, name) == if exists|k: int|
                0 <= k < hoisted_vars@.len() && hoisted_vars@[k]@ == name {
                Some(None::<RuntimeValue>)
            } else {
                None
            },
            s.arguments@ == arguments@,
            s.block_name == block_name,
            s.lexical_ancestors@ == lexical_ancestors@,
    {
        let mut variables: Vec<(String, Option<RuntimeValue>)> = Vec::new();
        let mut i: usize = 0;
        while i < hoisted_vars.len()
            invariant
                i <= hoisted_vars.len(),
                forall|name: Seq<char>| #[trigger] lookup(variables@, name) == if exists|k: int|
                    0 <= k < i && hoisted_vars@[k]@ == name {
                    Some(None::<RuntimeValue>)
                } else {
                    None
                },
            decreases hoisted_vars.len() - i,
        {
            let name = hoisted_vars[i].clone();
            let ghost before = variables@;
            match find_entry(&variables, name.as_str()) {
                Some(k) => {
                    variables.set(k, (name, None));
                    proof {
                        assert forall|n: Seq<char>| #[trigger] lookup(variables@, n) == if exists|j: int|
                            0 <= j < i + 1 && hoisted_vars@[j]@ == n {
                            Some(None::<RuntimeValue>)
                        } else {
                            None
                        } by {
                            lemma_lookup_update_key(before, hoisted_vars@[i as int]@, k as int, variables@[k as int].0, None, n);
                            assert(variables@ =~= before.update(k as int, (variables@[k as int].0, None)));
                            lemma_lookup_at(before, hoisted_vars@[i as int]@, k as int);
                            if n != hoisted_vars@[i as int]@ {
                                if exists|j: int| 0 <= j < i + 1 && hoisted_vars@[j]@ == n {
                                    let j = choose|j: int| 0 <= j < i + 1 && hoisted_vars@[j]@ == n;
                                    assert(j < i);
                                }
                            }
                        }
                    }
                },
                None => {
                    variables.push((name, None));
                    proof {
                        lemma_lookup_none(before, hoisted_vars@[i as int]@);
                        assert forall|n: Seq<char>| #[trigger] lookup(variables@, n) == if exists|j: int|
                            0 <= j < i + 1 && hoisted_vars@[j]@ == n {
                            Some(None::<RuntimeValue>)
                        } else {
                            None
                        } by {
                            lemma_lookup_push(before, hoisted_vars@[i as int], None, n);
                            if n != hoisted_vars@[i as int]@ {
                                if exists|j: int| 0 <= j < i + 1 && hoisted_vars@[j]@ == n {
                                    let j = choose|j: int| 0 <= j < i + 1 && hoisted_vars@[j]@ == n;
                                    assert(j < i);
                                }
                            }
                        }
                    }
                },
            }
            i += 1;
        }
        Scope { variables, arguments, block_name, lexical_ancestors }
    }

    /// The variable's slot: `Some(None)` when hoisted and unassigned, `Some(Some(v))` when
    /// assigned, `None` when the scope has no such variable.
    pub fn get_variable(&self, name: &str) -> (r: Option<&Option<RuntimeValue>>)
        ensures
            r == match lookup(self.variables@, name@) {
                Some(o) => Some(&o),
                None => None::<&Option<RuntimeValue>>,
            },
    {
        match find_entry(&self.variables, name) {
            Some(k) => {
                proof {
                    lemma_lookup_at(self.variables@, name@, k as int);
                }
                Some(&self.variables[k].1)
            },
            None => {
                proof {
                    lemma_lookup_none(self.variables@, name@);
                }
                None
            },
        }
    }

    /// Assigns a variable of this scope: afterwards it holds `value`, and every other
    /// variable is as it was.
    pub fn set_variable(&mut self, name: &str, value: RuntimeValue)
        ensures
            lookup(final(self).variables@, name@) == Some(Some(value)),
            forall|other: Seq<char>|
                other != name@ ==> #[trigger] lookup(final(self).variables@, other) == lookup(
                    old(self).variables@,
                    other,
                ),
            final(self).arguments@ == old(self).arguments@,
            final(self).block_name == old(self).block_name,
            final(self).lexical_ancestors@ == old(self).lexical_ancestors@,
    {
        let ghost before = self.variables@;
        match find_entry(&self.variables, name) {
            Some(k) => {
                let key = name.to_owned();
                self.variables.set(k, (key, Some(value)));
                proof {
                    assert forall|other: Seq<char>| #[trigger] lookup(self.variables@, other) == if other == name@ {
                        Some(Some(value))
                    } else {
                        lookup(before, other)
                    } by {
                        lemma_lookup_update(before, name@, k as int, Some(value), other);
                        assert(self.variables@ == before.update(k as int, (self.variables@[k as int].0, Some(value))));
                        lemma_lookup_update_key(before, name@, k as int, self.variables@[k as int].0, Some(value), other);
                    }
                }
            },
            None => {
                let key = name.to_owned();
                self.variables.push((key, Some(value)));
                proof {
                    lemma_lookup_none(before, name@);
                    assert forall|other: Seq<char>| #[trigger] lookup(self.variables@, other) == if other == name@ {
                        Some(Some(value))
                    } else {
                        lookup(before, other)
                    } by {
                        lemma_lookup_push(before, self.variables@.last().0, Some(value), other);
                    }
                }
            },
        }
    }

    pub fn get_argument(&self, index: usize) -> (r: Option<&RuntimeValue>)
        ensures
            r == if index < self.arguments@.len() {
                Some(&self.arguments@[index as int])
            } else {
                None::<&RuntimeValue>
            },
    {
        if index < self.arguments.len() {
            Some(&self.arguments[index])
        } else {
            None
        }
    }

    pub fn get_all_arguments(&self) -> (r: &[RuntimeValue])
        ensures
            r@ == self.arguments@,
    {
        self.arguments.as_slice()
    }
}

proof fn lemma_lookup_update_key<V>(entries: Seq<(String, V)>, name: Seq<char>, k: int, key: String, v: V, other: Seq<char>)
    requires
        0 <= k < entries.len(),
        entries[k].0@ == name,
        key@ == name,
        forall|j: int| 0 <= j < k ==> (#[trigger] entries[j]).0@ != name,
    ensures
        lookup(entries.update(k, (key, v)), name) == Some(v),
        other != name ==> lookup(entries.update(k, (key, v)), other) == lookup(entries, other),
    decreases k,
{
    let u = entries.update(k, (key, v));
    if k > 0 {
        assert(u.drop_first() =~= entries.drop_first().update(k - 1, (key, v)));
        lemma_lookup_update_key(entries.drop_first(), name, k - 1, key, v, other);
    } else {
        assert(u.drop_first() =~= entries.drop_first());
    }
}

// ---------------------------------------------------------------------------
// Same-fence tracking
// ---------------------------------------------------------------------------

/// The reads and writes of variables during one fence group.
#[derive(Debug)]
pub struct FenceContext {
    /// For each variable read: the index of each reading instruction, with the span.
    pub reads: Vec<(String, Vec<(usize, Range<usize>)>)>,
    /// For each variable written: the index of each writing instruction.
    pub writes: Vec<(String, Vec<usize>)>,
    /// The index of the instruction now running within the fence group.
    pub current_instruction: usize,
}

/// The spans of the reads that some write by a different instruction conflicts with.
pub open spec fn conflicting_reads(entries: Seq<(usize, Range<usize>)>, writes: Seq<usize>) -> Seq<Range<usize>>
    decreases entries.len(),
{
    if entries.len() == 0 {
        seq![]
    } else {
        let rest = conflicting_reads(entries.drop_last(), writes);
        let e = entries.last();
        if exists|w: int| 0 <= w < writes.len() && writes[w] != e.0 {
            rest.push(e.1)
        } else {
            rest
        }
    }
}

/// The same-fence violations: for each variable read (in order of first read) that was
/// also written, the spans of its reads that conflict with a write by another instruction,
/// when there are any.
pub open spec fn violations(
    reads: Seq<(String, Vec<(usize, Range<usize>)>)>,
    writes: Seq<(String, Vec<usize>)>,
) -> Seq<(Seq<char>, Seq<Range<usize>>)>
    decreases reads.len(),
{
    if reads.len() == 0 {
        seq![]
    } else {
        let rest = violations(reads.drop_last(), writes);
        let name = reads.last().0;
        match lookup(writes, name@) {
            Some(ws) => {
                let c = conflicting_reads(reads.last().1@, ws@);
                if c.len() > 0 {
                    rest.push((name@, c))
                } else {
                    rest
                }
            },
            None => rest,
        }
    }
}

/// What a variable lookup through the scopes finds.
pub enum VariableLookup<'a> {
    /// The variable has a value.
    Found {
        value: &'a RuntimeValue,
        /// It was found in an outer scope rather than the current one.
        cross_scope: bool,
        /// It was found in a scope that is not a lexical ancestor of the current block:
        /// reading it is undefined behavior.
        non_lexical_scope: bool,
    },
    /// The variable is hoisted but not assigned yet: reading it is undefined behavior.
    HoistedUnassigned,
    /// No scope has the variable.
    NotFound,
}

/// The index (from the outermost) of the innermost scope that has `name`, or -1.
pub open spec fn scope_index(scopes: Seq<Scope>, name: Seq<char>) -> int
    decreases scopes.len(),
{
    if scopes.len() == 0 {
        -1
    } else if lookup(scopes.last().variables@, name) is Some {
        scopes.len() - 1
    } else {
        scope_index(scopes.drop_last(), name)
    }
}

proof fn lemma_scope_index(scopes: Seq<Scope>, name: Seq<char>)
    ensures
        -1 <= scope_index(scopes, name) < scopes.len(),
        scope_index(scopes, name) >= 0 ==> lookup(scopes[scope_index(scopes, name)].variables@, name) is Some,
        forall|j: int| scope_index(scopes, name) < j < scopes.len() ==> lookup(#[trigger] scopes[j].variables@, name) is None,
    decreases scopes.len(),
{
    if scopes.len() > 0 && lookup(scopes.last().variables@, name) is None {
        lemma_scope_index(scopes.drop_last(), name);
        assert forall|j: int| scope_index(scopes, name) < j < scopes.len() implies lookup(#[trigger] scopes[j].variables@, name) is None by {
            if j < scopes.len() - 1 {
                assert(scopes[j] == scopes.drop_last()[j]);
            }
        }
    }
}

/// The value a name has through the scopes: the innermost scope that has it decides.
pub open spec fn env_value(scopes: Seq<Scope>, name: Seq<char>) -> Option<RuntimeValue> {
    let k = scope_index(scopes, name);
    if k < 0 {
        None
    } else {
        lookup(scopes[k].variables@, name).unwrap()
    }
}

/// A scope belongs neither to the current block nor to one of its lexical ancestors.
pub open spec fn outside_lineage(found: Scope, current: Scope) -> bool {
    &&& found.block_name@ != current.block_name@
    &&& !exists|k: int|
        0 <= k < current.lexical_ancestors@.len() && (#[trigger] current.lexical_ancestors@[k])@
            == found.block_name@
}

/// Scopes nest: a name that the innermost scope has takes its slot there (a hoisted,
/// unassigned one has no value), any other name has the value it has in the outer scopes;
/// and once that scope is popped, every name has its value from before the push.
pub proof fn law_inner_scope_shadows(scopes: Seq<Scope>, inner: Scope, name: Seq<char>)
    ensures
        env_value(scopes.push(inner), name) == match lookup(inner.variables@, name) {
            Some(slot) => slot,
            None => env_value(scopes, name),
        },
        env_value(scopes.push(inner).drop_last(), name) == env_value(scopes, name),
{
    let s = scopes.push(inner);
    assert(s.drop_last() =~= scopes);
    if lookup(inner.variables@, name) is None {
        lemma_scope_index(scopes, name);
        let k = scope_index(scopes, name);
        if k >= 0 {
            assert(s[k] == scopes[k]);
        }
    }
}

/// The full environment: a stack of scopes, and a stack of fence contexts.
#[derive(Debug)]
pub struct Environment {
    pub scopes: Vec<Scope>,
    pub fence_stack: Vec<FenceContext>,
}

impl Environment {
    pub fn new() -> (e: Environment)
        ensures
            e.scopes@.len() == 0,
            e.fence_stack@.len() == 0,
    {
        Environment { scopes: Vec::new(), fence_stack: Vec::new() }
    }

    /// Begins tracking the accesses of a new fence group.
    pub fn push_fence_context(&mut self)
        ensures
            final(self).scopes@ == old(self).scopes@,
            final(self).fence_stack@.len() == old(self).fence_stack@.len() + 1,
            final(self).fence_stack@.drop_last() == old(self).fence_stack@,
            final(self).fence_stack@.last().reads@.len() == 0,
            final(self).fence_stack@.last().writes@.len() == 0,
            final(self).fence_stack@.last().current_instruction == 0,
    {
        self.fence_stack.push(FenceContext { reads: Vec::new(), writes: Vec::new(), current_instruction: 0 });
        assert(self.fence_stack@.drop_last() =~= old(self).fence_stack@);
    }

    /// Sets the index of the instruction now running in the current fence group.
    pub fn set_fence_instruction(&mut self, idx: usize)
        ensures
            final(self).scopes@ == old(self).scopes@,
            final(self).fence_stack@.len() == old(self).fence_stack@.len(),
            final(self).fence_stack@.len() > 0 ==> final(self).fence_stack@.last().current_instruction == idx,
            final(self).fence_stack@.len() > 0 ==> final(self).fence_stack@.last().reads@ == old(self).fence_stack@.last().reads@,
            final(self).fence_stack@.len() > 0 ==> final(self).fence_stack@.last().writes@ == old(self).fence_stack@.last().writes@,
            final(self).fence_stack@.drop_last() == old(self).fence_stack@.drop_last(),
    {
        let n = self.fence_stack.len();
        if n > 0 {
            let mut ctx = self.fence_stack.pop().unwrap();
            ctx.current_instruction = idx;
            self.fence_stack.push(ctx);
            assert(self.fence_stack@.drop_last() =~= old(self).fence_stack@.drop_last());
        }
    }

    /// Records a read of `name` at `span` by the current instruction.
    pub fn record_fence_read(&mut self, name: &str, span: Range<usize>)
        ensures
            final(self).scopes@ == old(self).scopes@,
            final(self).fence_stack@.len() == old(self).fence_stack@.len(),
            old(self).fence_stack@.len() == 0 ==> final(self).fence_stack@ == old(self).fence_stack@,
            old(self).fence_stack@.len() > 0 ==> {
                let o = old(self).fence_stack@.last();
                let f = final(self).fence_stack@.last();
                &&& final(self).fence_stack@.drop_last() == old(self).fence_stack@.drop_last()
                &&& f.writes == o.writes
                &&& f.current_instruction == o.current_instruction
                &&& appended_entry(o.reads@, f.reads@, name@, (o.current_instruction, span))
            },
    {
        let n = self.fence_stack.len();
        if n > 0 {
            let mut ctx = self.fence_stack.pop().unwrap();
            let idx = ctx.current_instruction;
            append_to_entry(&mut ctx.reads, name, (idx, span));
            self.fence_stack.push(ctx);
            assert(self.fence_stack@.drop_last() =~= old(self).fence_stack@.drop_last());
        }
    }

    /// Records a write of `name` by the current instruction.
    pub fn record_fence_write(&mut self, name: &str)
        ensures
            final(self).scopes@ == old(self).scopes@,
            final(self).fence_stack@.len() == old(self).fence_stack@.len(),
            old(self).fence_stack@.len() == 0 ==> final(self).fence_stack@ == old(self).fence_stack@,
            old(self).fence_stack@.len() > 0 ==> {
                let o = old(self).fence_stack@.last();
                let f = final(self).fence_stack@.last();
                &&& final(self).fence_stack@.drop_last() == old(self).fence_stack@.drop_last()
                &&& f.reads == o.reads
                &&& f.current_instruction == o.current_instruction
                &&& appended_entry(o.writes@, f.writes@, name@, o.current_instruction)
            },
    {
        let n = self.fence_stack.len();
        if n > 0 {
            let mut ctx = self.fence_stack.pop().unwrap();
            let idx = ctx.current_instruction;
            append_to_entry(&mut ctx.writes, name, idx);
            self.fence_stack.push(ctx);
            assert(self.fence_stack@.drop_last() =~= old(self).fence_stack@.drop_last());
        }
    }

    /// Ends the current fence context and gives its violations: the variables read by one
    /// instruction and written by a different one of the same fence group, each with the
    /// spans of those reads.
    pub fn pop_fence_context(&mut self) -> (r: Vec<(String, Vec<Range<usize>>)>)
        requires
            old(self).fence_stack@.len() > 0,
        ensures
            final(self).scopes@ == old(self).scopes@,
            final(self).fence_stack@ == old(self).fence_stack@.drop_last(),
            r@.len() == violations(old(self).fence_stack@.last().reads@, old(self).fence_stack@.last().writes@).len(),
            forall|k: int|
                0 <= k < r@.len() ==> (#[trigger] r@[k]).0@ == violations(
                    old(self).fence_stack@.last().reads@,
                    old(self).fence_stack@.last().writes@,
                )[k].0 && r@[k].1@ == violations(
                    old(self).fence_stack@.last().reads@,
                    old(self).fence_stack@.last().writes@,
                )[k].1,
    {
        let ctx = self.fence_stack.pop().unwrap();
        let ghost v = violations(ctx.reads@, ctx.writes@);
        let mut out: Vec<(String, Vec<Range<usize>>)> = Vec::new();
        let mut i: usize = 0;
        while i < ctx.reads.len()
            invariant
                i <= ctx.reads@.len(),
                out@.len() == violations(ctx.reads@.take(i as int), ctx.writes@).len(),
                forall|k: int|
                    0 <= k < out@.len() ==> (#[trigger] out@[k]).0@ == violations(
                        ctx.reads@.take(i as int),
                        ctx.writes@,
                    )[k].0 && out@[k].1@ == violations(ctx.reads@.take(i as int), ctx.writes@)[k].1,
            decreases ctx.reads.len() - i,
        {
            let ghost pre = ctx.reads@.take(i as int);
            let ghost next = ctx.reads@.take(i + 1);
            assert(next.drop_last() =~= pre);
            let name = &ctx.reads[i].0;
            let entries = &ctx.reads[i].1;
            match find_entry(&ctx.writes, name.as_str()) {
                Some(w) => {
                    proof {
                        lemma_lookup_at(ctx.writes@, name@, w as int);
                    }
                    let write_indices = &ctx.writes[w].1;
                    let mut spans: Vec<Range<usize>> = Vec::new();
                    let mut j: usize = 0;
                    while j < entries.len()
                        invariant
                            j <= entries@.len(),
                            spans@ == conflicting_reads(entries@.take(j as int), write_indices@),
                        decreases entries.len() - j,
                    {
                        assert(entries@.take(j + 1).drop_last() =~= entries@.take(j as int));
                        let read_idx = entries[j].0;
                        let mut conflict = false;
                        let mut m: usize = 0;
                        while m < write_indices.len()
                            invariant
                                m <= write_indices@.len(),
                                conflict == exists|q: int| 0 <= q < m && write_indices@[q] != read_idx,
                            decreases write_indices.len() - m,
                        {
                            if write_indices[m] != read_idx {
                                conflict = true;
                            }
                            m += 1;
                        }
                        if conflict {
                            spans.push(copy_span(&entries[j].1));
                        }
                        j += 1;
                    }
                    assert(entries@.take(entries@.len() as int) =~= entries@);
                    if spans.len() > 0 {
                        out.push((name.clone(), spans));
                    }
                },
                None => {
                    proof {
                        lemma_lookup_none(ctx.writes@, name@);
                    }
                },
            }
            i += 1;
        }
        assert(ctx.reads@.take(ctx.reads@.len() as int) =~= ctx.reads@);
        out
    }

    pub fn push_scope(&mut self, scope: Scope)
        ensures
            final(self).scopes@ == old(self).scopes@.push(scope),
            final(self).fence_stack@ == old(self).fence_stack@,
    {
        self.scopes.push(scope);
    }

    pub fn pop_scope(&mut self) -> (r: Option<Scope>)
        ensures
            old(self).scopes@.len() > 0 ==> r == Some(old(self).scopes@.last()) && final(self).scopes@
                == old(self).scopes@.drop_last(),
            old(self).scopes@.len() == 0 ==> r is None && final(self).scopes@.len() == 0,
            final(self).fence_stack@ == old(self).fence_stack@,
    {
        self.scopes.pop()
    }

    /// The innermost scope, to change in place.
    pub fn current_scope_mut(&mut self) -> (r: &mut Scope)
        requires
            old(self).scopes@.len() > 0,
        ensures
            *r == old(self).scopes@.last(),
            final(self).scopes@ == old(self).scopes@.update(old(self).scopes@.len() - 1, *final(r)),
            final(self).fence_stack@ == old(self).fence_stack@,
    {
        let n = self.scopes.len();
        &mut self.scopes[n - 1]
    }

    /// Looks a variable up from the innermost scope outward: the first scope that has it
    /// decides, and gives nothing when the variable is only hoisted there.
    pub fn get_variable(&self, name: &str) -> (r: Option<&RuntimeValue>)
        ensures
            r == match env_value(self.scopes@, name@) {
                Some(v) => Some(&v),
                None => None::<&RuntimeValue>,
            },
    {
        let mut k = self.scopes.len();
        proof {
            lemma_scope_index(self.scopes@, name@);
        }
        while k > 0
            invariant
                k <= self.scopes@.len(),
                forall|j: int| k <= j < self.scopes@.len() ==> lookup(#[trigger] self.scopes@[j].variables@, name@) is None,
            decreases k,
        {
            match self.scopes[k - 1].get_variable(name) {
                Some(slot) => {
                    proof {
                        lemma_scope_index_is(self.scopes@, name@, k - 1);
                    }
                    return slot.as_ref();
                },
                None => {},
            }
            k -= 1;
        }
        proof {
            lemma_scope_index_is(self.scopes@, name@, -1);
        }
        None
    }

    /// Looks a variable up with where it was found: in the current scope or an outer one,
    /// and whether that scope belongs to the current block or one of its lexical ancestors.
    pub fn get_variable_info(&self, name: &str) -> (r: VariableLookup<'_>)
        requires
            self.scopes@.len() > 0,
        ensures
            env_value(self.scopes@, name@) matches Some(v) ==> (r matches VariableLookup::Found {
                value,
                cross_scope,
                ..
            } && *value == v && cross_scope == (scope_index(self.scopes@, name@) < self.scopes@.len() - 1)),
            r matches VariableLookup::Found { cross_scope, non_lexical_scope, .. } ==> non_lexical_scope == (cross_scope
                && outside_lineage(self.scopes@[scope_index(self.scopes@, name@)], self.scopes@.last())),
            scope_index(self.scopes@, name@) >= 0 && env_value(self.scopes@, name@) is None ==> r is HoistedUnassigned,
            scope_index(self.scopes@, name@) < 0 ==> r is NotFound,
    {
        let n = self.scopes.len();
        let current = &self.scopes[n - 1];
        let mut k = n;
        proof {
            lemma_scope_index(self.scopes@, name@);
        }
        while k > 0
            invariant
                k <= self.scopes@.len() == n,
                *current == self.scopes@[n - 1],
                forall|j: int| k <= j < self.scopes@.len() ==> lookup(#[trigger] self.scopes@[j].variables@, name@) is None,
            decreases k,
        {
            let scope = &self.scopes[k - 1];
            match scope.get_variable(name) {
                Some(slot) => {
                    proof {
                        lemma_scope_index_is(self.scopes@, name@, k - 1);
                    }
                    let cross_scope = k - 1 < n - 1;
                    let non_lexical_scope = cross_scope && !is_word(scope.block_name.as_str(), current.block_name.as_str())
                        && !contains_name(&current.lexical_ancestors, scope.block_name.as_str());
                    return match slot {
                        Some(v) => VariableLookup::Found { value: v, cross_scope, non_lexical_scope },
                        None => VariableLookup::HoistedUnassigned,
                    };
                },
                None => {},
            }
            k -= 1;
        }
        proof {
            lemma_scope_index_is(self.scopes@, name@, -1);
        }
        VariableLookup::NotFound
    }

    /// Whether some scope has the variable (assigned or only hoisted).
    pub fn has_variable(&self, name: &str) -> (r: bool)
        ensures
            r == (scope_index(self.scopes@, name@) >= 0),
    {
        let mut k = self.scopes.len();
        proof {
            lemma_scope_index(self.scopes@, name@);
        }
        while k > 0
            invariant
                k <= self.scopes@.len(),
                forall|j: int| k <= j < self.scopes@.len() ==> lookup(#[trigger] self.scopes@[j].variables@, name@) is None,
            decreases k,
        {
            if self.scopes[k - 1].get_variable(name).is_some() {
                proof {
                    lemma_scope_index_is(self.scopes@, name@, k - 1);
                }
                return true;
            }
            k -= 1;
        }
        proof {
            lemma_scope_index_is(self.scopes@, name@, -1);
        }
        false
    }

    /// Assigns a variable in the current (innermost) scope: afterwards a lookup of `name`
    /// gives `value`, the lookup of every other name is unchanged, and the outer scopes are
    /// left as they were.
    pub fn set_variable(&mut self, name: &str, value: RuntimeValue)
        requires
            old(self).scopes@.len() > 0,
        ensures
            final(self).scopes@.len() == old(self).scopes@.len(),
            env_value(final(self).scopes@, name@) == Some(value),
            forall|other: Seq<char>|
                other != name@ ==> #[trigger] env_value(final(self).scopes@, other) == env_value(
                    old(self).scopes@,
                    other,
                ),
            final(self).fence_stack@ == old(self).fence_stack@,
            forall|j: int| 0 <= j < final(self).scopes@.len() ==> (#[trigger] final(self).scopes@[j]).arguments@ == old(self).scopes@[j].arguments@,
            final(self).scopes@.drop_last() == old(self).scopes@.drop_last(),
            scope_index(final(self).scopes@, name@) >= 0,
            forall|other: Seq<char>|
                other != name@ ==> #[trigger] scope_index(final(self).scopes@, other) == scope_index(
                    old(self).scopes@,
                    other,
                ),
    {
        let ghost before = self.scopes@;
        let mut scope = self.scopes.pop().unwrap();
        let ghost old_scope = scope;
        scope.set_variable(name, value);
        let ghost new_scope = scope;
        self.scopes.push(scope);
        proof {
            let s = self.scopes@;
            assert(s.drop_last() =~= before.drop_last());
            assert(s.last() == new_scope);
            assert(before.last() == old_scope);
            assert(scope_index(s, name@) == s.len() - 1);
            assert forall|other: Seq<char>| other != name@ implies #[trigger] env_value(s, other) == env_value(before, other) by {
                assert(lookup(new_scope.variables@, other) == lookup(old_scope.variables@, other));
                if lookup(s.last().variables@, other) is None {
                    assert(s.drop_last() == before.drop_last());
                    assert(scope_index(s, other) == scope_index(s.drop_last(), other));
                    assert(scope_index(before, other) == scope_index(before.drop_last(), other));
                    let k = scope_index(s, other);
                    lemma_scope_index(s.drop_last(), other);
                    if k >= 0 {
                        assert(s[k] == s.drop_last()[k]);
                        assert(before[k] == before.drop_last()[k]);
                    }
                }
            }
            assert forall|other: Seq<char>| other != name@ implies #[trigger] scope_index(s, other) == scope_index(before, other) by {
                assert(lookup(new_scope.variables@, other) == lookup(old_scope.variables@, other));
                if lookup(s.last().variables@, other) is None {
                    assert(s.drop_last() == before.drop_last());
                    assert(scope_index(s, other) == scope_index(s.drop_last(), other));
                    assert(scope_index(before, other) == scope_index(before.drop_last(), other));
                }
            }
            assert forall|j: int| 0 <= j < s.len() implies (#[trigger] s[j]).arguments@ == before[j].arguments@ by {
                if j < s.len() - 1 {
                    assert(s[j] == before[j]);
                }
            }
        }
    }

    /// A positional argument of the current scope.
    pub fn get_argument(&self, index: usize) -> (r: Option<&RuntimeValue>)
        ensures
            self.scopes@.len() == 0 ==> r is None,
            self.scopes@.len() > 0 ==> r == if index < self.scopes@.last().arguments@.len() {
                Some(&self.scopes@.last().arguments@[index as int])
            } else {
                None::<&RuntimeValue>
            },
    {
        let n = self.scopes.len();
        if n == 0 {
            return None;
        }
        self.scopes[n - 1].get_argument(index)
    }

    /// All positional arguments of the current scope (none without a scope).
    pub fn get_all_arguments(&self) -> (r: &[RuntimeValue])
        ensures
            self.scopes@.len() == 0 ==> r@.len() == 0,
            self.scopes@.len() > 0 ==> r@ == self.scopes@.last().arguments@,
    {
        let n = self.scopes.len();
        if n == 0 {
            return &[];
        }
        self.scopes[n - 1].get_all_arguments()
    }
}

proof fn lemma_scope_index_is(scopes: Seq<Scope>, name: Seq<char>, k: int)
    requires
        -1 <= k < scopes.len(),
        k >= 0 ==> lookup(scopes[k].variables@, name) is Some,
        forall|j: int| k < j < scopes.len() ==> lookup(#[trigger] scopes[j].variables@, name) is None,
    ensures
        scope_index(scopes, name) == k,
    decreases scopes.len(),
{
    if scopes.len() > 0 && k < scopes.len() - 1 {
        assert(lookup(scopes[scopes.len() - 1].variables@, name) is None);
        assert forall|j: int| k < j < scopes.drop_last().len() implies lookup(#[trigger] scopes.drop_last()[j].variables@, name) is None by {
            assert(scopes.drop_last()[j] == scopes[j]);
        }
        if k >= 0 {
            assert(scopes.drop_last()[k] == scopes[k]);
        }
        lemma_scope_index_is(scopes.drop_last(), name, k);
    }
}

/// Whether `name` is one of `names`.
pub fn contains_name(names: &Vec<String>, name: &str) -> (r: bool)
    ensures
        r == exists|k: int| 0 <= k < names@.len() && (#[trigger] names@[k])@ == name@,
{
    let mut k: usize = 0;
    while k < names.len()
        invariant
            k <= names.len(),
            forall|j: int| 0 <= j < k ==> (#[trigger] names@[j])@ != name@,
        decreases names.len() - k,
    {
        if is_word(names[k].as_str(), name) {
            return true;
        }
        k += 1;
    }
    false
}

} // verus!
