//! The blocks of a program by name, with their lexical parents and imported files.
use vstd::prelude::*;
use crate::ast::{Block, BlockReference, Program, Value, TemplateString, TemplateStringPart, Instruction, clone_block,
    last_index_of, is_web_address};
use crate::document::{Document, DocumentNode, InlineNode};
use crate::environment::{lookup, find_entry, insert_entry, lemma_lookup_at, lemma_lookup_none, contains_name};
use crate::runtime::RuntimeError;
use crate::structure::Parser;
use crate::parse_error::ParseError;
use crate::text::{to_lowercase, unicode_lowercase, push_str};
use crate::item_lexer::is_word;

verus! {

/// A copy of a runtime error.
pub fn clone_error(e: &RuntimeError) -> (r: RuntimeError)
    ensures
        crate::runtime::error_text(r) == crate::runtime::error_text(*e),
{
    match e {
        RuntimeError::TypeError { expected, got } => RuntimeError::TypeError { expected: expected.clone(), got: got.clone() },
        RuntimeError::UndefinedVariable(n) => RuntimeError::UndefinedVariable(n.clone()),
        RuntimeError::UndefinedBlock(n) => RuntimeError::UndefinedBlock(n.clone()),
        RuntimeError::ArgumentOutOfBounds(i) => RuntimeError::ArgumentOutOfBounds(*i),
        RuntimeError::NonExhaustiveMatch => RuntimeError::NonExhaustiveMatch,
        RuntimeError::DivisionByZero => RuntimeError::DivisionByZero,
        RuntimeError::NoEntryPoint => RuntimeError::NoEntryPoint,
        RuntimeError::ImportNotImplemented(p) => RuntimeError::ImportNotImplemented(p.clone()),
        RuntimeError::IoError(m) => RuntimeError::IoError(m.clone()),
        RuntimeError::StackOverflow => RuntimeError::StackOverflow,
        RuntimeError::Custom(m) => RuntimeError::Custom(m.clone()),
    }
}

/// A block and every block under it have an entry in the registry and in the parent map.
pub open spec fn tree_registered(b: Block, registry: Seq<(String, Block)>, parent_map: Seq<(String, Option<String>)>) -> bool
    decreases b,
{
    &&& lookup(registry, b.name@) is Some
    &&& lookup(parent_map, b.name@) is Some
    &&& forall|k: int| 0 <= k < b.children@.len() ==> tree_registered(#[trigger] b.children@[k], registry, parent_map)
}

/// Entries are never dropped, so what was registered stays registered.
proof fn lemma_tree_registered_grows(
    b: Block,
    r1: Seq<(String, Block)>,
    p1: Seq<(String, Option<String>)>,
    r2: Seq<(String, Block)>,
    p2: Seq<(String, Option<String>)>,
)
    requires
        tree_registered(b, r1, p1),
        forall|n: Seq<char>| lookup(r1, n) is Some ==> #[trigger] lookup(r2, n) is Some,
        forall|n: Seq<char>| lookup(p1, n) is Some ==> #[trigger] lookup(p2, n) is Some,
    ensures
        tree_registered(b, r2, p2),
    decreases b,
{
    assert forall|k: int| 0 <= k < b.children@.len() implies tree_registered(#[trigger] b.children@[k], r2, p2) by {
        vstd::std_specs::vec::axiom_vec_index_decreases(b.children, k);
        lemma_tree_registered_grows(b.children@[k], r1, p1, r2, p2);
    }
}


/// Registers a block and its sub-blocks: each under its name (a later block of the same
/// name replaces an earlier one), with the name of its lexical parent.
pub fn register_block(
    registry: &mut Vec<(String, Block)>,
    parent_map: &mut Vec<(String, Option<String>)>,
    block: &Block,
    parent_name: Option<&str>,
)
    ensures
        lookup(final(registry)@, block.name@) is Some,
        lookup(final(parent_map)@, block.name@) is Some,
        forall|n: Seq<char>| lookup(old(registry)@, n) is Some ==> #[trigger] lookup(final(registry)@, n) is Some,
        forall|n: Seq<char>| lookup(old(parent_map)@, n) is Some ==> #[trigger] lookup(final(parent_map)@, n) is Some,
        tree_registered(*block, final(registry)@, final(parent_map)@),
        (forall|n: Seq<char>| #[trigger] lookup(old(registry)@, n) matches Some(b) ==> b.name@ == n) ==> (forall|n: Seq<char>|
            #[trigger] lookup(final(registry)@, n) matches Some(b) ==> b.name@ == n),
    decreases *block,
{
    insert_entry(registry, block.name.clone(), clone_block(block));
    let parent = match parent_name {
        Some(p) => Some(p.to_owned()),
        None => None,
    };
    insert_entry(parent_map, block.name.clone(), parent);
    let mut i: usize = 0;
    while i < block.children.len()
        invariant
            i <= block.children.len(),
            lookup(registry@, block.name@) is Some,
            lookup(parent_map@, block.name@) is Some,
            forall|n: Seq<char>| lookup(old(registry)@, n) is Some ==> #[trigger] lookup(registry@, n) is Some,
            forall|n: Seq<char>| lookup(old(parent_map)@, n) is Some ==> #[trigger] lookup(parent_map@, n) is Some,
            forall|j: int| 0 <= j < i ==> tree_registered(#[trigger] block.children@[j], registry@, parent_map@),
            (forall|n: Seq<char>| #[trigger] lookup(old(registry)@, n) matches Some(b) ==> b.name@ == n) ==> (forall|n: Seq<char>|
                #[trigger] lookup(registry@, n) matches Some(b) ==> b.name@ == n),
        decreases block.children.len() - i,
    {
        proof {
            vstd::std_specs::vec::axiom_vec_index_decreases(block.children, i as int);
        }
        let ghost r1 = registry@;
        let ghost p1 = parent_map@;
        register_block(registry, parent_map, &block.children[i], Some(block.name.as_str()));
        proof {
            assert forall|j: int| 0 <= j < i + 1 implies tree_registered(#[trigger] block.children@[j], registry@, parent_map@) by {
                if j < i {
                    lemma_tree_registered_grows(block.children@[j], r1, p1, registry@, parent_map@);
                }
            }
        }
        i += 1;
    }
}

/// The parent recorded for a block name, when it has one.
pub open spec fn parent_of(parent_map: Seq<(String, Option<String>)>, name: Seq<char>) -> Option<Seq<char>> {
    match lookup(parent_map, name) {
        Some(Some(p)) => Some(p@),
        _ => None,
    }
}

/// The blocks of a file that another file imports, or why they could not be had.
pub type ImportedBlocks = Result<Vec<(String, Block)>, RuntimeError>;

/// The registry of all blocks of a program, indexed by name.
pub struct BlockRegistry {
    pub blocks: Vec<(String, Block)>,
    /// Each block's lexical parent (`None` for a top-level block).
    pub parent_map: Vec<(String, Option<String>)>,
    /// The directory that imports are resolved against.
    pub base_dir: String,
    /// The imported files, by the path they are imported with.
    pub import_cache: Vec<(String, ImportedBlocks)>,
    /// The source file id, for diagnostics.
    pub source_id: usize,
}

/// The names of the blocks registered without a parent, in order.
pub open spec fn top_level_names(blocks: Seq<(String, Block)>, parents: Seq<(String, Option<String>)>) -> Seq<Seq<char>>
    decreases blocks.len(),
{
    if blocks.len() == 0 {
        seq![]
    } else {
        let rest = top_level_names(blocks.drop_last(), parents);
        if lookup(parents, blocks.last().0@) == Some(None::<String>) {
            rest.push(blocks.last().0@)
        } else {
            rest
        }
    }
}

/// The messages of parse errors, joined by `, `.
pub open spec fn comma_messages(errs: Seq<ParseError>) -> Seq<char>
    decreases errs.len(),
{
    if errs.len() == 0 {
        seq![]
    } else if errs.len() == 1 {
        errs[0].message@
    } else {
        comma_messages(errs.drop_last()) + ", "@ + errs.last().message@
    }
}

impl BlockRegistry {
    pub fn from_program(program: &Program) -> (r: BlockRegistry)
        ensures
            forall|k: int| 0 <= k < program.blocks@.len() ==> lookup(r.blocks@, #[trigger] program.blocks@[k].name@) is Some,
            forall|k: int| 0 <= k < program.blocks@.len() ==> tree_registered(#[trigger] program.blocks@[k], r.blocks@, r.parent_map@),
            forall|n: Seq<char>| #[trigger] lookup(r.blocks@, n) matches Some(b) ==> b.name@ == n,
            r.import_cache@.len() == 0,
            r.source_id == program.source_id,
            r.base_dir@ == seq!['.'],
    {
        proof {
            reveal_strlit(".");
        }
        Self::from_program_with_base(program, ".".to_owned())
    }

    pub fn from_program_with_base(program: &Program, base_dir: String) -> (r: BlockRegistry)
        ensures
            forall|k: int| 0 <= k < program.blocks@.len() ==> lookup(r.blocks@, #[trigger] program.blocks@[k].name@) is Some,
            forall|k: int| 0 <= k < program.blocks@.len() ==> tree_registered(#[trigger] program.blocks@[k], r.blocks@, r.parent_map@),
            forall|n: Seq<char>| #[trigger] lookup(r.blocks@, n) matches Some(b) ==> b.name@ == n,
            r.import_cache@.len() == 0,
            r.source_id == program.source_id,
            r.base_dir == base_dir,
    {
        let mut blocks: Vec<(String, Block)> = Vec::new();
        let mut parent_map: Vec<(String, Option<String>)> = Vec::new();
        let mut i: usize = 0;
        while i < program.blocks.len()
            invariant
                i <= program.blocks.len(),
                forall|k: int| 0 <= k < i ==> lookup(blocks@, #[trigger] program.blocks@[k].name@) is Some,
                forall|k: int| 0 <= k < i ==> tree_registered(#[trigger] program.blocks@[k], blocks@, parent_map@),
                forall|n: Seq<char>| #[trigger] lookup(blocks@, n) matches Some(b) ==> b.name@ == n,
            decreases program.blocks.len() - i,
        {
            let ghost r1 = blocks@;
            let ghost p1 = parent_map@;
            register_block(&mut blocks, &mut parent_map, &program.blocks[i], None);
            proof {
                assert forall|k: int| 0 <= k < i + 1 implies tree_registered(#[trigger] program.blocks@[k], blocks@, parent_map@) by {
                    if k < i {
                        lemma_tree_registered_grows(program.blocks@[k], r1, p1, blocks@, parent_map@);
                    }
                }
            }
            i += 1;
        }
        BlockRegistry { blocks, parent_map, base_dir, import_cache: Vec::new(), source_id: program.source_id }
    }

    /// The block registered under `name`.
    pub fn get(&self, name: &str) -> (r: Option<&Block>)
        ensures
            r == match lookup(self.blocks@, name@) {
                Some(b) => Some(&b),
                None => None::<&Block>,
            },
    {
        match find_entry(&self.blocks, name) {
            Some(k) => {
                proof {
                    lemma_lookup_at(self.blocks@, name@, k as int);
                }
                Some(&self.blocks[k].1)
            },
            None => {
                proof {
                    lemma_lookup_none(self.blocks@, name@);
                }
                None
            },
        }
    }

    /// The entry block: the block named exactly `name`, else the first whose lower-cased
    /// name equals the lower-cased `name`.
    pub fn get_entry(&self, name: &str) -> (r: Option<&Block>)
        ensures
            lookup(self.blocks@, name@) matches Some(b) ==> r == Some(&b),
            lookup(self.blocks@, name@) is None ==> match r {
                Some(b) => exists|k: int|
                    0 <= k < self.blocks@.len() && self.blocks@[k].1 == *b && unicode_lowercase(
                        #[trigger] self.blocks@[k].0@,
                    ) == unicode_lowercase(name@),
                None => forall|k: int|
                    0 <= k < self.blocks@.len() ==> unicode_lowercase(#[trigger] self.blocks@[k].0@)
                        != unicode_lowercase(name@),
            },
    {
        if let Some(b) = self.get(name) {
            return Some(b);
        }
        let lower = to_lowercase(name);
        let mut k: usize = 0;
        while k < self.blocks.len()
            invariant
                k <= self.blocks.len(),
                lookup(self.blocks@, name@) is None,
                lower@ == unicode_lowercase(name@),
                forall|j: int| 0 <= j < k ==> unicode_lowercase(#[trigger] self.blocks@[j].0@) != unicode_lowercase(name@),
            decreases self.blocks.len() - k,
        {
            let key = to_lowercase(self.blocks[k].0.as_str());
            if is_word(key.as_str(), lower.as_str()) {
                return Some(&self.blocks[k].1);
            }
            k += 1;
        }
        None
    }

    /// The names of the top-level blocks (those registered without a parent), in the order
    /// they were first registered.
    pub fn block_names(&self) -> (r: Vec<String>)
        ensures
            r@.len() == top_level_names(self.blocks@, self.parent_map@).len(),
            forall|k: int| 0 <= k < r@.len() ==> (#[trigger] r@[k])@ == top_level_names(self.blocks@, self.parent_map@)[k],
    {
        let mut names: Vec<String> = Vec::new();
        let mut k: usize = 0;
        while k < self.blocks.len()
            invariant
                k <= self.blocks.len(),
                names@.len() == top_level_names(self.blocks@.take(k as int), self.parent_map@).len(),
                forall|j: int|
                    0 <= j < names@.len() ==> (#[trigger] names@[j])@ == top_level_names(
                        self.blocks@.take(k as int),
                        self.parent_map@,
                    )[j],
            decreases self.blocks.len() - k,
        {
            assert(self.blocks@.take(k + 1).drop_last() =~= self.blocks@.take(k as int));
            assert(self.blocks@.take(k + 1).last() == self.blocks@[k as int]);
            let top = match find_entry(&self.parent_map, self.blocks[k].0.as_str()) {
                Some(p) => {
                    proof {
                        lemma_lookup_at(self.parent_map@, self.blocks@[k as int].0@, p as int);
                    }
                    self.parent_map[p].1.is_none()
                },
                None => {
                    proof {
                        lemma_lookup_none(self.parent_map@, self.blocks@[k as int].0@);
                    }
                    false
                },
            };
            if top {
                names.push(self.blocks[k].0.clone());
            }
            k += 1;
        }
        assert(self.blocks@.take(self.blocks@.len() as int) =~= self.blocks@);
        names
    }

    /// The lexical ancestors of a block: its parent, its parent's parent, and so on, up to
    /// a block without a parent. A chain of parents is followed at most as many steps as
    /// there are registered names.
    pub fn lexical_ancestors(&self, block_name: &str) -> (r: Vec<String>)
        ensures
            r@.len() <= self.parent_map@.len(),
            r@.len() > 0 ==> parent_of(self.parent_map@, block_name@) == Some(r@[0]@),
            forall|i: int| 0 <= i < r@.len() - 1 ==> parent_of(self.parent_map@, (#[trigger] r@[i])@) == Some(r@[i + 1]@),
            r@.len() < self.parent_map@.len() ==> parent_of(
                self.parent_map@,
                if r@.len() == 0 {
                    block_name@
                } else {
                    r@.last()@
                },
            ) is None,
    {
        let mut ancestors: Vec<String> = Vec::new();
        let mut current = block_name.to_owned();
        let mut steps: usize = 0;
        while steps < self.parent_map.len()
            invariant
                steps <= self.parent_map@.len(),
                ancestors@.len() == steps,
                current@ == if steps == 0 {
                    block_name@
                } else {
                    ancestors@.last()@
                },
                steps > 0 ==> parent_of(self.parent_map@, block_name@) == Some(ancestors@[0]@),
                forall|i: int|
                    0 <= i < ancestors@.len() - 1 ==> parent_of(self.parent_map@, (#[trigger] ancestors@[i])@) == Some(
                        ancestors@[i + 1]@,
                    ),
            ensures
                ancestors@.len() == steps,
                steps <= self.parent_map@.len(),
                current@ == if steps == 0 {
                    block_name@
                } else {
                    ancestors@.last()@
                },
                steps > 0 ==> parent_of(self.parent_map@, block_name@) == Some(ancestors@[0]@),
                forall|i: int|
                    0 <= i < ancestors@.len() - 1 ==> parent_of(self.parent_map@, (#[trigger] ancestors@[i])@) == Some(
                        ancestors@[i + 1]@,
                    ),
                steps < self.parent_map@.len() ==> parent_of(self.parent_map@, current@) is None,
            decreases self.parent_map@.len() - steps,
        {
            let parent = match find_entry(&self.parent_map, current.as_str()) {
                Some(k) => {
                    proof {
                        lemma_lookup_at(self.parent_map@, current@, k as int);
                    }
                    match &self.parent_map[k].1 {
                        Some(p) => p.clone(),
                        None => break,
                    }
                },
                None => {
                    proof {
                        lemma_lookup_none(self.parent_map@, current@);
                    }
                    break;
                },
            };
            let ghost before = ancestors@;
            ancestors.push(parent.clone());
            proof {
                assert forall|i: int|
                    0 <= i < ancestors@.len() - 1 implies parent_of(self.parent_map@, (#[trigger] ancestors@[i])@)
                    == Some(ancestors@[i + 1]@) by {
                    if i < before.len() - 1 {
                        assert(ancestors@[i] == before[i] && ancestors@[i + 1] == before[i + 1]);
                    } else {
                        assert(ancestors@[i] == before.last());
                    }
                }
            }
            current = parent;
            steps += 1;
        }
        ancestors
    }

    /// The paths imported by some registered block (in its instructions or in links of its
    /// body) or by a block of an imported file, that have no entry in the import cache yet,
    /// each once.
    pub fn pending_imports(&self) -> (r: Vec<String>)
        ensures
            distinct_texts(r@),
            text_set(r@) == Set::new(
                |p: Seq<char>|
                    (entries_imports(self.blocks@) + cache_imports(self.import_cache@)).contains(p) && lookup(
                        self.import_cache@,
                        p,
                    ) is None,
            ),
    {
        let mut paths: Vec<String> = Vec::new();
        let mut k: usize = 0;
        assert(self.blocks@.take(0) =~= Seq::<(String, Block)>::empty());
        assert(text_set(paths@) =~= entries_imports(self.blocks@.take(0)));
        while k < self.blocks.len()
            invariant
                k <= self.blocks.len(),
                text_set(paths@) == entries_imports(self.blocks@.take(k as int)),
                distinct_texts(paths@),
            decreases self.blocks.len() - k,
        {
            imports_in_block(&self.blocks[k].1, &mut paths);
            assert(self.blocks@.take(k + 1).drop_last() =~= self.blocks@.take(k as int));
            k += 1;
        }
        assert(self.blocks@.take(self.blocks.len() as int) =~= self.blocks@);
        let ghost from_blocks = entries_imports(self.blocks@);
        let mut c: usize = 0;
        assert(self.import_cache@.take(0) =~= Seq::<(String, ImportedBlocks)>::empty());
        assert(text_set(paths@) =~= from_blocks + cache_imports(self.import_cache@.take(0)));
        while c < self.import_cache.len()
            invariant
                c <= self.import_cache.len(),
                text_set(paths@) == from_blocks + cache_imports(self.import_cache@.take(c as int)),
                distinct_texts(paths@),
            decreases self.import_cache.len() - c,
        {
            let ghost before = text_set(paths@);
            if let Ok(bs) = &self.import_cache[c].1 {
                let mut j: usize = 0;
                assert(bs@.take(0) =~= Seq::<(String, Block)>::empty());
                assert(text_set(paths@) =~= before + entries_imports(bs@.take(0)));
                while j < bs.len()
                    invariant
                        j <= bs.len(),
                        text_set(paths@) == before + entries_imports(bs@.take(j as int)),
                        distinct_texts(paths@),
                    decreases bs.len() - j,
                {
                    imports_in_block(&bs[j].1, &mut paths);
                    assert(bs@.take(j + 1).drop_last() =~= bs@.take(j as int));
                    assert(text_set(paths@) =~= before + entries_imports(bs@.take(j + 1)));
                    j += 1;
                }
                assert(bs@.take(bs.len() as int) =~= bs@);
            } else {
                assert(text_set(paths@) =~= before + Set::<Seq<char>>::empty());
            }
            assert(self.import_cache@.take(c + 1).drop_last() =~= self.import_cache@.take(c as int));
            assert(text_set(paths@) =~= from_blocks + cache_imports(self.import_cache@.take(c + 1)));
            c += 1;
        }
        assert(self.import_cache@.take(self.import_cache.len() as int) =~= self.import_cache@);
        let ghost all = text_set(paths@);
        let mut pending: Vec<String> = Vec::new();
        let mut i: usize = 0;
        while i < paths.len()
            invariant
                i <= paths.len(),
                all == text_set(paths@),
                distinct_texts(pending@),
                text_set(pending@) == Set::new(
                    |p: Seq<char>| text_set(paths@.take(i as int)).contains(p) && lookup(self.import_cache@, p) is None,
                ),
            decreases paths.len() - i,
        {
            let ghost old_pending = pending@;
            assert(paths@.take(i + 1) =~= paths@.take(i as int).push(paths@[i as int]));
            proof {
                lemma_text_set_push(paths@.take(i as int), paths@[i as int]);
            }
            match find_entry(&self.import_cache, paths[i].as_str()) {
                Some(k) => {
                    proof {
                        lemma_lookup_at(self.import_cache@, paths@[i as int]@, k as int);
                    }
                },
                None => {
                    proof {
                        lemma_lookup_none(self.import_cache@, paths@[i as int]@);
                    }
                    if !contains_name(&pending, paths[i].as_str()) {
                        pending.push(paths[i].clone());
                        proof {
                            lemma_text_set_push(old_pending, pending@.last());
                        }
                    }
                },
            }
            assert(text_set(pending@) =~= Set::new(
                |p: Seq<char>| text_set(paths@.take(i + 1)).contains(p) && lookup(self.import_cache@, p) is None,
            ));
            i += 1;
        }
        assert(paths@.take(paths.len() as int) =~= paths@);
        assert(text_set(pending@) =~= Set::new(
            |p: Seq<char>|
                (entries_imports(self.blocks@) + cache_imports(self.import_cache@)).contains(p) && lookup(
                    self.import_cache@,
                    p,
                ) is None,
        ));
        pending
    }

    /// Records an imported file: its source parses into blocks registered under their
    /// names (their parents recorded too); a file that did not parse gives a
    /// "parse errors in '<path>': ..." error, and one that could not be read its I/O error.
    pub fn add_import(&mut self, path: String, loaded: Result<String, RuntimeError>)
        ensures
            lookup(final(self).import_cache@, path@) is Some,
            forall|other: Seq<char>|
                other != path@ ==> #[trigger] lookup(final(self).import_cache@, other) == lookup(
                    old(self).import_cache@,
                    other,
                ),
            loaded matches Err(e) ==> lookup(final(self).import_cache@, path@) == Some(
                Err::<Vec<(String, Block)>, RuntimeError>(e),
            ),
            loaded is Ok ==> (lookup(final(self).import_cache@, path@) matches Some(Err(e)) ==> (e matches RuntimeError::Custom(m)
                && exists|errs: Seq<ParseError>| errs.len() > 0 && #[trigger] comma_messages(errs) == m@.skip(
                ("parse errors in '"@ + path@ + "': "@).len() as int,
            ) && m@.take(("parse errors in '"@ + path@ + "': "@).len() as int) == "parse errors in '"@ + path@ + "': "@)),
            final(self).blocks@ == old(self).blocks@,
            final(self).source_id == old(self).source_id,
    {
        let entry: ImportedBlocks = match loaded {
            Err(e) => Err(e),
            Ok(source) => {
                let parser = Parser::new(source, 0);
                match parser.parse() {
                    Err(errs) => {
                        let mut message = String::new();
                        push_str(&mut message, "parse errors in '");
                        push_str(&mut message, path.as_str());
                        push_str(&mut message, "': ");
                        let ghost head = message@;
                        let mut k: usize = 0;
                        assert(message@.skip(head.len() as int) =~= Seq::<char>::empty());
                        assert(errs@.take(0) =~= Seq::<ParseError>::empty());
                        while k < errs.len()
                            invariant
                                k <= errs.len(),
                                message@.len() >= head.len(),
                                message@.take(head.len() as int) == head,
                                message@.skip(head.len() as int) == comma_messages(errs@.take(k as int)),
                            decreases errs.len() - k,
                        {
                            let ghost m0 = message@;
                            if k > 0 {
                                push_str(&mut message, ", ");
                            }
                            push_str(&mut message, errs[k].message.as_str());
                            assert(message@.take(head.len() as int) =~= m0.take(head.len() as int));
                            assert(errs@.take(k + 1).drop_last() =~= errs@.take(k as int));
                            if k > 0 {
                                assert(message@.skip(head.len() as int) =~= m0.skip(head.len() as int) + ", "@
                                    + errs@[k as int].message@);
                            } else {
                                assert(m0.skip(head.len() as int).len() == 0);
                                assert(m0 =~= head);
                                assert(message@.skip(head.len() as int) =~= errs@[0].message@);
                            }
                            k += 1;
                        }
                        assert(errs@.take(errs@.len() as int) =~= errs@);
                        Err(RuntimeError::Custom(message))
                    },
                    Ok(program) => {
                        let mut import_blocks: Vec<(String, Block)> = Vec::new();
                        let mut k: usize = 0;
                        while k < program.blocks.len()
                            invariant
                                k <= program.blocks.len(),
                                self.blocks@ == old(self).blocks@,
                                self.import_cache@ == old(self).import_cache@,
                                self.source_id == old(self).source_id,
                            decreases program.blocks.len() - k,
                        {
                            register_block(&mut import_blocks, &mut self.parent_map, &program.blocks[k], None);
                            k += 1;
                        }
                        Ok(import_blocks)
                    },
                }
            },
        };
        insert_entry(&mut self.import_cache, path, entry);
    }

    /// A block of an imported file: the file's error if it could not be had, else the
    /// block, or "undefined block: <path>#<block>".
    pub fn get_imported(&self, path: &str, block_name: &str) -> (r: Result<&Block, RuntimeError>)
        ensures
            lookup(self.import_cache@, path@) matches Some(Ok(bs)) ==> match lookup(bs@, block_name@) {
                Some(b) => r == Ok::<&Block, RuntimeError>(&b),
                None => r matches Err(RuntimeError::UndefinedBlock(m)) && m@ == path@ + seq!['#'] + block_name@,
            },
            lookup(self.import_cache@, path@) matches Some(Err(e)) ==> (r matches Err(e2) && crate::runtime::error_text(e2) == crate::runtime::error_text(e)),
            lookup(self.import_cache@, path@) is None ==> (r matches Err(RuntimeError::IoError(m)) && m@ == "cannot resolve '"@
                + path@ + "': the file was not loaded"@),
    {
        match find_entry(&self.import_cache, path) {
            Some(k) => {
                proof {
                    lemma_lookup_at(self.import_cache@, path@, k as int);
                }
                match &self.import_cache[k].1 {
                    Err(e) => Err(clone_error(e)),
                    Ok(bs) => find_in_file(bs, path, block_name),
                }
            },
            None => {
                proof {
                    lemma_lookup_none(self.import_cache@, path@);
                }
                let mut m = String::new();
                push_str(&mut m, "cannot resolve '");
                push_str(&mut m, path);
                push_str(&mut m, "': the file was not loaded");
                Err(RuntimeError::IoError(m))
            },
        }
    }
}

/// The block named `block_name` among the blocks of the file imported as `path`.
fn find_in_file<'a>(bs: &'a Vec<(String, Block)>, path: &str, block_name: &str) -> (r: Result<&'a Block, RuntimeError>)
    ensures
        match lookup(bs@, block_name@) {
            Some(b) => r == Ok::<&Block, RuntimeError>(&b),
            None => r matches Err(RuntimeError::UndefinedBlock(m)) && m@ == path@ + seq!['#'] + block_name@,
        },
{
    match find_entry(bs, block_name) {
        Some(j) => {
            proof {
                lemma_lookup_at(bs@, block_name@, j as int);
            }
            Ok(&bs[j].1)
        },
        None => {
            proof {
                lemma_lookup_none(bs@, block_name@);
            }
            let mut m = String::new();
            push_str(&mut m, path);
            crate::text::push_char(&mut m, '#');
            push_str(&mut m, block_name);
            Err(RuntimeError::UndefinedBlock(m))
        },
    }
}

// ---------------------------------------------------------------------------
// The files that blocks import
// ---------------------------------------------------------------------------

/// The texts of a list of strings, as a set.
pub open spec fn text_set(s: Seq<String>) -> Set<Seq<char>> {
    Set::new(|p: Seq<char>| exists|i: int| 0 <= i < s.len() && (#[trigger] s[i])@ == p)
}

/// No text occurs twice.
pub open spec fn distinct_texts(s: Seq<String>) -> bool {
    forall|i: int, j: int| 0 <= i < j < s.len() ==> (#[trigger] s[i])@ != (#[trigger] s[j])@
}

proof fn lemma_text_set_push(s: Seq<String>, x: String)
    ensures
        text_set(s.push(x)) == text_set(s).insert(x@),
{
    let t = s.push(x);
    assert forall|p: Seq<char>| text_set(t).contains(p) <==> text_set(s).insert(x@).contains(p) by {
        if text_set(t).contains(p) {
            let i = choose|i: int| 0 <= i < t.len() && (#[trigger] t[i])@ == p;
            if i < s.len() {
                assert(s[i] == t[i]);
            }
        }
        if text_set(s).contains(p) {
            let i = choose|i: int| 0 <= i < s.len() && (#[trigger] s[i])@ == p;
            assert(t[i] == s[i]);
        }
        if p == x@ {
            assert(t[s.len() as int] == x);
        }
    }
    assert(text_set(t) =~= text_set(s).insert(x@));
}

/// The file that a block reference imports, if it names one on this machine.
pub open spec fn reference_import(r: BlockReference) -> Set<Seq<char>> {
    match r {
        BlockReference::LocalImport { path, .. } => set![path@],
        _ => Set::empty(),
    }
}

/// The file that a link destination imports, if it names one on this machine.
pub open spec fn destination_import(d: Seq<char>) -> Set<Seq<char>> {
    let k = last_index_of(d, '#');
    if !(d.len() > 0 && d[0] == '#') && k >= 0 && !is_web_address(d.take(k)) {
        set![d.take(k)]
    } else {
        Set::empty()
    }
}

/// The files that an expression's invocations import.
pub open spec fn value_imports(v: Value) -> Set<Seq<char>>
    decreases v, 2nat,
{
    match v {
        Value::BlockInvocation(args, r) => reference_import(r) + values_imports(args@),
        Value::EvaluatedBlockInvocation(args, r) => reference_import(r) + values_imports(args@),
        Value::Print(ts) => parts_imports(ts.parts@),
        Value::Interpolation(ts) => parts_imports(ts.parts@),
        Value::Strikethrough(ts) => parts_imports(ts.parts@),
        Value::UnaryOperation { operand, .. } => value_imports(*operand),
        Value::BinaryOperation { left, right, .. } => value_imports(*left) + value_imports(*right),
        Value::Conditional { condition, true_branch, false_branch } => value_imports(*condition) + value_imports(
            *true_branch,
        ) + match false_branch {
            Some(f) => value_imports(*f),
            None => Set::empty(),
        },
        Value::Match { value, arms, otherwise } => value_imports(*value) + arms_imports(arms@) + match otherwise {
            Some((_, r)) => value_imports(*r),
            None => Set::empty(),
        },
        _ => Set::empty(),
    }
}

pub open spec fn values_imports(s: Seq<Value>) -> Set<Seq<char>>
    decreases s, 1nat,
{
    if s.len() == 0 {
        Set::empty()
    } else {
        values_imports(s.drop_last()) + value_imports(s.last())
    }
}

pub open spec fn parts_imports(s: Seq<TemplateStringPart>) -> Set<Seq<char>>
    decreases s, 1nat,
{
    if s.len() == 0 {
        Set::empty()
    } else {
        parts_imports(s.drop_last()) + match s.last() {
            TemplateStringPart::Expression(e) => value_imports(e),
            TemplateStringPart::Literal(_) => Set::empty(),
        }
    }
}

pub open spec fn arms_imports(s: Seq<(crate::ast::Template, Value)>) -> Set<Seq<char>>
    decreases s, 1nat,
{
    if s.len() == 0 {
        Set::empty()
    } else {
        arms_imports(s.drop_last()) + value_imports(s.last().1)
    }
}

/// The files that links and images among inline nodes import.
pub open spec fn inlines_imports(s: Seq<InlineNode>) -> Set<Seq<char>>
    decreases s, 0nat,
{
    if s.len() == 0 {
        Set::empty()
    } else {
        inlines_imports(s.drop_last()) + inline_imports(s.last())
    }
}

pub open spec fn inline_imports(n: InlineNode) -> Set<Seq<char>>
    decreases n, 1nat,
{
    match n {
        InlineNode::Link { dest, content, .. } => destination_import(dest@) + inlines_imports(content@),
        InlineNode::Image { dest, alt, .. } => destination_import(dest@) + inlines_imports(alt@),
        InlineNode::Strong(c) => inlines_imports(c@),
        InlineNode::Emphasis(c) => inlines_imports(c@),
        InlineNode::Strikethrough(c) => inlines_imports(c@),
        _ => Set::empty(),
    }
}

pub open spec fn instructions_imports(s: Seq<Instruction>) -> Set<Seq<char>>
    decreases s.len(),
{
    if s.len() == 0 {
        Set::empty()
    } else {
        instructions_imports(s.drop_last()) + match s.last() {
            Instruction::Assignment { value, .. } => value_imports(value),
            Instruction::Expression { value, .. } => value_imports(value),
        }
    }
}

pub open spec fn groups_imports(s: Seq<crate::ast::FenceGroup>) -> Set<Seq<char>>
    decreases s.len(),
{
    if s.len() == 0 {
        Set::empty()
    } else {
        groups_imports(s.drop_last()) + instructions_imports(s.last().instructions@)
    }
}

pub open spec fn paragraphs_imports(s: Seq<DocumentNode>) -> Set<Seq<char>>
    decreases s.len(),
{
    if s.len() == 0 {
        Set::empty()
    } else {
        paragraphs_imports(s.drop_last()) + match s.last() {
            DocumentNode::Paragraph(inl) => inlines_imports(inl@),
            _ => Set::empty(),
        }
    }
}

/// The files that a block imports: in the expressions of its instructions, and in the
/// links and images of the paragraphs of its body.
pub open spec fn block_imports(b: Block) -> Set<Seq<char>> {
    groups_imports(b.chain.groups@) + paragraphs_imports(b.body.nodes@)
}

/// The files that registered blocks import.
pub open spec fn entries_imports(s: Seq<(String, Block)>) -> Set<Seq<char>>
    decreases s.len(),
{
    if s.len() == 0 {
        Set::empty()
    } else {
        entries_imports(s.drop_last()) + block_imports(s.last().1)
    }
}

/// The files that the blocks of the imported files import.
pub open spec fn cache_imports(s: Seq<(String, ImportedBlocks)>) -> Set<Seq<char>>
    decreases s.len(),
{
    if s.len() == 0 {
        Set::empty()
    } else {
        cache_imports(s.drop_last()) + match s.last().1 {
            Ok(bs) => entries_imports(bs@),
            Err(_) => Set::empty(),
        }
    }
}

/// Adds `path` to `paths` unless it is there already.
fn add_path(paths: &mut Vec<String>, path: &str)
    ensures
        text_set(final(paths)@) == text_set(old(paths)@).insert(path@),
        distinct_texts(old(paths)@) ==> distinct_texts(final(paths)@),
{
    if !contains_name(paths, path) {
        let ghost before = paths@;
        paths.push(path.to_owned());
        proof {
            lemma_text_set_push(before, paths@.last());
        }
    } else {
        assert(text_set(paths@).contains(path@));
        assert(text_set(paths@) =~= text_set(paths@).insert(path@));
    }
}

fn imports_in_reference(r: &BlockReference, paths: &mut Vec<String>)
    ensures
        text_set(final(paths)@) == text_set(old(paths)@) + reference_import(*r),
        distinct_texts(old(paths)@) ==> distinct_texts(final(paths)@),
{
    if let BlockReference::LocalImport { path, .. } = r {
        add_path(paths, path.as_str());
        assert(text_set(paths@) =~= text_set(old(paths)@) + reference_import(*r));
    } else {
        assert(text_set(paths@) =~= text_set(old(paths)@) + reference_import(*r));
    }
}

/// Adds the files that an expression's invocations import.
fn imports_in_value(v: &Value, paths: &mut Vec<String>)
    ensures
        text_set(final(paths)@) == text_set(old(paths)@) + value_imports(*v),
        distinct_texts(old(paths)@) ==> distinct_texts(final(paths)@),
    decreases *v,
{
    let ghost s0 = text_set(paths@);
    match v {
        Value::BlockInvocation(args, r) | Value::EvaluatedBlockInvocation(args, r) => {
            imports_in_reference(r, paths);
            imports_in_values(args, paths);
        },
        Value::Print(ts) | Value::Interpolation(ts) | Value::Strikethrough(ts) => imports_in_template(ts, paths),
        Value::UnaryOperation { operand, .. } => imports_in_value(operand, paths),
        Value::BinaryOperation { left, right, .. } => {
            imports_in_value(left, paths);
            imports_in_value(right, paths);
        },
        Value::Conditional { condition, true_branch, false_branch } => {
            imports_in_value(condition, paths);
            imports_in_value(true_branch, paths);
            if let Some(f) = false_branch {
                imports_in_value(f, paths);
            }
        },
        Value::Match { value, arms, otherwise } => {
            imports_in_value(value, paths);
            imports_in_arms(arms, paths);
            if let Some((_, r)) = otherwise {
                imports_in_value(r, paths);
            }
        },
        _ => {},
    }
    assert(text_set(paths@) =~= s0 + value_imports(*v));
}

fn imports_in_arms(arms: &Vec<(crate::ast::Template, Value)>, paths: &mut Vec<String>)
    ensures
        text_set(final(paths)@) == text_set(old(paths)@) + arms_imports(arms@),
        distinct_texts(old(paths)@) ==> distinct_texts(final(paths)@),
    decreases *arms,
{
    let mut i: usize = 0;
    assert(arms@.take(0) =~= Seq::<(crate::ast::Template, Value)>::empty());
    assert(text_set(paths@) =~= text_set(old(paths)@) + arms_imports(arms@.take(0)));
    while i < arms.len()
        invariant
            i <= arms.len(),
            text_set(paths@) == text_set(old(paths)@) + arms_imports(arms@.take(i as int)),
            distinct_texts(old(paths)@) ==> distinct_texts(paths@),
        decreases arms.len() - i,
    {
        proof {
            vstd::std_specs::vec::axiom_vec_index_decreases(*arms, i as int);
        }
        imports_in_value(&arms[i].1, paths);
        assert(arms@.take(i + 1).drop_last() =~= arms@.take(i as int));
        assert(text_set(paths@) =~= text_set(old(paths)@) + arms_imports(arms@.take(i + 1)));
        i += 1;
    }
    assert(arms@.take(arms.len() as int) =~= arms@);
}

fn imports_in_values(v: &Vec<Value>, paths: &mut Vec<String>)
    ensures
        text_set(final(paths)@) == text_set(old(paths)@) + values_imports(v@),
        distinct_texts(old(paths)@) ==> distinct_texts(final(paths)@),
    decreases *v,
{
    let mut i: usize = 0;
    assert(v@.take(0) =~= Seq::<Value>::empty());
    assert(text_set(paths@) =~= text_set(old(paths)@) + values_imports(v@.take(0)));
    while i < v.len()
        invariant
            i <= v.len(),
            text_set(paths@) == text_set(old(paths)@) + values_imports(v@.take(i as int)),
            distinct_texts(old(paths)@) ==> distinct_texts(paths@),
        decreases v.len() - i,
    {
        proof {
            vstd::std_specs::vec::axiom_vec_index_decreases(*v, i as int);
        }
        imports_in_value(&v[i], paths);
        assert(v@.take(i + 1).drop_last() =~= v@.take(i as int));
        assert(text_set(paths@) =~= text_set(old(paths)@) + values_imports(v@.take(i + 1)));
        i += 1;
    }
    assert(v@.take(v.len() as int) =~= v@);
}

fn imports_in_template(ts: &TemplateString, paths: &mut Vec<String>)
    ensures
        text_set(final(paths)@) == text_set(old(paths)@) + parts_imports(ts.parts@),
        distinct_texts(old(paths)@) ==> distinct_texts(final(paths)@),
    decreases *ts,
{
    let mut i: usize = 0;
    assert(ts.parts@.take(0) =~= Seq::<TemplateStringPart>::empty());
    assert(text_set(paths@) =~= text_set(old(paths)@) + parts_imports(ts.parts@.take(0)));
    while i < ts.parts.len()
        invariant
            i <= ts.parts.len(),
            text_set(paths@) == text_set(old(paths)@) + parts_imports(ts.parts@.take(i as int)),
            distinct_texts(old(paths)@) ==> distinct_texts(paths@),
        decreases ts.parts.len() - i,
    {
        proof {
            vstd::std_specs::vec::axiom_vec_index_decreases(ts.parts, i as int);
        }
        if let TemplateStringPart::Expression(e) = &ts.parts[i] {
            imports_in_value(e, paths);
        }
        assert(ts.parts@.take(i + 1).drop_last() =~= ts.parts@.take(i as int));
        assert(text_set(paths@) =~= text_set(old(paths)@) + parts_imports(ts.parts@.take(i + 1)));
        i += 1;
    }
    assert(ts.parts@.take(ts.parts.len() as int) =~= ts.parts@);
}

fn imports_in_inlines(v: &Vec<InlineNode>, paths: &mut Vec<String>)
    ensures
        text_set(final(paths)@) == text_set(old(paths)@) + inlines_imports(v@),
        distinct_texts(old(paths)@) ==> distinct_texts(final(paths)@),
    decreases *v,
{
    let mut i: usize = 0;
    assert(v@.take(0) =~= Seq::<InlineNode>::empty());
    assert(text_set(paths@) =~= text_set(old(paths)@) + inlines_imports(v@.take(0)));
    while i < v.len()
        invariant
            i <= v.len(),
            text_set(paths@) == text_set(old(paths)@) + inlines_imports(v@.take(i as int)),
            distinct_texts(old(paths)@) ==> distinct_texts(paths@),
        decreases v.len() - i,
    {
        proof {
            vstd::std_specs::vec::axiom_vec_index_decreases(*v, i as int);
        }
        let ghost before = text_set(paths@);
        match &v[i] {
            InlineNode::Link { dest, content, .. } => {
                let r = crate::ast::parse_block_reference(dest.as_str());
                imports_in_reference(&r, paths);
                assert(reference_import(r) =~= destination_import(dest@));
                imports_in_inlines(content, paths);
            },
            InlineNode::Image { dest, alt, .. } => {
                let r = crate::ast::parse_block_reference(dest.as_str());
                imports_in_reference(&r, paths);
                assert(reference_import(r) =~= destination_import(dest@));
                imports_in_inlines(alt, paths);
            },
            InlineNode::Strong(c) | InlineNode::Emphasis(c) | InlineNode::Strikethrough(c) => imports_in_inlines(c, paths),
            _ => {},
        }
        assert(text_set(paths@) =~= before + inline_imports(v@[i as int]));
        assert(v@.take(i + 1).drop_last() =~= v@.take(i as int));
        assert(text_set(paths@) =~= text_set(old(paths)@) + inlines_imports(v@.take(i + 1)));
        i += 1;
    }
    assert(v@.take(v.len() as int) =~= v@);
}

/// Adds the files that a block's instructions and body paragraphs import.
fn imports_in_block(b: &Block, paths: &mut Vec<String>)
    ensures
        text_set(final(paths)@) == text_set(old(paths)@) + block_imports(*b),
        distinct_texts(old(paths)@) ==> distinct_texts(final(paths)@),
{
    let mut g: usize = 0;
    assert(b.chain.groups@.take(0) =~= Seq::<crate::ast::FenceGroup>::empty());
    assert(text_set(paths@) =~= text_set(old(paths)@) + groups_imports(b.chain.groups@.take(0)));
    while g < b.chain.groups.len()
        invariant
            g <= b.chain.groups.len(),
            text_set(paths@) == text_set(old(paths)@) + groups_imports(b.chain.groups@.take(g as int)),
            distinct_texts(old(paths)@) ==> distinct_texts(paths@),
        decreases b.chain.groups.len() - g,
    {
        let group = &b.chain.groups[g];
        let ghost at_group = text_set(paths@);
        let mut k: usize = 0;
        assert(group.instructions@.take(0) =~= Seq::<Instruction>::empty());
        assert(text_set(paths@) =~= at_group + instructions_imports(group.instructions@.take(0)));
        while k < group.instructions.len()
            invariant
                k <= group.instructions.len(),
                text_set(paths@) == at_group + instructions_imports(group.instructions@.take(k as int)),
                distinct_texts(old(paths)@) ==> distinct_texts(paths@),
            decreases group.instructions.len() - k,
        {
            match &group.instructions[k] {
                Instruction::Assignment { value, .. } => imports_in_value(value, paths),
                Instruction::Expression { value, .. } => imports_in_value(value, paths),
            }
            assert(group.instructions@.take(k + 1).drop_last() =~= group.instructions@.take(k as int));
            assert(text_set(paths@) =~= at_group + instructions_imports(group.instructions@.take(k + 1)));
            k += 1;
        }
        assert(group.instructions@.take(group.instructions.len() as int) =~= group.instructions@);
        assert(b.chain.groups@.take(g + 1).drop_last() =~= b.chain.groups@.take(g as int));
        assert(text_set(paths@) =~= text_set(old(paths)@) + groups_imports(b.chain.groups@.take(g + 1)));
        g += 1;
    }
    assert(b.chain.groups@.take(b.chain.groups.len() as int) =~= b.chain.groups@);
    let ghost after_groups = text_set(paths@);
    let mut n: usize = 0;
    assert(b.body.nodes@.take(0) =~= Seq::<DocumentNode>::empty());
    assert(text_set(paths@) =~= after_groups + paragraphs_imports(b.body.nodes@.take(0)));
    while n < b.body.nodes.len()
        invariant
            n <= b.body.nodes.len(),
            text_set(paths@) == after_groups + paragraphs_imports(b.body.nodes@.take(n as int)),
            distinct_texts(old(paths)@) ==> distinct_texts(paths@),
        decreases b.body.nodes.len() - n,
    {
        let ghost before = text_set(paths@);
        if let DocumentNode::Paragraph(inlines) = &b.body.nodes[n] {
            imports_in_inlines(inlines, paths);
        }
        assert(b.body.nodes@.take(n + 1).drop_last() =~= b.body.nodes@.take(n as int));
        assert(text_set(paths@) =~= after_groups + paragraphs_imports(b.body.nodes@.take(n + 1)));
        n += 1;
    }
    assert(b.body.nodes@.take(b.body.nodes.len() as int) =~= b.body.nodes@);
    assert(text_set(paths@) =~= text_set(old(paths)@) + block_imports(*b));
}

} // verus!
