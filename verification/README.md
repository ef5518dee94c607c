# markdownlang

markdownlang is a small programming language written in Markdown. A level-1
heading opens a block; deeper headings open sub-blocks. An ordered list in a
block is its chain of instructions (items with the same number form one fence
group), and the rest of the block (paragraphs, lists, tables, code) is its body.
Bold text prints a template, `~~...~~` marks a struck value, links and images
invoke blocks, and nested bullet lists give the arms of a `match`.

## Layout

- `src/` is the library, verified with Verus:
  - `markdown.rs` reads Markdown events through pulldown-cmark;
  - `structure.rs` turns the events into blocks, chains and bodies;
  - `item_lexer.rs`, `lexer.rs` and `expression.rs` read instructions,
    expressions, templates and patterns;
  - `interpreter.rs`, `environment.rs`, `pattern.rs`, `registry.rs` and
    `runtime.rs` run programs;
  - `number.rs` and `decimal.rs` hold the binary64 numbers (computed with a
    software floating-point library) and their printed form;
  - `testing.rs` holds the logic of the test runner (reading test files,
    judging runs, selecting categories).
- `tests/` holds the library's tests.
- `app/` is the command-line program: argument handling, file I/O, import
  loading and diagnostics reporting, around the library.
