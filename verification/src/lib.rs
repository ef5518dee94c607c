//! A verified interpreter for markdownlang, a programming language written as Markdown.
pub mod text;
pub mod number;
pub mod decimal;
pub mod document;
pub mod ast;
pub mod lexer;
pub mod markdown;
pub mod parse_error;
pub mod expression;
pub mod item_lexer;
pub mod source_text;
pub mod structure;
pub mod runtime;
pub mod environment;
pub mod pattern;
pub mod registry;
pub mod interpreter;
pub mod testing;

use vstd::prelude::*;

verus! {
} // verus!
