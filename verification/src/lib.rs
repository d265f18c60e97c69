//! A parse-only language server core for Lyma documents.
use vstd::prelude::*;

pub mod ast;
pub mod capabilities;
pub mod cli;
pub mod code_actions;
pub mod commands;
pub mod completion;
pub mod config;
pub mod diagnostics;
pub mod document;
pub mod eval;
pub mod folding;
pub mod formatting;
pub mod goto;
pub mod hover;
pub mod imports;
pub mod index;
pub mod index_plan;
pub mod inlay_hints;
pub mod lexer;
pub mod navigation;
pub mod outline;
pub mod parser;
pub mod paths;
pub mod position;
pub mod references;
pub mod rename;
pub mod syntax;
pub mod selection_ranges;
pub mod semantic;
pub mod semantic_tokens;
pub mod state;
pub mod symbol_search;
pub mod symbols;
pub mod syntax_tree;
pub mod tasks;
pub mod text;
pub mod uri;
pub mod workspace;

use crate::text::concat2;

verus! {

pub const VERSION: &'static str = "0.1.0";

/// The package name and version, as `--version` prints them.
pub fn version_banner() -> (banner: String)
    ensures
        banner@ == "lymals "@ + VERSION@,
{
    concat2("lymals ", VERSION)
}

} // verus!
