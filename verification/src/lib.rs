//! A small BNF toolkit: a lexer and parser for a BNF-like rule notation, and a
//! grammar engine that validates a rule set, matches text against a named rule
//! with span capture, and expands a named rule into a random string.

pub mod ast;
pub mod engine;
pub mod laws;
pub mod lex;
pub mod semantics;
mod text;
