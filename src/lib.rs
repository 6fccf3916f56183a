//! EBNF grammars, a streaming pull parser over them, and a syntax tree
//! built from its events.

pub mod ast;
pub mod ebnf;
