//! Syntax trees built from parse events.

pub mod builder;
pub mod node;

pub use builder::{build_from_events, parse_str, AstBuilder};
pub use node::{Ast, AstMetadata, AstNode};
