//! Grammar representation, validation and the streaming parser.

pub mod grammar;
pub mod parser;
pub mod span;
pub mod text;
pub mod tracker;
pub mod validate;

pub use grammar::{CharClass, Grammar, Prod, RepeatQuant, Rule, TerminalKind};
pub use parser::{parse_str, ParseError, ParseEvent, Parser, Pull, TokenKind};
pub use span::Span;
pub use tracker::LineColumnTracker;
