//! Byte ranges with optional line and column.

use vstd::prelude::*;

verus! {

/// A byte range of the input, with the line and column of its start when known.
#[derive(Debug, Clone, Copy, PartialEq, Eq, Structural)]
pub struct Span {
    pub start: usize,
    pub end: usize,
    /// Line of `start`, counting from 1.
    pub line: Option<u32>,
    /// Column of `start`, counting from 1.
    pub column: Option<u32>,
}

impl Span {
    /// A span from byte offsets alone.
    pub fn new(start: usize, end: usize) -> (r: Span)
        ensures
            r == (Span { start, end, line: None, column: None }),
    {
        Span { start, end, line: None, column: None }
    }

    /// A span that also records the line and column of its start.
    pub fn with_position(start: usize, end: usize, line: u32, column: u32) -> (r: Span)
        ensures
            r == (Span { start, end, line: Some(line), column: Some(column) }),
    {
        Span { start, end, line: Some(line), column: Some(column) }
    }
}

} // verus!
