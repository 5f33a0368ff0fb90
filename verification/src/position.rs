//! Positions inside a document, measured in lines and byte columns.

use vstd::prelude::*;

verus! {

/// A zero-based position inside a document: a line number and a byte column
/// within that line.
#[derive(Clone, Copy, Debug, PartialEq, Eq, Structural)]
pub struct Position {
    pub line: usize,
    pub character: usize,
}

} // verus!
