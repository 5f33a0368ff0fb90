//! A half-open range between two positions in a document.

use vstd::prelude::*;

use crate::position::Position;

verus! {

/// A half-open range: from `start` inclusive to `end` exclusive.
#[derive(Clone, Copy, Debug, PartialEq, Eq, Structural)]
pub struct Range {
    pub start: Position,
    pub end: Position,
}

} // verus!
