//! Positions in a document.

use vstd::prelude::*;

verus! {

/// A place in a document: line `y`, and in front of cluster `x` of that line.
/// `x` may equal the number of clusters of the line (its end) and `y` the
/// number of lines (behind the last line).
#[derive(Clone, Copy, Debug, PartialEq, Eq, Structural)]
pub struct Position {
    pub x: usize,
    pub y: usize,
}

impl Default for Position {
    fn default() -> (p: Position)
        ensures
            p == (Position { x: 0, y: 0 }),
    {
        Position { x: 0, y: 0 }
    }
}

} // verus!
