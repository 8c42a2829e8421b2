use vstd::prelude::*;

verus! {

/// The direction in which a search query is handled.
#[derive(PartialEq, Eq, Structural, Clone, Copy, Debug)]
pub enum SearchDirection {
    Forward,
    Backward,
}

/// A position in the document: grapheme column `x` on line `y`.
///
/// Positions are ordered lexicographically by `(y, x)`, which the derived
/// order provides thanks to the field declaration order.
#[derive(Default, Clone, Copy, PartialEq, Eq, Structural, PartialOrd, Ord, Hash, Debug)]
pub struct Position {
    /// The line index.
    pub y: usize,
    /// The grapheme column.
    pub x: usize,
}

/// The lexicographic `(line, column)` order on positions.
pub open spec fn pos_le(a: Position, b: Position) -> bool {
    a.y < b.y || (a.y == b.y && a.x <= b.x)
}

/// An in-progress document-level selection, used for copy.
#[derive(Clone, Copy, Debug)]
pub struct Selection {
    pub start: Position,
    pub end: Position,
}

} // verus!
