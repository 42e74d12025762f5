//! A single board cell and the geometric conflict predicate.

use vstd::prelude::*;

use crate::rng::RandomSource;

verus! {

/// A cell of an `n` by `n` chess board, addressed by row and column.
#[derive(Debug, Clone, Copy, PartialEq, Eq, Structural)]
pub struct Point {
    pub row: usize,
    pub col: usize,
}

/// Distance between the rows of two points.
pub open spec fn row_dist(a: Point, b: Point) -> int {
    if a.row >= b.row {
        a.row - b.row
    } else {
        b.row - a.row
    }
}

/// Distance between the columns of two points.
pub open spec fn col_dist(a: Point, b: Point) -> int {
    if a.col >= b.col {
        a.col - b.col
    } else {
        b.col - a.col
    }
}

/// Two distinct queens threaten each other when they share a row, a column,
/// or a diagonal; a queen never threatens itself.
pub open spec fn conflicts(a: Point, b: Point) -> bool {
    a != b && (a.row == b.row || a.col == b.col || row_dist(a, b) == col_dist(a, b))
}

/// The conflict relation is symmetric and irreflexive: `conflicts(a, b)`
/// holds exactly when `conflicts(b, a)` does, and no point conflicts with itself.
pub proof fn lemma_conflicts_symmetric_irreflexive(a: Point, b: Point)
    ensures
        conflicts(a, b) == conflicts(b, a),
        !conflicts(a, a),
{
}

impl Point {
    pub fn new(row: usize, col: usize) -> (p: Self)
        ensures
            p.row == row,
            p.col == col,
    {
        Self { row, col }
    }

    /// Draw a point uniformly from an `n` by `n` square.
    pub fn random<R: RandomSource>(n: usize, rng: &mut R) -> (p: Self)
        requires
            n >= 1,
        ensures
            p.row < n,
            p.col < n,
    {
        let row = rng.next_below(n);
        let col = rng.next_below(n);
        Self { row, col }
    }
}

} // verus!
