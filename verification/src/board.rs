//! The board grid: a rectangular field of `Tile`, held in an
//! `ndarray::Array2` behind trusted wrappers.
//!
//! `ndarray::ArrayBase` cannot be declared to the verifier here (its
//! definition carries a trait bound the declaration would need), so the
//! array sits in a private field of an opaque struct, and the trusted
//! wrappers below state what each `ndarray` call does to its contents,
//! named by `grid_seq`.

use crate::types::Tile;
use vstd::prelude::*;

verus! {

/// A two-dimensional grid of tiles. Always rectangular: `ndarray` arrays
/// have one fixed length per axis.
#[verifier::external_body]
pub struct Board {
    grid: ndarray::Array2<Tile>,
}

/// The rows of a board, top to bottom, each row a sequence of tiles left to
/// right. What the `ndarray::Array2<Tile>` inside holds, as mathematics.
pub uninterp spec fn grid_seq(b: Board) -> Seq<Seq<Tile>>;

impl Board {
    /// Relies on ndarray::Array2::from_elem: a rows x cols array holding
    /// copies of the element, here all `Empty`. from_elem panics when the
    /// product of the non-zero axis lengths overflows isize — so each length,
    /// and their product, is required to fit, which covers a zero on either
    /// axis beside an oversized other.
    #[verifier::external_body]
    pub fn new(rows: usize, cols: usize) -> (b: Board)
        requires
            rows <= isize::MAX as usize,
            cols <= isize::MAX as usize,
            rows * cols <= isize::MAX as usize,
        ensures
            grid_seq(b).len() == rows,
            forall|y: int| 0 <= y < rows ==> #[trigger] grid_seq(b)[y].len() == cols,
            forall|y: int, x: int|
                0 <= y < rows && 0 <= x < cols ==> #[trigger] grid_seq(b)[y][x] == Tile::Empty,
    {
        Board { grid: ndarray::Array2::from_elem((rows, cols), Tile::Empty) }
    }

    /// Relies on ndarray's `len_of(Axis(0))` through `nrows`: the number of
    /// rows of the array.
    #[verifier::external_body]
    pub fn rows(&self) -> (n: usize)
        ensures
            n == grid_seq(*self).len(),
    {
        self.grid.nrows()
    }

    /// Relies on ndarray's `len_of(Axis(1))` through `ncols`: the length of
    /// every row of the array (an array is rectangular).
    #[verifier::external_body]
    pub fn cols(&self) -> (n: usize)
        ensures
            forall|y: int| 0 <= y < grid_seq(*self).len() ==> #[trigger] grid_seq(*self)[y].len() == n,
    {
        self.grid.ncols()
    }

    /// Relies on ndarray's `Index` impl for `ArrayBase`: the element at row
    /// `y`, column `x`. Indexing panics out of bounds, so bounds are required.
    #[verifier::external_body]
    pub fn get(&self, y: usize, x: usize) -> (t: Tile)
        requires
            y < grid_seq(*self).len(),
            x < grid_seq(*self)[y as int].len(),
        ensures
            t == grid_seq(*self)[y as int][x as int],
    {
        self.grid[[y, x]]
    }

    /// Relies on ndarray's `IndexMut` impl for `ArrayBase`: writes the
    /// element at row `y`, column `x`, leaving every other element as it was.
    /// Indexing panics out of bounds, so bounds are required.
    #[verifier::external_body]
    pub fn set(&mut self, y: usize, x: usize, t: Tile)
        requires
            y < grid_seq(*old(self)).len(),
            x < grid_seq(*old(self))[y as int].len(),
        ensures
            grid_seq(*final(self)) == grid_seq(*old(self)).update(
                y as int,
                grid_seq(*old(self))[y as int].update(x as int, t),
            ),
    {
        self.grid[[y, x]] = t;
    }

    /// Relies on ndarray's `Clone` impl for `ArrayBase`: an owned array
    /// clones to an array with the same shape and the same elements.
    #[verifier::external_body]
    pub fn duplicate(&self) -> (b: Board)
        ensures
            b == *self,
    {
        Board { grid: self.grid.clone() }
    }
}

} // verus!
