use vstd::prelude::*;

verus! {

/// Side length of a chunk, in cells, on both axes.
pub const CHUNK_SIZE: i32 = 100;

/// Number of cell slots in one chunk: `CHUNK_SIZE` rows of `CHUNK_SIZE` cells.
pub const CHUNK_SIZE_LEN: usize = 10000;

/// How the cells of a material behave on a tick.
#[derive(Clone, Copy, Debug, PartialEq, Eq, Structural)]
pub enum CellPhysicsType {
    /// Falls straight down, else slides into a free diagonal below.
    Sand,
    /// Moves like sand, and spreads sideways when it cannot go down.
    Fluid,
    /// Stays put and emits cells of the material with the given id into the cell below.
    Tap(usize),
    /// Never moves.
    Static,
}

} // verus!
