use vstd::prelude::*;
use crate::math::IVec2;

verus! {

/// A request from outside the tick to place a cell of material `cell_type` at `pos`.
#[derive(Clone, Copy, Debug, PartialEq, Eq, Structural)]
pub struct SpawnCellEvent {
    pub pos: IVec2,
    pub cell_type: usize,
}

/// A request from outside the tick to clear the cell at `pos`.
#[derive(Clone, Copy, Debug, PartialEq, Eq, Structural)]
pub struct RemoveCellEvent {
    pub pos: IVec2,
}

} // verus!
