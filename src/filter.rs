//! Filters: the one way candidates are removed from the grid.
use vstd::prelude::*;

use crate::cell::CellMask;
use crate::idx::GridIdx;

verus! {

/// The candidates of `mask` are to be removed from the cell at `idx`.
#[derive(Debug, Clone, Copy)]
pub struct Filter {
    /// The candidates to remove.
    pub mask: CellMask,
    /// The grid position of the cell.
    pub idx: GridIdx,
}

impl Filter {
    /// Creates a filter.
    pub fn new(mask: CellMask, idx: GridIdx) -> (r: Filter)
        ensures
            r.mask == mask,
            r.idx == idx,
    {
        Filter { mask, idx }
    }
}

} // verus!
