//! Regions and their cells.

use vstd::prelude::*;
use crate::column::{Any, Column};

verus! {

/// The position of a region in the order in which regions were created.
#[derive(Clone, Copy, Debug, PartialEq, Eq, Hash)]
pub struct RegionIndex(pub usize);

/// The absolute row at which a region starts.
#[derive(Clone, Copy, Debug, PartialEq, Eq, Hash)]
pub struct RegionStart(pub usize);

/// A cell of a region: the region, the row relative to the region's start, and
/// the column.
#[derive(Clone, Copy, Debug, PartialEq, Eq, Hash)]
pub struct Cell {
    pub region_index: RegionIndex,
    pub row_offset: usize,
    pub column: Column<Any>,
}

/// An absolute position of the grid, as an end of an equality constraint.
#[derive(Clone, Copy, Debug, PartialEq, Eq, Hash)]
pub struct CopyCell {
    pub column: Column<Any>,
    pub row: usize,
}

/// An equality constraint: the two positions must hold equal values.
pub type Equality = (CopyCell, CopyCell);

} // verus!
