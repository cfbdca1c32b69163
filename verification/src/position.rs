//! Grid coordinates.

use vstd::prelude::*;

verus! {

/// A (row, column) pair naming one grid location. A value of this type
/// carries no validity guarantee: bounds are checked only where a position
/// is used to index a grid.
#[derive(Clone, Copy, Debug, PartialEq, Eq, Structural)]
pub struct CellPosition {
    pub row_index: usize,
    pub col_index: usize,
}

} // verus!
