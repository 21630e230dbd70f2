//! The fixed saturation-intensity grid.
//!
//! Every sweep runs over the same sixteen saturation intensities,
//! 10000, 11000, ..., 25000 watts/cm2: an invariant of the physical
//! model, not a configurable input.

use vstd::prelude::*;

verus! {

/// Number of saturation intensities in the grid.
pub const GRID_LEN: usize = 16;

/// Smallest saturation intensity of the grid.
pub const GRID_MIN: u32 = 10000;

/// Distance between two consecutive grid values.
pub const GRID_STEP: u32 = 1000;

/// The `i`-th saturation intensity of the grid.
pub open spec fn grid_value(i: int) -> int {
    GRID_MIN + GRID_STEP * i
}

/// The grid is strictly ascending.
pub proof fn lemma_grid_ascending(i: int, j: int)
    requires
        0 <= i < j < GRID_LEN,
    ensures
        grid_value(i) < grid_value(j),
{
}

/// Builds the grid as a vector: sixteen values, 10000 through 25000 in
/// steps of 1000, in ascending order.
pub fn saturation_grid() -> (g: Vec<u32>)
    ensures
        g@.len() == GRID_LEN,
        forall|i: int| 0 <= i < GRID_LEN ==> g@[i] == grid_value(i),
{
    let mut g: Vec<u32> = Vec::new();
    let mut i: usize = 0;
    while i < GRID_LEN
        invariant
            i <= GRID_LEN,
            g@.len() == i,
            forall|k: int| 0 <= k < i ==> g@[k] == grid_value(k),
        decreases GRID_LEN - i,
    {
        g.push(GRID_MIN + GRID_STEP * (i as u32));
        i = i + 1;
    }
    g
}

} // verus!
