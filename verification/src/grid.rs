//! Plain values that name things on a level's grid.

use vstd::prelude::*;

verus! {

/// The identifier of an entity of the engine, as the bits of its handle.
pub type EntityId = u64;

/// A position on a level's grid, counted in cells from the level's origin.
#[derive(Clone, Copy, Debug, PartialEq, Eq, Structural)]
pub struct GridCoords {
    pub x: i32,
    pub y: i32,
}

impl GridCoords {
    /// The position as a pair of mathematical integers.
    pub open spec fn cell(self) -> (int, int) {
        (self.x as int, self.y as int)
    }
}

/// The pairs of machine integers of `raw`, read as mathematical cells.
pub open spec fn lift_cells(raw: Set<(i32, i32)>) -> Set<(int, int)> {
    Set::new(
        |c: (int, int)|
            i32::MIN <= c.0 <= i32::MAX && i32::MIN <= c.1 <= i32::MAX && raw.contains(
                (c.0 as i32, c.1 as i32),
            ),
    )
}

} // verus!
