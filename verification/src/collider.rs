//! The box collider of a wall rectangle.

use crate::grid::EntityId;
use crate::merge::Rectangle;
use vstd::prelude::*;

verus! {

/// A fixed box collider for one wall rectangle, placed relative to the level
/// that owns it.
///
/// All lengths are in world units and whole. The box is `width` wide and
/// `height` high, so its half extents are half of these; its center lies at
/// half of `twice_center_x` and `twice_center_y`.
#[derive(Clone, Copy, Debug, PartialEq, Eq, Structural)]
pub struct WallCollider {
    /// The level that the collider is a child of.
    pub level: EntityId,
    /// The cells that the collider stands for.
    pub cells: Rectangle,
    pub width: i64,
    pub height: i64,
    pub twice_center_x: i64,
    pub twice_center_y: i64,
    /// Whether a visible box of the same size goes with the collider.
    pub overlay: bool,
}

/// The collider of the rectangle `cells` on a grid whose cells are
/// `grid_size` world units wide and high.
pub open spec fn collider_of(
    level: EntityId,
    cells: Rectangle,
    grid_size: int,
    overlay: bool,
) -> WallCollider {
    WallCollider {
        level,
        cells,
        width: ((cells.right - cells.left + 1) * grid_size) as i64,
        height: ((cells.top - cells.bottom + 1) * grid_size) as i64,
        twice_center_x: ((cells.left + cells.right + 1) * grid_size) as i64,
        twice_center_y: ((cells.bottom + cells.top + 1) * grid_size) as i64,
        overlay,
    }
}

/// `count` cells of `grid_size` world units each.
fn scale(count: i64, grid_size: i32) -> (length: i64)
    requires
        -0x1_0000_0000 < count <= 0x1_0000_0000,
    ensures
        length == count * grid_size,
{
    proof {
        let c = count as int;
        let g = grid_size as int;
        assert(c * g <= 0x7fff_ffff_ffff_ffff && c * g >= -0x8000_0000_0000_0000)
            by (nonlinear_arith)
            requires
                -0xffff_ffff <= c <= 0x1_0000_0000,
                -0x8000_0000 <= g <= 0x7fff_ffff,
        {
            if c >= 0 && g >= 0 {
                assert(c * g <= 0x1_0000_0000 * g);
                assert(c * g >= 0);
            } else if c >= 0 && g < 0 {
                assert(c * g >= 0x1_0000_0000 * g);
                assert(c * g <= 0);
            } else if c < 0 && g >= 0 {
                assert(c * g >= -0xffff_ffff * g);
                assert(c * g <= 0);
            } else {
                assert((-c) * (-g) <= 0xffff_ffff * (-g));
                assert(c * g == (-c) * (-g));
                assert(c * g >= 0);
            }
        }
    }
    count * (grid_size as i64)
}

/// The collider for a wall rectangle of `level`.
pub fn collider_for(level: EntityId, cells: Rectangle, grid_size: i32, overlay: bool) -> (collider:
    WallCollider)
    ensures
        collider == collider_of(level, cells, grid_size as int, overlay),
        collider.width == (cells.right - cells.left + 1) * grid_size,
        collider.height == (cells.top - cells.bottom + 1) * grid_size,
        collider.twice_center_x == (cells.left + cells.right + 1) * grid_size,
        collider.twice_center_y == (cells.bottom + cells.top + 1) * grid_size,
{
    let left = cells.left as i64;
    let right = cells.right as i64;
    let top = cells.top as i64;
    let bottom = cells.bottom as i64;
    WallCollider {
        level,
        cells,
        width: scale(right - left + 1, grid_size),
        height: scale(top - bottom + 1, grid_size),
        twice_center_x: scale(left + right + 1, grid_size),
        twice_center_y: scale(bottom + top + 1, grid_size),
        overlay,
    }
}

} // verus!
