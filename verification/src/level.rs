//! Wall colliders for the levels of a world.

use crate::collider::{collider_for, collider_of, WallCollider};
use crate::grid::EntityId;
use crate::merge::Rectangle;
use crate::mesh::{is_wall_mesh, lemma_mesh_is_determined, wall_rectangles};
use crate::tables::{CellSet, WallSet};
use vstd::prelude::*;

verus! {

/// The grid of the layer that holds a level's walls.
#[derive(Clone, Copy, Debug, PartialEq, Eq, Structural)]
pub struct LayerGrid {
    /// The number of columns.
    pub width: i32,
    /// The number of rows.
    pub height: i32,
    /// The edge of a cell in world units.
    pub grid_size: i32,
}

/// A level and the grid of its wall layer, where the level's data holds one.
#[derive(Clone, Copy, Debug, PartialEq, Eq, Structural)]
pub struct LevelGrid {
    pub level: EntityId,
    pub layer: Option<LayerGrid>,
}

/// Why a level with wall cells got no colliders.
#[derive(Clone, Copy, Debug, PartialEq, Eq, Structural)]
pub enum MeshError {
    /// The level's data holds no layer to take the grid from.
    MissingLayer { level: EntityId },
    /// The level's grid has no columns or no rows.
    EmptyGrid { level: EntityId },
}

/// The colliders of one level.
#[derive(Debug, PartialEq, Eq)]
pub struct LevelColliders {
    pub level: EntityId,
    pub colliders: Vec<WallCollider>,
}

/// What keeps the level from being meshed, if anything does.
pub open spec fn grid_fault(grid: LevelGrid) -> Option<MeshError> {
    match grid.layer {
        None => Some(MeshError::MissingLayer { level: grid.level }),
        Some(layer) => if layer.width <= 0 || layer.height <= 0 {
            Some(MeshError::EmptyGrid { level: grid.level })
        } else {
            None
        },
    }
}

/// The cells that the colliders stand for, one rectangle for each.
pub open spec fn collider_cells(colliders: Seq<WallCollider>) -> Seq<Rectangle> {
    colliders.map_values(|c: WallCollider| c.cells)
}

/// `colliders` holds one collider for each wall rectangle of the level, in
/// the order of the level's mesh.
pub open spec fn is_level_mesh(
    walls: Set<(int, int)>,
    level: EntityId,
    layer: LayerGrid,
    overlay: bool,
    colliders: Seq<WallCollider>,
) -> bool {
    &&& is_wall_mesh(walls, layer.width as int, layer.height as int, collider_cells(colliders))
    &&& forall|k: int|
        0 <= k < colliders.len() ==> #[trigger] colliders[k] == collider_of(
            level,
            colliders[k].cells,
            layer.grid_size as int,
            overlay,
        )
}

/// The colliders for the walls of one level.
///
/// A level without a layer, or with a grid that has no columns or no rows,
/// is an error that names the level.
pub fn level_colliders(cells: &CellSet, grid: &LevelGrid, overlay: bool) -> (res: Result<
    Vec<WallCollider>,
    MeshError,
>)
    ensures
        match res {
            Ok(colliders) => grid_fault(*grid).is_none() && is_level_mesh(
                cells@,
                grid.level,
                grid.layer.unwrap(),
                overlay,
                colliders@,
            ),
            Err(fault) => grid_fault(*grid) == Some(fault),
        },
{
    let layer = match grid.layer {
        Some(layer) => layer,
        None => {
            return Err(MeshError::MissingLayer { level: grid.level });
        },
    };
    if layer.width <= 0 || layer.height <= 0 {
        return Err(MeshError::EmptyGrid { level: grid.level });
    }
    let rects = wall_rectangles(cells, layer.width, layer.height);
    let mut colliders: Vec<WallCollider> = Vec::new();
    let mut k: usize = 0;
    while k < rects.len()
        invariant
            k <= rects.len(),
            colliders.len() == k,
            forall|m: int|
                0 <= m < k ==> #[trigger] colliders[m] == collider_of(
                    grid.level,
                    rects[m],
                    layer.grid_size as int,
                    overlay,
                ),
        decreases rects.len() - k,
    {
        colliders.push(collider_for(grid.level, rects[k], layer.grid_size, overlay));
        k = k + 1;
    }
    proof {
        assert(collider_cells(colliders@) =~= rects@);
    }
    Ok(colliders)
}

/// The levels among `levels` that have wall cells, in their order.
pub open spec fn walled(levels: Seq<LevelGrid>, with_walls: Set<EntityId>) -> Seq<LevelGrid>
    decreases levels.len(),
{
    if levels.len() == 0 {
        Seq::empty()
    } else if with_walls.contains(levels.last().level) {
        walled(levels.drop_last(), with_walls).push(levels.last())
    } else {
        walled(levels.drop_last(), with_walls)
    }
}

/// `batch` holds the colliders of each level of `levels`, level by level.
pub open spec fn is_batch(
    walls: Map<EntityId, Set<(int, int)>>,
    levels: Seq<LevelGrid>,
    overlay: bool,
    batch: Seq<LevelColliders>,
) -> bool {
    &&& batch.len() == levels.len()
    &&& forall|k: int|
        0 <= k < batch.len() ==> (#[trigger] batch[k]).level == levels[k].level
            && grid_fault(levels[k]).is_none() && is_level_mesh(
            walls[levels[k].level],
            levels[k].level,
            levels[k].layer.unwrap(),
            overlay,
            batch[k].colliders@,
        )
}

/// The first of the levels with wall cells that cannot be meshed, and why.
pub open spec fn first_fault(levels: Seq<LevelGrid>, with_walls: Set<EntityId>) -> Option<MeshError>
    decreases levels.len(),
{
    if levels.len() == 0 {
        None
    } else {
        match first_fault(levels.drop_last(), with_walls) {
            Some(fault) => Some(fault),
            None => if with_walls.contains(levels.last().level) {
                grid_fault(levels.last())
            } else {
                None
            },
        }
    }
}

/// The wall colliders to spawn: for each of `levels` that has wall cells, in
/// the order given, one collider for each rectangle of its mesh.
///
/// A level without wall cells is passed over, whatever its grid. The first
/// level with wall cells that has no layer or an empty grid ends the work
/// with an error that names it.
pub fn spawn_wall_collision(walls: &WallSet, levels: &Vec<LevelGrid>, overlay: bool) -> (res:
    Result<Vec<LevelColliders>, MeshError>)
    ensures
        match res {
            Ok(batch) => first_fault(levels@, walls@.dom()).is_none() && is_batch(
                walls@,
                walled(levels@, walls@.dom()),
                overlay,
                batch@,
            ),
            Err(fault) => first_fault(levels@, walls@.dom()) == Some(fault),
        },
{
    let mut batch: Vec<LevelColliders> = Vec::new();
    let mut i: usize = 0;
    while i < levels.len()
        invariant
            i <= levels.len(),
            first_fault(levels@.take(i as int), walls@.dom()).is_none(),
            is_batch(walls@, walled(levels@.take(i as int), walls@.dom()), overlay, batch@),
        decreases levels.len() - i,
    {
        let grid = levels[i];
        let ghost seen = levels@.take(i as int);
        let ghost next = levels@.take(i + 1);
        let ghost before = batch@;
        proof {
            assert(next.drop_last() =~= seen);
            assert(next.last() == grid);
        }
        match walls.get(grid.level) {
            Some(cells) => {
                match level_colliders(cells, &grid, overlay) {
                    Ok(colliders) => {
                        batch.push(LevelColliders { level: grid.level, colliders });
                        proof {
                            let done = walled(next, walls@.dom());
                            assert(walls@.dom().contains(grid.level));
                            assert(cells@ == walls@[grid.level]);
                            assert(done == walled(seen, walls@.dom()).push(grid));
                            assert(first_fault(next, walls@.dom()).is_none());
                            assert forall|k: int| 0 <= k < batch.len() implies (
                            #[trigger] batch@[k]).level == done[k].level && grid_fault(
                                done[k],
                            ).is_none() && is_level_mesh(
                                walls@[done[k].level],
                                done[k].level,
                                done[k].layer.unwrap(),
                                overlay,
                                batch@[k].colliders@,
                            ) by {
                                if k < before.len() {
                                    assert(batch@[k] == before[k]);
                                }
                            }
                        }
                    },
                    Err(fault) => {
                        proof {
                            lemma_fault_stays(levels@, i + 1, walls@.dom());
                        }
                        return Err(fault);
                    },
                }
            },
            None => {
                proof {
                    assert(!walls@.dom().contains(grid.level));
                    assert(walled(next, walls@.dom()) == walled(seen, walls@.dom()));
                    assert(first_fault(next, walls@.dom()).is_none());
                }
            },
        }
        i = i + 1;
    }
    proof {
        assert(levels@.take(i as int) =~= levels@);
    }
    Ok(batch)
}

/// A fault among the first `upto` levels is the first fault of them all.
proof fn lemma_fault_stays(levels: Seq<LevelGrid>, upto: int, with_walls: Set<EntityId>)
    requires
        0 <= upto <= levels.len(),
        first_fault(levels.take(upto), with_walls).is_some(),
    ensures
        first_fault(levels, with_walls) == first_fault(levels.take(upto), with_walls),
    decreases levels.len() - upto,
{
    if upto == levels.len() {
        assert(levels.take(upto) =~= levels);
    } else {
        assert(levels.take(upto + 1).drop_last() =~= levels.take(upto));
        lemma_fault_stays(levels, upto + 1, with_walls);
    }
}

/// The colliders of a level are determined by its wall cells and its grid.
pub proof fn lemma_level_mesh_is_determined(
    walls: Set<(int, int)>,
    level: EntityId,
    layer: LayerGrid,
    overlay: bool,
    first: Seq<WallCollider>,
    second: Seq<WallCollider>,
)
    requires
        is_level_mesh(walls, level, layer, overlay, first),
        is_level_mesh(walls, level, layer, overlay, second),
    ensures
        first == second,
{
    lemma_mesh_is_determined(
        walls,
        layer.width as int,
        layer.height as int,
        collider_cells(first),
        collider_cells(second),
    );
    assert(first.len() == collider_cells(first).len());
    assert(second.len() == collider_cells(second).len());
    assert forall|k: int| 0 <= k < first.len() implies first[k] == second[k] by {
        assert(collider_cells(first)[k] == first[k].cells);
        assert(collider_cells(second)[k] == second[k].cells);
    }
    assert(first =~= second);
}

/// Making the colliders twice from the same wall cells and the same levels
/// gives the same colliders for the same levels, in the same order.
pub proof fn lemma_batch_is_determined(
    walls: Map<EntityId, Set<(int, int)>>,
    levels: Seq<LevelGrid>,
    overlay: bool,
    first: Seq<LevelColliders>,
    second: Seq<LevelColliders>,
)
    requires
        is_batch(walls, walled(levels, walls.dom()), overlay, first),
        is_batch(walls, walled(levels, walls.dom()), overlay, second),
    ensures
        first.len() == second.len(),
        forall|k: int|
            0 <= k < first.len() ==> (#[trigger] first[k]).level == second[k].level
                && first[k].colliders@ == second[k].colliders@,
{
    let with_walls = walled(levels, walls.dom());
    assert forall|k: int| 0 <= k < first.len() implies (#[trigger] first[k]).level
        == second[k].level && first[k].colliders@ == second[k].colliders@ by {
        assert(second[k].level == with_walls[k].level);
        lemma_level_mesh_is_determined(
            walls[with_walls[k].level],
            with_walls[k].level,
            with_walls[k].layer.unwrap(),
            overlay,
            first[k].colliders@,
            second[k].colliders@,
        );
    }
}

} // verus!
