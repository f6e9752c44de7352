//! Gathering the wall cells that were seen into one set per level.

use crate::grid::{EntityId, GridCoords};
use crate::tables::WallSet;
use vstd::prelude::*;

verus! {

/// A wall cell as the engine reports it: where it lies on its level's grid,
/// and the level that owns it, where the engine could tell.
#[derive(Clone, Copy, Debug, PartialEq, Eq, Structural)]
pub struct WallSighting {
    pub coords: GridCoords,
    pub level: Option<EntityId>,
}

/// One of the first `upto` sightings belongs to `level`.
pub open spec fn level_seen(sightings: Seq<WallSighting>, upto: int, level: EntityId) -> bool {
    exists|i: int| 0 <= i < upto <= sightings.len() && (#[trigger] sightings[i]).level == Some(level)
}

/// One of the first `upto` sightings is the cell `cell` of `level`.
pub open spec fn cell_seen(
    sightings: Seq<WallSighting>,
    upto: int,
    level: EntityId,
    cell: (int, int),
) -> bool {
    exists|i: int|
        0 <= i < upto <= sightings.len() && (#[trigger] sightings[i]).level == Some(level)
            && sightings[i].coords.cell() == cell
}

/// `walls` holds what the first `upto` sightings show: the levels that own
/// one of them, each with the cells that were seen of it.
pub open spec fn indexes(
    walls: Map<EntityId, Set<(int, int)>>,
    sightings: Seq<WallSighting>,
    upto: int,
) -> bool {
    &&& forall|level: EntityId| #[trigger]
        walls.dom().contains(level) <==> level_seen(sightings, upto, level)
    &&& forall|level: EntityId, cell: (int, int)|
        walls.dom().contains(level) ==> (#[trigger] walls[level].contains(cell) <==> cell_seen(
            sightings,
            upto,
            level,
            cell,
        ))
}

/// Taking one more sighting adds that sighting, and nothing else, to what
/// was seen; and a cell that was seen of a level shows that the level was
/// seen.
proof fn lemma_one_more_sighting(
    sightings: Seq<WallSighting>,
    i: int,
    level: EntityId,
    cell: (int, int),
)
    requires
        0 <= i < sightings.len(),
    ensures
        level_seen(sightings, i + 1, level) <==> level_seen(sightings, i, level)
            || sightings[i].level == Some(level),
        cell_seen(sightings, i + 1, level, cell) <==> cell_seen(sightings, i, level, cell) || (
        sightings[i].level == Some(level) && sightings[i].coords.cell() == cell),
        cell_seen(sightings, i, level, cell) ==> level_seen(sightings, i, level),
{
    let s = sightings;
    if level_seen(s, i + 1, level) {
        let k = choose|k: int| 0 <= k < i + 1 <= s.len() && (#[trigger] s[k]).level == Some(level);
        if k < i {
            assert(0 <= k < i <= s.len() && s[k].level == Some(level));
        }
    }
    if level_seen(s, i, level) {
        let k = choose|k: int| 0 <= k < i <= s.len() && (#[trigger] s[k]).level == Some(level);
        assert(0 <= k < i + 1 <= s.len() && s[k].level == Some(level));
    }
    if cell_seen(s, i + 1, level, cell) {
        let k = choose|k: int|
            0 <= k < i + 1 <= s.len() && (#[trigger] s[k]).level == Some(level)
                && s[k].coords.cell() == cell;
        if k < i {
            assert(0 <= k < i <= s.len() && s[k].level == Some(level) && s[k].coords.cell()
                == cell);
        }
    }
    if cell_seen(s, i, level, cell) {
        let k = choose|k: int|
            0 <= k < i <= s.len() && (#[trigger] s[k]).level == Some(level) && s[k].coords.cell()
                == cell;
        assert(0 <= k < i + 1 <= s.len() && s[k].level == Some(level) && s[k].coords.cell()
            == cell);
        assert(0 <= k < i <= s.len() && s[k].level == Some(level));
    }
    if s[i].level == Some(level) {
        assert(0 <= i < i + 1 <= s.len() && s[i].level == Some(level));
    }
}

/// The wall cells of each level, from the sightings of wall cells. A sighting
/// without a level is passed over. The order of the sightings and a cell seen
/// twice make no difference.
pub fn index_walls(sightings: &Vec<WallSighting>) -> (walls: WallSet)
    ensures
        indexes(walls@, sightings@, sightings.len() as int),
{
    let mut walls = WallSet::new();
    let mut i: usize = 0;
    while i < sightings.len()
        invariant
            i <= sightings.len(),
            indexes(walls@, sightings@, i as int),
        decreases sightings.len() - i,
    {
        let seen = sightings[i];
        let ghost before = walls@;
        let ghost s = sightings@;
        if let Some(level) = seen.level {
            walls.insert(level, seen.coords);
        }
        proof {
            let after = walls@;
            assert forall|other: EntityId| #[trigger]
                after.dom().contains(other) <==> level_seen(s, i + 1, other) by {
                lemma_one_more_sighting(s, i as int, other, seen.coords.cell());
                assert(before.dom().contains(other) <==> level_seen(s, i as int, other));
            }
            assert forall|other: EntityId, cell: (int, int)|
                after.dom().contains(other) implies (#[trigger] after[other].contains(cell)
                <==> cell_seen(s, i + 1, other, cell)) by {
                lemma_one_more_sighting(s, i as int, other, cell);
                assert(before.dom().contains(other) <==> level_seen(s, i as int, other));
                if before.dom().contains(other) {
                    assert(before[other].contains(cell) <==> cell_seen(s, i as int, other, cell));
                }
            }
        }
        i = i + 1;
    }
    walls
}

/// What is seen in one list is seen in any list with the same sightings.
proof fn lemma_seen_in_both(
    here: Seq<WallSighting>,
    there: Seq<WallSighting>,
    level: EntityId,
    cell: (int, int),
)
    requires
        here.to_set() == there.to_set(),
    ensures
        level_seen(here, here.len() as int, level) ==> level_seen(
            there,
            there.len() as int,
            level,
        ),
        cell_seen(here, here.len() as int, level, cell) ==> cell_seen(
            there,
            there.len() as int,
            level,
            cell,
        ),
{
    if level_seen(here, here.len() as int, level) {
        let i = choose|i: int|
            0 <= i < here.len() <= here.len() && (#[trigger] here[i]).level == Some(level);
        assert(here.to_set().contains(here[i]));
        assert(there.contains(here[i]));
        let j = choose|j: int| 0 <= j < there.len() && there[j] == here[i];
        assert(0 <= j < there.len() <= there.len() && there[j].level == Some(level));
    }
    if cell_seen(here, here.len() as int, level, cell) {
        let i = choose|i: int|
            0 <= i < here.len() <= here.len() && (#[trigger] here[i]).level == Some(level)
                && here[i].coords.cell() == cell;
        assert(here.to_set().contains(here[i]));
        assert(there.contains(here[i]));
        let j = choose|j: int| 0 <= j < there.len() && there[j] == here[i];
        assert(0 <= j < there.len() <= there.len() && there[j].level == Some(level)
            && there[j].coords.cell() == cell);
    }
}

/// What the index holds depends on which sightings there are, not on their
/// order nor on how often one occurs: two lists with the same sightings give
/// the same wall cells for the same levels.
pub proof fn lemma_index_ignores_order(
    first: Seq<WallSighting>,
    second: Seq<WallSighting>,
    walls_of_first: Map<EntityId, Set<(int, int)>>,
    walls_of_second: Map<EntityId, Set<(int, int)>>,
)
    requires
        first.to_set() == second.to_set(),
        indexes(walls_of_first, first, first.len() as int),
        indexes(walls_of_second, second, second.len() as int),
    ensures
        walls_of_first == walls_of_second,
{
    assert forall|level: EntityId|
        walls_of_first.dom().contains(level) <==> walls_of_second.dom().contains(level) by {
        lemma_seen_in_both(first, second, level, (0, 0));
        lemma_seen_in_both(second, first, level, (0, 0));
    }
    assert(walls_of_first.dom() =~= walls_of_second.dom());
    assert forall|level: EntityId| walls_of_first.dom().contains(level) implies walls_of_first[level]
        == walls_of_second[level] by {
        assert forall|cell: (int, int)|
            walls_of_first[level].contains(cell) <==> walls_of_second[level].contains(cell) by {
            lemma_seen_in_both(first, second, level, cell);
            lemma_seen_in_both(second, first, level, cell);
        }
        assert(walls_of_first[level] =~= walls_of_second[level]);
    }
    assert(walls_of_first =~= walls_of_second);
}

} // verus!
