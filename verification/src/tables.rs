//! The engine's hash tables, as far as this crate fills and reads them.
//!
//! Each table is a `bevy::utils` collection, which is a `HashSet` or a
//! `HashMap` of the crate `hashbrown`, behind a struct that Verus does not
//! look into. A table's content has a name, and each call into the
//! collection is a small function whose contract is believed, not proved;
//! they stand at the top of the section of their table. The public methods
//! below them are verified against those contracts.
//!
//! The keys are integers and tuples of integers: their `Hash` and `Eq` are
//! those of the standard library.

use crate::grid::{lift_cells, EntityId, GridCoords};
use vstd::prelude::*;

verus! {

// ---------------------------------------------------------------------------
// Wall cells of one level
// ---------------------------------------------------------------------------

/// The wall cells of one level, in a `bevy::utils::HashSet` of coordinate
/// pairs.
#[verifier::external_body]
pub struct CellSet {
    cells: bevy::utils::HashSet<(i32, i32)>,
}

/// The coordinate pairs that a cell set holds.
pub uninterp spec fn cell_set_contents(set: CellSet) -> Set<(i32, i32)>;

/// `HashSet::new` of `bevy::utils`: the new set holds nothing.
#[verifier::external_body]
fn cell_set_new() -> (set: CellSet)
    ensures
        cell_set_contents(set) == Set::<(i32, i32)>::empty(),
{
    CellSet { cells: bevy::utils::HashSet::new() }
}

/// `HashSet::insert` of `bevy::utils`: afterwards the set holds the pair
/// besides all that it held before, and the result tells whether the pair was
/// new to it.
#[verifier::external_body]
fn cell_set_insert(set: &mut CellSet, x: i32, y: i32) -> (fresh: bool)
    ensures
        cell_set_contents(*final(set)) == cell_set_contents(*old(set)).insert((x, y)),
        fresh == !cell_set_contents(*old(set)).contains((x, y)),
{
    set.cells.insert((x, y))
}

/// `HashSet::contains` of `bevy::utils`: whether the set holds the pair.
#[verifier::external_body]
fn cell_set_contains(set: &CellSet, x: i32, y: i32) -> (found: bool)
    ensures
        found == cell_set_contents(*set).contains((x, y)),
{
    set.cells.contains(&(x, y))
}

impl View for CellSet {
    type V = Set<(int, int)>;

    /// The wall cells as a set of `(x, y)` pairs.
    open spec fn view(&self) -> Set<(int, int)> {
        lift_cells(cell_set_contents(*self))
    }
}

impl CellSet {
    /// A set without cells.
    pub fn new() -> (set: Self)
        ensures
            set@ == Set::<(int, int)>::empty(),
    {
        cell_set_new()
    }

    /// Marks the cell at `at` as a wall. Returns whether it was free before.
    pub fn insert(&mut self, at: GridCoords) -> (fresh: bool)
        ensures
            final(self)@ == old(self)@.insert(at.cell()),
            fresh == !old(self)@.contains(at.cell()),
    {
        cell_set_insert(self, at.x, at.y)
    }

    /// Whether the cell at `at` is a wall.
    pub fn contains(&self, at: GridCoords) -> (found: bool)
        ensures
            found == self@.contains(at.cell()),
    {
        cell_set_contains(self, at.x, at.y)
    }
}

// ---------------------------------------------------------------------------
// Wall cells of all levels
// ---------------------------------------------------------------------------

/// The wall cells of every level that has any, in a `bevy::utils::HashMap`
/// from the level's entity to the level's cells.
#[verifier::external_body]
pub struct WallSet {
    levels: bevy::utils::HashMap<u64, CellSet>,
}

/// The coordinate pairs that a wall set holds for each level.
pub uninterp spec fn wall_set_contents(walls: WallSet) -> Map<u64, Set<(i32, i32)>>;

/// `HashMap::new` of `bevy::utils`: the new map has no entry.
#[verifier::external_body]
fn wall_set_new() -> (walls: WallSet)
    ensures
        wall_set_contents(walls).dom() == Set::<u64>::empty(),
{
    WallSet { levels: bevy::utils::HashMap::new() }
}

/// `HashMap::entry`, `Entry::or_insert_with` and `HashSet::insert` of
/// `bevy::utils`, in a row: afterwards the level's entry holds the pair
/// besides what it held before, which is what `CellSet::new` gives where the
/// level had no entry: nothing. Every other entry is as before.
#[verifier::external_body]
fn wall_set_add(walls: &mut WallSet, level: u64, x: i32, y: i32)
    ensures
        wall_set_contents(*final(walls)) == wall_set_contents(*old(walls)).insert(
            level,
            (if wall_set_contents(*old(walls)).dom().contains(level) {
                wall_set_contents(*old(walls))[level]
            } else {
                Set::<(i32, i32)>::empty()
            }).insert((x, y)),
        ),
{
    walls.levels.entry(level).or_insert_with(CellSet::new).cells.insert((x, y));
}

/// `HashMap::get` of `bevy::utils`: the cells of the level, if the map has an
/// entry for it.
#[verifier::external_body]
fn wall_set_get(walls: &WallSet, level: u64) -> (cells: Option<&CellSet>)
    ensures
        cells.is_some() == wall_set_contents(*walls).dom().contains(level),
        cells matches Some(found) ==> cell_set_contents(*found) == wall_set_contents(
            *walls,
        )[level],
{
    walls.levels.get(&level)
}

impl View for WallSet {
    type V = Map<EntityId, Set<(int, int)>>;

    /// The levels that have wall cells, each with the set of its cells.
    open spec fn view(&self) -> Map<EntityId, Set<(int, int)>> {
        Map::new(
            |level: EntityId| wall_set_contents(*self).dom().contains(level),
            |level: EntityId| lift_cells(wall_set_contents(*self)[level]),
        )
    }
}

impl WallSet {
    /// A wall set without levels.
    pub fn new() -> (walls: Self)
        ensures
            walls@ == Map::<EntityId, Set<(int, int)>>::empty(),
    {
        wall_set_new()
    }

    /// Marks the cell at `at` of the level as a wall. A level enters the set
    /// with its first cell.
    pub fn insert(&mut self, level: EntityId, at: GridCoords)
        ensures
            final(self)@ == old(self)@.insert(
                level,
                (if old(self)@.dom().contains(level) {
                    old(self)@[level]
                } else {
                    Set::<(int, int)>::empty()
                }).insert(at.cell()),
            ),
    {
        wall_set_add(self, level, at.x, at.y);
        proof {
            let before = wall_set_contents(*old(self));
            let raw = if before.dom().contains(level) {
                before[level]
            } else {
                Set::<(i32, i32)>::empty()
            };
            let cells = if old(self)@.dom().contains(level) {
                old(self)@[level]
            } else {
                Set::<(int, int)>::empty()
            };
            assert(lift_cells(raw) == cells);
            assert(lift_cells(raw.insert((at.x, at.y))) == cells.insert(at.cell()));
            assert(self@ =~= old(self)@.insert(level, cells.insert(at.cell())));
        }
    }

    /// The wall cells of the level, if it has any.
    pub fn get(&self, level: EntityId) -> (cells: Option<&CellSet>)
        ensures
            cells.is_some() == self@.dom().contains(level),
            cells matches Some(found) ==> found@ == self@[level],
    {
        wall_set_get(self, level)
    }
}

// ---------------------------------------------------------------------------
// Sets of entities
// ---------------------------------------------------------------------------

/// A set of entities, in a `bevy::utils::HashSet` of their identifiers.
#[verifier::external_body]
pub struct EntitySet {
    entities: bevy::utils::HashSet<u64>,
}

/// The identifiers that an entity set holds.
pub uninterp spec fn entity_set_contents(set: EntitySet) -> Set<u64>;

/// `HashSet::new` of `bevy::utils`: the new set holds nothing.
#[verifier::external_body]
fn entity_set_new() -> (set: EntitySet)
    ensures
        entity_set_contents(set) == Set::<u64>::empty(),
{
    EntitySet { entities: bevy::utils::HashSet::new() }
}

/// `HashSet::insert` of `bevy::utils`: afterwards the set holds the entity
/// besides all that it held before, and the result tells whether the entity
/// was new to it.
#[verifier::external_body]
fn entity_set_insert(set: &mut EntitySet, entity: u64) -> (fresh: bool)
    ensures
        entity_set_contents(*final(set)) == entity_set_contents(*old(set)).insert(entity),
        fresh == !entity_set_contents(*old(set)).contains(entity),
{
    set.entities.insert(entity)
}

/// `HashSet::remove` of `bevy::utils`: afterwards the set holds all that it
/// held before but the entity, and the result tells whether it held the
/// entity.
#[verifier::external_body]
fn entity_set_remove(set: &mut EntitySet, entity: u64) -> (present: bool)
    ensures
        entity_set_contents(*final(set)) == entity_set_contents(*old(set)).remove(entity),
        present == entity_set_contents(*old(set)).contains(entity),
{
    set.entities.remove(&entity)
}

/// `HashSet::contains` of `bevy::utils`: whether the set holds the entity.
#[verifier::external_body]
fn entity_set_contains(set: &EntitySet, entity: u64) -> (found: bool)
    ensures
        found == entity_set_contents(*set).contains(entity),
{
    set.entities.contains(&entity)
}

/// `HashSet::is_empty` of `bevy::utils`: whether the set holds nothing.
#[verifier::external_body]
fn entity_set_is_empty(set: &EntitySet) -> (empty: bool)
    ensures
        empty == (entity_set_contents(*set) == Set::<u64>::empty()),
{
    set.entities.is_empty()
}

impl View for EntitySet {
    type V = Set<EntityId>;

    /// The entities of the set.
    open spec fn view(&self) -> Set<EntityId> {
        entity_set_contents(*self)
    }
}

impl EntitySet {
    /// A set without entities.
    pub fn new() -> (set: Self)
        ensures
            set@ == Set::<EntityId>::empty(),
    {
        entity_set_new()
    }

    /// Puts the entity into the set. Returns whether it was new to the set.
    pub fn insert(&mut self, entity: EntityId) -> (fresh: bool)
        ensures
            final(self)@ == old(self)@.insert(entity),
            fresh == !old(self)@.contains(entity),
    {
        entity_set_insert(self, entity)
    }

    /// Takes the entity out of the set. Returns whether the set held it; a
    /// set that did not hold it stays as it is.
    pub fn remove(&mut self, entity: EntityId) -> (present: bool)
        ensures
            final(self)@ == old(self)@.remove(entity),
            present == old(self)@.contains(entity),
    {
        entity_set_remove(self, entity)
    }

    /// Whether the set holds the entity.
    pub fn contains(&self, entity: EntityId) -> (found: bool)
        ensures
            found == self@.contains(entity),
    {
        entity_set_contains(self, entity)
    }

    /// Whether the set holds no entity.
    pub fn is_empty(&self) -> (empty: bool)
        ensures
            empty == (self@ == Set::<EntityId>::empty()),
    {
        entity_set_is_empty(self)
    }
}

// ---------------------------------------------------------------------------
// Rectangles that are still growing
// ---------------------------------------------------------------------------

/// The rectangles that the merge of plates has begun and not yet closed, in
/// a `bevy::utils::HashMap` from a plate `(left, right)` to the rows
/// `(bottom, top)` that the rectangle spans so far.
#[verifier::external_body]
pub struct OpenSpans {
    spans: bevy::utils::HashMap<(i32, i32), (i32, i32)>,
}

/// The entries that a table of open spans holds.
pub uninterp spec fn open_spans_contents(table: OpenSpans) -> Map<(i32, i32), (i32, i32)>;

/// `HashMap::new` of `bevy::utils`: the new table has no entry.
#[verifier::external_body]
pub(crate) fn open_spans_new() -> (table: OpenSpans)
    ensures
        open_spans_contents(table).dom() == Set::<(i32, i32)>::empty(),
{
    OpenSpans { spans: bevy::utils::HashMap::new() }
}

/// `HashMap::get` of `bevy::utils`: the rows stored under the plate, if the
/// table has an entry for it.
#[verifier::external_body]
pub(crate) fn open_spans_get(table: &OpenSpans, plate: (i32, i32)) -> (rows: Option<(i32, i32)>)
    ensures
        rows == (if open_spans_contents(*table).dom().contains(plate) {
            Some(open_spans_contents(*table)[plate])
        } else {
            None
        }),
{
    table.spans.get(&plate).copied()
}

/// `HashMap::insert` of `bevy::utils`: afterwards the plate's entry holds the
/// given rows, and every other entry is as before.
#[verifier::external_body]
pub(crate) fn open_spans_insert(table: &mut OpenSpans, plate: (i32, i32), rows: (i32, i32))
    ensures
        open_spans_contents(*final(table)) == open_spans_contents(*old(table)).insert(plate, rows),
{
    table.spans.insert(plate, rows);
}

/// `HashMap::remove` of `bevy::utils`: the rows that were stored under the
/// plate, if any; afterwards the table has no entry for the plate, and every
/// other entry is as before.
#[verifier::external_body]
pub(crate) fn open_spans_remove(table: &mut OpenSpans, plate: (i32, i32)) -> (rows: Option<
    (i32, i32),
>)
    ensures
        open_spans_contents(*final(table)) == open_spans_contents(*old(table)).remove(plate),
        rows == (if open_spans_contents(*old(table)).dom().contains(plate) {
            Some(open_spans_contents(*old(table))[plate])
        } else {
            None
        }),
{
    table.spans.remove(&plate)
}

} // verus!
