//! From the wall cells of a level to its rectangles.

use crate::merge::{is_stack, merge_plates, plate_rows, precedes, row_has, Rectangle};
use crate::plate::{is_plate, is_plate_row, lemma_plates_sharing_a_column, row_plates, Plate};
use crate::tables::CellSet;
use vstd::prelude::*;

verus! {

/// `r` is a wall rectangle of a grid `width` cells wide and `height` cells
/// high: each of its rows has its columns as a plate, and neither the row
/// below it nor the row above it has.
pub open spec fn is_wall_rect(walls: Set<(int, int)>, width: int, height: int, r: Rectangle) -> bool {
    &&& 0 <= r.bottom <= r.top < height
    &&& forall|y: int| r.bottom <= y <= r.top ==> is_plate(walls, width, y, r.plate())
    &&& (r.bottom == 0 || !is_plate(walls, width, r.bottom - 1, r.plate()))
    &&& (r.top == height - 1 || !is_plate(walls, width, r.top + 1, r.plate()))
}

/// `rects` holds the wall rectangles of the grid, all of them, each once, by
/// top row and from left to right within a row.
pub open spec fn is_wall_mesh(
    walls: Set<(int, int)>,
    width: int,
    height: int,
    rects: Seq<Rectangle>,
) -> bool {
    &&& forall|k: int|
        0 <= k < rects.len() ==> is_wall_rect(walls, width, height, #[trigger] rects[k])
    &&& forall|r: Rectangle| #[trigger] is_wall_rect(walls, width, height, r) ==> rects.contains(r)
    &&& forall|k: int, m: int| 0 <= k < m < rects.len() ==> precedes(rects[k], rects[m])
}

/// The plates of every row of the grid, from row 0 up.
pub fn plate_stack(cells: &CellSet, width: i32, height: i32) -> (rows: Vec<Vec<Plate>>)
    ensures
        rows.len() == (if height > 0 {
            height as int
        } else {
            0
        }),
        forall|y: int|
            0 <= y < rows.len() ==> is_plate_row(cells@, width as int, y, (#[trigger] rows[y])@),
{
    let mut rows: Vec<Vec<Plate>> = Vec::new();
    let mut y: i32 = 0;
    while y < height
        invariant
            0 <= y,
            y <= height || y == 0,
            rows.len() == y,
            forall|z: int|
                0 <= z < rows.len() ==> is_plate_row(
                    cells@,
                    width as int,
                    z,
                    (#[trigger] rows[z])@,
                ),
        decreases height - y,
    {
        let row = row_plates(cells, width, y);
        rows.push(row);
        y = y + 1;
    }
    rows
}

/// The wall rectangles of a level: its wall cells gathered into plates row by
/// row, and the plates merged across rows.
pub fn wall_rectangles(cells: &CellSet, width: i32, height: i32) -> (rects: Vec<Rectangle>)
    ensures
        is_wall_mesh(cells@, width as int, height as int, rects@),
{
    let rows = plate_stack(cells, width, height);
    let rects = merge_plates(&rows);
    proof {
        let grid = plate_rows(rows@);
        let walls = cells@;
        let w = width as int;
        let h = height as int;
        assert forall|y: int, p: Plate| #[trigger]
            row_has(grid, y, p) <==> 0 <= y < h && is_plate(walls, w, y, p) by {
            if 0 <= y < rows.len() {
                assert(grid[y] == rows[y]@);
                assert(is_plate_row(walls, w, y, rows[y]@));
                if grid[y].contains(p) {
                    let i = choose|i: int| 0 <= i < grid[y].len() && grid[y][i] == p;
                    assert(is_plate(walls, w, y, rows[y]@[i]));
                }
            }
        }
        assert forall|r: Rectangle|
            #![trigger is_stack(grid, r)]
            #![trigger is_wall_rect(walls, w, h, r)]
            is_stack(grid, r) <==> is_wall_rect(walls, w, h, r) by {
            if is_stack(grid, r) {
                assert forall|y: int| r.bottom <= y <= r.top implies is_plate(
                    walls,
                    w,
                    y,
                    r.plate(),
                ) by {
                    assert(row_has(grid, y, r.plate()));
                }
                assert(!row_has(grid, r.bottom - 1, r.plate()));
                assert(!row_has(grid, r.top + 1, r.plate()));
            }
            if is_wall_rect(walls, w, h, r) {
                assert forall|y: int| r.bottom <= y <= r.top implies row_has(
                    grid,
                    y,
                    r.plate(),
                ) by {
                    assert(is_plate(walls, w, y, r.plate()));
                }
                assert(row_has(grid, r.bottom - 1, r.plate()) <==> 0 <= r.bottom - 1 < h
                    && is_plate(walls, w, r.bottom - 1, r.plate()));
                assert(row_has(grid, r.top + 1, r.plate()) <==> 0 <= r.top + 1 < h && is_plate(
                    walls,
                    w,
                    r.top + 1,
                    r.plate(),
                ));
            }
        }
        assert forall|k: int| 0 <= k < rects.len() implies is_wall_rect(
            walls,
            w,
            h,
            #[trigger] rects@[k],
        ) by {
            assert(is_stack(grid, rects@[k]));
        }
    }
    rects
}

/// The cells that the rectangles cover.
pub open spec fn mesh_cells(rects: Seq<Rectangle>) -> Set<(int, int)> {
    Set::new(
        |c: (int, int)| exists|k: int| 0 <= k < rects.len() && (#[trigger] rects[k]).covers(c.0, c.1),
    )
}

/// The cells of a grid `width` cells wide and `height` cells high.
pub open spec fn grid_cells(width: int, height: int) -> Set<(int, int)> {
    Set::new(|c: (int, int)| 0 <= c.0 < width && 0 <= c.1 < height)
}

/// The first of the positions from `floor` up to `i` from which `holds` is
/// true of every position below `i`.
pub open spec fn run_low(holds: spec_fn(int) -> bool, i: int, floor: int) -> int
    decreases i - floor,
{
    if i > floor && holds(i - 1) {
        run_low(holds, i - 1, floor)
    } else {
        i
    }
}

/// The last of the positions from `i` up to `ceiling` up to which `holds` is
/// true of every position above `i`.
pub open spec fn run_high(holds: spec_fn(int) -> bool, i: int, ceiling: int) -> int
    decreases ceiling - i,
{
    if i < ceiling && holds(i + 1) {
        run_high(holds, i + 1, ceiling)
    } else {
        i
    }
}

/// `run_low` is the lower end of the run of `holds` that reaches `i`.
pub proof fn lemma_run_low(holds: spec_fn(int) -> bool, i: int, floor: int)
    requires
        floor <= i,
    ensures
        floor <= run_low(holds, i, floor) <= i,
        forall|c: int| run_low(holds, i, floor) <= c < i ==> #[trigger] holds(c),
        run_low(holds, i, floor) == floor || !holds(run_low(holds, i, floor) - 1),
    decreases i - floor,
{
    if i > floor && holds(i - 1) {
        lemma_run_low(holds, i - 1, floor);
    }
}

/// `run_high` is the upper end of the run of `holds` that starts at `i`.
pub proof fn lemma_run_high(holds: spec_fn(int) -> bool, i: int, ceiling: int)
    requires
        i <= ceiling,
    ensures
        i <= run_high(holds, i, ceiling) <= ceiling,
        forall|c: int| i < c <= run_high(holds, i, ceiling) ==> #[trigger] holds(c),
        run_high(holds, i, ceiling) == ceiling || !holds(run_high(holds, i, ceiling) + 1),
    decreases ceiling - i,
{
    if i < ceiling && holds(i + 1) {
        lemma_run_high(holds, i + 1, ceiling);
    }
}

/// Every wall cell of the grid lies in a plate of its row.
pub proof fn lemma_wall_cell_has_plate(walls: Set<(int, int)>, width: int, x: int, y: int) -> (p:
    Plate)
    requires
        0 <= x < width <= i32::MAX,
        walls.contains((x, y)),
    ensures
        is_plate(walls, width, y, p),
        p.left <= x <= p.right,
{
    let holds = |c: int| walls.contains((c, y));
    lemma_run_low(holds, x, 0);
    lemma_run_high(holds, x, width - 1);
    let p = Plate { left: run_low(holds, x, 0) as i32, right: run_high(holds, x, width - 1) as i32 };
    assert forall|c: int| p.left <= c <= p.right implies walls.contains((c, y)) by {
        if c != x {
            assert(holds(c));
        }
    }
    assert(p.left == 0 || !holds(p.left - 1));
    assert(p.right == width - 1 || !holds(p.right + 1));
    p
}

/// Every plate of a row of the grid lies in a wall rectangle.
pub proof fn lemma_plate_has_rectangle(
    walls: Set<(int, int)>,
    width: int,
    height: int,
    y: int,
    p: Plate,
) -> (r: Rectangle)
    requires
        0 <= y < height <= i32::MAX,
        is_plate(walls, width, y, p),
    ensures
        is_wall_rect(walls, width, height, r),
        r.plate() == p,
        r.bottom <= y <= r.top,
{
    let holds = |z: int| is_plate(walls, width, z, p);
    lemma_run_low(holds, y, 0);
    lemma_run_high(holds, y, height - 1);
    let r = Rectangle {
        left: p.left,
        right: p.right,
        top: run_high(holds, y, height - 1) as i32,
        bottom: run_low(holds, y, 0) as i32,
    };
    assert forall|z: int| r.bottom <= z <= r.top implies is_plate(walls, width, z, r.plate()) by {
        if z != y {
            assert(holds(z));
        }
    }
    assert(r.bottom == 0 || !holds(r.bottom - 1));
    assert(r.top == height - 1 || !holds(r.top + 1));
    r
}

/// Two wall rectangles that share a cell are the same rectangle.
pub proof fn lemma_rectangles_sharing_a_cell(
    walls: Set<(int, int)>,
    width: int,
    height: int,
    a: Rectangle,
    b: Rectangle,
    x: int,
    y: int,
)
    requires
        is_wall_rect(walls, width, height, a),
        is_wall_rect(walls, width, height, b),
        a.covers(x, y),
        b.covers(x, y),
    ensures
        a == b,
{
    lemma_plates_sharing_a_column(walls, width, y, a.plate(), b.plate(), x);
    if a.bottom < b.bottom {
        assert(is_plate(walls, width, b.bottom - 1, a.plate()));
    }
    if b.bottom < a.bottom {
        assert(is_plate(walls, width, a.bottom - 1, b.plate()));
    }
    if a.top < b.top {
        assert(is_plate(walls, width, a.top + 1, b.plate()));
    }
    if b.top < a.top {
        assert(is_plate(walls, width, b.top + 1, a.plate()));
    }
}

/// The rectangles of a mesh cover the wall cells of the grid and no other
/// cell, and no cell lies in two of them. Where every wall cell lies in the
/// grid, the rectangles cover the wall cells exactly.
pub proof fn lemma_mesh_partitions_walls(
    walls: Set<(int, int)>,
    width: int,
    height: int,
    rects: Seq<Rectangle>,
)
    requires
        width <= i32::MAX,
        height <= i32::MAX,
        is_wall_mesh(walls, width, height, rects),
    ensures
        mesh_cells(rects) == walls.intersect(grid_cells(width, height)),
        walls.subset_of(grid_cells(width, height)) ==> mesh_cells(rects) == walls,
        forall|k: int, m: int, x: int, y: int|
            0 <= k < m < rects.len() ==> !(#[trigger] rects[k].covers(x, y)
                && #[trigger] rects[m].covers(x, y)),
{
    let grid = grid_cells(width, height);
    assert forall|c: (int, int)| mesh_cells(rects).contains(c) <==> walls.intersect(grid).contains(
        c,
    ) by {
        if mesh_cells(rects).contains(c) {
            let k = choose|k: int| 0 <= k < rects.len() && (#[trigger] rects[k]).covers(c.0, c.1);
            assert(is_wall_rect(walls, width, height, rects[k]));
            assert(is_plate(walls, width, c.1, rects[k].plate()));
            assert(walls.contains((c.0, c.1)));
        }
        if walls.intersect(grid).contains(c) {
            let p = lemma_wall_cell_has_plate(walls, width, c.0, c.1);
            let r = lemma_plate_has_rectangle(walls, width, height, c.1, p);
            assert(rects.contains(r));
            let k = choose|k: int| 0 <= k < rects.len() && rects[k] == r;
            assert(rects[k].covers(c.0, c.1));
        }
    }
    assert(mesh_cells(rects) =~= walls.intersect(grid));
    if walls.subset_of(grid) {
        assert(walls.intersect(grid) =~= walls);
    }
    assert forall|k: int, m: int, x: int, y: int| 0 <= k < m < rects.len() implies !(
    #[trigger] rects[k].covers(x, y) && #[trigger] rects[m].covers(x, y)) by {
        if rects[k].covers(x, y) && rects[m].covers(x, y) {
            lemma_rectangles_sharing_a_cell(walls, width, height, rects[k], rects[m], x, y);
            assert(precedes(rects[k], rects[m]));
        }
    }
}

/// Sequences in strict order that hold the same rectangles are equal.
pub proof fn lemma_ordered_and_alike(a: Seq<Rectangle>, b: Seq<Rectangle>)
    requires
        forall|k: int, m: int| 0 <= k < m < a.len() ==> precedes(a[k], a[m]),
        forall|k: int, m: int| 0 <= k < m < b.len() ==> precedes(b[k], b[m]),
        forall|r: Rectangle| a.contains(r) <==> b.contains(r),
    ensures
        a == b,
    decreases a.len(),
{
    if a.len() == 0 {
        if b.len() > 0 {
            assert(b.contains(b[0]));
        }
        assert(a =~= b);
    } else if b.len() == 0 {
        assert(a.contains(a[0]));
    } else {
        let la = a.last();
        let lb = b.last();
        assert(a.contains(la));
        assert(b.contains(lb));
        let i = choose|i: int| 0 <= i < a.len() && a[i] == lb;
        let j = choose|j: int| 0 <= j < b.len() && b[j] == la;
        assert(la == lb) by {
            if i < a.len() - 1 && j < b.len() - 1 {
                assert(precedes(a[i], a[a.len() - 1]));
                assert(precedes(b[j], b[b.len() - 1]));
            }
        }
        let a0 = a.drop_last();
        let b0 = b.drop_last();
        assert forall|r: Rectangle| a0.contains(r) <==> b0.contains(r) by {
            if a0.contains(r) {
                let k = choose|k: int| 0 <= k < a0.len() && a0[k] == r;
                assert(a[k] == r);
                assert(precedes(a[k], a[a.len() - 1]));
                assert(a.contains(r));
                let m = choose|m: int| 0 <= m < b.len() && b[m] == r;
                assert(b0[m] == r);
            }
            if b0.contains(r) {
                let k = choose|k: int| 0 <= k < b0.len() && b0[k] == r;
                assert(b[k] == r);
                assert(precedes(b[k], b[b.len() - 1]));
                assert(b.contains(r));
                let m = choose|m: int| 0 <= m < a.len() && a[m] == r;
                assert(a0[m] == r);
            }
        }
        assert forall|k: int, m: int| 0 <= k < m < a0.len() implies precedes(a0[k], a0[m]) by {
            assert(a0[k] == a[k] && a0[m] == a[m]);
        }
        assert forall|k: int, m: int| 0 <= k < m < b0.len() implies precedes(b0[k], b0[m]) by {
            assert(b0[k] == b[k] && b0[m] == b[m]);
        }
        lemma_ordered_and_alike(a0, b0);
        assert(a =~= a0.push(la));
        assert(b =~= b0.push(lb));
    }
}

/// The mesh of a grid is determined by its wall cells: two meshes of the same
/// cells hold the same rectangles in the same order, however the set of
/// cells was filled and however often the mesh is made.
pub proof fn lemma_mesh_is_determined(
    walls: Set<(int, int)>,
    width: int,
    height: int,
    first: Seq<Rectangle>,
    second: Seq<Rectangle>,
)
    requires
        is_wall_mesh(walls, width, height, first),
        is_wall_mesh(walls, width, height, second),
    ensures
        first.to_set() == second.to_set(),
        first == second,
{
    assert forall|r: Rectangle| first.contains(r) <==> second.contains(r) by {
        if first.contains(r) {
            let k = choose|k: int| 0 <= k < first.len() && first[k] == r;
            assert(is_wall_rect(walls, width, height, first[k]));
        }
        if second.contains(r) {
            let k = choose|k: int| 0 <= k < second.len() && second[k] == r;
            assert(is_wall_rect(walls, width, height, second[k]));
        }
    }
    lemma_ordered_and_alike(first, second);
}

} // verus!
