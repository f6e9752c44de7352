//! Merging the plates of consecutive rows into rectangles.
//!
//! A plate that stands in several consecutive rows with the same two ends
//! becomes one rectangle. Plates that differ in either end are never joined,
//! also where they overlap: the result has few rectangles, not the fewest.

use crate::plate::{ordered_by_left, Plate};
use crate::tables::{
    open_spans_contents, open_spans_get, open_spans_insert, open_spans_new, open_spans_remove,
    OpenSpans,
};
use vstd::prelude::*;

verus! {

/// A block of grid cells: the columns `left` to `right` of the rows `bottom`
/// to `top`, all four included.
#[derive(Clone, Copy, Debug, PartialEq, Eq, Structural)]
pub struct Rectangle {
    pub left: i32,
    pub right: i32,
    pub top: i32,
    pub bottom: i32,
}

impl Rectangle {
    /// The columns of the rectangle, as the plate that each of its rows holds.
    pub open spec fn plate(self) -> Plate {
        Plate { left: self.left, right: self.right }
    }

    /// Whether the cell in column `x` of row `y` lies in the rectangle.
    pub open spec fn covers(self, x: int, y: int) -> bool {
        self.left <= x <= self.right && self.bottom <= y <= self.top
    }
}

/// The rows of plates as sequences.
pub open spec fn plate_rows(rows: Seq<Vec<Plate>>) -> Seq<Seq<Plate>> {
    rows.map_values(|row: Vec<Plate>| row@)
}

/// Row `y` exists and holds the plate `p`.
pub open spec fn row_has(rows: Seq<Seq<Plate>>, y: int, p: Plate) -> bool {
    0 <= y < rows.len() && rows[y].contains(p)
}

/// `r` is a stack of `rows`: each of its rows holds its plate, and neither the
/// row below it nor the row above it does.
pub open spec fn is_stack(rows: Seq<Seq<Plate>>, r: Rectangle) -> bool {
    &&& 0 <= r.bottom <= r.top < rows.len()
    &&& forall|y: int| r.bottom <= y <= r.top ==> row_has(rows, y, r.plate())
    &&& !row_has(rows, r.bottom - 1, r.plate())
    &&& !row_has(rows, r.top + 1, r.plate())
}

/// The order in which rectangles are handed out: by top row, and from left to
/// right among those that end in the same row.
pub open spec fn precedes(a: Rectangle, b: Rectangle) -> bool {
    a.top < b.top || (a.top == b.top && a.left < b.left)
}

/// `rects` holds the stacks of `rows`, all of them, each once, in order.
pub open spec fn is_merge(rows: Seq<Seq<Plate>>, rects: Seq<Rectangle>) -> bool {
    &&& forall|k: int| 0 <= k < rects.len() ==> is_stack(rows, #[trigger] rects[k])
    &&& forall|r: Rectangle| #[trigger] is_stack(rows, r) ==> rects.contains(r)
    &&& forall|k: int, m: int| 0 <= k < m < rects.len() ==> precedes(rects[k], rects[m])
}

/// The lowest row from which the plate `p` stands in every row up to `y`.
spec fn run_bottom(rows: Seq<Seq<Plate>>, p: Plate, y: int) -> int
    decreases y,
{
    if y > 0 && row_has(rows, y - 1, p) {
        run_bottom(rows, p, y - 1)
    } else {
        y
    }
}

/// From `run_bottom` up to `y` every row holds the plate, and the row below
/// `run_bottom` does not.
proof fn lemma_run_bottom(rows: Seq<Seq<Plate>>, p: Plate, y: int)
    requires
        row_has(rows, y, p),
    ensures
        0 <= run_bottom(rows, p, y) <= y,
        forall|z: int| run_bottom(rows, p, y) <= z <= y ==> row_has(rows, z, p),
        !row_has(rows, run_bottom(rows, p, y) - 1, p),
    decreases y,
{
    if y > 0 && row_has(rows, y - 1, p) {
        lemma_run_bottom(rows, p, y - 1);
    }
}

/// A stack begins where the run of its plate begins.
proof fn lemma_stack_bottom(rows: Seq<Seq<Plate>>, r: Rectangle, y: int)
    requires
        is_stack(rows, r),
        r.bottom <= y <= r.top,
    ensures
        run_bottom(rows, r.plate(), y) == r.bottom,
    decreases y - r.bottom,
{
    if y > r.bottom {
        assert(row_has(rows, y - 1, r.plate()));
        lemma_stack_bottom(rows, r, y - 1);
    }
}

/// The plate that a key of the table stands for.
spec fn plate_of(key: (i32, i32)) -> Plate {
    Plate { left: key.0, right: key.1 }
}

/// The row holds `p` at position `from` or later.
spec fn found_from(row: Seq<Plate>, from: int, p: Plate) -> bool {
    exists|j: int| 0 <= from <= j < row.len() && #[trigger] row[j] == p
}

/// The row holds `p` at a position before `to`.
spec fn found_before(row: Seq<Plate>, to: int, p: Plate) -> bool {
    exists|j: int| 0 <= j < to <= row.len() && #[trigger] row[j] == p
}

/// Moving the position from `i` to `i + 1` moves the plate at `i`, and no
/// other, from the later part of the row to the earlier part.
proof fn lemma_found_step(row: Seq<Plate>, i: int, p: Plate)
    requires
        0 <= i < row.len(),
        ordered_by_left(row),
    ensures
        found_from(row, i, p) <==> row[i] == p || found_from(row, i + 1, p),
        found_before(row, i + 1, p) <==> row[i] == p || found_before(row, i, p),
        row[i] == p ==> !found_from(row, i + 1, p) && !found_before(row, i, p),
{
    if found_from(row, i, p) {
        let j = choose|j: int| 0 <= i <= j < row.len() && #[trigger] row[j] == p;
        if j != i {
            assert(0 <= i + 1 <= j < row.len() && row[j] == p);
        }
    }
    if found_from(row, i + 1, p) {
        let j = choose|j: int| 0 <= i + 1 <= j < row.len() && #[trigger] row[j] == p;
        assert(0 <= i <= j < row.len() && row[j] == p);
    }
    if found_before(row, i + 1, p) {
        let j = choose|j: int| 0 <= j < i + 1 <= row.len() && #[trigger] row[j] == p;
        if j != i {
            assert(0 <= j < i <= row.len() && row[j] == p);
        }
    }
    if found_before(row, i, p) {
        let j = choose|j: int| 0 <= j < i <= row.len() && #[trigger] row[j] == p;
        assert(0 <= j < i + 1 <= row.len() && row[j] == p);
    }
    if row[i] == p {
        assert(0 <= i <= i < row.len() && row[i] == p);
        assert(0 <= i < i + 1 <= row.len() && row[i] == p);
    }
}

/// Over a whole row, to be found is to be held: every plate of the row is
/// found from its first position on and before its end, and none is found
/// before the first position or from the end on.
proof fn lemma_found_in_whole_row(row: Seq<Plate>)
    ensures
        forall|p: Plate|
            #![trigger found_from(row, 0, p)]
            #![trigger row.contains(p)]
            found_from(row, 0, p) <==> row.contains(p),
        forall|p: Plate|
            #![trigger found_before(row, row.len() as int, p)]
            #![trigger row.contains(p)]
            found_before(row, row.len() as int, p) <==> row.contains(p),
        forall|p: Plate| !(#[trigger] found_from(row, row.len() as int, p)),
        forall|p: Plate| !(#[trigger] found_before(row, 0, p)),
{
    assert forall|p: Plate| #[trigger] found_from(row, 0, p) <==> row.contains(p) by {
        if found_from(row, 0, p) {
            let j = choose|j: int| 0 <= 0 <= j < row.len() && #[trigger] row[j] == p;
            assert(row[j] == p);
        }
        if row.contains(p) {
            let j = choose|j: int| 0 <= j < row.len() && row[j] == p;
            assert(0 <= 0 <= j < row.len() && row[j] == p);
        }
    }
    assert forall|p: Plate| #[trigger]
        found_before(row, row.len() as int, p) <==> row.contains(p) by {
        if found_before(row, row.len() as int, p) {
            let j = choose|j: int| 0 <= j < row.len() <= row.len() && #[trigger] row[j] == p;
            assert(row[j] == p);
        }
        if row.contains(p) {
            let j = choose|j: int| 0 <= j < row.len() && row[j] == p;
            assert(0 <= j < row.len() <= row.len() && row[j] == p);
        }
    }
}

/// Whether `row` holds the plate `p`.
pub fn row_contains(row: &Vec<Plate>, p: Plate) -> (found: bool)
    ensures
        found == row@.contains(p),
{
    let mut i: usize = 0;
    while i < row.len()
        invariant
            i <= row.len(),
            forall|j: int| 0 <= j < i ==> row[j] != p,
        decreases row.len() - i,
    {
        if row[i].left == p.left && row[i].right == p.right {
            return true;
        }
        i = i + 1;
    }
    false
}

/// The table as it stands when row `y` has been taken in: one entry for each
/// plate of the row, with the rows of its run.
spec fn tracks_row(open: Map<(i32, i32), (i32, i32)>, grid: Seq<Seq<Plate>>, y: int) -> bool {
    &&& forall|k: (i32, i32)| #[trigger]
        open.dom().contains(k) <==> row_has(grid, y, plate_of(k))
    &&& forall|k: (i32, i32)| #[trigger]
        open.dom().contains(k) ==> open[k].0 == run_bottom(grid, plate_of(k), y) && open[k].1 == y
}

/// The table between the two passes over row `y`: the plates of row `y - 1`
/// that row `y` holds too.
spec fn keeps_survivors(open: Map<(i32, i32), (i32, i32)>, grid: Seq<Seq<Plate>>, y: int) -> bool {
    &&& forall|k: (i32, i32)| #[trigger]
        open.dom().contains(k) <==> row_has(grid, y - 1, plate_of(k)) && row_has(
            grid,
            y,
            plate_of(k),
        )
    &&& forall|k: (i32, i32)| #[trigger]
        open.dom().contains(k) ==> open[k].0 == run_bottom(grid, plate_of(k), y - 1) && open[k].1
            == y - 1
}

/// The table while the first pass stands at plate `i` of the row below `y`.
spec fn half_closed(
    open: Map<(i32, i32), (i32, i32)>,
    grid: Seq<Seq<Plate>>,
    prev: Seq<Plate>,
    i: int,
    y: int,
) -> bool {
    &&& forall|k: (i32, i32)| #[trigger]
        open.dom().contains(k) <==> found_from(prev, i, plate_of(k)) || (found_before(
            prev,
            i,
            plate_of(k),
        ) && row_has(grid, y, plate_of(k)))
    &&& forall|k: (i32, i32)| #[trigger]
        open.dom().contains(k) ==> open[k].0 == run_bottom(grid, plate_of(k), y - 1) && open[k].1
            == y - 1
}

/// The table while the second pass stands at plate `j` of row `y`.
spec fn half_extended(
    open: Map<(i32, i32), (i32, i32)>,
    grid: Seq<Seq<Plate>>,
    cur: Seq<Plate>,
    j: int,
    y: int,
) -> bool {
    &&& forall|k: (i32, i32)| #[trigger]
        open.dom().contains(k) <==> (row_has(grid, y - 1, plate_of(k)) && row_has(
            grid,
            y,
            plate_of(k),
        )) || found_before(cur, j, plate_of(k))
    &&& forall|k: (i32, i32)| #[trigger]
        open.dom().contains(k) ==> if found_before(cur, j, plate_of(k)) {
            open[k].0 == run_bottom(grid, plate_of(k), y) && open[k].1 == y
        } else {
            open[k].0 == run_bottom(grid, plate_of(k), y - 1) && open[k].1 == y - 1
        }
}

/// `rects` holds, in order, the stacks that end below row `y - 1`, and those
/// that end in row `y - 1` with one of the first `i` plates of `prev`.
spec fn closed_so_far(
    grid: Seq<Seq<Plate>>,
    rects: Seq<Rectangle>,
    prev: Seq<Plate>,
    i: int,
    y: int,
) -> bool {
    &&& forall|k: int|
        0 <= k < rects.len() ==> is_stack(grid, #[trigger] rects[k]) && (rects[k].top + 1 < y || (
        rects[k].top + 1 == y && found_before(prev, i, rects[k].plate())))
    &&& forall|r: Rectangle| #[trigger]
        is_stack(grid, r) && (r.top + 1 < y || (r.top + 1 == y && found_before(
            prev,
            i,
            r.plate(),
        ))) ==> rects.contains(r)
    &&& forall|k: int, m: int| 0 <= k < m < rects.len() ==> precedes(rects[k], rects[m])
}

/// `rects` holds, in order, the stacks that end below row `y - 1`.
spec fn closed_below(grid: Seq<Seq<Plate>>, rects: Seq<Rectangle>, y: int) -> bool {
    &&& forall|k: int|
        0 <= k < rects.len() ==> is_stack(grid, #[trigger] rects[k]) && rects[k].top + 1 < y
    &&& forall|r: Rectangle| #[trigger] is_stack(grid, r) && r.top + 1 < y ==> rects.contains(r)
    &&& forall|k: int, m: int| 0 <= k < m < rects.len() ==> precedes(rects[k], rects[m])
}

/// The first pass over row `y`: each plate of the row below that row `y` does
/// not hold has ended, and its rectangle is handed out.
fn close_ended(rows: &Vec<Vec<Plate>>, y: usize, open: &mut OpenSpans, rects: &mut Vec<Rectangle>)
    requires
        0 < y <= rows.len() <= i32::MAX,
        forall|z: int| 0 <= z < rows.len() ==> ordered_by_left(#[trigger] rows[z]@),
        tracks_row(open_spans_contents(*old(open)), plate_rows(rows@), y - 1),
        closed_below(plate_rows(rows@), old(rects)@, y as int),
    ensures
        keeps_survivors(open_spans_contents(*final(open)), plate_rows(rows@), y as int),
        closed_below(plate_rows(rows@), final(rects)@, y + 1),
{
    let ghost grid = plate_rows(rows@);
    let prev = &rows[y - 1];
    let ghost row = prev@;
    proof {
        assert(grid[y - 1] == row);
        lemma_found_in_whole_row(row);
    }
    let mut i: usize = 0;
    while i < prev.len()
        invariant
            0 < y <= rows.len() <= i32::MAX,
            grid == plate_rows(rows@),
            row == prev@,
            row == grid[y - 1],
            ordered_by_left(row),
            y < rows.len() ==> ordered_by_left(rows[y as int]@),
            i <= prev.len(),
            half_closed(open_spans_contents(*open), grid, row, i as int, y as int),
            closed_so_far(grid, rects@, row, i as int, y as int),
        decreases prev.len() - i,
    {
        let plate = prev[i];
        let ghost before = open_spans_contents(*open);
        let ghost handed = rects@;
        let stays = y < rows.len() && row_contains(&rows[y], plate);
        proof {
            assert(y < rows.len() ==> grid[y as int] == rows[y as int]@);
            assert(stays == row_has(grid, y as int, plate));
            assert(row_has(grid, y - 1, plate));
            lemma_found_step(row, i as int, plate);
            lemma_run_bottom(grid, plate, y - 1);
            assert(plate_of((plate.left, plate.right)) == plate);
            assert(before.dom().contains((plate.left, plate.right)));
        }
        if !stays {
            match open_spans_remove(open, (plate.left, plate.right)) {
                Some(span) => {
                    let rect = Rectangle {
                        left: plate.left,
                        right: plate.right,
                        top: span.1,
                        bottom: span.0,
                    };
                    rects.push(rect);
                    proof {
                        assert(is_stack(grid, rect));
                        assert(rects@[rects.len() - 1] == rect);
                        assert forall|k: int| 0 <= k < rects.len() implies is_stack(
                            grid,
                            #[trigger] rects[k],
                        ) && (rects[k].top + 1 < y || (rects[k].top + 1 == y && found_before(
                            row,
                            i + 1,
                            rects[k].plate(),
                        ))) by {
                            lemma_found_step(row, i as int, rects[k].plate());
                            if k < handed.len() {
                                assert(rects[k] == handed[k]);
                            }
                        }
                        assert forall|k: int, m: int| 0 <= k < m < rects.len() implies precedes(
                            rects[k],
                            rects[m],
                        ) by {
                            assert(rects[k] == handed[k]);
                            if m < handed.len() {
                                assert(rects[m] == handed[m]);
                            } else if handed[k].top + 1 == y {
                                let j = choose|j: int|
                                    0 <= j < i <= row.len() && #[trigger] row[j] == handed[k].plate();
                                assert(row[j].left < row[i as int].left);
                            }
                        }
                    }
                },
                None => {},
            }
        }
        proof {
            let after = open_spans_contents(*open);
            assert forall|k: (i32, i32)| #[trigger]
                after.dom().contains(k) <==> found_from(row, i + 1, plate_of(k)) || (found_before(
                    row,
                    i + 1,
                    plate_of(k),
                ) && row_has(grid, y as int, plate_of(k))) by {
                lemma_found_step(row, i as int, plate_of(k));
                if k != (plate.left, plate.right) {
                    assert(before.dom().contains(k) == after.dom().contains(k));
                }
            }
            assert forall|r: Rectangle| #[trigger]
                is_stack(grid, r) && (r.top + 1 < y || (r.top + 1 == y && found_before(
                    row,
                    i + 1,
                    r.plate(),
                ))) implies rects@.contains(r) by {
                lemma_found_step(row, i as int, r.plate());
                if r.top + 1 == y && !found_before(row, i as int, r.plate()) {
                    lemma_stack_bottom(grid, r, r.top as int);
                    assert(rects@[rects.len() - 1] == r);
                } else {
                    assert(handed.contains(r));
                    let k = choose|k: int| 0 <= k < handed.len() && handed[k] == r;
                    assert(rects@[k] == r);
                }
            }
            if stays {
                assert forall|k: int| 0 <= k < rects.len() implies is_stack(
                    grid,
                    #[trigger] rects[k],
                ) && (rects[k].top + 1 < y || (rects[k].top + 1 == y && found_before(
                    row,
                    i + 1,
                    rects[k].plate(),
                ))) by {
                    lemma_found_step(row, i as int, rects[k].plate());
                }
            }
        }
        i = i + 1;
    }
    proof {
        lemma_found_in_whole_row(row);
        assert forall|r: Rectangle| #[trigger] is_stack(grid, r) && r.top + 1 == y implies row_has(
            grid,
            y - 1,
            r.plate(),
        ) by {}
    }
}

/// The second pass over row `y`: a plate that the row below held too
/// lengthens its rectangle by one row, any other begins a rectangle.
fn extend_or_start(rows: &Vec<Vec<Plate>>, y: usize, open: &mut OpenSpans)
    requires
        y < rows.len() <= i32::MAX,
        ordered_by_left(rows[y as int]@),
        keeps_survivors(open_spans_contents(*old(open)), plate_rows(rows@), y as int),
    ensures
        tracks_row(open_spans_contents(*final(open)), plate_rows(rows@), y as int),
{
    let ghost grid = plate_rows(rows@);
    let cur = &rows[y];
    let ghost row = cur@;
    proof {
        assert(grid[y as int] == row);
        lemma_found_in_whole_row(row);
    }
    let mut j: usize = 0;
    while j < cur.len()
        invariant
            y < rows.len() <= i32::MAX,
            grid == plate_rows(rows@),
            row == cur@,
            row == grid[y as int],
            ordered_by_left(row),
            j <= cur.len(),
            half_extended(open_spans_contents(*open), grid, row, j as int, y as int),
        decreases cur.len() - j,
    {
        let plate = cur[j];
        let key = (plate.left, plate.right);
        let ghost before = open_spans_contents(*open);
        proof {
            assert(row_has(grid, y as int, plate));
            assert(plate_of(key) == plate);
            lemma_found_step(row, j as int, plate);
            lemma_run_bottom(grid, plate, y as int);
        }
        match open_spans_get(open, key) {
            Some(span) => {
                open_spans_insert(open, key, (span.0, span.1 + 1));
            },
            None => {
                open_spans_insert(open, key, (y as i32, y as i32));
            },
        }
        proof {
            let after = open_spans_contents(*open);
            assert forall|k: (i32, i32)| #[trigger] after.dom().contains(k) implies if found_before(
                row,
                j + 1,
                plate_of(k),
            ) {
                after[k].0 == run_bottom(grid, plate_of(k), y as int) && after[k].1 == y
            } else {
                after[k].0 == run_bottom(grid, plate_of(k), y - 1) && after[k].1 == y - 1
            } by {
                lemma_found_step(row, j as int, plate_of(k));
                if k != key {
                    assert(before.dom().contains(k));
                }
            }
            assert forall|k: (i32, i32)| #[trigger]
                after.dom().contains(k) <==> (row_has(grid, y - 1, plate_of(k)) && row_has(
                    grid,
                    y as int,
                    plate_of(k),
                )) || found_before(row, j + 1, plate_of(k)) by {
                lemma_found_step(row, j as int, plate_of(k));
                if k != key {
                    assert(before.dom().contains(k) == after.dom().contains(k));
                }
            }
        }
        j = j + 1;
    }
    proof {
        lemma_found_in_whole_row(row);
    }
}

/// The rectangles of a grid whose rows hold the given plates, `rows[0]` being
/// the bottom row.
///
/// The rows are taken in from the bottom up, and one empty row after the
/// last, which ends the rectangles that reach the top. A rectangle is handed
/// out when the row above its top has been taken in.
pub fn merge_plates(rows: &Vec<Vec<Plate>>) -> (rects: Vec<Rectangle>)
    requires
        rows.len() <= i32::MAX,
        forall|y: int| 0 <= y < rows.len() ==> ordered_by_left(#[trigger] rows[y]@),
    ensures
        is_merge(plate_rows(rows@), rects@),
{
    let n = rows.len();
    let ghost grid = plate_rows(rows@);
    let mut open = open_spans_new();
    let mut rects: Vec<Rectangle> = Vec::new();
    let mut y: usize = 0;
    while y <= n
        invariant
            n == rows.len(),
            n <= i32::MAX,
            y <= n + 1,
            grid == plate_rows(rows@),
            forall|z: int| 0 <= z < rows.len() ==> ordered_by_left(#[trigger] rows[z]@),
            tracks_row(open_spans_contents(open), grid, y - 1),
            closed_below(grid, rects@, y as int),
        decreases n + 1 - y,
    {
        if y > 0 {
            close_ended(rows, y, &mut open, &mut rects);
        }
        if y < n {
            extend_or_start(rows, y, &mut open);
        }
        y = y + 1;
    }
    rects
}

} // verus!
