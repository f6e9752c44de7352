//! Plates: the maximal horizontal runs of wall cells in one row of a grid.

use crate::grid::GridCoords;
use crate::tables::CellSet;
use vstd::prelude::*;

verus! {

/// A run of wall cells in one row, from column `left` to column `right`, both
/// included.
#[derive(Clone, Copy, Debug, PartialEq, Eq, Structural)]
pub struct Plate {
    pub left: i32,
    pub right: i32,
}

/// `p` is a plate of row `y`: a run of wall cells inside a grid `width` cells
/// wide that can be lengthened at neither end.
pub open spec fn is_plate(walls: Set<(int, int)>, width: int, y: int, p: Plate) -> bool {
    &&& 0 <= p.left <= p.right < width
    &&& forall|x: int| p.left <= x <= p.right ==> walls.contains((x, y))
    &&& (p.left == 0 || !walls.contains((p.left - 1, y)))
    &&& (p.right == width - 1 || !walls.contains((p.right + 1, y)))
}

/// The plates of `row` stand from left to right.
pub open spec fn ordered_by_left(row: Seq<Plate>) -> bool {
    forall|i: int, j: int| 0 <= i < j < row.len() ==> row[i].left < row[j].left
}

/// `row` holds the plates of row `y`, all of them, from left to right.
pub open spec fn is_plate_row(walls: Set<(int, int)>, width: int, y: int, row: Seq<Plate>) -> bool {
    &&& forall|i: int| 0 <= i < row.len() ==> is_plate(walls, width, y, #[trigger] row[i])
    &&& forall|p: Plate| #[trigger] is_plate(walls, width, y, p) ==> row.contains(p)
    &&& ordered_by_left(row)
}

/// Two plates of one row that share a column are the same plate.
pub proof fn lemma_plates_sharing_a_column(
    walls: Set<(int, int)>,
    width: int,
    y: int,
    p: Plate,
    q: Plate,
    x: int,
)
    requires
        is_plate(walls, width, y, p),
        is_plate(walls, width, y, q),
        p.left <= x <= p.right,
        q.left <= x <= q.right,
    ensures
        p == q,
{
    if p.left < q.left {
        assert(walls.contains((q.left - 1, y)));
    }
    if q.left < p.left {
        assert(walls.contains((p.left - 1, y)));
    }
    if p.right < q.right {
        assert(walls.contains((p.right + 1, y)));
    }
    if q.right < p.right {
        assert(walls.contains((q.right + 1, y)));
    }
}

/// Between two different plates of one row lies a cell that is no wall: the
/// plates neither overlap nor touch.
pub proof fn lemma_plates_keep_a_gap(
    walls: Set<(int, int)>,
    width: int,
    y: int,
    p: Plate,
    q: Plate,
)
    requires
        is_plate(walls, width, y, p),
        is_plate(walls, width, y, q),
        p.left < q.left,
    ensures
        p.right + 1 < q.left,
        !walls.contains((p.right + 1, y)),
{
    if q.left <= p.right {
        lemma_plates_sharing_a_column(walls, width, y, p, q, q.left as int);
    }
    if p.right + 1 == q.left {
        assert(walls.contains((q.left as int, y)));
    }
}

/// The plates of row `y`, found in one pass over its columns.
///
/// The pass goes from column 0 to one column past the right edge; that last
/// column counts as free, which closes a plate that reaches the edge.
pub fn row_plates(cells: &CellSet, width: i32, y: i32) -> (row: Vec<Plate>)
    ensures
        is_plate_row(cells@, width as int, y as int, row@),
        forall|i: int, j: int|
            0 <= i < j < row.len() ==> row[i].right + 1 < row[j].left && !cells@.contains(
                (row[i].right + 1, y as int),
            ),
{
    let mut row: Vec<Plate> = Vec::new();
    let mut start: Option<i32> = None;
    let mut x: i64 = 0;
    let ghost walls = cells@;
    let ghost w = width as int;
    let ghost yy = y as int;
    while x <= width as i64
        invariant
            0 <= x,
            x <= width + 1 || width < 0,
            walls == cells@,
            w == width as int,
            yy == y as int,
            match start {
                None => x == 0 || x == width + 1 || !walls.contains((x - 1, yy)),
                Some(s) => {
                    &&& 0 <= s < x <= width
                    &&& forall|c: int| s <= c < x ==> walls.contains((c, yy))
                    &&& (s == 0 || !walls.contains((s - 1, yy)))
                },
            },
            forall|i: int|
                0 <= i < row.len() ==> is_plate(walls, w, yy, #[trigger] row[i]) && row[i].right
                    + 1 < (match start {
                    Some(s) => s as int,
                    None => x as int,
                }),
            forall|p: Plate| #[trigger]
                is_plate(walls, w, yy, p) && p.right + 1 < x ==> row@.contains(p),
            ordered_by_left(row@),
        decreases width + 1 - x,
    {
        let wall = x < width as i64 && cells.contains(GridCoords { x: x as i32, y });
        let ghost before = row@;
        match start {
            Some(s) => {
                if !wall {
                    let plate = Plate { left: s, right: (x - 1) as i32 };
                    row.push(plate);
                    start = None;
                    proof {
                        assert(is_plate(walls, w, yy, plate));
                        assert(row@[row.len() - 1] == plate);
                        assert forall|p: Plate| #[trigger]
                            is_plate(walls, w, yy, p) && p.right + 1 < x + 1 implies row@.contains(
                            p,
                        ) by {
                            if p.right + 1 < x {
                                assert(before.contains(p));
                                let i = choose|i: int| 0 <= i < before.len() && before[i] == p;
                                assert(row@[i] == p);
                            } else {
                                lemma_plates_sharing_a_column(walls, w, yy, p, plate, x - 1);
                            }
                        }
                    }
                } else {
                    proof {
                        assert forall|p: Plate| #[trigger]
                            is_plate(walls, w, yy, p) && p.right + 1 < x + 1 implies row@.contains(
                            p,
                        ) by {
                            if p.right + 1 == x {
                                assert(walls.contains((x as int, yy)));
                            }
                        }
                    }
                }
            },
            None => {
                proof {
                    assert forall|p: Plate| #[trigger]
                        is_plate(walls, w, yy, p) && p.right + 1 < x + 1 implies row@.contains(
                        p,
                    ) by {
                        if p.right + 1 == x {
                            assert(walls.contains((p.right as int, yy)));
                        }
                    }
                }
                if wall {
                    start = Some(x as i32);
                }
            },
        }
        x = x + 1;
    }
    proof {
        assert forall|i: int, j: int| 0 <= i < j < row.len() implies row[i].right + 1
            < row[j].left && !cells@.contains((row[i].right + 1, y as int)) by {
            lemma_plates_keep_a_gap(walls, w, yy, row[i], row[j]);
        }
    }
    row
}

} // verus!
