use platformer_core::grid::GridCoords;
use platformer_core::merge::{merge_plates, Rectangle};
use platformer_core::mesh::{plate_stack, wall_rectangles};
use platformer_core::plate::{row_plates, Plate};
use platformer_core::tables::CellSet;

fn cells_of(cells: &[(i32, i32)]) -> CellSet {
    let mut set = CellSet::new();
    for &(x, y) in cells {
        set.insert(GridCoords { x, y });
    }
    set
}

#[test]
fn block_and_single_cell_give_two_rectangles() {
    let mut cells = Vec::new();
    for y in 0..2 {
        for x in 0..5 {
            cells.push((x, y));
        }
    }
    cells.push((2, 2));
    let rects = wall_rectangles(&cells_of(&cells), 5, 3);
    assert_eq!(
        rects,
        vec![
            Rectangle { left: 0, right: 4, bottom: 0, top: 1 },
            Rectangle { left: 2, right: 2, bottom: 2, top: 2 },
        ]
    );
}

#[test]
fn empty_row_has_no_plates() {
    let set = cells_of(&[(0, 1), (1, 1)]);
    assert_eq!(row_plates(&set, 4, 0), Vec::<Plate>::new());
}

#[test]
fn full_row_is_one_plate() {
    let set = cells_of(&[(0, 0), (1, 0), (2, 0), (3, 0)]);
    assert_eq!(row_plates(&set, 4, 0), vec![Plate { left: 0, right: 3 }]);
}

#[test]
fn plates_are_split_by_free_cells() {
    let set = cells_of(&[(0, 0), (2, 0), (3, 0), (5, 0)]);
    assert_eq!(
        row_plates(&set, 6, 0),
        vec![
            Plate { left: 0, right: 0 },
            Plate { left: 2, right: 3 },
            Plate { left: 5, right: 5 },
        ]
    );
}

#[test]
fn plates_with_different_ends_are_not_merged() {
    // Row 0 holds columns 0..=2, row 1 holds columns 0..=3: two rectangles,
    // though one of 3 by 2 and a single cell would cover the same cells.
    let set = cells_of(&[(0, 0), (1, 0), (2, 0), (0, 1), (1, 1), (2, 1), (3, 1)]);
    let rects = wall_rectangles(&set, 4, 2);
    assert_eq!(
        rects,
        vec![
            Rectangle { left: 0, right: 2, bottom: 0, top: 0 },
            Rectangle { left: 0, right: 3, bottom: 1, top: 1 },
        ]
    );
}

#[test]
fn a_plate_that_returns_starts_a_new_rectangle() {
    let rows = vec![
        vec![Plate { left: 1, right: 2 }],
        vec![],
        vec![Plate { left: 1, right: 2 }],
    ];
    assert_eq!(
        merge_plates(&rows),
        vec![
            Rectangle { left: 1, right: 2, bottom: 0, top: 0 },
            Rectangle { left: 1, right: 2, bottom: 2, top: 2 },
        ]
    );
}

#[test]
fn rectangles_come_by_top_row_then_left() {
    let set = cells_of(&[(0, 0), (0, 1), (0, 2), (2, 0), (4, 0), (4, 1)]);
    let rects = wall_rectangles(&set, 5, 3);
    assert_eq!(
        rects,
        vec![
            Rectangle { left: 2, right: 2, bottom: 0, top: 0 },
            Rectangle { left: 4, right: 4, bottom: 0, top: 1 },
            Rectangle { left: 0, right: 0, bottom: 0, top: 2 },
        ]
    );
}

#[test]
fn cells_outside_the_grid_are_ignored() {
    let set = cells_of(&[(0, 0), (1, 0), (2, 0), (-1, 0), (0, 5)]);
    assert_eq!(
        wall_rectangles(&set, 2, 1),
        vec![Rectangle { left: 0, right: 1, bottom: 0, top: 0 }]
    );
    assert_eq!(plate_stack(&set, 2, 1), vec![vec![Plate { left: 0, right: 1 }]]);
}

#[test]
fn a_grid_without_rows_or_columns_has_no_rectangles() {
    let set = cells_of(&[(0, 0)]);
    assert_eq!(wall_rectangles(&set, 0, 3), Vec::<Rectangle>::new());
    assert_eq!(wall_rectangles(&set, 3, 0), Vec::<Rectangle>::new());
    assert_eq!(wall_rectangles(&set, -1, -1), Vec::<Rectangle>::new());
}

fn scattered_cells(width: i32, height: i32, seed: u64) -> Vec<(i32, i32)> {
    let mut state = seed;
    let mut cells = Vec::new();
    for y in 0..height {
        for x in 0..width {
            state = state.wrapping_mul(6364136223846793005).wrapping_add(1442695040888963407);
            if (state >> 33) % 5 < 3 {
                cells.push((x, y));
            }
        }
    }
    cells
}

#[test]
fn rectangles_cover_each_wall_cell_once() {
    for seed in 0..20 {
        let (width, height) = (1 + (seed as i32 * 7) % 23, 1 + (seed as i32 * 5) % 17);
        let cells = scattered_cells(width, height, seed);
        let rects = wall_rectangles(&cells_of(&cells), width, height);
        let mut covered = Vec::new();
        for r in &rects {
            assert!(0 <= r.left && r.left <= r.right && r.right < width);
            assert!(0 <= r.bottom && r.bottom <= r.top && r.top < height);
            for y in r.bottom..=r.top {
                for x in r.left..=r.right {
                    covered.push((x, y));
                }
            }
        }
        let count = covered.len();
        covered.sort();
        covered.dedup();
        assert_eq!(covered.len(), count, "a cell lies in two rectangles");
        let mut walls = cells.clone();
        walls.sort();
        assert_eq!(covered, walls);
    }
}

#[test]
fn plates_of_a_row_keep_a_gap() {
    for seed in 0..20 {
        let width = 1 + (seed as i32 * 3) % 40;
        let cells = scattered_cells(width, 1, seed + 100);
        let set = cells_of(&cells);
        let row = row_plates(&set, width, 0);
        for pair in row.windows(2) {
            assert!(pair[0].right + 1 < pair[1].left);
            assert!(!set.contains(GridCoords { x: pair[0].right + 1, y: 0 }));
        }
        for plate in &row {
            for x in plate.left..=plate.right {
                assert!(set.contains(GridCoords { x, y: 0 }));
            }
        }
        let in_plates: i32 = row.iter().map(|p| p.right - p.left + 1).sum();
        assert_eq!(in_plates as usize, cells.len());
    }
}

#[test]
fn the_mesh_is_the_same_however_the_cells_were_inserted() {
    let cells = scattered_cells(12, 9, 7);
    let first = wall_rectangles(&cells_of(&cells), 12, 9);
    let again = wall_rectangles(&cells_of(&cells), 12, 9);
    let mut backwards = cells.clone();
    backwards.reverse();
    backwards.extend(cells.iter().copied());
    let third = wall_rectangles(&cells_of(&backwards), 12, 9);
    assert_eq!(first, again);
    assert_eq!(first, third);
    assert!(!first.is_empty());
}

#[test]
fn a_plate_at_the_right_edge_is_closed() {
    let set = cells_of(&[(2, 0), (3, 0), (4, 0)]);
    assert_eq!(row_plates(&set, 4, 0), vec![Plate { left: 2, right: 3 }]);
    assert_eq!(row_plates(&set, 5, 0), vec![Plate { left: 2, right: 4 }]);
}

#[test]
fn a_rectangle_at_the_top_edge_is_closed() {
    let set = cells_of(&[(0, 1), (0, 2), (0, 3)]);
    assert_eq!(
        wall_rectangles(&set, 1, 3),
        vec![Rectangle { left: 0, right: 0, bottom: 1, top: 2 }]
    );
}
