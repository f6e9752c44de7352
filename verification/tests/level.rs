use platformer_core::collider::{collider_for, WallCollider};
use platformer_core::grid::GridCoords;
use platformer_core::index::{index_walls, WallSighting};
use platformer_core::level::{
    level_colliders, spawn_wall_collision, LayerGrid, LevelColliders, LevelGrid, MeshError,
};
use platformer_core::merge::Rectangle;
use platformer_core::tables::{CellSet, WallSet};

fn sighting(level: Option<u64>, x: i32, y: i32) -> WallSighting {
    WallSighting { coords: GridCoords { x, y }, level }
}

fn layer(width: i32, height: i32, grid_size: i32) -> Option<LayerGrid> {
    Some(LayerGrid { width, height, grid_size })
}

#[test]
fn index_groups_cells_by_level() {
    let walls = index_walls(&vec![
        sighting(Some(1), 0, 0),
        sighting(Some(2), 5, 5),
        sighting(Some(1), 1, 0),
        sighting(None, 9, 9),
        sighting(Some(1), 0, 0),
    ]);
    let first = walls.get(1).expect("level 1 has walls");
    assert!(first.contains(GridCoords { x: 0, y: 0 }));
    assert!(first.contains(GridCoords { x: 1, y: 0 }));
    assert!(!first.contains(GridCoords { x: 5, y: 5 }));
    assert!(!first.contains(GridCoords { x: 9, y: 9 }));
    let second = walls.get(2).expect("level 2 has walls");
    assert!(second.contains(GridCoords { x: 5, y: 5 }));
    assert!(!second.contains(GridCoords { x: 0, y: 0 }));
    assert!(walls.get(3).is_none());
}

#[test]
fn index_ignores_the_order_of_the_sightings() {
    let sightings = vec![
        sighting(Some(1), 0, 0),
        sighting(Some(1), 1, 0),
        sighting(Some(2), 0, 0),
        sighting(Some(1), 3, 0),
    ];
    let mut shuffled = sightings.clone();
    shuffled.reverse();
    shuffled.push(sighting(Some(2), 0, 0));
    let levels = vec![
        LevelGrid { level: 1, layer: layer(4, 1, 16) },
        LevelGrid { level: 2, layer: layer(4, 1, 16) },
    ];
    let first = spawn_wall_collision(&index_walls(&sightings), &levels, false);
    let second = spawn_wall_collision(&index_walls(&shuffled), &levels, false);
    assert_eq!(first, second);
    assert_eq!(first.unwrap()[0].colliders.len(), 2);
}

#[test]
fn index_of_nothing_has_no_level() {
    let walls = index_walls(&Vec::new());
    assert!(walls.get(0).is_none());
    let unowned = index_walls(&vec![sighting(None, 0, 0)]);
    assert!(unowned.get(0).is_none());
}

#[test]
fn wall_set_insert_opens_a_level() {
    let mut walls = WallSet::new();
    assert!(walls.get(4).is_none());
    walls.insert(4, GridCoords { x: 2, y: 3 });
    assert!(walls.get(4).unwrap().contains(GridCoords { x: 2, y: 3 }));
    assert!(!walls.get(4).unwrap().contains(GridCoords { x: 3, y: 2 }));
    assert!(walls.get(5).is_none());
}

#[test]
fn collider_has_the_size_and_center_of_its_rectangle() {
    let cells = Rectangle { left: 0, right: 4, bottom: 0, top: 1 };
    let collider = collider_for(9, cells, 32, false);
    assert_eq!(
        collider,
        WallCollider {
            level: 9,
            cells,
            width: 160,
            height: 64,
            twice_center_x: 160,
            twice_center_y: 64,
            overlay: false,
        }
    );
    // Half extents (80, 32) and center (80, 32), as (5 / 2, 2 / 2) * 32.
    assert_eq!(collider.width as f32 / 2.0, (4.0 - 0.0 + 1.0) * 32.0 / 2.0);
    assert_eq!(collider.twice_center_y as f32 / 2.0, (0 + 1 + 1) as f32 * 32.0 / 2.0);
}

#[test]
fn collider_of_a_single_cell_off_the_origin() {
    let cells = Rectangle { left: 2, right: 2, bottom: 2, top: 2 };
    let collider = collider_for(1, cells, 16, true);
    assert_eq!(collider.width, 16);
    assert_eq!(collider.height, 16);
    assert_eq!(collider.twice_center_x, 80);
    assert_eq!(collider.twice_center_y, 80);
    assert!(collider.overlay);
}

#[test]
fn collider_of_the_widest_rectangle_does_not_overflow() {
    let cells = Rectangle { left: i32::MIN, right: i32::MAX, bottom: 0, top: 0 };
    let collider = collider_for(1, cells, i32::MIN, false);
    assert_eq!(collider.width, i64::MIN);
    assert_eq!(collider.twice_center_x, 0);
}

#[test]
fn level_without_layer_is_an_error_that_names_it() {
    let cells = CellSet::new();
    let grid = LevelGrid { level: 42, layer: None };
    assert_eq!(level_colliders(&cells, &grid, false), Err(MeshError::MissingLayer { level: 42 }));
}

#[test]
fn level_with_empty_grid_is_an_error_that_names_it() {
    let cells = CellSet::new();
    for (width, height) in [(0, 3), (3, 0), (-1, 3), (3, -2), (0, 0)] {
        let grid = LevelGrid { level: 7, layer: layer(width, height, 16) };
        assert_eq!(level_colliders(&cells, &grid, false), Err(MeshError::EmptyGrid { level: 7 }));
    }
}

#[test]
fn colliders_come_level_by_level() {
    let mut sightings = Vec::new();
    for y in 0..2 {
        for x in 0..5 {
            sightings.push(sighting(Some(10), x, y));
        }
    }
    sightings.push(sighting(Some(10), 2, 2));
    sightings.push(sighting(Some(30), 0, 0));
    let walls = index_walls(&sightings);
    let levels = vec![
        LevelGrid { level: 30, layer: layer(1, 1, 8) },
        // A level without walls is passed over, though it has no layer.
        LevelGrid { level: 20, layer: None },
        LevelGrid { level: 10, layer: layer(5, 3, 32) },
    ];
    let batch = spawn_wall_collision(&walls, &levels, false).expect("both levels are sound");
    let block = Rectangle { left: 0, right: 4, bottom: 0, top: 1 };
    let single = Rectangle { left: 2, right: 2, bottom: 2, top: 2 };
    let corner = Rectangle { left: 0, right: 0, bottom: 0, top: 0 };
    assert_eq!(
        batch,
        vec![
            LevelColliders {
                level: 30,
                colliders: vec![WallCollider {
                    level: 30,
                    cells: corner,
                    width: 8,
                    height: 8,
                    twice_center_x: 8,
                    twice_center_y: 8,
                    overlay: false,
                }],
            },
            LevelColliders {
                level: 10,
                colliders: vec![
                    WallCollider {
                        level: 10,
                        cells: block,
                        width: 160,
                        height: 64,
                        twice_center_x: 160,
                        twice_center_y: 64,
                        overlay: false,
                    },
                    WallCollider {
                        level: 10,
                        cells: single,
                        width: 32,
                        height: 32,
                        twice_center_x: 160,
                        twice_center_y: 160,
                        overlay: false,
                    },
                ],
            },
        ]
    );
}

#[test]
fn first_unsound_level_with_walls_ends_the_batch() {
    let walls = index_walls(&vec![
        sighting(Some(1), 0, 0),
        sighting(Some(2), 0, 0),
        sighting(Some(3), 0, 0),
    ]);
    let levels = vec![
        LevelGrid { level: 1, layer: layer(1, 1, 8) },
        LevelGrid { level: 2, layer: layer(0, 1, 8) },
        LevelGrid { level: 3, layer: None },
    ];
    assert_eq!(
        spawn_wall_collision(&walls, &levels, false),
        Err(MeshError::EmptyGrid { level: 2 })
    );
    let levels = vec![
        LevelGrid { level: 3, layer: None },
        LevelGrid { level: 2, layer: layer(0, 1, 8) },
    ];
    assert_eq!(
        spawn_wall_collision(&walls, &levels, true),
        Err(MeshError::MissingLayer { level: 3 })
    );
}

#[test]
fn no_walls_no_colliders() {
    let walls = WallSet::new();
    let levels = vec![LevelGrid { level: 1, layer: None }];
    assert_eq!(spawn_wall_collision(&walls, &levels, false), Ok(Vec::new()));
    assert_eq!(spawn_wall_collision(&walls, &Vec::new(), false), Ok(Vec::new()));
}

#[test]
fn overlay_flag_reaches_every_collider() {
    let walls = index_walls(&vec![sighting(Some(1), 0, 0), sighting(Some(1), 2, 0)]);
    let levels = vec![LevelGrid { level: 1, layer: layer(3, 1, 8) }];
    let batch = spawn_wall_collision(&walls, &levels, true).unwrap();
    assert_eq!(batch.len(), 1);
    assert_eq!(batch[0].colliders.len(), 2);
    assert!(batch[0].colliders.iter().all(|c| c.overlay));
}
