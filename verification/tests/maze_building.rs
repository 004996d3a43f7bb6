use tiling_maze::lattice::Offset;
use tiling_maze::maze::{Adjacency, AdjacencyError, ConstructionError, Maze};
use tiling_maze::tiling::{PolygonSide, TilePolygon, Tiling, TilingFault};

fn at(x: isize, y: isize) -> Offset {
    Offset { x, y }
}

fn window(size: isize) -> impl Fn(Offset, usize) -> bool {
    move |tile: Offset, _polygon: usize| 0 <= tile.x && tile.x < size && 0 <= tile.y && tile.y < size
}

fn square_maze(size: isize) -> Maze {
    Maze::new(Tiling::square(), true, window(size)).ok().unwrap()
}

fn sorted_offsets(maze: &Maze) -> Vec<Offset> {
    let mut offsets: Vec<Offset> = maze.cells().iter().map(|cell| cell.offset).collect();
    offsets.sort();
    offsets
}

fn strip() -> Tiling {
    Tiling {
        neighbors: vec![at(2, 0), at(-2, 0)],
        polygons: vec![
            TilePolygon {
                offset: at(0, 0),
                sides: vec![
                    PolygonSide { other_tile: 0, other_polygon: 1, other_side_index: 1 },
                    PolygonSide { other_tile: 2, other_polygon: 1, other_side_index: 0 },
                ],
            },
            TilePolygon {
                offset: at(1, 0),
                sides: vec![
                    PolygonSide { other_tile: 1, other_polygon: 0, other_side_index: 1 },
                    PolygonSide { other_tile: 0, other_polygon: 0, other_side_index: 0 },
                ],
            },
        ],
    }
}

#[test]
fn square_window_of_four_by_four_has_sixteen_cells() {
    let maze = square_maze(4);
    assert_eq!(maze.cells().len(), 16);
    let mut expected = Vec::new();
    for x in 0..4 {
        for y in 0..4 {
            expected.push(at(x, y));
        }
    }
    assert_eq!(sorted_offsets(&maze), expected);
}

#[test]
fn every_cell_starts_with_all_walls() {
    let maze = square_maze(3);
    for cell in maze.cells() {
        assert_eq!(cell.walls, vec![true, true, true, true]);
        assert_eq!(cell.polygon, 0);
        assert!(!cell.is_open());
    }
}

#[test]
fn building_twice_gives_the_same_cells() {
    let first = Maze::new(Tiling::hex(), true, window(5)).ok().unwrap();
    let second = Maze::new(Tiling::hex(), true, window(5)).ok().unwrap();
    assert_eq!(sorted_offsets(&first), sorted_offsets(&second));
    for cell in first.cells() {
        let twin = second.get(&cell.offset).unwrap();
        assert_eq!(twin.polygon, cell.polygon);
        assert_eq!(twin.walls, cell.walls);
    }
}

#[test]
fn tiles_beyond_an_empty_tile_are_not_visited() {
    let keep = |tile: Offset, _polygon: usize| {
        tile.y == 0 && ((-2 <= tile.x && tile.x <= 1) || (3 <= tile.x && tile.x <= 5))
    };
    let maze = Maze::new(Tiling::square(), true, keep).ok().unwrap();
    assert_eq!(sorted_offsets(&maze), vec![at(-2, 0), at(-1, 0), at(0, 0), at(1, 0)]);
}

#[test]
fn region_given_by_corners_in_a_rectangle() {
    let corners = [(-0.5f64, -0.5f64), (0.5, -0.5), (0.5, 0.5), (-0.5, 0.5)];
    let center = (2.5f64, 2.5f64);
    let keep = move |tile: Offset, _polygon: usize| {
        corners.iter().all(|corner| {
            let x = center.0 + tile.x as f64 + corner.0;
            let y = center.1 + tile.y as f64 + corner.1;
            x >= 0.0 && x <= 4.0 && y >= 0.0 && y <= 4.0
        })
    };
    let maze = Maze::new(Tiling::square(), true, keep).ok().unwrap();
    assert_eq!(maze.cells().len(), 16);
    assert_eq!(sorted_offsets(&maze).first(), Some(&at(-2, -2)));
    assert_eq!(sorted_offsets(&maze).last(), Some(&at(1, 1)));
}

#[test]
fn triangle_cells_lie_at_the_offsets_of_their_polygons() {
    let keep = |tile: Offset, _polygon: usize| tile.x == 0 && tile.y == 0;
    let maze = Maze::new(Tiling::triangle(), true, keep).ok().unwrap();
    assert_eq!(sorted_offsets(&maze), vec![at(0, -1), at(0, 0)]);
    assert_eq!(maze.get(&at(0, -1)).unwrap().polygon, 0);
    assert_eq!(maze.get(&at(0, 0)).unwrap().polygon, 1);
    assert_eq!(maze.get(&at(0, 0)).unwrap().walls.len(), 3);
}

#[test]
fn only_kept_polygons_of_a_tile_become_cells() {
    let keep = |tile: Offset, polygon: usize| tile.x == 0 && tile.y == 0 && polygon == 1;
    let maze = Maze::new(Tiling::triangle(), true, keep).ok().unwrap();
    assert_eq!(sorted_offsets(&maze), vec![at(0, 0)]);
}

#[test]
fn invalid_tiling_is_refused_first() {
    let mut tiling = Tiling::square();
    tiling.neighbors[0] = at(0, 0);
    match Maze::new(tiling, false, window(4)) {
        Err(ConstructionError::InvalidTiling(error)) => {
            assert_eq!(error.fault, TilingFault::NeighborAtOrigin { neighbor: 0 });
        },
        _ => panic!("the tiling is not valid"),
    }
}

#[test]
fn center_outside_is_refused() {
    assert!(matches!(
        Maze::new(Tiling::square(), false, window(4)),
        Err(ConstructionError::CenterOutOfBounds)
    ));
}

#[test]
fn region_that_keeps_nothing_is_refused() {
    let keep = |_tile: Offset, _polygon: usize| false;
    assert!(matches!(Maze::new(Tiling::square(), true, keep), Err(ConstructionError::EmptyMaze)));
}

#[test]
fn region_that_misses_the_origin_is_refused() {
    let keep = |tile: Offset, _polygon: usize| tile.x >= 2;
    assert!(matches!(Maze::new(Tiling::square(), true, keep), Err(ConstructionError::EmptyMaze)));
}

#[test]
fn polygons_that_meet_at_one_offset_are_refused() {
    let mut tiling = strip();
    tiling.neighbors = vec![at(1, 0), at(-1, 0)];
    let keep = |tile: Offset, _polygon: usize| -1 <= tile.x && tile.x <= 1;
    match Maze::new(tiling, true, keep) {
        Err(ConstructionError::DuplicateCell(offset)) => {
            assert_eq!(offset.y, 0);
            assert!(-1 <= offset.x && offset.x <= 2);
        },
        _ => panic!("two polygons lie at one offset"),
    }
}

#[test]
fn adjacencies_follow_the_sides_in_order() {
    let maze = square_maze(3);
    assert_eq!(
        maze.adjacencies(at(1, 1)),
        vec![
            Adjacency { index: 0, offset: at(1, 0) },
            Adjacency { index: 1, offset: at(2, 1) },
            Adjacency { index: 2, offset: at(1, 2) },
            Adjacency { index: 3, offset: at(0, 1) },
        ]
    );
}

#[test]
fn adjacencies_leave_out_sides_that_lead_out_of_the_maze() {
    let maze = square_maze(3);
    assert_eq!(
        maze.adjacencies(at(0, 0)),
        vec![Adjacency { index: 1, offset: at(1, 0) }, Adjacency { index: 2, offset: at(0, 1) }]
    );
    assert_eq!(maze.adjacencies(at(2, 1)).len(), 3);
}

#[test]
fn adjacencies_of_a_missing_cell_are_empty() {
    let maze = square_maze(3);
    assert_eq!(maze.adjacencies(at(9, 9)), vec![]);
}

#[test]
fn adjacencies_cross_between_polygons_of_a_tile() {
    let keep = |tile: Offset, _polygon: usize| tile.x == 0 || tile.x == 2;
    let maze = Maze::new(strip(), true, keep).ok().unwrap();
    assert_eq!(sorted_offsets(&maze), vec![at(0, 0), at(1, 0), at(2, 0), at(3, 0)]);
    assert_eq!(
        maze.adjacencies(at(1, 0)),
        vec![Adjacency { index: 0, offset: at(2, 0) }, Adjacency { index: 1, offset: at(0, 0) }]
    );
    assert_eq!(maze.adjacencies(at(3, 0)), vec![Adjacency { index: 1, offset: at(2, 0) }]);
}

#[test]
fn connect_opens_both_sides() {
    let mut maze = square_maze(3);
    assert!(maze.connect(at(1, 1), at(2, 1)).is_ok());
    assert_eq!(maze.get(&at(1, 1)).unwrap().walls, vec![true, false, true, true]);
    assert_eq!(maze.get(&at(2, 1)).unwrap().walls, vec![true, true, true, false]);
    assert!(maze.get(&at(1, 1)).unwrap().is_open());
    for cell in maze.cells() {
        if cell.offset != at(1, 1) && cell.offset != at(2, 1) {
            assert_eq!(cell.walls, vec![true, true, true, true]);
        }
    }
}

#[test]
fn disconnect_closes_both_sides() {
    let mut maze = square_maze(3);
    assert!(maze.connect(at(1, 1), at(1, 2)).is_ok());
    assert!(maze.connect(at(1, 1), at(0, 1)).is_ok());
    assert!(maze.disconnect(at(1, 2), at(1, 1)).is_ok());
    assert_eq!(maze.get(&at(1, 1)).unwrap().walls, vec![true, true, true, false]);
    assert_eq!(maze.get(&at(1, 2)).unwrap().walls, vec![true, true, true, true]);
    assert_eq!(maze.get(&at(0, 1)).unwrap().walls, vec![true, false, true, true]);
}

#[test]
fn connect_of_cells_that_do_not_touch_fails_and_changes_nothing() {
    let mut maze = square_maze(3);
    assert_eq!(
        maze.connect(at(0, 0), at(2, 2)),
        Err(AdjacencyError { cell: at(0, 0), other: at(2, 2) })
    );
    assert_eq!(
        maze.connect(at(0, 0), at(0, -1)),
        Err(AdjacencyError { cell: at(0, 0), other: at(0, -1) })
    );
    assert_eq!(
        maze.disconnect(at(5, 5), at(0, 0)),
        Err(AdjacencyError { cell: at(5, 5), other: at(0, 0) })
    );
    for cell in maze.cells() {
        assert_eq!(cell.walls, vec![true, true, true, true]);
    }
}

#[test]
fn connected_cells_are_those_across_open_sides() {
    let mut maze = square_maze(3);
    maze.connect(at(1, 1), at(1, 0)).unwrap();
    maze.connect(at(1, 1), at(0, 1)).unwrap();
    let cell = maze.get(&at(1, 1)).unwrap();
    let reached: Vec<Offset> = maze.connected_cells(cell).iter().map(|cell| cell.offset).collect();
    assert_eq!(reached, vec![at(1, 0), at(0, 1)]);
    let corner = maze.get(&at(2, 2)).unwrap();
    assert!(maze.connected_cells(corner).is_empty());
}

#[test]
fn get_polygon_gives_the_polygon_of_the_cell() {
    let keep = |tile: Offset, _polygon: usize| tile.x == 0 && tile.y == 0;
    let maze = Maze::new(Tiling::truncated_square(), true, keep).ok().unwrap();
    let octagon = maze.get(&at(0, 0)).unwrap();
    let square = maze.get(&at(1, 1)).unwrap();
    assert_eq!(maze.get_polygon(octagon).sides.len(), 8);
    assert_eq!(maze.get_polygon(square).sides.len(), 4);
    assert_eq!(maze.tiling().polygons.len(), 2);
}

#[test]
fn offsets_are_ordered_by_x_then_y() {
    assert!(at(0, 5) < at(1, -5));
    assert!(at(1, -5) < at(1, 0));
    assert!(at(0, 5).before(&at(1, -5)));
    assert!(!at(1, 0).before(&at(1, 0)));
    assert!(at(0, 5).key() < at(1, -5).key());
    assert_eq!(Offset::origin(), at(0, 0));
    assert_eq!(at(1, 2) + at(3, -4), at(4, -2));
    assert_eq!(at(1, 2) - at(3, -4), at(-2, 6));
}

#[test]
fn key_packs_x_above_y() {
    assert_eq!(at(0, 0).key(), 1i128 << 63);
    assert_eq!(at(1, -1).key(), (1i128 << 64) + (1i128 << 63) - 1);
    assert_eq!(at(-1, 0).key(), -(1i128 << 63));
    assert_eq!(at(2, 3).key() - at(2, 1).key(), 2);
    assert_eq!(at(3, 1).key() - at(2, 1).key(), 1i128 << 64);
}

#[test]
fn cells_keep_the_order_in_which_tiles_were_visited() {
    let maze = square_maze(2);
    assert_eq!(maze.cells()[0].offset, at(0, 0));
    assert_eq!(maze.find(&at(0, 0)), Some(0));
    assert_eq!(maze.find(&at(5, 5)), None);
    for (place, cell) in maze.cells().iter().enumerate() {
        assert_eq!(maze.find(&cell.offset), Some(place));
        assert_eq!(maze.get(&cell.offset), Some(cell));
    }
}

#[test]
fn hexagons_have_six_neighbours_inside_a_window() {
    let maze = Maze::new(Tiling::hex(), true, window(3)).ok().unwrap();
    assert_eq!(maze.cells().len(), 9);
    assert_eq!(
        maze.adjacencies(at(1, 1)),
        vec![
            Adjacency { index: 0, offset: at(1, 0) },
            Adjacency { index: 1, offset: at(2, 0) },
            Adjacency { index: 2, offset: at(2, 1) },
            Adjacency { index: 3, offset: at(1, 2) },
            Adjacency { index: 4, offset: at(0, 2) },
            Adjacency { index: 5, offset: at(0, 1) },
        ]
    );
    assert_eq!(maze.adjacencies(at(0, 0)).len(), 2);
}

#[test]
fn adjacencies_leave_out_a_side_that_leads_back_to_the_cell() {
    let mut tiling = strip();
    tiling.neighbors = vec![at(1, 0), at(-1, 0)];
    let keep = |tile: Offset, polygon: usize| polygon == 0 && 0 <= tile.x && tile.x <= 1 && tile.y == 0;
    let maze = Maze::new(tiling, true, keep).ok().unwrap();
    assert_eq!(sorted_offsets(&maze), vec![at(0, 0), at(1, 0)]);
    assert_eq!(maze.adjacencies(at(0, 0)), vec![Adjacency { index: 0, offset: at(1, 0) }]);
    assert_eq!(maze.adjacencies(at(1, 0)), vec![]);
    let mut maze = maze;
    assert_eq!(
        maze.connect(at(1, 0), at(1, 0)),
        Err(AdjacencyError { cell: at(1, 0), other: at(1, 0) })
    );
}

#[test]
fn windows_of_squares_and_hexagons_are_forward() {
    for size in 1..6 {
        assert!(square_maze(size).is_forward());
        assert!(Maze::new(Tiling::hex(), true, window(size)).ok().unwrap().is_forward());
    }
}

#[test]
fn mazes_with_a_cell_without_later_neighbour_are_not_forward() {
    let corner = |tile: Offset, _polygon: usize| (tile.x == 0 && (tile.y == 0 || tile.y == 1)) || (tile.x == 1 && tile.y == 0);
    assert!(!Maze::new(Tiling::square(), true, corner).ok().unwrap().is_forward());
    let diamond = |tile: Offset, _polygon: usize| tile.x.abs() + tile.y.abs() <= 1;
    let maze = Maze::new(Tiling::square(), true, diamond).ok().unwrap();
    assert_eq!(maze.cells().len(), 5);
    assert!(!maze.is_forward());
}
