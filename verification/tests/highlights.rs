use tiling_maze::generators::ellers::Ellers;
use tiling_maze::generators::recursive_division::RecursiveDivision;
use tiling_maze::generators::{Generator, GeneratorUpdate, OptionValue};
use tiling_maze::highlights::{Highlights, Shade};
use tiling_maze::lattice::Offset;
use tiling_maze::maze::{AdjacencyError, Maze};
use tiling_maze::tiling::{PolygonSide, TilePolygon, Tiling};

fn at(x: isize, y: isize) -> Offset {
    Offset { x, y }
}

fn square_maze(size: isize) -> Maze {
    let keep = move |tile: Offset, _polygon: usize| 0 <= tile.x && tile.x < size && 0 <= tile.y && tile.y < size;
    Maze::new(Tiling::square(), true, keep).ok().unwrap()
}

#[test]
fn new_highlights_are_empty() {
    let highlights = Highlights::new();
    assert!(!highlights.is_finished());
    assert!(!highlights.is_primary(&at(0, 0)));
    assert!(!highlights.is_secondary(&at(0, 0)));
}

#[test]
fn last_highlight_of_a_cell_wins() {
    let mut maze = square_maze(2);
    let mut highlights = Highlights::new();
    let updates = vec![
        GeneratorUpdate::Secondary(at(0, 0)),
        GeneratorUpdate::Primary(at(0, 0)),
        GeneratorUpdate::Primary(at(1, 0)),
        GeneratorUpdate::Secondary(at(1, 0)),
        GeneratorUpdate::Primary(at(1, 1)),
        GeneratorUpdate::Normal(at(1, 1)),
    ];
    let renders = highlights.process_updates(&mut maze, updates).unwrap();
    assert_eq!(renders, vec![at(0, 0), at(1, 0), at(1, 1)]);
    assert!(highlights.is_primary(&at(0, 0)) && !highlights.is_secondary(&at(0, 0)));
    assert!(!highlights.is_primary(&at(1, 0)) && highlights.is_secondary(&at(1, 0)));
    assert!(!highlights.is_primary(&at(1, 1)) && !highlights.is_secondary(&at(1, 1)));
    assert!(!highlights.is_finished());
}

#[test]
fn highlights_stay_until_changed() {
    let mut maze = square_maze(2);
    let mut highlights = Highlights::new();
    highlights.process_updates(&mut maze, vec![GeneratorUpdate::Primary(at(0, 1))]).unwrap();
    let renders = highlights.process_updates(&mut maze, vec![GeneratorUpdate::Secondary(at(1, 1))]).unwrap();
    assert_eq!(renders, vec![at(1, 1)]);
    assert!(highlights.is_primary(&at(0, 1)));
    assert!(highlights.is_secondary(&at(1, 1)));
}

#[test]
fn connect_and_disconnect_change_the_walls() {
    let mut maze = square_maze(2);
    let mut highlights = Highlights::new();
    let updates = vec![
        GeneratorUpdate::Connect(at(0, 0), at(1, 0)),
        GeneratorUpdate::Connect(at(1, 0), at(1, 1)),
        GeneratorUpdate::Disconnect(at(1, 0), at(0, 0)),
        GeneratorUpdate::Finished(),
    ];
    let renders = highlights.process_updates(&mut maze, updates).unwrap();
    assert_eq!(renders, vec![at(0, 0), at(1, 0), at(1, 1)]);
    assert!(highlights.is_finished());
    assert_eq!(maze.get(&at(0, 0)).unwrap().walls, vec![true, true, true, true]);
    assert_eq!(maze.get(&at(1, 0)).unwrap().walls, vec![true, true, false, true]);
    assert_eq!(maze.get(&at(1, 1)).unwrap().walls, vec![false, true, true, true]);
}

#[test]
fn update_between_cells_that_do_not_touch_stops_the_run() {
    let mut maze = square_maze(2);
    let mut highlights = Highlights::new();
    let updates = vec![
        GeneratorUpdate::Primary(at(0, 0)),
        GeneratorUpdate::Connect(at(0, 0), at(1, 1)),
        GeneratorUpdate::Primary(at(1, 1)),
        GeneratorUpdate::Finished(),
    ];
    assert_eq!(
        highlights.process_updates(&mut maze, updates).err(),
        Some(AdjacencyError { cell: at(0, 0), other: at(1, 1) })
    );
    assert!(highlights.is_primary(&at(0, 0)));
    assert!(!highlights.is_primary(&at(1, 1)));
    assert!(!highlights.is_finished());
    for cell in maze.cells() {
        assert!(!cell.is_open());
    }
}

#[test]
fn shade_goes_by_highlight_then_by_passages() {
    let mut maze = square_maze(2);
    let mut highlights = Highlights::new();
    let updates = vec![
        GeneratorUpdate::Connect(at(0, 0), at(1, 0)),
        GeneratorUpdate::Connect(at(0, 1), at(1, 1)),
        GeneratorUpdate::Primary(at(0, 0)),
        GeneratorUpdate::Secondary(at(0, 1)),
    ];
    highlights.process_updates(&mut maze, updates).unwrap();
    assert_eq!(highlights.shade(maze.get(&at(0, 0)).unwrap()), Shade::Primary);
    assert_eq!(highlights.shade(maze.get(&at(0, 1)).unwrap()), Shade::Secondary);
    assert_eq!(highlights.shade(maze.get(&at(1, 0)).unwrap()), Shade::Open);
    let walled = square_maze(1);
    assert_eq!(Highlights::new().shade(walled.get(&at(0, 0)).unwrap()), Shade::Filled);
}

#[test]
fn stepping_the_walkers_to_the_end_finishes() {
    let mut maze = square_maze(4);
    let values = vec![OptionValue { name: "Threads", value: 2 }];
    let mut generator = RecursiveDivision::init(&maze, rand::thread_rng(), &values);
    let mut highlights = Highlights::new();
    let mut rounds = 0;
    while !highlights.is_finished() {
        let renders = highlights.step(&mut generator, &mut maze, 5).unwrap();
        let mut unique = renders.clone();
        unique.sort();
        unique.dedup();
        assert_eq!(unique.len(), renders.len());
        rounds += 1;
        assert!(rounds < 1000);
    }
    let open: usize = maze.cells().iter().map(|cell| cell.walls.iter().filter(|wall| !**wall).count()).sum();
    assert_eq!(open, 30);
    for cell in maze.cells() {
        assert!(!highlights.is_secondary(&cell.offset) || !highlights.is_primary(&cell.offset));
    }
}

#[test]
fn stepping_ellers_once_finishes() {
    let mut maze = square_maze(4);
    let mut generator = Ellers::init(&maze, rand::thread_rng(), &vec![]);
    let mut highlights = Highlights::new();
    let renders = highlights.step(&mut generator, &mut maze, 1).unwrap();
    assert_eq!(renders.len(), 16);
    assert!(highlights.is_finished());
    for cell in maze.cells() {
        assert_eq!(highlights.shade(cell), Shade::Primary);
    }
}

#[test]
fn stepping_no_times_changes_nothing() {
    let mut maze = square_maze(3);
    let mut generator = Ellers::init(&maze, rand::thread_rng(), &vec![]);
    let mut highlights = Highlights::new();
    assert_eq!(highlights.step(&mut generator, &mut maze, 0), Ok(vec![]));
    assert!(!highlights.is_finished());
}

#[test]
fn stepping_stops_at_a_passage_between_cells_that_do_not_touch() {
    let tiling = Tiling {
        neighbors: vec![at(1, 0), at(-1, 0)],
        polygons: vec![
            TilePolygon {
                offset: at(0, 0),
                sides: vec![
                    PolygonSide { other_tile: 0, other_polygon: 1, other_side_index: 1 },
                    PolygonSide { other_tile: 2, other_polygon: 1, other_side_index: 0 },
                ],
            },
            TilePolygon {
                offset: at(1, 0),
                sides: vec![
                    PolygonSide { other_tile: 1, other_polygon: 0, other_side_index: 1 },
                    PolygonSide { other_tile: 0, other_polygon: 0, other_side_index: 0 },
                ],
            },
        ],
    };
    let keep = |tile: Offset, polygon: usize| polygon == 0 && 0 <= tile.x && tile.x <= 1 && tile.y == 0;
    let mut maze = Maze::new(tiling, true, keep).ok().unwrap();
    assert_eq!(maze.cells().len(), 2);
    assert!(maze.adjacencies(at(0, 0)).iter().any(|adjacency| adjacency.offset == at(1, 0)));
    assert!(!maze.adjacencies(at(1, 0)).iter().any(|adjacency| adjacency.offset == at(0, 0)));
    let mut generator = Ellers::init(&maze, rand::thread_rng(), &vec![]);
    let mut highlights = Highlights::new();
    assert_eq!(
        highlights.step(&mut generator, &mut maze, 1),
        Err(AdjacencyError { cell: at(0, 0), other: at(1, 0) })
    );
    for cell in maze.cells() {
        assert!(!cell.is_open());
    }
    assert!(!highlights.is_finished());
}

#[test]
fn stepping_returns_the_ends_of_every_passage() {
    let mut maze = square_maze(3);
    let mut generator = Ellers::init(&maze, rand::thread_rng(), &vec![]);
    let mut highlights = Highlights::new();
    let renders = highlights.step(&mut generator, &mut maze, 2).unwrap();
    for cell in maze.cells() {
        assert_eq!(cell.is_open(), renders.contains(&cell.offset));
        assert!(cell.is_open());
    }
}
