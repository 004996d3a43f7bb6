use std::collections::{HashMap, HashSet, VecDeque};
use tiling_maze::generators::ellers::Ellers;
use tiling_maze::generators::{Generator, GeneratorUpdate};
use tiling_maze::lattice::Offset;
use tiling_maze::maze::Maze;
use tiling_maze::tiling::Tiling;

fn at(x: isize, y: isize) -> Offset {
    Offset { x, y }
}

fn window_maze(tiling: Tiling, size: isize) -> Maze {
    let keep = move |tile: Offset, _polygon: usize| 0 <= tile.x && tile.x < size && 0 <= tile.y && tile.y < size;
    Maze::new(tiling, true, keep).ok().unwrap()
}

fn carve(maze: &mut Maze) -> Vec<GeneratorUpdate> {
    let mut generator = Ellers::init(maze, rand::thread_rng(), &vec![]);
    let updates = generator.step(maze);
    for update in &updates {
        if let GeneratorUpdate::Connect(a, b) = update {
            maze.connect(*a, *b).unwrap();
        }
    }
    updates
}

fn connects(updates: &[GeneratorUpdate]) -> Vec<(Offset, Offset)> {
    updates
        .iter()
        .filter_map(|update| match update {
            GeneratorUpdate::Connect(a, b) => Some((*a, *b)),
            _ => None,
        })
        .collect()
}

fn components(maze: &Maze) -> usize {
    let mut open: HashMap<Offset, Vec<Offset>> = HashMap::new();
    for cell in maze.cells() {
        let mut passages = Vec::new();
        for adjacency in maze.adjacencies(cell.offset) {
            if !cell.walls[adjacency.index] {
                passages.push(adjacency.offset);
            }
        }
        open.insert(cell.offset, passages);
    }
    let mut seen = HashSet::new();
    let mut count = 0;
    for cell in maze.cells() {
        if seen.insert(cell.offset) {
            count += 1;
            let mut queue = VecDeque::new();
            queue.push_back(cell.offset);
            while let Some(here) = queue.pop_front() {
                for other in &open[&here] {
                    if seen.insert(*other) {
                        queue.push_back(*other);
                    }
                }
            }
        }
    }
    count
}

fn open_sides(maze: &Maze) -> usize {
    maze.cells().iter().map(|cell| cell.walls.iter().filter(|wall| !**wall).count()).sum()
}

#[test]
fn ellers_carves_a_spanning_tree_into_squares() {
    for _ in 0..20 {
        let mut maze = window_maze(Tiling::square(), 4);
        let updates = carve(&mut maze);
        assert_eq!(connects(&updates).len(), 15);
        assert_eq!(open_sides(&maze), 30);
        assert_eq!(components(&maze), 1);
    }
}

#[test]
fn ellers_carves_a_spanning_tree_into_hexagons() {
    for _ in 0..20 {
        let mut maze = window_maze(Tiling::hex(), 6);
        let updates = carve(&mut maze);
        assert_eq!(connects(&updates).len(), 35);
        assert_eq!(open_sides(&maze), 70);
        assert_eq!(components(&maze), 1);
    }
}

#[test]
fn ellers_finishes_in_one_step() {
    let maze = window_maze(Tiling::square(), 5);
    let mut generator = Ellers::init(&maze, rand::thread_rng(), &vec![]);
    let updates = generator.step(&maze);
    assert_eq!(updates.last(), Some(&GeneratorUpdate::Finished()));
    assert_eq!(updates.iter().filter(|update| **update == GeneratorUpdate::Finished()).count(), 1);
    assert_eq!(generator.step(&maze), vec![GeneratorUpdate::Finished()]);
    assert_eq!(generator.step(&maze), vec![GeneratorUpdate::Finished()]);
}

#[test]
fn ellers_reports_passages_then_secondary_then_primary_then_finished() {
    let mut maze = window_maze(Tiling::square(), 3);
    let updates = carve(&mut maze);
    let rank = |update: &GeneratorUpdate| match update {
        GeneratorUpdate::Connect(_, _) => 0,
        GeneratorUpdate::Secondary(_) => 1,
        GeneratorUpdate::Primary(_) => 2,
        GeneratorUpdate::Finished() => 3,
        _ => panic!("not reported by this algorithm"),
    };
    for pair in updates.windows(2) {
        assert!(rank(&pair[0]) <= rank(&pair[1]));
    }
}

#[test]
fn ellers_marks_every_cell_once() {
    let mut maze = window_maze(Tiling::square(), 4);
    let updates = carve(&mut maze);
    let mut ends = HashSet::new();
    for (a, b) in connects(&updates) {
        ends.insert(a);
        ends.insert(b);
    }
    let mut primary = Vec::new();
    let mut secondary = Vec::new();
    for update in &updates {
        match update {
            GeneratorUpdate::Primary(cell) => primary.push(*cell),
            GeneratorUpdate::Secondary(cell) => secondary.push(*cell),
            _ => {},
        }
    }
    assert_eq!(primary.len(), ends.len());
    assert_eq!(primary.iter().copied().collect::<HashSet<_>>(), ends);
    assert_eq!(secondary.len() + primary.len(), 16);
    for cell in &secondary {
        assert!(!ends.contains(cell));
    }
}

#[test]
fn ellers_on_a_single_cell_marks_it_secondary() {
    let maze = window_maze(Tiling::square(), 1);
    let mut generator = Ellers::init(&maze, rand::thread_rng(), &vec![]);
    assert_eq!(
        generator.step(&maze),
        vec![GeneratorUpdate::Secondary(at(0, 0)), GeneratorUpdate::Finished()]
    );
}

#[test]
fn ellers_takes_passages_to_later_cells_only() {
    let mut maze = window_maze(Tiling::trihexagonal(), 3);
    let updates = carve(&mut maze);
    for (a, b) in connects(&updates) {
        assert!(a < b);
        assert!(maze.adjacencies(a).iter().any(|adjacency| adjacency.offset == b));
    }
}

#[test]
fn ellers_never_closes_a_cycle_where_a_cell_has_no_later_neighbour() {
    let keep = |tile: Offset, _polygon: usize| (tile.x == 0 && (tile.y == 0 || tile.y == 1)) || (tile.x == 1 && tile.y == 0);
    let mut joined = false;
    let mut parted = false;
    for _ in 0..200 {
        let mut maze = Maze::new(Tiling::square(), true, keep).ok().unwrap();
        assert_eq!(maze.cells().len(), 3);
        let updates = carve(&mut maze);
        let passages = connects(&updates).len();
        assert_eq!(components(&maze) + passages, 3);
        assert!(passages == 1 || passages == 2);
        joined = joined || passages == 2;
        parted = parted || passages == 1;
    }
    assert!(joined && parted);
}

#[test]
fn ellers_has_no_options() {
    let maze = window_maze(Tiling::square(), 2);
    assert!(Ellers::options(&maze).is_empty());
}
