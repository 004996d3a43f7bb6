use std::collections::{HashMap, HashSet, VecDeque};
use tiling_maze::generators::recursive_division::RecursiveDivision;
use tiling_maze::generators::{option_value, Generator, GeneratorUpdate, OptionValue};
use tiling_maze::lattice::Offset;
use tiling_maze::maze::Maze;
use tiling_maze::tiling::Tiling;

fn window_maze(tiling: Tiling, size: isize) -> Maze {
    let keep = move |tile: Offset, _polygon: usize| 0 <= tile.x && tile.x < size && 0 <= tile.y && tile.y < size;
    Maze::new(tiling, true, keep).ok().unwrap()
}

fn threads(value: usize) -> Vec<OptionValue> {
    vec![OptionValue { name: "Threads", value }]
}

fn run(maze: &mut Maze, walkers: usize) -> Vec<(Offset, Offset)> {
    let mut generator = RecursiveDivision::init(maze, rand::thread_rng(), &threads(walkers));
    let mut connects = Vec::new();
    for _ in 0..100_000 {
        let updates = generator.step(maze);
        let mut finished = false;
        for update in updates {
            match update {
                GeneratorUpdate::Connect(a, b) => {
                    maze.connect(a, b).unwrap();
                    connects.push((a, b));
                },
                GeneratorUpdate::Disconnect(_, _) => panic!("walkers close no passage"),
                GeneratorUpdate::Finished() => finished = true,
                _ => {},
            }
        }
        if finished {
            return connects;
        }
    }
    panic!("the walkers did not finish");
}

fn open_graph(maze: &Maze) -> HashMap<Offset, Vec<Offset>> {
    let mut graph = HashMap::new();
    for cell in maze.cells() {
        let mut open = Vec::new();
        for adjacency in maze.adjacencies(cell.offset) {
            if !cell.walls[adjacency.index] {
                open.push(adjacency.offset);
            }
        }
        graph.insert(cell.offset, open);
    }
    graph
}

fn assert_spanning_tree(maze: &Maze) {
    let graph = open_graph(maze);
    let ends: usize = graph.values().map(|open| open.len()).sum();
    assert_eq!(ends, 2 * (maze.cells().len() - 1));
    for (cell, open) in &graph {
        for other in open {
            assert!(graph[other].contains(cell));
        }
    }
    let start = maze.cells()[0].offset;
    let mut seen = HashSet::new();
    let mut queue = VecDeque::new();
    seen.insert(start);
    queue.push_back(start);
    while let Some(cell) = queue.pop_front() {
        for other in &graph[&cell] {
            if seen.insert(*other) {
                queue.push_back(*other);
            }
        }
    }
    assert_eq!(seen.len(), maze.cells().len());
}

#[test]
fn one_walker_carves_fifteen_passages_into_sixteen_squares() {
    let mut maze = window_maze(Tiling::square(), 4);
    assert_eq!(maze.cells().len(), 16);
    let connects = run(&mut maze, 1);
    assert_eq!(connects.len(), 15);
    assert_spanning_tree(&maze);
}

#[test]
fn walkers_carve_a_spanning_tree_for_any_number_of_them() {
    for walkers in [1, 3, 6] {
        let mut maze = window_maze(Tiling::hex(), 5);
        assert_eq!(RecursiveDivision::options(&maze)[0].max, 6);
        let connects = run(&mut maze, walkers);
        assert_eq!(connects.len(), 24);
        assert_spanning_tree(&maze);
    }
}

#[test]
fn walkers_carve_a_spanning_tree_on_mixed_tilings() {
    for tiling in [Tiling::snub_square(), Tiling::trihexagonal(), Tiling::cairo_pentagonal()] {
        let keep = |tile: Offset, _polygon: usize| tile.x.abs() <= 6 && tile.y.abs() <= 6;
        let mut maze = Maze::new(tiling, true, keep).ok().unwrap();
        let cells = maze.cells().len();
        let connects = run(&mut maze, 2);
        assert_eq!(connects.len(), cells - 1);
        assert_spanning_tree(&maze);
    }
}

#[test]
fn every_passage_joins_two_cells_not_yet_connected() {
    let mut maze = window_maze(Tiling::square(), 5);
    let connects = run(&mut maze, 4);
    let mut group: HashMap<Offset, usize> = HashMap::new();
    for (i, cell) in maze.cells().iter().enumerate() {
        group.insert(cell.offset, i);
    }
    for (a, b) in connects {
        let from = group[&a];
        let to = group[&b];
        assert_ne!(from, to);
        for value in group.values_mut() {
            if *value == from {
                *value = to;
            }
        }
    }
}

#[test]
fn step_after_finished_reports_finished_only() {
    let mut maze = window_maze(Tiling::square(), 4);
    let mut generator = RecursiveDivision::init(&maze, rand::thread_rng(), &threads(2));
    loop {
        let updates = generator.step(&maze);
        if updates.last() == Some(&GeneratorUpdate::Finished()) {
            break;
        }
    }
    for _ in 0..3 {
        assert_eq!(generator.step(&maze), vec![GeneratorUpdate::Finished()]);
    }
    let _ = &mut maze;
}

#[test]
fn first_step_of_one_walker_walks_on() {
    let maze = window_maze(Tiling::square(), 4);
    let mut generator = RecursiveDivision::init(&maze, rand::thread_rng(), &threads(1));
    let updates = generator.step(&maze);
    assert_eq!(updates.len(), 3);
    match (updates[0], updates[1], updates[2]) {
        (GeneratorUpdate::Connect(a, b), GeneratorUpdate::Secondary(c), GeneratorUpdate::Primary(d)) => {
            assert_eq!(a, c);
            assert_eq!(b, d);
            assert!(maze.adjacencies(a).iter().any(|adjacency| adjacency.offset == b));
        },
        _ => panic!("a walker with a way on walks on"),
    }
}

#[test]
fn walker_on_a_single_cell_is_done_at_once() {
    let keep = |tile: Offset, _polygon: usize| tile.x == 0 && tile.y == 0;
    let maze = Maze::new(Tiling::tetrakis_square(), true, keep).ok().unwrap();
    assert_eq!(maze.cells().len(), 4);
    let mut generator = RecursiveDivision::init(&maze, rand::thread_rng(), &threads(1));
    let mut connects = 0;
    let mut steps = 0;
    loop {
        let updates = generator.step(&maze);
        steps += 1;
        connects += updates.iter().filter(|update| matches!(update, GeneratorUpdate::Connect(_, _))).count();
        if updates.last() == Some(&GeneratorUpdate::Finished()) {
            break;
        }
    }
    assert_eq!(connects, 3);
    assert_eq!(steps, 7);
}

#[test]
fn options_of_the_walkers() {
    let maze = window_maze(Tiling::square(), 4);
    let options = RecursiveDivision::options(&maze);
    assert_eq!(options.len(), 1);
    assert_eq!(options[0].name, "Threads");
    assert_eq!(options[0].min, 1);
    assert_eq!(options[0].default, 10);
    assert_eq!(options[0].max, 4);
}

#[test]
fn option_value_is_that_of_the_first_entry_of_the_name() {
    let values = vec![
        OptionValue { name: "Speed", value: 7 },
        OptionValue { name: "Threads", value: 3 },
        OptionValue { name: "Threads", value: 5 },
    ];
    assert_eq!(option_value(&values, "Threads"), Some(3));
    assert_eq!(option_value(&values, "Speed"), Some(7));
    assert_eq!(option_value(&values, "Depth"), None);
}

#[test]
fn walk_goes_to_the_way_that_was_drawn() {
    let maze = window_maze(Tiling::square(), 3);
    let mut generator = RecursiveDivision::init(&maze, rand::thread_rng(), &threads(1));
    assert_eq!(generator.count(), 1);
    let here = generator.place(0);
    let ways = generator.ways(&maze, 0);
    let around: Vec<Offset> = maze.adjacencies(here).iter().map(|adjacency| adjacency.offset).collect();
    assert_eq!(ways, around);
    let drawn = ways.len() - 1;
    let next = ways[drawn];
    assert_eq!(
        generator.walk(&maze, 0, Some(drawn)),
        vec![GeneratorUpdate::Connect(here, next), GeneratorUpdate::Secondary(here), GeneratorUpdate::Primary(next)]
    );
    assert_eq!(generator.place(0), next);
    assert!(!generator.ways(&maze, 0).contains(&here));
    assert!(!generator.ways(&maze, 0).contains(&next));
}

#[test]
fn walk_without_a_way_on_steps_back_and_then_is_done() {
    let maze_of_four = window_maze(Tiling::square(), 2);
    let mut generator = RecursiveDivision::init(&maze_of_four, rand::thread_rng(), &threads(1));
    let start = generator.place(0);
    let mut trail = vec![start];
    while !generator.ways(&maze_of_four, 0).is_empty() {
        generator.walk(&maze_of_four, 0, Some(0));
        trail.push(generator.place(0));
    }
    assert_eq!(trail.len(), 4);
    for back in (0..3).rev() {
        let here = generator.place(0);
        assert_eq!(
            generator.walk(&maze_of_four, 0, None),
            vec![GeneratorUpdate::Normal(here), GeneratorUpdate::Primary(trail[back])]
        );
        assert_eq!(generator.place(0), trail[back]);
    }
    assert_eq!(generator.walk(&maze_of_four, 0, None), vec![GeneratorUpdate::Normal(start)]);
    assert_eq!(generator.step(&maze_of_four), vec![GeneratorUpdate::Finished()]);
}

#[test]
fn one_walker_finishes_within_twice_the_cells() {
    for size in 1..5 {
        let maze = window_maze(Tiling::hex(), size + 1);
        let cells = maze.cells().len();
        let mut generator = RecursiveDivision::init(&maze, rand::thread_rng(), &threads(1));
        let mut steps = 0;
        loop {
            steps += 1;
            if generator.step(&maze).last() == Some(&GeneratorUpdate::Finished()) {
                break;
            }
        }
        assert_eq!(steps, 2 * cells - 1);
    }
}

#[test]
fn walkers_report_in_their_order() {
    let maze = window_maze(Tiling::square(), 4);
    let mut generator = RecursiveDivision::init(&maze, rand::thread_rng(), &threads(3));
    let starts: Vec<Offset> = (0..3).map(|w| generator.place(w)).collect();
    let updates = generator.step(&maze);
    assert_eq!(updates.len(), 9);
    for w in 0..3 {
        match updates[3 * w] {
            GeneratorUpdate::Connect(from, to) => {
                assert_eq!(from, starts[w]);
                assert_eq!(generator.place(w), to);
            },
            _ => panic!("every walker has a way on at first"),
        }
    }
}

#[test]
fn walkers_reach_only_what_is_linked_to_their_start() {
    let keep = |tile: Offset, _polygon: usize| tile.y == 0 && 0 <= tile.x && tile.x <= 3;
    let mut maze = Maze::new(Tiling::hex(), true, keep).ok().unwrap();
    assert_eq!(maze.cells().len(), 4);
    let connects = run(&mut maze, 1);
    assert_eq!(connects.len(), 3);
}
