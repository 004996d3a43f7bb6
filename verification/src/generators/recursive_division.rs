//! Walkers that carve side by side: each walks on into cells that its own
//! region has not claimed, steps back where it cannot go on, and joins the
//! region of another walker when it walks into it.

use crate::generators::{
    chosen, connects_of, lemma_connects_of_both, option_value, orderly, Generator, GeneratorOption, GeneratorUpdate,
    OptionValue,
};
use crate::graph::{
    blank, connected, counted, forest, lemma_blank_apart, lemma_connected_self, lemma_join, lemma_join_counted,
    lemma_tree_count, repainted, spans, tinted,
};
use crate::lattice::{lemma_rank_orders, Offset};
use crate::maze::{cells_of, lemma_cells_counted, lemma_colours_counted, Adjacency, Maze};
use vstd::set_lib::lemma_len_subset;
use crate::random::choose_index;
use rand::rngs::ThreadRng;
use std::collections::HashSet;
use vstd::prelude::*;

verus! {

/// One walker: the cells that it claimed, where it stands, and the way back.
pub struct RecursiveDivisionNode {
    stack: Vec<Offset>,
    cells: HashSet<i128>,
    id: usize,
    current: Offset,
    finished: bool,
}

/// The walkers of one maze.
pub struct RecursiveDivision {
    rng: ThreadRng,
    nodes: Vec<RecursiveDivisionNode>,
    finished: bool,
    edges: Ghost<Seq<(Offset, Offset)>>,
    colour: Ghost<spec_fn(Offset) -> int>,
    palette: Ghost<Set<int>>,
    reached: Ghost<Set<Offset>>,
    live: Ghost<Set<int>>,
    starts: Ghost<Seq<Offset>>,
}

impl RecursiveDivisionNode {
    /// Whether the walker has claimed the cell at `o`.
    pub closed spec fn claims(self, o: Offset) -> bool {
        self.cells@.contains(o.rank() as i128)
    }

    /// The region that the walker belongs to.
    pub closed spec fn region(self) -> int {
        self.id as int
    }

    /// Where the walker stands.
    pub closed spec fn place(self) -> Offset {
        self.current
    }

    /// The cells that the walker came by and has not stepped back over.
    pub closed spec fn trail(self) -> Seq<Offset> {
        self.stack@
    }

    /// Whether the walker has walked back to its start and found no way on.
    pub closed spec fn done(self) -> bool {
        self.finished
    }

    /// The walker stands on a cell of the maze that it has claimed, and so
    /// is every cell of its trail; once done, its trail is empty.
    pub open spec fn sound(self, maze: Maze) -> bool {
        &&& maze.has(self.place())
        &&& self.claims(self.place())
        &&& forall|k: int| 0 <= k < self.trail().len() ==> maze.has(#[trigger] self.trail()[k]) && self.claims(self.trail()[k])
        &&& self.done() ==> self.trail().len() == 0
    }

    /// Whether the walker will come back to the cell at `o`: it stands
    /// there and is not done, or the cell is on its trail.
    pub open spec fn returns_to(self, o: Offset) -> bool {
        (self.place() == o && !self.done()) || self.trail().contains(o)
    }
}

/// Whether every neighbour of the cell at `o` has the colour of that cell.
pub open spec fn spent(maze: Maze, colour: spec_fn(Offset) -> int, o: Offset) -> bool {
    forall|n: Offset| #[trigger] maze.adjacent(o, n) ==> colour(n) == colour(o)
}

/// Whether some walker of region `region` has claimed the cell at `o`.
pub open spec fn claimed_in(nodes: Seq<RecursiveDivisionNode>, region: int, o: Offset) -> bool {
    exists|w: int| 0 <= w < nodes.len() && (#[trigger] nodes[w]).region() == region && nodes[w].claims(o)
}

/// Whether some walker will come back to the cell at `o`.
pub open spec fn awaited(nodes: Seq<RecursiveDivisionNode>, o: Offset) -> bool {
    exists|w: int| 0 <= w < nodes.len() && (#[trigger] nodes[w]).returns_to(o)
}

/// What holds of the walkers of a maze between two ticks: each walker is
/// sound; the colour of a claimed cell is the region of the walkers that
/// claimed it, and that of any other cell is blank; the passages carved so
/// far are a forest of which the colours tell the trees apart; and every
/// claimed cell either has no neighbour of another colour left or is awaited
/// by some walker.
pub open spec fn walking(
    nodes: Seq<RecursiveDivisionNode>,
    maze: Maze,
    edges: Seq<(Offset, Offset)>,
    colour: spec_fn(Offset) -> int,
) -> bool {
    &&& forall|w: int| 0 <= w < nodes.len() ==> (#[trigger] nodes[w]).sound(maze)
    &&& forall|w: int, o: Offset| 0 <= w < nodes.len() && maze.has(o) && (#[trigger] nodes[w]).claims(o) ==> #[trigger] colour(o) == nodes[w].region()
    &&& forall|o: Offset| maze.has(o) && #[trigger] colour(o) >= 0 ==> claimed_in(nodes, colour(o), o)
    &&& forall|o: Offset| maze.has(o) && #[trigger] colour(o) < 0 ==> colour(o) == blank(o)
    &&& tinted(edges, cells_of(maze), colour)
    &&& forall|o: Offset| maze.has(o) && #[trigger] colour(o) >= 0 ==> spent(maze, colour, o) || awaited(nodes, o)
}

impl RecursiveDivisionNode {
    /// `self` is `before` but for its region.
    pub open spec fn moved_from(self, before: RecursiveDivisionNode) -> bool {
        &&& forall|o: Offset| self.claims(o) == before.claims(o)
        &&& self.place() == before.place()
        &&& self.trail() == before.trail()
        &&& self.done() == before.done()
    }
}

/// Whether a walker of region `region` has claimed the cell at `o`.
fn claimed_by(nodes: &Vec<RecursiveDivisionNode>, region: usize, o: &Offset) -> (claimed: bool)
    ensures
        claimed == claimed_in(nodes@, region as int, *o),
{
    let key = o.key();
    let mut w: usize = 0;
    while w < nodes.len()
        invariant
            w <= nodes@.len(),
            key == o.rank(),
            forall|v: int| 0 <= v < w ==> !((#[trigger] nodes@[v]).region() == region && nodes@[v].claims(*o)),
        decreases nodes@.len() - w,
    {
        if nodes[w].id == region && nodes[w].cells.contains(&key) {
            return true;
        }
        w = w + 1;
    }
    false
}

/// The region of a walker that has claimed the cell at `o`, if there is one.
fn claimer(nodes: &Vec<RecursiveDivisionNode>, o: &Offset) -> (found: Option<usize>)
    ensures
        found matches Some(region) ==> claimed_in(nodes@, region as int, *o),
        found is None ==> forall|w: int| 0 <= w < nodes@.len() ==> !(#[trigger] nodes@[w]).claims(*o),
{
    let key = o.key();
    let mut w: usize = 0;
    while w < nodes.len()
        invariant
            w <= nodes@.len(),
            key == o.rank(),
            forall|v: int| 0 <= v < w ==> !(#[trigger] nodes@[v]).claims(*o),
        decreases nodes@.len() - w,
    {
        if nodes[w].cells.contains(&key) {
            return Some(nodes[w].id);
        }
        w = w + 1;
    }
    None
}

/// Moves every walker of region `from` to region `to`.
fn relabel(nodes: &mut Vec<RecursiveDivisionNode>, from: usize, to: usize)
    ensures
        final(nodes)@.len() == old(nodes)@.len(),
        forall|w: int| 0 <= w < old(nodes)@.len() ==> {
            &&& (#[trigger] final(nodes)@[w]).moved_from(old(nodes)@[w])
            &&& final(nodes)@[w].region() == (if old(nodes)@[w].region() == from { to as int } else { old(nodes)@[w].region() })
        },
{
    let mut w: usize = 0;
    while w < nodes.len()
        invariant
            w <= nodes@.len(),
            nodes@.len() == old(nodes)@.len(),
            forall|v: int| 0 <= v < w ==> {
                &&& (#[trigger] nodes@[v]).moved_from(old(nodes)@[v])
                &&& nodes@[v].region() == (if old(nodes)@[v].region() == from { to as int } else { old(nodes)@[v].region() })
            },
            forall|v: int| w <= v < nodes@.len() ==> #[trigger] nodes@[v] == old(nodes)@[v],
        decreases nodes@.len() - w,
    {
        if nodes[w].id == from {
            nodes[w].id = to;
        }
        w = w + 1;
    }
}

/// The cells of the first `n` of `around` that no walker of region `region`
/// has claimed, in their order.
pub open spec fn unclaimed(nodes: Seq<RecursiveDivisionNode>, region: int, around: Seq<Adjacency>, n: int) -> Seq<Offset>
    decreases n,
{
    if n <= 0 {
        Seq::empty()
    } else if !claimed_in(nodes, region, around[n - 1].offset) {
        unclaimed(nodes, region, around, n - 1).push(around[n - 1].offset)
    } else {
        unclaimed(nodes, region, around, n - 1)
    }
}

/// The ways on of walker `w`: the neighbours of the cell on which it stands
/// that its region has not claimed, in the order of the sides.
pub open spec fn ways_of(nodes: Seq<RecursiveDivisionNode>, maze: Maze, w: int) -> Seq<Offset> {
    unclaimed(nodes, nodes[w].region(), maze.neighbours(nodes[w].place()), maze.neighbours(nodes[w].place()).len() as int)
}

/// The neighbours of the cell on which walker `w` stands that its region
/// has not claimed, in the order of the sides.
fn ways_on(nodes: &Vec<RecursiveDivisionNode>, maze: &Maze, w: usize) -> (ways: Vec<Offset>)
    requires
        maze.wf(),
        w < nodes@.len(),
    ensures
        ways@ == ways_of(nodes@, *maze, w as int),
        forall|k: int| 0 <= k < ways@.len() ==> {
            &&& maze.adjacent(nodes@[w as int].place(), #[trigger] ways@[k])
            &&& !claimed_in(nodes@, nodes@[w as int].region(), ways@[k])
        },
        forall|n: Offset| maze.adjacent(nodes@[w as int].place(), n) && !claimed_in(nodes@, nodes@[w as int].region(), n) ==> ways@.contains(n),
{
    let here = nodes[w].current;
    let region = nodes[w].id;
    let around = maze.adjacencies(here);
    let mut ways: Vec<Offset> = Vec::new();
    let mut k: usize = 0;
    while k < around.len()
        invariant
            k <= around@.len(),
            w < nodes@.len(),
            here == nodes@[w as int].place(),
            region == nodes@[w as int].region(),
            around@ == maze.neighbours(here),
            ways@ == unclaimed(nodes@, region as int, around@, k as int),
            forall|j: int| 0 <= j < around@.len() ==> maze.leads(here, (#[trigger] around@[j]).index as int, around@[j].offset),
            forall|j: int| 0 <= j < ways@.len() ==> {
                &&& maze.adjacent(here, #[trigger] ways@[j])
                &&& !claimed_in(nodes@, region as int, ways@[j])
            },
            forall|j: int| 0 <= j < k && !claimed_in(nodes@, region as int, (#[trigger] around@[j]).offset) ==> ways@.contains(around@[j].offset),
        decreases around@.len() - k,
    {
        let there = around[k].offset;
        if !claimed_by(nodes, region, &there) {
            let ghost before = ways@;
            ways.push(there);
            proof {
                assert(maze.leads(here, around@[k as int].index as int, there));
                assert(ways@[before.len() as int] == there);
                assert forall|j: int| 0 <= j < k + 1 && !claimed_in(nodes@, region as int, (#[trigger] around@[j]).offset) implies ways@.contains(
                    around@[j].offset,
                ) by {
                    if j < k {
                        let i = choose|i: int| 0 <= i < before.len() && before[i] == around@[j].offset;
                        assert(ways@[i] == before[i]);
                    }
                }
            }
        }
        k = k + 1;
    }
    proof {
        assert forall|n: Offset| maze.adjacent(here, n) && !claimed_in(nodes@, region as int, n) implies ways@.contains(n) by {
            let s = choose|s: int| maze.leads(here, s, n);
            let found = crate::maze::Adjacency { index: s as usize, offset: n };
            assert(around@.contains(found));
            let j = choose|j: int| 0 <= j < around@.len() && around@[j] == found;
            assert(around@[j].offset == n);
        }
    }
    ways
}

/// Walker `w` claims the cell at `next` and walks on to it.
fn advance(nodes: &mut Vec<RecursiveDivisionNode>, w: usize, next: Offset)
    requires
        w < old(nodes)@.len(),
    ensures
        final(nodes)@.len() == old(nodes)@.len(),
        forall|v: int| 0 <= v < old(nodes)@.len() && v != w ==> #[trigger] final(nodes)@[v] == old(nodes)@[v],
        final(nodes)@[w as int].region() == old(nodes)@[w as int].region(),
        final(nodes)@[w as int].place() == next,
        final(nodes)@[w as int].trail() == old(nodes)@[w as int].trail().push(old(nodes)@[w as int].place()),
        final(nodes)@[w as int].done() == old(nodes)@[w as int].done(),
        forall|o: Offset| #[trigger] final(nodes)@[w as int].claims(o) == (old(nodes)@[w as int].claims(o) || o == next),
{
    let here = nodes[w].current;
    nodes[w].cells.insert(next.key());
    nodes[w].stack.push(here);
    nodes[w].current = next;
    proof {
        assert forall|o: Offset| #[trigger] nodes@[w as int].claims(o) == (old(nodes)@[w as int].claims(o) || o == next) by {
            lemma_rank_orders(o, next);
        }
    }
}

/// Walker `w` steps back to the last cell of its trail; with no trail left,
/// it is done.
fn retreat(nodes: &mut Vec<RecursiveDivisionNode>, w: usize) -> (back: Option<Offset>)
    requires
        w < old(nodes)@.len(),
    ensures
        final(nodes)@.len() == old(nodes)@.len(),
        forall|v: int| 0 <= v < old(nodes)@.len() && v != w ==> #[trigger] final(nodes)@[v] == old(nodes)@[v],
        final(nodes)@[w as int].region() == old(nodes)@[w as int].region(),
        forall|o: Offset| #[trigger] final(nodes)@[w as int].claims(o) == old(nodes)@[w as int].claims(o),
        match back {
            Some(cell) => {
                &&& old(nodes)@[w as int].trail().len() > 0
                &&& cell == old(nodes)@[w as int].trail().last()
                &&& final(nodes)@[w as int].trail() == old(nodes)@[w as int].trail().drop_last()
                &&& final(nodes)@[w as int].place() == cell
                &&& final(nodes)@[w as int].done() == old(nodes)@[w as int].done()
            },
            None => {
                &&& old(nodes)@[w as int].trail().len() == 0
                &&& final(nodes)@[w as int].trail() == old(nodes)@[w as int].trail()
                &&& final(nodes)@[w as int].place() == old(nodes)@[w as int].place()
                &&& final(nodes)@[w as int].done()
            },
        },
{
    match nodes[w].stack.pop() {
        Some(cell) => {
            nodes[w].current = cell;
            Some(cell)
        },
        None => {
            nodes[w].finished = true;
            None
        },
    }
}

/// The walkers stay as `walking` asks when one of them, with no way on,
/// steps back.
proof fn lemma_retreat(
    before: Seq<RecursiveDivisionNode>,
    after: Seq<RecursiveDivisionNode>,
    maze: Maze,
    edges: Seq<(Offset, Offset)>,
    colour: spec_fn(Offset) -> int,
    w: int,
)
    requires
        walking(before, maze, edges, colour),
        0 <= w < before.len(),
        !before[w].done(),
        forall|n: Offset| #[trigger] maze.adjacent(before[w].place(), n) ==> claimed_in(before, before[w].region(), n),
        after.len() == before.len(),
        forall|v: int| 0 <= v < before.len() && v != w ==> #[trigger] after[v] == before[v],
        after[w].region() == before[w].region(),
        forall|o: Offset| #[trigger] after[w].claims(o) == before[w].claims(o),
        before[w].trail().len() > 0 ==> {
            &&& after[w].trail() == before[w].trail().drop_last()
            &&& after[w].place() == before[w].trail().last()
            &&& !after[w].done()
        },
        before[w].trail().len() == 0 ==> {
            &&& after[w].trail() == before[w].trail()
            &&& after[w].place() == before[w].place()
            &&& after[w].done()
        },
    ensures
        walking(after, maze, edges, colour),
{
    let here = before[w].place();
    assert(before[w].sound(maze));
    assert forall|v: int| 0 <= v < after.len() implies (#[trigger] after[v]).sound(maze) by {
        assert(before[v].sound(maze));
        if v == w && before[w].trail().len() > 0 {
            let last = before[w].trail().len() - 1;
            assert(maze.has(before[w].trail()[last]));
            assert forall|k: int| 0 <= k < after[w].trail().len() implies maze.has(#[trigger] after[w].trail()[k]) && after[w].claims(
                after[w].trail()[k],
            ) by {
                assert(after[w].trail()[k] == before[w].trail()[k]);
            }
        }
    }
    assert forall|v: int, o: Offset| 0 <= v < after.len() && maze.has(o) && (#[trigger] after[v]).claims(o) implies #[trigger] colour(o)
        == after[v].region() by {
        assert(before[v].claims(o));
    }
    assert forall|o: Offset, region: int| claimed_in(before, region, o) implies claimed_in(after, region, o) by {
        let v = choose|v: int| 0 <= v < before.len() && (#[trigger] before[v]).region() == region && before[v].claims(o);
        assert(after[v].region() == region && after[v].claims(o));
    }
    assert(spent(maze, colour, here)) by {
        assert forall|n: Offset| #[trigger] maze.adjacent(here, n) implies colour(n) == colour(here) by {
            let v = choose|v: int| 0 <= v < before.len() && (#[trigger] before[v]).region() == before[w].region() && before[v].claims(n);
            let s = choose|s: int| maze.leads(here, s, n);
            assert(maze.has(n));
            assert(colour(n) == before[v].region());
            assert(colour(here) == before[w].region());
        }
    }
    assert forall|o: Offset| maze.has(o) && #[trigger] colour(o) >= 0 implies spent(maze, colour, o) || awaited(after, o) by {
        if !spent(maze, colour, o) {
            let v = choose|v: int| 0 <= v < before.len() && (#[trigger] before[v]).returns_to(o);
            if v != w {
                assert(after[v].returns_to(o));
            } else {
                assert(before[w].trail().contains(o));
                let k = choose|k: int| 0 <= k < before[w].trail().len() && before[w].trail()[k] == o;
                if k < before[w].trail().len() - 1 {
                    assert(after[w].trail()[k] == o);
                }
                assert(after[w].returns_to(o));
            }
        }
    }
}

/// The walkers stay as `walking` asks when one of them walks on to a
/// neighbour that its region has not claimed: the passage joins two trees,
/// and the regions of the two, if the neighbour had one, become one.
proof fn lemma_advance(
    before: Seq<RecursiveDivisionNode>,
    between: Seq<RecursiveDivisionNode>,
    after: Seq<RecursiveDivisionNode>,
    maze: Maze,
    edges: Seq<(Offset, Offset)>,
    colour: spec_fn(Offset) -> int,
    w: int,
    next: Offset,
    from: int,
    to: int,
)
    requires
        walking(before, maze, edges, colour),
        0 <= w < before.len(),
        !before[w].done(),
        maze.adjacent(before[w].place(), next),
        colour(next) != before[w].region(),
        (from == colour(next) && to == before[w].region()) || (from == before[w].region() && to == colour(next)),
        to >= 0,
        between.len() == before.len(),
        forall|v: int| 0 <= v < before.len() ==> {
            &&& (#[trigger] between[v]).moved_from(before[v])
            &&& between[v].region() == (if before[v].region() == from { to } else { before[v].region() })
        },
        after.len() == before.len(),
        forall|v: int| 0 <= v < before.len() && v != w ==> #[trigger] after[v] == between[v],
        after[w].region() == between[w].region(),
        after[w].place() == next,
        after[w].trail() == between[w].trail().push(between[w].place()),
        after[w].done() == between[w].done(),
        forall|o: Offset| #[trigger] after[w].claims(o) == (between[w].claims(o) || o == next),
    ensures
        walking(after, maze, edges.push((before[w].place(), next)), repainted(colour, from, to)),
{
    let here = before[w].place();
    let paint = repainted(colour, from, to);
    let more = edges.push((here, next));
    let s = choose|s: int| maze.leads(here, s, next);
    assert(maze.has(here) && maze.has(next));
    assert(before[w].sound(maze));
    assert(colour(here) == before[w].region());
    lemma_join(edges, cells_of(maze), colour, here, next, from, to);
    assert forall|v: int| 0 <= v < after.len() implies (#[trigger] after[v]).sound(maze) by {
        assert(before[v].sound(maze));
        assert(between[v].moved_from(before[v]));
        if v == w {
            assert forall|k: int| 0 <= k < after[w].trail().len() implies maze.has(#[trigger] after[w].trail()[k]) && after[w].claims(
                after[w].trail()[k],
            ) by {
                if k < before[w].trail().len() {
                    assert(after[w].trail()[k] == before[w].trail()[k]);
                }
            }
        }
    }
    assert forall|o: Offset| maze.has(o) && #[trigger] colour(o) < 0 implies colour(o) == blank(o) by {}
    assert forall|v: int, o: Offset| 0 <= v < after.len() && maze.has(o) && (#[trigger] after[v]).claims(o) implies #[trigger] paint(o)
        == after[v].region() by {
        assert(between[v].moved_from(before[v]));
        if before[v].claims(o) {
            assert(colour(o) == before[v].region());
        } else {
            assert(v == w && o == next);
        }
    }
    assert forall|o: Offset| maze.has(o) && #[trigger] paint(o) >= 0 implies claimed_in(after, paint(o), o) by {
        if colour(o) >= 0 {
            let v = choose|v: int| 0 <= v < before.len() && (#[trigger] before[v]).region() == colour(o) && before[v].claims(o);
            assert(between[v].moved_from(before[v]));
            assert(after[v].region() == paint(o) && after[v].claims(o));
        } else {
            assert(colour(o) == from);
            assert(colour(next) == blank(next));
            lemma_blank_apart(o, next);
            assert(after[w].region() == to && after[w].claims(o));
        }
    }
    assert forall|o: Offset| maze.has(o) && #[trigger] paint(o) < 0 implies paint(o) == blank(o) by {
        assert(colour(o) < 0);
    }
    assert forall|o: Offset| maze.has(o) && #[trigger] paint(o) >= 0 implies spent(maze, paint, o) || awaited(after, o) by {
        if o == next {
            assert(after[w].returns_to(o));
        } else if colour(o) < 0 {
            lemma_blank_apart(o, next);
            assert(colour(next) < 0 ==> colour(next) == blank(next));
        } else if spent(maze, colour, o) {
            assert forall|n: Offset| #[trigger] maze.adjacent(o, n) implies paint(n) == paint(o) by {
                assert(colour(n) == colour(o));
            }
        } else {
            let v = choose|v: int| 0 <= v < before.len() && (#[trigger] before[v]).returns_to(o);
            assert(between[v].moved_from(before[v]));
            if v != w {
                assert(after[v].returns_to(o));
            } else {
                if before[w].place() == o {
                    assert(after[w].trail()[before[w].trail().len() as int] == o);
                } else {
                    let k = choose|k: int| 0 <= k < before[w].trail().len() && before[w].trail()[k] == o;
                    assert(after[w].trail()[k] == o);
                }
                assert(after[w].returns_to(o));
            }
        }
    }
}

/// Whether `updates` are what one walker reports in one tick: walking on,
/// the passage, the cell it leaves as secondary and the cell it enters as
/// primary; stepping back, the cell it leaves as normal and the cell it
/// returns to as primary; with nowhere to step back to, its cell as normal.
pub open spec fn tick_of(updates: Seq<GeneratorUpdate>) -> bool {
    ||| updates.len() == 3 && match updates[0] {
        GeneratorUpdate::Connect(a, b) => updates[1] == GeneratorUpdate::Secondary(a) && updates[2] == GeneratorUpdate::Primary(b),
        _ => false,
    }
    ||| updates.len() == 2 && updates[0] is Normal && updates[1] is Primary
    ||| updates.len() == 1 && updates[0] is Normal
}

/// Whether `updates` are the ticks of walkers, one after the other.
pub open spec fn ticks(updates: Seq<GeneratorUpdate>) -> bool
    decreases updates.len(),
{
    if updates.len() == 0 {
        true
    } else {
        match updates[0] {
            GeneratorUpdate::Connect(a, b) => {
                &&& updates.len() >= 3
                &&& updates[1] == GeneratorUpdate::Secondary(a)
                &&& updates[2] == GeneratorUpdate::Primary(b)
                &&& ticks(updates.skip(3))
            },
            GeneratorUpdate::Normal(_) => {
                ||| updates.len() >= 2 && updates[1] is Primary && ticks(updates.skip(2))
                ||| ticks(updates.skip(1))
            },
            _ => false,
        }
    }
}

/// Ticks followed by one more tick are ticks.
proof fn lemma_ticks_more(before: Seq<GeneratorUpdate>, tick: Seq<GeneratorUpdate>)
    requires
        ticks(before),
        tick_of(tick),
    ensures
        ticks(before + tick),
    decreases before.len(),
{
    reveal_with_fuel(ticks, 2);
    let whole = before + tick;
    if before.len() == 0 {
        assert(whole =~= tick);
        assert(tick.skip(tick.len() as int) =~= Seq::<GeneratorUpdate>::empty());
        assert(ticks(tick.skip(tick.len() as int)));
        if tick.len() == 2 {
            assert(tick[0] is Normal && tick[1] is Primary);
        }
    } else {
        match before[0] {
            GeneratorUpdate::Connect(a, b) => {
                assert(whole.skip(3) =~= before.skip(3) + tick);
                lemma_ticks_more(before.skip(3), tick);
            },
            GeneratorUpdate::Normal(_) => {
                if before.len() >= 2 && before[1] is Primary && ticks(before.skip(2)) {
                    assert(whole.skip(2) =~= before.skip(2) + tick);
                    lemma_ticks_more(before.skip(2), tick);
                } else {
                    assert(whole.skip(1) =~= before.skip(1) + tick);
                    lemma_ticks_more(before.skip(1), tick);
                }
            },
            _ => {},
        }
    }
}

/// The region that a walker of region `region` has after walker `w` has
/// walked on to the cell at `next`: where another region had claimed that
/// cell, the walkers of the larger of the two region numbers get the
/// smaller; all others keep theirs.
pub open spec fn merged_region(nodes: Seq<RecursiveDivisionNode>, w: int, next: Offset, region: int) -> int {
    if exists|u: int| 0 <= u < nodes.len() && (#[trigger] nodes[u]).claims(next) {
        let theirs = nodes[choose|u: int| 0 <= u < nodes.len() && (#[trigger] nodes[u]).claims(next)].region();
        let mine = nodes[w].region();
        if theirs < mine {
            if region == mine {
                theirs
            } else {
                region
            }
        } else {
            if region == theirs {
                mine
            } else {
                region
            }
        }
    } else {
        region
    }
}

/// Walker `w` walks on to the cell at `next`: it reports the passage, the
/// cell it leaves as secondary and the cell it enters as primary; it claims
/// the cell, stands on it, and has the cell it left at the end of its trail;
/// and the regions of the two cells become one.
pub open spec fn walked_on(
    nodes: Seq<RecursiveDivisionNode>,
    w: int,
    next: Offset,
    after: Seq<RecursiveDivisionNode>,
    updates: Seq<GeneratorUpdate>,
) -> bool {
    let here = nodes[w].place();
    &&& updates == seq![GeneratorUpdate::Connect(here, next), GeneratorUpdate::Secondary(here), GeneratorUpdate::Primary(next)]
    &&& after.len() == nodes.len()
    &&& after[w].place() == next
    &&& after[w].trail() == nodes[w].trail().push(here)
    &&& !after[w].done()
    &&& forall|o: Offset| #[trigger] after[w].claims(o) <==> nodes[w].claims(o) || o == next
    &&& forall|v: int| 0 <= v < nodes.len() && v != w ==> (#[trigger] after[v]).moved_from(nodes[v])
    &&& forall|v: int| 0 <= v < nodes.len() ==> (#[trigger] after[v]).region() == merged_region(nodes, w, next, nodes[v].region())
}

/// Walker `w` has no way on: it reports its cell as normal; with a trail,
/// it steps back to the last cell of it and reports that cell as primary;
/// without one it is done. The other walkers stay as they are.
pub open spec fn stepped_back(
    nodes: Seq<RecursiveDivisionNode>,
    w: int,
    after: Seq<RecursiveDivisionNode>,
    updates: Seq<GeneratorUpdate>,
) -> bool {
    let here = nodes[w].place();
    let trail = nodes[w].trail();
    &&& after.len() == nodes.len()
    &&& forall|v: int| 0 <= v < nodes.len() && v != w ==> #[trigger] after[v] == nodes[v]
    &&& after[w].region() == nodes[w].region()
    &&& forall|o: Offset| #[trigger] after[w].claims(o) == nodes[w].claims(o)
    &&& if trail.len() > 0 {
        &&& updates == seq![GeneratorUpdate::Normal(here), GeneratorUpdate::Primary(trail.last())]
        &&& after[w].place() == trail.last()
        &&& after[w].trail() == trail.drop_last()
        &&& !after[w].done()
    } else {
        &&& updates == seq![GeneratorUpdate::Normal(here)]
        &&& after[w].place() == here
        &&& after[w].trail() == trail
        &&& after[w].done()
    }
}

/// The tick of walker `w`: a walker that is done reports nothing and
/// nothing changes; one with a way on walks on to one of its ways on; one
/// without steps back.
pub open spec fn ticked(
    maze: Maze,
    nodes: Seq<RecursiveDivisionNode>,
    w: int,
    after: Seq<RecursiveDivisionNode>,
    updates: Seq<GeneratorUpdate>,
) -> bool {
    if nodes[w].done() {
        after == nodes && updates.len() == 0
    } else if ways_of(nodes, maze, w).len() == 0 {
        stepped_back(nodes, w, after, updates)
    } else {
        exists|i: int| 0 <= i < ways_of(nodes, maze, w).len() && walked_on(nodes, w, #[trigger] ways_of(nodes, maze, w)[i], after, updates)
    }
}

/// The ticks of the first `upto` walkers, in their order, each on what the
/// walkers before it left, lead from `before` to `after` and report
/// `updates`.
pub open spec fn ran(
    maze: Maze,
    before: Seq<RecursiveDivisionNode>,
    upto: int,
    after: Seq<RecursiveDivisionNode>,
    updates: Seq<GeneratorUpdate>,
) -> bool
    decreases upto,
{
    if upto <= 0 {
        after == before && updates.len() == 0
    } else {
        exists|mid: Seq<RecursiveDivisionNode>, cut: int|
            {
                &&& 0 <= cut <= updates.len()
                &&& ran(maze, before, upto - 1, mid, updates.take(cut))
                &&& #[trigger] ticked(maze, mid, upto - 1, after, updates.skip(cut))
            }
    }
}

/// The cells of the maze that a walker has claimed.
pub open spec fn claimed_cells(node: RecursiveDivisionNode, maze: Maze) -> Set<Offset> {
    Set::new(|o: Offset| maze.has(o) && node.claims(o))
}

/// The ticks that a walker has left at most: none once it is done; else
/// one to find itself done, one for each cell of its trail to step back
/// over, and two for each cell of the maze that it has not claimed, to
/// walk on to it and to step back from it.
pub open spec fn cost(node: RecursiveDivisionNode, maze: Maze) -> int {
    if node.done() {
        0
    } else {
        2 * (maze@.len() - claimed_cells(node, maze).len()) + node.trail().len() + 1
    }
}

/// The ticks that the first `k` walkers have left at most, together.
pub open spec fn effort_of(nodes: Seq<RecursiveDivisionNode>, maze: Maze, k: int) -> int
    decreases k,
{
    if k <= 0 {
        0
    } else {
        effort_of(nodes, maze, k - 1) + cost(nodes[k - 1], maze)
    }
}

/// A walker has claimed no more cells than the maze holds: it has no
/// ticks below none left, and one at least while it is not done.
proof fn lemma_cost_floor(node: RecursiveDivisionNode, maze: Maze)
    requires
        maze.wf(),
    ensures
        claimed_cells(node, maze).finite(),
        claimed_cells(node, maze).len() <= maze@.len(),
        cost(node, maze) >= 0,
        !node.done() ==> cost(node, maze) >= 1,
{
    lemma_cells_counted(maze);
    lemma_len_subset(claimed_cells(node, maze), cells_of(maze));
}

proof fn lemma_effort_floor(nodes: Seq<RecursiveDivisionNode>, maze: Maze, k: int)
    requires
        maze.wf(),
        0 <= k <= nodes.len(),
    ensures
        effort_of(nodes, maze, k) >= 0,
        (exists|v: int| 0 <= v < k && !(#[trigger] nodes[v]).done()) ==> effort_of(nodes, maze, k) >= 1,
    decreases k,
{
    if k > 0 {
        lemma_effort_floor(nodes, maze, k - 1);
        lemma_cost_floor(nodes[k - 1], maze);
        if exists|v: int| 0 <= v < k && !(#[trigger] nodes[v]).done() {
            let v = choose|v: int| 0 <= v < k && !(#[trigger] nodes[v]).done();
            if v < k - 1 {
                assert(!nodes[v].done());
            }
        }
    }
}

/// Where one walker has fewer ticks left and no other has more, the
/// walkers together have fewer left.
proof fn lemma_effort_lowered(before: Seq<RecursiveDivisionNode>, after: Seq<RecursiveDivisionNode>, maze: Maze, k: int, w: int)
    requires
        after.len() == before.len(),
        0 <= k <= before.len(),
        0 <= w < before.len(),
        forall|v: int| 0 <= v < before.len() && v != w ==> cost(#[trigger] after[v], maze) == cost(before[v], maze),
        cost(after[w], maze) <= cost(before[w], maze) - 1,
    ensures
        effort_of(after, maze, k) <= effort_of(before, maze, k) - (if w < k { 1int } else { 0int }),
    decreases k,
{
    if k > 0 {
        lemma_effort_lowered(before, after, maze, k - 1, w);
        if k - 1 != w {
            assert(cost(after[k - 1], maze) == cost(before[k - 1], maze));
        }
    }
}

/// Walkers that have the same claims, trail and state have the same ticks
/// left.
proof fn lemma_cost_same(before: RecursiveDivisionNode, after: RecursiveDivisionNode, maze: Maze)
    requires
        after.moved_from(before),
    ensures
        cost(after, maze) == cost(before, maze),
{
    assert(claimed_cells(after, maze) =~= claimed_cells(before, maze));
}

/// Walkers that have not moved from a cell of the maze each have one
/// tick fewer left than twice the cells of the maze.
proof fn lemma_effort_start(nodes: Seq<RecursiveDivisionNode>, maze: Maze, k: int)
    requires
        maze.wf(),
        0 <= k <= nodes.len(),
        forall|v: int| 0 <= v < k ==> {
            &&& maze.has((#[trigger] nodes[v]).place())
            &&& !nodes[v].done()
            &&& nodes[v].trail().len() == 0
            &&& forall|o: Offset| nodes[v].claims(o) <==> o == nodes[v].place()
        },
    ensures
        effort_of(nodes, maze, k) == k * (2 * maze@.len() - 1),
    decreases k,
{
    if k > 0 {
        lemma_effort_start(nodes, maze, k - 1);
        let node = nodes[k - 1];
        assert(maze.has(node.place()));
        assert(claimed_cells(node, maze) =~= set![node.place()]);
        let each = 2 * maze@.len() - 1;
        assert(cost(node, maze) == each);
        assert((k - 1) * each + each == k * each) by (nonlinear_arith);
    } else {
        assert(k * (2 * maze@.len() - 1) == 0) by (nonlinear_arith)
            requires
                k == 0,
        ;
    }
}

/// Walkers that stand on cells of their own, each with its own number as
/// its region, with no trail and no other claim, are as `walking` asks
/// before any passage is opened, and the colours are as many as the cells.
proof fn lemma_walkers_start(nodes: Seq<RecursiveDivisionNode>, maze: Maze) -> (palette: Set<int>)
    requires
        maze.wf(),
        forall|v: int| 0 <= v < nodes.len() ==> {
            &&& maze.has((#[trigger] nodes[v]).place())
            &&& nodes[v].region() == v
            &&& nodes[v].trail().len() == 0
            &&& !nodes[v].done()
            &&& forall|o: Offset| nodes[v].claims(o) <==> o == nodes[v].place()
        },
        forall|v: int, u: int| 0 <= v < u < nodes.len() ==> (#[trigger] nodes[v]).place() != (#[trigger] nodes[u]).place(),
    ensures
        walking(nodes, maze, Seq::<(Offset, Offset)>::empty(), start_colour(nodes)),
        counted(Seq::<(Offset, Offset)>::empty(), cells_of(maze), start_colour(nodes), palette, maze@.len()),
{
    let colour = start_colour(nodes);
    let edges = Seq::<(Offset, Offset)>::empty();
    assert forall|v: int, u: int| 0 <= v < nodes.len() && 0 <= u < nodes.len() && nodes[v].place() == nodes[u].place() implies v == u by {
        if v < u {
            assert(nodes[v].place() != nodes[u].place());
        } else if u < v {
            assert(nodes[u].place() != nodes[v].place());
        }
    }
    assert forall|v: int| 0 <= v < nodes.len() implies colour(nodes[v].place()) == v by {}
    assert forall|v: int| 0 <= v < nodes.len() implies (#[trigger] nodes[v]).sound(maze) by {}
    assert forall|o: Offset| maze.has(o) && #[trigger] colour(o) >= 0 implies claimed_in(nodes, colour(o), o) && awaited(nodes, o) by {
        lemma_blank_apart(o, o);
        let v = colour(o);
        assert(nodes[v].place() == o);
        assert(nodes[v].returns_to(o));
    }
    assert(forest(edges));
    assert forall|a: Offset, b: Offset| maze.has(a) && maze.has(b) && a != b implies #[trigger] colour(a) != #[trigger] colour(b) by {
        lemma_blank_apart(a, b);
    }
    assert forall|a: Offset, b: Offset|
        cells_of(maze).contains(a) && cells_of(maze).contains(b) && colour(a) == colour(b) implies #[trigger] connected(edges, a, b) by {
        lemma_connected_self(edges, a);
    }
    assert forall|o: Offset| maze.has(o) && #[trigger] colour(o) < 0 implies colour(o) == blank(o) by {}
    lemma_colours_counted(maze, colour)
}

/// What holds of the cells that walkers have claimed: they are the cells
/// `reached`, a finite set; every one of them can be reached, from cell to
/// neighbour, from one of the cells `starts` on which the walkers started,
/// which are among them; the passages run between them; and the regions
/// `live` and the passages are together as many as they.
#[verifier::opaque]
pub open spec fn rooted(
    maze: Maze,
    edges: Seq<(Offset, Offset)>,
    colour: spec_fn(Offset) -> int,
    reached: Set<Offset>,
    live: Set<int>,
    starts: Seq<Offset>,
) -> bool {
    &&& reached.finite()
    &&& forall|o: Offset| #[trigger] reached.contains(o) ==> maze.has(o) && colour(o) >= 0
    &&& forall|o: Offset| #[trigger] maze.has(o) && colour(o) >= 0 ==> reached.contains(o)
    &&& counted(edges, reached, colour, live, reached.len())
    &&& forall|k: int| 0 <= k < edges.len() ==> reached.contains((#[trigger] edges[k]).0) && reached.contains(edges[k].1)
    &&& forall|o: Offset| #[trigger] reached.contains(o) ==> exists|v: int| 0 <= v < starts.len() && maze.linked(#[trigger] starts[v], o)
    &&& forall|v: int| #[trigger] numbered(starts, v) ==> reached.contains(starts[v])
}

/// Whether `v` is the number of a walker that started on one of `starts`.
pub open spec fn numbered(starts: Seq<Offset>, v: int) -> bool {
    0 <= v < starts.len()
}

/// The cells reached stay as `rooted` asks when a walker walks on to a
/// cell that no walker has claimed.
proof fn lemma_rooted_wider(
    maze: Maze,
    edges: Seq<(Offset, Offset)>,
    colour: spec_fn(Offset) -> int,
    reached: Set<Offset>,
    live: Set<int>,
    starts: Seq<Offset>,
    here: Offset,
    next: Offset,
)
    requires
        rooted(maze, edges, colour, reached, live, starts),
        maze.has(here),
        maze.has(next),
        colour(here) >= 0,
        maze.adjacent(here, next),
        colour(next) == blank(next),
        forall|o: Offset| #[trigger] maze.has(o) && colour(o) < 0 ==> colour(o) == blank(o),
    ensures
        rooted(maze, edges.push((here, next)), repainted(colour, colour(next), colour(here)), reached.insert(next), live, starts),
{
    reveal(rooted);
    let paint = repainted(colour, colour(next), colour(here));
    let more = edges.push((here, next));
    let wider = reached.insert(next);
    lemma_blank_apart(next, next);
    assert(reached.contains(here));
    let v = choose|v: int| 0 <= v < starts.len() && maze.linked(#[trigger] starts[v], here);
    maze.lemma_linked_more(starts[v], here, next);
    assert forall|o: Offset| #[trigger] wider.contains(o) implies maze.has(o) && paint(o) >= 0 by {
        if o != next {
            assert(reached.contains(o));
        }
    }
    assert forall|o: Offset| #[trigger] maze.has(o) && paint(o) >= 0 implies wider.contains(o) by {
        if o != next && colour(o) < 0 {
            lemma_blank_apart(o, next);
        }
    }
    assert forall|a: Offset| wider.contains(a) implies live.contains(#[trigger] paint(a)) by {
        if a != next {
            assert(reached.contains(a));
            assert(live.contains(colour(a)));
        } else {
            assert(live.contains(colour(here)));
        }
    }
    assert forall|c: int| #[trigger] live.contains(c) implies exists|a: Offset| wider.contains(a) && paint(a) == c by {
        let a = choose|a: Offset| reached.contains(a) && colour(a) == c;
        assert(wider.contains(a) && paint(a) == c);
    }
    assert forall|k: int| 0 <= k < more.len() implies wider.contains((#[trigger] more[k]).0) && wider.contains(more[k].1) by {
        if k < edges.len() {
            assert(more[k] == edges[k]);
        }
    }
    assert forall|o: Offset| #[trigger] wider.contains(o) implies exists|u: int| 0 <= u < starts.len() && maze.linked(#[trigger] starts[u], o) by {
        if o == next {
            assert(maze.linked(starts[v], o));
        } else {
            assert(reached.contains(o));
        }
    }
    assert(!reached.contains(next));
    assert(wider.len() == reached.len() + 1);
    assert(counted(more, wider, paint, live, wider.len()));
    assert forall|u: int| #[trigger] numbered(starts, u) implies wider.contains(starts[u]) by {
        assert(reached.contains(starts[u]));
    }
}

/// The cells reached stay as `rooted` asks when a walker walks on to a
/// cell of another region, and the two regions become one.
proof fn lemma_rooted_joined(
    maze: Maze,
    edges: Seq<(Offset, Offset)>,
    colour: spec_fn(Offset) -> int,
    reached: Set<Offset>,
    live: Set<int>,
    starts: Seq<Offset>,
    here: Offset,
    next: Offset,
    from: int,
    to: int,
)
    requires
        rooted(maze, edges, colour, reached, live, starts),
        maze.has(here),
        maze.has(next),
        colour(here) >= 0,
        colour(next) >= 0,
        colour(next) != colour(here),
        (from == colour(next) && to == colour(here)) || (from == colour(here) && to == colour(next)),
    ensures
        rooted(maze, edges.push((here, next)), repainted(colour, from, to), reached, live.remove(from), starts),
{
    reveal(rooted);
    let paint = repainted(colour, from, to);
    let more = edges.push((here, next));
    assert(reached.contains(here) && reached.contains(next));
    lemma_join_counted(edges, reached, colour, live, reached.len(), here, next, from, to);
    assert forall|o: Offset| #[trigger] reached.contains(o) implies maze.has(o) && paint(o) >= 0 by {}
    assert forall|o: Offset| #[trigger] maze.has(o) && paint(o) >= 0 implies reached.contains(o) by {
        if colour(o) < 0 {
            assert(paint(o) == colour(o));
        }
    }
    assert forall|k: int| 0 <= k < more.len() implies reached.contains((#[trigger] more[k]).0) && reached.contains(more[k].1) by {
        if k < edges.len() {
            assert(more[k] == edges[k]);
        }
    }
}

/// What `rooted` asks does not depend on the walls of the maze.
proof fn lemma_rooted_alike(
    maze: Maze,
    other: Maze,
    edges: Seq<(Offset, Offset)>,
    colour: spec_fn(Offset) -> int,
    reached: Set<Offset>,
    live: Set<int>,
    starts: Seq<Offset>,
)
    requires
        maze.wf(),
        other.wf(),
        maze.alike(other),
        rooted(maze, edges, colour, reached, live, starts),
    ensures
        rooted(other, edges, colour, reached, live, starts),
{
    reveal(rooted);
    maze.lemma_alike(other);
    assert forall|o: Offset| #[trigger] reached.contains(o) implies exists|v: int| 0 <= v < starts.len() && other.linked(#[trigger] starts[v], o) by {
        let v = choose|v: int| 0 <= v < starts.len() && maze.linked(#[trigger] starts[v], o);
        assert(other.linked(starts[v], o));
    }
    assert forall|o: Offset| #[trigger] other.has(o) && colour(o) >= 0 implies reached.contains(o) by {
        assert(maze.has(o));
    }
}

/// The cells on which the first `k` walkers start and their numbers are
/// `k` each.
proof fn lemma_starts_counted(nodes: Seq<RecursiveDivisionNode>, k: int) -> (sets: (Set<Offset>, Set<int>))
    requires
        0 <= k <= nodes.len(),
        forall|v: int, u: int| 0 <= v < u < nodes.len() ==> (#[trigger] nodes[v]).place() != (#[trigger] nodes[u]).place(),
    ensures
        sets.0.finite(),
        sets.1.finite(),
        sets.0.len() == k,
        sets.1.len() == k,
        forall|o: Offset| sets.0.contains(o) <==> exists|v: int| 0 <= v < k && (#[trigger] nodes[v]).place() == o,
        forall|c: int| sets.1.contains(c) <==> 0 <= c < k,
    decreases k,
{
    if k == 0 {
        (Set::empty(), Set::empty())
    } else {
        let fewer = lemma_starts_counted(nodes, k - 1);
        let last = nodes[k - 1].place();
        if fewer.0.contains(last) {
            let v = choose|v: int| 0 <= v < k - 1 && (#[trigger] nodes[v]).place() == last;
            assert(nodes[v].place() != nodes[k - 1].place());
        }
        let cells = fewer.0.insert(last);
        assert forall|o: Offset| cells.contains(o) implies exists|v: int| 0 <= v < k && (#[trigger] nodes[v]).place() == o by {
            if o != last {
                let v = choose|v: int| 0 <= v < k - 1 && (#[trigger] nodes[v]).place() == o;
                assert(nodes[v].place() == o);
            } else {
                assert(nodes[k - 1].place() == o);
            }
        }
        (cells, fewer.1.insert(k - 1))
    }
}

/// Walkers that have not moved are as `rooted` asks: the cells reached
/// are those on which they stand, and the regions are their numbers.
proof fn lemma_started_rooted(nodes: Seq<RecursiveDivisionNode>, maze: Maze, starts: Seq<Offset>, reached: Set<Offset>, live: Set<int>)
    requires
        maze.wf(),
        forall|v: int| 0 <= v < nodes.len() ==> {
            &&& maze.has((#[trigger] nodes[v]).place())
            &&& nodes[v].region() == v
            &&& nodes[v].trail().len() == 0
            &&& !nodes[v].done()
            &&& forall|o: Offset| nodes[v].claims(o) <==> o == nodes[v].place()
        },
        forall|v: int, u: int| 0 <= v < u < nodes.len() ==> (#[trigger] nodes[v]).place() != (#[trigger] nodes[u]).place(),
        starts.len() == nodes.len(),
        forall|v: int| 0 <= v < nodes.len() ==> #[trigger] starts[v] == nodes[v].place(),
        reached.finite(),
        live.finite(),
        reached.len() == nodes.len(),
        live.len() == nodes.len(),
        forall|o: Offset| reached.contains(o) <==> exists|v: int| 0 <= v < nodes.len() && (#[trigger] nodes[v]).place() == o,
        forall|c: int| live.contains(c) <==> 0 <= c < nodes.len(),
    ensures
        rooted(maze, Seq::<(Offset, Offset)>::empty(), start_colour(nodes), reached, live, starts),
{
    reveal(rooted);
    let colour = start_colour(nodes);
    assert forall|v: int, u: int| 0 <= v < nodes.len() && 0 <= u < nodes.len() && nodes[v].place() == nodes[u].place() implies v == u by {
        if v < u {
            assert(nodes[v].place() != nodes[u].place());
        } else if u < v {
            assert(nodes[u].place() != nodes[v].place());
        }
    }
    assert forall|v: int| 0 <= v < nodes.len() implies colour(nodes[v].place()) == v by {}
    assert forall|o: Offset| #[trigger] reached.contains(o) implies maze.has(o) && colour(o) >= 0 by {
        let v = choose|v: int| 0 <= v < nodes.len() && (#[trigger] nodes[v]).place() == o;
        assert(colour(nodes[v].place()) == v);
    }
    assert forall|o: Offset| #[trigger] maze.has(o) && colour(o) >= 0 implies reached.contains(o) by {
        lemma_blank_apart(o, o);
        let v = colour(o);
        assert(nodes[v].place() == o);
    }
    assert forall|a: Offset| reached.contains(a) implies live.contains(#[trigger] colour(a)) by {
        let v = choose|v: int| 0 <= v < nodes.len() && (#[trigger] nodes[v]).place() == a;
        assert(colour(nodes[v].place()) == v);
    }
    assert forall|c: int| #[trigger] live.contains(c) implies exists|a: Offset| reached.contains(a) && colour(a) == c by {
        let a = nodes[c].place();
        assert(colour(a) == c);
        assert(reached.contains(a));
    }
    assert forall|o: Offset| #[trigger] reached.contains(o) implies exists|v: int| 0 <= v < starts.len() && maze.linked(#[trigger] starts[v], o) by {
        let v = choose|v: int| 0 <= v < nodes.len() && (#[trigger] nodes[v]).place() == o;
        maze.lemma_linked_self(o);
        assert(starts[v] == o);
    }
    assert forall|v: int| #[trigger] numbered(starts, v) implies reached.contains(starts[v]) by {
        assert(nodes[v].place() == starts[v]);
    }
}

/// Whether every walker is done.
fn all_done(nodes: &Vec<RecursiveDivisionNode>) -> (all: bool)
    ensures
        all == forall|w: int| 0 <= w < nodes@.len() ==> (#[trigger] nodes@[w]).done(),
{
    let mut w: usize = 0;
    while w < nodes.len()
        invariant
            w <= nodes@.len(),
            forall|v: int| 0 <= v < w ==> (#[trigger] nodes@[v]).done(),
        decreases nodes@.len() - w,
    {
        if !nodes[w].finished {
            return false;
        }
        w = w + 1;
    }
    true
}

/// The colour that each cell has before any walker has moved: the number
/// of the walker that starts there, or blank.
pub open spec fn start_colour(nodes: Seq<RecursiveDivisionNode>) -> spec_fn(Offset) -> int {
    |o: Offset|
        if exists|w: int| 0 <= w < nodes.len() && (#[trigger] nodes[w]).place() == o {
            choose|w: int| 0 <= w < nodes.len() && (#[trigger] nodes[w]).place() == o
        } else {
            blank(o)
        }
}

impl RecursiveDivision {
    /// Whether every passage carved so far runs between two cells of which
    /// the first has a side that leads to the second.
    pub closed spec fn along(self, maze: Maze) -> bool {
        forall|k: int| 0 <= k < self.edges@.len() ==> maze.adjacent((#[trigger] self.edges@[k]).0, self.edges@[k].1)
    }

    /// Whether the colours in use and the passages carved are together as
    /// many as the cells of the maze.
    pub closed spec fn tallied(self, maze: Maze) -> bool {
        counted(self.edges@, cells_of(maze), self.colour@, self.palette@, maze@.len())
    }

    /// The walkers.
    pub closed spec fn walkers(self) -> Seq<RecursiveDivisionNode> {
        self.nodes@
    }

    /// Whether some walker has claimed the cell at `o`.
    pub open spec fn claimed(self, o: Offset) -> bool {
        exists|w: int| 0 <= w < self.walkers().len() && (#[trigger] self.walkers()[w]).claims(o)
    }

    /// What holds of the walkers at all times, also between the ticks of a
    /// step: they are as `walking` asks, every passage runs along a side, and
    /// the colours in use are counted.
    pub closed spec fn steady(self, maze: Maze) -> bool {
        &&& walking(self.nodes@, maze, self.edges@, self.colour@)
        &&& self.along(maze)
        &&& self.tallied(maze)
        &&& rooted(maze, self.edges@, self.colour@, self.reached@, self.live@, self.starts@)
    }

    /// The cells on which the walkers started, in the order of the walkers.
    pub closed spec fn starts(self) -> Seq<Offset> {
        self.starts@
    }

    /// The ticks that the walkers have left at most, together.
    pub closed spec fn effort(self, maze: Maze) -> int {
        effort_of(self.nodes@, maze, self.nodes@.len() as int)
    }

    /// Whether the walkers have reported `Finished`.
    pub closed spec fn over(self) -> bool {
        self.finished
    }

    /// The passages opened so far.
    pub closed spec fn passages(self) -> Seq<(Offset, Offset)> {
        self.edges@
    }

    /// The number of walkers.
    pub fn count(&self) -> (count: usize)
        ensures
            count == self.walkers().len(),
    {
        self.nodes.len()
    }

    /// The cell on which walker `w` stands.
    pub fn place(&self, w: usize) -> (place: Offset)
        requires
            w < self.walkers().len(),
        ensures
            place == self.walkers()[w as int].place(),
    {
        self.nodes[w].current
    }

    /// The ways on of walker `w`: the neighbours of its cell that its region
    /// has not claimed, in the order of the sides.
    pub fn ways(&self, maze: &Maze, w: usize) -> (ways: Vec<Offset>)
        requires
            maze.wf(),
            w < self.walkers().len(),
        ensures
            ways@ == ways_of(self.walkers(), *maze, w as int),
    {
        ways_on(&self.nodes, maze, w)
    }

    /// One tick of walker `w`, which is not done, with the draw given: where
    /// the walker has ways on, `drawn` is the place of one among them, and
    /// the walker walks on to it; where it has none, `drawn` is `None`, and
    /// the walker steps back along its trail or, with no trail left, is done.
    pub fn walk(&mut self, maze: &Maze, w: usize, drawn: Option<usize>) -> (updates: Vec<GeneratorUpdate>)
        requires
            maze.wf(),
            old(self).steady(*maze),
            w < old(self).walkers().len(),
            !old(self).walkers()[w as int].done(),
            drawn is None <==> ways_of(old(self).walkers(), *maze, w as int).len() == 0,
            drawn matches Some(i) ==> i < ways_of(old(self).walkers(), *maze, w as int).len(),
        ensures
            final(self).steady(*maze),
            final(self).over() == old(self).over(),
            final(self).effort(*maze) < old(self).effort(*maze),
            drawn matches Some(i) ==> {
                &&& walked_on(old(self).walkers(), w as int, ways_of(old(self).walkers(), *maze, w as int)[i as int], final(self).walkers(), updates@)
                &&& final(self).passages() == old(self).passages().push(
                    (old(self).walkers()[w as int].place(), ways_of(old(self).walkers(), *maze, w as int)[i as int]),
                )
            },
            drawn is None ==> {
                &&& stepped_back(old(self).walkers(), w as int, final(self).walkers(), updates@)
                &&& final(self).passages() == old(self).passages()
            },
    {
        let ways = ways_on(&self.nodes, maze, w);
        let next = match drawn {
            Some(i) => Some(ways[i]),
            None => None,
        };
        proof {
            if next is None {
                assert forall|n: Offset| #[trigger] maze.adjacent(self.nodes@[w as int].place(), n) implies claimed_in(
                    self.nodes@,
                    self.nodes@[w as int].region(),
                    n,
                ) by {
                    if !claimed_in(self.nodes@, self.nodes@[w as int].region(), n) {
                        assert(ways@.contains(n));
                    }
                }
            }
        }
        self.walk_to(maze, w, next)
    }

    /// One tick of walker `w`: on to a way on picked at random, or back
    /// along its trail.
    fn tick(&mut self, maze: &Maze, w: usize) -> (updates: Vec<GeneratorUpdate>)
        requires
            maze.wf(),
            old(self).steady(*maze),
            w < old(self).nodes@.len(),
            !old(self).nodes@[w as int].done(),
        ensures
            final(self).steady(*maze),
            final(self).finished == old(self).finished,
            final(self).nodes@.len() == old(self).nodes@.len(),
            forall|v: int| 0 <= v < old(self).nodes@.len() && v != w ==> (#[trigger] final(self).nodes@[v]).done() == old(self).nodes@[v].done(),
            final(self).edges@ == old(self).edges@ + connects_of(updates@),
            updates@.len() > 0,
            tick_of(updates@),
            forall|k: int| 0 <= k < updates@.len() ==> !(#[trigger] updates@[k] is Disconnect) && !(updates@[k] is Finished),
            forall|o: Offset| old(self).claimed(o) ==> final(self).claimed(o),
            ticked(*maze, old(self).nodes@, w as int, final(self).nodes@, updates@),
            final(self).effort(*maze) < old(self).effort(*maze),
    {
        let ways = ways_on(&self.nodes, maze, w);
        let next = match choose_index(&mut self.rng, ways.len()) {
            Some(i) => Some(ways[i]),
            None => None,
        };
        let ghost drawn = *self;
        proof {
            assert(drawn.walkers() == old(self).walkers());
            assert forall|o: Offset| old(self).claimed(o) implies drawn.claimed(o) by {
                let v = choose|v: int| 0 <= v < old(self).walkers().len() && (#[trigger] old(self).walkers()[v]).claims(o);
                assert(drawn.walkers()[v].claims(o));
            }
            match next {
                Some(n) => {
                    let i = choose|i: int| 0 <= i < ways@.len() && ways@[i] == n;
                    assert(ways_of(old(self).nodes@, *maze, w as int)[i] == n);
                },
                None => {},
            }
            if next is None {
                assert forall|n: Offset| #[trigger] maze.adjacent(self.nodes@[w as int].place(), n) implies claimed_in(
                    self.nodes@,
                    self.nodes@[w as int].region(),
                    n,
                ) by {
                    if !claimed_in(self.nodes@, self.nodes@[w as int].region(), n) {
                        assert(ways@.contains(n));
                    }
                }
            }
        }
        self.walk_to(maze, w, next)
    }

    /// Walker `w` walks on to the cell at `next`, or, where there is none,
    /// steps back along its trail.
    fn walk_to(&mut self, maze: &Maze, w: usize, next: Option<Offset>) -> (ticked: Vec<GeneratorUpdate>)
        requires
            maze.wf(),
            w < old(self).nodes@.len(),
            !old(self).nodes@[w as int].done(),
            old(self).steady(*maze),
            next matches Some(n) ==> maze.adjacent(old(self).nodes@[w as int].place(), n) && !claimed_in(
                old(self).nodes@,
                old(self).nodes@[w as int].region(),
                n,
            ),
            next is None ==> forall|n: Offset| #[trigger] maze.adjacent(old(self).nodes@[w as int].place(), n) ==> claimed_in(
                old(self).nodes@,
                old(self).nodes@[w as int].region(),
                n,
            ),
        ensures
            final(self).steady(*maze),
            final(self).finished == old(self).finished,
            final(self).nodes@.len() == old(self).nodes@.len(),
            forall|v: int| 0 <= v < old(self).nodes@.len() && v != w ==> (#[trigger] final(self).nodes@[v]).done() == old(self).nodes@[v].done(),
            final(self).edges@ == old(self).edges@ + connects_of(ticked@),
            ticked@.len() > 0,
            tick_of(ticked@),
            forall|k: int| 0 <= k < ticked@.len() ==> !(#[trigger] ticked@[k] is Disconnect) && !(ticked@[k] is Finished),
            forall|o: Offset| old(self).claimed(o) ==> final(self).claimed(o),
            final(self).effort(*maze) < old(self).effort(*maze),
            next matches Some(n) ==> walked_on(old(self).nodes@, w as int, n, final(self).nodes@, ticked@) && final(self).edges@
                == old(self).edges@.push((old(self).nodes@[w as int].place(), n)),
            next is None ==> stepped_back(old(self).nodes@, w as int, final(self).nodes@, ticked@) && final(self).edges@ == old(
                self,
            ).edges@,
    {
        match next {
            Some(next) => self.walk_on(maze, w, next),
            None => self.walk_back(maze, w),
        }
    }

    /// Walker `w` walks on to the cell at `next`, a neighbour of its cell
    /// that its region has not claimed.
    #[verifier::rlimit(30)]
    fn walk_on(&mut self, maze: &Maze, w: usize, next: Offset) -> (ticked: Vec<GeneratorUpdate>)
        requires
            maze.wf(),
            w < old(self).nodes@.len(),
            !old(self).nodes@[w as int].done(),
            old(self).steady(*maze),
            maze.adjacent(old(self).nodes@[w as int].place(), next),
            !claimed_in(old(self).nodes@, old(self).nodes@[w as int].region(), next),
        ensures
            final(self).steady(*maze),
            final(self).finished == old(self).finished,
            final(self).nodes@.len() == old(self).nodes@.len(),
            forall|v: int| 0 <= v < old(self).nodes@.len() && v != w ==> (#[trigger] final(self).nodes@[v]).done() == old(self).nodes@[v].done(),
            final(self).edges@ == old(self).edges@ + connects_of(ticked@),
            ticked@.len() > 0,
            tick_of(ticked@),
            forall|k: int| 0 <= k < ticked@.len() ==> !(#[trigger] ticked@[k] is Disconnect) && !(ticked@[k] is Finished),
            forall|o: Offset| old(self).claimed(o) ==> final(self).claimed(o),
            final(self).effort(*maze) < old(self).effort(*maze),
            walked_on(old(self).nodes@, w as int, next, final(self).nodes@, ticked@),
            final(self).edges@ == old(self).edges@.push((old(self).nodes@[w as int].place(), next)),
    {
        let ghost before = self.nodes@;
        let ghost edges = self.edges@;
        let ghost colour = self.colour@;
        let here = self.nodes[w].current;
        let mine = self.nodes[w].id;
        let mut ticked: Vec<GeneratorUpdate> = Vec::new();
        proof {
            reveal_with_fuel(connects_of, 4);
            assert(before[w as int].sound(*maze));
            assert(colour(here) == mine);
        }
        let ghost s = choose|s: int| maze.leads(here, s, next);
        assert(maze.has(next));
        let ghost mut from: int = colour(next);
        let ghost mut to: int = mine as int;
        match claimer(&self.nodes, &next) {
            Some(theirs) => {
                proof {
                    let v = choose|v: int| 0 <= v < before.len() && (#[trigger] before[v]).region() == theirs && before[v].claims(next);
                    assert(colour(next) == theirs);
                }
                if theirs < mine {
                    proof {
                        from = mine as int;
                        to = theirs as int;
                    }
                    relabel(&mut self.nodes, mine, theirs);
                } else {
                    relabel(&mut self.nodes, theirs, mine);
                }
            },
            None => {
                proof {
                    if colour(next) >= 0 {
                        let v = choose|v: int| 0 <= v < before.len() && (#[trigger] before[v]).region() == colour(next) && before[v].claims(next);
                        assert(false);
                    }
                    assert forall|v: int| 0 <= v < before.len() implies (#[trigger] before[v]).region() != from by {
                        assert(before[v].sound(*maze));
                        assert(colour(before[v].place()) == before[v].region());
                    }
                }
            },
        }
        let ghost between = self.nodes@;
        proof {
            assert forall|v: int| 0 <= v < before.len() implies {
                &&& (#[trigger] between[v]).moved_from(before[v])
                &&& between[v].region() == (if before[v].region() == from { to } else { before[v].region() })
            } by {}
        }
        ticked.push(GeneratorUpdate::Connect(here, next));
        ticked.push(GeneratorUpdate::Secondary(here));
        ticked.push(GeneratorUpdate::Primary(next));
        advance(&mut self.nodes, w, next);
        proof {
            lemma_advance(before, between, self.nodes@, *maze, edges, colour, w as int, next, from, to);
            lemma_join_counted(edges, cells_of(*maze), colour, self.palette@, maze@.len(), here, next, from, to);
            self.edges@ = edges.push((here, next));
            self.colour@ = repainted(colour, from, to);
            self.palette@ = self.palette@.remove(from);
            if colour(next) < 0 {
                assert forall|o: Offset| #[trigger] maze.has(o) && colour(o) < 0 implies colour(o) == blank(o) by {}
                lemma_rooted_wider(*maze, edges, colour, self.reached@, self.live@, self.starts@, here, next);
                self.reached@ = self.reached@.insert(next);
            } else {
                lemma_rooted_joined(*maze, edges, colour, self.reached@, self.live@, self.starts@, here, next, from, to);
                self.live@ = self.live@.remove(from);
            }
            assert(ticked@ =~= seq![
                GeneratorUpdate::Connect(here, next),
                GeneratorUpdate::Secondary(here),
                GeneratorUpdate::Primary(next),
            ]);
            assert(connects_of(ticked@) =~= seq![(here, next)]) by {
                let one = seq![GeneratorUpdate::Connect(here, next)];
                let two = one.push(GeneratorUpdate::Secondary(here));
                assert(ticked@.drop_last() =~= two);
                assert(two.drop_last() =~= one);
                assert(one.drop_last() =~= Seq::<GeneratorUpdate>::empty());
            }
            assert(self.edges@ =~= edges + connects_of(ticked@));
            assert forall|o: Offset| old(self).claimed(o) implies self.claimed(o) by {
                let v = choose|v: int| 0 <= v < old(self).walkers().len() && (#[trigger] old(self).walkers()[v]).claims(o);
                assert(between[v].moved_from(before[v]));
                assert(self.walkers()[v].claims(o));
            }
            assert forall|v: int| 0 <= v < before.len() implies (#[trigger] self.nodes@[v]).region() == merged_region(
                before,
                w as int,
                next,
                before[v].region(),
            ) by {
                assert(between[v].moved_from(before[v]));
                if exists|u: int| 0 <= u < before.len() && (#[trigger] before[u]).claims(next) {
                    let u = choose|u: int| 0 <= u < before.len() && (#[trigger] before[u]).claims(next);
                    assert(colour(next) == before[u].region());
                }
            }
            assert forall|v: int| 0 <= v < before.len() && v != w implies (#[trigger] self.nodes@[v]).moved_from(before[v]) by {
                assert(between[v].moved_from(before[v]));
            }
            assert(walked_on(before, w as int, next, self.nodes@, ticked@));
            assert forall|v: int| 0 <= v < before.len() && v != w implies cost(#[trigger] self.nodes@[v], *maze) == cost(
                before[v],
                *maze,
            ) by {
                lemma_cost_same(before[v], self.nodes@[v], *maze);
            }
            lemma_cost_floor(before[w as int], *maze);
            lemma_cost_floor(self.nodes@[w as int], *maze);
            assert(!before[w as int].claims(next)) by {
                if before[w as int].claims(next) {
                    assert(claimed_in(before, before[w as int].region(), next));
                }
            }
            assert(claimed_cells(self.nodes@[w as int], *maze) =~= claimed_cells(before[w as int], *maze).insert(next));
            lemma_effort_lowered(before, self.nodes@, *maze, before.len() as int, w as int);
        }
        ticked
    }

    /// Walker `w`, of which every neighbour is claimed by its region, steps
    /// back along its trail or, with no trail left, is done.
    #[verifier::rlimit(30)]
    fn walk_back(&mut self, maze: &Maze, w: usize) -> (ticked: Vec<GeneratorUpdate>)
        requires
            maze.wf(),
            w < old(self).nodes@.len(),
            !old(self).nodes@[w as int].done(),
            old(self).steady(*maze),
            forall|n: Offset| #[trigger] maze.adjacent(old(self).nodes@[w as int].place(), n) ==> claimed_in(
                old(self).nodes@,
                old(self).nodes@[w as int].region(),
                n,
            ),
        ensures
            final(self).steady(*maze),
            final(self).finished == old(self).finished,
            final(self).nodes@.len() == old(self).nodes@.len(),
            forall|v: int| 0 <= v < old(self).nodes@.len() && v != w ==> (#[trigger] final(self).nodes@[v]).done() == old(self).nodes@[v].done(),
            final(self).edges@ == old(self).edges@ + connects_of(ticked@),
            ticked@.len() > 0,
            tick_of(ticked@),
            forall|k: int| 0 <= k < ticked@.len() ==> !(#[trigger] ticked@[k] is Disconnect) && !(ticked@[k] is Finished),
            forall|o: Offset| old(self).claimed(o) ==> final(self).claimed(o),
            final(self).effort(*maze) < old(self).effort(*maze),
            stepped_back(old(self).nodes@, w as int, final(self).nodes@, ticked@),
            final(self).edges@ == old(self).edges@,
    {
        let ghost before = self.nodes@;
        let ghost edges = self.edges@;
        let ghost colour = self.colour@;
        let here = self.nodes[w].current;
        let mine = self.nodes[w].id;
        let mut ticked: Vec<GeneratorUpdate> = Vec::new();
        proof {
            reveal_with_fuel(connects_of, 4);
            assert(before[w as int].sound(*maze));
            assert(colour(here) == mine);
        }
        ticked.push(GeneratorUpdate::Normal(here));
        match retreat(&mut self.nodes, w) {
            Some(back) => {
                ticked.push(GeneratorUpdate::Primary(back));
                proof {
                    assert(ticked@ =~= seq![GeneratorUpdate::Normal(here), GeneratorUpdate::Primary(back)]);
                    assert(connects_of(ticked@) =~= Seq::<(Offset, Offset)>::empty()) by {
                        let one = seq![GeneratorUpdate::Normal(here)];
                        assert(ticked@.drop_last() =~= one);
                        assert(one.drop_last() =~= Seq::<GeneratorUpdate>::empty());
                    }
                }
            },
            None => {
                proof {
                    assert(ticked@ =~= seq![GeneratorUpdate::Normal(here)]);
                    assert(connects_of(ticked@) =~= Seq::<(Offset, Offset)>::empty()) by {
                        assert(ticked@.drop_last() =~= Seq::<GeneratorUpdate>::empty());
                    }
                }
            },
        }
        proof {
            assert forall|v: int| 0 <= v < before.len() && v != w implies cost(#[trigger] self.nodes@[v], *maze) == cost(
                before[v],
                *maze,
            ) by {}
            lemma_cost_floor(before[w as int], *maze);
            assert(claimed_cells(self.nodes@[w as int], *maze) =~= claimed_cells(before[w as int], *maze));
            lemma_effort_lowered(before, self.nodes@, *maze, before.len() as int, w as int);
            lemma_retreat(before, self.nodes@, *maze, edges, colour, w as int);
            assert(self.edges@ =~= edges + connects_of(ticked@));
            assert forall|o: Offset| old(self).claimed(o) implies self.claimed(o) by {
                let v = choose|v: int| 0 <= v < old(self).walkers().len() && (#[trigger] old(self).walkers()[v]).claims(o);
                assert(self.walkers()[v].claims(o));
            }
        }
        ticked
    }
}

impl Generator for RecursiveDivision {
    closed spec fn ready(&self, maze: &Maze) -> bool {
        &&& self.steady(*maze)
        &&& self.finished <==> forall|w: int| 0 <= w < self.nodes@.len() ==> (#[trigger] self.nodes@[w]).done()
    }

    closed spec fn finished(&self) -> bool {
        self.finished
    }

    closed spec fn carved(&self) -> Seq<(Offset, Offset)> {
        self.edges@
    }

    /// The option `Threads` has a value: at least one walker, and at most
    /// one for every four cells.
    open spec fn accepts(maze: &Maze, values: Seq<OptionValue>) -> bool {
        chosen(values, "Threads"@) matches Some(threads) && 1 <= threads <= maze@.len() / 4
    }

    /// A step of walkers that have finished changes nothing and reports
    /// `Finished`. Otherwise every walker has its tick, in the order of the
    /// walkers, each on what the walkers before it left; the updates are
    /// those of the ticks in that order, and `Finished` after them if all
    /// walkers are done then.
    open spec fn moved(&self, maze: &Maze, after: &Self, updates: Seq<GeneratorUpdate>) -> bool {
        if self.finished() {
            &&& after.walkers() == self.walkers()
            &&& after.finished()
            &&& after.carved() == self.carved()
            &&& updates == seq![GeneratorUpdate::Finished()]
        } else {
            &&& ran(
                *maze,
                self.walkers(),
                self.walkers().len() as int,
                after.walkers(),
                if after.finished() {
                    updates.drop_last()
                } else {
                    updates
                },
            )
            &&& after.finished() <==> forall|v: int| 0 <= v < after.walkers().len() ==> (#[trigger] after.walkers()[v]).done()
            &&& after.finished() ==> updates.len() > 0 && updates.last() is Finished
            &&& after.carved() == self.carved() + connects_of(updates)
        }
    }

    /// Starts as many walkers as the option `Threads` says, each on a cell
    /// of its own, picked at random.
    fn init(maze: &Maze, rng: ThreadRng, values: &Vec<OptionValue>) -> (generator: Self)
        ensures
            !generator.finished(),
            generator.walkers().len() == chosen(values@, "Threads"@).unwrap(),
            forall|w: int| 0 <= w < generator.walkers().len() ==> {
                &&& maze.has((#[trigger] generator.walkers()[w]).place())
                &&& generator.claimed(generator.walkers()[w].place())
                &&& !generator.walkers()[w].done()
                &&& generator.walkers()[w].region() == w
                &&& generator.walkers()[w].trail().len() == 0
                &&& forall|o: Offset| generator.walkers()[w].claims(o) <==> o == generator.walkers()[w].place()
            },
            forall|v: int, w: int| 0 <= v < w < generator.walkers().len() ==> (#[trigger] generator.walkers()[v]).place() != (#[trigger] generator.walkers()[w]).place(),
            generator.effort(*maze) == generator.walkers().len() * (2 * maze@.len() - 1),
            generator.starts().len() == generator.walkers().len(),
            forall|w: int| 0 <= w < generator.walkers().len() ==> #[trigger] generator.starts()[w] == generator.walkers()[w].place(),
    {
        let mut rng = rng;
        let threads = option_value(values, "Threads").unwrap();
        let cells = maze.cells();
        let count = cells.len();
        let mut pool: Vec<usize> = Vec::new();
        let mut i: usize = 0;
        while i < count
            invariant
                i <= count,
                pool@.len() == i,
                forall|j: int| 0 <= j < i ==> pool@[j] == j,
            decreases count - i,
        {
            pool.push(i);
            i = i + 1;
        }
        let mut nodes: Vec<RecursiveDivisionNode> = Vec::new();
        let mut w: usize = 0;
        while w < threads
            invariant
                maze.wf(),
                cells@ == maze@,
                count == cells@.len(),
                1 <= threads <= count,
                threads == chosen(values@, "Threads"@).unwrap(),
                w <= threads,
                pool@.len() == count,
                forall|j: int| 0 <= j < count ==> (#[trigger] pool@[j]) < count,
                forall|j: int, k: int| 0 <= j < k < count ==> pool@[j] != pool@[k],
                nodes@.len() == w,
                forall|v: int| 0 <= v < w ==> {
                    &&& (#[trigger] nodes@[v]).place() == maze@[pool@[v] as int].offset
                    &&& nodes@[v].region() == v
                    &&& nodes@[v].trail().len() == 0
                    &&& !nodes@[v].done()
                    &&& forall|o: Offset| nodes@[v].claims(o) <==> o == nodes@[v].place()
                },
            decreases threads - w,
        {
            let drawn = choose_index(&mut rng, count - w).unwrap();
            let first = pool[w];
            let second = pool[w + drawn];
            pool[w] = second;
            pool[w + drawn] = first;
            let current = cells[second].offset;
            let mut claimed: HashSet<i128> = HashSet::new();
            claimed.insert(current.key());
            let node = RecursiveDivisionNode { stack: Vec::new(), cells: claimed, id: w, current, finished: false };
            proof {
                assert forall|o: Offset| node.claims(o) <==> o == current by {
                    lemma_rank_orders(o, current);
                }
            }
            nodes.push(node);
            w = w + 1;
        }
        let ghost colour = start_colour(nodes@);
        let ghost edges = Seq::<(Offset, Offset)>::empty();
        let ghost mut palette = Set::<int>::empty();
        proof {
            assert forall|v: int, u: int| 0 <= v < u < nodes@.len() implies (#[trigger] nodes@[v]).place() != (#[trigger] nodes@[u]).place() by {
                let a = pool@[v] as int;
                let b = pool@[u] as int;
                assert(pool@[v] != pool@[u]);
                if a < b {
                    assert(maze@[a].offset != maze@[b].offset);
                } else {
                    assert(maze@[b].offset != maze@[a].offset);
                }
            }
            assert forall|v: int| 0 <= v < nodes@.len() implies maze.has((#[trigger] nodes@[v]).place()) by {
                assert(maze@[pool@[v] as int].offset == nodes@[v].place());
            }
            palette = lemma_walkers_start(nodes@, *maze);
        }
        let ghost starts = Seq::new(nodes@.len(), |v: int| nodes@[v].place());
        let ghost begun = lemma_starts_counted(nodes@, nodes@.len() as int);
        proof {
            lemma_started_rooted(nodes@, *maze, starts, begun.0, begun.1);
        }
        let generator = RecursiveDivision {
            rng,
            nodes,
            finished: false,
            edges: Ghost(edges),
            colour: Ghost(colour),
            palette: Ghost(palette),
            reached: Ghost(begun.0),
            live: Ghost(begun.1),
            starts: Ghost(starts),
        };
        proof {
            assert(generator.nodes@ == nodes@);
            lemma_effort_start(nodes@, *maze, nodes@.len() as int);
            assert(generator.effort(*maze) == generator.walkers().len() * (2 * maze@.len() - 1));
            assert forall|v: int| 0 <= v < generator.walkers().len() implies {
                &&& maze.has((#[trigger] generator.walkers()[v]).place())
                &&& generator.claimed(generator.walkers()[v].place())
                &&& !generator.walkers()[v].done()
                &&& generator.walkers()[v].region() == v
                &&& generator.walkers()[v].trail().len() == 0
                &&& forall|o: Offset| generator.walkers()[v].claims(o) <==> o == generator.walkers()[v].place()
            } by {
                assert(generator.walkers()[v].claims(generator.walkers()[v].place()));
                assert(nodes@[v].sound(*maze));
            }
            assert(!generator.nodes@[0].done());
            assert(walking(generator.nodes@, *maze, generator.edges@, generator.colour@));
            assert(generator.along(*maze));
            assert(generator.tallied(*maze));
            assert(generator.ready(maze));
        }
        generator
    }

    /// One tick for every walker that is not done, in their order. When all
    /// are done, `Finished` is reported, and from then on nothing else.
    fn step(&mut self, maze: &Maze) -> (updates: Vec<GeneratorUpdate>)
        ensures
            forall|o: Offset| old(self).claimed(o) ==> final(self).claimed(o),
            !old(self).finished() ==> ticks(if final(self).finished() { updates@.drop_last() } else { updates@ }),
            !old(self).finished() ==> final(self).effort(*maze) < old(self).effort(*maze),
            old(self).finished() ==> final(self).walkers() == old(self).walkers(),
    {
        let mut changes: Vec<GeneratorUpdate> = Vec::new();
        if self.finished {
            changes.push(GeneratorUpdate::Finished());
            proof {
                reveal_with_fuel(connects_of, 2);
                assert(changes@ =~= seq![GeneratorUpdate::Finished()]);
                assert(changes@.drop_last() =~= Seq::<GeneratorUpdate>::empty());
                assert(self.edges@ =~= self.edges@ + connects_of(changes@));
            }
            return changes;
        }
        let ghost start = self.edges@;
        assert(exists|w: int| 0 <= w < self.nodes@.len() && !(#[trigger] self.nodes@[w]).done());
        let ghost first = choose|w: int| 0 <= w < self.nodes@.len() && !(#[trigger] self.nodes@[w]).done();
        let mut w: usize = 0;
        proof {
            assert(start =~= start + connects_of(changes@));
        }
        while w < self.nodes.len()
            invariant
                maze.wf(),
                w <= self.nodes@.len(),
                self.nodes@.len() == old(self).nodes@.len(),
                !self.finished,
                self.steady(*maze),
                ran(*maze, old(self).nodes@, w as int, self.nodes@, changes@),
                self.edges@ == start + connects_of(changes@),
                ticks(changes@),
                forall|k: int| 0 <= k < changes@.len() ==> !(#[trigger] changes@[k] is Disconnect) && !(changes@[k] is Finished),
                forall|v: int| w <= v < self.nodes@.len() ==> (#[trigger] self.nodes@[v]).done() == old(self).nodes@[v].done(),
                0 <= first < self.nodes@.len(),
                !old(self).nodes@[first].done(),
                first < w ==> changes@.len() > 0,
                self.effort(*maze) <= old(self).effort(*maze),
                first < w ==> self.effort(*maze) < old(self).effort(*maze),
                forall|o: Offset| old(self).claimed(o) ==> self.claimed(o),
            decreases self.nodes@.len() - w,
        {
            let ghost so_far = changes@;
            let ghost mid = self.nodes@;
            let ghost cut = so_far.len() as int;
            if !self.nodes[w].finished {
                let mut reported = self.tick(maze, w);
                let ghost fresh = reported@;
                changes.append(&mut reported);
                proof {
                    lemma_connects_of_both(so_far, fresh);
                    lemma_ticks_more(so_far, fresh);
                    assert(self.edges@ =~= start + connects_of(changes@));
                    assert(changes@.skip(cut) =~= fresh);
                }
            } else {
                proof {
                    assert(changes@.skip(cut) =~= Seq::<GeneratorUpdate>::empty());
                }
            }
            proof {
                assert(changes@.take(cut) =~= so_far);
                let upto = w + 1;
                assert(ran(*maze, old(self).nodes@, upto - 1, mid, changes@.take(cut)));
                assert(ticked(*maze, mid, upto - 1, self.nodes@, changes@.skip(cut)));
                assert(ran(*maze, old(self).nodes@, upto, self.nodes@, changes@));
            }
            w = w + 1;
        }
        let ghost ticks_done = changes@;
        if all_done(&self.nodes) {
            let ghost walkers = self.walkers();
            self.finished = true;
            let ghost so_far = changes@;
            changes.push(GeneratorUpdate::Finished());
            proof {
                assert(changes@.drop_last() =~= so_far);
                assert(self.edges@ =~= start + connects_of(changes@));
                assert(self.walkers() == walkers);
                assert forall|o: Offset| old(self).claimed(o) implies self.claimed(o) by {
                    let v = choose|v: int| 0 <= v < walkers.len() && (#[trigger] walkers[v]).claims(o);
                    assert(self.walkers()[v].claims(o));
                }
                assert(self.effort(*maze) == effort_of(walkers, *maze, walkers.len() as int));
            }
        }
        proof {
            let body = if self.finished { changes@.drop_last() } else { changes@ };
            assert(body =~= ticks_done);
            assert(ran(*maze, old(self).walkers(), old(self).walkers().len() as int, self.walkers(), body));
            assert(self.carved() == old(self).carved() + connects_of(changes@));
        }
        changes
    }

    proof fn lemma_ready_alike(&self, maze: &Maze, other: &Maze) {
        maze.lemma_alike(*other);
        let nodes = self.nodes@;
        let colour = self.colour@;
        assert forall|w: int| 0 <= w < nodes.len() implies (#[trigger] nodes[w]).sound(*other) by {
            assert(nodes[w].sound(*maze));
        }
        assert forall|o: Offset| other.has(o) && #[trigger] colour(o) >= 0 implies spent(*other, colour, o) || awaited(nodes, o) by {
            if spent(*maze, colour, o) {
                assert forall|n: Offset| #[trigger] other.adjacent(o, n) implies colour(n) == colour(o) by {
                    assert(maze.adjacent(o, n));
                }
            }
        }
        assert(walking(nodes, *other, self.edges@, colour));
        lemma_rooted_alike(*maze, *other, self.edges@, colour, self.reached@, self.live@, self.starts@);
        assert(self.along(*other)) by {
            assert forall|k: int| 0 <= k < self.edges@.len() implies other.adjacent((#[trigger] self.edges@[k]).0, self.edges@[k].1) by {
                assert(maze.adjacent(self.edges@[k].0, self.edges@[k].1));
            }
        }
    }

    /// The number of walkers, `Threads`: at least one, at most one for every
    /// four cells of the maze, and ten unless told otherwise.
    fn options(maze: &Maze) -> (options: Vec<GeneratorOption>)
        ensures
            options@.len() == 1,
            options@[0].name@ == "Threads"@,
            options@[0].min == 1,
            options@[0].default == 10,
            options@[0].max == maze@.len() / 4,
    {
        let mut options: Vec<GeneratorOption> = Vec::new();
        options.push(GeneratorOption { min: 1, default: 10, max: maze.cells().len() / 4, name: "Threads" });
        options
    }
}

impl RecursiveDivision {
    /// Once the walkers are finished, every claimed cell has the colour of
    /// all its neighbours.
    proof fn lemma_finished_spent(self, maze: Maze, o: Offset)
        requires
            self.ready(&maze),
            self.finished(),
            maze.has(o),
            self.colour@(o) >= 0,
        ensures
            spent(maze, self.colour@, o),
    {
        if awaited(self.nodes@, o) {
            let w = choose|w: int| 0 <= w < self.nodes@.len() && (#[trigger] self.nodes@[w]).returns_to(o);
            assert(self.nodes@[w].done());
            assert(self.nodes@[w].sound(maze));
            assert(false);
        }
    }

    proof fn lemma_finished_along(self, maze: Maze, route: Seq<Offset>, k: int)
        requires
            self.ready(&maze),
            self.finished(),
            maze.has(route[0]),
            self.colour@(route[0]) >= 0,
            maze.chained(route),
            0 <= k < route.len(),
        ensures
            maze.has(route[k]),
            self.colour@(route[k]) == self.colour@(route[0]),
        decreases k,
    {
        if k > 0 {
            self.lemma_finished_along(maze, route, k - 1);
            self.lemma_finished_spent(maze, route[k - 1]);
            let from = route[k - 1];
            let to = route[k];
            assert(maze.adjacent(from, route[k - 1 + 1]));
            let s = choose|s: int| maze.leads(from, s, to);
            assert(maze.leads(from, s, to));
        }
    }

    /// Once the walkers are finished, the passages lead from every cell that
    /// a walker has claimed, such as the cell on which a walker started, to
    /// every cell that can be reached from it from cell to adjacent cell; and
    /// they hold no cycle.
    pub proof fn lemma_finished_reaches(self, maze: Maze, start: Offset, cell: Offset)
        requires
            self.ready(&maze),
            self.finished(),
            maze.has(start),
            self.claimed(start),
            maze.linked(start, cell),
        ensures
            forest(self.carved()),
            connected(self.carved(), start, cell),
    {
        let w = choose|w: int| 0 <= w < self.walkers().len() && (#[trigger] self.walkers()[w]).claims(start);
        assert(self.nodes@[w].claims(start));
        assert(self.colour@(start) == self.nodes@[w].region());
        let route = choose|route: Seq<Offset>| #[trigger] maze.chained(route) && route.first() == start && route.last() == cell;
        self.lemma_finished_along(maze, route, route.len() - 1);
        assert(cells_of(maze).contains(start) && cells_of(maze).contains(cell));
    }

    /// Once the walkers are finished on a maze in which one can get from
    /// every cell to every other, the passages are a tree that spans the
    /// maze: they connect all cells, hold no cycle, and are one fewer than
    /// the cells.
    pub proof fn lemma_finished_tree(self, maze: Maze, start: Offset)
        requires
            self.ready(&maze),
            self.finished(),
            maze.has(start),
            self.claimed(start),
            maze.whole(),
        ensures
            forest(self.carved()),
            spans(self.carved(), cells_of(maze)),
            self.carved().len() + 1 == maze@.len(),
    {
        let edges = self.carved();
        assert forall|a: Offset, b: Offset| cells_of(maze).contains(a) && cells_of(maze).contains(b) implies #[trigger] connected(edges, a, b) by {
            assert(maze.linked(start, a));
            assert(maze.linked(start, b));
            self.lemma_finished_reaches(maze, start, a);
            self.lemma_finished_reaches(maze, start, b);
            crate::graph::lemma_connected_back(edges, start, a);
            crate::graph::lemma_connected_on(edges, a, start, b);
        }
        lemma_tree_count(edges, cells_of(maze), self.colour@, self.palette@, maze@.len(), start);
    }
}

impl RecursiveDivision {
    /// Every passage opened runs between two cells of which the first has
    /// a side that leads to the second.
    pub proof fn lemma_carved_along(self, maze: Maze, k: int)
        requires
            self.ready(&maze),
            0 <= k < self.carved().len(),
        ensures
            maze.adjacent(self.carved()[k].0, self.carved()[k].1),
    {
    }
}

proof fn lemma_effort_of_alike(nodes: Seq<RecursiveDivisionNode>, maze: Maze, other: Maze, k: int)
    requires
        maze.wf(),
        other.wf(),
        maze.alike(other),
        0 <= k <= nodes.len(),
    ensures
        effort_of(nodes, maze, k) == effort_of(nodes, other, k),
    decreases k,
{
    if k > 0 {
        lemma_effort_of_alike(nodes, maze, other, k - 1);
        maze.lemma_alike(other);
        assert(claimed_cells(nodes[k - 1], maze) =~= claimed_cells(nodes[k - 1], other));
    }
}

impl RecursiveDivision {
    /// The walkers never have fewer ticks than none left, and while they
    /// have not finished they have one left at least. As every step of
    /// walkers that have not finished leaves them fewer, they finish after
    /// no more steps than they have ticks left: one walker on a maze of `n`
    /// cells, which starts with `2n - 1`, within `2n` steps.
    pub proof fn lemma_effort_left(self, maze: Maze)
        requires
            maze.wf(),
            self.ready(&maze),
        ensures
            self.effort(maze) >= 0,
            !self.finished() ==> self.effort(maze) >= 1,
    {
        lemma_effort_floor(self.nodes@, maze, self.nodes@.len() as int);
    }

    /// The ticks that the walkers have left do not depend on the walls of
    /// the maze.
    pub proof fn lemma_effort_alike(self, maze: Maze, other: Maze)
        requires
            maze.wf(),
            other.wf(),
            maze.alike(other),
        ensures
            self.effort(maze) == self.effort(other),
    {
        lemma_effort_of_alike(self.nodes@, maze, other, self.nodes@.len() as int);
    }
}

impl RecursiveDivision {
    /// Once the walkers are finished, where each of the cells on which they
    /// started can be reached from the first of them, as it can with one
    /// walker: the passages are a tree that spans the cells that can be
    /// reached from there, from cell to neighbour. They connect all those
    /// cells, run between them, hold no cycle, and are one fewer than they.
    pub proof fn lemma_finished_reached(self, maze: Maze)
        requires
            maze.wf(),
            self.ready(&maze),
            self.finished(),
            self.starts().len() > 0,
            forall|v: int| 0 <= v < self.starts().len() ==> maze.linked(self.starts()[0], #[trigger] self.starts()[v]),
        ensures
            forest(self.carved()),
            forall|o: Offset| #[trigger] maze.linked(self.starts()[0], o) ==> maze.has(o) && connected(self.carved(), self.starts()[0], o),
            forall|k: int|
                0 <= k < self.carved().len() ==> maze.linked(self.starts()[0], (#[trigger] self.carved()[k]).0) && maze.linked(
                    self.starts()[0],
                    self.carved()[k].1,
                ),
            Set::new(|o: Offset| maze.linked(self.starts()[0], o)).finite(),
            self.carved().len() + 1 == Set::new(|o: Offset| maze.linked(self.starts()[0], o)).len(),
    {
        reveal(rooted);
        let root = self.starts@[0];
        let colour = self.colour@;
        let reached = self.reached@;
        let live = self.live@;
        let edges = self.edges@;
        let reach = Set::new(|o: Offset| maze.linked(root, o));
        assert(numbered(self.starts@, 0));
        assert(reached.contains(root));
        assert(cells_of(maze).contains(root));
        assert forall|o: Offset| #[trigger] maze.linked(root, o) implies maze.has(o) && colour(o) == colour(root) && connected(edges, root, o) by {
            let route = choose|route: Seq<Offset>| #[trigger] maze.chained(route) && route.first() == root && route.last() == o;
            self.lemma_finished_along(maze, route, route.len() - 1);
            assert(cells_of(maze).contains(o));
        }
        assert forall|o: Offset| reached.contains(o) implies maze.linked(root, o) by {
            let v = choose|v: int| 0 <= v < self.starts@.len() && maze.linked(#[trigger] self.starts@[v], o);
            maze.lemma_linked_on(root, self.starts@[v], o);
        }
        assert(reach =~= reached);
        assert forall|c: int| live.contains(c) implies c == colour(root) by {
            let a = choose|a: Offset| reached.contains(a) && colour(a) == c;
            assert(maze.linked(root, a));
        }
        assert(live.contains(colour(root)));
        assert(live =~= set![colour(root)]);
        assert forall|k: int| 0 <= k < edges.len() implies maze.linked(root, (#[trigger] edges[k]).0) && maze.linked(root, edges[k].1) by {
            assert(reached.contains(edges[k].0) && reached.contains(edges[k].1));
        }
    }
}

} // verus!
