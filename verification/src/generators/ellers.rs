//! Eller's algorithm on any tiling: cells are taken in the order of the
//! lattice, and each is joined with cells that come after it, so that sets
//! of cells grow together until one tree spans the maze.

use crate::generators::{
    connects_of, lemma_connects_of_both, orderly, Generator, GeneratorOption, GeneratorUpdate, OptionValue,
};
use crate::graph::{
    blank, connected, counted, forest, lemma_blank_apart, lemma_connected_self, lemma_join, lemma_join_counted,
    lemma_tree_count, repainted, spans, tinted,
};
use crate::lattice::Offset;
use crate::maze::{cells_of, lemma_colours_counted, Adjacency, Maze};
use crate::random::{choose_index, toss};
use rand::rngs::ThreadRng;
use vstd::prelude::*;

verus! {

/// A side of a cell of a set that leads to a later cell outside the set.
#[derive(Clone, Copy, Debug, PartialEq, Eq, Structural)]
pub struct Passage {
    pub from: Offset,
    pub to: Offset,
}

/// The state of Eller's algorithm: the sets of cells that are still taken
/// as one, and the cells that have not had their turn, the first in the
/// order of the lattice at the end.
pub struct Ellers {
    rng: ThreadRng,
    sets: Vec<Vec<Offset>>,
    queue: Vec<Offset>,
    edges: Ghost<Seq<(Offset, Offset)>>,
    colour: Ghost<spec_fn(Offset) -> int>,
    palette: Ghost<Set<int>>,
}

/// Whether `cells` come in strictly descending order.
pub open spec fn descending(cells: Seq<Offset>) -> bool {
    forall|i: int, j: int| 0 <= i < j < cells.len() ==> (#[trigger] cells[j]).precedes(#[trigger] cells[i])
}

/// Whether `passage` leads from a cell of `set` to a later neighbour
/// outside of it.
pub open spec fn leaves(maze: Maze, set: Seq<Offset>, passage: Passage) -> bool {
    &&& set.contains(passage.from)
    &&& maze.adjacent(passage.from, passage.to)
    &&& passage.from.precedes(passage.to)
    &&& !set.contains(passage.to)
}

/// Whether `set` holds the cell at `o`.
fn holds(set: &Vec<Offset>, o: &Offset) -> (held: bool)
    ensures
        held == set@.contains(*o),
{
    let mut k: usize = 0;
    while k < set.len()
        invariant
            k <= set@.len(),
            forall|j: int| 0 <= j < k ==> set@[j] != *o,
        decreases set@.len() - k,
    {
        if set[k] == *o {
            return true;
        }
        k = k + 1;
    }
    false
}

/// The place of the set that holds the cell at `o`, if there is one.
fn find_set(sets: &Vec<Vec<Offset>>, o: &Offset) -> (found: Option<usize>)
    ensures
        found matches Some(i) ==> i < sets@.len() && sets@[i as int]@.contains(*o),
        found is None ==> forall|i: int| 0 <= i < sets@.len() ==> !(#[trigger] sets@[i])@.contains(*o),
{
    let mut i: usize = 0;
    while i < sets.len()
        invariant
            i <= sets@.len(),
            forall|j: int| 0 <= j < i ==> !(#[trigger] sets@[j])@.contains(*o),
        decreases sets@.len() - i,
    {
        if holds(&sets[i], o) {
            return Some(i);
        }
        i = i + 1;
    }
    None
}

/// Takes the cell at `o` out of `set`.
fn remove_member(set: &mut Vec<Offset>, o: &Offset)
    requires
        old(set)@.no_duplicates(),
    ensures
        final(set)@.no_duplicates(),
        !final(set)@.contains(*o),
        forall|x: Offset| x != *o ==> final(set)@.contains(x) == old(set)@.contains(x),
        final(set)@.len() == old(set)@.len() - (if old(set)@.contains(*o) { 1int } else { 0int }),
{
    let mut k: usize = 0;
    while k < set.len()
        invariant
            k <= set@.len(),
            set@ == old(set)@,
            set@.no_duplicates(),
            forall|j: int| 0 <= j < k ==> set@[j] != *o,
        decreases set@.len() - k,
    {
        if set[k] == *o {
            let ghost before = set@;
            set.remove(k);
            proof {
                assert forall|x: Offset| x != *o implies set@.contains(x) == before.contains(x) by {
                    if before.contains(x) {
                        let j = choose|j: int| 0 <= j < before.len() && before[j] == x;
                        if j < k {
                            assert(set@[j] == x);
                        } else {
                            assert(set@[j - 1] == x);
                        }
                    }
                    if set@.contains(x) {
                        let j = choose|j: int| 0 <= j < set@.len() && set@[j] == x;
                        if j < k {
                            assert(before[j] == x);
                        } else {
                            assert(before[j + 1] == x);
                        }
                    }
                }
                if set@.contains(*o) {
                    let j = choose|j: int| 0 <= j < set@.len() && set@[j] == *o;
                    if j < k {
                        assert(before[j] == *o);
                    } else {
                        assert(before[j + 1] == *o);
                        assert(before[k as int] == before[j + 1]);
                    }
                }
                assert forall|a: int, b: int| 0 <= a < set@.len() && 0 <= b < set@.len() && a != b implies set@[a] != set@[b] by {
                    let a0 = if a < k { a } else { a + 1 };
                    let b0 = if b < k { b } else { b + 1 };
                    assert(before[a0] != before[b0]);
                }
                assert(before.contains(*o)) by {
                    assert(before[k as int] == *o);
                }
            }
            return;
        }
        k = k + 1;
    }
}

/// The sides of the cells of `set` that lead to a later neighbour outside the
/// set, in the order of the cells they lead to.
fn get_neighbors(maze: &Maze, set: &Vec<Offset>) -> (found: Vec<Passage>)
    requires
        maze.wf(),
    ensures
        forall|k: int| 0 <= k < found@.len() ==> leaves(*maze, set@, #[trigger] found@[k]),
        forall|passage: Passage| leaves(*maze, set@, passage) ==> found@.contains(passage),
        forall|i: int, j: int| 0 <= i < j < found@.len() ==> !(#[trigger] found@[j]).to.precedes((#[trigger] found@[i]).to),
{
    let mut found: Vec<Passage> = Vec::new();
    let mut m: usize = 0;
    while m < set.len()
        invariant
            maze.wf(),
            m <= set@.len(),
            forall|k: int| 0 <= k < found@.len() ==> leaves(*maze, set@, #[trigger] found@[k]),
            forall|passage: Passage, i: int|
                #![trigger leaves(*maze, set@, passage), set@[i]]
                0 <= i < m && set@[i] == passage.from && leaves(*maze, set@, passage) ==> found@.contains(passage),
            forall|i: int, j: int| 0 <= i < j < found@.len() ==> !(#[trigger] found@[j]).to.precedes((#[trigger] found@[i]).to),
        decreases set@.len() - m,
    {
        let from = set[m];
        let around = maze.adjacencies(from);
        let mut k: usize = 0;
        while k < around.len()
            invariant
                maze.wf(),
                m < set@.len(),
                from == set@[m as int],
                k <= around@.len(),
                forall|j: int| 0 <= j < around@.len() ==> maze.leads(from, (#[trigger] around@[j]).index as int, around@[j].offset),
                forall|k: int| 0 <= k < found@.len() ==> leaves(*maze, set@, #[trigger] found@[k]),
                forall|passage: Passage, i: int|
                #![trigger leaves(*maze, set@, passage), set@[i]]
                0 <= i < m && set@[i] == passage.from && leaves(*maze, set@, passage) ==> found@.contains(passage),
                forall|j: int| 0 <= j < k && leaves(*maze, set@, Passage { from, to: (#[trigger] around@[j]).offset }) ==> found@.contains(Passage { from, to: around@[j].offset }),
                forall|i: int, j: int| 0 <= i < j < found@.len() ==> !(#[trigger] found@[j]).to.precedes((#[trigger] found@[i]).to),
            decreases around@.len() - k,
        {
            let to = around[k].offset;
            if from.before(&to) && !holds(set, &to) {
                let passage = Passage { from, to };
                let mut at: usize = found.len();
                while at > 0 && to.before(&found[at - 1].to)
                    invariant
                        at <= found@.len(),
                        forall|j: int| at <= j < found@.len() ==> to.precedes((#[trigger] found@[j]).to),
                    decreases at,
                {
                    at = at - 1;
                }
                let ghost before = found@;
                found.insert(at, passage);
                proof {
                    assert(set@.contains(from));
                    assert(leaves(*maze, set@, passage));
                    assert(found@[at as int] == passage);
                    assert forall|x: Passage| before.contains(x) implies found@.contains(x) by {
                        let j = choose|j: int| 0 <= j < before.len() && before[j] == x;
                        if j < at {
                            assert(found@[j] == x);
                        } else {
                            assert(found@[j + 1] == x);
                        }
                    }
                    assert forall|j: int| 0 <= j < found@.len() implies leaves(*maze, set@, #[trigger] found@[j]) by {
                        if j < at {
                            assert(found@[j] == before[j]);
                        } else if j > at {
                            assert(found@[j] == before[j - 1]);
                        }
                    }
                    assert forall|i: int, j: int| 0 <= i < j < found@.len() implies !(#[trigger] found@[j]).to.precedes((#[trigger] found@[i]).to) by {
                        let i0 = if i < at { i } else { i - 1 };
                        let j0 = if j < at { j } else { j - 1 };
                        if i == at {
                            assert(found@[j] == before[j - 1]);
                            assert(to.precedes(before[j - 1].to));
                        } else if j == at {
                            assert(found@[i] == before[i]);
                            if at > 0 {
                                assert(!to.precedes(before[at - 1].to));
                                if i < at - 1 {
                                    assert(!before[at - 1].to.precedes(before[i].to));
                                }
                            }
                        } else {
                            assert(found@[i] == before[i0]);
                            assert(found@[j] == before[j0]);
                            assert(!before[j0].to.precedes(before[i0].to));
                        }
                    }
                }
            }
            k = k + 1;
        }
        proof {
            assert forall|passage: Passage, i: int|
                #![trigger leaves(*maze, set@, passage), set@[i]]
                0 <= i < m + 1 && set@[i] == passage.from && leaves(*maze, set@, passage) implies found@.contains(passage) by {
                if i == m {
                    let s = choose|s: int| maze.leads(from, s, passage.to);
                    let wanted = Adjacency { index: s as usize, offset: passage.to };
                    assert(around@.contains(wanted));
                    let j = choose|j: int| 0 <= j < around@.len() && around@[j] == wanted;
                    assert(around@[j].offset == passage.to);
                }
            }
        }
        m = m + 1;
    }
    proof {
        assert forall|passage: Passage| leaves(*maze, set@, passage) implies found@.contains(passage) by {
            let i = choose|i: int| 0 <= i < set@.len() && set@[i] == passage.from;
            assert(set@[i] == passage.from);
        }
    }
    found
}

/// Whether set `i` holds the cell at `o`.
pub open spec fn member(sets: Seq<Vec<Offset>>, i: int, o: Offset) -> bool {
    0 <= i < sets.len() && sets[i]@.contains(o)
}

/// Whether some set holds the cell at `o`.
pub open spec fn grouped(sets: Seq<Vec<Offset>>, o: Offset) -> bool {
    exists|i: int| member(sets, i, o)
}

/// Whether the cell at `o` is a tree by itself: it has its blank colour, and
/// no other cell of the maze has that colour.
pub open spec fn lone(maze: Maze, colour: spec_fn(Offset) -> int, o: Offset) -> bool {
    &&& colour(o) == blank(o)
    &&& forall|p: Offset| maze.has(p) && p != o ==> #[trigger] colour(p) != blank(o)
}

/// Whether some cell of some set has the colour of the cell at `p`.
pub open spec fn shared(sets: Seq<Vec<Offset>>, colour: spec_fn(Offset) -> int, p: Offset) -> bool {
    exists|i: int, m: Offset| member(sets, i, m) && colour(m) == colour(p)
}

/// What holds of the sets, the queue and the passages at all times: the
/// queue holds the cells that have not had their turn, the last cells of the
/// lattice order, in descending order; the sets hold cells of the queue,
/// and two such cells have one colour exactly when one set holds both; a
/// cell of the queue that no set holds is a tree by itself; and the colours
/// tell the trees of the passages apart.
pub open spec fn ordered(
    sets: Seq<Vec<Offset>>,
    queue: Seq<Offset>,
    maze: Maze,
    edges: Seq<(Offset, Offset)>,
    colour: spec_fn(Offset) -> int,
    palette: Set<int>,
) -> bool {
    &&& descending(queue)
    &&& forall|k: int| 0 <= k < queue.len() ==> maze.has(#[trigger] queue[k])
    &&& forall|o: Offset, q: Offset| maze.has(o) && !queue.contains(o) && #[trigger] queue.contains(q) ==> #[trigger] o.precedes(q)
    &&& forall|i: int| 0 <= i < sets.len() ==> (#[trigger] sets[i])@.no_duplicates()
    &&& forall|i: int, o: Offset| #[trigger] member(sets, i, o) ==> queue.contains(o)
    &&& forall|i: int, j: int, a: Offset, b: Offset|
        #[trigger] member(sets, i, a) && #[trigger] member(sets, j, b) ==> ((i == j) <==> colour(a) == colour(b))
    &&& forall|o: Offset| #[trigger] queue.contains(o) && !grouped(sets, o) ==> lone(maze, colour, o)
    &&& tinted(edges, cells_of(maze), colour)
    &&& counted(edges, cells_of(maze), colour, palette, maze@.len())
    &&& forall|k: int| 0 <= k < edges.len() ==> maze.adjacent((#[trigger] edges[k]).0, edges[k].1) && edges[k].0.precedes(edges[k].1)
}

/// What holds between two turns: no set is empty; and in a maze in which
/// every cell but the last has a later neighbour, every cell that has had
/// its turn shares its colour with a cell of some set, until, when no cell
/// is left, all cells have one colour.
pub open spec fn resting(
    sets: Seq<Vec<Offset>>,
    queue: Seq<Offset>,
    maze: Maze,
    edges: Seq<(Offset, Offset)>,
    colour: spec_fn(Offset) -> int,
    palette: Set<int>,
) -> bool {
    &&& ordered(sets, queue, maze, edges, colour, palette)
    &&& forall|i: int| 0 <= i < sets.len() ==> (#[trigger] sets[i])@.len() > 0
    &&& maze.forward() && queue.len() > 0 ==> forall|p: Offset| #[trigger] maze.has(p) && !queue.contains(p) ==> shared(sets, colour, p)
    &&& maze.forward() && queue.len() == 0 ==> forall|a: Offset, b: Offset|
        #![trigger colour(a), colour(b)]
        maze.has(a) && maze.has(b) ==> colour(a) == colour(b)
}

/// What holds during the turn of the cell at `cell`, of which set `cur`
/// was the set: the cell has left the queue and its set, which may be
/// empty now, and the cells of that set, and of no other, have its colour.
pub open spec fn turning(
    sets: Seq<Vec<Offset>>,
    queue: Seq<Offset>,
    maze: Maze,
    edges: Seq<(Offset, Offset)>,
    colour: spec_fn(Offset) -> int,
    palette: Set<int>,
    cur: int,
    cell: Offset,
) -> bool {
    &&& ordered(sets, queue, maze, edges, colour, palette)
    &&& 0 <= cur < sets.len()
    &&& forall|i: int| 0 <= i < sets.len() && i != cur ==> (#[trigger] sets[i])@.len() > 0
    &&& maze.has(cell)
    &&& !queue.contains(cell)
    &&& forall|i: int, m: Offset| #[trigger] member(sets, i, m) ==> ((i == cur) <==> colour(m) == colour(cell))
    &&& maze.forward() ==> forall|p: Offset| #[trigger] maze.has(p) && !queue.contains(p) ==> shared(sets, colour, p) || colour(p) == colour(cell)
}

/// Whether `passage` can be taken during a turn: it leads from a cell that
/// has the colour of the turn to a neighbour that waits in the queue.
pub open spec fn open_to(maze: Maze, queue: Seq<Offset>, colour: spec_fn(Offset) -> int, cell: Offset, passage: Passage) -> bool {
    &&& maze.has(passage.from)
    &&& colour(passage.from) == colour(cell)
    &&& maze.adjacent(passage.from, passage.to)
    &&& passage.from.precedes(passage.to)
    &&& queue.contains(passage.to)
}

/// A queue in descending order holds no cell twice, and its last cell
/// comes before all others.
proof fn lemma_descending_last(queue: Seq<Offset>)
    requires
        descending(queue),
        queue.len() > 0,
    ensures
        !queue.drop_last().contains(queue.last()),
        descending(queue.drop_last()),
        forall|q: Offset| queue.drop_last().contains(q) ==> queue.last().precedes(q),
        forall|q: Offset| queue.contains(q) <==> queue.drop_last().contains(q) || q == queue.last(),
{
    let rest = queue.drop_last();
    let last = queue.len() - 1;
    assert forall|q: Offset| rest.contains(q) implies queue.last().precedes(q) by {
        let k = choose|k: int| 0 <= k < rest.len() && rest[k] == q;
        assert(queue[k] == q);
        assert(queue[last].precedes(queue[k]));
    }
    assert forall|i: int, j: int| 0 <= i < j < rest.len() implies (#[trigger] rest[j]).precedes(#[trigger] rest[i]) by {
        assert(queue[j].precedes(queue[i]));
    }
    assert forall|q: Offset| queue.contains(q) <==> rest.contains(q) || q == queue.last() by {
        if queue.contains(q) {
            let k = choose|k: int| 0 <= k < queue.len() && queue[k] == q;
            if k < last {
                assert(rest[k] == q);
            }
        }
        if rest.contains(q) {
            let k = choose|k: int| 0 <= k < rest.len() && rest[k] == q;
            assert(queue[k] == q);
        }
        if q == queue.last() {
            assert(queue[last] == q);
        }
    }
}

/// The turn of the last cell of the queue begins: the cell leaves the
/// queue and its set, or, where no set held it, gets an empty set.
proof fn lemma_turn_begins(
    before: Seq<Vec<Offset>>,
    sets: Seq<Vec<Offset>>,
    waiting: Seq<Offset>,
    maze: Maze,
    edges: Seq<(Offset, Offset)>,
    colour: spec_fn(Offset) -> int,
    palette: Set<int>,
    cur: int,
)
    requires
        resting(before, waiting, maze, edges, colour, palette),
        waiting.len() > 0,
        grouped(before, waiting.last()) ==> member(before, cur, waiting.last()) && sets.len() == before.len(),
        !grouped(before, waiting.last()) ==> cur == before.len() && sets.len() == before.len() + 1,
        forall|i: int| 0 <= i < before.len() && i != cur ==> #[trigger] sets[i] == before[i],
        sets[cur]@.no_duplicates(),
        forall|x: Offset| sets[cur]@.contains(x) <==> x != waiting.last() && member(before, cur, x),
    ensures
        turning(sets, waiting.drop_last(), maze, edges, colour, palette, cur, waiting.last()),
{
    let cell = waiting.last();
    let queue = waiting.drop_last();
    lemma_descending_last(waiting);
    assert(maze.has(waiting[waiting.len() - 1]));
    assert(waiting.contains(cell));
    assert forall|i: int, o: Offset| #[trigger] member(sets, i, o) implies member(before, i, o) && o != cell by {
        if i != cur {
            assert(0 <= i < before.len());
            assert(sets[i] == before[i]);
            assert(member(before, i, o));
            if o == cell {
                assert(grouped(before, cell));
                assert(member(before, cur, cell));
            }
        } else {
            assert(sets[cur]@.contains(o));
        }
    }
    assert forall|k: int| 0 <= k < queue.len() implies maze.has(#[trigger] queue[k]) by {
        assert(queue[k] == waiting[k]);
    }
    assert forall|o: Offset, q: Offset| maze.has(o) && !queue.contains(o) && #[trigger] queue.contains(q) implies #[trigger] o.precedes(q) by {
        assert(waiting.contains(q));
    }
    assert forall|i: int| 0 <= i < sets.len() implies (#[trigger] sets[i])@.no_duplicates() by {
        if i != cur {
            assert(sets[i] == before[i]);
        }
    }
    assert forall|i: int, o: Offset| #[trigger] member(sets, i, o) implies queue.contains(o) by {
        assert(member(before, i, o));
    }
    assert forall|i: int, j: int, a: Offset, b: Offset| #[trigger] member(sets, i, a) && #[trigger] member(sets, j, b) implies ((i == j)
        <==> colour(a) == colour(b)) by {
        assert(member(before, i, a) && member(before, j, b));
    }
    assert forall|o: Offset| #[trigger] queue.contains(o) && !grouped(sets, o) implies lone(maze, colour, o) by {
        assert(waiting.contains(o));
        if grouped(before, o) {
            let i = choose|i: int| member(before, i, o);
            if i != cur {
                assert(sets[i] == before[i]);
            }
            assert(member(sets, i, o));
        }
    }
    assert forall|i: int| 0 <= i < sets.len() && i != cur implies (#[trigger] sets[i])@.len() > 0 by {
        assert(sets[i] == before[i]);
    }
    assert forall|i: int, m: Offset| #[trigger] member(sets, i, m) implies ((i == cur) <==> colour(m) == colour(cell)) by {
        assert(member(before, i, m) && m != cell);
        if grouped(before, cell) {
            assert(member(before, cur, cell));
        } else {
            assert(lone(maze, colour, cell));
            assert(waiting.contains(m));
            assert(i != cur);
        }
    }
    if maze.forward() {
        assert forall|p: Offset| #[trigger] maze.has(p) && !queue.contains(p) implies shared(sets, colour, p) || colour(p) == colour(cell) by {
            if p != cell {
                assert(!waiting.contains(p));
                assert(shared(before, colour, p));
                let (i, m) = choose|i: int, m: Offset| member(before, i, m) && colour(m) == colour(p);
                if m != cell {
                    if i != cur {
                        assert(sets[i] == before[i]);
                    }
                    assert(member(sets, i, m));
                }
            }
        }
    }
}

/// The passages that leave the set of a cell, taken before the cell left
/// it, can be taken during the turn of the cell.
proof fn lemma_candidates_open(
    before: Seq<Vec<Offset>>,
    sets: Seq<Vec<Offset>>,
    waiting: Seq<Offset>,
    maze: Maze,
    edges: Seq<(Offset, Offset)>,
    colour: spec_fn(Offset) -> int,
    palette: Set<int>,
    cur: int,
    set: Seq<Offset>,
    passage: Passage,
)
    requires
        resting(before, waiting, maze, edges, colour, palette),
        waiting.len() > 0,
        forall|x: Offset| set.contains(x) <==> x == waiting.last() || member(before, cur, x),
        grouped(before, waiting.last()) ==> member(before, cur, waiting.last()),
        !grouped(before, waiting.last()) ==> cur == before.len(),
        leaves(maze, set, passage),
    ensures
        open_to(maze, waiting.drop_last(), colour, waiting.last(), passage),
{
    let cell = waiting.last();
    lemma_descending_last(waiting);
    assert(maze.has(waiting[waiting.len() - 1]));
    assert(waiting.contains(cell));
    let s = choose|s: int| maze.leads(passage.from, s, passage.to);
    assert(maze.has(passage.to));
    assert(waiting.contains(passage.from) && colour(passage.from) == colour(cell)) by {
        if passage.from != cell {
            assert(member(before, cur, passage.from));
            if grouped(before, cell) {
                assert(member(before, cur, cell));
            }
        }
    }
    if !waiting.contains(passage.to) {
        assert(passage.to.precedes(passage.from));
    }
}

/// Whether the cell at `x` is the cell at `to` or shares a set with it.
pub open spec fn beside(sets: Seq<Vec<Offset>>, to: Offset, x: Offset) -> bool {
    x == to || exists|i: int| member(sets, i, to) && member(sets, i, x)
}

/// During a turn, a cell of the queue outside the set of the turn has not
/// the colour of the turn; and a cell of the queue has the colour of such a
/// cell only if it is that cell or shares a set with it.
proof fn lemma_colours_apart(
    sets: Seq<Vec<Offset>>,
    queue: Seq<Offset>,
    maze: Maze,
    edges: Seq<(Offset, Offset)>,
    colour: spec_fn(Offset) -> int,
    palette: Set<int>,
    cur: int,
    cell: Offset,
    to: Offset,
)
    requires
        turning(sets, queue, maze, edges, colour, palette, cur, cell),
        queue.contains(to),
        !member(sets, cur, to),
    ensures
        colour(to) != colour(cell),
        forall|x: Offset| #[trigger] queue.contains(x) && colour(x) == colour(to) ==> beside(sets, to, x),
{
    let k = choose|k: int| 0 <= k < queue.len() && queue[k] == to;
    assert(maze.has(queue[k]));
    if grouped(sets, to) {
        let j = choose|j: int| member(sets, j, to);
        assert(member(sets, j, to));
    } else {
        assert(lone(maze, colour, to));
    }
    assert forall|x: Offset| #[trigger] queue.contains(x) && colour(x) == colour(to) implies beside(sets, to, x) by {
        let n = choose|n: int| 0 <= n < queue.len() && queue[n] == x;
        assert(maze.has(queue[n]));
        if x != to {
            if grouped(sets, x) {
                let i = choose|i: int| member(sets, i, x);
                if grouped(sets, to) {
                    let j = choose|j: int| member(sets, j, to);
                    assert(member(sets, i, x) && member(sets, j, to));
                    assert(i == j);
                } else {
                    assert(lone(maze, colour, to));
                }
            } else {
                assert(lone(maze, colour, x));
                lemma_blank_apart(x, to);
                if !grouped(sets, to) {
                    assert(lone(maze, colour, to));
                }
            }
        }
    }
}

/// A passage taken during a turn joins the tree of the turn with the tree
/// of the cell it leads to. The cells beside that cell come into the set
/// of the turn, and what holds during a turn goes on to hold.
proof fn lemma_merged(
    sets: Seq<Vec<Offset>>,
    after: Seq<Vec<Offset>>,
    queue: Seq<Offset>,
    maze: Maze,
    edges: Seq<(Offset, Offset)>,
    colour: spec_fn(Offset) -> int,
    palette: Set<int>,
    cur: int,
    next: int,
    back: spec_fn(int) -> int,
    cell: Offset,
    passage: Passage,
)
    requires
        turning(sets, queue, maze, edges, colour, palette, cur, cell),
        open_to(maze, queue, colour, cell, passage),
        !member(sets, cur, passage.to),
        0 <= next < after.len(),
        forall|i: int| 0 <= i < after.len() && i != next ==> {
            &&& 0 <= #[trigger] back(i) < sets.len()
            &&& back(i) != cur
            &&& after[i] == sets[back(i)]
            &&& !member(sets, back(i), passage.to)
        },
        forall|i: int, k: int| 0 <= i < after.len() && 0 <= k < after.len() && i != next && k != next && i != k ==> #[trigger] back(i) != #[trigger] back(k),
        forall|i: int| 0 <= i < sets.len() && i != cur && !member(sets, i, passage.to) ==> exists|n: int| 0 <= n < after.len() && n != next && #[trigger] back(n) == i,
        after[next]@.no_duplicates(),
        forall|x: Offset|
            #![trigger after[next]@.contains(x)]
            #![trigger beside(sets, passage.to, x)]
            #![trigger member(sets, cur, x)]
            after[next]@.contains(x) <==> member(sets, cur, x) || beside(sets, passage.to, x),
    ensures
        colour(passage.to) != colour(cell),
        turning(
            after,
            queue,
            maze,
            edges.push((passage.from, passage.to)),
            repainted(colour, colour(passage.to), colour(cell)),
            palette.remove(colour(passage.to)),
            next,
            cell,
        ),
{
    let to = passage.to;
    let gone = colour(to);
    let kept = colour(cell);
    let paint = repainted(colour, gone, kept);
    let more = edges.push((passage.from, to));
    lemma_colours_apart(sets, queue, maze, edges, colour, palette, cur, cell, to);
    let s = choose|s: int| maze.leads(passage.from, s, to);
    assert(maze.has(to));
    lemma_join(edges, cells_of(maze), colour, passage.from, to, gone, kept);
    lemma_join_counted(edges, cells_of(maze), colour, palette, maze@.len(), passage.from, to, gone, kept);
    assert forall|k: int| 0 <= k < more.len() implies maze.adjacent((#[trigger] more[k]).0, more[k].1) && more[k].0.precedes(more[k].1) by {
        if k < edges.len() {
            assert(more[k] == edges[k]);
        }
    }
    // what the cells of the sets after the merge were before it
    assert forall|i: int, m: Offset| #[trigger] member(after, i, m) implies queue.contains(m) && (if i == next {
        paint(m) == kept
    } else {
        member(sets, back(i), m) && paint(m) == colour(m) && colour(m) != kept
    }) by {
        if i == next {
            assert(after[next]@.contains(m));
            if member(sets, cur, m) {
            } else if m != to {
                let j = choose|j: int| member(sets, j, to) && member(sets, j, m);
                assert(member(sets, j, to) && member(sets, j, m));
            }
        } else {
            assert(after[i] == sets[back(i)]);
            assert(member(sets, back(i), m));
            if colour(m) == gone {
                assert(beside(sets, to, m));
                if m != to {
                    let j = choose|j: int| member(sets, j, to) && member(sets, j, m);
                    assert(member(sets, j, m) && member(sets, back(i), m));
                }
            }
        }
    }
    assert forall|i: int| 0 <= i < after.len() implies (#[trigger] after[i])@.no_duplicates() by {
        if i != next {
            assert(after[i] == sets[back(i)]);
        }
    }
    assert forall|i: int, j: int, a: Offset, b: Offset| #[trigger] member(after, i, a) && #[trigger] member(after, j, b) implies ((i == j)
        <==> paint(a) == paint(b)) by {
        if i != next && j != next {
            assert(member(sets, back(i), a) && member(sets, back(j), b));
        }
    }
    assert forall|o: Offset| #[trigger] queue.contains(o) && !grouped(after, o) implies lone(maze, paint, o) by {
        let n = choose|n: int| 0 <= n < queue.len() && queue[n] == o;
        assert(maze.has(queue[n]));
        assert(!after[next]@.contains(o)) by {
            if after[next]@.contains(o) {
                assert(member(after, next, o));
            }
        }
        if grouped(sets, o) {
            let i = choose|i: int| member(sets, i, o);
            assert(i != cur);
            assert(!member(sets, i, to)) by {
                if member(sets, i, to) {
                    assert(member(sets, i, to) && member(sets, i, o));
                    assert(beside(sets, to, o));
                    assert(after[next]@.contains(o));
                }
            }
            let n = choose|n: int| 0 <= n < after.len() && n != next && #[trigger] back(n) == i;
            assert(after[n] == sets[back(n)]);
            assert(member(after, n, o));
        }
        assert(lone(maze, colour, o));
        assert(colour(o) != gone) by {
            if colour(o) == gone {
                assert(beside(sets, to, o));
            }
        }
        assert forall|p: Offset| maze.has(p) && p != o implies #[trigger] paint(p) != blank(o) by {
            assert(colour(p) != blank(o));
            assert(colour(cell) != blank(o));
        }
    }
    assert forall|i: int| 0 <= i < after.len() && i != next implies (#[trigger] after[i])@.len() > 0 by {
        assert(after[i] == sets[back(i)]);
    }
    assert forall|i: int, m: Offset| #[trigger] member(after, i, m) implies ((i == next) <==> paint(m) == paint(cell)) by {}
    if maze.forward() {
        assert forall|p: Offset| #[trigger] maze.has(p) && !queue.contains(p) implies shared(after, paint, p) || paint(p) == paint(cell) by {
            if colour(p) != kept && colour(p) != gone {
                assert(shared(sets, colour, p));
                let (i, m) = choose|i: int, m: Offset| member(sets, i, m) && colour(m) == colour(p);
                assert(i != cur);
                assert(!member(sets, i, to));
                let n = choose|n: int| 0 <= n < after.len() && n != next && #[trigger] back(n) == i;
                assert(after[n] == sets[back(n)]);
                assert(member(after, n, m));
            }
        }
    }
}

/// The turn of a cell ends: its set, if it is empty, is dropped. In a maze
/// in which every cell but the last has a later neighbour, the set is not
/// empty while cells are left.
proof fn lemma_turn_ends(
    sets: Seq<Vec<Offset>>,
    after: Seq<Vec<Offset>>,
    queue: Seq<Offset>,
    maze: Maze,
    edges: Seq<(Offset, Offset)>,
    colour: spec_fn(Offset) -> int,
    palette: Set<int>,
    cur: int,
    cell: Offset,
)
    requires
        turning(sets, queue, maze, edges, colour, palette, cur, cell),
        maze.forward() && queue.len() > 0 ==> sets[cur]@.len() > 0,
        sets[cur]@.len() > 0 ==> after == sets,
        sets[cur]@.len() == 0 ==> after == sets.remove(cur),
    ensures
        resting(after, queue, maze, edges, colour, palette),
{
    if sets[cur]@.len() > 0 {
        let first = sets[cur]@[0];
        assert(member(sets, cur, first));
        if maze.forward() {
            assert forall|p: Offset| #[trigger] maze.has(p) && !queue.contains(p) implies shared(sets, colour, p) by {}
        }
    } else {
        assert forall|i: int, m: Offset| #[trigger] member(after, i, m) implies member(sets, if i < cur { i } else { i + 1 }, m) by {
            assert(after[i] == sets[if i < cur { i } else { i + 1 }]);
        }
        assert forall|i: int, m: Offset| #[trigger] member(sets, i, m) implies member(after, if i < cur { i } else { i - 1 }, m) by {
            assert(i != cur);
            assert(after[if i < cur { i } else { i - 1 }] == sets[i]);
        }
        assert forall|i: int| 0 <= i < after.len() implies (#[trigger] after[i])@.no_duplicates() && after[i]@.len() > 0 by {
            assert(after[i] == sets[if i < cur { i } else { i + 1 }]);
        }
        assert forall|i: int, j: int, a: Offset, b: Offset| #[trigger] member(after, i, a) && #[trigger] member(after, j, b) implies ((i == j)
            <==> colour(a) == colour(b)) by {
            assert(member(sets, if i < cur { i } else { i + 1 }, a));
            assert(member(sets, if j < cur { j } else { j + 1 }, b));
        }
        assert forall|o: Offset| #[trigger] queue.contains(o) && !grouped(after, o) implies lone(maze, colour, o) by {
            if grouped(sets, o) {
                let i = choose|i: int| member(sets, i, o);
                assert(member(after, if i < cur { i } else { i - 1 }, o));
            }
        }
        if maze.forward() {
            assert(queue.len() == 0);
            assert forall|p: Offset| maze.has(p) implies colour(p) == colour(cell) by {
                if shared(sets, colour, p) {
                    let (i, m) = choose|i: int, m: Offset| member(sets, i, m) && colour(m) == colour(p);
                    assert(queue.contains(m));
                }
            }
        }
    }
}

/// The passages that leave a set that is taken into the set of the turn
/// can be taken during the turn.
proof fn lemma_more_open(
    sets: Seq<Vec<Offset>>,
    queue: Seq<Offset>,
    maze: Maze,
    edges: Seq<(Offset, Offset)>,
    colour: spec_fn(Offset) -> int,
    palette: Set<int>,
    cur: int,
    cell: Offset,
    j: int,
    to: Offset,
    passage: Passage,
)
    requires
        turning(sets, queue, maze, edges, colour, palette, cur, cell),
        member(sets, j, to),
        j != cur,
        leaves(maze, sets[j]@, passage),
    ensures
        open_to(maze, queue, repainted(colour, colour(to), colour(cell)), cell, passage),
{
    assert(member(sets, j, passage.from));
    assert(queue.contains(passage.from));
    let k = choose|k: int| 0 <= k < queue.len() && queue[k] == passage.from;
    assert(maze.has(queue[k]));
    let s = choose|s: int| maze.leads(passage.from, s, passage.to);
    assert(maze.has(passage.to));
    if !queue.contains(passage.to) {
        assert(passage.to.precedes(passage.from));
    }
}

/// The passages of a run of updates with one more passage at its end.
proof fn lemma_connects_of_more(updates: Seq<GeneratorUpdate>, a: Offset, b: Offset)
    ensures
        connects_of(updates.push(GeneratorUpdate::Connect(a, b))) == connects_of(updates).push((a, b)),
{
    let more = updates.push(GeneratorUpdate::Connect(a, b));
    assert(more.drop_last() =~= updates);
    assert(more.last() == GeneratorUpdate::Connect(a, b));
}

/// The set of the cell at `cell` as its turn begins: the set that holds it,
/// or, where none does, the cell alone.
pub open spec fn own_set(sets: Seq<Vec<Offset>>, cell: Offset) -> Seq<Offset> {
    if grouped(sets, cell) {
        sets[choose|i: int| member(sets, i, cell)]@
    } else {
        seq![cell]
    }
}

/// Whether update `k` of `connects` opens a passage that leaves `set`.
pub open spec fn opens_from(maze: Maze, set: Seq<Offset>, connects: Seq<GeneratorUpdate>, k: int) -> bool {
    0 <= k < connects.len() && match connects[k] {
        GeneratorUpdate::Connect(a, b) => leaves(maze, set, Passage { from: a, to: b }),
        _ => false,
    }
}

impl Ellers {
    /// Takes the set `j`, which holds the cell that `passage` leads to,
    /// into the set of the turn, and lists the passages that leave it.
    fn absorb(&mut self, maze: &Maze, cur: usize, j: usize, Ghost(cell): Ghost<Offset>, passage: Passage, pending: &mut Vec<Passage>) -> (next: usize)
        requires
            maze.wf(),
            turning(old(self).sets@, old(self).queue@, *maze, old(self).edges@, old(self).colour@, old(self).palette@, cur as int, cell),
            open_to(*maze, old(self).queue@, old(self).colour@, cell, passage),
            member(old(self).sets@, j as int, passage.to),
            j != cur,
            forall|k: int| 0 <= k < old(pending)@.len() ==> open_to(*maze, old(self).queue@, old(self).colour@, cell, #[trigger] old(pending)@[k]),
        ensures
            turning(final(self).sets@, final(self).queue@, *maze, final(self).edges@, final(self).colour@, final(self).palette@, next as int, cell),
            final(self).queue@ == old(self).queue@,
            final(self).edges@ == old(self).edges@.push((passage.from, passage.to)),
            final(self).sets@.len() < old(self).sets@.len(),
            final(self).sets@[next as int]@.len() > 0,
            forall|k: int| 0 <= k < final(pending)@.len() ==> open_to(*maze, final(self).queue@, final(self).colour@, cell, #[trigger] final(pending)@[k]),
            final(pending)@.len() >= old(pending)@.len(),
            forall|k: int| 0 <= k < old(pending)@.len() ==> final(pending)@[k] == old(pending)@[k],
    {
        let ghost sets = self.sets@;
        let ghost edges = self.edges@;
        let ghost colour = self.colour@;
        let ghost palette = self.palette@;
        let ghost was = cur as int;
        let ghost so_far = pending@;
        let ghost back = |i: int| if i < j { i } else { i + 1 };
        proof {
            assert(!member(sets, was, passage.to)) by {
                if member(sets, was, passage.to) {
                    assert(member(sets, was, passage.to) && member(sets, j as int, passage.to));
                }
            }
        }
        let mut removed = self.sets.remove(j);
        let next = if j < cur { cur - 1 } else { cur };
        let mut more = get_neighbors(maze, &removed);
        let ghost added = more@;
        pending.append(&mut more);
        self.sets[next].append(&mut removed);
        proof {
            assert(sets[j as int]@.no_duplicates() && sets[was]@.no_duplicates());
            assert(sets[j as int]@.len() > 0);
            assert forall|x: Offset| beside(sets, passage.to, x) <==> member(sets, j as int, x) by {
                if beside(sets, passage.to, x) && x != passage.to {
                    let i = choose|i: int| member(sets, i, passage.to) && member(sets, i, x);
                    assert(member(sets, i, passage.to) && member(sets, j as int, passage.to));
                }
            }
            let both = sets[was]@ + sets[j as int]@;
            assert(self.sets@[next as int]@ =~= both);
            assert forall|x: Offset|
                #![trigger self.sets@[next as int]@.contains(x)]
                #![trigger beside(sets, passage.to, x)]
                #![trigger member(sets, was, x)]
                self.sets@[next as int]@.contains(x) <==> member(sets, was, x) || beside(sets, passage.to, x) by {
                if both.contains(x) {
                    let k = choose|k: int| 0 <= k < both.len() && both[k] == x;
                    if k < sets[was]@.len() {
                        assert(sets[was]@[k] == x);
                    } else {
                        assert(sets[j as int]@[k - sets[was]@.len()] == x);
                    }
                }
                if member(sets, was, x) {
                    let k = choose|k: int| 0 <= k < sets[was]@.len() && sets[was]@[k] == x;
                    assert(both[k] == x);
                }
                if member(sets, j as int, x) {
                    let k = choose|k: int| 0 <= k < sets[j as int]@.len() && sets[j as int]@[k] == x;
                    assert(both[sets[was]@.len() + k] == x);
                }
            }
            assert(both.no_duplicates()) by {
                assert forall|a: int, b: int| 0 <= a < both.len() && 0 <= b < both.len() && a != b implies both[a] != both[b] by {
                    let n = sets[was]@.len() as int;
                    if a < n && b < n {
                        assert(sets[was]@[a] != sets[was]@[b]);
                    } else if a >= n && b >= n {
                        assert(sets[j as int]@[a - n] != sets[j as int]@[b - n]);
                    } else {
                        let low = if a < n { a } else { b };
                        let high = if a < n { b } else { a };
                        assert(member(sets, was, sets[was]@[low]));
                        assert(member(sets, j as int, sets[j as int]@[high - n]));
                    }
                }
            }
            assert forall|i: int| 0 <= i < self.sets@.len() && i != next implies {
                &&& 0 <= #[trigger] back(i) < sets.len()
                &&& back(i) != was
                &&& self.sets@[i] == sets[back(i)]
                &&& !member(sets, back(i), passage.to)
            } by {
                if member(sets, back(i), passage.to) {
                    assert(member(sets, j as int, passage.to));
                }
            }
            assert forall|i: int| 0 <= i < sets.len() && i != was && !member(sets, i, passage.to) implies exists|n: int|
                0 <= n < self.sets@.len() && n != next && #[trigger] back(n) == i by {
                let n = if i < j { i } else { i - 1 };
                assert(back(n) == i);
            }
            lemma_merged(sets, self.sets@, self.queue@, *maze, edges, colour, palette, was, next as int, back, cell, passage);
            self.edges@ = edges.push((passage.from, passage.to));
            self.colour@ = repainted(colour, colour(passage.to), colour(cell));
            self.palette@ = palette.remove(colour(passage.to));
            assert forall|k: int| 0 <= k < pending@.len() implies open_to(*maze, self.queue@, self.colour@, cell, #[trigger] pending@[k]) by {
                if k < so_far.len() {
                    assert(pending@[k] == so_far[k]);
                    assert(open_to(*maze, self.queue@, colour, cell, so_far[k]));
                } else {
                    assert(pending@[k] == added[k - so_far.len()]);
                    lemma_more_open(sets, self.queue@, *maze, edges, colour, palette, was, cell, j as int, passage.to, added[k - so_far.len()]);
                }
            }
        }
        next
    }

    /// Takes the cell that `passage` leads to, which no set holds, into the
    /// set of the turn.
    fn adopt(&mut self, maze: &Maze, cur: usize, Ghost(cell): Ghost<Offset>, passage: Passage, Ghost(pending): Ghost<Seq<Passage>>)
        requires
            maze.wf(),
            turning(old(self).sets@, old(self).queue@, *maze, old(self).edges@, old(self).colour@, old(self).palette@, cur as int, cell),
            open_to(*maze, old(self).queue@, old(self).colour@, cell, passage),
            !grouped(old(self).sets@, passage.to),
            forall|k: int| 0 <= k < pending.len() ==> open_to(*maze, old(self).queue@, old(self).colour@, cell, #[trigger] pending[k]),
        ensures
            turning(final(self).sets@, final(self).queue@, *maze, final(self).edges@, final(self).colour@, final(self).palette@, cur as int, cell),
            final(self).queue@ == old(self).queue@,
            final(self).edges@ == old(self).edges@.push((passage.from, passage.to)),
            final(self).sets@.len() == old(self).sets@.len(),
            final(self).sets@[cur as int]@.len() > 0,
            forall|k: int| 0 <= k < pending.len() ==> open_to(*maze, final(self).queue@, final(self).colour@, cell, #[trigger] pending[k]),
    {
        let ghost sets = self.sets@;
        let ghost edges = self.edges@;
        let ghost colour = self.colour@;
        let ghost palette = self.palette@;
        let ghost was = cur as int;
        let ghost back = |i: int| i;
        proof {
            assert(!member(sets, was, passage.to));
        }
        self.sets[cur].push(passage.to);
        proof {
            assert forall|x: Offset| beside(sets, passage.to, x) <==> x == passage.to by {
                if beside(sets, passage.to, x) && x != passage.to {
                    let i = choose|i: int| member(sets, i, passage.to) && member(sets, i, x);
                    assert(member(sets, i, passage.to));
                }
            }
            let longer = sets[was]@.push(passage.to);
            assert(self.sets@[was]@ =~= longer);
            assert forall|x: Offset|
                #![trigger self.sets@[was]@.contains(x)]
                #![trigger beside(sets, passage.to, x)]
                #![trigger member(sets, was, x)]
                self.sets@[was]@.contains(x) <==> member(sets, was, x) || beside(sets, passage.to, x) by {
                if longer.contains(x) {
                    let k = choose|k: int| 0 <= k < longer.len() && longer[k] == x;
                    if k < sets[was]@.len() {
                        assert(sets[was]@[k] == x);
                    }
                }
                if member(sets, was, x) {
                    let k = choose|k: int| 0 <= k < sets[was]@.len() && sets[was]@[k] == x;
                    assert(longer[k] == x);
                }
                if x == passage.to {
                    assert(longer[sets[was]@.len() as int] == x);
                }
            }
            assert(longer.no_duplicates()) by {
                assert forall|a: int, b: int| 0 <= a < longer.len() && 0 <= b < longer.len() && a != b implies longer[a] != longer[b] by {
                    let n = sets[was]@.len() as int;
                    if a < n && b < n {
                        assert(sets[was]@[a] != sets[was]@[b]);
                    } else {
                        let low = if a < n { a } else { b };
                        assert(sets[was]@.contains(sets[was]@[low]));
                    }
                }
            }
            assert forall|i: int| 0 <= i < sets.len() && i != was && !member(sets, i, passage.to) implies exists|n: int|
                0 <= n < self.sets@.len() && n != was && #[trigger] back(n) == i by {
                assert(back(i) == i);
            }
            assert forall|i: int| 0 <= i < self.sets@.len() && i != was implies {
                &&& 0 <= #[trigger] back(i) < sets.len()
                &&& back(i) != was
                &&& self.sets@[i] == sets[back(i)]
                &&& !member(sets, back(i), passage.to)
            } by {
                if member(sets, i, passage.to) {
                    assert(grouped(sets, passage.to));
                }
            }
            lemma_merged(sets, self.sets@, self.queue@, *maze, edges, colour, palette, was, was, back, cell, passage);
            self.edges@ = edges.push((passage.from, passage.to));
            self.colour@ = repainted(colour, colour(passage.to), colour(cell));
            self.palette@ = palette.remove(colour(passage.to));
            assert forall|k: int| 0 <= k < pending.len() implies open_to(*maze, self.queue@, self.colour@, cell, #[trigger] pending[k]) by {
                assert(open_to(*maze, self.queue@, colour, cell, pending[k]));
            }
        }
    }

    /// The turn of the first cell in the queue: the cell leaves the queue
    /// and its set, and the set is joined with cells that come later, over
    /// one passage picked at random and over each other passage on the
    /// toss of a coin.
    fn turn(&mut self, maze: &Maze, connects: &mut Vec<GeneratorUpdate>, Ghost(base): Ghost<Seq<(Offset, Offset)>>)
        requires
            maze.wf(),
            old(self).queue@.len() > 0,
            resting(old(self).sets@, old(self).queue@, *maze, old(self).edges@, old(self).colour@, old(self).palette@),
            old(self).edges@ == base + connects_of(old(connects)@),
            forall|k: int| 0 <= k < old(connects)@.len() ==> #[trigger] old(connects)@[k] is Connect,
        ensures
            resting(final(self).sets@, final(self).queue@, *maze, final(self).edges@, final(self).colour@, final(self).palette@),
            final(self).queue@ == old(self).queue@.drop_last(),
            final(self).edges@ == base + connects_of(final(connects)@),
            forall|k: int| 0 <= k < final(connects)@.len() ==> #[trigger] final(connects)@[k] is Connect,
            final(connects)@.len() >= old(connects)@.len(),
            forall|k: int| 0 <= k < old(connects)@.len() ==> final(connects)@[k] == old(connects)@[k],
            (exists|passage: Passage| leaves(*maze, own_set(old(self).sets@, old(self).queue@.last()), passage)) ==> opens_from(
                *maze,
                own_set(old(self).sets@, old(self).queue@.last()),
                final(connects)@,
                old(connects)@.len() as int,
            ),
    {
        let ghost before = self.sets@;
        let ghost marked_before = connects@;
        let ghost waiting = self.queue@;
        let cell = self.queue.pop().unwrap();
        let found = find_set(&self.sets, &cell);
        proof {
            match found {
                Some(i) => {
                    assert(member(before, i as int, cell));
                },
                None => {
                    if grouped(before, cell) {
                        let i = choose|i: int| member(before, i, cell);
                        assert(before[i]@.contains(cell));
                    }
                },
            }
        }
        let mut cur: usize = match found {
            Some(i) => i,
            None => {
                let mut alone: Vec<Offset> = Vec::new();
                alone.push(cell);
                self.sets.push(alone);
                self.sets.len() - 1
            },
        };
        let ghost set = self.sets@[cur as int]@;
        let mut pending = get_neighbors(maze, &self.sets[cur]);
        let ghost listed_first = pending@;
        proof {
            assert(waiting.last() == cell);
            if grouped(before, cell) {
                assert(self.sets@ == before);
                let i = choose|i: int| member(before, i, cell);
                assert(member(before, i, cell) && member(before, cur as int, cell));
                assert(i == cur);
                assert(own_set(before, cell) == set);
            } else {
                assert(set =~= seq![cell]);
                assert(set[0] == cell);
                assert(own_set(before, cell) == set);
            }
            assert(forall|i: int| 0 <= i < before.len() ==> #[trigger] self.sets@[i] == before[i]);
            assert(set.no_duplicates()) by {
                if grouped(before, cell) {
                    assert(before[cur as int]@.no_duplicates());
                }
            }
        }
        remove_member(&mut self.sets[cur], &cell);
        proof {
            assert forall|x: Offset| self.sets@[cur as int]@.contains(x) <==> x != cell && member(before, cur as int, x) by {
                if !grouped(before, cell) {
                    if x != cell && set.contains(x) {
                        let k = choose|k: int| 0 <= k < set.len() && set[k] == x;
                    }
                }
            }
            lemma_turn_begins(before, self.sets@, waiting, *maze, self.edges@, self.colour@, self.palette@, cur as int);
            assert forall|k: int| 0 <= k < pending@.len() implies open_to(*maze, self.queue@, self.colour@, cell, #[trigger] pending@[k]) by {
                assert forall|x: Offset| set.contains(x) <==> x == cell || member(before, cur as int, x) by {
                    if grouped(before, cell) {
                    } else {
                        if set.contains(x) {
                            let k = choose|k: int| 0 <= k < set.len() && set[k] == x;
                        }
                        if x == cell {
                            assert(set[0] == x);
                        }
                    }
                }
                lemma_candidates_open(before, self.sets@, waiting, *maze, self.edges@, self.colour@, self.palette@, cur as int, set, pending@[k]);
            }
        }
        let required: Option<Passage> = match choose_index(&mut self.rng, pending.len()) {
            Some(r) => Some(pending[r]),
            None => None,
        };
        let ghost promised = self.sets@[cur as int]@.len() > 0 || pending@.len() > 0;
        let ghost onward = maze.forward() && self.queue@.len() > 0;
        proof {
            if onward && !promised {
                // the cell was alone in its set, and none of its neighbours comes later
                lemma_descending_last(waiting);
                assert(maze.has(waiting[waiting.len() - 1]));
                let q = self.queue@[0];
                assert(self.queue@.contains(q));
                assert(maze.has(q));
                assert(!maze.ends_at(cell));
                assert(maze.onward(cell));
                let b = choose|b: Offset| #[trigger] maze.adjacent(cell, b) && cell.precedes(b);
                let passage = Passage { from: cell, to: b };
                assert(set.contains(cell)) by {
                    if grouped(before, cell) {
                    } else {
                        assert(set[0] == cell);
                    }
                }
                assert(!set.contains(b)) by {
                    if set.contains(b) {
                        assert(self.sets@[cur as int]@.contains(b));
                    }
                }
                assert(leaves(*maze, set, passage));
                assert(pending@.contains(passage));
            }
        }
        while pending.len() > 0
            invariant
                maze.wf(),
                turning(self.sets@, self.queue@, *maze, self.edges@, self.colour@, self.palette@, cur as int, cell),
                self.queue@ == waiting.drop_last(),
                forall|k: int| 0 <= k < pending@.len() ==> open_to(*maze, self.queue@, self.colour@, cell, #[trigger] pending@[k]),
                promised ==> self.sets@[cur as int]@.len() > 0 || (required matches Some(r) && pending@.contains(r)),
                self.edges@ == base + connects_of(connects@),
                forall|k: int| 0 <= k < connects@.len() ==> #[trigger] connects@[k] is Connect,
                connects@.len() >= marked_before.len(),
                forall|k: int| 0 <= k < marked_before.len() ==> connects@[k] == marked_before[k],
                connects@.len() == marked_before.len() ==> {
                    &&& forall|k: int| 0 <= k < pending@.len() ==> leaves(*maze, set, #[trigger] pending@[k])
                    &&& forall|x: Offset| member(self.sets@, cur as int, x) ==> set.contains(x)
                    &&& listed_first.len() > 0 ==> (required matches Some(r) && pending@.contains(r))
                },
                connects@.len() > marked_before.len() ==> opens_from(*maze, set, connects@, marked_before.len() as int),
            decreases self.sets@.len(), pending@.len(),
        {
            let ghost listed = pending@;
            let passage = pending.pop().unwrap();
            proof {
                assert(listed[listed.len() - 1] == passage);
                assert(open_to(*maze, self.queue@, self.colour@, cell, passage));
                assert forall|k: int| 0 <= k < pending@.len() implies open_to(*maze, self.queue@, self.colour@, cell, #[trigger] pending@[k]) by {
                    assert(pending@[k] == listed[k]);
                }
                if required matches Some(r) && listed.contains(r) && r != passage {
                    let k = choose|k: int| 0 <= k < listed.len() && listed[k] == required.unwrap();
                    assert(pending@[k] == listed[k]);
                }
            }
            if holds(&self.sets[cur], &passage.to) {
                proof {
                    let k = choose|k: int| 0 <= k < self.sets@[cur as int]@.len() && self.sets@[cur as int]@[k] == passage.to;
                }
            } else {
                let forced = match required {
                    Some(r) => r.from == passage.from && r.to == passage.to,
                    None => false,
                };
                if forced || toss(&mut self.rng) {
                    let ghost so_far = pending@;
                    let ghost edges = self.edges@;
                    let ghost marked = connects@;
                    match find_set(&self.sets, &passage.to) {
                        Some(j) => {
                            proof {
                                assert(member(self.sets@, j as int, passage.to));
                            }
                            cur = self.absorb(maze, cur, j, Ghost(cell), passage, &mut pending);
                        },
                        None => {
                            proof {
                                if grouped(self.sets@, passage.to) {
                                    let i = choose|i: int| member(self.sets@, i, passage.to);
                                    assert(self.sets@[i]@.contains(passage.to));
                                }
                            }
                            self.adopt(maze, cur, Ghost(cell), passage, Ghost(pending@));
                        },
                    }
                    connects.push(GeneratorUpdate::Connect(passage.from, passage.to));
                    proof {
                        if marked.len() == marked_before.len() {
                            assert(leaves(*maze, set, passage));
                            assert(connects@[marked_before.len() as int] == GeneratorUpdate::Connect(passage.from, passage.to));
                        } else {
                            assert(connects@[marked_before.len() as int] == marked[marked_before.len() as int]);
                        }
                        lemma_connects_of_more(marked, passage.from, passage.to);
                        assert(self.edges@ =~= base + connects_of(connects@));
                        if required matches Some(r) && so_far.contains(r) {
                            let k = choose|k: int| 0 <= k < so_far.len() && so_far[k] == required.unwrap();
                            assert(pending@[k] == so_far[k]);
                        }
                    }
                }
            }
        }
        let ghost sets = self.sets@;
        if self.sets[cur].len() == 0 {
            self.sets.remove(cur);
        }
        proof {
            lemma_turn_ends(sets, self.sets@, self.queue@, *maze, self.edges@, self.colour@, self.palette@, cur as int, cell);
            if exists|passage: Passage| leaves(*maze, set, passage) {
                let passage = choose|passage: Passage| leaves(*maze, set, passage);
                assert(listed_first.contains(passage));
            }
        }
    }
}

/// The offsets of the cells of a maze, the last in the order of the lattice
/// first.
fn descending_cells(maze: &Maze) -> (queue: Vec<Offset>)
    requires
        maze.wf(),
    ensures
        descending(queue@),
        forall|k: int| 0 <= k < queue@.len() ==> maze.has(#[trigger] queue@[k]),
        forall|o: Offset| maze.has(o) ==> queue@.contains(o),
{
    let cells = maze.cells();
    let mut queue: Vec<Offset> = Vec::new();
    let mut i: usize = 0;
    while i < cells.len()
        invariant
            maze.wf(),
            cells@ == maze@,
            i <= cells@.len(),
            descending(queue@),
            forall|k: int| 0 <= k < queue@.len() ==> exists|n: int| 0 <= n < i && #[trigger] queue@[k] == maze@[n].offset,
            forall|n: int| 0 <= n < i ==> queue@.contains(#[trigger] maze@[n].offset),
        decreases cells@.len() - i,
    {
        let o = cells[i].offset;
        let mut at: usize = queue.len();
        while at > 0 && queue[at - 1].before(&o)
            invariant
                at <= queue@.len(),
                forall|j: int| at <= j < queue@.len() ==> (#[trigger] queue@[j]).precedes(o),
            decreases at,
        {
            at = at - 1;
        }
        let ghost before = queue@;
        queue.insert(at, o);
        proof {
            assert(queue@[at as int] == o);
            assert forall|k: int| 0 <= k < queue@.len() implies exists|n: int| 0 <= n < i + 1 && #[trigger] queue@[k] == maze@[n].offset by {
                if k < at {
                    assert(queue@[k] == before[k]);
                    let n = choose|n: int| 0 <= n < i && before[k] == maze@[n].offset;
                    assert(queue@[k] == maze@[n].offset);
                } else if k > at {
                    assert(queue@[k] == before[k - 1]);
                    let n = choose|n: int| 0 <= n < i && before[k - 1] == maze@[n].offset;
                    assert(queue@[k] == maze@[n].offset);
                } else {
                    assert(queue@[k] == maze@[i as int].offset);
                }
            }
            assert forall|n: int| 0 <= n < i + 1 implies queue@.contains(#[trigger] maze@[n].offset) by {
                if n < i {
                    let k = choose|k: int| 0 <= k < before.len() && before[k] == maze@[n].offset;
                    if k < at {
                        assert(queue@[k] == before[k]);
                    } else {
                        assert(queue@[k + 1] == before[k]);
                    }
                }
            }
            assert forall|a: int, b: int| 0 <= a < b < queue@.len() implies (#[trigger] queue@[b]).precedes(#[trigger] queue@[a]) by {
                let a0 = if a < at { a } else { a - 1 };
                let b0 = if b < at { b } else { b - 1 };
                if a == at {
                    assert(queue@[b] == before[b - 1]);
                } else if b == at {
                    assert(queue@[a] == before[a]);
                    // the cell before the place of the new cell does not come before it, and is not it
                    let n = choose|n: int| 0 <= n < i && before[at - 1] == maze@[n].offset;
                    assert(maze@[n].offset != maze@[i as int].offset);
                    assert(!before[at - 1].precedes(o));
                    if a < at - 1 {
                        assert(before[at - 1].precedes(before[a]));
                    }
                } else {
                    assert(queue@[a] == before[a0]);
                    assert(queue@[b] == before[b0]);
                    assert(before[b0].precedes(before[a0]));
                }
            }
        }
        i = i + 1;
    }
    proof {
        assert forall|k: int| 0 <= k < queue@.len() implies maze.has(#[trigger] queue@[k]) by {
            let n = choose|n: int| 0 <= n < i && queue@[k] == maze@[n].offset;
            assert(maze@[n].offset == queue@[k]);
        }
        assert forall|o: Offset| maze.has(o) implies queue@.contains(o) by {
            let n = maze.place(o);
            assert(queue@.contains(maze@[n].offset));
        }
    }
    queue
}

impl Ellers {
    /// The cells that have not had their turn, the first in the order of
    /// the lattice at the end.
    pub closed spec fn waiting(self) -> Seq<Offset> {
        self.queue@
    }
}

impl Generator for Ellers {
    closed spec fn ready(&self, maze: &Maze) -> bool {
        resting(self.sets@, self.queue@, *maze, self.edges@, self.colour@, self.palette@)
    }

    closed spec fn finished(&self) -> bool {
        self.queue@.len() == 0
    }

    closed spec fn carved(&self) -> Seq<(Offset, Offset)> {
        self.edges@
    }

    /// The algorithm has no options: any values will do.
    open spec fn accepts(maze: &Maze, values: Seq<OptionValue>) -> bool {
        true
    }

    /// A step gives every cell that waits its turn, so that none is left.
    /// It reports the passages opened, then how each cell is to be shown,
    /// then `Finished`; with no cell left to begin with, `Finished` alone.
    open spec fn moved(&self, maze: &Maze, after: &Self, updates: Seq<GeneratorUpdate>) -> bool {
        &&& after.finished()
        &&& after.carved() == self.carved() + connects_of(updates)
        &&& if self.finished() {
            updates == seq![GeneratorUpdate::Finished()]
        } else {
            let opened = after.carved().len() - self.carved().len();
            &&& opened + 1 <= updates.len()
            &&& forall|k: int| 0 <= k < opened ==> #[trigger] updates[k] is Connect
            &&& marked(*maze, connects_of(updates.take(opened)), updates.subrange(opened, updates.len() - 1))
            &&& updates.last() is Finished
        }
    }

    /// Lines all cells of the maze up for their turn, in the order of the
    /// lattice.
    fn init(maze: &Maze, rng: ThreadRng, values: &Vec<OptionValue>) -> (generator: Self)
        ensures
            generator.finished() <==> maze@.len() == 0,
            descending(generator.waiting()),
            forall|o: Offset| maze.has(o) <==> generator.waiting().contains(o),
    {
        let queue = descending_cells(maze);
        let ghost colour = |o: Offset| blank(o);
        let ghost edges = Seq::<(Offset, Offset)>::empty();
        let ghost mut palette = Set::<int>::empty();
        let sets: Vec<Vec<Offset>> = Vec::new();
        proof {
            assert forall|a: Offset, b: Offset| maze.has(a) && maze.has(b) && a != b implies #[trigger] colour(a) != #[trigger] colour(b) by {
                lemma_blank_apart(a, b);
            }
            palette = lemma_colours_counted(*maze, colour);
            assert(forest(edges));
            assert forall|a: Offset, b: Offset|
                cells_of(*maze).contains(a) && cells_of(*maze).contains(b) && colour(a) == colour(b) implies #[trigger] connected(edges, a, b) by {
                lemma_blank_apart(a, b);
                lemma_connected_self(edges, a);
            }
            assert forall|o: Offset| #[trigger] queue@.contains(o) && !grouped(sets@, o) implies lone(*maze, colour, o) by {
                assert forall|p: Offset| maze.has(p) && p != o implies #[trigger] colour(p) != blank(o) by {
                    lemma_blank_apart(p, o);
                }
            }
            assert forall|k: int| 0 <= k < queue@.len() implies maze.has(#[trigger] queue@[k]) by {}
            if maze@.len() > 0 {
                assert(maze.has(maze@[0].offset));
                assert(queue@.contains(maze@[0].offset));
            }
            if queue@.len() > 0 {
                assert(maze.has(queue@[0]));
            }
            assert forall|o: Offset| queue@.contains(o) implies maze.has(o) by {
                let k = choose|k: int| 0 <= k < queue@.len() && queue@[k] == o;
                assert(maze.has(queue@[k]));
            }
            assert(ordered(sets@, queue@, *maze, edges, colour, palette));
            assert(resting(sets@, queue@, *maze, edges, colour, palette));
        }
        Ellers { rng, sets, queue, edges: Ghost(edges), colour: Ghost(colour), palette: Ghost(palette) }
    }

    /// Gives every cell that waits its turn, in the order of the lattice,
    /// and reports the passages opened, then how each cell is to be shown,
    /// then `Finished`. After that nothing is left to do.
    fn step(&mut self, maze: &Maze) -> (updates: Vec<GeneratorUpdate>)
        ensures
            final(self).finished(),
            !old(self).finished() ==> {
                let opened = final(self).carved().len() - old(self).carved().len();
                &&& opened + 1 <= updates@.len()
                &&& forall|k: int| 0 <= k < opened ==> #[trigger] updates@[k] is Connect
                &&& marked(*maze, connects_of(updates@.take(opened)), updates@.subrange(opened, updates@.len() - 1))
            },
    {
        let ghost base = self.edges@;
        let mut updates: Vec<GeneratorUpdate> = Vec::new();
        let worked = self.queue.len() > 0;
        proof {
            assert(base =~= base + connects_of(updates@));
        }
        while self.queue.len() > 0
            invariant
                maze.wf(),
                resting(self.sets@, self.queue@, *maze, self.edges@, self.colour@, self.palette@),
                self.edges@ == base + connects_of(updates@),
                forall|k: int| 0 <= k < updates@.len() ==> #[trigger] updates@[k] is Connect,
                !worked ==> updates@.len() == 0 && self.queue@.len() == 0,
            decreases self.queue@.len(),
        {
            self.turn(maze, &mut updates, Ghost(base));
        }
        let ghost connects = updates@;
        let ghost mut shown = Seq::<GeneratorUpdate>::empty();
        if worked {
            let mut marks = marks_of(maze, &updates);
            proof {
                shown = marks@;
            }
            updates.append(&mut marks);
            proof {
                lemma_connects_of_both(connects, shown);
                lemma_connects_of_marks(shown);
                assert(self.edges@ =~= base + connects_of(updates@));
            }
        }
        let ghost so_far = updates@;
        updates.push(GeneratorUpdate::Finished());
        proof {
            assert(updates@.drop_last() =~= so_far);
            assert(self.edges@ =~= base + connects_of(updates@));
            if !worked {
                assert(updates@ =~= seq![GeneratorUpdate::Finished()]);
            } else {
                lemma_connects_of_all(connects);
                let opened = connects.len() as int;
                assert(self.edges@.len() == base.len() + opened);
                assert(updates@.take(opened) =~= connects);
                assert(updates@.subrange(opened, updates@.len() - 1) =~= shown);
            }
        }
        updates
    }

    proof fn lemma_ready_alike(&self, maze: &Maze, other: &Maze) {
        maze.lemma_alike(*other);
        let sets = self.sets@;
        let queue = self.queue@;
        let colour = self.colour@;
        assert forall|o: Offset| #[trigger] queue.contains(o) && !grouped(sets, o) implies lone(*other, colour, o) by {
            assert(lone(*maze, colour, o));
        }
        assert forall|k: int| 0 <= k < self.edges@.len() implies other.adjacent((#[trigger] self.edges@[k]).0, self.edges@[k].1)
            && self.edges@[k].0.precedes(self.edges@[k].1) by {
            assert(maze.adjacent(self.edges@[k].0, self.edges@[k].1));
        }
        assert(ordered(sets, queue, *other, self.edges@, colour, self.palette@));
    }

    /// The algorithm has no options.
    fn options(maze: &Maze) -> (options: Vec<GeneratorOption>)
        ensures
            options@.len() == 0,
    {
        Vec::new()
    }
}

/// Whether one of the passages `edges` ends at the cell at `o`.
pub open spec fn touched(edges: Seq<(Offset, Offset)>, o: Offset) -> bool {
    exists|k: int| 0 <= k < edges.len() && ((#[trigger] edges[k]).0 == o || edges[k].1 == o)
}

/// Whether `marks` say how each cell of the maze is to be shown after the
/// passages `edges`: `Secondary` for each cell that no passage ends at,
/// then `Primary` for each cell that one ends at, each cell once, and
/// nothing else.
pub open spec fn marked(maze: Maze, edges: Seq<(Offset, Offset)>, marks: Seq<GeneratorUpdate>) -> bool {
    &&& marks.no_duplicates()
    &&& forall|k: int| 0 <= k < marks.len() ==> #[trigger] marks[k] is Secondary || marks[k] is Primary
    &&& forall|i: int, j: int| 0 <= i < j < marks.len() && #[trigger] marks[i] is Primary ==> #[trigger] marks[j] is Primary
    &&& forall|o: Offset| #[trigger] marks.contains(GeneratorUpdate::Secondary(o)) <==> maze.has(o) && !touched(edges, o)
    &&& forall|o: Offset| #[trigger] marks.contains(GeneratorUpdate::Primary(o)) <==> touched(edges, o)
}

/// Marks are no passages.
proof fn lemma_connects_of_marks(marks: Seq<GeneratorUpdate>)
    requires
        forall|k: int| 0 <= k < marks.len() ==> !(#[trigger] marks[k] is Connect),
    ensures
        connects_of(marks) == Seq::<(Offset, Offset)>::empty(),
    decreases marks.len(),
{
    if marks.len() > 0 {
        assert(!(marks[marks.len() - 1] is Connect));
        lemma_connects_of_marks(marks.drop_last());
    }
}

/// A run of passages has as many passages as updates.
proof fn lemma_connects_of_all(connects: Seq<GeneratorUpdate>)
    requires
        forall|k: int| 0 <= k < connects.len() ==> #[trigger] connects[k] is Connect,
    ensures
        connects_of(connects).len() == connects.len(),
        forall|k: int| 0 <= k < connects.len() ==> #[trigger] connects[k] == GeneratorUpdate::Connect(connects_of(connects)[k].0, connects_of(connects)[k].1),
    decreases connects.len(),
{
    if connects.len() > 0 {
        let rest = connects.drop_last();
        assert(connects[connects.len() - 1] is Connect);
        assert forall|k: int| 0 <= k < rest.len() implies #[trigger] rest[k] is Connect by {
            assert(rest[k] == connects[k]);
        }
        lemma_connects_of_all(rest);
        assert forall|k: int| 0 <= k < connects.len() implies #[trigger] connects[k] == GeneratorUpdate::Connect(
            connects_of(connects)[k].0,
            connects_of(connects)[k].1,
        ) by {
            if k < rest.len() {
                assert(rest[k] == connects[k]);
                assert(connects_of(connects)[k] == connects_of(rest)[k]);
            }
        }
    }
}

/// The cells at which the passages `connects` end, each once.
fn ends_of(connects: &Vec<GeneratorUpdate>) -> (ends: Vec<Offset>)
    requires
        forall|k: int| 0 <= k < connects@.len() ==> #[trigger] connects@[k] is Connect,
    ensures
        ends@.no_duplicates(),
        forall|o: Offset| ends@.contains(o) <==> touched(connects_of(connects@), o),
{
    let mut ends: Vec<Offset> = Vec::new();
    let mut k: usize = 0;
    proof {
        lemma_connects_of_all(connects@);
    }
    let ghost edges = connects_of(connects@);
    while k < connects.len()
        invariant
            k <= connects@.len(),
            edges == connects_of(connects@),
            edges.len() == connects@.len(),
            forall|n: int| 0 <= n < connects@.len() ==> #[trigger] connects@[n] == GeneratorUpdate::Connect(edges[n].0, edges[n].1),
            ends@.no_duplicates(),
            forall|o: Offset| ends@.contains(o) <==> exists|n: int| 0 <= n < k && ((#[trigger] edges[n]).0 == o || edges[n].1 == o),
        decreases connects@.len() - k,
    {
        match connects[k] {
            GeneratorUpdate::Connect(a, b) => {
                let ghost before = ends@;
                if !holds(&ends, &a) {
                    ends.push(a);
                }
                let ghost between = ends@;
                if !holds(&ends, &b) {
                    ends.push(b);
                }
                proof {
                    assert(edges[k as int] == (a, b));
                    assert forall|o: Offset| between.contains(o) <==> before.contains(o) || o == a by {
                        if before.contains(o) {
                            let n = choose|n: int| 0 <= n < before.len() && before[n] == o;
                            assert(between[n] == o);
                        }
                        if between.contains(o) {
                            let n = choose|n: int| 0 <= n < between.len() && between[n] == o;
                            if n < before.len() {
                                assert(before[n] == o);
                            }
                        }
                        if o == a && !before.contains(a) {
                            assert(between[before.len() as int] == a);
                        }
                    }
                    assert forall|o: Offset| ends@.contains(o) <==> between.contains(o) || o == b by {
                        if between.contains(o) {
                            let n = choose|n: int| 0 <= n < between.len() && between[n] == o;
                            assert(ends@[n] == o);
                        }
                        if ends@.contains(o) {
                            let n = choose|n: int| 0 <= n < ends@.len() && ends@[n] == o;
                            if n < between.len() {
                                assert(between[n] == o);
                            }
                        }
                        if o == b && !between.contains(b) {
                            assert(ends@[between.len() as int] == b);
                        }
                    }
                    assert(between.no_duplicates()) by {
                        assert forall|i: int, j: int| 0 <= i < between.len() && 0 <= j < between.len() && i != j implies between[i] != between[j] by {
                            if i < before.len() && j < before.len() {
                                assert(before[i] != before[j]);
                            } else {
                                let low = if i < before.len() { i } else { j };
                                assert(before.contains(before[low]));
                            }
                        }
                    }
                    assert(ends@.no_duplicates()) by {
                        assert forall|i: int, j: int| 0 <= i < ends@.len() && 0 <= j < ends@.len() && i != j implies ends@[i] != ends@[j] by {
                            if i < between.len() && j < between.len() {
                                assert(between[i] != between[j]);
                            } else {
                                let low = if i < between.len() { i } else { j };
                                assert(between.contains(between[low]));
                            }
                        }
                    }
                    assert forall|o: Offset| ends@.contains(o) <==> exists|n: int| 0 <= n < k + 1 && ((#[trigger] edges[n]).0 == o || edges[n].1 == o) by {
                        let earlier = exists|n: int| 0 <= n < k && ((#[trigger] edges[n]).0 == o || edges[n].1 == o);
                        assert(before.contains(o) <==> earlier);
                        assert(ends@.contains(o) <==> before.contains(o) || o == a || o == b);
                        if earlier {
                            let n = choose|n: int| 0 <= n < k && ((#[trigger] edges[n]).0 == o || edges[n].1 == o);
                            assert(0 <= n < k + 1 && (edges[n].0 == o || edges[n].1 == o));
                        }
                        if o == a || o == b {
                            assert(edges[k as int].0 == o || edges[k as int].1 == o);
                        }
                        if exists|n: int| 0 <= n < k + 1 && ((#[trigger] edges[n]).0 == o || edges[n].1 == o) {
                            let n = choose|n: int| 0 <= n < k + 1 && ((#[trigger] edges[n]).0 == o || edges[n].1 == o);
                            if n < k {
                                assert(edges[n].0 == o || edges[n].1 == o);
                                assert(earlier);
                            }
                        }
                    }
                }
            },
            _ => {
                proof {
                    assert(connects@[k as int] is Connect);
                }
            },
        }
        k = k + 1;
    }
    ends
}

/// How each cell is to be shown after the passages `connects`.
fn marks_of(maze: &Maze, connects: &Vec<GeneratorUpdate>) -> (marks: Vec<GeneratorUpdate>)
    requires
        maze.wf(),
        forall|k: int| 0 <= k < connects@.len() ==> #[trigger] connects@[k] is Connect,
    ensures
        marked(*maze, connects_of(connects@), marks@),
{
    let ends = ends_of(connects);
    let ghost edges = connects_of(connects@);
    let mut marks: Vec<GeneratorUpdate> = Vec::new();
    let cells = maze.cells();
    let mut i: usize = 0;
    while i < cells.len()
        invariant
            maze.wf(),
            cells@ == maze@,
            i <= cells@.len(),
            forall|o: Offset| ends@.contains(o) <==> touched(edges, o),
            forall|k: int| 0 <= k < marks@.len() ==> exists|n: int| 0 <= n < i && #[trigger] marks@[k] == GeneratorUpdate::Secondary(maze@[n].offset) && !touched(edges, maze@[n].offset),
            forall|n: int| 0 <= n < i && !touched(edges, (#[trigger] maze@[n]).offset) ==> marks@.contains(GeneratorUpdate::Secondary(maze@[n].offset)),
            marks@.no_duplicates(),
        decreases cells@.len() - i,
    {
        let o = cells[i].offset;
        if !holds(&ends, &o) {
            let ghost before = marks@;
            marks.push(GeneratorUpdate::Secondary(o));
            proof {
                assert(marks@[before.len() as int] == GeneratorUpdate::Secondary(o));
                assert forall|k: int| 0 <= k < marks@.len() implies exists|n: int|
                    0 <= n < i + 1 && #[trigger] marks@[k] == GeneratorUpdate::Secondary(maze@[n].offset) && !touched(edges, maze@[n].offset) by {
                    if k < before.len() {
                        let n = choose|n: int| 0 <= n < i && before[k] == GeneratorUpdate::Secondary(maze@[n].offset) && !touched(edges, maze@[n].offset);
                        assert(marks@[k] == GeneratorUpdate::Secondary(maze@[n].offset));
                    } else {
                        assert(marks@[k] == GeneratorUpdate::Secondary(maze@[i as int].offset));
                    }
                }
                assert forall|n: int| 0 <= n < i + 1 && !touched(edges, (#[trigger] maze@[n]).offset) implies marks@.contains(
                    GeneratorUpdate::Secondary(maze@[n].offset),
                ) by {
                    if n < i {
                        let k = choose|k: int| 0 <= k < before.len() && before[k] == GeneratorUpdate::Secondary(maze@[n].offset);
                        assert(marks@[k] == before[k]);
                    }
                }
                assert forall|a: int, b: int| 0 <= a < marks@.len() && 0 <= b < marks@.len() && a != b implies marks@[a] != marks@[b] by {
                    if a < before.len() && b < before.len() {
                        assert(before[a] != before[b]);
                    } else {
                        let low = if a < before.len() { a } else { b };
                        let n = choose|n: int| 0 <= n < i && before[low] == GeneratorUpdate::Secondary(maze@[n].offset) && !touched(edges, maze@[n].offset);
                        assert(maze@[n].offset != maze@[i as int].offset);
                    }
                }
            }
        }
        i = i + 1;
    }
    let ghost aside = marks@;
    let mut e: usize = 0;
    while e < ends.len()
        invariant
            e <= ends@.len(),
            ends@.no_duplicates(),
            marks@.len() == aside.len() + e,
            forall|k: int| 0 <= k < aside.len() ==> marks@[k] == aside[k],
            forall|k: int| 0 <= k < e ==> #[trigger] marks@[aside.len() + k] == GeneratorUpdate::Primary(ends@[k]),
        decreases ends@.len() - e,
    {
        marks.push(GeneratorUpdate::Primary(ends[e]));
        e = e + 1;
    }
    proof {
        let n = aside.len() as int;
        assert forall|k: int| 0 <= k < marks@.len() implies #[trigger] marks@[k] is Secondary || marks@[k] is Primary by {
            if k < n {
                assert(marks@[k] == aside[k]);
                let c = choose|c: int| 0 <= c < i && aside[k] == GeneratorUpdate::Secondary(maze@[c].offset) && !touched(edges, maze@[c].offset);
            } else {
                assert(marks@[n + (k - n)] == GeneratorUpdate::Primary(ends@[k - n]));
            }
        }
        assert forall|a: int, b: int| 0 <= a < b < marks@.len() && #[trigger] marks@[a] is Primary implies #[trigger] marks@[b] is Primary by {
            if a < n {
                assert(marks@[a] == aside[a]);
                let c = choose|c: int| 0 <= c < i && aside[a] == GeneratorUpdate::Secondary(maze@[c].offset) && !touched(edges, maze@[c].offset);
            }
            assert(marks@[n + (b - n)] == GeneratorUpdate::Primary(ends@[b - n]));
        }
        assert forall|o: Offset| #[trigger] marks@.contains(GeneratorUpdate::Secondary(o)) <==> maze.has(o) && !touched(edges, o) by {
            if marks@.contains(GeneratorUpdate::Secondary(o)) {
                let k = choose|k: int| 0 <= k < marks@.len() && marks@[k] == GeneratorUpdate::Secondary(o);
                if k < n {
                    assert(marks@[k] == aside[k]);
                    let c = choose|c: int| 0 <= c < i && aside[k] == GeneratorUpdate::Secondary(maze@[c].offset) && !touched(edges, maze@[c].offset);
                    assert(maze@[c].offset == o);
                } else {
                    assert(marks@[n + (k - n)] == GeneratorUpdate::Primary(ends@[k - n]));
                }
            }
            if maze.has(o) && !touched(edges, o) {
                let c = maze.place(o);
                assert(aside.contains(GeneratorUpdate::Secondary(maze@[c].offset)));
                let k = choose|k: int| 0 <= k < aside.len() && aside[k] == GeneratorUpdate::Secondary(maze@[c].offset);
                assert(marks@[k] == aside[k]);
            }
        }
        assert forall|o: Offset| #[trigger] marks@.contains(GeneratorUpdate::Primary(o)) <==> touched(edges, o) by {
            if marks@.contains(GeneratorUpdate::Primary(o)) {
                let k = choose|k: int| 0 <= k < marks@.len() && marks@[k] == GeneratorUpdate::Primary(o);
                if k < n {
                    assert(marks@[k] == aside[k]);
                    let c = choose|c: int| 0 <= c < i && aside[k] == GeneratorUpdate::Secondary(maze@[c].offset) && !touched(edges, maze@[c].offset);
                } else {
                    assert(marks@[n + (k - n)] == GeneratorUpdate::Primary(ends@[k - n]));
                    assert(ends@.contains(ends@[k - n]));
                }
            }
            if touched(edges, o) {
                let k = choose|k: int| 0 <= k < ends@.len() && ends@[k] == o;
                assert(marks@[n + k] == GeneratorUpdate::Primary(ends@[k]));
            }
        }
        assert forall|a: int, b: int| 0 <= a < marks@.len() && 0 <= b < marks@.len() && a != b implies marks@[a] != marks@[b] by {
            if a < n && b < n {
                assert(aside[a] != aside[b]);
            } else if a >= n && b >= n {
                assert(marks@[n + (a - n)] == GeneratorUpdate::Primary(ends@[a - n]));
                assert(marks@[n + (b - n)] == GeneratorUpdate::Primary(ends@[b - n]));
                assert(ends@[a - n] != ends@[b - n]);
            } else {
                let low = if a < n { a } else { b };
                let high = if a < n { b } else { a };
                assert(marks@[low] == aside[low]);
                let c = choose|c: int| 0 <= c < i && aside[low] == GeneratorUpdate::Secondary(maze@[c].offset) && !touched(edges, maze@[c].offset);
                assert(marks@[n + (high - n)] == GeneratorUpdate::Primary(ends@[high - n]));
            }
        }
    }
    marks
}

impl Ellers {
    /// Once every cell has had its turn, in a maze in which every cell but
    /// the last in the order of the lattice has a neighbour that comes
    /// after it, the passages are a tree that spans the maze: they connect
    /// all cells, hold no cycle, and are one fewer than the cells.
    pub proof fn lemma_finished_tree(self, maze: Maze)
        requires
            self.ready(&maze),
            self.finished(),
            maze.forward(),
            maze@.len() > 0,
        ensures
            forest(self.carved()),
            spans(self.carved(), cells_of(maze)),
            self.carved().len() + 1 == maze@.len(),
    {
        let edges = self.carved();
        let colour = self.colour@;
        assert forall|a: Offset, b: Offset| cells_of(maze).contains(a) && cells_of(maze).contains(b) implies #[trigger] connected(edges, a, b) by {
            assert(colour(a) == colour(b));
        }
        let root = maze@[0].offset;
        assert(maze.has(root));
        lemma_tree_count(edges, cells_of(maze), colour, self.palette@, maze@.len(), root);
    }

    /// Every passage opened runs from a cell to a cell that comes later in
    /// the order of the lattice, and to which a side of the first leads.
    pub proof fn lemma_carved_along(self, maze: Maze, k: int)
        requires
            self.ready(&maze),
            0 <= k < self.carved().len(),
        ensures
            maze.adjacent(self.carved()[k].0, self.carved()[k].1),
            self.carved()[k].0.precedes(self.carved()[k].1),
    {
    }
}

} // verus!
