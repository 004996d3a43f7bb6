//! What a host keeps of the updates of a generator: the walls of the maze,
//! which cells are highlighted, and whether the maze is complete.

use crate::generators::{connects_of, lemma_connects_of_both, Generator, GeneratorUpdate};
use crate::lattice::{lemma_rank_orders, Offset};
use crate::maze::{AdjacencyError, Cell, Maze};
use std::collections::HashSet;
use vstd::prelude::*;

verus! {

/// How a cell is to be shown.
#[derive(Clone, Copy, Debug, PartialEq, Eq, Structural)]
pub enum Shade {
    /// The generator is at work on the cell.
    Primary,
    /// The generator has set the cell aside.
    Secondary,
    /// The cell has a passage and no highlight.
    Open,
    /// The cell is walled in and has no highlight.
    Filled,
}

/// The highlights of the cells, and whether the generator has finished.
pub struct Highlights {
    primary: HashSet<i128>,
    secondary: HashSet<i128>,
    finished: bool,
}

/// The highlight that `updates` leave on the cell at `o`, where `before`
/// says whether it was primary and whether it was secondary: that of the
/// last update that names the cell as normal, primary or secondary.
pub open spec fn shown(before: (bool, bool), updates: Seq<GeneratorUpdate>, o: Offset) -> (bool, bool)
    decreases updates.len(),
{
    if updates.len() == 0 {
        before
    } else {
        match updates.last() {
            GeneratorUpdate::Normal(cell) if cell == o => (false, false),
            GeneratorUpdate::Primary(cell) if cell == o => (true, false),
            GeneratorUpdate::Secondary(cell) if cell == o => (false, true),
            _ => shown(before, updates.drop_last(), o),
        }
    }
}

/// Whether `update` names the cell at `o`.
pub open spec fn names(update: GeneratorUpdate, o: Offset) -> bool {
    match update {
        GeneratorUpdate::Connect(a, b) | GeneratorUpdate::Disconnect(a, b) => a == o || b == o,
        GeneratorUpdate::Normal(cell) | GeneratorUpdate::Primary(cell) | GeneratorUpdate::Secondary(cell) => cell == o,
        GeneratorUpdate::Finished() => false,
    }
}

/// Whether one of `updates` names the cell at `o`.
pub open spec fn named(updates: Seq<GeneratorUpdate>, o: Offset) -> bool {
    exists|k: int| 0 <= k < updates.len() && names(#[trigger] updates[k], o)
}

/// Whether `after` is `before` with the walls changed as `updates` say, one
/// after the other, each between two cells that touch each other.
pub open spec fn walls_follow(before: Maze, updates: Seq<GeneratorUpdate>, after: Maze) -> bool
    decreases updates.len(),
{
    if updates.len() == 0 {
        after@ == before@ && after.schema() == before.schema()
    } else {
        match updates.last() {
            GeneratorUpdate::Connect(a, b) => exists|mid: Maze|
                {
                    &&& mid.wf()
                    &&& walls_follow(before, updates.drop_last(), mid)
                    &&& mid.adjacent(a, b) && mid.adjacent(b, a)
                    &&& #[trigger] after.rewalled(mid, a, b, false)
                },
            GeneratorUpdate::Disconnect(a, b) => exists|mid: Maze|
                {
                    &&& mid.wf()
                    &&& walls_follow(before, updates.drop_last(), mid)
                    &&& mid.adjacent(a, b) && mid.adjacent(b, a)
                    &&& #[trigger] after.rewalled(mid, a, b, true)
                },
            _ => walls_follow(before, updates.drop_last(), after),
        }
    }
}

/// Whether `update` cannot be applied to `maze`: it changes the walls
/// between two cells that do not touch each other.
pub open spec fn refused(maze: Maze, update: GeneratorUpdate) -> bool {
    match update {
        GeneratorUpdate::Connect(a, b) | GeneratorUpdate::Disconnect(a, b) => !(maze.adjacent(a, b) && maze.adjacent(b, a)),
        _ => false,
    }
}

impl Highlights {
    /// Whether the cell at `o` is highlighted as primary.
    pub closed spec fn primary(self, o: Offset) -> bool {
        self.primary@.contains(o.rank() as i128)
    }

    /// Whether the cell at `o` is highlighted as secondary.
    pub closed spec fn secondary(self, o: Offset) -> bool {
        self.secondary@.contains(o.rank() as i128)
    }

    /// Whether the generator has reported that the maze is complete.
    pub closed spec fn finished(self) -> bool {
        self.finished
    }

    /// No highlights, and nothing finished.
    pub fn new() -> (highlights: Highlights)
        ensures
            !highlights.finished(),
            forall|o: Offset| !highlights.primary(o) && !highlights.secondary(o),
    {
        Highlights { primary: HashSet::new(), secondary: HashSet::new(), finished: false }
    }

    /// Whether the generator has reported that the maze is complete.
    pub fn is_finished(&self) -> (finished: bool)
        ensures
            finished == self.finished(),
    {
        self.finished
    }

    /// Whether the cell at `o` is highlighted as primary.
    pub fn is_primary(&self, o: &Offset) -> (primary: bool)
        ensures
            primary == self.primary(*o),
    {
        self.primary.contains(&o.key())
    }

    /// Whether the cell at `o` is highlighted as secondary.
    pub fn is_secondary(&self, o: &Offset) -> (secondary: bool)
        ensures
            secondary == self.secondary(*o),
    {
        self.secondary.contains(&o.key())
    }

    /// How `cell` is to be shown: by its highlight, primary before
    /// secondary, and without one by whether it has a passage.
    pub fn shade(&self, cell: &Cell) -> (shade: Shade)
        ensures
            shade == (if self.primary(cell.offset) {
                Shade::Primary
            } else if self.secondary(cell.offset) {
                Shade::Secondary
            } else if cell.open() {
                Shade::Open
            } else {
                Shade::Filled
            }),
    {
        if self.is_primary(&cell.offset) {
            Shade::Primary
        } else if self.is_secondary(&cell.offset) {
            Shade::Secondary
        } else if cell.is_open() {
            Shade::Open
        } else {
            Shade::Filled
        }
    }

    /// Sets the highlight of the cell at `o`.
    fn mark(&mut self, o: Offset, primary: bool, secondary: bool)
        ensures
            final(self).finished() == old(self).finished(),
            final(self).primary(o) == primary,
            final(self).secondary(o) == secondary,
            forall|other: Offset| other != o ==> final(self).primary(other) == old(self).primary(other),
            forall|other: Offset| other != o ==> final(self).secondary(other) == old(self).secondary(other),
    {
        let key = o.key();
        if primary {
            self.primary.insert(key);
        } else {
            self.primary.remove(&key);
        }
        if secondary {
            self.secondary.insert(key);
        } else {
            self.secondary.remove(&key);
        }
        proof {
            assert forall|other: Offset| other != o implies other.rank() != o.rank() by {
                lemma_rank_orders(other, o);
            }
        }
    }
}

impl Highlights {
    /// Whether `self` is `before` with the highlights changed as `updates`
    /// say, and finished if it was or if one of the updates says so.
    pub open spec fn follows(self, before: Highlights, updates: Seq<GeneratorUpdate>) -> bool {
        &&& forall|o: Offset| (#[trigger] self.primary(o), self.secondary(o)) == shown((before.primary(o), before.secondary(o)), updates, o)
        &&& self.finished() == (before.finished() || exists|k: int| 0 <= k < updates.len() && #[trigger] updates[k] is Finished)
    }

    /// Adds the cell at `o` to the cells that are to be drawn again, unless
    /// it is among them.
    fn list(renders: &mut Vec<Offset>, listed: &mut HashSet<i128>, o: Offset)
        requires
            old(renders)@.no_duplicates(),
            forall|x: Offset| old(listed)@.contains(x.rank() as i128) <==> old(renders)@.contains(x),
        ensures
            final(renders)@.no_duplicates(),
            forall|x: Offset| final(listed)@.contains(x.rank() as i128) <==> final(renders)@.contains(x),
            forall|x: Offset| final(renders)@.contains(x) <==> old(renders)@.contains(x) || x == o,
    {
        if listed.insert(o.key()) {
            renders.push(o);
            proof {
                let before = old(renders)@;
                assert(renders@[before.len() as int] == o);
                assert forall|x: Offset| renders@.contains(x) <==> before.contains(x) || x == o by {
                    if before.contains(x) {
                        let k = choose|k: int| 0 <= k < before.len() && before[k] == x;
                        assert(renders@[k] == x);
                    }
                    if renders@.contains(x) {
                        let k = choose|k: int| 0 <= k < renders@.len() && renders@[k] == x;
                        if k < before.len() {
                            assert(before[k] == x);
                        }
                    }
                }
                assert forall|x: Offset| listed@.contains(x.rank() as i128) <==> renders@.contains(x) by {
                    lemma_rank_orders(x, o);
                    assert(old(listed)@.contains(x.rank() as i128) <==> before.contains(x));
                }
                assert forall|a: int, b: int| 0 <= a < renders@.len() && 0 <= b < renders@.len() && a != b implies renders@[a] != renders@[b] by {
                    if a < before.len() && b < before.len() {
                        assert(before[a] != before[b]);
                    } else {
                        let low = if a < before.len() { a } else { b };
                        assert(before.contains(before[low]));
                    }
                }
            }
        } else {
            proof {
                assert(listed@ =~= old(listed)@);
            }
        }
    }

    /// Applies the updates of a generator, in their order: `Connect` and
    /// `Disconnect` change the walls of the maze, `Primary`, `Secondary`
    /// and `Normal` set the highlight of a cell, and `Finished` is taken
    /// note of. Returns the cells that the updates name, each once: they
    /// are to be drawn again.
    ///
    /// Stops at the first update that changes the walls between two cells
    /// that do not touch each other, and returns the error.
    pub fn process_updates(&mut self, maze: &mut Maze, updates: Vec<GeneratorUpdate>) -> (result: Result<Vec<Offset>, AdjacencyError>)
        requires
            old(maze).wf(),
        ensures
            final(maze).wf(),
            final(maze).alike(*old(maze)),
            result matches Ok(renders) ==> {
                &&& walls_follow(*old(maze), updates@, *final(maze))
                &&& final(self).follows(*old(self), updates@)
                &&& renders@.no_duplicates()
                &&& forall|o: Offset| renders@.contains(o) <==> named(updates@, o)
            },
            result matches Err(error) ==> exists|n: int|
                {
                    &&& 0 <= n < updates@.len()
                    &&& #[trigger] walls_follow(*old(maze), updates@.take(n), *final(maze))
                    &&& final(self).follows(*old(self), updates@.take(n))
                    &&& refused(*final(maze), updates@[n])
                    &&& updates@[n] == GeneratorUpdate::Connect(error.cell, error.other) || updates@[n] == GeneratorUpdate::Disconnect(
                        error.cell,
                        error.other,
                    )
                },
    {
        let mut renders: Vec<Offset> = Vec::new();
        let mut listed: HashSet<i128> = HashSet::new();
        let mut k: usize = 0;
        proof {
            assert(updates@.take(0) =~= Seq::<GeneratorUpdate>::empty());
        }
        while k < updates.len()
            invariant
                k <= updates@.len(),
                maze.wf(),
                maze.alike(*old(maze)),
                walls_follow(*old(maze), updates@.take(k as int), *maze),
                self.follows(*old(self), updates@.take(k as int)),
                renders@.no_duplicates(),
                forall|x: Offset| listed@.contains(x.rank() as i128) <==> renders@.contains(x),
                forall|o: Offset| renders@.contains(o) <==> named(updates@.take(k as int), o),
            decreases updates@.len() - k,
        {
            let update = updates[k];
            let ghost done = updates@.take(k as int);
            let ghost more = updates@.take(k + 1);
            let ghost mid = *maze;
            let ghost was = *self;
            proof {
                assert(more.drop_last() =~= done);
                assert(more.last() == update);
            }
            match update {
                GeneratorUpdate::Connect(a, b) => {
                    match maze.connect(a, b) {
                        Ok(_) => {},
                        Err(error) => {
                            return Err(error);
                        },
                    }
                    Self::list(&mut renders, &mut listed, a);
                    Self::list(&mut renders, &mut listed, b);
                    proof {
                        maze.lemma_rewalled_alike(mid, a, b, false);
                        assert(walls_follow(*old(maze), more.drop_last(), mid));
                        assert(mid.adjacent(a, b) && mid.adjacent(b, a));
                        assert(maze.rewalled(mid, a, b, false));
                        assert(more.last() == GeneratorUpdate::Connect(a, b));
                        assert(walls_follow(*old(maze), more, *maze));
                    }
                },
                GeneratorUpdate::Disconnect(a, b) => {
                    match maze.disconnect(a, b) {
                        Ok(_) => {},
                        Err(error) => {
                            return Err(error);
                        },
                    }
                    Self::list(&mut renders, &mut listed, a);
                    Self::list(&mut renders, &mut listed, b);
                    proof {
                        maze.lemma_rewalled_alike(mid, a, b, true);
                        assert(walls_follow(*old(maze), more.drop_last(), mid));
                        assert(walls_follow(*old(maze), more, *maze));
                    }
                },
                GeneratorUpdate::Finished() => {
                    self.finished = true;
                    proof {
                        assert(walls_follow(*old(maze), more.drop_last(), *maze));
                        assert(walls_follow(*old(maze), more, *maze));
                    }
                },
                GeneratorUpdate::Normal(cell) => {
                    Self::list(&mut renders, &mut listed, cell);
                    self.mark(cell, false, false);
                    proof {
                        assert(walls_follow(*old(maze), more.drop_last(), *maze));
                        assert(walls_follow(*old(maze), more, *maze));
                    }
                },
                GeneratorUpdate::Primary(cell) => {
                    Self::list(&mut renders, &mut listed, cell);
                    self.mark(cell, true, false);
                    proof {
                        assert(walls_follow(*old(maze), more.drop_last(), *maze));
                        assert(walls_follow(*old(maze), more, *maze));
                    }
                },
                GeneratorUpdate::Secondary(cell) => {
                    Self::list(&mut renders, &mut listed, cell);
                    self.mark(cell, false, true);
                    proof {
                        assert(walls_follow(*old(maze), more.drop_last(), *maze));
                        assert(walls_follow(*old(maze), more, *maze));
                    }
                },
            }
            proof {
                assert(walls_follow(*old(maze), more, *maze));
                assert forall|o: Offset| (#[trigger] self.primary(o), self.secondary(o)) == shown(
                    (old(self).primary(o), old(self).secondary(o)),
                    more,
                    o,
                ) by {
                    assert((was.primary(o), was.secondary(o)) == shown((old(self).primary(o), old(self).secondary(o)), done, o));
                }
                assert(self.finished() == (old(self).finished() || exists|n: int| 0 <= n < more.len() && #[trigger] more[n] is Finished)) by {
                    if exists|n: int| 0 <= n < done.len() && #[trigger] done[n] is Finished {
                        let n = choose|n: int| 0 <= n < done.len() && #[trigger] done[n] is Finished;
                        assert(more[n] == done[n]);
                    }
                    if update is Finished {
                        assert(more[k as int] is Finished);
                    }
                    if exists|n: int| 0 <= n < more.len() && #[trigger] more[n] is Finished {
                        let n = choose|n: int| 0 <= n < more.len() && #[trigger] more[n] is Finished;
                        if n < k {
                            assert(done[n] == more[n]);
                        }
                    }
                }
                assert forall|o: Offset| renders@.contains(o) <==> named(more, o) by {
                    if named(done, o) {
                        let n = choose|n: int| 0 <= n < done.len() && names(#[trigger] done[n], o);
                        assert(more[n] == done[n]);
                    }
                    if names(update, o) {
                        assert(names(more[k as int], o));
                    }
                    if named(more, o) {
                        let n = choose|n: int| 0 <= n < more.len() && names(#[trigger] more[n], o);
                        if n < k {
                            assert(done[n] == more[n]);
                        }
                    }
                }
            }
            k = k + 1;
        }
        proof {
            assert(updates@.take(updates@.len() as int) =~= updates@);
        }
        Ok(renders)
    }
}

/// Whether each of the two cells of `edge` has a side that leads to the
/// other.
pub open spec fn touching(maze: Maze, edge: (Offset, Offset)) -> bool {
    maze.adjacent(edge.0, edge.1) && maze.adjacent(edge.1, edge.0)
}

/// Whether `after` is `before` with the passages `edges` opened, one after
/// the other, each between two cells that touch each other.
pub open spec fn opened(before: Maze, edges: Seq<(Offset, Offset)>, after: Maze) -> bool
    decreases edges.len(),
{
    if edges.len() == 0 {
        after@ == before@ && after.schema() == before.schema()
    } else {
        exists|mid: Maze|
            {
                &&& mid.wf()
                &&& opened(before, edges.drop_last(), mid)
                &&& touching(mid, edges.last())
                &&& #[trigger] after.rewalled(mid, edges.last().0, edges.last().1, false)
            }
    }
}

/// The passages that `after` holds beyond those of `before`.
pub open spec fn added(before: Seq<(Offset, Offset)>, after: Seq<(Offset, Offset)>) -> Seq<(Offset, Offset)> {
    after.skip(before.len() as int)
}

/// Passages are opened in a maze alike: the cells stay where they are.
proof fn lemma_opened_alike(before: Maze, edges: Seq<(Offset, Offset)>, after: Maze)
    requires
        opened(before, edges, after),
    ensures
        after.alike(before),
    decreases edges.len(),
{
    if edges.len() > 0 {
        let a = edges.last().0;
        let b = edges.last().1;
        let mid = choose|mid: Maze|
            {
                &&& mid.wf()
                &&& opened(before, edges.drop_last(), mid)
                &&& touching(mid, edges.last())
                &&& #[trigger] after.rewalled(mid, a, b, false)
            };
        lemma_opened_alike(before, edges.drop_last(), mid);
        after.lemma_rewalled_alike(mid, a, b, false);
        assert forall|i: int| 0 <= i < after@.len() implies {
            &&& (#[trigger] after@[i]).offset == before@[i].offset
            &&& after@[i].polygon == before@[i].polygon
            &&& after@[i].walls@.len() == before@[i].walls@.len()
        } by {
            assert(after@[i].offset == mid@[i].offset);
            assert(mid@[i].offset == before@[i].offset);
        }
    }
}

/// The passages that are opened run between cells that touch each other,
/// whatever walls stand at the time.
proof fn lemma_opened_touching(before: Maze, edges: Seq<(Offset, Offset)>, after: Maze, k: int)
    requires
        before.wf(),
        opened(before, edges, after),
        0 <= k < edges.len(),
    ensures
        touching(before, edges[k]),
    decreases edges.len(),
{
    let a = edges.last().0;
    let b = edges.last().1;
    let mid = choose|mid: Maze|
        {
            &&& mid.wf()
            &&& opened(before, edges.drop_last(), mid)
            &&& touching(mid, edges.last())
            &&& #[trigger] after.rewalled(mid, a, b, false)
        };
    if k < edges.len() - 1 {
        lemma_opened_touching(before, edges.drop_last(), mid, k);
        assert(edges.drop_last()[k] == edges[k]);
    } else {
        lemma_opened_alike(before, edges.drop_last(), mid);
        mid.lemma_alike(before);
    }
}

/// What is opened in a maze is opened in every maze with the same cells
/// and walls.
proof fn lemma_opened_same(before: Maze, edges: Seq<(Offset, Offset)>, after: Maze, same: Maze)
    requires
        opened(before, edges, after),
        same@ == after@,
        same.schema() == after.schema(),
    ensures
        opened(before, edges, same),
{
    if edges.len() > 0 {
        let a = edges.last().0;
        let b = edges.last().1;
        let mid = choose|mid: Maze|
            {
                &&& mid.wf()
                &&& opened(before, edges.drop_last(), mid)
                &&& touching(mid, edges.last())
                &&& #[trigger] after.rewalled(mid, a, b, false)
            };
        assert(same.rewalled(mid, a, b, false));
    }
}

/// Passages opened after other passages are opened after them all.
proof fn lemma_opened_on(before: Maze, first: Seq<(Offset, Offset)>, between: Maze, second: Seq<(Offset, Offset)>, after: Maze)
    requires
        opened(before, first, between),
        opened(between, second, after),
    ensures
        opened(before, first + second, after),
    decreases second.len(),
{
    let all = first + second;
    if second.len() == 0 {
        assert(all =~= first);
        lemma_opened_same(before, first, between, after);
    } else {
        let a = second.last().0;
        let b = second.last().1;
        let mid = choose|mid: Maze|
            {
                &&& mid.wf()
                &&& opened(between, second.drop_last(), mid)
                &&& touching(mid, second.last())
                &&& #[trigger] after.rewalled(mid, a, b, false)
            };
        lemma_opened_on(before, first, between, second.drop_last(), mid);
        assert(all.drop_last() =~= first + second.drop_last());
        assert(all.last() == second.last());
        assert(after.rewalled(mid, all.last().0, all.last().1, false));
    }
}

/// Updates that close no passage change the walls as the passages that
/// they open do.
proof fn lemma_follow_opened(before: Maze, updates: Seq<GeneratorUpdate>, after: Maze)
    requires
        walls_follow(before, updates, after),
        forall|k: int| 0 <= k < updates.len() ==> !(#[trigger] updates[k] is Disconnect),
    ensures
        opened(before, connects_of(updates), after),
    decreases updates.len(),
{
    if updates.len() > 0 {
        let rest = updates.drop_last();
        assert forall|k: int| 0 <= k < rest.len() implies !(#[trigger] rest[k] is Disconnect) by {
            assert(rest[k] == updates[k]);
        }
        assert(!(updates[updates.len() - 1] is Disconnect));
        match updates.last() {
            GeneratorUpdate::Connect(a, b) => {
                let mid = choose|mid: Maze|
                    {
                        &&& mid.wf()
                        &&& walls_follow(before, rest, mid)
                        &&& mid.adjacent(a, b) && mid.adjacent(b, a)
                        &&& #[trigger] after.rewalled(mid, a, b, false)
                    };
                lemma_follow_opened(before, rest, mid);
                let edges = connects_of(updates);
                assert(edges.drop_last() =~= connects_of(rest));
                assert(edges.last() == (a, b));
                assert(after.rewalled(mid, edges.last().0, edges.last().1, false));
            },
            _ => {
                lemma_follow_opened(before, rest, after);
            },
        }
    }
}

/// Every passage that updates open is named by them at both ends.
proof fn lemma_connects_named(updates: Seq<GeneratorUpdate>, k: int)
    requires
        0 <= k < connects_of(updates).len(),
    ensures
        named(updates, connects_of(updates)[k].0),
        named(updates, connects_of(updates)[k].1),
    decreases updates.len(),
{
    let rest = updates.drop_last();
    let last = updates.len() - 1;
    let edge = connects_of(updates)[k];
    if k < connects_of(rest).len() {
        lemma_connects_named(rest, k);
        assert(connects_of(rest)[k] == edge);
        let n = choose|n: int| 0 <= n < rest.len() && names(#[trigger] rest[n], edge.0);
        assert(names(updates[n], edge.0));
        let m = choose|m: int| 0 <= m < rest.len() && names(#[trigger] rest[m], edge.1);
        assert(names(updates[m], edge.1));
    } else {
        assert(names(updates[last], edge.0));
        assert(names(updates[last], edge.1));
    }
}

/// The passage that update `n` opens comes after the passages of the
/// updates before it.
proof fn lemma_connects_at(updates: Seq<GeneratorUpdate>, n: int, a: Offset, b: Offset)
    requires
        0 <= n < updates.len(),
        updates[n] == GeneratorUpdate::Connect(a, b),
    ensures
        connects_of(updates.take(n)).len() < connects_of(updates).len(),
        connects_of(updates).take(connects_of(updates.take(n)).len() as int) == connects_of(updates.take(n)),
        connects_of(updates)[connects_of(updates.take(n)).len() as int] == (a, b),
{
    let upto = updates.take(n + 1);
    let rest = updates.skip(n + 1);
    assert(updates =~= upto + rest);
    lemma_connects_of_both(upto, rest);
    assert(upto.drop_last() =~= updates.take(n));
    assert(upto.last() == updates[n]);
    let early = connects_of(updates.take(n));
    assert(connects_of(upto) =~= early.push((a, b)));
    assert(connects_of(updates).take(early.len() as int) =~= early);
}

/// Whether `steps` steps of a generator, each with its updates applied to
/// the maze and to the highlights, lead from the generator `from`, the
/// maze `before` and the highlights `shown_before` to the generator `to`,
/// the maze `after` and the highlights `shown_after`.
pub open spec fn stepped<G: Generator>(
    from: G,
    before: Maze,
    shown_before: Highlights,
    steps: int,
    to: G,
    after: Maze,
    shown_after: Highlights,
) -> bool
    decreases steps,
{
    if steps <= 0 {
        to == from && after@ == before@ && after.schema() == before.schema() && shown_after == shown_before
    } else {
        exists|generator: G, maze: Maze, shown: Highlights, updates: Seq<GeneratorUpdate>|
            #![trigger generator.moved(&maze, &to, updates), shown_after.follows(shown, updates)]
            {
                &&& stepped(from, before, shown_before, steps - 1, generator, maze, shown)
                &&& generator.moved(&maze, &to, updates)
                &&& walls_follow(maze, updates, after)
                &&& shown_after.follows(shown, updates)
            }
    }
}

/// Whether a step of the generator `from` on the maze `before` stopped at
/// an update that opens a passage between the two cells of `error`, which
/// do not touch each other, with the updates before it applied.
pub open spec fn stopped<G: Generator>(
    from: G,
    before: Maze,
    shown_before: Highlights,
    to: G,
    after: Maze,
    shown_after: Highlights,
    error: AdjacencyError,
) -> bool {
    exists|updates: Seq<GeneratorUpdate>, n: int|
        #![trigger from.moved(&before, &to, updates), updates[n]]
        {
            &&& from.moved(&before, &to, updates)
            &&& 0 <= n < updates.len()
            &&& walls_follow(before, updates.take(n), after)
            &&& shown_after.follows(shown_before, updates.take(n))
            &&& updates[n] == GeneratorUpdate::Connect(error.cell, error.other)
            &&& refused(after, updates[n])
        }
}

/// The passages of one more step are opened after those of the steps
/// before, each between two cells that touch each other.
proof fn lemma_step_opened(
    start: Maze,
    fresh: Seq<(Offset, Offset)>,
    mid: Maze,
    reported: Seq<GeneratorUpdate>,
    after: Maze,
)
    requires
        start.wf(),
        mid.wf(),
        mid.alike(start),
        opened(start, fresh, mid),
        forall|k: int| 0 <= k < fresh.len() ==> touching(start, #[trigger] fresh[k]),
        walls_follow(mid, reported, after),
        forall|k: int| 0 <= k < reported.len() ==> !(#[trigger] reported[k] is Disconnect),
    ensures
        opened(start, fresh + connects_of(reported), after),
        forall|k: int| 0 <= k < (fresh + connects_of(reported)).len() ==> touching(start, #[trigger] (fresh + connects_of(reported))[k]),
{
    let more = connects_of(reported);
    let all = fresh + more;
    lemma_follow_opened(mid, reported, after);
    lemma_opened_on(start, fresh, mid, more, after);
    mid.lemma_alike(start);
    assert forall|k: int| 0 <= k < all.len() implies touching(start, #[trigger] all[k]) by {
        if k >= fresh.len() {
            lemma_opened_touching(mid, more, after, k - fresh.len());
            assert(all[k] == more[k - fresh.len()]);
        } else {
            assert(all[k] == fresh[k]);
        }
    }
}

/// Where a step stops at update `n`, the passages before it are opened,
/// and the passage of that update runs between cells that do not touch.
proof fn lemma_step_refused(
    start: Maze,
    fresh: Seq<(Offset, Offset)>,
    mid: Maze,
    reported: Seq<GeneratorUpdate>,
    n: int,
    after: Maze,
    a: Offset,
    b: Offset,
) -> (at: int)
    requires
        start.wf(),
        mid.wf(),
        after.wf(),
        mid.alike(start),
        after.alike(start),
        opened(start, fresh, mid),
        forall|k: int| 0 <= k < fresh.len() ==> touching(start, #[trigger] fresh[k]),
        0 <= n < reported.len(),
        walls_follow(mid, reported.take(n), after),
        forall|k: int| 0 <= k < reported.len() ==> !(#[trigger] reported[k] is Disconnect),
        reported[n] == GeneratorUpdate::Connect(a, b),
        refused(after, reported[n]),
    ensures
        0 <= at < (fresh + connects_of(reported)).len(),
        (fresh + connects_of(reported))[at] == (a, b),
        !touching(start, (a, b)),
        forall|k: int| 0 <= k < at ==> touching(start, #[trigger] (fresh + connects_of(reported))[k]),
        opened(start, (fresh + connects_of(reported)).take(at), after),
{
    let all = fresh + connects_of(reported);
    let early = connects_of(reported.take(n));
    assert forall|k: int| 0 <= k < reported.take(n).len() implies !(#[trigger] reported.take(n)[k] is Disconnect) by {
        assert(reported.take(n)[k] == reported[k]);
    }
    lemma_step_opened(start, fresh, mid, reported.take(n), after);
    lemma_connects_at(reported, n, a, b);
    let at = (fresh.len() + early.len()) as int;
    assert(all.take(at) =~= fresh + early);
    assert(all[at] == (a, b));
    after.lemma_alike(start);
    assert forall|k: int| 0 <= k < at implies touching(start, #[trigger] all[k]) by {
        assert(all[k] == (fresh + early)[k]);
    }
    at
}

impl Highlights {
    /// Adds the cells `drawn` to the cells that are to be drawn again.
    fn gather(renders: &mut Vec<Offset>, listed: &mut HashSet<i128>, drawn: &Vec<Offset>)
        requires
            old(renders)@.no_duplicates(),
            forall|x: Offset| old(listed)@.contains(x.rank() as i128) <==> old(renders)@.contains(x),
        ensures
            final(renders)@.no_duplicates(),
            forall|x: Offset| final(listed)@.contains(x.rank() as i128) <==> final(renders)@.contains(x),
            forall|x: Offset| #[trigger] final(renders)@.contains(x) <==> old(renders)@.contains(x) || drawn@.contains(x),
    {
        let mut k: usize = 0;
        while k < drawn.len()
            invariant
                k <= drawn@.len(),
                renders@.no_duplicates(),
                forall|x: Offset| listed@.contains(x.rank() as i128) <==> renders@.contains(x),
                forall|x: Offset| renders@.contains(x) <==> old(renders)@.contains(x) || exists|j: int| 0 <= j < k && #[trigger] drawn@[j] == x,
            decreases drawn@.len() - k,
        {
            Self::list(renders, listed, drawn[k]);
            k = k + 1;
        }
    }

    /// Lets the generator do `iterations` steps and applies the updates of
    /// each to the maze and to the highlights. Returns the cells that are to
    /// be drawn again, each once.
    ///
    /// The passages that the generator opens are opened in the maze, in
    /// their order. This succeeds if each of them runs between two cells
    /// that touch each other. Otherwise the work stops at the first that
    /// does not, with the passages before it opened, and the error holds
    /// its two cells.
    pub fn step<G: Generator>(&mut self, generator: &mut G, maze: &mut Maze, iterations: u32) -> (result: Result<Vec<Offset>, AdjacencyError>)
        requires
            old(maze).wf(),
            old(generator).ready(old(maze)),
        ensures
            final(maze).wf(),
            final(maze).alike(*old(maze)),
            final(generator).ready(final(maze)),
            old(generator).carved().is_prefix_of(final(generator).carved()),
            iterations == 0 ==> final(generator).carved() == old(generator).carved(),
            result is Ok <==> forall|k: int|
                0 <= k < added(old(generator).carved(), final(generator).carved()).len() ==> touching(
                    *old(maze),
                    #[trigger] added(old(generator).carved(), final(generator).carved())[k],
                ),
            result matches Ok(renders) ==> {
                &&& stepped(*old(generator), *old(maze), *old(self), iterations as int, *final(generator), *final(maze), *final(self))
                &&& opened(*old(maze), added(old(generator).carved(), final(generator).carved()), *final(maze))
                &&& renders@.no_duplicates()
                &&& forall|k: int|
                    0 <= k < added(old(generator).carved(), final(generator).carved()).len() ==> {
                        &&& renders@.contains((#[trigger] added(old(generator).carved(), final(generator).carved())[k]).0)
                        &&& renders@.contains(added(old(generator).carved(), final(generator).carved())[k].1)
                    }
                &&& final(self).finished() == (old(self).finished() || (iterations > 0 && final(generator).finished()))
            },
            result matches Err(error) ==> {
                &&& exists|done: int, from: G, before: Maze, shown: Highlights|
                    #![trigger stepped(*old(generator), *old(maze), *old(self), done, from, before, shown)]
                    {
                        &&& 0 <= done < iterations
                        &&& stepped(*old(generator), *old(maze), *old(self), done, from, before, shown)
                        &&& stopped(from, before, shown, *final(generator), *final(maze), *final(self), error)
                    }
                &&& exists|n: int|
                    {
                        &&& 0 <= n < added(old(generator).carved(), final(generator).carved()).len()
                        &&& #[trigger] added(old(generator).carved(), final(generator).carved())[n] == (error.cell, error.other)
                        &&& !touching(*old(maze), (error.cell, error.other))
                        &&& forall|k: int|
                            0 <= k < n ==> touching(*old(maze), #[trigger] added(old(generator).carved(), final(generator).carved())[k])
                        &&& opened(*old(maze), added(old(generator).carved(), final(generator).carved()).take(n), *final(maze))
                    }
            },
    {
        let mut renders: Vec<Offset> = Vec::new();
        let mut listed: HashSet<i128> = HashSet::new();
        let mut i: u32 = 0;
        let ghost base = generator.carved();
        let ghost mut fresh = Seq::<(Offset, Offset)>::empty();
        proof {
            assert(generator.carved() =~= base + fresh);
        }
        while i < iterations
            invariant
                i <= iterations,
                old(maze).wf(),
                maze.wf(),
                maze.alike(*old(maze)),
                generator.ready(maze),
                base == old(generator).carved(),
                generator.carved() == base + fresh,
                i == 0 ==> fresh.len() == 0,
                stepped(*old(generator), *old(maze), *old(self), i as int, *generator, *maze, *self),
                opened(*old(maze), fresh, *maze),
                forall|k: int| 0 <= k < fresh.len() ==> touching(*old(maze), #[trigger] fresh[k]),
                forall|k: int| 0 <= k < fresh.len() ==> renders@.contains((#[trigger] fresh[k]).0) && renders@.contains(fresh[k].1),
                renders@.no_duplicates(),
                forall|x: Offset| listed@.contains(x.rank() as i128) <==> renders@.contains(x),
                self.finished() == (old(self).finished() || (i > 0 && generator.finished())),
            decreases iterations - i,
        {
            let ghost was = generator.finished();
            let ghost from = *generator;
            let updates = generator.step(maze);
            let ghost reported = updates@;
            let ghost more = connects_of(reported);
            let ghost all = fresh + more;
            let ghost mid = *maze;
            let ghost before = *self;
            let ghost kept = renders@;
            proof {
                assert(generator.carved() =~= base + all);
                assert(added(base, generator.carved()) =~= all);
            }
            let drawn = match self.process_updates(maze, updates) {
                Ok(drawn) => drawn,
                Err(error) => {
                    proof {
                        generator.lemma_ready_alike(&mid, maze);
                        let n = choose|n: int|
                            {
                                &&& 0 <= n < reported.len()
                                &&& #[trigger] walls_follow(mid, reported.take(n), *maze)
                                &&& self.follows(before, reported.take(n))
                                &&& refused(*maze, reported[n])
                                &&& reported[n] == GeneratorUpdate::Connect(error.cell, error.other) || reported[n]
                                    == GeneratorUpdate::Disconnect(error.cell, error.other)
                            };
                        assert(!(reported[n] is Disconnect));
                        let at = lemma_step_refused(*old(maze), fresh, mid, reported, n, *maze, error.cell, error.other);
                        assert(from.moved(&mid, generator, reported));
                        assert(stopped(from, mid, before, *generator, *maze, *self, error));
                        assert(stepped(*old(generator), *old(maze), *old(self), i as int, from, mid, before));
                    }
                    return Err(error);
                },
            };
            proof {
                generator.lemma_ready_alike(&mid, maze);
                let last = reported.len() - 1;
                if exists|k: int| 0 <= k < reported.len() && #[trigger] reported[k] is Finished {
                    let k = choose|k: int| 0 <= k < reported.len() && #[trigger] reported[k] is Finished;
                    assert(k == last);
                }
                if reported.last() is Finished {
                    assert(reported[last] is Finished);
                }
                if was {
                    assert(reported[0] is Finished);
                }
                lemma_step_opened(*old(maze), fresh, mid, reported, *maze);
                assert forall|k: int| 0 <= k < more.len() implies drawn@.contains((#[trigger] more[k]).0) && drawn@.contains(more[k].1) by {
                    lemma_connects_named(reported, k);
                }
                let count = i + 1;
                assert(stepped(*old(generator), *old(maze), *old(self), count - 1, from, mid, before));
                assert(from.moved(&mid, generator, reported));
                assert(self.follows(before, reported));
                assert(stepped(*old(generator), *old(maze), *old(self), count as int, *generator, *maze, *self));
            }
            Self::gather(&mut renders, &mut listed, &drawn);
            proof {
                assert forall|n: int| 0 <= n < all.len() implies renders@.contains((#[trigger] all[n]).0) && renders@.contains(all[n].1) by {
                    if n >= fresh.len() {
                        let edge = more[n - fresh.len()];
                        assert(all[n] == edge);
                        assert(drawn@.contains(edge.0) && drawn@.contains(edge.1));
                        assert(renders@.contains(edge.0) && renders@.contains(edge.1));
                    } else {
                        assert(all[n] == fresh[n]);
                        assert(kept.contains(fresh[n].0) && kept.contains(fresh[n].1));
                        assert(renders@.contains(fresh[n].0) && renders@.contains(fresh[n].1));
                    }
                }
                fresh = all;
            }
            i = i + 1;
        }
        proof {
            assert(added(base, generator.carved()) =~= fresh);
        }
        Ok(renders)
    }
}

} // verus!
