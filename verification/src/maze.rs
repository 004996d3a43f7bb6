//! The cells that a region keeps of a tiling, and the walls between them.

use crate::flood::{decided, offset_at, region_of};
use crate::graph::counted;
use crate::lattice::{lemma_rank_orders, position_of, representable, Offset};
use crate::tiling::{PolygonSide, TilePolygon, Tiling, TilingError};
use std::collections::HashMap;
use std::collections::HashSet;
use vstd::prelude::*;

verus! {

/// One polygon of the tiling, placed on the lattice.
///
/// `walls` has one entry for each side of the polygon, in the order of the
/// sides: `true` where the wall stands, `false` where the passage is open.
#[derive(Clone, Debug, PartialEq, Eq)]
pub struct Cell {
    pub offset: Offset,
    pub walls: Vec<bool>,
    pub polygon: usize,
}

/// A side of a cell together with the cell that lies across it.
#[derive(Clone, Copy, Debug, PartialEq, Eq, Structural)]
pub struct Adjacency {
    pub index: usize,
    pub offset: Offset,
}

/// Why no maze could be built.
#[derive(Clone, Debug)]
pub enum ConstructionError {
    /// The tiling breaks one of its rules.
    InvalidTiling(TilingError),
    /// The centre of the maze lies outside the region.
    CenterOutOfBounds,
    /// Two polygons were placed at the same offset.
    DuplicateCell(Offset),
    /// The region keeps no cell at all.
    EmptyMaze,
}

/// The two cells that were to be joined or parted and do not touch.
#[derive(Clone, Copy, Debug, PartialEq, Eq, Structural)]
pub struct AdjacencyError {
    pub cell: Offset,
    pub other: Offset,
}

/// The cells of a maze on a tiling.
pub struct Maze {
    cells: Vec<Cell>,
    index: HashMap<i128, usize>,
    tiling: Tiling,
}

impl Cell {
    /// Whether any side of the cell has no wall.
    pub open spec fn open(self) -> bool {
        exists|s: int| 0 <= s < self.walls@.len() && !self.walls@[s]
    }

    /// Whether the cell has been carved into: at least one of its walls is gone.
    pub fn is_open(&self) -> (open: bool)
        ensures
            open == self.open(),
    {
        let mut s: usize = 0;
        while s < self.walls.len()
            invariant
                s <= self.walls@.len(),
                forall|t: int| 0 <= t < s ==> self.walls@[t],
            decreases self.walls@.len() - s,
        {
            if !self.walls[s] {
                return true;
            }
            s = s + 1;
        }
        false
    }
}

impl View for Maze {
    type V = Seq<Cell>;

    /// The cells of the maze, in the order in which they were placed.
    closed spec fn view(&self) -> Seq<Cell> {
        self.cells@
    }
}

impl Maze {
    /// The tiling that the cells are polygons of.
    pub closed spec fn schema(self) -> Tiling {
        self.tiling
    }

    /// The lookup table of the maze knows every cell, and nothing else.
    pub closed spec fn indexed(self) -> bool {
        &&& forall|i: int| 0 <= i < self.cells@.len() ==> {
            &&& self.index@.contains_key(#[trigger] self.cells@[i].offset.rank() as i128)
            &&& self.index@[self.cells@[i].offset.rank() as i128] == i
        }
        &&& forall|k: i128| self.index@.contains_key(k) ==> {
            &&& (#[trigger] self.index@[k]) < self.cells@.len()
            &&& self.cells@[self.index@[k] as int].offset.rank() == k
        }
    }

    /// Whether the maze has a cell at `o`.
    pub open spec fn has(self, o: Offset) -> bool {
        exists|i: int| 0 <= i < self@.len() && #[trigger] self@[i].offset == o
    }

    /// The place of the cell at `o` among the cells.
    pub open spec fn place(self, o: Offset) -> int {
        choose|i: int| 0 <= i < self@.len() && #[trigger] self@[i].offset == o
    }

    /// The cell at `o`.
    pub open spec fn cell(self, o: Offset) -> Cell {
        self@[self.place(o)]
    }

    /// Cell `i` is a polygon of the tiling and has a wall entry for each side.
    pub open spec fn fits(self, i: int) -> bool {
        &&& self@[i].polygon < self.schema().polygons@.len()
        &&& self@[i].walls@.len() == self.schema().polygons@[self@[i].polygon as int].sides@.len()
    }

    /// The maze is sound: its tiling is valid, every cell fits the tiling,
    /// and no two cells lie at the same offset.
    pub open spec fn wf(self) -> bool {
        &&& self.schema().valid()
        &&& self.indexed()
        &&& forall|i: int| 0 <= i < self@.len() ==> #[trigger] self.fits(i)
        &&& forall|i: int, j: int| 0 <= i < j < self@.len() ==> #[trigger] self@[i].offset != #[trigger] self@[j].offset
    }

    /// The number of sides of the cell at `o`.
    pub open spec fn sides(self, o: Offset) -> int {
        self.cell(o).walls@.len() as int
    }

    /// The lattice position across side `s` of the cell at `o`.
    pub open spec fn across(self, o: Offset, s: int) -> (int, int) {
        self.schema().beyond(o, self.cell(o).polygon as int, s)
    }

    /// Side `s` of the cell at `a` leads to the cell at `b`, another cell.
    pub open spec fn leads(self, a: Offset, s: int, b: Offset) -> bool {
        &&& self.has(a)
        &&& self.has(b)
        &&& a != b
        &&& 0 <= s < self.sides(a)
        &&& self.across(a, s) == position_of(b)
    }

    /// The first `n` sides of the cell at `o` that lead to another cell of
    /// the maze, in their order, each with the offset of that cell.
    pub open spec fn around(self, o: Offset, n: int) -> Seq<Adjacency>
        decreases n,
    {
        if n <= 0 {
            Seq::empty()
        } else if self.leads(o, n - 1, offset_at(self.across(o, n - 1))) && representable(self.across(o, n - 1)) {
            self.around(o, n - 1).push(Adjacency { index: (n - 1) as usize, offset: offset_at(self.across(o, n - 1)) })
        } else {
            self.around(o, n - 1)
        }
    }

    /// The neighbours of the cell at `o`: all its sides that lead to another
    /// cell of the maze, in their order.
    pub open spec fn neighbours(self, o: Offset) -> Seq<Adjacency> {
        if self.has(o) {
            self.around(o, self.sides(o))
        } else {
            Seq::empty()
        }
    }

    /// Some side of the cell at `a` leads to the cell at `b`.
    pub open spec fn adjacent(self, a: Offset, b: Offset) -> bool {
        exists|s: int| self.leads(a, s, b)
    }

    /// Side `s` is the first side of the cell at `a` that leads to the cell at `b`.
    pub open spec fn first_toward(self, a: Offset, s: int, b: Offset) -> bool {
        &&& self.leads(a, s, b)
        &&& forall|t: int| 0 <= t < s ==> !self.leads(a, t, b)
    }

    /// Whether `route` leads from cell to cell, each with a side that leads
    /// to the next.
    pub open spec fn chained(self, route: Seq<Offset>) -> bool {
        &&& route.len() > 0
        &&& forall|k: int| 0 <= k < route.len() - 1 ==> self.adjacent(#[trigger] route[k], route[k + 1])
    }

    /// Whether one can get from the cell at `a` to the cell at `b` from cell
    /// to adjacent cell, whatever walls stand.
    pub open spec fn linked(self, a: Offset, b: Offset) -> bool {
        exists|route: Seq<Offset>| #[trigger] self.chained(route) && route.first() == a && route.last() == b
    }

    /// Whether one can get from every cell of the maze to every other.
    pub open spec fn whole(self) -> bool {
        forall|a: Offset, b: Offset| self.has(a) && self.has(b) ==> #[trigger] self.linked(a, b)
    }

    /// Whether the cell at `a` has a neighbour that comes after it in the
    /// order of the lattice.
    pub open spec fn onward(self, a: Offset) -> bool {
        exists|b: Offset| #[trigger] self.adjacent(a, b) && a.precedes(b)
    }

    /// Whether no cell of the maze comes after the cell at `a`.
    pub open spec fn ends_at(self, a: Offset) -> bool {
        forall|c: Offset| #[trigger] self.has(c) ==> !a.precedes(c)
    }

    /// Whether every cell of the maze but the last in the order of the
    /// lattice has a neighbour that comes after it.
    pub open spec fn forward(self) -> bool {
        forall|a: Offset| #[trigger] self.has(a) ==> self.onward(a) || self.ends_at(a)
    }

    /// Whether the wall stands on side `s` of the cell at `o`.
    pub open spec fn wall(self, o: Offset, s: int) -> bool {
        self.cell(o).walls@[s]
    }

    /// The cells of the maze.
    pub fn cells(&self) -> (cells: &Vec<Cell>)
        ensures
            cells@ == self@,
    {
        &self.cells
    }

    /// The tiling of the maze.
    pub fn tiling(&self) -> (tiling: &Tiling)
        ensures
            *tiling == self.schema(),
    {
        &self.tiling
    }

    /// In a sound maze, the cell at an offset is found at one place only.
    pub proof fn lemma_place(self, i: int)
        requires
            self.wf(),
            0 <= i < self@.len(),
        ensures
            self.has(self@[i].offset),
            self.place(self@[i].offset) == i,
            self.cell(self@[i].offset) == self@[i],
    {
        let o = self@[i].offset;
        let j = self.place(o);
        assert(0 <= j < self@.len() && self@[j].offset == o);
        if i < j {
            assert(self@[i].offset != self@[j].offset);
        } else if j < i {
            assert(self@[j].offset != self@[i].offset);
        }
    }

    /// Looks up the place of the cell at `o`.
    pub fn find(&self, o: &Offset) -> (found: Option<usize>)
        requires
            self.wf(),
        ensures
            found is Some <==> self.has(*o),
            found matches Some(i) ==> i == self.place(*o) && i < self@.len(),
    {
        let key = o.key();
        match self.index.get(&key) {
            Some(i) => {
                proof {
                    lemma_rank_orders(self.cells@[*i as int].offset, *o);
                    self.lemma_place(*i as int);
                }
                Some(*i)
            },
            None => {
                proof {
                    if self.has(*o) {
                        let i = self.place(*o);
                        assert(self.index@.contains_key(self.cells@[i].offset.rank() as i128));
                    }
                }
                None
            },
        }
    }

    /// The cell at `o`, if the maze has one.
    pub fn get(&self, o: &Offset) -> (found: Option<&Cell>)
        requires
            self.wf(),
        ensures
            found is Some <==> self.has(*o),
            found matches Some(cell) ==> *cell == self.cell(*o),
    {
        match self.find(o) {
            Some(i) => Some(&self.cells[i]),
            None => None,
        }
    }

    /// The polygon of the tiling that `cell` is an instance of.
    pub fn get_polygon(&self, cell: &Cell) -> (polygon: &TilePolygon)
        requires
            cell.polygon < self.schema().polygons@.len(),
        ensures
            *polygon == self.schema().polygons@[cell.polygon as int],
    {
        &self.tiling.polygons[cell.polygon]
    }

    /// The offset across side `s` of `cell`, unless it lies off the lattice
    /// that an `Offset` can hold.
    fn calculate_offset(&self, cell: &Cell, s: usize) -> (found: Option<Offset>)
        requires
            self.schema().valid(),
            self.schema().has_side(cell.polygon as int, s as int),
        ensures
            found matches Some(o) ==> position_of(o) == self.schema().beyond(cell.offset, cell.polygon as int, s as int),
            found is None ==> !representable(self.schema().beyond(cell.offset, cell.polygon as int, s as int)),
    {
        assert(self.schema().side_in_range(cell.polygon as int, s as int));
        let here = &self.tiling.polygons[cell.polygon];
        let side: PolygonSide = here.sides[s];
        let there = &self.tiling.polygons[side.other_polygon];
        let mut x: i128 = cell.offset.x as i128 - here.offset.x as i128 + there.offset.x as i128;
        let mut y: i128 = cell.offset.y as i128 - here.offset.y as i128 + there.offset.y as i128;
        if side.other_tile != 0 {
            let shift = self.tiling.neighbors[side.other_tile - 1];
            x = x + shift.x as i128;
            y = y + shift.y as i128;
        }
        if x < isize::MIN as i128 || x > isize::MAX as i128 || y < isize::MIN as i128 || y > isize::MAX as i128 {
            None
        } else {
            Some(Offset { x: x as isize, y: y as isize })
        }
    }

    /// The sides of the cell at `offset` that lead to another cell of the
    /// maze, in the order of the sides, each with the offset of that cell. A
    /// side that leads out of the maze or back to the cell itself is left
    /// out; so is every side when the maze has no cell at `offset`.
    pub fn adjacencies(&self, offset: Offset) -> (found: Vec<Adjacency>)
        requires
            self.wf(),
        ensures
            found@ == self.neighbours(offset),
            forall|k: int| 0 <= k < found@.len() ==> (#[trigger] found@[k]).offset != offset,
            forall|k: int| 0 <= k < found@.len() ==> self.leads(offset, (#[trigger] found@[k]).index as int, found@[k].offset),
            forall|j: int, k: int| 0 <= j < k < found@.len() ==> (#[trigger] found@[j]).index < (#[trigger] found@[k]).index,
            forall|s: int, b: Offset| self.leads(offset, s, b) ==> found@.contains(Adjacency { index: s as usize, offset: b }),
    {
        let mut found: Vec<Adjacency> = Vec::new();
        let place = match self.find(&offset) {
            Some(place) => place,
            None => {
                return found;
            },
        };
        assert(self.fits(place as int));
        let cell = &self.cells[place];
        let count = cell.walls.len();
        let mut s: usize = 0;
        while s < count
            invariant
                self.wf(),
                self.has(offset),
                place == self.place(offset),
                place < self@.len(),
                *cell == self@[place as int],
                self.fits(place as int),
                count == cell.walls@.len(),
                s <= count,
                found@ == self.around(offset, s as int),
                forall|k: int| 0 <= k < found@.len() ==> self.leads(offset, (#[trigger] found@[k]).index as int, found@[k].offset),
                forall|k: int| 0 <= k < found@.len() ==> (#[trigger] found@[k]).index < s,
                forall|j: int, k: int| 0 <= j < k < found@.len() ==> (#[trigger] found@[j]).index < (#[trigger] found@[k]).index,
                forall|t: int, b: Offset| 0 <= t < s && self.leads(offset, t, b) ==> found@.contains(Adjacency { index: t as usize, offset: b }),
            decreases count - s,
        {
            match self.calculate_offset(cell, s) {
                Some(other) => {
                    if !(other == offset) && self.find(&other).is_some() {
                        let ghost before = found@;
                        let adjacency = Adjacency { index: s, offset: other };
                        found.push(adjacency);
                        proof {
                            assert(self.leads(offset, s as int, other));
                            assert(found@[before.len() as int] == adjacency);
                            assert forall|t: int, b: Offset| 0 <= t < s + 1 && self.leads(offset, t, b) implies found@.contains(
                                Adjacency { index: t as usize, offset: b },
                            ) by {
                                if t < s {
                                    let k = choose|k: int| 0 <= k < before.len() && before[k] == (Adjacency { index: t as usize, offset: b });
                                    assert(found@[k] == before[k]);
                                } else {
                                    assert(b == other);
                                }
                            }
                        }
                    }
                },
                None => {},
            }
            s = s + 1;
        }
        found
    }

    /// The first side of the cell at `cell` that leads to the cell at `to`.
    fn side_toward(&self, cell: Offset, to: Offset) -> (found: Option<usize>)
        requires
            self.wf(),
        ensures
            found is Some <==> self.adjacent(cell, to),
            found matches Some(s) ==> self.first_toward(cell, s as int, to),
    {
        let around = self.adjacencies(cell);
        let mut k: usize = 0;
        while k < around.len()
            invariant
                k <= around@.len(),
                forall|j: int| 0 <= j < k ==> (#[trigger] around@[j]).offset != to,
                forall|k: int| 0 <= k < around@.len() ==> self.leads(cell, (#[trigger] around@[k]).index as int, around@[k].offset),
                forall|j: int, k: int| 0 <= j < k < around@.len() ==> (#[trigger] around@[j]).index < (#[trigger] around@[k]).index,
                forall|s: int, b: Offset| self.leads(cell, s, b) ==> around@.contains(Adjacency { index: s as usize, offset: b }),
            decreases around@.len() - k,
        {
            if around[k].offset == to {
                proof {
                    let s = around@[k as int].index as int;
                    assert forall|t: int| 0 <= t < s implies !self.leads(cell, t, to) by {
                        if self.leads(cell, t, to) {
                            let j = choose|j: int| 0 <= j < around@.len() && around@[j] == (Adjacency { index: t as usize, offset: to });
                            if j < k {
                            } else if j > k {
                                assert(around@[k as int].index < around@[j].index);
                            }
                        }
                    }
                }
                return Some(around[k].index);
            }
            k = k + 1;
        }
        proof {
            if self.adjacent(cell, to) {
                let s = choose|s: int| self.leads(cell, s, to);
                let j = choose|j: int| 0 <= j < around@.len() && around@[j] == (Adjacency { index: s as usize, offset: to });
                assert(around@[j].offset == to);
            }
        }
        None
    }

    /// Whether some neighbour of the cell at `a` comes after it in the order
    /// of the lattice.
    fn has_later(&self, a: Offset) -> (later: bool)
        requires
            self.wf(),
        ensures
            later == self.onward(a),
    {
        let around = self.adjacencies(a);
        let mut k: usize = 0;
        while k < around.len()
            invariant
                k <= around@.len(),
                forall|j: int| 0 <= j < around@.len() ==> self.leads(a, (#[trigger] around@[j]).index as int, around@[j].offset),
                forall|s: int, b: Offset| self.leads(a, s, b) ==> around@.contains(Adjacency { index: s as usize, offset: b }),
                forall|j: int| 0 <= j < k ==> !a.precedes((#[trigger] around@[j]).offset),
            decreases around@.len() - k,
        {
            if a.before(&around[k].offset) {
                proof {
                    assert(self.leads(a, around@[k as int].index as int, around@[k as int].offset));
                    assert(self.adjacent(a, around@[k as int].offset));
                }
                return true;
            }
            k = k + 1;
        }
        proof {
            if self.onward(a) {
                let b = choose|b: Offset| #[trigger] self.adjacent(a, b) && a.precedes(b);
                let s = choose|s: int| self.leads(a, s, b);
                let wanted = Adjacency { index: s as usize, offset: b };
                let j = choose|j: int| 0 <= j < around@.len() && around@[j] == wanted;
                assert(around@[j].offset == b);
            }
        }
        false
    }

    /// Decides `forward`: whether every cell but the last in the order of
    /// the lattice has a neighbour that comes after it.
    pub fn is_forward(&self) -> (forward: bool)
        requires
            self.wf(),
        ensures
            forward == self.forward(),
    {
        if self.cells.len() == 0 {
            assert(self.forward()) by {
                assert forall|a: Offset| #[trigger] self.has(a) implies self.onward(a) || self.ends_at(a) by {
                    let i = self.place(a);
                }
            }
            return true;
        }
        let mut last = self.cells[0].offset;
        let mut i: usize = 1;
        while i < self.cells.len()
            invariant
                1 <= i <= self@.len(),
                self.cells@ == self@,
                exists|j: int| 0 <= j < i && #[trigger] self@[j].offset == last,
                forall|j: int| 0 <= j < i ==> !last.precedes(#[trigger] self@[j].offset),
            decreases self@.len() - i,
        {
            if last.before(&self.cells[i].offset) {
                last = self.cells[i].offset;
            }
            i = i + 1;
        }
        proof {
            assert(self.has(last));
            assert(self.ends_at(last)) by {
                assert forall|c: Offset| #[trigger] self.has(c) implies !last.precedes(c) by {
                    let j = self.place(c);
                    assert(!last.precedes(self@[j].offset));
                }
            }
        }
        let mut k: usize = 0;
        while k < self.cells.len()
            invariant
                k <= self@.len(),
                self.wf(),
                self.cells@ == self@,
                self.has(last),
                self.ends_at(last),
                forall|j: int| 0 <= j < k ==> self.onward((#[trigger] self@[j]).offset) || self.ends_at(self@[j].offset),
            decreases self@.len() - k,
        {
            let a = self.cells[k].offset;
            if !(a == last) && !self.has_later(a) {
                proof {
                    assert(self.has(a));
                    assert(a.precedes(last));
                    assert(!self.ends_at(a));
                }
                return false;
            }
            k = k + 1;
        }
        proof {
            assert forall|a: Offset| #[trigger] self.has(a) implies self.onward(a) || self.ends_at(a) by {
                let j = self.place(a);
                assert(self.onward(self@[j].offset) || self.ends_at(self@[j].offset));
            }
        }
        true
    }

    /// Whether `connect` and `disconnect` of the cells at `a` and `b` set
    /// the wall on side `s` of cell `i`: the first side of either cell that
    /// leads to the other.
    pub open spec fn between(self, i: int, s: int, a: Offset, b: Offset) -> bool {
        ||| self@[i].offset == a && self.first_toward(a, s, b)
        ||| self@[i].offset == b && self.first_toward(b, s, a)
    }

    /// `self` is `before` with the walls between the cells at `a` and `b`
    /// set to `wall`, and nothing else changed.
    pub open spec fn rewalled(self, before: Maze, a: Offset, b: Offset, wall: bool) -> bool {
        &&& self.schema() == before.schema()
        &&& self@.len() == before@.len()
        &&& forall|i: int| 0 <= i < before@.len() ==> {
            &&& (#[trigger] self@[i]).offset == before@[i].offset
            &&& self@[i].polygon == before@[i].polygon
            &&& self@[i].walls@.len() == before@[i].walls@.len()
        }
        &&& forall|i: int, s: int| 0 <= i < before@.len() && 0 <= s < before@[i].walls@.len() ==> #[trigger] self@[i].walls@[s] == (
            if before.between(i, s, a, b) {
                wall
            } else {
                before@[i].walls@[s]
            })
    }

    /// What `connect` and `disconnect` leave behind: the wall on the first
    /// side of each of the two cells that leads to the other reads as it was
    /// set, and every other wall reads as before.
    pub proof fn lemma_rewalled_reads(self, before: Maze, a: Offset, b: Offset, wall: bool)
        requires
            before.wf(),
            self.wf(),
            self.rewalled(before, a, b, wall),
            before.adjacent(a, b),
            before.adjacent(b, a),
        ensures
            forall|s: int| before.first_toward(a, s, b) ==> self.first_toward(a, s, b) && #[trigger] self.wall(a, s) == wall,
            forall|s: int| before.first_toward(b, s, a) ==> self.first_toward(b, s, a) && #[trigger] self.wall(b, s) == wall,
            forall|o: Offset, s: int|
                before.has(o) && 0 <= s < before.sides(o) && !(o == a && before.first_toward(a, s, b)) && !(o == b && before.first_toward(
                    b,
                    s,
                    a,
                )) ==> #[trigger] self.wall(o, s) == before.wall(o, s),
    {
        self.lemma_rewalled_alike(before, a, b, wall);
        self.lemma_alike(before);
        assert forall|o: Offset| before.has(o) implies self.place(o) == before.place(o) by {
            let i = before.place(o);
            before.lemma_place(i);
            assert(self@[i].offset == o);
            self.lemma_place(i);
        }
        assert forall|s: int| before.first_toward(a, s, b) implies self.first_toward(a, s, b) && #[trigger] self.wall(a, s) == wall by {
            let i = before.place(a);
            assert(before.between(i, s, a, b));
            assert(self@[i].walls@[s] == wall);
        }
        assert forall|s: int| before.first_toward(b, s, a) implies self.first_toward(b, s, a) && #[trigger] self.wall(b, s) == wall by {
            let i = before.place(b);
            assert(before.between(i, s, a, b));
            assert(self@[i].walls@[s] == wall);
        }
        assert forall|o: Offset, s: int|
            before.has(o) && 0 <= s < before.sides(o) && !(o == a && before.first_toward(a, s, b)) && !(o == b && before.first_toward(b, s, a)) implies #[trigger] self.wall(
            o,
            s,
        ) == before.wall(o, s) by {
            let i = before.place(o);
            assert(!before.between(i, s, a, b));
            assert(self@[i].walls@[s] == before@[i].walls@[s]);
        }
    }

    /// Sets the walls between two cells that touch each other.
    fn set_wall(&mut self, cell: Offset, to: Offset, wall: bool) -> (result: Result<(), AdjacencyError>)
        requires
            old(self).wf(),
        ensures
            final(self).wf(),
            result is Ok <==> old(self).adjacent(cell, to) && old(self).adjacent(to, cell),
            result is Ok ==> final(self).rewalled(*old(self), cell, to, wall),
            result matches Err(error) ==> *final(self) == *old(self) && error == (AdjacencyError { cell, other: to }),
    {
        let there = self.side_toward(cell, to);
        let back = self.side_toward(to, cell);
        match (there, back) {
            (Some(s), Some(t)) => {
                let i = self.find(&cell).unwrap();
                let j = self.find(&to).unwrap();
                proof {
                    self.lemma_place(i as int);
                    self.lemma_place(j as int);
                }
                self.cells[i].walls[s] = wall;
                self.cells[j].walls[t] = wall;
                proof {
                    let before = *old(self);
                    assert forall|k: int| 0 <= k < before@.len() implies {
                        &&& (#[trigger] self@[k]).offset == before@[k].offset
                        &&& self@[k].polygon == before@[k].polygon
                        &&& self@[k].walls@.len() == before@[k].walls@.len()
                    } by {}
                    assert forall|k: int| 0 <= k < self@.len() implies #[trigger] self.fits(k) by {
                        assert(before.fits(k));
                    }
                    assert forall|k: int, u: int| 0 <= k < before@.len() && 0 <= u < before@[k].walls@.len() implies #[trigger] self@[k].walls@[u] == (
                        if before.between(k, u, cell, to) {
                            wall
                        } else {
                            before@[k].walls@[u]
                        }) by {
                        if before@[k].offset == cell && before.first_toward(cell, u, to) {
                            before.lemma_place(k);
                            assert(u == s) by {
                                if u < s {
                                    assert(!before.leads(cell, u, to));
                                } else if s < u {
                                    assert(!before.leads(cell, s as int, to));
                                }
                            }
                        }
                        if before@[k].offset == to && before.first_toward(to, u, cell) {
                            before.lemma_place(k);
                            assert(u == t) by {
                                if u < t {
                                    assert(!before.leads(to, u, cell));
                                } else if t < u {
                                    assert(!before.leads(to, t as int, cell));
                                }
                            }
                        }
                    }
                }
                Ok(())
            },
            _ => Err(AdjacencyError { cell, other: to }),
        }
    }

    /// Opens the passage between the cells at `cell` and `other`: the wall
    /// falls on the first side of each that leads to the other.
    ///
    /// The two cells must each have a side that leads to the other;
    /// otherwise the maze stays as it is.
    pub fn connect(&mut self, cell: Offset, other: Offset) -> (result: Result<(), AdjacencyError>)
        requires
            old(self).wf(),
        ensures
            final(self).wf(),
            result is Ok <==> old(self).adjacent(cell, other) && old(self).adjacent(other, cell),
            result is Ok ==> final(self).rewalled(*old(self), cell, other, false),
            result matches Err(error) ==> *final(self) == *old(self) && error == (AdjacencyError { cell, other }),
    {
        self.set_wall(cell, other, false)
    }

    /// Closes the passage between the cells at `cell` and `other`: the wall
    /// rises on the first side of each that leads to the other.
    ///
    /// The two cells must each have a side that leads to the other;
    /// otherwise the maze stays as it is.
    pub fn disconnect(&mut self, cell: Offset, other: Offset) -> (result: Result<(), AdjacencyError>)
        requires
            old(self).wf(),
        ensures
            final(self).wf(),
            result is Ok <==> old(self).adjacent(cell, other) && old(self).adjacent(other, cell),
            result is Ok ==> final(self).rewalled(*old(self), cell, other, true),
            result matches Err(error) ==> *final(self) == *old(self) && error == (AdjacencyError { cell, other }),
    {
        self.set_wall(cell, other, true)
    }

    /// The number of sides of `cell` that have both a wall entry and a side
    /// of the polygon.
    pub open spec fn side_count(self, cell: Cell) -> int {
        let sides = self.schema().polygons@[cell.polygon as int].sides@.len() as int;
        if cell.walls@.len() <= sides {
            cell.walls@.len() as int
        } else {
            sides
        }
    }

    /// Whether side `s` of `cell` is open and leads to a cell of the maze.
    pub open spec fn passes(self, cell: Cell, s: int) -> bool {
        let at = self.schema().beyond(cell.offset, cell.polygon as int, s);
        !cell.walls@[s] && representable(at) && self.has(Offset { x: at.0 as isize, y: at.1 as isize })
    }

    /// The offsets of the cells that the first `n` sides of `cell` lead to
    /// through an open side, in the order of the sides.
    pub open spec fn passages(self, cell: Cell, n: int) -> Seq<Offset>
        decreases n,
    {
        if n <= 0 {
            Seq::empty()
        } else if self.passes(cell, n - 1) {
            let at = self.schema().beyond(cell.offset, cell.polygon as int, n - 1);
            self.passages(cell, n - 1).push(Offset { x: at.0 as isize, y: at.1 as isize })
        } else {
            self.passages(cell, n - 1)
        }
    }

    /// The offsets of the cells of the maze that `cell` has an open side to.
    fn connected_offsets(&self, cell: &Cell) -> (found: Vec<Offset>)
        requires
            self.wf(),
            cell.polygon < self.schema().polygons@.len(),
        ensures
            found@ == self.passages(*cell, self.side_count(*cell)),
            forall|k: int| 0 <= k < found@.len() ==> self.has(#[trigger] found@[k]),
    {
        let mut found: Vec<Offset> = Vec::new();
        let sides = self.tiling.polygons[cell.polygon].sides.len();
        let count = if cell.walls.len() <= sides {
            cell.walls.len()
        } else {
            sides
        };
        let mut s: usize = 0;
        while s < count
            invariant
                self.wf(),
                cell.polygon < self.schema().polygons@.len(),
                count == self.side_count(*cell),
                s <= count,
                found@ == self.passages(*cell, s as int),
                forall|k: int| 0 <= k < found@.len() ==> self.has(#[trigger] found@[k]),
            decreases count - s,
        {
            if !cell.walls[s] {
                match self.calculate_offset(cell, s) {
                    Some(other) => {
                        if self.find(&other).is_some() {
                            found.push(other);
                        }
                    },
                    None => {},
                }
            }
            s = s + 1;
        }
        found
    }

    /// The cells of the maze that `cell` has an open side to, in the order
    /// of its sides.
    pub fn connected_cells<'a>(&'a self, cell: &'a Cell) -> (found: Vec<&'a Cell>)
        requires
            self.wf(),
            cell.polygon < self.schema().polygons@.len(),
        ensures
            found@.len() == self.passages(*cell, self.side_count(*cell)).len(),
            forall|k: int| 0 <= k < found@.len() ==> *(#[trigger] found@[k]) == self.cell(self.passages(*cell, self.side_count(*cell))[k]),
    {
        let offsets = self.connected_offsets(cell);
        let mut found: Vec<&'a Cell> = Vec::new();
        let mut k: usize = 0;
        while k < offsets.len()
            invariant
                self.wf(),
                k <= offsets@.len(),
                found@.len() == k,
                forall|j: int| 0 <= j < offsets@.len() ==> self.has(#[trigger] offsets@[j]),
                forall|j: int| 0 <= j < k ==> *(#[trigger] found@[j]) == self.cell(offsets@[j]),
            decreases offsets@.len() - k,
        {
            let place = self.find(&offsets[k]).unwrap();
            found.push(&self.cells[place]);
            k = k + 1;
        }
        found
    }

    /// The lattice position of the tile that cell `i` is a polygon of.
    pub open spec fn home(self, i: int) -> (int, int) {
        let within = self.schema().polygons@[self@[i].polygon as int].offset;
        (self@[i].offset.x - within.x, self@[i].offset.y - within.y)
    }

    /// Every wall of cell `i` stands.
    pub open spec fn walled(self, i: int) -> bool {
        forall|s: int| 0 <= s < self@[i].walls@.len() ==> self@[i].walls@[s]
    }

    /// Cell `i` is a polygon that the region keeps, of a tile that is
    /// reached, and all its walls stand.
    pub open spec fn grown(self, region: spec_fn(Offset, int) -> bool, i: int) -> bool {
        &&& representable(self.home(i))
        &&& self.schema().grows(region, offset_at(self.home(i)), self@[i].polygon as int)
        &&& self.walled(i)
    }

    /// The maze has the cell for polygon `p` of the tile at `tile`.
    pub open spec fn holds(self, tile: Offset, p: int) -> bool {
        &&& self.has(offset_at(self.schema().placed(tile, p)))
        &&& self.cell(offset_at(self.schema().placed(tile, p))).polygon == p
    }

    /// The maze is what `new` builds from `tiling` and `region`: it has a
    /// cell, fully walled, for each polygon that the region keeps of each
    /// tile that is reached, and no other cell.
    pub open spec fn built(self, tiling: Tiling, region: spec_fn(Offset, int) -> bool) -> bool {
        &&& self.wf()
        &&& self.schema() == tiling
        &&& self@.len() > 0
        &&& forall|i: int| 0 <= i < self@.len() ==> #[trigger] self.grown(region, i)
        &&& forall|tile: Offset, p: int| #[trigger] tiling.grows(region, tile, p) ==> self.holds(tile, p)
    }
}

impl Maze {
    /// Building is determined by the tiling and the region: two mazes built
    /// from the same tiling and region have cells at the same offsets, and
    /// at each offset the same polygon with the same walls, all standing,
    /// in whatever order the tiles were visited.
    pub proof fn lemma_built_alike(self, other: Maze, tiling: Tiling, region: spec_fn(Offset, int) -> bool)
        requires
            self.built(tiling, region),
            other.built(tiling, region),
        ensures
            forall|o: Offset| self.has(o) <==> other.has(o),
            forall|o: Offset| #[trigger] self.has(o) ==> self.cell(o).polygon == other.cell(o).polygon,
            forall|o: Offset| #[trigger] self.has(o) ==> self.cell(o).walls@ == other.cell(o).walls@,
            forall|o: Offset, s: int| self.has(o) && 0 <= s < self.sides(o) ==> #[trigger] self.wall(o, s),
    {
        assert forall|o: Offset| self.has(o) implies other.has(o) && self.cell(o).polygon == other.cell(o).polygon
            && self.cell(o).walls@ == other.cell(o).walls@ && (forall|s: int| 0 <= s < self.sides(o) ==> #[trigger] self.wall(o, s)) by {
            self.lemma_alike_at(other, tiling, region, o);
        }
        assert forall|o: Offset| other.has(o) implies self.has(o) by {
            other.lemma_alike_at(self, tiling, region, o);
        }
    }

    proof fn lemma_alike_at(self, other: Maze, tiling: Tiling, region: spec_fn(Offset, int) -> bool, o: Offset)
        requires
            self.built(tiling, region),
            other.built(tiling, region),
            self.has(o),
        ensures
            other.has(o),
            self.cell(o).polygon == other.cell(o).polygon,
            self.cell(o).walls@ == other.cell(o).walls@,
            forall|s: int| 0 <= s < self.sides(o) ==> #[trigger] self.wall(o, s),
    {
        let i = self.place(o);
        assert(self.grown(region, i));
        assert(self.fits(i));
        let tile = offset_at(self.home(i));
        let p = self@[i].polygon as int;
        assert(tiling.grows(region, tile, p));
        assert(other.holds(tile, p));
        assert(offset_at(tiling.placed(tile, p)) == o);
        let j = other.place(o);
        assert(other.grown(region, j));
        assert(other.fits(j));
        assert(self.walled(i));
        assert(other.walled(j));
        assert(self@[i].walls@ =~= other@[j].walls@);
    }

    /// In a maze that was built, the two polygons that lie at one offset are
    /// one polygon: no offset is crowded, and the region is not barren.
    pub proof fn lemma_built_apart(self, tiling: Tiling, region: spec_fn(Offset, int) -> bool)
        requires
            self.built(tiling, region),
        ensures
            !tiling.barren(region),
            forall|o: Offset| !tiling.crowded(region, o),
    {
        assert(self.grown(region, 0));
        assert(tiling.grows(region, offset_at(self.home(0)), self@[0].polygon as int));
        assert forall|o: Offset| !tiling.crowded(region, o) by {
            if tiling.crowded(region, o) {
                let (t, p, u, q) = choose|t: Offset, p: int, u: Offset, q: int|
                    #![trigger tiling.grows(region, t, p), tiling.grows(region, u, q)]
                    {
                        &&& tiling.grows(region, t, p)
                        &&& tiling.grows(region, u, q)
                        &&& (t != u || p != q)
                        &&& tiling.placed(t, p) == position_of(o)
                        &&& tiling.placed(u, q) == position_of(o)
                    };
                assert(self.holds(t, p));
                assert(self.holds(u, q));
                assert(offset_at(tiling.placed(t, p)) == o);
                assert(offset_at(tiling.placed(u, q)) == o);
            }
        }
    }
}

impl Maze {
    /// Whether two mazes have the same cells at the same places, whatever
    /// walls stand in each.
    pub open spec fn alike(self, other: Maze) -> bool {
        &&& self.schema() == other.schema()
        &&& self@.len() == other@.len()
        &&& forall|i: int| 0 <= i < self@.len() ==> {
            &&& (#[trigger] self@[i]).offset == other@[i].offset
            &&& self@[i].polygon == other@[i].polygon
            &&& self@[i].walls@.len() == other@[i].walls@.len()
        }
    }

    /// A maze with other walls is a maze alike.
    pub proof fn lemma_rewalled_alike(self, before: Maze, a: Offset, b: Offset, wall: bool)
        requires
            self.rewalled(before, a, b, wall),
        ensures
            self.alike(before),
    {
    }

    proof fn lemma_alike_leads(self, other: Maze, a: Offset, s: int, b: Offset)
        requires
            self.alike(other),
            self.wf(),
            other.wf(),
            self.leads(a, s, b),
        ensures
            other.leads(a, s, b),
    {
        let i = self.place(a);
        let j = self.place(b);
        assert(other@[i].offset == a);
        assert(other@[j].offset == b);
        self.lemma_place(i);
        other.lemma_place(i);
    }

    proof fn lemma_alike_chained(self, other: Maze, route: Seq<Offset>)
        requires
            self.alike(other),
            self.wf(),
            other.wf(),
            self.chained(route),
        ensures
            other.chained(route),
    {
        assert forall|k: int| 0 <= k < route.len() - 1 implies other.adjacent(#[trigger] route[k], route[k + 1]) by {
            let from = route[k];
            let to = route[k + 1];
            assert(self.adjacent(from, to));
            let s = choose|s: int| self.leads(from, s, to);
            self.lemma_alike_leads(other, from, s, to);
        }
    }

    /// Every cell is linked to itself.
    pub proof fn lemma_linked_self(self, a: Offset)
        ensures
            self.linked(a, a),
    {
        let route = seq![a];
        assert(self.chained(route));
        assert(route.first() == a && route.last() == a);
    }

    /// From a cell one gets to every neighbour of a cell that one gets to.
    pub proof fn lemma_linked_more(self, a: Offset, b: Offset, c: Offset)
        requires
            self.linked(a, b),
            self.adjacent(b, c),
        ensures
            self.linked(a, c),
    {
        let route = choose|route: Seq<Offset>| #[trigger] self.chained(route) && route.first() == a && route.last() == b;
        let longer = route.push(c);
        assert forall|k: int| 0 <= k < longer.len() - 1 implies self.adjacent(#[trigger] longer[k], longer[k + 1]) by {
            if k < route.len() - 1 {
                assert(self.adjacent(route[k], route[k + 1]));
                assert(longer[k] == route[k] && longer[k + 1] == route[k + 1]);
            } else {
                assert(longer[k] == b && longer[k + 1] == c);
            }
        }
        assert(self.chained(longer));
        assert(longer.first() == a && longer.last() == c);
    }

    /// Two ways that meet make one way.
    pub proof fn lemma_linked_on(self, a: Offset, b: Offset, c: Offset)
        requires
            self.linked(a, b),
            self.linked(b, c),
        ensures
            self.linked(a, c),
    {
        let first = choose|route: Seq<Offset>| #[trigger] self.chained(route) && route.first() == a && route.last() == b;
        let second = choose|route: Seq<Offset>| #[trigger] self.chained(route) && route.first() == b && route.last() == c;
        let whole = first + second.subrange(1, second.len() as int);
        assert forall|k: int| 0 <= k < whole.len() - 1 implies self.adjacent(#[trigger] whole[k], whole[k + 1]) by {
            if k < first.len() - 1 {
                assert(self.adjacent(first[k], first[k + 1]));
            } else {
                let j = k - first.len() + 1;
                assert(self.adjacent(second[j], second[j + 1]));
                assert(whole[k] == second[j]);
                assert(whole[k + 1] == second[j + 1]);
            }
        }
        assert(self.chained(whole));
        assert(whole.first() == a && whole.last() == c);
    }

    /// Which cell leads to which does not depend on the walls: two mazes
    /// that are alike have the same cells, the same sides between them, and
    /// the same ways from cell to cell.
    pub proof fn lemma_alike(self, other: Maze)
        requires
            self.alike(other),
            self.wf(),
            other.wf(),
        ensures
            forall|o: Offset| self.has(o) == other.has(o),
            forall|a: Offset, s: int, b: Offset| self.leads(a, s, b) == other.leads(a, s, b),
            forall|a: Offset, b: Offset| self.adjacent(a, b) == other.adjacent(a, b),
            forall|a: Offset, b: Offset| self.linked(a, b) == other.linked(a, b),
            cells_of(self) == cells_of(other),
            self.forward() == other.forward(),
            self.whole() == other.whole(),
    {
        assert(other.alike(self));
        assert forall|o: Offset| self.has(o) == other.has(o) by {
            if self.has(o) {
                let i = self.place(o);
                assert(other@[i].offset == o);
            }
            if other.has(o) {
                let i = other.place(o);
                assert(self@[i].offset == o);
            }
        }
        assert forall|a: Offset, s: int, b: Offset| self.leads(a, s, b) == other.leads(a, s, b) by {
            if self.leads(a, s, b) {
                self.lemma_alike_leads(other, a, s, b);
            }
            if other.leads(a, s, b) {
                other.lemma_alike_leads(self, a, s, b);
            }
        }
        assert forall|a: Offset, b: Offset| self.adjacent(a, b) == other.adjacent(a, b) by {
            if self.adjacent(a, b) {
                let s = choose|s: int| self.leads(a, s, b);
                assert(other.leads(a, s, b));
            }
            if other.adjacent(a, b) {
                let s = choose|s: int| other.leads(a, s, b);
                assert(self.leads(a, s, b));
            }
        }
        assert forall|a: Offset, b: Offset| self.linked(a, b) == other.linked(a, b) by {
            if self.linked(a, b) {
                let route = choose|route: Seq<Offset>| #[trigger] self.chained(route) && route.first() == a && route.last() == b;
                self.lemma_alike_chained(other, route);
            }
            if other.linked(a, b) {
                let route = choose|route: Seq<Offset>| #[trigger] other.chained(route) && route.first() == a && route.last() == b;
                other.lemma_alike_chained(self, route);
            }
        }
        assert(cells_of(self) =~= cells_of(other));
        assert forall|a: Offset| self.onward(a) == other.onward(a) by {
            if self.onward(a) {
                let b = choose|b: Offset| #[trigger] self.adjacent(a, b) && a.precedes(b);
                assert(other.adjacent(a, b));
            }
            if other.onward(a) {
                let b = choose|b: Offset| #[trigger] other.adjacent(a, b) && a.precedes(b);
                assert(self.adjacent(a, b));
            }
        }
        assert forall|a: Offset| self.ends_at(a) == other.ends_at(a) by {
            if self.ends_at(a) {
                assert forall|c: Offset| #[trigger] other.has(c) implies !a.precedes(c) by {
                    assert(self.has(c));
                }
            }
            if other.ends_at(a) {
                assert forall|c: Offset| #[trigger] self.has(c) implies !a.precedes(c) by {
                    assert(other.has(c));
                }
            }
        }
        assert(self.forward() == other.forward()) by {
            if self.forward() {
                assert forall|a: Offset| #[trigger] other.has(a) implies other.onward(a) || other.ends_at(a) by {
                    assert(self.has(a));
                    assert(self.onward(a) == other.onward(a));
                    assert(self.ends_at(a) == other.ends_at(a));
                }
            }
            if other.forward() {
                assert forall|a: Offset| #[trigger] self.has(a) implies self.onward(a) || self.ends_at(a) by {
                    assert(other.has(a));
                    assert(self.onward(a) == other.onward(a));
                    assert(self.ends_at(a) == other.ends_at(a));
                }
            }
        }
        assert(self.whole() == other.whole()) by {
            if self.whole() {
                assert forall|a: Offset, b: Offset| other.has(a) && other.has(b) implies #[trigger] other.linked(a, b) by {
                    assert(self.linked(a, b));
                }
            }
            if other.whole() {
                assert forall|a: Offset, b: Offset| self.has(a) && self.has(b) implies #[trigger] self.linked(a, b) by {
                    assert(other.linked(a, b));
                }
            }
        }
    }
}

impl Maze {
    /// Whether no wall stands on one side only: where two cells each have a
    /// first side that leads to the other, the walls on these two sides
    /// both stand or are both gone.
    pub open spec fn paired(self) -> bool {
        forall|a: Offset, b: Offset, s: int, t: int|
            #![trigger self.first_toward(a, s, b), self.first_toward(b, t, a)]
            self.first_toward(a, s, b) && self.first_toward(b, t, a) ==> self.wall(a, s) == self.wall(b, t)
    }

    /// A maze as it was built has no wall on one side only: all its walls
    /// stand.
    pub proof fn lemma_built_paired(self, tiling: Tiling, region: spec_fn(Offset, int) -> bool)
        requires
            self.built(tiling, region),
        ensures
            self.paired(),
    {
        assert forall|a: Offset, s: int| self.has(a) && 0 <= s < self.sides(a) implies self.wall(a, s) by {
            let i = self.place(a);
            assert(self.grown(region, i));
        }
    }

    /// `connect` and `disconnect` leave no wall on one side only.
    pub proof fn lemma_rewalled_paired(self, before: Maze, a: Offset, b: Offset, wall: bool)
        requires
            before.wf(),
            self.wf(),
            self.rewalled(before, a, b, wall),
            before.adjacent(a, b),
            before.adjacent(b, a),
            before.paired(),
        ensures
            self.paired(),
    {
        self.lemma_rewalled_alike(before, a, b, wall);
        self.lemma_alike(before);
        self.lemma_rewalled_reads(before, a, b, wall);
        assert forall|x: Offset, y: Offset, s: int, t: int|
            #![trigger self.first_toward(x, s, y), self.first_toward(y, t, x)]
            self.first_toward(x, s, y) && self.first_toward(y, t, x) implies self.wall(x, s) == self.wall(y, t) by {
            assert(before.first_toward(x, s, y) && before.first_toward(y, t, x));
            assert(before.wall(x, s) == before.wall(y, t));
            if (x == a && y == b) || (x == b && y == a) {
                assert(self.wall(x, s) == wall);
                assert(self.wall(y, t) == wall);
            } else {
                // a side leads to one cell only
                assert(!(x == a && before.first_toward(a, s, b)));
                assert(!(x == b && before.first_toward(b, s, a)));
                assert(!(y == a && before.first_toward(a, t, b)));
                assert(!(y == b && before.first_toward(b, t, a)));
                assert(self.wall(x, s) == before.wall(x, s));
                assert(self.wall(y, t) == before.wall(y, t));
            }
        }
    }
}

/// The cells of a maze as a set.
pub open spec fn cells_of(maze: Maze) -> Set<Offset> {
    Set::new(|o: Offset| maze.has(o))
}

/// Where no two cells of a maze have one colour, the colours of the cells
/// are as many as the cells.
pub proof fn lemma_colours_counted(maze: Maze, colour: spec_fn(Offset) -> int) -> (palette: Set<int>)
    requires
        maze.wf(),
        forall|a: Offset, b: Offset| maze.has(a) && maze.has(b) && a != b ==> #[trigger] colour(a) != #[trigger] colour(b),
    ensures
        counted(Seq::<(Offset, Offset)>::empty(), cells_of(maze), colour, palette, maze@.len()),
{
    assert forall|i: int, j: int| 0 <= i < j < maze@.len() implies colour(maze@[i].offset) != colour(maze@[j].offset) by {
        assert(maze@[i].offset != maze@[j].offset);
        assert(maze.has(maze@[i].offset) && maze.has(maze@[j].offset));
    }
    let palette = lemma_palette(maze, colour, maze@.len());
    assert forall|a: Offset| cells_of(maze).contains(a) implies palette.contains(#[trigger] colour(a)) by {
        let i = maze.place(a);
        assert(colour(maze@[i].offset) == colour(a));
    }
    assert forall|c: int| #[trigger] palette.contains(c) implies exists|a: Offset| cells_of(maze).contains(a) && colour(a) == c by {
        let i = choose|i: int| 0 <= i < maze@.len() && colour(#[trigger] maze@[i].offset) == c;
        assert(maze.has(maze@[i].offset));
        assert(cells_of(maze).contains(maze@[i].offset));
    }
    palette
}

/// The offsets of the first `k` cells of a maze: they are `k`.
proof fn lemma_first_cells(maze: Maze, k: nat) -> (first: Set<Offset>)
    requires
        maze.wf(),
        k <= maze@.len(),
    ensures
        first.finite(),
        first.len() == k,
        forall|o: Offset| first.contains(o) <==> exists|i: int| 0 <= i < k && #[trigger] maze@[i].offset == o,
    decreases k,
{
    if k == 0 {
        Set::empty()
    } else {
        let fewer = lemma_first_cells(maze, (k - 1) as nat);
        let last = maze@[k - 1].offset;
        if fewer.contains(last) {
            let i = choose|i: int| 0 <= i < k - 1 && #[trigger] maze@[i].offset == last;
            assert(maze@[i].offset != maze@[k - 1].offset);
        }
        let first = fewer.insert(last);
        assert forall|o: Offset| first.contains(o) implies exists|i: int| 0 <= i < k && #[trigger] maze@[i].offset == o by {
            if o != last {
                let i = choose|i: int| 0 <= i < k - 1 && #[trigger] maze@[i].offset == o;
                assert(maze@[i].offset == o);
            } else {
                assert(maze@[k - 1].offset == o);
            }
        }
        first
    }
}

/// The cells of a maze, as a set, are as many as the maze holds.
pub proof fn lemma_cells_counted(maze: Maze)
    requires
        maze.wf(),
    ensures
        cells_of(maze).finite(),
        cells_of(maze).len() == maze@.len(),
{
    let first = lemma_first_cells(maze, maze@.len());
    assert forall|o: Offset| first.contains(o) <==> cells_of(maze).contains(o) by {
        if maze.has(o) {
            let i = maze.place(o);
            assert(maze@[i].offset == o);
        }
    }
    assert(first =~= cells_of(maze));
}

/// The colours of the first `k` cells of a maze, where no two cells have
/// one colour: they are `k`.
proof fn lemma_palette(maze: Maze, colour: spec_fn(Offset) -> int, k: nat) -> (palette: Set<int>)
    requires
        k <= maze@.len(),
        forall|i: int, j: int| 0 <= i < j < maze@.len() ==> colour(maze@[i].offset) != colour(maze@[j].offset),
    ensures
        palette.finite(),
        palette.len() == k,
        forall|c: int| palette.contains(c) <==> exists|i: int| 0 <= i < k && colour(#[trigger] maze@[i].offset) == c,
    decreases k,
{
    if k == 0 {
        Set::empty()
    } else {
        let fewer = lemma_palette(maze, colour, (k - 1) as nat);
        let last = colour(maze@[k - 1].offset);
        if fewer.contains(last) {
            let i = choose|i: int| 0 <= i < k - 1 && colour(#[trigger] maze@[i].offset) == last;
            assert(false);
        }
        let palette = fewer.insert(last);
        assert forall|c: int| palette.contains(c) implies exists|i: int| 0 <= i < k && colour(#[trigger] maze@[i].offset) == c by {
            if c != last {
                let i = choose|i: int| 0 <= i < k - 1 && colour(#[trigger] maze@[i].offset) == c;
                assert(colour(maze@[i].offset) == c);
            } else {
                assert(colour(maze@[k - 1].offset) == c);
            }
        }
        palette
    }
}

/// Whether the tile at `tile` has been seen.
spec fn seen_tile(seen: Set<i128>, tile: Offset) -> bool {
    seen.contains(tile.rank() as i128)
}

/// How the tiles that were seen divide into those that are done, those that
/// wait, and the one at hand.
spec fn frontier(seen: Set<i128>, done: Set<Offset>, queue: Seq<Offset>, hand: Set<Offset>) -> bool {
    &&& forall|t: Offset| #[trigger] seen_tile(seen, t) <==> done.contains(t) || queue.contains(t) || hand.contains(t)
    &&& forall|t: Offset| #[trigger] queue.contains(t) ==> !done.contains(t) && !hand.contains(t)
    &&& forall|t: Offset| #[trigger] hand.contains(t) ==> !done.contains(t)
    &&& queue.no_duplicates()
}

impl Maze {
    /// Cell `i` is a polygon that the region keeps, of a tile that is done
    /// or of the tile at hand, of which the polygons below `upto` are done.
    spec fn stems(self, region: spec_fn(Offset, int) -> bool, done: Set<Offset>, hand: Offset, upto: int, i: int) -> bool {
        let tile = offset_at(self.home(i));
        &&& representable(self.home(i))
        &&& self.schema().keeps(region, tile, self@[i].polygon as int)
        &&& self.walled(i)
        &&& done.contains(tile) || (tile == hand && self@[i].polygon < upto)
    }

    /// The maze holds every polygon that the region keeps of the tiles that
    /// are done, and of the polygons below `upto` of the tile at hand.
    spec fn covers(self, region: spec_fn(Offset, int) -> bool, done: Set<Offset>, hand: Offset, upto: int) -> bool {
        forall|tile: Offset, p: int|
            #![trigger self.schema().keeps(region, tile, p)]
            (done.contains(tile) || (tile == hand && p < upto)) && self.schema().keeps(region, tile, p) ==> self.holds(tile, p)
    }

    /// What holds of the maze while it grows.
    spec fn growing(self, region: spec_fn(Offset, int) -> bool, done: Set<Offset>, hand: Offset, upto: int) -> bool {
        &&& self.wf()
        &&& forall|i: int| 0 <= i < self@.len() ==> #[trigger] self.stems(region, done, hand, upto, i)
        &&& self.covers(region, done, hand, upto)
    }

    /// Places polygon `polygon` at `offset`, all walls standing, unless the
    /// maze has a cell there already.
    fn install(&mut self, offset: Offset, polygon: usize) -> (fresh: bool)
        requires
            old(self).wf(),
            polygon < old(self).schema().polygons@.len(),
        ensures
            final(self).wf(),
            final(self).schema() == old(self).schema(),
            fresh == !old(self).has(offset),
            !fresh ==> final(self)@ == old(self)@,
            fresh ==> final(self)@.len() == old(self)@.len() + 1,
            fresh ==> final(self)@.drop_last() == old(self)@,
            fresh ==> final(self)@.last().offset == offset,
            fresh ==> final(self)@.last().polygon == polygon,
            fresh ==> final(self).walled(old(self)@.len() as int),
    {
        if self.find(&offset).is_some() {
            return false;
        }
        let sides = self.tiling.polygons[polygon].sides.len();
        let walls: Vec<bool> = vec![true; sides];
        let place = self.cells.len();
        let key = offset.key();
        self.cells.push(Cell { offset, walls, polygon });
        self.index.insert(key, place);
        proof {
            let before = *old(self);
            assert(self@.drop_last() =~= before@);
            assert forall|i: int| 0 <= i < self@.len() implies #[trigger] self.fits(i) by {
                if i < place {
                    assert(before.fits(i));
                }
            }
            assert forall|i: int, j: int| 0 <= i < j < self@.len() implies #[trigger] self@[i].offset != #[trigger] self@[j].offset by {
                if j < place {
                    assert(before@[i].offset != before@[j].offset);
                } else {
                    assert(before@[i].offset == self@[i].offset);
                }
            }
            assert forall|i: int| 0 <= i < self.cells@.len() implies {
                &&& self.index@.contains_key(#[trigger] self.cells@[i].offset.rank() as i128)
                &&& self.index@[self.cells@[i].offset.rank() as i128] == i
            } by {
                if i < place {
                    assert(before.cells@[i].offset != offset);
                    lemma_rank_orders(before.cells@[i].offset, offset);
                }
            }
            assert forall|k: i128| self.index@.contains_key(k) implies {
                &&& (#[trigger] self.index@[k]) < self.cells@.len()
                &&& self.cells@[self.index@[k] as int].offset.rank() == k
            } by {
                if k != key {
                    assert(before.index@.contains_key(k));
                }
            }
        }
        true
    }

    /// The offset of polygon `p` of the tile at `tile`, unless it lies off
    /// the lattice that an `Offset` can hold.
    fn placement(&self, tile: Offset, p: usize) -> (found: Option<Offset>)
        requires
            p < self.schema().polygons@.len(),
        ensures
            found matches Some(o) ==> position_of(o) == self.schema().placed(tile, p as int),
            found is None ==> !representable(self.schema().placed(tile, p as int)),
    {
        let within = self.tiling.polygons[p].offset;
        let x: i128 = tile.x as i128 + within.x as i128;
        let y: i128 = tile.y as i128 + within.y as i128;
        if x < isize::MIN as i128 || x > isize::MAX as i128 || y < isize::MIN as i128 || y > isize::MAX as i128 {
            None
        } else {
            Some(Offset { x: x as isize, y: y as isize })
        }
    }

    /// Builds the maze that a region keeps of a tiling.
    ///
    /// `center_inside` says whether the centre of the maze lies in the
    /// region, and `keep` answers, for a tile and a polygon of it, whether
    /// the region keeps that polygon. Tiles are visited from the tile at the
    /// origin; a tile hands on to its neighbours only if one of its polygons
    /// was kept. Every cell starts with all its walls.
    ///
    /// Fails if the tiling breaks a rule, if the centre lies outside, if two
    /// polygons come to lie at one offset, or if no polygon is kept at all,
    /// in this order.
    pub fn new<F: Fn(Offset, usize) -> bool>(tiling: Tiling, center_inside: bool, keep: F) -> (result: Result<Maze, ConstructionError>)
        requires
            decided(keep),
        ensures
            match result {
                Ok(maze) => tiling.valid() && center_inside && maze.built(tiling, region_of(keep)),
                Err(ConstructionError::InvalidTiling(error)) => tiling.first_fault(error.fault) && error.message@
                    == error.fault.text(),
                Err(ConstructionError::CenterOutOfBounds) => tiling.valid() && !center_inside,
                Err(ConstructionError::DuplicateCell(o)) => tiling.valid() && center_inside && tiling.crowded(
                    region_of(keep),
                    o,
                ),
                Err(ConstructionError::EmptyMaze) => tiling.valid() && center_inside && tiling.barren(region_of(keep)),
            },
    {
        match tiling.validate() {
            Err(error) => {
                return Err(ConstructionError::InvalidTiling(error));
            },
            Ok(_) => {},
        }
        if !center_inside {
            return Err(ConstructionError::CenterOutOfBounds);
        }
        let ghost region = region_of(keep);
        let ghost schema = tiling;
        let origin = Offset::origin();
        let mut maze = Maze { cells: Vec::new(), index: HashMap::new(), tiling };
        let mut seen: HashSet<i128> = HashSet::new();
        seen.insert(origin.key());
        let mut queue: Vec<Offset> = Vec::new();
        queue.push(origin);
        let ghost mut done: Set<Offset> = Set::empty();
        let ghost mut hand: Offset = origin;
        proof {
            schema.lemma_origin_reached(region);
            assert forall|t: Offset| #[trigger] seen_tile(seen@, t) <==> t == origin by {
                lemma_rank_orders(t, origin);
            }
            assert(queue@[0] == origin);
            assert forall|t: Offset| #[trigger] queue@.contains(t) <==> t == origin by {}
        }
        let mut pending = queue.len();
        let mut visited = seen.len();
        while pending > 0
            invariant
                decided(keep),
                region == region_of(keep),
                center_inside,
                schema == tiling,
                schema.valid(),
                maze.schema() == schema,
                maze.growing(region, done, hand, 0),
                seen@.finite(),
                visited == seen@.len(),
                pending == queue@.len(),
                frontier(seen@, done, queue@, Set::empty()),
                seen_tile(seen@, Offset { x: 0, y: 0 }),
                forall|t: Offset| #[trigger] seen_tile(seen@, t) ==> schema.reached(region, t),
                forall|a: Offset, b: Offset|
                    done.contains(a) && schema.populated(region, a) && #[trigger] schema.steps(a, b) ==> seen_tile(seen@, b),
            decreases usize::MAX - visited, pending,
        {
            let ghost queue_before = queue@;
            let ghost seen_before = seen@;
            let tile = queue.pop().unwrap();
            proof {
                assert(queue_before.contains(tile)) by {
                    assert(queue_before[queue_before.len() - 1] == tile);
                }
                assert(seen_tile(seen@, tile));
                assert forall|t: Offset| #[trigger] queue_before.contains(t) <==> queue@.contains(t) || t == tile by {
                    if queue_before.contains(t) {
                        let k = choose|k: int| 0 <= k < queue_before.len() && queue_before[k] == t;
                        if k < queue@.len() {
                            assert(queue@[k] == t);
                        }
                    }
                    if queue@.contains(t) {
                        let k = choose|k: int| 0 <= k < queue@.len() && queue@[k] == t;
                        assert(queue_before[k] == t);
                    }
                }
                assert(!queue@.contains(tile)) by {
                    if queue@.contains(tile) {
                        let k = choose|k: int| 0 <= k < queue@.len() && queue@[k] == tile;
                        assert(queue_before[k] == queue_before[queue_before.len() - 1]);
                    }
                }
                assert forall|t: Offset| #[trigger] queue@.contains(t) implies queue_before.contains(t) && t != tile by {
                    let k = choose|k: int| 0 <= k < queue@.len() && queue@[k] == t;
                    assert(queue_before[k] == t);
                }
                assert forall|t: Offset| done.contains(t) implies schema.reached(region, t) by {
                    assert(seen_tile(seen@, t));
                }
                assert(queue@.no_duplicates()) by {
                    assert forall|a: int, b: int| 0 <= a < queue@.len() && 0 <= b < queue@.len() && a != b implies queue@[a] != queue@[b] by {
                        assert(queue_before[a] != queue_before[b]);
                    }
                }
                assert(forall|t: Offset| #[trigger] seen_tile(seen@, t) <==> done.contains(t) || queue@.contains(t) || set![tile].contains(t));
                assert(forall|t: Offset| #[trigger] queue@.contains(t) ==> !done.contains(t) && !set![tile].contains(t));
                assert(forall|t: Offset| #[trigger] set![tile].contains(t) ==> !done.contains(t));
                assert(frontier(seen@, done, queue@, set![tile]));
                assert forall|i: int| 0 <= i < maze@.len() implies #[trigger] maze.stems(region, done, tile, 0, i) by {
                    assert(maze.stems(region, done, hand, 0, i));
                }
                assert(maze.covers(region, done, tile, 0));
            }
            let added = match maze.grow_tile(&keep, tile, Ghost(done)) {
                Ok(added) => added,
                Err(o) => {
                    return Err(ConstructionError::DuplicateCell(o));
                },
            };
            if added {
                spread(&maze.tiling, tile, &mut seen, &mut queue, Ghost(done));
                proof {
                    assert forall|t: Offset| #[trigger] seen_tile(seen@, t) implies schema.reached(region, t) by {
                        if !seen_tile(seen_before, t) {
                            schema.lemma_step_reached(region, tile, t);
                        }
                    }
                }
            }
            proof {
                let after = done.insert(tile);
                assert forall|a: Offset, b: Offset|
                    after.contains(a) && schema.populated(region, a) && #[trigger] schema.steps(a, b) implies seen_tile(
                    seen@,
                    b,
                ) by {
                    if a != tile {
                        assert(seen_tile(seen_before, b));
                    }
                }
                assert(frontier(seen@, after, queue@, Set::empty()));
                done = after;
                hand = tile;
            }
            pending = queue.len();
            visited = seen.len();
        }
        if maze.cells.len() == 0 {
            proof {
                assert forall|t: Offset, p: int| !schema.grows(region, t, p) by {
                    if schema.grows(region, t, p) {
                        schema.lemma_reached_within(region, done, t);
                        assert(maze.holds(t, p));
                    }
                }
            }
            return Err(ConstructionError::EmptyMaze);
        }
        proof {
            assert forall|i: int| 0 <= i < maze@.len() implies #[trigger] maze.grown(region, i) by {
                assert(maze.stems(region, done, hand, 0, i));
                assert(seen_tile(seen@, offset_at(maze.home(i))));
            }
            assert forall|t: Offset, p: int| #[trigger] schema.grows(region, t, p) implies maze.holds(t, p) by {
                schema.lemma_reached_within(region, done, t);
            }
        }
        Ok(maze)
    }

    /// Places the polygons that the region keeps of the tile at `tile`.
    /// Returns whether it placed any, or the offset at which a cell stood
    /// already.
    fn grow_tile<F: Fn(Offset, usize) -> bool>(&mut self, keep: &F, tile: Offset, Ghost(done): Ghost<Set<Offset>>) -> (result: Result<bool, Offset>)
        requires
            decided(*keep),
            old(self).growing(region_of(*keep), done, tile, 0),
            !done.contains(tile),
            old(self).schema().reached(region_of(*keep), tile),
            forall|t: Offset| done.contains(t) ==> old(self).schema().reached(region_of(*keep), t),
        ensures
            final(self).schema() == old(self).schema(),
            result matches Ok(added) ==> {
                &&& final(self).growing(region_of(*keep), done.insert(tile), tile, 0)
                &&& added == final(self).schema().populated(region_of(*keep), tile)
            },
            result matches Err(o) ==> final(self).schema().crowded(region_of(*keep), o),
    {
        let ghost region = region_of(*keep);
        let ghost tiling = self.schema();
        let count = self.tiling.polygons.len();
        let mut added = false;
        let mut p: usize = 0;
        while p < count
            invariant
                decided(*keep),
                region == region_of(*keep),
                self.schema() == tiling,
                tiling == old(self).schema(),
                count == tiling.polygons@.len(),
                p <= count,
                self.growing(region, done, tile, p as int),
                !done.contains(tile),
                tiling.reached(region, tile),
                forall|t: Offset| done.contains(t) ==> tiling.reached(region, t),
                added == (exists|q: int| 0 <= q < p && tiling.keeps(region, tile, q)),
            decreases count - p,
        {
            let ghost before = *self;
            let mut kept = false;
            match self.placement(tile, p) {
                Some(offset) => {
                    if keep(tile, p) {
                        kept = true;
                        added = true;
                        assert(tiling.keeps(region, tile, p as int));
                        if !self.install(offset, p) {
                            proof {
                                let i = before.place(offset);
                                assert(before.stems(region, done, tile, p as int, i));
                                let other = offset_at(before.home(i));
                                assert(tiling.grows(region, other, before@[i].polygon as int));
                                assert(tiling.grows(region, tile, p as int));
                            }
                            return Err(offset);
                        }
                        proof {
                            assert(offset == offset_at(tiling.placed(tile, p as int)));
                        }
                    }
                },
                None => {},
            }
            proof {
                assert(kept == tiling.keeps(region, tile, p as int));
                let n = before@.len() as int;
                assert forall|i: int| 0 <= i < before@.len() implies self@[i] == before@[i] by {
                    if kept {
                        assert(self@.drop_last()[i] == before@[i]);
                    }
                }
                assert forall|o: Offset| before.has(o) implies self.has(o) && self.cell(o) == before.cell(o) by {
                    let i = before.place(o);
                    assert(self@[i].offset == o);
                    before.lemma_place(i);
                    self.lemma_place(i);
                }
                assert forall|i: int| 0 <= i < self@.len() implies #[trigger] self.stems(region, done, tile, p + 1, i) by {
                    if i < n {
                        assert(before.stems(region, done, tile, p as int, i));
                        assert(before.walled(i));
                        assert(before.home(i) == self.home(i));
                    } else {
                        assert(self@[i] == self@.last());
                        assert(self.home(i) == position_of(tile));
                    }
                }
                assert forall|t: Offset, q: int|
                    #![trigger self.schema().keeps(region, t, q)]
                    (done.contains(t) || (t == tile && q < p + 1)) && self.schema().keeps(region, t, q) implies self.holds(t, q) by {
                    if done.contains(t) || (t == tile && q < p) {
                        assert(before.holds(t, q));
                    } else {
                        assert(kept);
                        self.lemma_place(n);
                    }
                }
            }
            p = p + 1;
        }
        proof {
            let after = done.insert(tile);
            assert forall|i: int| 0 <= i < self@.len() implies #[trigger] self.stems(region, after, tile, 0, i) by {
                assert(self.stems(region, done, tile, count as int, i));
            }
            assert forall|t: Offset, q: int|
                #![trigger self.schema().keeps(region, t, q)]
                (after.contains(t) || (t == tile && q < 0)) && self.schema().keeps(region, t, q) implies self.holds(t, q) by {
                assert(done.contains(t) || (t == tile && q < count));
            }
        }
        Ok(added)
    }
}

/// Puts the tiles that the tile at `tile` steps to, and that were not seen
/// before, on the queue.
fn spread(tiling: &Tiling, tile: Offset, seen: &mut HashSet<i128>, queue: &mut Vec<Offset>, Ghost(done): Ghost<Set<Offset>>)
    requires
        old(seen)@.finite(),
        frontier(old(seen)@, done, old(queue)@, set![tile]),
    ensures
        final(seen)@.finite(),
        frontier(final(seen)@, done, final(queue)@, set![tile]),
        forall|b: Offset| #[trigger] tiling.steps(tile, b) ==> seen_tile(final(seen)@, b),
        forall|t: Offset| #[trigger] seen_tile(final(seen)@, t) ==> seen_tile(old(seen)@, t) || tiling.steps(tile, t),
        forall|k: i128| old(seen)@.contains(k) ==> final(seen)@.contains(k),
        final(queue)@.len() >= old(queue)@.len(),
        final(seen)@.len() == old(seen)@.len() + final(queue)@.len() - old(queue)@.len(),
{
    let mut i: usize = 0;
    while i < tiling.neighbors.len()
        invariant
            i <= tiling.neighbors@.len(),
            seen@.finite(),
            frontier(seen@, done, queue@, set![tile]),
            forall|j: int, b: Offset| 0 <= j < i && #[trigger] tiling.steps_by(tile, j, b) ==> seen_tile(seen@, b),
            forall|t: Offset| #[trigger] seen_tile(seen@, t) ==> seen_tile(old(seen)@, t) || tiling.steps(tile, t),
            forall|k: i128| old(seen)@.contains(k) ==> seen@.contains(k),
            queue@.len() >= old(queue)@.len(),
            seen@.len() == old(seen)@.len() + queue@.len() - old(queue)@.len(),
        decreases tiling.neighbors@.len() - i,
    {
        let shift = tiling.neighbors[i];
        let x: i128 = tile.x as i128 + shift.x as i128;
        let y: i128 = tile.y as i128 + shift.y as i128;
        if x >= isize::MIN as i128 && x <= isize::MAX as i128 && y >= isize::MIN as i128 && y <= isize::MAX as i128 {
            let next = Offset { x: x as isize, y: y as isize };
            let ghost seen_before = seen@;
            let ghost queue_before = queue@;
            assert(tiling.steps_by(tile, i as int, next));
            if seen.insert(next.key()) {
                queue.push(next);
                proof {
                    assert(!seen_tile(seen_before, next));
                    assert forall|t: Offset| #[trigger] seen_tile(seen@, t) <==> seen_tile(seen_before, t) || t == next by {
                        lemma_rank_orders(t, next);
                    }
                    assert forall|t: Offset| #[trigger] queue@.contains(t) <==> queue_before.contains(t) || t == next by {
                        if queue_before.contains(t) {
                            let k = choose|k: int| 0 <= k < queue_before.len() && queue_before[k] == t;
                            assert(queue@[k] == t);
                        }
                        if t == next {
                            assert(queue@[queue_before.len() as int] == next);
                        }
                    }
                    assert(seen@.len() == seen_before.len() + 1);
                    assert(forall|t: Offset| #[trigger] seen_tile(seen@, t) <==> done.contains(t) || queue@.contains(t) || set![tile].contains(t));
                    assert(forall|t: Offset| #[trigger] queue@.contains(t) ==> !done.contains(t) && !set![tile].contains(t));
                    assert(queue@.no_duplicates()) by {
                        assert forall|a: int, b: int| 0 <= a < queue@.len() && 0 <= b < queue@.len() && a != b implies queue@[a] != queue@[b] by {
                            if a < queue_before.len() && b < queue_before.len() {
                                assert(queue_before[a] != queue_before[b]);
                            } else if a < queue_before.len() {
                                assert(queue_before.contains(queue_before[a]));
                            } else if b < queue_before.len() {
                                assert(queue_before.contains(queue_before[b]));
                            }
                        }
                    }
                    assert(tiling.steps(tile, next));
                }
            } else {
                assert(seen@ =~= seen_before);
            }
            proof {
                assert forall|j: int, b: Offset| 0 <= j < i + 1 && #[trigger] tiling.steps_by(tile, j, b) implies seen_tile(seen@, b) by {
                    if j == i {
                        assert(b == next);
                        lemma_rank_orders(b, next);
                    }
                }
            }
        } else {
            proof {
                assert forall|j: int, b: Offset| 0 <= j < i + 1 && #[trigger] tiling.steps_by(tile, j, b) implies seen_tile(seen@, b) by {
                    if j == i {
                        assert(false);
                    }
                }
            }
        }
        i = i + 1;
    }
    proof {
        assert forall|b: Offset| #[trigger] tiling.steps(tile, b) implies seen_tile(seen@, b) by {
            let j = choose|j: int| tiling.steps_by(tile, j, b);
            assert(tiling.steps_by(tile, j, b));
        }
    }
}

} // verus!
