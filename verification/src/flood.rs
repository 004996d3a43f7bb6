//! Which tiles and cells a region keeps of a tiling.
//!
//! A maze is grown tile by tile from the tile at the origin. A tile hands on
//! to its neighbours only if the region keeps one of its polygons, so the
//! tiles that are visited are those that a walk over such tiles reaches.

use crate::lattice::{position_of, representable, Offset};
use crate::tiling::Tiling;
use vstd::prelude::*;

verus! {

/// What a region answers for polygon `p` of the tile at `tile`, as a
/// predicate: the question has the answer `true`.
pub open spec fn region_of<F: Fn(Offset, usize) -> bool>(keep: F) -> spec_fn(Offset, int) -> bool {
    |tile: Offset, p: int| call_ensures(keep, (tile, p as usize), true)
}

/// The region answers every question, and the same question always alike.
pub open spec fn decided<F: Fn(Offset, usize) -> bool>(keep: F) -> bool {
    &&& forall|tile: Offset, p: usize| call_requires(keep, (tile, p))
    &&& forall|tile: Offset, p: usize, a: bool, b: bool|
        call_ensures(keep, (tile, p), a) && call_ensures(keep, (tile, p), b) ==> a == b
}

/// The offset at a lattice position that an `Offset` can hold.
pub open spec fn offset_at(at: (int, int)) -> Offset {
    Offset { x: at.0 as isize, y: at.1 as isize }
}

impl Tiling {
    /// The lattice position of polygon `p` of the tile at `tile`.
    pub open spec fn placed(self, tile: Offset, p: int) -> (int, int) {
        (tile.x + self.polygons@[p].offset.x, tile.y + self.polygons@[p].offset.y)
    }

    /// The region keeps polygon `p` of the tile at `tile`, and an `Offset`
    /// can hold the place of that polygon.
    pub open spec fn keeps(self, region: spec_fn(Offset, int) -> bool, tile: Offset, p: int) -> bool {
        &&& 0 <= p < self.polygons@.len()
        &&& representable(self.placed(tile, p))
        &&& region(tile, p)
    }

    /// The region keeps some polygon of the tile at `tile`.
    pub open spec fn populated(self, region: spec_fn(Offset, int) -> bool, tile: Offset) -> bool {
        exists|p: int| self.keeps(region, tile, p)
    }

    /// Neighbour translation `i` leads from tile `a` to tile `b`.
    pub open spec fn steps_by(self, a: Offset, i: int, b: Offset) -> bool {
        &&& 0 <= i < self.neighbors@.len()
        &&& b.x == a.x + self.neighbors@[i].x
        &&& b.y == a.y + self.neighbors@[i].y
    }

    /// Some neighbour translation leads from tile `a` to tile `b`.
    pub open spec fn steps(self, a: Offset, b: Offset) -> bool {
        exists|i: int| self.steps_by(a, i, b)
    }

    /// `path` starts at the origin, and each of its tiles but the last is
    /// populated and steps to the next.
    pub open spec fn walk(self, region: spec_fn(Offset, int) -> bool, path: Seq<Offset>) -> bool {
        &&& path.len() > 0
        &&& path[0] == (Offset { x: 0, y: 0 })
        &&& forall|k: int| 0 <= k < path.len() - 1 ==> self.populated(region, #[trigger] path[k]) && self.steps(path[k], path[k + 1])
    }

    /// Some walk ends at the tile at `tile`.
    pub open spec fn reached(self, region: spec_fn(Offset, int) -> bool, tile: Offset) -> bool {
        exists|path: Seq<Offset>| self.walk(region, path) && #[trigger] path.last() == tile
    }

    /// The maze gets a cell for polygon `p` of the tile at `tile`.
    pub open spec fn grows(self, region: spec_fn(Offset, int) -> bool, tile: Offset, p: int) -> bool {
        self.reached(region, tile) && self.keeps(region, tile, p)
    }

    /// Two different polygons that the maze gets a cell for lie at `o`.
    pub open spec fn crowded(self, region: spec_fn(Offset, int) -> bool, o: Offset) -> bool {
        exists|t: Offset, p: int, u: Offset, q: int|
            #![trigger self.grows(region, t, p), self.grows(region, u, q)]
            {
                &&& self.grows(region, t, p)
                &&& self.grows(region, u, q)
                &&& (t != u || p != q)
                &&& self.placed(t, p) == position_of(o)
                &&& self.placed(u, q) == position_of(o)
            }
    }

    /// The maze gets no cell at all.
    pub open spec fn barren(self, region: spec_fn(Offset, int) -> bool) -> bool {
        forall|t: Offset, p: int| !self.grows(region, t, p)
    }

    /// The origin is reached.
    pub proof fn lemma_origin_reached(self, region: spec_fn(Offset, int) -> bool)
        ensures
            self.reached(region, Offset { x: 0, y: 0 }),
    {
        let path = seq![Offset { x: 0, y: 0 }];
        assert(self.walk(region, path));
        assert(path.last() == (Offset { x: 0, y: 0 }));
    }

    /// A populated tile that is reached hands on to the tiles it steps to.
    pub proof fn lemma_step_reached(self, region: spec_fn(Offset, int) -> bool, a: Offset, b: Offset)
        requires
            self.reached(region, a),
            self.populated(region, a),
            self.steps(a, b),
        ensures
            self.reached(region, b),
    {
        let path = choose|path: Seq<Offset>| self.walk(region, path) && #[trigger] path.last() == a;
        let longer = path.push(b);
        assert forall|k: int| 0 <= k < longer.len() - 1 implies self.populated(region, #[trigger] longer[k]) && self.steps(
            longer[k],
            longer[k + 1],
        ) by {
            if k < path.len() - 1 {
                assert(longer[k] == path[k]);
                assert(longer[k + 1] == path[k + 1]);
            } else {
                assert(longer[k] == a);
                assert(longer[k + 1] == b);
            }
        }
        assert(self.walk(region, longer));
        assert(longer.last() == b);
    }

    /// A set of tiles that holds the origin, and with each populated tile
    /// the tiles it steps to, holds every tile that is reached.
    pub proof fn lemma_reached_within(self, region: spec_fn(Offset, int) -> bool, tiles: Set<Offset>, tile: Offset)
        requires
            tiles.contains(Offset { x: 0, y: 0 }),
            forall|a: Offset, b: Offset|
                tiles.contains(a) && self.populated(region, a) && #[trigger] self.steps(a, b) ==> tiles.contains(b),
            self.reached(region, tile),
        ensures
            tiles.contains(tile),
    {
        let path = choose|path: Seq<Offset>| self.walk(region, path) && #[trigger] path.last() == tile;
        self.lemma_walk_within(region, tiles, path, path.len() - 1);
    }

    proof fn lemma_walk_within(self, region: spec_fn(Offset, int) -> bool, tiles: Set<Offset>, path: Seq<Offset>, k: int)
        requires
            tiles.contains(Offset { x: 0, y: 0 }),
            forall|a: Offset, b: Offset|
                tiles.contains(a) && self.populated(region, a) && #[trigger] self.steps(a, b) ==> tiles.contains(b),
            self.walk(region, path),
            0 <= k < path.len(),
        ensures
            tiles.contains(path[k]),
        decreases k,
    {
        if k > 0 {
            self.lemma_walk_within(region, tiles, path, k - 1);
            assert(self.populated(region, path[k - 1]) && self.steps(path[k - 1], path[k - 1 + 1]));
        }
    }
}

} // verus!
