//! The schema of a periodic tiling and the rules that make it consistent.

use crate::lattice::{lemma_rank_orders, Offset};
use crate::text::{decimal, push_decimal};
use std::collections::HashSet;
use vstd::prelude::*;
use vstd::string::*;

verus! {

/// One side of a polygon: where the polygon on the other side of it lies.
///
/// `other_tile` is 0 when that polygon lies in the same tile; otherwise the
/// tile is the one reached by neighbour translation `other_tile - 1`.
#[derive(Clone, Copy, Debug, PartialEq, Eq, Structural)]
pub struct PolygonSide {
    pub other_tile: usize,
    pub other_polygon: usize,
    pub other_side_index: usize,
}

/// A polygon of the tile: its place within the tile and its sides in order.
#[derive(Clone, Debug)]
pub struct TilePolygon {
    pub offset: Offset,
    pub sides: Vec<PolygonSide>,
}

/// A periodic tiling: the polygons of one tile and the translations that lead
/// from a tile to each of its neighbours.
#[derive(Clone, Debug)]
pub struct Tiling {
    pub polygons: Vec<TilePolygon>,
    pub neighbors: Vec<Offset>,
}

/// The first rule that a tiling breaks, with the place where it breaks it.
#[derive(Clone, Copy, Debug, PartialEq, Eq, Structural)]
pub enum TilingFault {
    /// The tiling has no polygon.
    NoPolygons,
    /// A neighbour translation is zero.
    NeighborAtOrigin { neighbor: usize },
    /// A neighbour translation repeats an earlier one.
    DuplicateNeighbor { neighbor: usize },
    /// A polygon lies at the offset of an earlier polygon.
    DuplicatePolygon { polygon: usize },
    /// A side names a neighbour translation that the tiling does not have.
    TileOutOfRange { polygon: usize, side: usize },
    /// A side names a polygon that the tiling does not have.
    PolygonOutOfRange { polygon: usize, side: usize },
    /// A side names a side that the polygon across does not have.
    SideOutOfRange { polygon: usize, side: usize },
    /// The side across does not lead back to this polygon.
    PolygonNotMirrored { polygon: usize, side: usize },
    /// The side across does not lead back to this side.
    SideNotMirrored { polygon: usize, side: usize },
    /// One of the two sides leaves its tile and the other does not.
    CrossingNotMirrored { polygon: usize, side: usize },
    /// The translations of the two sides do not cancel.
    TranslationNotMirrored { polygon: usize, side: usize },
}

impl TilingFault {
    /// The rule that was broken, in words.
    pub open spec fn rule(self) -> Seq<char> {
        match self {
            TilingFault::NoPolygons => "No polygons in tiling"@,
            TilingFault::NeighborAtOrigin { .. } => "Neighbor is at origin"@,
            TilingFault::DuplicateNeighbor { .. } => "Two neighbors have the same offset"@,
            TilingFault::DuplicatePolygon { .. } => "Two polygons have the same offset"@,
            TilingFault::TileOutOfRange { .. } => "Side tile index out of bounds"@,
            TilingFault::PolygonOutOfRange { .. } => "Side polygon index out of bounds"@,
            TilingFault::SideOutOfRange { .. } => "Side index out of bounds"@,
            TilingFault::PolygonNotMirrored { .. } =>
                "Polygon sides are not reflexive: they reference different polygons"@,
            TilingFault::SideNotMirrored { .. } =>
                "Polygon sides are not reflexive: they reference different sides"@,
            TilingFault::CrossingNotMirrored { .. } =>
                "Polygon sides are not reflexive: they reference different tiles"@,
            TilingFault::TranslationNotMirrored { .. } =>
                "Polygon sides are not reflexive: they reference non-reflexive tiles"@,
        }
    }

    /// The place where the rule was broken, in words.
    pub open spec fn place(self) -> Seq<char> {
        match self {
            TilingFault::NoPolygons => Seq::empty(),
            TilingFault::NeighborAtOrigin { neighbor } | TilingFault::DuplicateNeighbor { neighbor } =>
                ". Neighbor "@ + decimal(neighbor as nat),
            TilingFault::DuplicatePolygon { polygon } => ". Polygon "@ + decimal(polygon as nat),
            TilingFault::TileOutOfRange { polygon, side }
            | TilingFault::PolygonOutOfRange { polygon, side }
            | TilingFault::SideOutOfRange { polygon, side }
            | TilingFault::PolygonNotMirrored { polygon, side }
            | TilingFault::SideNotMirrored { polygon, side }
            | TilingFault::CrossingNotMirrored { polygon, side }
            | TilingFault::TranslationNotMirrored { polygon, side } =>
                ". Polygon "@ + decimal(polygon as nat) + " Side "@ + decimal(side as nat),
        }
    }

    /// What the fault says to a reader: the rule, then the place.
    pub open spec fn text(self) -> Seq<char> {
        self.rule() + self.place()
    }

    /// The words for the rule that was broken.
    fn rule_words(&self) -> (words: &'static str)
        ensures
            words@ == self.rule(),
    {
        match self {
            TilingFault::NoPolygons => "No polygons in tiling",
            TilingFault::NeighborAtOrigin { .. } => "Neighbor is at origin",
            TilingFault::DuplicateNeighbor { .. } => "Two neighbors have the same offset",
            TilingFault::DuplicatePolygon { .. } => "Two polygons have the same offset",
            TilingFault::TileOutOfRange { .. } => "Side tile index out of bounds",
            TilingFault::PolygonOutOfRange { .. } => "Side polygon index out of bounds",
            TilingFault::SideOutOfRange { .. } => "Side index out of bounds",
            TilingFault::PolygonNotMirrored { .. } =>
                "Polygon sides are not reflexive: they reference different polygons",
            TilingFault::SideNotMirrored { .. } =>
                "Polygon sides are not reflexive: they reference different sides",
            TilingFault::CrossingNotMirrored { .. } =>
                "Polygon sides are not reflexive: they reference different tiles",
            TilingFault::TranslationNotMirrored { .. } =>
                "Polygon sides are not reflexive: they reference non-reflexive tiles",
        }
    }

    /// Writes the fault out for a reader.
    pub fn message(&self) -> (message: String)
        ensures
            message@ == self.text(),
    {
        let mut message = String::from_str(self.rule_words());
        match self {
            TilingFault::NoPolygons => {},
            TilingFault::NeighborAtOrigin { neighbor } | TilingFault::DuplicateNeighbor { neighbor } => {
                message.append(". Neighbor ");
                push_decimal(&mut message, *neighbor);
            },
            TilingFault::DuplicatePolygon { polygon } => {
                message.append(". Polygon ");
                push_decimal(&mut message, *polygon);
            },
            TilingFault::TileOutOfRange { polygon, side }
            | TilingFault::PolygonOutOfRange { polygon, side }
            | TilingFault::SideOutOfRange { polygon, side }
            | TilingFault::PolygonNotMirrored { polygon, side }
            | TilingFault::SideNotMirrored { polygon, side }
            | TilingFault::CrossingNotMirrored { polygon, side }
            | TilingFault::TranslationNotMirrored { polygon, side } => {
                message.append(". Polygon ");
                push_decimal(&mut message, *polygon);
                message.append(" Side ");
                push_decimal(&mut message, *side);
            },
        }
        assert(message@ =~= self.text());
        message
    }
}

/// Why a tiling was refused.
#[derive(Clone, Debug)]
pub struct TilingError {
    pub fault: TilingFault,
    pub message: String,
}

impl TilingError {
    /// The error for `fault`, with its message.
    pub fn new(fault: TilingFault) -> (error: TilingError)
        ensures
            error.fault == fault,
            error.message@ == fault.text(),
    {
        TilingError { fault, message: fault.message() }
    }
}

/// Whether two translations cancel each other.
pub open spec fn opposite(a: Offset, b: Offset) -> bool {
    a.x + b.x == 0 && a.y + b.y == 0
}

impl Tiling {
    /// Neighbour translation `i` is not zero.
    pub open spec fn neighbor_moves(self, i: int) -> bool {
        self.neighbors@[i] != (Offset { x: 0, y: 0 })
    }

    /// Neighbour translation `i` differs from all earlier ones.
    pub open spec fn neighbor_fresh(self, i: int) -> bool {
        forall|j: int| 0 <= j < i ==> self.neighbors@[j] != self.neighbors@[i]
    }

    /// Polygon `p` lies at another offset than all earlier polygons.
    pub open spec fn polygon_fresh(self, p: int) -> bool {
        forall|q: int| 0 <= q < p ==> self.polygons@[q].offset != self.polygons@[p].offset
    }

    /// Side `s` of polygon `p`.
    pub open spec fn side(self, p: int, s: int) -> PolygonSide {
        self.polygons@[p].sides@[s]
    }

    /// The side that side `s` of polygon `p` names.
    pub open spec fn side_across(self, p: int, s: int) -> PolygonSide {
        self.side(self.side(p, s).other_polygon as int, self.side(p, s).other_side_index as int)
    }

    /// Side `s` of polygon `p` names the tile itself or a neighbour
    /// translation of the tiling.
    pub open spec fn tile_in_range(self, p: int, s: int) -> bool {
        self.side(p, s).other_tile <= self.neighbors@.len()
    }

    /// Side `s` of polygon `p` names a polygon of the tiling.
    pub open spec fn polygon_in_range(self, p: int, s: int) -> bool {
        self.side(p, s).other_polygon < self.polygons@.len()
    }

    /// Side `s` of polygon `p` names a side of the polygon that it names.
    pub open spec fn side_index_in_range(self, p: int, s: int) -> bool {
        self.side(p, s).other_side_index < self.polygons@[self.side(p, s).other_polygon as int].sides@.len()
    }

    /// Everything that side `s` of polygon `p` names exists.
    pub open spec fn side_in_range(self, p: int, s: int) -> bool {
        &&& self.tile_in_range(p, s)
        &&& self.polygon_in_range(p, s)
        &&& self.side_index_in_range(p, s)
    }

    /// The side that side `s` of polygon `p` names leads back to polygon `p`.
    pub open spec fn polygon_mirrored(self, p: int, s: int) -> bool {
        self.side_across(p, s).other_polygon == p
    }

    /// The side that side `s` of polygon `p` names leads back to side `s`.
    pub open spec fn side_index_mirrored(self, p: int, s: int) -> bool {
        self.side_across(p, s).other_side_index == s
    }

    /// Side `s` of polygon `p` and the side that it names both leave the
    /// tile, or both stay in it.
    pub open spec fn crossing_mirrored(self, p: int, s: int) -> bool {
        (self.side(p, s).other_tile == 0) == (self.side_across(p, s).other_tile == 0)
    }

    /// If side `s` of polygon `p` leaves the tile, its translation and that
    /// of the side that it names cancel.
    pub open spec fn translation_mirrored(self, p: int, s: int) -> bool {
        self.side(p, s).other_tile != 0 ==> opposite(
            self.neighbors@[self.side(p, s).other_tile - 1],
            self.neighbors@[self.side_across(p, s).other_tile - 1],
        )
    }

    /// The side that side `s` of polygon `p` names leads back to it, the two
    /// agree on whether they leave the tile, and if they do, their
    /// translations cancel.
    pub open spec fn side_mirrored(self, p: int, s: int) -> bool {
        &&& self.polygon_mirrored(p, s)
        &&& self.side_index_mirrored(p, s)
        &&& self.crossing_mirrored(p, s)
        &&& self.translation_mirrored(p, s)
    }

    /// The translation that tile index `tile` of a side stands for: none for
    /// 0, else neighbour translation `tile - 1`.
    pub open spec fn shift(self, tile: int) -> (int, int) {
        if tile == 0 {
            (0, 0)
        } else {
            (self.neighbors@[tile - 1].x as int, self.neighbors@[tile - 1].y as int)
        }
    }

    /// The lattice position across side `s` of polygon `p`, seen from the
    /// cell at `from`: back to the tile of the cell, over to the tile that
    /// the side names, and on to the polygon that it names.
    pub open spec fn beyond(self, from: Offset, p: int, s: int) -> (int, int) {
        let side = self.side(p, s);
        let here = self.polygons@[p].offset;
        let there = self.polygons@[side.other_polygon as int].offset;
        let shift = self.shift(side.other_tile as int);
        (from.x - here.x + there.x + shift.0, from.y - here.y + there.y + shift.1)
    }

    /// Whether `(p, s)` names a side of the tiling.
    pub open spec fn has_side(self, p: int, s: int) -> bool {
        0 <= p < self.polygons@.len() && 0 <= s < self.polygons@[p].sides@.len()
    }

    /// Whether side `(q, t)` comes before side `(p, s)`.
    pub open spec fn side_before(self, q: int, t: int, p: int, s: int) -> bool {
        self.has_side(q, t) && (q < p || (q == p && t < s))
    }

    /// No neighbour translation is zero or repeats an earlier one.
    pub open spec fn neighbors_sound(self) -> bool {
        forall|i: int|
            #![trigger self.neighbor_moves(i)]
            #![trigger self.neighbor_fresh(i)]
            0 <= i < self.neighbors@.len() ==> self.neighbor_moves(i) && self.neighbor_fresh(i)
    }

    /// No polygon lies at the offset of an earlier one.
    pub open spec fn polygons_sound(self) -> bool {
        forall|p: int| 0 <= p < self.polygons@.len() ==> #[trigger] self.polygon_fresh(p)
    }

    /// Everything that a side names exists.
    pub open spec fn sides_in_range(self) -> bool {
        forall|p: int, s: int| self.has_side(p, s) ==> #[trigger] self.side_in_range(p, s)
    }

    /// Every side is mirrored by the side that it names.
    pub open spec fn sides_mirrored(self) -> bool {
        forall|p: int, s: int| self.has_side(p, s) ==> #[trigger] self.side_mirrored(p, s)
    }

    /// The tiling keeps every rule.
    pub open spec fn valid(self) -> bool {
        &&& self.polygons@.len() > 0
        &&& self.neighbors_sound()
        &&& self.polygons_sound()
        &&& self.sides_in_range()
        &&& self.sides_mirrored()
    }

    /// The tiling breaks the rule that `fault` names at the place that it names.
    pub open spec fn breaks(self, fault: TilingFault) -> bool {
        match fault {
            TilingFault::NoPolygons => self.polygons@.len() == 0,
            TilingFault::NeighborAtOrigin { neighbor } => neighbor < self.neighbors@.len()
                && !self.neighbor_moves(neighbor as int),
            TilingFault::DuplicateNeighbor { neighbor } => neighbor < self.neighbors@.len()
                && !self.neighbor_fresh(neighbor as int),
            TilingFault::DuplicatePolygon { polygon } => polygon < self.polygons@.len()
                && !self.polygon_fresh(polygon as int),
            TilingFault::TileOutOfRange { polygon, side } => self.has_side(polygon as int, side as int)
                && !self.tile_in_range(polygon as int, side as int),
            TilingFault::PolygonOutOfRange { polygon, side } => self.has_side(polygon as int, side as int)
                && !self.polygon_in_range(polygon as int, side as int),
            TilingFault::SideOutOfRange { polygon, side } => self.has_side(polygon as int, side as int)
                && !self.side_index_in_range(polygon as int, side as int),
            TilingFault::PolygonNotMirrored { polygon, side } => self.has_side(polygon as int, side as int)
                && !self.polygon_mirrored(polygon as int, side as int),
            TilingFault::SideNotMirrored { polygon, side } => self.has_side(polygon as int, side as int)
                && !self.side_index_mirrored(polygon as int, side as int),
            TilingFault::CrossingNotMirrored { polygon, side } => self.has_side(polygon as int, side as int)
                && !self.crossing_mirrored(polygon as int, side as int),
            TilingFault::TranslationNotMirrored { polygon, side } => self.has_side(polygon as int, side as int)
                && !self.translation_mirrored(polygon as int, side as int),
        }
    }

    /// Every check that comes before the one that `fault` names passes.
    ///
    /// The rules are checked one after the other, each over the whole tiling
    /// in order: that there is a polygon, the neighbour translations, the
    /// polygon offsets, the ranges of all sides, and last the mirroring of
    /// all sides.
    pub open spec fn passes_before(self, fault: TilingFault) -> bool {
        match fault {
            TilingFault::NoPolygons => true,
            TilingFault::NeighborAtOrigin { neighbor } => {
                &&& self.polygons@.len() > 0
                &&& forall|i: int|
                    #![trigger self.neighbor_moves(i)]
                    #![trigger self.neighbor_fresh(i)]
                    0 <= i < neighbor ==> self.neighbor_moves(i) && self.neighbor_fresh(i)
            },
            TilingFault::DuplicateNeighbor { neighbor } => {
                &&& self.polygons@.len() > 0
                &&& forall|i: int|
                    #![trigger self.neighbor_moves(i)]
                    #![trigger self.neighbor_fresh(i)]
                    0 <= i < neighbor ==> self.neighbor_moves(i) && self.neighbor_fresh(i)
                &&& self.neighbor_moves(neighbor as int)
            },
            TilingFault::DuplicatePolygon { polygon } => {
                &&& self.polygons@.len() > 0
                &&& self.neighbors_sound()
                &&& forall|p: int| 0 <= p < polygon ==> #[trigger] self.polygon_fresh(p)
            },
            TilingFault::TileOutOfRange { polygon, side } => {
                &&& self.ranges_pass_before(polygon as int, side as int)
            },
            TilingFault::PolygonOutOfRange { polygon, side } => {
                &&& self.ranges_pass_before(polygon as int, side as int)
                &&& self.tile_in_range(polygon as int, side as int)
            },
            TilingFault::SideOutOfRange { polygon, side } => {
                &&& self.ranges_pass_before(polygon as int, side as int)
                &&& self.tile_in_range(polygon as int, side as int)
                &&& self.polygon_in_range(polygon as int, side as int)
            },
            TilingFault::PolygonNotMirrored { polygon, side } => {
                &&& self.mirrors_pass_before(polygon as int, side as int)
            },
            TilingFault::SideNotMirrored { polygon, side } => {
                &&& self.mirrors_pass_before(polygon as int, side as int)
                &&& self.polygon_mirrored(polygon as int, side as int)
            },
            TilingFault::CrossingNotMirrored { polygon, side } => {
                &&& self.mirrors_pass_before(polygon as int, side as int)
                &&& self.polygon_mirrored(polygon as int, side as int)
                &&& self.side_index_mirrored(polygon as int, side as int)
            },
            TilingFault::TranslationNotMirrored { polygon, side } => {
                &&& self.mirrors_pass_before(polygon as int, side as int)
                &&& self.polygon_mirrored(polygon as int, side as int)
                &&& self.side_index_mirrored(polygon as int, side as int)
                &&& self.crossing_mirrored(polygon as int, side as int)
            },
        }
    }

    /// The checks before the ranges pass, and so do the ranges of the sides
    /// before side `(p, s)`.
    pub open spec fn ranges_pass_before(self, p: int, s: int) -> bool {
        &&& self.polygons@.len() > 0
        &&& self.neighbors_sound()
        &&& self.polygons_sound()
        &&& forall|q: int, t: int| self.side_before(q, t, p, s) ==> #[trigger] self.side_in_range(q, t)
    }

    /// The checks before the mirroring pass, and so does the mirroring of the
    /// sides before side `(p, s)`.
    pub open spec fn mirrors_pass_before(self, p: int, s: int) -> bool {
        &&& self.polygons@.len() > 0
        &&& self.neighbors_sound()
        &&& self.polygons_sound()
        &&& self.sides_in_range()
        &&& forall|q: int, t: int| self.side_before(q, t, p, s) ==> #[trigger] self.side_mirrored(q, t)
    }

    /// The fault that `validate` reports: the rule is broken there, and no
    /// check before it fails.
    pub open spec fn first_fault(self, fault: TilingFault) -> bool {
        self.breaks(fault) && self.passes_before(fault)
    }

    /// In a valid tiling every side is mirrored: what it names exists, the
    /// side that it names leads back to it, the two agree on whether they
    /// leave the tile, and if they do, their translations cancel.
    pub proof fn lemma_valid_mirrored(self, p: int, s: int)
        requires
            self.valid(),
            self.has_side(p, s),
        ensures
            self.side(p, s).other_tile <= self.neighbors@.len(),
            self.has_side(self.side(p, s).other_polygon as int, self.side(p, s).other_side_index as int),
            self.side_across(p, s).other_polygon == p,
            self.side_across(p, s).other_side_index == s,
            self.side_across(p, s).other_tile <= self.neighbors@.len(),
            (self.side(p, s).other_tile == 0) == (self.side_across(p, s).other_tile == 0),
            self.side(p, s).other_tile != 0 ==> opposite(
                self.neighbors@[self.side(p, s).other_tile - 1],
                self.neighbors@[self.side_across(p, s).other_tile - 1],
            ),
            self.side_across(self.side(p, s).other_polygon as int, self.side(p, s).other_side_index as int) == self.side(p, s),
    {
        assert(self.side_in_range(p, s));
        assert(self.side_mirrored(p, s));
        let q = self.side(p, s).other_polygon as int;
        let t = self.side(p, s).other_side_index as int;
        assert(self.has_side(q, t));
        assert(self.side_in_range(q, t));
        assert(self.side_mirrored(q, t));
    }

    /// A tiling that breaks a rule is not valid.
    pub proof fn lemma_fault_refutes(self, fault: TilingFault)
        requires
            self.breaks(fault),
        ensures
            !self.valid(),
    {
        match fault {
            TilingFault::NoPolygons => {},
            TilingFault::NeighborAtOrigin { neighbor } => {
                assert(!self.neighbor_moves(neighbor as int));
            },
            TilingFault::DuplicateNeighbor { neighbor } => {
                assert(!self.neighbor_fresh(neighbor as int));
            },
            TilingFault::DuplicatePolygon { polygon } => {
                assert(!self.polygon_fresh(polygon as int));
            },
            TilingFault::TileOutOfRange { polygon, side }
            | TilingFault::PolygonOutOfRange { polygon, side }
            | TilingFault::SideOutOfRange { polygon, side } => {
                assert(!self.side_in_range(polygon as int, side as int));
            },
            TilingFault::PolygonNotMirrored { polygon, side }
            | TilingFault::SideNotMirrored { polygon, side }
            | TilingFault::CrossingNotMirrored { polygon, side }
            | TilingFault::TranslationNotMirrored { polygon, side } => {
                assert(!self.side_mirrored(polygon as int, side as int));
            },
        }
    }

    /// Whether an earlier neighbour translation equals translation `i`.
    fn neighbor_repeats(&self, seen: &mut HashSet<i128>, i: usize) -> (repeats: bool)
        requires
            i < self.neighbors@.len(),
            forall|k: i128| old(seen)@.contains(k) <==> exists|j: int| 0 <= j < i && #[trigger] self.neighbors@[j].rank() == k,
        ensures
            repeats == !self.neighbor_fresh(i as int),
            !repeats ==> forall|k: i128| final(seen)@.contains(k) <==> exists|j: int| 0 <= j < i + 1 && #[trigger] self.neighbors@[j].rank() == k,
    {
        let fresh = seen.insert(self.neighbors[i].key());
        proof {
            let here = self.neighbors@[i as int];
            assert forall|j: int| 0 <= j < i implies (self.neighbors@[j] == here <==> #[trigger] self.neighbors@[j].rank() == here.rank()) by {
                lemma_rank_orders(self.neighbors@[j], here);
            }
            if fresh {
                assert(self.neighbor_fresh(i as int));
            } else {
                let j = choose|j: int| 0 <= j < i && #[trigger] self.neighbors@[j].rank() == here.rank();
                assert(self.neighbors@[j] == here);
            }
        }
        !fresh
    }

    /// Whether an earlier polygon lies at the offset of polygon `p`.
    fn polygon_repeats(&self, seen: &mut HashSet<i128>, p: usize) -> (repeats: bool)
        requires
            p < self.polygons@.len(),
            forall|k: i128| old(seen)@.contains(k) <==> exists|q: int| 0 <= q < p && #[trigger] self.polygons@[q].offset.rank() == k,
        ensures
            repeats == !self.polygon_fresh(p as int),
            !repeats ==> forall|k: i128| final(seen)@.contains(k) <==> exists|q: int| 0 <= q < p + 1 && #[trigger] self.polygons@[q].offset.rank() == k,
    {
        let fresh = seen.insert(self.polygons[p].offset.key());
        proof {
            let here = self.polygons@[p as int].offset;
            assert forall|q: int| 0 <= q < p implies (self.polygons@[q].offset == here <==> #[trigger] self.polygons@[q].offset.rank() == here.rank()) by {
                lemma_rank_orders(self.polygons@[q].offset, here);
            }
            if fresh {
                assert(self.polygon_fresh(p as int));
            } else {
                let q = choose|q: int| 0 <= q < p && #[trigger] self.polygons@[q].offset.rank() == here.rank();
                assert(self.polygons@[q].offset == here);
            }
        }
        !fresh
    }

    /// Checks the range of side `s` of polygon `p`.
    fn check_range(&self, p: usize, s: usize) -> (found: Option<TilingFault>)
        requires
            self.has_side(p as int, s as int),
        ensures
            found is None <==> self.side_in_range(p as int, s as int),
            found matches Some(fault) ==> {
                &&& self.breaks(fault)
                &&& match fault {
                    TilingFault::TileOutOfRange { polygon, side } => polygon == p && side == s,
                    TilingFault::PolygonOutOfRange { polygon, side } => polygon == p && side == s
                        && self.tile_in_range(p as int, s as int),
                    TilingFault::SideOutOfRange { polygon, side } => polygon == p && side == s
                        && self.tile_in_range(p as int, s as int) && self.polygon_in_range(p as int, s as int),
                    _ => false,
                }
            },
    {
        let side = self.polygons[p].sides[s];
        if side.other_tile > self.neighbors.len() {
            Some(TilingFault::TileOutOfRange { polygon: p, side: s })
        } else if side.other_polygon >= self.polygons.len() {
            Some(TilingFault::PolygonOutOfRange { polygon: p, side: s })
        } else if side.other_side_index >= self.polygons[side.other_polygon].sides.len() {
            Some(TilingFault::SideOutOfRange { polygon: p, side: s })
        } else {
            None
        }
    }

    /// Checks that side `s` of polygon `p` is mirrored by the side it names.
    fn check_mirror(&self, p: usize, s: usize) -> (found: Option<TilingFault>)
        requires
            self.has_side(p as int, s as int),
            self.sides_in_range(),
        ensures
            found is None <==> self.side_mirrored(p as int, s as int),
            found matches Some(fault) ==> {
                &&& self.breaks(fault)
                &&& match fault {
                    TilingFault::PolygonNotMirrored { polygon, side } => polygon == p && side == s,
                    TilingFault::SideNotMirrored { polygon, side } => polygon == p && side == s
                        && self.polygon_mirrored(p as int, s as int),
                    TilingFault::CrossingNotMirrored { polygon, side } => polygon == p && side == s
                        && self.polygon_mirrored(p as int, s as int) && self.side_index_mirrored(p as int, s as int),
                    TilingFault::TranslationNotMirrored { polygon, side } => polygon == p && side == s
                        && self.polygon_mirrored(p as int, s as int) && self.side_index_mirrored(p as int, s as int)
                        && self.crossing_mirrored(p as int, s as int),
                    _ => false,
                }
            },
    {
        assert(self.side_in_range(p as int, s as int));
        let side = self.polygons[p].sides[s];
        let across = self.polygons[side.other_polygon].sides[side.other_side_index];
        assert(across == self.side_across(p as int, s as int));
        assert(self.has_side(side.other_polygon as int, side.other_side_index as int));
        assert(self.side_in_range(side.other_polygon as int, side.other_side_index as int));
        if across.other_polygon != p {
            Some(TilingFault::PolygonNotMirrored { polygon: p, side: s })
        } else if across.other_side_index != s {
            Some(TilingFault::SideNotMirrored { polygon: p, side: s })
        } else if (side.other_tile == 0) != (across.other_tile == 0) {
            Some(TilingFault::CrossingNotMirrored { polygon: p, side: s })
        } else if side.other_tile != 0 {
            let there = self.neighbors[side.other_tile - 1];
            let back = self.neighbors[across.other_tile - 1];
            if there.x as i128 + back.x as i128 == 0 && there.y as i128 + back.y as i128 == 0 {
                None
            } else {
                Some(TilingFault::TranslationNotMirrored { polygon: p, side: s })
            }
        } else {
            None
        }
    }

    /// Checks the rules of a tiling, one after the other: that it has a
    /// polygon; that no neighbour translation is zero or repeats an earlier
    /// one; that no polygon lies at the offset of an earlier one; that every
    /// side names a translation, a polygon and a side that exist; and that
    /// every side is mirrored by the side it names.
    ///
    /// The error holds the first check that fails.
    pub fn validate(&self) -> (result: Result<(), TilingError>)
        ensures
            result is Ok <==> self.valid(),
            result matches Err(error) ==> self.first_fault(error.fault) && error.message@ == error.fault.text(),
    {
        if self.polygons.len() == 0 {
            return Err(TilingError::new(TilingFault::NoPolygons));
        }
        let mut seen: HashSet<i128> = HashSet::new();
        let mut i: usize = 0;
        while i < self.neighbors.len()
            invariant
                i <= self.neighbors@.len(),
                self.polygons@.len() > 0,
                forall|j: int|
                    #![trigger self.neighbor_moves(j)]
                    #![trigger self.neighbor_fresh(j)]
                    0 <= j < i ==> self.neighbor_moves(j) && self.neighbor_fresh(j),
                forall|k: i128| seen@.contains(k) <==> exists|j: int| 0 <= j < i && #[trigger] self.neighbors@[j].rank() == k,
            decreases self.neighbors@.len() - i,
        {
            let neighbor = self.neighbors[i];
            if neighbor.x == 0 && neighbor.y == 0 {
                let fault = TilingFault::NeighborAtOrigin { neighbor: i };
                proof {
                    self.lemma_fault_refutes(fault);
                }
                return Err(TilingError::new(fault));
            }
            if self.neighbor_repeats(&mut seen, i) {
                let fault = TilingFault::DuplicateNeighbor { neighbor: i };
                proof {
                    self.lemma_fault_refutes(fault);
                }
                return Err(TilingError::new(fault));
            }
            i = i + 1;
        }
        let mut seen: HashSet<i128> = HashSet::new();
        let mut p: usize = 0;
        while p < self.polygons.len()
            invariant
                p <= self.polygons@.len(),
                self.polygons@.len() > 0,
                self.neighbors_sound(),
                forall|q: int| 0 <= q < p ==> #[trigger] self.polygon_fresh(q),
                forall|k: i128| seen@.contains(k) <==> exists|q: int| 0 <= q < p && #[trigger] self.polygons@[q].offset.rank() == k,
            decreases self.polygons@.len() - p,
        {
            if self.polygon_repeats(&mut seen, p) {
                let fault = TilingFault::DuplicatePolygon { polygon: p };
                proof {
                    self.lemma_fault_refutes(fault);
                }
                return Err(TilingError::new(fault));
            }
            p = p + 1;
        }
        let mut p: usize = 0;
        while p < self.polygons.len()
            invariant
                p <= self.polygons@.len(),
                self.polygons@.len() > 0,
                self.neighbors_sound(),
                self.polygons_sound(),
                forall|q: int, t: int| self.side_before(q, t, p as int, 0) ==> #[trigger] self.side_in_range(q, t),
            decreases self.polygons@.len() - p,
        {
            let mut s: usize = 0;
            while s < self.polygons[p].sides.len()
                invariant
                    p < self.polygons@.len(),
                    s <= self.polygons@[p as int].sides@.len(),
                    self.polygons@.len() > 0,
                    self.neighbors_sound(),
                    self.polygons_sound(),
                    forall|q: int, t: int| self.side_before(q, t, p as int, s as int) ==> #[trigger] self.side_in_range(q, t),
                decreases self.polygons@[p as int].sides@.len() - s,
            {
                match self.check_range(p, s) {
                    Some(fault) => {
                        proof {
                            self.lemma_fault_refutes(fault);
                        }
                        return Err(TilingError::new(fault));
                    },
                    None => {},
                }
                s = s + 1;
            }
            p = p + 1;
        }
        let mut p: usize = 0;
        while p < self.polygons.len()
            invariant
                p <= self.polygons@.len(),
                self.polygons@.len() > 0,
                self.neighbors_sound(),
                self.polygons_sound(),
                self.sides_in_range(),
                forall|q: int, t: int| self.side_before(q, t, p as int, 0) ==> #[trigger] self.side_mirrored(q, t),
            decreases self.polygons@.len() - p,
        {
            let mut s: usize = 0;
            while s < self.polygons[p].sides.len()
                invariant
                    p < self.polygons@.len(),
                    s <= self.polygons@[p as int].sides@.len(),
                    self.polygons@.len() > 0,
                    self.neighbors_sound(),
                    self.polygons_sound(),
                    self.sides_in_range(),
                    forall|q: int, t: int| self.side_before(q, t, p as int, s as int) ==> #[trigger] self.side_mirrored(q, t),
                decreases self.polygons@[p as int].sides@.len() - s,
            {
                match self.check_mirror(p, s) {
                    Some(fault) => {
                        proof {
                            self.lemma_fault_refutes(fault);
                        }
                        return Err(TilingError::new(fault));
                    },
                    None => {},
                }
                s = s + 1;
            }
            p = p + 1;
        }
        Ok(())
    }
}

} // verus!
