//! The tilings that the library knows by name.
//!
//! Each table holds the lattice part of a tiling: where the polygons of a tile
//! lie, which translations lead to the neighbouring tiles, and which side
//! meets which. Every table is proved to keep the rules of a tiling.

use crate::lattice::Offset;
use crate::tiling::{PolygonSide, TilePolygon, Tiling};
use vstd::prelude::*;

verus! {

/// The offset `(x, y)`.
fn at(x: isize, y: isize) -> (o: Offset)
    ensures
        o == (Offset { x, y }),
{
    Offset { x, y }
}

/// The side that leads to side `other_side_index` of polygon `other_polygon`
/// in tile `other_tile`.
fn to(other_tile: usize, other_polygon: usize, other_side_index: usize) -> (side: PolygonSide)
    ensures
        side == (PolygonSide { other_tile, other_polygon, other_side_index }),
{
    PolygonSide { other_tile, other_polygon, other_side_index }
}

impl Tiling {
    /// The neighbour translations as pairs `(x, y)`.
    pub open spec fn translations(self) -> Seq<(int, int)> {
        self.neighbors@.map_values(|o: Offset| (o.x as int, o.y as int))
    }

    /// The offsets of the polygons as pairs `(x, y)`.
    pub open spec fn places(self) -> Seq<(int, int)> {
        self.polygons@.map_values(|polygon: TilePolygon| (polygon.offset.x as int, polygon.offset.y as int))
    }

    /// The sides of polygon `p` as triples of tile, polygon and side.
    pub open spec fn links(self, p: int) -> Seq<(int, int, int)> {
        self.polygons@[p].sides@.map_values(
            |side: PolygonSide| (side.other_tile as int, side.other_polygon as int, side.other_side_index as int),
        )
    }


    /// The tiling by regular hexagons.
    pub fn hex() -> (tiling: Tiling)
        ensures
            tiling.valid(),
            tiling.translations() == seq![(0int, -1int), (1int, -1int), (1int, 0int), (0int, 1int), (-1int, 1int), (-1int, 0int)],
            tiling.places() == seq![(0int, 0int)],
            tiling.links(0) == seq![(1int, 0int, 3int), (2int, 0int, 4int), (3int, 0int, 5int), (4int, 0int, 0int), (5int, 0int, 1int), (6int, 0int, 2int)],
    {
        let tiling = Tiling {
            neighbors: vec![at(0, -1), at(1, -1), at(1, 0), at(0, 1), at(-1, 1), at(-1, 0)],
            polygons: vec![
                TilePolygon {
                    offset: at(0, 0),
                    sides: vec![to(1, 0, 3), to(2, 0, 4), to(3, 0, 5), to(4, 0, 0), to(5, 0, 1), to(6, 0, 2)],
                },
            ],
        };
        proof {
            assert(tiling.translations() =~= seq![(0int, -1int), (1int, -1int), (1int, 0int), (0int, 1int), (-1int, 1int), (-1int, 0int)]);
            assert(tiling.places() =~= seq![(0int, 0int)]);
            assert(tiling.links(0) =~= seq![(1int, 0int, 3int), (2int, 0int, 4int), (3int, 0int, 5int), (4int, 0int, 0int), (5int, 0int, 1int), (6int, 0int, 2int)]);
            assert(tiling.neighbors_sound()) by {
                assert(tiling.neighbor_moves(0) && tiling.neighbor_fresh(0));
                assert(tiling.neighbor_moves(1) && tiling.neighbor_fresh(1));
                assert(tiling.neighbor_moves(2) && tiling.neighbor_fresh(2));
                assert(tiling.neighbor_moves(3) && tiling.neighbor_fresh(3));
                assert(tiling.neighbor_moves(4) && tiling.neighbor_fresh(4));
                assert(tiling.neighbor_moves(5) && tiling.neighbor_fresh(5));
            }
            assert(tiling.polygons_sound()) by {
                assert(tiling.polygon_fresh(0));
            }
            assert(tiling.sides_in_range()) by {
                assert(tiling.side_in_range(0, 0));
                assert(tiling.side_in_range(0, 1));
                assert(tiling.side_in_range(0, 2));
                assert(tiling.side_in_range(0, 3));
                assert(tiling.side_in_range(0, 4));
                assert(tiling.side_in_range(0, 5));
            }
            assert(tiling.sides_mirrored()) by {
                assert(tiling.side_mirrored(0, 0));
                assert(tiling.side_mirrored(0, 1));
                assert(tiling.side_mirrored(0, 2));
                assert(tiling.side_mirrored(0, 3));
                assert(tiling.side_mirrored(0, 4));
                assert(tiling.side_mirrored(0, 5));
            }
        }
        tiling
    }

    /// The tiling by regular triangles.
    pub fn triangle() -> (tiling: Tiling)
        ensures
            tiling.valid(),
            tiling.translations() == seq![(-1int, -1int), (1int, -1int), (1int, 1int), (-1int, 1int)],
            tiling.places() == seq![(0int, -1int), (0int, 0int)],
            tiling.links(0) == seq![(2int, 1int, 2int), (0int, 1int, 0int), (1int, 1int, 1int)],
            tiling.links(1) == seq![(0int, 0int, 1int), (3int, 0int, 2int), (4int, 0int, 0int)],
    {
        let tiling = Tiling {
            neighbors: vec![at(-1, -1), at(1, -1), at(1, 1), at(-1, 1)],
            polygons: vec![
                TilePolygon {
                    offset: at(0, -1),
                    sides: vec![to(2, 1, 2), to(0, 1, 0), to(1, 1, 1)],
                },
                TilePolygon {
                    offset: at(0, 0),
                    sides: vec![to(0, 0, 1), to(3, 0, 2), to(4, 0, 0)],
                },
            ],
        };
        proof {
            assert(tiling.translations() =~= seq![(-1int, -1int), (1int, -1int), (1int, 1int), (-1int, 1int)]);
            assert(tiling.places() =~= seq![(0int, -1int), (0int, 0int)]);
            assert(tiling.links(0) =~= seq![(2int, 1int, 2int), (0int, 1int, 0int), (1int, 1int, 1int)]);
            assert(tiling.links(1) =~= seq![(0int, 0int, 1int), (3int, 0int, 2int), (4int, 0int, 0int)]);
            assert(tiling.neighbors_sound()) by {
                assert(tiling.neighbor_moves(0) && tiling.neighbor_fresh(0));
                assert(tiling.neighbor_moves(1) && tiling.neighbor_fresh(1));
                assert(tiling.neighbor_moves(2) && tiling.neighbor_fresh(2));
                assert(tiling.neighbor_moves(3) && tiling.neighbor_fresh(3));
            }
            assert(tiling.polygons_sound()) by {
                assert(tiling.polygon_fresh(0));
                assert(tiling.polygon_fresh(1));
            }
            assert(tiling.sides_in_range()) by {
                assert(tiling.side_in_range(0, 0));
                assert(tiling.side_in_range(0, 1));
                assert(tiling.side_in_range(0, 2));
                assert(tiling.side_in_range(1, 0));
                assert(tiling.side_in_range(1, 1));
                assert(tiling.side_in_range(1, 2));
            }
            assert(tiling.sides_mirrored()) by {
                assert(tiling.side_mirrored(0, 0));
                assert(tiling.side_mirrored(0, 1));
                assert(tiling.side_mirrored(0, 2));
                assert(tiling.side_mirrored(1, 0));
                assert(tiling.side_mirrored(1, 1));
                assert(tiling.side_mirrored(1, 2));
            }
        }
        tiling
    }

    /// The tiling by squares.
    pub fn square() -> (tiling: Tiling)
        ensures
            tiling.valid(),
            tiling.translations() == seq![(0int, -1int), (1int, 0int), (0int, 1int), (-1int, 0int)],
            tiling.places() == seq![(0int, 0int)],
            tiling.links(0) == seq![(1int, 0int, 2int), (2int, 0int, 3int), (3int, 0int, 0int), (4int, 0int, 1int)],
    {
        let tiling = Tiling {
            neighbors: vec![at(0, -1), at(1, 0), at(0, 1), at(-1, 0)],
            polygons: vec![
                TilePolygon {
                    offset: at(0, 0),
                    sides: vec![to(1, 0, 2), to(2, 0, 3), to(3, 0, 0), to(4, 0, 1)],
                },
            ],
        };
        proof {
            assert(tiling.translations() =~= seq![(0int, -1int), (1int, 0int), (0int, 1int), (-1int, 0int)]);
            assert(tiling.places() =~= seq![(0int, 0int)]);
            assert(tiling.links(0) =~= seq![(1int, 0int, 2int), (2int, 0int, 3int), (3int, 0int, 0int), (4int, 0int, 1int)]);
            assert(tiling.neighbors_sound()) by {
                assert(tiling.neighbor_moves(0) && tiling.neighbor_fresh(0));
                assert(tiling.neighbor_moves(1) && tiling.neighbor_fresh(1));
                assert(tiling.neighbor_moves(2) && tiling.neighbor_fresh(2));
                assert(tiling.neighbor_moves(3) && tiling.neighbor_fresh(3));
            }
            assert(tiling.polygons_sound()) by {
                assert(tiling.polygon_fresh(0));
            }
            assert(tiling.sides_in_range()) by {
                assert(tiling.side_in_range(0, 0));
                assert(tiling.side_in_range(0, 1));
                assert(tiling.side_in_range(0, 2));
                assert(tiling.side_in_range(0, 3));
            }
            assert(tiling.sides_mirrored()) by {
                assert(tiling.side_mirrored(0, 0));
                assert(tiling.side_mirrored(0, 1));
                assert(tiling.side_mirrored(0, 2));
                assert(tiling.side_mirrored(0, 3));
            }
        }
        tiling
    }

    /// The tiling by octagons and squares.
    pub fn truncated_square() -> (tiling: Tiling)
        ensures
            tiling.valid(),
            tiling.translations() == seq![(0int, -2int), (2int, 0int), (0int, 2int), (-2int, 0int), (-2int, -2int), (2int, 2int)],
            tiling.places() == seq![(0int, 0int), (1int, 1int)],
            tiling.links(0) == seq![(1int, 0int, 4int), (1int, 1int, 2int), (2int, 0int, 6int), (0int, 1int, 3int), (3int, 0int, 0int), (4int, 1int, 0int), (4int, 0int, 2int), (5int, 1int, 1int)],
            tiling.links(1) == seq![(2int, 0int, 5int), (6int, 0int, 7int), (3int, 0int, 1int), (0int, 0int, 3int)],
    {
        let tiling = Tiling {
            neighbors: vec![at(0, -2), at(2, 0), at(0, 2), at(-2, 0), at(-2, -2), at(2, 2)],
            polygons: vec![
                TilePolygon {
                    offset: at(0, 0),
                    sides: vec![to(1, 0, 4), to(1, 1, 2), to(2, 0, 6), to(0, 1, 3), to(3, 0, 0), to(4, 1, 0), to(4, 0, 2), to(5, 1, 1)],
                },
                TilePolygon {
                    offset: at(1, 1),
                    sides: vec![to(2, 0, 5), to(6, 0, 7), to(3, 0, 1), to(0, 0, 3)],
                },
            ],
        };
        proof {
            assert(tiling.translations() =~= seq![(0int, -2int), (2int, 0int), (0int, 2int), (-2int, 0int), (-2int, -2int), (2int, 2int)]);
            assert(tiling.places() =~= seq![(0int, 0int), (1int, 1int)]);
            assert(tiling.links(0) =~= seq![(1int, 0int, 4int), (1int, 1int, 2int), (2int, 0int, 6int), (0int, 1int, 3int), (3int, 0int, 0int), (4int, 1int, 0int), (4int, 0int, 2int), (5int, 1int, 1int)]);
            assert(tiling.links(1) =~= seq![(2int, 0int, 5int), (6int, 0int, 7int), (3int, 0int, 1int), (0int, 0int, 3int)]);
            assert(tiling.neighbors_sound()) by {
                assert(tiling.neighbor_moves(0) && tiling.neighbor_fresh(0));
                assert(tiling.neighbor_moves(1) && tiling.neighbor_fresh(1));
                assert(tiling.neighbor_moves(2) && tiling.neighbor_fresh(2));
                assert(tiling.neighbor_moves(3) && tiling.neighbor_fresh(3));
                assert(tiling.neighbor_moves(4) && tiling.neighbor_fresh(4));
                assert(tiling.neighbor_moves(5) && tiling.neighbor_fresh(5));
            }
            assert(tiling.polygons_sound()) by {
                assert(tiling.polygon_fresh(0));
                assert(tiling.polygon_fresh(1));
            }
            assert(tiling.sides_in_range()) by {
                assert(tiling.side_in_range(0, 0));
                assert(tiling.side_in_range(0, 1));
                assert(tiling.side_in_range(0, 2));
                assert(tiling.side_in_range(0, 3));
                assert(tiling.side_in_range(0, 4));
                assert(tiling.side_in_range(0, 5));
                assert(tiling.side_in_range(0, 6));
                assert(tiling.side_in_range(0, 7));
                assert(tiling.side_in_range(1, 0));
                assert(tiling.side_in_range(1, 1));
                assert(tiling.side_in_range(1, 2));
                assert(tiling.side_in_range(1, 3));
            }
            assert(tiling.sides_mirrored()) by {
                assert(tiling.side_mirrored(0, 0));
                assert(tiling.side_mirrored(0, 1));
                assert(tiling.side_mirrored(0, 2));
                assert(tiling.side_mirrored(0, 3));
                assert(tiling.side_mirrored(0, 4));
                assert(tiling.side_mirrored(0, 5));
                assert(tiling.side_mirrored(0, 6));
                assert(tiling.side_mirrored(0, 7));
                assert(tiling.side_mirrored(1, 0));
                assert(tiling.side_mirrored(1, 1));
                assert(tiling.side_mirrored(1, 2));
                assert(tiling.side_mirrored(1, 3));
            }
        }
        tiling
    }

    /// The tiling by right triangles, four to a square.
    pub fn tetrakis_square() -> (tiling: Tiling)
        ensures
            tiling.valid(),
            tiling.translations() == seq![(0int, -2int), (2int, 0int), (0int, 2int), (-2int, 0int)],
            tiling.places() == seq![(0int, 0int), (1int, 0int), (1int, 1int), (0int, 1int)],
            tiling.links(0) == seq![(1int, 2int, 1int), (0int, 1int, 2int), (0int, 3int, 0int)],
            tiling.links(1) == seq![(2int, 3int, 2int), (0int, 2int, 0int), (0int, 0int, 1int)],
            tiling.links(2) == seq![(0int, 1int, 1int), (3int, 0int, 0int), (0int, 3int, 1int)],
            tiling.links(3) == seq![(0int, 0int, 2int), (0int, 2int, 2int), (4int, 1int, 0int)],
    {
        let tiling = Tiling {
            neighbors: vec![at(0, -2), at(2, 0), at(0, 2), at(-2, 0)],
            polygons: vec![
                TilePolygon {
                    offset: at(0, 0),
                    sides: vec![to(1, 2, 1), to(0, 1, 2), to(0, 3, 0)],
                },
                TilePolygon {
                    offset: at(1, 0),
                    sides: vec![to(2, 3, 2), to(0, 2, 0), to(0, 0, 1)],
                },
                TilePolygon {
                    offset: at(1, 1),
                    sides: vec![to(0, 1, 1), to(3, 0, 0), to(0, 3, 1)],
                },
                TilePolygon {
                    offset: at(0, 1),
                    sides: vec![to(0, 0, 2), to(0, 2, 2), to(4, 1, 0)],
                },
            ],
        };
        proof {
            assert(tiling.translations() =~= seq![(0int, -2int), (2int, 0int), (0int, 2int), (-2int, 0int)]);
            assert(tiling.places() =~= seq![(0int, 0int), (1int, 0int), (1int, 1int), (0int, 1int)]);
            assert(tiling.links(0) =~= seq![(1int, 2int, 1int), (0int, 1int, 2int), (0int, 3int, 0int)]);
            assert(tiling.links(1) =~= seq![(2int, 3int, 2int), (0int, 2int, 0int), (0int, 0int, 1int)]);
            assert(tiling.links(2) =~= seq![(0int, 1int, 1int), (3int, 0int, 0int), (0int, 3int, 1int)]);
            assert(tiling.links(3) =~= seq![(0int, 0int, 2int), (0int, 2int, 2int), (4int, 1int, 0int)]);
            assert(tiling.neighbors_sound()) by {
                assert(tiling.neighbor_moves(0) && tiling.neighbor_fresh(0));
                assert(tiling.neighbor_moves(1) && tiling.neighbor_fresh(1));
                assert(tiling.neighbor_moves(2) && tiling.neighbor_fresh(2));
                assert(tiling.neighbor_moves(3) && tiling.neighbor_fresh(3));
            }
            assert(tiling.polygons_sound()) by {
                assert(tiling.polygon_fresh(0));
                assert(tiling.polygon_fresh(1));
                assert(tiling.polygon_fresh(2));
                assert(tiling.polygon_fresh(3));
            }
            assert(tiling.sides_in_range()) by {
                assert(tiling.side_in_range(0, 0));
                assert(tiling.side_in_range(0, 1));
                assert(tiling.side_in_range(0, 2));
                assert(tiling.side_in_range(1, 0));
                assert(tiling.side_in_range(1, 1));
                assert(tiling.side_in_range(1, 2));
                assert(tiling.side_in_range(2, 0));
                assert(tiling.side_in_range(2, 1));
                assert(tiling.side_in_range(2, 2));
                assert(tiling.side_in_range(3, 0));
                assert(tiling.side_in_range(3, 1));
                assert(tiling.side_in_range(3, 2));
            }
            assert(tiling.sides_mirrored()) by {
                assert(tiling.side_mirrored(0, 0));
                assert(tiling.side_mirrored(0, 1));
                assert(tiling.side_mirrored(0, 2));
                assert(tiling.side_mirrored(1, 0));
                assert(tiling.side_mirrored(1, 1));
                assert(tiling.side_mirrored(1, 2));
                assert(tiling.side_mirrored(2, 0));
                assert(tiling.side_mirrored(2, 1));
                assert(tiling.side_mirrored(2, 2));
                assert(tiling.side_mirrored(3, 0));
                assert(tiling.side_mirrored(3, 1));
                assert(tiling.side_mirrored(3, 2));
            }
        }
        tiling
    }

    /// The tiling by squares and triangles in which no two squares share a side.
    pub fn snub_square() -> (tiling: Tiling)
        ensures
            tiling.valid(),
            tiling.translations() == seq![(1int, -3int), (3int, 1int), (-1int, 3int), (-3int, -1int)],
            tiling.places() == seq![(0int, 0int), (1int, 0int), (2int, 1int), (0int, 1int), (1int, 1int), (2int, 2int)],
            tiling.links(0) == seq![(1int, 3int, 1int), (0int, 1int, 2int), (0int, 4int, 0int), (4int, 2int, 1int)],
            tiling.links(1) == seq![(1int, 5int, 2int), (0int, 2int, 0int), (0int, 0int, 1int)],
            tiling.links(2) == seq![(0int, 1int, 1int), (2int, 0int, 3int), (0int, 5int, 0int)],
            tiling.links(3) == seq![(0int, 4int, 2int), (3int, 0int, 0int), (4int, 5int, 1int)],
            tiling.links(4) == seq![(0int, 0int, 2int), (0int, 5int, 3int), (0int, 3int, 0int)],
            tiling.links(5) == seq![(0int, 2int, 2int), (2int, 3int, 2int), (3int, 1int, 0int), (0int, 4int, 1int)],
    {
        let tiling = Tiling {
            neighbors: vec![at(1, -3), at(3, 1), at(-1, 3), at(-3, -1)],
            polygons: vec![
                TilePolygon {
                    offset: at(0, 0),
                    sides: vec![to(1, 3, 1), to(0, 1, 2), to(0, 4, 0), to(4, 2, 1)],
                },
                TilePolygon {
                    offset: at(1, 0),
                    sides: vec![to(1, 5, 2), to(0, 2, 0), to(0, 0, 1)],
                },
                TilePolygon {
                    offset: at(2, 1),
                    sides: vec![to(0, 1, 1), to(2, 0, 3), to(0, 5, 0)],
                },
                TilePolygon {
                    offset: at(0, 1),
                    sides: vec![to(0, 4, 2), to(3, 0, 0), to(4, 5, 1)],
                },
                TilePolygon {
                    offset: at(1, 1),
                    sides: vec![to(0, 0, 2), to(0, 5, 3), to(0, 3, 0)],
                },
                TilePolygon {
                    offset: at(2, 2),
                    sides: vec![to(0, 2, 2), to(2, 3, 2), to(3, 1, 0), to(0, 4, 1)],
                },
            ],
        };
        proof {
            assert(tiling.translations() =~= seq![(1int, -3int), (3int, 1int), (-1int, 3int), (-3int, -1int)]);
            assert(tiling.places() =~= seq![(0int, 0int), (1int, 0int), (2int, 1int), (0int, 1int), (1int, 1int), (2int, 2int)]);
            assert(tiling.links(0) =~= seq![(1int, 3int, 1int), (0int, 1int, 2int), (0int, 4int, 0int), (4int, 2int, 1int)]);
            assert(tiling.links(1) =~= seq![(1int, 5int, 2int), (0int, 2int, 0int), (0int, 0int, 1int)]);
            assert(tiling.links(2) =~= seq![(0int, 1int, 1int), (2int, 0int, 3int), (0int, 5int, 0int)]);
            assert(tiling.links(3) =~= seq![(0int, 4int, 2int), (3int, 0int, 0int), (4int, 5int, 1int)]);
            assert(tiling.links(4) =~= seq![(0int, 0int, 2int), (0int, 5int, 3int), (0int, 3int, 0int)]);
            assert(tiling.links(5) =~= seq![(0int, 2int, 2int), (2int, 3int, 2int), (3int, 1int, 0int), (0int, 4int, 1int)]);
            assert(tiling.neighbors_sound()) by {
                assert(tiling.neighbor_moves(0) && tiling.neighbor_fresh(0));
                assert(tiling.neighbor_moves(1) && tiling.neighbor_fresh(1));
                assert(tiling.neighbor_moves(2) && tiling.neighbor_fresh(2));
                assert(tiling.neighbor_moves(3) && tiling.neighbor_fresh(3));
            }
            assert(tiling.polygons_sound()) by {
                assert(tiling.polygon_fresh(0));
                assert(tiling.polygon_fresh(1));
                assert(tiling.polygon_fresh(2));
                assert(tiling.polygon_fresh(3));
                assert(tiling.polygon_fresh(4));
                assert(tiling.polygon_fresh(5));
            }
            assert(tiling.sides_in_range()) by {
                assert(tiling.side_in_range(0, 0));
                assert(tiling.side_in_range(0, 1));
                assert(tiling.side_in_range(0, 2));
                assert(tiling.side_in_range(0, 3));
                assert(tiling.side_in_range(1, 0));
                assert(tiling.side_in_range(1, 1));
                assert(tiling.side_in_range(1, 2));
                assert(tiling.side_in_range(2, 0));
                assert(tiling.side_in_range(2, 1));
                assert(tiling.side_in_range(2, 2));
                assert(tiling.side_in_range(3, 0));
                assert(tiling.side_in_range(3, 1));
                assert(tiling.side_in_range(3, 2));
                assert(tiling.side_in_range(4, 0));
                assert(tiling.side_in_range(4, 1));
                assert(tiling.side_in_range(4, 2));
                assert(tiling.side_in_range(5, 0));
                assert(tiling.side_in_range(5, 1));
                assert(tiling.side_in_range(5, 2));
                assert(tiling.side_in_range(5, 3));
            }
            assert(tiling.sides_mirrored()) by {
                assert(tiling.side_mirrored(0, 0));
                assert(tiling.side_mirrored(0, 1));
                assert(tiling.side_mirrored(0, 2));
                assert(tiling.side_mirrored(0, 3));
                assert(tiling.side_mirrored(1, 0));
                assert(tiling.side_mirrored(1, 1));
                assert(tiling.side_mirrored(1, 2));
                assert(tiling.side_mirrored(2, 0));
                assert(tiling.side_mirrored(2, 1));
                assert(tiling.side_mirrored(2, 2));
                assert(tiling.side_mirrored(3, 0));
                assert(tiling.side_mirrored(3, 1));
                assert(tiling.side_mirrored(3, 2));
                assert(tiling.side_mirrored(4, 0));
                assert(tiling.side_mirrored(4, 1));
                assert(tiling.side_mirrored(4, 2));
                assert(tiling.side_mirrored(5, 0));
                assert(tiling.side_mirrored(5, 1));
                assert(tiling.side_mirrored(5, 2));
                assert(tiling.side_mirrored(5, 3));
            }
        }
        tiling
    }

    /// The tiling by pentagons, four to a tile.
    pub fn cairo_pentagonal() -> (tiling: Tiling)
        ensures
            tiling.valid(),
            tiling.translations() == seq![(-2int, -1int), (1int, -2int), (2int, 1int), (-1int, 2int)],
            tiling.places() == seq![(0int, 0int), (1int, 0int), (0int, 1int), (-1int, 0int)],
            tiling.links(0) == seq![(2int, 3int, 3int), (2int, 2int, 4int), (0int, 1int, 0int), (0int, 3int, 1int), (1int, 1int, 2int)],
            tiling.links(1) == seq![(0int, 0int, 2int), (2int, 2int, 3int), (3int, 0int, 4int), (3int, 3int, 0int), (0int, 2int, 1int)],
            tiling.links(2) == seq![(0int, 3int, 2int), (0int, 1int, 4int), (3int, 3int, 4int), (4int, 1int, 1int), (4int, 0int, 1int)],
            tiling.links(3) == seq![(1int, 1int, 3int), (0int, 0int, 3int), (0int, 2int, 0int), (4int, 0int, 0int), (1int, 2int, 2int)],
    {
        let tiling = Tiling {
            neighbors: vec![at(-2, -1), at(1, -2), at(2, 1), at(-1, 2)],
            polygons: vec![
                TilePolygon {
                    offset: at(0, 0),
                    sides: vec![to(2, 3, 3), to(2, 2, 4), to(0, 1, 0), to(0, 3, 1), to(1, 1, 2)],
                },
                TilePolygon {
                    offset: at(1, 0),
                    sides: vec![to(0, 0, 2), to(2, 2, 3), to(3, 0, 4), to(3, 3, 0), to(0, 2, 1)],
                },
                TilePolygon {
                    offset: at(0, 1),
                    sides: vec![to(0, 3, 2), to(0, 1, 4), to(3, 3, 4), to(4, 1, 1), to(4, 0, 1)],
                },
                TilePolygon {
                    offset: at(-1, 0),
                    sides: vec![to(1, 1, 3), to(0, 0, 3), to(0, 2, 0), to(4, 0, 0), to(1, 2, 2)],
                },
            ],
        };
        proof {
            assert(tiling.translations() =~= seq![(-2int, -1int), (1int, -2int), (2int, 1int), (-1int, 2int)]);
            assert(tiling.places() =~= seq![(0int, 0int), (1int, 0int), (0int, 1int), (-1int, 0int)]);
            assert(tiling.links(0) =~= seq![(2int, 3int, 3int), (2int, 2int, 4int), (0int, 1int, 0int), (0int, 3int, 1int), (1int, 1int, 2int)]);
            assert(tiling.links(1) =~= seq![(0int, 0int, 2int), (2int, 2int, 3int), (3int, 0int, 4int), (3int, 3int, 0int), (0int, 2int, 1int)]);
            assert(tiling.links(2) =~= seq![(0int, 3int, 2int), (0int, 1int, 4int), (3int, 3int, 4int), (4int, 1int, 1int), (4int, 0int, 1int)]);
            assert(tiling.links(3) =~= seq![(1int, 1int, 3int), (0int, 0int, 3int), (0int, 2int, 0int), (4int, 0int, 0int), (1int, 2int, 2int)]);
            assert(tiling.neighbors_sound()) by {
                assert(tiling.neighbor_moves(0) && tiling.neighbor_fresh(0));
                assert(tiling.neighbor_moves(1) && tiling.neighbor_fresh(1));
                assert(tiling.neighbor_moves(2) && tiling.neighbor_fresh(2));
                assert(tiling.neighbor_moves(3) && tiling.neighbor_fresh(3));
            }
            assert(tiling.polygons_sound()) by {
                assert(tiling.polygon_fresh(0));
                assert(tiling.polygon_fresh(1));
                assert(tiling.polygon_fresh(2));
                assert(tiling.polygon_fresh(3));
            }
            assert(tiling.sides_in_range()) by {
                assert(tiling.side_in_range(0, 0));
                assert(tiling.side_in_range(0, 1));
                assert(tiling.side_in_range(0, 2));
                assert(tiling.side_in_range(0, 3));
                assert(tiling.side_in_range(0, 4));
                assert(tiling.side_in_range(1, 0));
                assert(tiling.side_in_range(1, 1));
                assert(tiling.side_in_range(1, 2));
                assert(tiling.side_in_range(1, 3));
                assert(tiling.side_in_range(1, 4));
                assert(tiling.side_in_range(2, 0));
                assert(tiling.side_in_range(2, 1));
                assert(tiling.side_in_range(2, 2));
                assert(tiling.side_in_range(2, 3));
                assert(tiling.side_in_range(2, 4));
                assert(tiling.side_in_range(3, 0));
                assert(tiling.side_in_range(3, 1));
                assert(tiling.side_in_range(3, 2));
                assert(tiling.side_in_range(3, 3));
                assert(tiling.side_in_range(3, 4));
            }
            assert(tiling.sides_mirrored()) by {
                assert(tiling.side_mirrored(0, 0));
                assert(tiling.side_mirrored(0, 1));
                assert(tiling.side_mirrored(0, 2));
                assert(tiling.side_mirrored(0, 3));
                assert(tiling.side_mirrored(0, 4));
                assert(tiling.side_mirrored(1, 0));
                assert(tiling.side_mirrored(1, 1));
                assert(tiling.side_mirrored(1, 2));
                assert(tiling.side_mirrored(1, 3));
                assert(tiling.side_mirrored(1, 4));
                assert(tiling.side_mirrored(2, 0));
                assert(tiling.side_mirrored(2, 1));
                assert(tiling.side_mirrored(2, 2));
                assert(tiling.side_mirrored(2, 3));
                assert(tiling.side_mirrored(2, 4));
                assert(tiling.side_mirrored(3, 0));
                assert(tiling.side_mirrored(3, 1));
                assert(tiling.side_mirrored(3, 2));
                assert(tiling.side_mirrored(3, 3));
                assert(tiling.side_mirrored(3, 4));
            }
        }
        tiling
    }

    /// The tiling by hexagons and triangles.
    pub fn trihexagonal() -> (tiling: Tiling)
        ensures
            tiling.valid(),
            tiling.translations() == seq![(0int, -2int), (2int, -1int), (2int, 1int), (0int, 2int), (-2int, 1int), (-2int, -1int)],
            tiling.places() == seq![(0int, 0int), (-1int, 0int), (1int, 0int)],
            tiling.links(0) == seq![(1int, 1int, 1int), (1int, 2int, 2int), (2int, 1int, 2int), (0int, 2int, 0int), (0int, 1int, 0int), (6int, 2int, 1int)],
            tiling.links(1) == seq![(0int, 0int, 4int), (4int, 0int, 0int), (5int, 0int, 2int)],
            tiling.links(2) == seq![(0int, 0int, 3int), (3int, 0int, 5int), (4int, 0int, 1int)],
    {
        let tiling = Tiling {
            neighbors: vec![at(0, -2), at(2, -1), at(2, 1), at(0, 2), at(-2, 1), at(-2, -1)],
            polygons: vec![
                TilePolygon {
                    offset: at(0, 0),
                    sides: vec![to(1, 1, 1), to(1, 2, 2), to(2, 1, 2), to(0, 2, 0), to(0, 1, 0), to(6, 2, 1)],
                },
                TilePolygon {
                    offset: at(-1, 0),
                    sides: vec![to(0, 0, 4), to(4, 0, 0), to(5, 0, 2)],
                },
                TilePolygon {
                    offset: at(1, 0),
                    sides: vec![to(0, 0, 3), to(3, 0, 5), to(4, 0, 1)],
                },
            ],
        };
        proof {
            assert(tiling.translations() =~= seq![(0int, -2int), (2int, -1int), (2int, 1int), (0int, 2int), (-2int, 1int), (-2int, -1int)]);
            assert(tiling.places() =~= seq![(0int, 0int), (-1int, 0int), (1int, 0int)]);
            assert(tiling.links(0) =~= seq![(1int, 1int, 1int), (1int, 2int, 2int), (2int, 1int, 2int), (0int, 2int, 0int), (0int, 1int, 0int), (6int, 2int, 1int)]);
            assert(tiling.links(1) =~= seq![(0int, 0int, 4int), (4int, 0int, 0int), (5int, 0int, 2int)]);
            assert(tiling.links(2) =~= seq![(0int, 0int, 3int), (3int, 0int, 5int), (4int, 0int, 1int)]);
            assert(tiling.neighbors_sound()) by {
                assert(tiling.neighbor_moves(0) && tiling.neighbor_fresh(0));
                assert(tiling.neighbor_moves(1) && tiling.neighbor_fresh(1));
                assert(tiling.neighbor_moves(2) && tiling.neighbor_fresh(2));
                assert(tiling.neighbor_moves(3) && tiling.neighbor_fresh(3));
                assert(tiling.neighbor_moves(4) && tiling.neighbor_fresh(4));
                assert(tiling.neighbor_moves(5) && tiling.neighbor_fresh(5));
            }
            assert(tiling.polygons_sound()) by {
                assert(tiling.polygon_fresh(0));
                assert(tiling.polygon_fresh(1));
                assert(tiling.polygon_fresh(2));
            }
            assert(tiling.sides_in_range()) by {
                assert(tiling.side_in_range(0, 0));
                assert(tiling.side_in_range(0, 1));
                assert(tiling.side_in_range(0, 2));
                assert(tiling.side_in_range(0, 3));
                assert(tiling.side_in_range(0, 4));
                assert(tiling.side_in_range(0, 5));
                assert(tiling.side_in_range(1, 0));
                assert(tiling.side_in_range(1, 1));
                assert(tiling.side_in_range(1, 2));
                assert(tiling.side_in_range(2, 0));
                assert(tiling.side_in_range(2, 1));
                assert(tiling.side_in_range(2, 2));
            }
            assert(tiling.sides_mirrored()) by {
                assert(tiling.side_mirrored(0, 0));
                assert(tiling.side_mirrored(0, 1));
                assert(tiling.side_mirrored(0, 2));
                assert(tiling.side_mirrored(0, 3));
                assert(tiling.side_mirrored(0, 4));
                assert(tiling.side_mirrored(0, 5));
                assert(tiling.side_mirrored(1, 0));
                assert(tiling.side_mirrored(1, 1));
                assert(tiling.side_mirrored(1, 2));
                assert(tiling.side_mirrored(2, 0));
                assert(tiling.side_mirrored(2, 1));
                assert(tiling.side_mirrored(2, 2));
            }
        }
        tiling
    }

    /// The tiling by rhombi, three to a hexagon.
    pub fn rhombille() -> (tiling: Tiling)
        ensures
            tiling.valid(),
            tiling.translations() == seq![(0int, -2int), (2int, -2int), (2int, 0int), (0int, 2int), (-2int, 2int), (-2int, 0int)],
            tiling.places() == seq![(0int, 0int), (0int, 1int), (-1int, 0int)],
            tiling.links(0) == seq![(1int, 1int, 2int), (2int, 2int, 2int), (0int, 1int, 0int), (0int, 2int, 0int)],
            tiling.links(1) == seq![(0int, 0int, 2int), (3int, 2int, 3int), (4int, 0int, 0int), (0int, 2int, 1int)],
            tiling.links(2) == seq![(0int, 0int, 3int), (0int, 1int, 3int), (5int, 0int, 1int), (6int, 1int, 1int)],
    {
        let tiling = Tiling {
            neighbors: vec![at(0, -2), at(2, -2), at(2, 0), at(0, 2), at(-2, 2), at(-2, 0)],
            polygons: vec![
                TilePolygon {
                    offset: at(0, 0),
                    sides: vec![to(1, 1, 2), to(2, 2, 2), to(0, 1, 0), to(0, 2, 0)],
                },
                TilePolygon {
                    offset: at(0, 1),
                    sides: vec![to(0, 0, 2), to(3, 2, 3), to(4, 0, 0), to(0, 2, 1)],
                },
                TilePolygon {
                    offset: at(-1, 0),
                    sides: vec![to(0, 0, 3), to(0, 1, 3), to(5, 0, 1), to(6, 1, 1)],
                },
            ],
        };
        proof {
            assert(tiling.translations() =~= seq![(0int, -2int), (2int, -2int), (2int, 0int), (0int, 2int), (-2int, 2int), (-2int, 0int)]);
            assert(tiling.places() =~= seq![(0int, 0int), (0int, 1int), (-1int, 0int)]);
            assert(tiling.links(0) =~= seq![(1int, 1int, 2int), (2int, 2int, 2int), (0int, 1int, 0int), (0int, 2int, 0int)]);
            assert(tiling.links(1) =~= seq![(0int, 0int, 2int), (3int, 2int, 3int), (4int, 0int, 0int), (0int, 2int, 1int)]);
            assert(tiling.links(2) =~= seq![(0int, 0int, 3int), (0int, 1int, 3int), (5int, 0int, 1int), (6int, 1int, 1int)]);
            assert(tiling.neighbors_sound()) by {
                assert(tiling.neighbor_moves(0) && tiling.neighbor_fresh(0));
                assert(tiling.neighbor_moves(1) && tiling.neighbor_fresh(1));
                assert(tiling.neighbor_moves(2) && tiling.neighbor_fresh(2));
                assert(tiling.neighbor_moves(3) && tiling.neighbor_fresh(3));
                assert(tiling.neighbor_moves(4) && tiling.neighbor_fresh(4));
                assert(tiling.neighbor_moves(5) && tiling.neighbor_fresh(5));
            }
            assert(tiling.polygons_sound()) by {
                assert(tiling.polygon_fresh(0));
                assert(tiling.polygon_fresh(1));
                assert(tiling.polygon_fresh(2));
            }
            assert(tiling.sides_in_range()) by {
                assert(tiling.side_in_range(0, 0));
                assert(tiling.side_in_range(0, 1));
                assert(tiling.side_in_range(0, 2));
                assert(tiling.side_in_range(0, 3));
                assert(tiling.side_in_range(1, 0));
                assert(tiling.side_in_range(1, 1));
                assert(tiling.side_in_range(1, 2));
                assert(tiling.side_in_range(1, 3));
                assert(tiling.side_in_range(2, 0));
                assert(tiling.side_in_range(2, 1));
                assert(tiling.side_in_range(2, 2));
                assert(tiling.side_in_range(2, 3));
            }
            assert(tiling.sides_mirrored()) by {
                assert(tiling.side_mirrored(0, 0));
                assert(tiling.side_mirrored(0, 1));
                assert(tiling.side_mirrored(0, 2));
                assert(tiling.side_mirrored(0, 3));
                assert(tiling.side_mirrored(1, 0));
                assert(tiling.side_mirrored(1, 1));
                assert(tiling.side_mirrored(1, 2));
                assert(tiling.side_mirrored(1, 3));
                assert(tiling.side_mirrored(2, 0));
                assert(tiling.side_mirrored(2, 1));
                assert(tiling.side_mirrored(2, 2));
                assert(tiling.side_mirrored(2, 3));
            }
        }
        tiling
    }

    /// The tiling by dodecagons and triangles.
    pub fn truncated_hex() -> (tiling: Tiling)
        ensures
            tiling.valid(),
            tiling.translations() == seq![(0int, -2int), (2int, -2int), (2int, 0int), (0int, 2int), (-2int, 2int), (-2int, 0int)],
            tiling.places() == seq![(0int, 0int), (0int, 1int), (1int, 1int)],
            tiling.links(0) == seq![(1int, 0int, 6int), (1int, 2int, 2int), (2int, 0int, 8int), (2int, 1int, 2int), (3int, 0int, 10int), (0int, 2int, 0int), (4int, 0int, 0int), (0int, 1int, 0int), (5int, 0int, 2int), (6int, 2int, 1int), (6int, 0int, 4int), (1int, 1int, 1int)],
            tiling.links(1) == seq![(0int, 0int, 7int), (4int, 0int, 11int), (5int, 0int, 3int)],
            tiling.links(2) == seq![(0int, 0int, 5int), (3int, 0int, 9int), (4int, 0int, 1int)],
    {
        let tiling = Tiling {
            neighbors: vec![at(0, -2), at(2, -2), at(2, 0), at(0, 2), at(-2, 2), at(-2, 0)],
            polygons: vec![
                TilePolygon {
                    offset: at(0, 0),
                    sides: vec![to(1, 0, 6), to(1, 2, 2), to(2, 0, 8), to(2, 1, 2), to(3, 0, 10), to(0, 2, 0), to(4, 0, 0), to(0, 1, 0), to(5, 0, 2), to(6, 2, 1), to(6, 0, 4), to(1, 1, 1)],
                },
                TilePolygon {
                    offset: at(0, 1),
                    sides: vec![to(0, 0, 7), to(4, 0, 11), to(5, 0, 3)],
                },
                TilePolygon {
                    offset: at(1, 1),
                    sides: vec![to(0, 0, 5), to(3, 0, 9), to(4, 0, 1)],
                },
            ],
        };
        proof {
            assert(tiling.translations() =~= seq![(0int, -2int), (2int, -2int), (2int, 0int), (0int, 2int), (-2int, 2int), (-2int, 0int)]);
            assert(tiling.places() =~= seq![(0int, 0int), (0int, 1int), (1int, 1int)]);
            assert(tiling.links(0) =~= seq![(1int, 0int, 6int), (1int, 2int, 2int), (2int, 0int, 8int), (2int, 1int, 2int), (3int, 0int, 10int), (0int, 2int, 0int), (4int, 0int, 0int), (0int, 1int, 0int), (5int, 0int, 2int), (6int, 2int, 1int), (6int, 0int, 4int), (1int, 1int, 1int)]);
            assert(tiling.links(1) =~= seq![(0int, 0int, 7int), (4int, 0int, 11int), (5int, 0int, 3int)]);
            assert(tiling.links(2) =~= seq![(0int, 0int, 5int), (3int, 0int, 9int), (4int, 0int, 1int)]);
            assert(tiling.neighbors_sound()) by {
                assert(tiling.neighbor_moves(0) && tiling.neighbor_fresh(0));
                assert(tiling.neighbor_moves(1) && tiling.neighbor_fresh(1));
                assert(tiling.neighbor_moves(2) && tiling.neighbor_fresh(2));
                assert(tiling.neighbor_moves(3) && tiling.neighbor_fresh(3));
                assert(tiling.neighbor_moves(4) && tiling.neighbor_fresh(4));
                assert(tiling.neighbor_moves(5) && tiling.neighbor_fresh(5));
            }
            assert(tiling.polygons_sound()) by {
                assert(tiling.polygon_fresh(0));
                assert(tiling.polygon_fresh(1));
                assert(tiling.polygon_fresh(2));
            }
            assert(tiling.sides_in_range()) by {
                assert(tiling.side_in_range(0, 0));
                assert(tiling.side_in_range(0, 1));
                assert(tiling.side_in_range(0, 2));
                assert(tiling.side_in_range(0, 3));
                assert(tiling.side_in_range(0, 4));
                assert(tiling.side_in_range(0, 5));
                assert(tiling.side_in_range(0, 6));
                assert(tiling.side_in_range(0, 7));
                assert(tiling.side_in_range(0, 8));
                assert(tiling.side_in_range(0, 9));
                assert(tiling.side_in_range(0, 10));
                assert(tiling.side_in_range(0, 11));
                assert(tiling.side_in_range(1, 0));
                assert(tiling.side_in_range(1, 1));
                assert(tiling.side_in_range(1, 2));
                assert(tiling.side_in_range(2, 0));
                assert(tiling.side_in_range(2, 1));
                assert(tiling.side_in_range(2, 2));
            }
            assert(tiling.sides_mirrored()) by {
                assert(tiling.side_mirrored(0, 0));
                assert(tiling.side_mirrored(0, 1));
                assert(tiling.side_mirrored(0, 2));
                assert(tiling.side_mirrored(0, 3));
                assert(tiling.side_mirrored(0, 4));
                assert(tiling.side_mirrored(0, 5));
                assert(tiling.side_mirrored(0, 6));
                assert(tiling.side_mirrored(0, 7));
                assert(tiling.side_mirrored(0, 8));
                assert(tiling.side_mirrored(0, 9));
                assert(tiling.side_mirrored(0, 10));
                assert(tiling.side_mirrored(0, 11));
                assert(tiling.side_mirrored(1, 0));
                assert(tiling.side_mirrored(1, 1));
                assert(tiling.side_mirrored(1, 2));
                assert(tiling.side_mirrored(2, 0));
                assert(tiling.side_mirrored(2, 1));
                assert(tiling.side_mirrored(2, 2));
            }
        }
        tiling
    }

    /// The tiling by obtuse triangles, three to a regular triangle.
    pub fn triakis() -> (tiling: Tiling)
        ensures
            tiling.valid(),
            tiling.translations() == seq![(-3int, -2int), (3int, -2int), (3int, 2int), (-3int, 2int)],
            tiling.places() == seq![(0int, 0int), (0int, 1int), (1int, 0int), (1int, 1int), (2int, 0int), (2int, 1int)],
            tiling.links(0) == seq![(1int, 5int, 1int), (0int, 2int, 2int), (0int, 1int, 0int)],
            tiling.links(1) == seq![(0int, 0int, 2int), (0int, 2int, 1int), (4int, 4int, 0int)],
            tiling.links(2) == seq![(0int, 3int, 2int), (0int, 1int, 1int), (0int, 0int, 1int)],
            tiling.links(3) == seq![(0int, 4int, 2int), (0int, 5int, 2int), (0int, 2int, 0int)],
            tiling.links(4) == seq![(2int, 1int, 2int), (0int, 5int, 0int), (0int, 3int, 0int)],
            tiling.links(5) == seq![(0int, 4int, 1int), (3int, 0int, 0int), (0int, 3int, 1int)],
    {
        let tiling = Tiling {
            neighbors: vec![at(-3, -2), at(3, -2), at(3, 2), at(-3, 2)],
            polygons: vec![
                TilePolygon {
                    offset: at(0, 0),
                    sides: vec![to(1, 5, 1), to(0, 2, 2), to(0, 1, 0)],
                },
                TilePolygon {
                    offset: at(0, 1),
                    sides: vec![to(0, 0, 2), to(0, 2, 1), to(4, 4, 0)],
                },
                TilePolygon {
                    offset: at(1, 0),
                    sides: vec![to(0, 3, 2), to(0, 1, 1), to(0, 0, 1)],
                },
                TilePolygon {
                    offset: at(1, 1),
                    sides: vec![to(0, 4, 2), to(0, 5, 2), to(0, 2, 0)],
                },
                TilePolygon {
                    offset: at(2, 0),
                    sides: vec![to(2, 1, 2), to(0, 5, 0), to(0, 3, 0)],
                },
                TilePolygon {
                    offset: at(2, 1),
                    sides: vec![to(0, 4, 1), to(3, 0, 0), to(0, 3, 1)],
                },
            ],
        };
        proof {
            assert(tiling.translations() =~= seq![(-3int, -2int), (3int, -2int), (3int, 2int), (-3int, 2int)]);
            assert(tiling.places() =~= seq![(0int, 0int), (0int, 1int), (1int, 0int), (1int, 1int), (2int, 0int), (2int, 1int)]);
            assert(tiling.links(0) =~= seq![(1int, 5int, 1int), (0int, 2int, 2int), (0int, 1int, 0int)]);
            assert(tiling.links(1) =~= seq![(0int, 0int, 2int), (0int, 2int, 1int), (4int, 4int, 0int)]);
            assert(tiling.links(2) =~= seq![(0int, 3int, 2int), (0int, 1int, 1int), (0int, 0int, 1int)]);
            assert(tiling.links(3) =~= seq![(0int, 4int, 2int), (0int, 5int, 2int), (0int, 2int, 0int)]);
            assert(tiling.links(4) =~= seq![(2int, 1int, 2int), (0int, 5int, 0int), (0int, 3int, 0int)]);
            assert(tiling.links(5) =~= seq![(0int, 4int, 1int), (3int, 0int, 0int), (0int, 3int, 1int)]);
            assert(tiling.neighbors_sound()) by {
                assert(tiling.neighbor_moves(0) && tiling.neighbor_fresh(0));
                assert(tiling.neighbor_moves(1) && tiling.neighbor_fresh(1));
                assert(tiling.neighbor_moves(2) && tiling.neighbor_fresh(2));
                assert(tiling.neighbor_moves(3) && tiling.neighbor_fresh(3));
            }
            assert(tiling.polygons_sound()) by {
                assert(tiling.polygon_fresh(0));
                assert(tiling.polygon_fresh(1));
                assert(tiling.polygon_fresh(2));
                assert(tiling.polygon_fresh(3));
                assert(tiling.polygon_fresh(4));
                assert(tiling.polygon_fresh(5));
            }
            assert(tiling.sides_in_range()) by {
                assert(tiling.side_in_range(0, 0));
                assert(tiling.side_in_range(0, 1));
                assert(tiling.side_in_range(0, 2));
                assert(tiling.side_in_range(1, 0));
                assert(tiling.side_in_range(1, 1));
                assert(tiling.side_in_range(1, 2));
                assert(tiling.side_in_range(2, 0));
                assert(tiling.side_in_range(2, 1));
                assert(tiling.side_in_range(2, 2));
                assert(tiling.side_in_range(3, 0));
                assert(tiling.side_in_range(3, 1));
                assert(tiling.side_in_range(3, 2));
                assert(tiling.side_in_range(4, 0));
                assert(tiling.side_in_range(4, 1));
                assert(tiling.side_in_range(4, 2));
                assert(tiling.side_in_range(5, 0));
                assert(tiling.side_in_range(5, 1));
                assert(tiling.side_in_range(5, 2));
            }
            assert(tiling.sides_mirrored()) by {
                assert(tiling.side_mirrored(0, 0));
                assert(tiling.side_mirrored(0, 1));
                assert(tiling.side_mirrored(0, 2));
                assert(tiling.side_mirrored(1, 0));
                assert(tiling.side_mirrored(1, 1));
                assert(tiling.side_mirrored(1, 2));
                assert(tiling.side_mirrored(2, 0));
                assert(tiling.side_mirrored(2, 1));
                assert(tiling.side_mirrored(2, 2));
                assert(tiling.side_mirrored(3, 0));
                assert(tiling.side_mirrored(3, 1));
                assert(tiling.side_mirrored(3, 2));
                assert(tiling.side_mirrored(4, 0));
                assert(tiling.side_mirrored(4, 1));
                assert(tiling.side_mirrored(4, 2));
                assert(tiling.side_mirrored(5, 0));
                assert(tiling.side_mirrored(5, 1));
                assert(tiling.side_mirrored(5, 2));
            }
        }
        tiling
    }
}

} // verus!
