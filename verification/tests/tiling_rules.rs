use tiling_maze::lattice::Offset;
use tiling_maze::tiling::{PolygonSide, TilePolygon, Tiling, TilingFault};

fn square() -> Tiling {
    Tiling::square()
}

#[test]
fn catalog_tilings_validate() {
    let all = vec![
        Tiling::hex(),
        Tiling::triangle(),
        Tiling::square(),
        Tiling::truncated_square(),
        Tiling::tetrakis_square(),
        Tiling::snub_square(),
        Tiling::cairo_pentagonal(),
        Tiling::trihexagonal(),
        Tiling::rhombille(),
        Tiling::truncated_hex(),
        Tiling::triakis(),
    ];
    for tiling in all {
        assert!(tiling.validate().is_ok());
    }
}

#[test]
fn empty_tiling_is_refused() {
    let tiling = Tiling { polygons: vec![], neighbors: vec![] };
    let error = tiling.validate().err().unwrap();
    assert_eq!(error.fault, TilingFault::NoPolygons);
    assert_eq!(error.message, "No polygons in tiling");
}

#[test]
fn zero_neighbor_is_refused() {
    let mut tiling = square();
    tiling.neighbors[2] = Offset { x: 0, y: 0 };
    let error = tiling.validate().err().unwrap();
    assert_eq!(error.fault, TilingFault::NeighborAtOrigin { neighbor: 2 });
    assert_eq!(error.message, "Neighbor is at origin. Neighbor 2");
}

#[test]
fn repeated_neighbor_is_refused() {
    let mut tiling = square();
    tiling.neighbors[3] = Offset { x: 0, y: -1 };
    let error = tiling.validate().err().unwrap();
    assert_eq!(error.fault, TilingFault::DuplicateNeighbor { neighbor: 3 });
    assert_eq!(error.message, "Two neighbors have the same offset. Neighbor 3");
}

#[test]
fn repeated_polygon_offset_is_refused() {
    let mut tiling = Tiling::triangle();
    tiling.polygons[1].offset = tiling.polygons[0].offset;
    let error = tiling.validate().err().unwrap();
    assert_eq!(error.fault, TilingFault::DuplicatePolygon { polygon: 1 });
    assert_eq!(error.message, "Two polygons have the same offset. Polygon 1");
}

#[test]
fn tile_index_out_of_range_is_refused() {
    let mut tiling = square();
    tiling.polygons[0].sides[1].other_tile = 5;
    let error = tiling.validate().err().unwrap();
    assert_eq!(error.fault, TilingFault::TileOutOfRange { polygon: 0, side: 1 });
    assert_eq!(error.message, "Side tile index out of bounds. Polygon 0 Side 1");
}

#[test]
fn tile_index_may_name_the_last_neighbor() {
    let tiling = square();
    assert_eq!(tiling.polygons[0].sides[3].other_tile, tiling.neighbors.len());
    assert!(tiling.validate().is_ok());
}

#[test]
fn polygon_index_out_of_range_is_refused() {
    let mut tiling = square();
    tiling.polygons[0].sides[0].other_polygon = 1;
    let error = tiling.validate().err().unwrap();
    assert_eq!(error.fault, TilingFault::PolygonOutOfRange { polygon: 0, side: 0 });
    assert_eq!(error.message, "Side polygon index out of bounds. Polygon 0 Side 0");
}

#[test]
fn side_index_out_of_range_is_refused() {
    let mut tiling = square();
    tiling.polygons[0].sides[2].other_side_index = 4;
    let error = tiling.validate().err().unwrap();
    assert_eq!(error.fault, TilingFault::SideOutOfRange { polygon: 0, side: 2 });
    assert_eq!(error.message, "Side index out of bounds. Polygon 0 Side 2");
}

#[test]
fn ranges_are_checked_before_mirrors() {
    let mut tiling = square();
    tiling.polygons[0].sides[0].other_side_index = 1;
    tiling.polygons[0].sides[3].other_tile = 9;
    let error = tiling.validate().err().unwrap();
    assert_eq!(error.fault, TilingFault::TileOutOfRange { polygon: 0, side: 3 });
}

#[test]
fn side_leading_to_another_polygon_is_refused() {
    let mut tiling = Tiling::triangle();
    let first = tiling.polygons[0].sides[0];
    tiling.polygons[1].sides[first.other_side_index].other_polygon = 1;
    let error = tiling.validate().err().unwrap();
    assert_eq!(error.fault, TilingFault::PolygonNotMirrored { polygon: 0, side: 0 });
    assert_eq!(
        error.message,
        "Polygon sides are not reflexive: they reference different polygons. Polygon 0 Side 0"
    );
}

#[test]
fn side_leading_to_another_side_is_refused() {
    let mut tiling = square();
    tiling.polygons[0].sides[0].other_side_index = 1;
    let error = tiling.validate().err().unwrap();
    assert_eq!(error.fault, TilingFault::SideNotMirrored { polygon: 0, side: 0 });
    assert_eq!(
        error.message,
        "Polygon sides are not reflexive: they reference different sides. Polygon 0 Side 0"
    );
}

#[test]
fn side_crossing_one_way_is_refused() {
    let mut tiling = square();
    tiling.polygons[0].sides[0].other_tile = 0;
    let error = tiling.validate().err().unwrap();
    assert_eq!(error.fault, TilingFault::CrossingNotMirrored { polygon: 0, side: 0 });
    assert_eq!(
        error.message,
        "Polygon sides are not reflexive: they reference different tiles. Polygon 0 Side 0"
    );
}

#[test]
fn translations_that_do_not_cancel_are_refused() {
    let mut tiling = square();
    tiling.polygons[0].sides[0].other_tile = 2;
    let error = tiling.validate().err().unwrap();
    assert_eq!(error.fault, TilingFault::TranslationNotMirrored { polygon: 0, side: 0 });
    assert_eq!(
        error.message,
        "Polygon sides are not reflexive: they reference non-reflexive tiles. Polygon 0 Side 0"
    );
}

#[test]
fn message_writes_large_indices_in_full() {
    let fault = TilingFault::SideOutOfRange { polygon: 120, side: 3405 };
    assert_eq!(fault.message(), "Side index out of bounds. Polygon 120 Side 3405");
}

#[test]
fn hand_written_tiling_of_two_polygons_validates() {
    let tiling = Tiling {
        neighbors: vec![Offset { x: 2, y: 0 }, Offset { x: -2, y: 0 }],
        polygons: vec![
            TilePolygon {
                offset: Offset { x: 0, y: 0 },
                sides: vec![
                    PolygonSide { other_tile: 0, other_polygon: 1, other_side_index: 1 },
                    PolygonSide { other_tile: 2, other_polygon: 1, other_side_index: 0 },
                ],
            },
            TilePolygon {
                offset: Offset { x: 1, y: 0 },
                sides: vec![
                    PolygonSide { other_tile: 1, other_polygon: 0, other_side_index: 1 },
                    PolygonSide { other_tile: 0, other_polygon: 0, other_side_index: 0 },
                ],
            },
        ],
    };
    assert!(tiling.validate().is_ok());
}
