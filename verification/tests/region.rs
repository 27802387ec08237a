use croaring::Bitmap;
use tessera_engine::occupancy::walk::SegmentCodes;
use tessera_engine::region::{
    digest_of, tile_range, BoundaryCell, Descent, RegionDecomposition, RegionVerdict, Tile,
    DEFAULT_MAX_REGION_CELLS,
};

#[test]
fn the_coarsest_of_several_answers_is_the_shallowest_cover_any_reached() {
    let cover = |depth| Some(RegionVerdict::Cover { depth });
    let exact = Some(RegionVerdict::Exact);
    assert_eq!(RegionVerdict::coarsest(None, None), None);
    assert_eq!(RegionVerdict::coarsest(exact, None), exact);
    assert_eq!(RegionVerdict::coarsest(None, cover(9)), cover(9));
    assert_eq!(RegionVerdict::coarsest(exact, cover(9)), cover(9));
    assert_eq!(RegionVerdict::coarsest(cover(4), cover(9)), cover(4));
}

/// A descent that found nothing.
fn nothing() -> Descent {
    Descent {
        interior: vec![],
        cover: vec![],
        boundary: vec![],
        cover_depth: None,
    }
}

/// The bytes of a box: its four corners, little-endian.
fn box_at(max_x: f64) -> Vec<u8> {
    let mut bytes = vec![1u8];
    for corner in [100.0f64, 100.0, max_x, 800.0] {
        bytes.extend_from_slice(&corner.to_le_bytes());
    }
    bytes
}

/// A held decomposition answers for the bytes it was built from and for no others: its key is a
/// truncated digest, so the comparison is on content.
#[test]
fn a_decomposition_is_of_its_own_canonical_bytes_and_of_no_others() {
    let bytes = box_at(800.0);
    let other_bytes = box_at(801.0);
    assert_ne!(
        bytes, other_bytes,
        "two shapes, or this test proves nothing"
    );

    let held = RegionDecomposition::build(bytes.clone(), nothing(), &vec![]);
    assert!(
        held.is_of(&bytes),
        "an entry is of the shape it was built from"
    );
    assert!(
        !held.is_of(&other_bytes),
        "another shape's bytes are another shape, whatever digest they hash to"
    );
    assert!(
        !held.is_of(&bytes[..bytes.len() - 1]),
        "a prefix of the bytes is not the shape either"
    );
}

/// The key is the first half of SHA-256.
#[test]
fn a_shape_is_keyed_by_half_its_digest() {
    assert_eq!(
        digest_of(b""),
        [
            0xe3, 0xb0, 0xc4, 0x42, 0x98, 0xfc, 0x1c, 0x14, 0x9a, 0xfb, 0xf4, 0xc8, 0x99, 0x6f,
            0xb9, 0x24
        ]
    );
    assert_eq!(
        digest_of(b"abc"),
        [
            0xba, 0x78, 0x16, 0xbf, 0x8f, 0x01, 0xcf, 0xea, 0x41, 0x41, 0x40, 0xde, 0x5d, 0xae,
            0x22, 0x23
        ]
    );
}

#[test]
fn a_verdict_names_its_depth() {
    assert_eq!(RegionVerdict::Exact.header_value(), "exact");
    assert_eq!(RegionVerdict::Cover { depth: 11 }.header_value(), "cover; depth=11");
    assert_eq!(
        RegionVerdict::Cover { depth: 3 }.coarser(RegionVerdict::Exact),
        RegionVerdict::Cover { depth: 3 }
    );
    assert_eq!(DEFAULT_MAX_REGION_CELLS, 262_144);
}

/// Seven rows over the depth-one quadrants 0 and 2.
fn segment() -> SegmentCodes {
    let quadrant = 1u32 << 30;
    SegmentCodes {
        codes: vec![
            0,
            1,
            1,
            5,
            2 * quadrant,
            2 * quadrant + 7,
            3 * quadrant - 1,
        ],
        row_count: 7,
        row_base: 10,
    }
}

#[test]
fn a_tile_is_the_rows_under_its_prefix() {
    assert_eq!(
        tile_range(&segment(), Tile { prefix: 2, depth: 1 }),
        (4, 7)
    );
    assert_eq!(
        tile_range(&segment(), Tile { prefix: 1, depth: 16 }),
        (1, 3)
    );
    assert_eq!(
        tile_range(&segment(), Tile { prefix: 0, depth: 0 }),
        (0, 7)
    );
    let (start, end) = tile_range(&segment(), Tile { prefix: 1, depth: 1 });
    assert_eq!(start, end, "no row lies there");
}

#[test]
fn a_region_reads_only_visible_rows() {
    let segments = vec![segment()];
    let descent = Descent {
        interior: vec![Tile { prefix: 2, depth: 1 }],
        cover: vec![],
        boundary: vec![
            BoundaryCell { cell: 5, context: 1 },
            BoundaryCell { cell: 1, context: 0 },
        ],
        cover_depth: None,
    };
    let held = RegionDecomposition::build(vec![1], descent, &segments);
    assert_eq!(held.verdict(), RegionVerdict::Exact);
    assert_eq!(held.boundary_cells(), 2);
    assert_eq!(held.boundary[0].cell, 1, "cells ascend");

    let mask = Bitmap::of(&[10, 12, 13, 15, 99]);
    let probes = held.probes(&mask, &segments);
    let rows: Vec<u32> = probes.iter().map(|p| p.row).collect();
    assert_eq!(rows, vec![12, 13], "row 11 shares the cell and is hidden");
    assert_eq!((probes[0].segment, probes[0].local, probes[0].cell), (0, 2, 0));

    let answer = held.rows_under(&probes, &vec![true, false]);
    assert_eq!(answer.rows.to_vec(), vec![12, 14, 15, 16]);
    assert_eq!(answer.verdict, RegionVerdict::Exact);
}

#[test]
fn a_cover_takes_its_tiles_whole() {
    let segments = vec![segment()];
    let descent = Descent {
        interior: vec![],
        cover: vec![Tile { prefix: 0, depth: 1 }],
        boundary: vec![],
        cover_depth: Some(1),
    };
    let held = RegionDecomposition::build(vec![2], descent, &segments);
    assert_eq!(held.verdict(), RegionVerdict::Cover { depth: 1 });
    let answer = held.rows_under(&vec![], &vec![]);
    assert_eq!(answer.rows.to_vec(), vec![10, 11, 12, 13]);
}
