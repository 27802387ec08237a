use croaring::Bitmap;
use tessera_engine::occupancy::{
    alpha_q32, estimate_registers, finish_ladder, for_each_occupied_tile, gallop, ln_q32, occupied_tiles,
    occupied_tiles_ladder, occupied_tiles_ladder_with_precision, register_of, OccupancyKey,
    OccupancyMemo, OccupiedTiles, SegmentCodes, TileSketch, DEFAULT_OCCUPANCY_CACHE_BYTES,
    PER_ENTRY_FLOOR_BYTES, SKETCH_PRECISION,
};

/// One rung, for the memo's bound.
fn rung(token_id: u64, depth: u8, segments_version: u64) -> OccupancyKey {
    OccupancyKey {
        token_id,
        view: "geo".to_string(),
        depth,
        segments_version,
        overlay_version: 0,
        fragment_identity: [0u8; 32],
        fragment_watermark: 0,
    }
}

/// The memo is bounded, and the bound is above the live set by orders of magnitude. Seventeen depths
/// for each of eight sessions is the live set, and it must be resident together.
#[test]
fn the_memo_holds_the_live_set_and_bounds_the_superseded_one() {
    let mut cache = OccupancyMemo::new(DEFAULT_OCCUPANCY_CACHE_BYTES);
    for token_id in 0..8u64 {
        for depth in 0..=16u8 {
            let _ = cache.get_or_derive(rung(token_id, depth, 0), || OccupiedTiles(1));
        }
    }
    let live = cache.stats();
    assert_eq!(live.entries, 8 * 17, "the live set is resident together");
    assert_eq!(live.evictions, 0);

    // The superseded half is arithmetic rather than a filled cache: admitting 65,536 entries
    // one at a time to watch the 65,537th evict is a minute of a debug build for a property
    // the per-entry charge already fixes. `an_undersized_bound_evicts` below is where the
    // eviction itself is exercised.
    let admitted = DEFAULT_OCCUPANCY_CACHE_BYTES / PER_ENTRY_FLOOR_BYTES;
    assert_eq!(admitted, 65_536);
    assert!(
        admitted > 400 * (8 * 17),
        "the bound admits {admitted} entries, which is {} publications' worth of ladders for \
         eight sessions — close enough to the live set to evict a rung a request is about to \
         read",
        admitted / (8 * 17),
    );
}

/// The memo evicts under its bound rather than growing past it. Written against a bound small
/// enough to reach in a few entries; the figure the deployment gets is
/// [`DEFAULT_OCCUPANCY_CACHE_BYTES`], whose size is argued there.
#[test]
fn an_undersized_bound_evicts() {
    let bound = 8 * PER_ENTRY_FLOOR_BYTES;
    let mut cache = OccupancyMemo::new(bound);
    for publication in 0..32u64 {
        let _ = cache.get_or_derive(rung(0, 0, publication), || OccupiedTiles(1));
    }
    let stats = cache.stats();
    assert!(stats.evictions > 0, "32 entries under a bound of 8 evict");
    assert!(
        stats.bytes <= bound,
        "{} bytes over a bound of {bound}",
        stats.bytes
    );
}

/// **`ln_q32` is a logarithm**, to a tolerance far finer than anything downstream can see.
///
/// Floating point appears here and nowhere in the estimator: this test is the check that the
/// integer series reproduces the function, not part of the answer.
#[test]
fn the_fixed_point_logarithm_matches_the_real_one() {
    for v in [1u64, 2, 3, 5, 7, 16, 100, 1023, 4096, 16383, 16384, 65535] {
        let got = ln_q32(v) as f64 / 4_294_967_296.0;
        let want = (v as f64).ln();
        assert!(
            (got - want).abs() < 1e-8,
            "ln({v}): fixed point {got}, real {want}"
        );
    }
}

/// **α_m by integer arithmetic is α_m.**
#[test]
fn the_alpha_constant_is_the_closed_form() {
    for precision in 7..=18u32 {
        let m = (1u64 << precision) as f64;
        let want = 0.7213 / (1.0 + 1.079 / m);
        let got = alpha_q32(precision) as f64 / 4_294_967_296.0;
        assert!((got - want).abs() < 1e-9, "precision {precision}: {got} vs {want}");
    }
}

/// **The estimate tracks the cardinality across five orders of magnitude**, including the
/// linear-counting range and the crossover into the raw estimator.
///
/// The tolerance is five standard errors of a 2¹⁴-register sketch (0.81% each), widened to a
/// floor of two below a hundred distinct values where the linear-counting estimate rounds.
#[test]
fn the_sketch_estimates_a_known_cardinality() {
    for n in [0u64, 1, 2, 10, 100, 1_000, 10_000, 40_000, 100_000, 1_000_000] {
        let mut sketch = TileSketch::new();
        // Strided rather than dense, so the input is not one contiguous block: the tile
        // indices a walk emits are neither.
        for i in 0..n {
            sketch.add(i.wrapping_mul(0x9E37_79B9).wrapping_add(7));
        }
        let got = sketch.estimate();
        let slack = (n as f64 * 0.0406).max(2.0);
        assert!(
            (got as f64 - n as f64).abs() <= slack,
            "n = {n}: estimated {got}, tolerance ±{slack:.1}"
        );
    }
}

/// **Adding a tile twice is adding it once**, which is what makes one sketch fed by every
/// segment the union of the segments' tile sets rather than a sum of their sizes.
#[test]
fn the_sketch_is_idempotent_and_order_blind() {
    let mut once = TileSketch::new();
    let mut twice = TileSketch::new();
    for i in 0..5_000u64 {
        once.add(i * 13);
    }
    for i in (0..5_000u64).rev() {
        twice.add(i * 13);
        twice.add(i * 13);
    }
    assert_eq!(once.estimate(), twice.estimate());
    assert_eq!(once.registers, twice.registers);
}

/// **The same input gives the same registers**, in this process and in any other: the seed is
/// a constant and the hash is not `RandomState`'s.
#[test]
fn the_sketch_is_deterministic() {
    let mut a = TileSketch::new();
    let mut b = TileSketch::new();
    for i in 0..1_000u64 {
        a.add(i);
        b.add(i);
    }
    assert_eq!(a.registers, b.registers);
    // The literal is the point: a thousand distinct tiles estimate to 994 on every machine and in
    // every process.
    assert_eq!(a.estimate(), 994, "a thousand distinct tiles is a fixed answer");
}

/// The ceiling and the running maximum, over raw rungs supplied directly: a ladder that needs
/// neither, a deeper rung that reads lower than a shallower one, and a rung above the `4^d` tiles
/// the grid has.
#[test]
fn the_tail_clamps_to_the_grid_and_never_lets_a_rung_fall() {
    let mut raw = [0u64; 17];
    raw[..5].copy_from_slice(&[1, 4, 16, 64, 256]);
    let plain = finish_ladder(raw, 4, false);
    assert_eq!((0..=4).map(|d| plain.at(d)).collect::<Vec<_>>(), vec![1, 4, 16, 64, 256]);

    let mut inverted = [0u64; 17];
    inverted[..5].copy_from_slice(&[1, 4, 16, 50, 49]);
    let held = finish_ladder(inverted, 4, false);
    assert_eq!(held.at(4), 50, "the running maximum holds the deeper rung at the shallower");
    assert_eq!(held.raw_at(4), 49, "and the raw rung still records the inversion");

    let mut over = [0u64; 17];
    over[..3].copy_from_slice(&[2, 9, 400]);
    let clamped = finish_ladder(over, 2, false);
    assert_eq!(
        (0..=2).map(|d| clamped.at(d)).collect::<Vec<_>>(),
        vec![1, 4, 16],
        "no rung may exceed the 4^d tiles depth d has"
    );
}

/// Fixed inputs and their ladders. A change to the seed, the mixer, the estimator, the ceiling or
/// the running maximum moves these numbers.
#[test]
fn the_ladder_matches_the_python_oracle_vector_for_vector() {
    let cases: [(&str, Vec<u64>, [u64; 17]); 3] = [
        (
            "small",
            (0..37u64).map(|i| i * 0x0001_0001).collect(),
            [1, 1, 1, 1, 1, 1, 3, 10, 37, 37, 37, 37, 37, 37, 37, 37, 37],
        ),
        (
            "mid",
            (0..5_000u64)
                .map(|i| i.wrapping_mul(2_654_435_761) % (1u64 << 32))
                .collect(),
            [
                1, 4, 16, 63, 253, 1020, 3858, 5017, 5017, 5017, 5017, 5017, 5017, 5017, 5017,
                5017, 5017,
            ],
        ),
        (
            "big",
            (0..250_000u64)
                .map(|i| i.wrapping_mul(48_271) % (1u64 << 32))
                .collect(),
            [
                1, 4, 16, 63, 253, 1020, 4079, 16333, 65536, 156628, 253239, 253239, 253239,
                253239, 253239, 253239, 253239,
            ],
        ),
    ];
    let stride = 1usize << SKETCH_PRECISION;
    for (name, tiles, want) in cases {
        let mut plane = vec![0u8; stride * 17];
        for &tile in &tiles {
            for d in 0..=16usize {
                let ancestor = tile >> (2 * (16 - d) as u32);
                let (index, rank) = register_of(ancestor, SKETCH_PRECISION);
                let slot = &mut plane[d * stride + index];
                if rank > *slot {
                    *slot = rank;
                }
            }
        }
        let mut running = 0u64;
        for (d, expected) in want.iter().enumerate() {
            let estimate =
                estimate_registers(&plane[d * stride..(d + 1) * stride], SKETCH_PRECISION)
                    .min(1u64 << (2 * d as u32));
            running = running.max(estimate);
            assert_eq!(running, *expected, "{name}, depth {d}");
        }
    }
}

fn codes(codes: Vec<u32>, row_base: u32) -> SegmentCodes {
    let row_count = codes.len() as u32;
    SegmentCodes {
        codes,
        row_count,
        row_base,
    }
}

/// Four rows in three quarters of the map, two of them in one tile.
#[test]
fn a_segments_tiles_are_counted_at_every_depth() {
    let segment = codes(vec![0x0000_0001, 0x0000_0002, 0x4000_0000, 0xC000_0000], 10);
    let all = Bitmap::of(&[10, 11, 12, 13]);
    assert_eq!(for_each_occupied_tile(&all, &segment, 1), vec![0, 1, 3]);
    assert_eq!(for_each_occupied_tile(&all, &segment, 16), vec![1, 2, 0x4000_0000, 0xC000_0000]);
    let some = Bitmap::of(&[11, 13, 14]);
    assert_eq!(for_each_occupied_tile(&some, &segment, 1), vec![0, 3]);

    let held = vec![segment];
    let ladder = occupied_tiles_ladder(&all, &held, 16);
    assert!(ladder.is_exact());
    let rungs: Vec<u64> = (0..=16).map(|d| ladder.at(d)).collect();
    assert_eq!(rungs[..3], [1, 3, 3]);
    assert_eq!(rungs[15..], [3, 4]);
    assert_eq!(ladder.raw_at(16), 4);
    assert_eq!(occupied_tiles(&some, &held, 16), 2);
    assert_eq!(occupied_tiles(&Bitmap::new(), &held, 16), 0);
}

/// Rows of two segments in one tile are one tile, and what a rung answers does not depend on how
/// deep the walk went.
#[test]
fn a_rung_never_falls_and_does_not_depend_on_the_walks_depth() {
    let first: Vec<u32> = (0..300u32).map(|i| i * 9_000_011).collect();
    let second: Vec<u32> = (0..300u32).map(|i| i * 9_000_011 + (i % 2) * 7).collect();
    let held = vec![codes(first, 0), codes(second, 300)];
    let mask = Bitmap::from_range(0..600);
    let deep = occupied_tiles_ladder(&mask, &held, 16);
    assert!(!deep.is_exact());
    assert_eq!(deep, occupied_tiles_ladder_with_precision(&mask, &held, 16, SKETCH_PRECISION));
    let mut above = 0;
    for depth in 0..=16u8 {
        assert_eq!(occupied_tiles_ladder(&mask, &held, depth).at(depth), deep.at(depth));
        assert!(above <= deep.at(depth) && deep.at(depth) <= 1 << (2 * u32::from(depth)));
        above = deep.at(depth);
    }
}

/// The whole map is one tile where any row is visible, on the estimated route too.
#[test]
fn the_whole_map_is_one_tile() {
    let held = vec![codes(vec![5], 0), codes(vec![6, 0xFFFF_FFFF], 1)];
    assert_eq!(occupied_tiles(&Bitmap::of(&[0, 1, 2]), &held, 0), 1);
    assert_eq!(occupied_tiles(&Bitmap::of(&[2]), &held, 0), 1);
    assert_eq!(occupied_tiles(&Bitmap::of(&[7]), &held, 0), 0);
    assert_eq!(occupied_tiles(&Bitmap::of(&[0]), &vec![], 0), 0);
}

/// The search reads no code before its start, and one that starts past the end finds the end.
#[test]
fn a_search_reads_from_its_start_on() {
    let codes = vec![2, 4, 4, 9, 20, 31];
    assert_eq!(gallop(&codes, 6, 0, 0), 0);
    assert_eq!(gallop(&codes, 6, 0, 4), 1);
    assert_eq!(gallop(&codes, 6, 2, 4), 2);
    assert_eq!(gallop(&codes, 6, 1, 10), 4);
    assert_eq!(gallop(&codes, 4, 0, 20), 4);
    assert_eq!(gallop(&codes, 6, 0, u64::from(u32::MAX) + 1), 6);
    assert_eq!(gallop(&codes, 4, 5, 0), 4);
    assert_eq!(gallop(&codes, 6, usize::MAX, 0), 6);
    assert_eq!(gallop(&vec![50, 7, 1, 3, 8], 5, 2, 3), 3);
    assert_eq!(gallop(&vec![], 0, 0, 1), 0);
}

/// A rung of a ladder is the greatest raw rung at its depth or above.
#[test]
fn a_rung_is_the_greatest_raw_rung_so_far() {
    let mut raw = [0u64; 17];
    for (depth, rung) in [1u64, 4, 3, 9, 7, 8, 12].into_iter().enumerate() {
        raw[depth] = rung;
    }
    let ladder = finish_ladder(raw, 6, false);
    for depth in 0..=6u8 {
        let greatest = (0..=depth).map(|d| ladder.raw_at(d)).max().unwrap();
        assert_eq!(ladder.at(depth), greatest);
    }
}

/// A rung asked for again is the one handed out before, and the bound limits how many are held.
#[test]
fn a_rung_asked_for_again_is_handed_back() {
    let mut memo = OccupancyMemo::new(2 * PER_ENTRY_FLOOR_BYTES);
    assert_eq!(memo.get_or_derive(rung(1, 3, 0), || OccupiedTiles(7)).0, 7);
    assert_eq!(memo.get_or_derive(rung(1, 3, 0), || OccupiedTiles(9)).0, 7);
    assert_eq!((memo.stats().entries, memo.stats().evictions), (1, 0));
    for token_id in 2..6 {
        let _ = memo.get_or_derive(rung(token_id, 3, 0), || OccupiedTiles(1));
        assert!(memo.stats().bytes <= 2 * PER_ENTRY_FLOOR_BYTES);
    }
    assert_eq!((memo.stats().entries, memo.stats().evictions), (2, 3));
    assert_eq!(memo.get_or_derive(rung(1, 3, 0), || OccupiedTiles(9)).0, 9);
}
