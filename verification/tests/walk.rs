use croaring::Bitmap;
use tessera_engine::histogram::MaskIdentity;
use tessera_engine::records::stretch::{
    map_stretch, stored_domain, stored_items, stored_stretch, stretch_candidate, stretch_parts,
    Prepared, Stretch, TakeEnd, Walk, Walked,
};
use tessera_engine::records::take::{
    segment_holding, MapTake, PageMask, StoredTake, TakeProgress,
};
use tessera_engine::records::walk::{
    before, first_after, first_at, key_of, Position, Publication, SegmentRows, Taken,
    STRETCH_BYTES_PER_ROW, STRETCH_GROWTH, STRETCH_MIN,
};
use tessera_engine::records::{RecordsOrder, ResponseEndedBy};
use tessera_engine::region::RegionVerdict;
use tessera_engine::row_space::{Extent, RowSpace};

/// A resumed read carries the stretch it grew to under the ceiling of the response that issued its
/// cursor; a response with a smaller page ceiling holds it to its own.
#[test]
fn a_carried_stretch_is_held_to_the_resuming_responses_ceiling() {
    let start = Position::start(RecordsOrder::ByMap);
    let bytes = 8 << 20;
    let ceiling = u32::try_from(bytes / STRETCH_BYTES_PER_ROW).unwrap();
    let walk = Walk::new(false, 64 << 20, bytes, start);
    assert_eq!(walk.target, ceiling);
    let walk = Walk::new(false, 1, bytes, start);
    assert_eq!(walk.target, STRETCH_MIN);
    let walk = Walk::new(false, 64 << 20, 1024, start);
    assert_eq!(walk.target, STRETCH_MIN);
}

/// Two segments: rows 0..3 and 10..12, by map cell.
fn segments() -> Vec<SegmentRows> {
    vec![
        SegmentRows {
            cells: vec![1, 1, 4],
            ids: vec![10, 20, 5],
            entities: vec![3, 1, 2],
            base: 0,
        },
        SegmentRows {
            cells: vec![1, 9],
            ids: vec![15, 1],
            entities: vec![8, 7],
            base: 10,
        },
    ]
}

fn publication(overlay: u64) -> Publication {
    Publication {
        prefix: "p".to_string(),
        segments_version: 1,
        overlay,
    }
}

fn mask_identity() -> MaskIdentity {
    MaskIdentity {
        token_id: 1,
        segments_version: 1,
        overlay_version: 1,
        fragment_identity: [0; 32],
        fragment_watermark: 0,
    }
}

#[test]
fn a_key_is_a_place_between_rows() {
    assert_eq!(before((3, 7)), Some((3, 6)));
    assert_eq!(before((3, 0)), Some((2, u64::MAX)));
    assert_eq!(before((0, 0)), None);
    let held = segments();
    assert_eq!(first_after(&held[0], None), 0);
    assert_eq!(first_after(&held[0], Some((1, 10))), 1);
    assert_eq!(first_after(&held[0], Some((1, u64::MAX))), 2);
    assert_eq!(first_at(&held[0], None), 3);
    assert_eq!(first_at(&held[0], Some((1, 20))), 1);
    let row = Taken {
        seg: 1,
        local: 0,
        tessera_id: 15,
        entity: 8,
        matched: true,
    };
    assert_eq!(key_of(RecordsOrder::ByMap, &held, &row), (1, 15));
    assert_eq!(key_of(RecordsOrder::Stored, &held, &row), (8, 0));
}

/// Rows come out in key order across the segments.
#[test]
fn a_map_take_merges_the_segments_in_key_order() {
    let held = segments();
    let page = PageMask {
        mask: Bitmap::of(&[0, 1, 2, 10, 11]),
        filter: Some(Bitmap::of(&[0, 2, 10])),
        keep_unmatched: true,
    };
    let mut rows = Vec::new();
    let mut take = MapTake::new(&held, &page, None, None, 4, &rows);
    let mut progress = TakeProgress::More;
    while progress == TakeProgress::More {
        progress = take.advance(&held, &page, 4, true, None, &mut rows);
    }
    assert_eq!(progress, TakeProgress::Filled);
    let ids: Vec<u64> = rows.iter().map(|r| r.tessera_id).collect();
    assert_eq!(ids, vec![10, 15, 20, 5]);
    let matched: Vec<bool> = rows.iter().map(|r| r.matched).collect();
    assert_eq!(matched, vec![true, true, false, true]);

    // Without the unmatched rows, past the first key.
    let page = PageMask {
        mask: Bitmap::of(&[0, 1, 2, 10, 11]),
        filter: Some(Bitmap::of(&[0, 2, 10])),
        keep_unmatched: false,
    };
    let mut rows = Vec::new();
    let mut take = MapTake::new(&held, &page, Some((1, 10)), None, 4, &rows);
    let mut progress = TakeProgress::More;
    while progress == TakeProgress::More {
        progress = take.advance(&held, &page, 4, true, None, &mut rows);
    }
    assert_eq!(progress, TakeProgress::Spent);
    let ids: Vec<u64> = rows.iter().map(|r| r.tessera_id).collect();
    assert_eq!(ids, vec![15, 5]);
}

#[test]
fn a_stopped_take_names_the_first_key_it_did_not_reach() {
    let held = segments();
    let page = PageMask {
        mask: Bitmap::of(&[0, 1, 2, 10, 11]),
        filter: None,
        keep_unmatched: false,
    };
    let mut rows = Vec::new();
    let mut take = MapTake::new(&held, &page, Some((1, 15)), None, 4, &rows);
    let progress = take.advance(
        &held,
        &page,
        4,
        true,
        Some(ResponseEndedBy::BudgetTime),
        &mut rows,
    );
    assert_eq!(
        progress,
        TakeProgress::Stopped(ResponseEndedBy::BudgetTime, (1, 20))
    );
    assert!(rows.is_empty());
}

#[test]
fn a_stored_take_goes_by_item() {
    let held = segments();
    let items: Vec<(u32, u32)> = vec![(1, 1), (2, 2), (3, 0), (7, 11), (8, 10)];
    let page = PageMask {
        mask: Bitmap::of(&[0, 1, 2, 10, 11]),
        filter: Some(Bitmap::of(&[1, 11])),
        keep_unmatched: false,
    };
    assert_eq!(segment_holding(&held, 11), Some((1, 1)));
    assert_eq!(segment_holding(&held, 5), None);
    let mut rows = Vec::new();
    let mut take = StoredTake::new(&held, &items, &page, None, &rows);
    let mut progress = TakeProgress::More;
    while progress == TakeProgress::More {
        progress = take.advance(&held, &items, &page, 10, true, None, &mut rows);
    }
    assert_eq!(progress, TakeProgress::Spent);
    let entities: Vec<u32> = rows.iter().map(|r| r.entity).collect();
    assert_eq!(entities, vec![1, 7]);
}

#[test]
fn a_stretch_spans_its_target() {
    let held = segments();
    let bounds = map_stretch(&held, None, 2).expect("rows remain");
    let parts = stretch_parts(&held, &bounds);
    let spanned: u32 = parts.iter().map(|(_, start, end)| end - start).sum();
    assert!(spanned >= 2);
    assert!(map_stretch(&held, Some((9, 1)), 2).is_none(), "nothing past the last key");
    let whole = map_stretch(&held, None, 4096).unwrap();
    assert_eq!(whole.until, None);
    let all = stretch_parts(&held, &whole);
    assert_eq!(all, vec![(0, 0, 3), (1, 0, 2)]);
    let items = stretch_candidate(&held, &all, &Bitmap::of(&[1, 10]), &Bitmap::of(&[1, 2, 8]));
    assert_eq!(items.to_vec(), vec![1, 8]);

    let candidate = Bitmap::of(&[4, 6, 9]);
    let (first, until) = stored_stretch(&candidate, None, 2).unwrap();
    assert_eq!((first.to_vec(), until), (vec![4, 6], Some(9)));
    let (rest, until) = stored_stretch(&candidate, Some((6, 0)), 2).unwrap();
    assert_eq!((rest.to_vec(), until), (vec![9], None));
    assert!(stored_stretch(&candidate, Some((9, 0)), 2).is_none());
}

#[test]
fn a_walk_opens_a_stretch_and_grows_it() {
    let mut walk = Walk::new(false, 1, 8 << 20, Position::start(RecordsOrder::ByMap));
    let now = publication(1);
    assert_eq!(
        walk.prepare(None, &now, &mask_identity(), false, None),
        Prepared::Open
    );
    // A stop is honoured only once rows are held or the scan moved.
    assert_eq!(
        walk.prepare(
            None,
            &now,
            &mask_identity(),
            true,
            Some(ResponseEndedBy::Deadline)
        ),
        Prepared::Stopped(ResponseEndedBy::Deadline)
    );
    walk.stretch = Some(Stretch {
        under: publication(1),
        mask: mask_identity(),
        from: None,
        until: Some((4, 0)),
        filter: None,
        items: vec![],
    });
    assert_eq!(
        walk.prepare(None, &now, &mask_identity(), false, None),
        Prepared::Ready
    );
    let held = segments();
    let (scan, end) = walk.took(&held, None, TakeEnd::Done, &vec![], 5);
    assert_eq!(scan, Some((3, u64::MAX)));
    assert_eq!(end, None);
    assert!(walk.stretch.is_none(), "the stretch is spent");
    assert_eq!(walk.target, STRETCH_MIN * STRETCH_GROWTH);

    // Another publication's stretch is not this one's.
    walk.stretch = Some(Stretch {
        under: publication(1),
        mask: mask_identity(),
        from: None,
        until: None,
        filter: None,
        items: vec![],
    });
    assert_eq!(
        walk.prepare(None, &publication(2), &mask_identity(), false, None),
        Prepared::Open
    );
    walk.stretch = Some(Stretch {
        under: publication(2),
        mask: mask_identity(),
        from: None,
        until: None,
        filter: None,
        items: vec![],
    });
    let (_, end) = walk.took(&held, None, TakeEnd::Done, &vec![], 5);
    assert_eq!(end, Some(Walked::End));
}

/// The same rows in one segment, as a merge leaves them.
fn merged() -> Vec<SegmentRows> {
    vec![SegmentRows {
        cells: vec![1, 1, 1, 4, 9],
        ids: vec![10, 15, 20, 5, 1],
        entities: vec![3, 8, 1, 2, 7],
        base: 0,
    }]
}

/// One page of at most `need` rows past `scan`, in map order: what it took, and where it ended.
fn map_page(
    held: &Vec<SegmentRows>,
    scan: Option<(u32, u64)>,
    need: usize,
) -> (Vec<Taken>, Option<(u32, u64)>, bool) {
    let page = PageMask {
        mask: Bitmap::from_range(0..100),
        filter: None,
        keep_unmatched: false,
    };
    let mut rows = Vec::new();
    let mut take = MapTake::new(held, &page, scan, None, need, &rows);
    let mut progress = TakeProgress::More;
    while progress == TakeProgress::More {
        progress = take.advance(held, &page, need, true, None, &mut rows);
    }
    match rows.last() {
        Some(last) if progress == TakeProgress::Filled => {
            let next = key_of(RecordsOrder::ByMap, held, last);
            (rows, Some(next), false)
        }
        _ => (rows, None, true),
    }
}

/// One page of at most `need` rows past `scan`, in stored order.
fn stored_page(
    held: &Vec<SegmentRows>,
    scan: Option<(u32, u64)>,
    need: usize,
) -> (Vec<Taken>, Option<(u32, u64)>, bool) {
    let page = PageMask {
        mask: Bitmap::from_range(0..100),
        filter: None,
        keep_unmatched: false,
    };
    let mut items: Vec<(u32, u32)> = Vec::new();
    for segment in held {
        for (local, entity) in segment.entities.iter().enumerate() {
            items.push((*entity, segment.base + local as u32));
        }
    }
    items.sort();
    let mut rows = Vec::new();
    let mut take = StoredTake::new(held, &items, &page, scan, &rows);
    let mut progress = TakeProgress::More;
    while progress == TakeProgress::More {
        progress = take.advance(held, &items, &page, need, true, None, &mut rows);
    }
    match rows.last() {
        Some(last) if progress == TakeProgress::Filled => {
            let next = key_of(RecordsOrder::Stored, held, last);
            (rows, Some(next), false)
        }
        _ => (rows, None, true),
    }
}

/// Pages of every size, the segments merged after the first, lose no row and repeat none.
#[test]
fn a_read_returns_each_row_once() {
    for need in 1..=6 {
        let mut ids = Vec::new();
        let (mut rows, mut scan, mut ended) = map_page(&segments(), None, need);
        ids.extend(rows.iter().map(|r| r.tessera_id));
        while !ended {
            (rows, scan, ended) = map_page(&merged(), scan, need);
            ids.extend(rows.iter().map(|r| r.tessera_id));
        }
        assert_eq!(ids, vec![10, 15, 20, 5, 1], "in map order");

        let mut ids = Vec::new();
        let (mut rows, mut scan, mut ended) = stored_page(&segments(), None, need);
        ids.extend(rows.iter().map(|r| r.tessera_id));
        while !ended {
            (rows, scan, ended) = stored_page(&merged(), scan, need);
            ids.extend(rows.iter().map(|r| r.tessera_id));
        }
        assert_eq!(ids, vec![20, 5, 10, 1, 15], "in stored order");
    }
}

/// In stored order a stretch's items stand by entity, each with its row; one without a row in the
/// view is left out, and the filter is asked over the rows alone.
#[test]
fn a_stored_stretch_places_its_items() {
    let space = RowSpace {
        base: vec![Some(1), None, Some(0)],
        base_rows: 2,
        dense: false,
        extents: vec![Extent {
            seg_id: "s".to_string(),
            row_base: 2,
            entities: vec![9, 5],
        }],
    };
    let items = stored_items(&Bitmap::of(&[0, 1, 2, 5, 7, 9]), &space);
    assert_eq!(items, vec![(0, 1), (2, 0), (5, 3), (9, 2)]);
    assert_eq!(stored_domain(&items, 4), vec![(0, 4)]);
    assert_eq!(stored_domain(&items[..1].to_vec(), 4), vec![(1, 2)]);
    assert_eq!(stored_domain(&items, 3), vec![(0, 3)]);
    assert_eq!(stored_domain(&vec![], 4), vec![]);
}

/// Opening a stretch keeps the coarsest verdict the walk's evaluations have reached.
#[test]
fn a_walk_keeps_the_coarsest_verdict_of_its_stretches() {
    let mut walk = Walk::new(false, 1, 8 << 20, Position::start(RecordsOrder::Stored));
    let stretch = || Stretch {
        under: publication(1),
        mask: mask_identity(),
        from: None,
        until: Some((7, 0)),
        filter: Some(Bitmap::of(&[4])),
        items: vec![(4, 2)],
    };
    walk.open(stretch(), Some(RegionVerdict::Exact));
    assert_eq!(walk.region, Some(RegionVerdict::Exact));
    walk.open(stretch(), Some(RegionVerdict::Cover { depth: 9 }));
    walk.open(stretch(), None);
    assert_eq!(walk.region, Some(RegionVerdict::Cover { depth: 9 }));
    let open = walk.stretch.unwrap();
    assert_eq!((open.until, open.items), (Some((7, 0)), vec![(4, 2)]));
}

/// A stop is honoured only where it moves the read: at the first key of a read's first take it is
/// not, and once a chunk has been gathered it is.
#[test]
fn an_honoured_stop_moves_the_read() {
    let count = 5000u32;
    let held = vec![SegmentRows {
        cells: (0..count).collect(),
        ids: (0..u64::from(count)).collect(),
        entities: (0..count).collect(),
        base: 0,
    }];
    let page = PageMask {
        mask: Bitmap::of(&[count - 1]),
        filter: None,
        keep_unmatched: false,
    };
    let stop = Some(ResponseEndedBy::BudgetTime);
    let mut rows = Vec::new();
    let mut take = MapTake::new(&held, &page, None, None, 1, &rows);
    let progress = take.advance(&held, &page, 1, false, stop, &mut rows);
    assert_eq!(progress, TakeProgress::More);
    match take.advance(&held, &page, 1, false, stop, &mut rows) {
        TakeProgress::Stopped(reason, key) => {
            assert_eq!(reason, ResponseEndedBy::BudgetTime);
            assert!(before(key) > None, "the scan lies past where the read began");
        }
        other => panic!("{other:?}"),
    }

    let items: Vec<(u32, u32)> = (0..count).map(|e| (e, e)).collect();
    let mut take = StoredTake::new(&held, &items, &page, None, &rows);
    let progress = take.advance(&held, &items, &page, 1, false, stop, &mut rows);
    assert_eq!(progress, TakeProgress::More);
    match take.advance(&held, &items, &page, 1, false, stop, &mut rows) {
        TakeProgress::Stopped(_, key) => assert!(key.0 > 0),
        other => panic!("{other:?}"),
    }
}
