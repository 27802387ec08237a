use tessera_engine::histogram::{
    MaskedCountCache, MaskedCountKey, MaskedCounts, MaskedGeometry,
};

fn key(token: u64, layer: &str, overlay: u64) -> MaskedCountKey {
    MaskedCountKey {
        geometry: false,
        token_id: token,
        view: "s0".into(),
        layer: layer.into(),
        level: 0,
        level_version: 1,
        segments_version: 1,
        overlay_version: overlay,
        fragment_identity: [7u8; 32],
        fragment_watermark: 0,
    }
}

fn counts(values: &[u32]) -> MaskedCounts {
    MaskedCounts::new(values.to_vec())
}

/// A hit does not rebuild, and a miss does.
#[test]
fn one_walk_per_key() {
    let mut cache = MaskedCountCache::default();
    let mut built = 0;
    for _ in 0..3 {
        let held = cache.get_or_build(key(1, "a", 0), || {
            built += 1;
            counts(&[5, 6])
        });
        assert_eq!(held.get(0), 5);
        assert_eq!(held.get(1), 6);
        assert_eq!(held.get(9), 0, "past the level is zero, not a panic");
    }
    assert_eq!(built, 1);
    assert_eq!(cache.stats().hits, 2);
    assert_eq!(cache.stats().misses, 1);
}

/// **The deny edge.** A suppression moves the overlay's counter, so the key a request produces
/// after the acknowledgement is not the key the pre-deny histogram sits under — and the count
/// the viewer is served is the corrected one on the *next* request rather than at the next
/// refresh. An unsuppress moves it again and re-derives, which is what leaves
/// `delete → suppress → unsuppress` deleted.
#[test]
fn a_deny_rotates_the_key_rather_than_editing_the_entry() {
    let mut cache = MaskedCountCache::default();
    let before = cache.get_or_build(key(1, "a", 4), || counts(&[10]));
    assert_eq!(before.get(0), 10);

    // The deny is acknowledged; the overlay publishes; the counter moves.
    let after = cache.get_or_build(key(1, "a", 5), || counts(&[9]));
    assert_eq!(after.get(0), 9, "the corrected count, not the held one");
    // And the pre-deny entry is still exactly what it was — nothing here mutates a value.
    assert_eq!(
        cache.get_or_build(key(1, "a", 4), || counts(&[0])).get(0),
        10
    );
}

/// Two principals do not share counts, whatever else their keys have in common.
#[test]
fn the_counts_are_the_principals_own() {
    let mut cache = MaskedCountCache::default();
    assert_eq!(
        cache.get_or_build(key(1, "a", 0), || counts(&[3])).get(0),
        3
    );
    assert_eq!(
        cache.get_or_build(key(2, "a", 0), || counts(&[8])).get(0),
        8
    );
    assert_eq!(
        cache.get_or_build(key(1, "a", 0), || counts(&[0])).get(0),
        3
    );
}

/// The budget evicts least-recently-used, and lowering it reclaims at once.
#[test]
fn the_budget_bounds_what_is_resident() {
    // Three entries of two counts each: 8 bytes apiece.
    let mut cache = MaskedCountCache::new(16);
    cache.get_or_build(key(1, "a", 0), || counts(&[1, 1]));
    cache.get_or_build(key(2, "a", 0), || counts(&[2, 2]));
    assert_eq!(cache.stats().entries, 2);
    assert_eq!(cache.stats().resident_bytes, 16);

    // Touch the first so the second is the least recently used.
    cache.get_or_build(key(1, "a", 0), || counts(&[0, 0]));
    cache.get_or_build(key(3, "a", 0), || counts(&[3, 3]));
    assert_eq!(cache.stats().entries, 2);
    assert_eq!(cache.stats().evictions, 1);
    assert_eq!(
        cache
            .get_or_build(key(1, "a", 0), || counts(&[0, 0]))
            .get(0),
        1
    );

    // Lowering the bound reclaims immediately rather than at the next insertion.
    cache.set_bound_bytes(8);
    assert_eq!(cache.stats().entries, 1);
    cache.set_bound_bytes(0);
    assert_eq!(cache.stats().entries, 0);
    assert_eq!(cache.stats().resident_bytes, 0);

    // An entry larger than the whole bound is served and not admitted.
    let held = cache.get_or_build(key(4, "a", 0), || counts(&[9, 9]));
    assert_eq!(held.get(0), 9);
    assert_eq!(cache.stats().entries, 0);
}

/// A dropped layer's entries go, and one session's revocation takes only that session's.
#[test]
fn forget_and_prune_remove_and_only_remove() {
    let mut cache = MaskedCountCache::default();
    cache.get_or_build(key(1, "a", 0), || counts(&[1]));
    cache.get_or_build(key(1, "b", 0), || counts(&[1]));
    cache.get_or_build(key(2, "a", 0), || counts(&[1]));
    assert_eq!(cache.stats().entries, 3);

    cache.forget("a");
    assert_eq!(cache.stats().entries, 1);
    assert_eq!(cache.stats().resident_bytes, 4);

    cache.get_or_build(key(2, "b", 0), || counts(&[1]));
    cache.prune_token(1);
    assert_eq!(cache.stats().entries, 1);
}

/// Positions and boxes are of the members a viewer sees placed, and of no other artifact.
#[test]
fn a_histogram_places_what_it_counts() {
    let geometry = MaskedGeometry::new(
        vec![2, 0],
        vec![[30, 50], [0, 0]],
        vec![[10, 20, 20, 30], [9, 9, 9, 9]],
    );
    let held = MaskedCounts::with_geometry(vec![3, 0, 1], geometry);
    assert_eq!(held.populated().to_vec(), vec![0, 2]);
    assert_eq!((held.len(), held.is_empty()), (3, false));
    let geometry = held.geometry().unwrap();
    assert_eq!(geometry.position_sum(0), Some(([30, 50], 2)));
    assert_eq!(geometry.bbox(0), Some([10, 20, 20, 30]));
    assert_eq!((geometry.position_sum(1), geometry.bbox(1)), (None, None));
    assert_eq!((geometry.position_sum(7), geometry.bbox(7)), (None, None));
    assert!(counts(&[1]).geometry().is_none());
}

/// Every lookup is a hit or a miss, whatever is dropped between them.
#[test]
fn the_gauges_add_up_over_any_calls() {
    let mut cache = MaskedCountCache::new(8);
    let start = cache.stats();
    assert_eq!((start.hits, start.misses, start.evictions), (0, 0, 0));
    assert_eq!((start.entries, start.resident_bytes), (0, 0));
    let mut lookups = 0;
    for token in [1, 1, 2, 3, 2, 1] {
        cache.get_or_build(key(token, "a", 0), || counts(&[7]));
        lookups += 1;
    }
    assert_eq!(cache.stats().hits, 2);
    cache.forget("b");
    cache.prune_token(3);
    cache.set_bound_bytes(4);
    cache.get_or_build(key(9, "a", 0), || counts(&[7, 7]));
    cache.get_or_build(key(1, "a", 0), || counts(&[0]));
    lookups += 2;
    let stats = cache.stats();
    assert_eq!(stats.hits + stats.misses, lookups);
    assert_eq!((stats.entries, stats.resident_bytes), (1, 4));
    let untouched = MaskedCountCache::default().stats();
    assert_eq!((untouched.hits, untouched.misses, untouched.entries), (0, 0, 0));
}

/// A key looked up again is handed the first value, and eviction takes no more than it needs, the
/// longest untouched first.
#[test]
fn a_repeated_lookup_is_handed_the_first_value() {
    let mut cache = MaskedCountCache::new(12);
    let first = cache.get_or_build(key(1, "a", 0), || counts(&[1]));
    cache.get_or_build(key(2, "a", 0), || counts(&[2]));
    let again = cache.get_or_build(key(1, "a", 0), || counts(&[5]));
    assert!(std::sync::Arc::ptr_eq(&first, &again));
    cache.get_or_build(key(3, "a", 0), || counts(&[3]));

    // The second is the longest untouched, and its four bytes are all that is missing.
    cache.get_or_build(key(4, "a", 0), || counts(&[4]));
    assert_eq!((cache.stats().evictions, cache.stats().entries), (1, 3));
    let misses = cache.stats().misses;
    for (token, held) in [(1, 1), (3, 3), (4, 4)] {
        assert_eq!(cache.get_or_build(key(token, "a", 0), || counts(&[0])).get(0), held);
    }
    assert_eq!(cache.stats().misses, misses);
    assert_eq!(cache.get_or_build(key(2, "a", 0), || counts(&[0])).get(0), 0);
}
