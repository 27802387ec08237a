use std::sync::Arc;

use tessera_engine::pins::{
    check_publishable, reclaimed, GeometryRefusedReason, PinId, PinManager, PinRefused, PinnedGeometry,
    DEFAULT_DRAIN_DEPTH_MAX, DRAIN_DEPTH_ALARM, MAX_HOLDERS_PER_ENTRY,
};

/// A geometry over an empty bundle: draining compares identities and reads no bundle.
fn generation(prefix: &str, segments_version: u64) -> PinnedGeometry<()> {
    PinnedGeometry {
        prefix: prefix.to_string(),
        segments_version,
        watermark: 0,
        bundle: Arc::new(()),
    }
}

fn pin(prefix: &str, segments_version: u64) -> Option<PinId> {
    Some(PinId {
        prefix: prefix.to_string(),
        segments_version,
    })
}

#[test]
fn retire_drains_a_geometry_that_is_no_longer_live() {
    let mut pins = PinManager::new(300, 4, DEFAULT_DRAIN_DEPTH_MAX);
    let superseded = generation("v00000", 7);

    assert!(pins.retire(&superseded, "v00001", 8, 0).is_empty());
    assert_eq!(
        pins.stats(0).drain_depth,
        1,
        "an ordinary supersession puts the outgoing geometry on the drain list"
    );
}

/// An observation showing the superseded identity still live must not drain it.
#[test]
fn retire_refuses_a_geometry_that_is_still_live() {
    let mut pins = PinManager::new(300, 4, DEFAULT_DRAIN_DEPTH_MAX);
    let superseded = generation("v00000", 7);
    let clobbered_live = generation("v00000", 7);

    let reclaimed = pins.retire(
        &superseded,
        &clobbered_live.prefix,
        clobbered_live.segments_version,
        0,
    );

    assert!(reclaimed.is_empty());
    assert_eq!(
        pins.stats(0).drain_depth,
        0,
        "the live geometry's identity must not reach the drain list"
    );
    assert_eq!(pins.stats(0).oldest_retired_secs, None);
}

#[test]
fn retire_ignores_an_overlay_only_swap() {
    let mut pins = PinManager::new(300, 4, DEFAULT_DRAIN_DEPTH_MAX);
    let superseded = generation("v00000", 7);

    assert!(pins.retire(&superseded, "v00000", 7, 0).is_empty());
    assert_eq!(pins.stats(0).drain_depth, 0);
}

#[test]
fn oldest_retired_secs_reports_the_oldest_entry() {
    let mut pins = PinManager::new(300, 4, DEFAULT_DRAIN_DEPTH_MAX);
    assert_eq!(pins.stats(0).oldest_retired_secs, None);
    assert_eq!(pins.stats(0).pin_ttl_secs, 300);

    pins.retire(&generation("v00000", 7), "v00001", 8, 0);
    assert_eq!(
        pins.stats(0).oldest_retired_secs,
        Some(0),
        "a freshly retired entry is zero whole seconds old"
    );

    pins.retire(&generation("v00001", 8), "v00002", 9, 1_050);
    assert_eq!(pins.stats(1_050).drain_depth, 2);
    let oldest = pins
        .stats(1_050)
        .oldest_retired_secs
        .expect("the list is not empty");
    assert!(
        oldest >= 1,
        "the gauge must report the entry nearest its end, not the newest one; got {oldest}"
    );

    // A time to live of zero makes every entry over-age, so one pass empties the list.
    let mut expiring = PinManager::new(0, 4, DEFAULT_DRAIN_DEPTH_MAX);
    expiring.retire(&generation("v00000", 7), "v00001", 8, 0);
    assert_eq!(expiring.stats(0).oldest_retired_secs, Some(0));
    assert_eq!(expiring.reclaim(0).len(), 1);
    assert_eq!(expiring.stats(0).oldest_retired_secs, None);
    assert_eq!(expiring.stats(0).drain_depth, 0);
}

#[test]
fn a_pin_is_answered_from_its_own_geometry() {
    let mut pins: PinManager<u32> = PinManager::new(300, 4, DEFAULT_DRAIN_DEPTH_MAX);
    let first = PinnedGeometry {
        prefix: "p".to_string(),
        segments_version: 1,
        watermark: 10,
        bundle: Arc::new(100u32),
    };
    let second = PinnedGeometry {
        prefix: "p".to_string(),
        segments_version: 2,
        watermark: 20,
        bundle: Arc::new(200u32),
    };
    pins.retire(&first, "p", 2, 0);

    // No pin, or the live one: the live geometry.
    let live = pins.resolve(&None, 5, &second, 1).ok().unwrap();
    assert_eq!((live.segments_version, *live.bundle), (2, 200));
    let live = pins.resolve(&pin("p", 2), 5, &second, 1).ok().unwrap();
    assert_eq!((live.segments_version, *live.bundle), (2, 200));

    // The superseded one's pin: the superseded geometry, for as long as it lives.
    let old = pins.resolve(&pin("p", 1), 5, &second, 299_999).ok().unwrap();
    assert_eq!((old.segments_version, old.watermark, *old.bundle), (1, 10, 100));
    assert_eq!(old.pin_id(), pin("p", 1).unwrap());
    assert_eq!(
        pins.resolve(&pin("p", 1), 5, &second, 300_000).err(),
        Some(PinRefused::Expired),
        "past its time to live"
    );
    assert_eq!(
        pins.resolve(&pin("q", 1), 5, &second, 1).err(),
        Some(PinRefused::Expired),
        "a geometry never held"
    );
}

#[test]
fn a_session_holds_no_more_superseded_geometries_than_it_may() {
    let mut pins = PinManager::new(300, 1, DEFAULT_DRAIN_DEPTH_MAX);
    let live = generation("p", 3);
    pins.retire(&generation("p", 1), "p", 3, 0);
    pins.retire(&generation("p", 2), "p", 3, 0);
    assert!(pins.resolve(&pin("p", 1), 9, &live, 1).is_ok());
    assert!(pins.resolve(&pin("p", 1), 9, &live, 1).is_ok(), "held already");
    assert_eq!(
        pins.resolve(&pin("p", 2), 9, &live, 1).err(),
        Some(PinRefused::CapExceeded { held: 1, limit: 1 })
    );
    assert!(pins.resolve(&pin("p", 2), 8, &live, 1).is_ok(), "another session");
}

#[test]
fn the_drain_list_is_held_to_its_depth() {
    let mut pins = PinManager::new(300, 4, 2);
    for version in 1..=3u64 {
        let reclaimed = pins.retire(&generation("p", version), "p", 10, version);
        if version < 3 {
            assert!(reclaimed.is_empty());
        } else {
            assert_eq!(reclaimed.len(), 1);
            assert_eq!(reclaimed[0].segments_version, 1, "the oldest goes first");
        }
    }
    assert_eq!(pins.stats(3).drain_depth, 2);
    assert!(DRAIN_DEPTH_ALARM < DEFAULT_DRAIN_DEPTH_MAX);
}

#[test]
fn an_entrys_holders_are_bounded() {
    let mut pins = PinManager::new(300, 4, DEFAULT_DRAIN_DEPTH_MAX);
    let live = generation("p", 2);
    pins.retire(&generation("p", 1), "p", 2, 0);
    for token in 0..(MAX_HOLDERS_PER_ENTRY as u64 + 3) {
        assert!(pins.resolve(&pin("p", 1), token, &live, 1).is_ok());
    }
    assert_eq!(pins.drain[0].holders.len(), MAX_HOLDERS_PER_ENTRY);
    assert!(!pins.drain[0].holds(0), "the oldest holder left");
    assert!(pins.drain[0].holds(MAX_HOLDERS_PER_ENTRY as u64 + 2));
}

#[test]
fn a_pinned_geometry_is_published_over_only_by_a_later_one() {
    let live = generation("v0", 7);
    assert!(check_publishable(&live, "v1", 8).is_ok());
    let refused = check_publishable(&live, "v1", 7).unwrap_err();
    assert_eq!(
        refused.reason,
        GeometryRefusedReason::SegmentsVersionNotIncreasing
    );
    assert_eq!(refused.live_segments_version, 7);
    assert!(refused.message().contains("('v1', 7)"), "{}", refused.message());
}

/// A geometry was held by nothing else where its own handle was the only one.
#[test]
fn a_reclaimed_geometry_tells_whether_others_held_it() {
    assert!(!reclaimed(generation("p", 3), 0).exclusively_held);
    assert!(reclaimed(generation("p", 3), 1).exclusively_held);
    let held = reclaimed(generation("p", 3), 2);
    assert!(!held.exclusively_held);
    assert_eq!((held.prefix.as_str(), held.segments_version), ("p", 3));

    let mut pins = PinManager::new(0, 4, 8);
    let kept = generation("p", 1);
    pins.retire(&kept, "p", 3, 0);
    pins.retire(&generation("p", 2), "p", 3, 0);
    let out = pins.reclaim(0);
    let flags: Vec<bool> = out.iter().map(|entry| entry.exclusively_held).collect();
    assert_eq!(flags, vec![false, true]);
}
