use std::sync::Arc;

use tessera_engine::geometry::{
    check_manifest_publishable, check_publishable, GeometryPublication, GeometryRefusedReason,
    LiveGeometry, ManifestScalars,
};

fn live_at(prefix: &str, segments_version: u64, watermark: u64) -> LiveGeometry {
    LiveGeometry {
        prefix: prefix.to_string(),
        segments_version,
        watermark,
    }
}

#[test]
fn a_publication_must_strictly_increase_the_segments_version() {
    let live = live_at("p-1", 7, 100);
    assert!(check_publishable(&live, "p-1", 8, 100).is_ok());
    assert!(
        check_publishable(&live, "p-2", 8, 100).is_ok(),
        "a new prefix"
    );

    for offered in [7u64, 6, 0] {
        let refused = check_publishable(&live, "p-1", offered, 100)
            .expect_err("a non-increasing segments_version is refused");
        assert_eq!(
            refused.reason,
            GeometryRefusedReason::SegmentsVersionNotIncreasing
        );
        assert_eq!(refused.live_segments_version, 7);
    }
}

/// A publication may raise the watermark or leave it, never lower it.
#[test]
fn a_publication_may_not_lower_the_watermark() {
    let live = live_at("p-1", 7, 100);

    assert!(
        check_publishable(&live, "p-1", 8, 100).is_ok(),
        "a merge or a fold passes it through"
    );
    assert!(
        check_publishable(&live, "p-1", 8, 101).is_ok(),
        "a flush raises it"
    );

    let refused = check_publishable(&live, "p-2", 8, 99)
        .expect_err("a watermark behind the live one is refused");
    assert_eq!(refused.reason, GeometryRefusedReason::WatermarkRegresses);
}

/// The refusal message names the mechanism that would break.
#[test]
fn the_refusal_names_the_row_projection_cache() {
    let text = GeometryRefusedReason::SegmentsVersionNotIncreasing.message();
    assert!(text.contains("row-projection cache"), "{text}");
}

/// A side-manifest may raise a durable scalar or leave it, never lower it.
#[test]
fn a_side_manifest_may_not_regress_a_durable_scalar() {
    let at = |watermark, entity_id_high_water| ManifestScalars {
        watermark,
        entity_id_high_water,
    };
    let live = at(100, 200);

    assert!(check_manifest_publishable(&live, &at(100, 200)).is_ok());
    assert!(check_manifest_publishable(&live, &at(101, 201)).is_ok());

    let refused = check_manifest_publishable(&live, &at(99, 200))
        .expect_err("a plan-time watermark behind the live manifest's is refused");
    assert_eq!(refused.field, "watermark");
    assert_eq!((refused.live, refused.offered), (100, 99));

    let refused = check_manifest_publishable(&live, &at(100, 199))
        .expect_err("a regressed high-water is refused");
    assert_eq!(refused.field, "entity_id_high_water");
}

#[test]
fn a_refusal_names_both_identities() {
    let refused = check_publishable(&live_at("p-1", 7, 100), "p-2", 5, 100).unwrap_err();
    assert!(refused
        .message()
        .starts_with("refusing to publish geometry ('p-2', 5) over live ('p-1', 7): segments_version"));
}

#[test]
fn a_publication_within_the_prefix_rotates_nothing() {
    let publication: GeometryPublication<u8, u8, u8, &str> = GeometryPublication::within_prefix(
        "p-1".to_string(),
        8,
        100,
        Arc::new(1),
        Arc::new(2),
        vec![Arc::new(3)],
    );
    assert_eq!((publication.segments_version, publication.watermark), (8, 100));
    assert!(publication.rotation.is_none());
    let rotating = publication.rotating("p-2");
    assert_eq!(rotating.rotation, Some("p-2"));
    assert_eq!(rotating.prefix, "p-1");
}
