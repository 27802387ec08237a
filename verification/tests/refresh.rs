use croaring::Bitmap;
use tessera_engine::projection::{ProjectionInputs, ProjectionRoutes, RowProjection};
use tessera_engine::refresh::{
    carry_for, next_key, refresh_resident, refreshed, Carry, InFlight, PublishedGeometry, Resident,
    RowProjectionKey, SliceSpace,
};
use tessera_engine::row_space::{Extent, RowSpace};

fn generation_at(prefix: &str, segments_version: u64) -> PublishedGeometry {
    PublishedGeometry {
        prefix: prefix.to_string(),
        segments_version,
    }
}

fn key_at(prefix: &str, segments_version: u64) -> RowProjectionKey {
    RowProjectionKey {
        token_id: 1,
        slice: "s0".to_string(),
        segments_version,
        prefix: prefix.to_string(),
    }
}

/// A resident entry from a superseded prefix is rebuilt: skipping it would leave its session to
/// build in line, and deriving from it would union rows of two row spaces.
#[test]
fn a_superseded_prefix_is_rebuilt_rather_than_skipped_or_derived() {
    let generation = generation_at("v00001", 9);

    // 1. The ordinary case: same prefix, older geometry — the flush and merge path.
    assert_eq!(carry_for(&key_at("v00001", 8), &generation), Carry::Derive);

    // 2. A compaction: the entry names the superseded prefix.
    assert_eq!(carry_for(&key_at("v00000", 8), &generation), Carry::Rebuild);

    // 3. Nothing owed: the live geometry's own entry, and one from a publication that raced this
    //    pass.
    assert_eq!(carry_for(&key_at("v00001", 9), &generation), Carry::Skip);
    assert_eq!(carry_for(&key_at("v00001", 10), &generation), Carry::Skip);
    assert_eq!(carry_for(&key_at("v00000", 9), &generation), Carry::Skip);
}

/// Entities 0 and 2 have base rows 1 and 0; entities 5 and 7 are the first extent's.
fn space(extents: usize) -> RowSpace {
    let mut all = vec![
        Extent {
            seg_id: "a".to_string(),
            row_base: 2,
            entities: vec![5, 7],
        },
        Extent {
            seg_id: "b".to_string(),
            row_base: 4,
            entities: vec![8, 9],
        },
    ];
    all.truncate(extents);
    RowSpace {
        base: vec![Some(1), None, Some(0)],
        base_rows: 2,
        dense: false,
        extents: all,
    }
}

fn inputs(entities: &[u32]) -> ProjectionInputs {
    ProjectionInputs {
        fragment: Bitmap::of(entities),
        satisfied: vec![],
        images: None,
        residual: None,
        chosen: None,
        force: None,
    }
}

#[test]
fn a_refresh_gives_the_fragments_rows() {
    let held = inputs(&[0, 7, 8]);
    let mut routes = ProjectionRoutes::default();
    let before = RowProjection::walk(&held.fragment, &space(1));
    assert_eq!(before.rows.to_vec(), vec![1, 3]);

    let extended = refreshed(Carry::Derive, &before, &held, &space(2), &mut routes);
    assert_eq!(extended.rows.to_vec(), vec![1, 3, 4]);
    assert_eq!(extended.extents_covered, 2);
    assert_eq!(extended.boundary_seg_id.as_deref(), Some("b"));

    // A merge replaced both extents by one: the base's rows stay, the extents' are projected again.
    let mut merged = space(2);
    merged.extents = vec![Extent {
        seg_id: "c".to_string(),
        row_base: 2,
        entities: vec![5, 7, 8, 9],
    }];
    let rebased = refreshed(Carry::Derive, &extended, &held, &merged, &mut routes);
    assert_eq!(rebased.rows.to_vec(), vec![1, 3, 4]);
    assert_eq!(rebased.boundary_seg_id.as_deref(), Some("c"));

    let rebuilt = refreshed(Carry::Rebuild, &before, &held, &space(2), &mut routes);
    assert_eq!(rebuilt.rows.to_vec(), extended.rows.to_vec());
}

#[test]
fn only_what_can_be_carried_is_refreshed() {
    let resident = |prefix: &str, version: u64, slice: &str, known: bool| Resident {
        key: RowProjectionKey {
            token_id: 1,
            slice: slice.to_string(),
            segments_version: version,
            prefix: prefix.to_string(),
        },
        projection: RowProjection::walk(&Bitmap::of(&[0]), &space(1)),
        inputs: if known { Some(inputs(&[0])) } else { None },
    };
    let entries = vec![
        resident("p", 3, "s0", true),
        resident("p", 4, "s0", true),
        resident("p", 3, "gone", true),
        resident("p", 3, "s0", false),
    ];
    let spaces = vec![SliceSpace {
        slice: "s0".to_string(),
        space: space(2),
    }];
    let mut routes = ProjectionRoutes::default();
    let out = refresh_resident(&entries, &generation_at("p", 4), &spaces, &mut routes);
    assert_eq!(out.len(), 1);
    assert_eq!(out[0].key, key_at("p", 4));
    assert_eq!(
        out[0].key,
        next_key(&key_at("p", 3), &generation_at("p", 4))
    );
    assert_eq!(out[0].projection.rows.to_vec(), vec![1]);
}

#[test]
fn a_refresh_clears_only_its_own_claim() {
    let mut claim = InFlight::none();
    assert!(!claim.is_armed());
    claim.arm(3);
    claim.arm(4);
    claim.clear_if_current(3);
    assert!(claim.is_armed(), "a later refresh holds it");
    claim.clear_if_current(4);
    assert!(!claim.is_armed());
}
