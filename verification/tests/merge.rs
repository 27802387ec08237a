use tessera_engine::merge::{
    contiguous, locator_path, plan_merge, rebase_into, run_path, segment_bytes, sizes,
    CompletedMerge, FileEntry, LocatorExtent, MergeExtent, MergeOutput, MergeSource,
    SegmentDescriptor, SegmentNames, SegmentsManifest, ViewExtents,
};

fn extent(seg_id: &str, row_base: u32, lo: u64, hi: u64) -> MergeExtent {
    MergeExtent {
        seg_id: seg_id.to_string(),
        row_base,
        row_count: 10,
        entity_lo: lo,
        entity_hi: hi,
    }
}

fn file(path: &str, size: u64) -> FileEntry {
    FileEntry {
        path: path.to_string(),
        size,
    }
}

fn path(seg_id: &str, name: &str) -> String {
    format!("partitions/p0/views/s0/segments/{seg_id}/{name}")
}

fn source() -> MergeSource {
    MergeSource {
        partition: "p0".to_string(),
        stepped_down: false,
        views: vec![ViewExtents {
            view: "s0".to_string(),
            view_rel: "views/s0".to_string(),
            incarnation: 3,
            live: true,
            extents: vec![
                extent("a", 100, 0, 9),
                extent("b", 110, 10, 19),
                extent("c", 120, 20, 29),
            ],
        }],
        files: vec![
            file(&path("a", "morton.u32"), 40),
            file(&path("a", "columns.arrow"), 2),
            file(&path("ab", "morton.u32"), 7),
            file(&path("b", "morton.u32"), 5),
        ],
    }
}

fn chosen(ids: &[&str]) -> Vec<Option<Vec<String>>> {
    vec![Some(ids.iter().map(|id| id.to_string()).collect())]
}

#[test]
fn a_segments_bytes_are_those_below_its_directory() {
    let source = source();
    assert_eq!(segment_bytes(&source.files, "p0", "views/s0", "a"), 42);
    assert_eq!(sizes(&source, 0, 2), Some(vec![42, 5, 0]));
    assert_eq!(sizes(&source, 0, 4), None, "fewer extents than a tier");
}

#[test]
fn a_merge_is_planned_over_the_chosen_extents() {
    let plan = plan_merge(&source(), 2, &chosen(&["b", "c"])).expect("a merge");
    assert_eq!(plan.partition, "p0");
    assert_eq!((plan.incarnation, plan.row_base), (3, 110));
    let ids: Vec<&str> = plan.inputs.iter().map(|i| i.seg_id.as_str()).collect();
    assert_eq!(ids, vec!["b", "c"]);
    assert_eq!((plan.inputs[1].entity_lo, plan.inputs[1].entity_hi), (20, 29));

    assert!(plan_merge(&source(), 2, &vec![None]).is_none());
    let mut down = source();
    down.stepped_down = true;
    assert!(plan_merge(&down, 2, &chosen(&["b", "c"])).is_none());
    let mut dead = source();
    dead.views[0].live = false;
    assert!(plan_merge(&dead, 2, &chosen(&["b", "c"])).is_none());
}

fn descriptor(seg_id: &str, lo: u64, hi: u64) -> SegmentDescriptor {
    SegmentDescriptor {
        view: "s0".to_string(),
        incarnation: 3,
        seg_id: seg_id.to_string(),
        row_count: 10,
        entity_lo: lo,
        entity_hi: hi,
    }
}

fn locator(seg_id: &str, lo: u64, hi: u64) -> LocatorExtent {
    LocatorExtent {
        path: locator_path("p0", "views/s0", seg_id),
        entity_lo: lo,
        entity_hi: hi,
    }
}

fn manifest() -> SegmentsManifest {
    SegmentsManifest {
        segments: vec![
            descriptor("a", 0, 9),
            descriptor("b", 10, 19),
            descriptor("c", 20, 29),
            descriptor("d", 30, 39),
        ],
        external_id_runs: ["a", "b", "c", "d"]
            .iter()
            .map(|id| run_path("p0", "views/s0", id))
            .collect(),
        locator_extents: vec![
            locator("a", 0, 9),
            locator("b", 10, 19),
            locator("c", 20, 29),
            locator("d", 30, 39),
        ],
        files: vec![
            file(&path("a", "morton.u32"), 1),
            file(&path("b", "morton.u32"), 1),
            file(&path("b", "presence/x"), 1),
            file(&path("c", "columns.arrow"), 1),
            file(&path("c", "kept"), 1),
        ],
    }
}

fn completed() -> CompletedMerge {
    CompletedMerge {
        plan: plan_merge(&source(), 2, &chosen(&["b", "c"])).unwrap(),
        output: MergeOutput {
            segment: descriptor("bc", 10, 29),
            external_id_run: run_path("p0", "views/s0", "bc"),
            locator_extent: locator("bc", 10, 29),
            files: vec![file(&path("bc", "morton.u32"), 2)],
        },
    }
}

fn names() -> SegmentNames {
    SegmentNames {
        cut_index: "cuts.u32".to_string(),
        presence_dir: "presence".to_string(),
    }
}

#[test]
fn the_merged_segment_takes_the_firsts_place() {
    let mut held = manifest();
    assert!(rebase_into(&mut held, completed(), &names()));
    let ids: Vec<&str> = held.segments.iter().map(|s| s.seg_id.as_str()).collect();
    assert_eq!(ids, vec!["a", "bc", "d"]);
    assert_eq!(
        held.external_id_runs,
        vec![
            run_path("p0", "views/s0", "a"),
            run_path("p0", "views/s0", "bc"),
            run_path("p0", "views/s0", "d"),
        ]
    );
    let locators: Vec<u64> = held.locator_extents.iter().map(|l| l.entity_hi).collect();
    assert_eq!(locators, vec![9, 29, 39]);
    let files: Vec<&str> = held.files.iter().map(|f| f.path.as_str()).collect();
    assert_eq!(
        files,
        vec![
            path("a", "morton.u32").as_str(),
            path("c", "kept").as_str(),
            path("bc", "morton.u32").as_str(),
        ]
    );
}

#[test]
fn a_manifest_that_moved_on_is_left_alone() {
    let mut held = manifest();
    held.segments.remove(2);
    assert!(!rebase_into(&mut held, completed(), &names()));
    assert_eq!(held.segments.len(), 3);

    let mut held = manifest();
    held.external_id_runs.swap(1, 2);
    assert!(!rebase_into(&mut held, completed(), &names()));

    let mut held = manifest();
    held.locator_extents.remove(1);
    assert!(!rebase_into(&mut held, completed(), &names()));
}

/// A segment list that holds the inputs out of order, and not all of them, is left as it was.
#[test]
fn a_merge_with_an_unlisted_input_changes_nothing() {
    let mut merge = completed();
    merge.plan = plan_merge(&source(), 2, &chosen(&["a", "b", "c"])).unwrap();
    let mut held = manifest();
    held.segments = vec![descriptor("b", 10, 19), descriptor("a", 0, 9)];
    assert!(!rebase_into(&mut held, merge, &names()));
    let ids: Vec<&str> = held.segments.iter().map(|s| s.seg_id.as_str()).collect();
    assert_eq!(ids, vec!["b", "a"]);
    assert_eq!(held.external_id_runs, manifest().external_id_runs);
    assert_eq!(held.locator_extents.len(), 4);
    assert_eq!(held.files.len(), 5);
}

#[test]
fn a_run_is_found_where_it_first_stands() {
    let list = |ids: &[&str]| ids.iter().map(|id| id.to_string()).collect::<Vec<_>>();
    assert_eq!(contiguous(&list(&["a", "b", "a", "b"]), &list(&["a", "b"])), Some(0));
    assert_eq!(contiguous(&list(&["a", "c", "b"]), &list(&["a", "b"])), None);
    assert_eq!(contiguous(&list(&["c", "a", "b"]), &list(&["a", "b"])), Some(1));
}
