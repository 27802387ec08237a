use croaring::Bitmap;
use tessera_engine::gated_level::{
    check_level, gated_level, histogram_over, readable_layer, ArtifactRows, HierarchyKind,
    LayerRefusal, RegisteredLayer, Registration,
};
use tessera_engine::histogram::MaskIdentity;
use tessera_engine::records::artifact_rows::{
    artifact_columns, names, row, row_bytes, ArtifactData, ArtifactFacts, Property,
};
use tessera_engine::records::artifacts::{
    count, parent_position, plan_artifacts, resolve_properties, selected, ArtifactsPager,
    ArtifactsRefused, ArtifactsRequest, ArtifactsWalk, Ended, HeldFilter, Tested, CHUNK,
};
use tessera_engine::records::cursor::{ArtifactsCursor, CursorKey, CursorRefused};
use tessera_engine::records::items::Served;
use tessera_engine::records::refused::RecordsRefused;
use tessera_engine::records::serve::{ItemsCounts, ItemsLimits, Paged};
use tessera_engine::records::walk::Publication;
use tessera_engine::records::{PageEndedBy, ResponseEndedBy};
use tessera_engine::region::RegionVerdict;

fn layer(kind: HierarchyKind, levels: u32) -> RegisteredLayer {
    RegisteredLayer {
        name: "clusters".to_string(),
        entity: 9,
        kind,
        views: vec!["s0".to_string()],
        levels,
    }
}

fn registration(kind: HierarchyKind, levels: u32) -> Option<Registration> {
    Some(Registration {
        layer: layer(kind, levels),
        deleted: false,
        suppressed: false,
    })
}

#[test]
fn an_unreadable_layer_gives_one_answer() {
    let reachable = vec!["clusters".to_string()];
    let live = registration(HierarchyKind::Flat, 1);
    assert!(readable_layer(&reachable, &live, "clusters", "s0").is_ok());
    let unknown = |reachable: &Vec<String>, held: &Option<Registration>, view: &str| {
        assert!(matches!(
            readable_layer(reachable, held, "clusters", view),
            Err(LayerRefusal::Unknown)
        ));
    };
    unknown(&vec![], &live, "s0");
    unknown(&reachable, &None, "s0");
    unknown(&reachable, &live, "s1");
    let mut deleted = registration(HierarchyKind::Flat, 1);
    deleted.as_mut().unwrap().deleted = true;
    unknown(&reachable, &deleted, "s0");
    let mut suppressed = registration(HierarchyKind::Flat, 1);
    suppressed.as_mut().unwrap().suppressed = true;
    unknown(&reachable, &suppressed, "s0");
}

#[test]
fn a_level_is_named_only_where_there_are_several() {
    assert_eq!(check_level(&layer(HierarchyKind::Flat, 1), None), Ok(()));
    assert_eq!(
        check_level(&layer(HierarchyKind::Flat, 1), Some(0)),
        Err(LayerRefusal::OneLevel(HierarchyKind::Flat))
    );
    assert_eq!(check_level(&layer(HierarchyKind::Stacked, 2), Some(1)), Ok(()));
    assert_eq!(
        check_level(&layer(HierarchyKind::Stacked, 2), Some(2)),
        Err(LayerRefusal::NoSuchLevel { held: 2 })
    );
}

/// The column's histogram and the members' intersection are one count.
#[test]
fn the_column_counts_the_members() {
    let column = vec![Some(0), Some(1), None, Some(1), Some(1)];
    let mask = Bitmap::of(&[0, 1, 2, 3]);
    let filter = Bitmap::of(&[1, 2, 4]);
    assert_eq!(
        histogram_over(&column, 2, &Bitmap::of(&[0, 1, 3, 9])),
        vec![1, 2]
    );
    let from_column = gated_level(
        0,
        ArtifactRows {
            artifacts: 2,
            column: Some(column),
            members: vec![None, None],
        },
        &mask,
        &Some(Bitmap::of(&[1, 2, 4])),
    );
    let from_members = gated_level(
        0,
        ArtifactRows {
            artifacts: 2,
            column: None,
            members: vec![Some(Bitmap::of(&[0])), Some(Bitmap::of(&[1, 3, 4]))],
        },
        &mask,
        &Some(Bitmap::of(&[1, 2, 4])),
    );
    for (ordinal, want) in [(0u32, 0u64), (1, 1), (7, 0)] {
        assert_eq!(from_column.matched_count(ordinal, &mask, &filter), want);
        assert_eq!(from_members.matched_count(ordinal, &mask, &filter), want);
    }
}

fn request() -> ArtifactsRequest {
    ArtifactsRequest {
        view: "s0".to_string(),
        layer: "clusters".to_string(),
        level: None,
        parent: None,
        q: None,
        filtered: true,
        keep_unmatched: false,
        count: false,
        fields: vec!["key".to_string(), "masked_count".to_string()],
        page_rows: Some(2),
        pages: None,
        cursor: None,
        idset: None,
        limits: ItemsLimits {
            max_page_rows: 100,
            max_page_bytes: 1000,
            response_bytes: 10_000,
            response_time: 1,
        },
    }
}

fn served() -> Served {
    Served {
        idset: 7,
        visible: true,
        incarnation: Some(2),
        auth_data_hash: [3; 32],
    }
}

fn plan(
    req: &ArtifactsRequest,
    served: &Served,
    filter: Option<&str>,
) -> Result<ArtifactsPager, ArtifactsRefused> {
    plan_artifacts(
        &CursorKey::of("00"),
        req,
        served,
        &vec!["clusters".to_string()],
        &registration(HierarchyKind::Stacked, 2),
        &filter.map(|f| f.to_string()),
    )
}

fn refused(req: &ArtifactsRequest, served: &Served, filter: Option<&str>) -> ArtifactsRefused {
    match plan(req, served, filter) {
        Ok(_) => panic!("the read is refused"),
        Err(why) => why,
    }
}

#[test]
fn an_artifacts_read_is_refused_for_its_first_reason() {
    let mut req = request();
    req.pages = Some(0);
    req.parent = Some(1);
    req.q = Some("x".to_string());
    assert!(matches!(
        refused(&req, &served(), None),
        ArtifactsRefused::Shape(RecordsRefused::ZeroPages)
    ));
    req.pages = None;
    assert!(matches!(
        refused(&req, &served(), None),
        ArtifactsRefused::ParentWithQ
    ));
    req.q = None;
    req.idset = Some(8);
    assert!(matches!(
        refused(&req, &served(), None),
        ArtifactsRefused::StaleIdSet
    ));
    req.idset = None;
    let mut hidden = served();
    hidden.visible = false;
    assert!(matches!(
        refused(&req, &hidden, None),
        ArtifactsRefused::UnknownView(_)
    ));
    req.layer = "other".to_string();
    assert!(matches!(
        refused(&req, &served(), None),
        ArtifactsRefused::UnknownLayer(name) if name == "other"
    ));
    req.layer = "clusters".to_string();
    req.level = Some(5);
    assert!(matches!(
        refused(&req, &served(), None),
        ArtifactsRefused::NoSuchLevel { held: 2, .. }
    ));
    req.level = Some(1);
    req.cursor = Some("nonsense".to_string());
    assert!(matches!(
        refused(&req, &served(), None),
        ArtifactsRefused::Cursor(CursorRefused)
    ));
    req.cursor = None;
    assert!(matches!(
        refused(&req, &served(), Some("bad")),
        ArtifactsRefused::Filter(_)
    ));
    req.fields = vec!["colour".to_string()];
    assert!(matches!(
        refused(&req, &served(), Some("bad")),
        ArtifactsRefused::UnknownProperty(name) if name == "colour"
    ));
    let flat = plan_artifacts(
        &CursorKey::of("00"),
        &req,
        &served(),
        &vec!["clusters".to_string()],
        &registration(HierarchyKind::Flat, 1),
        &None,
    );
    assert!(matches!(flat, Err(ArtifactsRefused::OneLevel(_))));
}

#[test]
fn an_artifacts_read_resumes_where_it_stopped() {
    let key = CursorKey::of("00");
    let mut pager = plan(&request(), &served(), None).ok().unwrap();
    assert_eq!(pager.page_rows, 2);
    assert!(pager.reads(&layer(HierarchyKind::Stacked, 2)));
    pager.scan = Some((1, 4));
    let token = pager.cursor(&key);
    let payload = key.open(&pager.binding, &token).unwrap();
    assert_eq!(
        ArtifactsCursor::decode(&payload).unwrap(),
        ArtifactsCursor {
            idset: 7,
            scan: Some((1, 4))
        }
    );
    let mut next = request();
    next.cursor = Some(token);
    let resumed = plan(&next, &served(), None).ok().unwrap();
    assert_eq!(resumed.scan, Some((1, 4)));
    assert_eq!(resumed.origin, Some((1, 4)));
}

#[test]
fn properties_are_resolved_in_the_order_named() {
    let fields = |names: &[&str]| names.iter().map(|n| n.to_string()).collect::<Vec<_>>();
    let resolved = resolve_properties(&fields(&["shape", "key", "level"])).ok().unwrap();
    assert_eq!(
        resolved,
        vec![Property::Shape, Property::Key, Property::Level]
    );
    assert!(matches!(
        resolve_properties(&fields(&["key", "key"])),
        Err(ArtifactsRefused::RepeatedField(name)) if name == "key"
    ));
    assert_eq!(Property::parse("box"), Some(Property::Bounds));
    assert_eq!(Property::parse("masked_count"), Some(Property::MaskedCount));
    assert_eq!(Property::parse(""), None);
}

#[test]
fn a_text_selects_by_key_or_first_content_whatever_the_case() {
    let q = Some("ÉTÉ".to_string());
    let key = Some("un été".to_string());
    assert!(selected(None, &vec![], &q, &key, &vec![]));
    assert!(selected(None, &vec![], &q, &None, &vec!["Été 1999".to_string()]));
    assert!(!selected(
        None,
        &vec![],
        &q,
        &Some("winter".to_string()),
        &vec!["w".to_string(), "été".to_string()]
    ));
    assert!(selected(None, &vec![], &None, &None, &vec![]));
    // By parent: an artifact naming it, and none where the parent is not served.
    assert!(selected(Some(Some((0, 3))), &vec![(0, 1), (0, 3)], &None, &None, &vec![]));
    assert!(!selected(Some(Some((0, 3))), &vec![(0, 1)], &None, &None, &vec![]));
    assert!(!selected(Some(None), &vec![(0, 1)], &None, &None, &vec![]));
}

#[test]
fn a_parent_is_found_only_where_it_is_served() {
    let located = Some(("clusters".to_string(), 1, 4));
    assert_eq!(
        parent_position(true, &located, "clusters", 50, Some(50)),
        Some((1, 4))
    );
    assert_eq!(parent_position(false, &located, "clusters", 50, Some(50)), None);
    assert_eq!(parent_position(true, &located, "topics", 50, Some(50)), None);
    assert_eq!(parent_position(true, &located, "clusters", 50, None), None);
    assert_eq!(parent_position(true, &None, "clusters", 50, Some(50)), None);
}

#[test]
fn counts_are_of_the_selected_artifacts() {
    let tested = |selected, matched| Tested { selected, matched };
    assert_eq!(
        count(&vec![
            tested(true, Some(0)),
            tested(true, Some(4)),
            tested(false, Some(4)),
            tested(true, None),
        ]),
        ItemsCounts {
            visible: 3,
            matched: 2
        }
    );
    let pager = plan(&request(), &served(), None).ok().unwrap();
    assert!(pager.takes(tested(true, Some(1))));
    assert!(!pager.takes(tested(true, Some(0))));
    assert!(!pager.takes(tested(false, Some(1))));
    assert!(!pager.wants_geometry());
}

/// Each position of each level is passed over once, in order.
#[test]
fn a_walk_passes_over_every_position_once() {
    let pager = plan(&request(), &served(), None).ok().unwrap();
    let mut walk = ArtifactsWalk::begin(&pager, vec![2, 0, 1]);
    assert!(walk.wants_clock());
    let mut seen = vec![];
    while let Some(at) = walk.next() {
        seen.push(at);
        assert_eq!(walk.visit(at, None), None);
    }
    assert_eq!(seen, vec![(0, 0), (0, 1), (2, 0)]);
    assert_eq!(CHUNK, 1024);
}

#[test]
fn a_walk_ends_its_page_at_its_ceilings() {
    let mut pager = plan(&request(), &served(), None).ok().unwrap();
    let mut walk = ArtifactsWalk::begin(&pager, vec![9]);
    assert_eq!(walk.visit((0, 0), Some(600)), None);
    assert_eq!(walk.visit((0, 1), Some(600)), Some(Ended::Bytes));
    assert_eq!(walk.scan, Some((0, 0)), "the row is left for the next page");
    let page = pager.finish(&walk, Ended::Bytes);
    assert_eq!(
        page,
        Paged::Rows {
            rows: 1,
            bytes: 600,
            ended_by: PageEndedBy::Bytes,
            then: None
        }
    );
    assert_eq!(pager.scan, Some((0, 0)));

    let mut walk = ArtifactsWalk::begin(&pager, vec![9]);
    assert_eq!(walk.next(), Some((0, 1)));
    assert_eq!(walk.visit((0, 1), Some(10)), None);
    assert_eq!(walk.visit((0, 2), Some(10)), Some(Ended::Filled));

    let mut pager = plan(&request(), &served(), None).ok().unwrap();
    let mut empty = ArtifactsWalk::begin(&pager, vec![9]);
    assert!(!empty.honours_stop(), "no row held and nothing passed over");
    assert_eq!(empty.visit((0, 0), None), None);
    assert!(empty.honours_stop());
    assert_eq!(
        pager.finish(&empty, Ended::Stopped(ResponseEndedBy::Deadline)),
        Paged::Stopped(ResponseEndedBy::Deadline)
    );
    assert_eq!(pager.finish(&empty, Ended::End), Paged::End);
}

fn facts() -> ArtifactFacts {
    ArtifactFacts {
        tessera_id: Some(77),
        level: 3,
        masked_count: 12,
        matched: Some(4),
        key: Some("k".to_string()),
        parents: vec![Some(5), None, Some(2)],
        target: Some(8),
        content: vec!["first".to_string()],
        centroid: Some((1, 2)),
        bbox: None,
        shape: Some(vec![1, 2, 3]),
    }
}

#[test]
fn a_row_holds_what_was_asked_for() {
    let properties = vec![Property::Key, Property::Parents];
    assert!(names(&properties, Property::Key));
    let made = row(&properties, facts());
    assert_eq!(made.tessera_id, 77);
    assert_eq!(made.key, Some("k".to_string()));
    assert_eq!(made.parents, vec![2, 5], "served ones, ascending");
    assert_eq!(made.target, None, "not asked for");
    assert_eq!(made.shape, None);
    // The id, the match count, the key and two parents.
    assert_eq!(row_bytes(&vec![], true, &made), 16);
    assert_eq!(row_bytes(&vec![], false, &made), 8);

    let columns = artifact_columns(&properties, true, &vec![made]);
    let named: Vec<&str> = columns.iter().map(|c| c.name.as_str()).collect();
    assert_eq!(named[0], "tessera_id");
    assert_eq!(*named.last().unwrap(), "matched_count");
    assert!(matches!(&columns[0].data, ArtifactData::Ids(ids) if ids == &vec![77]));
    assert!(matches!(&columns.last().unwrap().data, ArtifactData::Ids(ids) if ids == &vec![4]));
    assert!(columns
        .iter()
        .any(|c| matches!(&c.data, ArtifactData::IdLists(lists) if lists == &vec![vec![2, 5]])));
}

/// A filter's rows are held while neither the publication nor the mask moves.
#[test]
fn a_filter_is_taken_again_when_the_mask_moves() {
    let publication = |overlay: u64| Publication {
        prefix: "p".to_string(),
        segments_version: 4,
        overlay,
    };
    let mask = |overlay_version: u64| MaskIdentity {
        token_id: 1,
        segments_version: 4,
        overlay_version,
        fragment_identity: [5; 32],
        fragment_watermark: 9,
    };
    let mut pager = plan(&request(), &served(), None).unwrap();
    assert!(pager.wants_filter(&publication(1), &mask(1)));
    pager.hold_filter(
        HeldFilter {
            under: publication(1),
            mask: mask(1),
            rows: Bitmap::of(&[3]),
        },
        Some(RegionVerdict::Cover { depth: 8 }),
    );
    assert!(!pager.wants_filter(&publication(1), &mask(1)));
    assert!(pager.wants_filter(&publication(2), &mask(1)));
    assert!(pager.wants_filter(&publication(1), &mask(2)));
    assert_eq!(pager.region, Some(RegionVerdict::Cover { depth: 8 }));
    let unfiltered = ArtifactsRequest {
        filtered: false,
        ..request()
    };
    let pager = plan(&unfiltered, &served(), None).unwrap();
    assert!(!pager.wants_filter(&publication(1), &mask(1)));
}
