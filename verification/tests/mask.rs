use std::sync::Arc;

use croaring::Bitmap;
use tessera_engine::gate::{
    labels, passes, resolve, term_met, GateGroup, GateView, LabelTerms, NO_SUCH_VIEW,
};
use tessera_engine::generation::{Generation, GenerationParts, Overlay, ViewSpace};
use tessera_engine::projection::{
    PostingsUnread, ProjectionInputs, ProjectionRoute, ProjectionRoutes, RowProjection, TermImage,
};
use tessera_engine::row_space::{Extent, RowSpace};

/// A bijection of four entities onto four rows, and one extent.
fn dense() -> RowSpace {
    RowSpace {
        base: vec![Some(2), Some(0), Some(3), Some(1)],
        base_rows: 4,
        dense: true,
        extents: vec![Extent {
            seg_id: "a".to_string(),
            row_base: 4,
            entities: vec![9, 6],
        }],
    }
}

/// A base in which entity 1 has no row.
fn sparse() -> RowSpace {
    RowSpace {
        base: vec![Some(1), None, Some(0)],
        base_rows: 2,
        dense: false,
        extents: vec![],
    }
}

#[test]
fn an_entity_has_one_row() {
    let space = dense();
    assert_eq!(space.row_of(2), Some(3));
    assert_eq!(space.row_of(6), Some(5));
    assert_eq!(space.row_of(7), None);
    assert_eq!(sparse().row_of(1), None);
    let fragment = Bitmap::of(&[0, 3, 6, 40]);
    assert_eq!(space.project_base(&fragment).to_vec(), vec![1, 2]);
    assert_eq!(space.project_extents_from(&fragment, 0).to_vec(), vec![5]);
    assert_eq!(space.project_extents_from(&fragment, 1).to_vec(), Vec::<u32>::new());
    assert_eq!(space.project(&fragment).to_vec(), vec![1, 2, 5]);
}

#[test]
fn the_complement_is_the_base_image() {
    let fragment = Bitmap::of(&[0, 3, 6]);
    let space = dense();
    assert_eq!(
        space.project_complement_base(&fragment).unwrap().to_vec(),
        space.project_base(&fragment).to_vec()
    );
    assert!(sparse().project_complement_base(&fragment).is_none());
    assert!(space.whole_domain(&Bitmap::of(&[0, 1, 2, 3])));
    assert!(!space.whole_domain(&Bitmap::of(&[0, 1, 2])));
    assert!(!sparse().whole_domain(&Bitmap::of(&[0, 1, 2])));
}

fn inputs(entities: &[u32], chosen: Option<ProjectionRoute>) -> ProjectionInputs {
    let fragment = Bitmap::of(entities);
    // One term's image, of entity 0; the rest of the fragment is the residual.
    let mut residual = fragment.clone();
    residual.remove(0);
    ProjectionInputs {
        fragment,
        satisfied: vec![4],
        images: Some(vec![
            TermImage {
                term: 4,
                rows: Bitmap::of(&[2]),
            },
            TermImage {
                term: 5,
                rows: Bitmap::of(&[0]),
            },
        ]),
        residual: Some(residual),
        chosen,
        force: None,
    }
}

#[test]
fn every_route_gives_the_same_rows() {
    let space = dense();
    let walked = RowProjection::walk(&Bitmap::of(&[0, 3, 9]), &space);
    assert_eq!(walked.rows.to_vec(), vec![1, 2, 4]);
    for route in ProjectionRoute::ALL {
        let mut asked = inputs(&[0, 3, 9], Some(ProjectionRoute::Walk));
        asked.force = Some(route);
        let (projection, _) = RowProjection::new(&asked, &space).ok().unwrap();
        assert_eq!(
            projection.rows.to_vec(),
            walked.rows.to_vec(),
            "{}",
            route.name()
        );
        assert_eq!(projection.cardinality(), 3);
    }
    let (whole, route) =
        RowProjection::new(&inputs(&[0, 1, 2, 3], None), &space).ok().unwrap();
    assert_eq!(route, ProjectionRoute::WholeDomain);
    assert_eq!(whole.rows.to_vec(), vec![0, 1, 2, 3]);
    assert_eq!(
        RowProjection::new(&inputs(&[0, 3], None), &space).err(),
        Some(PostingsUnread)
    );
}

#[test]
fn a_route_is_counted_as_it_is_taken() {
    let space = dense();
    let mut routes = ProjectionRoutes::default();
    routes.build(&inputs(&[0, 3], Some(ProjectionRoute::Split)), &space);
    assert_eq!(routes.counts()[ProjectionRoute::Split.index()], 1);
    // Unread postings fall back to the walk, which is the same rows.
    let fallback = routes.build(&inputs(&[0, 3], None), &space);
    assert_eq!(fallback.rows.to_vec(), vec![1, 2]);
    routes.force(Some(ProjectionRoute::Complement));
    assert_eq!(routes.forced(), Some(ProjectionRoute::Complement));
    let mut asked = inputs(&[0, 3], Some(ProjectionRoute::Walk));
    asked.force = routes.forced();
    routes.build(&asked, &space);
    assert_eq!(routes.counts()[ProjectionRoute::Complement.index()], 1);

    let priced = inputs(&[0, 3], None).price(&space).expect("a price is owed");
    assert_eq!((priced.held, priced.bound), (2, 4));
    assert!(priced.complement_valid && priced.unionable);
}

#[test]
fn extending_is_walking() {
    let fragment = Bitmap::of(&[0, 6, 20]);
    let before = RowProjection::walk(&fragment, &dense());
    let mut grown = dense();
    grown.extents.push(Extent {
        seg_id: "b".to_string(),
        row_base: 6,
        entities: vec![20],
    });
    assert!(before.extends_to(&grown));
    let extended = before.extend(&fragment, &grown);
    assert_eq!(
        extended.rows.to_vec(),
        RowProjection::walk(&fragment, &grown).rows.to_vec()
    );
    grown.extents[0].seg_id = "c".to_string();
    assert!(!before.extends_to(&grown), "another segment stands there");
    assert!(before.can_rebase_extents(&grown));
    assert_eq!(
        before.rebase_extents(&fragment, &grown).rows.to_vec(),
        vec![2, 5, 6]
    );
    assert!(extended.contains(6) && !extended.contains(3));
    assert_eq!(extended.range_cardinality(3..7), 2);
}

/// Rows alone cover no extents and no base.
#[test]
fn rows_alone_are_carried_onto_no_extent() {
    let alone = RowProjection::from_rows(Bitmap::of(&[8]));
    assert_eq!(alone.bitmap().to_vec(), vec![8]);
    let mut space = RowSpace {
        base: vec![],
        base_rows: 0,
        dense: false,
        extents: vec![],
    };
    let walked = RowProjection::walk(&Bitmap::new(), &space);
    assert!(alone.extends_to(&space) && alone.can_rebase_extents(&space));
    assert!(walked.extends_to(&space) && walked.can_rebase_extents(&space));
    space.extents.push(Extent {
        seg_id: "a".to_string(),
        row_base: 0,
        entities: vec![4],
    });
    assert!(!alone.extends_to(&space) && !alone.can_rebase_extents(&space));
    assert!(walked.extends_to(&space) && walked.can_rebase_extents(&space));
    assert!(!alone.can_rebase_extents(&dense()));
}

fn views() -> Arc<Vec<ViewSpace>> {
    Arc::new(vec![
        ViewSpace {
            view: "d".to_string(),
            space: dense(),
        },
        ViewSpace {
            view: "s".to_string(),
            space: sparse(),
        },
    ])
}

fn parts(deleted: &[u32], suppressed: &[u32], buffer: &[u32]) -> GenerationParts {
    GenerationParts {
        prefix: "p".to_string(),
        segments_version: 1,
        watermark: 0,
        overlay_version: 1,
        views: views(),
        overlay: Arc::new(Overlay {
            deleted: Bitmap::of(deleted),
            suppressed: Bitmap::of(suppressed),
        }),
        buffer: Arc::new(Bitmap::of(buffer)),
    }
}

fn assert_fresh(generation: &Generation, parts: GenerationParts) {
    let fresh = Generation::new(parts);
    for view in ["d", "s", "nowhere"] {
        assert_eq!(
            generation.denied(view).map(|rows| rows.to_vec()),
            fresh.denied(view).map(|rows| rows.to_vec())
        );
        assert_eq!(generation.buffered_rows(view), fresh.buffered_rows(view));
    }
}

#[test]
fn a_generation_derives_what_a_fresh_one_would() {
    let first = Generation::new(parts(&[0], &[2], &[3, 6, 50]));
    assert_eq!(first.denied("d").unwrap().to_vec(), vec![2, 3]);
    assert_eq!(first.denied("s").unwrap().to_vec(), vec![0, 1]);
    assert!(first.denied("nowhere").is_none());
    assert_eq!(first.buffered_rows("d").unwrap(), &[3, 6]);
    assert_eq!(first.buffered_rows("s").unwrap(), &[] as &[u32]);

    // The parts are handed on by their handles, or replaced.
    let keeping = |mut next: GenerationParts, views: bool, overlay: bool, buffer: bool| {
        if views {
            next.views = Arc::clone(&first.parts.views);
        }
        if overlay {
            next.overlay = Arc::clone(&first.parts.overlay);
        }
        if buffer {
            next.buffer = Arc::clone(&first.parts.buffer);
        }
        next
    };
    for kept in 0..8 {
        let (views, overlay, buffer) = (kept & 1 > 0, kept & 2 > 0, kept & 4 > 0);
        let next = || keeping(parts(&[1], &[], &[6]), views, overlay, buffer);
        let changed = first.with(next());
        assert_fresh(&changed, next());
        assert_eq!(Arc::ptr_eq(&changed.denied, &first.denied), views && overlay);
        assert_eq!(Arc::ptr_eq(&changed.buffered_rows, &first.buffered_rows), views && buffer);
    }
    for views in [true, false] {
        let next = || keeping(parts(&[0], &[2], &[3, 6, 50, 1]), views, true, false);
        assert_fresh(&first.with_buffer(next(), &vec![1]), next());
        let next = || keeping(parts(&[0, 1], &[2], &[3, 6]), views, false, false);
        assert_fresh(&first.with_denies(next(), &vec![1]), next());
    }
}

/// Over other row spaces what is buffered is derived again, whatever was said to be inserted.
#[test]
fn a_buffer_over_other_row_spaces_is_derived_again() {
    let first = Generation::new(parts(&[0], &[2], &[3]));
    let next = || {
        let mut next = parts(&[0], &[2], &[0, 1, 6]);
        next.views = Arc::new(vec![ViewSpace { view: "d".to_string(), space: sparse() }]);
        next.overlay = Arc::clone(&first.parts.overlay);
        next
    };
    assert_fresh(&first.with_buffer(next(), &vec![]), next());
}

fn group(name: &str, label: Option<&str>, keys: &[&str]) -> GateGroup {
    GateGroup {
        name: name.to_string(),
        visibility: label.map(|l| l.to_string()),
        keys: keys.iter().map(|k| k.to_string()).collect(),
    }
}

fn view(id: &str, label: Option<&str>) -> GateView {
    GateView {
        id: id.to_string(),
        visibility: label.map(|l| l.to_string()),
    }
}

fn answer(label: &str, terms: Option<Vec<Option<u32>>>) -> LabelTerms {
    LabelTerms {
        label: label.to_string(),
        terms,
    }
}

#[test]
fn a_view_is_within_its_groups_gate() {
    let groups = vec![
        group("open", None, &["a"]),
        group("shut", Some("secret"), &["b"]),
    ];
    let views = vec![
        view("open:a", None),
        view("shut:b", None),
        view("c", Some("secret")),
        view("d", Some("staff")),
    ];
    assert_eq!(labels(&groups, &views), vec!["secret", "staff"]);
    let answers = vec![
        answer("secret", Some(vec![Some(4)])),
        answer("staff", Some(vec![Some(1), Some(2)])),
    ];
    let visible = resolve(&groups, &views, &answers, &vec![2]);
    assert!(visible.contains_view("open:a"));
    assert!(!visible.contains_view("shut:b"), "its group is not visible");
    assert!(!visible.contains_view("c"));
    assert!(visible.contains_view("d"));
    assert!(visible.contains_group("open") && !visible.contains_group("shut"));
    assert_eq!(visible.len(), 2);
    assert!(!visible.is_empty());
    assert!(!visible.contains_view(NO_SUCH_VIEW));
}

#[test]
fn an_unread_label_is_unsatisfied() {
    assert!(!term_met(&answer("l", None), &vec![1]));
    assert!(!term_met(&answer("l", Some(vec![None])), &vec![1]));
    assert!(term_met(&answer("l", Some(vec![None, Some(1)])), &vec![1]));
    assert!(passes(&None, &vec![], &vec![]));
    assert!(!passes(&Some("l".to_string()), &vec![], &vec![1]));
}
