use std::collections::{HashMap, HashSet};

use tessera_engine::flush::execute::{
    execute_flush_stages, files_to_digest, flush_rows, FlushContext, FlushTokens, TextColumnSpec,
    WrittenFiles,
};
use tessera_engine::flush::extents::{extent_values, Codes, FilterColumnSpec};
use tessera_engine::flush::failure::FlushFailed;
use tessera_engine::flush::gather::entity_scoped_rows;
use tessera_engine::flush::paths::FlushTarget;
use tessera_engine::flush::plan::{
    plan_flush, BufferedItem, Fill, FlushPlan, FlushSource, NoFlush, ScopedFill,
};
use tessera_engine::flush::promotion::{promote, Dict};
use tessera_engine::flush::recording::{record_rows, RecordColumnSpec, RecordField};
use tessera_engine::flush::scoped::{
    write_scoped_extents, EmptyBase, ScopedColumnSpec, ScopedWritten,
};
use tessera_engine::flush::stages::{FlushLaps, FlushStage};
use tessera_engine::flush::texts::text_layer;
use tessera_engine::scalar::{Declared, Scalar, ScalarType};

const VIEW: &str = "s0";

/// A term of the extension range, numbered by the buffer and not yet by the dictionary.
const NOVEL: u32 = 0x8000_0000;

fn item(terms: &[u32]) -> BufferedItem {
    BufferedItem {
        terms: terms.to_vec(),
        view: VIEW.to_string(),
        join: false,
        x: 0.5f64.to_bits(),
        y: 0.5f64.to_bits(),
        scalars: vec![Scalar::U64(1)],
        scoped: Vec::new(),
        external_id: None,
        wal_pos: None,
    }
}

/// What a plan reads, over `buffered` and the deleted entities.
fn source_with(buffered: Vec<(u64, BufferedItem)>, deleted: &[u64]) -> FlushSource {
    FlushSource {
        rows: buffered
            .into_iter()
            .map(|(entity, mut item)| {
                item.external_id = Some(format!("ext-{entity}").into_bytes());
                (entity, item)
            })
            .collect(),
        fills: vec![],
        scoped_fills: vec![],
        deleted: deleted.iter().copied().collect::<HashSet<u64>>(),
        stepped_down: vec![false],
        live_views: vec![VIEW.to_string()],
        declared: vec![Declared { category: false }],
        scoped_families: vec![Declared { category: false }],
    }
}

fn planned(source: &FlushSource) -> Result<FlushPlan, NoFlush> {
    plan_flush(source, &VIEW.to_string(), false, false)
}

/// A suppression is not a deletion: its row is written, so that a later unsuppress has one.
#[test]
fn a_suppressed_entity_is_flushed_so_a_later_unsuppress_has_something_to_reveal() {
    let source = source_with(vec![(7, item(&[1]))], &[]);
    let plan = planned(&source).expect("a suppressed item still flushes");
    assert_eq!(plan.items.len(), 1);
    assert_eq!(plan.items[0].0, 7);
}

#[test]
fn a_deleted_entity_acquires_no_row() {
    let source = source_with(vec![(7, item(&[1])), (8, item(&[1]))], &[7]);
    let plan = planned(&source).expect("the undeleted item still flushes");
    assert_eq!(plan.items.len(), 1);
    assert_eq!(
        plan.items[0].0, 8,
        "the deleted entity contributes no row"
    );
}

#[test]
fn a_delete_arriving_after_the_plan_does_not_unwrite_the_row() {
    let source = source_with(vec![(7, item(&[1]))], &[]);
    let plan = planned(&source).expect("nothing is denied at the snapshot");
    assert_eq!(plan.items.len(), 1, "the row is planned");
    // A later delete cannot reach this plan: it is a value, taken from one generation.
    let later = source_with(vec![(7, item(&[1]))], &[7]);
    assert!(matches!(
        plan_flush(&later, &VIEW.to_string(), false, false),
        Err(NoFlush::NothingToFlush)
    ));
}

#[test]
fn a_wal_poisoned_node_plans_nothing() {
    let source = source_with(vec![(7, item(&[1]))], &[]);
    assert!(matches!(
        plan_flush(&source, &VIEW.to_string(), true, false),
        Err(NoFlush::WalPoisoned)
    ));
}

#[test]
fn a_diverged_node_plans_nothing_even_though_its_wal_is_healthy() {
    let source = source_with(vec![(7, item(&[1]))], &[]);
    assert!(matches!(
        plan_flush(&source, &VIEW.to_string(), false, true),
        Err(NoFlush::OverlayDiverged)
    ));
}

#[test]
fn another_views_items_are_left_alone() {
    let mut other = item(&[1]);
    other.view = "elsewhere".to_string();
    let source = source_with(vec![(7, other)], &[]);
    assert!(matches!(planned(&source), Err(NoFlush::NothingToFlush)));
}

#[test]
fn a_partition_that_stepped_down_plans_nothing() {
    let mut source = source_with(vec![(7, item(&[1]))], &[]);
    source.stepped_down = vec![false, true];
    assert!(matches!(planned(&source), Err(NoFlush::SteppedDown)));
}

/// The two per-thread sets cover every stage once, and each wall's partition excludes the wall
/// itself.
#[test]
fn the_stage_sets_cover_the_enum_once_and_each_partition_excludes_its_wall() {
    let mut seen = [false; FlushStage::COUNT];
    for stage in FlushStage::EXECUTOR.iter().chain(FlushStage::POOL.iter()) {
        assert!(!seen[*stage as usize], "{} is listed twice", stage.name());
        seen[*stage as usize] = true;
    }
    assert!(seen.iter().all(|s| *s), "a stage is in neither set");
    for stage in FlushStage::PUBLISH {
        assert!(FlushStage::EXECUTOR.contains(&stage));
        assert_ne!(stage, FlushStage::PublishWall);
    }
    for stage in FlushStage::EXECUTE {
        assert!(FlushStage::POOL.contains(&stage));
        assert_ne!(stage, FlushStage::PoolWall);
    }
    // The text sub-stages are on the pool, partition `TextExtents`, and are in `EXECUTE` no more
    // than the wall is.
    for stage in FlushStage::TEXT {
        assert!(FlushStage::POOL.contains(&stage));
        assert!(!FlushStage::EXECUTE.contains(&stage));
    }
    // Everything on the executor that is not the tick's two stages or the wall partitions the
    // wall; everything on the pool that is not the wall or a sub-stage partitions it.
    assert_eq!(FlushStage::PUBLISH.len() + 3, FlushStage::EXECUTOR.len());
    assert_eq!(
        FlushStage::EXECUTE.len() + FlushStage::TEXT.len() + 1,
        FlushStage::POOL.len()
    );
}

#[test]
fn a_lap_adds_to_its_stage_alone() {
    let mut laps = FlushLaps::none();
    laps.lap(FlushStage::Promote, 5);
    laps.lap(FlushStage::Promote, 6);
    assert_eq!(laps.nanos[FlushStage::Promote as usize], 11);
    assert_eq!(laps.nanos.iter().sum::<u64>(), 11);
    assert_eq!(FlushStage::DropSuperseded.name(), "drop_superseded");
}

#[test]
fn the_plan_is_ascending_by_entity_id() {
    let source = source_with(
        vec![(9, item(&[1])), (3, item(&[1])), (7, item(&[1]))],
        &[],
    );
    let plan = planned(&source).ok().unwrap();
    let ids: Vec<u64> = plan.items.iter().map(|(e, _)| *e).collect();
    assert_eq!(ids, vec![3, 7, 9]);
}

/// One item carrying a keyword value, or none at all.
fn keyword_item(value: Option<&str>) -> BufferedItem {
    let mut buffered = item(&[1]);
    buffered.scalars = vec![match value {
        Some(text) => Scalar::Utf8(text.to_string()),
        None => Scalar::Null,
    }];
    buffered
}

fn keyword_spec() -> FilterColumnSpec {
    FilterColumnSpec {
        index: 0,
        name: "doi".to_string(),
        ty: ScalarType::Keyword,
        category: false,
    }
}

/// A sorted, distinct dictionary of the batch's values, one ordinal per present entity, and the
/// presence bitmap that says which entities those slots belong to.
#[test]
fn a_keyword_extent_interns_its_batchs_values_and_stores_ordinals() {
    let source = source_with(
        vec![
            (3, keyword_item(Some("zeta"))),
            (5, keyword_item(Some("alpha"))),
            (7, keyword_item(None)),
            (9, keyword_item(Some("zeta"))),
        ],
        &[],
    );
    let plan = planned(&source).expect("the batch flushes");
    let spec = keyword_spec();
    let rows = entity_scoped_rows(&spec, &plan).expect("the rows gather");
    let column = extent_values(&spec, &rows).ok().expect("the column gathers");

    assert_eq!(
        column.dict_keys,
        Some(vec!["alpha".to_string(), "zeta".to_string()]),
        "sorted and distinct"
    );
    assert_eq!(
        column.presence.iter().collect::<Vec<_>>(),
        vec![3, 5, 9],
        "the entity carrying nothing occupies no slot"
    );
    assert_eq!(
        column.codes,
        Codes::U32(vec![1, 0, 1]),
        "slot k belongs to the k-th set bit: zeta, alpha, zeta"
    );
}

#[test]
fn two_flushes_of_one_column_mint_independent_numberings() {
    let first = planned(&source_with(
        vec![
            (3, keyword_item(Some("alpha"))),
            (5, keyword_item(Some("zeta"))),
        ],
        &[],
    ))
    .expect("the first batch flushes");
    let second = planned(&source_with(
        vec![
            (11, keyword_item(Some("zeta"))),
            (13, keyword_item(Some("omega"))),
        ],
        &[],
    ))
    .expect("the second batch flushes");

    let spec = keyword_spec();
    let a = extent_values(&spec, &entity_scoped_rows(&spec, &first).expect("rows"))
        .ok()
        .expect("gathers");
    let b = extent_values(&spec, &entity_scoped_rows(&spec, &second).expect("rows"))
        .ok()
        .expect("gathers");

    assert_eq!(
        a.dict_keys,
        Some(vec!["alpha".to_string(), "zeta".to_string()])
    );
    assert_eq!(
        b.dict_keys,
        Some(vec!["omega".to_string(), "zeta".to_string()])
    );
    // Ordinal 0 is `alpha` in one layer and `omega` in the other.
    assert_eq!(a.dict_keys.unwrap()[0], "alpha");
    assert_eq!(b.dict_keys.unwrap()[0], "omega");
}

#[test]
fn a_keyword_column_of_no_values_has_an_empty_dictionary() {
    let spec = keyword_spec();
    let null = Scalar::Null;
    let column = extent_values(&spec, &vec![(3, &null)]).ok().unwrap();
    assert_eq!(column.dict_keys, Some(vec![]));
    assert_eq!(column.codes, Codes::U32(vec![]));
    assert!(column.presence.is_empty());
}

/// Slots are found by rank: the k-th present entity's value is the k-th code.
#[test]
fn a_slot_is_found_by_rank() {
    let spec = FilterColumnSpec {
        index: 0,
        name: "year".to_string(),
        ty: ScalarType::I16,
        category: false,
    };
    let (late, early, none) = (Scalar::I16(2001), Scalar::I16(-40), Scalar::Null);
    let column = extent_values(&spec, &vec![(2, &late), (4, &none), (6, &early)])
        .ok()
        .unwrap();
    assert_eq!(column.codes, Codes::I16(vec![2001, -40]));
    let Codes::I16(codes) = &column.codes else {
        panic!("sixteen bits");
    };
    let slot = column.presence.rank(6) as usize - 1;
    assert_eq!(codes[slot], -40);
    assert_eq!(column.dict_keys, None);

    let text = Scalar::Utf8("x".to_string());
    assert_eq!(
        extent_values(&spec, &vec![(2, &text)]).err(),
        Some(FlushFailed::WrongType {
            column: "year".to_string(),
            ty: ScalarType::I16,
            cell: Scalar::Utf8("x".to_string()),
        })
    );
}

#[test]
fn a_category_column_holds_no_absent_code() {
    let spec = FilterColumnSpec {
        index: 0,
        name: "kind".to_string(),
        ty: ScalarType::U8,
        category: true,
    };
    let (absent, one) = (Scalar::U8(0), Scalar::U8(3));
    let column = extent_values(&spec, &vec![(1, &absent), (2, &one)]).ok().unwrap();
    assert_eq!(column.presence.to_vec(), vec![2]);
    assert_eq!(column.codes, Codes::U8(vec![3]));
}

/// A code wider than its column fails the flush, and the widest one that fits is held.
#[test]
fn a_category_code_wider_than_its_column_is_refused() {
    let spec = |ty| FilterColumnSpec {
        index: 0,
        name: "kind".to_string(),
        ty,
        category: true,
    };
    let (wide, widest) = (Scalar::U32(300), Scalar::U32(255));
    assert_eq!(
        extent_values(&spec(ScalarType::U8), &vec![(3, &wide)]).err(),
        Some(FlushFailed::WrongType {
            column: "kind".to_string(),
            ty: ScalarType::U8,
            cell: Scalar::U32(300),
        })
    );
    let column = extent_values(&spec(ScalarType::U8), &vec![(3, &widest)]).ok().unwrap();
    assert_eq!(column.presence.to_vec(), vec![3]);
    assert_eq!(column.codes, Codes::U8(vec![255]));

    let column = extent_values(&spec(ScalarType::U16), &vec![(3, &wide)]).ok().unwrap();
    assert_eq!(column.codes, Codes::U16(vec![300]));
    let wide = Scalar::U32(65_536);
    assert!(extent_values(&spec(ScalarType::U16), &vec![(3, &wide)]).is_err());
    let column = extent_values(&spec(ScalarType::U32), &vec![(3, &wide)]).ok().unwrap();
    assert_eq!(column.codes, Codes::U32(vec![65_536]));
}

/// The terms of a text column, each with the entities whose prose holds it, once.
#[test]
fn a_text_layer_lists_each_terms_entities() {
    let prose: Vec<(u32, Scalar, Vec<&str>)> = vec![
        (3, Scalar::Utf8("Alpha beta".to_string()), vec!["alpha", "beta"]),
        (
            5,
            Scalar::Utf8("beta GAMMA, beta!".to_string()),
            vec!["beta", "gamma", "beta"],
        ),
        (7, Scalar::Null, vec![]),
        (9, Scalar::Utf8(String::new()), vec![]),
        (
            11,
            Scalar::Utf8("gamma alpha alpha delta".to_string()),
            vec!["gamma", "alpha", "alpha", "delta"],
        ),
    ];
    let rows: Vec<(u32, &Scalar)> = prose.iter().map(|(e, v, _)| (*e, v)).collect();
    let tokens: Vec<Vec<String>> = prose
        .iter()
        .map(|(_, _, t)| t.iter().map(|s| s.to_string()).collect())
        .collect();
    let layer = text_layer(&"title".to_string(), &rows, &tokens)
        .ok()
        .expect("the layer gathers")
        .expect("rows carried prose");
    assert_eq!(layer.terms, vec!["alpha", "beta", "delta", "gamma"]);
    assert_eq!(
        layer.postings,
        vec![vec![3, 11], vec![3, 5], vec![11], vec![5, 11]]
    );
    assert_eq!(layer.presence.to_vec(), vec![3, 5, 9, 11]);

    let null = Scalar::Null;
    assert!(text_layer(&"title".to_string(), &vec![(1, &null)], &vec![vec![]])
        .ok()
        .unwrap()
        .is_none());
    let number = Scalar::U8(1);
    assert_eq!(
        text_layer(&"title".to_string(), &vec![(1, &number)], &vec![vec![]]).err(),
        Some(FlushFailed::NotText {
            column: "title".to_string(),
            cell: Scalar::U8(1),
        })
    );
}

/// Each novel descriptor is interned once, whichever rows carry it.
#[test]
fn a_promoted_ordinal_names_its_descriptor() {
    let source = source_with(
        vec![
            (4, item(&[1, NOVEL + 1])),
            (2, item(&[NOVEL, NOVEL + 1])),
        ],
        &[],
    );
    let plan = planned(&source).ok().unwrap();
    let dict = Dict {
        descriptors: vec![b"zero".to_vec(), b"one".to_vec()],
    };
    let mut novel = HashMap::new();
    novel.insert(NOVEL, b"new".to_vec());
    novel.insert(NOVEL + 1, b"zero".to_vec());
    let promotion = promote(&plan, &dict, &novel, 1_000).ok().unwrap();
    assert_eq!(promotion.interned, vec![b"new".to_vec()]);
    assert_eq!(promotion.dict.descriptors.len(), 3);
    assert_eq!(promotion.dict.lookup(&b"new".to_vec()), Some(2));
    assert_eq!(
        promotion.per_entity,
        vec![(2, vec![0, 2]), (4, vec![0, 1])]
    );
    assert_eq!(
        promotion.postings,
        vec![(0, vec![2, 4]), (1, vec![4]), (2, vec![2])]
    );

    assert_eq!(
        promote(&plan, &dict, &HashMap::new(), 1_000).err(),
        Some(FlushFailed::NoDescriptor { term: NOVEL })
    );
    assert_eq!(
        promote(&plan, &dict, &novel, 2).err(),
        Some(FlushFailed::TooManyTerms { next: 2, most: 2 })
    );
    let wide = planned(&source_with(vec![(1 << 33, item(&[1]))], &[])).ok().unwrap();
    assert_eq!(
        promote(&wide, &dict, &novel, 1_000).err(),
        Some(FlushFailed::EntityTooWide { entity: 1 << 33 })
    );
}

/// A fill writes only where no flushed home holds a value, and is settled either way.
#[test]
fn a_fill_writes_only_what_is_not_held() {
    let mut source = source_with(vec![(4, item(&[1]))], &[]);
    let fill = |held: bool| Fill {
        view: VIEW.to_string(),
        scalars: vec![Scalar::U64(9)],
        held: vec![held],
        wal_pos: Some(3),
    };
    source.fills = vec![(12, fill(true)), (11, fill(false))];
    source.scoped_fills = vec![(
        (11, VIEW.to_string()),
        ScopedFill {
            view: VIEW.to_string(),
            scoped: vec![Scalar::U64(5)],
            held: vec![],
            wal_pos: None,
        },
    )];
    let plan = planned(&source).ok().unwrap();
    assert_eq!(plan.consumed_fills, vec![12, 11]);
    assert_eq!(plan.consumed_scoped_fills, vec![(11, VIEW.to_string())]);
    let entities: Vec<u64> = plan.fills.iter().map(|(e, _)| *e).collect();
    assert_eq!(entities, vec![11, 11], "the entity's own fill, then its scoped one");
    assert_eq!(plan.fills[0].1.scalars, vec![Scalar::U64(9)]);
    assert_eq!(plan.fills[1].1.scoped, vec![Scalar::U64(5)]);
    let values: Vec<u64> = plan.value_rows().iter().map(|row| row.0).collect();
    assert_eq!(values[0], 4);
    assert!(values[1..].iter().all(|entity| *entity == 11));
}

#[test]
fn a_record_row_tags_its_fields_by_position() {
    let mut with = item(&[1]);
    with.scalars = vec![Scalar::Null, Scalar::Utf8("a".to_string()), Scalar::U8(2)];
    let plan = planned(&source_with(vec![(6, with)], &[])).ok().unwrap();
    let spec = |index: usize, ty: ScalarType| RecordColumnSpec {
        index,
        name: format!("c{index}"),
        ty,
    };
    let rows = record_rows(
        &plan,
        &vec![
            spec(0, ScalarType::U64),
            spec(1, ScalarType::Utf8),
            spec(2, ScalarType::U8),
        ],
    )
    .ok()
    .unwrap();
    assert_eq!(
        rows,
        vec![(
            6,
            vec![
                RecordField {
                    tag: 1,
                    value: Scalar::Utf8("a".to_string()),
                },
                RecordField {
                    tag: 2,
                    value: Scalar::U8(2),
                },
            ]
        )]
    );
    assert_eq!(
        record_rows(&plan, &vec![spec(70_000, ScalarType::U8)]).err(),
        Some(FlushFailed::NoCell {
            held: 3,
            column: "c70000".to_string(),
            index: 70_000,
        })
    );
}

#[test]
fn a_row_is_narrowed_to_its_render_tail() {
    let mut with = item(&[1]);
    with.scalars = vec![Scalar::U8(1), Scalar::U8(2)];
    with.scoped = vec![Scalar::U16(7)];
    let plan = planned(&source_with(vec![(6, with)], &[])).ok().unwrap();
    let rows = flush_rows(&plan, &vec![1, 0], &vec![Some(0), None]).ok().unwrap();
    assert_eq!(
        rows[0].scalars,
        vec![Scalar::U8(2), Scalar::U8(1), Scalar::U16(7), Scalar::Null]
    );
    assert_eq!(rows[0].external_id, Some(b"ext-6".to_vec()));
    assert_eq!(
        flush_rows(&plan, &vec![4], &vec![]).err(),
        Some(FlushFailed::NoRenderCell { held: 2, index: 4 })
    );
}

fn scoped_spec(text: bool, has_base: bool) -> ScopedColumnSpec {
    ScopedColumnSpec {
        index: 0,
        name: "note".to_string(),
        ty: if text {
            ScalarType::Text
        } else {
            ScalarType::Keyword
        },
        category: false,
        filterable: true,
        has_value_column: true,
        render: false,
        has_base,
        text,
    }
}

#[test]
fn a_scoped_column_is_given_a_base_once() {
    let mut with = item(&[1]);
    with.scoped = vec![Scalar::Utf8("word".to_string())];
    let plan = planned(&source_with(vec![(6, with)], &[])).ok().unwrap();
    let tokens = vec![vec![vec!["word".to_string()]], vec![vec![]]];
    let written = write_scoped_extents(
        &plan,
        &vec![scoped_spec(true, false), scoped_spec(false, true)],
        &tokens,
    )
    .ok()
    .unwrap();
    assert!(written[0].created);
    assert_eq!(written[0].base, Some(EmptyBase::Text));
    let ScopedWritten::Text(Some(layer)) = &written[0].written else {
        panic!("prose");
    };
    assert_eq!(layer.terms, vec!["word"]);
    assert!(!written[1].created);
    assert_eq!(written[1].base, None);
    let ScopedWritten::Values(column) = &written[1].written else {
        panic!("values");
    };
    assert_eq!(column.dict_keys, Some(vec!["word".to_string()]));
}

#[test]
fn a_flush_writes_every_column_of_its_plan() {
    let mut with = item(&[NOVEL]);
    with.scalars = vec![Scalar::Utf8("Red fox".to_string())];
    let plan = planned(&source_with(vec![(6, with)], &[])).ok().unwrap();
    let mut novel = HashMap::new();
    novel.insert(NOVEL, b"label".to_vec());
    let ctx = FlushContext {
        target: FlushTarget {
            partition: "part".to_string(),
            view_rel: "views/s0".to_string(),
            seg_id: "flush-1".to_string(),
        },
        render_indices: vec![],
        scoped_render: vec![],
        filter_schema: vec![keyword_spec()],
        record_schema: vec![RecordColumnSpec {
            index: 0,
            name: "doi".to_string(),
            ty: ScalarType::Keyword,
        }],
        scoped_schema: vec![],
        text_schema: vec![TextColumnSpec {
            index: 0,
            name: "doi".to_string(),
        }],
        dict: Dict {
            descriptors: vec![],
        },
        novel_descriptors: novel,
        max_distinct_terms: 100,
    };
    let tokens = FlushTokens {
        declared: vec![vec![vec!["red".to_string(), "fox".to_string()]]],
        scoped: vec![],
    };
    let unit = execute_flush_stages(&plan, &ctx, &tokens).ok().unwrap();
    assert_eq!(unit.consumed, vec![6]);
    assert_eq!(unit.rows.len(), 1);
    assert_eq!(unit.promoted_from, Some(0));
    assert_eq!(unit.promotion.interned, vec![b"label".to_vec()]);
    assert_eq!(
        unit.columns[0].dict_keys,
        Some(vec!["Red fox".to_string()])
    );
    assert_eq!(unit.records.as_ref().unwrap()[0].0, 6);
    let layer = unit.texts[0].as_ref().unwrap();
    assert_eq!(layer.terms, vec!["fox", "red"]);

    let files = files_to_digest(
        &ctx.target,
        &ctx.text_schema,
        &unit,
        &WrittenFiles {
            columns: vec![vec!["c".to_string()]],
            scoped: vec![],
            bases: vec![],
            scoped_texts: vec![],
        },
    );
    assert!(files.contains(&"c".to_string()));
    assert!(files.contains(&ctx.target.tier_path()));
    assert!(files.contains(&ctx.target.dict_path()));
}
