use croaring::Bitmap;
use tessera_engine::flush::recording::RecordField;
use tessera_engine::records::columns::{
    width, CategoryCell, FieldMismatch, PageField, PagePlan, PageValues, Run, RunColumn,
    SystemField, SystemValues, Vocabulary,
};
use tessera_engine::records::cursor::{CursorKey, CursorRefused, ItemsCursor};
use tessera_engine::records::items::{plan_items, Fields, ItemsRefused, ItemsRequest, Served};
use tessera_engine::records::page::{
    entities_of, into_columns, record_values, rendered_values, ColumnData, PageReader, RecordRow,
    RenderedColumn,
};
use tessera_engine::records::plan::{
    resolve_field, split_pin, DeclaredField, FieldPlan, Home, PlanRefused, ScopedAnswer,
    ScopedField,
};
use tessera_engine::records::refused::{page_rows_of, refuse_shape, RecordsRefused};
use tessera_engine::records::serve::{
    finish_page, items_counts, ItemsCounts, ItemsLimits, Paged, Response,
};
use tessera_engine::records::stretch::{Walk, Walked};
use tessera_engine::records::walk::{Position, SegmentRows, Taken};
use tessera_engine::records::{PageEndedBy, RecordsOrder, ResponseEndedBy};
use tessera_engine::scalar::{Scalar, ScalarType};

fn taken(seg: usize, local: u32, id: u64, entity: u32, matched: bool) -> Taken {
    Taken {
        seg,
        local,
        tessera_id: id,
        entity,
        matched,
    }
}

fn plan() -> PagePlan {
    PagePlan {
        named: vec![
            PageField {
                name: "year".to_string(),
                ty: ScalarType::U16,
                vocabulary: None,
            },
            PageField {
                name: "kind".to_string(),
                ty: ScalarType::U8,
                vocabulary: Some(Vocabulary {
                    bindings: vec![(1, "paper".to_string()), (2, "book".to_string())],
                }),
            },
        ],
        system: vec![SystemField::ExternalId],
    }
}

fn run(years: &[Option<u16>], kinds: &[u32]) -> Run {
    Run {
        named: vec![
            RunColumn::Scalar(years.iter().map(|y| y.map(Scalar::U16)).collect()),
            RunColumn::Category(
                kinds
                    .iter()
                    .map(|&k| {
                        if k == 0 {
                            CategoryCell::Absent
                        } else {
                            CategoryCell::Code(k)
                        }
                    })
                    .collect(),
            ),
        ],
        system: vec![SystemValues::ExternalId(
            years.iter().map(|_| Some(b"id".to_vec())).collect(),
        )],
    }
}

#[test]
fn a_page_takes_rows_until_its_ceiling() {
    let plan = plan();
    let rows = [
        taken(0, 0, 100, 1, true),
        taken(0, 1, 101, 2, false),
        taken(0, 2, 102, 3, true),
    ];
    let mut page = PageValues::new(&plan, true);
    let whole = page.take(
        &run(&[Some(1999), None, Some(2001)], &[2, 0, 2]),
        &rows,
        &plan,
        1 << 20,
    );
    assert_eq!(whole, Ok(true));
    assert_eq!(page.tessera_ids, vec![100, 101, 102]);
    assert_eq!(page.matched, Some(vec![true, false, true]));
    let spent = page.bytes;

    let columns = into_columns(page, &plan).ok().unwrap();
    let names: Vec<&str> = columns.iter().map(|c| c.name.as_str()).collect();
    assert_eq!(names[0], "tessera_id");
    assert!(names.contains(&"year") && names.contains(&"kind"));
    let kind = columns.iter().find(|c| c.name == "kind").unwrap();
    let ColumnData::Category { dictionary, keys } = &kind.data else {
        panic!("a category");
    };
    assert_eq!(dictionary, &vec!["book".to_string()]);
    assert_eq!(keys, &vec![Some(0), None, Some(0)]);

    // The same rows under a ceiling one byte short: the last row is left for the next page.
    let mut page = PageValues::new(&plan, true);
    let whole = page.take(
        &run(&[Some(1999), None, Some(2001)], &[2, 0, 2]),
        &rows,
        &plan,
        spent - 1,
    );
    assert_eq!(whole, Ok(false));
    assert_eq!(page.tessera_ids, vec![100, 101]);

    // A single row larger than the ceiling is taken alone.
    let mut page = PageValues::new(&plan, true);
    assert_eq!(
        page.take(
            &run(&[Some(1999), None, Some(2001)], &[2, 0, 2]),
            &rows,
            &plan,
            0
        ),
        Ok(false)
    );
    assert_eq!(page.tessera_ids, vec![100]);
}

#[test]
fn a_value_of_another_type_is_refused() {
    let plan = plan();
    let mut page = PageValues::new(&plan, false);
    let mut broken = run(&[Some(1)], &[0]);
    broken.named[1] = RunColumn::Category(vec![CategoryCell::Foreign]);
    assert_eq!(
        page.take(&broken, &[taken(0, 0, 1, 1, true)], &plan, 1 << 20),
        Err(FieldMismatch {
            name: "kind".to_string(),
            ty: ScalarType::U8
        })
    );
    assert!(page.tessera_ids.is_empty());

    // The rows before the one refused are on the page.
    let mut broken = run(&[Some(1), Some(2), Some(3)], &[2, 0, 0]);
    broken.named[1] = RunColumn::Category(vec![
        CategoryCell::Code(2),
        CategoryCell::Absent,
        CategoryCell::Foreign,
    ]);
    let rows = [taken(0, 0, 1, 1, true), taken(0, 1, 2, 2, true), taken(0, 2, 3, 3, true)];
    let mut page = PageValues::new(&plan, false);
    assert!(page.take(&broken, &rows, &plan, 1 << 20).is_err());
    let held: Vec<u64> = rows[..2].iter().map(|row| row.tessera_id).collect();
    assert_eq!(page.tessera_ids, held);

    let mut broken = run(&[Some(1)], &[0]);
    broken.named[0] = RunColumn::Scalar(vec![Some(Scalar::Bool(true))]);
    let mut page = PageValues::new(&plan, false);
    assert_eq!(
        page.take(&broken, &[taken(0, 0, 1, 1, true)], &plan, 1 << 20),
        Ok(true)
    );
    assert_eq!(
        into_columns(page, &plan).err(),
        Some(FieldMismatch {
            name: "year".to_string(),
            ty: ScalarType::U16
        })
    );
    assert_eq!(width(ScalarType::F64), 8);
    assert_eq!(width(ScalarType::Bool), 1);
}

#[test]
fn a_reader_asks_for_more_rows_each_time() {
    let plan = plan();
    let mut reader = PageReader::begin(&plan, false);
    assert_eq!(reader.wanted(1000), Some((0, 256)));
    let rows: Vec<Taken> = (0..300u32)
        .map(|i| taken(0, i, i as u64, i, true))
        .collect();
    let years = vec![Some(1u16); 256];
    let kinds = vec![0u32; 256];
    assert_eq!(
        reader.given(&run(&years, &kinds), &rows, &plan, 1 << 20),
        Ok(true)
    );
    let (start, end) = reader.wanted(300).unwrap();
    assert_eq!((start, end), (256, 300));
    let years = vec![Some(1u16); 44];
    let kinds = vec![0u32; 44];
    assert_eq!(
        reader.given(&run(&years, &kinds), &rows, &plan, 1 << 20),
        Ok(true)
    );
    assert_eq!(reader.wanted(300), None);
    assert_eq!(reader.page.tessera_ids.len(), 300);
}

#[test]
fn values_are_read_from_their_home() {
    let rows = vec![taken(0, 1, 1, 40, true), taken(1, 0, 2, 30, true)];
    let columns = vec![
        RenderedColumn {
            cells: Some(vec![Scalar::U8(5), Scalar::U8(6)]),
            presence: Bitmap::of(&[1]),
        },
        RenderedColumn {
            cells: None,
            presence: Bitmap::new(),
        },
    ];
    assert_eq!(
        rendered_values(&columns, false, &rows),
        vec![Some(Scalar::U8(6)), None]
    );
    assert_eq!(entities_of(&rows).to_vec(), vec![30, 40]);
    let records = vec![
        RecordRow {
            entity: 30,
            fields: vec![RecordField {
                tag: 7,
                value: Scalar::Utf8("a".to_string()),
            }],
        },
        RecordRow {
            entity: 40,
            fields: vec![],
        },
    ];
    assert_eq!(
        record_values(&rows, &records, 7),
        vec![None, Some(Scalar::Utf8("a".to_string()))]
    );
    let twice: Vec<Taken> = vec![rows[1], rows[0], rows[1]];
    assert_eq!(
        record_values(&twice, &records, 7),
        vec![None, None, Some(Scalar::Utf8("a".to_string()))],
        "of rows that share an entity the last has its values"
    );
}

fn declared(name: &str, rendered: bool, value_column: bool) -> DeclaredField {
    DeclaredField {
        name: name.to_string(),
        ty: ScalarType::U16,
        vocabulary: None,
        rendered,
        value_column,
    }
}

#[test]
fn a_field_is_read_from_the_nearest_home() {
    let fields = vec![
        declared("a", true, true),
        declared("b", false, true),
        declared("c", false, false),
    ];
    let families: Vec<ScopedField> = vec![];
    let home = |name: &str| {
        resolve_field(&fields, &families, name, &ScopedAnswer::Unknown)
            .ok()
            .unwrap()
            .home
    };
    assert!(matches!(home("a"), Home::Rendered));
    assert!(matches!(home("b"), Home::ValueColumn(_)));
    assert!(matches!(home("c"), Home::Record(2)));
    assert_eq!(split_pin("x@k"), ("x".to_string(), true));
    assert_eq!(split_pin("x"), ("x".to_string(), false));

    let refusal = |name: &str, answer: &ScopedAnswer| {
        match resolve_field(&fields, &families, name, answer) {
            Ok(_) => panic!("{name} is refused"),
            Err(why) => why,
        }
    };
    assert!(matches!(
        refusal("d", &ScopedAnswer::Unknown),
        PlanRefused::Refused(RecordsRefused::UnknownField(name)) if name == "d"
    ));
    assert!(matches!(
        refusal("d", &ScopedAnswer::Unpinned { group: "g".to_string() }),
        PlanRefused::Refused(RecordsRefused::Unpinned { .. })
    ));
    assert!(matches!(
        refusal("d@k", &ScopedAnswer::UnknownPin { group: "g".to_string(), pin: "k".to_string() }),
        PlanRefused::UnknownView { .. }
    ));
    assert!(matches!(
        refusal("a@k", &ScopedAnswer::PinOnUnscoped { column: "a".to_string() }),
        PlanRefused::Refused(RecordsRefused::PinOnUnscoped(_))
    ));

    let families = vec![ScopedField {
        name: "s".to_string(),
        ty: ScalarType::Text,
        vocabulary: None,
    }];
    let text = resolve_field(
        &fields,
        &families,
        "s",
        &ScopedAnswer::Resolved {
            column: "s@k".to_string(),
            text: true,
        },
    );
    assert!(matches!(
        text,
        Err(PlanRefused::Refused(RecordsRefused::ScopedText(_)))
    ));
}

#[test]
fn a_plan_reads_the_record_store_in_its_own_order() {
    let fields = vec![declared("a", true, false), declared("c", false, false)];
    let plan = |names: &[&str], system: &[&str]| {
        FieldPlan::resolve(
            &fields,
            &vec![],
            &names.iter().map(|n| n.to_string()).collect(),
            &names.iter().map(|_| ScopedAnswer::Unknown).collect(),
            &system.iter().map(|n| n.to_string()).collect(),
        )
    };
    assert_eq!(
        plan(&["a"], &["labels"]).ok().unwrap().preferred_order(),
        RecordsOrder::ByMap
    );
    assert_eq!(
        plan(&["a", "c"], &[]).ok().unwrap().preferred_order(),
        RecordsOrder::Stored
    );
    assert!(matches!(
        plan(&["a", "a"], &[]),
        Err(PlanRefused::Refused(RecordsRefused::RepeatedField(_)))
    ));
    assert!(matches!(
        plan(&[], &["colour"]),
        Err(PlanRefused::Refused(RecordsRefused::UnknownSystemField(_)))
    ));
    assert_eq!(SystemField::parse("position"), Some(SystemField::Position));
    assert_eq!(SystemField::parse("external_id"), Some(SystemField::ExternalId));
}

#[test]
fn a_requests_arguments_are_looked_at_in_order() {
    assert_eq!(
        refuse_shape(Some(0), Some(0), true, true),
        Err(RecordsRefused::ZeroPageRows)
    );
    assert_eq!(
        refuse_shape(Some(1), Some(0), true, true),
        Err(RecordsRefused::ZeroPages)
    );
    assert_eq!(
        refuse_shape(None, None, true, true),
        Err(RecordsRefused::CountWithCursor)
    );
    assert_eq!(refuse_shape(None, None, true, false), Ok(()));
    assert_eq!(page_rows_of(Some(9), 5), 5);
    assert_eq!(page_rows_of(Some(3), 5), 3);
    assert_eq!(page_rows_of(None, 0), 1);
    assert_eq!(
        RecordsRefused::UnknownField("x".to_string()).message(),
        "field 'x' is not declared; name a field /v1/meta publishes"
    );
    assert_eq!(
        RecordsRefused::Unpinned {
            field: "f".to_string(),
            group: "g".to_string()
        }
        .message(),
        "field 'f' is declared per view of group 'g', and this view decides none of them; pin one as 'f@<key>'"
    );
}

fn limits() -> ItemsLimits {
    ItemsLimits {
        max_page_rows: 100,
        max_page_bytes: 1000,
        response_bytes: 2500,
        response_time: 60_000,
    }
}

fn request() -> ItemsRequest {
    ItemsRequest {
        view: "s0".to_string(),
        fields: vec!["a".to_string()],
        system_fields: vec![],
        keep_unmatched: false,
        count: false,
        order: None,
        page_rows: Some(10),
        pages: None,
        cursor: None,
        idset: None,
        limits: limits(),
    }
}

fn served() -> Served {
    Served {
        idset: 7,
        visible: true,
        incarnation: Some(2),
        auth_data_hash: [3; 32],
    }
}

fn fields() -> Fields {
    Fields {
        declared: vec![declared("a", true, false)],
        families: vec![],
        scoped: vec![ScopedAnswer::Unknown],
    }
}

fn refused(req: &ItemsRequest, served: &Served, filter: Option<&str>) -> ItemsRefused {
    let key = CursorKey::of("00");
    match plan_items(&key, req, served, &fields(), &filter.map(|f| f.to_string())) {
        Ok(_) => panic!("the read is refused"),
        Err(why) => why,
    }
}

#[test]
fn a_read_is_refused_for_its_first_reason() {
    let mut req = request();
    req.page_rows = Some(0);
    req.idset = Some(1);
    assert!(matches!(
        refused(&req, &served(), None),
        ItemsRefused::Shape(RecordsRefused::ZeroPageRows)
    ));
    req.page_rows = None;
    assert!(matches!(
        refused(&req, &served(), None),
        ItemsRefused::StaleIdSet
    ));
    req.idset = Some(7);
    let mut hidden = served();
    hidden.visible = false;
    assert!(matches!(
        refused(&req, &hidden, None),
        ItemsRefused::UnknownView(view) if view == "s0"
    ));
    let mut gone = served();
    gone.incarnation = None;
    assert!(matches!(
        refused(&req, &gone, None),
        ItemsRefused::UnknownView(_)
    ));
    req.cursor = Some("nonsense".to_string());
    assert!(matches!(
        refused(&req, &served(), None),
        ItemsRefused::Cursor(CursorRefused)
    ));
    req.cursor = None;
    assert!(matches!(
        refused(&req, &served(), Some("no such field")),
        ItemsRefused::Filter(text) if text == "no such field"
    ));
    req.fields = vec!["b".to_string()];
    assert!(matches!(
        refused(&req, &served(), Some("no such field")),
        ItemsRefused::Plan(PlanRefused::Refused(RecordsRefused::UnknownField(_)))
    ));
}

#[test]
fn a_read_resumes_where_it_stopped() {
    let key = CursorKey::of("00");
    let (planned, mut walk) = plan_items(&key, &request(), &served(), &fields(), &None)
        .ok()
        .unwrap();
    assert_eq!(planned.page_rows, 10);
    assert_eq!(planned.order, RecordsOrder::ByMap);
    assert_eq!(walk.position.scan, None);

    walk.position.scan = Some((6, 60));
    let token = planned.cursor_at(&key, &walk);
    let payload = key.open(&planned.binding, &token).unwrap();
    assert_eq!(
        ItemsCursor::decode(&payload).unwrap(),
        ItemsCursor {
            idset: 7,
            position: walk.position,
            stretch: walk.target,
        }
    );

    let mut next = request();
    next.cursor = Some(token.clone());
    let (_, resumed) = plan_items(&key, &next, &served(), &fields(), &None).ok().unwrap();
    assert_eq!(resumed.position, walk.position);
    assert_eq!(resumed.origin, Some((6, 60)));

    // Under another order, another idset or another view the cursor does not resume.
    next.order = Some(RecordsOrder::Stored);
    assert!(matches!(
        plan_items(&key, &next, &served(), &fields(), &None),
        Err(ItemsRefused::Cursor(CursorRefused))
    ));
    next.order = None;
    let mut renumbered = served();
    renumbered.idset = 8;
    assert!(matches!(
        plan_items(&key, &next, &renumbered, &fields(), &None),
        Err(ItemsRefused::StaleIdSet)
    ));
    next.view = "s1".to_string();
    assert!(matches!(
        plan_items(&key, &next, &served(), &fields(), &None),
        Err(ItemsRefused::Cursor(CursorRefused))
    ));
}

#[test]
fn counts_are_of_the_visible_rows() {
    let mask = Bitmap::of(&[1, 2, 3, 50]);
    assert_eq!(
        items_counts(&mask, 10, &None),
        ItemsCounts {
            visible: 4,
            matched: 4
        }
    );
    assert_eq!(
        items_counts(&mask, 10, &Some(Bitmap::of(&[2, 7, 50]))),
        ItemsCounts {
            visible: 4,
            matched: 1
        }
    );
}

#[test]
fn a_page_that_keeps_fewer_rows_resumes_after_the_last_kept() {
    let segments = vec![SegmentRows {
        cells: vec![1, 2, 3],
        ids: vec![10, 20, 30],
        entities: vec![5, 6, 7],
        base: 0,
    }];
    let rows = vec![
        taken(0, 0, 10, 5, true),
        taken(0, 1, 20, 6, true),
        taken(0, 2, 30, 7, true),
    ];
    let mut walk = Walk::new(false, 1, 1 << 20, Position::start(RecordsOrder::ByMap));
    let past = Position {
        order: RecordsOrder::ByMap,
        scan: Some((9, 9)),
    };
    let page = finish_page(&mut walk, &segments, &rows, Walked::Filled, past, 2, 500);
    assert_eq!(
        page,
        Paged::Rows {
            rows: 2,
            bytes: 500,
            ended_by: PageEndedBy::Bytes,
            then: None
        }
    );
    assert_eq!(walk.position.scan, Some((2, 20)));
    let page = finish_page(&mut walk, &segments, &rows, Walked::End, past, 3, 500);
    assert_eq!(
        page,
        Paged::Rows {
            rows: 3,
            bytes: 500,
            ended_by: PageEndedBy::End,
            then: None
        }
    );
    let none: Vec<Taken> = vec![];
    assert_eq!(
        finish_page(
            &mut walk,
            &segments,
            &none,
            Walked::Stopped(ResponseEndedBy::BudgetTime),
            past,
            0,
            0
        ),
        Paged::Stopped(ResponseEndedBy::BudgetTime)
    );
}

/// An artifacts head is sent once too, and names no order.
#[test]
fn an_artifacts_head_is_sent_once() {
    let mut response = Response::begin();
    let counts = ItemsCounts { visible: 4, matched: 2 };
    response.counted(counts, None);
    let head = response.artifacts_head(10, None).expect("the head comes first");
    assert_eq!((head.page_rows, head.counts, head.region), (10, Some(counts), None));
    assert!(response.artifacts_head(10, None).is_none());
    assert!(response.head(RecordsOrder::Stored, 10, None).is_none());
}

#[test]
fn a_response_keeps_to_its_budget() {
    let mut response = Response::begin();
    assert_eq!(response.before_page(&limits(), Some(9), false, false), None);
    assert!(response.wants_counts(true));
    response.counted(
        ItemsCounts {
            visible: 4,
            matched: 2,
        },
        None,
    );
    let head = response
        .head(RecordsOrder::Stored, 10, None)
        .expect("the head comes first");
    assert_eq!(head.counts.unwrap().matched, 2);
    assert!(response.head(RecordsOrder::Stored, 10, None).is_none());

    let step = response.paged(Paged::Rows {
        rows: 10,
        bytes: 900,
        ended_by: PageEndedBy::Rows,
        then: None,
    });
    assert_eq!(step.page, Some((PageEndedBy::Rows, 900)));
    assert_eq!(step.ended, None);
    assert!(step.resumes());
    assert_eq!(response.before_page(&limits(), Some(9), false, false), None);
    assert_eq!(
        response.before_page(&limits(), Some(1), false, false),
        Some(ResponseEndedBy::Pages)
    );
    assert_eq!(
        response.before_page(&limits(), None, true, false),
        Some(ResponseEndedBy::BudgetTime)
    );
    assert_eq!(
        response.before_page(&limits(), None, false, true),
        Some(ResponseEndedBy::Deadline)
    );
    response.paged(Paged::Rows {
        rows: 10,
        bytes: 900,
        ended_by: PageEndedBy::Rows,
        then: None,
    });
    assert_eq!(
        response.before_page(&limits(), None, false, false),
        Some(ResponseEndedBy::BudgetBytes),
        "another page could pass the response's bytes"
    );
    let step = response.paged(Paged::End);
    assert_eq!(step.ended, Some(ResponseEndedBy::End));
    let trailer = response.trailer(ResponseEndedBy::End, None);
    assert_eq!((trailer.pages, trailer.rows), (2, 20));
    assert_eq!(trailer.next, None);
    assert_eq!(ResponseEndedBy::BudgetBytes.as_str(), "budget_bytes");
    assert_eq!(PageEndedBy::Rows.as_str(), "rows");
    assert_eq!(RecordsOrder::ByMap.as_str(), "map");

    let narrow = ItemsLimits {
        response_bytes: 999,
        ..limits()
    };
    let response = Response::begin();
    assert_eq!(
        response.before_page(&narrow, None, true, false),
        Some(ResponseEndedBy::BudgetBytes),
        "the first page could pass the response's bytes too"
    );
    let exact = ItemsLimits {
        response_bytes: 1000,
        ..limits()
    };
    assert_eq!(response.before_page(&exact, None, true, false), None);
}
