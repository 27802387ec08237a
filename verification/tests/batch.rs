use arrow::array::{
    Array, BinaryArray, BooleanArray, DictionaryArray, Float32Array, Float64Array, Int16Array,
    Int32Array, Int64Array, Int8Array, ListArray, StringArray, TimestampMicrosecondArray,
    UInt16Array, UInt32Array, UInt64Array, UInt8Array,
};
use arrow::datatypes::{DataType, Int32Type, TimeUnit};
use arrow::record_batch::RecordBatch;
use tessera_engine::gated_level::{HierarchyKind, RegisteredLayer, Registration};
use tessera_engine::records::artifact_rows::{row, ArtifactFacts};
use tessera_engine::records::artifacts::{plan_artifacts, ArtifactsPager, ArtifactsRequest};
use tessera_engine::records::batch::into_batch;
use tessera_engine::records::columns::{
    CategoryCell, FieldMismatch, PageField, PagePlan, PageValues, Run, RunColumn, SystemField,
    SystemValues, Vocabulary,
};
use tessera_engine::records::cursor::CursorKey;
use tessera_engine::records::items::Served;
use tessera_engine::records::page::{RecordRow, RenderedColumn};
use tessera_engine::records::plan::{Home, Named};
use tessera_engine::records::reading::{read_run, FieldSource};
use tessera_engine::records::serve::ItemsLimits;
use tessera_engine::records::walk::Taken;
use tessera_engine::flush::recording::RecordField;
use tessera_engine::scalar::{Scalar, ScalarType};

fn taken(id: u64, matched: bool) -> Taken {
    Taken {
        seg: 0,
        local: id as u32,
        tessera_id: id,
        entity: id as u32,
        matched,
    }
}

/// A page of one scalar field over two rows, the second without a value, as its column.
fn scalar_column(ty: ScalarType, value: Scalar) -> RecordBatch {
    let plan = PagePlan {
        named: vec![PageField {
            name: "f".to_string(),
            ty,
            vocabulary: None,
        }],
        system: vec![],
    };
    let mut page = PageValues::new(&plan, false);
    let run = Run {
        named: vec![RunColumn::Scalar(vec![Some(value), None])],
        system: vec![],
    };
    assert_eq!(
        page.take(&run, &[taken(1, true), taken(2, true)], &plan, 1 << 20),
        Ok(true)
    );
    let records = into_batch(page, &plan).ok().expect("the page assembles").records;
    assert_eq!((records.num_columns(), records.num_rows()), (2, 2));
    assert!(records.schema().field(1).is_nullable());
    assert!(!records.schema().field(0).is_nullable());
    assert!(records.column(1).is_null(1) && records.column(1).is_valid(0));
    records
}

fn column<T: Array + Clone + 'static>(records: &RecordBatch, at: usize) -> T {
    records
        .column(at)
        .as_any()
        .downcast_ref::<T>()
        .expect("the column's array")
        .clone()
}

#[test]
fn a_scalar_column_is_an_array_of_its_type() {
    let records = scalar_column(ScalarType::Bool, Scalar::Bool(true));
    assert!(column::<BooleanArray>(&records, 1).value(0));
    let records = scalar_column(ScalarType::U8, Scalar::U8(200));
    assert_eq!(column::<UInt8Array>(&records, 1).value(0), 200);
    let records = scalar_column(ScalarType::U16, Scalar::U16(60_000));
    assert_eq!(column::<UInt16Array>(&records, 1).value(0), 60_000);
    let records = scalar_column(ScalarType::U32, Scalar::U32(u32::MAX));
    assert_eq!(column::<UInt32Array>(&records, 1).value(0), u32::MAX);
    let records = scalar_column(ScalarType::U64, Scalar::U64(u64::MAX));
    assert_eq!(column::<UInt64Array>(&records, 1).value(0), u64::MAX);
    let records = scalar_column(ScalarType::I8, Scalar::I8(-3));
    assert_eq!(column::<Int8Array>(&records, 1).value(0), -3);
    let records = scalar_column(ScalarType::I16, Scalar::I16(-300));
    assert_eq!(column::<Int16Array>(&records, 1).value(0), -300);
    let records = scalar_column(ScalarType::I32, Scalar::I32(i32::MIN));
    assert_eq!(column::<Int32Array>(&records, 1).value(0), i32::MIN);
    let records = scalar_column(ScalarType::I64, Scalar::I64(i64::MIN));
    assert_eq!(column::<Int64Array>(&records, 1).value(0), i64::MIN);
    let records = scalar_column(ScalarType::F32, Scalar::F32(1.5f32.to_bits()));
    assert_eq!(column::<Float32Array>(&records, 1).value(0), 1.5);
    let records = scalar_column(ScalarType::F64, Scalar::F64((-0.25f64).to_bits()));
    assert_eq!(column::<Float64Array>(&records, 1).value(0), -0.25);
    let records = scalar_column(ScalarType::TimestampUs, Scalar::TimestampUs(7));
    assert_eq!(column::<TimestampMicrosecondArray>(&records, 1).value(0), 7);
    assert_eq!(
        records.column(1).data_type(),
        &DataType::Timestamp(TimeUnit::Microsecond, Some("UTC".into()))
    );
    for ty in [ScalarType::Utf8, ScalarType::Keyword, ScalarType::Text] {
        let records = scalar_column(ty, Scalar::Utf8("été".to_string()));
        assert_eq!(column::<StringArray>(&records, 1).value(0), "été");
    }
}

#[test]
fn a_page_is_one_batch() {
    let plan = PagePlan {
        named: vec![PageField {
            name: "kind".to_string(),
            ty: ScalarType::U8,
            vocabulary: Some(Vocabulary {
                bindings: vec![(1, "paper".to_string()), (2, "book".to_string())],
            }),
        }],
        system: vec![
            SystemField::Position,
            SystemField::ExternalId,
            SystemField::Labels,
        ],
    };
    let mut page = PageValues::new(&plan, true);
    let run = Run {
        named: vec![RunColumn::Category(vec![
            CategoryCell::Code(2),
            CategoryCell::Absent,
            CategoryCell::Code(2),
        ])],
        system: vec![
            SystemValues::Position(vec![
                (1.0f64.to_bits(), 2.0f64.to_bits()),
                (3.0f64.to_bits(), 4.0f64.to_bits()),
                (5.0f64.to_bits(), 6.0f64.to_bits()),
            ]),
            SystemValues::ExternalId(vec![Some(b"a".to_vec()), None, Some(vec![])]),
            SystemValues::Labels(vec![
                vec!["x".to_string(), "y".to_string()],
                vec![],
                vec!["z".to_string()],
            ]),
        ],
    };
    let rows = [taken(10, true), taken(11, false), taken(12, true)];
    assert_eq!(page.take(&run, &rows, &plan, 1 << 20), Ok(true));
    let records = into_batch(page, &plan).ok().unwrap().records;
    let names: Vec<String> = records
        .schema()
        .fields()
        .iter()
        .map(|f| f.name().clone())
        .collect();
    assert_eq!(
        names,
        vec![
            "tessera_id",
            "kind",
            "tessera:x",
            "tessera:y",
            "tessera:external_id",
            "tessera:labels",
            "tessera:matched"
        ]
    );
    assert_eq!(column::<UInt64Array>(&records, 0).values(), &[10, 11, 12]);
    let kind = column::<DictionaryArray<Int32Type>>(&records, 1);
    assert_eq!(kind.keys().value(0), 0);
    assert!(kind.is_null(1));
    let texts = kind.values().as_any().downcast_ref::<StringArray>().unwrap();
    assert_eq!((texts.len(), texts.value(0)), (1, "book"));
    assert_eq!(column::<Float64Array>(&records, 2).values(), &[1.0, 3.0, 5.0]);
    assert_eq!(column::<Float64Array>(&records, 3).values(), &[2.0, 4.0, 6.0]);
    let ids = column::<BinaryArray>(&records, 4);
    assert_eq!(ids.value(0), b"a");
    assert!(ids.is_null(1) && ids.is_valid(2));
    let labels = column::<ListArray>(&records, 5);
    let first = labels.value(0);
    let first = first.as_any().downcast_ref::<StringArray>().unwrap();
    assert_eq!((first.value(0), first.value(1)), ("x", "y"));
    assert_eq!(labels.value(1).len(), 0);
    assert_eq!(labels.value(2).len(), 1);
    assert!(!column::<BooleanArray>(&records, 6).value(1));
}

#[test]
fn a_page_with_a_value_of_another_type_makes_no_batch() {
    let plan = PagePlan {
        named: vec![PageField {
            name: "f".to_string(),
            ty: ScalarType::U8,
            vocabulary: None,
        }],
        system: vec![],
    };
    let mut page = PageValues::new(&plan, false);
    let run = Run {
        named: vec![RunColumn::Scalar(vec![Some(Scalar::U16(1))])],
        system: vec![],
    };
    assert_eq!(page.take(&run, &[taken(1, true)], &plan, 1 << 20), Ok(true));
    assert_eq!(
        into_batch(page, &plan).err(),
        Some(FieldMismatch {
            name: "f".to_string(),
            ty: ScalarType::U8
        })
    );
}

fn pager(fields: &[&str]) -> ArtifactsPager {
    let request = ArtifactsRequest {
        view: "s0".to_string(),
        layer: "clusters".to_string(),
        level: None,
        parent: None,
        q: None,
        filtered: true,
        keep_unmatched: false,
        count: false,
        fields: fields.iter().map(|f| f.to_string()).collect(),
        page_rows: None,
        pages: None,
        cursor: None,
        idset: None,
        limits: ItemsLimits {
            max_page_rows: 10,
            max_page_bytes: 1000,
            response_bytes: 1000,
            response_time: 1,
        },
    };
    let served = Served {
        idset: 1,
        visible: true,
        incarnation: Some(0),
        auth_data_hash: [0; 32],
    };
    let registered = Some(Registration {
        layer: RegisteredLayer {
            name: "clusters".to_string(),
            entity: 1,
            kind: HierarchyKind::Flat,
            views: vec!["s0".to_string()],
            levels: 1,
        },
        deleted: false,
        suppressed: false,
    });
    plan_artifacts(
        &CursorKey::of("00"),
        &request,
        &served,
        &vec!["clusters".to_string()],
        &registered,
        &None,
    )
    .ok()
    .expect("the read is planned")
}

#[test]
fn an_artifacts_page_is_one_batch() {
    let pager = pager(&[
        "key", "level", "parents", "target", "masked_count", "content", "centroid", "box", "shape",
    ]);
    let facts = |id: u64, key: Option<&str>| ArtifactFacts {
        tessera_id: Some(id),
        level: 3,
        masked_count: 12,
        matched: Some(4),
        key: key.map(|k| k.to_string()),
        parents: vec![Some(5), None, Some(2)],
        target: key.map(|_| 8),
        content: vec!["first".to_string(), "second".to_string()],
        centroid: Some((0.5f64.to_bits(), 1.5f64.to_bits())),
        bbox: None,
        shape: key.map(|_| vec![1, 2, 3]),
    };
    let rows = vec![
        row(&pager.properties, facts(77, Some("k"))),
        row(&pager.properties, facts(78, None)),
    ];
    let records = pager.batch(&rows).records;
    let names: Vec<String> = records
        .schema()
        .fields()
        .iter()
        .map(|f| f.name().clone())
        .collect();
    assert_eq!(
        names,
        vec![
            "tessera_id",
            "key",
            "level",
            "parents",
            "target",
            "masked_count",
            "content",
            "centroid_x",
            "centroid_y",
            "box_x_min",
            "box_y_min",
            "box_x_max",
            "box_y_max",
            "shape",
            "matched_count"
        ]
    );
    assert_eq!(column::<UInt64Array>(&records, 0).values(), &[77, 78]);
    assert_eq!(column::<StringArray>(&records, 1).value(0), "k");
    assert!(records.column(1).is_null(1));
    assert_eq!(column::<UInt32Array>(&records, 2).values(), &[3, 3]);
    let parents = column::<ListArray>(&records, 3).value(0);
    let parents = parents.as_any().downcast_ref::<UInt64Array>().unwrap();
    assert_eq!(parents.values(), &[2, 5]);
    assert_eq!(column::<UInt64Array>(&records, 4).value(0), 8);
    assert_eq!(column::<ListArray>(&records, 6).value(1).len(), 2);
    assert_eq!(column::<Float64Array>(&records, 8).value(0), 1.5);
    assert!(records.column(9).is_null(0));
    assert_eq!(column::<BinaryArray>(&records, 13).value(0), &[1, 2, 3]);
    assert_eq!(column::<UInt64Array>(&records, 14).values(), &[4, 4]);
}

#[test]
fn a_run_reads_each_field_from_its_home() {
    let named = |name: &str, home: Home| Named {
        name: name.to_string(),
        ty: ScalarType::U8,
        vocabulary: None,
        home,
    };
    let rows = vec![taken(1, true), taken(2, true)];
    let run = read_run(
        &vec![
            named("r", Home::Rendered),
            named("v", Home::ValueColumn("v".to_string())),
            named("s", Home::Record(4)),
        ],
        &vec![
            FieldSource::Rendered(vec![RenderedColumn {
                cells: Some(vec![Scalar::U8(0), Scalar::U8(7), Scalar::U8(8)]),
                presence: croaring::Bitmap::of(&[2]),
            }]),
            FieldSource::ValueColumn(vec![Some(Scalar::U8(1)), None]),
            FieldSource::Record,
        ],
        &vec![RecordRow {
            entity: 2,
            fields: vec![RecordField {
                tag: 4,
                value: Scalar::U8(9),
            }],
        }],
        &rows,
    );
    assert_eq!(run[0], vec![None, Some(Scalar::U8(8))]);
    assert_eq!(run[1], vec![Some(Scalar::U8(1)), None]);
    assert_eq!(run[2], vec![None, Some(Scalar::U8(9))]);
}
