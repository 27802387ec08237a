//! A page's batch: its columns as arrays.

use vstd::prelude::*;

use crate::records::arrays::{
    addressable, assemble, binary_array, bool_array, byte_cells, category_array, cells,
    cells_bytes, cells_items,
    column_type, columns_in, f64_array, id_list_array, id_list_cells, key_cells, scalar_array,
    scalar_cells, stands, text_array, text_list_array, text_list_cells, u32_array, u64_array,
    Batch, BatchColumn, Cell, Column, ColumnModel, ColumnType, Native,
};
use crate::records::artifact_rows::{
    artifact_columns, bytes_of, property_column, ArtifactColumn, ArtifactData, Property, Row,
};
use crate::records::artifact_rows;
use crate::records::artifacts::ArtifactsPager;
use crate::records::columns::{FieldMismatch, PagePlan, PageValues};
use crate::order::reversed;
use crate::records::page::{into_columns, lays_out, misfit, sendable, ColumnData, OutColumn};
use crate::scalar::{Scalar, ScalarType};

verus! {

/// Values none of which is missing, as cells.
pub open spec fn whole_cells<T: Native>(values: Seq<T>) -> Seq<Cell> {
    values.map_values(|value: T| value.cell())
}

/// Values as optional ones.
fn present<T: Native + Copy>(values: &Vec<T>) -> (out: Vec<Option<T>>)
    ensures
        cells(out@) == whole_cells(values@),
{
    let mut out: Vec<Option<T>> = Vec::new();
    let mut i: usize = 0;
    while i < values.len()
        invariant
            i <= values@.len(),
            out@.len() == i,
            forall|k: int| 0 <= k < i ==> (#[trigger] out@[k]) == Some(values@[k]),
        decreases values@.len() - i,
    {
        out.push(Some(values[i]));
        i += 1;
    }
    assert(cells(out@) =~= whole_cells(values@));
    out
}

/// The cells a page's column is sent as.
pub open spec fn page_cells(data: ColumnData) -> Seq<Cell> {
    match data {
        ColumnData::Ids(ids) => whole_cells(ids@),
        ColumnData::Scalars { values, .. } => scalar_cells(values@),
        ColumnData::Category { dictionary, keys } => key_cells(dictionary@, keys@),
        ColumnData::Coordinates(bits) => whole_cells(bits@),
        ColumnData::ExternalIds(ids) => byte_cells(ids@),
        ColumnData::Labels(labels) => text_list_cells(labels@),
        ColumnData::Matched(matched) => whole_cells(matched@),
    }
}

/// The type a page's column is sent as.
pub open spec fn page_type(data: ColumnData) -> ColumnType {
    match data {
        ColumnData::Ids(_) => ColumnType::U64,
        ColumnData::Scalars { ty, .. } => column_type(ty),
        ColumnData::Category { .. } => ColumnType::Category,
        ColumnData::Coordinates(_) => ColumnType::F64,
        ColumnData::ExternalIds(_) => ColumnType::Binary,
        ColumnData::Labels(_) => ColumnType::TextList,
        ColumnData::Matched(_) => ColumnType::Bool,
    }
}

/// What a page's column is sent as.
pub open spec fn page_model(column: OutColumn) -> ColumnModel {
    ColumnModel {
        name: column.name@,
        nullable: column.nullable,
        ty: page_type(column.data),
        cells: page_cells(column.data),
    }
}

/// A page's column as an array.
fn page_column(column: OutColumn, rows: Ghost<nat>) -> (out: BatchColumn)
    requires
        column.holds(rows@),
        column.sends(),
    ensures
        out.model() == page_model(column),
        stands(out.model(), rows@),
{
    let array: Column = match column.data {
        ColumnData::Ids(ids) => u64_array(present(&ids)),
        ColumnData::Scalars { ty, values } => scalar_array(ty, &values),
        ColumnData::Category { dictionary, keys } => category_array(dictionary, keys).unwrap(),
        ColumnData::Coordinates(bits) => f64_array(present(&bits)),
        ColumnData::ExternalIds(ids) => binary_array(ids),
        ColumnData::Labels(labels) => text_list_array(labels),
        ColumnData::Matched(matched) => bool_array(present(&matched)),
    };
    BatchColumn { name: column.name, nullable: column.nullable, column: array }
}

/// A page as one batch: `tessera_id`, the named fields, the system fields, then whether the row
/// matched. A page is refused only where a value is not of its field's type: its columns are of one
/// length, and none that must not be is missing a value.
pub fn into_batch(page: PageValues, plan: &PagePlan) -> (out: Result<Batch, FieldMismatch>)
    requires
        page.wf(plan.named@, plan.system@),
        sendable(page),
    ensures
        out is Err <==> misfit(page.named@, page.named@.len() as int) is Some,
        out matches Err(why) ==> ({
            let k = misfit(page.named@, page.named@.len() as int)->0;
            why.name@ == plan.named@[k].name@ && why.ty == plan.named@[k].ty
        }),
        out matches Ok(batch) ==> exists|columns: Seq<OutColumn>|
            #[trigger] lays_out(columns, page, *plan) && columns_in(batch) == columns.map_values(
                |column: OutColumn| page_model(column),
            ),
{
    let ghost rows = page.tessera_ids@.len();
    let columns: Vec<OutColumn> = match into_columns(page, plan) {
        Ok(columns) => columns,
        Err(why) => return Err(why),
    };
    let ghost laid = columns@;
    let mut arrays: Vec<BatchColumn> = Vec::new();
    let mut left = reversed(columns);
    while left.len() > 0
        invariant
            arrays@.len() + left@.len() == laid.len(),
            forall|j: int| 0 <= j < left@.len() ==> (#[trigger] left@[j]) == laid[laid.len() - 1 - j],
            forall|j: int| 0 <= j < laid.len() ==> (#[trigger] laid[j]).holds(rows),
            forall|j: int| 0 <= j < laid.len() ==> (#[trigger] laid[j]).sends(),
            forall|j: int|
                0 <= j < arrays@.len() ==> (#[trigger] arrays@[j]).model() == page_model(laid[j])
                    && stands(arrays@[j].model(), rows),
        decreases left@.len(),
    {
        let ghost at = arrays@.len() as int;
        assert(left@[left@.len() - 1] == laid[at]);
        if let Some(column) = left.pop() {
            assert(laid[at].holds(rows) && laid[at].sends());
            arrays.push(page_column(column, Ghost(rows)));
        }
    }
    proof {
        assert(arrays@[0].model().cells.len() == rows);
        assert(arrays@.map_values(|column: BatchColumn| column.model()) =~= laid.map_values(
            |column: OutColumn| page_model(column),
        ));
    }
    Ok(assemble(arrays).unwrap())
}

/// The cells an artifact page's column is sent as.
pub open spec fn artifact_cells(data: ArtifactData) -> Seq<Cell> {
    match data {
        ArtifactData::Ids(ids) => whole_cells(ids@),
        ArtifactData::OptionalIds(ids) => cells(ids@),
        ArtifactData::Levels(levels) => whole_cells(levels@),
        ArtifactData::IdLists(lists) => id_list_cells(lists@),
        ArtifactData::Texts(texts) => cells(texts@),
        ArtifactData::TextLists(lists) => text_list_cells(lists@),
        ArtifactData::Coordinates(bits) => cells(bits@),
        ArtifactData::Binaries(values) => byte_cells(values@),
    }
}

/// The type an artifact page's column is sent as.
pub open spec fn artifact_type(data: ArtifactData) -> ColumnType {
    match data {
        ArtifactData::Ids(_) => ColumnType::U64,
        ArtifactData::OptionalIds(_) => ColumnType::U64,
        ArtifactData::Levels(_) => ColumnType::U32,
        ArtifactData::IdLists(_) => ColumnType::IdList,
        ArtifactData::Texts(_) => ColumnType::Utf8,
        ArtifactData::TextLists(_) => ColumnType::TextList,
        ArtifactData::Coordinates(_) => ColumnType::F64,
        ArtifactData::Binaries(_) => ColumnType::Binary,
    }
}

/// What an artifact page's column is sent as.
pub open spec fn artifact_model(column: ArtifactColumn) -> ColumnModel {
    ColumnModel {
        name: column.name@,
        nullable: column.nullable,
        ty: artifact_type(column.data),
        cells: artifact_cells(column.data),
    }
}

/// An artifact page's column as an array.
fn artifact_column(column: ArtifactColumn) -> (out: BatchColumn)
    requires
        addressable(artifact_cells(column.data)),
    ensures
        out.model() == artifact_model(column),
{
    let array: Column = match column.data {
        ArtifactData::Ids(ids) => u64_array(present(&ids)),
        ArtifactData::OptionalIds(ids) => u64_array(ids),
        ArtifactData::Levels(levels) => u32_array(present(&levels)),
        ArtifactData::IdLists(lists) => id_list_array(lists),
        ArtifactData::Texts(texts) => text_array(texts),
        ArtifactData::TextLists(lists) => text_list_array(lists),
        ArtifactData::Coordinates(bits) => f64_array(bits),
        ArtifactData::Binaries(values) => binary_array(values),
    };
    BatchColumn { name: column.name, nullable: column.nullable, column: array }
}

/// The cells a property of some rows is sent as, where it makes offsets.
pub open spec fn property_cells(property: Property, rows: Seq<Row>) -> Seq<Cell> {
    match property {
        Property::Key => cells(rows.map_values(|row: Row| row.key)),
        Property::Parents => rows.map_values(|row: Row| Cell::Ids(row.parents@)),
        Property::Content => rows.map_values(
            |row: Row| Cell::Texts(row.content@.map_values(|text: String| text@)),
        ),
        Property::Shape => rows.map_values(
            |row: Row|
                match row.shape {
                    Some(bytes) => Cell::Bytes(bytes@),
                    None => Cell::Absent,
                },
        ),
        _ => Seq::empty(),
    }
}

/// Cells that make no offsets are addressed by none.
proof fn lemma_no_offsets(cells: Seq<Cell>)
    requires
        forall|i: int|
            0 <= i < cells.len() ==> (#[trigger] cells[i]) is Number || cells[i] is Absent,
    ensures
        addressable(cells),
        cells_bytes(cells) == 0,
        cells_items(cells) == 0,
    decreases cells.len(),
{
    if cells.len() > 0 {
        lemma_no_offsets(cells.drop_last());
        assert(cells.last() is Number || cells.last() is Absent);
    }
}

/// A property's column has a cell for each row, none missing where the column is not nullable, and
/// its array can be built where the property's cells can be addressed.
proof fn lemma_property(column: ArtifactColumn, property: Property, part: nat, rows: Seq<Row>)
    requires
        property_column(column, property, part, rows),
        addressable(property_cells(property, rows)),
    ensures
        stands(artifact_model(column), rows.len()),
        addressable(artifact_cells(column.data)),
{
    let held = artifact_cells(column.data);
    match property {
        Property::Key => {
            assert(held =~= property_cells(property, rows));
        },
        Property::Parents => {
            assert(held =~= property_cells(property, rows));
        },
        Property::Content => {
            assert(held =~= property_cells(property, rows));
        },
        Property::Shape => {
            assert forall|i: int| 0 <= i < rows.len() implies held[i] == property_cells(
                property,
                rows,
            )[i] by {
                let sent = column.data->Binaries_0@[i];
                assert(bytes_of(sent) == bytes_of(rows[i].shape));
            }
            assert(held =~= property_cells(property, rows));
        },
        _ => {
            lemma_no_offsets(held);
        },
    }
}

impl ArtifactsPager {
    /// Whether the offsets of each of an artifact page's arrays can address its values.
    pub open spec fn sendable(&self, rows: Seq<Row>) -> bool {
        forall|k: int|
            0 <= k < self.properties@.len() ==> addressable(
                property_cells(#[trigger] self.properties@[k], rows),
            )
    }

    /// A page's rows as one batch: `tessera_id`, the properties in the order named, then
    /// `matched_count` under a filter.
    pub fn batch(&self, rows: &Vec<Row>) -> (batch: Batch)
        requires
            self.sendable(rows@),
        ensures
            exists|columns: Seq<ArtifactColumn>| #[trigger]
                artifact_rows::makes_columns(columns, self.properties@, self.filtered, rows@)
                    && columns_in(batch) == columns.map_values(
                    |column: ArtifactColumn| artifact_model(column),
                ),
    {
        let columns: Vec<ArtifactColumn> = artifact_columns(&self.properties, self.filtered, rows);
        let ghost laid = columns@;
        proof {
            assert forall|j: int| 0 <= j < laid.len() implies stands(
                artifact_model(#[trigger] laid[j]),
                rows@.len(),
            ) && addressable(artifact_cells(laid[j].data)) by {
                if 1 <= j <= artifact_rows::columns_of(self.properties@) {
                    assert(artifact_rows::of_a_property(laid[j], self.properties@, rows@));
                    let (k, part) = choose|k: int, part: nat|
                        0 <= k < self.properties@.len() && part < self.properties@[k].columns()
                            && #[trigger] property_column(
                            laid[j],
                            self.properties@[k],
                            part,
                            rows@,
                        );
                    assert(addressable(property_cells(self.properties@[k], rows@)));
                    lemma_property(laid[j], self.properties@[k], part, rows@);
                } else {
                    lemma_no_offsets(artifact_cells(laid[j].data));
                }
            }
        }
        let mut arrays: Vec<BatchColumn> = Vec::new();
        let mut left = reversed(columns);
        while left.len() > 0
            invariant
                arrays@.len() + left@.len() == laid.len(),
                forall|j: int|
                    0 <= j < left@.len() ==> (#[trigger] left@[j]) == laid[laid.len() - 1 - j],
                forall|j: int|
                    0 <= j < laid.len() ==> stands(
                        artifact_model(#[trigger] laid[j]),
                        rows@.len(),
                    ) && addressable(artifact_cells(laid[j].data)),
                forall|j: int|
                    0 <= j < arrays@.len() ==> (#[trigger] arrays@[j]).model() == artifact_model(
                        laid[j],
                    ),
            decreases left@.len(),
        {
            let ghost at = arrays@.len() as int;
            assert(left@[left@.len() - 1] == laid[at]);
            if let Some(column) = left.pop() {
                assert(addressable(artifact_cells(laid[at].data)));
                arrays.push(artifact_column(column));
            }
        }
        proof {
            assert forall|j: int| 0 <= j < arrays@.len() implies stands(
                (#[trigger] arrays@[j]).model(),
                arrays@[0].model().cells.len(),
            ) by {
                assert(stands(artifact_model(laid[0]), rows@.len()));
                assert(stands(artifact_model(laid[j]), rows@.len()));
            }
            assert(arrays@.map_values(|column: BatchColumn| column.model()) =~= laid.map_values(
                |column: ArtifactColumn| artifact_model(column),
            ));
        }
        assemble(arrays).unwrap()
    }
}

/// What an artifacts column is sent as has the column's name, and at each row the column's own value
/// there: a number, a text, bytes or a list, and nothing where there is none.
pub proof fn law_an_artifacts_column_is_sent_as_its_values(column: ArtifactColumn, i: int)
    requires
        0 <= i,
    ensures
        ({
            let model = artifact_model(column);
            let data = column.data;
            &&& model.name == column.name@
            &&& model.nullable == column.nullable
            &&& data is Ids && i < data->Ids_0@.len() ==> model.ty is U64 && model.cells.len()
                == data->Ids_0@.len() && model.cells[i] == Cell::Number(data->Ids_0@[i] as int)
            &&& data is Levels && i < data->Levels_0@.len() ==> model.ty is U32
                && model.cells.len() == data->Levels_0@.len() && model.cells[i] == Cell::Number(
                data->Levels_0@[i] as int,
            )
            &&& data is OptionalIds && i < data->OptionalIds_0@.len() ==> model.ty is U64
                && model.cells[i] == if data->OptionalIds_0@[i] is Some {
                Cell::Number(data->OptionalIds_0@[i]->0 as int)
            } else {
                Cell::Absent
            }
            &&& data is Coordinates && i < data->Coordinates_0@.len() ==> model.ty is F64
                && model.cells[i] == if data->Coordinates_0@[i] is Some {
                Cell::Number(data->Coordinates_0@[i]->0 as int)
            } else {
                Cell::Absent
            }
            &&& data is Texts && i < data->Texts_0@.len() ==> model.ty is Utf8 && model.cells[i]
                == if data->Texts_0@[i] is Some {
                Cell::Text(data->Texts_0@[i]->0@)
            } else {
                Cell::Absent
            }
            &&& data is Binaries && i < data->Binaries_0@.len() ==> model.ty is Binary
                && model.cells[i] == if data->Binaries_0@[i] is Some {
                Cell::Bytes(data->Binaries_0@[i]->0@)
            } else {
                Cell::Absent
            }
            &&& data is IdLists && i < data->IdLists_0@.len() ==> model.ty is IdList
                && model.cells[i] == Cell::Ids(data->IdLists_0@[i]@)
            &&& data is TextLists && i < data->TextLists_0@.len() ==> model.ty is TextList
                && model.cells[i] is Texts && model.cells[i]->Texts_0.len()
                == data->TextLists_0@[i]@.len() && forall|l: int|
                0 <= l < data->TextLists_0@[i]@.len() ==> (#[trigger] model.cells[i]->Texts_0[l])
                    == data->TextLists_0@[i]@[l]@
        }),
{
}

/// What a page's column is sent as has the column's name, and at each row the column's own value
/// there: a stored value as itself, a category as its key and the key's text, a coordinate, an
/// external id, a row's labels, or whether it matched.
pub proof fn law_a_pages_column_is_sent_as_its_values(column: OutColumn, i: int)
    requires
        0 <= i,
    ensures
        ({
            let model = page_model(column);
            let data = column.data;
            &&& model.name == column.name@
            &&& model.nullable == column.nullable
            &&& data is Ids && i < data->Ids_0@.len() ==> model.ty is U64 && model.cells.len()
                == data->Ids_0@.len() && model.cells[i] == Cell::Number(data->Ids_0@[i] as int)
            &&& data is Coordinates && i < data->Coordinates_0@.len() ==> model.ty is F64
                && model.cells[i] == Cell::Number(data->Coordinates_0@[i] as int)
            &&& data is Matched && i < data->Matched_0@.len() ==> model.ty is Bool
                && model.cells[i] == Cell::Flag(data->Matched_0@[i])
            &&& data is ExternalIds && i < data->ExternalIds_0@.len() ==> model.ty is Binary
                && model.cells[i] == if data->ExternalIds_0@[i] is Some {
                Cell::Bytes(data->ExternalIds_0@[i]->0@)
            } else {
                Cell::Absent
            }
            &&& data is Labels && i < data->Labels_0@.len() ==> model.ty is TextList
                && model.cells[i] is Texts && model.cells[i]->Texts_0.len()
                == data->Labels_0@[i]@.len() && forall|l: int|
                0 <= l < data->Labels_0@[i]@.len() ==> (#[trigger] model.cells[i]->Texts_0[l])
                    == data->Labels_0@[i]@[l]@
            &&& data is Category && i < data->keys@.len() ==> model.ty is Category && model.cells[i]
                == if data->keys@[i] is Some {
                Cell::Key {
                    key: data->keys@[i]->0 as int,
                    text: data->dictionary@[data->keys@[i]->0 as int]@,
                }
            } else {
                Cell::Absent
            }
            &&& data is Scalars && i < data->values@.len() && data->values@[i] is None
                ==> model.cells[i] is Absent
            &&& data is Scalars && i < data->values@.len() && data->values@[i] is Some ==> ({
                let cell = model.cells[i];
                match data->values@[i]->0 {
                    Scalar::Null => cell is Absent,
                    Scalar::Bool(x) => cell == Cell::Flag(x),
                    Scalar::U8(x) => cell == Cell::Number(x as int),
                    Scalar::U16(x) => cell == Cell::Number(x as int),
                    Scalar::U32(x) => cell == Cell::Number(x as int),
                    Scalar::U64(x) => cell == Cell::Number(x as int),
                    Scalar::I8(x) => cell == Cell::Number(x as int),
                    Scalar::I16(x) => cell == Cell::Number(x as int),
                    Scalar::I32(x) => cell == Cell::Number(x as int),
                    Scalar::I64(x) => cell == Cell::Number(x as int),
                    Scalar::F32(x) => cell == Cell::Number(x as int),
                    Scalar::F64(x) => cell == Cell::Number(x as int),
                    Scalar::TimestampUs(x) => cell == Cell::Number(x as int),
                    Scalar::Utf8(x) => cell == Cell::Text(x@),
                }
            })
            &&& data is Scalars ==> (match data->ty {
                ScalarType::Bool => model.ty is Bool,
                ScalarType::U8 => model.ty is U8,
                ScalarType::U16 => model.ty is U16,
                ScalarType::U32 => model.ty is U32,
                ScalarType::U64 => model.ty is U64,
                ScalarType::I8 => model.ty is I8,
                ScalarType::I16 => model.ty is I16,
                ScalarType::I32 => model.ty is I32,
                ScalarType::I64 => model.ty is I64,
                ScalarType::F32 => model.ty is F32,
                ScalarType::F64 => model.ty is F64,
                ScalarType::TimestampUs => model.ty is TimestampUs,
                _ => model.ty is Utf8,
            })
        }),
{
}

} // verus!
