//! A batch's columns as Arrow arrays: one wrapper for each array that is built, and the batch they
//! make.

use std::sync::Arc;

use arrow::array::{
    Array, ArrayRef, BinaryArray, BooleanArray, DictionaryArray, Float32Array, Float64Array,
    Int16Array, Int32Array, Int64Array, Int8Array, ListBuilder, StringArray, StringBuilder,
    TimestampMicrosecondArray, UInt16Array, UInt32Array, UInt64Array, UInt64Builder, UInt8Array,
};
use arrow::buffer::ScalarBuffer;
use arrow::datatypes::{Field, Int32Type, Schema};
use arrow::error::ArrowError;
use arrow::record_batch::RecordBatch;
use vstd::prelude::*;

use crate::flush::recording::fits;
use crate::scalar::{Scalar, ScalarType};
use crate::text::byte_len;

verus! {

/// [`arrow::error::ArrowError`].
#[verifier::external_type_specification]
#[verifier::external_body]
pub struct ExArrowError(ArrowError);

/// One array of a batch.
#[verifier::external_body]
pub struct Column {
    array: ArrayRef,
}

/// A page's batch, as it is sent.
#[verifier::external_body]
pub struct Batch {
    pub records: RecordBatch,
}

/// The type of an array's cells.
#[derive(Clone, Copy, Debug, PartialEq, Eq, Structural)]
pub enum ColumnType {
    Bool,
    U8,
    U16,
    U32,
    U64,
    I8,
    I16,
    I32,
    I64,
    F32,
    F64,
    /// Microseconds, in UTC.
    TimestampUs,
    Utf8,
    /// Texts, each as its place in a dictionary.
    Category,
    Binary,
    IdList,
    TextList,
}

/// What a cell holds.
pub enum Cell {
    Absent,
    Flag(bool),
    /// An integer, or a float's bit pattern.
    Number(int),
    Text(Seq<char>),
    /// A place in the dictionary, and the text there.
    Key { key: int, text: Seq<char> },
    Bytes(Seq<u8>),
    Ids(Seq<u64>),
    Texts(Seq<Seq<char>>),
}

/// The cells an array holds, in row order.
pub uninterp spec fn cells_in(column: Column) -> Seq<Cell>;

/// The type of an array's cells.
pub uninterp spec fn type_in(column: Column) -> ColumnType;

/// One column of a batch.
pub struct ColumnModel {
    pub name: Seq<char>,
    pub nullable: bool,
    pub ty: ColumnType,
    pub cells: Seq<Cell>,
}

/// The columns a batch holds, in order.
pub uninterp spec fn columns_in(batch: Batch) -> Seq<ColumnModel>;

/// The bytes a cell adds to its array's values.
pub open spec fn cell_bytes(cell: Cell) -> nat {
    match cell {
        Cell::Text(text) => byte_len(text),
        Cell::Bytes(bytes) => bytes.len(),
        Cell::Texts(texts) => texts_bytes(texts),
        _ => 0,
    }
}

/// The bytes of a list of texts.
pub open spec fn texts_bytes(texts: Seq<Seq<char>>) -> nat
    decreases texts.len(),
{
    if texts.len() == 0 {
        0
    } else {
        texts_bytes(texts.drop_last()) + byte_len(texts.last())
    }
}

/// The bytes of an array's values.
pub open spec fn cells_bytes(cells: Seq<Cell>) -> nat
    decreases cells.len(),
{
    if cells.len() == 0 {
        0
    } else {
        cells_bytes(cells.drop_last()) + cell_bytes(cells.last())
    }
}

/// The values of the lists an array holds.
pub open spec fn cells_items(cells: Seq<Cell>) -> nat
    decreases cells.len(),
{
    if cells.len() == 0 {
        0
    } else {
        cells_items(cells.drop_last()) + match cells.last() {
            Cell::Ids(ids) => ids.len(),
            Cell::Texts(texts) => texts.len(),
            _ => 0,
        }
    }
}

/// Whether an array's offsets, which are of 32 bits, can address its values.
pub open spec fn addressable(cells: Seq<Cell>) -> bool {
    cells_bytes(cells) <= i32::MAX && cells_items(cells) <= i32::MAX
}

/// What a stored value is as a cell.
pub open spec fn cell_of(scalar: Scalar) -> Cell {
    match scalar {
        Scalar::Null => Cell::Absent,
        Scalar::Bool(value) => Cell::Flag(value),
        Scalar::U8(value) => Cell::Number(value as int),
        Scalar::U16(value) => Cell::Number(value as int),
        Scalar::U32(value) => Cell::Number(value as int),
        Scalar::U64(value) => Cell::Number(value as int),
        Scalar::I8(value) => Cell::Number(value as int),
        Scalar::I16(value) => Cell::Number(value as int),
        Scalar::I32(value) => Cell::Number(value as int),
        Scalar::I64(value) => Cell::Number(value as int),
        Scalar::F32(bits) => Cell::Number(bits as int),
        Scalar::F64(bits) => Cell::Number(bits as int),
        Scalar::TimestampUs(value) => Cell::Number(value as int),
        Scalar::Utf8(text) => Cell::Text(text@),
    }
}

/// A column of stored values as cells.
pub open spec fn scalar_cells(values: Seq<Option<Scalar>>) -> Seq<Cell> {
    values.map_values(
        |value: Option<Scalar>|
            match value {
                Some(scalar) => cell_of(scalar),
                None => Cell::Absent,
            },
    )
}

/// A value an array is built from.
pub trait Native: Sized {
    /// What it is as a cell.
    spec fn cell(self) -> Cell;

    /// Whether a stored value is one of this kind.
    spec fn reads(scalar: Scalar) -> bool;

    fn read(scalar: &Scalar) -> (value: Option<Self>)
        ensures
            value is Some <==> Self::reads(*scalar),
            value matches Some(native) ==> native.cell() == cell_of(*scalar),
    ;
}

impl Native for bool {
    open spec fn cell(self) -> Cell {
        Cell::Flag(self)
    }

    open spec fn reads(scalar: Scalar) -> bool {
        scalar is Bool
    }

    fn read(scalar: &Scalar) -> (value: Option<Self>) {
        match scalar {
            Scalar::Bool(value) => Some(*value),
            _ => None,
        }
    }
}

impl Native for u8 {
    open spec fn cell(self) -> Cell {
        Cell::Number(self as int)
    }

    open spec fn reads(scalar: Scalar) -> bool {
        scalar is U8
    }

    fn read(scalar: &Scalar) -> (value: Option<Self>) {
        match scalar {
            Scalar::U8(value) => Some(*value),
            _ => None,
        }
    }
}

impl Native for u16 {
    open spec fn cell(self) -> Cell {
        Cell::Number(self as int)
    }

    open spec fn reads(scalar: Scalar) -> bool {
        scalar is U16
    }

    fn read(scalar: &Scalar) -> (value: Option<Self>) {
        match scalar {
            Scalar::U16(value) => Some(*value),
            _ => None,
        }
    }
}

impl Native for u32 {
    open spec fn cell(self) -> Cell {
        Cell::Number(self as int)
    }

    open spec fn reads(scalar: Scalar) -> bool {
        scalar is U32 || scalar is F32
    }

    fn read(scalar: &Scalar) -> (value: Option<Self>) {
        match scalar {
            Scalar::U32(value) => Some(*value),
            Scalar::F32(bits) => Some(*bits),
            _ => None,
        }
    }
}

impl Native for u64 {
    open spec fn cell(self) -> Cell {
        Cell::Number(self as int)
    }

    open spec fn reads(scalar: Scalar) -> bool {
        scalar is U64 || scalar is F64
    }

    fn read(scalar: &Scalar) -> (value: Option<Self>) {
        match scalar {
            Scalar::U64(value) => Some(*value),
            Scalar::F64(bits) => Some(*bits),
            _ => None,
        }
    }
}

impl Native for i8 {
    open spec fn cell(self) -> Cell {
        Cell::Number(self as int)
    }

    open spec fn reads(scalar: Scalar) -> bool {
        scalar is I8
    }

    fn read(scalar: &Scalar) -> (value: Option<Self>) {
        match scalar {
            Scalar::I8(value) => Some(*value),
            _ => None,
        }
    }
}

impl Native for i16 {
    open spec fn cell(self) -> Cell {
        Cell::Number(self as int)
    }

    open spec fn reads(scalar: Scalar) -> bool {
        scalar is I16
    }

    fn read(scalar: &Scalar) -> (value: Option<Self>) {
        match scalar {
            Scalar::I16(value) => Some(*value),
            _ => None,
        }
    }
}

impl Native for i32 {
    open spec fn cell(self) -> Cell {
        Cell::Number(self as int)
    }

    open spec fn reads(scalar: Scalar) -> bool {
        scalar is I32
    }

    fn read(scalar: &Scalar) -> (value: Option<Self>) {
        match scalar {
            Scalar::I32(value) => Some(*value),
            _ => None,
        }
    }
}

impl Native for i64 {
    open spec fn cell(self) -> Cell {
        Cell::Number(self as int)
    }

    open spec fn reads(scalar: Scalar) -> bool {
        scalar is I64 || scalar is TimestampUs
    }

    fn read(scalar: &Scalar) -> (value: Option<Self>) {
        match scalar {
            Scalar::I64(value) => Some(*value),
            Scalar::TimestampUs(value) => Some(*value),
            _ => None,
        }
    }
}

impl Native for String {
    open spec fn cell(self) -> Cell {
        Cell::Text(self@)
    }

    open spec fn reads(scalar: Scalar) -> bool {
        scalar is Utf8
    }

    fn read(scalar: &Scalar) -> (value: Option<Self>) {
        match scalar {
            Scalar::Utf8(text) => Some(text.clone()),
            _ => None,
        }
    }
}

/// A list of optional values as cells.
pub open spec fn cells<T: Native>(values: Seq<Option<T>>) -> Seq<Cell> {
    values.map_values(
        |value: Option<T>|
            match value {
                Some(native) => native.cell(),
                None => Cell::Absent,
            },
    )
}

/// Optional byte strings as cells.
pub open spec fn byte_cells(values: Seq<Option<Vec<u8>>>) -> Seq<Cell> {
    values.map_values(
        |value: Option<Vec<u8>>|
            match value {
                Some(bytes) => Cell::Bytes(bytes@),
                None => Cell::Absent,
            },
    )
}

/// Lists of texts as cells.
pub open spec fn text_list_cells(rows: Seq<Vec<String>>) -> Seq<Cell> {
    rows.map_values(|row: Vec<String>| Cell::Texts(row@.map_values(|text: String| text@)))
}

/// Lists of ids as cells.
pub open spec fn id_list_cells(rows: Seq<Vec<u64>>) -> Seq<Cell> {
    rows.map_values(|row: Vec<u64>| Cell::Ids(row@))
}

/// Whether every key is a place in a dictionary of `count` texts.
pub open spec fn keys_within(keys: Seq<Option<i32>>, count: nat) -> bool {
    forall|i: int|
        0 <= i < keys.len() && (#[trigger] keys[i]) is Some ==> 0 <= keys[i]->0 < count
}

/// Places in a dictionary as cells.
pub open spec fn key_cells(dictionary: Seq<String>, keys: Seq<Option<i32>>) -> Seq<Cell> {
    keys.map_values(
        |key: Option<i32>|
            match key {
                Some(at) => Cell::Key { key: at as int, text: dictionary[at as int]@ },
                None => Cell::Absent,
            },
    )
}

/// `BooleanArray::from`: an array of the values, a null for each missing one.
#[verifier::external_body]
pub(crate) fn bool_array(values: Vec<Option<bool>>) -> (column: Column)
    ensures
        type_in(column) == ColumnType::Bool,
        cells_in(column) == cells(values@),
{
    Column { array: Arc::new(BooleanArray::from(values)) }
}

/// `UInt8Array::from`: an array of the values, a null for each missing one.
#[verifier::external_body]
fn u8_array(values: Vec<Option<u8>>) -> (column: Column)
    ensures
        type_in(column) == ColumnType::U8,
        cells_in(column) == cells(values@),
{
    Column { array: Arc::new(UInt8Array::from(values)) }
}

/// `UInt16Array::from`: an array of the values, a null for each missing one.
#[verifier::external_body]
fn u16_array(values: Vec<Option<u16>>) -> (column: Column)
    ensures
        type_in(column) == ColumnType::U16,
        cells_in(column) == cells(values@),
{
    Column { array: Arc::new(UInt16Array::from(values)) }
}

/// `UInt32Array::from`: an array of the values, a null for each missing one.
#[verifier::external_body]
pub(crate) fn u32_array(values: Vec<Option<u32>>) -> (column: Column)
    ensures
        type_in(column) == ColumnType::U32,
        cells_in(column) == cells(values@),
{
    Column { array: Arc::new(UInt32Array::from(values)) }
}

/// `UInt64Array::from`: an array of the values, a null for each missing one.
#[verifier::external_body]
pub(crate) fn u64_array(values: Vec<Option<u64>>) -> (column: Column)
    ensures
        type_in(column) == ColumnType::U64,
        cells_in(column) == cells(values@),
{
    Column { array: Arc::new(UInt64Array::from(values)) }
}

/// `Int8Array::from`: an array of the values, a null for each missing one.
#[verifier::external_body]
fn i8_array(values: Vec<Option<i8>>) -> (column: Column)
    ensures
        type_in(column) == ColumnType::I8,
        cells_in(column) == cells(values@),
{
    Column { array: Arc::new(Int8Array::from(values)) }
}

/// `Int16Array::from`: an array of the values, a null for each missing one.
#[verifier::external_body]
fn i16_array(values: Vec<Option<i16>>) -> (column: Column)
    ensures
        type_in(column) == ColumnType::I16,
        cells_in(column) == cells(values@),
{
    Column { array: Arc::new(Int16Array::from(values)) }
}

/// `Int32Array::from`: an array of the values, a null for each missing one.
#[verifier::external_body]
fn i32_array(values: Vec<Option<i32>>) -> (column: Column)
    ensures
        type_in(column) == ColumnType::I32,
        cells_in(column) == cells(values@),
{
    Column { array: Arc::new(Int32Array::from(values)) }
}

/// `Int64Array::from`: an array of the values, a null for each missing one.
#[verifier::external_body]
fn i64_array(values: Vec<Option<i64>>) -> (column: Column)
    ensures
        type_in(column) == ColumnType::I64,
        cells_in(column) == cells(values@),
{
    Column { array: Arc::new(Int64Array::from(values)) }
}

/// `Float32Array::new` over the buffer of a `UInt32Array`: an array of the floats with these bit
/// patterns, a null for each missing one.
#[verifier::external_body]
fn f32_array(bits: Vec<Option<u32>>) -> (column: Column)
    ensures
        type_in(column) == ColumnType::F32,
        cells_in(column) == cells(bits@),
{
    let held = UInt32Array::from(bits);
    let values = ScalarBuffer::new(held.values().inner().clone(), 0, held.len());
    Column { array: Arc::new(Float32Array::new(values, held.nulls().cloned())) }
}

/// `Float64Array::new` over the buffer of a `UInt64Array`: an array of the floats with these bit
/// patterns, a null for each missing one.
#[verifier::external_body]
pub(crate) fn f64_array(bits: Vec<Option<u64>>) -> (column: Column)
    ensures
        type_in(column) == ColumnType::F64,
        cells_in(column) == cells(bits@),
{
    let held = UInt64Array::from(bits);
    let values = ScalarBuffer::new(held.values().inner().clone(), 0, held.len());
    Column { array: Arc::new(Float64Array::new(values, held.nulls().cloned())) }
}

/// `TimestampMicrosecondArray::from`, with its zone set: an array of the values, a null for each
/// missing one.
#[verifier::external_body]
fn timestamp_array(values: Vec<Option<i64>>) -> (column: Column)
    ensures
        type_in(column) == ColumnType::TimestampUs,
        cells_in(column) == cells(values@),
{
    Column { array: Arc::new(TimestampMicrosecondArray::from(values).with_timezone("UTC")) }
}

/// `StringArray::from`: an array of the texts, a null for each missing one. It panics where the
/// texts have more bytes than its offsets address.
#[verifier::external_body]
pub(crate) fn text_array(values: Vec<Option<String>>) -> (column: Column)
    requires
        addressable(cells(values@)),
    ensures
        type_in(column) == ColumnType::Utf8,
        cells_in(column) == cells(values@),
{
    Column { array: Arc::new(StringArray::from(values)) }
}

/// `BinaryArray::from_iter`: an array of the byte strings, a null for each missing one. It panics
/// where they have more bytes than its offsets address.
#[verifier::external_body]
pub(crate) fn binary_array(values: Vec<Option<Vec<u8>>>) -> (column: Column)
    requires
        addressable(byte_cells(values@)),
    ensures
        type_in(column) == ColumnType::Binary,
        cells_in(column) == byte_cells(values@),
{
    Column { array: Arc::new(BinaryArray::from_iter(values)) }
}

/// `DictionaryArray::try_new` over a `StringArray`: an array of the texts the keys name, refused
/// where a key names none. The `StringArray` panics where the texts have more bytes than its
/// offsets address.
#[verifier::external_body]
pub(crate) fn category_array(dictionary: Vec<String>, keys: Vec<Option<i32>>) -> (out: Result<
    Column,
    ArrowError,
>)
    requires
        texts_bytes(dictionary@.map_values(|text: String| text@)) <= i32::MAX,
    ensures
        out is Ok <==> keys_within(keys@, dictionary@.len()),
        out matches Ok(column) ==> type_in(column) == ColumnType::Category && cells_in(column)
            == key_cells(dictionary@, keys@),
{
    let texts = Arc::new(StringArray::from(dictionary));
    let array = DictionaryArray::<Int32Type>::try_new(Int32Array::from(keys), texts)?;
    Ok(Column { array: Arc::new(array) })
}

/// `ListBuilder::extend` over a `StringBuilder`: an array of the lists. It panics where the lists
/// hold more texts, or the texts more bytes, than its offsets address.
#[verifier::external_body]
pub(crate) fn text_list_array(rows: Vec<Vec<String>>) -> (column: Column)
    requires
        addressable(text_list_cells(rows@)),
    ensures
        type_in(column) == ColumnType::TextList,
        cells_in(column) == text_list_cells(rows@),
{
    let mut builder = ListBuilder::new(StringBuilder::new());
    builder.extend(rows.into_iter().map(|row| Some(row.into_iter().map(Some))));
    Column { array: Arc::new(builder.finish()) }
}

/// `ListBuilder::extend` over a `UInt64Builder`: an array of the lists. It panics where the lists
/// hold more ids than its offsets address.
#[verifier::external_body]
pub(crate) fn id_list_array(rows: Vec<Vec<u64>>) -> (column: Column)
    requires
        addressable(id_list_cells(rows@)),
    ensures
        type_in(column) == ColumnType::IdList,
        cells_in(column) == id_list_cells(rows@),
{
    let mut builder = ListBuilder::new(UInt64Builder::new());
    builder.extend(rows.into_iter().map(|row| Some(row.into_iter().map(Some))));
    Column { array: Arc::new(builder.finish()) }
}

/// A named column of a batch.
pub struct BatchColumn {
    pub name: String,
    pub nullable: bool,
    pub column: Column,
}

impl BatchColumn {
    /// What it holds.
    pub open spec fn model(&self) -> ColumnModel {
        ColumnModel {
            name: self.name@,
            nullable: self.nullable,
            ty: type_in(self.column),
            cells: cells_in(self.column),
        }
    }
}

/// Whether a column of a batch of `rows` rows may stand in it: it has a cell for each row, and none
/// is missing where the column is not nullable.
pub open spec fn stands(model: ColumnModel, rows: nat) -> bool {
    &&& model.cells.len() == rows
    &&& !model.nullable ==> forall|i: int|
        0 <= i < model.cells.len() ==> !((#[trigger] model.cells[i]) is Absent)
}

/// `RecordBatch::try_new`, under a schema of the columns' own types: a batch of the columns,
/// refused where there is none, where two differ in length, or where one that is not nullable holds
/// a null.
#[verifier::external_body]
pub(crate) fn assemble(columns: Vec<BatchColumn>) -> (out: Result<Batch, ArrowError>)
    ensures
        out is Ok <==> columns@.len() > 0 && forall|i: int|
            0 <= i < columns@.len() ==> stands(
                (#[trigger] columns@[i]).model(),
                columns@[0].model().cells.len(),
            ),
        out matches Ok(batch) ==> columns_in(batch) == columns@.map_values(
            |column: BatchColumn| column.model(),
        ),
{
    let mut fields: Vec<Field> = Vec::new();
    let mut arrays: Vec<ArrayRef> = Vec::new();
    for column in columns {
        let ty = column.column.array.data_type().clone();
        fields.push(Field::new(column.name, ty, column.nullable));
        arrays.push(column.column.array);
    }
    let records = RecordBatch::try_new(Arc::new(Schema::new(fields)), arrays)?;
    Ok(Batch { records })
}

/// Stored values read as natives.
fn natives<T: Native>(values: &Vec<Option<Scalar>>) -> (out: Vec<Option<T>>)
    requires
        forall|i: int|
            0 <= i < values@.len() && (#[trigger] values@[i]) is Some ==> T::reads(values@[i]->0),
    ensures
        cells(out@) == scalar_cells(values@),
{
    let mut out: Vec<Option<T>> = Vec::new();
    let mut i: usize = 0;
    while i < values.len()
        invariant
            i <= values@.len(),
            forall|k: int|
                0 <= k < values@.len() && (#[trigger] values@[k]) is Some ==> T::reads(
                    values@[k]->0,
                ),
            out@.len() == i,
            forall|k: int| 0 <= k < i ==> cells(out@)[k] == #[trigger] scalar_cells(values@)[k],
        decreases values@.len() - i,
    {
        let ghost before = out@;
        let value: Option<T> = match &values[i] {
            Some(scalar) => T::read(scalar),
            None => None,
        };
        out.push(value);
        i += 1;
        proof {
            assert forall|k: int| 0 <= k < i implies cells(out@)[k] == #[trigger] scalar_cells(
                values@,
            )[k] by {
                if k < i - 1 {
                    assert(cells(out@)[k] == cells(before)[k]);
                }
            }
        }
    }
    assert(cells(out@) =~= scalar_cells(values@));
    out
}

/// The type of the array a column of stored values makes.
pub open spec fn column_type(ty: ScalarType) -> ColumnType {
    match ty {
        ScalarType::Bool => ColumnType::Bool,
        ScalarType::U8 => ColumnType::U8,
        ScalarType::U16 => ColumnType::U16,
        ScalarType::U32 => ColumnType::U32,
        ScalarType::U64 => ColumnType::U64,
        ScalarType::I8 => ColumnType::I8,
        ScalarType::I16 => ColumnType::I16,
        ScalarType::I32 => ColumnType::I32,
        ScalarType::I64 => ColumnType::I64,
        ScalarType::F32 => ColumnType::F32,
        ScalarType::F64 => ColumnType::F64,
        ScalarType::TimestampUs => ColumnType::TimestampUs,
        ScalarType::Utf8 => ColumnType::Utf8,
        ScalarType::Keyword => ColumnType::Utf8,
        ScalarType::Text => ColumnType::Utf8,
    }
}

/// A column of a type from stored values of it.
pub fn scalar_array(ty: ScalarType, values: &Vec<Option<Scalar>>) -> (column: Column)
    requires
        forall|i: int|
            0 <= i < values@.len() && (#[trigger] values@[i]) is Some ==> fits(ty, values@[i]->0),
        addressable(scalar_cells(values@)),
    ensures
        type_in(column) == column_type(ty),
        cells_in(column) == scalar_cells(values@),
{
    match ty {
        ScalarType::Bool => bool_array(natives::<bool>(values)),
        ScalarType::U8 => u8_array(natives::<u8>(values)),
        ScalarType::U16 => u16_array(natives::<u16>(values)),
        ScalarType::U32 => u32_array(natives::<u32>(values)),
        ScalarType::U64 => u64_array(natives::<u64>(values)),
        ScalarType::I8 => i8_array(natives::<i8>(values)),
        ScalarType::I16 => i16_array(natives::<i16>(values)),
        ScalarType::I32 => i32_array(natives::<i32>(values)),
        ScalarType::I64 => i64_array(natives::<i64>(values)),
        ScalarType::F32 => f32_array(natives::<u32>(values)),
        ScalarType::F64 => f64_array(natives::<u64>(values)),
        ScalarType::TimestampUs => timestamp_array(natives::<i64>(values)),
        ScalarType::Utf8 | ScalarType::Keyword | ScalarType::Text => text_array(
            natives::<String>(values),
        ),
    }
}

/// A value of a type is sent in a column of its own kind, and every value but null has a type that
/// it is of.
pub proof fn law_a_value_is_sent_in_a_column_of_its_kind(ty: ScalarType, cell: Scalar)
    ensures
        fits(ty, cell) ==> match cell {
            Scalar::Null => false,
            Scalar::Bool(_) => ty is Bool && column_type(ty) is Bool,
            Scalar::U8(_) => ty is U8 && column_type(ty) is U8,
            Scalar::U16(_) => ty is U16 && column_type(ty) is U16,
            Scalar::U32(_) => ty is U32 && column_type(ty) is U32,
            Scalar::U64(_) => ty is U64 && column_type(ty) is U64,
            Scalar::I8(_) => ty is I8 && column_type(ty) is I8,
            Scalar::I16(_) => ty is I16 && column_type(ty) is I16,
            Scalar::I32(_) => ty is I32 && column_type(ty) is I32,
            Scalar::I64(_) => ty is I64 && column_type(ty) is I64,
            Scalar::F32(_) => ty is F32 && column_type(ty) is F32,
            Scalar::F64(_) => ty is F64 && column_type(ty) is F64,
            Scalar::TimestampUs(_) => ty is TimestampUs && column_type(ty) is TimestampUs,
            Scalar::Utf8(_) => (ty is Utf8 || ty is Keyword || ty is Text) && column_type(
                ty,
            ) is Utf8,
        },
        !(cell is Null) ==> exists|other: ScalarType| #[trigger] fits(other, cell),
        cell is Utf8 ==> fits(ScalarType::Utf8, cell) && fits(ScalarType::Keyword, cell) && fits(
            ScalarType::Text,
            cell,
        ),
{
    let own = match cell {
        Scalar::Null => ScalarType::Bool,
        Scalar::Bool(_) => ScalarType::Bool,
        Scalar::U8(_) => ScalarType::U8,
        Scalar::U16(_) => ScalarType::U16,
        Scalar::U32(_) => ScalarType::U32,
        Scalar::U64(_) => ScalarType::U64,
        Scalar::I8(_) => ScalarType::I8,
        Scalar::I16(_) => ScalarType::I16,
        Scalar::I32(_) => ScalarType::I32,
        Scalar::I64(_) => ScalarType::I64,
        Scalar::F32(_) => ScalarType::F32,
        Scalar::F64(_) => ScalarType::F64,
        Scalar::TimestampUs(_) => ScalarType::TimestampUs,
        Scalar::Utf8(_) => ScalarType::Utf8,
    };
    assert(cell is Null || fits(own, cell));
}

} // verus!
