//! Cells: the values a column holds, and the types a column is declared with.

use vstd::prelude::*;

verus! {

/// The type a column is declared with.
#[derive(Clone, Copy, Debug, PartialEq, Eq, Structural)]
pub enum ScalarType {
    Bool,
    U8,
    U16,
    U32,
    U64,
    I8,
    I16,
    I32,
    I64,
    F32,
    F64,
    TimestampUs,
    Utf8,
    Keyword,
    Text,
}

/// One cell. A floating-point value is carried as its bit pattern.
#[derive(Clone, Debug, PartialEq, Eq)]
pub enum Scalar {
    Null,
    Bool(bool),
    U8(u8),
    U16(u16),
    U32(u32),
    U64(u64),
    I8(i8),
    I16(i16),
    I32(i32),
    I64(i64),
    F32(u32),
    F64(u64),
    TimestampUs(i64),
    Utf8(String),
}

impl Scalar {
    /// The same cell.
    pub fn copy(&self) -> (cell: Scalar)
        ensures
            cell == *self,
    {
        match self {
            Scalar::Null => Scalar::Null,
            Scalar::Bool(x) => Scalar::Bool(*x),
            Scalar::U8(x) => Scalar::U8(*x),
            Scalar::U16(x) => Scalar::U16(*x),
            Scalar::U32(x) => Scalar::U32(*x),
            Scalar::U64(x) => Scalar::U64(*x),
            Scalar::I8(x) => Scalar::I8(*x),
            Scalar::I16(x) => Scalar::I16(*x),
            Scalar::I32(x) => Scalar::I32(*x),
            Scalar::I64(x) => Scalar::I64(*x),
            Scalar::F32(x) => Scalar::F32(*x),
            Scalar::F64(x) => Scalar::F64(*x),
            Scalar::TimestampUs(x) => Scalar::TimestampUs(*x),
            Scalar::Utf8(x) => Scalar::Utf8(x.clone()),
        }
    }

    /// Whether the cell holds nothing.
    pub fn is_null(&self) -> (yes: bool)
        ensures
            yes == (*self is Null),
    {
        match self {
            Scalar::Null => true,
            _ => false,
        }
    }
}

/// The code a category column holds where its row carries no value.
pub const ABSENT_CODE: u32 = 0;

/// The vocabulary code a cell holds, if it holds one.
pub open spec fn code_of(cell: Scalar) -> Option<u32> {
    match cell {
        Scalar::Null => Some(ABSENT_CODE),
        Scalar::U8(c) => Some(c as u32),
        Scalar::U16(c) => Some(c as u32),
        Scalar::U32(c) => Some(c),
        _ => None,
    }
}

/// [`code_of`], computed.
pub fn cell_code(cell: &Scalar) -> (code: Option<u32>)
    ensures
        code == code_of(*cell),
{
    match cell {
        Scalar::Null => Some(ABSENT_CODE),
        Scalar::U8(c) => Some(*c as u32),
        Scalar::U16(c) => Some(*c as u32),
        Scalar::U32(c) => Some(*c),
        _ => None,
    }
}

/// A declared column, as far as absence depends on it: whether its values are codes of a
/// vocabulary.
#[derive(Clone, Copy, Debug, PartialEq, Eq, Structural)]
pub struct Declared {
    pub category: bool,
}

/// Whether a cell of a declared column carries no value: nothing at all, or a category's
/// [`ABSENT_CODE`].
pub open spec fn absent(cell: Scalar, declared: Declared) -> bool {
    cell is Null || (declared.category && code_of(cell) == Some(ABSENT_CODE))
}

/// [`absent`], computed.
pub fn scalar_is_absent(cell: &Scalar, declared: &Declared) -> (yes: bool)
    ensures
        yes == absent(*cell, *declared),
{
    if cell.is_null() {
        return true;
    }
    match cell_code(cell) {
        Some(code) => declared.category && code == ABSENT_CODE,
        None => false,
    }
}

/// The same cells.
pub fn copy_cells(cells: &Vec<Scalar>) -> (out: Vec<Scalar>)
    ensures
        out@ == cells@,
{
    let mut out: Vec<Scalar> = Vec::new();
    let mut i: usize = 0;
    while i < cells.len()
        invariant
            i <= cells@.len(),
            out@ == cells@.take(i as int),
        decreases cells@.len() - i,
    {
        out.push(cells[i].copy());
        i += 1;
        assert(cells@.take(i as int) =~= cells@.take(i - 1).push(cells@[i - 1]));
    }
    assert(cells@.take(i as int) =~= cells@);
    out
}

/// A cell's code is its number, where it is an unsigned number of a code's width or less, and the
/// code of nothing where it is null; no other cell has one. A cell is absent where it is null, or
/// where its column is a category and it carries that same code.
pub proof fn law_a_cells_code_is_its_number(cell: Scalar, declared: Declared)
    ensures
        cell matches Scalar::U8(n) ==> code_of(cell) is Some && code_of(cell)->0 == n,
        cell matches Scalar::U16(n) ==> code_of(cell) is Some && code_of(cell)->0 == n,
        cell matches Scalar::U32(n) ==> code_of(cell) is Some && code_of(cell)->0 == n,
        code_of(cell) is Some ==> cell is Null || cell is U8 || cell is U16 || cell is U32,
        cell is Null ==> code_of(cell) == Some(ABSENT_CODE) && absent(cell, declared),
        absent(cell, declared) && !(cell is Null) ==> declared.category,
        declared.category && (cell == Scalar::U32(ABSENT_CODE) || code_of(cell) == code_of(
            Scalar::Null,
        )) ==> absent(cell, declared),
        declared.category && cell is U32 && absent(cell, declared) ==> code_of(cell) == code_of(
            Scalar::Null,
        ),
        !declared.category ==> (absent(cell, declared) <==> cell is Null),
{
}

} // verus!
