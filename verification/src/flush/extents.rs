//! The value columns of a flush: each column's present entities and the codes of their slots.

use croaring::Bitmap;
use vstd::prelude::*;

use crate::bitmap::{self, ascending, bits, span};
use crate::flush::failure::FlushFailed;
use crate::order::{holds_tie, search, strictly_sorted, ties, Ranked};
use crate::scalar::{cell_code, code_of, Scalar, ScalarType, ABSENT_CODE};
use crate::seqs::{
    first_some, lemma_filter_empty, lemma_filter_positions, lemma_filter_step, lemma_first_some_at,
    lemma_first_some_stays, lemma_first_some_step, lemma_take_all,
};
use crate::text::{lemma_string_ties_are_equal, lists, sorted_distinct_strings};

verus! {

/// A column a flush writes an extent of.
#[derive(Clone, Debug, PartialEq, Eq)]
pub struct FilterColumnSpec {
    /// The column's declared position.
    pub index: usize,
    pub name: String,
    pub ty: ScalarType,
    /// Whether its values are codes of a vocabulary.
    pub category: bool,
}

/// A column's slots, in the width its type is stored in. Floating-point values are bit patterns.
#[derive(Clone, Debug, PartialEq, Eq)]
pub enum Codes {
    U8(Vec<u8>),
    U16(Vec<u16>),
    U32(Vec<u32>),
    U64(Vec<u64>),
    I8(Vec<i8>),
    I16(Vec<i16>),
    I32(Vec<i32>),
    I64(Vec<i64>),
    F32(Vec<u32>),
    F64(Vec<u64>),
}

/// The width a column is stored in.
#[derive(Clone, Copy, Debug, PartialEq, Eq, Structural)]
pub enum Width {
    U8,
    U16,
    U32,
    U64,
    I8,
    I16,
    I32,
    I64,
    F32,
    F64,
}

impl Codes {
    /// The width the slots are stored in.
    pub open spec fn width(&self) -> Width {
        match self {
            Codes::U8(_) => Width::U8,
            Codes::U16(_) => Width::U16,
            Codes::U32(_) => Width::U32,
            Codes::U64(_) => Width::U64,
            Codes::I8(_) => Width::I8,
            Codes::I16(_) => Width::I16,
            Codes::I32(_) => Width::I32,
            Codes::I64(_) => Width::I64,
            Codes::F32(_) => Width::F32,
            Codes::F64(_) => Width::F64,
        }
    }

    /// The slots, as integers.
    pub open spec fn slots(&self) -> Seq<int> {
        match self {
            Codes::U8(v) => v@.map_values(|x: u8| x as int),
            Codes::U16(v) => v@.map_values(|x: u16| x as int),
            Codes::U32(v) => v@.map_values(|x: u32| x as int),
            Codes::U64(v) => v@.map_values(|x: u64| x as int),
            Codes::I8(v) => v@.map_values(|x: i8| x as int),
            Codes::I16(v) => v@.map_values(|x: i16| x as int),
            Codes::I32(v) => v@.map_values(|x: i32| x as int),
            Codes::I64(v) => v@.map_values(|x: i64| x as int),
            Codes::F32(v) => v@.map_values(|x: u32| x as int),
            Codes::F64(v) => v@.map_values(|x: u64| x as int),
        }
    }
}

/// What a cell is to a column.
pub enum Held {
    /// The row carries no value.
    Absent,
    /// The row carries a value, stored as this.
    Slot(int),
    /// The cell is of another type, or a code that the column is too narrow for.
    Wrong,
}

/// The width a category or a plain column of `ty` is stored in.
pub open spec fn width_of(ty: ScalarType, category: bool) -> Width {
    match ty {
        ScalarType::U8 => Width::U8,
        ScalarType::U16 => Width::U16,
        ScalarType::Bool if !category => Width::U8,
        ScalarType::U64 if !category => Width::U64,
        ScalarType::I8 if !category => Width::I8,
        ScalarType::I16 if !category => Width::I16,
        ScalarType::I32 if !category => Width::I32,
        ScalarType::I64 if !category => Width::I64,
        ScalarType::TimestampUs if !category => Width::I64,
        ScalarType::F32 if !category => Width::F32,
        ScalarType::F64 if !category => Width::F64,
        _ => Width::U32,
    }
}

/// The greatest code a category column of `ty` stores: what its width holds.
pub open spec fn widest_code(ty: ScalarType) -> u32 {
    match ty {
        ScalarType::U8 => 0xFF,
        ScalarType::U16 => 0xFFFF,
        _ => u32::MAX,
    }
}

/// What a cell is to a category column: [`ABSENT_CODE`] carries no value, and a code wider than the
/// column is no value of it.
pub open spec fn held_as_category(ty: ScalarType, cell: Scalar) -> Held {
    match code_of(cell) {
        None => Held::Wrong,
        Some(code) => if code == ABSENT_CODE {
            Held::Absent
        } else if code > widest_code(ty) {
            Held::Wrong
        } else {
            Held::Slot(code as int)
        },
    }
}

/// What a cell is to a plain column.
pub open spec fn held_as_plain(ty: ScalarType, cell: Scalar) -> Held {
    match (ty, cell) {
        (_, Scalar::Null) => Held::Absent,
        (ScalarType::Bool, Scalar::Bool(x)) => Held::Slot(if x {
            1
        } else {
            0
        }),
        (ScalarType::U8, Scalar::U8(x)) => Held::Slot(x as int),
        (ScalarType::U16, Scalar::U16(x)) => Held::Slot(x as int),
        (ScalarType::U32, Scalar::U32(x)) => Held::Slot(x as int),
        (ScalarType::U64, Scalar::U64(x)) => Held::Slot(x as int),
        (ScalarType::I8, Scalar::I8(x)) => Held::Slot(x as int),
        (ScalarType::I16, Scalar::I16(x)) => Held::Slot(x as int),
        (ScalarType::I32, Scalar::I32(x)) => Held::Slot(x as int),
        (ScalarType::I64, Scalar::I64(x)) => Held::Slot(x as int),
        (ScalarType::F32, Scalar::F32(x)) => Held::Slot(x as int),
        (ScalarType::F64, Scalar::F64(x)) => Held::Slot(x as int),
        (ScalarType::TimestampUs, Scalar::TimestampUs(x)) => Held::Slot(x as int),
        _ => Held::Wrong,
    }
}

impl FilterColumnSpec {
    /// What a cell is to the column. A keyword's slot is settled by the whole column, so its
    /// number here is none.
    pub open spec fn held(&self, cell: Scalar) -> Held {
        if self.ty is Keyword {
            match cell {
                Scalar::Null => Held::Absent,
                Scalar::Utf8(_) => Held::Slot(0),
                _ => Held::Wrong,
            }
        } else if self.category {
            held_as_category(self.ty, cell)
        } else {
            held_as_plain(self.ty, cell)
        }
    }

    /// The rows that carry a value.
    pub open spec fn present(&self, rows: Seq<(u32, &Scalar)>) -> Seq<(u32, &Scalar)> {
        rows.filter(|r: (u32, &Scalar)| self.held(*r.1) is Slot)
    }

    /// What a cell of another type fails with.
    pub open spec fn failure(&self, cell: Scalar) -> Option<FlushFailed> {
        if self.held(cell) is Wrong {
            Some(FlushFailed::WrongType { column: self.name, ty: self.ty, cell })
        } else {
            None
        }
    }

    /// What the first cell of another type fails with.
    pub open spec fn rows_failure(&self, rows: Seq<(u32, &Scalar)>) -> Option<FlushFailed> {
        first_some(rows, |r: (u32, &Scalar)| self.failure(*r.1))
    }

    /// Whether the column can be stored: prose and undeclared strings have no value column.
    pub open spec fn storable(&self) -> bool {
        self.ty is Keyword || self.category || !(self.ty is Text || self.ty is Utf8)
    }

    /// Whether `column` is this column of the rows: its present entities, and a slot for each
    /// present row. A keyword's slots number its dictionary, another column's hold its values.
    pub open spec fn gathers(&self, rows: Seq<(u32, &Scalar)>, column: ExtentColumn) -> bool {
        &&& bits(column.presence) == entities(self.present(rows)).to_set()
        &&& self.ty is Keyword ==> column.codes.width() is U32 && (
        column.dict_keys matches Some(keys) && numbers_texts(
            keys@,
            column.codes.slots(),
            self.present(rows),
        ))
        &&& !(self.ty is Keyword) ==> column.dict_keys is None && column.codes.width() == width_of(
            self.ty,
            self.category,
        ) && column.codes.slots() == self.present(rows).map_values(
            |r: (u32, &Scalar)| self.slot(*r.1),
        )
    }
}

/// One column of a flush.
pub struct ExtentColumn {
    pub codes: Codes,
    /// The entities that carry a value.
    pub presence: Bitmap,
    /// A keyword column's values, in the order its slots number them.
    pub dict_keys: Option<Vec<String>>,
}

/// The text of a keyword cell.
pub open spec fn text_of(cell: Scalar) -> Seq<char> {
    match cell {
        Scalar::Utf8(text) => text@,
        _ => Seq::empty(),
    }
}

/// The entities of rows.
pub open spec fn entities(rows: Seq<(u32, &Scalar)>) -> Seq<u32> {
    rows.map_values(|r: (u32, &Scalar)| r.0)
}

impl ExtentColumn {
    fn flat(codes: Codes, presence: Bitmap) -> (column: ExtentColumn)
        ensures
            column == (ExtentColumn { codes, presence, dict_keys: None }),
    {
        ExtentColumn { codes, presence, dict_keys: None }
    }
}

/// What a cell is to a column, without its slot.
#[derive(Clone, Copy, PartialEq, Eq, Structural)]
enum CellState {
    Absent,
    Present,
    Wrong,
}

fn widest(ty: ScalarType) -> (code: u32)
    ensures
        code == widest_code(ty),
{
    match ty {
        ScalarType::U8 => 0xFF,
        ScalarType::U16 => 0xFFFF,
        _ => u32::MAX,
    }
}

impl FilterColumnSpec {
    /// The slot of a present cell.
    pub open spec fn slot(&self, cell: Scalar) -> int {
        match self.held(cell) {
            Held::Slot(n) => n,
            _ => 0,
        }
    }

    fn state(&self, cell: &Scalar) -> (state: CellState)
        ensures
            state is Absent <==> self.held(*cell) is Absent,
            state is Present <==> self.held(*cell) is Slot,
            state is Wrong <==> self.held(*cell) is Wrong,
    {
        if cell.is_null() {
            return CellState::Absent;
        }
        if self.ty == ScalarType::Keyword {
            return match cell {
                Scalar::Utf8(_) => CellState::Present,
                _ => CellState::Wrong,
            };
        }
        if self.category {
            return match cell_code(cell) {
                None => CellState::Wrong,
                Some(code) => if code == ABSENT_CODE {
                    CellState::Absent
                } else if code > widest(self.ty) {
                    CellState::Wrong
                } else {
                    CellState::Present
                },
            };
        }
        let right: bool = match (self.ty, cell) {
            (ScalarType::Bool, Scalar::Bool(_)) => true,
            (ScalarType::U8, Scalar::U8(_)) => true,
            (ScalarType::U16, Scalar::U16(_)) => true,
            (ScalarType::U32, Scalar::U32(_)) => true,
            (ScalarType::U64, Scalar::U64(_)) => true,
            (ScalarType::I8, Scalar::I8(_)) => true,
            (ScalarType::I16, Scalar::I16(_)) => true,
            (ScalarType::I32, Scalar::I32(_)) => true,
            (ScalarType::I64, Scalar::I64(_)) => true,
            (ScalarType::F32, Scalar::F32(_)) => true,
            (ScalarType::F64, Scalar::F64(_)) => true,
            (ScalarType::TimestampUs, Scalar::TimestampUs(_)) => true,
            _ => false,
        };
        if right {
            CellState::Present
        } else {
            CellState::Wrong
        }
    }

    /// The entities that carry a value, or the failure of the first cell of another type.
    fn presence_of(&self, rows: &Vec<(u32, &Scalar)>) -> (out: Result<Bitmap, FlushFailed>)
        ensures
            out matches Ok(presence) ==> bits(presence) == entities(self.present(rows@)).to_set()
                && forall|i: int|
                0 <= i < rows@.len() ==> !(self.held(*(#[trigger] rows@[i]).1) is Wrong),
            out is Err <==> self.rows_failure(rows@) is Some,
            out matches Err(why) ==> self.rows_failure(rows@) == Some(why),
    {
        let mut presence = bitmap::empty();
        let ghost p = |r: (u32, &Scalar)| self.held(*r.1) is Slot;
        let ghost f = |r: (u32, &Scalar)| self.failure(*r.1);
        let mut i: usize = 0;
        proof {
            lemma_filter_empty(rows@, p);
            assert(entities(rows@.take(0).filter(p)).to_set() =~= bits(presence));
        }
        while i < rows.len()
            invariant
                i <= rows@.len(),
                p == |r: (u32, &Scalar)| self.held(*r.1) is Slot,
                f == |r: (u32, &Scalar)| self.failure(*r.1),
                first_some(rows@.take(i as int), f) is None,
                bits(presence) == entities(rows@.take(i as int).filter(p)).to_set(),
                forall|k: int| 0 <= k < i ==> !(self.held(*(#[trigger] rows@[k]).1) is Wrong),
            decreases rows@.len() - i,
        {
            let row = rows[i];
            let ghost kept = rows@.take(i as int).filter(p);
            proof {
                lemma_filter_step(rows@, i as int, p);
                lemma_first_some_step(rows@, i as int, f);
            }
            match self.state(row.1) {
                CellState::Absent => {},
                CellState::Present => {
                    bitmap::insert(&mut presence, row.0);
                    proof {
                        assert(entities(kept.push(row)) =~= entities(kept).push(row.0));
                        lemma_push_to_set(entities(kept), row.0);
                    }
                },
                CellState::Wrong => {
                    proof {
                        lemma_first_some_stays(rows@, i + 1, f);
                    }
                    return Err(
                        FlushFailed::WrongType {
                            column: self.name.clone(),
                            ty: self.ty,
                            cell: row.1.copy(),
                        },
                    );
                },
            }
            i += 1;
        }
        proof {
            lemma_take_all(rows@);
        }
        Ok(presence)
    }
}

proof fn lemma_push_to_set(s: Seq<u32>, x: u32)
    ensures
        s.push(x).to_set() == s.to_set().insert(x),
{
    assert forall|y: u32| s.push(x).to_set().contains(y) == s.to_set().insert(x).contains(y) by {
        if s.contains(y) {
            let i = choose|i: int| 0 <= i < s.len() && s[i] == y;
            assert(s.push(x)[i] == y);
        }
        assert(s.push(x)[s.len() as int] == x);
    }
    assert(s.push(x).to_set() =~= s.to_set().insert(x));
}

/// The slots of the present rows, each picked from its cell.
fn gather<T, F: Fn(&Scalar) -> Option<T>>(
    spec: &FilterColumnSpec,
    rows: &Vec<(u32, &Scalar)>,
    pick: F,
    as_int: Ghost<spec_fn(T) -> int>,
) -> (out: Vec<T>)
    requires
        forall|c: &Scalar| #[trigger] pick.requires((c,)),
        forall|c: &Scalar, r: Option<T>| #[trigger]
            pick.ensures((c,), r) ==> match spec.held(*c) {
                Held::Slot(n) => r is Some && (as_int@)(r.unwrap()) == n,
                Held::Absent => r is None,
                Held::Wrong => true,
            },
        forall|i: int| 0 <= i < rows@.len() ==> !(spec.held(*(#[trigger] rows@[i]).1) is Wrong),
    ensures
        out@.map_values(as_int@) == spec.present(rows@).map_values(
            |r: (u32, &Scalar)| spec.slot(*r.1),
        ),
{
    let mut out: Vec<T> = Vec::new();
    let ghost p = |r: (u32, &Scalar)| spec.held(*r.1) is Slot;
    let ghost f = |r: (u32, &Scalar)| spec.slot(*r.1);
    let mut i: usize = 0;
    proof {
        lemma_filter_empty(rows@, p);
        assert(out@.map_values(as_int@) =~= rows@.take(0).filter(p).map_values(f));
    }
    while i < rows.len()
        invariant
            i <= rows@.len(),
            p == |r: (u32, &Scalar)| spec.held(*r.1) is Slot,
            f == |r: (u32, &Scalar)| spec.slot(*r.1),
            forall|c: &Scalar| #[trigger] pick.requires((c,)),
            forall|c: &Scalar, r: Option<T>| #[trigger]
                pick.ensures((c,), r) ==> match spec.held(*c) {
                    Held::Slot(n) => r is Some && (as_int@)(r.unwrap()) == n,
                    Held::Absent => r is None,
                    Held::Wrong => true,
                },
            forall|k: int|
                0 <= k < rows@.len() ==> !(spec.held(*(#[trigger] rows@[k]).1) is Wrong),
            out@.map_values(as_int@) == rows@.take(i as int).filter(p).map_values(f),
        decreases rows@.len() - i,
    {
        let row = rows[i];
        let ghost kept = rows@.take(i as int).filter(p);
        let ghost before = out@;
        proof {
            lemma_filter_step(rows@, i as int, p);
            assert(!(spec.held(*rows@[i as int].1) is Wrong));
        }
        if let Some(x) = pick(row.1) {
            out.push(x);
            assert(out@.map_values(as_int@) =~= before.map_values(as_int@).push((as_int@)(x)));
            assert(kept.push(row).map_values(f) =~= kept.map_values(f).push(f(row)));
        }
        i += 1;
    }
    proof {
        lemma_take_all(rows@);
    }
    out
}

fn pick_bool(c: &Scalar) -> (r: Option<u8>)
    ensures
        r == (match *c {
            Scalar::Bool(true) => Some(1u8),
            Scalar::Bool(false) => Some(0u8),
            _ => None,
        }),
{
    match c {
        Scalar::Bool(true) => Some(1),
        Scalar::Bool(false) => Some(0),
        _ => None,
    }
}

fn pick_u8(c: &Scalar) -> (r: Option<u8>)
    ensures
        r == (match *c {
            Scalar::U8(x) => Some(x),
            _ => None,
        }),
{
    match c {
        Scalar::U8(x) => Some(*x),
        _ => None,
    }
}

fn pick_u16(c: &Scalar) -> (r: Option<u16>)
    ensures
        r == (match *c {
            Scalar::U16(x) => Some(x),
            _ => None,
        }),
{
    match c {
        Scalar::U16(x) => Some(*x),
        _ => None,
    }
}

fn pick_u32(c: &Scalar) -> (r: Option<u32>)
    ensures
        r == (match *c {
            Scalar::U32(x) => Some(x),
            _ => None,
        }),
{
    match c {
        Scalar::U32(x) => Some(*x),
        _ => None,
    }
}

fn pick_u64(c: &Scalar) -> (r: Option<u64>)
    ensures
        r == (match *c {
            Scalar::U64(x) => Some(x),
            _ => None,
        }),
{
    match c {
        Scalar::U64(x) => Some(*x),
        _ => None,
    }
}

fn pick_i8(c: &Scalar) -> (r: Option<i8>)
    ensures
        r == (match *c {
            Scalar::I8(x) => Some(x),
            _ => None,
        }),
{
    match c {
        Scalar::I8(x) => Some(*x),
        _ => None,
    }
}

fn pick_i16(c: &Scalar) -> (r: Option<i16>)
    ensures
        r == (match *c {
            Scalar::I16(x) => Some(x),
            _ => None,
        }),
{
    match c {
        Scalar::I16(x) => Some(*x),
        _ => None,
    }
}

fn pick_i32(c: &Scalar) -> (r: Option<i32>)
    ensures
        r == (match *c {
            Scalar::I32(x) => Some(x),
            _ => None,
        }),
{
    match c {
        Scalar::I32(x) => Some(*x),
        _ => None,
    }
}

fn pick_i64(c: &Scalar) -> (r: Option<i64>)
    ensures
        r == (match *c {
            Scalar::I64(x) => Some(x),
            _ => None,
        }),
{
    match c {
        Scalar::I64(x) => Some(*x),
        _ => None,
    }
}

fn pick_f32_bits(c: &Scalar) -> (r: Option<u32>)
    ensures
        r == (match *c {
            Scalar::F32(x) => Some(x),
            _ => None,
        }),
{
    match c {
        Scalar::F32(x) => Some(*x),
        _ => None,
    }
}

fn pick_f64_bits(c: &Scalar) -> (r: Option<u64>)
    ensures
        r == (match *c {
            Scalar::F64(x) => Some(x),
            _ => None,
        }),
{
    match c {
        Scalar::F64(x) => Some(*x),
        _ => None,
    }
}

fn pick_timestamp(c: &Scalar) -> (r: Option<i64>)
    ensures
        r == (match *c {
            Scalar::TimestampUs(x) => Some(x),
            _ => None,
        }),
{
    match c {
        Scalar::TimestampUs(x) => Some(*x),
        _ => None,
    }
}

/// The slots of a plain column.
fn plain_codes(spec: &FilterColumnSpec, rows: &Vec<(u32, &Scalar)>) -> (codes: Codes)
    requires
        !spec.category,
        !(spec.ty is Keyword || spec.ty is Text || spec.ty is Utf8),
        forall|i: int| 0 <= i < rows@.len() ==> !(spec.held(*(#[trigger] rows@[i]).1) is Wrong),
    ensures
        codes.width() == width_of(spec.ty, spec.category),
        codes.slots() == spec.present(rows@).map_values(|r: (u32, &Scalar)| spec.slot(*r.1)),
{
    match spec.ty {
        ScalarType::Bool => Codes::U8(gather(spec, rows, pick_bool, Ghost(|x: u8| x as int))),
        ScalarType::U8 => Codes::U8(gather(spec, rows, pick_u8, Ghost(|x: u8| x as int))),
        ScalarType::U16 => Codes::U16(gather(spec, rows, pick_u16, Ghost(|x: u16| x as int))),
        ScalarType::U32 => Codes::U32(gather(spec, rows, pick_u32, Ghost(|x: u32| x as int))),
        ScalarType::U64 => Codes::U64(gather(spec, rows, pick_u64, Ghost(|x: u64| x as int))),
        ScalarType::I8 => Codes::I8(gather(spec, rows, pick_i8, Ghost(|x: i8| x as int))),
        ScalarType::I16 => Codes::I16(gather(spec, rows, pick_i16, Ghost(|x: i16| x as int))),
        ScalarType::I32 => Codes::I32(gather(spec, rows, pick_i32, Ghost(|x: i32| x as int))),
        ScalarType::I64 => Codes::I64(gather(spec, rows, pick_i64, Ghost(|x: i64| x as int))),
        ScalarType::F32 => Codes::F32(gather(spec, rows, pick_f32_bits, Ghost(|x: u32| x as int))),
        ScalarType::F64 => Codes::F64(gather(spec, rows, pick_f64_bits, Ghost(|x: u64| x as int))),
        ScalarType::TimestampUs => Codes::I64(gather(spec, rows, pick_timestamp, Ghost(|x: i64| x as int))),
        ScalarType::Keyword | ScalarType::Text | ScalarType::Utf8 => Codes::U32(Vec::new()),
    }
}

fn pick_code(c: &Scalar) -> (r: Option<u32>)
    ensures
        r == (match code_of(*c) {
            Some(code) => if code == ABSENT_CODE {
                None
            } else {
                Some(code)
            },
            None => None,
        }),
{
    match cell_code(c) {
        Some(code) => if code == ABSENT_CODE {
            None
        } else {
            Some(code)
        },
        None => None,
    }
}

fn pick_code_u8(c: &Scalar) -> (r: Option<u8>)
    ensures
        r == (match code_of(*c) {
            Some(code) => if code == ABSENT_CODE || code > u8::MAX {
                None
            } else {
                Some(code as u8)
            },
            None => None,
        }),
{
    match pick_code(c) {
        Some(code) => if code > u8::MAX as u32 {
            None
        } else {
            Some(code as u8)
        },
        None => None,
    }
}

fn pick_code_u16(c: &Scalar) -> (r: Option<u16>)
    ensures
        r == (match code_of(*c) {
            Some(code) => if code == ABSENT_CODE || code > u16::MAX {
                None
            } else {
                Some(code as u16)
            },
            None => None,
        }),
{
    match pick_code(c) {
        Some(code) => if code > u16::MAX as u32 {
            None
        } else {
            Some(code as u16)
        },
        None => None,
    }
}

/// The slots of a category column.
fn category_codes(spec: &FilterColumnSpec, rows: &Vec<(u32, &Scalar)>) -> (codes: Codes)
    requires
        spec.category,
        !(spec.ty is Keyword),
        forall|i: int| 0 <= i < rows@.len() ==> !(spec.held(*(#[trigger] rows@[i]).1) is Wrong),
    ensures
        codes.width() == width_of(spec.ty, spec.category),
        codes.slots() == spec.present(rows@).map_values(|r: (u32, &Scalar)| spec.slot(*r.1)),
{
    match spec.ty {
        ScalarType::U8 => Codes::U8(gather(spec, rows, pick_code_u8, Ghost(|x: u8| x as int))),
        ScalarType::U16 => Codes::U16(gather(spec, rows, pick_code_u16, Ghost(|x: u16| x as int))),
        _ => Codes::U32(gather(spec, rows, pick_code, Ghost(|x: u32| x as int))),
    }
}

/// The texts of the present rows of a keyword column.
fn keyword_texts(spec: &FilterColumnSpec, rows: &Vec<(u32, &Scalar)>) -> (out: Vec<String>)
    requires
        spec.ty is Keyword,
    ensures
        out@.len() == spec.present(rows@).len(),
        out@.len() <= rows@.len(),
        forall|k: int| 0 <= k < out@.len() ==> (#[trigger] out@[k])@ == text_of(*spec.present(rows@)[k].1),
{
    let mut out: Vec<String> = Vec::new();
    let ghost p = |r: (u32, &Scalar)| spec.held(*r.1) is Slot;
    let mut i: usize = 0;
    proof {
        lemma_filter_empty(rows@, p);
    }
    while i < rows.len()
        invariant
            i <= rows@.len(),
            spec.ty is Keyword,
            p == |r: (u32, &Scalar)| spec.held(*r.1) is Slot,
            out@.len() <= i,
            out@.len() == rows@.take(i as int).filter(p).len(),
            forall|k: int|
                0 <= k < out@.len() ==> (#[trigger] out@[k])@ == text_of(
                    *rows@.take(i as int).filter(p)[k].1,
                ),
        decreases rows@.len() - i,
    {
        let row = rows[i];
        proof {
            lemma_filter_step(rows@, i as int, p);
        }
        if let Scalar::Utf8(text) = row.1 {
            out.push(text.clone());
        }
        i += 1;
    }
    proof {
        lemma_take_all(rows@);
    }
    out
}

/// Whether `keys` numbers a keyword column: its distinct texts in byte order, and each present
/// row's slot the position of its text.
pub open spec fn numbers_texts(
    keys: Seq<String>,
    slots: Seq<int>,
    present: Seq<(u32, &Scalar)>,
) -> bool {
    &&& strictly_sorted(keys)
    &&& forall|text: Seq<char>|
        lists(keys, text) == exists|k: int|
            0 <= k < present.len() && text_of(*(#[trigger] present[k]).1) == text
    &&& slots.len() == present.len()
    &&& forall|k: int|
        0 <= k < slots.len() ==> 0 <= #[trigger] slots[k] < keys.len() && keys[slots[k]]@
            == text_of(*present[k].1)
}

fn keyword_column(spec: &FilterColumnSpec, rows: &Vec<(u32, &Scalar)>, presence: Bitmap) -> (column:
    ExtentColumn)
    requires
        spec.ty is Keyword,
        rows@.len() <= 0x1_0000_0000,
    ensures
        column.presence == presence,
        column.codes.width() is U32,
        column.dict_keys matches Some(keys) && numbers_texts(
            keys@,
            column.codes.slots(),
            spec.present(rows@),
        ),
{
    let held = keyword_texts(spec, rows);
    let ghost present = spec.present(rows@);
    let mut copies: Vec<String> = Vec::new();
    let mut i: usize = 0;
    while i < held.len()
        invariant
            i <= held@.len(),
            copies@ == held@.take(i as int),
        decreases held@.len() - i,
    {
        copies.push(held[i].clone());
        i += 1;
        assert(held@.take(i as int) =~= held@.take(i - 1).push(held@[i - 1]));
    }
    assert(copies@ =~= held@);
    let keys = sorted_distinct_strings(copies);
    let mut ordinals: Vec<u32> = Vec::new();
    let mut j: usize = 0;
    proof {
        lemma_keys_are_few(keys@, held@);
    }
    while j < held.len()
        invariant
            j <= held@.len(),
            strictly_sorted(keys@),
            keys@.len() <= 0x1_0000_0000,
            forall|text: Seq<char>| lists(keys@, text) == lists(held@, text),
            ordinals@.len() == j,
            forall|k: int|
                0 <= k < j ==> (#[trigger] ordinals@[k]) < keys@.len() && keys@[ordinals@[k] as int]@
                    == held@[k]@,
        decreases held@.len() - j,
    {
        let found = search(&keys, &held[j]);
        proof {
            assert(held@[j as int]@ == held@[j as int]@);
            assert(lists(held@, held@[j as int]@));
            let k = choose|k: int|
                0 <= k < keys@.len() && (#[trigger] keys@[k])@ == held@[j as int]@;
            <String as crate::order::Ranked>::precedes_total(keys@[k], held@[j as int]);
            assert(ties(keys@[k], held@[j as int]));
            assert(holds_tie(keys@, held@[j as int]));
        }
        if let Some(at) = found {
            proof {
                lemma_string_ties_are_equal(keys@[at as int], held@[j as int]);
            }
            ordinals.push(at as u32);
        }
        j += 1;
    }
    let codes = Codes::U32(ordinals);
    proof {
        assert forall|text: Seq<char>|
            lists(keys@, text) == exists|k: int|
                0 <= k < present.len() && text_of(*(#[trigger] present[k]).1) == text by {
            if lists(held@, text) {
                let k = choose|k: int| 0 <= k < held@.len() && (#[trigger] held@[k])@ == text;
                assert(text_of(*present[k].1) == text);
            }
            if exists|k: int| 0 <= k < present.len() && text_of(*(#[trigger] present[k]).1) == text {
                let k = choose|k: int|
                    0 <= k < present.len() && text_of(*(#[trigger] present[k]).1) == text;
                assert(held@[k]@ == text);
            }
        }
    }
    ExtentColumn { codes, presence, dict_keys: Some(keys) }
}

/// Distinct texts are no more than the texts they are of.
proof fn lemma_keys_are_few(keys: Seq<String>, held: Seq<String>)
    requires
        strictly_sorted(keys),
        forall|text: Seq<char>| lists(keys, text) == lists(held, text),
    ensures
        keys.len() <= held.len(),
{
    let at = |i: int| choose|k: int| 0 <= k < held.len() && (#[trigger] held[k])@ == keys[i]@;
    let from = Set::new(|i: int| 0 <= i < keys.len());
    vstd::set_lib::lemma_int_range(0, keys.len() as int);
    vstd::set_lib::lemma_int_range(0, held.len() as int);
    let image = from.map(at);
    assert(from =~= vstd::set_lib::set_int_range(0, keys.len() as int));
    assert forall|i: int| 0 <= i < keys.len() implies 0 <= #[trigger] at(i) < held.len()
        && held[at(i)]@ == keys[i]@ by {
        assert(keys[i]@ == keys[i]@);
        assert(lists(keys, keys[i]@));
        assert(lists(held, keys[i]@));
    }
    assert forall|i: int, j: int| from.contains(i) && from.contains(j) && #[trigger] at(i)
        == #[trigger] at(j) implies i == j by {
        if i != j {
            let (a, b) = if i < j {
                (i, j)
            } else {
                (j, i)
            };
            assert(keys[a]@ == keys[b]@);
            <String as crate::order::Ranked>::precedes_total(keys[a], keys[b]);
            assert(keys[a].precedes(keys[b]) && !keys[b].precedes(keys[a]));
        }
    }
    vstd::set_lib::lemma_map_size(from, image, at);
    assert(image.subset_of(vstd::set_lib::set_int_range(0, held.len() as int)));
    vstd::set_lib::lemma_len_subset(image, vstd::set_lib::set_int_range(0, held.len() as int));
}

/// One column of a flush, from the cells of its rows.
///
/// A keyword column is numbered by its own distinct values, so a slot means nothing beside another
/// flush's dictionary; a category's [`ABSENT_CODE`] and every other column's null carry no value
/// and take no slot.
pub fn extent_values(spec: &FilterColumnSpec, rows: &Vec<(u32, &Scalar)>) -> (out: Result<
    ExtentColumn,
    FlushFailed,
>)
    requires
        spec.storable(),
        rows@.len() <= 0x1_0000_0000,
    ensures
        out is Err <==> spec.rows_failure(rows@) is Some,
        out matches Err(why) ==> spec.rows_failure(rows@) == Some(why),
        out matches Ok(column) ==> spec.gathers(rows@, column),
{
    let presence = spec.presence_of(rows)?;
    if spec.ty == ScalarType::Keyword {
        return Ok(keyword_column(spec, rows, presence));
    }
    if spec.category {
        return Ok(ExtentColumn::flat(category_codes(spec, rows), presence));
    }
    Ok(ExtentColumn::flat(plain_codes(spec, rows), presence))
}

/// A slot belongs to its entity: where the rows' entities ascend, the slot at `k` is of the present
/// entity with `k` others below it, so a column is read back by ranking an entity in its presence.
pub proof fn law_a_slot_is_found_by_rank(
    spec: FilterColumnSpec,
    rows: Seq<(u32, &Scalar)>,
    column: ExtentColumn,
    k: int,
)
    requires
        ascending(entities(rows)),
        spec.gathers(rows, column),
        0 <= k < spec.present(rows).len(),
    ensures
        bits(column.presence).contains(spec.present(rows)[k].0),
        bits(column.presence).intersect(span(0, spec.present(rows)[k].0 as int)).len() == k,
{
    let present = spec.present(rows);
    let holders = entities(present);
    lemma_present_ascends(spec, rows);
    assert(holders.contains(holders[k]));
    let below = bits(column.presence).intersect(span(0, present[k].0 as int));
    let first = holders.take(k);
    assert forall|e: u32| below.contains(e) == first.to_set().contains(e) by {
        if below.contains(e) {
            let j = choose|j: int| 0 <= j < holders.len() && holders[j] == e;
            if j >= k {
                assert(holders[k] <= holders[j]);
            }
            assert(first[j] == e);
        }
        if first.contains(e) {
            let j = choose|j: int| 0 <= j < first.len() && first[j] == e;
            assert(holders[j] < holders[k]);
            assert(holders.contains(holders[j]));
        }
    }
    assert(below =~= first.to_set());
    assert(first.no_duplicates()) by {
        assert forall|i: int, j: int|
            0 <= i < first.len() && 0 <= j < first.len() && i != j implies first[i] != first[j] by {
            if i < j {
                assert(holders[i] < holders[j]);
            } else {
                assert(holders[j] < holders[i]);
            }
        }
    }
    first.unique_seq_to_set();
}

/// The present rows' entities ascend where the rows' do.
proof fn lemma_present_ascends(spec: FilterColumnSpec, rows: Seq<(u32, &Scalar)>)
    requires
        ascending(entities(rows)),
    ensures
        ascending(entities(spec.present(rows))),
        forall|k: int|
            0 <= k < spec.present(rows).len() ==> rows.contains(#[trigger] spec.present(rows)[k]),
    decreases rows.len(),
{
    reveal(Seq::filter);
    if rows.len() > 0 {
        let rest = rows.drop_last();
        assert forall|i: int, j: int| 0 <= i < j < rest.len() implies entities(rest)[i] < entities(
            rest,
        )[j] by {
            assert(entities(rows)[i] < entities(rows)[j]);
        }
        lemma_present_ascends(spec, rest);
        let kept = spec.present(rest);
        let whole = spec.present(rows);
        assert forall|k: int| 0 <= k < whole.len() implies rows.contains(#[trigger] whole[k]) by {
            if k < kept.len() {
                assert(whole[k] == kept[k]);
                let j = choose|j: int| 0 <= j < rest.len() && rest[j] == kept[k];
                assert(rows[j] == whole[k]);
            } else {
                assert(rows[rows.len() - 1] == whole[k]);
            }
        }
        assert forall|i: int, j: int| 0 <= i < j < whole.len() implies entities(whole)[i]
            < entities(whole)[j] by {
            assert(whole[i] == kept[i]);
            if j < kept.len() {
                assert(entities(kept)[i] < entities(kept)[j]);
            } else {
                assert(rest.contains(kept[i]));
                let d = choose|d: int| 0 <= d < rest.len() && rest[d] == kept[i];
                assert(entities(rows)[d] < entities(rows)[rows.len() - 1]);
            }
        }
    }
}

/// Where a present cell's slot stands: with as many slots before it as there are present cells.
proof fn lemma_present_at(spec: FilterColumnSpec, rows: Seq<(u32, &Scalar)>, i: int) -> (k: int)
    requires
        0 <= i < rows.len(),
        spec.held(*rows[i].1) is Slot,
    ensures
        0 <= k < spec.present(rows).len(),
        spec.present(rows)[k] == rows[i],
{
    let p = |r: (u32, &Scalar)| spec.held(*r.1) is Slot;
    let at = lemma_filter_positions(rows, p);
    assert(p(rows[i]));
    choose|k: int| 0 <= k < at.len() && at[k] == i
}

/// A column that holds stored values holds each row's own, at the place the row's entity has among
/// the entities present: an entity is present exactly where its cell is not null, its slot is at its
/// rank, and the slot is the cell's value in the column's width.
pub proof fn law_a_value_column_holds_each_cell_at_its_rank(
    spec: FilterColumnSpec,
    rows: Seq<(u32, &Scalar)>,
    column: ExtentColumn,
    i: int,
)
    requires
        forall|a: int, b: int| 0 <= a < b < rows.len() ==> (#[trigger] rows[a]).0 < (
        #[trigger] rows[b]).0,
        spec.rows_failure(rows) is None,
        spec.gathers(rows, column),
        !(spec.ty is Keyword),
        !spec.category,
        0 <= i < rows.len(),
    ensures
        column.dict_keys is None,
        bits(column.presence).contains(rows[i].0) <==> !(*rows[i].1 is Null),
        !(*rows[i].1 is Null) ==> ({
            let rank = bits(column.presence).intersect(span(0, rows[i].0 as int)).len() as int;
            match *rows[i].1 {
                Scalar::Bool(x) => spec.ty is Bool && column.codes is U8 && column.codes->U8_0@[rank]
                    == if x {
                    1u8
                } else {
                    0u8
                },
                Scalar::U8(x) => spec.ty is U8 && column.codes is U8 && column.codes->U8_0@[rank]
                    == x,
                Scalar::U16(x) => spec.ty is U16 && column.codes is U16
                    && column.codes->U16_0@[rank] == x,
                Scalar::U32(x) => spec.ty is U32 && column.codes is U32
                    && column.codes->U32_0@[rank] == x,
                Scalar::U64(x) => spec.ty is U64 && column.codes is U64
                    && column.codes->U64_0@[rank] == x,
                Scalar::I8(x) => spec.ty is I8 && column.codes is I8 && column.codes->I8_0@[rank]
                    == x,
                Scalar::I16(x) => spec.ty is I16 && column.codes is I16
                    && column.codes->I16_0@[rank] == x,
                Scalar::I32(x) => spec.ty is I32 && column.codes is I32
                    && column.codes->I32_0@[rank] == x,
                Scalar::I64(x) => spec.ty is I64 && column.codes is I64
                    && column.codes->I64_0@[rank] == x,
                Scalar::F32(x) => spec.ty is F32 && column.codes is F32
                    && column.codes->F32_0@[rank] == x,
                Scalar::F64(x) => spec.ty is F64 && column.codes is F64
                    && column.codes->F64_0@[rank] == x,
                Scalar::TimestampUs(x) => spec.ty is TimestampUs && column.codes is I64
                    && column.codes->I64_0@[rank] == x,
                _ => false,
            }
        }),
{
    lemma_rows_ascend(rows);
    let f = |r: (u32, &Scalar)| spec.failure(*r.1);
    let _ = lemma_first_some_at(rows, f);
    assert(f(rows[i]) is None);
    assert(!(spec.held(*rows[i].1) is Wrong));
    lemma_present_entity(spec, rows, column, i);
    if spec.held(*rows[i].1) is Slot {
        let k = lemma_present_at(spec, rows, i);
        law_a_slot_is_found_by_rank(spec, rows, column, k);
        assert(column.codes.slots()[k] == spec.slot(*rows[i].1));
        assert(column.codes.width() == width_of(spec.ty, spec.category));
        assert(column.codes.slots().len() == spec.present(rows).len());
        lemma_slot(column.codes, k);
    }
}

/// A category column holds each row's code at the place the row's entity has among the entities
/// present. The absent code, and no code at all, takes no place, and no code is wider than its column.
pub proof fn law_a_category_column_holds_each_code_at_its_rank(
    spec: FilterColumnSpec,
    rows: Seq<(u32, &Scalar)>,
    column: ExtentColumn,
    i: int,
    code: u32,
)
    requires
        forall|a: int, b: int| 0 <= a < b < rows.len() ==> (#[trigger] rows[a]).0 < (
        #[trigger] rows[b]).0,
        spec.rows_failure(rows) is None,
        spec.gathers(rows, column),
        !(spec.ty is Keyword),
        spec.category,
        0 <= i < rows.len(),
        *rows[i].1 is Null && code == ABSENT_CODE || *rows[i].1 == Scalar::U32(code) || (
        *rows[i].1 is U16 && (*rows[i].1)->U16_0 == code) || (*rows[i].1 is U8 && (
        *rows[i].1)->U8_0 == code),
    ensures
        bits(column.presence).contains(rows[i].0) <==> code != ABSENT_CODE,
        code != ABSENT_CODE ==> ({
            let rank = bits(column.presence).intersect(span(0, rows[i].0 as int)).len() as int;
            &&& spec.ty is U8 ==> column.codes is U8 && column.codes->U8_0@[rank] == code
            &&& spec.ty is U16 ==> column.codes is U16 && column.codes->U16_0@[rank] == code
            &&& !(spec.ty is U8) && !(spec.ty is U16) ==> column.codes is U32
                && column.codes->U32_0@[rank] == code
        }),
{
    lemma_rows_ascend(rows);
    let f = |r: (u32, &Scalar)| spec.failure(*r.1);
    let _ = lemma_first_some_at(rows, f);
    assert(f(rows[i]) is None);
    assert(!(spec.held(*rows[i].1) is Wrong));
    lemma_present_entity(spec, rows, column, i);
    if spec.held(*rows[i].1) is Slot {
        let k = lemma_present_at(spec, rows, i);
        law_a_slot_is_found_by_rank(spec, rows, column, k);
        assert(column.codes.slots()[k] == spec.slot(*rows[i].1));
        assert(column.codes.width() == width_of(spec.ty, spec.category));
        assert(column.codes.slots().len() == spec.present(rows).len());
        lemma_slot(column.codes, k);
    }
}

/// A keyword column's slot at an entity's rank numbers the entity's own text in the column's keys,
/// which are distinct. A null takes no place.
pub proof fn law_a_keyword_column_numbers_each_text_at_its_rank(
    spec: FilterColumnSpec,
    rows: Seq<(u32, &Scalar)>,
    column: ExtentColumn,
    i: int,
)
    requires
        forall|a: int, b: int| 0 <= a < b < rows.len() ==> (#[trigger] rows[a]).0 < (
        #[trigger] rows[b]).0,
        spec.rows_failure(rows) is None,
        spec.gathers(rows, column),
        spec.ty is Keyword,
        0 <= i < rows.len(),
    ensures
        *rows[i].1 is Null || *rows[i].1 is Utf8,
        bits(column.presence).contains(rows[i].0) <==> *rows[i].1 is Utf8,
        *rows[i].1 is Utf8 ==> ({
            let rank = bits(column.presence).intersect(span(0, rows[i].0 as int)).len() as int;
            &&& column.dict_keys is Some
            &&& column.codes is U32
            &&& column.codes->U32_0@[rank] < column.dict_keys->0@.len()
            &&& column.dict_keys->0@[column.codes->U32_0@[rank] as int]@ == (
            *rows[i].1)->Utf8_0@
        }),
{
    lemma_rows_ascend(rows);
    let f = |r: (u32, &Scalar)| spec.failure(*r.1);
    let _ = lemma_first_some_at(rows, f);
    assert(f(rows[i]) is None);
    assert(!(spec.held(*rows[i].1) is Wrong));
    lemma_present_entity(spec, rows, column, i);
    if spec.held(*rows[i].1) is Slot {
        let k = lemma_present_at(spec, rows, i);
        law_a_slot_is_found_by_rank(spec, rows, column, k);
        let keys = column.dict_keys->0@;
        assert(numbers_texts(keys, column.codes.slots(), spec.present(rows)));
        assert(keys[column.codes.slots()[k]]@ == text_of(*spec.present(rows)[k].1));
        lemma_slot(column.codes, k);
    }
}

/// A slot is the code at its place.
proof fn lemma_slot(codes: Codes, k: int)
    requires
        0 <= k < codes.slots().len(),
    ensures
        codes is U8 ==> codes->U8_0@[k] == codes.slots()[k],
        codes is U16 ==> codes->U16_0@[k] == codes.slots()[k],
        codes is U32 ==> codes->U32_0@[k] == codes.slots()[k],
        codes is U64 ==> codes->U64_0@[k] == codes.slots()[k],
        codes is I8 ==> codes->I8_0@[k] == codes.slots()[k],
        codes is I16 ==> codes->I16_0@[k] == codes.slots()[k],
        codes is I32 ==> codes->I32_0@[k] == codes.slots()[k],
        codes is I64 ==> codes->I64_0@[k] == codes.slots()[k],
        codes is F32 ==> codes->F32_0@[k] == codes.slots()[k],
        codes is F64 ==> codes->F64_0@[k] == codes.slots()[k],
{
}

proof fn lemma_rows_ascend(rows: Seq<(u32, &Scalar)>)
    requires
        forall|a: int, b: int| 0 <= a < b < rows.len() ==> (#[trigger] rows[a]).0 < (
        #[trigger] rows[b]).0,
    ensures
        ascending(entities(rows)),
{
    assert forall|a: int, b: int| 0 <= a < b < rows.len() implies entities(rows)[a] < entities(
        rows,
    )[b] by {
        assert(rows[a].0 < rows[b].0);
    }
}

/// An entity is present where its own cell is held.
proof fn lemma_present_entity(
    spec: FilterColumnSpec,
    rows: Seq<(u32, &Scalar)>,
    column: ExtentColumn,
    i: int,
)
    requires
        forall|a: int, b: int| 0 <= a < b < rows.len() ==> (#[trigger] rows[a]).0 < (
        #[trigger] rows[b]).0,
        spec.gathers(rows, column),
        0 <= i < rows.len(),
    ensures
        bits(column.presence).contains(rows[i].0) <==> spec.held(*rows[i].1) is Slot,
{
    let p = |r: (u32, &Scalar)| spec.held(*r.1) is Slot;
    let at = lemma_filter_positions(rows, p);
    let holders = entities(spec.present(rows));
    if spec.held(*rows[i].1) is Slot {
        let k = lemma_present_at(spec, rows, i);
        assert(holders[k] == rows[i].0);
    }
    if holders.contains(rows[i].0) {
        let k = choose|k: int| 0 <= k < holders.len() && holders[k] == rows[i].0;
        assert(rows[at[k]].0 == rows[i].0);
        if at[k] < i {
            assert(rows[at[k]].0 < rows[i].0);
        } else if i < at[k] {
            assert(rows[i].0 < rows[at[k]].0);
        }
    }
}

} // verus!
