//! A page's columns: the values of the rows a walk took, and the bytes they come to.
//!
//! Rows are read a run at a time, the first run short and each after it twice as long, and taken
//! into the page while they fit its byte ceiling, so the rows past the ceiling are read at most once
//! and never kept.

use std::collections::HashMap;
use vstd::prelude::*;
use vstd::utf8::encode_utf8;

use crate::records::walk::Taken;
use crate::scalar::{Scalar, ScalarType};
use crate::seqs::{first_at, lemma_first_at};
use crate::text::{byte_len, bytes_in};

verus! {

/// The rows the first read of a page covers. Each read after it covers twice as many.
pub const FIRST_READ: usize = 256;

/// The keys a vocabulary binds its codes to.
#[derive(Debug)]
pub struct Vocabulary {
    pub bindings: Vec<(u32, String)>,
}

impl Vocabulary {
    /// The key that explains a code, if a binding does: the first.
    pub open spec fn key(&self, code: u32) -> Option<Seq<char>> {
        key_in(self.bindings@, code)
    }

    /// [`Vocabulary::key`], computed.
    pub fn key_of(&self, code: u32) -> (key: Option<&String>)
        ensures
            key is Some <==> self.key(code) is Some,
            key matches Some(k) ==> self.key(code) == Some(k@),
    {
        let mut i: usize = 0;
        assert(self.bindings@.skip(0) =~= self.bindings@);
        while i < self.bindings.len()
            invariant
                i <= self.bindings@.len(),
                key_in(self.bindings@, code) == key_in(self.bindings@.skip(i as int), code),
            decreases self.bindings@.len() - i,
        {
            let ghost rest = self.bindings@.skip(i as int);
            assert(rest[0] == self.bindings@[i as int]);
            assert(rest.skip(1) =~= self.bindings@.skip(i + 1));
            if self.bindings[i].0 == code {
                return Some(&self.bindings[i].1);
            }
            i += 1;
        }
        assert(self.bindings@.skip(i as int) =~= Seq::<(u32, String)>::empty());
        None
    }
}

/// The first key bound to a code.
pub open spec fn key_in(bindings: Seq<(u32, String)>, code: u32) -> Option<Seq<char>>
    decreases bindings.len(),
{
    if bindings.len() == 0 {
        None
    } else if bindings[0].0 == code {
        Some(bindings[0].1@)
    } else {
        key_in(bindings.skip(1), code)
    }
}

/// A named field, as a page holds it.
#[derive(Debug)]
pub struct PageField {
    /// The column's name in every page.
    pub name: String,
    pub ty: ScalarType,
    pub vocabulary: Option<Vocabulary>,
}

/// A category field's cell.
#[derive(Clone, Copy, Debug, PartialEq, Eq, Structural)]
pub enum CategoryCell {
    Absent,
    Code(u32),
    /// A value that is no code.
    Foreign,
}

/// One named field's values over a run of rows, as its home holds them.
#[derive(Debug)]
pub enum RunColumn {
    Scalar(Vec<Option<Scalar>>),
    Category(Vec<CategoryCell>),
}

/// One system field's values. A coordinate is carried as its bit pattern.
#[derive(Debug)]
pub enum SystemValues {
    Position(Vec<(u64, u64)>),
    ExternalId(Vec<Option<Vec<u8>>>),
    Labels(Vec<Vec<String>>),
}

/// The fields of one run of rows.
#[derive(Debug)]
pub struct Run {
    pub named: Vec<RunColumn>,
    pub system: Vec<SystemValues>,
}

/// The system fields a page can carry.
#[derive(Clone, Copy, Debug, PartialEq, Eq, Structural)]
pub enum SystemField {
    Position,
    ExternalId,
    Labels,
}

impl SystemField {
    /// The field a request names.
    pub open spec fn named(name: Seq<char>) -> Option<SystemField> {
        if name == "position"@ {
            Some(SystemField::Position)
        } else if name == "external_id"@ {
            Some(SystemField::ExternalId)
        } else if name == "labels"@ {
            Some(SystemField::Labels)
        } else {
            None
        }
    }

    /// The field a request names, if there is one of that name.
    pub fn parse(name: &str) -> (field: Option<SystemField>)
        ensures
            field == SystemField::named(name@),
    {
        if crate::text::same(name, "position") {
            Some(SystemField::Position)
        } else if crate::text::same(name, "external_id") {
            Some(SystemField::ExternalId)
        } else if crate::text::same(name, "labels") {
            Some(SystemField::Labels)
        } else {
            None
        }
    }

    /// How many columns the field makes.
    pub open spec fn columns(self) -> nat {
        match self {
            SystemField::Position => 2,
            _ => 1,
        }
    }
}

/// A field whose stored value is not of its declared type.
#[derive(Clone, Debug, PartialEq, Eq)]
pub struct FieldMismatch {
    pub name: String,
    pub ty: ScalarType,
}

/// The bytes one value of a type adds to its column: for a string, its offset.
pub open spec fn width_of(ty: ScalarType) -> nat {
    match ty {
        ScalarType::Bool | ScalarType::U8 | ScalarType::I8 => 1,
        ScalarType::U16 | ScalarType::I16 => 2,
        ScalarType::U32 | ScalarType::I32 | ScalarType::F32 => 4,
        ScalarType::U64 | ScalarType::I64 | ScalarType::F64 | ScalarType::TimestampUs => 8,
        ScalarType::Utf8 | ScalarType::Keyword | ScalarType::Text => 4,
    }
}

/// [`width_of`], computed.
pub fn width(ty: ScalarType) -> (bytes: usize)
    ensures
        bytes == width_of(ty),
{
    match ty {
        ScalarType::Bool | ScalarType::U8 | ScalarType::I8 => 1,
        ScalarType::U16 | ScalarType::I16 => 2,
        ScalarType::U32 | ScalarType::I32 | ScalarType::F32 => 4,
        ScalarType::U64 | ScalarType::I64 | ScalarType::F64 | ScalarType::TimestampUs => 8,
        ScalarType::Utf8 | ScalarType::Keyword | ScalarType::Text => 4,
    }
}

/// What a scalar cell adds beside its type's width.
pub open spec fn beside(cell: Option<Scalar>) -> nat {
    match cell {
        Some(Scalar::Utf8(text)) => byte_len(text@),
        _ => 0,
    }
}

/// Whether some cell holds a code.
pub open spec fn carries(cells: Seq<CategoryCell>, code: u32) -> bool {
    cells.contains(CategoryCell::Code(code))
}

/// What a category cell adds: its position, and where its code is the first of its kind and has a
/// key, the key and its offset.
pub open spec fn category_bytes(
    vocabulary: Vocabulary,
    before: Seq<CategoryCell>,
    cell: CategoryCell,
) -> nat {
    match cell {
        CategoryCell::Code(code) => match vocabulary.key(code) {
            Some(key) => if carries(before, code) {
                4
            } else {
                8 + byte_len(key)
            },
            None => 4,
        },
        _ => 4,
    }
}

/// The codes of some cells that have a key, each once, in the order cells first carry them.
pub open spec fn keyed_codes(vocabulary: Vocabulary, cells: Seq<CategoryCell>) -> Seq<u32>
    decreases cells.len(),
{
    if cells.len() == 0 {
        Seq::empty()
    } else {
        let front = keyed_codes(vocabulary, cells.drop_last());
        match cells.last() {
            CategoryCell::Code(code) => if vocabulary.key(code) is Some && !carries(
                cells.drop_last(),
                code,
            ) {
                front.push(code)
            } else {
                front
            },
            _ => front,
        }
    }
}

/// A category cell's position in the dictionary of `cells`.
pub open spec fn position_of(
    vocabulary: Vocabulary,
    cells: Seq<CategoryCell>,
    cell: CategoryCell,
) -> Option<int> {
    match cell {
        CategoryCell::Code(code) => first_at(keyed_codes(vocabulary, cells), code),
        _ => None,
    }
}

/// What is known of the keyed codes of some cells.
proof fn lemma_keyed_codes(vocabulary: Vocabulary, cells: Seq<CategoryCell>, code: u32)
    ensures
        keyed_codes(vocabulary, cells).contains(code) == (carries(cells, code) && vocabulary.key(
            code,
        ) is Some),
        keyed_codes(vocabulary, cells).len() <= cells.len(),
    decreases cells.len(),
{
    if cells.len() > 0 {
        let front = cells.drop_last();
        lemma_keyed_codes(vocabulary, front, code);
        let held = keyed_codes(vocabulary, front);
        assert(cells =~= front.push(cells.last()));
        let marked = CategoryCell::Code(code);
        if front.contains(marked) {
            let i = choose|i: int| 0 <= i < front.len() && front[i] == marked;
            assert(cells[i] == marked);
        }
        if cells.contains(marked) && cells.last() != marked {
            let i = choose|i: int| 0 <= i < cells.len() && cells[i] == marked;
            assert(front[i] == marked);
        }
        if cells.last() == marked {
            assert(cells[cells.len() - 1] == marked);
        }
        match cells.last() {
            CategoryCell::Code(c) => {
                let grown = held.push(c);
                if held.contains(code) {
                    let i = choose|i: int| 0 <= i < held.len() && held[i] == code;
                    assert(grown[i] == code);
                }
                if c == code {
                    assert(grown[held.len() as int] == code);
                }
                if grown.contains(code) && c != code {
                    let i = choose|i: int| 0 <= i < grown.len() && grown[i] == code;
                    assert(held[i] == code);
                }
            },
            _ => {},
        }
    }
}

/// The dictionary only grows: a code that has a position keeps it.
proof fn lemma_positions_stay(
    vocabulary: Vocabulary,
    cells: Seq<CategoryCell>,
    more: CategoryCell,
    code: u32,
)
    requires
        carries(cells, code),
    ensures
        first_at(keyed_codes(vocabulary, cells.push(more)), code) == first_at(
            keyed_codes(vocabulary, cells),
            code,
        ),
{
    let held = keyed_codes(vocabulary, cells);
    let next = keyed_codes(vocabulary, cells.push(more));
    assert(cells.push(more).drop_last() =~= cells);
    lemma_keyed_codes(vocabulary, cells, code);
    lemma_keyed_codes(vocabulary, cells.push(more), code);
    if next != held {
        let c = next.last();
        assert(next =~= held.push(c));
        assert(next.drop_last() =~= held);
        crate::seqs::lemma_first_at(held, code);
        crate::seqs::lemma_first_at(next, code);
        if held.contains(code) {
            crate::seqs::lemma_first_at_append(held, seq![c], code);
            assert(held + seq![c] =~= next);
        } else {
            assert(!next.contains(code)) by {
                let marked = CategoryCell::Code(code);
                let i = choose|i: int| 0 <= i < cells.len() && cells[i] == marked;
                assert(cells.push(more)[i] == marked);
            }
        }
    }
}

/// A category column over the rows a page has taken.
pub struct CategoryColumn {
    /// Each code's key once, in the order rows first carry it.
    pub dictionary: Vec<String>,
    /// Each code carried so far to its place in the dictionary, where it has a key.
    pub position: HashMap<u32, Option<i32>>,
    /// Each row's place in the dictionary.
    pub keys: Vec<Option<i32>>,
    /// The cells taken.
    pub cells: Ghost<Seq<CategoryCell>>,
}

impl CategoryColumn {
    /// The dictionary, the positions and the keys are those of the cells taken.
    pub open spec fn wf(&self, vocabulary: Vocabulary) -> bool {
        let cells = self.cells@;
        let codes = keyed_codes(vocabulary, cells);
        &&& self.dictionary@.len() == codes.len()
        &&& forall|i: int|
            0 <= i < codes.len() ==> vocabulary.key(#[trigger] codes[i]) == Some(
                self.dictionary@[i]@,
            )
        &&& forall|code: u32| #[trigger]
            self.position@.contains_key(code) == carries(cells, code)
        &&& forall|code: u32|
            carries(cells, code) ==> places(#[trigger] self.position@[code], first_at(codes, code))
        &&& self.keys@.len() == cells.len()
        &&& forall|i: int|
            0 <= i < cells.len() ==> places(
                #[trigger] self.keys@[i],
                position_of(vocabulary, cells, cells[i]),
            )
        &&& forall|i: int| 0 <= i < cells.len() ==> !((#[trigger] cells[i]) is Foreign)
        &&& codes.len() <= i32::MAX
    }

    fn new(vocabulary: &Vocabulary) -> (column: Self)
        ensures
            column.wf(*vocabulary),
            column.cells@.len() == 0,
    {
        broadcast use vstd::std_specs::hash::group_hash_axioms;

        let column = CategoryColumn {
            dictionary: Vec::new(),
            position: HashMap::new(),
            keys: Vec::new(),
            cells: Ghost(Seq::empty()),
        };
        column
    }

    /// What the next cell would add.
    fn cost(&self, cell: CategoryCell, vocabulary: &Vocabulary) -> (bytes: usize)
        requires
            self.wf(*vocabulary),
            category_bytes(*vocabulary, self.cells@, cell) <= usize::MAX,
        ensures
            bytes == category_bytes(*vocabulary, self.cells@, cell),
    {
        broadcast use vstd::std_specs::hash::group_hash_axioms;

        match cell {
            CategoryCell::Code(code) => {
                if self.position.contains_key(&code) {
                    return 4;
                }
                match vocabulary.key_of(code) {
                    Some(key) => 8 + bytes_in(key.as_str()),
                    None => 4,
                }
            },
            _ => 4,
        }
    }

    /// Take the next cell.
    fn push(&mut self, cell: CategoryCell, vocabulary: &Vocabulary)
        requires
            old(self).wf(*vocabulary),
            !(cell is Foreign),
            old(self).cells@.len() < i32::MAX,
        ensures
            final(self).wf(*vocabulary),
            final(self).cells@ == old(self).cells@.push(cell),
    {
        broadcast use vstd::std_specs::hash::group_hash_axioms;

        let ghost cells = self.cells@;
        let ghost grown = cells.push(cell);
        let ghost codes = keyed_codes(*vocabulary, cells);
        let ghost next = keyed_codes(*vocabulary, grown);
        proof {
            assert(grown.drop_last() =~= cells);
            assert(grown.last() == cell);
            assert forall|c: u32| carries(grown, c) == (carries(cells, c) || cell
                == CategoryCell::Code(c)) by {
                let marked = CategoryCell::Code(c);
                if cells.contains(marked) {
                    let i = choose|i: int| 0 <= i < cells.len() && cells[i] == marked;
                    assert(grown[i] == marked);
                }
                if cell == marked {
                    assert(grown[cells.len() as int] == marked);
                }
                if grown.contains(marked) && cell != marked {
                    let i = choose|i: int| 0 <= i < grown.len() && grown[i] == marked;
                    assert(cells[i] == marked);
                }
            }
            assert forall|c: u32| carries(cells, c) implies first_at(next, c) == first_at(
                codes,
                c,
            ) by {
                lemma_positions_stay(*vocabulary, cells, cell, c);
            }
        }
        match cell {
            CategoryCell::Code(code) => {
                proof {
                    lemma_keyed_codes(*vocabulary, cells, code);
                    lemma_keyed_codes(*vocabulary, grown, code);
                    crate::seqs::lemma_first_at(next, code);
                    crate::seqs::lemma_first_at(codes, code);
                }
                if !self.position.contains_key(&code) {
                    let at: Option<i32> = match vocabulary.key_of(code) {
                        Some(key) => {
                            let place: usize = self.dictionary.len();
                            self.dictionary.push(key.clone());
                            Some(place as i32)
                        },
                        None => None,
                    };
                    self.position.insert(code, at);
                }
                let at: Option<i32> = match self.position.get(&code) {
                    Some(at) => *at,
                    None => None,
                };
                self.keys.push(at);
            },
            _ => {
                self.keys.push(None);
            },
        }
        self.cells = Ghost(grown);
        proof {
            assert forall|i: int| 0 <= i < grown.len() implies places(
                #[trigger] self.keys@[i],
                position_of(*vocabulary, grown, grown[i]),
            ) by {
                if i < cells.len() {
                    assert(grown[i] == cells[i]);
                    match cells[i] {
                        CategoryCell::Code(c) => {
                            assert(carries(cells, c));
                        },
                        _ => {},
                    }
                }
            }
        }
    }
}

/// Whether a stored place is a place in the dictionary.
pub open spec fn places(stored: Option<i32>, place: Option<int>) -> bool {
    match (stored, place) {
        (Some(a), Some(b)) => a == b,
        (None, None) => true,
        _ => false,
    }
}

/// One named field's values over the rows a page has taken.
pub enum Values {
    Scalar { ty: ScalarType, values: Vec<Option<Scalar>> },
    Category(CategoryColumn),
}

impl Values {
    /// The values are of the field, and there are as many as rows.
    pub open spec fn wf(&self, field: PageField, rows: nat) -> bool {
        match *self {
            Values::Scalar { ty, values } => ty == field.ty && field.vocabulary is None
                && values@.len() == rows,
            Values::Category(column) => match field.vocabulary {
                Some(vocabulary) => column.wf(vocabulary) && column.cells@.len() == rows,
                None => false,
            },
        }
    }

    /// Whether a run's column is of this column's kind and has `count` cells.
    pub open spec fn takes(&self, column: RunColumn, count: nat) -> bool {
        match (*self, column) {
            (Values::Scalar { .. }, RunColumn::Scalar(cells)) => cells@.len() == count,
            (Values::Category(_), RunColumn::Category(cells)) => cells@.len() == count,
            _ => false,
        }
    }

    /// Whether this is `from` with the first `n` cells of a run's column taken.
    pub open spec fn grown(&self, from: Values, column: RunColumn, n: int) -> bool {
        match (*self, from, column) {
            (
                Values::Scalar { ty, values },
                Values::Scalar { ty: ty0, values: values0 },
                RunColumn::Scalar(cells),
            ) => ty == ty0 && values@ == values0@ + cells@.take(n),
            (Values::Category(now), Values::Category(then), RunColumn::Category(cells)) => now.cells@
                == then.cells@ + cells@.take(n),
            _ => false,
        }
    }

    /// What the run's cell `i` adds, once the cells before it were taken.
    pub open spec fn cell_cost(&self, field: PageField, column: RunColumn, i: int) -> nat {
        match (*self, column) {
            (Values::Scalar { .. }, RunColumn::Scalar(cells)) => width_of(field.ty) + beside(
                cells@[i],
            ),
            (Values::Category(held), RunColumn::Category(cells)) => category_bytes(
                field.vocabulary->0,
                held.cells@ + cells@.take(i),
                cells@[i],
            ),
            _ => 0,
        }
    }

    fn cost(&self, Ghost(from): Ghost<Values>, field: &PageField, column: &RunColumn, i: usize) -> (
        bytes: usize)
        requires
            self.wf(*field, self.held()),
            self.grown(from, *column, i as int),
            from.takes(*column, self.run_len(*column)),
            i < self.run_len(*column),
            from.cell_cost(*field, *column, i as int) <= usize::MAX,
        ensures
            bytes == from.cell_cost(*field, *column, i as int),
    {
        match (self, column) {
            (Values::Scalar { ty, values }, RunColumn::Scalar(cells)) => {
                let beside: usize = match &cells[i] {
                    Some(Scalar::Utf8(text)) => bytes_in(text.as_str()),
                    _ => 0,
                };
                width(*ty) + beside
            },
            (Values::Category(held), RunColumn::Category(cells)) => {
                match &field.vocabulary {
                    Some(vocabulary) => held.cost(cells[i], vocabulary),
                    None => 0,
                }
            },
            _ => 0,
        }
    }

    /// How many values are held.
    pub open spec fn held(&self) -> nat {
        match *self {
            Values::Scalar { ty, values } => values@.len(),
            Values::Category(column) => column.cells@.len(),
        }
    }

    /// How many cells a run's column has.
    pub open spec fn run_len(&self, column: RunColumn) -> nat {
        match column {
            RunColumn::Scalar(cells) => cells@.len(),
            RunColumn::Category(cells) => cells@.len(),
        }
    }

    fn push(&mut self, Ghost(from): Ghost<Values>, field: &PageField, column: &RunColumn, i: usize)
        requires
            old(self).wf(*field, old(self).held()),
            old(self).grown(from, *column, i as int),
            from.takes(*column, old(self).run_len(*column)),
            i < old(self).run_len(*column),
            !foreign(*column, i as int),
            old(self).held() < i32::MAX,
        ensures
            final(self).wf(*field, old(self).held() + 1),
            final(self).held() == old(self).held() + 1,
            final(self).grown(from, *column, i + 1),
    {
        match (self, column) {
            (Values::Scalar { ty, values }, RunColumn::Scalar(cells)) => {
                let cell: Option<Scalar> = match &cells[i] {
                    Some(value) => Some(value.copy()),
                    None => None,
                };
                values.push(cell);
                assert(cells@.take(i + 1) =~= cells@.take(i as int).push(cells@[i as int]));
            },
            (Values::Category(held), RunColumn::Category(cells)) => {
                if let Some(vocabulary) = &field.vocabulary {
                    held.push(cells[i], vocabulary);
                }
                assert(cells@.take(i + 1) =~= cells@.take(i as int).push(cells@[i as int]));
            },
            _ => {},
        }
    }
}

/// Whether a run's cell is a category value that is no code.
pub open spec fn foreign(column: RunColumn, i: int) -> bool {
    match column {
        RunColumn::Category(cells) => cells@[i] is Foreign,
        _ => false,
    }
}

/// The external ids, as bytes.
pub open spec fn id_bytes(ids: Seq<Option<Vec<u8>>>) -> Seq<Option<Seq<u8>>> {
    ids.map_values(
        |id: Option<Vec<u8>>|
            match id {
                Some(bytes) => Some(bytes@),
                None => None,
            },
    )
}

/// The labels, as text.
pub open spec fn label_texts(labels: Seq<Vec<String>>) -> Seq<Seq<Seq<char>>> {
    labels.map_values(|row: Vec<String>| texts(row@))
}

/// Strings as text.
pub open spec fn texts(list: Seq<String>) -> Seq<Seq<char>> {
    list.map_values(|text: String| text@)
}

/// What a row's labels come to: an offset and the bytes of each.
pub open spec fn labels_bytes(labels: Seq<String>) -> nat
    decreases labels.len(),
{
    if labels.len() == 0 {
        0
    } else {
        labels_bytes(labels.drop_last()) + 4 + byte_len(labels.last()@)
    }
}

proof fn lemma_labels_step(labels: Seq<String>, i: int)
    requires
        0 <= i < labels.len(),
    ensures
        labels_bytes(labels.take(i + 1)) == labels_bytes(labels.take(i)) + 4 + byte_len(labels[i]@),
        labels_bytes(labels.take(i + 1)) <= labels_bytes(labels),
    decreases labels.len() - i,
{
    assert(labels.take(i + 1).drop_last() =~= labels.take(i));
    if i + 1 < labels.len() {
        lemma_labels_step(labels, i + 1);
    } else {
        assert(labels.take(i + 1) =~= labels);
    }
}

fn labels_cost(labels: &Vec<String>) -> (bytes: usize)
    requires
        labels_bytes(labels@) <= usize::MAX,
    ensures
        bytes == labels_bytes(labels@),
{
    let mut bytes: usize = 0;
    let mut i: usize = 0;
    while i < labels.len()
        invariant
            i <= labels@.len(),
            labels_bytes(labels@) <= usize::MAX,
            bytes == labels_bytes(labels@.take(i as int)),
        decreases labels@.len() - i,
    {
        proof {
            lemma_labels_step(labels@, i as int);
        }
        bytes = bytes + 4 + bytes_in(labels[i].as_str());
        i += 1;
    }
    assert(labels@.take(i as int) =~= labels@);
    bytes
}

/// The same strings.
pub fn copy_strings(list: &Vec<String>) -> (out: Vec<String>)
    ensures
        out@ == list@,
        texts(out@) == texts(list@),
{
    let mut out: Vec<String> = Vec::new();
    let mut i: usize = 0;
    while i < list.len()
        invariant
            i <= list@.len(),
            out@ == list@.take(i as int),
        decreases list@.len() - i,
    {
        out.push(list[i].clone());
        i += 1;
        assert(list@.take(i as int) =~= list@.take(i - 1).push(list@[i - 1]));
    }
    assert(list@.take(i as int) =~= list@);
    out
}

/// The same bytes.
pub fn copy_bytes(list: &Vec<u8>) -> (out: Vec<u8>)
    ensures
        out@ == list@,
{
    let mut out: Vec<u8> = Vec::with_capacity(list.len());
    let mut i: usize = 0;
    while i < list.len()
        invariant
            i <= list@.len(),
            out@ == list@.take(i as int),
        decreases list@.len() - i,
    {
        out.push(list[i]);
        i += 1;
        assert(list@.take(i as int) =~= list@.take(i - 1).push(list@[i - 1]));
    }
    assert(list@.take(i as int) =~= list@);
    out
}

impl SystemValues {
    /// Whether these are values of a system field, one for each row.
    pub open spec fn wf(&self, field: SystemField, rows: nat) -> bool {
        match (*self, field) {
            (SystemValues::Position(values), SystemField::Position) => values@.len() == rows,
            (SystemValues::ExternalId(values), SystemField::ExternalId) => values@.len() == rows,
            (SystemValues::Labels(values), SystemField::Labels) => values@.len() == rows,
            _ => false,
        }
    }

    /// Whether this is `from` with the first `n` values of a run taken.
    pub open spec fn grown(&self, from: SystemValues, run: SystemValues, n: int) -> bool {
        match (*self, from, run) {
            (
                SystemValues::Position(now),
                SystemValues::Position(then),
                SystemValues::Position(values),
            ) => now@ == then@ + values@.take(n),
            (
                SystemValues::ExternalId(now),
                SystemValues::ExternalId(then),
                SystemValues::ExternalId(values),
            ) => id_bytes(now@) == id_bytes(then@) + id_bytes(values@.take(n)),
            (
                SystemValues::Labels(now),
                SystemValues::Labels(then),
                SystemValues::Labels(values),
            ) => label_texts(now@) == label_texts(then@) + label_texts(values@.take(n)),
            _ => false,
        }
    }

    /// What a row's value adds.
    pub open spec fn cell_cost(&self, i: int) -> nat {
        match *self {
            SystemValues::Position(_) => 16,
            SystemValues::ExternalId(ids) => 4 + match ids@[i] {
                Some(bytes) => bytes@.len(),
                None => 0,
            },
            SystemValues::Labels(labels) => 4 + labels_bytes(labels@[i]@),
        }
    }

    fn cost(&self, Ghost(field): Ghost<SystemField>, Ghost(count): Ghost<nat>, i: usize) -> (bytes:
        usize)
        requires
            self.wf(field, count),
            i < count,
            self.cell_cost(i as int) <= usize::MAX,
        ensures
            bytes == self.cell_cost(i as int),
    {
        match self {
            SystemValues::Position(_) => 16,
            SystemValues::ExternalId(ids) => {
                let held: usize = match &ids[i] {
                    Some(bytes) => bytes.len(),
                    None => 0,
                };
                4 + held
            },
            SystemValues::Labels(labels) => 4 + labels_cost(&labels[i]),
        }
    }

    fn push(
        &mut self,
        Ghost(from): Ghost<SystemValues>,
        Ghost(field): Ghost<SystemField>,
        Ghost(rows): Ghost<nat>,
        run: &SystemValues,
        Ghost(count): Ghost<nat>,
        i: usize,
    )
        requires
            old(self).wf(field, rows),
            run.wf(field, count),
            i < count,
            old(self).grown(from, *run, i as int),
        ensures
            final(self).wf(field, rows + 1),
            final(self).grown(from, *run, i + 1),
    {
        match (self, run) {
            (SystemValues::Position(page), SystemValues::Position(values)) => {
                page.push(values[i]);
                assert(values@.take(i + 1) =~= values@.take(i as int).push(values@[i as int]));
            },
            (SystemValues::ExternalId(page), SystemValues::ExternalId(ids)) => {
                let ghost before = page@;
                let id: Option<Vec<u8>> = match &ids[i] {
                    Some(bytes) => Some(copy_bytes(bytes)),
                    None => None,
                };
                page.push(id);
                proof {
                    assert(ids@.take(i + 1) =~= ids@.take(i as int).push(ids@[i as int]));
                    assert(id_bytes(ids@.take(i + 1)) =~= id_bytes(ids@.take(i as int)).push(
                        id_bytes(ids@)[i as int],
                    ));
                    assert(id_bytes(page@) =~= id_bytes(before).push(id_bytes(ids@)[i as int]));
                }
            },
            (SystemValues::Labels(page), SystemValues::Labels(labels)) => {
                let ghost before = page@;
                page.push(copy_strings(&labels[i]));
                proof {
                    assert(labels@.take(i + 1) =~= labels@.take(i as int).push(
                        labels@[i as int],
                    ));
                    assert(label_texts(labels@.take(i + 1)) =~= label_texts(
                        labels@.take(i as int),
                    ).push(label_texts(labels@)[i as int]));
                    assert(label_texts(page@) =~= label_texts(before).push(
                        label_texts(labels@)[i as int],
                    ));
                }
            },
            _ => {},
        }
    }
}

/// The columns of the rows a page has taken, and the bytes they come to.
pub struct PageValues {
    pub tessera_ids: Vec<u64>,
    pub named: Vec<Values>,
    pub system: Vec<SystemValues>,
    /// Whether each row matched, where unmatched rows are kept.
    pub matched: Option<Vec<bool>>,
    pub bytes: usize,
    /// The validity bytes every row adds: one per eight columns.
    pub validity: usize,
}

/// Every column a page carries after the id, in order.
#[derive(Debug)]
pub struct PagePlan {
    pub named: Vec<PageField>,
    pub system: Vec<SystemField>,
}

impl PagePlan {
    /// The validity bytes every row adds: one for each eight columns, `tessera_id` and whether a row
    /// matched among them.
    pub open spec fn validity_bytes(&self, keep_unmatched: bool) -> int {
        (1 + self.named@.len() + system_columns(self.system@) + (if keep_unmatched {
            1int
        } else {
            0
        }) + 7) / 8
    }

    /// The plan's columns can be counted.
    pub open spec fn countable(&self) -> bool {
        1 + self.named@.len() + system_columns(self.system@) + 1 + 7 <= usize::MAX
    }
}

/// What the system fields of a plan make: so many columns.
pub open spec fn system_columns(system: Seq<SystemField>) -> nat
    decreases system.len(),
{
    if system.len() == 0 {
        0
    } else {
        system_columns(system.drop_last()) + system.last().columns()
    }
}

/// What the first `k` named fields of a run's row add.
pub open spec fn named_cost(
    named: Seq<Values>,
    fields: Seq<PageField>,
    columns: Seq<RunColumn>,
    i: int,
    k: int,
) -> nat
    decreases k,
{
    if k <= 0 {
        0
    } else {
        named_cost(named, fields, columns, i, k - 1) + named[k - 1].cell_cost(
            fields[k - 1],
            columns[k - 1],
            i,
        )
    }
}

/// What the first `k` system fields of a run's row add.
pub open spec fn system_cost(values: Seq<SystemValues>, i: int, k: int) -> nat
    decreases k,
{
    if k <= 0 {
        0
    } else {
        system_cost(values, i, k - 1) + values[k - 1].cell_cost(i)
    }
}

/// The first of the first `k` named fields whose cell of a run's row is no code of its category.
pub open spec fn mismatch_in(columns: Seq<RunColumn>, i: int, k: int) -> Option<int>
    decreases k,
{
    if k <= 0 {
        None
    } else if mismatch_in(columns, i, k - 1) is Some {
        mismatch_in(columns, i, k - 1)
    } else if foreign(columns[k - 1], i) {
        Some(k - 1)
    } else {
        None
    }
}

/// Why a row is not taken.
pub enum RowStop {
    /// A field's value is not of its declared type.
    Mismatch(int),
    /// The page would pass its ceiling.
    Full,
}

impl Run {
    /// Whether the run holds the fields of `count` rows, in the page's order.
    pub open spec fn wf(&self, page: PageValues, system: Seq<SystemField>, count: nat) -> bool {
        &&& self.named@.len() == page.named@.len()
        &&& self.system@.len() == system.len()
        &&& forall|k: int|
            0 <= k < self.named@.len() ==> page.named@[k].takes(#[trigger] self.named@[k], count)
        &&& forall|k: int|
            0 <= k < system.len() ==> (#[trigger] self.system@[k]).wf(system[k], count)
    }
}

impl PageValues {
    /// The page's columns are of its fields, with a value for every row.
    pub open spec fn wf(&self, fields: Seq<PageField>, system: Seq<SystemField>) -> bool {
        let rows = self.tessera_ids@.len();
        &&& self.named@.len() == fields.len()
        &&& self.system@.len() == system.len()
        &&& forall|k: int|
            0 <= k < fields.len() ==> (#[trigger] self.named@[k]).wf(fields[k], rows)
        &&& forall|k: int|
            0 <= k < system.len() ==> (#[trigger] self.system@[k]).wf(system[k], rows)
        &&& self.matched matches Some(matched) ==> matched@.len() == rows
    }

    /// What a run's row adds, once the rows before it were taken: its id, its validity bytes,
    /// whether it matched, and its fields.
    pub open spec fn row_cost(&self, fields: Seq<PageField>, run: Run, i: int) -> nat {
        8 + self.validity as nat + (if self.matched is Some {
            1nat
        } else {
            0
        }) + named_cost(self.named@, fields, run.named@, i, fields.len() as int) + system_cost(
            run.system@,
            i,
            run.system@.len() as int,
        )
    }

    /// What the first `n` rows of a run add.
    pub open spec fn run_cost(&self, fields: Seq<PageField>, run: Run, n: int) -> nat
        decreases n,
    {
        if n <= 0 {
            0
        } else {
            self.run_cost(fields, run, n - 1) + self.row_cost(fields, run, n - 1)
        }
    }

    /// Why a run's row is not taken, once the rows before it were.
    pub open spec fn row_stop(
        &self,
        fields: Seq<PageField>,
        run: Run,
        i: int,
        max_bytes: usize,
    ) -> Option<RowStop> {
        match mismatch_in(run.named@, i, fields.len() as int) {
            Some(k) => Some(RowStop::Mismatch(k)),
            None => if self.tessera_ids@.len() + i > 0 && self.bytes + self.run_cost(
                fields,
                run,
                i + 1,
            ) > max_bytes {
                Some(RowStop::Full)
            } else {
                None
            },
        }
    }

    /// The first row of a run from `i` on that is not taken, or the run's end.
    pub open spec fn reach(
        &self,
        fields: Seq<PageField>,
        run: Run,
        i: int,
        count: int,
        max_bytes: usize,
    ) -> int
        decreases count - i,
    {
        if i >= count || self.row_stop(fields, run, i, max_bytes) is Some {
            i
        } else {
            self.reach(fields, run, i + 1, count, max_bytes)
        }
    }

    /// Whether this is `from` with the first `n` rows of a run taken.
    pub open spec fn grown(
        &self,
        from: PageValues,
        fields: Seq<PageField>,
        run: Run,
        rows: Seq<Taken>,
        n: int,
    ) -> bool {
        &&& self.tessera_ids@ == from.tessera_ids@ + rows.take(n).map_values(
            |row: Taken| row.tessera_id,
        )
        &&& self.named@.len() == from.named@.len()
        &&& forall|k: int|
            0 <= k < self.named@.len() ==> (#[trigger] self.named@[k]).grown(
                from.named@[k],
                run.named@[k],
                n,
            )
        &&& self.system@.len() == from.system@.len()
        &&& forall|k: int|
            0 <= k < self.system@.len() ==> (#[trigger] self.system@[k]).grown(
                from.system@[k],
                run.system@[k],
                n,
            )
        &&& match (self.matched, from.matched) {
            (Some(now), Some(then)) => now@ == then@ + rows.take(n).map_values(
                |row: Taken| row.matched,
            ),
            (None, None) => true,
            _ => false,
        }
        &&& self.bytes == from.bytes + from.run_cost(fields, run, n)
        &&& self.validity == from.validity
    }

    /// A page of no rows.
    pub fn new(plan: &PagePlan, keep_unmatched: bool) -> (page: PageValues)
        requires
            plan.countable(),
        ensures
            page.wf(plan.named@, plan.system@),
            page.tessera_ids@.len() == 0,
            page.matched is Some <==> keep_unmatched,
            page.bytes == 0,
            page.validity == plan.validity_bytes(keep_unmatched),
    {
        let fields = &plan.named;
        let system = &plan.system;
        let mut named: Vec<Values> = Vec::new();
        let mut k: usize = 0;
        while k < fields.len()
            invariant
                k <= fields@.len(),
                named@.len() == k,
                forall|j: int| 0 <= j < k ==> (#[trigger] named@[j]).wf(fields@[j], 0),
            decreases fields@.len() - k,
        {
            let values: Values = match &fields[k].vocabulary {
                None => Values::Scalar { ty: fields[k].ty, values: Vec::new() },
                Some(vocabulary) => Values::Category(CategoryColumn::new(vocabulary)),
            };
            named.push(values);
            k += 1;
        }
        let mut own: Vec<SystemValues> = Vec::new();
        let mut columns: usize = 1 + fields.len();
        let mut j: usize = 0;
        while j < system.len()
            invariant
                j <= system@.len(),
                own@.len() == j,
                1 + fields@.len() + system_columns(system@) + 1 + 7 <= usize::MAX,
                columns == 1 + fields@.len() + system_columns(system@.take(j as int)),
                forall|i: int| 0 <= i < j ==> (#[trigger] own@[i]).wf(system@[i], 0),
            decreases system@.len() - j,
        {
            proof {
                lemma_system_columns_step(system@, j as int);
            }
            match system[j] {
                SystemField::Position => {
                    own.push(SystemValues::Position(Vec::new()));
                    columns += 2;
                },
                SystemField::ExternalId => {
                    own.push(SystemValues::ExternalId(Vec::new()));
                    columns += 1;
                },
                SystemField::Labels => {
                    own.push(SystemValues::Labels(Vec::new()));
                    columns += 1;
                },
            }
            j += 1;
        }
        proof {
            assert(system@.take(j as int) =~= system@);
        }
        if keep_unmatched {
            columns += 1;
        }
        let matched: Option<Vec<bool>> = if keep_unmatched {
            Some(Vec::new())
        } else {
            None
        };
        PageValues {
            tessera_ids: Vec::new(),
            named,
            system: own,
            matched,
            bytes: 0,
            validity: (columns + 7) / 8,
        }
    }
}

/// One more system field adds its columns.
pub proof fn lemma_system_columns_step(system: Seq<SystemField>, j: int)
    requires
        0 <= j < system.len(),
    ensures
        system_columns(system.take(j + 1)) == system_columns(system.take(j)) + system[j].columns(),
        system_columns(system.take(j + 1)) <= system_columns(system),
    decreases system.len() - j,
{
    assert(system.take(j + 1).drop_last() =~= system.take(j));
    if j + 1 < system.len() {
        lemma_system_columns_step(system, j + 1);
    } else {
        assert(system.take(j + 1) =~= system);
    }
}

proof fn lemma_run_cost_climbs(
    page: PageValues,
    fields: Seq<PageField>,
    run: Run,
    n: int,
    more: int,
)
    requires
        n <= more,
    ensures
        page.run_cost(fields, run, n) <= page.run_cost(fields, run, more),
    decreases more - n,
{
    if n < more {
        lemma_run_cost_climbs(page, fields, run, n, more - 1);
    }
}

proof fn lemma_named_cost_climbs(
    named: Seq<Values>,
    fields: Seq<PageField>,
    columns: Seq<RunColumn>,
    i: int,
    k: int,
    more: int,
)
    requires
        k <= more,
    ensures
        named_cost(named, fields, columns, i, k) <= named_cost(named, fields, columns, i, more),
    decreases more - k,
{
    if k < more {
        lemma_named_cost_climbs(named, fields, columns, i, k, more - 1);
    }
}

proof fn lemma_system_cost_climbs(values: Seq<SystemValues>, i: int, k: int, more: int)
    requires
        k <= more,
    ensures
        system_cost(values, i, k) <= system_cost(values, i, more),
    decreases more - k,
{
    if k < more {
        lemma_system_cost_climbs(values, i, k, more - 1);
    }
}

proof fn lemma_mismatch_stays(columns: Seq<RunColumn>, i: int, k: int, more: int)
    requires
        k <= more,
        mismatch_in(columns, i, k) is Some,
    ensures
        mismatch_in(columns, i, more) == mismatch_in(columns, i, k),
    decreases more - k,
{
    if k < more {
        lemma_mismatch_stays(columns, i, k, more - 1);
    }
}

proof fn lemma_no_mismatch(columns: Seq<RunColumn>, i: int, k: int)
    requires
        mismatch_in(columns, i, k) is None,
    ensures
        forall|j: int| 0 <= j < k ==> !foreign(#[trigger] columns[j], i),
    decreases k,
{
    if k > 0 {
        lemma_no_mismatch(columns, i, k - 1);
    }
}

proof fn lemma_reach(
    page: PageValues,
    fields: Seq<PageField>,
    run: Run,
    i: int,
    n: int,
    count: int,
    max_bytes: usize,
)
    requires
        0 <= i <= n <= count,
        forall|j: int| i <= j < n ==> #[trigger] page.row_stop(fields, run, j, max_bytes) is None,
        n == count || page.row_stop(fields, run, n, max_bytes) is Some,
    ensures
        page.reach(fields, run, i, count, max_bytes) == n,
    decreases n - i,
{
    if i < n {
        assert(page.row_stop(fields, run, i, max_bytes) is None);
        lemma_reach(page, fields, run, i + 1, n, count, max_bytes);
    }
}

impl PageValues {
    /// What a run's row comes to, or the field whose value is not of its declared type.
    fn row_bytes(
        &self,
        Ghost(from): Ghost<PageValues>,
        run: &Run,
        Ghost(rows): Ghost<Seq<Taken>>,
        plan: &PagePlan,
        i: usize,
    ) -> (out: Result<usize, FieldMismatch>)
        requires
            from.wf(plan.named@, plan.system@),
            self.wf(plan.named@, plan.system@),
            run.wf(from, plan.system@, rows.len()),
            i < rows.len(),
            self.grown(from, plan.named@, *run, rows, i as int),
            from.row_cost(plan.named@, *run, i as int) <= usize::MAX,
        ensures
            out is Err <==> mismatch_in(run.named@, i as int, plan.named@.len() as int) is Some,
            out matches Ok(bytes) ==> bytes == from.row_cost(plan.named@, *run, i as int),
            out matches Err(why) ==> ({
                let k = mismatch_in(run.named@, i as int, plan.named@.len() as int)->0;
                why.name@ == plan.named@[k].name@ && why.ty == plan.named@[k].ty
            }),
    {
        let mut bytes: usize = 8;
        let ghost fields = plan.named@;
        let ghost all = fields.len() as int;
        let ghost system_all = run.system@.len() as int;
        let ghost flag: nat = if self.matched is Some {
            1
        } else {
            0
        };
        proof {
            lemma_named_cost_climbs(from.named@, fields, run.named@, i as int, 0, all);
        }
        bytes = bytes + self.validity;
        if self.matched.is_some() {
            bytes = bytes + 1;
        }
        let mut k: usize = 0;
        while k < plan.named.len()
            invariant
                k <= plan.named@.len(),
                fields == plan.named@,
                all == fields.len(),
                system_all == run.system@.len(),
                from.wf(plan.named@, plan.system@),
                self.wf(plan.named@, plan.system@),
                run.wf(from, plan.system@, rows.len()),
                i < rows.len(),
                self.grown(from, plan.named@, *run, rows, i as int),
                from.row_cost(fields, *run, i as int) <= usize::MAX,
                flag == if from.matched is Some {
                    1nat
                } else {
                    0
                },
                bytes == 8 + from.validity + flag + named_cost(
                    from.named@,
                    fields,
                    run.named@,
                    i as int,
                    k as int,
                ),
                mismatch_in(run.named@, i as int, k as int) is None,
            decreases plan.named@.len() - k,
        {
            proof {
                assert(self.named@[k as int].wf(fields[k as int], self.tessera_ids@.len()));
                assert(from.named@[k as int].takes(run.named@[k as int], rows.len()));
                assert(self.named@[k as int].grown(
                    from.named@[k as int],
                    run.named@[k as int],
                    i as int,
                ));
                lemma_named_cost_climbs(
                    from.named@,
                    fields,
                    run.named@,
                    i as int,
                    k + 1,
                    all,
                );
            }
            let bad: bool = match &run.named[k] {
                RunColumn::Category(cells) => match cells[i] {
                    CategoryCell::Foreign => true,
                    _ => false,
                },
                _ => false,
            };
            if bad {
                proof {
                    lemma_mismatch_stays(run.named@, i as int, k + 1, all);
                }
                return Err(
                    FieldMismatch { name: plan.named[k].name.clone(), ty: plan.named[k].ty },
                );
            }
            bytes = bytes + self.named[k].cost(
                Ghost(from.named@[k as int]),
                &plan.named[k],
                &run.named[k],
                i,
            );
            k += 1;
        }
        let mut j: usize = 0;
        while j < run.system.len()
            invariant
                j <= run.system@.len(),
                fields == plan.named@,
                all == fields.len(),
                system_all == run.system@.len(),
                run.wf(from, plan.system@, rows.len()),
                i < rows.len(),
                from.row_cost(fields, *run, i as int) <= usize::MAX,
                flag == if from.matched is Some {
                    1nat
                } else {
                    0
                },
                bytes == 8 + from.validity + flag + named_cost(
                    from.named@,
                    fields,
                    run.named@,
                    i as int,
                    all,
                ) + system_cost(run.system@, i as int, j as int),
                mismatch_in(run.named@, i as int, all) is None,
            decreases run.system@.len() - j,
        {
            proof {
                assert(run.system@[j as int].wf(plan.system@[j as int], rows.len()));
                lemma_system_cost_climbs(run.system@, i as int, j + 1, system_all);
            }
            bytes = bytes + run.system[j].cost(
                Ghost(plan.system@[j as int]),
                Ghost(rows.len()),
                i,
            );
            j += 1;
        }
        Ok(bytes)
    }

    /// Take a run's row, which fits.
    fn push_row(
        &mut self,
        Ghost(from): Ghost<PageValues>,
        run: &Run,
        rows: &[Taken],
        plan: &PagePlan,
        i: usize,
        bytes: usize,
    )
        requires
            from.wf(plan.named@, plan.system@),
            old(self).wf(plan.named@, plan.system@),
            run.wf(from, plan.system@, rows@.len()),
            i < rows@.len(),
            old(self).grown(from, plan.named@, *run, rows@, i as int),
            old(self).tessera_ids@.len() < i32::MAX,
            bytes == from.row_cost(plan.named@, *run, i as int),
            old(self).bytes + bytes <= usize::MAX,
            mismatch_in(run.named@, i as int, plan.named@.len() as int) is None,
        ensures
            final(self).wf(plan.named@, plan.system@),
            final(self).grown(from, plan.named@, *run, rows@, i + 1),
            final(self).tessera_ids@.len() == old(self).tessera_ids@.len() + 1,
    {
        let ghost held = self.tessera_ids@.len();
        let ghost next = rows@.take(i + 1);
        proof {
            assert(next =~= rows@.take(i as int).push(rows@[i as int]));
            lemma_no_mismatch(run.named@, i as int, plan.named@.len() as int);
        }
        self.bytes = self.bytes + bytes;
        self.tessera_ids.push(rows[i].tessera_id);
        if let Some(matched) = &mut self.matched {
            matched.push(rows[i].matched);
        }
        let mut k: usize = 0;
        while k < plan.named.len()
            invariant
                k <= plan.named@.len(),
                i < rows@.len(),
                held < i32::MAX,
                run.wf(from, plan.system@, rows@.len()),
                from.wf(plan.named@, plan.system@),
                self.named@.len() == plan.named@.len(),
                self.tessera_ids@.len() == held + 1,
                self.tessera_ids@ == old(self).tessera_ids@.push(rows@[i as int].tessera_id),
                self.bytes == old(self).bytes + bytes,
                self.validity == old(self).validity,
                self.system@ == old(self).system@,
                match (self.matched, old(self).matched) {
                    (Some(now), Some(then)) => now@ == then@.push(rows@[i as int].matched),
                    (None, None) => true,
                    _ => false,
                },
                forall|j: int|
                    0 <= j < k ==> (#[trigger] self.named@[j]).wf(plan.named@[j], held + 1)
                        && self.named@[j].grown(from.named@[j], run.named@[j], i + 1),
                forall|j: int|
                    k <= j < plan.named@.len() ==> (#[trigger] self.named@[j]).wf(
                        plan.named@[j],
                        held,
                    ) && self.named@[j].grown(from.named@[j], run.named@[j], i as int),
                forall|j: int|
                    0 <= j < plan.named@.len() ==> !foreign(#[trigger] run.named@[j], i as int),
            decreases plan.named@.len() - k,
        {
            proof {
                assert(self.named@[k as int].wf(plan.named@[k as int], held));
                assert(from.named@[k as int].takes(run.named@[k as int], rows@.len()));
                assert(!foreign(run.named@[k as int], i as int));
            }
            self.named[k].push(
                Ghost(from.named@[k as int]),
                &plan.named[k],
                &run.named[k],
                i,
            );
            k += 1;
        }
        let ghost after_named = *self;
        let mut j: usize = 0;
        while j < run.system.len()
            invariant
                j <= run.system@.len() == plan.system@.len(),
                i < rows@.len(),
                run.wf(from, plan.system@, rows@.len()),
                self.system@.len() == plan.system@.len(),
                self.tessera_ids@ == after_named.tessera_ids@,
                self.bytes == after_named.bytes,
                self.validity == after_named.validity,
                self.named@ == after_named.named@,
                self.matched == after_named.matched,
                forall|m: int|
                    0 <= m < j ==> (#[trigger] self.system@[m]).wf(plan.system@[m], held + 1)
                        && self.system@[m].grown(from.system@[m], run.system@[m], i + 1),
                forall|m: int|
                    j <= m < plan.system@.len() ==> (#[trigger] self.system@[m]).wf(
                        plan.system@[m],
                        held,
                    ) && self.system@[m].grown(from.system@[m], run.system@[m], i as int),
            decreases run.system@.len() - j,
        {
            proof {
                assert(self.system@[j as int].wf(plan.system@[j as int], held));
                assert(run.system@[j as int].wf(plan.system@[j as int], rows@.len()));
            }
            self.system[j].push(
                Ghost(from.system@[j as int]),
                Ghost(plan.system@[j as int]),
                Ghost(held),
                &run.system[j],
                Ghost(rows@.len()),
                i,
            );
            j += 1;
        }
        proof {
            let ids = |row: Taken| row.tessera_id;
            let flags = |row: Taken| row.matched;
            assert(next.map_values(ids) =~= rows@.take(i as int).map_values(ids).push(
                rows@[i as int].tessera_id,
            ));
            assert(next.map_values(flags) =~= rows@.take(i as int).map_values(flags).push(
                rows@[i as int].matched,
            ));
            assert(self.tessera_ids@ =~= from.tessera_ids@ + next.map_values(ids));
            if self.matched is Some {
                assert(self.matched->0@ =~= from.matched->0@ + next.map_values(flags));
            }
        }
    }

    /// Take a run's rows in order while they fit `max_bytes`, and the first row of the page
    /// whatever it comes to: `false` once a row did not fit. A row whose cell is no code of its
    /// category ends the run with an error, and the rows before it are taken.
    pub fn take(
        &mut self,
        run: &Run,
        rows: &[Taken],
        plan: &PagePlan,
        max_bytes: usize,
    ) -> (out: Result<bool, FieldMismatch>)
        requires
            old(self).wf(plan.named@, plan.system@),
            run.wf(*old(self), plan.system@, rows@.len()),
            old(self).tessera_ids@.len() + rows@.len() <= i32::MAX,
            old(self).bytes + old(self).run_cost(plan.named@, *run, rows@.len() as int)
                <= usize::MAX,
        ensures
            ({
                let count = rows@.len() as int;
                let n = old(self).reach(plan.named@, *run, 0, count, max_bytes);
                let stop = old(self).row_stop(plan.named@, *run, n, max_bytes);
                &&& out is Err <==> n < count && stop is Some && stop->0 is Mismatch
                &&& out matches Err(why) ==> why.name@ == plan.named@[stop->0->Mismatch_0].name@
                    && why.ty == plan.named@[stop->0->Mismatch_0].ty
                &&& out matches Ok(all) ==> all == (n == count)
                &&& final(self).wf(plan.named@, plan.system@)
                &&& final(self).grown(*old(self), plan.named@, *run, rows@, n)
            }),
    {
        let ghost from = *self;
        let ghost fields = plan.named@;
        let ghost count = rows@.len() as int;
        proof {
            assert(rows@.take(0).map_values(|row: Taken| row.tessera_id) =~= Seq::<u64>::empty());
            assert(rows@.take(0).map_values(|row: Taken| row.matched) =~= Seq::<bool>::empty());
            assert(self.tessera_ids@ =~= from.tessera_ids@ + rows@.take(0).map_values(
                |row: Taken| row.tessera_id,
            ));
            assert forall|k: int| 0 <= k < self.named@.len() implies (
            #[trigger] self.named@[k]).grown(from.named@[k], run.named@[k], 0) by {
                assert(from.named@[k].takes(run.named@[k], rows@.len()));
                match (self.named@[k], run.named@[k]) {
                    (Values::Scalar { ty, values }, RunColumn::Scalar(cells)) => {
                        assert(values@ =~= values@ + cells@.take(0));
                    },
                    (Values::Category(held), RunColumn::Category(cells)) => {
                        assert(held.cells@ =~= held.cells@ + cells@.take(0));
                    },
                    _ => {},
                }
            }
            assert forall|k: int| 0 <= k < self.system@.len() implies (
            #[trigger] self.system@[k]).grown(from.system@[k], run.system@[k], 0) by {
                assert(run.system@[k].wf(plan.system@[k], rows@.len()));
                assert(self.system@[k].wf(plan.system@[k], self.tessera_ids@.len()));
                match (self.system@[k], run.system@[k]) {
                    (SystemValues::Position(now), SystemValues::Position(values)) => {
                        assert(now@ =~= now@ + values@.take(0));
                    },
                    (SystemValues::ExternalId(now), SystemValues::ExternalId(values)) => {
                        assert(id_bytes(now@) =~= id_bytes(now@) + id_bytes(values@.take(0)));
                    },
                    (SystemValues::Labels(now), SystemValues::Labels(values)) => {
                        assert(label_texts(now@) =~= label_texts(now@) + label_texts(
                            values@.take(0),
                        ));
                    },
                    _ => {},
                }
            }
            if self.matched is Some {
                let held = self.matched->0@;
                assert(held =~= held + rows@.take(0).map_values(|row: Taken| row.matched));
            }
        }
        let mut i: usize = 0;
        while i < rows.len()
            invariant
                i <= rows@.len(),
                count == rows@.len(),
                fields == plan.named@,
                from == *old(self),
                from.wf(plan.named@, plan.system@),
                run.wf(from, plan.system@, rows@.len()),
                from.tessera_ids@.len() + rows@.len() <= i32::MAX,
                from.bytes + from.run_cost(fields, *run, count) <= usize::MAX,
                self.wf(plan.named@, plan.system@),
                self.grown(from, fields, *run, rows@, i as int),
                self.tessera_ids@.len() == from.tessera_ids@.len() + i,
                forall|j: int|
                    0 <= j < i ==> #[trigger] from.row_stop(fields, *run, j, max_bytes) is None,
            decreases rows@.len() - i,
        {
            proof {
                lemma_run_cost_climbs(from, fields, *run, i + 1, count);
            }
            let row_bytes: usize = match self.row_bytes(
                Ghost(from),
                run,
                Ghost(rows@),
                plan,
                i,
            ) {
                Ok(bytes) => bytes,
                Err(why) => {
                    proof {
                        lemma_reach(from, fields, *run, 0, i as int, count, max_bytes);
                    }
                    return Err(why);
                },
            };
            if self.tessera_ids.len() > 0 && self.bytes + row_bytes > max_bytes {
                proof {
                    lemma_reach(from, fields, *run, 0, i as int, count, max_bytes);
                }
                return Ok(false);
            }
            self.push_row(Ghost(from), run, rows, plan, i, row_bytes);
            i += 1;
        }
        proof {
            lemma_reach(from, fields, *run, 0, count, count, max_bytes);
        }
        Ok(true)
    }
}

impl PageValues {
    /// Whether the page is within its ceiling, which a single row may pass.
    pub open spec fn within(&self, max_bytes: usize) -> bool {
        self.tessera_ids@.len() > 1 ==> self.bytes <= max_bytes
    }
}

/// Every row before the first that is not taken is taken.
proof fn lemma_reach_takes(
    page: PageValues,
    fields: Seq<PageField>,
    run: Run,
    i: int,
    count: int,
    max_bytes: usize,
)
    requires
        0 <= i <= count,
    ensures
        i <= page.reach(fields, run, i, count, max_bytes) <= count,
        forall|j: int|
            i <= j < page.reach(fields, run, i, count, max_bytes) ==> #[trigger] page.row_stop(
                fields,
                run,
                j,
                max_bytes,
            ) is None,
    decreases count - i,
{
    if i < count && page.row_stop(fields, run, i, max_bytes) is None {
        lemma_reach_takes(page, fields, run, i + 1, count, max_bytes);
    }
}

/// A page within its ceiling stays within it whatever run it takes, and takes at least the first row
/// it is given, whatever that comes to.
pub proof fn law_a_page_keeps_to_its_ceiling(
    before: PageValues,
    after: PageValues,
    fields: Seq<PageField>,
    run: Run,
    rows: Seq<Taken>,
    max_bytes: usize,
)
    requires
        before.within(max_bytes),
        after.grown(
            before,
            fields,
            run,
            rows,
            before.reach(fields, run, 0, rows.len() as int, max_bytes),
        ),
    ensures
        after.within(max_bytes),
        rows.len() > 0 && mismatch_in(run.named@, 0, fields.len() as int) is None
            ==> after.tessera_ids@.len() > 0,
{
    let count = rows.len() as int;
    let n = before.reach(fields, run, 0, count, max_bytes);
    lemma_reach_takes(before, fields, run, 0, count, max_bytes);
    assert(after.tessera_ids@.len() == before.tessera_ids@.len() + n);
    if n > 0 {
        assert(before.row_stop(fields, run, n - 1, max_bytes) is None);
    }
    if count > 0 && before.tessera_ids@.len() == 0 && mismatch_in(
        run.named@,
        0,
        fields.len() as int,
    ) is None {
        assert(before.row_stop(fields, run, 0, max_bytes) is None);
        lemma_reach_takes(before, fields, run, 1, count, max_bytes);
    }
}

/// A page takes the leading rows of a run: each one's identifier, and whether it matched where that
/// is asked for, stand after those the page held, in order, and nothing that it held changes.
pub proof fn law_a_page_grows_by_the_rows_it_takes(
    before: PageValues,
    after: PageValues,
    fields: Seq<PageField>,
    run: Run,
    rows: Seq<Taken>,
    n: int,
)
    requires
        after.grown(before, fields, run, rows, n),
        0 <= n <= rows.len(),
        before.matched is Some ==> before.matched->0@.len() == before.tessera_ids@.len(),
    ensures
        after.tessera_ids@.len() == before.tessera_ids@.len() + n,
        forall|i: int|
            0 <= i < before.tessera_ids@.len() ==> (#[trigger] after.tessera_ids@[i])
                == before.tessera_ids@[i],
        forall|i: int|
            0 <= i < n ==> (#[trigger] after.tessera_ids@[before.tessera_ids@.len() + i])
                == rows[i].tessera_id,
        after.matched is Some <==> before.matched is Some,
        after.matched is Some ==> after.matched->0@.len() == after.tessera_ids@.len(),
        after.matched is Some ==> forall|i: int|
            0 <= i < before.tessera_ids@.len() ==> (#[trigger] after.matched->0@[i])
                == before.matched->0@[i],
        after.matched is Some ==> forall|i: int|
            0 <= i < n ==> (#[trigger] after.matched->0@[before.tessera_ids@.len() + i])
                == rows[i].matched,
        after.validity == before.validity,
{
}

/// A page takes of each named field the values of the rows it takes, in the fields' order.
pub proof fn law_a_page_takes_each_fields_own_values(
    before: PageValues,
    after: PageValues,
    fields: Seq<PageField>,
    system: Seq<SystemField>,
    run: Run,
    rows: Seq<Taken>,
    n: int,
    k: int,
    i: int,
)
    requires
        before.wf(fields, system),
        run.wf(before, system, rows.len()),
        after.grown(before, fields, run, rows, n),
        0 <= i < n <= rows.len(),
        0 <= k < fields.len(),
    ensures
        run.named@[k] is Scalar ==> after.named@[k] is Scalar
            && after.named@[k]->values@[before.tessera_ids@.len() + i]
            == run.named@[k]->Scalar_0@[i],
        run.named@[k] is Category ==> after.named@[k] is Category
            && after.named@[k]->Category_0.cells@[before.tessera_ids@.len() + i]
            == run.named@[k]->Category_0@[i],
{
    assert(before.named@[k].wf(fields[k], before.tessera_ids@.len()));
    assert(before.named@[k].takes(run.named@[k], rows.len()));
    assert(after.named@[k].grown(before.named@[k], run.named@[k], n));
}

/// A page takes of each system field the values of the rows it takes: a position's two coordinates,
/// an external id's bytes, and a row's labels.
pub proof fn law_a_page_takes_each_system_fields_own_values(
    before: PageValues,
    after: PageValues,
    fields: Seq<PageField>,
    system: Seq<SystemField>,
    run: Run,
    rows: Seq<Taken>,
    n: int,
    k: int,
    i: int,
)
    requires
        before.wf(fields, system),
        run.wf(before, system, rows.len()),
        after.grown(before, fields, run, rows, n),
        0 <= i < n <= rows.len(),
        0 <= k < system.len(),
    ensures
        system[k] is Position ==> run.system@[k] is Position && after.system@[k] is Position
            && after.system@[k]->Position_0@[before.tessera_ids@.len() + i]
            == run.system@[k]->Position_0@[i],
        system[k] is ExternalId ==> ({
            let now = after.system@[k]->ExternalId_0@[before.tessera_ids@.len() + i];
            let given = run.system@[k]->ExternalId_0@[i];
            &&& run.system@[k] is ExternalId && after.system@[k] is ExternalId
            &&& now is Some <==> given is Some
            &&& now is Some ==> now->0@ == given->0@
        }),
        system[k] is Labels ==> ({
            let now = after.system@[k]->Labels_0@[before.tessera_ids@.len() + i]@;
            let given = run.system@[k]->Labels_0@[i]@;
            &&& run.system@[k] is Labels && after.system@[k] is Labels
            &&& now.len() == given.len()
            &&& forall|l: int| 0 <= l < now.len() ==> (#[trigger] now[l])@ == given[l]@
        }),
{
    let m = before.tessera_ids@.len();
    assert(before.system@[k].wf(system[k], m));
    assert(run.system@[k].wf(system[k], rows.len()));
    assert(after.system@[k].grown(before.system@[k], run.system@[k], n));
    match (after.system@[k], before.system@[k], run.system@[k]) {
        (
            SystemValues::ExternalId(now),
            SystemValues::ExternalId(then),
            SystemValues::ExternalId(values),
        ) => {
            let all = id_bytes(then@) + id_bytes(values@.take(n));
            assert(id_bytes(now@)[m + i] == all[m + i]);
            assert(id_bytes(now@).len() == all.len());
        },
        (SystemValues::Labels(now), SystemValues::Labels(then), SystemValues::Labels(values)) => {
            let all = label_texts(then@) + label_texts(values@.take(n));
            assert(label_texts(now@)[m + i] == all[m + i]);
            assert(label_texts(now@).len() == all.len());
            let (a, b) = (now@[m + i]@, values@[i]@);
            assert(texts(a) == texts(b));
            assert(texts(a).len() == a.len() && texts(b).len() == b.len());
            assert forall|l: int| 0 <= l < a.len() implies (#[trigger] a[l])@ == b[l]@ by {
                assert(texts(a)[l] == texts(b)[l]);
            }
        },
        _ => {},
    }
}

/// A category column's key of a row names the vocabulary's text for the row's own code: the text of
/// the first binding of that code. A row whose code no binding explains, or that has none, has no
/// key.
pub proof fn law_a_category_key_names_its_rows_code(
    column: CategoryColumn,
    vocabulary: Vocabulary,
    i: int,
)
    requires
        column.wf(vocabulary),
        0 <= i < column.cells@.len(),
    ensures
        column.keys@.len() == column.cells@.len(),
        column.keys@[i] is Some <==> column.cells@[i] is Code && exists|b: int|
            0 <= b < vocabulary.bindings@.len() && (#[trigger] vocabulary.bindings@[b]).0
                == column.cells@[i]->Code_0,
        column.keys@[i] is Some ==> 0 <= column.keys@[i]->0 < column.dictionary@.len() && exists|
            b: int,
        |
            0 <= b < vocabulary.bindings@.len() && (#[trigger] vocabulary.bindings@[b]).0
                == column.cells@[i]->Code_0 && vocabulary.bindings@[b].1@
                == column.dictionary@[column.keys@[i]->0 as int]@ && forall|c: int|
                0 <= c < b ==> (#[trigger] vocabulary.bindings@[c]).0 != column.cells@[i]->Code_0,
{
    let cells = column.cells@;
    let codes = keyed_codes(vocabulary, cells);
    assert(places(column.keys@[i], position_of(vocabulary, cells, cells[i])));
    if cells[i] is Code {
        let code = cells[i]->Code_0;
        lemma_keyed_codes(vocabulary, cells, code);
        lemma_first_at(codes, code);
        lemma_key_in(vocabulary.bindings@, code);
        assert(cells.contains(cells[i]));
        if column.keys@[i] is Some {
            let at = column.keys@[i]->0 as int;
            assert(codes[at] == code);
            assert(vocabulary.key(codes[at]) == Some(column.dictionary@[at]@));
        }
    }
}

proof fn lemma_key_in(bindings: Seq<(u32, String)>, code: u32)
    ensures
        key_in(bindings, code) is Some <==> exists|b: int|
            0 <= b < bindings.len() && (#[trigger] bindings[b]).0 == code,
        key_in(bindings, code) is Some ==> exists|b: int|
            0 <= b < bindings.len() && (#[trigger] bindings[b]).0 == code && bindings[b].1@
                == key_in(bindings, code)->0 && forall|c: int|
                0 <= c < b ==> (#[trigger] bindings[c]).0 != code,
    decreases bindings.len(),
{
    if bindings.len() > 0 {
        let rest = bindings.skip(1);
        lemma_key_in(rest, code);
        if bindings[0].0 != code {
            if key_in(rest, code) is Some {
                let b = choose|b: int|
                    0 <= b < rest.len() && (#[trigger] rest[b]).0 == code && rest[b].1@ == key_in(
                        rest,
                        code,
                    )->0 && forall|c: int| 0 <= c < b ==> (#[trigger] rest[c]).0 != code;
                assert(bindings[b + 1] == rest[b]);
                assert forall|c: int| 0 <= c < b + 1 implies (#[trigger] bindings[c]).0 != code by {
                    if c > 0 {
                        assert(rest[c - 1] == bindings[c]);
                    }
                }
            }
            if exists|b: int| 0 <= b < bindings.len() && (#[trigger] bindings[b]).0 == code {
                let b = choose|b: int| 0 <= b < bindings.len() && (#[trigger] bindings[b]).0 == code;
                assert(rest[b - 1] == bindings[b]);
            }
        }
    }
}

/// What a row of a run costs: its identifier, the validity bits, a byte where it is said whether it
/// matched, and its fields, of which each adds its own on top of those before it.
pub proof fn law_a_rows_bytes_are_its_fields(
    page: PageValues,
    fields: Seq<PageField>,
    run: Run,
    i: int,
    k: int,
)
    requires
        0 <= i,
        0 <= k,
    ensures
        page.run_cost(fields, run, 0) == 0,
        page.run_cost(fields, run, i + 1) == page.run_cost(fields, run, i) + 8 + page.validity + (if
            page.matched is Some {
            1int
        } else {
            0
        }) + named_cost(page.named@, fields, run.named@, i, fields.len() as int) + system_cost(
            run.system@,
            i,
            run.system@.len() as int,
        ),
        named_cost(page.named@, fields, run.named@, i, 0) == 0,
        page.named@[k] is Scalar && run.named@[k] is Scalar ==> named_cost(
            page.named@,
            fields,
            run.named@,
            i,
            k + 1,
        ) - named_cost(page.named@, fields, run.named@, i, k) == (match fields[k].ty {
            ScalarType::Bool => 1int,
            ScalarType::U8 => 1,
            ScalarType::I8 => 1,
            ScalarType::U16 => 2,
            ScalarType::I16 => 2,
            ScalarType::U32 => 4,
            ScalarType::I32 => 4,
            ScalarType::F32 => 4,
            ScalarType::U64 => 8,
            ScalarType::I64 => 8,
            ScalarType::F64 => 8,
            ScalarType::TimestampUs => 8,
            ScalarType::Utf8 => 4,
            ScalarType::Keyword => 4,
            ScalarType::Text => 4,
        }) + (if run.named@[k]->Scalar_0@[i] is Some && run.named@[k]->Scalar_0@[i]->0 is Utf8 {
            encode_utf8(run.named@[k]->Scalar_0@[i]->0->Utf8_0@).len() as int
        } else {
            0
        }),
        system_cost(run.system@, i, 0) == 0,
        run.system@[k] is Position ==> system_cost(run.system@, i, k + 1) == system_cost(
            run.system@,
            i,
            k,
        ) + 16,
        run.system@[k] is ExternalId ==> system_cost(run.system@, i, k + 1) == system_cost(
            run.system@,
            i,
            k,
        ) + 4 + if run.system@[k]->ExternalId_0@[i] is Some {
            run.system@[k]->ExternalId_0@[i]->0@.len()
        } else {
            0
        },
{
}

/// A run's rows are taken until one does not fit, or is no code of its category, and no row that
/// fits is left behind: the row that ended the run is the first whose cell is foreign, or the first
/// that would take a page that holds rows past its ceiling.
pub proof fn law_a_page_stops_only_where_it_must(
    before: PageValues,
    fields: Seq<PageField>,
    run: Run,
    count: int,
    max_bytes: usize,
)
    requires
        0 <= count,
        run.named@.len() >= fields.len(),
    ensures
        ({
            let n = before.reach(fields, run, 0, count, max_bytes);
            &&& 0 <= n <= count
            &&& forall|j: int, k: int|
                0 <= j < n && 0 <= k < fields.len() && run.named@[k] is Category ==> !((
                #[trigger] run.named@[k]->Category_0@[j]) is Foreign)
            &&& n < count ==> (exists|k: int|
                0 <= k < fields.len() && (#[trigger] run.named@[k]) is Category
                    && run.named@[k]->Category_0@[n] is Foreign) || (before.tessera_ids@.len() + n
                > 0 && before.bytes + before.run_cost(fields, run, n + 1) > max_bytes)
            &&& n > 0 && before.tessera_ids@.len() + n > 1 ==> before.bytes + before.run_cost(
                fields,
                run,
                n,
            ) <= max_bytes
        }),
{
    let n = before.reach(fields, run, 0, count, max_bytes);
    lemma_reach_takes(before, fields, run, 0, count, max_bytes);
    assert forall|j: int, k: int|
        0 <= j < n && 0 <= k < fields.len() && run.named@[k] is Category implies !((
    #[trigger] run.named@[k]->Category_0@[j]) is Foreign) by {
        assert(before.row_stop(fields, run, j, max_bytes) is None);
        lemma_mismatch(run.named@, j, fields.len() as int);
        assert(!foreign(run.named@[k], j));
    }
    lemma_reach_ends(before, fields, run, 0, count, max_bytes);
    if n < count {
        lemma_mismatch(run.named@, n, fields.len() as int);
        assert(before.row_stop(fields, run, n, max_bytes) is Some);
        let found = mismatch_in(run.named@, n, fields.len() as int);
        if found is Some {
            assert(foreign(run.named@[found->0], n));
            assert(run.named@[found->0] is Category);
        }
    }
    if n > 0 {
        assert(before.row_stop(fields, run, n - 1, max_bytes) is None);
        assert(n - 1 + 1 == n);
    }
}

proof fn lemma_reach_ends(
    page: PageValues,
    fields: Seq<PageField>,
    run: Run,
    i: int,
    count: int,
    max_bytes: usize,
)
    requires
        0 <= i <= count,
    ensures
        page.reach(fields, run, i, count, max_bytes) < count ==> page.row_stop(
            fields,
            run,
            page.reach(fields, run, i, count, max_bytes),
            max_bytes,
        ) is Some,
    decreases count - i,
{
    if i < count && page.row_stop(fields, run, i, max_bytes) is None {
        lemma_reach_ends(page, fields, run, i + 1, count, max_bytes);
    }
}

proof fn lemma_mismatch(columns: Seq<RunColumn>, i: int, k: int)
    ensures
        mismatch_in(columns, i, k) is None ==> forall|j: int|
            0 <= j < k ==> !foreign(#[trigger] columns[j], i),
        mismatch_in(columns, i, k) is Some ==> 0 <= mismatch_in(columns, i, k)->0 < k && foreign(
            columns[mismatch_in(columns, i, k)->0],
            i,
        ) && forall|j: int|
            0 <= j < mismatch_in(columns, i, k)->0 ==> !foreign(#[trigger] columns[j], i),
    decreases k,
{
    if k > 0 {
        lemma_mismatch(columns, i, k - 1);
    }
}

} // verus!
