//! Reading a page: which rows are read next, what they fill, and the columns they make.

use std::collections::HashMap;
use croaring::Bitmap;
use vstd::prelude::*;
use vstd::slice::slice_subrange;

use crate::bitmap;
use crate::bitmap::bits;
use crate::flush::recording::{fits, is_of, RecordField};
use crate::order::reversed;
use crate::records::arrays::{
    addressable, byte_cells, keys_within, scalar_cells, text_list_cells, texts_bytes,
};
use crate::records::columns::{
    keyed_codes, lemma_system_columns_step, places, position_of, system_columns, CategoryCell,
    CategoryColumn, FieldMismatch, PageField, PagePlan, PageValues, Run, SystemField,
    SystemValues, Values, Vocabulary, FIRST_READ,
};
use crate::records::walk::Taken;
use crate::scalar::{Scalar, ScalarType};
use crate::seqs::lemma_first_at;

verus! {

/// A page being read: its values so far, and the rows to read next.
pub struct PageReader {
    pub page: PageValues,
    /// The rows read so far.
    pub start: usize,
    /// How many rows the next read covers.
    pub length: usize,
    /// A row did not fit.
    pub full: bool,
}

/// Twice as many, or as many as there can be.
pub open spec fn doubled(length: usize) -> int {
    if length <= usize::MAX / 2 {
        length * 2
    } else {
        usize::MAX as int
    }
}

impl PageReader {
    /// Every row read so far was taken, until one did not fit.
    pub open spec fn wf(&self, plan: PagePlan) -> bool {
        &&& self.page.wf(plan.named@, plan.system@)
        &&& self.length > 0
        &&& !self.full ==> self.page.tessera_ids@.len() == self.start
    }

    /// A page with nothing read.
    pub fn begin(plan: &PagePlan, keep_unmatched: bool) -> (reader: PageReader)
        requires
            plan.countable(),
        ensures
            reader.wf(*plan),
            reader.start == 0,
            reader.length == FIRST_READ,
            !reader.full,
            reader.page.tessera_ids@.len() == 0,
            reader.page.bytes == 0,
            reader.page.matched is Some <==> keep_unmatched,
            reader.page.validity == plan.validity_bytes(keep_unmatched),
    {
        PageReader {
            page: PageValues::new(plan, keep_unmatched),
            start: 0,
            length: FIRST_READ,
            full: false,
        }
    }

    /// Where the next read ends.
    pub open spec fn end(&self, total: int) -> int {
        if total - self.start <= self.length {
            total
        } else {
            self.start + self.length
        }
    }

    /// The rows to read next, if the page can still take any: the first read is
    /// [`FIRST_READ`] rows, and each after it twice the one before.
    pub fn wanted(&self, total: usize) -> (range: Option<(usize, usize)>)
        ensures
            range == if self.full || self.start >= total {
                None
            } else {
                Some((self.start, self.end(total as int) as usize))
            },
            range matches Some(r) ==> r.0 < r.1 <= total || self.length == 0,
    {
        if self.full || self.start >= total {
            return None;
        }
        if total - self.start <= self.length {
            Some((self.start, total))
        } else {
            Some((self.start, self.start + self.length))
        }
    }

    /// Take the fields of the rows that were wanted: `false` once a row did not fit.
    pub fn given(
        &mut self,
        run: &Run,
        rows: &Vec<Taken>,
        plan: &PagePlan,
        max_bytes: usize,
    ) -> (out: Result<bool, FieldMismatch>)
        requires
            old(self).wf(*plan),
            !old(self).full,
            old(self).start < rows@.len() <= i32::MAX,
            ({
                let end = old(self).end(rows@.len() as int);
                let part = rows@.subrange(old(self).start as int, end);
                &&& run.wf(old(self).page, plan.system@, part.len())
                &&& old(self).page.bytes + old(self).page.run_cost(
                    plan.named@,
                    *run,
                    part.len() as int,
                ) <= usize::MAX
            }),
        ensures
            ({
                let end = old(self).end(rows@.len() as int);
                let part = rows@.subrange(old(self).start as int, end);
                let from = old(self).page;
                let n = from.reach(plan.named@, *run, 0, part.len() as int, max_bytes);
                let stop = from.row_stop(plan.named@, *run, n, max_bytes);
                &&& out is Err <==> n < part.len() && stop is Some && stop->0 is Mismatch
                &&& out matches Err(why) ==> why.name@ == plan.named@[stop->0->Mismatch_0].name@
                    && why.ty == plan.named@[stop->0->Mismatch_0].ty
                &&& final(self).page.grown(from, plan.named@, *run, part, n)
                &&& out is Err ==> final(self).start == old(self).start && final(self).length
                    == old(self).length && !final(self).full
                &&& out matches Ok(more) ==> {
                    &&& more == (n == part.len())
                    &&& final(self).wf(*plan)
                    &&& more ==> final(self).start == end && final(self).length == doubled(
                        old(self).length,
                    ) && !final(self).full
                    &&& !more ==> final(self).full
                }
            }),
    {
        let total: usize = rows.len();
        let end: usize = if total - self.start <= self.length {
            total
        } else {
            self.start + self.length
        };
        let part = slice_subrange(rows.as_slice(), self.start, end);
        let all: bool = match self.page.take(run, part, plan, max_bytes) {
            Ok(all) => all,
            Err(why) => return Err(why),
        };
        if all {
            self.start = end;
            self.length = if self.length <= usize::MAX / 2 {
                self.length * 2
            } else {
                usize::MAX
            };
        } else {
            self.full = true;
        }
        Ok(all)
    }
}

/// A rendered field's column in one segment, and which of its rows carry a value.
pub struct RenderedColumn {
    pub cells: Option<Vec<Scalar>>,
    pub presence: Bitmap,
}

/// A rendered field's cell of a row: the slot in its segment's row tail, where the segment holds
/// the column and the row carries a value. A category carries its absence as a code.
pub open spec fn rendered_cell(
    segments: Seq<RenderedColumn>,
    category: bool,
    row: Taken,
) -> Option<Scalar> {
    let column = segments[row.seg as int];
    match column.cells {
        None => None,
        Some(cells) => if !category && !bits(column.presence).contains(row.local) {
            None
        } else if row.local < cells@.len() {
            Some(cells@[row.local as int])
        } else {
            None
        },
    }
}

/// A rendered field's values over some rows.
pub fn rendered_values(
    segments: &Vec<RenderedColumn>,
    category: bool,
    rows: &Vec<Taken>,
) -> (values: Vec<Option<Scalar>>)
    requires
        forall|i: int| 0 <= i < rows@.len() ==> (#[trigger] rows@[i]).seg < segments@.len(),
    ensures
        values@ == rows@.map_values(|row: Taken| rendered_cell(segments@, category, row)),
{
    let mut values: Vec<Option<Scalar>> = Vec::new();
    let mut i: usize = 0;
    while i < rows.len()
        invariant
            i <= rows@.len(),
            forall|i: int| 0 <= i < rows@.len() ==> (#[trigger] rows@[i]).seg < segments@.len(),
            values@ == rows@.take(i as int).map_values(
                |row: Taken| rendered_cell(segments@, category, row),
            ),
        decreases rows@.len() - i,
    {
        let row = rows[i];
        assert(rows@[i as int].seg < segments@.len());
        let column = &segments[row.seg];
        let cell: Option<Scalar> = match &column.cells {
            None => None,
            Some(cells) => if !category && !bitmap::contains(&column.presence, row.local) {
                None
            } else if (row.local as usize) < cells.len() {
                Some(cells[row.local as usize].copy())
            } else {
                None
            },
        };
        values.push(cell);
        proof {
            let f = |row: Taken| rendered_cell(segments@, category, row);
            assert(rows@.take(i + 1) =~= rows@.take(i as int).push(rows@[i as int]));
            assert(rows@.take(i + 1).map_values(f) =~= rows@.take(i as int).map_values(f).push(
                f(rows@[i as int]),
            ));
        }
        i += 1;
    }
    assert(rows@.take(i as int) =~= rows@);
    values
}

/// Which entities some rows are of.
pub fn entities_of(rows: &Vec<Taken>) -> (entities: Bitmap)
    ensures
        bits(entities) == rows@.map_values(|row: Taken| row.entity).to_set(),
{
    let mut list: Vec<u32> = Vec::new();
    let mut i: usize = 0;
    while i < rows.len()
        invariant
            i <= rows@.len(),
            list@ == rows@.take(i as int).map_values(|row: Taken| row.entity),
        decreases rows@.len() - i,
    {
        list.push(rows[i].entity);
        proof {
            let f = |row: Taken| row.entity;
            assert(rows@.take(i + 1) =~= rows@.take(i as int).push(rows@[i as int]));
            assert(rows@.take(i + 1).map_values(f) =~= rows@.take(i as int).map_values(f).push(
                f(rows@[i as int]),
            ));
        }
        i += 1;
    }
    assert(rows@.take(i as int) =~= rows@);
    bitmap::of(list.as_slice())
}

/// A record row as the store yields it.
#[derive(Debug)]
pub struct RecordRow {
    pub entity: u32,
    pub fields: Vec<RecordField>,
}

/// The value a record row holds under a tag: the last field that carries it.
pub open spec fn tagged(fields: Seq<RecordField>, tag: u16) -> Option<Scalar>
    decreases fields.len(),
{
    if fields.len() == 0 {
        None
    } else if fields.last().tag == tag {
        Some(fields.last().value)
    } else {
        tagged(fields.drop_last(), tag)
    }
}

/// What the store's rows say of an entity under a tag: the last that says anything.
pub open spec fn stored(records: Seq<RecordRow>, entity: u32, tag: u16) -> Option<Scalar>
    decreases records.len(),
{
    if records.len() == 0 {
        None
    } else if records.last().entity == entity && tagged(records.last().fields@, tag) is Some {
        tagged(records.last().fields@, tag)
    } else {
        stored(records.drop_last(), entity, tag)
    }
}

fn tagged_value(fields: &Vec<RecordField>, tag: u16) -> (value: Option<Scalar>)
    ensures
        value == tagged(fields@, tag),
{
    let mut i: usize = fields.len();
    assert(fields@.take(i as int) =~= fields@);
    while i > 0
        invariant
            i <= fields@.len(),
            tagged(fields@, tag) == tagged(fields@.take(i as int), tag),
        decreases i,
    {
        assert(fields@.take(i as int).drop_last() =~= fields@.take(i - 1));
        i -= 1;
        if fields[i].tag == tag {
            return Some(fields[i].value.copy());
        }
    }
    None
}

/// Whether no later row is of the same entity as the row at `i`.
pub open spec fn last_of_entity(rows: Seq<Taken>, i: int) -> bool {
    forall|j: int| i < j < rows.len() ==> (#[trigger] rows[j]).entity != rows[i].entity
}

/// What a row has of a field that the record store holds: what the store says of its entity. Of
/// rows that share an entity only the last has it.
pub open spec fn record_cell(
    records: Seq<RecordRow>,
    rows: Seq<Taken>,
    tag: u16,
    i: int,
) -> Option<Scalar> {
    if last_of_entity(rows, i) {
        stored(records, rows[i].entity, tag)
    } else {
        None
    }
}

/// Where each entity's last row stands among the first `n`.
spec fn indexes(at: Map<u32, usize>, rows: Seq<Taken>, n: int) -> bool {
    &&& forall|k: int| 0 <= k < n ==> at.contains_key((#[trigger] rows[k]).entity)
    &&& forall|e: u32| #[trigger]
        at.contains_key(e) ==> at[e] < n && rows[at[e] as int].entity == e && forall|j: int|
            at[e] < j < n ==> (#[trigger] rows[j]).entity != e
}

/// Each row's value of a field that the record store holds, from one pass over its rows.
pub fn record_values(rows: &Vec<Taken>, records: &Vec<RecordRow>, tag: u16) -> (values: Vec<
    Option<Scalar>,
>)
    ensures
        values@.len() == rows@.len(),
        forall|i: int|
            0 <= i < rows@.len() ==> (#[trigger] values@[i]) == record_cell(
                records@,
                rows@,
                tag,
                i,
            ),
{
    broadcast use vstd::std_specs::hash::group_hash_axioms;

    let mut at: HashMap<u32, usize> = HashMap::new();
    let mut values: Vec<Option<Scalar>> = Vec::new();
    let mut i: usize = 0;
    while i < rows.len()
        invariant
            i <= rows@.len(),
            values@.len() == i,
            forall|k: int| 0 <= k < i ==> (#[trigger] values@[k]) is None,
            indexes(at@, rows@, i as int),
        decreases rows@.len() - i,
    {
        at.insert(rows[i].entity, i);
        values.push(None);
        i += 1;
    }
    let mut n: usize = 0;
    while n < records.len()
        invariant
            n <= records@.len(),
            values@.len() == rows@.len(),
            indexes(at@, rows@, rows@.len() as int),
            forall|k: int|
                0 <= k < rows@.len() ==> (#[trigger] values@[k]) == record_cell(
                    records@.take(n as int),
                    rows@,
                    tag,
                    k,
                ),
        decreases records@.len() - n,
    {
        let ghost before = values@;
        proof {
            assert(records@.take(n + 1).drop_last() =~= records@.take(n as int));
            assert(records@.take(n + 1).last() == records@[n as int]);
        }
        let record = &records[n];
        match at.get(&record.entity) {
            Some(place) => {
                let k: usize = *place;
                let value = tagged_value(&record.fields, tag);
                if value.is_some() {
                    values.set(k, value);
                }
            },
            None => {},
        }
        proof {
            assert forall|k: int| 0 <= k < rows@.len() implies (#[trigger] values@[k])
                == record_cell(records@.take(n + 1), rows@, tag, k) by {
                assert(before[k] == record_cell(records@.take(n as int), rows@, tag, k));
                let e = rows@[k].entity;
                assert(at@.contains_key(e));
                assert(rows@[at@[e] as int].entity == e);
                if last_of_entity(rows@, k) {
                    assert(at@[e] == k);
                } else {
                    assert(at@[e] != k);
                }
            }
        }
        n += 1;
    }
    assert(records@.take(n as int) =~= records@);
    values
}

/// What a page's column holds.
pub enum ColumnData {
    Ids(Vec<u64>),
    Scalars { ty: ScalarType, values: Vec<Option<Scalar>> },
    Category { dictionary: Vec<String>, keys: Vec<Option<i32>> },
    /// Coordinates, each as its bit pattern.
    Coordinates(Vec<u64>),
    ExternalIds(Vec<Option<Vec<u8>>>),
    Labels(Vec<Vec<String>>),
    Matched(Vec<bool>),
}

/// One column of a page's batch.
pub struct OutColumn {
    pub name: String,
    pub nullable: bool,
    pub data: ColumnData,
}

/// The first field whose values are not all of its type.
pub open spec fn misfit(named: Seq<Values>, k: int) -> Option<int>
    decreases k,
{
    if k <= 0 {
        None
    } else if misfit(named, k - 1) is Some {
        misfit(named, k - 1)
    } else if !all_fit(named[k - 1]) {
        Some(k - 1)
    } else {
        None
    }
}

/// Whether every value a column holds is of its type.
pub open spec fn all_fit(values: Values) -> bool {
    match values {
        Values::Scalar { ty, values } => forall|i: int|
            0 <= i < values@.len() && (#[trigger] values@[i]) is Some ==> fits(ty, values@[i]->0),
        _ => true,
    }
}

proof fn lemma_misfit_stays(named: Seq<Values>, k: int, more: int)
    requires
        k <= more,
        misfit(named, k) is Some,
    ensures
        misfit(named, more) == misfit(named, k),
    decreases more - k,
{
    if k < more {
        lemma_misfit_stays(named, k, more - 1);
    }
}

fn column_fits(ty: ScalarType, values: &Vec<Option<Scalar>>) -> (yes: bool)
    ensures
        yes == forall|i: int|
            0 <= i < values@.len() && (#[trigger] values@[i]) is Some ==> fits(ty, values@[i]->0),
{
    let mut i: usize = 0;
    while i < values.len()
        invariant
            i <= values@.len(),
            forall|k: int|
                0 <= k < i && (#[trigger] values@[k]) is Some ==> fits(ty, values@[k]->0),
        decreases values@.len() - i,
    {
        if let Some(value) = &values[i] {
            if !is_of(ty, value) {
                assert(values@[i as int] is Some && !fits(ty, values@[i as int]->0));
                return false;
            }
        }
        i += 1;
    }
    true
}

/// The columns of a page, in order: the id, the named fields, the system fields, then whether the
/// row matched.
pub open spec fn columns_of(page: PageValues, plan: PagePlan) -> nat {
    1 + page.named@.len() + system_columns(plan.system@) + if page.matched
        is Some {
        1nat
    } else {
        0
    }
}

/// Whether a column is the one a named field makes.
pub open spec fn named_column(column: OutColumn, field: PageField, values: Values) -> bool {
    &&& column.name@ == field.name@
    &&& column.nullable
    &&& match values {
        Values::Scalar { ty, values } => column.data == (ColumnData::Scalars { ty, values }),
        Values::Category(held) => column.data matches ColumnData::Category { dictionary, keys }
            && dictionary == held.dictionary && keys == held.keys,
    }
}

/// Whether the columns from `at` on are the ones a system field makes.
pub open spec fn system_column(columns: Seq<OutColumn>, at: nat, values: SystemValues) -> bool {
    match values {
        SystemValues::Position(points) => {
            &&& columns[at as int].name@ == "tessera:x"@
            &&& !columns[at as int].nullable
            &&& columns[at as int].data matches ColumnData::Coordinates(xs)
            &&& xs@ == points@.map_values(|p: (u64, u64)| p.0)
            &&& columns[at as int + 1].name@ == "tessera:y"@
            &&& !columns[at as int + 1].nullable
            &&& columns[at as int + 1].data matches ColumnData::Coordinates(ys)
            &&& ys@ == points@.map_values(|p: (u64, u64)| p.1)
        },
        SystemValues::ExternalId(ids) => {
            &&& columns[at as int].name@ == "tessera:external_id"@
            &&& columns[at as int].nullable
            &&& columns[at as int].data == ColumnData::ExternalIds(ids)
        },
        SystemValues::Labels(labels) => {
            &&& columns[at as int].name@ == "tessera:labels"@
            &&& !columns[at as int].nullable
            &&& columns[at as int].data == ColumnData::Labels(labels)
        },
    }
}

/// Whether the columns are those a page's batch carries, in order: `tessera_id`, the named fields,
/// the system fields, then whether the row matched.
pub open spec fn lays_out(columns: Seq<OutColumn>, page: PageValues, plan: PagePlan) -> bool {
    &&& columns.len() == columns_of(page, plan)
    &&& columns[0].name@ == "tessera_id"@
    &&& !columns[0].nullable
    &&& columns[0].data == ColumnData::Ids(page.tessera_ids)
    &&& forall|k: int|
        0 <= k < page.named@.len() ==> named_column(
            #[trigger] columns[1 + k],
            plan.named@[k],
            page.named@[k],
        )
    &&& forall|k: int|
        0 <= k < page.system@.len() ==> system_column(
            columns,
            1 + page.named@.len() + system_columns(plan.system@.take(k)),
            #[trigger] page.system@[k],
        )
    &&& page.matched matches Some(matched) ==> {
        let last = columns.last();
        last.name@ == "tessera:matched"@ && !last.nullable && last.data == ColumnData::Matched(
            matched,
        )
    }
}

impl OutColumn {
    /// Whether it holds a value of its type for each of `rows` rows, and is nullable where one can
    /// be missing.
    pub open spec fn holds(&self, rows: nat) -> bool {
        match self.data {
            ColumnData::Ids(ids) => ids@.len() == rows,
            ColumnData::Scalars { ty, values } => {
                &&& self.nullable
                &&& values@.len() == rows
                &&& forall|i: int|
                    0 <= i < values@.len() && (#[trigger] values@[i]) is Some ==> fits(
                        ty,
                        values@[i]->0,
                    )
            },
            ColumnData::Category { dictionary, keys } => {
                &&& self.nullable
                &&& keys@.len() == rows
                &&& keys_within(keys@, dictionary@.len())
            },
            ColumnData::Coordinates(bits) => bits@.len() == rows,
            ColumnData::ExternalIds(ids) => self.nullable && ids@.len() == rows,
            ColumnData::Labels(labels) => labels@.len() == rows,
            ColumnData::Matched(matched) => matched@.len() == rows,
        }
    }

    /// Whether its array's offsets can address its values.
    pub open spec fn sends(&self) -> bool {
        match self.data {
            ColumnData::Scalars { values, .. } => addressable(scalar_cells(values@)),
            ColumnData::Category { dictionary, .. } => texts_bytes(
                dictionary@.map_values(|text: String| text@),
            ) <= i32::MAX,
            ColumnData::ExternalIds(ids) => addressable(byte_cells(ids@)),
            ColumnData::Labels(labels) => addressable(text_list_cells(labels@)),
            _ => true,
        }
    }
}

/// Whether the offsets of each of a page's arrays can address its values.
pub open spec fn sendable(page: PageValues) -> bool {
    &&& forall|k: int|
        0 <= k < page.named@.len() ==> match #[trigger] page.named@[k] {
            Values::Scalar { values, .. } => addressable(scalar_cells(values@)),
            Values::Category(held) => texts_bytes(
                held.dictionary@.map_values(|text: String| text@),
            ) <= i32::MAX,
        }
    &&& forall|k: int|
        0 <= k < page.system@.len() ==> match #[trigger] page.system@[k] {
            SystemValues::Position(_) => true,
            SystemValues::ExternalId(ids) => addressable(byte_cells(ids@)),
            SystemValues::Labels(labels) => addressable(text_list_cells(labels@)),
        }
}

fn axis(points: &Vec<(u64, u64)>, second: bool) -> (values: Vec<u64>)
    ensures
        second ==> values@ == points@.map_values(|p: (u64, u64)| p.1),
        !second ==> values@ == points@.map_values(|p: (u64, u64)| p.0),
{
    let mut values: Vec<u64> = Vec::new();
    let mut i: usize = 0;
    while i < points.len()
        invariant
            i <= points@.len(),
            values@.len() == i,
            forall|k: int|
                0 <= k < i ==> (#[trigger] values@[k]) == if second {
                    points@[k].1
                } else {
                    points@[k].0
                },
        decreases points@.len() - i,
    {
        let (x, y) = points[i];
        values.push(
            if second {
                y
            } else {
                x
            },
        );
        i += 1;
    }
    proof {
        if second {
            assert(values@ =~= points@.map_values(|p: (u64, u64)| p.1));
        } else {
            assert(values@ =~= points@.map_values(|p: (u64, u64)| p.0));
        }
    }
    values
}

/// A category column's keys are places in its dictionary.
proof fn lemma_keys_within(column: CategoryColumn, vocabulary: Vocabulary)
    requires
        column.wf(vocabulary),
    ensures
        keys_within(column.keys@, column.dictionary@.len()),
{
    let codes = keyed_codes(vocabulary, column.cells@);
    assert forall|i: int|
        0 <= i < column.keys@.len() && (#[trigger] column.keys@[i]) is Some implies 0
        <= column.keys@[i]->0 < column.dictionary@.len() by {
        let cell = column.cells@[i];
        assert(places(column.keys@[i], position_of(vocabulary, column.cells@, cell)));
        if let CategoryCell::Code(code) = cell {
            lemma_first_at(codes, code);
        }
    }
}

/// A page's columns, in the order its batch carries them.
pub fn into_columns(page: PageValues, plan: &PagePlan) -> (out: Result<
    Vec<OutColumn>,
    FieldMismatch,
>)
    requires
        page.wf(plan.named@, plan.system@),
    ensures
        out is Err <==> misfit(page.named@, page.named@.len() as int) is Some,
        out matches Err(why) ==> ({
            let k = misfit(page.named@, page.named@.len() as int)->0;
            why.name@ == plan.named@[k].name@ && why.ty == plan.named@[k].ty
        }),
        out matches Ok(columns) ==> {
            &&& lays_out(columns@, page, *plan)
            &&& forall|j: int|
                0 <= j < columns@.len() ==> (#[trigger] columns@[j]).holds(
                    page.tessera_ids@.len(),
                )
            &&& sendable(page) ==> forall|j: int|
                0 <= j < columns@.len() ==> (#[trigger] columns@[j]).sends()
        },
{
    let ghost whole = page;
    let fields: usize = plan.named.len();
    let extras: usize = plan.system.len();
    let mut columns: Vec<OutColumn> = Vec::new();
    columns.push(
        OutColumn {
            name: String::from_str("tessera_id"),
            nullable: false,
            data: ColumnData::Ids(page.tessera_ids),
        },
    );
    let ghost ids = columns@[0];
    let mut named = reversed(page.named);
    let mut k: usize = 0;
    while named.len() > 0
        invariant
            whole == page,
            k <= fields == plan.named@.len() == whole.named@.len(),
            whole.wf(plan.named@, plan.system@),
            named@.len() == whole.named@.len() - k,
            forall|j: int|
                0 <= j < named@.len() ==> (#[trigger] named@[j]) == whole.named@[whole.named@.len()
                    - 1 - j],
            columns@.len() == 1 + k,
            columns@[0] == ids,
            misfit(whole.named@, k as int) is None,
            forall|j: int|
                0 <= j < columns@.len() ==> (#[trigger] columns@[j]).holds(
                    whole.tessera_ids@.len(),
                ),
            sendable(whole) ==> forall|j: int|
                0 <= j < columns@.len() ==> (#[trigger] columns@[j]).sends(),
            forall|j: int|
                0 <= j < k ==> named_column(
                    #[trigger] columns@[1 + j],
                    plan.named@[j],
                    whole.named@[j],
                ),
        decreases named@.len(),
    {
        let ghost top = named@.len() - 1;
        assert(named@[top] == whole.named@[k as int]);
        let ghost before = columns@;
        if let Some(values) = named.pop() {
            proof {
                assert(values == whole.named@[k as int]);
                assert(whole.named@[k as int].wf(plan.named@[k as int], whole.tessera_ids@.len()));
            }
            let data: ColumnData = match values {
                Values::Scalar { ty, values } => {
                    if !column_fits(ty, &values) {
                        proof {
                            lemma_misfit_stays(
                                whole.named@,
                                k + 1,
                                whole.named@.len() as int,
                            );
                        }
                        return Err(FieldMismatch { name: plan.named[k].name.clone(), ty });
                    }
                    ColumnData::Scalars { ty, values }
                },
                Values::Category(held) => {
                    proof {
                        lemma_keys_within(held, plan.named@[k as int].vocabulary->0);
                    }
                    ColumnData::Category { dictionary: held.dictionary, keys: held.keys }
                },
            };
            columns.push(OutColumn { name: plan.named[k].name.clone(), nullable: true, data });
            k += 1;
            proof {
                assert forall|j: int| 0 <= j < k implies named_column(
                    #[trigger] columns@[1 + j],
                    plan.named@[j],
                    whole.named@[j],
                ) by {
                    if j < k - 1 {
                        assert(columns@[1 + j] == before[1 + j]);
                    }
                }
            }
        }
    }
    let ghost fixed = columns@;
    let mut system = reversed(page.system);
    let mut n: usize = 0;
    proof {
        assert(plan.system@.take(0) =~= Seq::<SystemField>::empty());
    }
    while system.len() > 0
        invariant
            n <= extras == plan.system@.len() == whole.system@.len(),
            whole.wf(plan.named@, plan.system@),
            system@.len() == whole.system@.len() - n,
            forall|j: int|
                0 <= j < system@.len() ==> (#[trigger] system@[j])
                    == whole.system@[whole.system@.len() - 1 - j],
            fixed.len() == 1 + whole.named@.len(),
            columns@.len() == fixed.len() + system_columns(
                plan.system@.take(n as int),
            ),
            columns@.take(fixed.len() as int) == fixed,
            forall|j: int|
                0 <= j < columns@.len() ==> (#[trigger] columns@[j]).holds(
                    whole.tessera_ids@.len(),
                ),
            sendable(whole) ==> forall|j: int|
                0 <= j < columns@.len() ==> (#[trigger] columns@[j]).sends(),
            forall|j: int|
                0 <= j < n ==> system_column(
                    columns@,
                    fixed.len() + system_columns(plan.system@.take(j)),
                    #[trigger] whole.system@[j],
                ),
        decreases system@.len(),
    {
        let ghost top = system@.len() - 1;
        assert(system@[top] == whole.system@[n as int]);
        let ghost before = columns@;
        if let Some(values) = system.pop() {
            proof {
                assert(whole.system@[n as int].wf(
                    plan.system@[n as int],
                    whole.tessera_ids@.len(),
                ));
                lemma_system_columns_step(plan.system@, n as int);
            }
            match values {
                SystemValues::Position(points) => {
                    columns.push(
                        OutColumn {
                            name: String::from_str("tessera:x"),
                            nullable: false,
                            data: ColumnData::Coordinates(axis(&points, false)),
                        },
                    );
                    columns.push(
                        OutColumn {
                            name: String::from_str("tessera:y"),
                            nullable: false,
                            data: ColumnData::Coordinates(axis(&points, true)),
                        },
                    );
                },
                SystemValues::ExternalId(ids) => {
                    columns.push(
                        OutColumn {
                            name: String::from_str("tessera:external_id"),
                            nullable: true,
                            data: ColumnData::ExternalIds(ids),
                        },
                    );
                },
                SystemValues::Labels(labels) => {
                    columns.push(
                        OutColumn {
                            name: String::from_str("tessera:labels"),
                            nullable: false,
                            data: ColumnData::Labels(labels),
                        },
                    );
                },
            }
            n += 1;
            proof {
                assert(columns@.take(before.len() as int) =~= before);
                assert(columns@.take(fixed.len() as int) =~= fixed);
                assert forall|j: int| 0 <= j < n implies system_column(
                    columns@,
                    fixed.len() + system_columns(plan.system@.take(j)),
                    #[trigger] whole.system@[j],
                ) by {
                    if j < n - 1 {
                        assert(system_column(
                            before,
                            fixed.len() + system_columns(
                                plan.system@.take(j),
                            ),
                            whole.system@[j],
                        ));
                        assert(whole.system@[j].wf(plan.system@[j], whole.tessera_ids@.len()));
                        lemma_system_columns_step(plan.system@, j);
                        lemma_system_columns_climb(plan.system@, j + 1, n - 1);
                    }
                }
            }
        }
    }
    proof {
        assert(plan.system@.take(n as int) =~= plan.system@);
    }
    let ghost before = columns@;
    if let Some(matched) = page.matched {
        columns.push(
            OutColumn {
                name: String::from_str("tessera:matched"),
                nullable: false,
                data: ColumnData::Matched(matched),
            },
        );
    }
    proof {
        assert(columns@.take(before.len() as int) =~= before);
        assert(columns@[0] == fixed[0]) by {
            assert(before.take(fixed.len() as int)[0] == before[0]);
        }
        assert forall|j: int| 0 <= j < whole.named@.len() implies named_column(
            #[trigger] columns@[1 + j],
            plan.named@[j],
            whole.named@[j],
        ) by {
            assert(before.take(fixed.len() as int)[1 + j] == before[1 + j]);
            assert(fixed[1 + j] == columns@[1 + j]);
        }
        assert forall|j: int| 0 <= j < whole.system@.len() implies system_column(
            columns@,
            1 + whole.named@.len() + system_columns(plan.system@.take(j)),
            #[trigger] whole.system@[j],
        ) by {
            assert(system_column(
                before,
                fixed.len() + system_columns(plan.system@.take(j)),
                whole.system@[j],
            ));
            assert(whole.system@[j].wf(plan.system@[j], whole.tessera_ids@.len()));
            lemma_system_columns_step(plan.system@, j);
            lemma_system_columns_climb(plan.system@, j + 1, plan.system@.len() as int);
        }
    }
    Ok(columns)
}

proof fn lemma_system_columns_climb(system: Seq<SystemField>, a: int, b: int)
    requires
        0 <= a <= b <= system.len(),
    ensures
        system_columns(system.take(a))
            <= system_columns(system.take(b)),
    decreases b - a,
{
    if a < b {
        lemma_system_columns_step(system, b - 1);
        lemma_system_columns_climb(system, a, b - 1);
    }
}

/// A page's columns are its values, each under its field's name: the identifiers first, then the
/// named fields in the order named, each with the page's value of that field at every row, and last,
/// where it is asked for, whether each row matched.
pub proof fn law_a_pages_columns_are_its_values(
    columns: Seq<OutColumn>,
    page: PageValues,
    plan: PagePlan,
    k: int,
)
    requires
        page.wf(plan.named@, plan.system@),
        lays_out(columns, page, plan),
        0 <= k < page.named@.len(),
    ensures
        columns[0].name@ == "tessera_id"@,
        columns[0].data is Ids,
        columns[0].data->Ids_0@ == page.tessera_ids@,
        columns[1 + k].name@ == plan.named@[k].name@,
        columns[1 + k].nullable,
        page.named@[k] is Scalar ==> columns[1 + k].data is Scalars
            && columns[1 + k].data->ty == plan.named@[k].ty
            && columns[1 + k].data->values@ == page.named@[k]->values@,
        page.named@[k] is Category ==> columns[1 + k].data is Category
            && columns[1 + k].data->dictionary@ == page.named@[k]->Category_0.dictionary@
            && columns[1 + k].data->keys@ == page.named@[k]->Category_0.keys@,
        page.matched is Some ==> columns.last().name@ == "tessera:matched"@
            && !columns.last().nullable && columns.last().data is Matched
            && columns.last().data->Matched_0@ == page.matched->0@,
{
    assert(named_column(columns[1 + k], plan.named@[k], page.named@[k]));
    assert(page.named@[k].wf(plan.named@[k], page.tessera_ids@.len()));
}

/// A system field's columns hold its values by name: at a row whose position is `(x, y)`, the column
/// `tessera:x` holds `x` and `tessera:y` holds `y`. They stand after the named fields, in the order
/// named, from `from` up to `to`.
pub proof fn law_a_system_fields_columns_are_its_values(
    columns: Seq<OutColumn>,
    page: PageValues,
    plan: PagePlan,
    k: int,
    i: int,
) -> (at: (int, int))
    requires
        page.wf(plan.named@, plan.system@),
        lays_out(columns, page, plan),
        0 <= k < page.system@.len(),
        0 <= i < page.tessera_ids@.len(),
    ensures
        ({
            let (from, to) = at;
            &&& k == 0 ==> from == 1 + page.named@.len()
            &&& k + 1 == page.system@.len() ==> to == columns.len() - if page.matched is Some {
                1int
            } else {
                0
            }
            &&& 1 + page.named@.len() <= from <= to <= columns.len()
            &&& plan.system@[k] is Position ==> {
                let (x, y) = page.system@[k]->Position_0@[i];
                &&& page.system@[k] is Position
                &&& to == from + 2
                &&& columns[from].name@ == "tessera:x"@ && columns[from + 1].name@ == "tessera:y"@
                &&& columns[from].data is Coordinates && columns[from + 1].data is Coordinates
                &&& columns[from].data->Coordinates_0@[i] == x
                &&& columns[from + 1].data->Coordinates_0@[i] == y
                &&& !columns[from].nullable && !columns[from + 1].nullable
            }
            &&& plan.system@[k] is ExternalId ==> {
                &&& page.system@[k] is ExternalId
                &&& to == from + 1
                &&& columns[from].name@ == "tessera:external_id"@
                &&& columns[from].nullable
                &&& columns[from].data is ExternalIds
                &&& columns[from].data->ExternalIds_0@[i] == page.system@[k]->ExternalId_0@[i]
            }
            &&& plan.system@[k] is Labels ==> {
                &&& page.system@[k] is Labels
                &&& to == from + 1
                &&& columns[from].name@ == "tessera:labels"@
                &&& !columns[from].nullable
                &&& columns[from].data is Labels
                &&& columns[from].data->Labels_0@[i] == page.system@[k]->Labels_0@[i]
            }
        }),
{
    let from = 1 + page.named@.len() + system_columns(plan.system@.take(k));
    assert(page.system@[k].wf(plan.system@[k], page.tessera_ids@.len()));
    assert(system_column(columns, from, page.system@[k]));
    assert(plan.system@.take(k + 1).drop_last() =~= plan.system@.take(k));
    if k == 0 {
        assert(plan.system@.take(0) =~= Seq::<SystemField>::empty());
    }
    lemma_system_columns_climb(plan.system@, k + 1, plan.system@.len() as int);
    assert(plan.system@.take(plan.system@.len() as int) =~= plan.system@);
    if k + 1 == plan.system@.len() {
        assert(plan.system@.take(k + 1) =~= plan.system@);
    }
    (from as int, (from + plan.system@[k].columns()) as int)
}

/// A page is refused on its first field that holds a value of a type other than its declared one.
pub proof fn law_a_page_is_refused_on_its_first_misfit(named: Seq<Values>, n: int)
    requires
        0 <= n <= named.len(),
    ensures
        misfit(named, n) is None ==> forall|k: int, i: int|
            0 <= k < n && named[k] is Scalar && 0 <= i < named[k]->values@.len() && (
            #[trigger] named[k]->values@[i]) is Some ==> fits(
                named[k]->ty,
                named[k]->values@[i]->0,
            ),
        misfit(named, n) is Some ==> {
            let at = misfit(named, n)->0;
            &&& 0 <= at < n
            &&& named[at] is Scalar
            &&& exists|i: int|
                0 <= i < named[at]->values@.len() && (#[trigger] named[at]->values@[i]) is Some && !fits(
                    named[at]->ty,
                    named[at]->values@[i]->0,
                )
            &&& forall|k: int, i: int|
                0 <= k < at && named[k] is Scalar && 0 <= i < named[k]->values@.len() && (
                #[trigger] named[k]->values@[i]) is Some ==> fits(
                    named[k]->ty,
                    named[k]->values@[i]->0,
                )
        },
    decreases n,
{
    if n > 0 {
        law_a_page_is_refused_on_its_first_misfit(named, n - 1);
    }
}

} // verus!
