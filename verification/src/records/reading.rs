//! Reading a run of rows: each named field's values, from the home that holds them.

use vstd::prelude::*;

use crate::bitmap::bits;
use crate::flush::recording::RecordField;
use crate::records::page::{
    record_cell, record_values, rendered_cell, rendered_values, stored, tagged, RecordRow,
    RenderedColumn,
};
use crate::records::plan::{Home, Named};
use crate::records::walk::Taken;
use crate::scalar::Scalar;

verus! {

/// What a field's home holds for a run of rows.
pub enum FieldSource {
    /// The column in each segment's row tail.
    Rendered(Vec<RenderedColumn>),
    /// The value column's slot of each row.
    ValueColumn(Vec<Option<Scalar>>),
    /// The record store's rows, which every recorded field shares.
    Record,
}

/// Whether a source is of a home, and covers some rows.
pub open spec fn sources(home: Home, source: FieldSource, rows: Seq<Taken>) -> bool {
    match (home, source) {
        (Home::Rendered, FieldSource::Rendered(segments)) => forall|i: int|
            0 <= i < rows.len() ==> (#[trigger] rows[i]).seg < segments@.len(),
        (Home::ValueColumn(_), FieldSource::ValueColumn(values)) => values@.len() == rows.len(),
        (Home::Record(_), FieldSource::Record) => true,
        _ => false,
    }
}

/// A field's value of the row at `i`: its slot in the row tail, its slot in the value column, or
/// what the record store holds of the row's entity under the field's tag.
pub open spec fn value_at(
    field: Named,
    source: FieldSource,
    records: Seq<RecordRow>,
    rows: Seq<Taken>,
    i: int,
) -> Option<Scalar> {
    match (field.home, source) {
        (Home::Rendered, FieldSource::Rendered(segments)) => rendered_cell(
            segments@,
            field.vocabulary is Some,
            rows[i],
        ),
        (Home::ValueColumn(_), FieldSource::ValueColumn(values)) => values@[i],
        (Home::Record(tag), FieldSource::Record) => record_cell(records, rows, tag, i),
        _ => None,
    }
}

fn copy_values(values: &Vec<Option<Scalar>>) -> (out: Vec<Option<Scalar>>)
    ensures
        out@ == values@,
{
    let mut out: Vec<Option<Scalar>> = Vec::new();
    let mut i: usize = 0;
    while i < values.len()
        invariant
            i <= values@.len(),
            out@ == values@.take(i as int),
        decreases values@.len() - i,
    {
        let value: Option<Scalar> = match &values[i] {
            Some(scalar) => Some(scalar.copy()),
            None => None,
        };
        out.push(value);
        assert(values@.take(i + 1) =~= values@.take(i as int).push(values@[i as int]));
        i += 1;
    }
    assert(values@.take(i as int) =~= values@);
    out
}

/// One field's values over some rows.
fn read_field(
    field: &Named,
    source: &FieldSource,
    records: &Vec<RecordRow>,
    rows: &Vec<Taken>,
) -> (values: Vec<Option<Scalar>>)
    requires
        sources(field.home, *source, rows@),
    ensures
        values@.len() == rows@.len(),
        forall|i: int|
            0 <= i < rows@.len() ==> (#[trigger] values@[i]) == value_at(
                *field,
                *source,
                records@,
                rows@,
                i,
            ),
{
    match (&field.home, source) {
        (Home::Rendered, FieldSource::Rendered(segments)) => rendered_values(
            segments,
            field.vocabulary.is_some(),
            rows,
        ),
        (Home::ValueColumn(_), FieldSource::ValueColumn(values)) => copy_values(values),
        (Home::Record(tag), FieldSource::Record) => record_values(rows, records, *tag),
        _ => Vec::new(),
    }
}

/// Whether a run holds every named field's values over some rows.
pub open spec fn reads(
    named: Seq<Named>,
    held: Seq<FieldSource>,
    records: Seq<RecordRow>,
    rows: Seq<Taken>,
    run: Seq<Vec<Option<Scalar>>>,
) -> bool {
    &&& run.len() == named.len()
    &&& forall|k: int| 0 <= k < run.len() ==> (#[trigger] run[k])@.len() == rows.len()
    &&& forall|k: int, i: int|
        0 <= k < run.len() && 0 <= i < rows.len() ==> (#[trigger] run[k]@[i]) == value_at(
            named[k],
            held[k],
            records,
            rows,
            i,
        )
}

/// Every named field's values over some rows, as the fields' homes hold them.
pub fn read_run(
    named: &Vec<Named>,
    held: &Vec<FieldSource>,
    records: &Vec<RecordRow>,
    rows: &Vec<Taken>,
) -> (run: Vec<Vec<Option<Scalar>>>)
    requires
        held@.len() == named@.len(),
        forall|k: int|
            0 <= k < named@.len() ==> sources((#[trigger] named@[k]).home, held@[k], rows@),
    ensures
        reads(named@, held@, records@, rows@, run@),
{
    let mut run: Vec<Vec<Option<Scalar>>> = Vec::new();
    let mut k: usize = 0;
    while k < named.len()
        invariant
            k <= named@.len() == held@.len(),
            forall|k: int|
                0 <= k < named@.len() ==> sources((#[trigger] named@[k]).home, held@[k], rows@),
            run@.len() == k,
            forall|j: int| 0 <= j < k ==> (#[trigger] run@[j])@.len() == rows@.len(),
            forall|j: int, i: int|
                0 <= j < k && 0 <= i < rows@.len() ==> (#[trigger] run@[j]@[i]) == value_at(
                    named@[j],
                    held@[j],
                    records@,
                    rows@,
                    i,
                ),
        decreases named@.len() - k,
    {
        assert(sources(named@[k as int].home, held@[k as int], rows@));
        run.push(read_field(&named[k], &held[k], records, rows));
        k += 1;
    }
    run
}

/// A field that the row tails render has, at a row, the cell that the row's own segment holds at the
/// row's place in it. It has one exactly where that segment holds the column up to the row and marks
/// the row present, which a category, whose absence is a code, need not do.
pub proof fn law_a_rendered_value_is_its_own_segments_cell(
    named: Seq<Named>,
    held: Seq<FieldSource>,
    records: Seq<RecordRow>,
    rows: Seq<Taken>,
    run: Seq<Vec<Option<Scalar>>>,
    k: int,
    i: int,
)
    requires
        reads(named, held, records, rows, run),
        0 <= k < named.len(),
        0 <= i < rows.len(),
        named[k].home is Rendered,
        held[k] is Rendered,
    ensures
        ({
            let column = held[k]->Rendered_0@[rows[i].seg as int];
            let value = run[k]@[i];
            &&& value is Some <==> column.cells is Some && rows[i].local < column.cells->0@.len()
                && (named[k].vocabulary is Some || bits(column.presence).contains(rows[i].local))
            &&& value is Some ==> value->0 == column.cells->0@[rows[i].local as int]
        }),
{
    assert(run[k]@[i] == value_at(named[k], held[k], records, rows, i));
}

/// What a rendered field has at a row depends on no segment but the row's own: over two stores whose
/// columns agree in that segment, the row has the same value.
pub proof fn law_a_rendered_value_reads_no_other_segment(
    one: Seq<RenderedColumn>,
    other: Seq<RenderedColumn>,
    category: bool,
    rows: Seq<Taken>,
    values: Seq<Option<Scalar>>,
    others: Seq<Option<Scalar>>,
    i: int,
)
    requires
        values == rows.map_values(|row: Taken| rendered_cell(one, category, row)),
        others == rows.map_values(|row: Taken| rendered_cell(other, category, row)),
        0 <= i < rows.len(),
        one[rows[i].seg as int] == other[rows[i].seg as int],
    ensures
        values[i] == others[i],
{
}

/// The rendered values are those of the rows, in order, each the cell its own segment holds at the
/// row's place.
pub proof fn law_rendered_values_are_the_rows_own(
    segments: Seq<RenderedColumn>,
    category: bool,
    rows: Seq<Taken>,
    values: Seq<Option<Scalar>>,
    i: int,
)
    requires
        values == rows.map_values(|row: Taken| rendered_cell(segments, category, row)),
        0 <= i < rows.len(),
    ensures
        values.len() == rows.len(),
        ({
            let column = segments[rows[i].seg as int];
            &&& values[i] is Some <==> column.cells is Some && rows[i].local
                < column.cells->0@.len() && (category || bits(column.presence).contains(
                rows[i].local,
            ))
            &&& values[i] is Some ==> values[i]->0 == column.cells->0@[rows[i].local as int]
        }),
{
}

/// A field that a value column holds has at each row the column's slot of that row.
pub proof fn law_a_value_columns_slots_are_the_rows(
    named: Seq<Named>,
    held: Seq<FieldSource>,
    records: Seq<RecordRow>,
    rows: Seq<Taken>,
    run: Seq<Vec<Option<Scalar>>>,
    k: int,
    i: int,
)
    requires
        reads(named, held, records, rows, run),
        0 <= k < named.len(),
        0 <= i < rows.len(),
        named[k].home is ValueColumn,
        held[k] is ValueColumn,
    ensures
        run[k]@[i] == held[k]->ValueColumn_0@[i],
{
    assert(run[k]@[i] == value_at(named[k], held[k], records, rows, i));
}

/// A field that the record store holds has at a row what the store says of the row's own entity
/// under the field's own tag, and nothing where it says nothing or a later row is of the same
/// entity. Of several that say something the last does.
pub proof fn law_a_recorded_value_is_its_entitys(
    named: Seq<Named>,
    held: Seq<FieldSource>,
    records: Seq<RecordRow>,
    rows: Seq<Taken>,
    run: Seq<Vec<Option<Scalar>>>,
    k: int,
    i: int,
)
    requires
        reads(named, held, records, rows, run),
        0 <= k < named.len(),
        0 <= i < rows.len(),
        named[k].home is Record,
        held[k] is Record,
    ensures
        ({
            let tag = named[k].home->Record_0;
            let value = run[k]@[i];
            &&& value is Some ==> (forall|j: int|
                i < j < rows.len() ==> (#[trigger] rows[j]).entity != rows[i].entity) && exists|
                n: int,
                f: int,
            |
                0 <= n < records.len() && 0 <= f < records[n].fields@.len() && records[n].entity
                    == rows[i].entity && (#[trigger] records[n].fields@[f]).tag == tag
                    && records[n].fields@[f].value == value->0 && forall|m: int, g: int|
                    0 <= m < records.len() && 0 <= g < records[m].fields@.len() && (m > n || (m == n
                        && g > f)) && records[m].entity == rows[i].entity ==> (
                    #[trigger] records[m].fields@[g]).tag != tag
            &&& value is None ==> (exists|j: int|
                i < j < rows.len() && (#[trigger] rows[j]).entity == rows[i].entity) || forall|
                m: int,
                g: int,
            |
                0 <= m < records.len() && 0 <= g < records[m].fields@.len() && records[m].entity
                    == rows[i].entity ==> (#[trigger] records[m].fields@[g]).tag != tag
        }),
{
    assert(run[k]@[i] == value_at(named[k], held[k], records, rows, i));
    lemma_stored(records, rows[i].entity, named[k].home->Record_0);
}

proof fn lemma_tagged(fields: Seq<RecordField>, tag: u16)
    ensures
        tagged(fields, tag) is None ==> forall|g: int|
            0 <= g < fields.len() ==> (#[trigger] fields[g]).tag != tag,
        tagged(fields, tag) is Some ==> exists|f: int|
            0 <= f < fields.len() && (#[trigger] fields[f]).tag == tag && fields[f].value == tagged(
                fields,
                tag,
            )->0 && forall|g: int| f < g < fields.len() ==> (#[trigger] fields[g]).tag != tag,
    decreases fields.len(),
{
    if fields.len() > 0 {
        let front = fields.drop_last();
        lemma_tagged(front, tag);
        if fields.last().tag == tag {
            assert(fields[fields.len() - 1].tag == tag);
        } else if tagged(front, tag) is Some {
            let f = choose|f: int|
                0 <= f < front.len() && (#[trigger] front[f]).tag == tag && front[f].value
                    == tagged(front, tag)->0 && forall|g: int|
                    f < g < front.len() ==> (#[trigger] front[g]).tag != tag;
            assert(fields[f] == front[f]);
            assert forall|g: int| f < g < fields.len() implies (#[trigger] fields[g]).tag != tag by {
                if g < front.len() {
                    assert(front[g] == fields[g]);
                }
            }
        } else {
            assert forall|g: int| 0 <= g < fields.len() implies (#[trigger] fields[g]).tag != tag by {
                if g < front.len() {
                    assert(front[g] == fields[g]);
                }
            }
        }
    }
}

proof fn lemma_stored(records: Seq<RecordRow>, entity: u32, tag: u16)
    ensures
        stored(records, entity, tag) is None ==> forall|m: int, g: int|
            0 <= m < records.len() && 0 <= g < records[m].fields@.len() && records[m].entity
                == entity ==> (#[trigger] records[m].fields@[g]).tag != tag,
        stored(records, entity, tag) is Some ==> exists|n: int, f: int|
            0 <= n < records.len() && 0 <= f < records[n].fields@.len() && records[n].entity
                == entity && (#[trigger] records[n].fields@[f]).tag == tag
                && records[n].fields@[f].value == stored(records, entity, tag)->0 && forall|
                m: int,
                g: int,
            |
                0 <= m < records.len() && 0 <= g < records[m].fields@.len() && (m > n || (m == n && g
                    > f)) && records[m].entity == entity ==> (
                #[trigger] records[m].fields@[g]).tag != tag,
    decreases records.len(),
{
    if records.len() > 0 {
        let front = records.drop_last();
        let last = records.len() - 1;
        lemma_stored(front, entity, tag);
        lemma_tagged(records.last().fields@, tag);
        if records.last().entity == entity && tagged(records.last().fields@, tag) is Some {
            let fields = records.last().fields@;
            let f = choose|f: int|
                0 <= f < fields.len() && (#[trigger] fields[f]).tag == tag && fields[f].value
                    == tagged(fields, tag)->0 && forall|g: int|
                    f < g < fields.len() ==> (#[trigger] fields[g]).tag != tag;
            assert(records[last].fields@[f].tag == tag);
        } else if stored(front, entity, tag) is Some {
            let (n, f) = choose|n: int, f: int|
                0 <= n < front.len() && 0 <= f < front[n].fields@.len() && front[n].entity == entity
                    && (#[trigger] front[n].fields@[f]).tag == tag && front[n].fields@[f].value
                    == stored(front, entity, tag)->0 && forall|m: int, g: int|
                    0 <= m < front.len() && 0 <= g < front[m].fields@.len() && (m > n || (m == n && g
                        > f)) && front[m].entity == entity ==> (
                    #[trigger] front[m].fields@[g]).tag != tag;
            assert(records[n].fields@[f] == front[n].fields@[f]);
            assert forall|m: int, g: int|
                0 <= m < records.len() && 0 <= g < records[m].fields@.len() && (m > n || (m == n && g
                    > f)) && records[m].entity == entity implies (
            #[trigger] records[m].fields@[g]).tag != tag by {
                if m < front.len() {
                    assert(front[m].fields@[g] == records[m].fields@[g]);
                }
            }
        } else {
            assert forall|m: int, g: int|
                0 <= m < records.len() && 0 <= g < records[m].fields@.len() && records[m].entity
                    == entity implies (#[trigger] records[m].fields@[g]).tag != tag by {
                if m < front.len() {
                    assert(front[m].fields@[g] == records[m].fields@[g]);
                }
            }
        }
    }
}

} // verus!
