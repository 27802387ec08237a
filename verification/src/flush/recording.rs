//! The record extent of a flush: the fields each entity's record row holds.

use vstd::prelude::*;

use crate::flush::failure::FlushFailed;
use crate::flush::plan::{BufferedItem, FlushPlan};
use crate::flush::rows::owned;
use crate::order::lemma_filter_push;
use crate::scalar::{Scalar, ScalarType};
use crate::seqs::{
    first_some, lemma_filter_empty, lemma_filter_positions, lemma_filter_step,
    lemma_first_some_at, lemma_first_some_stays, lemma_first_some_step, lemma_take_all,
};

verus! {

/// A column the record store holds.
#[derive(Clone, Debug, PartialEq, Eq)]
pub struct RecordColumnSpec {
    /// The column's declared position, which tags its field.
    pub index: usize,
    pub name: String,
    pub ty: ScalarType,
}

/// One field of a record row.
#[derive(Clone, Debug, PartialEq, Eq)]
pub struct RecordField {
    pub tag: u16,
    pub value: Scalar,
}

/// Whether a cell is of a type.
pub open spec fn fits(ty: ScalarType, cell: Scalar) -> bool {
    match (ty, cell) {
        (ScalarType::Bool, Scalar::Bool(_)) => true,
        (ScalarType::U8, Scalar::U8(_)) => true,
        (ScalarType::U16, Scalar::U16(_)) => true,
        (ScalarType::U32, Scalar::U32(_)) => true,
        (ScalarType::U64, Scalar::U64(_)) => true,
        (ScalarType::I8, Scalar::I8(_)) => true,
        (ScalarType::I16, Scalar::I16(_)) => true,
        (ScalarType::I32, Scalar::I32(_)) => true,
        (ScalarType::I64, Scalar::I64(_)) => true,
        (ScalarType::F32, Scalar::F32(_)) => true,
        (ScalarType::F64, Scalar::F64(_)) => true,
        (ScalarType::TimestampUs, Scalar::TimestampUs(_)) => true,
        (ScalarType::Utf8, Scalar::Utf8(_)) => true,
        (ScalarType::Keyword, Scalar::Utf8(_)) => true,
        (ScalarType::Text, Scalar::Utf8(_)) => true,
        _ => false,
    }
}

/// [`fits`], computed.
pub fn is_of(ty: ScalarType, cell: &Scalar) -> (yes: bool)
    ensures
        yes == fits(ty, *cell),
{
    match (ty, cell) {
        (ScalarType::Bool, Scalar::Bool(_)) => true,
        (ScalarType::U8, Scalar::U8(_)) => true,
        (ScalarType::U16, Scalar::U16(_)) => true,
        (ScalarType::U32, Scalar::U32(_)) => true,
        (ScalarType::U64, Scalar::U64(_)) => true,
        (ScalarType::I8, Scalar::I8(_)) => true,
        (ScalarType::I16, Scalar::I16(_)) => true,
        (ScalarType::I32, Scalar::I32(_)) => true,
        (ScalarType::I64, Scalar::I64(_)) => true,
        (ScalarType::F32, Scalar::F32(_)) => true,
        (ScalarType::F64, Scalar::F64(_)) => true,
        (ScalarType::TimestampUs, Scalar::TimestampUs(_)) => true,
        (ScalarType::Utf8, Scalar::Utf8(_)) => true,
        (ScalarType::Keyword, Scalar::Utf8(_)) => true,
        (ScalarType::Text, Scalar::Utf8(_)) => true,
        _ => false,
    }
}

impl RecordColumnSpec {
    /// What the column's cell of a row fails with: no cell at its position, a cell of another type,
    /// or a value whose position does not fit the tag.
    pub open spec fn failure(&self, cells: Seq<Scalar>) -> Option<FlushFailed> {
        if self.index >= cells.len() {
            Some(
                FlushFailed::NoCell {
                    held: cells.len() as usize,
                    column: self.name,
                    index: self.index,
                },
            )
        } else if cells[self.index as int] is Null {
            None
        } else if !fits(self.ty, cells[self.index as int]) {
            Some(
                FlushFailed::WrongType {
                    column: self.name,
                    ty: self.ty,
                    cell: cells[self.index as int],
                },
            )
        } else if self.index > u16::MAX {
            Some(FlushFailed::TagTooWide { column: self.name, index: self.index })
        } else {
            None
        }
    }

    /// The column's field of a row that carries a value for it.
    pub open spec fn field(&self, cells: Seq<Scalar>) -> RecordField {
        RecordField { tag: self.index as u16, value: cells[self.index as int] }
    }
}

/// The field a row carries for a column, if it carries one, or what it fails with.
pub fn record_value_of(spec: &RecordColumnSpec, cells: &Vec<Scalar>) -> (out: Result<
    Option<RecordField>,
    FlushFailed,
>)
    ensures
        out is Err <==> spec.failure(cells@) is Some,
        out matches Err(why) ==> spec.failure(cells@) == Some(why),
        out matches Ok(field) ==> field == if cells@[spec.index as int] is Null {
            None
        } else {
            Some(spec.field(cells@))
        },
{
    if spec.index >= cells.len() {
        return Err(
            FlushFailed::NoCell {
                held: cells.len(),
                column: spec.name.clone(),
                index: spec.index,
            },
        );
    }
    let cell = &cells[spec.index];
    if cell.is_null() {
        return Ok(None);
    }
    if !is_of(spec.ty, cell) {
        return Err(
            FlushFailed::WrongType { column: spec.name.clone(), ty: spec.ty, cell: cell.copy() },
        );
    }
    if spec.index > u16::MAX as usize {
        return Err(FlushFailed::TagTooWide { column: spec.name.clone(), index: spec.index });
    }
    Ok(Some(RecordField { tag: spec.index as u16, value: cell.copy() }))
}

/// The fields a row carries, in schema order.
pub open spec fn fields_of(schema: Seq<RecordColumnSpec>, cells: Seq<Scalar>) -> Seq<RecordField> {
    schema.filter(|s: RecordColumnSpec| !(cells[s.index as int] is Null)).map_values(
        |s: RecordColumnSpec| s.field(cells),
    )
}

/// What a row fails with: its entity first, then its columns in schema order.
pub open spec fn record_failure(schema: Seq<RecordColumnSpec>, row: (u64, BufferedItem)) -> Option<
    FlushFailed,
> {
    if row.0 > u32::MAX {
        Some(FlushFailed::EntityTooWide { entity: row.0 })
    } else {
        first_some(schema, |s: RecordColumnSpec| s.failure(row.1.scalars@))
    }
}

/// Runs of rows of one entity, each as one row with all their fields.
pub open spec fn runs(rows: Seq<(u32, Seq<RecordField>)>) -> Seq<(u32, Seq<RecordField>)>
    decreases rows.len(),
{
    if rows.len() == 0 {
        Seq::empty()
    } else {
        let before = runs(rows.drop_last());
        let row = rows.last();
        if before.len() > 0 && before.last().0 == row.0 {
            before.drop_last().push((row.0, before.last().1 + row.1))
        } else {
            before.push(row)
        }
    }
}

/// A plan's rows, in value order, with the fields each carries.
pub open spec fn field_rows(plan: FlushPlan, schema: Seq<RecordColumnSpec>) -> Seq<
    (u32, Seq<RecordField>),
> {
    plan.value_order().map_values(
        |r: (u64, BufferedItem)| (r.0 as u32, fields_of(schema, r.1.scalars@)),
    )
}

/// Record rows, as values.
pub open spec fn record_models(s: Seq<(u32, Vec<RecordField>)>) -> Seq<(u32, Seq<RecordField>)> {
    s.map_values(|r: (u32, Vec<RecordField>)| (r.0, r.1@))
}

/// The fields of one row, appended to `fields`.
fn push_fields(schema: &Vec<RecordColumnSpec>, cells: &Vec<Scalar>, fields: &mut Vec<RecordField>) -> (out:
    Result<(), FlushFailed>)
    ensures
        out is Err <==> first_some(schema@, |s: RecordColumnSpec| s.failure(cells@)) is Some,
        out matches Err(why) ==> first_some(schema@, |s: RecordColumnSpec| s.failure(cells@)) == Some(why),
        out is Ok ==> final(fields)@ == old(fields)@ + fields_of(schema@, cells@),
{
    let ghost f = |s: RecordColumnSpec| s.failure(cells@);
    let ghost p = |s: RecordColumnSpec| !(cells@[s.index as int] is Null);
    let ghost g = |s: RecordColumnSpec| s.field(cells@);
    let ghost before = fields@;
    let mut i: usize = 0;
    proof {
        lemma_filter_empty(schema@, p);
        assert(fields@ =~= before + schema@.take(0).filter(p).map_values(g));
    }
    while i < schema.len()
        invariant
            i <= schema@.len(),
            f == |s: RecordColumnSpec| s.failure(cells@),
            p == |s: RecordColumnSpec| !(cells@[s.index as int] is Null),
            g == |s: RecordColumnSpec| s.field(cells@),
            first_some(schema@.take(i as int), f) is None,
            fields@ == before + schema@.take(i as int).filter(p).map_values(g),
        decreases schema@.len() - i,
    {
        let ghost kept = schema@.take(i as int).filter(p);
        proof {
            lemma_first_some_step(schema@, i as int, f);
            lemma_filter_step(schema@, i as int, p);
        }
        match record_value_of(&schema[i], cells) {
            Ok(None) => {},
            Ok(Some(field)) => {
                fields.push(field);
                assert(kept.push(schema@[i as int]).map_values(g) =~= kept.map_values(g).push(
                    field,
                ));
                assert(fields@ =~= before + kept.push(schema@[i as int]).map_values(g));
            },
            Err(why) => {
                proof {
                    lemma_first_some_stays(schema@, i + 1, f);
                }
                return Err(why);
            },
        }
        i += 1;
    }
    proof {
        lemma_take_all(schema@);
    }
    Ok(())
}

/// The rows of a plan's record extent: the fields of each run of one entity's rows, where there are
/// any.
pub fn record_rows(plan: &FlushPlan, schema: &Vec<RecordColumnSpec>) -> (out: Result<
    Vec<(u32, Vec<RecordField>)>,
    FlushFailed,
>)
    ensures
        out is Err <==> first_some(
            plan.value_order(),
            |r: (u64, BufferedItem)| record_failure(schema@, r),
        ) is Some,
        out matches Err(why) ==> first_some(
            plan.value_order(),
            |r: (u64, BufferedItem)| record_failure(schema@, r),
        ) == Some(why),
        out matches Ok(rows) ==> record_models(rows@) == runs(field_rows(*plan, schema@)).filter(
            |r: (u32, Seq<RecordField>)| r.1.len() > 0,
        ),
{
    let rows = plan.value_rows();
    let ghost order = plan.value_order();
    let ghost all = field_rows(*plan, schema@);
    let ghost f = |r: (u64, BufferedItem)| record_failure(schema@, r);
    let ghost some = |r: (u32, Seq<RecordField>)| r.1.len() > 0;
    let mut out: Vec<(u32, Vec<RecordField>)> = Vec::new();
    let mut open: Option<u32> = None;
    let mut fields: Vec<RecordField> = Vec::new();
    let mut i: usize = 0;
    proof {
        lemma_filter_empty(runs(all.take(0)), some);
        assert(runs(all.take(0)) =~= Seq::empty());
        assert(runs(all.take(0)).take(0) =~= Seq::<(u32, Seq<RecordField>)>::empty());
        assert(record_models(out@) =~= runs(all.take(0)).filter(some));
    }
    while i < rows.len()
        invariant
            i <= rows@.len(),
            order == plan.value_order(),
            owned(rows@) == order,
            all == field_rows(*plan, schema@),
            f == |r: (u64, BufferedItem)| record_failure(schema@, r),
            some == |r: (u32, Seq<RecordField>)| r.1.len() > 0,
            first_some(order.take(i as int), f) is None,
            open is None <==> runs(all.take(i as int)).len() == 0,
            open matches Some(e) ==> runs(all.take(i as int)).last() == (e, fields@),
            open is None ==> fields@.len() == 0 && record_models(out@).len() == 0,
            open is Some ==> record_models(out@) == runs(all.take(i as int)).drop_last().filter(
                some,
            ),
        decreases rows@.len() - i,
    {
        let row: &(u64, BufferedItem) = rows[i];
        let ghost done = runs(all.take(i as int));
        proof {
            assert(order[i as int] == *row);
            lemma_first_some_step(order, i as int, f);
            assert(all.take(i + 1).drop_last() =~= all.take(i as int));
            assert(all[i as int] == (row.0 as u32, fields_of(schema@, row.1.scalars@)));
        }
        if row.0 > u32::MAX as u64 {
            proof {
                lemma_first_some_stays(order, i + 1, f);
            }
            return Err(FlushFailed::EntityTooWide { entity: row.0 });
        }
        let entity: u32 = row.0 as u32;
        let same: bool = match open {
            Some(e) => e == entity,
            None => false,
        };
        if !same {
            if let Some(e) = open {
                proof {
                    lemma_filter_push(done.drop_last(), done.last(), some);
                    assert(done.drop_last().push(done.last()) =~= done);
                }
                if fields.len() > 0 {
                    let ghost out0 = out@;
                    let ghost closed = fields@;
                    out.push((e, fields));
                    assert(record_models(out@) =~= record_models(out0).push((e, closed)));
                }
            } else {
                proof {
                    reveal(Seq::filter);
                    assert(done =~= Seq::empty());
                    assert(record_models(out@) =~= done.filter(some));
                }
            }
            fields = Vec::new();
            open = Some(entity);
            assert(record_models(out@) == done.filter(some));
        }
        let ghost held = fields@;
        match push_fields(schema, &row.1.scalars, &mut fields) {
            Ok(_) => {},
            Err(why) => {
                proof {
                    lemma_first_some_stays(order, i + 1, f);
                }
                return Err(why);
            },
        }
        proof {
            let now = runs(all.take(i + 1));
            assert(all.take(i + 1).last() == all[i as int]);
            if same {
                assert(now.drop_last() =~= done.drop_last());
                assert(now.last().1 =~= fields@);
            } else {
                assert(held =~= Seq::empty());
                assert(fields@ =~= fields_of(schema@, row.1.scalars@));
                assert(now.drop_last() =~= done);
            }
        }
        i += 1;
    }
    proof {
        assert(order.take(i as int) =~= order);
        assert(all.take(i as int) =~= all);
        if open is Some {
            let done = runs(all);
            lemma_filter_push(done.drop_last(), done.last(), some);
            assert(done.drop_last().push(done.last()) =~= done);
        } else {
            reveal(Seq::filter);
            assert(runs(all) =~= Seq::empty());
            assert(record_models(out@) =~= runs(all).filter(some));
        }
    }
    if let Some(e) = open {
        if fields.len() > 0 {
            let ghost out0 = out@;
            let ghost closed = fields@;
            out.push((e, fields));
            assert(record_models(out@) =~= record_models(out0).push((e, closed)));
        }
    }
    Ok(out)
}

/// The record row of an entity holds a field exactly where one of the entity's rows carries a value
/// at the field's own declared position: what runs together of one entity holds the fields of its
/// rows, one row's after another's.
pub proof fn law_a_record_holds_what_its_entitys_rows_carry(
    rows: Seq<(u32, Seq<RecordField>)>,
    entity: u32,
    field: RecordField,
)
    requires
        forall|i: int, j: int| 0 <= i < j < rows.len() ==> (#[trigger] rows[i]).0 <= (
        #[trigger] rows[j]).0,
    ensures
        (exists|k: int|
            0 <= k < runs(rows).len() && (#[trigger] runs(rows)[k]).0 == entity && runs(
                rows,
            )[k].1.contains(field)) <==> (exists|i: int|
            0 <= i < rows.len() && (#[trigger] rows[i]).0 == entity && rows[i].1.contains(field)),
        forall|k: int, l: int|
            0 <= k < l < runs(rows).len() ==> (#[trigger] runs(rows)[k]).0 < (
            #[trigger] runs(rows)[l]).0,
        rows.len() > 0 ==> runs(rows).len() > 0 && runs(rows).last().0 == rows.last().0,
    decreases rows.len(),
{
    if rows.len() > 0 {
        let front = rows.drop_last();
        let row = rows.last();
        let last = rows.len() - 1;
        assert forall|i: int, j: int| 0 <= i < j < front.len() implies (#[trigger] front[i]).0 <= (
        #[trigger] front[j]).0 by {
            assert(rows[i].0 <= rows[j].0);
        }
        law_a_record_holds_what_its_entitys_rows_carry(front, entity, field);
        let before = runs(front);
        let now = runs(rows);
        if front.len() > 0 {
            assert(rows[last - 1].0 <= rows[last].0);
            assert(front.last() == rows[last - 1]);
        }
        if exists|i: int|
            0 <= i < rows.len() && (#[trigger] rows[i]).0 == entity && rows[i].1.contains(field) {
            let i = choose|i: int|
                0 <= i < rows.len() && (#[trigger] rows[i]).0 == entity && rows[i].1.contains(field);
            if i < last {
                assert(front[i] == rows[i]);
                let k = choose|k: int|
                    0 <= k < before.len() && (#[trigger] before[k]).0 == entity
                        && before[k].1.contains(field);
                if now.len() == before.len() && k == before.len() - 1 {
                    let f = choose|f: int| 0 <= f < before[k].1.len() && before[k].1[f] == field;
                    assert(now[k].1[f] == field);
                } else {
                    assert(now[k] == before[k]);
                }
                assert(now[k].0 == entity && now[k].1.contains(field));
            } else {
                let f = choose|f: int| 0 <= f < row.1.len() && row.1[f] == field;
                let k = now.len() - 1;
                if now.len() == before.len() {
                    assert(now[k].1[before.last().1.len() + f] == field);
                } else {
                    assert(now[k].1[f] == field);
                }
                assert(now[k].0 == entity && now[k].1.contains(field));
            }
        }
        if exists|k: int|
            0 <= k < now.len() && (#[trigger] now[k]).0 == entity && now[k].1.contains(field) {
            let k = choose|k: int|
                0 <= k < now.len() && (#[trigger] now[k]).0 == entity && now[k].1.contains(field);
            let f = choose|f: int| 0 <= f < now[k].1.len() && now[k].1[f] == field;
            if k < now.len() - 1 {
                assert(before[k] == now[k]);
                let i = choose|i: int|
                    0 <= i < front.len() && (#[trigger] front[i]).0 == entity
                        && front[i].1.contains(field);
                assert(rows[i] == front[i]);
            } else if now.len() == before.len() && f < before.last().1.len() {
                assert(before[k].1[f] == field);
                assert(before[k].0 == entity && before[k].1.contains(field));
                let i = choose|i: int|
                    0 <= i < front.len() && (#[trigger] front[i]).0 == entity
                        && front[i].1.contains(field);
                assert(rows[i] == front[i]);
            } else {
                if now.len() == before.len() {
                    assert(row.1[f - before.last().1.len()] == field);
                } else {
                    assert(row.1[f] == field);
                }
                assert(rows[last].0 == entity && rows[last].1.contains(field));
            }
        }
        assert forall|k: int, l: int| 0 <= k < l < now.len() implies (#[trigger] now[k]).0 < (
        #[trigger] now[l]).0 by {
            if l < before.len() {
                assert(before[k].0 < before[l].0);
            } else if k < before.len() - 1 {
                assert(before[k].0 < before[before.len() - 1].0);
            }
        }
    }
}

/// A row's fields are its cells at the recorded positions that hold a value, each under its own
/// position.
pub proof fn law_a_rows_fields_are_its_recorded_cells(
    schema: Seq<RecordColumnSpec>,
    cells: Seq<Scalar>,
    field: RecordField,
)
    requires
        forall|s: int| 0 <= s < schema.len() ==> (#[trigger] schema[s]).index <= u16::MAX,
    ensures
        fields_of(schema, cells).contains(field) <==> exists|s: int|
            0 <= s < schema.len() && (#[trigger] schema[s]).index == field.tag && cells[
            schema[s].index as int] == field.value && !(field.value is Null),
{
    let p = |s: RecordColumnSpec| !(cells[s.index as int] is Null);
    let at = lemma_filter_positions(schema, p);
    let fields = fields_of(schema, cells);
    if fields.contains(field) {
        let k = choose|k: int| 0 <= k < fields.len() && fields[k] == field;
        assert(fields[k] == schema[at[k]].field(cells));
        assert(schema[at[k]].index == field.tag);
        assert(p(schema[at[k]]));
    }
    if exists|s: int|
        0 <= s < schema.len() && (#[trigger] schema[s]).index == field.tag && cells[
        schema[s].index as int] == field.value && !(field.value is Null) {
        let s = choose|s: int|
            0 <= s < schema.len() && (#[trigger] schema[s]).index == field.tag && cells[
            schema[s].index as int] == field.value && !(field.value is Null);
        assert(p(schema[s]));
        let k = choose|k: int| 0 <= k < at.len() && at[k] == s;
        assert(fields[k] == schema[s].field(cells));
        assert(fields[k].tag == field.tag && fields[k].value == field.value);
    }
}

/// The rows that records are made of are those a declared value is read from, each with its own
/// entity and cells.
pub proof fn law_a_record_row_is_of_its_rows_entity(
    plan: FlushPlan,
    schema: Seq<RecordColumnSpec>,
    i: int,
)
    requires
        0 <= i < plan.value_order().len(),
    ensures
        field_rows(plan, schema).len() == plan.value_order().len(),
        field_rows(plan, schema)[i].0 == plan.value_order()[i].0 as u32,
        field_rows(plan, schema)[i].1 == fields_of(schema, plan.value_order()[i].1.scalars@),
{
}

/// A row makes a record exactly where its entity is one a column numbers and it has a cell for
/// every recorded column: null, or of the column's own type at a position that fits the tag.
pub proof fn law_a_row_is_recorded_where_its_cells_fit(
    schema: Seq<RecordColumnSpec>,
    row: (u64, BufferedItem),
)
    ensures
        record_failure(schema, row) is None <==> row.0 <= u32::MAX && forall|s: int|
            0 <= s < schema.len() ==> (#[trigger] schema[s]).index < row.1.scalars@.len() && (
            row.1.scalars@[schema[s].index as int] is Null || schema[s].index <= u16::MAX && fits(
                schema[s].ty,
                row.1.scalars@[schema[s].index as int],
            )),
        row.0 > u32::MAX ==> record_failure(schema, row) == Some(
            FlushFailed::EntityTooWide { entity: row.0 },
        ),
{
    let f = |s: RecordColumnSpec| s.failure(row.1.scalars@);
    let at = lemma_first_some_at(schema, f);
    if first_some(schema, f) is Some {
        assert(f(schema[at]) is Some);
        assert(schema[at].failure(row.1.scalars@) is Some);
    } else {
        assert forall|s: int| 0 <= s < schema.len() implies (#[trigger] schema[s]).index
            < row.1.scalars@.len() && (row.1.scalars@[schema[s].index as int] is Null || schema[s].index
            <= u16::MAX && fits(
            schema[s].ty,
            row.1.scalars@[schema[s].index as int],
        )) by {
            assert(f(schema[s]) is None);
        }
    }
}

} // verus!
