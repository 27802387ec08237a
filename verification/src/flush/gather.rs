//! The cells a column of a flush is gathered from.

use vstd::prelude::*;

use crate::flush::extents::FilterColumnSpec;
use crate::flush::failure::FlushFailed;
use crate::flush::plan::{BufferedItem, FlushPlan};
use crate::flush::rows::owned;
use crate::scalar::Scalar;
use crate::seqs::{
    first_some, lemma_first_some_at, lemma_first_some_stays, lemma_first_some_step,
};

verus! {

/// What a row fails with, where a column takes its cell at a declared position.
pub open spec fn cell_failure(row: (u64, BufferedItem), column: String, index: usize) -> Option<
    FlushFailed,
> {
    if row.0 > u32::MAX {
        Some(FlushFailed::EntityTooWide { entity: row.0 })
    } else if index >= row.1.scalars@.len() {
        Some(FlushFailed::NoCell { held: row.1.scalars@.len() as usize, column, index })
    } else {
        None
    }
}

/// What a row fails with, where only its entity can.
pub open spec fn entity_failure(row: (u64, BufferedItem)) -> Option<FlushFailed> {
    if row.0 > u32::MAX {
        Some(FlushFailed::EntityTooWide { entity: row.0 })
    } else {
        None
    }
}

/// A cell of a row, or null where the row has none at that position.
pub open spec fn cell_at(cells: Seq<Scalar>, index: usize) -> Scalar {
    if index < cells.len() {
        cells[index as int]
    } else {
        Scalar::Null
    }
}

impl FlushPlan {
    /// The cells of a declared column, in value order.
    pub open spec fn declared_cells(&self, index: usize) -> Seq<(u32, &Scalar)> {
        self.value_order().map_values(
            |r: (u64, BufferedItem)| (r.0 as u32, &r.1.scalars@[index as int]),
        )
    }

    /// The cells of a text column, in value order: a row without one carries no prose.
    pub open spec fn prose_cells(&self, index: usize) -> Seq<(u32, &Scalar)> {
        self.value_order().map_values(
            |r: (u64, BufferedItem)| (r.0 as u32, &cell_at(r.1.scalars@, index)),
        )
    }

    /// The cells of a group-scoped column, in scoped order: a row without one carries no value.
    pub open spec fn scoped_cells(&self, index: usize) -> Seq<(u32, &Scalar)> {
        self.scoped_order().map_values(
            |r: (u64, BufferedItem)| (r.0 as u32, &cell_at(r.1.scoped@, index)),
        )
    }
}

/// A cell of a row, or null where the row has none at that position.
pub fn get_cell<'a>(cells: &'a Vec<Scalar>, index: usize) -> (cell: &'a Scalar)
    ensures
        *cell == cell_at(cells@, index),
{
    if index < cells.len() {
        &cells[index]
    } else {
        &Scalar::Null
    }
}

/// The cells of a declared column, in value order: every row must carry one.
pub fn entity_scoped_rows<'a>(spec: &FilterColumnSpec, plan: &'a FlushPlan) -> (out: Result<
    Vec<(u32, &'a Scalar)>,
    FlushFailed,
>)
    ensures
        out matches Ok(cells) ==> cells@ == plan.declared_cells(spec.index),
        out is Err <==> first_some(plan.value_order(), |r: (u64, BufferedItem)| cell_failure(r, spec.name, spec.index)) is Some,
        out matches Err(why) ==> first_some(plan.value_order(), |r: (u64, BufferedItem)| cell_failure(r, spec.name, spec.index)) == Some(why),
{
    let rows = plan.value_rows();
    let ghost order = plan.value_order();
    let ghost f = |r: (u64, BufferedItem)| cell_failure(r, spec.name, spec.index);
    let mut out: Vec<(u32, &'a Scalar)> = Vec::new();
    let mut i: usize = 0;
    while i < rows.len()
        invariant
            i <= rows@.len(),
            order == plan.value_order(),
            owned(rows@) == order,
            f == |r: (u64, BufferedItem)| cell_failure(r, spec.name, spec.index),
            first_some(order.take(i as int), f) is None,
            out@.len() == i,
            forall|k: int|
                0 <= k < i ==> (#[trigger] out@[k]).0 == order[k].0 && *out@[k].1
                    == order[k].1.scalars@[spec.index as int],
            forall|k: int| 0 <= k < i ==> spec.index < (#[trigger] order[k]).1.scalars@.len(),
        decreases rows@.len() - i,
    {
        let row: &'a (u64, BufferedItem) = rows[i];
        assert(order[i as int] == *row);
        proof {
            lemma_first_some_step(order, i as int, f);
        }
        if row.0 > u32::MAX as u64 {
            let why = FlushFailed::EntityTooWide { entity: row.0 };
            proof {
                lemma_first_some_stays(order, i + 1, f);
            }
            return Err(why);
        }
        if spec.index >= row.1.scalars.len() {
            let why = FlushFailed::NoCell {
                held: row.1.scalars.len(),
                column: spec.name.clone(),
                index: spec.index,
            };
            proof {
                lemma_first_some_stays(order, i + 1, f);
            }
            return Err(why);
        }
        out.push((row.0 as u32, &row.1.scalars[spec.index]));
        i += 1;
    }
    assert(order.take(i as int) =~= order);
    assert(out@ =~= plan.declared_cells(spec.index));
    Ok(out)
}

/// The cells of a column at `index` that a row may lack, from borrowed rows.
fn lenient_rows<'a>(rows: &Vec<&'a (u64, BufferedItem)>, index: usize, scoped: bool) -> (out:
    Result<Vec<(u32, &'a Scalar)>, FlushFailed>)
    ensures
        out matches Ok(cells) ==> cells@.len() == rows@.len() && forall|i: int|
            0 <= i < cells@.len() ==> (#[trigger] cells@[i]).0 == owned(rows@)[i].0 && *cells@[i].1
                == cell_at(
                if scoped {
                    owned(rows@)[i].1.scoped@
                } else {
                    owned(rows@)[i].1.scalars@
                },
                index,
            ),
        out is Err <==> first_some(owned(rows@), |r: (u64, BufferedItem)| entity_failure(r)) is Some,
        out matches Err(why) ==> first_some(owned(rows@), |r: (u64, BufferedItem)| entity_failure(r)) == Some(why),
{
    let ghost order = owned(rows@);
    let ghost f = |r: (u64, BufferedItem)| entity_failure(r);
    let mut out: Vec<(u32, &'a Scalar)> = Vec::new();
    let mut i: usize = 0;
    while i < rows.len()
        invariant
            i <= rows@.len(),
            order == owned(rows@),
            f == |r: (u64, BufferedItem)| entity_failure(r),
            first_some(order.take(i as int), f) is None,
            out@.len() == i,
            forall|k: int|
                0 <= k < i ==> (#[trigger] out@[k]).0 == order[k].0 && *out@[k].1 == cell_at(
                    if scoped {
                        order[k].1.scoped@
                    } else {
                        order[k].1.scalars@
                    },
                    index,
                ),
        decreases rows@.len() - i,
    {
        let row: &'a (u64, BufferedItem) = rows[i];
        assert(order[i as int] == *row);
        proof {
            lemma_first_some_step(order, i as int, f);
        }
        if row.0 > u32::MAX as u64 {
            let why = FlushFailed::EntityTooWide { entity: row.0 };
            proof {
                lemma_first_some_stays(order, i + 1, f);
            }
            return Err(why);
        }
        if scoped {
            out.push((row.0 as u32, get_cell(&row.1.scoped, index)));
        } else {
            out.push((row.0 as u32, get_cell(&row.1.scalars, index)));
        }
        i += 1;
    }
    assert(order.take(i as int) =~= order);
    Ok(out)
}

/// The cells of a group-scoped column, in scoped order: a row without one carries no value.
pub fn scoped_rows<'a>(index: usize, plan: &'a FlushPlan) -> (out: Result<
    Vec<(u32, &'a Scalar)>,
    FlushFailed,
>)
    ensures
        out matches Ok(cells) ==> cells@ == plan.scoped_cells(index),
        out is Err <==> first_some(plan.scoped_order(), |r: (u64, BufferedItem)| entity_failure(r)) is Some,
        out matches Err(why) ==> first_some(plan.scoped_order(), |r: (u64, BufferedItem)| entity_failure(r)) == Some(why),
{
    let rows = plan.scoped_value_rows();
    assert(owned(rows@).len() == rows@.len());
    let out = lenient_rows(&rows, index, true);
    assert(out matches Ok(cells) ==> cells@ =~= plan.scoped_cells(index));
    out
}

/// The cells of a text column, in value order: a row without one carries no prose.
pub fn text_rows<'a>(index: usize, plan: &'a FlushPlan) -> (out: Result<
    Vec<(u32, &'a Scalar)>,
    FlushFailed,
>)
    ensures
        out matches Ok(cells) ==> cells@ == plan.prose_cells(index),
        out is Err <==> first_some(plan.value_order(), |r: (u64, BufferedItem)| entity_failure(r)) is Some,
        out matches Err(why) ==> first_some(plan.value_order(), |r: (u64, BufferedItem)| entity_failure(r)) == Some(why),
{
    let rows = plan.value_rows();
    assert(owned(rows@).len() == rows@.len());
    let out = lenient_rows(&rows, index, false);
    assert(out matches Ok(cells) ==> cells@ =~= plan.prose_cells(index));
    out
}

/// A column's cells are one for each row of its order, under the row's entity. A declared column
/// and a text column take the row's own declared cell at the column's position, a group-scoped
/// column its own scoped cell; past a row's cells a text or scoped column takes null.
pub proof fn law_a_columns_cells_are_its_rows_own(plan: FlushPlan, index: usize, i: int)
    ensures
        plan.declared_cells(index).len() == plan.value_order().len(),
        plan.prose_cells(index).len() == plan.value_order().len(),
        plan.scoped_cells(index).len() == plan.scoped_order().len(),
        0 <= i < plan.value_order().len() ==> {
            let (entity, row) = plan.value_order()[i];
            let (of, cell) = plan.declared_cells(index)[i];
            let (prose_of, prose) = plan.prose_cells(index)[i];
            &&& entity <= u32::MAX ==> of == entity && prose_of == entity
            &&& index < row.scalars@.len() ==> *cell == row.scalars@[index as int] && *prose
                == row.scalars@[index as int]
            &&& index >= row.scalars@.len() ==> *prose == Scalar::Null
        },
        0 <= i < plan.scoped_order().len() ==> {
            let (entity, row) = plan.scoped_order()[i];
            let (of, cell) = plan.scoped_cells(index)[i];
            &&& entity <= u32::MAX ==> of == entity
            &&& index < row.scoped@.len() ==> *cell == row.scoped@[index as int]
            &&& index >= row.scoped@.len() ==> *cell == Scalar::Null
        },
{
}

/// A declared column is refused on the first row whose entity is past what a column numbers, or
/// that has no cell at the column's position: the refusal names that entity, or the column and how
/// many cells the row holds. It is gathered where there is no such row.
pub proof fn law_a_declared_column_is_refused_on_its_first_misfit(
    plan: FlushPlan,
    name: String,
    index: usize,
) -> (at: int)
    ensures
        ({
            let rows = plan.value_order();
            let why = first_some(rows, |r: (u64, BufferedItem)| cell_failure(r, name, index));
            &&& 0 <= at <= rows.len()
            &&& forall|i: int|
                0 <= i < at ==> (#[trigger] rows[i]).0 <= u32::MAX && index < rows[i].1.scalars@.len()
            &&& at == rows.len() ==> why is None
            &&& at < rows.len() ==> {
                let (entity, row) = rows[at];
                &&& entity > u32::MAX ==> why == Some(FlushFailed::EntityTooWide { entity })
                &&& entity <= u32::MAX ==> index >= row.scalars@.len() && why == Some(
                    FlushFailed::NoCell { held: row.scalars@.len() as usize, column: name, index },
                )
            }
        }),
{
    let rows = plan.value_order();
    let f = |r: (u64, BufferedItem)| cell_failure(r, name, index);
    let first = lemma_first_some_at(rows, f);
    let at: int = if first_some(rows, f) is Some {
        first
    } else {
        rows.len() as int
    };
    assert forall|i: int| 0 <= i < at implies (#[trigger] rows[i]).0 <= u32::MAX && index
        < rows[i].1.scalars@.len() by {
        assert(f(rows[i]) is None);
    }
    at
}

} // verus!
