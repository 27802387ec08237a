//! What one flush writes, computed from its plan.

use std::collections::HashMap;

use vstd::prelude::*;

use crate::flush::extents::{extent_values, ExtentColumn, FilterColumnSpec};
use crate::flush::failure::FlushFailed;
use crate::flush::gather::{
    cell_at, cell_failure, entity_failure, entity_scoped_rows, get_cell, text_rows,
};
use crate::flush::paths::{column_dir, extent_file, segment_file, FlushTarget};
use crate::flush::plan::{owners, BufferedItem, FlushPlan};
use crate::flush::promotion::{promote, promotes, space_of, Dict, Promotion};
use crate::flush::recording::{
    field_rows, law_a_row_is_recorded_where_its_cells_fit, record_failure, record_models,
    record_rows, runs, RecordColumnSpec, RecordField,
};
use crate::flush::scoped::{write_scoped_extents, ScopedColumn, ScopedColumnSpec};
use crate::flush::texts::{text_describes, text_failure, text_layer, TextLayer};
use crate::scalar::Scalar;
use crate::seqs::{
    first_some, lemma_first_some_at, lemma_first_some_stays, lemma_first_some_step,
};

verus! {

/// A text column a flush writes a layer of.
#[derive(Clone, Debug, PartialEq, Eq)]
pub struct TextColumnSpec {
    pub index: usize,
    pub name: String,
}

/// What a flush is executed under.
pub struct FlushContext {
    pub target: FlushTarget,
    /// The declared positions the segment's row tail renders.
    pub render_indices: Vec<usize>,
    /// The scoped positions the row tail renders after them, `None` for a family the view lacks.
    pub scoped_render: Vec<Option<usize>>,
    pub filter_schema: Vec<FilterColumnSpec>,
    pub record_schema: Vec<RecordColumnSpec>,
    pub scoped_schema: Vec<ScopedColumnSpec>,
    pub text_schema: Vec<TextColumnSpec>,
    pub dict: Dict,
    pub novel_descriptors: HashMap<u32, Vec<u8>>,
    pub max_distinct_terms: u64,
}

/// The analysed tokens of a flush's prose: for each text column, and for each group-scoped column
/// that holds prose, the tokens of each row's prose in the order its cells are gathered in.
pub struct FlushTokens {
    pub declared: Vec<Vec<Vec<String>>>,
    pub scoped: Vec<Vec<Vec<String>>>,
}

/// One row of the segment.
#[derive(Debug, PartialEq, Eq)]
pub struct FlushRow {
    pub entity: u64,
    pub external_id: Option<Vec<u8>>,
    pub x: u64,
    pub y: u64,
    pub scalars: Vec<Scalar>,
}

/// The cells of the row tail: the declared positions, then the scoped ones.
pub open spec fn row_tail(
    item: BufferedItem,
    render: Seq<usize>,
    scoped_render: Seq<Option<usize>>,
) -> Seq<Scalar> {
    render.map_values(|at: usize| item.scalars@[at as int]) + scoped_render.map_values(
        |at: Option<usize>|
            match at {
                Some(at) => cell_at(item.scoped@, at),
                None => Scalar::Null,
            },
    )
}

/// Whether a segment row is a buffered row narrowed to the row tail.
pub open spec fn narrows(
    row: FlushRow,
    from: (u64, BufferedItem),
    render: Seq<usize>,
    scoped_render: Seq<Option<usize>>,
) -> bool {
    &&& row.entity == from.0
    &&& row.x == from.1.x
    &&& row.y == from.1.y
    &&& match (row.external_id, from.1.external_id) {
        (None, None) => true,
        (Some(a), Some(b)) => a@ == b@,
        _ => false,
    }
    &&& row.scalars@ == row_tail(from.1, render, scoped_render)
}

/// Whether segment rows are the buffered rows narrowed to the row tail, in order.
pub open spec fn narrowed(
    rows: Seq<FlushRow>,
    items: Seq<(u64, BufferedItem)>,
    render: Seq<usize>,
    scoped_render: Seq<Option<usize>>,
) -> bool {
    &&& rows.len() == items.len()
    &&& forall|i: int|
        0 <= i < rows.len() ==> narrows(#[trigger] rows[i], items[i], render, scoped_render)
}

/// What a render position fails with on a row.
pub open spec fn render_failure(cells: Seq<Scalar>, at: usize) -> Option<FlushFailed> {
    if at < cells.len() {
        None
    } else {
        Some(FlushFailed::NoRenderCell { held: cells.len() as usize, index: at })
    }
}

/// What a row fails with: the first render position it lacks.
pub open spec fn row_failure(row: (u64, BufferedItem), render: Seq<usize>) -> Option<FlushFailed> {
    first_some(render, |at: usize| render_failure(row.1.scalars@, at))
}

fn narrow(item: &BufferedItem, render: &Vec<usize>, scoped_render: &Vec<Option<usize>>) -> (out:
    Result<Vec<Scalar>, FlushFailed>)
    ensures
        out is Err <==> first_some(render@, |at: usize| render_failure(item.scalars@, at)) is Some,
        out matches Err(why) ==> first_some(
            render@,
            |at: usize| render_failure(item.scalars@, at),
        ) == Some(why),
        out matches Ok(cells) ==> cells@ == row_tail(*item, render@, scoped_render@),
{
    let ghost f = |at: usize| render_failure(item.scalars@, at);
    let ghost g = |at: usize| item.scalars@[at as int];
    let ghost h = |at: Option<usize>|
        match at {
            Some(at) => cell_at(item.scoped@, at),
            None => Scalar::Null,
        };
    let mut cells: Vec<Scalar> = Vec::new();
    let mut i: usize = 0;
    assert(cells@ =~= render@.take(0).map_values(g));
    while i < render.len()
        invariant
            i <= render@.len(),
            f == |at: usize| render_failure(item.scalars@, at),
            g == |at: usize| item.scalars@[at as int],
            first_some(render@.take(i as int), f) is None,
            cells@ == render@.take(i as int).map_values(g),
        decreases render@.len() - i,
    {
        let at: usize = render[i];
        proof {
            lemma_first_some_step(render@, i as int, f);
        }
        if at >= item.scalars.len() {
            proof {
                lemma_first_some_stays(render@, i + 1, f);
            }
            return Err(FlushFailed::NoRenderCell { held: item.scalars.len(), index: at });
        }
        cells.push(item.scalars[at].copy());
        i += 1;
        assert(cells@ =~= render@.take(i as int).map_values(g));
    }
    assert(render@.take(i as int) =~= render@);
    let ghost front = cells@;
    let mut j: usize = 0;
    assert(cells@ =~= front + scoped_render@.take(0).map_values(h));
    while j < scoped_render.len()
        invariant
            j <= scoped_render@.len(),
            h == |at: Option<usize>|
                match at {
                    Some(at) => cell_at(item.scoped@, at),
                    None => Scalar::Null,
                },
            cells@ == front + scoped_render@.take(j as int).map_values(h),
        decreases scoped_render@.len() - j,
    {
        match scoped_render[j] {
            Some(at) => {
                cells.push(get_cell(&item.scoped, at).copy());
            },
            None => {
                cells.push(Scalar::Null);
            },
        }
        j += 1;
        assert(cells@ =~= front + scoped_render@.take(j as int).map_values(h));
    }
    assert(scoped_render@.take(j as int) =~= scoped_render@);
    Ok(cells)
}

/// The segment's rows: each planned row narrowed to the row tail.
pub fn flush_rows(plan: &FlushPlan, render: &Vec<usize>, scoped_render: &Vec<Option<usize>>) -> (out:
    Result<Vec<FlushRow>, FlushFailed>)
    ensures
        out is Err <==> first_some(
            plan.items@,
            |r: (u64, BufferedItem)| row_failure(r, render@),
        ) is Some,
        out matches Err(why) ==> first_some(
            plan.items@,
            |r: (u64, BufferedItem)| row_failure(r, render@),
        ) == Some(why),
        out matches Ok(rows) ==> narrowed(rows@, plan.items@, render@, scoped_render@),
{
    let ghost f = |r: (u64, BufferedItem)| row_failure(r, render@);
    let mut rows: Vec<FlushRow> = Vec::new();
    let mut i: usize = 0;
    while i < plan.items.len()
        invariant
            i <= plan.items@.len(),
            f == |r: (u64, BufferedItem)| row_failure(r, render@),
            first_some(plan.items@.take(i as int), f) is None,
            rows@.len() == i,
            forall|k: int|
                0 <= k < i ==> narrows(
                    #[trigger] rows@[k],
                    plan.items@[k],
                    render@,
                    scoped_render@,
                ),
        decreases plan.items@.len() - i,
    {
        proof {
            lemma_first_some_step(plan.items@, i as int, f);
        }
        let from: &(u64, BufferedItem) = &plan.items[i];
        let scalars = match narrow(&from.1, render, scoped_render) {
            Ok(scalars) => scalars,
            Err(why) => {
                proof {
                    lemma_first_some_stays(plan.items@, i + 1, f);
                }
                return Err(why);
            },
        };
        let external_id = match &from.1.external_id {
            Some(id) => Some(id.clone()),
            None => None,
        };
        rows.push(FlushRow { entity: from.0, external_id, x: from.1.x, y: from.1.y, scalars });
        i += 1;
    }
    assert(plan.items@.take(i as int) =~= plan.items@);
    Ok(rows)
}

/// What a filterable column fails with: a row without its cell first, then a cell of another type.
pub open spec fn column_failure(plan: FlushPlan, spec: FilterColumnSpec) -> Option<FlushFailed> {
    let cells = first_some(
        plan.value_order(),
        |r: (u64, BufferedItem)| cell_failure(r, spec.name, spec.index),
    );
    if cells is Some {
        cells
    } else {
        spec.rows_failure(plan.declared_cells(spec.index))
    }
}

/// The filterable columns of a plan, in schema order.
pub fn write_filter_extents(plan: &FlushPlan, schema: &Vec<FilterColumnSpec>) -> (out: Result<
    Vec<ExtentColumn>,
    FlushFailed,
>)
    requires
        forall|i: int| 0 <= i < schema@.len() ==> (#[trigger] schema@[i]).storable(),
        plan.value_order().len() <= 0x1_0000_0000,
    ensures
        out is Err <==> first_some(
            schema@,
            |s: FilterColumnSpec| column_failure(*plan, s),
        ) is Some,
        out matches Err(why) ==> first_some(
            schema@,
            |s: FilterColumnSpec| column_failure(*plan, s),
        ) == Some(why),
        out matches Ok(columns) ==> columns@.len() == schema@.len() && forall|i: int|
            0 <= i < columns@.len() ==> schema@[i].gathers(
                plan.declared_cells(schema@[i].index),
                #[trigger] columns@[i],
            ),
{
    let ghost f = |s: FilterColumnSpec| column_failure(*plan, s);
    let mut columns: Vec<ExtentColumn> = Vec::new();
    let mut i: usize = 0;
    while i < schema.len()
        invariant
            i <= schema@.len(),
            forall|k: int| 0 <= k < schema@.len() ==> (#[trigger] schema@[k]).storable(),
            plan.value_order().len() <= 0x1_0000_0000,
            f == |s: FilterColumnSpec| column_failure(*plan, s),
            first_some(schema@.take(i as int), f) is None,
            columns@.len() == i,
            forall|k: int|
                0 <= k < i ==> schema@[k].gathers(
                    plan.declared_cells(schema@[k].index),
                    #[trigger] columns@[k],
                ),
        decreases schema@.len() - i,
    {
        proof {
            lemma_first_some_step(schema@, i as int, f);
        }
        let rows = match entity_scoped_rows(&schema[i], plan) {
            Ok(rows) => rows,
            Err(why) => {
                proof {
                    lemma_first_some_stays(schema@, i + 1, f);
                }
                return Err(why);
            },
        };
        assert(rows@.len() == plan.value_order().len());
        match extent_values(&schema[i], &rows) {
            Ok(column) => {
                columns.push(column);
            },
            Err(why) => {
                proof {
                    lemma_first_some_stays(schema@, i + 1, f);
                }
                return Err(why);
            },
        }
        i += 1;
    }
    assert(schema@.take(i as int) =~= schema@);
    Ok(columns)
}

/// What a text column fails with: a row's entity first, then a cell that is not text.
pub open spec fn text_column_failure(plan: FlushPlan, spec: TextColumnSpec) -> Option<FlushFailed> {
    let entities = first_some(plan.value_order(), |r: (u64, BufferedItem)| entity_failure(r));
    if entities is Some {
        entities
    } else {
        first_some(
            plan.prose_cells(spec.index),
            |r: (u32, &Scalar)| text_failure(*r.1, spec.name),
        )
    }
}

/// The text layers of a plan, in schema order.
pub fn write_text_extents(
    plan: &FlushPlan,
    schema: &Vec<TextColumnSpec>,
    tokens: &Vec<Vec<Vec<String>>>,
) -> (out: Result<Vec<Option<TextLayer>>, FlushFailed>)
    requires
        tokens@.len() == schema@.len(),
        forall|i: int|
            0 <= i < tokens@.len() ==> (#[trigger] tokens@[i])@.len() == plan.value_order().len(),
    ensures
        out is Err <==> first_some(
            schema@,
            |s: TextColumnSpec| text_column_failure(*plan, s),
        ) is Some,
        out matches Err(why) ==> first_some(
            schema@,
            |s: TextColumnSpec| text_column_failure(*plan, s),
        ) == Some(why),
        out matches Ok(layers) ==> layers@.len() == schema@.len() && forall|i: int|
            0 <= i < layers@.len() ==> text_describes(
                plan.prose_cells(schema@[i].index),
                tokens@[i]@,
                #[trigger] layers@[i],
            ),
{
    let ghost f = |s: TextColumnSpec| text_column_failure(*plan, s);
    let mut layers: Vec<Option<TextLayer>> = Vec::new();
    let mut i: usize = 0;
    while i < schema.len()
        invariant
            i <= schema@.len(),
            tokens@.len() == schema@.len(),
            forall|k: int|
                0 <= k < tokens@.len() ==> (#[trigger] tokens@[k])@.len()
                    == plan.value_order().len(),
            f == |s: TextColumnSpec| text_column_failure(*plan, s),
            first_some(schema@.take(i as int), f) is None,
            layers@.len() == i,
            forall|k: int|
                0 <= k < i ==> text_describes(
                    plan.prose_cells(schema@[k].index),
                    tokens@[k]@,
                    #[trigger] layers@[k],
                ),
        decreases schema@.len() - i,
    {
        proof {
            lemma_first_some_step(schema@, i as int, f);
        }
        let rows = match text_rows(schema[i].index, plan) {
            Ok(rows) => rows,
            Err(why) => {
                proof {
                    lemma_first_some_stays(schema@, i + 1, f);
                }
                return Err(why);
            },
        };
        assert(rows@.len() == plan.value_order().len());
        assert(tokens@[i as int]@.len() == plan.value_order().len());
        match text_layer(&schema[i].name, &rows, &tokens[i]) {
            Ok(layer) => {
                layers.push(layer);
            },
            Err(why) => {
                proof {
                    lemma_first_some_stays(schema@, i + 1, f);
                }
                return Err(why);
            },
        }
        i += 1;
    }
    assert(schema@.take(i as int) =~= schema@);
    Ok(layers)
}

/// Everything one flush writes.
pub struct FlushUnit {
    /// The entities whose rows leave the buffer.
    pub consumed: Vec<u64>,
    /// The entities whose fills leave the buffer.
    pub filled: Vec<u64>,
    pub filled_scoped: Vec<(u64, String)>,
    /// The segment's rows. There is a segment, and a postings tier, exactly where there are any.
    pub rows: Vec<FlushRow>,
    pub promotion: Promotion,
    /// The dictionary's length before it grew, where it did.
    pub promoted_from: Option<usize>,
    pub columns: Vec<ExtentColumn>,
    pub scoped: Vec<ScopedColumn>,
    /// The rows of the record extent, where any column is recorded.
    pub records: Option<Vec<(u32, Vec<RecordField>)>>,
    pub texts: Vec<Option<TextLayer>>,
}

/// The first of two failures.
pub open spec fn earlier(a: Option<FlushFailed>, b: Option<FlushFailed>) -> Option<FlushFailed> {
    if a is Some {
        a
    } else {
        b
    }
}

/// What a flush fails with: its terms, its rows, its columns, its scoped columns, its records and
/// its text layers, in that order.
pub open spec fn flush_failure(plan: FlushPlan, ctx: FlushContext) -> Option<FlushFailed> {
    let terms = space_of(ctx.dict, ctx.novel_descriptors@, ctx.max_distinct_terms).failure(
        plan.own_rows(),
    );
    let rows = first_some(
        plan.items@,
        |r: (u64, BufferedItem)| row_failure(r, ctx.render_indices@),
    );
    let columns = first_some(
        ctx.filter_schema@,
        |s: FilterColumnSpec| column_failure(plan, s),
    );
    let scoped = first_some(ctx.scoped_schema@, |s: ScopedColumnSpec| s.failure(plan));
    let records = if ctx.record_schema@.len() == 0 {
        None
    } else {
        first_some(
            plan.value_order(),
            |r: (u64, BufferedItem)| record_failure(ctx.record_schema@, r),
        )
    };
    let texts = first_some(
        ctx.text_schema@,
        |s: TextColumnSpec| text_column_failure(plan, s),
    );
    earlier(
        terms,
        earlier(rows, earlier(columns, earlier(scoped, earlier(records, texts)))),
    )
}

/// Whether a context and the tokens of its prose are of one plan.
pub open spec fn executable(plan: FlushPlan, ctx: FlushContext, tokens: FlushTokens) -> bool {
    &&& plan.value_order().len() <= 0x1_0000_0000
    &&& plan.scoped_order().len() <= 0x1_0000_0000
    &&& ctx.dict@.len() <= u32::MAX
    &&& forall|i: int|
        0 <= i < ctx.filter_schema@.len() ==> (#[trigger] ctx.filter_schema@[i]).storable()
    &&& tokens.declared@.len() == ctx.text_schema@.len()
    &&& forall|i: int|
        0 <= i < tokens.declared@.len() ==> (#[trigger] tokens.declared@[i])@.len()
            == plan.value_order().len()
    &&& tokens.scoped@.len() == ctx.scoped_schema@.len()
    &&& forall|i: int|
        0 <= i < ctx.scoped_schema@.len() && (#[trigger] ctx.scoped_schema@[i]).owes_extent()
            ==> if ctx.scoped_schema@[i].text {
            tokens.scoped@[i]@.len() == plan.scoped_order().len()
        } else {
            ctx.scoped_schema@[i].as_values().storable()
        }
}

/// Whether `unit` is what a plan comes to under a context.
pub open spec fn executes(
    plan: FlushPlan,
    ctx: FlushContext,
    tokens: FlushTokens,
    unit: FlushUnit,
) -> bool {
    &&& unit.consumed@ == plan.items@.map_values(|r: (u64, BufferedItem)| r.0)
    &&& unit.filled@ == plan.consumed_fills@
    &&& owners(unit.filled_scoped@) == owners(plan.consumed_scoped_fills@)
    &&& narrowed(unit.rows@, plan.items@, ctx.render_indices@, ctx.scoped_render@)
    &&& promotes(
        space_of(ctx.dict, ctx.novel_descriptors@, ctx.max_distinct_terms),
        plan.own_rows(),
        unit.promotion,
    )
    &&& unit.promoted_from == if unit.promotion.interned@.len() > 0 {
        Some(ctx.dict@.len() as usize)
    } else {
        None
    }
    &&& unit.columns@.len() == ctx.filter_schema@.len()
    &&& forall|i: int|
        0 <= i < unit.columns@.len() ==> ctx.filter_schema@[i].gathers(
            plan.declared_cells(ctx.filter_schema@[i].index),
            #[trigger] unit.columns@[i],
        )
    &&& unit.scoped@.len() == ctx.scoped_schema@.len()
    &&& forall|i: int|
        0 <= i < unit.scoped@.len() ==> ctx.scoped_schema@[i].writes(
            plan,
            tokens.scoped@[i]@,
            #[trigger] unit.scoped@[i],
        )
    &&& match unit.records {
        None => ctx.record_schema@.len() == 0,
        Some(rows) => ctx.record_schema@.len() > 0 && record_models(rows@) == runs(
            field_rows(plan, ctx.record_schema@),
        ).filter(|r: (u32, Seq<RecordField>)| r.1.len() > 0),
    }
    &&& unit.texts@.len() == ctx.text_schema@.len()
    &&& forall|i: int|
        0 <= i < unit.texts@.len() ==> text_describes(
            plan.prose_cells(ctx.text_schema@[i].index),
            tokens.declared@[i]@,
            #[trigger] unit.texts@[i],
        )
}

fn row_entities(rows: &Vec<(u64, BufferedItem)>) -> (out: Vec<u64>)
    ensures
        out@ == rows@.map_values(|r: (u64, BufferedItem)| r.0),
{
    let mut out: Vec<u64> = Vec::new();
    let mut i: usize = 0;
    while i < rows.len()
        invariant
            i <= rows@.len(),
            out@.len() == i,
            forall|k: int| 0 <= k < i ==> out@[k] == rows@[k].0,
        decreases rows@.len() - i,
    {
        out.push(rows[i].0);
        i += 1;
    }
    assert(out@ =~= rows@.map_values(|r: (u64, BufferedItem)| r.0));
    out
}

fn copy_owners(list: &Vec<(u64, String)>) -> (out: Vec<(u64, String)>)
    ensures
        owners(out@) == owners(list@),
{
    let mut out: Vec<(u64, String)> = Vec::new();
    let mut i: usize = 0;
    while i < list.len()
        invariant
            i <= list@.len(),
            out@.len() == i,
            forall|k: int| 0 <= k < i ==> (#[trigger] out@[k]).0 == list@[k].0 && out@[k].1@ == list@[k].1@,
        decreases list@.len() - i,
    {
        out.push((list[i].0, list[i].1.clone()));
        i += 1;
    }
    assert(owners(out@) =~= owners(list@));
    out
}

/// Compute everything a plan writes, or fail with the first stage that fails.
pub fn execute_flush_stages(plan: &FlushPlan, ctx: &FlushContext, tokens: &FlushTokens) -> (out:
    Result<FlushUnit, FlushFailed>)
    requires
        executable(*plan, *ctx, *tokens),
    ensures
        out is Err <==> flush_failure(*plan, *ctx) is Some,
        out matches Err(why) ==> flush_failure(*plan, *ctx) == Some(why),
        out matches Ok(unit) ==> executes(*plan, *ctx, *tokens, unit),
{
    let promotion = promote(plan, &ctx.dict, &ctx.novel_descriptors, ctx.max_distinct_terms)?;
    let promoted_from = if promotion.interned.len() > 0 {
        Some(ctx.dict.descriptors.len())
    } else {
        None
    };
    let rows = flush_rows(plan, &ctx.render_indices, &ctx.scoped_render)?;
    let columns = write_filter_extents(plan, &ctx.filter_schema)?;
    let scoped = write_scoped_extents(plan, &ctx.scoped_schema, &tokens.scoped)?;
    let records = if ctx.record_schema.len() == 0 {
        None
    } else {
        Some(record_rows(plan, &ctx.record_schema)?)
    };
    let texts = write_text_extents(plan, &ctx.text_schema, &tokens.declared)?;
    Ok(
        FlushUnit {
            consumed: row_entities(&plan.items),
            filled: plan.consumed_fills.clone(),
            filled_scoped: copy_owners(&plan.consumed_scoped_fills),
            rows,
            promotion,
            promoted_from,
            columns,
            scoped,
            records,
            texts,
        },
    )
}

/// The files a flush's writers named: each column's, each scoped column's, the scoped bases' and
/// each scoped text layer's.
pub struct WrittenFiles {
    pub columns: Vec<Vec<String>>,
    pub scoped: Vec<Vec<String>>,
    pub bases: Vec<String>,
    pub scoped_texts: Vec<Vec<String>>,
}

/// Strings, as values.
pub open spec fn strings(list: Seq<String>) -> Seq<Seq<char>> {
    list.map_values(|s: String| s@)
}

/// Lists of strings, one after another.
pub open spec fn flat(lists: Seq<Vec<String>>) -> Seq<Seq<char>>
    decreases lists.len(),
{
    if lists.len() == 0 {
        Seq::empty()
    } else {
        flat(lists.drop_last()) + strings(lists.last()@)
    }
}

/// The files of the text layers a flush has, in schema order.
pub open spec fn text_layer_files(
    target: FlushTarget,
    schema: Seq<TextColumnSpec>,
    texts: Seq<Option<TextLayer>>,
) -> Seq<Seq<char>>
    decreases schema.len(),
{
    if schema.len() == 0 {
        Seq::empty()
    } else {
        let before = text_layer_files(target, schema.drop_last(), texts);
        if texts[schema.len() - 1] is Some {
            let dir = column_dir(target.partition@, schema.last().name@)
                + "/extents"@;
            before + seq![
                extent_file(dir, target.seg_id@, "-dict.bin"@),
                extent_file(dir, target.seg_id@, "-postings.arrow"@),
                extent_file(dir, target.seg_id@, "-presence.roaring"@),
            ]
        } else {
            before
        }
    }
}

fn push_all(out: &mut Vec<String>, list: &Vec<String>)
    ensures
        strings(final(out)@) == strings(old(out)@) + strings(list@),
{
    let ghost before = out@;
    let mut i: usize = 0;
    assert(strings(out@) =~= strings(before) + strings(list@).take(0));
    while i < list.len()
        invariant
            i <= list@.len(),
            strings(out@) == strings(before) + strings(list@).take(i as int),
        decreases list@.len() - i,
    {
        let ghost now = out@;
        out.push(list[i].clone());
        i += 1;
        assert(strings(out@) =~= strings(now).push(list@[i - 1]@));
        assert(strings(out@) =~= strings(before) + strings(list@).take(i as int));
    }
    assert(strings(list@).take(i as int) =~= strings(list@));
}

fn push_lists(out: &mut Vec<String>, lists: &Vec<Vec<String>>)
    ensures
        strings(final(out)@) == strings(old(out)@) + flat(lists@),
{
    let ghost before = out@;
    let mut i: usize = 0;
    assert(strings(out@) =~= strings(before) + flat(lists@.take(0)));
    while i < lists.len()
        invariant
            i <= lists@.len(),
            strings(out@) == strings(before) + flat(lists@.take(i as int)),
        decreases lists@.len() - i,
    {
        push_all(out, &lists[i]);
        i += 1;
        assert(lists@.take(i as int).drop_last() =~= lists@.take(i - 1));
        assert(strings(out@) =~= strings(before) + flat(lists@.take(i as int)));
    }
    assert(lists@.take(i as int) =~= lists@);
}

/// The files of a flush outside its segment, in the order they are digested in.
pub open spec fn digest_order(
    target: FlushTarget,
    text_schema: Seq<TextColumnSpec>,
    unit: FlushUnit,
    written: WrittenFiles,
) -> Seq<Seq<char>> {
    let tier = if unit.rows@.len() > 0 {
        seq![segment_file(target, "delta.arrow"@)]
    } else {
        Seq::empty()
    };
    let dict = if unit.promotion.interned@.len() > 0 {
        seq![segment_file(target, "terms-0.dict"@)]
    } else {
        Seq::empty()
    };
    let terms_dir = "partitions/"@ + target.partition@ + "/entities/terms/extents"@;
    let terms = seq![
        extent_file(terms_dir, target.seg_id@, ".hasrow.roaring"@),
        extent_file(terms_dir, target.seg_id@, ".offsets.u32"@),
        extent_file(terms_dir, target.seg_id@, ".terms.u32"@),
        extent_file(terms_dir, target.seg_id@, ".bases.u64"@),
    ];
    let record_dir = "partitions/"@ + target.partition@ + "/attrs/record/extents"@;
    let records = if unit.records is Some {
        seq![
            extent_file(record_dir, target.seg_id@, ".blocks.bin"@),
            extent_file(record_dir, target.seg_id@, ".hasrow.roaring"@),
            extent_file(record_dir, target.seg_id@, ".directory.arrow"@),
        ]
    } else {
        Seq::empty()
    };
    tier + dict + flat(written.columns@) + terms + flat(written.scoped@) + strings(written.bases@)
        + records + text_layer_files(target, text_schema, unit.texts@) + flat(
        written.scoped_texts@,
    )
}

/// The files of a flush outside its segment, in the order they are digested in.
pub fn files_to_digest(
    target: &FlushTarget,
    text_schema: &Vec<TextColumnSpec>,
    unit: &FlushUnit,
    written: &WrittenFiles,
) -> (files: Vec<String>)
    requires
        unit.texts@.len() == text_schema@.len(),
    ensures
        strings(files@) == digest_order(*target, text_schema@, *unit, *written),
{
    let mut files: Vec<String> = Vec::new();
    if unit.rows.len() > 0 {
        files.push(target.tier_path());
    }
    let ghost tier = strings(files@);
    if unit.promotion.interned.len() > 0 {
        files.push(target.dict_path());
    }
    let ghost dict = strings(files@);
    push_lists(&mut files, &written.columns);
    let ghost terms_dir = "partitions/"@ + target.partition@ + "/entities/terms/extents"@;
    let terms = target.entity_terms_files();
    assert(strings(terms@) =~= seq![
        extent_file(terms_dir, target.seg_id@, ".hasrow.roaring"@),
        extent_file(terms_dir, target.seg_id@, ".offsets.u32"@),
        extent_file(terms_dir, target.seg_id@, ".terms.u32"@),
        extent_file(terms_dir, target.seg_id@, ".bases.u64"@),
    ]);
    push_all(&mut files, &terms);
    push_lists(&mut files, &written.scoped);
    push_all(&mut files, &written.bases);
    let ghost before_records = strings(files@);
    if unit.records.is_some() {
        let ghost record_dir = "partitions/"@ + target.partition@ + "/attrs/record/extents"@;
        let records = target.record_files();
        assert(strings(records@) =~= seq![
            extent_file(record_dir, target.seg_id@, ".blocks.bin"@),
            extent_file(record_dir, target.seg_id@, ".hasrow.roaring"@),
            extent_file(record_dir, target.seg_id@, ".directory.arrow"@),
        ]);
        push_all(&mut files, &records);
    } else {
        assert(before_records =~= before_records + Seq::<Seq<char>>::empty());
    }
    let ghost before_texts = strings(files@);
    let mut i: usize = 0;
    assert(strings(files@) =~= before_texts + text_layer_files(
        *target,
        text_schema@.take(0),
        unit.texts@,
    ));
    while i < text_schema.len()
        invariant
            i <= text_schema@.len(),
            unit.texts@.len() == text_schema@.len(),
            strings(files@) == before_texts + text_layer_files(
                *target,
                text_schema@.take(i as int),
                unit.texts@,
            ),
        decreases text_schema@.len() - i,
    {
        assert(text_schema@.take(i + 1).drop_last() =~= text_schema@.take(i as int));
        if unit.texts[i].is_some() {
            let dir = target.text_dir(&text_schema[i].name);
            let mine = target.text_files(&dir);
            assert(strings(mine@) =~= seq![
                extent_file(dir@, target.seg_id@, "-dict.bin"@),
                extent_file(dir@, target.seg_id@, "-postings.arrow"@),
                extent_file(dir@, target.seg_id@, "-presence.roaring"@),
            ]);
            push_all(&mut files, &mine);
        }
        i += 1;
        assert(strings(files@) =~= before_texts + text_layer_files(
            *target,
            text_schema@.take(i as int),
            unit.texts@,
        ));
    }
    assert(text_schema@.take(i as int) =~= text_schema@);
    push_lists(&mut files, &written.scoped_texts);
    assert(strings(files@) =~= digest_order(*target, text_schema@, *unit, *written));
    files
}

/// The segment row that is written for a planned item is of that item's entity, stands at that
/// item's point, and carries its external id.
pub proof fn law_a_segment_row_stands_at_its_items_point(
    rows: Seq<FlushRow>,
    items: Seq<(u64, BufferedItem)>,
    render: Seq<usize>,
    scoped_render: Seq<Option<usize>>,
    i: int,
)
    requires
        narrowed(rows, items, render, scoped_render),
        0 <= i < items.len(),
    ensures
        rows.len() == items.len(),
        rows[i].entity == items[i].0,
        rows[i].x == items[i].1.x,
        rows[i].y == items[i].1.y,
        rows[i].external_id is Some <==> items[i].1.external_id is Some,
        rows[i].external_id is Some ==> rows[i].external_id->0@ == items[i].1.external_id->0@,
{
    assert(narrows(rows[i], items[i], render, scoped_render));
}

/// The tail of a segment row holds the item's declared cells at the rendered positions, in order,
/// and then its scoped cells: nothing for a family the view lacks or the item carries no cell of.
pub proof fn law_a_segment_rows_tail_is_its_items_cells(
    rows: Seq<FlushRow>,
    items: Seq<(u64, BufferedItem)>,
    render: Seq<usize>,
    scoped_render: Seq<Option<usize>>,
    i: int,
)
    requires
        narrowed(rows, items, render, scoped_render),
        0 <= i < items.len(),
    ensures
        rows[i].scalars@.len() == render.len() + scoped_render.len(),
        forall|k: int|
            0 <= k < render.len() ==> (#[trigger] rows[i].scalars@[k])
                == items[i].1.scalars@[render[k] as int],
        forall|k: int|
            0 <= k < scoped_render.len() ==> (#[trigger] rows[i].scalars@[render.len() + k]) == if
                scoped_render[k] is Some && scoped_render[k]->0 < items[i].1.scoped@.len() {
                items[i].1.scoped@[scoped_render[k]->0 as int]
            } else {
                Scalar::Null
            },
{
    assert(narrows(rows[i], items[i], render, scoped_render));
}

/// What a flush takes out of the buffer is what it planned: the entities of the rows it wrote, and
/// the fills it settled.
pub proof fn law_a_flush_consumes_what_it_wrote(
    plan: FlushPlan,
    ctx: FlushContext,
    tokens: FlushTokens,
    unit: FlushUnit,
)
    requires
        executes(plan, ctx, tokens, unit),
    ensures
        unit.consumed@.len() == unit.rows@.len() == plan.items@.len(),
        forall|i: int|
            0 <= i < unit.rows@.len() ==> (#[trigger] unit.consumed@[i]) == unit.rows@[i].entity
                && unit.consumed@[i] == plan.items@[i].0 && unit.rows@[i].x == plan.items@[i].1.x
                && unit.rows@[i].y == plan.items@[i].1.y,
        unit.filled@ == plan.consumed_fills@,
        unit.filled_scoped@.len() == plan.consumed_scoped_fills@.len(),
        forall|i: int|
            0 <= i < unit.filled_scoped@.len() ==> (#[trigger] unit.filled_scoped@[i]).0
                == plan.consumed_scoped_fills@[i].0 && unit.filled_scoped@[i].1@
                == plan.consumed_scoped_fills@[i].1@,
        unit.records is Some <==> ctx.record_schema@.len() > 0,
        unit.columns@.len() == ctx.filter_schema@.len(),
        unit.scoped@.len() == ctx.scoped_schema@.len(),
        unit.texts@.len() == ctx.text_schema@.len(),
        unit.promoted_from is Some <==> unit.promotion.interned@.len() > 0,
        unit.promoted_from is Some ==> unit.promoted_from->0 == ctx.dict.descriptors@.len() as usize,
{
    assert forall|i: int| 0 <= i < unit.rows@.len() implies (#[trigger] unit.consumed@[i])
        == unit.rows@[i].entity && unit.consumed@[i] == plan.items@[i].0 && unit.rows@[i].x
        == plan.items@[i].1.x && unit.rows@[i].y == plan.items@[i].1.y by {
        assert(narrows(
            unit.rows@[i],
            plan.items@[i],
            ctx.render_indices@,
            ctx.scoped_render@,
        ));
    }
    let settled = owners(unit.filled_scoped@);
    let planned = owners(plan.consumed_scoped_fills@);
    assert(settled.len() == unit.filled_scoped@.len());
    assert(planned.len() == plan.consumed_scoped_fills@.len());
    assert forall|i: int| 0 <= i < unit.filled_scoped@.len() implies (
    #[trigger] unit.filled_scoped@[i]).0 == plan.consumed_scoped_fills@[i].0
        && unit.filled_scoped@[i].1@ == plan.consumed_scoped_fills@[i].1@ by {
        assert(settled[i] == planned[i]);
    }
}

/// A row's failure is its first rendered position that its cells do not reach.
pub proof fn law_a_segment_fails_on_the_first_cell_a_row_lacks(
    items: Seq<(u64, BufferedItem)>,
    render: Seq<usize>,
) -> (at: (int, int))
    ensures
        ({
            let failure = first_some(items, |r: (u64, BufferedItem)| row_failure(r, render));
            let (i, k) = at;
            &&& failure is Some <==> exists|i: int, k: int|
                #![trigger items[i], render[k]]
                0 <= i < items.len() && 0 <= k < render.len() && render[k]
                    >= items[i].1.scalars@.len()
            &&& failure is Some ==> {
                &&& 0 <= i < items.len() && 0 <= k < render.len()
                &&& render[k] >= items[i].1.scalars@.len()
                &&& forall|j: int, l: int|
                    #![trigger items[j], render[l]]
                    0 <= j < items.len() && 0 <= l < render.len() && (j < i || (j == i && l < k))
                        ==> render[l] < items[j].1.scalars@.len()
                &&& failure == Some(
                    FlushFailed::NoRenderCell {
                        held: items[i].1.scalars@.len() as usize,
                        index: render[k],
                    },
                )
            }
        }),
{
    let f = |r: (u64, BufferedItem)| row_failure(r, render);
    let i = lemma_first_some_at(items, f);
    let g = |at: usize| render_failure(items[i].1.scalars@, at);
    let k = lemma_first_some_at(render, g);
    assert forall|j: int, l: int|
        #![trigger items[j], render[l]]
        0 <= j < items.len() && 0 <= l < render.len() && row_failure(
            items[j],
            render,
        ) is None implies render[l] < items[j].1.scalars@.len() by {
        let h = |at: usize| render_failure(items[j].1.scalars@, at);
        lemma_first_some_at(render, h);
        assert(h(render[l]) is None);
    }
    if first_some(items, f) is Some {
        assert(f(items[i]) is Some);
        assert(row_failure(items[i], render) is Some);
        assert(g(render[k]) is Some);
        assert forall|j: int, l: int|
            #![trigger items[j], render[l]]
            0 <= j < items.len() && 0 <= l < render.len() && (j < i || (j == i && l < k)) implies render[l]
            < items[j].1.scalars@.len() by {
            if j < i {
                assert(f(items[j]) is None);
            } else {
                assert(g(render[l]) is None);
            }
        }
        assert(items[i].1.scalars@.len() <= render[k]);
    } else {
        assert forall|j: int, l: int|
            #![trigger items[j], render[l]]
            0 <= j < items.len() && 0 <= l < render.len() implies render[l]
            < items[j].1.scalars@.len() by {
            assert(f(items[j]) is None);
        }
    }
    (i, k)
}

/// Each column of a flush is gathered from the cells that the rows hold at that column's own
/// position, each text column from its own tokens, and each group-scoped column is its own.
pub proof fn law_a_flushes_columns_are_of_their_own_cells(
    plan: FlushPlan,
    ctx: FlushContext,
    tokens: FlushTokens,
    unit: FlushUnit,
    i: int,
    cells: Seq<(u32, &Scalar)>,
)
    requires
        executes(plan, ctx, tokens, unit),
        cells.len() == plan.value_order().len(),
    ensures
        unit.columns@.len() == ctx.filter_schema@.len(),
        unit.texts@.len() == ctx.text_schema@.len(),
        unit.scoped@.len() == ctx.scoped_schema@.len(),
        0 <= i < unit.scoped@.len() ==> ctx.scoped_schema@[i].writes(
            plan,
            tokens.scoped@[i]@,
            unit.scoped@[i],
        ),
        0 <= i < unit.columns@.len() && (forall|n: int|
            0 <= n < cells.len() ==> (#[trigger] cells[n]) == (
                plan.value_order()[n].0 as u32,
                &plan.value_order()[n].1.scalars@[ctx.filter_schema@[i].index as int],
            )) ==> ctx.filter_schema@[i].gathers(cells, unit.columns@[i]),
        0 <= i < unit.texts@.len() && (forall|n: int|
            0 <= n < cells.len() ==> (#[trigger] cells[n]) == (
                plan.value_order()[n].0 as u32,
                if ctx.text_schema@[i].index < plan.value_order()[n].1.scalars@.len() {
                    &plan.value_order()[n].1.scalars@[ctx.text_schema@[i].index as int]
                } else {
                    &Scalar::Null
                },
            )) ==> text_describes(cells, tokens.declared@[i]@, unit.texts@[i]),
{
    if 0 <= i < unit.columns@.len() && (forall|n: int|
        0 <= n < cells.len() ==> (#[trigger] cells[n]) == (
            plan.value_order()[n].0 as u32,
            &plan.value_order()[n].1.scalars@[ctx.filter_schema@[i].index as int],
        )) {
        assert(cells =~= plan.declared_cells(ctx.filter_schema@[i].index));
        assert(ctx.filter_schema@[i].gathers(cells, unit.columns@[i]));
    }
    if 0 <= i < unit.texts@.len() && (forall|n: int|
        0 <= n < cells.len() ==> (#[trigger] cells[n]) == (
            plan.value_order()[n].0 as u32,
            if ctx.text_schema@[i].index < plan.value_order()[n].1.scalars@.len() {
                &plan.value_order()[n].1.scalars@[ctx.text_schema@[i].index as int]
            } else {
                &Scalar::Null
            },
        )) {
        assert(cells =~= plan.prose_cells(ctx.text_schema@[i].index));
        assert(text_describes(cells, tokens.declared@[i]@, unit.texts@[i]));
    }
}

/// A flush says from which ordinal its terms are new exactly where it interned any: that is how
/// many terms the dictionary had.
pub proof fn law_a_flush_says_where_its_terms_begin(
    plan: FlushPlan,
    ctx: FlushContext,
    tokens: FlushTokens,
    unit: FlushUnit,
)
    requires
        executes(plan, ctx, tokens, unit),
        ctx.dict@.len() <= u32::MAX,
    ensures
        unit.promoted_from is Some <==> unit.promotion.interned@.len() > 0,
        unit.promoted_from matches Some(from) ==> from == ctx.dict@.len(),
        unit.promotion.dict@.len() == ctx.dict@.len() + unit.promotion.interned@.len(),
{
}

/// A flush digests the file of its delta tier where it wrote rows, its dictionary where it interned
/// a term, and its records where it wrote any; beside them every file of its columns and bases, and
/// three files of each text column that it wrote a layer of, all under that column's own name.
pub proof fn law_every_file_of_a_flush_is_digested(
    target: FlushTarget,
    text_schema: Seq<TextColumnSpec>,
    unit: FlushUnit,
    written: WrittenFiles,
    i: int,
)
    requires
        unit.texts@.len() == text_schema.len(),
    ensures
        ({
            let files = digest_order(target, text_schema, unit, written);
            let root = "partitions/"@ + target.partition@;
            let segment = root + "/"@ + target.view_rel@ + "/segments/"@ + target.seg_id@;
            &&& unit.rows@.len() > 0 ==> files.contains(segment + "/"@ + "delta.arrow"@)
            &&& unit.promotion.interned@.len() > 0 ==> files.contains(
                segment + "/"@ + "terms-0.dict"@,
            )
            &&& files.contains(
                root + "/entities/terms/extents"@ + "/"@ + target.seg_id@ + ".terms.u32"@,
            )
            &&& unit.records is Some ==> files.contains(
                root + "/attrs/record/extents"@ + "/"@ + target.seg_id@ + ".blocks.bin"@,
            )
            &&& 0 <= i < text_schema.len() && unit.texts@[i] is Some ==> {
                let column = root + "/attrs/"@ + text_schema[i].name@ + "/extents"@;
                &&& files.contains(column + "/"@ + target.seg_id@ + "-dict.bin"@)
                &&& files.contains(column + "/"@ + target.seg_id@ + "-postings.arrow"@)
                &&& files.contains(column + "/"@ + target.seg_id@ + "-presence.roaring"@)
            }
            &&& forall|k: int|
                0 <= k < written.bases@.len() ==> files.contains((#[trigger] written.bases@[k])@)
            &&& forall|c: int, k: int|
                0 <= c < written.columns@.len() && 0 <= k < written.columns@[c]@.len()
                    ==> files.contains((#[trigger] written.columns@[c]@[k])@)
            &&& forall|c: int, k: int|
                0 <= c < written.scoped@.len() && 0 <= k < written.scoped@[c]@.len()
                    ==> files.contains((#[trigger] written.scoped@[c]@[k])@)
            &&& forall|c: int, k: int|
                0 <= c < written.scoped_texts@.len() && 0 <= k < written.scoped_texts@[c]@.len()
                    ==> files.contains((#[trigger] written.scoped_texts@[c]@[k])@)
        }),
{
    let files = digest_order(target, text_schema, unit, written);
    let root = "partitions/"@ + target.partition@;
    let tier = if unit.rows@.len() > 0 {
        seq![segment_file(target, "delta.arrow"@)]
    } else {
        Seq::empty()
    };
    let dict = if unit.promotion.interned@.len() > 0 {
        seq![segment_file(target, "terms-0.dict"@)]
    } else {
        Seq::empty()
    };
    let terms_dir = "partitions/"@ + target.partition@ + "/entities/terms/extents"@;
    let terms = seq![
        extent_file(terms_dir, target.seg_id@, ".hasrow.roaring"@),
        extent_file(terms_dir, target.seg_id@, ".offsets.u32"@),
        extent_file(terms_dir, target.seg_id@, ".terms.u32"@),
        extent_file(terms_dir, target.seg_id@, ".bases.u64"@),
    ];
    let record_dir = "partitions/"@ + target.partition@ + "/attrs/record/extents"@;
    let records = if unit.records is Some {
        seq![
            extent_file(record_dir, target.seg_id@, ".blocks.bin"@),
            extent_file(record_dir, target.seg_id@, ".hasrow.roaring"@),
            extent_file(record_dir, target.seg_id@, ".directory.arrow"@),
        ]
    } else {
        Seq::empty()
    };
    let texts = text_layer_files(target, text_schema, unit.texts@);
    let a = tier + dict;
    let b = a + flat(written.columns@);
    let c = b + terms;
    let d = c + flat(written.scoped@);
    let e = d + strings(written.bases@);
    let f = e + records;
    let g = f + texts;
    assert(files == g + flat(written.scoped_texts@));
    assert forall|path: Seq<char>|
        {
            ||| tier.contains(path)
            ||| dict.contains(path)
            ||| flat(written.columns@).contains(path)
            ||| terms.contains(path)
            ||| flat(written.scoped@).contains(path)
            ||| strings(written.bases@).contains(path)
            ||| records.contains(path)
            ||| texts.contains(path)
            ||| flat(written.scoped_texts@).contains(path)
        } implies #[trigger] files.contains(path) by {
        lemma_in_either(tier, dict, path);
        lemma_in_either(a, flat(written.columns@), path);
        lemma_in_either(b, terms, path);
        lemma_in_either(c, flat(written.scoped@), path);
        lemma_in_either(d, strings(written.bases@), path);
        lemma_in_either(e, records, path);
        lemma_in_either(f, texts, path);
        lemma_in_either(g, flat(written.scoped_texts@), path);
    }
    let segment = root + "/"@ + target.view_rel@ + "/segments/"@ + target.seg_id@;
    if unit.rows@.len() > 0 {
        assert(tier[0] == segment + "/"@ + "delta.arrow"@);
        assert(tier.contains(segment + "/"@ + "delta.arrow"@));
    }
    if unit.promotion.interned@.len() > 0 {
        assert(dict[0] == segment + "/"@ + "terms-0.dict"@);
        assert(dict.contains(segment + "/"@ + "terms-0.dict"@));
    }
    assert(terms[2] == root + "/entities/terms/extents"@ + "/"@ + target.seg_id@ + ".terms.u32"@);
    assert(terms.contains(terms[2]));
    if unit.records is Some {
        assert(records[0] == root + "/attrs/record/extents"@ + "/"@ + target.seg_id@
            + ".blocks.bin"@);
        assert(records.contains(records[0]));
    }
    if 0 <= i < text_schema.len() && unit.texts@[i] is Some {
        lemma_text_files(target, text_schema, unit.texts@, i);
    }
    assert forall|k: int| 0 <= k < written.bases@.len() implies files.contains(
        (#[trigger] written.bases@[k])@,
    ) by {
        assert(strings(written.bases@)[k] == written.bases@[k]@);
        assert(strings(written.bases@).contains(written.bases@[k]@));
    }
    assert forall|c: int, k: int|
        0 <= c < written.columns@.len() && 0 <= k
            < written.columns@[c]@.len() implies files.contains(
        (#[trigger] written.columns@[c]@[k])@,
    ) by {
        lemma_in_flat(written.columns@, c, k);
    }
    assert forall|c: int, k: int|
        0 <= c < written.scoped@.len() && 0 <= k < written.scoped@[c]@.len() implies files.contains(
        (#[trigger] written.scoped@[c]@[k])@,
    ) by {
        lemma_in_flat(written.scoped@, c, k);
    }
    assert forall|c: int, k: int|
        0 <= c < written.scoped_texts@.len() && 0 <= k
            < written.scoped_texts@[c]@.len() implies files.contains(
        (#[trigger] written.scoped_texts@[c]@[k])@,
    ) by {
        lemma_in_flat(written.scoped_texts@, c, k);
    }
}

/// What either of two lists holds, the two in a row hold.
proof fn lemma_in_either(a: Seq<Seq<char>>, b: Seq<Seq<char>>, path: Seq<char>)
    ensures
        a.contains(path) || b.contains(path) ==> (a + b).contains(path),
{
    if a.contains(path) {
        let k = choose|k: int| 0 <= k < a.len() && a[k] == path;
        assert((a + b)[k] == path);
    } else if b.contains(path) {
        let k = choose|k: int| 0 <= k < b.len() && b[k] == path;
        assert((a + b)[a.len() + k] == path);
    }
}

/// What one of some lists holds, all of them in a row hold.
proof fn lemma_in_flat(lists: Seq<Vec<String>>, c: int, k: int)
    requires
        0 <= c < lists.len(),
        0 <= k < lists[c]@.len(),
    ensures
        flat(lists).contains(lists[c]@[k]@),
    decreases lists.len(),
{
    let before = flat(lists.drop_last());
    let last = strings(lists.last()@);
    if c < lists.len() - 1 {
        lemma_in_flat(lists.drop_last(), c, k);
    } else {
        assert(last[k] == lists[c]@[k]@);
        assert(last.contains(lists[c]@[k]@));
    }
    lemma_in_either(before, last, lists[c]@[k]@);
}

/// The three files of a text layer are among the files of all.
proof fn lemma_text_files(
    target: FlushTarget,
    schema: Seq<TextColumnSpec>,
    texts: Seq<Option<TextLayer>>,
    i: int,
)
    requires
        0 <= i < schema.len() <= texts.len(),
        texts[i] is Some,
    ensures
        ({
            let files = text_layer_files(target, schema, texts);
            let column = "partitions/"@ + target.partition@ + "/attrs/"@ + schema[i].name@
                + "/extents"@;
            &&& files.contains(column + "/"@ + target.seg_id@ + "-dict.bin"@)
            &&& files.contains(column + "/"@ + target.seg_id@ + "-postings.arrow"@)
            &&& files.contains(column + "/"@ + target.seg_id@ + "-presence.roaring"@)
        }),
    decreases schema.len(),
{
    let column = "partitions/"@ + target.partition@ + "/attrs/"@ + schema[i].name@ + "/extents"@;
    let before = text_layer_files(target, schema.drop_last(), texts);
    if i < schema.len() - 1 {
        lemma_text_files(target, schema.drop_last(), texts, i);
    }
    if texts[schema.len() - 1] is Some {
        let dir = column_dir(target.partition@, schema.last().name@) + "/extents"@;
        let own = seq![
            extent_file(dir, target.seg_id@, "-dict.bin"@),
            extent_file(dir, target.seg_id@, "-postings.arrow"@),
            extent_file(dir, target.seg_id@, "-presence.roaring"@),
        ];
        assert(own.contains(own[0]) && own.contains(own[1]) && own.contains(own[2]));
        lemma_in_either(before, own, column + "/"@ + target.seg_id@ + "-dict.bin"@);
        lemma_in_either(before, own, column + "/"@ + target.seg_id@ + "-postings.arrow"@);
        lemma_in_either(before, own, column + "/"@ + target.seg_id@ + "-presence.roaring"@);
        assert(text_layer_files(target, schema, texts) == before + own);
    }
}

/// A flush goes through only where every row has each cell that is rendered, every column that is
/// gathered has a cell in every row, of an entity that a column numbers, every recorded column has
/// a cell in every row, and no group-scoped column fails.
pub proof fn law_a_flush_goes_through_only_where_every_part_does(plan: FlushPlan, ctx: FlushContext)
    requires
        flush_failure(plan, ctx) is None,
    ensures
        forall|i: int, r: int|
            0 <= i < plan.items@.len() && 0 <= r < ctx.render_indices@.len() ==> (
            #[trigger] ctx.render_indices@[r]) < (#[trigger] plan.items@[i]).1.scalars@.len(),
        forall|i: int, c: int|
            0 <= i < plan.value_order().len() && 0 <= c < ctx.filter_schema@.len() ==> (
            #[trigger] plan.value_order()[i]).0 <= u32::MAX && (
            #[trigger] ctx.filter_schema@[c]).index < plan.value_order()[i].1.scalars@.len(),
        ctx.record_schema@.len() > 0 ==> forall|i: int, c: int|
            0 <= i < plan.value_order().len() && 0 <= c < ctx.record_schema@.len() ==> (
            #[trigger] ctx.record_schema@[c]).index < (
            #[trigger] plan.value_order()[i]).1.scalars@.len(),
        forall|c: int|
            0 <= c < ctx.scoped_schema@.len() ==> (#[trigger] ctx.scoped_schema@[c]).failure(
                plan,
            ) is None,
{
    let rows = |r: (u64, BufferedItem)| row_failure(r, ctx.render_indices@);
    let columns = |s: FilterColumnSpec| column_failure(plan, s);
    let scoped = |s: ScopedColumnSpec| s.failure(plan);
    let order = plan.value_order();
    lemma_first_some_at(plan.items@, rows);
    lemma_first_some_at(ctx.filter_schema@, columns);
    lemma_first_some_at(ctx.scoped_schema@, scoped);
    assert forall|i: int, r: int|
        0 <= i < plan.items@.len() && 0 <= r < ctx.render_indices@.len() implies (
    #[trigger] ctx.render_indices@[r]) < (#[trigger] plan.items@[i]).1.scalars@.len() by {
        let cells = plan.items@[i].1.scalars@;
        let f = |at: usize| render_failure(cells, at);
        assert(rows(plan.items@[i]) is None);
        lemma_first_some_at(ctx.render_indices@, f);
        assert(f(ctx.render_indices@[r]) is None);
    }
    assert forall|i: int, c: int|
        0 <= i < order.len() && 0 <= c < ctx.filter_schema@.len() implies (
    #[trigger] order[i]).0 <= u32::MAX && (#[trigger] ctx.filter_schema@[c]).index
        < order[i].1.scalars@.len() by {
        let spec = ctx.filter_schema@[c];
        let f = |r: (u64, BufferedItem)| cell_failure(r, spec.name, spec.index);
        assert(columns(spec) is None);
        lemma_first_some_at(order, f);
        assert(f(order[i]) is None);
    }
    if ctx.record_schema@.len() > 0 {
        let records = |r: (u64, BufferedItem)| record_failure(ctx.record_schema@, r);
        lemma_first_some_at(order, records);
        assert forall|i: int, c: int|
            0 <= i < order.len() && 0 <= c < ctx.record_schema@.len() implies (
        #[trigger] ctx.record_schema@[c]).index < (#[trigger] order[i]).1.scalars@.len() by {
            assert(records(order[i]) is None);
            law_a_row_is_recorded_where_its_cells_fit(ctx.record_schema@, order[i]);
        }
    }
    assert forall|c: int| 0 <= c < ctx.scoped_schema@.len() implies (
    #[trigger] ctx.scoped_schema@[c]).failure(plan) is None by {
        assert(scoped(ctx.scoped_schema@[c]) is None);
    }
}

} // verus!
