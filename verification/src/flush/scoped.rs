//! The group-scoped columns of a flush.

use vstd::prelude::*;

use crate::flush::extents::{extent_values, width_of, Codes, ExtentColumn, FilterColumnSpec};
use crate::flush::failure::FlushFailed;
use crate::flush::gather::{entity_failure, scoped_rows};
use crate::flush::plan::{BufferedItem, FlushPlan};
use crate::flush::texts::{text_failure, text_layer, TextLayer, text_describes};
use crate::scalar::{Scalar, ScalarType};
use crate::seqs::first_some;

verus! {

/// A group-scoped column of the view being flushed.
#[derive(Clone, Debug, PartialEq, Eq)]
pub struct ScopedColumnSpec {
    /// The family's position.
    pub index: usize,
    pub name: String,
    pub ty: ScalarType,
    pub category: bool,
    pub filterable: bool,
    pub has_value_column: bool,
    pub render: bool,
    /// Whether the view already has the column's base.
    pub has_base: bool,
    /// Whether the column holds prose, and so terms rather than slots.
    pub text: bool,
}

/// The files an empty base of a column is made of.
#[derive(Debug, PartialEq, Eq)]
pub enum EmptyBase {
    /// A term dictionary and postings, both of nothing.
    Text,
    /// No slots, a dictionary of nothing where the column is a keyword, and postings of nothing
    /// where it is a category.
    Values { codes: Codes, dict: bool, postings: bool },
}

/// What one group-scoped column writes.
pub enum ScopedWritten {
    /// It is only rendered, or not stored at all.
    Nothing,
    Text(Option<TextLayer>),
    Values(ExtentColumn),
}

/// One group-scoped column of a flush.
pub struct ScopedColumn {
    /// Whether the flush gives the view the column.
    pub created: bool,
    /// The base to write first.
    pub base: Option<EmptyBase>,
    pub written: ScopedWritten,
}

/// Slots of nothing, in the width a column is stored in.
pub fn empty_codes(ty: ScalarType, category: bool) -> (codes: Codes)
    ensures
        codes.width() == width_of(ty, category),
        codes.slots() =~= Seq::<int>::empty(),
{
    let wide: bool = category || ty == ScalarType::Keyword;
    match ty {
        ScalarType::U8 => Codes::U8(Vec::new()),
        ScalarType::U16 => Codes::U16(Vec::new()),
        ScalarType::Bool if !wide => Codes::U8(Vec::new()),
        ScalarType::U64 if !wide => Codes::U64(Vec::new()),
        ScalarType::I8 if !wide => Codes::I8(Vec::new()),
        ScalarType::I16 if !wide => Codes::I16(Vec::new()),
        ScalarType::I32 if !wide => Codes::I32(Vec::new()),
        ScalarType::I64 if !wide => Codes::I64(Vec::new()),
        ScalarType::TimestampUs if !wide => Codes::I64(Vec::new()),
        ScalarType::F32 if !wide => Codes::F32(Vec::new()),
        ScalarType::F64 if !wide => Codes::F64(Vec::new()),
        _ => Codes::U32(Vec::new()),
    }
}

impl ScopedColumnSpec {
    /// Whether the column is stored: something filters by it or reads it.
    pub open spec fn owes_extent(&self) -> bool {
        self.filterable || self.has_value_column
    }

    /// The column as a value column.
    pub open spec fn as_values(&self) -> FilterColumnSpec {
        FilterColumnSpec {
            index: self.index,
            name: self.name,
            ty: self.ty,
            category: self.category,
        }
    }

    /// What the column's cells of a plan fail with.
    pub open spec fn failure(&self, plan: FlushPlan) -> Option<FlushFailed> {
        if !self.owes_extent() {
            None
        } else {
            let entities = first_some(
                plan.scoped_order(),
                |r: (u64, BufferedItem)| entity_failure(r),
            );
            if entities is Some {
                entities
            } else if self.text {
                first_some(
                    plan.scoped_cells(self.index),
                    |r: (u32, &Scalar)| text_failure(*r.1, self.name),
                )
            } else {
                self.as_values().rows_failure(plan.scoped_cells(self.index))
            }
        }
    }

    /// Whether `base` is the empty base the column starts from.
    pub open spec fn starts_from(&self, base: EmptyBase) -> bool {
        if self.text {
            base is Text
        } else {
            match base {
                EmptyBase::Text => false,
                EmptyBase::Values { codes, dict, postings } => codes.width() == width_of(
                    self.ty,
                    self.category,
                ) && codes.slots() =~= Seq::<int>::empty() && dict == (self.ty is Keyword)
                    && postings == self.category,
            }
        }
    }

    /// Whether `column` is this column of a plan.
    pub open spec fn writes(
        &self,
        plan: FlushPlan,
        tokens: Seq<Vec<String>>,
        column: ScopedColumn,
    ) -> bool {
        &&& column.created == (!self.has_base && (self.owes_extent() || self.render))
        &&& match column.base {
            None => self.has_base || !self.owes_extent(),
            Some(base) => !self.has_base && self.owes_extent() && self.starts_from(base),
        }
        &&& match column.written {
            ScopedWritten::Nothing => !self.owes_extent(),
            ScopedWritten::Text(layer) => self.owes_extent() && self.text && text_describes(
                plan.scoped_cells(self.index),
                tokens,
                layer,
            ),
            ScopedWritten::Values(values) => self.owes_extent() && !self.text
                && self.as_values().gathers(plan.scoped_cells(self.index), values),
        }
    }

    fn empty_base(&self) -> (base: EmptyBase)
        ensures
            self.starts_from(base),
    {
        if self.text {
            EmptyBase::Text
        } else {
            EmptyBase::Values {
                codes: empty_codes(self.ty, self.category),
                dict: self.ty == ScalarType::Keyword,
                postings: self.category,
            }
        }
    }

    /// One group-scoped column of a plan. `tokens` holds the analysed tokens of each row's prose,
    /// in scoped order, where the column holds prose.
    pub fn write(&self, plan: &FlushPlan, tokens: &Vec<Vec<String>>) -> (out: Result<
        ScopedColumn,
        FlushFailed,
    >)
        requires
            self.owes_extent() && !self.text ==> self.as_values().storable(),
            self.owes_extent() && self.text ==> tokens@.len() == plan.scoped_order().len(),
            plan.scoped_order().len() <= 0x1_0000_0000,
        ensures
            out is Err <==> self.failure(*plan) is Some,
            out matches Err(why) ==> self.failure(*plan) == Some(why),
            out matches Ok(column) ==> self.writes(*plan, tokens@, column),
    {
        let owes: bool = self.filterable || self.has_value_column;
        let created: bool = !self.has_base && (owes || self.render);
        if !owes {
            return Ok(ScopedColumn { created, base: None, written: ScopedWritten::Nothing });
        }
        let base = if self.has_base {
            None
        } else {
            Some(self.empty_base())
        };
        let rows = scoped_rows(self.index, plan)?;
        assert(rows@.len() == plan.scoped_order().len());
        if self.text {
            let layer = text_layer(&self.name, &rows, tokens)?;
            return Ok(ScopedColumn { created, base, written: ScopedWritten::Text(layer) });
        }
        let spec = FilterColumnSpec {
            index: self.index,
            name: self.name.clone(),
            ty: self.ty,
            category: self.category,
        };
        assert(spec == self.as_values());
        let values = extent_values(&spec, &rows)?;
        Ok(ScopedColumn { created, base, written: ScopedWritten::Values(values) })
    }
}

/// The group-scoped columns of a plan, in schema order. `tokens` holds, for each column that holds
/// prose, the analysed tokens of each row's prose in scoped order.
pub fn write_scoped_extents(
    plan: &FlushPlan,
    schema: &Vec<ScopedColumnSpec>,
    tokens: &Vec<Vec<Vec<String>>>,
) -> (out: Result<Vec<ScopedColumn>, FlushFailed>)
    requires
        tokens@.len() == schema@.len(),
        forall|i: int|
            0 <= i < schema@.len() && (#[trigger] schema@[i]).owes_extent() ==> if schema@[i].text {
                tokens@[i]@.len() == plan.scoped_order().len()
            } else {
                schema@[i].as_values().storable()
            },
        plan.scoped_order().len() <= 0x1_0000_0000,
    ensures
        out is Err <==> first_some(schema@, |s: ScopedColumnSpec| s.failure(*plan)) is Some,
        out matches Err(why) ==> first_some(schema@, |s: ScopedColumnSpec| s.failure(*plan))
            == Some(why),
        out matches Ok(columns) ==> columns@.len() == schema@.len() && forall|i: int|
            0 <= i < columns@.len() ==> schema@[i].writes(
                *plan,
                tokens@[i]@,
                #[trigger] columns@[i],
            ),
{
    let ghost f = |s: ScopedColumnSpec| s.failure(*plan);
    let mut columns: Vec<ScopedColumn> = Vec::new();
    let mut i: usize = 0;
    while i < schema.len()
        invariant
            i <= schema@.len(),
            tokens@.len() == schema@.len(),
            forall|k: int|
                0 <= k < schema@.len() && (#[trigger] schema@[k]).owes_extent() ==> if schema@[k].text {
                    tokens@[k]@.len() == plan.scoped_order().len()
                } else {
                    schema@[k].as_values().storable()
                },
            plan.scoped_order().len() <= 0x1_0000_0000,
            f == |s: ScopedColumnSpec| s.failure(*plan),
            first_some(schema@.take(i as int), f) is None,
            columns@.len() == i,
            forall|k: int|
                0 <= k < i ==> schema@[k].writes(*plan, tokens@[k]@, #[trigger] columns@[k]),
        decreases schema@.len() - i,
    {
        proof {
            crate::seqs::lemma_first_some_step(schema@, i as int, f);
        }
        match schema[i].write(plan, &tokens[i]) {
            Ok(column) => {
                columns.push(column);
            },
            Err(why) => {
                proof {
                    crate::seqs::lemma_first_some_stays(schema@, i + 1, f);
                }
                return Err(why);
            },
        }
        i += 1;
    }
    assert(schema@.take(i as int) =~= schema@);
    Ok(columns)
}

/// A view is given a column that it does not have where the column is filtered by, read or
/// rendered; its empty base is written where it is filtered by or read. What is filtered by or
/// read is written as prose where the column holds prose and as values where it does not, and
/// nothing else is written.
pub proof fn law_a_scoped_column_is_written_as_it_is_declared(
    spec: ScopedColumnSpec,
    plan: FlushPlan,
    tokens: Seq<Vec<String>>,
    column: ScopedColumn,
)
    requires
        spec.writes(plan, tokens, column),
    ensures
        column.created <==> !spec.has_base && (spec.filterable || spec.has_value_column
            || spec.render),
        column.base is Some <==> !spec.has_base && (spec.filterable || spec.has_value_column),
        column.written is Nothing <==> !spec.filterable && !spec.has_value_column,
        column.written is Text ==> spec.text,
        column.written is Values ==> !spec.text,
        column.base matches Some(base) ==> {
            &&& base is Text <==> spec.text
            &&& base matches EmptyBase::Values { codes, dict, postings } ==> {
                &&& codes.slots().len() == 0
                &&& dict <==> spec.ty is Keyword
                &&& postings <==> spec.category
            }
        },
{
}

/// A group-scoped column is refused only where it is filtered by or read. An entity past what a
/// column numbers is named before anything wrong with a cell.
pub proof fn law_a_scoped_column_is_refused_on_its_first_wide_entity(
    spec: ScopedColumnSpec,
    plan: FlushPlan,
) -> (at: int)
    ensures
        ({
            let rows = plan.scoped_order();
            let stored = spec.filterable || spec.has_value_column;
            &&& !stored ==> spec.failure(plan) is None
            &&& 0 <= at <= rows.len()
            &&& forall|i: int| 0 <= i < at ==> (#[trigger] rows[i]).0 <= u32::MAX
            &&& stored && at < rows.len() ==> rows[at].0 > u32::MAX && spec.failure(plan) == Some(
                FlushFailed::EntityTooWide { entity: rows[at].0 },
            )
        }),
{
    let rows = plan.scoped_order();
    let f = |r: (u64, BufferedItem)| entity_failure(r);
    let first = crate::seqs::lemma_first_some_at(rows, f);
    let at: int = if first_some(rows, f) is Some {
        first
    } else {
        rows.len() as int
    };
    assert forall|i: int| 0 <= i < at implies (#[trigger] rows[i]).0 <= u32::MAX by {
        assert(f(rows[i]) is None);
    }
    at
}

/// A group-scoped column is written from the cells that the rows hold at the column's own scoped
/// position.
pub proof fn law_a_scoped_column_is_of_its_own_cells(
    spec: ScopedColumnSpec,
    plan: FlushPlan,
    tokens: Seq<Vec<String>>,
    column: ScopedColumn,
    cells: Seq<(u32, &Scalar)>,
)
    requires
        spec.writes(plan, tokens, column),
        cells.len() == plan.scoped_order().len(),
        forall|n: int|
            0 <= n < cells.len() ==> (#[trigger] cells[n]) == (
                plan.scoped_order()[n].0 as u32,
                if spec.index < plan.scoped_order()[n].1.scoped@.len() {
                    &plan.scoped_order()[n].1.scoped@[spec.index as int]
                } else {
                    &Scalar::Null
                },
            ),
    ensures
        column.written matches ScopedWritten::Text(layer) ==> text_describes(cells, tokens, layer),
        column.written matches ScopedWritten::Values(values) ==> (FilterColumnSpec {
            index: spec.index,
            name: spec.name,
            ty: spec.ty,
            category: spec.category,
        }).gathers(cells, values),
{
    assert(cells =~= plan.scoped_cells(spec.index));
}

} // verus!
