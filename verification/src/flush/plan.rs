//! The flush plan: which buffered rows and fills one flush of one view writes.

use std::collections::HashSet;

use vstd::prelude::*;

use crate::order::{
    lemma_sorted_map, lemma_sorted_members, lemma_stably_sorted, stable_sort, stably_sorted,
    tied_with, ties, Ranked,
};
use crate::scalar::{absent, copy_cells, scalar_is_absent, Declared, Scalar};
use crate::seqs::{
    lemma_filter_empty, lemma_filter_members, lemma_filter_positions, lemma_filter_step,
    lemma_map_filter, lemma_take_all,
};
use crate::text::{find, lemma_string_ties_are_equal, lists, same};

verus! {

/// A buffered row of one view. Coordinates are carried as bit patterns.
#[derive(Clone, Debug, PartialEq, Eq)]
pub struct BufferedItem {
    pub terms: Vec<u32>,
    pub view: String,
    /// A row of an entity that another view introduced: it has a place in this view and no terms
    /// or values of its own.
    pub join: bool,
    pub x: u64,
    pub y: u64,
    pub scalars: Vec<Scalar>,
    pub scoped: Vec<Scalar>,
    pub external_id: Option<Vec<u8>>,
    pub wal_pos: Option<u64>,
}

/// A [`BufferedItem`] as a value.
#[verifier::ext_equal]
pub struct ItemModel {
    pub terms: Seq<u32>,
    pub view: Seq<char>,
    pub join: bool,
    pub x: u64,
    pub y: u64,
    pub scalars: Seq<Scalar>,
    pub scoped: Seq<Scalar>,
    pub external_id: Option<Seq<u8>>,
    pub wal_pos: Option<u64>,
}

impl View for BufferedItem {
    type V = ItemModel;

    open spec fn view(&self) -> ItemModel {
        ItemModel {
            terms: self.terms@,
            view: self.view@,
            join: self.join,
            x: self.x,
            y: self.y,
            scalars: self.scalars@,
            scoped: self.scoped@,
            external_id: match self.external_id {
                Some(id) => Some(id@),
                None => None,
            },
            wal_pos: self.wal_pos,
        }
    }
}

impl BufferedItem {
    fn copy(&self) -> (item: BufferedItem)
        ensures
            item@ == self@,
    {
        let external_id = match &self.external_id {
            Some(id) => Some(id.clone()),
            None => None,
        };
        let item = BufferedItem {
            terms: self.terms.clone(),
            view: self.view.clone(),
            join: self.join,
            x: self.x,
            y: self.y,
            scalars: copy_cells(&self.scalars),
            scoped: copy_cells(&self.scoped),
            external_id,
            wal_pos: self.wal_pos,
        };
        assert(item@ =~= self@);
        item
    }
}

/// Values for an entity that already has its row, carried by a row of `view`.
#[derive(Clone, Debug, PartialEq, Eq)]
pub struct Fill {
    pub view: String,
    pub scalars: Vec<Scalar>,
    /// For each declared position, whether a flushed home already holds a present value of the
    /// entity there. Positions past its end are not held.
    pub held: Vec<bool>,
    pub wal_pos: Option<u64>,
}

/// Group-scoped values for an entity that already has its row.
#[derive(Clone, Debug, PartialEq, Eq)]
pub struct ScopedFill {
    pub view: String,
    pub scoped: Vec<Scalar>,
    /// As [`Fill::held`], by the position of the scoped family.
    pub held: Vec<bool>,
    pub wal_pos: Option<u64>,
}

/// What one flush is planned from: the buffer, the deleted entities, the partitions and the
/// declared columns of one generation.
pub struct FlushSource {
    pub rows: Vec<(u64, BufferedItem)>,
    pub fills: Vec<(u64, Fill)>,
    /// By entity and owning view.
    pub scoped_fills: Vec<((u64, String), ScopedFill)>,
    pub deleted: HashSet<u64>,
    /// Whether each partition has stepped down.
    pub stepped_down: Vec<bool>,
    /// The live views of every partition.
    pub live_views: Vec<String>,
    pub declared: Vec<Declared>,
    /// The scoped families of the view being flushed.
    pub scoped_families: Vec<Declared>,
}

/// What one flush writes, ascending by entity.
#[derive(Debug, PartialEq, Eq)]
pub struct FlushPlan {
    /// The rows, each of which becomes a row of the segment.
    pub items: Vec<(u64, BufferedItem)>,
    /// The fills with a value left to write.
    pub fills: Vec<(u64, BufferedItem)>,
    /// Every entity whose fill this flush settles, one that writes nothing included.
    pub consumed_fills: Vec<u64>,
    pub consumed_scoped_fills: Vec<(u64, String)>,
}

/// Why nothing is flushed.
#[derive(Clone, Copy, Debug, PartialEq, Eq, Structural)]
pub enum NoFlush {
    NothingToFlush,
    WalPoisoned,
    OverlayDiverged,
    SteppedDown,
}

/// Entities with their items, as values.
pub open spec fn models(s: Seq<(u64, BufferedItem)>) -> Seq<(u64, ItemModel)> {
    s.map_values(|p: (u64, BufferedItem)| (p.0, p.1@))
}

/// `cells` padded with nulls to `arity`.
pub open spec fn padded(cells: Seq<Scalar>, arity: nat) -> Seq<Scalar> {
    Seq::new(
        if cells.len() < arity {
            arity
        } else {
            cells.len()
        },
        |i: int|
            if i < cells.len() {
                cells[i]
            } else {
                Scalar::Null
            },
    )
}

/// An item with its declared cells padded to `arity`.
pub open spec fn padded_item(item: ItemModel, arity: nat) -> ItemModel {
    ItemModel { scalars: padded(item.scalars, arity), ..item }
}

/// A fill's cells, without the present ones a flushed home already holds.
pub open spec fn unheld(cells: Seq<Scalar>, declared: Seq<Declared>, held: Seq<bool>) -> Seq<
    Scalar,
> {
    Seq::new(
        cells.len(),
        |i: int|
            if i < declared.len() && !absent(cells[i], declared[i]) && i < held.len() && held[i] {
                Scalar::Null
            } else {
                cells[i]
            },
    )
}

/// Whether some cell holds something.
pub open spec fn writes_something(cells: Seq<Scalar>) -> bool {
    exists|i: int| 0 <= i < cells.len() && !(#[trigger] cells[i] is Null)
}

/// The row a fill is written as: values and a position in the log, and nothing of its own to place.
pub open spec fn fill_model(
    view: Seq<char>,
    scalars: Seq<Scalar>,
    scoped: Seq<Scalar>,
    wal_pos: Option<u64>,
) -> ItemModel {
    ItemModel {
        terms: Seq::empty(),
        view,
        join: false,
        x: 0,
        y: 0,
        scalars,
        scoped,
        external_id: None,
        wal_pos,
    }
}

impl FlushSource {
    /// Whether a plan is that of a flush of `view`.
    pub open spec fn plans(&self, view: String, plan: FlushPlan) -> bool {
        &&& models(plan.items@) == stably_sorted(
            padded_rows(models(self.taken_rows(view@)), self.declared@.len()),
        )
        &&& models(plan.fills@) == stably_sorted(
            padded_rows(self.fill_rows(view), self.declared@.len()),
        )
        &&& plan.consumed_fills@ == self.taken_fills(view).map_values(|f: (u64, Fill)| f.0)
        &&& owners(plan.consumed_scoped_fills@) == self.taken_scoped_fills(view@).map_values(
            |f: ((u64, String), ScopedFill)| (f.0.0, f.0.1@),
        )
    }

    /// Whether any partition has stepped down.
    pub open spec fn any_stepped_down(&self) -> bool {
        exists|i: int| 0 <= i < self.stepped_down@.len() && #[trigger] self.stepped_down@[i]
    }

    /// The buffered rows of `view` whose entity is not deleted, in buffer order.
    pub open spec fn taken_rows(&self, view: Seq<char>) -> Seq<(u64, BufferedItem)> {
        self.rows@.filter(
            |r: (u64, BufferedItem)| r.1.view@ == view && !self.deleted@.contains(r.0),
        )
    }

    /// Whether `view` is the least of the live views, and so settles the fills of views no longer
    /// live.
    pub open spec fn takes_orphans(&self, view: String) -> bool {
        &&& lists(self.live_views@, view@)
        &&& forall|i: int|
            0 <= i < self.live_views@.len() ==> view.precedes(#[trigger] self.live_views@[i])
    }

    /// The fills a flush of `view` settles, in buffer order.
    pub open spec fn taken_fills(&self, view: String) -> Seq<(u64, Fill)> {
        self.fills@.filter(
            |f: (u64, Fill)|
                (f.1.view@ == view@ || (self.takes_orphans(view) && !lists(
                    self.live_views@,
                    f.1.view@,
                ))) && !self.deleted@.contains(f.0),
        )
    }

    /// The scoped fills a flush of `view` settles, in buffer order.
    pub open spec fn taken_scoped_fills(&self, view: Seq<char>) -> Seq<((u64, String), ScopedFill)> {
        self.scoped_fills@.filter(
            |f: ((u64, String), ScopedFill)| f.1.view@ == view && !self.deleted@.contains(f.0.0),
        )
    }

    /// A fill as the row it is written as.
    pub open spec fn fill_row(&self, f: (u64, Fill)) -> (u64, ItemModel) {
        (
            f.0,
            fill_model(
                f.1.view@,
                unheld(f.1.scalars@, self.declared@, f.1.held@),
                Seq::empty(),
                f.1.wal_pos,
            ),
        )
    }

    /// A scoped fill as the row it is written as.
    pub open spec fn scoped_fill_row(&self, f: ((u64, String), ScopedFill)) -> (u64, ItemModel) {
        (
            f.0.0,
            fill_model(
                f.1.view@,
                Seq::empty(),
                unheld(f.1.scoped@, self.scoped_families@, f.1.held@),
                f.1.wal_pos,
            ),
        )
    }

    /// The rows of the fills with a value left to write: the entity fills, then the scoped ones.
    pub open spec fn fill_rows(&self, view: String) -> Seq<(u64, ItemModel)> {
        self.taken_fills(view).map_values(|f: (u64, Fill)| self.fill_row(f)).filter(
            |r: (u64, ItemModel)| writes_something(r.1.scalars),
        ) + self.taken_scoped_fills(view@).map_values(
            |f: ((u64, String), ScopedFill)| self.scoped_fill_row(f),
        ).filter(|r: (u64, ItemModel)| writes_something(r.1.scoped))
    }

    /// Why a flush of `view` is refused, if it is: a poisoned log first, then a diverged overlay,
    /// then a stepped-down partition, then an empty plan.
    pub open spec fn refusal(&self, view: String, poisoned: bool, diverged: bool) -> Option<
        NoFlush,
    > {
        if poisoned {
            Some(NoFlush::WalPoisoned)
        } else if diverged {
            Some(NoFlush::OverlayDiverged)
        } else if self.any_stepped_down() {
            Some(NoFlush::SteppedDown)
        } else if self.taken_rows(view@).len() == 0 && self.taken_fills(view).len() == 0
            && self.taken_scoped_fills(view@).len() == 0 {
            Some(NoFlush::NothingToFlush)
        } else {
            None
        }
    }
}

/// Rows padded to `arity`.
pub open spec fn padded_rows(rows: Seq<(u64, ItemModel)>, arity: nat) -> Seq<(u64, ItemModel)> {
    rows.map_values(|r: (u64, ItemModel)| (r.0, padded_item(r.1, arity)))
}

fn pad_to_schema(cells: &mut Vec<Scalar>, arity: usize)
    ensures
        final(cells)@ == padded(old(cells)@, arity as nat),
{
    let ghost before = cells@;
    while cells.len() < arity
        invariant
            before.len() <= cells@.len(),
            cells@.len() <= arity || cells@.len() == before.len(),
            cells@ == padded(before, cells@.len()),
        decreases arity - cells@.len(),
    {
        cells.push(Scalar::Null);
        assert(cells@ =~= padded(before, cells@.len()));
    }
    assert(cells@ =~= padded(before, arity as nat));
}

fn any_true(flags: &Vec<bool>) -> (yes: bool)
    ensures
        yes == exists|i: int| 0 <= i < flags@.len() && #[trigger] flags@[i],
{
    let mut i: usize = 0;
    while i < flags.len()
        invariant
            i <= flags@.len(),
            forall|k: int| 0 <= k < i ==> !#[trigger] flags@[k],
        decreases flags@.len() - i,
    {
        if flags[i] {
            assert(flags@[i as int]);
            return true;
        }
        i += 1;
    }
    false
}

fn any_value(cells: &Vec<Scalar>) -> (yes: bool)
    ensures
        yes == writes_something(cells@),
{
    let mut i: usize = 0;
    while i < cells.len()
        invariant
            i <= cells@.len(),
            forall|k: int| 0 <= k < i ==> #[trigger] cells@[k] is Null,
        decreases cells@.len() - i,
    {
        if !cells[i].is_null() {
            assert(!(cells@[i as int] is Null));
            return true;
        }
        i += 1;
    }
    false
}

fn without_held(cells: &Vec<Scalar>, declared: &Vec<Declared>, held: &Vec<bool>) -> (out: Vec<
    Scalar,
>)
    ensures
        out@ == unheld(cells@, declared@, held@),
{
    let mut out: Vec<Scalar> = Vec::new();
    let mut i: usize = 0;
    while i < cells.len()
        invariant
            i <= cells@.len(),
            out@.len() == i,
            forall|k: int| 0 <= k < i ==> out@[k] == unheld(cells@, declared@, held@)[k],
        decreases cells@.len() - i,
    {
        if i < declared.len() && !scalar_is_absent(&cells[i], &declared[i]) && i < held.len()
            && held[i] {
            out.push(Scalar::Null);
        } else {
            out.push(cells[i].copy());
        }
        i += 1;
    }
    assert(out@ =~= unheld(cells@, declared@, held@));
    out
}

/// The row a fill is written as.
fn fill_item(view: &String, scalars: Vec<Scalar>, scoped: Vec<Scalar>, wal_pos: Option<u64>) -> (item:
    BufferedItem)
    ensures
        item@ == fill_model(view@, scalars@, scoped@, wal_pos),
{
    let item = BufferedItem {
        terms: Vec::new(),
        view: view.clone(),
        join: false,
        x: 0,
        y: 0,
        scalars,
        scoped,
        external_id: None,
        wal_pos,
    };
    assert(item@ =~= fill_model(view@, scalars@, scoped@, wal_pos));
    item
}

/// Sorting items sorts their values.
proof fn lemma_models_sorted(from: Seq<(u64, BufferedItem)>)
    ensures
        models(stably_sorted(from)) == stably_sorted(models(from)),
{
    lemma_sorted_map(from, |p: (u64, BufferedItem)| (p.0, p.1@));
}

/// The rows with their declared cells padded, sorted by entity.
fn padded_and_sorted(rows: Vec<(u64, BufferedItem)>, arity: usize) -> (out: Vec<
    (u64, BufferedItem),
>)
    ensures
        models(out@) == stably_sorted(padded_rows(models(rows@), arity as nat)),
{
    let ghost whole = rows@;
    let mut rest = rows;
    let mut back: Vec<(u64, BufferedItem)> = Vec::new();
    while rest.len() > 0
        invariant
            rest@.len() + back@.len() == whole.len(),
            rest@ == whole.take(rest@.len() as int),
            forall|k: int|
                0 <= k < back@.len() ==> (#[trigger] back@[k]).0 == whole[whole.len() - 1 - k].0
                    && back@[k].1@ == padded_item(whole[whole.len() - 1 - k].1@, arity as nat),
        decreases rest.len(),
    {
        let ghost before = rest@;
        if let Some(row) = rest.pop() {
            let (entity, item) = row;
            assert(before[before.len() - 1] == whole[before.len() - 1]);
            assert(rest@ =~= whole.take(rest@.len() as int));
            let mut item = item;
            pad_to_schema(&mut item.scalars, arity);
            assert(item@ =~= padded_item(row.1@, arity as nat));
            back.push((entity, item));
        }
    }
    let ready = crate::order::reversed(back);
    assert(models(ready@) =~= padded_rows(models(whole), arity as nat));
    let out = stable_sort(ready);
    proof {
        lemma_models_sorted(ready@);
    }
    out
}

impl FlushSource {
    fn take_rows(&self, view: &str) -> (out: Vec<(u64, BufferedItem)>)
        ensures
            models(out@) == models(self.taken_rows(view@)),
    {
        let mut out: Vec<(u64, BufferedItem)> = Vec::new();
        let ghost p = |r: (u64, BufferedItem)| r.1.view@ == view@ && !self.deleted@.contains(r.0);
        proof {
            lemma_filter_empty(self.rows@, p);
        }
        let mut i: usize = 0;
        while i < self.rows.len()
            invariant
                i <= self.rows@.len(),
                p == |r: (u64, BufferedItem)|
                    r.1.view@ == view@ && !self.deleted@.contains(r.0),
                models(out@) == models(self.rows@.take(i as int).filter(p)),
            decreases self.rows@.len() - i,
        {
            let row = &self.rows[i];
            proof {
                lemma_filter_step(self.rows@, i as int, p);
            }
            if same(row.1.view.as_str(), view) && !self.deleted.contains(&row.0) {
                let ghost before = out@;
                out.push((row.0, row.1.copy()));
                assert(models(out@) =~= models(before).push((row.0, row.1@)));
                assert(models(self.rows@.take(i + 1).filter(p)) =~= models(
                    self.rows@.take(i as int).filter(p),
                ).push((row.0, row.1@)));
            }
            i += 1;
        }
        proof {
            lemma_take_all(self.rows@);
        }
        out
    }

    fn is_least_live(&self, view: &String) -> (yes: bool)
        ensures
            yes == self.takes_orphans(*view),
    {
        if find(&self.live_views, view.as_str()).is_none() {
            return false;
        }
        let mut i: usize = 0;
        while i < self.live_views.len()
            invariant
                i <= self.live_views@.len(),
                lists(self.live_views@, view@),
                forall|k: int| 0 <= k < i ==> view.precedes(#[trigger] self.live_views@[k]),
            decreases self.live_views@.len() - i,
        {
            if !view.at_most(&self.live_views[i]) {
                assert(!view.precedes(self.live_views@[i as int]));
                return false;
            }
            i += 1;
        }
        true
    }

    /// The settled entities, and the rows of the fills that write something.
    fn take_fills(&self, view: &String) -> (out: (Vec<u64>, Vec<(u64, BufferedItem)>))
        ensures
            out.0@ == self.taken_fills(*view).map_values(|f: (u64, Fill)| f.0),
            models(out.1@) == self.taken_fills(*view).map_values(
                |f: (u64, Fill)| self.fill_row(f),
            ).filter(|r: (u64, ItemModel)| writes_something(r.1.scalars)),
    {
        let orphans: bool = self.is_least_live(view);
        let mut consumed: Vec<u64> = Vec::new();
        let mut rows: Vec<(u64, BufferedItem)> = Vec::new();
        let ghost p = |f: (u64, Fill)|
            (f.1.view@ == view@ || (self.takes_orphans(*view) && !lists(
                self.live_views@,
                f.1.view@,
            ))) && !self.deleted@.contains(f.0);
        let ghost entity = |f: (u64, Fill)| f.0;
        let ghost row_of = |f: (u64, Fill)| self.fill_row(f);
        let ghost writes = |r: (u64, ItemModel)| writes_something(r.1.scalars);
        let ghost mut taken = self.fills@.take(0).filter(p);
        proof {
            lemma_filter_empty(self.fills@, p);
            reveal(Seq::filter);
            assert(taken.map_values(row_of).filter(writes) =~= models(rows@));
        }
        let mut i: usize = 0;
        while i < self.fills.len()
            invariant
                i <= self.fills@.len(),
                orphans == self.takes_orphans(*view),
                p == |f: (u64, Fill)|
                    (f.1.view@ == view@ || (self.takes_orphans(*view) && !lists(
                        self.live_views@,
                        f.1.view@,
                    ))) && !self.deleted@.contains(f.0),
                entity == |f: (u64, Fill)| f.0,
                row_of == |f: (u64, Fill)| self.fill_row(f),
                writes == |r: (u64, ItemModel)| writes_something(r.1.scalars),
                taken == self.fills@.take(i as int).filter(p),
                consumed@ == taken.map_values(entity),
                models(rows@) == taken.map_values(row_of).filter(writes),
            decreases self.fills@.len() - i,
        {
            let fill = &self.fills[i];
            proof {
                lemma_filter_step(self.fills@, i as int, p);
            }
            let mine: bool = same(fill.1.view.as_str(), view.as_str()) || (orphans && find(
                &self.live_views,
                fill.1.view.as_str(),
            ).is_none());
            if mine && !self.deleted.contains(&fill.0) {
                consumed.push(fill.0);
                let scalars = without_held(&fill.1.scalars, &self.declared, &fill.1.held);
                let writes_any: bool = any_value(&scalars);
                let item = fill_item(&fill.1.view, scalars, Vec::new(), fill.1.wal_pos);
                let ghost rows0 = rows@;
                let ghost grown = taken.push(self.fills@[i as int]);
                assert((fill.0, item@) =~= self.fill_row(*fill));
                if writes_any {
                    rows.push((fill.0, item));
                    assert(models(rows@) =~= models(rows0).push((fill.0, item@)));
                }
                proof {
                    assert(grown.map_values(entity) =~= taken.map_values(entity).push(fill.0));
                    assert(grown.map_values(row_of) =~= taken.map_values(row_of).push(
                        self.fill_row(*fill),
                    ));
                    crate::order::lemma_filter_push(
                        taken.map_values(row_of),
                        self.fill_row(*fill),
                        writes,
                    );
                    taken = grown;
                }
            }
            i += 1;
        }
        proof {
            lemma_take_all(self.fills@);
        }
        (consumed, rows)
    }

    /// As [`Self::take_fills`], of the scoped fills.
    fn take_scoped_fills(&self, view: &String) -> (out: (
        Vec<(u64, String)>,
        Vec<(u64, BufferedItem)>,
    ))
        ensures
            owners(out.0@) == self.taken_scoped_fills(view@).map_values(
                |f: ((u64, String), ScopedFill)| (f.0.0, f.0.1@),
            ),
            models(out.1@) == self.taken_scoped_fills(view@).map_values(
                |f: ((u64, String), ScopedFill)| self.scoped_fill_row(f),
            ).filter(|r: (u64, ItemModel)| writes_something(r.1.scoped)),
    {
        let mut consumed: Vec<(u64, String)> = Vec::new();
        let mut rows: Vec<(u64, BufferedItem)> = Vec::new();
        let ghost p = |f: ((u64, String), ScopedFill)|
            f.1.view@ == view@ && !self.deleted@.contains(f.0.0);
        let ghost owner = |f: ((u64, String), ScopedFill)| (f.0.0, f.0.1@);
        let ghost row_of = |f: ((u64, String), ScopedFill)| self.scoped_fill_row(f);
        let ghost writes = |r: (u64, ItemModel)| writes_something(r.1.scoped);
        let ghost mut taken = self.scoped_fills@.take(0).filter(p);
        proof {
            lemma_filter_empty(self.scoped_fills@, p);
            reveal(Seq::filter);
            assert(taken.map_values(row_of).filter(writes) =~= models(rows@));
            assert(taken.map_values(owner) =~= owners(consumed@));
        }
        let mut i: usize = 0;
        while i < self.scoped_fills.len()
            invariant
                i <= self.scoped_fills@.len(),
                p == |f: ((u64, String), ScopedFill)|
                    f.1.view@ == view@ && !self.deleted@.contains(f.0.0),
                owner == |f: ((u64, String), ScopedFill)| (f.0.0, f.0.1@),
                row_of == |f: ((u64, String), ScopedFill)| self.scoped_fill_row(f),
                writes == |r: (u64, ItemModel)| writes_something(r.1.scoped),
                taken == self.scoped_fills@.take(i as int).filter(p),
                owners(consumed@) == taken.map_values(owner),
                models(rows@) == taken.map_values(row_of).filter(writes),
            decreases self.scoped_fills@.len() - i,
        {
            let fill = &self.scoped_fills[i];
            proof {
                lemma_filter_step(self.scoped_fills@, i as int, p);
            }
            if same(fill.1.view.as_str(), view.as_str()) && !self.deleted.contains(&fill.0.0) {
                let ghost consumed0 = consumed@;
                consumed.push((fill.0.0, fill.0.1.clone()));
                assert(owners(consumed@) =~= owners(consumed0).push((fill.0.0, fill.0.1@)));
                let scoped = without_held(&fill.1.scoped, &self.scoped_families, &fill.1.held);
                let writes_any: bool = any_value(&scoped);
                let item = fill_item(&fill.1.view, Vec::new(), scoped, fill.1.wal_pos);
                let ghost rows0 = rows@;
                let ghost grown = taken.push(self.scoped_fills@[i as int]);
                assert((fill.0.0, item@) =~= self.scoped_fill_row(*fill));
                if writes_any {
                    rows.push((fill.0.0, item));
                    assert(models(rows@) =~= models(rows0).push((fill.0.0, item@)));
                }
                proof {
                    assert(grown.map_values(owner) =~= taken.map_values(owner).push(
                        (fill.0.0, fill.0.1@),
                    ));
                    assert(grown.map_values(row_of) =~= taken.map_values(row_of).push(
                        self.scoped_fill_row(*fill),
                    ));
                    crate::order::lemma_filter_push(
                        taken.map_values(row_of),
                        self.scoped_fill_row(*fill),
                        writes,
                    );
                    taken = grown;
                }
            }
            i += 1;
        }
        proof {
            lemma_take_all(self.scoped_fills@);
        }
        (consumed, rows)
    }
}

/// Entities with an owning view, as values.
pub open spec fn owners(s: Seq<(u64, String)>) -> Seq<(u64, Seq<char>)> {
    s.map_values(|p: (u64, String)| (p.0, p.1@))
}

/// Plan a flush of `view`.
///
/// Every row of the view is planned whose entity is not deleted, a suppressed one included: a
/// suppression is lifted by showing the row it hides. A fill is settled by a flush of its own view,
/// or where that view is no longer live, by a flush of the least live view.
pub fn plan_flush(
    source: &FlushSource,
    view: &String,
    wal_poisoned: bool,
    overlay_diverged: bool,
) -> (plan: Result<FlushPlan, NoFlush>)
    ensures
        plan matches Err(why) ==> source.refusal(*view, wal_poisoned, overlay_diverged) == Some(
            why,
        ),
        plan is Err <==> source.refusal(*view, wal_poisoned, overlay_diverged) is Some,
        plan matches Ok(plan) ==> source.plans(*view, plan),
{
    if wal_poisoned {
        return Err(NoFlush::WalPoisoned);
    }
    if overlay_diverged {
        return Err(NoFlush::OverlayDiverged);
    }
    if any_true(&source.stepped_down) {
        return Err(NoFlush::SteppedDown);
    }
    let items = source.take_rows(view.as_str());
    let (consumed_fills, fills) = source.take_fills(view);
    let (consumed_scoped_fills, scoped_fills) = source.take_scoped_fills(view);
    assert(models(items@).len() == source.taken_rows(view@).len());
    assert(owners(consumed_scoped_fills@).len() == source.taken_scoped_fills(view@).len());
    if items.len() == 0 && consumed_fills.len() == 0 && consumed_scoped_fills.len() == 0 {
        return Err(NoFlush::NothingToFlush);
    }
    let mut fills = fills;
    let mut scoped_fills = scoped_fills;
    let ghost entity_rows = fills@;
    let ghost scoped_rows = scoped_fills@;
    fills.append(&mut scoped_fills);
    assert(models(fills@) =~= models(entity_rows) + models(scoped_rows));
    let arity: usize = source.declared.len();
    Ok(
        FlushPlan {
            items: padded_and_sorted(items, arity),
            fills: padded_and_sorted(fills, arity),
            consumed_fills,
            consumed_scoped_fills,
        },
    )
}

/// A plan's rows are ascending by entity, none is of a deleted entity or of another view, each
/// carries a cell for every declared column, and every row of the view whose entity is not deleted
/// is among them.
pub proof fn law_a_plan_is_the_live_rows_in_order(
    source: FlushSource,
    view: Seq<char>,
    items: Seq<(u64, ItemModel)>,
)
    requires
        items == stably_sorted(padded_rows(models(source.taken_rows(view)), source.declared@.len())),
    ensures
        forall|i: int, j: int| 0 <= i < j < items.len() ==> items[i].0 <= items[j].0,
        forall|i: int|
            0 <= i < items.len() ==> !source.deleted@.contains((#[trigger] items[i]).0)
                && items[i].1.view == view && items[i].1.scalars.len() >= source.declared@.len(),
        forall|k: int|
            0 <= k < source.rows@.len() && (#[trigger] source.rows@[k]).1.view@ == view
                && !source.deleted@.contains(source.rows@[k].0) ==> items.contains(
                (
                    source.rows@[k].0,
                    padded_item(source.rows@[k].1@, source.declared@.len()),
                ),
            ),
{
    let arity = source.declared@.len();
    let p = |r: (u64, BufferedItem)| r.1.view@ == view && !source.deleted@.contains(r.0);
    let taken = source.taken_rows(view);
    let wide = padded_rows(models(taken), arity);
    lemma_stably_sorted(wide);
    assert forall|i: int, j: int| 0 <= i < j < items.len() implies items[i].0 <= items[j].0 by {
        assert(items[i].precedes(items[j]));
    }
    assert forall|i: int| 0 <= i < items.len() implies !source.deleted@.contains(
        (#[trigger] items[i]).0,
    ) && items[i].1.view == view && items[i].1.scalars.len() >= arity by {
        lemma_sorted_members(wide, items[i]);
        let k = choose|k: int| 0 <= k < wide.len() && wide[k] == items[i];
        lemma_filter_members(source.rows@, p, taken[k]);
        assert(taken.contains(taken[k]));
    }
    assert forall|k: int|
        0 <= k < source.rows@.len() && (#[trigger] source.rows@[k]).1.view@ == view
            && !source.deleted@.contains(source.rows@[k].0) implies items.contains(
        (source.rows@[k].0, padded_item(source.rows@[k].1@, arity)),
    ) by {
        let row = source.rows@[k];
        lemma_filter_members(source.rows@, p, row);
        assert(source.rows@.contains(row));
        assert(taken.contains(row));
        let i = choose|i: int| 0 <= i < taken.len() && taken[i] == row;
        let image = (row.0, padded_item(row.1@, arity));
        assert(wide[i] == image);
        lemma_sorted_members(wide, image);
    }
}

/// A planned row is a buffered row of the view, of an entity that is not deleted, just as it was
/// buffered: its entity, its point, its terms, its external id, its place in the log and its scoped
/// cells are the buffered row's, and so are its declared cells, with nothing at the declared
/// positions past them.
pub proof fn law_a_planned_row_is_a_buffered_row(
    source: FlushSource,
    view: String,
    plan: FlushPlan,
    i: int,
) -> (k: int)
    requires
        source.plans(view, plan),
        0 <= i < plan.items@.len(),
    ensures
        0 <= k < source.rows@.len(),
        ({
            let (entity, item) = plan.items@[i];
            let (of, row) = source.rows@[k];
            &&& entity == of
            &&& row.view@ == view@ && item.view@ == view@
            &&& !source.deleted@.contains(entity)
            &&& item.x == row.x && item.y == row.y
            &&& item.join == row.join
            &&& item.wal_pos == row.wal_pos
            &&& item.terms@ == row.terms@
            &&& item.external_id is Some <==> row.external_id is Some
            &&& item.external_id is Some ==> item.external_id->0@ == row.external_id->0@
            &&& item.scoped@ == row.scoped@
            &&& item.scalars@.len() >= row.scalars@.len()
            &&& item.scalars@.len() >= source.declared@.len()
            &&& item.scalars@.len() <= row.scalars@.len() || item.scalars@.len()
                <= source.declared@.len()
            &&& forall|c: int|
                0 <= c < row.scalars@.len() ==> (#[trigger] item.scalars@[c]) == row.scalars@[c]
            &&& forall|c: int|
                row.scalars@.len() <= c < item.scalars@.len() ==> (
                #[trigger] item.scalars@[c]) is Null
        }),
{
    let arity = source.declared@.len();
    let p = |r: (u64, BufferedItem)| r.1.view@ == view@ && !source.deleted@.contains(r.0);
    let taken = source.taken_rows(view@);
    let wide = padded_rows(models(taken), arity);
    let items = models(plan.items@);
    assert(items[i] == (plan.items@[i].0, plan.items@[i].1@));
    lemma_sorted_members(wide, items[i]);
    assert(items.contains(items[i]));
    let t = choose|t: int| 0 <= t < wide.len() && wide[t] == items[i];
    let at = lemma_filter_positions(source.rows@, p);
    let k = at[t];
    assert(taken[t] == source.rows@[k]);
    assert(p(source.rows@[k]));
    assert(wide[t] == (taken[t].0, padded_item(taken[t].1@, arity)));
    let (a, b) = (plan.items@[i].1, source.rows@[k].1);
    assert(a@ == padded_item(b@, arity));
    assert(a@.scalars == padded(b@.scalars, arity));
    assert(a@.external_id == b@.external_id);
    k
}

/// Every buffered row of the view whose entity is not deleted is planned, and as often as it is
/// buffered: an entity has as many planned rows as buffered ones in the view, or none where it is
/// deleted. The plan's rows ascend by entity.
pub proof fn law_every_live_row_is_planned_once(
    source: FlushSource,
    view: String,
    plan: FlushPlan,
    entity: u64,
)
    requires
        source.plans(view, plan),
    ensures
        plan.items@.filter(|r: (u64, BufferedItem)| r.0 == entity).len() == source.rows@.filter(
            |r: (u64, BufferedItem)|
                r.1.view@ == view@ && r.0 == entity && !source.deleted@.contains(entity),
        ).len(),
        forall|i: int, j: int|
            0 <= i < j < plan.items@.len() ==> (#[trigger] plan.items@[i]).0 <= (
            #[trigger] plan.items@[j]).0,
{
    let arity = source.declared@.len();
    let p = |r: (u64, BufferedItem)| r.1.view@ == view@ && !source.deleted@.contains(r.0);
    let own = |r: (u64, BufferedItem)| r.0 == entity;
    let of = |r: (u64, ItemModel)| r.0 == entity;
    let model = |r: (u64, BufferedItem)| (r.0, r.1@);
    let pad = |r: (u64, ItemModel)| (r.0, padded_item(r.1, arity));
    let taken = source.taken_rows(view@);
    let wide = padded_rows(models(taken), arity);
    let items = models(plan.items@);
    lemma_map_filter(plan.items@, model, of, own);
    lemma_map_filter(taken, model, of, own);
    lemma_map_filter(models(taken), pad, of, of);
    lemma_sorted_of_one_entity(wide, entity);
    lemma_filter_twice(source.rows@, p, own);
    assert(items =~= plan.items@.map_values(model));
    assert(models(taken) =~= taken.map_values(model));
    assert(wide =~= models(taken).map_values(pad));
    assert(taken == source.rows@.filter(p));
    assert(items.filter(of).len() == plan.items@.filter(own).len());
    assert(wide.filter(of).len() == taken.filter(own).len());
    assert(items.filter(of) == wide.filter(of));
    assert(source.rows@.filter(|r: (u64, BufferedItem)| p(r) && own(r)) == source.rows@.filter(
        |r: (u64, BufferedItem)|
            r.1.view@ == view@ && r.0 == entity && !source.deleted@.contains(entity),
    )) by {
        assert((|r: (u64, BufferedItem)| p(r) && own(r)) =~= (|r: (u64, BufferedItem)|
            r.1.view@ == view@ && r.0 == entity && !source.deleted@.contains(entity)));
    }
    lemma_stably_sorted(wide);
    assert forall|i: int, j: int| 0 <= i < j < plan.items@.len() implies (
    #[trigger] plan.items@[i]).0 <= (#[trigger] plan.items@[j]).0 by {
        assert(items[i].precedes(items[j]));
    }
}

proof fn lemma_filter_twice<T>(s: Seq<T>, p: spec_fn(T) -> bool, q: spec_fn(T) -> bool)
    ensures
        s.filter(p).filter(q) == s.filter(|x: T| p(x) && q(x)),
    decreases s.len(),
{
    reveal(Seq::filter);
    if s.len() > 0 {
        let front = s.drop_last();
        lemma_filter_twice(front, p, q);
        crate::order::lemma_filter_push(front.filter(p), s.last(), q);
    }
}

/// Of one entity, what a stable sort holds is what the list held, in its order.
proof fn lemma_sorted_of_one_entity(rows: Seq<(u64, ItemModel)>, entity: u64)
    ensures
        stably_sorted(rows).filter(|r: (u64, ItemModel)| r.0 == entity) == rows.filter(
            |r: (u64, ItemModel)| r.0 == entity,
        ),
{
    lemma_stably_sorted(rows);
    let t = stably_sorted(rows);
    let p = |r: (u64, ItemModel)| r.0 == entity;
    if exists|k: int| 0 <= k < rows.len() && (#[trigger] rows[k]).0 == entity {
        let k = choose|k: int| 0 <= k < rows.len() && (#[trigger] rows[k]).0 == entity;
        let x = rows[k];
        let q = |y: (u64, ItemModel)| ties(x, y);
        assert(tied_with(t, x) == tied_with(rows, x));
        assert(p =~= q);
    } else {
        assert(t.filter(p).len() == 0) by {
            if t.filter(p).len() > 0 {
                let at = lemma_filter_positions(t, p);
                lemma_sorted_members(rows, t[at[0]]);
                assert(t.contains(t[at[0]]));
                let k = choose|k: int| 0 <= k < rows.len() && rows[k] == t[at[0]];
                assert(rows[k].0 == entity);
            }
        }
        assert(rows.filter(p).len() == 0) by {
            if rows.filter(p).len() > 0 {
                let at = lemma_filter_positions(rows, p);
                assert(rows[at[0]].0 == entity);
            }
        }
        assert(t.filter(p) =~= rows.filter(p));
    }
}

/// The fills a flush settles are those of its own view, and where it is the least live view, those
/// whose view is no longer live, of entities that are not deleted: every one, and no other.
pub proof fn law_a_flush_settles_its_own_fills(
    source: FlushSource,
    view: String,
    plan: FlushPlan,
    entity: u64,
)
    requires
        source.plans(view, plan),
    ensures
        plan.consumed_fills@.contains(entity) ==> !source.deleted@.contains(entity) && exists|
            k: int,
        |
            0 <= k < source.fills@.len() && (#[trigger] source.fills@[k]).0 == entity && (
            source.fills@[k].1.view@ == view@ || forall|v: int|
                0 <= v < source.live_views@.len() ==> (#[trigger] source.live_views@[v])@
                    != source.fills@[k].1.view@),
        forall|k: int|
            0 <= k < source.fills@.len() && (#[trigger] source.fills@[k]).0 == entity
                && !source.deleted@.contains(entity) && source.fills@[k].1.view@ == view@
                ==> plan.consumed_fills@.contains(entity),
{
    let p = |f: (u64, Fill)|
        (f.1.view@ == view@ || (source.takes_orphans(view) && !lists(
            source.live_views@,
            f.1.view@,
        ))) && !source.deleted@.contains(f.0);
    let taken = source.taken_fills(view);
    let at = lemma_filter_positions(source.fills@, p);
    if plan.consumed_fills@.contains(entity) {
        let i = choose|i: int| 0 <= i < plan.consumed_fills@.len() && plan.consumed_fills@[i] == entity;
        assert(taken[i].0 == entity);
        assert(p(source.fills@[at[i]]));
    }
    assert forall|k: int|
        0 <= k < source.fills@.len() && (#[trigger] source.fills@[k]).0 == entity
            && !source.deleted@.contains(entity) && source.fills@[k].1.view@
            == view@ implies plan.consumed_fills@.contains(entity) by {
        assert(p(source.fills@[k]));
        let i = choose|i: int| 0 <= i < at.len() && at[i] == k;
        assert(plan.consumed_fills@[i] == taken[i].0);
    }
}

/// The fills of views no longer live are settled by one live view: no two take them, and it is a live
/// one.
pub proof fn law_orphaned_fills_are_settled_by_one_view(source: FlushSource, a: String, b: String)
    requires
        source.takes_orphans(a),
        source.takes_orphans(b),
    ensures
        a@ == b@,
        exists|v: int| 0 <= v < source.live_views@.len() && (#[trigger] source.live_views@[v])@ == a@,
{
    let i = choose|i: int| 0 <= i < source.live_views@.len() && (#[trigger] source.live_views@[i])@ == a@;
    let j = choose|j: int| 0 <= j < source.live_views@.len() && (#[trigger] source.live_views@[j])@ == b@;
    assert(a.precedes(source.live_views@[j]));
    assert(b.precedes(source.live_views@[i]));
    lemma_string_ties_are_equal(source.live_views@[i], source.live_views@[j]);
}

/// A row that a fill is written as is of the fill's entity, and carries of the fill's cells each that
/// no flushed home holds already, at its own position; it has no terms, no place and no external id
/// of its own, and writes something.
pub proof fn law_a_fill_is_written_at_its_own_positions(
    source: FlushSource,
    view: String,
    plan: FlushPlan,
    i: int,
) -> (k: int)
    requires
        source.plans(view, plan),
        0 <= i < plan.fills@.len(),
    ensures
        ({
            let (entity, item) = plan.fills@[i];
            &&& item.terms@.len() == 0
            &&& !item.join
            &&& item.external_id is None
            &&& !source.deleted@.contains(entity)
            &&& ({
                ||| 0 <= k < source.fills@.len() && source.fills@[k].0 == entity
                    && item.scoped@.len() == 0 && ({
                    let fill = source.fills@[k].1;
                    &&& item.wal_pos == fill.wal_pos
                    &&& item.scalars@.len() >= fill.scalars@.len()
                    &&& forall|c: int|
                        0 <= c < fill.scalars@.len() && !(c < fill.held@.len() && fill.held@[c])
                            ==> (#[trigger] item.scalars@[c]) == fill.scalars@[c]
                    &&& forall|c: int|
                        0 <= c < fill.scalars@.len() ==> (#[trigger] item.scalars@[c]) is Null
                            || item.scalars@[c] == fill.scalars@[c]
                    &&& forall|c: int|
                        fill.scalars@.len() <= c < item.scalars@.len() ==> (
                        #[trigger] item.scalars@[c]) is Null
                    &&& exists|c: int|
                        0 <= c < fill.scalars@.len() && !((#[trigger] item.scalars@[c]) is Null)
                })
                ||| 0 <= k < source.scoped_fills@.len() && source.scoped_fills@[k].0.0 == entity && ({
                    let fill = source.scoped_fills@[k].1;
                    &&& fill.view@ == view@
                    &&& item.wal_pos == fill.wal_pos
                    &&& item.scoped@.len() == fill.scoped@.len()
                    &&& forall|c: int|
                        0 <= c < fill.scoped@.len() && !(c < fill.held@.len() && fill.held@[c])
                            ==> (#[trigger] item.scoped@[c]) == fill.scoped@[c]
                    &&& forall|c: int|
                        0 <= c < fill.scoped@.len() ==> (#[trigger] item.scoped@[c]) is Null
                            || item.scoped@[c] == fill.scoped@[c]
                    &&& exists|c: int|
                        0 <= c < fill.scoped@.len() && !((#[trigger] item.scoped@[c]) is Null)
                    &&& forall|c: int|
                        0 <= c < item.scalars@.len() ==> (#[trigger] item.scalars@[c]) is Null
                })
            })
        }),
{
    let arity = source.declared@.len();
    let written = source.fill_rows(view);
    let wide = padded_rows(written, arity);
    let fills = models(plan.fills@);
    let (entity, item) = plan.fills@[i];
    assert(fills[i] == (entity, item@));
    lemma_sorted_members(wide, fills[i]);
    assert(fills.contains(fills[i]));
    let t = choose|t: int| 0 <= t < wide.len() && wide[t] == fills[i];
    assert(wide[t] == (written[t].0, padded_item(written[t].1, arity)));
    let p = |f: (u64, Fill)|
        (f.1.view@ == view@ || (source.takes_orphans(view) && !lists(
            source.live_views@,
            f.1.view@,
        ))) && !source.deleted@.contains(f.0);
    let q = |f: ((u64, String), ScopedFill)|
        f.1.view@ == view@ && !source.deleted@.contains(f.0.0);
    let row_of = |f: (u64, Fill)| source.fill_row(f);
    let scoped_of = |f: ((u64, String), ScopedFill)| source.scoped_fill_row(f);
    let writes = |r: (u64, ItemModel)| writes_something(r.1.scalars);
    let writes_scoped = |r: (u64, ItemModel)| writes_something(r.1.scoped);
    let first = source.taken_fills(view).map_values(row_of);
    let second = source.taken_scoped_fills(view@).map_values(scoped_of);
    assert(item@ == padded_item(written[t].1, arity));
    assert(item@.scalars == padded(written[t].1.scalars, arity));
    if t < first.filter(writes).len() {
        let at = lemma_filter_positions(first, writes);
        let of = lemma_filter_positions(source.fills@, p);
        let k = of[at[t]];
        assert(written[t] == first[at[t]]);
        assert(source.taken_fills(view)[at[t]] == source.fills@[k]);
        assert(p(source.fills@[k]));
        assert(writes(first[at[t]]));
        let fill = source.fills@[k].1;
        let kept = unheld(fill.scalars@, source.declared@, fill.held@);
        assert(written[t].1.scalars == kept);
        let c = choose|c: int| 0 <= c < kept.len() && !(#[trigger] kept[c] is Null);
        assert(item.scalars@[c] == kept[c]);
        k
    } else {
        let n = t - first.filter(writes).len();
        let at = lemma_filter_positions(second, writes_scoped);
        let of = lemma_filter_positions(source.scoped_fills@, q);
        let k = of[at[n]];
        assert(written[t] == second.filter(writes_scoped)[n]);
        assert(written[t] == second[at[n]]);
        assert(source.taken_scoped_fills(view@)[at[n]] == source.scoped_fills@[k]);
        assert(q(source.scoped_fills@[k]));
        assert(writes_scoped(second[at[n]]));
        let fill = source.scoped_fills@[k].1;
        let kept = unheld(fill.scoped@, source.scoped_families@, fill.held@);
        assert(written[t].1.scoped == kept);
        assert(item@.scoped == kept);
        let c = choose|c: int| 0 <= c < kept.len() && !(#[trigger] kept[c] is Null);
        assert(item.scoped@[c] == kept[c]);
        k
    }
}

/// A flush is refused exactly where the log is poisoned, the overlay has diverged, a partition has
/// stepped down, or nothing of the view waits: no live row, and no fill to settle.
pub proof fn law_a_flush_is_refused_where_it_may_not_run(
    source: FlushSource,
    view: String,
    poisoned: bool,
    diverged: bool,
)
    ensures
        ({
            let refusal = source.refusal(view, poisoned, diverged);
            let down = exists|i: int|
                0 <= i < source.stepped_down@.len() && #[trigger] source.stepped_down@[i];
            &&& refusal == Some(NoFlush::WalPoisoned) <==> poisoned
            &&& refusal == Some(NoFlush::OverlayDiverged) <==> !poisoned && diverged
            &&& refusal == Some(NoFlush::SteppedDown) <==> !poisoned && !diverged && down
            &&& refusal is None ==> !poisoned && !diverged && !down
            &&& !poisoned && !diverged && !down && (exists|k: int|
                0 <= k < source.rows@.len() && (#[trigger] source.rows@[k]).1.view@ == view@
                    && !source.deleted@.contains(source.rows@[k].0)) ==> refusal is None
            &&& !poisoned && !diverged && !down && (exists|k: int|
                0 <= k < source.fills@.len() && (#[trigger] source.fills@[k]).1.view@ == view@
                    && !source.deleted@.contains(source.fills@[k].0)) ==> refusal is None
            &&& !poisoned && !diverged && !down && (exists|k: int|
                0 <= k < source.scoped_fills@.len() && (
                #[trigger] source.scoped_fills@[k]).1.view@ == view@ && !source.deleted@.contains(
                    source.scoped_fills@[k].0.0,
                )) ==> refusal is None
        }),
{
    let p = |r: (u64, BufferedItem)| r.1.view@ == view@ && !source.deleted@.contains(r.0);
    let f = |f: (u64, Fill)|
        (f.1.view@ == view@ || (source.takes_orphans(view) && !lists(
            source.live_views@,
            f.1.view@,
        ))) && !source.deleted@.contains(f.0);
    let q = |f: ((u64, String), ScopedFill)|
        f.1.view@ == view@ && !source.deleted@.contains(f.0.0);
    let a = lemma_filter_positions(source.rows@, p);
    let b = lemma_filter_positions(source.fills@, f);
    let c = lemma_filter_positions(source.scoped_fills@, q);
    if exists|k: int|
        0 <= k < source.rows@.len() && (#[trigger] source.rows@[k]).1.view@ == view@
            && !source.deleted@.contains(source.rows@[k].0) {
        let k = choose|k: int|
            0 <= k < source.rows@.len() && (#[trigger] source.rows@[k]).1.view@ == view@
                && !source.deleted@.contains(source.rows@[k].0);
        assert(p(source.rows@[k]));
        assert(a.contains(k));
    }
    if exists|k: int|
        0 <= k < source.fills@.len() && (#[trigger] source.fills@[k]).1.view@ == view@
            && !source.deleted@.contains(source.fills@[k].0) {
        let k = choose|k: int|
            0 <= k < source.fills@.len() && (#[trigger] source.fills@[k]).1.view@ == view@
                && !source.deleted@.contains(source.fills@[k].0);
        assert(f(source.fills@[k]));
        assert(b.contains(k));
    }
    if exists|k: int|
        0 <= k < source.scoped_fills@.len() && (#[trigger] source.scoped_fills@[k]).1.view@ == view@
            && !source.deleted@.contains(source.scoped_fills@[k].0.0) {
        let k = choose|k: int|
            0 <= k < source.scoped_fills@.len() && (#[trigger] source.scoped_fills@[k]).1.view@
                == view@ && !source.deleted@.contains(source.scoped_fills@[k].0.0);
        assert(q(source.scoped_fills@[k]));
        assert(c.contains(k));
    }
}

} // verus!
