//! The orders a plan's rows are read in.

use vstd::prelude::*;

use crate::flush::plan::{BufferedItem, FlushPlan};
use crate::order::{
    lemma_sorted_map, lemma_sorted_members, lemma_stably_sorted, stable_sort, stably_sorted,
    tied_with, ties, Ranked,
};
use crate::seqs::{
    lemma_filter_empty, lemma_filter_positions, lemma_filter_step, lemma_take_all,
};

verus! {

/// Borrowed rows, as the rows.
pub open spec fn owned(s: Seq<&(u64, BufferedItem)>) -> Seq<(u64, BufferedItem)> {
    s.map_values(|r: &(u64, BufferedItem)| *r)
}

impl FlushPlan {
    /// The rows that carry terms and values of their own: every one that is not a join.
    pub open spec fn own_rows(&self) -> Seq<(u64, BufferedItem)> {
        self.items@.filter(|r: (u64, BufferedItem)| !r.1.join)
    }

    /// Every row a declared value is written from, ascending by entity, an entity's fill before
    /// its row.
    pub open spec fn value_order(&self) -> Seq<(u64, BufferedItem)> {
        stably_sorted(self.fills@ + self.own_rows())
    }

    /// Every row a group-scoped value is written from, joins included, ascending by entity, an
    /// entity's fill before its row.
    pub open spec fn scoped_order(&self) -> Seq<(u64, BufferedItem)> {
        stably_sorted(self.fills@ + self.items@)
    }

    pub fn entity_space_items(&self) -> (out: Vec<&(u64, BufferedItem)>)
        ensures
            owned(out@) == self.own_rows(),
    {
        let mut out: Vec<&(u64, BufferedItem)> = Vec::new();
        let ghost p = |r: (u64, BufferedItem)| !r.1.join;
        proof {
            lemma_filter_empty(self.items@, p);
            assert(owned(out@) =~= self.items@.take(0).filter(p));
        }
        let mut i: usize = 0;
        while i < self.items.len()
            invariant
                i <= self.items@.len(),
                p == |r: (u64, BufferedItem)| !r.1.join,
                owned(out@) == self.items@.take(i as int).filter(p),
            decreases self.items@.len() - i,
        {
            proof {
                lemma_filter_step(self.items@, i as int, p);
            }
            let ghost before = out@;
            let row: &(u64, BufferedItem) = &self.items[i];
            if !row.1.join {
                out.push(row);
                assert(owned(out@) =~= owned(before).push(*row));
            }
            i += 1;
        }
        proof {
            lemma_take_all(self.items@);
        }
        out
    }

    pub fn value_rows(&self) -> (out: Vec<&(u64, BufferedItem)>)
        ensures
            owned(out@) == self.value_order(),
    {
        merge_by_entity(borrowed(&self.fills), self.entity_space_items())
    }

    pub fn scoped_value_rows(&self) -> (out: Vec<&(u64, BufferedItem)>)
        ensures
            owned(out@) == self.scoped_order(),
    {
        merge_by_entity(borrowed(&self.fills), borrowed(&self.items))
    }
}

fn borrowed<'a>(rows: &'a Vec<(u64, BufferedItem)>) -> (out: Vec<&'a (u64, BufferedItem)>)
    ensures
        owned(out@) == rows@,
{
    let mut out: Vec<&(u64, BufferedItem)> = Vec::new();
    let mut i: usize = 0;
    while i < rows.len()
        invariant
            i <= rows@.len(),
            owned(out@) == rows@.take(i as int),
        decreases rows@.len() - i,
    {
        let ghost before = out@;
        let row: &(u64, BufferedItem) = &rows[i];
        out.push(row);
        assert(owned(out@) =~= owned(before).push(*row));
        assert(rows@.take(i + 1) =~= rows@.take(i as int).push(*row));
        i += 1;
    }
    proof {
        lemma_take_all(rows@);
    }
    out
}

/// `fills` and `items` ascending by entity, a fill before an item of its entity.
fn merge_by_entity<'a>(
    fills: Vec<&'a (u64, BufferedItem)>,
    items: Vec<&'a (u64, BufferedItem)>,
) -> (out: Vec<&'a (u64, BufferedItem)>)
    ensures
        owned(out@) == stably_sorted(owned(fills@) + owned(items@)),
{
    let ghost f = fills@;
    let ghost m = items@;
    let mut all = fills;
    let mut items = items;
    all.append(&mut items);
    assert(owned(all@) =~= owned(f) + owned(m));
    let ghost whole = all@;
    let out = stable_sort(all);
    proof {
        lemma_sorted_map(whole, |r: &(u64, BufferedItem)| *r);
    }
    out
}

/// A filter over two lists one after the other keeps what it keeps of each.
proof fn lemma_filter_both<T>(a: Seq<T>, b: Seq<T>, p: spec_fn(T) -> bool)
    ensures
        (a + b).filter(p) == a.filter(p) + b.filter(p),
    decreases b.len(),
{
    reveal(Seq::filter);
    if b.len() == 0 {
        assert(a + b =~= a);
        assert(a.filter(p) + b.filter(p) =~= a.filter(p));
    } else {
        lemma_filter_both(a, b.drop_last(), p);
        assert((a + b).drop_last() =~= a + b.drop_last());
        assert((a + b).last() == b.last());
        assert((a.filter(p) + b.filter(p)) =~= if p(b.last()) {
            (a.filter(p) + b.drop_last().filter(p)).push(b.last())
        } else {
            a.filter(p) + b.drop_last().filter(p)
        });
    }
}

/// Of one entity, what a stable sort holds is what the list held, in its order.
proof fn lemma_of_one_entity(rows: Seq<(u64, BufferedItem)>, entity: u64)
    ensures
        stably_sorted(rows).filter(|r: (u64, BufferedItem)| r.0 == entity) == rows.filter(
            |r: (u64, BufferedItem)| r.0 == entity,
        ),
        forall|i: int, j: int|
            0 <= i < j < stably_sorted(rows).len() ==> (#[trigger] stably_sorted(rows)[i]).0 <= (
            #[trigger] stably_sorted(rows)[j]).0,
{
    lemma_stably_sorted(rows);
    let t = stably_sorted(rows);
    let p = |r: (u64, BufferedItem)| r.0 == entity;
    assert forall|i: int, j: int| 0 <= i < j < t.len() implies (#[trigger] t[i]).0 <= (
    #[trigger] t[j]).0 by {
        assert(t[i].precedes(t[j]));
    }
    if exists|k: int| 0 <= k < rows.len() && (#[trigger] rows[k]).0 == entity {
        let k = choose|k: int| 0 <= k < rows.len() && (#[trigger] rows[k]).0 == entity;
        let x = rows[k];
        let q = |y: (u64, BufferedItem)| ties(x, y);
        assert(tied_with(t, x) == tied_with(rows, x));
        assert(p =~= q);
    } else {
        assert(t.filter(p).len() == 0) by {
            if t.filter(p).len() > 0 {
                let at = lemma_filter_positions(t, p);
                lemma_sorted_members(rows, t[at[0]]);
                assert(t.contains(t[at[0]]));
                let k = choose|k: int| 0 <= k < rows.len() && rows[k] == t[at[0]];
                assert(rows[k].0 == entity);
            }
        }
        assert(rows.filter(p).len() == 0) by {
            if rows.filter(p).len() > 0 {
                let at = lemma_filter_positions(rows, p);
                assert(rows[at[0]].0 == entity);
            }
        }
        assert(t.filter(p) =~= rows.filter(p));
    }
}

/// A declared value is read from every fill and from every planned row that is not a join, ascending
/// by entity; of one entity the fills come first, in their order, and then its rows, in theirs.
pub proof fn law_values_are_read_by_entity_fills_first(plan: FlushPlan, entity: u64)
    ensures
        forall|i: int, j: int|
            0 <= i < j < plan.value_order().len() ==> (#[trigger] plan.value_order()[i]).0 <= (
            #[trigger] plan.value_order()[j]).0,
        plan.value_order().filter(|r: (u64, BufferedItem)| r.0 == entity) == plan.fills@.filter(
            |r: (u64, BufferedItem)| r.0 == entity,
        ) + plan.items@.filter(|r: (u64, BufferedItem)| !r.1.join).filter(
            |r: (u64, BufferedItem)| r.0 == entity,
        ),
{
    let p = |r: (u64, BufferedItem)| r.0 == entity;
    lemma_of_one_entity(plan.fills@ + plan.own_rows(), entity);
    lemma_filter_both(plan.fills@, plan.own_rows(), p);
}

/// A group-scoped value is read from every fill and from every planned row, a join too, ascending by
/// entity; of one entity the fills come first, in their order, and then its rows, in theirs.
pub proof fn law_scoped_values_are_read_by_entity_fills_first(plan: FlushPlan, entity: u64)
    ensures
        forall|i: int, j: int|
            0 <= i < j < plan.scoped_order().len() ==> (#[trigger] plan.scoped_order()[i]).0 <= (
            #[trigger] plan.scoped_order()[j]).0,
        plan.scoped_order().filter(|r: (u64, BufferedItem)| r.0 == entity) == plan.fills@.filter(
            |r: (u64, BufferedItem)| r.0 == entity,
        ) + plan.items@.filter(|r: (u64, BufferedItem)| r.0 == entity),
{
    let p = |r: (u64, BufferedItem)| r.0 == entity;
    lemma_of_one_entity(plan.fills@ + plan.items@, entity);
    lemma_filter_both(plan.fills@, plan.items@, p);
}

} // verus!
