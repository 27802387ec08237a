//! A generation: one immutable snapshot of engine state, and what is derived from it.
//!
//! Two values are derived per view: the rows of every deleted or suppressed entity, which every
//! composed mask leaves out, and the buffered entities that have a row there. A change that touches
//! neither of a value's inputs carries it; one that only adds to them patches it. Either way it
//! equals a fresh derivation.

use std::sync::Arc;

use croaring::Bitmap;
use vstd::prelude::*;

use crate::bitmap;
use crate::bitmap::{ascending, bits};
use crate::order::{lemma_ascending_is_unique, sorted_distinct_u32};
use crate::row_space::{
    law_a_fragments_rows_are_its_entities_rows, law_an_entity_stands_where_it_is_placed, RowSpace,
};
use crate::shared::{same_value, share};
use crate::text::same;

verus! {

/// One view's row space.
#[derive(Debug)]
pub struct ViewSpace {
    pub view: String,
    pub space: RowSpace,
}

/// The entities that are denied to everyone.
#[derive(Debug)]
pub struct Overlay {
    pub deleted: Bitmap,
    pub suppressed: Bitmap,
}

impl Overlay {
    /// Every denied entity.
    pub open spec fn denied(&self) -> Set<u32> {
        bits(self.deleted).union(bits(self.suppressed))
    }
}

/// Everything a generation holds but what is derived from it.
#[derive(Debug)]
pub struct GenerationParts {
    /// The prefix this generation was loaded from.
    pub prefix: String,
    /// Which segment set it holds.
    pub segments_version: u64,
    /// Entities at or past this live only in the buffer.
    pub watermark: u64,
    /// Bumped on every overlay or buffer swap.
    pub overlay_version: u64,
    /// The row space of every view the bundle carries.
    pub views: Arc<Vec<ViewSpace>>,
    pub overlay: Arc<Overlay>,
    /// The entities with a row in the buffer.
    pub buffer: Arc<Bitmap>,
}

impl GenerationParts {
    /// The buffered entities.
    pub open spec fn buffered(&self) -> Set<u32> {
        bits(*self.buffer)
    }

    /// Whether other parts, where they keep these row spaces, buffer nothing but what these buffer
    /// and what was inserted.
    pub open spec fn gains_at_most(&self, next: GenerationParts, inserted: Seq<u32>) -> bool {
        next.views@ == self.views@ ==> forall|e: u32| #[trigger]
            next.buffered().contains(e) ==> self.buffered().contains(e) || inserted.contains(e)
    }
}

/// Every row space is well formed and places each entity once.
pub open spec fn views_wf(views: Seq<ViewSpace>) -> bool {
    forall|v: int|
        0 <= v < views.len() ==> (#[trigger] views[v]).space.wf() && views[v].space.places_once()
}

/// Whether a list is the buffered entities that have a row in a view.
pub open spec fn buffered_in(list: Seq<u32>, buffer: Set<u32>, space: RowSpace) -> bool {
    &&& ascending(list)
    &&& forall|e: u32| #[trigger] list.contains(e) <==> buffer.contains(e) && space.has_row(e)
}

/// Whether rows are those of the denied entities, for each view.
pub open spec fn denied_of(denied: Seq<Bitmap>, overlay: Overlay, views: Seq<ViewSpace>) -> bool {
    &&& denied.len() == views.len()
    &&& forall|v: int|
        0 <= v < views.len() ==> bits(#[trigger] denied[v]) == views[v].space.image(overlay.denied())
}

/// Whether lists are the buffered entities that have a row, for each view.
pub open spec fn buffered_of(
    lists: Seq<Vec<u32>>,
    buffer: Set<u32>,
    views: Seq<ViewSpace>,
) -> bool {
    &&& lists.len() == views.len()
    &&& forall|v: int|
        0 <= v < views.len() ==> buffered_in((#[trigger] lists[v])@, buffer, views[v].space)
}

/// One immutable snapshot of engine state.
#[derive(Debug)]
pub struct Generation {
    pub parts: GenerationParts,
    /// Per view, the rows of the denied entities.
    pub denied: Arc<Vec<Bitmap>>,
    /// Per view, the buffered entities that have a row there.
    pub buffered_rows: Arc<Vec<Vec<u32>>>,
}

/// Every denied entity, as one set.
fn all_denied(overlay: &Overlay) -> (denied: Bitmap)
    ensures
        bits(denied) == overlay.denied(),
{
    let mut denied = bitmap::copy(&overlay.deleted);
    bitmap::union_with(&mut denied, &overlay.suppressed);
    denied
}

/// The rows of the denied entities, for each view.
pub fn derive_denied(overlay: &Overlay, views: &Vec<ViewSpace>) -> (out: Vec<Bitmap>)
    requires
        views_wf(views@),
    ensures
        denied_of(out@, *overlay, views@),
{
    let denied = all_denied(overlay);
    let mut out: Vec<Bitmap> = Vec::new();
    let mut v: usize = 0;
    while v < views.len()
        invariant
            v <= views@.len(),
            views_wf(views@),
            bits(denied) == overlay.denied(),
            out@.len() == v,
            forall|k: int|
                0 <= k < v ==> bits(#[trigger] out@[k]) == views@[k].space.image(overlay.denied()),
        decreases views@.len() - v,
    {
        assert(views@[v as int].space.wf());
        out.push(views[v].space.project(&denied));
        v += 1;
    }
    out
}

/// The buffered entities that have a row in a view.
fn buffered_rows_of(buffer: &Bitmap, space: &RowSpace) -> (out: Vec<u32>)
    requires
        space.wf(),
    ensures
        buffered_in(out@, bits(*buffer), *space),
{
    let held = bitmap::elements(buffer);
    let mut out: Vec<u32> = Vec::new();
    let mut i: usize = 0;
    while i < held.len()
        invariant
            i <= held@.len(),
            space.wf(),
            ascending(held@),
            ascending(out@),
            forall|e: u32| #[trigger]
                out@.contains(e) <==> held@.take(i as int).contains(e) && space.has_row(e),
            forall|k: int, j: int|
                0 <= k < out@.len() && i <= j < held@.len() ==> (#[trigger] out@[k]) < (
                #[trigger] held@[j]),
        decreases held@.len() - i,
    {
        let entity: u32 = held[i];
        let ghost before = out@;
        let ghost seen = held@.take(i as int);
        assert(held@.take(i + 1) =~= seen.push(entity));
        if space.row_of(entity).is_some() {
            out.push(entity);
        }
        proof {
            let more = seen.push(entity);
            assert forall|e: u32| #[trigger]
                out@.contains(e) <==> more.contains(e) && space.has_row(e) by {
                assert(before.contains(e) <==> seen.contains(e) && space.has_row(e));
                if seen.contains(e) {
                    let k = choose|k: int| 0 <= k < seen.len() && seen[k] == e;
                    assert(more[k] == e);
                }
                assert(more[seen.len() as int] == entity);
                if more.contains(e) && e != entity {
                    let k = choose|k: int| 0 <= k < more.len() && more[k] == e;
                    assert(seen[k] == e);
                }
                if before.contains(e) {
                    let k = choose|k: int| 0 <= k < before.len() && before[k] == e;
                    assert(out@[k] == e);
                }
                if out@.contains(e) && !before.contains(e) {
                    let k = choose|k: int| 0 <= k < out@.len() && out@[k] == e;
                    assert(k == before.len());
                }
                if space.has_row(entity) {
                    assert(out@[before.len() as int] == entity);
                }
            }
        }
        i += 1;
    }
    proof {
        assert(held@.take(i as int) =~= held@);
        assert forall|e: u32| #[trigger]
            out@.contains(e) <==> bits(*buffer).contains(e) && space.has_row(e) by {
            assert(held@.to_set().contains(e) == held@.contains(e));
        }
    }
    out
}

/// The buffered entities that have a row, for each view.
pub fn derive_buffered_rows(buffer: &Bitmap, views: &Vec<ViewSpace>) -> (out: Vec<Vec<u32>>)
    requires
        views_wf(views@),
    ensures
        buffered_of(out@, bits(*buffer), views@),
{
    let mut out: Vec<Vec<u32>> = Vec::new();
    let mut v: usize = 0;
    while v < views.len()
        invariant
            v <= views@.len(),
            views_wf(views@),
            out@.len() == v,
            forall|k: int|
                0 <= k < v ==> buffered_in(
                    (#[trigger] out@[k])@,
                    bits(*buffer),
                    views@[k].space,
                ),
        decreases views@.len() - v,
    {
        assert(views@[v as int].space.wf());
        out.push(buffered_rows_of(buffer, &views[v].space));
        v += 1;
    }
    out
}

/// The buffered entities that have a row in a view, from those there were and those that were
/// inserted since: a buffer only loses what was not inserted.
fn next_buffered_in(
    held: &Vec<u32>,
    buffer: &Bitmap,
    inserted: &Vec<u32>,
    space: &RowSpace,
    Ghost(before): Ghost<Set<u32>>,
) -> (out: Vec<u32>)
    requires
        space.wf(),
        buffered_in(held@, before, *space),
        forall|e: u32| #[trigger]
            bits(*buffer).contains(e) ==> before.contains(e) || inserted@.contains(e),
    ensures
        buffered_in(out@, bits(*buffer), *space),
{
    let mut list: Vec<u32> = Vec::new();
    let mut i: usize = 0;
    while i < held.len()
        invariant
            i <= held@.len(),
            forall|e: u32| #[trigger]
                list@.contains(e) <==> held@.take(i as int).contains(e) && bits(*buffer).contains(
                    e,
                ),
        decreases held@.len() - i,
    {
        let entity: u32 = held[i];
        let ghost was = list@;
        if bitmap::contains(buffer, entity) {
            list.push(entity);
        }
        proof {
            assert(held@.take(i + 1) =~= held@.take(i as int).push(entity));
            lemma_one_more(
                held@.take(i as int),
                entity,
                was,
                list@,
                |e: u32| bits(*buffer).contains(e),
            );
        }
        i += 1;
    }
    assert(held@.take(i as int) =~= held@);
    let ghost kept = list@;
    let mut j: usize = 0;
    while j < inserted.len()
        invariant
            j <= inserted@.len(),
            space.wf(),
            forall|e: u32| #[trigger]
                list@.contains(e) <==> kept.contains(e) || (inserted@.take(j as int).contains(e)
                    && bits(*buffer).contains(e) && space.has_row(e)),
        decreases inserted@.len() - j,
    {
        let entity: u32 = inserted[j];
        let ghost was = list@;
        let ghost seen = inserted@.take(j as int);
        if bitmap::contains(buffer, entity) && space.row_of(entity).is_some() {
            list.push(entity);
        }
        proof {
            let more = seen.push(entity);
            assert(inserted@.take(j + 1) =~= more);
            assert forall|e: u32| #[trigger]
                list@.contains(e) <==> kept.contains(e) || (more.contains(e) && bits(
                    *buffer,
                ).contains(e) && space.has_row(e)) by {
                assert(was.contains(e) <==> kept.contains(e) || (seen.contains(e) && bits(
                    *buffer,
                ).contains(e) && space.has_row(e)));
                assert(more[seen.len() as int] == entity);
                if seen.contains(e) {
                    let k = choose|k: int| 0 <= k < seen.len() && seen[k] == e;
                    assert(more[k] == e);
                }
                if more.contains(e) && e != entity {
                    let k = choose|k: int| 0 <= k < more.len() && more[k] == e;
                    assert(seen[k] == e);
                }
                if was.contains(e) {
                    let k = choose|k: int| 0 <= k < was.len() && was[k] == e;
                    assert(list@[k] == e);
                }
                if list@.contains(e) && !was.contains(e) {
                    let k = choose|k: int| 0 <= k < list@.len() && list@[k] == e;
                    assert(k == was.len());
                }
                if list@.len() > was.len() {
                    assert(list@[was.len() as int] == entity);
                }
            }
        }
        j += 1;
    }
    assert(inserted@.take(j as int) =~= inserted@);
    let ghost whole = list@;
    let out = sorted_distinct_u32(list);
    proof {
        assert forall|e: u32| #[trigger]
            out@.contains(e) <==> bits(*buffer).contains(e) && space.has_row(e) by {
            assert(out@.to_set().contains(e) == whole.to_set().contains(e));
            assert(whole.contains(e) <==> kept.contains(e) || (inserted@.contains(e) && bits(
                *buffer,
            ).contains(e) && space.has_row(e)));
            assert(kept.contains(e) <==> held@.contains(e) && bits(*buffer).contains(e));
            assert(held@.contains(e) <==> before.contains(e) && space.has_row(e));
        }
    }
    out
}

proof fn lemma_one_more(
    seen: Seq<u32>,
    entity: u32,
    was: Seq<u32>,
    now: Seq<u32>,
    keeps: spec_fn(u32) -> bool,
)
    requires
        forall|e: u32| #[trigger] was.contains(e) <==> seen.contains(e) && keeps(e),
        now == if keeps(entity) {
            was.push(entity)
        } else {
            was
        },
    ensures
        forall|e: u32| #[trigger] now.contains(e) <==> seen.push(entity).contains(e) && keeps(e),
{
    let more = seen.push(entity);
    assert forall|e: u32| #[trigger] now.contains(e) <==> more.contains(e) && keeps(e) by {
        assert(more[seen.len() as int] == entity);
        if seen.contains(e) {
            let k = choose|k: int| 0 <= k < seen.len() && seen[k] == e;
            assert(more[k] == e);
        }
        if more.contains(e) && e != entity {
            let k = choose|k: int| 0 <= k < more.len() && more[k] == e;
            assert(seen[k] == e);
        }
        if was.contains(e) {
            let k = choose|k: int| 0 <= k < was.len() && was[k] == e;
            assert(now[k] == e);
        }
        if now.contains(e) && !was.contains(e) {
            let k = choose|k: int| 0 <= k < now.len() && now[k] == e;
            assert(k == was.len());
        }
        if keeps(entity) {
            assert(now[was.len() as int] == entity);
        }
    }
}

/// The buffered entities that have a row, for each view, from those there were and those that were
/// inserted since.
fn next_buffered(
    held: &Vec<Vec<u32>>,
    buffer: &Bitmap,
    inserted: &Vec<u32>,
    views: &Vec<ViewSpace>,
    Ghost(before): Ghost<Set<u32>>,
) -> (out: Vec<Vec<u32>>)
    requires
        views_wf(views@),
        buffered_of(held@, before, views@),
        forall|e: u32| #[trigger]
            bits(*buffer).contains(e) ==> before.contains(e) || inserted@.contains(e),
    ensures
        buffered_of(out@, bits(*buffer), views@),
{
    let mut out: Vec<Vec<u32>> = Vec::new();
    let mut v: usize = 0;
    while v < views.len()
        invariant
            v <= views@.len(),
            views_wf(views@),
            buffered_of(held@, before, views@),
            forall|e: u32| #[trigger]
                bits(*buffer).contains(e) ==> before.contains(e) || inserted@.contains(e),
            out@.len() == v,
            forall|k: int|
                0 <= k < v ==> buffered_in(
                    (#[trigger] out@[k])@,
                    bits(*buffer),
                    views@[k].space,
                ),
        decreases views@.len() - v,
    {
        assert(views@[v as int].space.wf());
        assert(buffered_in(held@[v as int]@, before, views@[v as int].space));
        out.push(
            next_buffered_in(&held[v], buffer, inserted, &views[v].space, Ghost(before)),
        );
        v += 1;
    }
    out
}

/// A view's denied rows, with those of the entities denied since.
fn next_denied_in(
    held: &Bitmap,
    newly_denied: &Vec<u32>,
    space: &RowSpace,
    Ghost(before): Ghost<Set<u32>>,
) -> (out: Bitmap)
    requires
        space.wf(),
        space.places_once(),
        bits(*held) == space.image(before),
    ensures
        bits(out) == space.image(before.union(newly_denied@.to_set())),
{
    let mut out = bitmap::copy(held);
    let mut i: usize = 0;
    proof {
        assert(before.union(newly_denied@.take(0).to_set()) =~= before);
    }
    while i < newly_denied.len()
        invariant
            i <= newly_denied@.len(),
            space.wf(),
            space.places_once(),
            bits(out) == space.image(before.union(newly_denied@.take(i as int).to_set())),
        decreases newly_denied@.len() - i,
    {
        let entity: u32 = newly_denied[i];
        let ghost was = before.union(newly_denied@.take(i as int).to_set());
        let ghost now = before.union(newly_denied@.take(i + 1).to_set());
        let ghost rows = bits(out);
        if let Some(row) = space.row_of(entity) {
            bitmap::insert(&mut out, row);
        }
        proof {
            let seen = newly_denied@.take(i as int);
            let more = newly_denied@.take(i + 1);
            assert(more =~= seen.push(entity));
            assert forall|e: u32| now.contains(e) <==> was.contains(e) || e == entity by {
                assert(more[i as int] == entity);
                if seen.contains(e) {
                    let k = choose|k: int| 0 <= k < seen.len() && seen[k] == e;
                    assert(more[k] == e);
                }
                if more.contains(e) && e != entity {
                    let k = choose|k: int| 0 <= k < more.len() && more[k] == e;
                    assert(seen[k] == e);
                }
            }
            assert forall|row: u32| bits(out).contains(row) == space.image(now).contains(row) by {
                space.lemma_image(was, row);
                space.lemma_image(now, row);
                if exists|e: u32| was.contains(e) && #[trigger] space.placed(e, row) {
                    let e = choose|e: u32| was.contains(e) && #[trigger] space.placed(e, row);
                    assert(now.contains(e) && space.placed(e, row));
                }
                if exists|e: u32| now.contains(e) && #[trigger] space.placed(e, row) {
                    let e = choose|e: u32| now.contains(e) && #[trigger] space.placed(e, row);
                    if e != entity {
                        assert(was.contains(e) && space.placed(e, row));
                    } else {
                        assert(space.has_row(entity));
                    }
                }
                if space.placed(entity, row) {
                    assert(now.contains(entity) && space.placed(entity, row));
                }
            }
            assert(bits(out) =~= space.image(now));
        }
        i += 1;
    }
    assert(newly_denied@.take(i as int) =~= newly_denied@);
    out
}

impl Generation {
    /// What is derived is what the parts derive.
    pub open spec fn wf(&self) -> bool {
        &&& views_wf(self.parts.views@)
        &&& denied_of(self.denied@, *self.parts.overlay, self.parts.views@)
        &&& buffered_of(self.buffered_rows@, bits(*self.parts.buffer), self.parts.views@)
    }

    /// A generation of parts.
    pub fn new(parts: GenerationParts) -> (generation: Generation)
        requires
            views_wf(parts.views@),
        ensures
            generation.wf(),
            generation.parts == parts,
    {
        let denied = derive_denied(&parts.overlay, &parts.views);
        let buffered_rows = derive_buffered_rows(&parts.buffer, &parts.views);
        Generation { parts, denied: Arc::new(denied), buffered_rows: Arc::new(buffered_rows) }
    }

    /// The rows of the denied entities of parts: this generation's where its row spaces and its
    /// overlay are kept, and derived again otherwise.
    fn next_denied(&self, parts: &GenerationParts) -> (denied: Arc<Vec<Bitmap>>)
        requires
            self.wf(),
            views_wf(parts.views@),
        ensures
            denied_of(denied@, *parts.overlay, parts.views@),
    {
        if same_value(&parts.views, &self.parts.views) && same_value(
            &parts.overlay,
            &self.parts.overlay,
        ) {
            share(&self.denied)
        } else {
            Arc::new(derive_denied(&parts.overlay, &parts.views))
        }
    }

    /// The buffered entities of parts that have a row: this generation's, patched, where its row
    /// spaces are kept, and derived again otherwise.
    fn next_buffered_rows(&self, parts: &GenerationParts, inserted: &Vec<u32>) -> (lists: Arc<
        Vec<Vec<u32>>,
    >)
        requires
            self.wf(),
            views_wf(parts.views@),
            self.parts.gains_at_most(*parts, inserted@),
        ensures
            buffered_of(lists@, bits(*parts.buffer), parts.views@),
    {
        if !same_value(&parts.views, &self.parts.views) {
            return Arc::new(derive_buffered_rows(&parts.buffer, &parts.views));
        }
        assert forall|e: u32| #[trigger] bits(*parts.buffer).contains(e) implies self.parts.buffered().contains(e)
            || inserted@.contains(e) by {
            assert(parts.buffered().contains(e));
        }
        Arc::new(
            next_buffered(
                &self.buffered_rows,
                &parts.buffer,
                inserted,
                &parts.views,
                Ghost(self.parts.buffered()),
            ),
        )
    }

    /// This generation with other parts. What the change left the inputs of is carried, and the rest
    /// is derived again.
    pub fn with(&self, parts: GenerationParts) -> (generation: Generation)
        requires
            self.wf(),
            views_wf(parts.views@),
        ensures
            generation.wf(),
            generation.parts == parts,
    {
        let denied = self.next_denied(&parts);
        let buffered_rows: Arc<Vec<Vec<u32>>> = if same_value(&parts.views, &self.parts.views)
            && same_value(&parts.buffer, &self.parts.buffer) {
            share(&self.buffered_rows)
        } else {
            Arc::new(derive_buffered_rows(&parts.buffer, &parts.views))
        };
        Generation { parts, denied, buffered_rows }
    }

    /// This generation with other parts, whose buffer, where the row spaces are this one's, is this
    /// one's with `inserted` added and anything else only removed. The buffered entities are then
    /// patched rather than derived.
    pub fn with_buffer(&self, parts: GenerationParts, inserted: &Vec<u32>) -> (generation: Generation)
        requires
            self.wf(),
            views_wf(parts.views@),
            self.parts.gains_at_most(parts, inserted@),
        ensures
            generation.wf(),
            generation.parts == parts,
    {
        let denied = self.next_denied(&parts);
        let buffered_rows = self.next_buffered_rows(&parts, inserted);
        Generation { parts, denied, buffered_rows }
    }

    /// This generation with an overlay that differs from this one's only by deletions and
    /// suppressions of `newly_denied`, and a buffer that only lost entities, over the same row
    /// spaces. The denied rows are added without walking the whole overlay.
    pub fn with_denies(&self, parts: GenerationParts, newly_denied: &Vec<u32>) -> (generation:
        Generation)
        requires
            self.wf(),
            parts.views@ == self.parts.views@,
            parts.overlay.denied() == self.parts.overlay.denied().union(newly_denied@.to_set()),
            bits(*parts.buffer).subset_of(bits(*self.parts.buffer)),
        ensures
            generation.wf(),
            generation.parts == parts,
    {
        let ghost before = self.parts.overlay.denied();
        let mut denied: Vec<Bitmap> = Vec::new();
        let mut v: usize = 0;
        while v < parts.views.len()
            invariant
                v <= parts.views@.len(),
                self.wf(),
                parts.views@ == self.parts.views@,
                before == self.parts.overlay.denied(),
                parts.overlay.denied() == before.union(newly_denied@.to_set()),
                denied@.len() == v,
                forall|k: int|
                    0 <= k < v ==> bits(#[trigger] denied@[k]) == parts.views@[k].space.image(
                        parts.overlay.denied(),
                    ),
            decreases parts.views@.len() - v,
        {
            assert(parts.views@[v as int].space.wf());
            assert(bits(self.denied@[v as int]) == parts.views@[v as int].space.image(before));
            denied.push(
                next_denied_in(&self.denied[v], newly_denied, &parts.views[v].space, Ghost(before)),
            );
            v += 1;
        }
        let none: Vec<u32> = Vec::new();
        let buffered_rows = self.next_buffered_rows(&parts, &none);
        Generation { parts, denied: Arc::new(denied), buffered_rows }
    }

    /// Where a view stands.
    fn view_at(&self, view: &str) -> (at: Option<usize>)
        ensures
            at is Some <==> carries(self.parts.views@, view@),
            at matches Some(v) ==> first_view(self.parts.views@, view@, v as int),
    {
        let mut v: usize = 0;
        while v < self.parts.views.len()
            invariant
                v <= self.parts.views@.len(),
                forall|k: int| 0 <= k < v ==> (#[trigger] self.parts.views@[k]).view@ != view@,
            decreases self.parts.views@.len() - v,
        {
            if same(self.parts.views[v].view.as_str(), view) {
                assert(self.parts.views@[v as int].view@ == view@);
                return Some(v);
            }
            v += 1;
        }
        None
    }

    /// Whether rows are those of the denied entities in a view.
    pub open spec fn denies(&self, view: Seq<char>, rows: Option<Set<u32>>) -> bool {
        &&& rows is Some <==> carries(self.parts.views@, view)
        &&& rows matches Some(rows) ==> exists|v: int| #[trigger]
            first_view(self.parts.views@, view, v) && rows == self.parts.views@[v].space.image(
                self.parts.overlay.denied(),
            )
    }

    /// Whether a list is of the buffered entities that have a row in a view.
    pub open spec fn buffers(&self, view: Seq<char>, list: Option<Seq<u32>>) -> bool {
        &&& list is Some <==> carries(self.parts.views@, view)
        &&& list matches Some(list) ==> exists|v: int| #[trigger]
            first_view(self.parts.views@, view, v) && buffered_in(
                list,
                bits(*self.parts.buffer),
                self.parts.views@[v].space,
            )
    }

    /// The rows of the denied entities in a view; none where the bundle does not carry it.
    pub fn denied(&self, view: &str) -> (rows: Option<&Bitmap>)
        requires
            self.wf(),
        ensures
            self.denies(
                view@,
                match rows {
                    Some(rows) => Some(bits(*rows)),
                    None => None,
                },
            ),
    {
        match self.view_at(view) {
            None => None,
            Some(v) => {
                assert(first_view(self.parts.views@, view@, v as int));
                assert(bits(self.denied@[v as int]) == self.parts.views@[v as int].space.image(
                    self.parts.overlay.denied(),
                ));
                Some(&self.denied[v])
            },
        }
    }

    /// The buffered entities that have a row in a view; none where the bundle does not carry it.
    pub fn buffered_rows(&self, view: &str) -> (list: Option<&[u32]>)
        requires
            self.wf(),
        ensures
            self.buffers(
                view@,
                match list {
                    Some(list) => Some(list@),
                    None => None,
                },
            ),
    {
        match self.view_at(view) {
            None => None,
            Some(v) => {
                assert(first_view(self.parts.views@, view@, v as int));
                assert(buffered_in(
                    self.buffered_rows@[v as int]@,
                    bits(*self.parts.buffer),
                    self.parts.views@[v as int].space,
                ));
                Some(self.buffered_rows[v].as_slice())
            },
        }
    }
}

/// Whether a bundle carries a view.
pub open spec fn carries(views: Seq<ViewSpace>, view: Seq<char>) -> bool {
    exists|v: int| 0 <= v < views.len() && (#[trigger] views[v]).view@ == view
}

/// Whether a view is the first of its name.
pub open spec fn first_view(views: Seq<ViewSpace>, view: Seq<char>, v: int) -> bool {
    &&& 0 <= v < views.len()
    &&& views[v].view@ == view
    &&& forall|k: int| 0 <= k < v ==> (#[trigger] views[k]).view@ != view
}

/// What a generation derives is a function of its parts alone: however each came to be, two
/// generations of the same parts deny the same rows and walk the same buffered entities.
pub proof fn law_what_is_derived_is_a_function_of_the_parts(a: Generation, b: Generation, v: int)
    requires
        a.wf(),
        b.wf(),
        a.parts == b.parts,
        0 <= v < a.parts.views@.len(),
    ensures
        bits(a.denied@[v]) == bits(b.denied@[v]),
        a.buffered_rows@[v]@ == b.buffered_rows@[v]@,
{
    let space = a.parts.views@[v].space;
    let buffer = a.parts.buffered();
    assert(bits(a.denied@[v]) == space.image(a.parts.overlay.denied()));
    assert(buffered_in(a.buffered_rows@[v]@, buffer, space));
    assert(buffered_in(b.buffered_rows@[v]@, buffer, space));
    let (one, other) = (a.buffered_rows@[v]@, b.buffered_rows@[v]@);
    assert forall|e: u32| one.to_set().contains(e) == other.to_set().contains(e) by {
        assert(one.contains(e) == other.contains(e));
    }
    assert(one.to_set() =~= other.to_set());
    lemma_ascending_is_unique(one, other);
}

/// The rows of the entities that either of two sets holds.
proof fn lemma_denied_rows(space: RowSpace, deleted: Set<u32>, suppressed: Set<u32>, row: u32)
    ensures
        space.image(deleted.union(suppressed)).contains(row) <==> {
            ||| exists|e: u32|
                e < space.base@.len() && #[trigger] space.base@[e as int] == Some(row) && (
                deleted.contains(e) || suppressed.contains(e))
            ||| exists|k: int|
                0 <= k < space.extents@.len() && (#[trigger] space.extents@[k]).row_base <= row < space.extents@[k].row_base
                    + space.extents@[k].entities@.len() && (deleted.contains(
                    space.extents@[k].entities@[row - space.extents@[k].row_base],
                ) || suppressed.contains(
                    space.extents@[k].entities@[row - space.extents@[k].row_base],
                ))
        },
{
    let denied = deleted.union(suppressed);
    law_a_fragments_rows_are_its_entities_rows(space, denied, row);
    if exists|e: u32|
        e < space.base@.len() && #[trigger] space.base@[e as int] == Some(row) && (
        deleted.contains(e) || suppressed.contains(e)) {
        let e = choose|e: u32|
            e < space.base@.len() && #[trigger] space.base@[e as int] == Some(row) && (
            deleted.contains(e) || suppressed.contains(e));
        assert(space.base@[e as int] == Some(row));
        assert(deleted.contains(e) || suppressed.contains(e));
        assert(denied.contains(e));
    }
    if exists|e: u32|
        #[trigger] denied.contains(e) && e < space.base@.len() && space.base@[e as int] == Some(
            row,
        ) {
        let e = choose|e: u32|
            #[trigger] denied.contains(e) && e < space.base@.len() && space.base@[e as int]
                == Some(row);
        assert(deleted.contains(e) || suppressed.contains(e));
    }
}

/// A row of a view is denied exactly where its entity, in the base or in an extent, is deleted or
/// suppressed.
pub proof fn law_a_row_is_denied_where_its_entity_is(generation: Generation, v: int, row: u32)
    requires
        generation.wf(),
        0 <= v < generation.parts.views@.len(),
    ensures
        ({
            let space = generation.parts.views@[v].space;
            let deleted = bits(generation.parts.overlay.deleted);
            let suppressed = bits(generation.parts.overlay.suppressed);
            bits(generation.denied@[v]).contains(row) <==> {
                ||| exists|e: u32|
                    e < space.base@.len() && #[trigger] space.base@[e as int] == Some(row) && (
                    deleted.contains(e) || suppressed.contains(e))
                ||| exists|k: int|
                    0 <= k < space.extents@.len() && (#[trigger] space.extents@[k]).row_base <= row < space.extents@[k].row_base
                        + space.extents@[k].entities@.len() && (deleted.contains(
                        space.extents@[k].entities@[row - space.extents@[k].row_base],
                    ) || suppressed.contains(
                        space.extents@[k].entities@[row - space.extents@[k].row_base],
                    ))
            }
        }),
{
    let overlay: &Overlay = &generation.parts.overlay;
    lemma_denied_rows(
        generation.parts.views@[v].space,
        bits(overlay.deleted),
        bits(overlay.suppressed),
        row,
    );
    assert(bits(generation.denied@[v]) == generation.parts.views@[v].space.image(
        generation.parts.overlay.denied(),
    ));
}

/// A view lists a buffered entity exactly where the entity stands in a row of the view, and lists
/// the entities in ascending order, each once.
pub proof fn law_a_view_lists_the_buffered_entities_it_places(
    generation: Generation,
    v: int,
    e: u32,
)
    requires
        generation.wf(),
        0 <= v < generation.parts.views@.len(),
    ensures
        ({
            let space = generation.parts.views@[v].space;
            let list = generation.buffered_rows@[v]@;
            &&& list.contains(e) <==> bits(*generation.parts.buffer).contains(e) && ({
                ||| e < space.base@.len() && space.base@[e as int] is Some
                ||| exists|k: int, i: int|
                    0 <= k < space.extents@.len() && 0 <= i < space.extents@[k].entities@.len()
                        && #[trigger] space.extents@[k].entities@[i] == e
            })
            &&& forall|i: int, j: int| 0 <= i < j < list.len() ==> list[i] < list[j]
        }),
{
    let space = generation.parts.views@[v].space;
    let list = generation.buffered_rows@[v]@;
    assert(buffered_in(list, bits(*generation.parts.buffer), space));
    if space.has_row(e) {
        let row = choose|row: u32| #[trigger] space.placed(e, row);
        law_an_entity_stands_where_it_is_placed(space, e, row);
        if !(e < space.base@.len() && space.base@[e as int] == Some(row)) {
            let k = choose|k: int|
                0 <= k < space.extents@.len() && (#[trigger] space.extents@[k]).row_base <= row < space.extents@[k].row_base
                    + space.extents@[k].entities@.len() && space.extents@[k].entities@[row
                    - space.extents@[k].row_base] == e;
            assert(space.extents@[k].entities@[row - space.extents@[k].row_base] == e);
        }
    }
    if e < space.base@.len() && space.base@[e as int] is Some {
        assert(space.placed(e, space.base@[e as int]->0));
    }
    if exists|k: int, i: int|
        0 <= k < space.extents@.len() && 0 <= i < space.extents@[k].entities@.len()
            && #[trigger] space.extents@[k].entities@[i] == e {
        let (k, i) = choose|k: int, i: int|
            0 <= k < space.extents@.len() && 0 <= i < space.extents@[k].entities@.len()
                && #[trigger] space.extents@[k].entities@[i] == e;
        assert(space.wf());
        let row = (space.extents@[k].row_base + i) as u32;
        assert(row - space.extents@[k].row_base == i);
        law_an_entity_stands_where_it_is_placed(space, e, row);
        assert(space.placed(e, row));
    }
}

/// A view's denied rows and buffered entities are handed out under the view's own name: they are
/// those held for the first view of that name, and there are none where no view has it.
pub proof fn law_a_view_is_answered_under_its_own_name(
    generation: Generation,
    view: Seq<char>,
    rows: Option<Set<u32>>,
    list: Option<Seq<u32>>,
) -> (v: int)
    requires
        generation.wf(),
        generation.denies(view, rows),
        generation.buffers(view, list),
    ensures
        0 <= v <= generation.parts.views@.len(),
        forall|k: int| 0 <= k < v ==> (#[trigger] generation.parts.views@[k]).view@ != view,
        v == generation.parts.views@.len() ==> rows is None && list is None,
        v < generation.parts.views@.len() ==> {
            &&& generation.parts.views@[v].view@ == view
            &&& rows == Some(bits(generation.denied@[v]))
            &&& list is Some
            &&& list->0.to_set() == generation.buffered_rows@[v]@.to_set()
        },
{
    let views = generation.parts.views@;
    if rows is Some {
        let v = choose|v: int| #[trigger]
            first_view(views, view, v) && rows->0 == views[v].space.image(
                generation.parts.overlay.denied(),
            );
        let w = choose|w: int| #[trigger]
            first_view(views, view, w) && buffered_in(
                list->0,
                bits(*generation.parts.buffer),
                views[w].space,
            );
        assert(v == w);
        assert(bits(generation.denied@[v]) == views[v].space.image(
            generation.parts.overlay.denied(),
        ));
        let own = generation.buffered_rows@[v]@;
        assert(buffered_in(own, bits(*generation.parts.buffer), views[v].space));
        assert forall|e: u32| list->0.to_set().contains(e) == own.to_set().contains(e) by {
            assert(list->0.contains(e) == own.contains(e));
        }
        assert(list->0.to_set() =~= own.to_set());
        v
    } else {
        views.len() as int
    }
}

} // verus!
