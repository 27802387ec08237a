//! A view's row space: a base that places entities by a permutation, then extents, each placing its
//! entities in a run of rows.

use croaring::Bitmap;
use vstd::prelude::*;

use crate::bitmap;
use crate::bitmap::{bits, span};

verus! {

/// A run of rows a flush or a merge published: the row `row_base + i` is of the entity at `i`.
#[derive(Debug)]
pub struct Extent {
    pub seg_id: String,
    pub row_base: u32,
    pub entities: Vec<u32>,
}

impl Extent {
    /// Whether a row is of an entity that a fragment holds.
    pub open spec fn places(&self, fragment: Set<u32>, row: u32) -> bool {
        &&& self.row_base <= row < self.row_base + self.entities@.len()
        &&& fragment.contains(self.entities@[row - self.row_base])
    }
}

/// A view's row space.
#[derive(Debug)]
pub struct RowSpace {
    /// The row of each entity of the base, where it has one.
    pub base: Vec<Option<u32>>,
    /// How many rows the base has.
    pub base_rows: u32,
    /// Whether the base is a bijection of its entities onto its rows.
    pub dense: bool,
    pub extents: Vec<Extent>,
}

impl RowSpace {
    /// The base's rows lie below its row count, and a dense base places each entity in a row of its
    /// own and leaves none out. The extents lie above the base and fit row space.
    pub open spec fn wf(&self) -> bool {
        &&& forall|e: int|
            0 <= e < self.base@.len() && (#[trigger] self.base@[e]) is Some ==> self.base@[e]->0
                < self.base_rows
        &&& self.dense ==> {
            &&& self.base@.len() <= 0x1_0000_0000
            &&& forall|e: int| 0 <= e < self.base@.len() ==> (#[trigger] self.base@[e]) is Some
            &&& forall|d: int, e: int|
                0 <= d < e < self.base@.len() ==> (#[trigger] self.base@[d])
                    != #[trigger] self.base@[e]
            &&& forall|row: u32| row < self.base_rows ==> #[trigger] self.places_some(row)
        }
        &&& forall|k: int|
            0 <= k < self.extents@.len() ==> self.base_rows <= (#[trigger] self.extents@[k]).row_base
                && self.extents@[k].row_base + self.extents@[k].entities@.len() <= 0x1_0000_0000
    }

    /// Whether a base row is of some entity.
    pub open spec fn places_some(&self, row: u32) -> bool {
        exists|e: int| 0 <= e < self.base@.len() && #[trigger] self.base@[e] == Some(row)
    }

    /// Whether a base row is of an entity that a fragment holds.
    pub open spec fn places(&self, fragment: Set<u32>, row: u32) -> bool {
        exists|e: u32|
            #[trigger] fragment.contains(e) && e < self.base@.len() && self.base@[e as int] == Some(
                row,
            )
    }

    /// The base rows of a fragment.
    pub open spec fn base_image(&self, fragment: Set<u32>) -> Set<u32> {
        Set::new(|row: u32| self.places(fragment, row))
    }

    /// The rows of a fragment in the extents from `from` on.
    pub open spec fn extents_image(&self, fragment: Set<u32>, from: int) -> Set<u32> {
        Set::new(
            |row: u32|
                exists|k: int|
                    from <= k < self.extents@.len() && (#[trigger] self.extents@[k]).places(
                        fragment,
                        row,
                    ),
        )
    }

    /// The rows of a fragment.
    pub open spec fn image(&self, fragment: Set<u32>) -> Set<u32> {
        self.base_image(fragment).union(self.extents_image(fragment, 0))
    }

    /// The base's rows without those of the entities that a fragment does not hold.
    pub open spec fn complement_image(&self, fragment: Set<u32>) -> Set<u32> {
        span(0, self.base_rows as int).difference(
            self.base_image(Set::new(|e: u32| !fragment.contains(e))),
        )
    }

    /// Whether a fragment holds every entity of a dense base.
    pub open spec fn covered_by(&self, fragment: Set<u32>) -> bool {
        self.dense && forall|e: u32| e < self.base@.len() ==> #[trigger] fragment.contains(e)
    }

    /// Whether a row is of an entity.
    pub open spec fn placed(&self, entity: u32, row: u32) -> bool {
        ||| entity < self.base@.len() && self.base@[entity as int] == Some(row)
        ||| exists|k: int|
            0 <= k < self.extents@.len() && (#[trigger] self.extents@[k]).places(
                set![entity],
                row,
            )
    }

    /// Whether an entity has a row.
    pub open spec fn has_row(&self, entity: u32) -> bool {
        exists|row: u32| #[trigger] self.placed(entity, row)
    }

    /// Each entity has one row at most.
    pub open spec fn places_once(&self) -> bool {
        forall|entity: u32, a: u32, b: u32| #[trigger]
            self.placed(entity, a) && #[trigger] self.placed(entity, b) ==> a == b
    }

    /// The rows of a fragment are the rows of its entities.
    pub proof fn lemma_image(&self, fragment: Set<u32>, row: u32)
        ensures
            self.image(fragment).contains(row) <==> exists|entity: u32|
                fragment.contains(entity) && #[trigger] self.placed(entity, row),
    {
        if self.base_image(fragment).contains(row) {
            let e = choose|e: u32| #[trigger]
                fragment.contains(e) && e < self.base@.len() && self.base@[e as int] == Some(row);
            assert(self.placed(e, row));
        }
        if self.extents_image(fragment, 0).contains(row) {
            let k = choose|k: int|
                0 <= k < self.extents@.len() && (#[trigger] self.extents@[k]).places(fragment, row);
            let e = self.extents@[k].entities@[row - self.extents@[k].row_base];
            assert(self.extents@[k].places(set![e], row));
            assert(self.placed(e, row));
        }
        if exists|entity: u32| fragment.contains(entity) && #[trigger] self.placed(entity, row) {
            let e = choose|e: u32| fragment.contains(e) && #[trigger] self.placed(e, row);
            if e < self.base@.len() && self.base@[e as int] == Some(row) {
                assert(self.places(fragment, row));
            } else {
                let k = choose|k: int|
                    0 <= k < self.extents@.len() && (#[trigger] self.extents@[k]).places(
                        set![e],
                        row,
                    );
                assert(self.extents@[k].places(fragment, row));
            }
        }
    }

    /// An entity's row: its base row, or else its first row in the extents.
    pub fn row_of(&self, entity: u32) -> (row: Option<u32>)
        requires
            self.wf(),
        ensures
            row is Some <==> self.has_row(entity),
            row matches Some(row) ==> self.placed(entity, row),
    {
        if (entity as usize) < self.base.len() {
            if let Some(row) = self.base[entity as usize] {
                assert(self.placed(entity, row));
                return Some(row);
            }
        }
        let mut k: usize = 0;
        while k < self.extents.len()
            invariant
                k <= self.extents@.len(),
                self.wf(),
                !(entity < self.base@.len() && self.base@[entity as int] is Some),
                forall|j: int, row: u32|
                    0 <= j < k ==> !(#[trigger] self.extents@[j].places(set![entity], row)),
            decreases self.extents@.len() - k,
        {
            let extent = &self.extents[k];
            let count: usize = extent.entities.len();
            let mut i: usize = 0;
            while i < count
                invariant
                    k < self.extents@.len(),
                    *extent == self.extents@[k as int],
                    i <= count == extent.entities@.len(),
                    extent.row_base + extent.entities@.len() <= 0x1_0000_0000,
                    forall|j: int| 0 <= j < i ==> extent.entities@[j] != entity,
                decreases count - i,
            {
                if extent.entities[i] == entity {
                    let row: u32 = extent.row_base + i as u32;
                    assert(self.extents@[k as int].places(set![entity], row));
                    assert(self.placed(entity, row));
                    return Some(row);
                }
                i += 1;
            }
            k += 1;
        }
        None
    }

    /// The base rows of a fragment.
    pub fn project_base(&self, fragment: &Bitmap) -> (rows: Bitmap)
        ensures
            bits(rows) == self.base_image(bits(*fragment)),
    {
        let mut rows = bitmap::empty();
        let held = bitmap::elements(fragment);
        let mut i: usize = 0;
        proof {
            assert(bits(rows) =~= self.base_image(held@.take(0).to_set()));
        }
        while i < held.len()
            invariant
                i <= held@.len(),
                bits(rows) == self.base_image(held@.take(i as int).to_set()),
            decreases held@.len() - i,
        {
            let entity: u32 = held[i];
            let ghost before = held@.take(i as int).to_set();
            let ghost after = held@.take(i + 1).to_set();
            proof {
                assert(held@.take(i + 1) =~= held@.take(i as int).push(entity));
                lemma_pushed(held@.take(i as int), entity);
            }
            if (entity as usize) < self.base.len() {
                if let Some(row) = self.base[entity as usize] {
                    bitmap::insert(&mut rows, row);
                }
            }
            proof {
                assert forall|row: u32|
                    self.base_image(after).contains(row) == bits(rows).contains(row) by {
                    if self.places(after, row) {
                        let e = choose|e: u32| #[trigger]
                            after.contains(e) && e < self.base@.len() && self.base@[e as int]
                                == Some(row);
                        if e != entity {
                            assert(before.contains(e));
                            assert(self.places(before, row));
                        }
                    }
                    if self.places(before, row) {
                        let e = choose|e: u32| #[trigger]
                            before.contains(e) && e < self.base@.len() && self.base@[e as int]
                                == Some(row);
                        assert(after.contains(e));
                    }
                    if entity < self.base@.len() && self.base@[entity as int] == Some(row) {
                        assert(after.contains(entity));
                    }
                }
                assert(bits(rows) =~= self.base_image(after));
            }
            i += 1;
        }
        assert(held@.take(i as int) =~= held@);
        rows
    }

    /// The rows of a fragment in the extents from `from` on.
    pub fn project_extents_from(&self, fragment: &Bitmap, from: usize) -> (rows: Bitmap)
        requires
            self.wf(),
        ensures
            bits(rows) == self.extents_image(bits(*fragment), from as int),
    {
        let mut rows = bitmap::empty();
        let mut k: usize = self.extents.len();
        proof {
            assert(bits(rows) =~= self.extents_image(bits(*fragment), k as int));
        }
        while k > from
            invariant
                k <= self.extents@.len(),
                from > self.extents@.len() ==> k == self.extents@.len(),
                from <= self.extents@.len() ==> from <= k,
                self.wf(),
                bits(rows) == self.extents_image(bits(*fragment), k as int),
            decreases k,
        {
            k -= 1;
            let extent = &self.extents[k];
            let ghost before = bits(rows);
            let count: usize = extent.entities.len();
            let mut i: usize = 0;
            while i < count
                invariant
                    i <= count == extent.entities@.len(),
                    extent.row_base + extent.entities@.len() <= 0x1_0000_0000,
                    forall|row: u32| #[trigger]
                        bits(rows).contains(row) <==> before.contains(row) || (extent.places(
                            bits(*fragment),
                            row,
                        ) && row < extent.row_base + i),
                decreases count - i,
            {
                if bitmap::contains(fragment, extent.entities[i]) {
                    bitmap::insert(&mut rows, extent.row_base + i as u32);
                }
                i += 1;
            }
            proof {
                assert forall|row: u32|
                    self.extents_image(bits(*fragment), k as int).contains(row) == bits(
                        rows,
                    ).contains(row) by {
                    if self.extents_image(bits(*fragment), k as int).contains(row) {
                        let j = choose|j: int|
                            k <= j < self.extents@.len() && (#[trigger] self.extents@[j]).places(
                                bits(*fragment),
                                row,
                            );
                        if j > k {
                            assert(self.extents_image(bits(*fragment), k + 1).contains(row));
                        }
                    }
                    if before.contains(row) {
                        let j = choose|j: int|
                            k + 1 <= j < self.extents@.len() && (
                            #[trigger] self.extents@[j]).places(bits(*fragment), row);
                        assert(k <= j && self.extents@[j].places(bits(*fragment), row));
                    }
                    if extent.places(bits(*fragment), row) {
                        assert(self.extents@[k as int].places(bits(*fragment), row));
                    }
                }
                assert(bits(rows) =~= self.extents_image(bits(*fragment), k as int));
            }
        }
        proof {
            if from > k {
                assert(bits(rows) =~= self.extents_image(bits(*fragment), from as int));
            }
        }
        rows
    }

    /// The rows of a fragment.
    pub fn project(&self, fragment: &Bitmap) -> (rows: Bitmap)
        requires
            self.wf(),
        ensures
            bits(rows) == self.image(bits(*fragment)),
    {
        let mut rows = self.project_base(fragment);
        let above = self.project_extents_from(fragment, 0);
        bitmap::union_with(&mut rows, &above);
        rows
    }

    /// The base's rows without those of the entities outside a fragment, where the base is a
    /// bijection.
    pub fn project_complement_base(&self, fragment: &Bitmap) -> (rows: Option<Bitmap>)
        requires
            self.wf(),
        ensures
            rows is Some <==> self.dense,
            rows matches Some(rows) ==> bits(rows) == self.complement_image(bits(*fragment)),
    {
        if !self.dense {
            return None;
        }
        let mut rows = bitmap::empty();
        if self.base_rows > 0 {
            bitmap::insert_range(&mut rows, 0, self.base_rows - 1);
        }
        let ghost whole = span(0, self.base_rows as int);
        assert(bits(rows) =~= whole);
        let total: usize = self.base.len();
        let mut e: usize = 0;
        while e < total
            invariant
                e <= total == self.base@.len(),
                self.wf(),
                self.dense,
                whole == span(0, self.base_rows as int),
                forall|row: u32| #[trigger]
                    bits(rows).contains(row) <==> whole.contains(row) && !(exists|d: u32|
                        !#[trigger] bits(*fragment).contains(d) && d < e && self.base@[d as int]
                            == Some(row)),
            decreases total - e,
        {
            let entity: u32 = e as u32;
            let ghost before = bits(rows);
            if !bitmap::contains(fragment, entity) {
                if let Some(row) = self.base[e] {
                    bitmap::remove_range(&mut rows, row, row);
                }
            }
            proof {
                assert forall|row: u32| #[trigger]
                    bits(rows).contains(row) <==> whole.contains(row) && !(exists|d: u32|
                        !#[trigger] bits(*fragment).contains(d) && d < e + 1 && self.base@[d as int]
                            == Some(row)) by {
                    if exists|d: u32|
                        !#[trigger] bits(*fragment).contains(d) && d < e + 1 && self.base@[d as int]
                            == Some(row) {
                        let d = choose|d: u32|
                            !#[trigger] bits(*fragment).contains(d) && d < e + 1
                                && self.base@[d as int] == Some(row);
                        if d < e {
                            assert(!bits(*fragment).contains(d) && d < e);
                            assert(!before.contains(row));
                        }
                    } else {
                        assert(!(exists|d: u32|
                            !#[trigger] bits(*fragment).contains(d) && d < e && self.base@[d as int]
                                == Some(row)));
                        if !bits(*fragment).contains(entity) {
                            assert(self.base@[entity as int] != Some(row));
                        }
                    }
                }
            }
            e += 1;
        }
        proof {
            let outside = Set::new(|d: u32| !bits(*fragment).contains(d));
            assert forall|row: u32|
                bits(rows).contains(row) == self.complement_image(bits(*fragment)).contains(
                    row,
                ) by {
                if self.places(outside, row) {
                    let d = choose|d: u32| #[trigger]
                        outside.contains(d) && d < self.base@.len() && self.base@[d as int] == Some(
                            row,
                        );
                    assert(!bits(*fragment).contains(d) && d < e);
                }
                if exists|d: u32|
                    !#[trigger] bits(*fragment).contains(d) && d < e && self.base@[d as int]
                        == Some(row) {
                    let d = choose|d: u32|
                        !#[trigger] bits(*fragment).contains(d) && d < e && self.base@[d as int]
                            == Some(row);
                    assert(outside.contains(d));
                    assert(self.places(outside, row));
                }
            }
            assert(bits(rows) =~= self.complement_image(bits(*fragment)));
        }
        Some(rows)
    }

    /// Whether a fragment holds every entity of a dense base.
    pub fn whole_domain(&self, fragment: &Bitmap) -> (yes: bool)
        requires
            self.wf(),
        ensures
            yes == self.covered_by(bits(*fragment)),
    {
        if !self.dense {
            return false;
        }
        let total: usize = self.base.len();
        let mut e: usize = 0;
        while e < total
            invariant
                e <= total == self.base@.len(),
                self.wf(),
                self.dense,
                forall|d: u32| d < e ==> #[trigger] bits(*fragment).contains(d),
            decreases total - e,
        {
            if !bitmap::contains(fragment, e as u32) {
                assert(!bits(*fragment).contains(e as u32));
                return false;
            }
            e += 1;
        }
        true
    }
}

proof fn lemma_pushed(list: Seq<u32>, x: u32)
    ensures
        list.push(x).to_set() == list.to_set().insert(x),
{
    assert forall|y: u32| list.push(x).to_set().contains(y) == list.to_set().insert(x).contains(
        y,
    ) by {
        if list.contains(y) {
            let k = choose|k: int| 0 <= k < list.len() && list[k] == y;
            assert(list.push(x)[k] == y);
        }
        if y == x {
            assert(list.push(x)[list.len() as int] == x);
        }
    }
    assert(list.push(x).to_set() =~= list.to_set().insert(x));
}

/// Where the base is a bijection, what a fragment excludes determines what it holds: the base's
/// rows without those of the entities outside it are its rows.
pub proof fn law_the_complement_is_the_base_image(space: RowSpace, fragment: Set<u32>)
    requires
        space.wf(),
        space.dense,
    ensures
        space.complement_image(fragment) == space.base_image(fragment),
{
    let outside = Set::new(|e: u32| !fragment.contains(e));
    assert forall|row: u32|
        space.complement_image(fragment).contains(row) == space.base_image(fragment).contains(
            row,
        ) by {
        if row < space.base_rows {
            assert(space.places_some(row));
            let e = choose|e: int|
                0 <= e < space.base@.len() && #[trigger] space.base@[e] == Some(row);
            assert(space.base@[e] is Some);
            let entity = e as u32;
            if fragment.contains(entity) {
                assert(space.places(fragment, row));
                if space.places(outside, row) {
                    let d = choose|d: u32| #[trigger]
                        outside.contains(d) && d < space.base@.len() && space.base@[d as int]
                            == Some(row);
                    assert(space.base@[d as int] == space.base@[e]);
                    assert(d == entity);
                }
            } else {
                assert(outside.contains(entity));
                assert(space.places(outside, row));
                if space.places(fragment, row) {
                    let d = choose|d: u32| #[trigger]
                        fragment.contains(d) && d < space.base@.len() && space.base@[d as int]
                            == Some(row);
                    assert(space.base@[d as int] == space.base@[e]);
                    assert(d == entity);
                }
            }
        } else {
            if space.places(fragment, row) {
                let d = choose|d: u32| #[trigger]
                    fragment.contains(d) && d < space.base@.len() && space.base@[d as int] == Some(
                        row,
                    );
                assert(space.base@[d as int] is Some);
            }
        }
    }
    assert(space.complement_image(fragment) =~= space.base_image(fragment));
}

/// A row is among a fragment's rows exactly where an entity of the fragment stands in it: at the
/// entity's place in the base, or at the row's distance above an extent's first row.
pub proof fn law_a_fragments_rows_are_its_entities_rows(
    space: RowSpace,
    fragment: Set<u32>,
    row: u32,
)
    ensures
        space.image(fragment).contains(row) <==> {
            ||| exists|e: u32|
                #[trigger] fragment.contains(e) && e < space.base@.len() && space.base@[e as int]
                    == Some(row)
            ||| exists|k: int|
                0 <= k < space.extents@.len() && (#[trigger] space.extents@[k]).row_base <= row < space.extents@[k].row_base
                    + space.extents@[k].entities@.len() && fragment.contains(
                    space.extents@[k].entities@[row - space.extents@[k].row_base],
                )
        },
{
    if space.extents_image(fragment, 0).contains(row) {
        let k = choose|k: int|
            0 <= k < space.extents@.len() && (#[trigger] space.extents@[k]).places(fragment, row);
        assert(space.extents@[k].row_base <= row);
    }
    if exists|k: int|
        0 <= k < space.extents@.len() && (#[trigger] space.extents@[k]).row_base <= row < space.extents@[k].row_base
            + space.extents@[k].entities@.len() && fragment.contains(
            space.extents@[k].entities@[row - space.extents@[k].row_base],
        ) {
        let k = choose|k: int|
            0 <= k < space.extents@.len() && (#[trigger] space.extents@[k]).row_base <= row < space.extents@[k].row_base
                + space.extents@[k].entities@.len() && fragment.contains(
                space.extents@[k].entities@[row - space.extents@[k].row_base],
            );
        assert(space.extents@[k].places(fragment, row));
    }
}

/// An entity stands in a row exactly where its place in the base names the row, or an extent holds
/// the entity at the row's distance above the extent's first row.
pub proof fn law_an_entity_stands_where_it_is_placed(space: RowSpace, entity: u32, row: u32)
    ensures
        space.placed(entity, row) <==> {
            ||| entity < space.base@.len() && space.base@[entity as int] == Some(row)
            ||| exists|k: int|
                0 <= k < space.extents@.len() && (#[trigger] space.extents@[k]).row_base <= row < space.extents@[k].row_base
                    + space.extents@[k].entities@.len() && space.extents@[k].entities@[row
                    - space.extents@[k].row_base] == entity
        },
{
    if exists|k: int|
        0 <= k < space.extents@.len() && (#[trigger] space.extents@[k]).places(set![entity], row) {
        let k = choose|k: int|
            0 <= k < space.extents@.len() && (#[trigger] space.extents@[k]).places(
                set![entity],
                row,
            );
        assert(space.extents@[k].row_base <= row);
        assert(space.extents@[k].entities@[row - space.extents@[k].row_base] == entity);
    }
    if exists|k: int|
        0 <= k < space.extents@.len() && (#[trigger] space.extents@[k]).row_base <= row < space.extents@[k].row_base
            + space.extents@[k].entities@.len() && space.extents@[k].entities@[row
            - space.extents@[k].row_base] == entity {
        let k = choose|k: int|
            0 <= k < space.extents@.len() && (#[trigger] space.extents@[k]).row_base <= row < space.extents@[k].row_base
                + space.extents@[k].entities@.len() && space.extents@[k].entities@[row
                - space.extents@[k].row_base] == entity;
        assert(space.extents@[k].places(set![entity], row));
    }
}

} // verus!
