//! The walk a page takes its rows by, and the stretch of the view ahead of it.
//!
//! A stretch is the part of the view a walk has evaluated the filter over: a range of keys in map
//! order, a range of item numbers in stored order. It spans a target number of rows, and when a page
//! empties one before filling, the next is four times longer. Visibility is never held: every page
//! tests every row against the mask composed for that page.

use vstd::prelude::*;

use crate::records::RecordsOrder;
use crate::text::same;

verus! {

/// The first stretch spans at least this many rows.
pub const STRETCH_MIN: u32 = 4096;

/// How many times longer the next stretch is when a page empties one.
pub const STRETCH_GROWTH: u32 = 4;

/// The most a stretch holds per row it spans.
pub const STRETCH_BYTES_PER_ROW: usize = 17;

/// How many of a stored stretch's items are tested between two readings of the clock.
pub const STORED_CHUNK: usize = 4096;

/// The fewest rows a map segment's first chunk spans.
pub const CHUNK_MIN: u32 = 1024;

/// A row's place in its order: `(cell, id)` in map order, and `(item number, 0)` in stored order.
pub type Key = (u32, u64);

/// `a` comes before `b`.
pub open spec fn key_lt(a: Key, b: Key) -> bool {
    a.0 < b.0 || (a.0 == b.0 && a.1 < b.1)
}

/// `a` comes before `b`, or is `b`.
pub open spec fn key_le(a: Key, b: Key) -> bool {
    a.0 < b.0 || (a.0 == b.0 && a.1 <= b.1)
}

/// Whether a key is past a scan position.
pub open spec fn past(key: Key, scan: Option<Key>) -> bool {
    match scan {
        None => true,
        Some(at) => key_lt(at, key),
    }
}

/// Whether a key is below a stretch's end.
pub open spec fn below(key: Key, until: Option<Key>) -> bool {
    match until {
        None => true,
        Some(end) => key_lt(key, end),
    }
}

/// `a` is at least as far as `b`.
pub open spec fn scan_ge(a: Option<Key>, b: Option<Key>) -> bool {
    match (a, b) {
        (_, None) => true,
        (None, Some(_)) => false,
        (Some(x), Some(y)) => key_le(y, x),
    }
}

/// The further of two scan positions.
pub open spec fn furthest(a: Option<Key>, b: Option<Key>) -> Option<Key> {
    if scan_ge(a, b) {
        a
    } else {
        b
    }
}

fn less(a: Key, b: Key) -> (yes: bool)
    ensures
        yes == key_lt(a, b),
{
    a.0 < b.0 || (a.0 == b.0 && a.1 < b.1)
}

fn at_least(a: Option<Key>, b: Option<Key>) -> (yes: bool)
    ensures
        yes == scan_ge(a, b),
{
    match (a, b) {
        (_, None) => true,
        (None, Some(_)) => false,
        (Some(x), Some(y)) => !less(x, y),
    }
}

/// The key just before `key`, or `None` where nothing is.
pub open spec fn before_of(key: Key) -> Option<Key> {
    if key.1 > 0 {
        Some((key.0, (key.1 - 1) as u64))
    } else if key.0 > 0 {
        Some(((key.0 - 1) as u32, u64::MAX))
    } else {
        None
    }
}

/// [`before_of`], computed.
pub fn before(key: Key) -> (out: Option<Key>)
    ensures
        out == before_of(key),
{
    if key.1 > 0 {
        Some((key.0, key.1 - 1))
    } else if key.0 > 0 {
        Some((key.0 - 1, u64::MAX))
    } else {
        None
    }
}

/// What is past the key just before another is that key and what follows it.
pub proof fn lemma_before(key: Key, other: Key)
    ensures
        past(other, before_of(key)) == key_le(key, other),
{
}

/// One row a page takes.
#[derive(Clone, Copy, Debug, PartialEq, Eq, Structural)]
pub struct Taken {
    /// Index into the view's segments, ascending by row base.
    pub seg: usize,
    pub local: u32,
    pub tessera_id: u64,
    pub entity: u32,
    pub matched: bool,
}

/// One segment of the view: its rows' cells, ids and entities, in `(cell, id)` order, and where
/// they begin in the view's row space.
#[derive(Debug)]
pub struct SegmentRows {
    pub cells: Vec<u32>,
    pub ids: Vec<u64>,
    pub entities: Vec<u32>,
    pub base: u32,
}

impl SegmentRows {
    /// How many rows there are.
    pub open spec fn count(&self) -> int {
        self.cells@.len() as int
    }

    /// A row's key in map order.
    pub open spec fn key(&self, local: int) -> Key {
        (self.cells@[local], self.ids@[local])
    }

    pub open spec fn wf(&self) -> bool {
        &&& self.ids@.len() == self.cells@.len()
        &&& self.entities@.len() == self.cells@.len()
        &&& self.base + self.cells@.len() <= u32::MAX
        &&& forall|i: int, j: int|
            0 <= i < j < self.count() ==> key_lt(#[trigger] self.key(i), #[trigger] self.key(j))
    }

    fn key_at(&self, local: usize) -> (key: Key)
        requires
            self.wf(),
            local < self.count(),
        ensures
            key == self.key(local as int),
    {
        (self.cells[local], self.ids[local])
    }

    /// How many rows a scan position covers.
    pub open spec fn split(&self, n: int, after: Option<Key>) -> bool {
        &&& 0 <= n <= self.count()
        &&& forall|i: int| 0 <= i < n ==> !past(#[trigger] self.key(i), after)
        &&& forall|i: int| n <= i < self.count() ==> past(#[trigger] self.key(i), after)
    }
}

/// The first row of a segment past a scan position, by binary search.
pub fn first_after(segment: &SegmentRows, after: Option<Key>) -> (local: u32)
    requires
        segment.wf(),
    ensures
        segment.split(local as int, after),
{
    match after {
        None => 0,
        Some(at) => {
            let mut lo: usize = 0;
            let mut hi: usize = segment.cells.len();
            while lo < hi
                invariant
                    segment.wf(),
                    lo <= hi <= segment.count(),
                    forall|i: int| 0 <= i < lo ==> !past(#[trigger] segment.key(i), Some(at)),
                    forall|i: int|
                        hi <= i < segment.count() ==> past(#[trigger] segment.key(i), Some(at)),
                decreases hi - lo,
            {
                let mid: usize = lo + (hi - lo) / 2;
                if less(at, segment.key_at(mid)) {
                    proof {
                        assert forall|i: int| mid <= i < segment.count() implies past(
                            #[trigger] segment.key(i),
                            Some(at),
                        ) by {
                            if i > mid {
                                assert(key_lt(segment.key(mid as int), segment.key(i)));
                            }
                        }
                    }
                    hi = mid;
                } else {
                    proof {
                        assert forall|i: int| 0 <= i < mid + 1 implies !past(
                            #[trigger] segment.key(i),
                            Some(at),
                        ) by {
                            if i < mid {
                                assert(key_lt(segment.key(i), segment.key(mid as int)));
                            }
                        }
                    }
                    lo = mid + 1;
                }
            }
            lo as u32
        },
    }
}

/// The first row of a segment at or past a stretch's end, or the segment's end.
pub fn first_at(segment: &SegmentRows, until: Option<Key>) -> (local: u32)
    requires
        segment.wf(),
    ensures
        local <= segment.count(),
        forall|i: int| 0 <= i < local ==> below(#[trigger] segment.key(i), until),
        forall|i: int| local <= i < segment.count() ==> !below(#[trigger] segment.key(i), until),
{
    match until {
        None => segment.cells.len() as u32,
        Some(end) => {
            let local: u32 = first_after(segment, before(end));
            proof {
                assert forall|i: int| 0 <= i < segment.count() implies past(
                    #[trigger] segment.key(i),
                    before_of(end),
                ) == !below(segment.key(i), until) by {
                    lemma_before(end, segment.key(i));
                }
            }
            local
        },
    }
}

/// A taken row's key.
pub open spec fn row_key(order: RecordsOrder, segments: Seq<SegmentRows>, row: Taken) -> Key {
    match order {
        RecordsOrder::ByMap => segments[row.seg as int].key(row.local as int),
        RecordsOrder::Stored => (row.entity, 0),
    }
}

/// [`row_key`], computed.
pub fn key_of(order: RecordsOrder, segments: &Vec<SegmentRows>, row: &Taken) -> (key: Key)
    requires
        segments_wf(segments@),
        row.seg < segments@.len(),
        row.local < segments@[row.seg as int].count(),
    ensures
        key == row_key(order, segments@, *row),
{
    match order {
        RecordsOrder::ByMap => {
            assert(segments@[row.seg as int].wf());
            segments[row.seg].key_at(row.local as usize)
        },
        RecordsOrder::Stored => (row.entity, 0),
    }
}

/// Every segment is well formed.
pub open spec fn segments_wf(segments: Seq<SegmentRows>) -> bool {
    forall|s: int| 0 <= s < segments.len() ==> (#[trigger] segments[s]).wf()
}

/// What a generation's row positions and deny state are.
#[derive(Debug)]
pub struct Publication {
    pub prefix: String,
    pub segments_version: u64,
    /// Which overlay it carries.
    pub overlay: u64,
}

/// Whether two publications share the row positions and the deny state.
pub open spec fn publication_is(a: Publication, b: Publication) -> bool {
    a.prefix@ == b.prefix@ && a.segments_version == b.segments_version && a.overlay == b.overlay
}

/// [`publication_is`], computed.
pub fn same_publication(a: &Publication, b: &Publication) -> (yes: bool)
    ensures
        yes == publication_is(*a, *b),
{
    same(a.prefix.as_str(), b.prefix.as_str()) && a.segments_version == b.segments_version
        && a.overlay == b.overlay
}

/// How far a read has gone: every row at or before `scan` has been returned or passed over, and a
/// read resumes after it.
#[derive(Clone, Copy, Debug, PartialEq, Eq)]
pub struct Position {
    pub order: RecordsOrder,
    pub scan: Option<Key>,
}

impl Position {
    /// The start of a read.
    pub fn start(order: RecordsOrder) -> (position: Position)
        ensures
            position == (Position { order, scan: None }),
    {
        Position { order, scan: None }
    }
}

/// A segment's rows are split where they pass a scan position: those before the split have a cell and
/// identifier at or before the position's, and those from it on come after.
pub proof fn law_a_segment_is_split_at_the_scan_position(
    segment: SegmentRows,
    local: u32,
    after: Option<Key>,
    i: int,
)
    requires
        segment.split(local as int, after),
        0 <= i < segment.cells@.len(),
    ensures
        local <= segment.cells@.len(),
        after is None ==> local == 0,
        after is Some ==> ({
            let (cell, id) = after->0;
            local <= i <==> (cell < segment.cells@[i] || (cell == segment.cells@[i] && id
                < segment.ids@[i]))
        }),
{
    assert(i < local ==> !past(segment.key(i), after));
    assert(local <= i ==> past(segment.key(i), after));
    if after is None && local > 0 {
        assert(!past(segment.key(0), after));
    }
}

/// The key just before another leaves nothing between them: what comes after it is the other and
/// what follows. There is none before the least.
pub proof fn law_nothing_lies_between_a_key_and_the_one_before(key: Key, other: Key)
    ensures
        ({
            let before = before_of(key);
            let (cell, id) = key;
            let (at, of) = other;
            &&& before is None <==> cell == 0 && id == 0
            &&& before is Some ==> ({
                let (c, d) = before->0;
                (c < at || (c == at && d < of)) <==> (cell < at || (cell == at && id <= of))
            })
        }),
{
}

/// A row's key is its cell and identifier in map order, and its entity in stored order.
pub proof fn law_a_rows_key_is_its_place_in_the_order(segments: Seq<SegmentRows>, row: Taken)
    ensures
        ({
            let (cell, id) = row_key(RecordsOrder::ByMap, segments, row);
            let (entity, zero) = row_key(RecordsOrder::Stored, segments, row);
            &&& cell == segments[row.seg as int].cells@[row.local as int]
            &&& id == segments[row.seg as int].ids@[row.local as int]
            &&& entity == row.entity && zero == 0
        }),
{
}

/// Two publications are one exactly where their prefix, their segments and their deny state are.
pub proof fn law_a_publication_is_its_prefix_segments_and_denies(a: Publication, b: Publication)
    ensures
        publication_is(a, b) ==> a.prefix@ == b.prefix@,
        publication_is(a, b) ==> a.segments_version == b.segments_version,
        publication_is(a, b) ==> a.overlay == b.overlay,
        a.prefix@ == b.prefix@ && a.segments_version == b.segments_version && a.overlay == b.overlay
            ==> publication_is(a, b),
{
}

} // verus!
