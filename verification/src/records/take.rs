//! Taking a stretch's rows into a page.
//!
//! The rows that the page's mask admits, and the filter where rows must match, are taken in the
//! walk's order. They are gathered a chunk at a time, and the clock is read before each chunk.

use croaring::Bitmap;
use vstd::prelude::*;

use crate::bitmap;
use crate::bitmap::{ascending, bits};
use crate::records::walk::{
    below, first_after, first_at, key_le, key_lt, past, segments_wf, Key, SegmentRows, Taken,
    CHUNK_MIN, STORED_CHUNK,
};
use crate::records::ResponseEndedBy;
use crate::seqs::lemma_filter_positions;

verus! {

/// What a page is taken through: the mask composed for it, the rows the stretch's filter admits
/// where there is one, and whether rows that do not match are kept.
pub struct PageMask {
    pub mask: Bitmap,
    pub filter: Option<Bitmap>,
    pub keep_unmatched: bool,
}

impl PageMask {
    /// Whether a row matches.
    pub open spec fn matches(&self, row: u32) -> bool {
        self.filter matches Some(filter) ==> bits(filter).contains(row)
    }

    /// Whether a row is taken.
    pub open spec fn admits(&self, row: u32) -> bool {
        bits(self.mask).contains(row) && (self.keep_unmatched || self.matches(row))
    }

    fn row_matches(&self, row: u32) -> (yes: bool)
        ensures
            yes == self.matches(row),
    {
        match &self.filter {
            None => true,
            Some(filter) => bitmap::contains(filter, row),
        }
    }

    fn row_admitted(&self, row: u32) -> (yes: bool)
        ensures
            yes == self.admits(row),
    {
        bitmap::contains(&self.mask, row) && (self.keep_unmatched || self.row_matches(row))
    }

    /// The rows from `lo` up to, and without, `hi` that are taken, ascending.
    fn admitted_rows(&self, lo: u32, hi: u32) -> (rows: Vec<u32>)
        requires
            lo < hi,
        ensures
            ascending(rows@),
            forall|x: u32| #[trigger] rows@.contains(x) == (lo <= x < hi && self.admits(x)),
    {
        let mut window = bitmap::empty();
        bitmap::insert_range(&mut window, lo, hi - 1);
        bitmap::intersect_with(&mut window, &self.mask);
        if !self.keep_unmatched {
            if let Some(filter) = &self.filter {
                bitmap::intersect_with(&mut window, filter);
            }
        }
        let rows = bitmap::elements(&window);
        proof {
            assert forall|x: u32| #[trigger] rows@.contains(x) == (lo <= x < hi && self.admits(
                x,
            )) by {
                assert(rows@.to_set().contains(x) == bits(window).contains(x));
            }
        }
        rows
    }
}

/// Whether a segment's row is taken.
pub open spec fn takes(segment: SegmentRows, page: PageMask, local: int) -> bool {
    page.admits((segment.base + local) as u32)
}

/// One segment's rows of a stretch, gathered a chunk at a time.
#[derive(Debug)]
pub struct SegmentRun {
    /// The segment's first row past the scan position.
    pub first: u32,
    /// The first row not yet gathered, and the end of the stretch in this segment.
    pub next: u32,
    pub end: u32,
    pub chunk: u32,
    /// Gathered rows, each with whether it matched.
    pub buffered: Vec<(u32, bool)>,
    pub at: usize,
}

impl SegmentRun {
    /// The first row the scan has not passed.
    pub open spec fn reached(&self) -> int {
        if self.at < self.buffered@.len() {
            self.buffered@[self.at as int].0 as int
        } else {
            self.next as int
        }
    }

    /// Whether a row of the segment's part of the stretch remains.
    pub open spec fn left(&self) -> bool {
        self.reached() < self.end
    }

    /// The buffer's rest is exactly the rows that are taken from the first unreached one up to the
    /// first that is not gathered.
    pub open spec fn wf(&self, segment: SegmentRows, page: PageMask) -> bool {
        &&& self.first <= self.next
        &&& self.end <= segment.count()
        &&& self.next <= self.end || (self.next == self.first && self.buffered@.len() == 0)
        &&& self.chunk >= 1
        &&& self.at <= self.buffered@.len()
        &&& forall|i: int, j: int|
            0 <= i < j < self.buffered@.len() ==> (#[trigger] self.buffered@[i]).0 < (
            #[trigger] self.buffered@[j]).0
        &&& forall|i: int|
            0 <= i < self.buffered@.len() ==> self.first <= (#[trigger] self.buffered@[i]).0
                < self.next && takes(segment, page, self.buffered@[i].0 as int)
                && self.buffered@[i].1 == page.matches(
                (segment.base + self.buffered@[i].0) as u32,
            )
        &&& forall|local: int|
            self.reached() <= local < self.next && #[trigger] takes(segment, page, local)
                ==> self.holds(local)
    }

    /// Whether the buffer's rest holds a row.
    pub open spec fn holds(&self, local: int) -> bool {
        exists|i: int|
            self.at <= i < self.buffered@.len() && (#[trigger] self.buffered@[i]).0 == local
    }

    /// The first key the scan has not passed.
    fn first_unreached(&self, segment: &SegmentRows, Ghost(page): Ghost<PageMask>) -> (key: Option<
        Key,
    >)
        requires
            segment.wf(),
            self.wf(*segment, page),
        ensures
            key is Some <==> self.left(),
            key matches Some(k) ==> k == segment.key(self.reached()),
    {
        if self.at < self.buffered.len() {
            let local: usize = self.buffered[self.at].0 as usize;
            Some((segment.cells[local], segment.ids[local]))
        } else if self.next < self.end {
            let local: usize = self.next as usize;
            Some((segment.cells[local], segment.ids[local]))
        } else {
            None
        }
    }

    /// Where the next chunk ends.
    pub open spec fn chunk_end(&self) -> int {
        if self.end - self.next <= self.chunk {
            self.end as int
        } else {
            self.next + self.chunk
        }
    }

    /// How long the chunk after the next one is: twice as long, or as long as there can be.
    pub open spec fn doubled(&self) -> int {
        if self.chunk <= u32::MAX / 2 {
            self.chunk * 2
        } else {
            u32::MAX as int
        }
    }

    /// Whether this is `from` with its next chunk gathered.
    pub open spec fn gathered(&self, from: SegmentRun) -> bool {
        self.next == from.chunk_end() && self.chunk == from.doubled()
    }

    /// Gather the next chunk through the page's mask.
    fn gather(&mut self, segment: &SegmentRows, page: &PageMask)
        requires
            segment.wf(),
            old(self).wf(*segment, *page),
            old(self).at == old(self).buffered@.len(),
            old(self).next < old(self).end,
        ensures
            final(self).wf(*segment, *page),
            final(self).first == old(self).first,
            final(self).end == old(self).end,
            old(self).next < final(self).next,
            final(self).gathered(*old(self)),
            final(self).at == 0,
            old(self).reached() <= final(self).reached(),
            forall|local: int|
                old(self).reached() <= local < final(self).reached() ==> !(#[trigger] takes(
                    *segment,
                    *page,
                    local,
                )),
    {
        let ghost from = *self;
        let hi: u32 = if self.end - self.next <= self.chunk {
            self.end
        } else {
            self.next + self.chunk
        };
        let base: u32 = segment.base;
        let rows = page.admitted_rows(base + self.next, base + hi);
        let mut buffered: Vec<(u32, bool)> = Vec::new();
        let mut k: usize = 0;
        while k < rows.len()
            invariant
                k <= rows@.len(),
                base == segment.base,
                segment.wf(),
                self.next < hi <= self.end <= segment.count(),
                ascending(rows@),
                forall|x: u32| #[trigger]
                    rows@.contains(x) == (base + self.next <= x < base + hi && page.admits(x)),
                buffered@.len() == k,
                forall|i: int|
                    0 <= i < k ==> base + (#[trigger] buffered@[i]).0 == rows@[i] && buffered@[i].1
                        == page.matches(rows@[i]),
            decreases rows@.len() - k,
        {
            let row: u32 = rows[k];
            assert(rows@.contains(row));
            buffered.push((row - base, page.row_matches(row)));
            k += 1;
        }
        self.buffered = buffered;
        self.at = 0;
        self.next = hi;
        self.chunk = if self.chunk <= u32::MAX / 2 {
            self.chunk * 2
        } else {
            u32::MAX
        };
        proof {
            assert forall|i: int| 0 <= i < self.buffered@.len() implies self.first <= (
            #[trigger] self.buffered@[i]).0 < self.next && takes(
                *segment,
                *page,
                self.buffered@[i].0 as int,
            ) && self.buffered@[i].1 == page.matches(
                (segment.base + self.buffered@[i].0) as u32,
            ) by {
                assert(rows@.contains(rows@[i]));
            }
            assert forall|local: int|
                from.next <= local < self.next && #[trigger] takes(*segment, *page, local) implies (
            exists|i: int|
                0 <= i < self.buffered@.len() && (#[trigger] self.buffered@[i]).0 == local) by {
                let row = (base + local) as u32;
                assert(rows@.contains(row));
                let i = choose|i: int| 0 <= i < rows@.len() && rows@[i] == row;
                assert(self.buffered@[i].0 == local);
            }
            assert(from.next <= self.reached()) by {
                if self.buffered@.len() > 0 {
                    assert(rows@.contains(rows@[0]));
                    assert(base + self.buffered@[0].0 == rows@[0]);
                }
            }
            assert forall|local: int|
                self.reached() <= local < self.next && #[trigger] takes(
                    *segment,
                    *page,
                    local,
                ) implies self.holds(local) by {
                let i = choose|i: int|
                    0 <= i < self.buffered@.len() && (#[trigger] self.buffered@[i]).0 == local;
                assert(self.buffered@[i].0 == local);
            }
            assert forall|local: int| from.reached() <= local < self.reached() implies !(
            #[trigger] takes(*segment, *page, local)) by {
                if takes(*segment, *page, local) {
                    let i = choose|i: int|
                        0 <= i < self.buffered@.len() && (#[trigger] self.buffered@[i]).0 == local;
                    if i > 0 {
                        assert(self.buffered@[0].0 < self.buffered@[i].0);
                    }
                }
            }
        }
    }
}

/// One row's place among all of a view's: by key, then by segment, then by row.
pub open spec fn row_before(
    segments: Seq<SegmentRows>,
    a_seg: int,
    a_local: int,
    b_seg: int,
    b_local: int,
) -> bool {
    let a = segments[a_seg].key(a_local);
    let b = segments[b_seg].key(b_local);
    ||| key_lt(a, b)
    ||| a == b && a_seg < b_seg
    ||| a == b && a_seg == b_seg && a_local < b_local
}

/// Whether a row was taken from `from` on.
pub open spec fn taken_at(rows: Seq<Taken>, from: int, seg: int, local: int) -> bool {
    exists|n: int|
        from <= n < rows.len() && (#[trigger] rows[n]).seg == seg && rows[n].local == local
}

/// Whether a taken row is the segment's own, located where it says.
pub open spec fn is_row(row: Taken, segments: Seq<SegmentRows>, page: PageMask) -> bool {
    let segment = segments[row.seg as int];
    &&& row.seg < segments.len()
    &&& row.local < segment.count()
    &&& row.tessera_id == segment.ids@[row.local as int]
    &&& row.entity == segment.entities@[row.local as int]
    &&& takes(segment, page, row.local as int)
    &&& row.matched == page.matches((segment.base + row.local) as u32)
}

/// What one step of a take came to.
#[derive(Clone, Copy, Debug, PartialEq, Eq)]
pub enum TakeProgress {
    /// A chunk was gathered, or tested: the clock is read again before the next.
    More,
    /// The page holds as many rows as it asked for.
    Filled,
    /// Nothing of the stretch remains.
    Spent,
    /// The clock stopped the scan, at the first key it did not reach.
    Stopped(ResponseEndedBy, Key),
}

/// A map stretch's rows being taken into a page: merged across segments in `(cell, id)` order.
#[derive(Debug)]
pub struct MapTake {
    pub runs: Vec<SegmentRun>,
    /// How many rows the page held when the take began.
    pub from: usize,
    /// The first key the take began at.
    pub began_at: Option<Key>,
}

/// How long a segment's first chunk is: as long as the page still needs, and at least
/// [`CHUNK_MIN`] rows.
pub open spec fn first_chunk(wanted: int) -> int {
    if wanted > u32::MAX {
        u32::MAX as int
    } else if wanted < CHUNK_MIN {
        CHUNK_MIN as int
    } else {
        wanted
    }
}

impl MapTake {
    /// What was taken so far is every row before the first unreached row of each segment that the
    /// page admits, in order, and comes before everything that is unreached.
    pub open spec fn wf(
        &self,
        segments: Seq<SegmentRows>,
        page: PageMask,
        rows: Seq<Taken>,
    ) -> bool {
        &&& segments_wf(segments)
        &&& self.runs@.len() == segments.len()
        &&& self.from <= rows.len()
        &&& forall|s: int|
            0 <= s < segments.len() ==> (#[trigger] self.runs@[s]).wf(segments[s], page)
        &&& forall|n: int|
            self.from <= n < rows.len() ==> is_row(#[trigger] rows[n], segments, page)
                && self.runs@[rows[n].seg as int].first <= rows[n].local
                < self.runs@[rows[n].seg as int].reached()
        &&& forall|s: int, local: int|
            0 <= s < segments.len() && self.runs@[s].first <= local < self.runs@[s].reached()
                && #[trigger] takes(segments[s], page, local) ==> taken_at(
                rows,
                self.from as int,
                s,
                local,
            )
        &&& forall|n: int, m: int|
            self.from <= n < m < rows.len() ==> row_before(
                segments,
                (#[trigger] rows[n]).seg as int,
                rows[n].local as int,
                (#[trigger] rows[m]).seg as int,
                rows[m].local as int,
            )
        &&& forall|n: int, s: int|
            self.from <= n < rows.len() && 0 <= s < segments.len() && (
            #[trigger] self.runs@[s]).left() ==> row_before(
                segments,
                (#[trigger] rows[n]).seg as int,
                rows[n].local as int,
                s,
                self.runs@[s].reached(),
            )
    }

    /// Whether no segment but the one at `but` was gathered since `from`.
    pub open spec fn chunks_kept(&self, from: MapTake, but: int) -> bool {
        forall|s: int|
            0 <= s < from.runs@.len() && s != but ==> (#[trigger] self.runs@[s]).next
                == from.runs@[s].next && self.runs@[s].chunk == from.runs@[s].chunk
    }

    /// The take's rows of each segment are those past `scan` and below `until`.
    pub open spec fn within(
        &self,
        segments: Seq<SegmentRows>,
        scan: Option<Key>,
        until: Option<Key>,
    ) -> bool {
        forall|s: int, local: int|
            0 <= s < segments.len() && 0 <= local < segments[s].count() ==> (
            self.runs@[s].first <= local) == past(#[trigger] segments[s].key(local), scan) && (
            local < self.runs@[s].end) == below(segments[s].key(local), until)
    }

    /// A take of the rows past `scan` and below `until`, into a page that holds `held` rows and
    /// wants `need`.
    pub fn new(
        segments: &Vec<SegmentRows>,
        page: &PageMask,
        scan: Option<Key>,
        until: Option<Key>,
        need: usize,
        rows: &Vec<Taken>,
    ) -> (take: MapTake)
        requires
            segments_wf(segments@),
            rows@.len() <= need,
        ensures
            take.wf(segments@, *page, rows@),
            take.within(segments@, scan, until),
            take.from == rows@.len(),
            forall|s: int|
                0 <= s < segments@.len() ==> (#[trigger] take.runs@[s]).next == take.runs@[s].first
                    && take.runs@[s].buffered@.len() == 0 && take.runs@[s].chunk == first_chunk(
                    need - rows@.len(),
                ),
            take.began_at is None <==> forall|s: int|
                0 <= s < segments@.len() ==> !(#[trigger] take.runs@[s]).left(),
            take.began_at matches Some(key) ==> {
                &&& exists|s: int|
                    0 <= s < segments@.len() && (#[trigger] take.runs@[s]).left() && key
                        == segments@[s].key(take.runs@[s].reached())
                &&& forall|s: int|
                    0 <= s < segments@.len() && (#[trigger] take.runs@[s]).left() ==> key_le(
                        key,
                        segments@[s].key(take.runs@[s].reached()),
                    )
            },
    {
        let wanted: usize = need - rows.len();
        let chunk: u32 = if wanted > u32::MAX as usize {
            u32::MAX
        } else if (wanted as u32) < CHUNK_MIN {
            CHUNK_MIN
        } else {
            wanted as u32
        };
        let mut runs: Vec<SegmentRun> = Vec::new();
        let mut s: usize = 0;
        while s < segments.len()
            invariant
                s <= segments@.len(),
                segments_wf(segments@),
                chunk >= 1,
                runs@.len() == s,
                forall|k: int|
                    0 <= k < s ==> (#[trigger] runs@[k]).wf(segments@[k], *page) && runs@[k].first
                        == runs@[k].next && runs@[k].buffered@.len() == 0 && runs@[k].chunk
                        == chunk,
                forall|k: int, local: int|
                    0 <= k < s && 0 <= local < segments@[k].count() ==> (runs@[k].first <= local)
                        == past(#[trigger] segments@[k].key(local), scan) && (local < runs@[k].end)
                        == below(segments@[k].key(local), until),
            decreases segments@.len() - s,
        {
            assert(segments@[s as int].wf());
            let first: u32 = first_after(&segments[s], scan);
            let end: u32 = first_at(&segments[s], until);
            let run = SegmentRun { first, next: first, end, chunk, buffered: Vec::new(), at: 0 };
            proof {
                let segment = segments@[s as int];
                assert forall|local: int| 0 <= local < segment.count() implies (first <= local)
                    == past(#[trigger] segment.key(local), scan) && (local < end) == below(
                    segment.key(local),
                    until,
                ) by {}
            }
            runs.push(run);
            s += 1;
        }
        let mut take = MapTake { runs, from: rows.len(), began_at: None };
        let least = take.least(segments, Ghost(*page), Ghost(rows@));
        take.began_at = match least {
            Some((key, _)) => Some(key),
            None => None,
        };
        take
    }

    /// The least key the scan has not reached, and the segment that holds it.
    fn least(
        &self,
        segments: &Vec<SegmentRows>,
        Ghost(page): Ghost<PageMask>,
        Ghost(rows): Ghost<Seq<Taken>>,
    ) -> (found: Option<(Key, usize)>)
        requires
            self.wf(segments@, page, rows),
        ensures
            found is None <==> forall|s: int|
                0 <= s < segments@.len() ==> !(#[trigger] self.runs@[s]).left(),
            found matches Some((key, s)) ==> {
                &&& s < segments@.len()
                &&& self.runs@[s as int].left()
                &&& key == segments@[s as int].key(self.runs@[s as int].reached())
                &&& forall|t: int|
                    0 <= t < segments@.len() && (#[trigger] self.runs@[t]).left() ==> key_lt(
                        key,
                        segments@[t].key(self.runs@[t].reached()),
                    ) || (key == segments@[t].key(self.runs@[t].reached()) && s <= t)
            },
    {
        let mut found: Option<(Key, usize)> = None;
        let mut s: usize = 0;
        while s < segments.len()
            invariant
                s <= segments@.len(),
                self.wf(segments@, page, rows),
                found is None <==> forall|t: int|
                    0 <= t < s ==> !(#[trigger] self.runs@[t]).left(),
                found matches Some((key, k)) ==> {
                    &&& k < s
                    &&& self.runs@[k as int].left()
                    &&& key == segments@[k as int].key(self.runs@[k as int].reached())
                    &&& forall|t: int|
                        0 <= t < s && (#[trigger] self.runs@[t]).left() ==> key_lt(
                            key,
                            segments@[t].key(self.runs@[t].reached()),
                        ) || (key == segments@[t].key(self.runs@[t].reached()) && k <= t)
                },
            decreases segments@.len() - s,
        {
            assert(segments@[s as int].wf());
            assert(self.runs@[s as int].wf(segments@[s as int], page));
            if let Some(key) = self.runs[s].first_unreached(&segments[s], Ghost(page)) {
                let better: bool = match found {
                    None => true,
                    Some((held, _)) => key.0 < held.0 || (key.0 == held.0 && key.1 < held.1),
                };
                if better {
                    found = Some((key, s));
                }
            }
            s += 1;
        }
        found
    }

    /// Take rows until the page holds `need`, nothing remains, or a chunk has to be gathered: the
    /// clock's reading is honoured before the chunk where stopping moves the position, and one
    /// chunk is gathered otherwise.
    pub fn advance(
        &mut self,
        segments: &Vec<SegmentRows>,
        page: &PageMask,
        need: usize,
        moved: bool,
        stop: Option<ResponseEndedBy>,
        rows: &mut Vec<Taken>,
    ) -> (progress: TakeProgress)
        requires
            old(self).wf(segments@, *page, old(rows)@),
            old(rows)@.len() <= need,
        ensures
            final(self).wf(segments@, *page, final(rows)@),
            final(self).from == old(self).from,
            final(self).began_at == old(self).began_at,
            forall|s: int|
                0 <= s < segments@.len() ==> (#[trigger] final(self).runs@[s]).first == old(self).runs@[s].first && final(self).runs@[s].end == old(self).runs@[s].end,
            old(rows)@.len() <= final(rows)@.len() <= need,
            final(rows)@.take(old(rows)@.len() as int) == old(rows)@,
            progress is Filled <==> final(rows)@.len() == need,
            progress is Spent ==> forall|s: int|
                0 <= s < segments@.len() ==> !(#[trigger] final(self).runs@[s]).left(),
            progress matches TakeProgress::Stopped(reason, key) ==> {
                &&& stop == Some(reason)
                &&& final(rows)@.len() > 0 || moved || !(old(self).began_at matches Some(began)
                    && key_le(key, began))
                &&& forall|s: int|
                    0 <= s < segments@.len() && (#[trigger] final(self).runs@[s]).left() ==> key_le(
                        key,
                        segments@[s].key(final(self).runs@[s].reached()),
                    )
                &&& exists|s: int|
                    0 <= s < segments@.len() && (#[trigger] final(self).runs@[s]).left() && key
                        == segments@[s].key(final(self).runs@[s].reached())
            },
            progress is More ==> final(self).ungathered() < old(self).ungathered(),
            progress is More ==> exists|i: int|
                0 <= i < segments@.len() && (#[trigger] final(self).runs@[i]).gathered(old(self).runs@[i]) && final(self).chunks_kept(*old(self), i),
            !(progress is More) ==> final(self).chunks_kept(*old(self), -1),
            progress is More && stop is Some ==> final(rows)@.len() == 0 && !moved && exists|s: int|
                0 <= s < segments@.len() && (#[trigger] old(self).runs@[s]).left() && (
                old(self).began_at matches Some(began) && key_le(
                    segments@[s].key(old(self).runs@[s].reached()),
                    began,
                )),
    {
        let ghost start = *self;
        let ghost held = rows@;
        assert(rows@.take(held.len() as int) =~= held);
        while rows.len() < need
            invariant
                self.wf(segments@, *page, rows@),
                self.from == start.from,
                self.began_at == start.began_at,
                start == *old(self),
                forall|s: int|
                    0 <= s < segments@.len() ==> (#[trigger] self.runs@[s]).first
                        == start.runs@[s].first && self.runs@[s].end == start.runs@[s].end
                        && self.runs@[s].next == start.runs@[s].next,
                self.chunks_kept(start, -1),
                self.runs@.len() == start.runs@.len(),
                held == old(rows)@,
                held.len() <= rows@.len() <= need,
                rows@.take(held.len() as int) == held,
                rows@.len() == 0 ==> self.runs@ == start.runs@,
            decreases need - rows@.len(),
        {
            let found = self.least(segments, Ghost(*page), Ghost(rows@));
            match found {
                None => {
                    return TakeProgress::Spent;
                },
                Some((key, i)) => {
                    assert(segments@[i as int].wf());
                    assert(self.runs@[i as int].wf(segments@[i as int], *page));
                    if self.runs[i].at < self.runs[i].buffered.len() {
                        self.take_buffered(segments, Ghost(*page), i, rows);
                        assert(rows@.take(held.len() as int) =~= held);
                    } else {
                        if let Some(reason) = stop {
                            let ahead: bool = match self.began_at {
                                Some(began) => began.0 < key.0 || (began.0 == key.0 && began.1
                                    < key.1),
                                None => true,
                            };
                            if rows.len() > 0 || moved || ahead {
                                return TakeProgress::Stopped(reason, key);
                            }
                        }
                        let ghost before = *self;
                        self.gather_chunk(segments, page, i, Ghost(rows@));
                        proof {
                            assert(before.runs@[i as int].left());
                            assert(key == segments@[i as int].key(before.runs@[i as int].reached()));
                            lemma_gathered(start.runs@, self.runs@, i as int);
                            assert(self.runs@[i as int].gathered(before.runs@[i as int]));
                            assert(before.runs@[i as int].next == start.runs@[i as int].next);
                        }
                        return TakeProgress::More;
                    }
                },
            }
        }
        TakeProgress::Filled
    }

    /// How many rows of the stretch were not gathered yet.
    pub open spec fn ungathered(&self) -> int {
        ungathered(self.runs@)
    }

    /// Take the least unreached row, which is gathered.
    fn take_buffered(
        &mut self,
        segments: &Vec<SegmentRows>,
        Ghost(page): Ghost<PageMask>,
        i: usize,
        rows: &mut Vec<Taken>,
    )
        requires
            old(self).wf(segments@, page, old(rows)@),
            i < segments@.len(),
            old(self).runs@[i as int].at < old(self).runs@[i as int].buffered@.len(),
            ({
                let key = segments@[i as int].key(old(self).runs@[i as int].reached());
                forall|t: int|
                    0 <= t < segments@.len() && (#[trigger] old(self).runs@[t]).left() ==> key_lt(
                        key,
                        segments@[t].key(old(self).runs@[t].reached()),
                    ) || (key == segments@[t].key(old(self).runs@[t].reached()) && i <= t)
            }),
        ensures
            final(self).wf(segments@, page, final(rows)@),
            final(self).from == old(self).from,
            final(self).began_at == old(self).began_at,
            final(self).runs@.len() == old(self).runs@.len(),
            forall|s: int|
                0 <= s < segments@.len() ==> (#[trigger] final(self).runs@[s]).first == old(self).runs@[s].first && final(self).runs@[s].end == old(self).runs@[s].end && final(self).runs@[s].next == old(self).runs@[s].next && final(self).runs@[s].chunk == old(self).runs@[s].chunk,
            final(rows)@.len() == old(rows)@.len() + 1,
            final(rows)@.take(old(rows)@.len() as int) == old(rows)@,
    {
        let ghost from = *self;
        let ghost held = rows@;
        let ghost run = self.runs@[i as int];
        proof {
            assert(segments@[i as int].wf());
            assert(run.wf(segments@[i as int], page));
        }
        let at: usize = self.runs[i].at;
        let gathered: usize = self.runs[i].buffered.len();
        assert(at < gathered);
        let (local, matched) = self.runs[i].buffered[at];
        let segment = &segments[i];
        rows.push(
            Taken {
                seg: i,
                local,
                tessera_id: segment.ids[local as usize],
                entity: segment.entities[local as usize],
                matched,
            },
        );
        self.runs[i].at = at + 1;
        proof {
            let now = self.runs@[i as int];
            let n = held.len() as int;
            assert(rows@.take(n) =~= held);
            assert(now.buffered@ == run.buffered@);
            assert(run.reached() == local);
            assert(local < now.reached()) by {
                if now.at < now.buffered@.len() {
                    assert(run.buffered@[at as int].0 < run.buffered@[at + 1].0);
                }
            }
            // Between the row taken and the next unreached one, nothing is taken.
            assert forall|l: int| local < l < now.reached() implies !(#[trigger] takes(
                segments@[i as int],
                page,
                l,
            )) by {
                if takes(segments@[i as int], page, l) && l < run.next {
                    assert(run.holds(l));
                    let k = choose|k: int|
                        run.at <= k < run.buffered@.len() && (#[trigger] run.buffered@[k]).0 == l;
                    if k > at + 1 {
                        assert(run.buffered@[at + 1].0 < run.buffered@[k].0);
                    }
                }
            }
            assert(now.wf(segments@[i as int], page)) by {
                assert forall|l: int|
                    now.reached() <= l < now.next && #[trigger] takes(
                        segments@[i as int],
                        page,
                        l,
                    ) implies now.holds(l) by {
                    assert(run.holds(l));
                    let k = choose|k: int|
                        run.at <= k < run.buffered@.len() && (#[trigger] run.buffered@[k]).0 == l;
                    assert(now.buffered@[k].0 == l && k >= now.at);
                }
            }
            assert forall|s: int| 0 <= s < segments@.len() implies (#[trigger] self.runs@[s]).wf(
                segments@[s],
                page,
            ) by {
                if s != i {
                    assert(self.runs@[s] == from.runs@[s]);
                    assert(from.runs@[s].wf(segments@[s], page));
                }
            }
            assert forall|k: int| self.from <= k < rows@.len() implies is_row(
                #[trigger] rows@[k],
                segments@,
                page,
            ) && self.runs@[rows@[k].seg as int].first <= rows@[k].local
                < self.runs@[rows@[k].seg as int].reached() by {
                if k < n {
                    assert(rows@[k] == held[k]);
                    assert(is_row(held[k], segments@, page));
                    if held[k].seg != i {
                        assert(self.runs@[held[k].seg as int] == from.runs@[held[k].seg as int]);
                    }
                }
            }
            assert forall|s: int, l: int|
                0 <= s < segments@.len() && self.runs@[s].first <= l < self.runs@[s].reached()
                    && #[trigger] takes(segments@[s], page, l) implies taken_at(
                rows@,
                self.from as int,
                s,
                l,
            ) by {
                if s == i && l == local {
                    assert(rows@[n].seg == s && rows@[n].local == l);
                } else {
                    if s != i {
                        assert(self.runs@[s] == from.runs@[s]);
                    }
                    assert(taken_at(held, from.from as int, s, l));
                    let k = choose|k: int|
                        from.from <= k < held.len() && (#[trigger] held[k]).seg == s
                            && held[k].local == l;
                    assert(rows@[k] == held[k]);
                }
            }
            assert(run.left());
            assert forall|a: int, b: int| self.from <= a < b < rows@.len() implies row_before(
                segments@,
                (#[trigger] rows@[a]).seg as int,
                rows@[a].local as int,
                (#[trigger] rows@[b]).seg as int,
                rows@[b].local as int,
            ) by {
                assert(rows@[a] == held[a]);
                if b < n {
                    assert(rows@[b] == held[b]);
                } else {
                    assert(from.runs@[i as int].left());
                }
            }
            assert forall|a: int, s: int|
                self.from <= a < rows@.len() && 0 <= s < segments@.len() && (
                #[trigger] self.runs@[s]).left() implies row_before(
                segments@,
                (#[trigger] rows@[a]).seg as int,
                rows@[a].local as int,
                s,
                self.runs@[s].reached(),
            ) by {
                if s != i {
                    assert(self.runs@[s] == from.runs@[s]);
                    if a < n {
                        assert(rows@[a] == held[a]);
                    }
                } else {
                    let next = now.reached();
                    assert(key_le(
                        segments@[i as int].key(local as int),
                        segments@[i as int].key(next),
                    ));
                    if a < n {
                        assert(rows@[a] == held[a]);
                        assert(from.runs@[i as int].left());
                    }
                }
            }
        }
    }

    /// Gather a chunk of the segment that holds the least unreached key.
    fn gather_chunk(
        &mut self,
        segments: &Vec<SegmentRows>,
        page: &PageMask,
        i: usize,
        Ghost(rows): Ghost<Seq<Taken>>,
    )
        requires
            old(self).wf(segments@, *page, rows),
            i < segments@.len(),
            old(self).runs@[i as int].at == old(self).runs@[i as int].buffered@.len(),
            old(self).runs@[i as int].next < old(self).runs@[i as int].end,
        ensures
            final(self).wf(segments@, *page, rows),
            final(self).from == old(self).from,
            final(self).began_at == old(self).began_at,
            final(self).runs@.len() == old(self).runs@.len(),
            forall|s: int|
                0 <= s < segments@.len() ==> (#[trigger] final(self).runs@[s]).first == old(self).runs@[s].first && final(self).runs@[s].end == old(self).runs@[s].end && final(self).runs@[s].next >= old(self).runs@[s].next,
            final(self).runs@[i as int].next > old(self).runs@[i as int].next,
            final(self).runs@[i as int].gathered(old(self).runs@[i as int]),
            forall|s: int|
                0 <= s < segments@.len() && s != i ==> (#[trigger] final(self).runs@[s]) == old(self).runs@[s],
    {
        let ghost from = *self;
        let ghost run = self.runs@[i as int];
        proof {
            assert(segments@[i as int].wf());
            assert(run.wf(segments@[i as int], *page));
        }
        self.runs[i].gather(&segments[i], page);
        proof {
            let now = self.runs@[i as int];
            assert forall|s: int| 0 <= s < segments@.len() implies (#[trigger] self.runs@[s]).wf(
                segments@[s],
                *page,
            ) by {
                if s != i {
                    assert(self.runs@[s] == from.runs@[s]);
                    assert(from.runs@[s].wf(segments@[s], *page));
                }
            }
            assert forall|k: int| self.from <= k < rows.len() implies is_row(
                #[trigger] rows[k],
                segments@,
                *page,
            ) && self.runs@[rows[k].seg as int].first <= rows[k].local
                < self.runs@[rows[k].seg as int].reached() by {
                assert(is_row(rows[k], segments@, *page));
                if rows[k].seg != i {
                    assert(self.runs@[rows[k].seg as int] == from.runs@[rows[k].seg as int]);
                }
            }
            assert forall|s: int, l: int|
                0 <= s < segments@.len() && self.runs@[s].first <= l < self.runs@[s].reached()
                    && #[trigger] takes(segments@[s], *page, l) implies taken_at(
                rows,
                self.from as int,
                s,
                l,
            ) by {
                if s != i {
                    assert(self.runs@[s] == from.runs@[s]);
                } else {
                    assert(l < run.reached());
                }
            }
            assert forall|a: int, s: int|
                self.from <= a < rows.len() && 0 <= s < segments@.len() && (
                #[trigger] self.runs@[s]).left() implies row_before(
                segments@,
                (#[trigger] rows[a]).seg as int,
                rows[a].local as int,
                s,
                self.runs@[s].reached(),
            ) by {
                if s != i {
                    assert(self.runs@[s] == from.runs@[s]);
                } else {
                    assert(from.runs@[i as int].left());
                    if run.reached() < now.reached() {
                        assert(key_le(
                            segments@[i as int].key(run.reached()),
                            segments@[i as int].key(now.reached()),
                        ));
                    }
                }
            }
        }
    }
}

/// How many rows some runs have not gathered.
pub open spec fn ungathered(runs: Seq<SegmentRun>) -> int
    decreases runs.len(),
{
    if runs.len() == 0 {
        0
    } else {
        ungathered(runs.drop_last()) + if runs.last().next < runs.last().end {
            runs.last().end - runs.last().next
        } else {
            0
        }
    }
}

proof fn lemma_gathered(a: Seq<SegmentRun>, b: Seq<SegmentRun>, i: int)
    requires
        a.len() == b.len(),
        0 <= i < a.len(),
        forall|s: int|
            0 <= s < a.len() ==> (#[trigger] b[s]).end == a[s].end && b[s].next >= a[s].next,
        b[i].next > a[i].next,
        a[i].next < a[i].end,
    ensures
        ungathered(b) < ungathered(a),
    decreases a.len(),
{
    let x = a.drop_last();
    let y = b.drop_last();
    assert(b[b.len() - 1].end == a[a.len() - 1].end);
    if i == a.len() - 1 {
        lemma_gathered_at_most(x, y);
    } else {
        assert forall|s: int| 0 <= s < x.len() implies (#[trigger] y[s]).end == x[s].end
            && y[s].next >= x[s].next by {
            assert(b[s].end == a[s].end);
        }
        lemma_gathered(x, y, i);
    }
}

proof fn lemma_gathered_at_most(a: Seq<SegmentRun>, b: Seq<SegmentRun>)
    requires
        a.len() == b.len(),
        forall|s: int|
            0 <= s < a.len() ==> (#[trigger] b[s]).end == a[s].end && b[s].next >= a[s].next,
    ensures
        ungathered(b) <= ungathered(a),
    decreases a.len(),
{
    if a.len() > 0 {
        let x = a.drop_last();
        let y = b.drop_last();
        assert(b[b.len() - 1].end == a[a.len() - 1].end);
        assert forall|s: int| 0 <= s < x.len() implies (#[trigger] y[s]).end == x[s].end
            && y[s].next >= x[s].next by {
            assert(b[s].end == a[s].end);
        }
        lemma_gathered_at_most(x, y);
    }
}

/// What a map take has taken is every row it admits before some point of the stretch: an admitted
/// row that was not taken comes after every row that was.
pub proof fn law_what_is_taken_comes_first(
    take: MapTake,
    segments: Seq<SegmentRows>,
    page: PageMask,
    rows: Seq<Taken>,
    scan: Option<Key>,
    until: Option<Key>,
    s: int,
    local: int,
)
    requires
        take.wf(segments, page, rows),
        take.within(segments, scan, until),
        0 <= s < segments.len(),
        0 <= local < segments[s].count(),
        past(segments[s].key(local), scan),
        below(segments[s].key(local), until),
        takes(segments[s], page, local),
        !taken_at(rows, take.from as int, s, local),
    ensures
        forall|n: int|
            take.from <= n < rows.len() ==> row_before(
                segments,
                (#[trigger] rows[n]).seg as int,
                rows[n].local as int,
                s,
                local,
            ),
        take.runs@[s].left(),
        key_le(segments[s].key(take.runs@[s].reached()), segments[s].key(local)),
{
    let run = take.runs@[s];
    assert(run.wf(segments[s], page));
    assert(segments[s].wf());
    assert(run.first <= local && local < run.end);
    assert(run.reached() <= local);
    if run.reached() < local {
        assert(key_le(segments[s].key(run.reached()), segments[s].key(local)));
    }
    assert forall|n: int| take.from <= n < rows.len() implies row_before(
        segments,
        (#[trigger] rows[n]).seg as int,
        rows[n].local as int,
        s,
        local,
    ) by {
        assert(run.left());
        assert(is_row(rows[n], segments, page));
    }
}

/// A map take that spent its stretch has taken every row of it that the page admits.
pub proof fn law_a_spent_take_took_every_row(
    take: MapTake,
    segments: Seq<SegmentRows>,
    page: PageMask,
    rows: Seq<Taken>,
    scan: Option<Key>,
    until: Option<Key>,
    s: int,
    local: int,
)
    requires
        take.wf(segments, page, rows),
        take.within(segments, scan, until),
        forall|t: int| 0 <= t < segments.len() ==> !(#[trigger] take.runs@[t]).left(),
        0 <= s < segments.len(),
        0 <= local < segments[s].count(),
        past(segments[s].key(local), scan),
        below(segments[s].key(local), until),
        takes(segments[s], page, local),
    ensures
        taken_at(rows, take.from as int, s, local),
{
    if !taken_at(rows, take.from as int, s, local) {
        law_what_is_taken_comes_first(take, segments, page, rows, scan, until, s, local);
    }
}

/// A map take that the clock stopped has taken every row of the stretch before the first key it did
/// not reach that the page admits.
pub proof fn law_a_stopped_take_took_every_earlier_row(
    take: MapTake,
    segments: Seq<SegmentRows>,
    page: PageMask,
    rows: Seq<Taken>,
    scan: Option<Key>,
    until: Option<Key>,
    key: Key,
    s: int,
    local: int,
)
    requires
        take.wf(segments, page, rows),
        take.within(segments, scan, until),
        forall|t: int|
            0 <= t < segments.len() && (#[trigger] take.runs@[t]).left() ==> key_le(
                key,
                segments[t].key(take.runs@[t].reached()),
            ),
        0 <= s < segments.len(),
        0 <= local < segments[s].count(),
        past(segments[s].key(local), scan),
        below(segments[s].key(local), until),
        takes(segments[s], page, local),
        key_lt(segments[s].key(local), key),
    ensures
        taken_at(rows, take.from as int, s, local),
{
    if !taken_at(rows, take.from as int, s, local) {
        law_what_is_taken_comes_first(take, segments, page, rows, scan, until, s, local);
    }
}

/// The segments' row bases ascend, each past the rows before it.
pub open spec fn segments_apart(segments: Seq<SegmentRows>) -> bool {
    forall|s: int, t: int|
        0 <= s < t < segments.len() ==> (#[trigger] segments[s]).base + segments[s].count() <= (
        #[trigger] segments[t]).base
}

/// Whether a segment's row is the view's row `row`.
pub open spec fn locates(segments: Seq<SegmentRows>, row: u32, seg: int, local: int) -> bool {
    &&& 0 <= seg < segments.len()
    &&& 0 <= local < segments[seg].count()
    &&& segments[seg].base + local == row
}

/// Whether some segment holds the view's row.
pub open spec fn placed(segments: Seq<SegmentRows>, row: u32) -> bool {
    exists|seg: int| #[trigger] locates(segments, row, seg, row - segments[seg].base)
}

/// The segment that holds the view's row, and the row's place in it.
pub fn segment_holding(segments: &Vec<SegmentRows>, row: u32) -> (found: Option<(usize, u32)>)
    requires
        segments_wf(segments@),
        segments_apart(segments@),
    ensures
        found is Some <==> placed(segments@, row),
        found matches Some((seg, local)) ==> locates(segments@, row, seg as int, local as int),
{
    let mut s: usize = segments.len();
    while s > 0
        invariant
            s <= segments@.len(),
            segments_wf(segments@),
            segments_apart(segments@),
            forall|t: int|
                s <= t < segments@.len() ==> !(#[trigger] locates(
                    segments@,
                    row,
                    t,
                    row - segments@[t].base,
                )),
        decreases s,
    {
        s -= 1;
        assert(segments@[s as int].wf());
        let base: u32 = segments[s].base;
        if base <= row && ((row - base) as usize) < segments[s].cells.len() {
            assert(locates(segments@, row, s as int, row - segments@[s as int].base));
            return Some((s, row - base));
        }
    }
    None
}

/// A row has one place.
pub proof fn lemma_one_place(segments: Seq<SegmentRows>, row: u32, a: int, b: int)
    requires
        segments_apart(segments),
        locates(segments, row, a, row - segments[a].base),
        locates(segments, row, b, row - segments[b].base),
    ensures
        a == b,
{
    if a < b {
        assert(segments[a].base + segments[a].count() <= segments[b].base);
    } else if b < a {
        assert(segments[b].base + segments[b].count() <= segments[a].base);
    }
}

/// The segment that holds a row.
pub open spec fn place_of(segments: Seq<SegmentRows>, row: u32) -> int {
    choose|seg: int| #[trigger] locates(segments, row, seg, row - segments[seg].base)
}

/// The row a stored item is taken as.
pub open spec fn item_row(segments: Seq<SegmentRows>, page: PageMask, item: (u32, u32)) -> Taken {
    let seg = place_of(segments, item.1);
    let local = item.1 - segments[seg].base;
    Taken {
        seg: seg as usize,
        local: local as u32,
        tessera_id: segments[seg].ids@[local],
        entity: item.0,
        matched: page.matches(item.1),
    }
}

/// A stored stretch's items being taken into a page, in the order of their numbers.
#[derive(Clone, Copy, Debug)]
pub struct StoredTake {
    /// The first item past the scan position, and the next one to test.
    pub start: usize,
    pub at: usize,
    /// How many rows the page held when the take began.
    pub from: usize,
}

/// Item numbers ascend.
pub open spec fn items_ascend(items: Seq<(u32, u32)>) -> bool {
    forall|i: int, j: int|
        0 <= i < j < items.len() ==> (#[trigger] items[i]).0 < (#[trigger] items[j]).0
}

impl StoredTake {
    /// What was taken so far is the admitted items tested so far, in order.
    pub open spec fn wf(
        &self,
        segments: Seq<SegmentRows>,
        items: Seq<(u32, u32)>,
        page: PageMask,
        rows: Seq<Taken>,
    ) -> bool {
        &&& segments_wf(segments)
        &&& segments_apart(segments)
        &&& items_ascend(items)
        &&& forall|i: int| 0 <= i < items.len() ==> placed(segments, (#[trigger] items[i]).1)
        &&& self.start <= self.at <= items.len()
        &&& self.from <= rows.len()
        &&& rows.skip(self.from as int) == items.subrange(
            self.start as int,
            self.at as int,
        ).filter(|item: (u32, u32)| page.admits(item.1)).map_values(
            |item: (u32, u32)| item_row(segments, page, item),
        )
    }

    /// A take of the items past `scan`.
    pub fn new(
        segments: &Vec<SegmentRows>,
        items: &Vec<(u32, u32)>,
        page: &PageMask,
        scan: Option<Key>,
        rows: &Vec<Taken>,
    ) -> (take: StoredTake)
        requires
            segments_wf(segments@),
            segments_apart(segments@),
            items_ascend(items@),
            forall|i: int| 0 <= i < items@.len() ==> placed(segments@, (#[trigger] items@[i]).1),
        ensures
            take.wf(segments@, items@, *page, rows@),
            take.from == rows@.len(),
            take.at == take.start,
            forall|i: int|
                0 <= i < items@.len() ==> (take.start <= i) == past(
                    ((#[trigger] items@[i]).0, 0),
                    scan,
                ),
    {
        let mut lo: usize = 0;
        let mut hi: usize = items.len();
        if let Some(at) = scan {
            while lo < hi
                invariant
                    lo <= hi <= items@.len(),
                    items_ascend(items@),
                    forall|i: int| 0 <= i < lo ==> !past(((#[trigger] items@[i]).0, 0), Some(at)),
                    forall|i: int|
                        hi <= i < items@.len() ==> past(((#[trigger] items@[i]).0, 0), Some(at)),
                decreases hi - lo,
            {
                let mid: usize = lo + (hi - lo) / 2;
                let entity: u32 = items[mid].0;
                if at.0 < entity {
                    proof {
                        assert forall|i: int| mid <= i < items@.len() implies past(
                            ((#[trigger] items@[i]).0, 0),
                            Some(at),
                        ) by {
                            if i > mid {
                                assert(items@[mid as int].0 < items@[i].0);
                            }
                        }
                    }
                    hi = mid;
                } else {
                    proof {
                        assert forall|i: int| 0 <= i < mid + 1 implies !past(
                            ((#[trigger] items@[i]).0, 0),
                            Some(at),
                        ) by {
                            if i < mid {
                                assert(items@[i].0 < items@[mid as int].0);
                            }
                        }
                    }
                    lo = mid + 1;
                }
            }
        } else {
            hi = 0;
        }
        let take = StoredTake { start: lo, at: lo, from: rows.len() };
        proof {
            reveal(Seq::filter);
            let p = |item: (u32, u32)| page.admits(item.1);
            let f = |item: (u32, u32)| item_row(segments@, *page, item);
            assert(items@.subrange(lo as int, lo as int) =~= Seq::<(u32, u32)>::empty());
            assert(rows@.skip(rows@.len() as int) =~= items@.subrange(
                lo as int,
                lo as int,
            ).filter(p).map_values(f));
        }
        take
    }

    /// Test items until the page holds `need`, nothing remains, or a chunk was tested: the clock's
    /// reading is honoured before a chunk where stopping moves the position.
    pub fn advance(
        &mut self,
        segments: &Vec<SegmentRows>,
        items: &Vec<(u32, u32)>,
        page: &PageMask,
        need: usize,
        moved: bool,
        stop: Option<ResponseEndedBy>,
        rows: &mut Vec<Taken>,
    ) -> (progress: TakeProgress)
        requires
            old(self).wf(segments@, items@, *page, old(rows)@),
            old(rows)@.len() <= need,
        ensures
            final(self).wf(segments@, items@, *page, final(rows)@),
            final(self).start == old(self).start,
            final(self).from == old(self).from,
            old(self).at <= final(self).at,
            old(rows)@.len() <= final(rows)@.len() <= need,
            progress is Filled <==> final(rows)@.len() == need,
            progress is Spent ==> final(self).at == items@.len(),
            progress matches TakeProgress::Stopped(reason, key) ==> {
                &&& stop == Some(reason)
                &&& final(self).at < items@.len()
                &&& key == (items@[final(self).at as int].0, 0u64)
                &&& final(rows)@ == old(rows)@
                &&& final(rows)@.len() > 0 || moved || final(self).at > final(self).start
            },
            progress is More ==> final(self).at == old(self).at + STORED_CHUNK,
            progress is More && stop is Some ==> old(rows)@.len() == 0 && !moved && old(self).at
                == old(self).start,
    {
        if rows.len() == need {
            return TakeProgress::Filled;
        }
        if self.at == items.len() {
            return TakeProgress::Spent;
        }
        if let Some(reason) = stop {
            let entity: u32 = items[self.at].0;
            let began: u32 = items[self.start].0;
            proof {
                if self.at > self.start {
                    assert(items@[self.start as int].0 < items@[self.at as int].0);
                }
            }
            if rows.len() > 0 || moved || entity > began {
                return TakeProgress::Stopped(reason, (entity, 0));
            }
        }
        let left: usize = items.len() - self.at;
        let end: usize = if left <= STORED_CHUNK {
            items.len()
        } else {
            self.at + STORED_CHUNK
        };
        while self.at < end && rows.len() < need
            invariant
                self.wf(segments@, items@, *page, rows@),
                self.start == old(self).start,
                self.from == old(self).from,
                old(self).at <= self.at <= end <= items@.len(),
                old(rows)@.len() <= rows@.len() <= need,
                self.at == old(self).at ==> rows@.len() == old(rows)@.len(),
                old(self).at < end,
            decreases end - self.at,
        {
            let (entity, row) = items[self.at];
            let ghost at = self.at as int;
            let ghost held = rows@;
            let ghost start = self.start as int;
            let ghost p = |item: (u32, u32)| page.admits(item.1);
            let ghost f = |item: (u32, u32)| item_row(segments@, *page, item);
            proof {
                let part = items@.subrange(start, at + 1);
                assert(part.drop_last() =~= items@.subrange(start, at));
                assert(part.last() == items@[at]);
                reveal(Seq::filter);
            }
            if page.row_admitted(row) {
                assert(placed(segments@, items@[at].1));
                if let Some((seg, local)) = segment_holding(segments, row) {
                    proof {
                        let home = place_of(segments@, row);
                        lemma_one_place(segments@, row, home, seg as int);
                        assert(segments@[seg as int].wf());
                    }
                    rows.push(
                        Taken {
                            seg,
                            local,
                            tessera_id: segments[seg].ids[local as usize],
                            entity,
                            matched: page.row_matches(row),
                        },
                    );
                    proof {
                        let kept = items@.subrange(start, at).filter(p);
                        assert(items@.subrange(start, at + 1).filter(p) == kept.push(items@[at]));
                        assert(kept.push(items@[at]).map_values(f) =~= kept.map_values(f).push(
                            f(items@[at]),
                        ));
                        assert(rows@.skip(self.from as int) =~= held.skip(self.from as int).push(
                            f(items@[at]),
                        ));
                    }
                }
            }
            self.at = self.at + 1;
        }
        if rows.len() == need {
            TakeProgress::Filled
        } else if self.at == items.len() {
            TakeProgress::Spent
        } else {
            TakeProgress::More
        }
    }
}

/// A row that a map take took is a row of its segment as the segment holds it, it is visible, and it
/// matches the filter where rows must; it is marked as matching exactly where it does. The rows come
/// by cell and then identifier.
pub proof fn law_a_map_take_takes_visible_rows_in_order(
    take: MapTake,
    segments: Seq<SegmentRows>,
    page: PageMask,
    rows: Seq<Taken>,
    n: int,
    m: int,
)
    requires
        take.wf(segments, page, rows),
        take.from <= n < m < rows.len() || take.from <= n == m < rows.len(),
    ensures
        ({
            let row = rows[n];
            let segment = segments[row.seg as int];
            let at = (segment.base + row.local) as u32;
            &&& row.seg < segments.len()
            &&& row.local < segment.cells@.len()
            &&& row.tessera_id == segment.ids@[row.local as int]
            &&& row.entity == segment.entities@[row.local as int]
            &&& bits(page.mask).contains(at)
            &&& row.matched <==> (page.filter is None || bits(page.filter->0).contains(at))
            &&& !page.keep_unmatched ==> row.matched
        }),
        n < m ==> ({
            let (a, b) = (rows[n], rows[m]);
            let (s, t) = (segments[a.seg as int], segments[b.seg as int]);
            let (i, j) = (a.local as int, b.local as int);
            ||| s.cells@[i] < t.cells@[j]
            ||| s.cells@[i] == t.cells@[j] && s.ids@[i] <= t.ids@[j]
        }),
{
    assert(is_row(rows[n], segments, page));
    if n < m {
        assert(row_before(
            segments,
            rows[n].seg as int,
            rows[n].local as int,
            rows[m].seg as int,
            rows[m].local as int,
        ));
    }
}

/// A map take that is spent took every row of the stretch that is visible and, where rows must match,
/// matches the filter: every such row whose cell and identifier come after the scan position and
/// before the stretch's end.
pub proof fn law_a_spent_map_take_took_every_visible_row(
    take: MapTake,
    segments: Seq<SegmentRows>,
    page: PageMask,
    rows: Seq<Taken>,
    scan: Option<Key>,
    until: Option<Key>,
    s: int,
    local: int,
)
    requires
        take.wf(segments, page, rows),
        take.within(segments, scan, until),
        forall|t: int| 0 <= t < segments.len() ==> !(#[trigger] take.runs@[t]).left(),
        0 <= s < segments.len(),
        0 <= local < segments[s].cells@.len(),
        scan is Some ==> ({
            let (cell, id) = scan->0;
            cell < segments[s].cells@[local] || (cell == segments[s].cells@[local] && id
                < segments[s].ids@[local])
        }),
        until is Some ==> ({
            let (cell, id) = until->0;
            segments[s].cells@[local] < cell || (cell == segments[s].cells@[local]
                && segments[s].ids@[local] < id)
        }),
        bits(page.mask).contains((segments[s].base + local) as u32),
        page.keep_unmatched || page.filter is None || bits(page.filter->0).contains(
            (segments[s].base + local) as u32,
        ),
    ensures
        exists|n: int|
            take.from <= n < rows.len() && (#[trigger] rows[n]).seg == s && rows[n].local == local,
{
    law_a_spent_take_took_every_row(take, segments, page, rows, scan, until, s, local);
}

/// A map take begins past the scan position and ends before the stretch does: no row it took has a
/// cell and identifier at or before the one, or at or past the other.
pub proof fn law_a_map_take_stays_within_its_stretch(
    take: MapTake,
    segments: Seq<SegmentRows>,
    page: PageMask,
    rows: Seq<Taken>,
    scan: Option<Key>,
    until: Option<Key>,
    n: int,
)
    requires
        take.wf(segments, page, rows),
        take.within(segments, scan, until),
        take.from <= n < rows.len(),
    ensures
        ({
            let segment = segments[rows[n].seg as int];
            let local = rows[n].local as int;
            &&& scan is Some ==> ({
                let (cell, id) = scan->0;
                cell < segment.cells@[local] || (cell == segment.cells@[local] && id
                    < segment.ids@[local])
            })
            &&& until is Some ==> ({
                let (cell, id) = until->0;
                segment.cells@[local] < cell || (cell == segment.cells@[local]
                    && segment.ids@[local] < id)
            })
        }),
{
    let s = rows[n].seg as int;
    let local = rows[n].local as int;
    assert(is_row(rows[n], segments, page));
    let run = take.runs@[s];
    assert(run.wf(segments[s], page));
    assert(run.first <= local && local < run.reached());
    assert(past(segments[s].key(local), scan));
    assert(below(segments[s].key(local), until));
}

/// A row that a stored take took is that of one of its items: the item's number is its entity, its
/// place is where the segments hold the item's row, the row is visible, and it matches the filter
/// where rows must. The rows come by the items' numbers, and every item tested whose row is visible,
/// and matches where rows must, was taken.
pub proof fn law_a_stored_take_takes_visible_items_in_order(
    take: StoredTake,
    segments: Seq<SegmentRows>,
    items: Seq<(u32, u32)>,
    page: PageMask,
    rows: Seq<Taken>,
) -> (at: Seq<int>)
    requires
        segments.len() <= usize::MAX,
        take.wf(segments, items, page, rows),
    ensures
        rows.len() == take.from + at.len(),
        forall|k: int, l: int| 0 <= k < l < at.len() ==> at[k] < at[l],
        forall|k: int|
            0 <= k < at.len() ==> take.start <= (#[trigger] at[k]) < take.at && ({
                let row = rows[take.from + k];
                let (entity, place) = items[at[k]];
                &&& row.entity == entity
                &&& row.seg < segments.len()
                &&& row.local < segments[row.seg as int].cells@.len()
                &&& segments[row.seg as int].base + row.local == place
                &&& row.tessera_id == segments[row.seg as int].ids@[row.local as int]
                &&& bits(page.mask).contains(place)
                &&& row.matched <==> (page.filter is None || bits(page.filter->0).contains(place))
                &&& !page.keep_unmatched ==> row.matched
            }),
        forall|i: int|
            take.start <= i < take.at && bits(page.mask).contains((#[trigger] items[i]).1) && (
            page.keep_unmatched || page.filter is None || bits(page.filter->0).contains(items[i].1))
                ==> at.contains(i),
{
    let tested = items.subrange(take.start as int, take.at as int);
    let admits = |item: (u32, u32)| page.admits(item.1);
    let make = |item: (u32, u32)| item_row(segments, page, item);
    let inner = lemma_filter_positions(tested, admits);
    let at = Seq::new(inner.len(), |k: int| inner[k] + take.start);
    let taken = rows.skip(take.from as int);
    assert(taken.len() == inner.len());
    assert forall|k: int| 0 <= k < at.len() implies take.start <= (#[trigger] at[k]) < take.at && ({
        let row = rows[take.from + k];
        let (entity, place) = items[at[k]];
        &&& row.entity == entity
        &&& row.seg < segments.len()
        &&& row.local < segments[row.seg as int].cells@.len()
        &&& segments[row.seg as int].base + row.local == place
        &&& row.tessera_id == segments[row.seg as int].ids@[row.local as int]
        &&& bits(page.mask).contains(place)
        &&& row.matched <==> (page.filter is None || bits(page.filter->0).contains(place))
        &&& !page.keep_unmatched ==> row.matched
    }) by {
        let i = inner[k];
        assert(tested[i] == items[at[k]]);
        assert(tested.filter(admits)[k] == tested[i]);
        assert(taken[k] == rows[take.from + k]);
        assert(taken[k] == make(tested[i]));
        assert(placed(segments, items[at[k]].1));
        let seg = place_of(segments, items[at[k]].1);
        assert(locates(segments, items[at[k]].1, seg, items[at[k]].1 - segments[seg].base));
        assert(segments[seg].wf());
        assert(admits(tested[i]));
    }
    assert forall|i: int|
        take.start <= i < take.at && bits(page.mask).contains((#[trigger] items[i]).1) && (
        page.keep_unmatched || page.filter is None || bits(page.filter->0).contains(
            items[i].1,
        )) implies at.contains(i) by {
        assert(tested[i - take.start] == items[i]);
        assert(admits(tested[i - take.start]));
        let k = choose|k: int| 0 <= k < inner.len() && inner[k] == i - take.start;
        assert(at[k] == i);
    }
    at
}

/// A view's row stands in the segment whose rows it is among, at the row's distance from the
/// segment's first.
pub proof fn law_a_row_is_found_in_the_segment_that_holds_it(
    segments: Seq<SegmentRows>,
    row: u32,
    found: Option<(usize, u32)>,
)
    requires
        found is Some <==> placed(segments, row),
        found matches Some((seg, local)) ==> locates(segments, row, seg as int, local as int),
    ensures
        found is Some <==> exists|s: int|
            0 <= s < segments.len() && (#[trigger] segments[s]).base <= row < segments[s].base
                + segments[s].cells@.len(),
        found matches Some((seg, local)) ==> seg < segments.len() && segments[seg as int].base
            + local == row && local < segments[seg as int].cells@.len(),
{
    if exists|s: int|
        0 <= s < segments.len() && (#[trigger] segments[s]).base <= row < segments[s].base
            + segments[s].cells@.len() {
        let s = choose|s: int|
            0 <= s < segments.len() && (#[trigger] segments[s]).base <= row < segments[s].base
                + segments[s].cells@.len();
        assert(locates(segments, row, s, row - segments[s].base));
    }
    if placed(segments, row) {
        let s = choose|s: int| #[trigger] locates(segments, row, s, row - segments[s].base);
        assert(segments[s].base <= row);
    }
}

} // verus!
