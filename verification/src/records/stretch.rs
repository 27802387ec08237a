//! The stretch ahead of a scan position, and how a walk goes from one to the next.

use croaring::Bitmap;
use vstd::prelude::*;

use crate::bitmap;
use crate::bitmap::{
    ascending, bits, lemma_disjoint_len, lemma_finite, lemma_len_bound, lemma_span_len, span,
};
use crate::hashing::same_digest;
use crate::histogram::MaskIdentity;
use crate::records::take::{
    is_row, items_ascend, law_a_spent_take_took_every_row, law_a_stopped_take_took_every_earlier_row,
    law_what_is_taken_comes_first, row_before, taken_at, takes, MapTake, PageMask,
};
use crate::records::walk::{
    before, before_of, below, first_after, first_at, furthest, key_le, key_lt, key_of,
    lemma_before, past, publication_is, row_key, same_publication, scan_ge, segments_wf, Key,
    Position, Publication, SegmentRows, Taken, STRETCH_BYTES_PER_ROW, STRETCH_GROWTH, STRETCH_MIN,
};
use crate::records::{RecordsOrder, ResponseEndedBy};
use crate::region::RegionVerdict;
use crate::row_space::RowSpace;
use crate::runs::{apart, rows_of, visible_runs};

verus! {

/// Whether two identities name one composed mask.
pub open spec fn mask_is(a: MaskIdentity, b: MaskIdentity) -> bool {
    &&& a.token_id == b.token_id
    &&& a.segments_version == b.segments_version
    &&& a.overlay_version == b.overlay_version
    &&& a.fragment_identity@ == b.fragment_identity@
    &&& a.fragment_watermark == b.fragment_watermark
}

/// [`mask_is`], computed.
pub fn same_mask(a: &MaskIdentity, b: &MaskIdentity) -> (yes: bool)
    ensures
        yes == mask_is(*a, *b),
{
    a.token_id == b.token_id && a.segments_version == b.segments_version && a.overlay_version
        == b.overlay_version && a.fragment_watermark == b.fragment_watermark && same_digest(
        &a.fragment_identity,
        &b.fragment_identity,
    )
}

/// The part of the view ahead of a scan position that one filter evaluation covers.
pub struct Stretch {
    pub under: Publication,
    /// The composed mask the filter was evaluated under.
    pub mask: MaskIdentity,
    /// The scan position it was opened after.
    pub from: Option<Key>,
    /// The first key past the stretch; `None` where it runs to the end.
    pub until: Option<Key>,
    /// The rows the filter admits, where there is a filter.
    pub filter: Option<Bitmap>,
    /// In stored order, the candidate items of the stretch with their rows, ascending.
    pub items: Vec<(u32, u32)>,
}

/// Why a walk stopped taking rows.
#[derive(Clone, Copy, Debug, PartialEq, Eq, Structural)]
pub enum Walked {
    /// The page holds as many rows as it asked for.
    Filled,
    /// Nothing remains past the rows taken.
    End,
    /// The response must stop, for time or cancellation.
    Stopped(ResponseEndedBy),
}

/// What a walk needs before it can take rows.
#[derive(Clone, Copy, Debug, PartialEq, Eq, Structural)]
pub enum Prepared {
    /// A stretch is open.
    Ready,
    /// The stretch past the scan position is to be opened.
    Open,
    /// The clock stopped the response.
    Stopped(ResponseEndedBy),
}

/// What a take of an open stretch came to.
#[derive(Clone, Copy, Debug, PartialEq, Eq)]
pub enum TakeEnd {
    /// The page is full, or the stretch is spent.
    Done,
    /// The clock stopped the scan at the first key it did not reach.
    Stopped(ResponseEndedBy, Key),
}

/// A walk through one response: the position reached and the stretch ahead of it.
pub struct Walk {
    pub keep_unmatched: bool,
    /// The rows the next stretch spans, across every segment.
    pub target: u32,
    /// The rows a stretch may span.
    pub ceiling: u32,
    pub stretch: Option<Stretch>,
    pub position: Position,
    /// The scan position the response started from: a stop is honoured only past it.
    pub origin: Option<Key>,
    /// The coarsest verdict the walk's evaluations have reached.
    pub region: Option<RegionVerdict>,
}

/// The rows a stretch held to so many bytes may span.
pub open spec fn ceiling_of(stretch_bytes: usize) -> int {
    let rows = stretch_bytes as int / STRETCH_BYTES_PER_ROW as int;
    let held = if rows > u32::MAX {
        u32::MAX as int
    } else {
        rows
    };
    if held < STRETCH_MIN {
        STRETCH_MIN as int
    } else {
        held
    }
}

/// The rows a walk's first stretch spans: what was asked for, held to the ceiling and to the least
/// stretch.
pub open spec fn target_of(stretch: u32, stretch_bytes: usize) -> int {
    if stretch < STRETCH_MIN {
        STRETCH_MIN as int
    } else if stretch > ceiling_of(stretch_bytes) {
        ceiling_of(stretch_bytes)
    } else {
        stretch as int
    }
}

impl Walk {
    /// The target is between the least stretch and the ceiling.
    pub open spec fn wf(&self) -> bool {
        STRETCH_MIN <= self.target <= self.ceiling
    }

    /// A walk from `position` whose stretches hold no more than `stretch_bytes`. The first stretch
    /// spans `stretch` rows, held to the ceiling and to the least stretch.
    pub fn new(
        keep_unmatched: bool,
        stretch: u32,
        stretch_bytes: usize,
        position: Position,
    ) -> (walk: Walk)
        ensures
            walk.wf(),
            walk.keep_unmatched == keep_unmatched,
            walk.ceiling == ceiling_of(stretch_bytes),
            walk.target == target_of(stretch, stretch_bytes),
            walk.stretch is None,
            walk.position == position,
            walk.origin == position.scan,
            walk.region is None,
    {
        let rows: usize = stretch_bytes / STRETCH_BYTES_PER_ROW;
        let held: u32 = if rows > u32::MAX as usize {
            u32::MAX
        } else {
            rows as u32
        };
        let ceiling: u32 = if held < STRETCH_MIN {
            STRETCH_MIN
        } else {
            held
        };
        let target: u32 = if stretch < STRETCH_MIN {
            STRETCH_MIN
        } else if stretch > ceiling {
            ceiling
        } else {
            stretch
        };
        Walk {
            keep_unmatched,
            target,
            ceiling,
            stretch: None,
            position,
            origin: position.scan,
            region: None,
        }
    }

    /// Whether the held stretch still answers at a scan position: its publication and its mask are
    /// the page's, and it was not opened past the position.
    pub open spec fn current(
        &self,
        scan: Option<Key>,
        publication: Publication,
        mask: MaskIdentity,
    ) -> bool {
        self.stretch matches Some(stretch) && publication_is(stretch.under, publication) && mask_is(
            stretch.mask,
            mask,
        ) && scan_ge(scan, stretch.from)
    }

    /// Drop a stretch that no longer answers, and say what is needed next. The clock's reading is
    /// honoured where a stretch would have to be opened, once stopping moves the position.
    pub fn prepare(
        &mut self,
        scan: Option<Key>,
        publication: &Publication,
        mask: &MaskIdentity,
        holds_rows: bool,
        stop: Option<ResponseEndedBy>,
    ) -> (prepared: Prepared)
        ensures
            final(self).keep_unmatched == old(self).keep_unmatched,
            final(self).target == old(self).target,
            final(self).ceiling == old(self).ceiling,
            final(self).position == old(self).position,
            final(self).origin == old(self).origin,
            final(self).region == old(self).region,
            prepared is Ready <==> old(self).current(scan, *publication, *mask),
            prepared is Ready ==> final(self).stretch == old(self).stretch,
            !(prepared is Ready) ==> final(self).stretch is None,
            prepared matches Prepared::Stopped(reason) ==> stop == Some(reason) && (holds_rows
                || !scan_ge(old(self).origin, scan)),
            prepared is Open && stop is Some ==> !holds_rows && scan_ge(old(self).origin, scan),
    {
        let stale: bool = match &self.stretch {
            None => true,
            Some(stretch) => !(same_publication(&stretch.under, publication) && same_mask(
                &stretch.mask,
                mask,
            ) && at_least(scan, stretch.from)),
        };
        if !stale {
            return Prepared::Ready;
        }
        self.stretch = None;
        if let Some(reason) = stop {
            if holds_rows || !at_least(self.origin, scan) {
                return Prepared::Stopped(reason);
            }
        }
        Prepared::Open
    }

    /// Take a stretch as the one ahead, and the verdict its filter's region leaves reached.
    pub fn open(&mut self, stretch: Stretch, region: Option<RegionVerdict>)
        ensures
            *final(self) == (Walk {
                stretch: Some(stretch),
                region: RegionVerdict::coarsest_of(old(self).region, region),
                ..*old(self)
            }),
    {
        self.region = RegionVerdict::coarsest(self.region, region);
        self.stretch = Some(stretch);
    }

    /// Whether the scan stands, and the walk ends, as a take of the open stretch left it.
    pub open spec fn moves_on(
        &self,
        segments: Seq<SegmentRows>,
        scan: Option<Key>,
        end: TakeEnd,
        rows: Seq<Taken>,
        need: usize,
        out: (Option<Key>, Option<Walked>),
        after: Walk,
    ) -> bool {
        &&& end matches TakeEnd::Stopped(reason, key) ==> {
            &&& out == (furthest(scan, before_of(key)), Some(Walked::Stopped(reason)))
            &&& after.stretch == self.stretch
            &&& after.target == if self.target / STRETCH_GROWTH < STRETCH_MIN {
                STRETCH_MIN
            } else {
                self.target / STRETCH_GROWTH
            }
        }
        &&& end is Done && rows.len() == need ==> {
            &&& out == (
                Some(row_key(self.position.order, segments, rows.last())),
                Some(Walked::Filled),
            )
            &&& after.stretch == self.stretch
            &&& after.target == self.target
        }
        &&& end is Done && rows.len() < need ==> {
            &&& after.stretch is None
            &&& after.target == if self.target * STRETCH_GROWTH > self.ceiling {
                self.ceiling as int
            } else {
                self.target * STRETCH_GROWTH
            }
            &&& match self.stretch->0.until {
                None => out == (Some((u32::MAX, u64::MAX)), Some(Walked::End)),
                Some(until) => out == (furthest(scan, before_of(until)), None::<Walked>),
            }
        }
    }

    /// Where the scan stands, and whether the walk ends, after a take of the open stretch into a
    /// page that wants `need` rows. A stop shortens the next stretch; an emptied stretch is let go
    /// and the next one is longer.
    pub fn took(
        &mut self,
        segments: &Vec<SegmentRows>,
        scan: Option<Key>,
        end: TakeEnd,
        rows: &Vec<Taken>,
        need: usize,
    ) -> (out: (Option<Key>, Option<Walked>))
        requires
            old(self).wf(),
            old(self).stretch is Some,
            segments_wf(segments@),
            need > 0,
            rows@.len() <= need,
            rows@.len() > 0 ==> rows@.last().seg < segments@.len() && rows@.last().local
                < segments@[rows@.last().seg as int].count(),
        ensures
            final(self).wf(),
            final(self).keep_unmatched == old(self).keep_unmatched,
            final(self).ceiling == old(self).ceiling,
            final(self).position == old(self).position,
            final(self).origin == old(self).origin,
            final(self).region == old(self).region,
            old(self).moves_on(segments@, scan, end, rows@, need, out, *final(self)),
    {
        match end {
            TakeEnd::Stopped(reason, key) => {
                let shorter: u32 = self.target / STRETCH_GROWTH;
                self.target = if shorter < STRETCH_MIN {
                    STRETCH_MIN
                } else {
                    shorter
                };
                (further(scan, before(key)), Some(Walked::Stopped(reason)))
            },
            TakeEnd::Done => {
                if rows.len() == need {
                    let key: Key = key_of(self.position.order, segments, &rows[rows.len() - 1]);
                    return (Some(key), Some(Walked::Filled));
                }
                let until: Option<Key> = match &self.stretch {
                    Some(stretch) => stretch.until,
                    None => None,
                };
                self.stretch = None;
                self.target = if self.target > self.ceiling / STRETCH_GROWTH {
                    self.ceiling
                } else {
                    self.target * STRETCH_GROWTH
                };
                match until {
                    None => (Some((u32::MAX, u64::MAX)), Some(Walked::End)),
                    Some(until) => (further(scan, before(until)), None),
                }
            },
        }
    }

    /// The position just after one taken row.
    pub fn position_at(&self, segments: &Vec<SegmentRows>, row: &Taken) -> (position: Position)
        requires
            segments_wf(segments@),
            row.seg < segments@.len(),
            row.local < segments@[row.seg as int].count(),
        ensures
            position == (Position {
                order: self.position.order,
                scan: Some(row_key(self.position.order, segments@, *row)),
            }),
    {
        Position {
            order: self.position.order,
            scan: Some(key_of(self.position.order, segments, row)),
        }
    }
}

fn at_least(a: Option<Key>, b: Option<Key>) -> (yes: bool)
    ensures
        yes == scan_ge(a, b),
{
    match (a, b) {
        (_, None) => true,
        (None, Some(_)) => false,
        (Some(x), Some(y)) => y.0 < x.0 || (y.0 == x.0 && y.1 <= x.1),
    }
}

fn further(a: Option<Key>, b: Option<Key>) -> (out: Option<Key>)
    ensures
        out == furthest(a, b),
{
    if at_least(a, b) {
        a
    } else {
        b
    }
}

/// A map stretch: the first row of each segment past the scan position, and the first key past the
/// stretch.
#[derive(Debug)]
pub struct MapBounds {
    pub starts: Vec<u32>,
    pub until: Option<Key>,
}

/// How many segments hold a row from their start on.
pub open spec fn ahead_of(segments: Seq<SegmentRows>, starts: Seq<u32>, n: int) -> nat
    decreases n,
{
    if n <= 0 {
        0
    } else {
        ahead_of(segments, starts, n - 1) + if starts[n - 1] < segments[n - 1].count() {
            1nat
        } else {
            0
        }
    }
}

/// Each segment's share of a stretch of `target` rows: at least one row.
pub open spec fn share_of(target: u32, ahead: nat) -> int {
    if ahead == 0 || target as int / ahead as int == 0 {
        1
    } else {
        target as int / ahead as int
    }
}

/// The key a segment reaches its share of rows ahead, where it reaches that far.
pub open spec fn reach_of(segment: SegmentRows, start: u32, share: int) -> Option<Key> {
    if start + share < segment.count() {
        Some(segment.key(start + share))
    } else {
        None
    }
}

/// Whether `until` is the least key a segment reaches its share ahead.
pub open spec fn nearest(
    segments: Seq<SegmentRows>,
    starts: Seq<u32>,
    share: int,
    n: int,
    until: Option<Key>,
) -> bool {
    &&& forall|s: int|
        0 <= s < n ==> match reach_of(#[trigger] segments[s], starts[s], share) {
            Some(key) => until matches Some(end) && key_le(end, key),
            None => true,
        }
    &&& until matches Some(end) ==> exists|s: int|
        0 <= s < n && reach_of(#[trigger] segments[s], starts[s], share) == Some(end)
}

/// The map stretch past `scan`: every row of every segment whose key is below the nearest key a
/// segment reaches its share of `target` rows ahead. `None` where no segment holds a row past
/// `scan`.
pub fn map_stretch(segments: &Vec<SegmentRows>, scan: Option<Key>, target: u32) -> (bounds: Option<
    MapBounds,
>)
    requires
        segments_wf(segments@),
    ensures
        bounds is None <==> forall|s: int, local: int|
            0 <= s < segments@.len() && 0 <= local < segments@[s].count() ==> !past(
                #[trigger] segments@[s].key(local),
                scan,
            ),
        bounds matches Some(b) ==> {
            &&& b.starts@.len() == segments@.len()
            &&& forall|s: int|
                0 <= s < segments@.len() ==> (#[trigger] segments@[s]).split(
                    b.starts@[s] as int,
                    scan,
                )
            &&& nearest(
                segments@,
                b.starts@,
                share_of(target, ahead_of(segments@, b.starts@, segments@.len() as int)),
                segments@.len() as int,
                b.until,
            )
        },
{
    let mut starts: Vec<u32> = Vec::new();
    let mut ahead: usize = 0;
    let mut s: usize = 0;
    while s < segments.len()
        invariant
            s <= segments@.len(),
            segments_wf(segments@),
            starts@.len() == s,
            ahead <= s,
            ahead == ahead_of(segments@, starts@, s as int),
            forall|k: int|
                0 <= k < s ==> (#[trigger] segments@[k]).split(starts@[k] as int, scan),
            ahead == 0 <==> forall|k: int, local: int|
                0 <= k < s && 0 <= local < segments@[k].count() ==> !past(
                    #[trigger] segments@[k].key(local),
                    scan,
                ),
        decreases segments@.len() - s,
    {
        assert(segments@[s as int].wf());
        let start: u32 = first_after(&segments[s], scan);
        let ghost before_starts = starts@;
        starts.push(start);
        proof {
            lemma_ahead_reads(segments@, before_starts, starts@, s as int);
        }
        if (start as usize) < segments[s].cells.len() {
            ahead += 1;
            proof {
                assert(past(segments@[s as int].key(start as int), scan));
            }
        } else {
            proof {
                if ahead == 0 {
                    assert forall|k: int, local: int|
                        0 <= k < s + 1 && 0 <= local < segments@[k].count() implies !past(
                        #[trigger] segments@[k].key(local),
                        scan,
                    ) by {
                        if k == s {
                            assert(segments@[s as int].split(start as int, scan));
                        }
                    }
                }
            }
        }
        s += 1;
    }
    if ahead == 0 {
        return None;
    }
    let each: usize = (target as usize) / ahead;
    let share: usize = if each == 0 {
        1
    } else {
        each
    };
    let mut until: Option<Key> = None;
    let mut t: usize = 0;
    while t < segments.len()
        invariant
            t <= segments@.len(),
            segments_wf(segments@),
            starts@.len() == segments@.len(),
            share <= u32::MAX,
            nearest(segments@, starts@, share as int, t as int, until),
        decreases segments@.len() - t,
    {
        assert(segments@[t as int].wf());
        let ghost held = until;
        let start: usize = starts[t] as usize;
        let count: usize = segments[t].cells.len();
        if start < count && share < count - start {
            let reach: usize = start + share;
            let key: Key = (segments[t].cells[reach], segments[t].ids[reach]);
            let nearer: bool = match until {
                None => true,
                Some(end) => key.0 < end.0 || (key.0 == end.0 && key.1 < end.1),
            };
            if nearer {
                until = Some(key);
            }
            proof {
                assert(reach_of(segments@[t as int], starts@[t as int], share as int) == Some(key));
            }
        }
        proof {
            assert forall|k: int| 0 <= k < t + 1 implies match reach_of(
                #[trigger] segments@[k],
                starts@[k],
                share as int,
            ) {
                Some(key) => until matches Some(end) && key_le(end, key),
                None => true,
            } by {
                if k < t {
                    assert(match reach_of(segments@[k], starts@[k], share as int) {
                        Some(key) => held matches Some(end) && key_le(end, key),
                        None => true,
                    });
                }
            }
        }
        t += 1;
    }
    Some(MapBounds { starts, until })
}

proof fn lemma_ahead_reads(segments: Seq<SegmentRows>, a: Seq<u32>, b: Seq<u32>, n: int)
    requires
        0 <= n <= a.len(),
        a.len() <= b.len(),
        forall|k: int| 0 <= k < n ==> a[k] == b[k],
    ensures
        ahead_of(segments, a, n) == ahead_of(segments, b, n),
    decreases n,
{
    if n > 0 {
        lemma_ahead_reads(segments, a, b, n - 1);
    }
}

/// A map stretch always covers a row: some segment's first row past the scan position is below the
/// stretch's end.
pub proof fn law_a_map_stretch_covers_a_row(
    segments: Seq<SegmentRows>,
    scan: Option<Key>,
    bounds: MapBounds,
    share: int,
)
    requires
        segments_wf(segments),
        share >= 1,
        bounds.starts@.len() == segments.len(),
        forall|s: int|
            0 <= s < segments.len() ==> (#[trigger] segments[s]).split(
                bounds.starts@[s] as int,
                scan,
            ),
        nearest(segments, bounds.starts@, share, segments.len() as int, bounds.until),
        exists|s: int, local: int|
            0 <= s < segments.len() && 0 <= local < segments[s].count() && past(
                #[trigger] segments[s].key(local),
                scan,
            ),
    ensures
        exists|s: int, local: int|
            0 <= s < segments.len() && 0 <= local < segments[s].count() && past(
                #[trigger] segments[s].key(local),
                scan,
            ) && below(segments[s].key(local), bounds.until),
{
    match bounds.until {
        None => {
            let (s, local) = choose|s: int, local: int|
                0 <= s < segments.len() && 0 <= local < segments[s].count() && past(
                    #[trigger] segments[s].key(local),
                    scan,
                );
            assert(below(segments[s].key(local), bounds.until));
        },
        Some(end) => {
            let s = choose|s: int|
                0 <= s < segments.len() && reach_of(
                    #[trigger] segments[s],
                    bounds.starts@[s],
                    share,
                ) == Some(end);
            let start = bounds.starts@[s] as int;
            assert(segments[s].wf() && segments[s].split(start, scan));
            assert(key_lt(segments[s].key(start), segments[s].key(start + share)));
            assert(past(segments[s].key(start), scan));
        },
    }
}

/// Each segment's part of a stretch, where it has one.
pub fn stretch_parts(segments: &Vec<SegmentRows>, bounds: &MapBounds) -> (parts: Vec<
    (usize, u32, u32),
>)
    requires
        segments_wf(segments@),
        bounds.starts@.len() == segments@.len(),
    ensures
        forall|i: int|
            0 <= i < parts@.len() ==> (#[trigger] parts@[i]).0 < segments@.len() && parts@[i].1
                < parts@[i].2 <= segments@[parts@[i].0 as int].count(),
        forall|s: int, local: int| #[trigger]
            in_parts(parts@, s, local) == (0 <= s < segments@.len() && bounds.starts@[s] <= local
                < segments@[s].count() && below(segments@[s].key(local), bounds.until)),
{
    let mut parts: Vec<(usize, u32, u32)> = Vec::new();
    let mut s: usize = 0;
    while s < segments.len()
        invariant
            s <= segments@.len(),
            segments_wf(segments@),
            bounds.starts@.len() == segments@.len(),
            forall|i: int|
                0 <= i < parts@.len() ==> (#[trigger] parts@[i]).0 < s && parts@[i].1 < parts@[i].2
                    <= segments@[parts@[i].0 as int].count(),
            forall|t: int, local: int| #[trigger]
                in_parts(parts@, t, local) == (0 <= t < s && bounds.starts@[t] <= local
                    < segments@[t].count() && below(segments@[t].key(local), bounds.until)),
        decreases segments@.len() - s,
    {
        assert(segments@[s as int].wf());
        let start: u32 = bounds.starts[s];
        let end: u32 = first_at(&segments[s], bounds.until);
        let ghost before_parts = parts@;
        if start < end {
            parts.push((s, start, end));
        }
        proof {
            assert forall|t: int, local: int| #[trigger]
                in_parts(parts@, t, local) == (0 <= t < s + 1 && bounds.starts@[t] <= local
                    < segments@[t].count() && below(segments@[t].key(local), bounds.until)) by {
                if in_parts(before_parts, t, local) {
                    let i = choose|i: int|
                        0 <= i < before_parts.len() && part_holds(#[trigger] before_parts[i], t, local);
                    assert(part_holds(parts@[i], t, local));
                }
                if t == s && start <= local < end {
                    assert(part_holds(parts@[before_parts.len() as int], t, local));
                }
                if in_parts(parts@, t, local) {
                    let i = choose|i: int|
                        0 <= i < parts@.len() && part_holds(#[trigger] parts@[i], t, local);
                    if i < before_parts.len() {
                        assert(part_holds(before_parts[i], t, local));
                    }
                }
                if t == s && 0 <= local < segments@[t].count() {
                    assert((local < end) == below(segments@[t].key(local), bounds.until));
                }
            }
        }
        s += 1;
    }
    parts
}

/// Whether a part holds a segment's row.
pub open spec fn part_holds(part: (usize, u32, u32), s: int, local: int) -> bool {
    part.0 == s && part.1 <= local < part.2
}

/// Whether some part holds a segment's row.
pub open spec fn in_parts(parts: Seq<(usize, u32, u32)>, s: int, local: int) -> bool {
    exists|i: int| 0 <= i < parts.len() && part_holds(#[trigger] parts[i], s, local)
}

/// The candidate items of a map stretch: the items of its visible rows that the viewer's candidate
/// set holds.
pub fn stretch_candidate(
    segments: &Vec<SegmentRows>,
    parts: &Vec<(usize, u32, u32)>,
    mask: &Bitmap,
    candidate: &Bitmap,
) -> (items: Bitmap)
    requires
        segments_wf(segments@),
        forall|i: int|
            0 <= i < parts@.len() ==> (#[trigger] parts@[i]).0 < segments@.len() && parts@[i].1
                < parts@[i].2 <= segments@[parts@[i].0 as int].count(),
    ensures
        forall|entity: u32| #[trigger]
            bits(items).contains(entity) == (bits(*candidate).contains(entity) && exists|
                s: int,
                local: int,
            |
                #[trigger] in_parts(parts@, s, local) && bits(*mask).contains(
                    (segments@[s].base + local) as u32,
                ) && segments@[s].entities@[local] == entity),
{
    let ghost seen = bits(*mask);
    let mut list: Vec<u32> = Vec::new();
    let mut i: usize = 0;
    while i < parts.len()
        invariant
            i <= parts@.len(),
            segments_wf(segments@),
            seen == bits(*mask),
            forall|k: int|
                0 <= k < parts@.len() ==> (#[trigger] parts@[k]).0 < segments@.len() && parts@[k].1
                    < parts@[k].2 <= segments@[parts@[k].0 as int].count(),
            forall|entity: u32| #[trigger]
                list@.contains(entity) == visible_in(
                    segments@,
                    parts@.take(i as int),
                    seen,
                    entity,
                ),
        decreases parts@.len() - i,
    {
        let (s, start, end) = parts[i];
        assert(parts@[i as int].0 < segments@.len());
        assert(segments@[s as int].wf());
        let segment = &segments[s];
        let mut window = bitmap::empty();
        bitmap::insert_range(&mut window, segment.base + start, segment.base + end - 1);
        bitmap::intersect_with(&mut window, mask);
        let rows = bitmap::elements(&window);
        let ghost earlier = list@;
        proof {
            assert forall|x: u32| #[trigger] rows@.contains(x) == (segment.base + start <= x < segment.base
                + end && seen.contains(x)) by {
                assert(rows@.to_set().contains(x) == bits(window).contains(x));
            }
        }
        let mut k: usize = 0;
        while k < rows.len()
            invariant
                k <= rows@.len(),
                segment.wf(),
                start < end <= segment.count(),
                forall|x: u32| #[trigger]
                    rows@.contains(x) == (segment.base + start <= x < segment.base + end
                        && seen.contains(x)),
                forall|entity: u32| #[trigger]
                    list@.contains(entity) == (earlier.contains(entity) || exists|n: int|
                        0 <= n < k && segment.entities@[(#[trigger] rows@[n]) - segment.base]
                            == entity),
            decreases rows@.len() - k,
        {
            let row: u32 = rows[k];
            assert(rows@.contains(row));
            let ghost before_list = list@;
            let entity: u32 = segment.entities[(row - segment.base) as usize];
            list.push(entity);
            proof {
                assert forall|e: u32| #[trigger] list@.contains(e) == (earlier.contains(e)
                    || exists|n: int|
                    0 <= n < k + 1 && segment.entities@[(#[trigger] rows@[n]) - segment.base]
                        == e) by {
                    lemma_push_contains(before_list, entity, e);
                    if before_list.contains(e) && !earlier.contains(e) {
                        let n = choose|n: int|
                            0 <= n < k && segment.entities@[(#[trigger] rows@[n]) - segment.base]
                                == e;
                        assert(segment.entities@[rows@[n] - segment.base] == e);
                    }
                    if e == entity {
                        assert(segment.entities@[rows@[k as int] - segment.base] == e);
                    }
                    if exists|n: int|
                        0 <= n < k + 1 && segment.entities@[(#[trigger] rows@[n]) - segment.base]
                            == e {
                        let n = choose|n: int|
                            0 <= n < k + 1 && segment.entities@[(#[trigger] rows@[n])
                                - segment.base] == e;
                        if n < k {
                            assert(before_list.contains(e));
                        }
                    }
                }
            }
            k += 1;
        }
        proof {
            let now = parts@.take(i + 1);
            let then = parts@.take(i as int);
            assert forall|e: u32| #[trigger] list@.contains(e) == visible_in(
                segments@,
                now,
                seen,
                e,
            ) by {
                if earlier.contains(e) {
                    let (t, local) = choose|t: int, local: int|
                        #[trigger] in_parts(then, t, local) && seen.contains(
                            (segments@[t].base + local) as u32,
                        ) && segments@[t].entities@[local] == e;
                    let j = choose|j: int| 0 <= j < then.len() && part_holds(#[trigger] then[j], t, local);
                    assert(part_holds(now[j], t, local));
                    assert(in_parts(now, t, local));
                }
                if list@.contains(e) && !earlier.contains(e) {
                    let n = choose|n: int|
                        0 <= n < k && segment.entities@[(#[trigger] rows@[n]) - segment.base] == e;
                    assert(rows@.contains(rows@[n]));
                    let local = rows@[n] - segment.base;
                    assert(part_holds(now[i as int], s as int, local));
                    assert(in_parts(now, s as int, local));
                }
                if visible_in(segments@, now, seen, e) {
                    let (t, local) = choose|t: int, local: int|
                        #[trigger] in_parts(now, t, local) && seen.contains(
                            (segments@[t].base + local) as u32,
                        ) && segments@[t].entities@[local] == e;
                    let j = choose|j: int| 0 <= j < now.len() && part_holds(#[trigger] now[j], t, local);
                    if j < i {
                        assert(part_holds(then[j], t, local));
                        assert(in_parts(then, t, local));
                        assert(earlier.contains(e));
                    } else {
                        let row = (segment.base + local) as u32;
                        assert(rows@.contains(row));
                        let n = choose|n: int| 0 <= n < rows@.len() && rows@[n] == row;
                        assert(segment.entities@[rows@[n] - segment.base] == e);
                    }
                }
            }
        }
        i += 1;
    }
    let mut items = bitmap::of(list.as_slice());
    bitmap::intersect_with(&mut items, candidate);
    proof {
        assert(parts@.take(i as int) =~= parts@);
        assert forall|entity: u32| #[trigger] bits(items).contains(entity) == (bits(
            *candidate,
        ).contains(entity) && visible_in(segments@, parts@, seen, entity)) by {
            assert(list@.to_set().contains(entity) == list@.contains(entity));
        }
    }
    items
}

/// Whether a visible row of some part is an entity's.
pub open spec fn visible_in(
    segments: Seq<SegmentRows>,
    parts: Seq<(usize, u32, u32)>,
    mask: Set<u32>,
    entity: u32,
) -> bool {
    exists|s: int, local: int|
        #[trigger] in_parts(parts, s, local) && mask.contains((segments[s].base + local) as u32)
            && segments[s].entities@[local] == entity
}

proof fn lemma_push_contains(s: Seq<u32>, x: u32, y: u32)
    ensures
        s.push(x).contains(y) == (s.contains(y) || x == y),
{
    let t = s.push(x);
    if s.contains(y) {
        let i = choose|i: int| 0 <= i < s.len() && s[i] == y;
        assert(t[i] == y);
    }
    if x == y {
        assert(t[s.len() as int] == y);
    }
    if t.contains(y) && x != y {
        let i = choose|i: int| 0 <= i < t.len() && t[i] == y;
        assert(s[i] == y);
    }
}

/// The first item number past a scan position.
pub open spec fn items_from(scan: Option<Key>) -> int {
    match scan {
        None => 0,
        Some(at) => at.0 + 1,
    }
}

/// The candidate items of a stored stretch, and the first item past it: the next `target` items of
/// the candidate set. `None` where the candidate holds nothing past `scan`.
pub fn stored_stretch(candidate: &Bitmap, scan: Option<Key>, target: u32) -> (out: Option<
    (Bitmap, Option<u32>),
>)
    requires
        target > 0,
    ensures
        out is None <==> forall|e: u32| #[trigger]
            bits(*candidate).contains(e) ==> e < items_from(scan),
        out matches Some((items, until)) ==> {
            &&& bits(items) == bits(*candidate).intersect(
                span(
                    items_from(scan),
                    match until {
                        Some(end) => end as int,
                        None => 0x1_0000_0000,
                    },
                ),
            )
            &&& until matches Some(end) ==> bits(*candidate).contains(end) && bits(items).len()
                == target
            &&& until is None ==> bits(items).len() <= target || (bits(*candidate).len() > u32::MAX
                && items_from(scan) + target >= 0xFFFF_0000)
        },
{
    let ghost held = bits(*candidate);
    let from: u64 = match scan {
        None => 0,
        Some(at) => at.0 as u64 + 1,
    };
    if from > u32::MAX as u64 {
        return None;
    }
    let first: u32 = from as u32;
    let passed: u64 = if first == 0 {
        0
    } else {
        bitmap::rank(candidate, first - 1)
    };
    let ghost lower = held.intersect(span(0, first as int));
    let ghost upper = held.intersect(span(first as int, 0x1_0000_0000));
    proof {
        if first == 0 {
            assert(lower =~= Set::empty());
        }
        assert(passed == lower.len());
        assert(lower.disjoint(upper));
        lemma_disjoint_len(lower, upper);
        assert(lower.union(upper) =~= held);
        lemma_finite(upper);
        lemma_len_bound(held);
        lemma_span_len(0, first as int);
        vstd::set_lib::lemma_len_subset(lower, span(0, first as int));
    }
    let all: u64 = bitmap::cardinality(candidate);
    if passed >= all {
        proof {
            assert(upper.len() == 0);
            assert(upper =~= Set::empty());
            assert forall|e: u32| #[trigger] held.contains(e) implies e < first by {
                if e >= first {
                    assert(upper.contains(e));
                }
            }
        }
        return None;
    }
    proof {
        let e = upper.choose();
        assert(upper.contains(e));
        assert(held.contains(e) && e >= first);
    }
    let rank: u64 = passed + target as u64;
    let until: Option<u32> = if rank > u32::MAX as u64 {
        None
    } else {
        bitmap::select(candidate, rank as u32)
    };
    let mut items = bitmap::empty();
    match until {
        Some(end) => {
            proof {
                let below_end = held.intersect(span(0, end as int));
                let part = held.intersect(span(first as int, end as int));
                lemma_finite(below_end);
                assert(first < end) by {
                    if end <= first {
                        vstd::set_lib::lemma_len_subset(below_end, lower);
                    }
                }
                assert(lower.disjoint(part));
                lemma_disjoint_len(lower, part);
                assert(lower.union(part) =~= below_end);
            }
            bitmap::insert_range(&mut items, first, end - 1);
            bitmap::intersect_with(&mut items, candidate);
            proof {
                assert(bits(items) =~= held.intersect(span(first as int, end as int)));
            }
        },
        None => {
            let last: u32 = match bitmap::maximum(candidate) {
                Some(last) => last,
                None => first,
            };
            proof {
                let e = upper.choose();
                assert(upper.contains(e));
                assert(held.contains(e));
            }
            bitmap::insert_range(&mut items, first, last);
            bitmap::intersect_with(&mut items, candidate);
            proof {
                assert(bits(items) =~= upper);
            }
        },
    }
    Some((items, until))
}

/// The items of a stored stretch that hold a row in the view, ascending, each with its row.
pub fn stored_items(range: &Bitmap, space: &RowSpace) -> (items: Vec<(u32, u32)>)
    requires
        space.wf(),
    ensures
        items_ascend(items@),
        forall|i: int|
            0 <= i < items@.len() ==> bits(*range).contains((#[trigger] items@[i]).0)
                && space.placed(items@[i].0, items@[i].1),
        forall|entity: u32| #[trigger]
            bits(*range).contains(entity) && space.has_row(entity) ==> exists|i: int|
                0 <= i < items@.len() && (#[trigger] items@[i]).0 == entity,
{
    let entities = bitmap::elements(range);
    let mut items: Vec<(u32, u32)> = Vec::new();
    let mut k: usize = 0;
    while k < entities.len()
        invariant
            k <= entities@.len(),
            space.wf(),
            ascending(entities@),
            entities@.to_set() == bits(*range),
            items_ascend(items@),
            forall|i: int|
                0 <= i < items@.len() ==> bits(*range).contains((#[trigger] items@[i]).0)
                    && space.placed(items@[i].0, items@[i].1) && (k < entities@.len()
                    ==> items@[i].0 < entities@[k as int]),
            forall|j: int|
                0 <= j < k && space.has_row(#[trigger] entities@[j]) ==> exists|i: int|
                    0 <= i < items@.len() && (#[trigger] items@[i]).0 == entities@[j],
        decreases entities@.len() - k,
    {
        let entity: u32 = entities[k];
        let ghost before = items@;
        assert(entities@.to_set().contains(entity));
        if let Some(row) = space.row_of(entity) {
            items.push((entity, row));
        }
        proof {
            assert forall|j: int|
                0 <= j < k + 1 && space.has_row(#[trigger] entities@[j]) implies exists|i: int|
                0 <= i < items@.len() && (#[trigger] items@[i]).0 == entities@[j] by {
                if j < k {
                    let i = choose|i: int|
                        0 <= i < before.len() && (#[trigger] before[i]).0 == entities@[j];
                    assert(items@[i].0 == entities@[j]);
                } else {
                    assert(items@[items@.len() - 1].0 == entity);
                }
            }
        }
        k += 1;
    }
    proof {
        assert forall|entity: u32| #[trigger]
            bits(*range).contains(entity) && space.has_row(entity) implies exists|i: int|
            0 <= i < items@.len() && (#[trigger] items@[i]).0 == entity by {
            assert(entities@.to_set().contains(entity));
            let j = choose|j: int| 0 <= j < entities@.len() && entities@[j] == entity;
            assert(space.has_row(entities@[j]));
        }
    }
    items
}

/// A stored stretch's rows below `total` as runs, which the view need not hold in one.
pub fn stored_domain(items: &Vec<(u32, u32)>, total: u32) -> (domain: Vec<(u32, u32)>)
    ensures
        apart(domain@),
        forall|row: u32| #[trigger]
            rows_of(domain@).contains(row) <==> row < total && exists|i: int|
                0 <= i < items@.len() && (#[trigger] items@[i]).1 == row,
{
    let mut rows: Vec<u32> = Vec::new();
    let mut i: usize = 0;
    while i < items.len()
        invariant
            i <= items@.len(),
            rows@.len() == i,
            forall|k: int| 0 <= k < i ==> (#[trigger] rows@[k]) == items@[k].1,
        decreases items@.len() - i,
    {
        rows.push(items[i].1);
        i += 1;
    }
    let held = bitmap::of(rows.as_slice());
    proof {
        assert forall|row: u32| #[trigger] bits(held).contains(row) <==> exists|k: int|
            0 <= k < items@.len() && (#[trigger] items@[k]).1 == row by {
            if rows@.to_set().contains(row) {
                let k = choose|k: int| 0 <= k < rows@.len() && rows@[k] == row;
                assert(items@[k].1 == row);
            }
            if exists|k: int| 0 <= k < items@.len() && (#[trigger] items@[k]).1 == row {
                let k = choose|k: int| 0 <= k < items@.len() && (#[trigger] items@[k]).1 == row;
                assert(rows@[k] == row);
                assert(rows@.contains(row));
            }
        }
    }
    visible_runs(&held, 0, total)
}

/// No two rows of the view share a key.
pub open spec fn keys_distinct(segments: Seq<SegmentRows>) -> bool {
    forall|s: int, a: int, t: int, b: int|
        0 <= s < segments.len() && 0 <= a < segments[s].count() && 0 <= t < segments.len() && 0 <= b
            < segments[t].count() && #[trigger] segments[s].key(a) == #[trigger] segments[t].key(b)
            ==> s == t && a == b
}

/// The scan position a page ends at passes no row over that the page admits: whatever lies between
/// the position the take began after and the one the walk moves to was taken.
pub proof fn law_the_scan_passes_over_no_admitted_row(
    take: MapTake,
    segments: Seq<SegmentRows>,
    page: PageMask,
    rows: Seq<Taken>,
    scan: Option<Key>,
    until: Option<Key>,
    end: TakeEnd,
    next: Option<Key>,
    s: int,
    local: int,
)
    requires
        take.wf(segments, page, rows),
        take.within(segments, scan, until),
        keys_distinct(segments),
        match end {
            TakeEnd::Stopped(_, key) => next == furthest(scan, before_of(key)) && below(key, until)
                && forall|t: int|
                0 <= t < segments.len() && (#[trigger] take.runs@[t]).left() ==> key_le(
                    key,
                    segments[t].key(take.runs@[t].reached()),
                ),
            TakeEnd::Done => {
                ||| take.from < rows.len() && next == Some(
                    row_key(RecordsOrder::ByMap, segments, rows.last()),
                )
                ||| (forall|t: int| 0 <= t < segments.len() ==> !(#[trigger] take.runs@[t]).left())
                    && (until matches Some(u) ==> next == furthest(scan, before_of(u)))
            },
        },
        0 <= s < segments.len(),
        0 <= local < segments[s].count(),
        takes(segments[s], page, local),
        past(segments[s].key(local), scan),
        !past(segments[s].key(local), next),
    ensures
        taken_at(rows, take.from as int, s, local),
{
    let key = segments[s].key(local);
    match end {
        TakeEnd::Stopped(_, first) => {
            lemma_before(first, key);
            assert(key_lt(key, first));
            law_a_stopped_take_took_every_earlier_row(
                take,
                segments,
                page,
                rows,
                scan,
                until,
                first,
                s,
                local,
            );
        },
        TakeEnd::Done => {
            if take.from < rows.len() && next == Some(
                row_key(RecordsOrder::ByMap, segments, rows.last()),
            ) {
                let last = rows.last();
                assert(is_row(rows[rows.len() - 1], segments, page));
                assert(below(segments[last.seg as int].key(last.local as int), until)) by {
                    let run = take.runs@[last.seg as int];
                    assert(run.wf(segments[last.seg as int], page));
                    assert(last.local < run.reached());
                }
                if !taken_at(rows, take.from as int, s, local) {
                    law_what_is_taken_comes_first(
                        take,
                        segments,
                        page,
                        rows,
                        scan,
                        until,
                        s,
                        local,
                    );
                    assert(row_before(
                        segments,
                        rows[rows.len() - 1].seg as int,
                        rows[rows.len() - 1].local as int,
                        s,
                        local,
                    ));
                }
            } else {
                match until {
                    Some(u) => {
                        lemma_before(u, key);
                    },
                    None => {},
                }
                law_a_spent_take_took_every_row(take, segments, page, rows, scan, until, s, local);
            }
        },
    }
}

/// A stretch spans the rows asked for where they are no fewer than the least stretch and fit its
/// bytes, and otherwise as few or as many as may be.
pub proof fn law_a_stretch_spans_what_is_asked_within_its_bytes(stretch: u32, stretch_bytes: usize)
    ensures
        ({
            let target = target_of(stretch, stretch_bytes);
            let ceiling = ceiling_of(stretch_bytes);
            &&& STRETCH_MIN <= target <= ceiling
            &&& STRETCH_MIN <= stretch <= ceiling ==> target == stretch
            &&& stretch < STRETCH_MIN ==> target == STRETCH_MIN
            &&& stretch > ceiling ==> target == ceiling
            &&& ceiling > STRETCH_MIN ==> ceiling * STRETCH_BYTES_PER_ROW <= stretch_bytes
            &&& ceiling < u32::MAX ==> (ceiling + 1) * STRETCH_BYTES_PER_ROW > stretch_bytes
        }),
{
    let rows = stretch_bytes as int / STRETCH_BYTES_PER_ROW as int;
    let ceiling = ceiling_of(stretch_bytes);
    vstd::arithmetic::div_mod::lemma_fundamental_div_mod(
        stretch_bytes as int,
        STRETCH_BYTES_PER_ROW as int,
    );
    assert(rows * STRETCH_BYTES_PER_ROW <= stretch_bytes < (rows + 1) * STRETCH_BYTES_PER_ROW)
        by (nonlinear_arith)
        requires
            stretch_bytes == STRETCH_BYTES_PER_ROW * rows + stretch_bytes as int
                % STRETCH_BYTES_PER_ROW as int,
            0 <= stretch_bytes as int % STRETCH_BYTES_PER_ROW as int,
            (stretch_bytes as int % STRETCH_BYTES_PER_ROW as int) < STRETCH_BYTES_PER_ROW,
    ;
    if ceiling > STRETCH_MIN {
        assert(ceiling <= rows);
        assert(ceiling * STRETCH_BYTES_PER_ROW <= rows * STRETCH_BYTES_PER_ROW) by (nonlinear_arith)
            requires
                0 <= ceiling <= rows,
        ;
    }
    if ceiling < u32::MAX {
        assert(rows <= ceiling);
        assert((rows + 1) * STRETCH_BYTES_PER_ROW <= (ceiling + 1) * STRETCH_BYTES_PER_ROW)
            by (nonlinear_arith)
            requires
                0 <= rows <= ceiling,
        ;
    }
}

/// A held stretch answers only where it was opened under the page's own publication and mask, for
/// the same session, and no further ahead than the scan stands.
pub proof fn law_a_held_stretch_answers_only_what_it_was_opened_for(
    walk: Walk,
    scan: Option<Key>,
    publication: Publication,
    mask: MaskIdentity,
)
    ensures
        walk.current(scan, publication, mask) <==> ({
            let held = walk.stretch->0;
            &&& walk.stretch is Some
            &&& held.under.prefix@ == publication.prefix@
            &&& held.under.segments_version == publication.segments_version
            &&& held.under.overlay == publication.overlay
            &&& held.mask.token_id == mask.token_id
            &&& held.mask.segments_version == mask.segments_version
            &&& held.mask.overlay_version == mask.overlay_version
            &&& held.mask.fragment_identity@ == mask.fragment_identity@
            &&& held.mask.fragment_watermark == mask.fragment_watermark
            &&& held.from is Some ==> scan is Some && ({
                let (cell, id) = held.from->0;
                let (at, of) = scan->0;
                cell < at || (cell == at && id <= of)
            })
        }),
{
}

/// A map stretch ends where a segment first reaches its share: from where the segment's rows pass the
/// scan position, no segment has more than its share of rows below the stretch's end, and where it
/// has an end, that is the key of a row a share ahead. The shares of the segments that have rows
/// ahead come to no more than the target, but for one row each.
pub proof fn law_a_map_stretch_takes_each_segments_share(
    segments: Seq<SegmentRows>,
    starts: Seq<u32>,
    target: u32,
    until: Option<Key>,
    s: int,
    local: int,
)
    requires
        segments_wf(segments),
        starts.len() == segments.len(),
        nearest(
            segments,
            starts,
            share_of(target, ahead_of(segments, starts, segments.len() as int)),
            segments.len() as int,
            until,
        ),
        0 <= s < segments.len(),
        0 <= local < segments[s].cells@.len(),
    ensures
        ({
            let ahead = ahead_of(segments, starts, segments.len() as int);
            let share = share_of(target, ahead);
            &&& share >= 1
            &&& share > 1 ==> share * ahead <= target
            &&& local >= starts[s] + share ==> until is Some && ({
                let (cell, id) = until->0;
                cell < segments[s].cells@[local] || (cell == segments[s].cells@[local] && id
                    <= segments[s].ids@[local])
            })
            &&& until is Some ==> exists|t: int|
                0 <= t < segments.len() && starts[t] + share < (
                #[trigger] segments[t]).cells@.len() && until->0 == (
                    segments[t].cells@[starts[t] + share],
                    segments[t].ids@[starts[t] + share],
                )
        }),
{
    let ahead = ahead_of(segments, starts, segments.len() as int);
    let share = share_of(target, ahead);
    if ahead > 0 {
        vstd::arithmetic::div_mod::lemma_fundamental_div_mod(target as int, ahead as int);
        assert(share > 1 ==> share * ahead <= target) by (nonlinear_arith)
            requires
                target == ahead * (target as int / ahead as int) + target as int % ahead as int,
                target as int % ahead as int >= 0,
                share > 1 ==> share == target as int / ahead as int,
        ;
        assert(target as int / ahead as int >= 0) by (nonlinear_arith)
            requires
                ahead > 0,
                target >= 0,
        ;
    }
    assert(segments[s].wf());
    if local >= starts[s] + share {
        assert(reach_of(segments[s], starts[s], share) == Some(segments[s].key(starts[s] + share)));
        if local > starts[s] + share {
            assert(key_lt(segments[s].key(starts[s] + share), segments[s].key(local)));
        }
    }
    if until is Some {
        let t = choose|t: int|
            0 <= t < segments.len() && reach_of(#[trigger] segments[t], starts[t], share) == until;
        assert(segments[t].wf());
    }
}

/// After a take the scan has left behind exactly what was dealt with. Where the take was stopped at
/// a key, what is still ahead is what was ahead and is not before that key; where it emptied its
/// stretch, what was ahead and is not before the stretch's end, and nothing where the stretch had
/// no end. Where it filled the page the scan stands at the last row taken.
pub proof fn law_the_scan_leaves_behind_what_was_dealt_with(
    walk: Walk,
    segments: Seq<SegmentRows>,
    scan: Option<Key>,
    end: TakeEnd,
    rows: Seq<Taken>,
    need: usize,
    out: (Option<Key>, Option<Walked>),
    after: Walk,
    cell: u32,
    id: u64,
)
    requires
        walk.moves_on(segments, scan, end, rows, need, out, after),
        walk.stretch is Some,
        rows.len() <= need,
    ensures
        ({
            let (next, ended) = out;
            let was_ahead = scan is None || {
                let (c, d) = scan->0;
                c < cell || (c == cell && d < id)
            };
            let ahead = next is None || {
                let (c, d) = next->0;
                c < cell || (c == cell && d < id)
            };
            &&& end matches TakeEnd::Stopped(reason, key) ==> {
                let (c, d) = key;
                &&& ahead <==> was_ahead && (c < cell || (c == cell && d <= id))
                &&& ended == Some(Walked::Stopped(reason))
                &&& after.stretch == walk.stretch
            }
            &&& end is Done && rows.len() == need ==> {
                &&& ended == Some(Walked::Filled)
                &&& next == Some(row_key(walk.position.order, segments, rows[rows.len() - 1]))
                &&& after.stretch == walk.stretch
                &&& after.target == walk.target
            }
            &&& end is Done && rows.len() < need ==> {
                &&& after.stretch is None
                &&& walk.stretch->0.until is None <==> ended == Some(Walked::End)
                &&& walk.stretch->0.until is None ==> !ahead
                &&& walk.stretch->0.until matches Some(until) ==> {
                    let (c, d) = until;
                    &&& ended is None
                    &&& ahead <==> was_ahead && (c < cell || (c == cell && d <= id))
                }
            }
        }),
{
}

/// A stop makes the next stretch shorter and an emptied stretch makes it longer, in both cases
/// within the least and the most a stretch may span.
pub proof fn law_a_stretch_shortens_on_a_stop_and_lengthens_when_emptied(
    walk: Walk,
    segments: Seq<SegmentRows>,
    scan: Option<Key>,
    end: TakeEnd,
    rows: Seq<Taken>,
    need: usize,
    out: (Option<Key>, Option<Walked>),
    after: Walk,
)
    requires
        walk.wf(),
        walk.moves_on(segments, scan, end, rows, need, out, after),
        rows.len() <= need,
    ensures
        STRETCH_MIN <= after.target <= walk.ceiling,
        end is Stopped ==> after.target <= walk.target && (walk.target > STRETCH_MIN ==> after.target
            < walk.target),
        end is Done && rows.len() < need ==> after.target >= walk.target && (walk.target
            < walk.ceiling ==> after.target > walk.target),
        end is Done && rows.len() == need ==> after.target == walk.target,
{
}

} // verus!
