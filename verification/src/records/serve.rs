//! A response: a head, then pages until it ends, then a trailer.

use croaring::Bitmap;
use vstd::prelude::*;

use crate::bitmap;
use crate::bitmap::{bits, span};
use crate::records::stretch::{Walk, Walked};
use crate::records::walk::{row_key, segments_wf, Position, SegmentRows, Taken};
use crate::records::{PageEndedBy, RecordsOrder, ResponseEndedBy};
use crate::region::RegionVerdict;

verus! {

/// A response's ceilings and budgets.
#[derive(Clone, Copy, Debug, PartialEq, Eq, Structural)]
pub struct ItemsLimits {
    /// Rows per page.
    pub max_page_rows: u32,
    /// Bytes per page, before compression. A single row larger than this is sent alone.
    pub max_page_bytes: usize,
    /// Bytes a response carries. No page starts that could take it past this.
    pub response_bytes: usize,
    /// Milliseconds a response runs.
    pub response_time: u64,
}

/// The visible and matching counts a head carries.
#[derive(Clone, Copy, Debug, PartialEq, Eq, Structural)]
pub struct ItemsCounts {
    /// Visible items in the view.
    pub visible: u64,
    /// Of those, the ones matching the filter.
    pub matched: u64,
}

/// What precedes a response's pages.
#[derive(Clone, Copy, Debug, PartialEq, Eq, Structural)]
pub struct ItemsHead {
    pub order: RecordsOrder,
    /// The page size used, after the ceiling.
    pub page_rows: u32,
    pub counts: Option<ItemsCounts>,
    /// The coarsest verdict reached before the head was sent.
    pub region: Option<RegionVerdict>,
}

/// What precedes an artifacts response's pages. Its rows have the one order, by level and then
/// ordinal, so no order is named.
#[derive(Clone, Copy, Debug, PartialEq, Eq, Structural)]
pub struct ArtifactsHead {
    /// The page size used, after the ceiling.
    pub page_rows: u32,
    pub counts: Option<ItemsCounts>,
    /// The coarsest verdict reached before the head was sent.
    pub region: Option<RegionVerdict>,
}

/// What follows a page.
#[derive(Clone, Debug, PartialEq, Eq)]
pub struct ItemsPageEnd {
    /// The cursor to resume after this page from; `None` where no row remains.
    pub next: Option<String>,
    pub ended_by: PageEndedBy,
    /// The page's bytes, as counted against the ceilings.
    pub bytes: usize,
}

/// What closes a response.
#[derive(Clone, Debug, PartialEq, Eq)]
pub struct ItemsTrailer {
    pub pages: u64,
    pub rows: u64,
    /// The cursor to resume from; `None` where no row remains.
    pub next: Option<String>,
    pub ended_by: ResponseEndedBy,
}

/// One page's outcome.
#[derive(Clone, Copy, Debug, PartialEq, Eq, Structural)]
pub enum Paged {
    Rows {
        rows: u64,
        bytes: usize,
        ended_by: PageEndedBy,
        /// Why the response ends after this page, where it does for time or cancellation.
        then: Option<ResponseEndedBy>,
    },
    End,
    Stopped(ResponseEndedBy),
}

/// Whether counts are those of a mask and of a filter's rows, over a view of `total` rows.
pub open spec fn counts_items(
    mask: Set<u32>,
    total: u32,
    filter: Option<Set<u32>>,
    counts: ItemsCounts,
) -> bool {
    &&& counts.visible == mask.len()
    &&& filter is None ==> counts.matched == counts.visible
    &&& filter matches Some(rows) ==> counts.matched == mask.intersect(
        span(0, total as int),
    ).intersect(rows).len()
}

/// The head's counts: the rows the mask admits, and of them the ones the filter's rows hold, over a
/// view of `total` rows.
pub fn items_counts(mask: &Bitmap, total: u32, filter: &Option<Bitmap>) -> (counts: ItemsCounts)
    ensures
        counts_items(
            bits(*mask),
            total,
            match *filter {
                Some(rows) => Some(bits(rows)),
                None => None,
            },
            counts,
        ),
{
    let visible: u64 = bitmap::cardinality(mask);
    match filter {
        None => ItemsCounts { visible, matched: visible },
        Some(rows) => {
            let mut window = bitmap::empty();
            if total > 0 {
                bitmap::insert_range(&mut window, 0, total - 1);
            }
            bitmap::intersect_with(&mut window, mask);
            assert(bits(window) =~= bits(*mask).intersect(span(0, total as int)));
            ItemsCounts { visible, matched: bitmap::and_cardinality(&window, rows) }
        },
    }
}

/// What a page that took `held` rows and kept `kept` of them came to.
pub open spec fn page_of(held: nat, kept: nat, bytes: usize, walked: Walked) -> Paged {
    let then = match walked {
        Walked::Stopped(reason) => Some(reason),
        _ => None,
    };
    if held == 0 {
        match walked {
            Walked::Stopped(reason) => Paged::Stopped(reason),
            _ => Paged::End,
        }
    } else if kept < held {
        Paged::Rows { rows: kept as u64, bytes, ended_by: PageEndedBy::Bytes, then }
    } else {
        Paged::Rows {
            rows: kept as u64,
            bytes,
            ended_by: match walked {
                Walked::End => PageEndedBy::End,
                Walked::Stopped(_) => PageEndedBy::Time,
                Walked::Filled => PageEndedBy::Rows,
            },
            then,
        }
    }
}

/// Whether a walk stands at the end of a page of the first `kept` of some rows.
pub open spec fn ends_page(
    walk: Walk,
    segments: Seq<SegmentRows>,
    rows: Seq<Taken>,
    position: Position,
    kept: int,
    after: Walk,
) -> bool {
    after.position == if kept < rows.len() {
        Position {
            order: walk.position.order,
            scan: Some(row_key(walk.position.order, segments, rows[kept - 1])),
        }
    } else {
        position
    }
}

/// One page: the rows walked from the position, cut to the `kept` rows that fit the byte ceiling.
/// The walk's position moves to the page's end, or where the page holds no row, to the scan
/// position reached.
pub fn finish_page(
    walk: &mut Walk,
    segments: &Vec<SegmentRows>,
    rows: &Vec<Taken>,
    walked: Walked,
    position: Position,
    kept: usize,
    bytes: usize,
) -> (page: Paged)
    requires
        segments_wf(segments@),
        kept <= rows@.len(),
        rows@.len() > 0 ==> kept > 0,
        forall|i: int|
            0 <= i < rows@.len() ==> (#[trigger] rows@[i]).seg < segments@.len() && rows@[i].local
                < segments@[rows@[i].seg as int].count(),
    ensures
        page == page_of(rows@.len(), kept as nat, bytes, walked),
        ends_page(*old(walk), segments@, rows@, position, kept as int, *final(walk)),
        final(walk).target == old(walk).target,
        final(walk).ceiling == old(walk).ceiling,
        final(walk).origin == old(walk).origin,
        final(walk).stretch == old(walk).stretch,
        final(walk).region == old(walk).region,
        final(walk).keep_unmatched == old(walk).keep_unmatched,
{
    if rows.len() == 0 {
        walk.position = position;
        return match walked {
            Walked::Stopped(reason) => Paged::Stopped(reason),
            _ => Paged::End,
        };
    }
    let then: Option<ResponseEndedBy> = match walked {
        Walked::Stopped(reason) => Some(reason),
        _ => None,
    };
    let ended_by: PageEndedBy = if kept < rows.len() {
        assert(rows@[kept - 1].seg < segments@.len());
        walk.position = walk.position_at(segments, &rows[kept - 1]);
        PageEndedBy::Bytes
    } else {
        walk.position = position;
        match walked {
            Walked::End => PageEndedBy::End,
            Walked::Stopped(_) => PageEndedBy::Time,
            Walked::Filled => PageEndedBy::Rows,
        }
    };
    Paged::Rows { rows: kept as u64, bytes, ended_by, then }
}

/// A response under way.
#[derive(Clone, Copy, Debug, PartialEq, Eq, Structural)]
pub struct Response {
    pub pages: u64,
    pub rows: u64,
    pub bytes: usize,
    pub head_sent: bool,
    pub counts: Option<ItemsCounts>,
    /// The verdict the counting evaluation's region leaves reached.
    pub count_region: Option<RegionVerdict>,
}

/// Why a response ends before its next page, if it does: its pages, its bytes, its time, then
/// cancellation. The pages and the time are read only once a page was sent.
pub open spec fn ends_before_page(
    response: Response,
    limits: ItemsLimits,
    pages: Option<u32>,
    out_of_time: bool,
    cancelled: bool,
) -> Option<ResponseEndedBy> {
    if response.pages > 0 && pages is Some && response.pages >= pages->0 {
        Some(ResponseEndedBy::Pages)
    } else if response.bytes + limits.max_page_bytes > limits.response_bytes {
        Some(ResponseEndedBy::BudgetBytes)
    } else if response.pages > 0 && out_of_time {
        Some(ResponseEndedBy::BudgetTime)
    } else if cancelled {
        Some(ResponseEndedBy::Deadline)
    } else {
        None
    }
}

/// What a page does to a response: the page end it is sent with, and why the response ends after
/// it, if it does.
#[derive(Clone, Copy, Debug, PartialEq, Eq)]
pub struct PageStep {
    /// The page end's reason and bytes, where the page holds rows.
    pub page: Option<(PageEndedBy, usize)>,
    pub ended: Option<ResponseEndedBy>,
}

impl PageStep {
    /// Whether the page end carries a cursor.
    pub fn resumes(&self) -> (yes: bool)
        ensures
            yes == (self.page matches Some((ended_by, _)) && ended_by != PageEndedBy::End),
    {
        match self.page {
            Some((ended_by, _)) => match ended_by {
                PageEndedBy::End => false,
                _ => true,
            },
            None => false,
        }
    }
}

/// Why a response ends after a page, if it does.
pub open spec fn ends_after_page(page: Paged) -> Option<ResponseEndedBy> {
    match page {
        Paged::Rows { ended_by, then, .. } => if ended_by == PageEndedBy::End {
            Some(ResponseEndedBy::End)
        } else {
            then
        },
        Paged::End => Some(ResponseEndedBy::End),
        Paged::Stopped(reason) => Some(reason),
    }
}

impl Response {
    /// A response of which nothing was sent.
    pub fn begin() -> (response: Response)
        ensures
            response == (Response {
                pages: 0,
                rows: 0,
                bytes: 0,
                head_sent: false,
                counts: None,
                count_region: None,
            }),
    {
        Response {
            pages: 0,
            rows: 0,
            bytes: 0,
            head_sent: false,
            counts: None,
            count_region: None,
        }
    }

    /// Why the response ends before its next page, if it does.
    pub fn before_page(
        &self,
        limits: &ItemsLimits,
        pages: Option<u32>,
        out_of_time: bool,
        cancelled: bool,
    ) -> (ended: Option<ResponseEndedBy>)
        ensures
            ended == ends_before_page(*self, *limits, pages, out_of_time, cancelled),
    {
        if self.pages > 0 {
            if let Some(limit) = pages {
                if self.pages >= limit as u64 {
                    return Some(ResponseEndedBy::Pages);
                }
            }
        }
        if self.bytes > limits.response_bytes || limits.max_page_bytes > limits.response_bytes
            - self.bytes {
            return Some(ResponseEndedBy::BudgetBytes);
        }
        if self.pages > 0 && out_of_time {
            return Some(ResponseEndedBy::BudgetTime);
        }
        if cancelled {
            return Some(ResponseEndedBy::Deadline);
        }
        None
    }

    /// Whether the head's counts are still to be taken.
    pub fn wants_counts(&self, asked: bool) -> (yes: bool)
        ensures
            yes == (asked && self.counts is None),
    {
        asked && self.counts.is_none()
    }

    /// The counts taken under the first page's mask.
    pub fn counted(&mut self, counts: ItemsCounts, region: Option<RegionVerdict>)
        ensures
            *final(self) == (Response {
                counts: Some(counts),
                count_region: region,
                ..*old(self)
            }),
    {
        self.counts = Some(counts);
        self.count_region = region;
    }

    /// The head, the first time it is asked for.
    pub fn head(&mut self, order: RecordsOrder, page_rows: u32, region: Option<RegionVerdict>) -> (
        head: Option<ItemsHead>)
        ensures
            *final(self) == (Response { head_sent: true, ..*old(self) }),
            head == if old(self).head_sent {
                None
            } else {
                Some(
                    ItemsHead {
                        order,
                        page_rows,
                        counts: old(self).counts,
                        region: RegionVerdict::coarsest_of(old(self).count_region, region),
                    },
                )
            },
    {
        if self.head_sent {
            return None;
        }
        self.head_sent = true;
        Some(
            ItemsHead {
                order,
                page_rows,
                counts: self.counts,
                region: RegionVerdict::coarsest(self.count_region, region),
            },
        )
    }

    /// [`Response::head`], of an artifacts response.
    pub fn artifacts_head(&mut self, page_rows: u32, region: Option<RegionVerdict>) -> (head: Option<
        ArtifactsHead,
    >)
        ensures
            *final(self) == (Response { head_sent: true, ..*old(self) }),
            head == if old(self).head_sent {
                None
            } else {
                Some(
                    ArtifactsHead {
                        page_rows,
                        counts: old(self).counts,
                        region: RegionVerdict::coarsest_of(old(self).count_region, region),
                    },
                )
            },
    {
        if self.head_sent {
            return None;
        }
        self.head_sent = true;
        Some(
            ArtifactsHead {
                page_rows,
                counts: self.counts,
                region: RegionVerdict::coarsest(self.count_region, region),
            },
        )
    }

    /// Count a page, and say what follows it. A page that holds rows follows the head.
    pub fn paged(&mut self, page: Paged) -> (step: PageStep)
        requires
            page is Rows ==> old(self).head_sent,
            page matches Paged::Rows { rows, bytes, .. } ==> old(self).pages < u64::MAX && old(self).rows + rows <= u64::MAX && old(self).bytes + bytes <= usize::MAX,
        ensures
            step.ended == ends_after_page(page),
            match page {
                Paged::Rows { rows, bytes, ended_by, then } => {
                    &&& step.page == Some((ended_by, bytes))
                    &&& *final(self) == (Response {
                        pages: (old(self).pages + 1) as u64,
                        rows: (old(self).rows + rows) as u64,
                        bytes: (old(self).bytes + bytes) as usize,
                        ..*old(self)
                    })
                },
                _ => step.page is None && *final(self) == *old(self),
            },
    {
        match page {
            Paged::Rows { rows, bytes, ended_by, then } => {
                self.pages = self.pages + 1;
                self.rows = self.rows + rows;
                self.bytes = self.bytes + bytes;
                let ended: Option<ResponseEndedBy> = match ended_by {
                    PageEndedBy::End => Some(ResponseEndedBy::End),
                    _ => then,
                };
                PageStep { page: Some((ended_by, bytes)), ended }
            },
            Paged::End => PageStep { page: None, ended: Some(ResponseEndedBy::End) },
            Paged::Stopped(reason) => PageStep { page: None, ended: Some(reason) },
        }
    }

    /// The trailer, which follows the head. `next` is the cursor at the walk's position, which a response that reached the
    /// end does not carry.
    pub fn trailer(&self, ended_by: ResponseEndedBy, next: Option<String>) -> (trailer:
        ItemsTrailer)
        requires
            self.head_sent,
        ensures
            trailer.pages == self.pages,
            trailer.rows == self.rows,
            trailer.ended_by == ended_by,
            trailer.next == if ended_by == ResponseEndedBy::End {
                None
            } else {
                next
            },
    {
        let next: Option<String> = match ended_by {
            ResponseEndedBy::End => None,
            _ => next,
        };
        ItemsTrailer { pages: self.pages, rows: self.rows, next, ended_by }
    }
}

/// A page starts only while a whole page more fits the response's bytes: a response of pages within
/// their ceiling never passes its own. A page that follows another starts only while the pages are
/// not all sent and time is left.
pub proof fn law_a_response_keeps_to_its_budget(
    response: Response,
    limits: ItemsLimits,
    pages: Option<u32>,
    out_of_time: bool,
    cancelled: bool,
    page_bytes: usize,
)
    requires
        ends_before_page(response, limits, pages, out_of_time, cancelled) is None,
        page_bytes <= limits.max_page_bytes,
    ensures
        response.bytes + limits.max_page_bytes <= limits.response_bytes,
        response.bytes + page_bytes <= limits.response_bytes,
        response.pages > 0 ==> (pages matches Some(limit) ==> response.pages + 1 <= limit),
        response.pages > 0 ==> !out_of_time,
        !cancelled,
{
}

/// Every page that holds rows says how many it kept and why it ended: for its bytes where it kept
/// fewer than were taken, for its rows where it is full, for time where the walk stopped, and at the
/// read's end where none remains. A walk that stopped ends the response for its reason.
pub proof fn law_a_page_says_why_it_ended(
    held: nat,
    kept: nat,
    bytes: usize,
    walked: Walked,
)
    requires
        kept <= held <= u64::MAX,
    ensures
        ({
            let page = page_of(held, kept, bytes, walked);
            &&& page is Rows <==> held > 0
            &&& page is Rows ==> page->rows == kept && page->bytes == bytes
            &&& page is Rows ==> (page->ended_by is Bytes <==> kept < held)
            &&& page is Rows && kept == held ==> (page->ended_by is End <==> walked is End) && (
            page->ended_by is Time <==> walked is Stopped) && (page->ended_by is Rows
                <==> walked is Filled)
            &&& page is Rows ==> (page->then is Some <==> walked is Stopped) && (walked is Stopped
                ==> page->then->0 == walked->Stopped_0)
            &&& held == 0 && walked is Stopped ==> page is Stopped && page->Stopped_0
                == walked->Stopped_0
            &&& held == 0 && !(walked is Stopped) ==> page is End
        }),
{
}

/// A response ends before a page for the first of these that holds: it sent as many pages as were
/// asked for, a page more might pass its bytes, its time has run out, it was cancelled. Pages and
/// time end no response that has sent none.
pub proof fn law_a_response_says_why_it_ended(
    response: Response,
    limits: ItemsLimits,
    pages: Option<u32>,
    out_of_time: bool,
    cancelled: bool,
)
    ensures
        ({
            let ended = ends_before_page(response, limits, pages, out_of_time, cancelled);
            let sent = response.pages > 0 && pages is Some && response.pages >= pages->0;
            let full = response.bytes + limits.max_page_bytes > limits.response_bytes;
            let late = response.pages > 0 && out_of_time;
            &&& ended is None <==> !sent && !full && !late && !cancelled
            &&& ended == Some(ResponseEndedBy::Pages) <==> sent
            &&& ended == Some(ResponseEndedBy::BudgetBytes) <==> !sent && full
            &&& ended == Some(ResponseEndedBy::BudgetTime) <==> !sent && !full && late
            &&& ended == Some(ResponseEndedBy::Deadline) <==> !sent && !full && !late && cancelled
            &&& ended != Some(ResponseEndedBy::End)
        }),
{
}

/// A response ends after a page where the read ended there, or the walk stopped, and goes on
/// otherwise: a page that is full, or cut, or short of time only, is followed by another.
pub proof fn law_a_response_ends_where_the_read_does(page: Paged)
    ensures
        page is End ==> ends_after_page(page) == Some(ResponseEndedBy::End),
        page is Stopped ==> ends_after_page(page) == Some(page->Stopped_0),
        page is Rows && page->ended_by is End ==> ends_after_page(page) == Some(
            ResponseEndedBy::End,
        ),
        page is Rows && !(page->ended_by is End) && page->then is Some ==> ends_after_page(page)
            == page->then,
        ends_after_page(page) is None <==> page is Rows && !(page->ended_by is End)
            && page->then is None,
{
}

/// The head counts as visible every row that the mask admits, and as matched those of them that lie
/// in the view and that the filter holds, or all of them where there is no filter.
pub proof fn law_the_head_counts_what_is_visible_and_matched(
    mask: Set<u32>,
    total: u32,
    filter: Option<Set<u32>>,
    counts: ItemsCounts,
)
    requires
        counts_items(mask, total, filter, counts),
    ensures
        counts.visible == mask.len(),
        filter is None ==> counts.matched == mask.len(),
        filter matches Some(rows) ==> counts.matched == Set::new(
            |row: u32| mask.contains(row) && rows.contains(row) && row < total,
        ).len(),
{
    if let Some(rows) = filter {
        assert(mask.intersect(span(0, total as int)).intersect(rows) =~= Set::new(
            |row: u32| mask.contains(row) && rows.contains(row) && row < total,
        ));
    }
}

/// A page that was cut leaves its read at the last row it kept: at that row's code and place in map
/// order, at its entity in stored order. One that was not cut leaves it where the walk ended.
pub proof fn law_a_cut_page_ends_at_its_last_row(
    walk: Walk,
    segments: Seq<SegmentRows>,
    rows: Seq<Taken>,
    position: Position,
    kept: int,
    after: Walk,
)
    requires
        ends_page(walk, segments, rows, position, kept, after),
        rows.len() > 0 ==> 0 < kept <= rows.len(),
    ensures
        kept < rows.len() ==> {
            let row = rows[kept - 1];
            &&& after.position.order == walk.position.order
            &&& after.position.scan is Some
            &&& walk.position.order is Stored ==> after.position.scan->0 == (row.entity, 0u64)
            &&& walk.position.order is ByMap ==> after.position.scan->0
                == segments[row.seg as int].key(row.local as int)
        },
        kept >= rows.len() ==> after.position == position,
{
}

} // verus!
