//! What the pages of a read come to: each admitted row between two scan positions once, in order.

use vstd::prelude::*;

use crate::records::stretch::{
    keys_distinct, law_the_scan_passes_over_no_admitted_row, TakeEnd,
};
use crate::records::take::{
    is_row, item_row, items_ascend, lemma_one_place, locates, place_of, placed, row_before,
    taken_at, takes, MapTake, PageMask, StoredTake,
};
use crate::records::walk::{
    before_of, below, furthest, key_le, key_lt, lemma_before, past, row_key, scan_ge, segments_wf,
    Key, SegmentRows, Taken,
};
use crate::records::RecordsOrder;

verus! {

/// The key of a segment's row in an order.
pub open spec fn place_key(
    order: RecordsOrder,
    segments: Seq<SegmentRows>,
    s: int,
    local: int,
) -> Key {
    match order {
        RecordsOrder::ByMap => segments[s].key(local),
        RecordsOrder::Stored => (segments[s].entities@[local], 0),
    }
}

/// Whether a segment holds a row there.
pub open spec fn place(segments: Seq<SegmentRows>, s: int, local: int) -> bool {
    0 <= s < segments.len() && 0 <= local < segments[s].count()
}

/// Whether rows are the admitted ones past `scan` and not past `next`, each once, in order.
pub open spec fn covers(
    order: RecordsOrder,
    segments: Seq<SegmentRows>,
    page: PageMask,
    rows: Seq<Taken>,
    scan: Option<Key>,
    next: Option<Key>,
) -> bool {
    &&& scan_ge(next, scan)
    &&& forall|n: int|
        0 <= n < rows.len() ==> is_row(#[trigger] rows[n], segments, page) && past(
            row_key(order, segments, rows[n]),
            scan,
        ) && !past(row_key(order, segments, rows[n]), next)
    &&& forall|n: int, m: int|
        0 <= n < m < rows.len() ==> key_lt(
            row_key(order, segments, #[trigger] rows[n]),
            row_key(order, segments, #[trigger] rows[m]),
        )
    &&& forall|s: int, local: int|
        place(segments, s, local) && #[trigger] takes(segments[s], page, local) && past(
            place_key(order, segments, s, local),
            scan,
        ) && !past(place_key(order, segments, s, local), next) ==> taken_at(rows, 0, s, local)
}

/// A page holding no row covers nothing past its scan position.
pub proof fn law_an_empty_page_covers_nothing(
    order: RecordsOrder,
    segments: Seq<SegmentRows>,
    page: PageMask,
    scan: Option<Key>,
)
    ensures
        covers(order, segments, page, Seq::empty(), scan, scan),
{
}

/// Rows taken earlier in the page stay taken.
proof fn lemma_taken_stays(rows: Seq<Taken>, from: int, s: int, local: int)
    requires
        0 <= from <= rows.len(),
        taken_at(rows.take(from), 0, s, local),
    ensures
        taken_at(rows, 0, s, local),
{
    let n = choose|n: int|
        0 <= n < rows.take(from).len() && (#[trigger] rows.take(from)[n]).seg == s && rows.take(
            from,
        )[n].local == local;
    assert(rows[n] == rows.take(from)[n]);
}

/// How a map take ends, and the scan position the walk moves to.
pub open spec fn map_ends(
    take: MapTake,
    segments: Seq<SegmentRows>,
    rows: Seq<Taken>,
    scan: Option<Key>,
    until: Option<Key>,
    end: TakeEnd,
    next: Option<Key>,
) -> bool {
    match end {
        TakeEnd::Stopped(_, key) => {
            &&& next == furthest(scan, before_of(key))
            &&& forall|t: int|
                0 <= t < segments.len() && (#[trigger] take.runs@[t]).left() ==> key_le(
                    key,
                    segments[t].key(take.runs@[t].reached()),
                )
            &&& exists|t: int|
                0 <= t < segments.len() && (#[trigger] take.runs@[t]).left() && key
                    == segments[t].key(take.runs@[t].reached())
        },
        TakeEnd::Done => {
            ||| take.from < rows.len() && next == Some(
                row_key(RecordsOrder::ByMap, segments, rows.last()),
            )
            ||| (forall|t: int| 0 <= t < segments.len() ==> !(#[trigger] take.runs@[t]).left())
                && next == match until {
                Some(u) => furthest(scan, before_of(u)),
                None => Some((u32::MAX, u64::MAX)),
            }
        },
    }
}

/// A page in map order that covers what lies up to the position a take begins after covers, when the
/// take ends, what lies up to the position the walk moves to.
pub proof fn law_a_map_take_extends_its_page(
    take: MapTake,
    segments: Seq<SegmentRows>,
    page: PageMask,
    rows: Seq<Taken>,
    start: Option<Key>,
    scan: Option<Key>,
    until: Option<Key>,
    end: TakeEnd,
    next: Option<Key>,
)
    requires
        take.wf(segments, page, rows),
        take.within(segments, scan, until),
        keys_distinct(segments),
        map_ends(take, segments, rows, scan, until, end, next),
        covers(RecordsOrder::ByMap, segments, page, rows.take(take.from as int), start, scan),
    ensures
        covers(RecordsOrder::ByMap, segments, page, rows, start, next),
{
    let order = RecordsOrder::ByMap;
    let from = take.from as int;
    assert forall|n: int| from <= n < rows.len() implies is_row(#[trigger] rows[n], segments, page)
        && past(row_key(order, segments, rows[n]), scan) && below(
        row_key(order, segments, rows[n]),
        until,
    ) by {
        let s = rows[n].seg as int;
        let run = take.runs@[s];
        assert(run.wf(segments[s], page));
        assert(run.first <= rows[n].local < run.reached());
    }
    assert forall|n: int, m: int| from <= n < m < rows.len() implies key_lt(
        row_key(order, segments, #[trigger] rows[n]),
        row_key(order, segments, #[trigger] rows[m]),
    ) by {
        assert(is_row(rows[n], segments, page) && is_row(rows[m], segments, page));
        assert(row_before(
            segments,
            rows[n].seg as int,
            rows[n].local as int,
            rows[m].seg as int,
            rows[m].local as int,
        ));
    }
    assert forall|n: int| from <= n < rows.len() implies !past(
        row_key(order, segments, #[trigger] rows[n]),
        next,
    ) by {
        let key = row_key(order, segments, rows[n]);
        match end {
            TakeEnd::Stopped(_, first) => {
                let t = choose|t: int|
                    0 <= t < segments.len() && (#[trigger] take.runs@[t]).left() && first
                        == segments[t].key(take.runs@[t].reached());
                assert(take.runs@[t].wf(segments[t], page));
                assert(row_before(
                    segments,
                    rows[n].seg as int,
                    rows[n].local as int,
                    t,
                    take.runs@[t].reached(),
                ));
                assert(is_row(rows[n], segments, page));
                assert(key_lt(key, first));
                lemma_before(first, key);
            },
            TakeEnd::Done => {
                if take.from < rows.len() && next == Some(
                    row_key(order, segments, rows.last()),
                ) {
                    if n < rows.len() - 1 {
                        assert(key_lt(key, row_key(order, segments, rows[rows.len() - 1])));
                    }
                } else {
                    match until {
                        Some(u) => {
                            lemma_before(u, key);
                        },
                        None => {},
                    }
                }
            },
        }
    }
    if end is Done && take.from < rows.len() {
        assert(past(row_key(order, segments, rows[rows.len() - 1]), scan));
    }
    assert(scan_ge(next, scan));
    assert forall|n: int| 0 <= n < rows.len() implies is_row(#[trigger] rows[n], segments, page)
        && past(row_key(order, segments, rows[n]), start) && !past(
        row_key(order, segments, rows[n]),
        next,
    ) by {
        if n < from {
            assert(rows.take(from)[n] == rows[n]);
        }
    }
    assert forall|n: int, m: int| 0 <= n < m < rows.len() implies key_lt(
        row_key(order, segments, #[trigger] rows[n]),
        row_key(order, segments, #[trigger] rows[m]),
    ) by {
        if n < from {
            assert(rows.take(from)[n] == rows[n]);
            if m < from {
                assert(rows.take(from)[m] == rows[m]);
            }
        }
    }
    assert forall|s: int, local: int|
        place(segments, s, local) && #[trigger] takes(segments[s], page, local) && past(
            place_key(order, segments, s, local),
            start,
        ) && !past(place_key(order, segments, s, local), next) implies taken_at(
        rows,
        0,
        s,
        local,
    ) by {
        let key = segments[s].key(local);
        if past(key, scan) {
            if let TakeEnd::Stopped(_, first) = end {
                let t = choose|t: int|
                    0 <= t < segments.len() && (#[trigger] take.runs@[t]).left() && first
                        == segments[t].key(take.runs@[t].reached());
                assert(take.runs@[t].wf(segments[t], page));
                assert(below(first, until));
            }
            law_the_scan_passes_over_no_admitted_row(
                take,
                segments,
                page,
                rows,
                scan,
                until,
                end,
                next,
                s,
                local,
            );
            let n = choose|n: int|
                from <= n < rows.len() && (#[trigger] rows[n]).seg == s && rows[n].local == local;
            assert(rows[n].seg == s);
        } else {
            assert(taken_at(rows.take(from), 0, s, local));
            lemma_taken_stays(rows, from, s, local);
        }
    }
}

/// The items kept of an ascending list ascend.
proof fn lemma_kept_items_ascend(items: Seq<(u32, u32)>, p: spec_fn((u32, u32)) -> bool)
    requires
        items_ascend(items),
    ensures
        items_ascend(items.filter(p)),
    decreases items.len(),
{
    reveal(Seq::filter);
    if items.len() > 0 {
        let front = items.drop_last();
        lemma_kept_items_ascend(front, p);
        let kept = front.filter(p);
        assert forall|i: int| 0 <= i < kept.len() implies (#[trigger] kept[i]).0 < items.last().0 by {
            assert(kept.contains(kept[i]));
            front.lemma_filter_contains_rev(p, kept[i]);
            let k = choose|k: int| 0 <= k < front.len() && front[k] == kept[i];
            assert(items[k].0 < items[items.len() - 1].0);
        }
    }
}

/// Whether each item stands with the row that is its own.
pub open spec fn numbers(segments: Seq<SegmentRows>, items: Seq<(u32, u32)>) -> bool {
    forall|i: int|
        0 <= i < items.len() ==> {
            let seg = place_of(segments, (#[trigger] items[i]).1);
            segments[seg].entities@[items[i].1 - segments[seg].base] == items[i].0
        }
}

/// Whether a list of items holds each row the page admits between two keys.
pub open spec fn lists_admitted(
    segments: Seq<SegmentRows>,
    page: PageMask,
    items: Seq<(u32, u32)>,
    scan: Option<Key>,
    until: Option<Key>,
) -> bool {
    forall|s: int, local: int|
        place(segments, s, local) && #[trigger] takes(segments[s], page, local) && past(
            place_key(RecordsOrder::Stored, segments, s, local),
            scan,
        ) && below(place_key(RecordsOrder::Stored, segments, s, local), until) ==> items.contains(
            (segments[s].entities@[local], (segments[s].base + local) as u32),
        )
}

/// How a stored take ends, and the scan position the walk moves to.
pub open spec fn stored_ends(
    take: StoredTake,
    segments: Seq<SegmentRows>,
    items: Seq<(u32, u32)>,
    rows: Seq<Taken>,
    scan: Option<Key>,
    until: Option<Key>,
    end: TakeEnd,
    next: Option<Key>,
) -> bool {
    match end {
        TakeEnd::Stopped(_, key) => {
            &&& take.at < items.len()
            &&& key == (items[take.at as int].0, 0u64)
            &&& next == furthest(scan, before_of(key))
        },
        TakeEnd::Done => {
            ||| take.from < rows.len() && next == Some(
                row_key(RecordsOrder::Stored, segments, rows.last()),
            )
            ||| take.at == items.len() && next == match until {
                Some(u) => furthest(scan, before_of(u)),
                None => Some((u32::MAX, u64::MAX)),
            }
        },
    }
}

/// The row an item is taken as is the segment's own.
proof fn lemma_item_row(
    segments: Seq<SegmentRows>,
    page: PageMask,
    items: Seq<(u32, u32)>,
    i: int,
)
    requires
        segments_wf(segments),
        segments.len() <= usize::MAX,
        numbers(segments, items),
        0 <= i < items.len(),
        placed(segments, items[i].1),
        page.admits(items[i].1),
    ensures
        is_row(item_row(segments, page, items[i]), segments, page),
        ({
            let row = item_row(segments, page, items[i]);
            &&& locates(segments, items[i].1, row.seg as int, row.local as int)
            &&& row.entity == items[i].0
        }),
{
    let seg = place_of(segments, items[i].1);
    assert(locates(segments, items[i].1, seg, items[i].1 - segments[seg].base));
    assert(segments[seg].wf());
}

/// A page in stored order that covers what lies up to the position a take begins after covers, when
/// the take ends, what lies up to the position the walk moves to.
pub proof fn law_a_stored_take_extends_its_page(
    take: StoredTake,
    segments: Seq<SegmentRows>,
    items: Seq<(u32, u32)>,
    page: PageMask,
    rows: Seq<Taken>,
    start: Option<Key>,
    scan: Option<Key>,
    until: Option<Key>,
    end: TakeEnd,
    next: Option<Key>,
)
    requires
        segments.len() <= usize::MAX,
        take.wf(segments, items, page, rows),
        forall|i: int|
            0 <= i < items.len() ==> (take.start <= i) == past(((#[trigger] items[i]).0, 0), scan)
                && below((items[i].0, 0), until),
        numbers(segments, items),
        lists_admitted(segments, page, items, scan, until),
        stored_ends(take, segments, items, rows, scan, until, end, next),
        covers(RecordsOrder::Stored, segments, page, rows.take(take.from as int), start, scan),
    ensures
        covers(RecordsOrder::Stored, segments, page, rows, start, next),
{
    let order = RecordsOrder::Stored;
    let from = take.from as int;
    let part = items.subrange(take.start as int, take.at as int);
    let p = |item: (u32, u32)| page.admits(item.1);
    let f = |item: (u32, u32)| item_row(segments, page, item);
    let kept = part.filter(p);
    assert(items_ascend(part));
    lemma_kept_items_ascend(part, p);
    assert(rows.skip(from) =~= kept.map_values(f));
    assert(rows.skip(from).len() == rows.len() - from);
    assert(kept.map_values(f).len() == kept.len());
    assert forall|n: int| from <= n < rows.len() implies (#[trigger] rows[n]) == f(
        kept[n - from],
    ) by {
        assert(rows.skip(from)[n - from] == rows[n]);
        assert(kept.map_values(f)[n - from] == f(kept[n - from]));
    }
    // Where in the list each kept item stands.
    assert forall|k: int| 0 <= k < kept.len() implies p(#[trigger] kept[k]) && exists|i: int|
        take.start <= i < take.at && #[trigger] items[i] == kept[k] by {
        assert(kept.contains(kept[k]));
        part.lemma_filter_contains_rev(p, kept[k]);
        let j = choose|j: int| 0 <= j < part.len() && part[j] == kept[k];
        assert(items[take.start + j] == kept[k]);
        lemma_kept(part, p, k);
    }
    assert forall|n: int| from <= n < rows.len() implies is_row(#[trigger] rows[n], segments, page)
        && rows[n].entity == kept[n - from].0 by {
        let k = n - from;
        let i = choose|i: int| take.start <= i < take.at && #[trigger] items[i] == kept[k];
        assert(placed(segments, items[i].1));
        lemma_item_row(segments, page, items, i);
    }
    assert forall|n: int| from <= n < rows.len() implies past(
        row_key(order, segments, #[trigger] rows[n]),
        scan,
    ) && !past(row_key(order, segments, rows[n]), next) by {
        let k = n - from;
        let key = row_key(order, segments, rows[n]);
        let i = choose|i: int| take.start <= i < take.at && #[trigger] items[i] == kept[k];
        assert(past((items[i].0, 0), scan) && below((items[i].0, 0), until));
        match end {
            TakeEnd::Stopped(_, first) => {
                assert(items[i].0 < items[take.at as int].0);
                lemma_before(first, key);
            },
            TakeEnd::Done => {
                if take.from < rows.len() && next == Some(row_key(order, segments, rows.last())) {
                    if n < rows.len() - 1 {
                        assert(kept[k].0 < kept[kept.len() - 1].0);
                        assert(rows[rows.len() - 1].entity == kept[kept.len() - 1].0);
                    }
                } else {
                    match until {
                        Some(u) => {
                            lemma_before(u, key);
                        },
                        None => {},
                    }
                }
            },
        }
    }
    if end is Done && take.from < rows.len() {
        assert(past(row_key(order, segments, rows[rows.len() - 1]), scan));
    }
    assert(scan_ge(next, scan));
    assert forall|n: int| 0 <= n < rows.len() implies is_row(#[trigger] rows[n], segments, page)
        && past(row_key(order, segments, rows[n]), start) && !past(
        row_key(order, segments, rows[n]),
        next,
    ) by {
        if n < from {
            assert(rows.take(from)[n] == rows[n]);
        }
    }
    assert forall|n: int, m: int| 0 <= n < m < rows.len() implies key_lt(
        row_key(order, segments, #[trigger] rows[n]),
        row_key(order, segments, #[trigger] rows[m]),
    ) by {
        if n < from {
            assert(rows.take(from)[n] == rows[n]);
            if m < from {
                assert(rows.take(from)[m] == rows[m]);
            }
        } else {
            assert(kept[n - from].0 < kept[m - from].0);
        }
    }
    assert forall|s: int, local: int|
        place(segments, s, local) && #[trigger] takes(segments[s], page, local) && past(
            place_key(order, segments, s, local),
            start,
        ) && !past(place_key(order, segments, s, local), next) implies taken_at(
        rows,
        0,
        s,
        local,
    ) by {
        let key = place_key(order, segments, s, local);
        let row = (segments[s].base + local) as u32;
        assert(segments[s].wf());
        if past(key, scan) {
            match end {
                TakeEnd::Stopped(_, first) => {
                    lemma_before(first, key);
                    assert(below((items[take.at as int].0, 0), until));
                },
                TakeEnd::Done => {
                    if take.from < rows.len() && next == Some(
                        row_key(order, segments, rows.last()),
                    ) {
                        let k = kept.len() - 1;
                        assert(rows[rows.len() - 1].entity == kept[k].0);
                        let j = choose|j: int|
                            take.start <= j < take.at && #[trigger] items[j] == kept[k];
                        assert(below((items[j].0, 0), until));
                    } else {
                        match until {
                            Some(u) => {
                                lemma_before(u, key);
                            },
                            None => {},
                        }
                    }
                },
            }
            assert(below(key, until));
            assert(items.contains((segments[s].entities@[local], row)));
            let i = choose|i: int|
                0 <= i < items.len() && items[i] == (segments[s].entities@[local], row);
            assert(take.start <= i);
            assert(i < take.at) by {
                if i >= take.at {
                    match end {
                        TakeEnd::Stopped(_, first) => {
                            if i > take.at {
                                assert(items[take.at as int].0 < items[i].0);
                            }
                        },
                        TakeEnd::Done => {
                            if take.from < rows.len() && next == Some(
                                row_key(order, segments, rows.last()),
                            ) {
                                let k = kept.len() - 1;
                                assert(rows[rows.len() - 1].entity == kept[k].0);
                                let j = choose|j: int|
                                    take.start <= j < take.at && #[trigger] items[j] == kept[k];
                                assert(items[j].0 < items[i].0);
                            }
                        },
                    }
                }
            }
            assert(part[i - take.start] == items[i]);
            assert(p(items[i]));
            part.lemma_filter_contains(p, i - take.start);
            let k = choose|k: int| 0 <= k < kept.len() && kept[k] == items[i];
            assert(rows[from + k] == f(items[i]));
            assert(placed(segments, items[i].1));
            lemma_item_row(segments, page, items, i);
            assert(locates(segments, row, s, row - segments[s].base));
            lemma_one_place(segments, row, s, f(items[i]).seg as int);
            assert(rows[from + k].seg == s && rows[from + k].local == local);
        } else {
            assert(taken_at(rows.take(from), 0, s, local));
            lemma_taken_stays(rows, from, s, local);
        }
    }
}

/// What is kept is kept for a reason.
proof fn lemma_kept(items: Seq<(u32, u32)>, p: spec_fn((u32, u32)) -> bool, k: int)
    requires
        0 <= k < items.filter(p).len(),
    ensures
        p(items.filter(p)[k]),
    decreases items.len(),
{
    reveal(Seq::filter);
    if items.len() > 0 {
        let kept = items.drop_last().filter(p);
        if k < kept.len() {
            lemma_kept(items.drop_last(), p, k);
        }
    }
}

/// Every response moves its read on: a stop that is honoured leaves the scan past the position the
/// response started from. It is honoured where the page holds a row, where the scan has moved, or
/// where the first key it did not reach is past the one the take began at.
pub proof fn law_an_honoured_stop_moves_the_read(
    order: RecordsOrder,
    segments: Seq<SegmentRows>,
    page: PageMask,
    rows: Seq<Taken>,
    origin: Option<Key>,
    start: Option<Key>,
    scan: Option<Key>,
    began: Key,
    key: Key,
)
    requires
        scan_ge(start, origin),
        covers(order, segments, page, rows, start, furthest(scan, before_of(key))),
        scan_ge(scan, start),
        past(began, scan),
        rows.len() > 0 || !scan_ge(origin, scan) || key_lt(began, key),
    ensures
        !scan_ge(origin, furthest(scan, before_of(key))),
{
    let next = furthest(scan, before_of(key));
    if rows.len() > 0 {
        let first = row_key(order, segments, rows[0]);
        assert(past(first, start) && !past(first, next));
    } else if scan_ge(origin, scan) {
        lemma_before(key, began);
        assert(!past(began, before_of(key)));
    }
}

/// A page cut after one of its rows covers what lies up to that row.
pub proof fn law_a_cut_page_covers_up_to_its_last_row(
    order: RecordsOrder,
    segments: Seq<SegmentRows>,
    page: PageMask,
    rows: Seq<Taken>,
    scan: Option<Key>,
    next: Option<Key>,
    kept: int,
)
    requires
        covers(order, segments, page, rows, scan, next),
        0 < kept <= rows.len(),
    ensures
        covers(
            order,
            segments,
            page,
            rows.take(kept),
            scan,
            Some(row_key(order, segments, rows[kept - 1])),
        ),
{
    let cut = rows.take(kept);
    let last = Some(row_key(order, segments, rows[kept - 1]));
    assert(past(row_key(order, segments, rows[kept - 1]), scan));
    assert forall|n: int| 0 <= n < cut.len() implies is_row(#[trigger] cut[n], segments, page)
        && past(row_key(order, segments, cut[n]), scan) && !past(
        row_key(order, segments, cut[n]),
        last,
    ) by {
        assert(cut[n] == rows[n]);
        if n < kept - 1 {
            assert(key_lt(
                row_key(order, segments, rows[n]),
                row_key(order, segments, rows[kept - 1]),
            ));
        }
    }
    assert forall|n: int, m: int| 0 <= n < m < cut.len() implies key_lt(
        row_key(order, segments, #[trigger] cut[n]),
        row_key(order, segments, #[trigger] cut[m]),
    ) by {
        assert(cut[n] == rows[n] && cut[m] == rows[m]);
    }
    assert forall|s: int, local: int|
        place(segments, s, local) && #[trigger] takes(segments[s], page, local) && past(
            place_key(order, segments, s, local),
            scan,
        ) && !past(place_key(order, segments, s, local), last) implies taken_at(
        cut,
        0,
        s,
        local,
    ) by {
        let key = place_key(order, segments, s, local);
        assert(!past(row_key(order, segments, rows[kept - 1]), next));
        assert(!past(key, next));
        let n = choose|n: int|
            0 <= n < rows.len() && (#[trigger] rows[n]).seg == s && rows[n].local == local;
        assert(is_row(rows[n], segments, page));
        assert(row_key(order, segments, rows[n]) == key);
        if n >= kept {
            assert(key_lt(
                row_key(order, segments, rows[kept - 1]),
                row_key(order, segments, rows[n]),
            ));
        }
        assert(cut[n] == rows[n]);
    }
}

/// Both orders return the same rows: where each covers the whole view, a row is returned in one
/// exactly where it is returned in the other, and that is where the page admits it.
pub proof fn law_both_orders_return_the_same_rows(
    segments: Seq<SegmentRows>,
    page: PageMask,
    by_map: Seq<Taken>,
    stored: Seq<Taken>,
    s: int,
    local: int,
)
    requires
        covers(
            RecordsOrder::ByMap,
            segments,
            page,
            by_map,
            None,
            Some((u32::MAX, u64::MAX)),
        ),
        covers(
            RecordsOrder::Stored,
            segments,
            page,
            stored,
            None,
            Some((u32::MAX, u64::MAX)),
        ),
        place(segments, s, local),
    ensures
        taken_at(by_map, 0, s, local) <==> takes(segments[s], page, local),
        taken_at(stored, 0, s, local) <==> takes(segments[s], page, local),
{
    if taken_at(by_map, 0, s, local) {
        let n = choose|n: int|
            0 <= n < by_map.len() && (#[trigger] by_map[n]).seg == s && by_map[n].local == local;
        assert(is_row(by_map[n], segments, page));
    }
    if taken_at(stored, 0, s, local) {
        let n = choose|n: int|
            0 <= n < stored.len() && (#[trigger] stored[n]).seg == s && stored[n].local == local;
        assert(is_row(stored[n], segments, page));
    }
}

/// One page of a read: what it was read from, what it returned, and the positions it lies between.
pub struct PageRead {
    pub segments: Seq<SegmentRows>,
    pub mask: PageMask,
    pub rows: Seq<Taken>,
    pub scan: Option<Key>,
    pub next: Option<Key>,
}

impl PageRead {
    /// Whether the page returned a row of this key.
    pub open spec fn gives(&self, order: RecordsOrder, key: Key) -> bool {
        exists|n: int|
            0 <= n < self.rows.len() && row_key(order, self.segments, #[trigger] self.rows[n])
                == key
    }

    /// Whether the page's view holds a row of this key that the page admits.
    pub open spec fn admits(&self, order: RecordsOrder, key: Key) -> bool {
        exists|s: int, local: int|
            place(self.segments, s, local) && #[trigger] takes(self.segments[s], self.mask, local)
                && place_key(order, self.segments, s, local) == key
    }
}

/// Whether the pages are one read, from its start to its end: each covers what lies between its
/// positions and resumes where the one before it stopped.
pub open spec fn one_read(order: RecordsOrder, pages: Seq<PageRead>) -> bool {
    &&& pages.len() > 0
    &&& pages[0].scan is None
    &&& pages.last().next == Some((u32::MAX, u64::MAX))
    &&& forall|i: int|
        0 < i < pages.len() ==> (#[trigger] pages[i]).scan == pages[i - 1].next
    &&& forall|i: int|
        0 <= i < pages.len() ==> covers(
            order,
            (#[trigger] pages[i]).segments,
            pages[i].mask,
            pages[i].rows,
            pages[i].scan,
            pages[i].next,
        )
}

proof fn lemma_positions_climb(order: RecordsOrder, pages: Seq<PageRead>, i: int, j: int)
    requires
        one_read(order, pages),
        0 <= i < j < pages.len(),
    ensures
        scan_ge(pages[j].scan, pages[i].next),
    decreases j - i,
{
    assert(pages[j].scan == pages[j - 1].next);
    if i < j - 1 {
        lemma_positions_climb(order, pages, i, j - 1);
        assert(covers(
            order,
            pages[j - 1].segments,
            pages[j - 1].mask,
            pages[j - 1].rows,
            pages[j - 1].scan,
            pages[j - 1].next,
        ));
    }
}

/// The page whose positions a key lies between.
proof fn lemma_a_page_lies_round(order: RecordsOrder, pages: Seq<PageRead>, key: Key, n: int) -> (i:
    int)
    requires
        one_read(order, pages),
        0 < n <= pages.len(),
        !past(key, pages[n - 1].next),
    ensures
        0 <= i < n,
        past(key, pages[i].scan),
        !past(key, pages[i].next),
    decreases n,
{
    if past(key, pages[n - 1].scan) {
        n - 1
    } else {
        assert(pages[n - 1].scan == pages[n - 2].next);
        lemma_a_page_lies_round(order, pages, key, n - 1)
    }
}

/// A read loses no row and repeats none, whatever generation each of its pages was built from: a
/// row that every page admits under one key is returned by exactly one of them, and no two pages
/// return rows of one key.
pub proof fn law_a_read_returns_each_row_once(order: RecordsOrder, pages: Seq<PageRead>, key: Key)
    requires
        one_read(order, pages),
    ensures
        (forall|i: int| 0 <= i < pages.len() ==> (#[trigger] pages[i]).admits(order, key))
            ==> exists|i: int| 0 <= i < pages.len() && (#[trigger] pages[i]).gives(order, key),
        forall|i: int, j: int|
            0 <= i < j < pages.len() ==> !((#[trigger] pages[i]).gives(order, key) && (
            #[trigger] pages[j]).gives(order, key)),
{
    if forall|i: int| 0 <= i < pages.len() ==> (#[trigger] pages[i]).admits(order, key) {
        let i = lemma_a_page_lies_round(order, pages, key, pages.len() as int);
        let at = pages[i];
        assert(at.admits(order, key));
        let (s, local) = choose|s: int, local: int|
            place(at.segments, s, local) && #[trigger] takes(at.segments[s], at.mask, local)
                && place_key(order, at.segments, s, local) == key;
        assert(covers(order, at.segments, at.mask, at.rows, at.scan, at.next));
        assert(taken_at(at.rows, 0, s, local));
        let n = choose|n: int|
            0 <= n < at.rows.len() && (#[trigger] at.rows[n]).seg == s && at.rows[n].local
                == local;
        assert(is_row(at.rows[n], at.segments, at.mask));
        assert(row_key(order, at.segments, at.rows[n]) == key);
        assert(pages[i].gives(order, key));
    }
    assert forall|i: int, j: int| 0 <= i < j < pages.len() implies !((
    #[trigger] pages[i]).gives(order, key) && (#[trigger] pages[j]).gives(order, key)) by {
        let (a, b) = (pages[i], pages[j]);
        if a.gives(order, key) && b.gives(order, key) {
            lemma_positions_climb(order, pages, i, j);
            assert(covers(order, a.segments, a.mask, a.rows, a.scan, a.next));
            assert(covers(order, b.segments, b.mask, b.rows, b.scan, b.next));
        }
    }
}

} // verus!
