//! The walk: which tiles of one depth hold a visible row of one segment.
//!
//! Rows are stored in Morton order within a segment, so a tile is a contiguous range of the code
//! column. The walk takes the mask's visible runs and hops inside each from one occupied tile's
//! boundary to the next by exponential search.

use croaring::Bitmap;
use vstd::prelude::*;

use crate::bitmap::{bits, span};
use crate::runs::{apart, covered, covers, rows_of, visible_runs};

verus! {

/// How many rows are asked of the mask at a time.
pub const CHUNK_ROWS: u32 = 4_194_304;

/// One segment of a view: its Morton codes, ascending, and where its rows begin in the view's row
/// space.
#[derive(Debug)]
pub struct SegmentCodes {
    pub codes: Vec<u32>,
    pub row_count: u32,
    pub row_base: u32,
}

/// Not descending.
pub open spec fn ascends(codes: Seq<u32>) -> bool {
    forall|i: int, j: int| 0 <= i < j < codes.len() ==> codes[i] <= codes[j]
}

impl SegmentCodes {
    /// How many rows have a code.
    pub open spec fn rows(&self) -> int {
        if self.row_count < self.codes@.len() {
            self.row_count as int
        } else {
            self.codes@.len() as int
        }
    }

    pub open spec fn wf(&self) -> bool {
        &&& ascends(self.codes@)
        &&& self.codes@.len() <= u32::MAX
        &&& self.row_base + self.rows() <= u32::MAX
    }

    /// Whether the segment's row `r` is visible.
    pub open spec fn sees(&self, mask: Set<u32>, r: int) -> bool {
        mask.contains((self.row_base + r) as u32)
    }

    /// The tiles of `depth` that hold a visible row below `n`.
    pub open spec fn tiles_before(&self, mask: Set<u32>, depth: u8, n: int) -> Set<u64> {
        Set::new(
            |t: u64|
                exists|r: int|
                    0 <= r < n && #[trigger] self.sees(mask, r) && tile_at(self.codes@[r], depth)
                        == t,
        )
    }

    /// The tiles of `depth` that hold a visible row of this segment.
    pub open spec fn occupied(&self, mask: Set<u32>, depth: u8) -> Set<u64> {
        self.tiles_before(mask, depth, self.rows())
    }
}

/// The depth's tile that a Morton code lies in.
pub open spec fn tile_at(code: u32, depth: u8) -> u64 {
    (code as u64) >> ((32 - 2 * depth) as u64)
}

pub(crate) fn tile_of(code: u32, depth: u8) -> (tile: u64)
    requires
        depth <= 16,
    ensures
        tile == tile_at(code, depth),
{
    let shift: u64 = 32 - 2 * depth as u64;
    (code as u64) >> shift
}

/// Strictly ascending.
pub open spec fn climbs(tiles: Seq<u64>) -> bool {
    forall|i: int, j: int| 0 <= i < j < tiles.len() ==> tiles[i] < tiles[j]
}

/// Not descending from `lo` to before `hi`.
pub open spec fn ascends_between(codes: Seq<u32>, lo: int, hi: int) -> bool {
    forall|i: int, j: int| lo <= i < j < hi ==> codes[i] <= codes[j]
}

/// Where a search that begins at `from` begins: no later than the end.
pub open spec fn begins(from: int, end: int) -> int {
    if from < end {
        from
    } else {
        end
    }
}

/// The first position at or after `from` and before `end` whose code is at least `target`, or
/// `end`: by exponential search out from `from`, then binary search. The codes ascend from there
/// on, and a search past the end finds the end.
pub fn gallop(codes: &Vec<u32>, end: usize, from: usize, target: u64) -> (at: usize)
    requires
        end <= codes@.len(),
        ascends_between(codes@, begins(from as int, end as int), end as int),
    ensures
        begins(from as int, end as int) <= at <= end,
        forall|k: int| begins(from as int, end as int) <= k < at ==> (#[trigger] codes@[k]) < target,
        forall|k: int| at <= k < end ==> (#[trigger] codes@[k]) >= target,
{
    let base: usize = if from < end {
        from
    } else {
        end
    };
    let mut lo: usize = base;
    let mut step: usize = 1;
    while lo < end && step <= end - base && (codes[base + step - 1] as u64) < target
        invariant
            ascends_between(codes@, base as int, end as int),
            base <= lo <= end <= codes@.len(),
            1 <= step,
            lo < base + step || lo == end,
            forall|k: int| base <= k < lo ==> (#[trigger] codes@[k]) < target,
        decreases end - lo,
    {
        proof {
            assert forall|k: int| base <= k < base + step implies (#[trigger] codes@[k])
                < target by {
                let top = base + step - 1;
                assert(codes@[top] < target);
                if k < top {
                    assert(codes@[k] <= codes@[top]);
                }
            }
        }
        lo = base + step;
        step = if step <= usize::MAX / 2 {
            step * 2
        } else {
            usize::MAX
        };
    }
    let mut hi: usize = if lo < end && step <= end - base {
        base + step
    } else {
        end
    };
    proof {
        if lo < end && step <= end - base {
            assert forall|k: int| hi <= k < end implies (#[trigger] codes@[k]) >= target by {
                let top = base + step - 1;
                assert(codes@[top] >= target);
                if top < k {
                    assert(codes@[top] <= codes@[k]);
                }
            }
        }
    }
    while lo < hi
        invariant
            ascends_between(codes@, base as int, end as int),
            base <= lo <= hi <= end <= codes@.len(),
            forall|k: int| base <= k < lo ==> (#[trigger] codes@[k]) < target,
            forall|k: int| hi <= k < end ==> (#[trigger] codes@[k]) >= target,
        decreases hi - lo,
    {
        let mid: usize = lo + (hi - lo) / 2;
        if (codes[mid] as u64) < target {
            proof {
                assert forall|k: int| base <= k < mid + 1 implies (#[trigger] codes@[k])
                    < target by {
                    if k < mid {
                        assert(codes@[k] <= codes@[mid as int]);
                    }
                }
            }
            lo = mid + 1;
        } else {
            proof {
                assert forall|k: int| mid <= k < end implies (#[trigger] codes@[k]) >= target by {
                    if k > mid {
                        assert(codes@[mid as int] <= codes@[k]);
                    }
                }
            }
            hi = mid;
        }
    }
    lo
}

/// Codes within one tile's bounds lie in that tile.
proof fn lemma_same_tile(low: u32, code: u32, depth: u8)
    requires
        depth <= 16,
        low <= code,
        code < ((tile_at(low, depth) + 1) as u64) << ((32 - 2 * depth) as u64),
    ensures
        tile_at(code, depth) == tile_at(low, depth),
{
    let c = code as u64;
    let l = low as u64;
    let s = (32 - 2 * depth) as u64;
    let t = tile_at(low, depth);
    assert(t <= 0xffff_ffffu64) by (bit_vector)
        requires
            t == l >> s,
            l <= 0xffff_ffffu64,
    ;
    let u = (t + 1) as u64;
    assert(c >> s == t) by (bit_vector)
        requires
            t == l >> s,
            l <= c,
            c <= 0xffff_ffffu64,
            s <= 32,
            u == t + 1,
            c < u << s,
    ;
}

/// Later codes lie in the same tile or a later one.
pub proof fn lemma_tiles_ascend(a: u32, b: u32, depth: u8)
    requires
        depth <= 16,
        a <= b,
    ensures
        tile_at(a, depth) <= tile_at(b, depth),
{
    let x = a as u64;
    let y = b as u64;
    let s = (32 - 2 * depth) as u64;
    assert(x >> s <= y >> s) by (bit_vector)
        requires
            x <= y,
    ;
}

/// A tile index is below four to the depth.
pub proof fn lemma_tile_bound(code: u32, depth: u8)
    requires
        depth <= 16,
    ensures
        tile_at(code, depth) < 1u64 << ((2 * depth) as u64),
        tile_at(code, depth) <= 0xffff_ffff,
{
    let c = code as u64;
    let s = (32 - 2 * depth) as u64;
    let d = (2 * depth) as u64;
    assert(c >> s < 1u64 << d && c >> s <= 0xffff_ffffu64) by (bit_vector)
        requires
            c <= 0xffff_ffffu64,
            s == 32 - d,
            d <= 32,
    ;
}

/// Credit every occupied tile of one run of visible rows.
fn visit_run(
    segment: &SegmentCodes,
    mask: &Bitmap,
    depth: u8,
    start: u32,
    end: u32,
    tiles: &mut Vec<u64>,
)
    requires
        segment.wf(),
        depth <= 16,
        start < end <= segment.rows(),
        climbs(old(tiles)@),
        old(tiles)@.to_set() == segment.tiles_before(bits(*mask), depth, start as int),
        forall|r: int| start <= r < end ==> #[trigger] segment.sees(bits(*mask), r),
    ensures
        climbs(final(tiles)@),
        final(tiles)@.to_set() == segment.tiles_before(bits(*mask), depth, end as int),
{
    let ghost seen = bits(*mask);
    let stop: usize = end as usize;
    let shift: u64 = 32 - 2 * depth as u64;
    let mut i: usize = start as usize;
    while i < stop
        invariant
            segment.wf(),
            depth <= 16,
            shift == 32 - 2 * depth,
            stop == end,
            start <= i <= stop <= segment.rows(),
            seen == bits(*mask),
            climbs(tiles@),
            tiles@.to_set() == segment.tiles_before(seen, depth, i as int),
            forall|r: int| start <= r < end ==> #[trigger] segment.sees(seen, r),
        decreases stop - i,
    {
        let ghost before = tiles@;
        let ghost at = i as int;
        let tile: u64 = tile_of(segment.codes[i], depth);
        proof {
            lemma_tile_bound(segment.codes@[at], depth);
            assert forall|k: int| 0 <= k < before.len() implies (#[trigger] before[k]) <= tile by {
                assert(before.contains(before[k]));
                assert(before.to_set().contains(before[k]));
                let r = choose|r: int|
                    0 <= r < at && #[trigger] segment.sees(seen, r) && tile_at(
                        segment.codes@[r],
                        depth,
                    ) == before[k];
                lemma_tiles_ascend(segment.codes@[r], segment.codes@[at], depth);
            }
        }
        if tiles.len() == 0 || tiles[tiles.len() - 1] != tile {
            tiles.push(tile);
            proof {
                assert forall|a: int, b: int| 0 <= a < b < tiles@.len() implies tiles@[a]
                    < tiles@[b] by {
                    if b == before.len() {
                        assert(before[before.len() - 1] < tile);
                        if a < before.len() - 1 {
                            assert(before[a] < before[before.len() - 1]);
                        }
                    }
                }
            }
        }
        proof {
        }
        let target: u64 = (tile + 1) << shift;
        i = gallop(&segment.codes, stop, i + 1, target);
        proof {
            let now = tiles@;
            let after = segment.tiles_before(seen, depth, i as int);
            assert forall|r: int| at <= r < i implies tile_at(
                #[trigger] segment.codes@[r],
                depth,
            ) == tile by {
                if r > at {
                    assert(segment.codes@[at] <= segment.codes@[r]);
                    assert(segment.codes@[r] < target);
                    lemma_same_tile(segment.codes@[at], segment.codes@[r], depth);
                }
            }
            assert forall|t: u64| now.to_set().contains(t) == after.contains(t) by {
                assert(now.to_set().contains(t) == now.contains(t));
                assert(before.to_set().contains(t) == before.contains(t));
                if now.contains(t) {
                    let k = choose|k: int| 0 <= k < now.len() && now[k] == t;
                    if k < before.len() {
                        assert(before[k] == t);
                        assert(before.to_set().contains(t));
                        let r = choose|r: int|
                            0 <= r < at && #[trigger] segment.sees(seen, r) && tile_at(
                                segment.codes@[r],
                                depth,
                            ) == t;
                        assert(segment.sees(seen, r));
                    } else {
                        assert(segment.sees(seen, at));
                    }
                }
                if after.contains(t) {
                    let r = choose|r: int|
                        0 <= r < i && #[trigger] segment.sees(seen, r) && tile_at(
                            segment.codes@[r],
                            depth,
                        ) == t;
                    if r < at {
                        assert(segment.sees(seen, r));
                        assert(before.to_set().contains(t));
                        let k = choose|k: int| 0 <= k < before.len() && before[k] == t;
                        assert(now[k] == t);
                    } else {
                        assert(tile_at(segment.codes@[r], depth) == tile);
                        assert(now[now.len() - 1] == tile);
                    }
                }
            }
            assert(now.to_set() =~= after);
        }
    }
}

/// Rows that nothing sees credit nothing.
proof fn lemma_unseen_rows(segment: SegmentCodes, mask: Set<u32>, depth: u8, n: int, more: int)
    requires
        n <= more,
        forall|r: int| n <= r < more ==> !(#[trigger] segment.sees(mask, r)),
    ensures
        segment.tiles_before(mask, depth, n) == segment.tiles_before(mask, depth, more),
{
    let a = segment.tiles_before(mask, depth, n);
    let b = segment.tiles_before(mask, depth, more);
    assert forall|t: u64| a.contains(t) == b.contains(t) by {
        if a.contains(t) {
            let r = choose|r: int|
                0 <= r < n && #[trigger] segment.sees(mask, r) && tile_at(segment.codes@[r], depth)
                    == t;
            assert(segment.sees(mask, r));
        }
        if b.contains(t) {
            let r = choose|r: int|
                0 <= r < more && #[trigger] segment.sees(mask, r) && tile_at(
                    segment.codes@[r],
                    depth,
                ) == t;
            assert(segment.sees(mask, r) && r < n);
        }
    }
    assert(a =~= b);
}

/// The tiles of one chunk of rows join the tiles of those before it.
fn visit_chunk(
    segment: &SegmentCodes,
    mask: &Bitmap,
    depth: u8,
    start: u32,
    end: u32,
    tiles: &mut Vec<u64>,
)
    requires
        segment.wf(),
        depth <= 16,
        start <= end <= segment.rows(),
        climbs(old(tiles)@),
        old(tiles)@.to_set() == segment.tiles_before(bits(*mask), depth, start as int),
    ensures
        climbs(final(tiles)@),
        final(tiles)@.to_set() == segment.tiles_before(bits(*mask), depth, end as int),
{
    let ghost seen = bits(*mask);
    let base: u32 = segment.row_base;
    let runs = visible_runs(mask, base + start, base + end);
    let ghost window = seen.intersect(span(base + start, base + end));
    proof {
        assert forall|r: int| start <= r < end implies #[trigger] segment.sees(seen, r) == covered(
            runs@,
            base + r,
        ) by {
            let x = (base + r) as u32;
            assert(rows_of(runs@).contains(x) == window.contains(x));
        }
    }
    let mut k: usize = 0;
    let mut done: u32 = start;
    while k < runs.len()
        invariant
            segment.wf(),
            depth <= 16,
            base == segment.row_base,
            start <= done <= end <= segment.rows(),
            k <= runs@.len(),
            seen == bits(*mask),
            apart(runs@),
            forall|i: int|
                0 <= i < runs@.len() ==> base + start <= (#[trigger] runs@[i]).0 && runs@[i].1
                    <= base + end,
            forall|r: int|
                start <= r < end ==> #[trigger] segment.sees(seen, r) == covered(runs@, base + r),
            k == 0 ==> done == start,
            k > 0 ==> base + done == runs@[k - 1].1,
            climbs(tiles@),
            tiles@.to_set() == segment.tiles_before(seen, depth, done as int),
        decreases runs@.len() - k,
    {
        let from: u32 = runs[k].0 - base;
        let to: u32 = runs[k].1 - base;
        proof {
            if k > 0 {
                assert(runs@[k - 1].1 < runs@[k as int].0);
            }
            assert forall|r: int| done <= r < from implies !(#[trigger] segment.sees(seen, r)) by {
                if covered(runs@, base + r) {
                    let i = choose|i: int|
                        0 <= i < runs@.len() && covers(#[trigger] runs@[i], base + r);
                    if i < k {
                        if i < k - 1 {
                            assert(runs@[i].1 < runs@[k - 1].0);
                        }
                    } else if i > k {
                        assert(runs@[k as int].1 < runs@[i].0);
                    }
                }
            }
            lemma_unseen_rows(*segment, seen, depth, done as int, from as int);
            assert forall|r: int| from <= r < to implies #[trigger] segment.sees(seen, r) by {
                assert(covers(runs@[k as int], base + r));
            }
        }
        visit_run(segment, mask, depth, from, to, tiles);
        done = to;
        k += 1;
    }
    proof {
        assert forall|r: int| done <= r < end implies !(#[trigger] segment.sees(seen, r)) by {
            if covered(runs@, base + r) {
                let i = choose|i: int| 0 <= i < runs@.len() && covers(#[trigger] runs@[i], base + r);
                if i < runs@.len() - 1 {
                    assert(runs@[i].1 < runs@[runs@.len() - 1].0);
                }
            }
        }
        lemma_unseen_rows(*segment, seen, depth, done as int, end as int);
    }
}

/// Every tile of `depth` that holds a row of `segment` visible to `mask`, ascending and without
/// repetition.
pub fn for_each_occupied_tile(mask: &Bitmap, segment: &SegmentCodes, depth: u8) -> (tiles: Vec<u64>)
    requires
        segment.wf(),
        depth <= 16,
    ensures
        climbs(tiles@),
        tiles@.to_set() == segment.occupied(bits(*mask), depth),
{
    let rows: u32 = if (segment.row_count as usize) < segment.codes.len() {
        segment.row_count
    } else {
        segment.codes.len() as u32
    };
    let mut tiles: Vec<u64> = Vec::new();
    let mut start: u32 = 0;
    proof {
        assert(tiles@.to_set() =~= segment.tiles_before(bits(*mask), depth, 0));
    }
    while start < rows
        invariant
            segment.wf(),
            depth <= 16,
            start <= rows,
            rows == segment.rows(),
            climbs(tiles@),
            tiles@.to_set() == segment.tiles_before(bits(*mask), depth, start as int),
        decreases rows - start,
    {
        let end: u32 = if rows - start > CHUNK_ROWS {
            start + CHUNK_ROWS
        } else {
            rows
        };
        visit_chunk(segment, mask, depth, start, end, &mut tiles);
        start = end;
    }
    tiles
}

} // verus!
